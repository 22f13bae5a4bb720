//! The record parser: raw text tokens to typed records, row by row.
//!
//! A row must carry exactly one token per schema field, each a readable
//! decimal. A whole table is parsed in row order and fails fast: the
//! first bad row's error is the table's error and no dataset is built.

use vstd::prelude::*;
use crate::errors::DataError;
use crate::record::BostonRecord;
use crate::value::{token_micros, Value};

verus! {

/// The character sequences a sequence of token strings denotes.
pub open spec fn views_of(ts: Seq<String>) -> Seq<Seq<char>> {
    ts.map_values(|s: String| s@)
}

/// The token sequences a table of raw rows denotes.
pub open spec fn table_views(rs: Seq<Vec<String>>) -> Seq<Seq<Seq<char>>> {
    rs.map_values(|r: Vec<String>| views_of(r@))
}

/// Index of the first token that is not a readable number, or `ts.len()`
/// if every token reads.
pub open spec fn first_bad(ts: Seq<Seq<char>>) -> int
    decreases ts.len(),
{
    if ts.len() == 0 {
        0
    } else if token_micros(ts[0]) is None {
        0
    } else {
        1 + first_bad(ts.skip(1))
    }
}

/// `first_bad` is the index with good tokens before it and, inside the
/// row, a bad token at it.
proof fn lemma_first_bad_at(ts: Seq<Seq<char>>, k: int)
    requires
        0 <= k <= ts.len(),
        forall|j: int| 0 <= j < k ==> token_micros(#[trigger] ts[j]) is Some,
        k < ts.len() ==> token_micros(ts[k]) is None,
    ensures
        first_bad(ts) == k,
    decreases ts.len(),
{
    if ts.len() == 0 {
    } else if k == 0 {
    } else {
        assert(token_micros(ts[0]) is Some);
        lemma_first_bad_at(ts.skip(1), k - 1);
        assert(forall|j: int| 0 <= j < ts.len() - 1 ==> #[trigger] ts.skip(1)[j] == ts[j + 1]);
    }
}

/// The record a row of fourteen readable tokens denotes, in schema order.
pub open spec fn record_from(ts: Seq<Seq<char>>) -> BostonRecord {
    BostonRecord {
        crim: Value { micros: token_micros(ts[0]).unwrap() as i64 },
        zn: Value { micros: token_micros(ts[1]).unwrap() as i64 },
        indus: Value { micros: token_micros(ts[2]).unwrap() as i64 },
        chas: Value { micros: token_micros(ts[3]).unwrap() as i64 },
        nox: Value { micros: token_micros(ts[4]).unwrap() as i64 },
        rm: Value { micros: token_micros(ts[5]).unwrap() as i64 },
        age: Value { micros: token_micros(ts[6]).unwrap() as i64 },
        dis: Value { micros: token_micros(ts[7]).unwrap() as i64 },
        rad: Value { micros: token_micros(ts[8]).unwrap() as i64 },
        tax: Value { micros: token_micros(ts[9]).unwrap() as i64 },
        ptratio: Value { micros: token_micros(ts[10]).unwrap() as i64 },
        b: Value { micros: token_micros(ts[11]).unwrap() as i64 },
        lstat: Value { micros: token_micros(ts[12]).unwrap() as i64 },
        medv: Value { micros: token_micros(ts[13]).unwrap() as i64 },
    }
}

/// What parsing one row must yield: a wrong token count is a schema
/// mismatch; otherwise the first unreadable token's position is the
/// error; otherwise the row's record.
pub open spec fn parse_row_spec(ts: Seq<Seq<char>>) -> Result<BostonRecord, DataError> {
    if ts.len() != 14 {
        Err(DataError::SchemaMismatch)
    } else if first_bad(ts) < 14 {
        Err(DataError::MalformedValue(first_bad(ts) as usize))
    } else {
        Ok(record_from(ts))
    }
}

/// What parsing a table must yield: records in row order, or the first
/// failing row's error and nothing else.
pub open spec fn parse_table_spec(rs: Seq<Seq<Seq<char>>>) -> Result<Seq<BostonRecord>, DataError>
    decreases rs.len(),
{
    if rs.len() == 0 {
        Ok(Seq::empty())
    } else {
        match parse_row_spec(rs[0]) {
            Err(e) => Err(e),
            Ok(rec) => match parse_table_spec(rs.skip(1)) {
                Err(e) => Err(e),
                Ok(rest) => Ok(seq![rec] + rest),
            },
        }
    }
}

/// Parses one raw row of text tokens into a record.
pub fn parse_row(tokens: &Vec<String>) -> (r: Result<BostonRecord, DataError>)
    ensures
        r == parse_row_spec(views_of(tokens@)),
{
    let ghost ts = views_of(tokens@);
    if tokens.len() != 14 {
        return Err(DataError::SchemaMismatch);
    }
    let mut vals: Vec<Value> = Vec::new();
    let mut i: usize = 0;
    while i < 14
        invariant
            tokens@.len() == 14,
            ts == views_of(tokens@),
            ts.len() == 14,
            i <= 14,
            vals@.len() == i,
            forall|j: int|
                0 <= j < i ==> token_micros(#[trigger] ts[j]) == Some(vals@[j].micros as int),
        decreases 14 - i,
    {
        let t: &String = &tokens[i];
        proof {
            assert(ts[i as int] == tokens@[i as int]@);
        }
        match Value::parse(t.as_str()) {
            Some(v) => {
                vals.push(v);
            },
            None => {
                proof {
                    lemma_first_bad_at(ts, i as int);
                }
                return Err(DataError::MalformedValue(i));
            },
        }
        i = i + 1;
    }
    proof {
        lemma_first_bad_at(ts, 14);
    }
    let rec = BostonRecord {
        crim: vals[0],
        zn: vals[1],
        indus: vals[2],
        chas: vals[3],
        nox: vals[4],
        rm: vals[5],
        age: vals[6],
        dis: vals[7],
        rad: vals[8],
        tax: vals[9],
        ptratio: vals[10],
        b: vals[11],
        lstat: vals[12],
        medv: vals[13],
    };
    proof {
        assert(rec == record_from(ts));
    }
    Ok(rec)
}

/// Parses a whole raw table into a dataset, in row order, failing fast
/// on the first bad row.
pub fn parse_table(rows: &Vec<Vec<String>>) -> (r: Result<Vec<BostonRecord>, DataError>)
    ensures
        match r {
            Ok(d) => parse_table_spec(table_views(rows@)) == Ok::<Seq<BostonRecord>, DataError>(
                d@,
            ),
            Err(e) => parse_table_spec(table_views(rows@)) == Err::<Seq<BostonRecord>, DataError>(
                e,
            ),
        },
{
    let ghost tv = table_views(rows@);
    let mut out: Vec<BostonRecord> = Vec::new();
    let mut i: usize = 0;
    proof {
        assert(tv.skip(0) =~= tv);
        assert(out@ =~= Seq::<BostonRecord>::empty());
        if parse_table_spec(tv) is Ok {
            let whole = parse_table_spec(tv).unwrap();
            assert(Seq::<BostonRecord>::empty() + whole =~= whole);
        }
    }
    while i < rows.len()
        invariant
            tv == table_views(rows@),
            tv.len() == rows@.len(),
            i <= rows@.len(),
            out@.len() == i,
            parse_table_spec(tv) == (match parse_table_spec(tv.skip(i as int)) {
                Ok(rest) => Ok::<Seq<BostonRecord>, DataError>(out@ + rest),
                Err(e) => Err::<Seq<BostonRecord>, DataError>(e),
            }),
        decreases rows@.len() - i,
    {
        let ghost out_before = out@;
        let row: &Vec<String> = &rows[i];
        proof {
            assert(tv[i as int] == views_of(rows@[i as int]@));
            assert(tv.skip(i as int)[0] == tv[i as int]);
            assert(tv.skip(i as int).skip(1) =~= tv.skip(i as int + 1));
        }
        match parse_row(row) {
            Ok(rec) => {
                out.push(rec);
                proof {
                    assert(out@ =~= out_before + seq![rec]);
                    if parse_table_spec(tv.skip(i as int + 1)) is Ok {
                        let rest = parse_table_spec(tv.skip(i as int + 1)).unwrap();
                        assert(out_before + (seq![rec] + rest) =~= (out_before + seq![rec])
                            + rest);
                    }
                }
            },
            Err(e) => {
                proof {
                    assert(parse_table_spec(tv.skip(i as int)) == Err::<
                        Seq<BostonRecord>,
                        DataError,
                    >(e));
                }
                return Err(e);
            },
        }
        i = i + 1;
    }
    proof {
        assert(tv.skip(tv.len() as int) =~= Seq::<Seq<Seq<char>>>::empty());
        assert(out@ + Seq::<BostonRecord>::empty() =~= out@);
    }
    Ok(out)
}

} // verus!

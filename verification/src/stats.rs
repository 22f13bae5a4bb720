//! Order statistics over a dataset: median of a named column, and the
//! median-split binary labelling derived from it.

use vstd::prelude::*;
use vstd::relations::{sorted_by, total_ordering};
use crate::errors::DataError;
use crate::record::{col_of, BostonRecord, FieldAccessor};
use crate::value::{value_le, Value};

verus! {

/// The total order the statistics sort by: numeric order of the values.
pub open spec fn value_order() -> spec_fn(Value, Value) -> bool {
    |a: Value, b: Value| value_le(a, b)
}

/// Numeric order of values really is a total order.
pub proof fn lemma_value_order_total()
    ensures
        total_ordering(value_order()),
{
    let ord = value_order();
    assert forall|x: Value, y: Value| #[trigger] ord(x, y) && #[trigger] ord(y, x) implies x
        == y by {
        assert(x.micros == y.micros);
    }
    assert forall|x: Value| #[trigger] ord(x, x) by {}
    assert forall|x: Value, y: Value| #[trigger] ord(x, y) || #[trigger] ord(y, x) by {}
}

/// A column in ascending numeric order.
pub open spec fn sorted_col(col: Seq<Value>) -> Seq<Value> {
    col.sort_by(value_order())
}

/// Halving that truncates toward zero, as integer hardware does.
pub open spec fn half_toward_zero(x: int) -> int {
    if x >= 0 {
        x / 2
    } else {
        -((-x) / 2)
    }
}

/// The midpoint of two values, at the resolution of a millionth.
pub open spec fn avg_value(a: Value, b: Value) -> Value {
    Value { micros: half_toward_zero(a.micros + b.micros) as i64 }
}

/// The median rule over a column: sort it, let `mid` be half the length;
/// an even `mid` averages the two entries around it, an odd `mid` takes
/// the entry at it. This is the positional parity of `mid` itself, not
/// the textbook even/odd-length rule, kept deliberately.
pub open spec fn median_of(col: Seq<Value>) -> Value {
    let s = sorted_col(col);
    let mid = col.len() as int / 2;
    if mid % 2 == 0 {
        avg_value(s[mid - 1], s[mid])
    } else {
        s[mid]
    }
}

/// The median-split labelling: 1 where a value exceeds the threshold
/// strictly, 0 otherwise — ties go to the low bucket.
pub open spec fn dich_seq(col: Seq<Value>, thr: Value) -> Seq<u8> {
    col.map_values(|v: Value| if thr.micros < v.micros { 1u8 } else { 0u8 })
}

/// Swapping two entries of a sequence leaves its multiset of entries as
/// it was.
proof fn lemma_swap_multiset(s: Seq<Value>, i: int, j: int)
    requires
        0 <= i < s.len(),
        0 <= j < s.len(),
        i != j,
    ensures
        s.update(i, s[j]).update(j, s[i]).to_multiset() == s.to_multiset(),
{
    broadcast use vstd::seq_lib::to_multiset_update;
    broadcast use vstd::seq_lib::group_to_multiset_ensures;
    broadcast use vstd::multiset::group_multiset_axioms;
    broadcast use vstd::multiset::group_multiset_properties;

    let s1 = s.update(i, s[j]);
    assert(s1[j] == s[j]);
    assert(s1.to_multiset() == s.to_multiset().insert(s[j]).remove(s[i]));
    assert(s1.update(j, s[i]).to_multiset() == s1.to_multiset().insert(s[i]).remove(s[j]));
    assert(s.to_multiset().contains(s[i]));
    assert(s.to_multiset().contains(s[j]));
    assert(s.to_multiset().insert(s[j]).remove(s[i]).insert(s[i]).remove(s[j])
        =~= s.to_multiset());
}

/// Sorts a column ascending in place.
fn sort_values(v: &mut Vec<Value>)
    ensures
        final(v)@ == sorted_col(old(v)@),
        final(v)@.len() == old(v)@.len(),
{
    let ghost orig = v@;
    let mut i: usize = 1;
    while i < v.len()
        invariant
            1 <= i,
            i <= v@.len() || v@.len() == 0,
            v@.len() == orig.len(),
            v@.to_multiset() == orig.to_multiset(),
            sorted_by(v@.subrange(0, (if i <= v@.len() { i as int } else { 0int })), value_order()),
            forall|a: int, b: int|
                0 <= a < b < i && b < v@.len() ==> (#[trigger] v@[a]).micros <= (#[trigger] v@[b]).micros,
        decreases v@.len() - i,
    {
        let mut j: usize = i;
        while j > 0 && v[j - 1].micros > v[j].micros
            invariant
                0 <= j <= i < v@.len(),
                v@.len() == orig.len(),
                v@.to_multiset() == orig.to_multiset(),
                forall|a: int, b: int|
                    0 <= a < b <= i && b != j ==> (#[trigger] v@[a]).micros <= (#[trigger] v@[b]).micros,
            decreases j,
        {
            let ghost before = v@;
            let x = v[j - 1];
            let y = v[j];
            v.set(j - 1, y);
            v.set(j, x);
            proof {
                assert(v@ =~= before.update(j as int - 1, before[j as int]).update(
                    j as int,
                    before[j as int - 1],
                ));
                lemma_swap_multiset(before, j as int - 1, j as int);
            }
            j = j - 1;
        }
        proof {
            assert forall|a: int, b: int| 0 <= a < b <= i implies (#[trigger] v@[a]).micros <= (
            #[trigger] v@[b]).micros by {
                if b == j {
                    if j > 0 {
                        assert(v@[j - 1].micros <= v@[j as int].micros);
                        if a < j - 1 {
                            assert(v@[a].micros <= v@[j - 1].micros);
                        }
                    }
                }
            }
            assert(sorted_by(v@.subrange(0, i + 1int), value_order())) by {
                assert(forall|a: int, b: int|
                    0 <= a <= b < i + 1 ==> (#[trigger] v@.subrange(0, i + 1int)[a]).micros <= (
                    #[trigger] v@.subrange(0, i + 1int)[b]).micros);
            }
        }
        i = i + 1;
    }
    proof {
        lemma_value_order_total();
        if orig.len() > 0 {
            assert(v@.subrange(0, v@.len() as int) =~= v@);
            assert(sorted_by(v@, value_order()));
        } else {
            assert(v@.len() == 0);
            assert(sorted_by(v@, value_order()));
        }
        orig.lemma_sort_by_ensures(value_order());
        vstd::seq_lib::lemma_sorted_unique(v@, orig.sort_by(value_order()), value_order());
        assert(v@ =~= orig.sort_by(value_order()));
    }
}

/// The midpoint of two values, computed without overflow.
fn avg_exec(a: Value, b: Value) -> (r: Value)
    ensures
        r == avg_value(a, b),
{
    let wa: i128 = a.micros as i128;
    let wb: i128 = b.micros as i128;
    let sum: i128 = wa + wb;
    let half: i128 = if sum >= 0 {
        ((sum as u128) / 2) as i128
    } else {
        -((((-sum) as u128) / 2) as i128)
    };
    proof {
        assert(half == half_toward_zero(a.micros + b.micros));
        assert(i64::MIN <= half <= i64::MAX);
    }
    Value { micros: half as i64 }
}

/// What an `Option<&T>` holds, by value.
pub open spec fn copied_opt<T>(o: Option<&T>) -> Option<T> {
    match o {
        Some(x) => Some(*x),
        None => None,
    }
}

/// Order statistics of a dataset's named column. Each implementor states
/// in the `..._spec` predicates exactly which results the operations may
/// return, and in `stats_pre` which datasets the median rule's index
/// arithmetic is defined on.
pub trait DatasetUtils<T>: Sized {
    /// Columns the median's index rule can address.
    spec fn stats_pre(&self, name: Seq<char>) -> bool;

    /// What `median` is allowed to return for a name.
    spec fn median_spec(&self, name: Seq<char>, r: Result<T, DataError>) -> bool;

    /// What `dich` is allowed to return for a name and an optional
    /// supplied threshold.
    spec fn dich_spec(&self, name: Seq<char>, m: Option<T>, r: Result<Vec<u8>, DataError>) -> bool;

    /// The median of the named column.
    fn median(&self, field: &str) -> (r: Result<T, DataError>)
        requires
            self.stats_pre(field@),
        ensures
            self.median_spec(field@, r),
    ;

    /// The median-split labelling of the named column, against a supplied
    /// threshold or a freshly computed median.
    fn dich(&self, field: &str, median: Option<&T>) -> (r: Result<Vec<u8>, DataError>)
        requires
            median is None ==> self.stats_pre(field@),
        ensures
            self.dich_spec(field@, copied_opt(median), r),
    ;
}

impl DatasetUtils<Value> for Vec<BostonRecord> {
    /// The median rule reads the entry left of `mid` when `mid` is even,
    /// which a one-entry column does not have.
    open spec fn stats_pre(&self, name: Seq<char>) -> bool {
        col_of(self@, name).len() != 1
    }

    /// An empty column (unknown name, or no rows) is the declared
    /// failure; otherwise the median rule's value, exactly.
    open spec fn median_spec(&self, name: Seq<char>, r: Result<Value, DataError>) -> bool {
        let col = col_of(self@, name);
        if col.len() == 0 {
            r == Err::<Value, DataError>(DataError::FieldNotFoundOrEmpty)
        } else {
            r == Ok::<Value, DataError>(median_of(col))
        }
    }

    /// An empty column (unknown name, or no rows) is the declared
    /// failure whatever threshold was supplied; otherwise one label per
    /// column entry, ties low.
    open spec fn dich_spec(&self, name: Seq<char>, m: Option<Value>, r: Result<
        Vec<u8>,
        DataError,
    >) -> bool {
        let col = col_of(self@, name);
        if col.len() == 0 {
            r == Err::<Vec<u8>, DataError>(DataError::FieldNotFoundOrEmpty)
        } else {
            let thr = match m {
                Some(v) => v,
                None => median_of(col),
            };
            match r {
                Ok(out) => out@ == dich_seq(col, thr),
                Err(_) => false,
            }
        }
    }

    fn median(&self, field: &str) -> (r: Result<Value, DataError>) {
        let mut sorted = match self.get_field(field) {
            Some(v) => v,
            None => {
                proof {
                    assert(false);
                }
                return Err(DataError::FieldNotFoundOrEmpty);
            },
        };
        if sorted.len() == 0 {
            return Err(DataError::FieldNotFoundOrEmpty);
        }
        let ghost col = col_of(self@, field@);
        sort_values(&mut sorted);
        let n = sorted.len();
        let mid = n / 2;
        if mid % 2 == 0 {
            let a = sorted[mid - 1];
            let b = sorted[mid];
            Ok(avg_exec(a, b))
        } else {
            Ok(sorted[mid])
        }
    }

    fn dich(&self, field: &str, median: Option<&Value>) -> (r: Result<Vec<u8>, DataError>) {
        let values = match self.get_field(field) {
            Some(v) => v,
            None => {
                proof {
                    assert(false);
                }
                return Err(DataError::FieldNotFoundOrEmpty);
            },
        };
        if values.len() == 0 {
            return Err(DataError::FieldNotFoundOrEmpty);
        }
        let thr: Value = match median {
            Some(v) => *v,
            None => match self.median(field) {
                Ok(m) => m,
                Err(e) => {
                    return Err(e);
                },
            },
        };
        let ghost col = col_of(self@, field@);
        let mut out: Vec<u8> = Vec::new();
        let mut i: usize = 0;
        while i < values.len()
            invariant
                i <= values@.len(),
                values@ == col,
                out@ == dich_seq(col.subrange(0, i as int), thr),
            decreases values@.len() - i,
        {
            let label: u8 = if values[i].gt(&thr) {
                1
            } else {
                0
            };
            out.push(label);
            proof {
                assert(col.subrange(0, i + 1int).drop_last() =~= col.subrange(0, i as int));
                assert(dich_seq(col.subrange(0, i + 1int), thr) =~= dich_seq(
                    col.subrange(0, i as int),
                    thr,
                ).push(if thr.micros < col[i as int].micros { 1u8 } else { 0u8 }));
            }
            i = i + 1;
        }
        proof {
            assert(col.subrange(0, col.len() as int) =~= col);
        }
        Ok(out)
    }
}

/// The median does not depend on row order: two datasets whose columns
/// for a name hold the same values, however arranged, have the same
/// median.
pub proof fn lemma_median_permutation(d1: Seq<BostonRecord>, d2: Seq<BostonRecord>, name: Seq<
    char,
>)
    requires
        col_of(d1, name).to_multiset() == col_of(d2, name).to_multiset(),
    ensures
        col_of(d1, name).len() == col_of(d2, name).len(),
        median_of(col_of(d1, name)) == median_of(col_of(d2, name)),
{
    broadcast use vstd::seq_lib::group_to_multiset_ensures;

    let c1 = col_of(d1, name);
    let c2 = col_of(d2, name);
    assert(c1.to_multiset().len() == c1.len());
    assert(c2.to_multiset().len() == c2.len());
    lemma_value_order_total();
    c1.lemma_sort_by_ensures(value_order());
    c2.lemma_sort_by_ensures(value_order());
    vstd::seq_lib::lemma_sorted_unique(
        c1.sort_by(value_order()),
        c2.sort_by(value_order()),
        value_order(),
    );
    assert(sorted_col(c1) == sorted_col(c2));
}

/// Mapping a function over two sequences holding the same entries,
/// however arranged, yields results holding the same entries.
proof fn lemma_map_multiset(
    s1: Seq<BostonRecord>,
    s2: Seq<BostonRecord>,
    f: spec_fn(BostonRecord) -> Value,
)
    requires
        s1.to_multiset() == s2.to_multiset(),
    ensures
        s1.map_values(f).to_multiset() == s2.map_values(f).to_multiset(),
    decreases s1.len(),
{
    broadcast use vstd::seq_lib::group_to_multiset_ensures;
    broadcast use vstd::multiset::group_multiset_axioms;
    broadcast use vstd::multiset::group_multiset_properties;

    assert(s1.to_multiset().len() == s1.len());
    assert(s2.to_multiset().len() == s2.len());
    if s1.len() == 0 {
        assert(s1.map_values(f) =~= s2.map_values(f));
    } else {
        let x = s1[0];
        assert(s1.to_multiset().contains(x));
        assert(s2.to_multiset().contains(x));
        assert(s2.contains(x));
        let i = choose|i: int| 0 <= i < s2.len() && s2[i] == x;
        assert(s1.remove(0).to_multiset() == s1.to_multiset().remove(x));
        assert(s2.remove(i).to_multiset() == s2.to_multiset().remove(x));
        lemma_map_multiset(s1.remove(0), s2.remove(i), f);
        assert(s1.map_values(f).remove(0) =~= s1.remove(0).map_values(f));
        assert(s2.map_values(f).remove(i) =~= s2.remove(i).map_values(f));
        let m1 = s1.map_values(f).to_multiset();
        let m2 = s2.map_values(f).to_multiset();
        assert(s1.map_values(f).remove(0).to_multiset() == m1.remove(f(x)));
        assert(s2.map_values(f).remove(i).to_multiset() == m2.remove(f(x)));
        assert(m1.contains(f(x)));
        assert(m2.contains(f(x)));
        assert(m1 =~= m1.remove(f(x)).insert(f(x)));
        assert(m2 =~= m2.remove(f(x)).insert(f(x)));
    }
}

/// Row order is irrelevant to the median: two datasets holding the same
/// records, however arranged, have the same median for every field name.
pub proof fn lemma_median_row_order_irrelevant(
    d1: Seq<BostonRecord>,
    d2: Seq<BostonRecord>,
    name: Seq<char>,
)
    requires
        d1.to_multiset() == d2.to_multiset(),
    ensures
        median_of(col_of(d1, name)) == median_of(col_of(d2, name)),
{
    match crate::record::field_of_name(name) {
        Some(f) => {
            lemma_map_multiset(d1, d2, crate::record::field_projection(f));
            lemma_median_permutation(d1, d2, name);
        },
        None => {},
    }
}

/// Every median-split label is 0 or 1, and there is one per column entry.
pub proof fn lemma_dich_bits(col: Seq<Value>, thr: Value)
    ensures
        dich_seq(col, thr).len() == col.len(),
        forall|i: int|
            0 <= i < col.len() ==> (#[trigger] dich_seq(col, thr)[i] == 0 || dich_seq(
                col,
                thr,
            )[i] == 1),
{
}

/// On a valid field name and a non-empty dataset, `dich` is owed
/// success, with exactly one label per row of the dataset.
pub proof fn lemma_dich_success_len(
    d: &Vec<BostonRecord>,
    name: Seq<char>,
    m: Option<Value>,
    r: Result<Vec<u8>, DataError>,
)
    requires
        crate::record::field_of_name(name) is Some,
        d@.len() > 0,
        d.dich_spec(name, m, r),
    ensures
        r is Ok,
        r.unwrap()@.len() == d@.len(),
{
    crate::record::lemma_column_len(d@, name);
}

/// A value equal to the threshold is labelled 0: ties go to the low
/// bucket.
pub proof fn lemma_tie_goes_low(col: Seq<Value>, thr: Value, i: int)
    requires
        0 <= i < col.len(),
        col[i] == thr,
    ensures
        dich_seq(col, thr)[i] == 0,
{
}

/// Supplying the median as the explicit threshold labels exactly as
/// letting `dich` compute it: the two calls admit the same results.
pub proof fn lemma_dich_override_irrelevant(
    d: &Vec<BostonRecord>,
    name: Seq<char>,
    m: Value,
    r: Result<Vec<u8>, DataError>,
)
    requires
        d.median_spec(name, Ok(m)),
    ensures
        d.dich_spec(name, Some(m), r) == d.dich_spec(name, None::<Value>, r),
{
    let col = col_of(d@, name);
    assert(col.len() != 0);
    assert(m == median_of(col));
}

} // verus!

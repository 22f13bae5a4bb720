//! The schema: one record of the housing table, and field access by name.
//!
//! A record holds fourteen named numeric fields in a fixed order. Field
//! lookup works from a name known only at run time; an unknown name is a
//! controlled miss (`None` on a record, an empty column on a dataset).

use vstd::prelude::*;
use crate::value::Value;

verus! {

/// One row of the housing table. Every field is a fixed-point [`Value`].
#[derive(Clone, Copy, Debug, PartialEq, Eq, Structural)]
pub struct BostonRecord {
    pub crim: Value,
    pub zn: Value,
    pub indus: Value,
    pub chas: Value,
    pub nox: Value,
    pub rm: Value,
    pub age: Value,
    pub dis: Value,
    pub rad: Value,
    pub tax: Value,
    pub ptratio: Value,
    pub b: Value,
    pub lstat: Value,
    pub medv: Value,
}

/// A tag for each field of the schema, in schema order.
#[derive(Clone, Copy, Debug, PartialEq, Eq, Structural)]
pub enum Field {
    Crim,
    Zn,
    Indus,
    Chas,
    Nox,
    Rm,
    Age,
    Dis,
    Rad,
    Tax,
    Ptratio,
    B,
    Lstat,
    Medv,
}

/// The field a name denotes, or `None` for a name outside the schema.
pub open spec fn field_of_name(name: Seq<char>) -> Option<Field> {
    if name == "crim"@ {
        Some(Field::Crim)
    } else if name == "zn"@ {
        Some(Field::Zn)
    } else if name == "indus"@ {
        Some(Field::Indus)
    } else if name == "chas"@ {
        Some(Field::Chas)
    } else if name == "nox"@ {
        Some(Field::Nox)
    } else if name == "rm"@ {
        Some(Field::Rm)
    } else if name == "age"@ {
        Some(Field::Age)
    } else if name == "dis"@ {
        Some(Field::Dis)
    } else if name == "rad"@ {
        Some(Field::Rad)
    } else if name == "tax"@ {
        Some(Field::Tax)
    } else if name == "ptratio"@ {
        Some(Field::Ptratio)
    } else if name == "b"@ {
        Some(Field::B)
    } else if name == "lstat"@ {
        Some(Field::Lstat)
    } else if name == "medv"@ {
        Some(Field::Medv)
    } else {
        None
    }
}

/// The scalar a record holds for a field.
pub open spec fn field_value(r: BostonRecord, f: Field) -> Value {
    match f {
        Field::Crim => r.crim,
        Field::Zn => r.zn,
        Field::Indus => r.indus,
        Field::Chas => r.chas,
        Field::Nox => r.nox,
        Field::Rm => r.rm,
        Field::Age => r.age,
        Field::Dis => r.dis,
        Field::Rad => r.rad,
        Field::Tax => r.tax,
        Field::Ptratio => r.ptratio,
        Field::B => r.b,
        Field::Lstat => r.lstat,
        Field::Medv => r.medv,
    }
}

/// Reading one field, as a function from records to scalars.
pub open spec fn field_projection(f: Field) -> spec_fn(BostonRecord) -> Value {
    |r: BostonRecord| field_value(r, f)
}

/// The column a dataset yields for a name: one scalar per record in row
/// order for a schema name, and the empty sequence for any other name.
pub open spec fn col_of(d: Seq<BostonRecord>, name: Seq<char>) -> Seq<Value> {
    match field_of_name(name) {
        Some(f) => d.map_values(field_projection(f)),
        None => Seq::empty(),
    }
}

/// A valid name's column has one entry per record, whatever the dataset.
pub proof fn lemma_column_len(d: Seq<BostonRecord>, name: Seq<char>)
    requires
        field_of_name(name) is Some,
    ensures
        col_of(d, name).len() == d.len(),
{
}

/// An unknown name's column is empty, whatever the dataset.
pub proof fn lemma_unknown_name_empty(d: Seq<BostonRecord>, name: Seq<char>)
    requires
        field_of_name(name) is None,
    ensures
        col_of(d, name) == Seq::<Value>::empty(),
{
}

/// Character-for-character string equality.
fn str_eq(a: &str, b: &str) -> (r: bool)
    ensures
        r == (a@ == b@),
{
    let na = a.unicode_len();
    let nb = b.unicode_len();
    if na != nb {
        proof {
            assert(a@ != b@);
        }
        return false;
    }
    let mut i: usize = 0;
    while i < na
        invariant
            na == a@.len(),
            na == b@.len(),
            i <= na,
            forall|j: int| 0 <= j < i ==> a@[j] == b@[j],
        decreases na - i,
    {
        let ca = a.get_char(i);
        let cb = b.get_char(i);
        if ca != cb {
            proof {
                assert(a@[i as int] != b@[i as int]);
            }
            return false;
        }
        i = i + 1;
    }
    proof {
        assert(a@ =~= b@);
    }
    true
}

impl Field {
    /// Looks a run-time name up in the schema.
    pub fn from_name(name: &str) -> (r: Option<Field>)
        ensures
            r == field_of_name(name@),
    {
        if str_eq(name, "crim") {
            Some(Field::Crim)
        } else if str_eq(name, "zn") {
            Some(Field::Zn)
        } else if str_eq(name, "indus") {
            Some(Field::Indus)
        } else if str_eq(name, "chas") {
            Some(Field::Chas)
        } else if str_eq(name, "nox") {
            Some(Field::Nox)
        } else if str_eq(name, "rm") {
            Some(Field::Rm)
        } else if str_eq(name, "age") {
            Some(Field::Age)
        } else if str_eq(name, "dis") {
            Some(Field::Dis)
        } else if str_eq(name, "rad") {
            Some(Field::Rad)
        } else if str_eq(name, "tax") {
            Some(Field::Tax)
        } else if str_eq(name, "ptratio") {
            Some(Field::Ptratio)
        } else if str_eq(name, "b") {
            Some(Field::B)
        } else if str_eq(name, "lstat") {
            Some(Field::Lstat)
        } else if str_eq(name, "medv") {
            Some(Field::Medv)
        } else {
            None
        }
    }
}

impl BostonRecord {
    /// The scalar this record holds for a field tag.
    pub fn field(&self, f: Field) -> (v: Value)
        ensures
            v == field_value(*self, f),
    {
        match f {
            Field::Crim => self.crim,
            Field::Zn => self.zn,
            Field::Indus => self.indus,
            Field::Chas => self.chas,
            Field::Nox => self.nox,
            Field::Rm => self.rm,
            Field::Age => self.age,
            Field::Dis => self.dis,
            Field::Rad => self.rad,
            Field::Tax => self.tax,
            Field::Ptratio => self.ptratio,
            Field::B => self.b,
            Field::Lstat => self.lstat,
            Field::Medv => self.medv,
        }
    }
}

/// Field access by a name known at run time, on one record or on a whole
/// dataset. Each implementor states in `get_field_spec` exactly which
/// results `get_field` may return.
pub trait FieldAccessor<T> {
    /// What `get_field` is allowed to return for a name.
    spec fn get_field_spec(&self, name: Seq<char>, r: Option<T>) -> bool;

    /// The scalar or column the name denotes.
    fn get_field(&self, field: &str) -> (r: Option<T>)
        ensures
            self.get_field_spec(field@, r),
    ;
}

impl FieldAccessor<Value> for BostonRecord {
    /// A schema name yields its scalar; any other name misses.
    open spec fn get_field_spec(&self, name: Seq<char>, r: Option<Value>) -> bool {
        match field_of_name(name) {
            Some(f) => r == Some(field_value(*self, f)),
            None => r is None,
        }
    }

    fn get_field(&self, field: &str) -> (r: Option<Value>) {
        match Field::from_name(field) {
            Some(f) => Some(self.field(f)),
            None => None,
        }
    }
}

impl FieldAccessor<Vec<Value>> for Vec<BostonRecord> {
    /// The lookup always hands a column back; for a name outside the
    /// schema every per-record lookup misses and the column is empty.
    open spec fn get_field_spec(&self, name: Seq<char>, r: Option<Vec<Value>>) -> bool {
        match r {
            Some(v) => v@ == col_of(self@, name),
            None => false,
        }
    }

    fn get_field(&self, field: &str) -> (r: Option<Vec<Value>>) {
        match Field::from_name(field) {
            Some(f) => {
                let mut out: Vec<Value> = Vec::new();
                let mut i: usize = 0;
                while i < self.len()
                    invariant
                        i <= self@.len(),
                        field_of_name(field@) == Some(f),
                        out@ == self@.subrange(0, i as int).map_values(field_projection(f)),
                    decreases self@.len() - i,
                {
                    let v = self[i].field(f);
                    out.push(v);
                    proof {
                        assert(self@.subrange(0, i + 1int).drop_last() =~= self@.subrange(
                            0,
                            i as int,
                        ));
                        assert(self@.subrange(0, i + 1int).map_values(field_projection(f))
                            =~= self@.subrange(0, i as int).map_values(field_projection(f)).push(
                            field_value(self@[i as int], f),
                        ));
                    }
                    i = i + 1;
                }
                proof {
                    assert(self@.subrange(0, self@.len() as int) =~= self@);
                }
                Some(out)
            },
            None => {
                let out: Vec<Value> = Vec::new();
                proof {
                    assert(out@ =~= col_of(self@, field@));
                }
                Some(out)
            },
        }
    }
}

} // verus!

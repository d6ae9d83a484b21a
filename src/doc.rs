//! Documents: trees of mappings, sequences and scalars.
use vstd::prelude::*;

verus! {

broadcast use vstd::std_specs::vec::axiom_vec_index_decreases;

/// A number as the document parser reads it: a non-negative integer, a
/// negative integer, or any other number kept as the bits of its binary64 value.
#[derive(Debug, Clone, Copy, PartialEq, Eq, Structural)]
pub enum Number {
    PosInt(u64),
    NegInt(i64),
    Float(u64),
}

/// A document value.
#[derive(Debug)]
pub enum Json {
    Null,
    Bool(bool),
    Number(Number),
    Str(String),
    Array(Vec<Json>),
    /// A mapping: its entries in the parser's key order.
    Object(Vec<(String, Json)>),
}

/// The mathematical value of a document.
pub enum Doc {
    Null,
    Bool(bool),
    Number(Number),
    Str(Seq<char>),
    Array(Seq<Doc>),
    Object(Seq<(Seq<char>, Doc)>),
}

impl Json {
    /// What the value stands for.
    pub open spec fn model(&self) -> Doc
        decreases self,
    {
        match self {
            Json::Null => Doc::Null,
            Json::Bool(b) => Doc::Bool(*b),
            Json::Number(n) => Doc::Number(*n),
            Json::Str(s) => Doc::Str(s@),
            Json::Array(v) => Doc::Array(Seq::new(v.len() as nat, |i: int| if 0 <= i < v.len() { v[i].model() } else { Doc::Null })),
            Json::Object(v) => Doc::Object(Seq::new(v.len() as nat, |i: int| if 0 <= i < v.len() { (v[i].0@, v[i].1.model()) } else { (Seq::empty(), Doc::Null) })),
        }
    }
}

/// Equality of numbers: same kind and same value. Two binary64 values are
/// equal when their bits are, or when both are zero, whatever their sign.
pub open spec fn numbers_equal(a: Number, b: Number) -> bool {
    match (a, b) {
        (Number::PosInt(x), Number::PosInt(y)) => x == y,
        (Number::NegInt(x), Number::NegInt(y)) => x == y,
        (Number::Float(x), Number::Float(y)) => x == y || (x % 0x8000_0000_0000_0000 == 0 && y
            % 0x8000_0000_0000_0000 == 0),
        _ => false,
    }
}

/// Equality of two values that are not both mappings nor both sequences:
/// same kind and same scalar. A mapping or a sequence is equal to no scalar.
pub open spec fn scalars_equal(a: Doc, b: Doc) -> bool {
    match (a, b) {
        (Doc::Null, Doc::Null) => true,
        (Doc::Bool(x), Doc::Bool(y)) => x == y,
        (Doc::Number(x), Doc::Number(y)) => numbers_equal(x, y),
        (Doc::Str(x), Doc::Str(y)) => x == y,
        _ => false,
    }
}

impl Number {
    pub fn equals(&self, other: &Number) -> (r: bool)
        ensures
            r == numbers_equal(*self, *other),
    {
        match (self, other) {
            (Number::PosInt(x), Number::PosInt(y)) => *x == *y,
            (Number::NegInt(x), Number::NegInt(y)) => *x == *y,
            (Number::Float(x), Number::Float(y)) => *x == *y || (*x % 0x8000_0000_0000_0000 == 0
                && *y % 0x8000_0000_0000_0000 == 0),
            _ => false,
        }
    }
}

impl Json {
    /// Whether two values that are not both mappings nor both sequences are equal.
    pub fn scalar_equals(&self, other: &Json) -> (r: bool)
        ensures
            r == scalars_equal(self.model(), other.model()),
    {
        match (self, other) {
            (Json::Null, Json::Null) => true,
            (Json::Bool(x), Json::Bool(y)) => *x == *y,
            (Json::Number(x), Json::Number(y)) => x.equals(y),
            (Json::Str(x), Json::Str(y)) => *x == *y,
            _ => false,
        }
    }

    /// A copy of the value.
    pub fn duplicate(&self) -> (r: Json)
        ensures
            r.model() == self.model(),
        decreases self,
    {
        match self {
            Json::Null => Json::Null,
            Json::Bool(b) => Json::Bool(*b),
            Json::Number(n) => Json::Number(*n),
            Json::Str(s) => Json::Str(s.clone()),
            Json::Array(v) => {
                let mut out: Vec<Json> = Vec::new();
                let mut i: usize = 0;
                while i < v.len()
                    invariant
                        *self == Json::Array(*v),
                        i <= v@.len(),
                        out@.len() == i,
                        forall|j: int| 0 <= j < i ==> #[trigger] out@[j].model() == v@[j].model(),
                    decreases v@.len() - i,
                {
                    proof {
                        assert(decreases_to!(*self => self->Array_0));
                        assert(decreases_to!(*v => v@));
                        assert(decreases_to!(v@ => v@[i as int]));
                    }
                    let item = v[i].duplicate();
                    out.push(item);
                    i = i + 1;
                }
                let r = Json::Array(out);
                proof {
                    match (r.model(), self.model()) {
                        (Doc::Array(a), Doc::Array(b)) => {
                            assert forall|j: int| 0 <= j < a.len() implies a[j] == b[j] by {
                                assert(out@[j].model() == v@[j].model());
                            }
                            assert(a =~= b);
                        },
                        _ => {},
                    }
                }
                r
            },
            Json::Object(v) => {
                let mut out: Vec<(String, Json)> = Vec::new();
                let mut i: usize = 0;
                while i < v.len()
                    invariant
                        *self == Json::Object(*v),
                        i <= v@.len(),
                        out@.len() == i,
                        forall|j: int| 0 <= j < i ==> #[trigger] out@[j].0@ == v@[j].0@ && out@[j].1.model()
                            == v@[j].1.model(),
                    decreases v@.len() - i,
                {
                    proof {
                        assert(decreases_to!(*self => self->Object_0));
                        assert(decreases_to!(*v => v@));
                        assert(decreases_to!(v@ => v@[i as int]));
                        assert(decreases_to!(v@[i as int] => v@[i as int].1));
                    }
                    let item = (v[i].0.clone(), v[i].1.duplicate());
                    out.push(item);
                    i = i + 1;
                }
                let r = Json::Object(out);
                proof {
                    match (r.model(), self.model()) {
                        (Doc::Object(a), Doc::Object(b)) => assert(a =~= b),
                        _ => {},
                    }
                }
                r
            },
        }
    }
}

/// Within the entries, no key appears twice.
pub open spec fn keys_distinct(e: Seq<(Seq<char>, Doc)>) -> bool {
    forall|i: int, j: int| 0 <= i < j < e.len() ==> #[trigger] e[i].0 != #[trigger] e[j].0
}

/// A document as the parser builds it: within each mapping no key appears twice.
pub open spec fn well_formed(d: Doc) -> bool
    decreases d, 0nat,
{
    match d {
        Doc::Object(e) => keys_distinct(e) && entries_well_formed(e, 0),
        Doc::Array(a) => items_well_formed(a, 0),
        _ => true,
    }
}

/// The values of the entries from `i` on are well formed.
pub open spec fn entries_well_formed(e: Seq<(Seq<char>, Doc)>, i: nat) -> bool
    decreases e, e.len() - i,
{
    if i >= e.len() {
        true
    } else {
        well_formed(e[i as int].1) && entries_well_formed(e, i + 1)
    }
}

/// The items from `i` on are well formed.
pub open spec fn items_well_formed(a: Seq<Doc>, i: nat) -> bool
    decreases a, a.len() - i,
{
    if i >= a.len() {
        true
    } else {
        well_formed(a[i as int]) && items_well_formed(a, i + 1)
    }
}

} // verus!

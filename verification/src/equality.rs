//! Equality of constants: whether two constants have the same value.

use vstd::prelude::*;
use crate::object::{
    bytes_eq, code_value_of, lemma_value_of_items, lemma_value_of_nested, lemma_values_of,
    value_of, values_of, Code, Obj, Value,
};

verus! {

/// Returns whether two lists of byte strings hold the same byte strings.
pub fn names_equal(a: &Vec<Vec<u8>>, b: &Vec<Vec<u8>>) -> (r: bool)
    ensures
        r == (Seq::new(a@.len(), |i: int| a@[i]@) == Seq::new(b@.len(), |i: int| b@[i]@)),
{
    let ghost x = Seq::new(a@.len(), |i: int| a@[i]@);
    let ghost y = Seq::new(b@.len(), |i: int| b@[i]@);
    if a.len() != b.len() {
        assert(x.len() != y.len());
        return false;
    }
    let mut i: usize = 0;
    while i < a.len()
        invariant
            a.len() == b.len(),
            i <= a.len(),
            x == Seq::new(a@.len(), |i: int| a@[i]@),
            y == Seq::new(b@.len(), |i: int| b@[i]@),
            forall|j: int| 0 <= j < i ==> a@[j]@ == b@[j]@,
        decreases a.len() - i,
    {
        if !bytes_eq(&a[i], &b[i]) {
            assert(x[i as int] != y[i as int]);
            return false;
        }
        i += 1;
    }
    assert(x =~= y);
    true
}

/// Returns whether two lists of constants hold the same values.
pub fn objs_equal(a: &Vec<Obj>, b: &Vec<Obj>) -> (r: bool)
    ensures
        r == (values_of(a@) == values_of(b@)),
    decreases a, 0int,
{
    proof {
        lemma_values_of(a@);
        lemma_values_of(b@);
    }
    if a.len() != b.len() {
        assert(values_of(a@).len() != values_of(b@).len());
        return false;
    }
    let mut i: usize = 0;
    while i < a.len()
        invariant
            a.len() == b.len(),
            i <= a.len(),
            forall|j: int| 0 <= j < i ==> value_of(a@[j]) == value_of(b@[j]),
        decreases a.len() - i,
    {
        proof {
            lemma_values_of(a@);
            lemma_values_of(b@);
        }
        if !a[i].equals(&b[i]) {
            assert(values_of(a@)[i as int] != values_of(b@)[i as int]);
            return false;
        }
        i += 1;
    }
    proof {
        lemma_values_of(a@);
        lemma_values_of(b@);
    }
    assert(values_of(a@) =~= values_of(b@));
    true
}

/// Returns whether two code objects have the same value.
pub fn codes_equal(a: &Code, b: &Code) -> (r: bool)
    ensures
        r == (a@ == b@),
    decreases a, 1int,
{
    let same = a.argcount == b.argcount && a.nlocals == b.nlocals && a.stacksize == b.stacksize
        && a.flags == b.flags && a.firstlineno == b.firstlineno && bytes_eq(&a.code, &b.code)
        && bytes_eq(&a.filename, &b.filename) && bytes_eq(&a.name, &b.name) && bytes_eq(
        &a.lnotab,
        &b.lnotab,
    ) && names_equal(&a.names, &b.names) && names_equal(&a.varnames, &b.varnames) && names_equal(
        &a.freevars,
        &b.freevars,
    ) && names_equal(&a.cellvars, &b.cellvars);
    if !same {
        return false;
    }
    objs_equal(&a.consts, &b.consts)
}

impl Obj {
    /// Returns whether two constants have the same value.
    pub fn equals(&self, other: &Obj) -> (r: bool)
        ensures
            r == (self@ == other@),
        decreases self, 2int,
    {
        proof {
            lemma_value_of_items(*self);
            lemma_value_of_items(*other);
            lemma_value_of_nested(*self);
            lemma_value_of_nested(*other);
        }
        match (self, other) {
            (Obj::PyNone, Obj::PyNone) => true,
            (Obj::Bool(a), Obj::Bool(b)) => *a == *b,
            (Obj::Long(a), Obj::Long(b)) => a.equals(b),
            (Obj::String(a), Obj::String(b)) => bytes_eq(a, b),
            (Obj::Tuple(a), Obj::Tuple(b)) => objs_equal(a, b),
            (Obj::List(a), Obj::List(b)) => objs_equal(a, b),
            (Obj::PySet(a), Obj::PySet(b)) => objs_equal(a, b),
            (Obj::Dict(a), Obj::Dict(b)) => {
                let ghost x = value_of(*self)->Dict_0;
                let ghost y = value_of(*other)->Dict_0;
                assert(value_of(*self) == Value::Dict(x));
                assert(value_of(*other) == Value::Dict(y));
                if a.len() != b.len() {
                    assert(x.len() != y.len());
                    return false;
                }
                let mut i: usize = 0;
                while i < a.len()
                    invariant
                        a.len() == b.len(),
                        i <= a.len(),
                        value_of(*self) == Value::Dict(x),
                        value_of(*other) == Value::Dict(y),
                        *self == Obj::Dict(*a),
                        *other == Obj::Dict(*b),
                        x.len() == a@.len(),
                        y.len() == b@.len(),
                        forall|j: int|
                            0 <= j < a@.len() ==> #[trigger] x[j] == (
                                value_of(a@[j].0),
                                value_of(a@[j].1),
                            ),
                        forall|j: int|
                            0 <= j < b@.len() ==> #[trigger] y[j] == (
                                value_of(b@[j].0),
                                value_of(b@[j].1),
                            ),
                        forall|j: int| 0 <= j < i ==> x[j] == y[j],
                    decreases a.len() - i,
                {
                    assert(decreases_to!(self => self->Dict_0));
                    assert(decreases_to!(a => a[i as int]));
                    assert(decreases_to!(a[i as int] => a[i as int].0));
                    assert(decreases_to!(a[i as int] => a[i as int].1));
                    let same_key = a[i].0.equals(&b[i].0);
                    let same_value = a[i].1.equals(&b[i].1);
                    if !same_key || !same_value {
                        assert(x[i as int] != y[i as int]);
                        assert(value_of(*self) == Value::Dict(x));
                        assert(value_of(*other) == Value::Dict(y));
                        return false;
                    }
                    i += 1;
                }
                assert(x =~= y);
                assert(value_of(*self) == Value::Dict(x));
                assert(value_of(*other) == Value::Dict(y));
                true
            },
            (Obj::Code(a), Obj::Code(b)) => codes_equal(a, b),
            (Obj::Other, Obj::Other) => true,
            _ => false,
        }
    }
}

} // verus!

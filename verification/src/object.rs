//! Constants of a code object and their mathematical values.

use vstd::prelude::*;
use crate::long::Long;

verus! {

/// A constant: a value that a code object carries in its constant pool, or
/// that the interpreter computed from such values.
#[derive(Debug)]
pub enum Obj {
    /// The single value `None`.
    PyNone,
    Bool(bool),
    Long(Long),
    /// A byte string.
    String(Vec<u8>),
    Tuple(Vec<Obj>),
    List(Vec<Obj>),
    /// The elements of a set, without repetition.
    PySet(Vec<Obj>),
    /// The entries of a dictionary, as pairs of key and value.
    Dict(Vec<(Obj, Obj)>),
    Code(Box<Code>),
    /// A constant of a kind that the interpreter does not model.
    Other,
}

/// A code object: bytecode with the tables that its instructions index.
#[derive(Debug)]
pub struct Code {
    pub argcount: u32,
    pub nlocals: u32,
    pub stacksize: u32,
    pub flags: u32,
    pub code: Vec<u8>,
    pub consts: Vec<Obj>,
    pub names: Vec<Vec<u8>>,
    pub varnames: Vec<Vec<u8>>,
    pub freevars: Vec<Vec<u8>>,
    pub cellvars: Vec<Vec<u8>>,
    pub filename: Vec<u8>,
    pub name: Vec<u8>,
    pub firstlineno: u32,
    pub lnotab: Vec<u8>,
}

/// The mathematical value of a constant.
pub enum Value {
    /// The single value `None`.
    PyNone,
    Bool(bool),
    Long(int),
    String(Seq<u8>),
    Tuple(Seq<Value>),
    List(Seq<Value>),
    PySet(Seq<Value>),
    Dict(Seq<(Value, Value)>),
    Code(CodeValue),
    Other,
}

/// The mathematical value of a code object.
pub struct CodeValue {
    pub argcount: u32,
    pub nlocals: u32,
    pub stacksize: u32,
    pub flags: u32,
    pub code: Seq<u8>,
    pub consts: Seq<Value>,
    pub names: Seq<Seq<u8>>,
    pub varnames: Seq<Seq<u8>>,
    pub freevars: Seq<Seq<u8>>,
    pub cellvars: Seq<Seq<u8>>,
    pub filename: Seq<u8>,
    pub name: Seq<u8>,
    pub firstlineno: u32,
    pub lnotab: Seq<u8>,
}

/// The values of a sequence of constants, element by element.
pub open spec fn values_of(objs: Seq<Obj>) -> Seq<Value>
    decreases objs, 0int,
{
    Seq::new(
        objs.len(),
        |i: int|
            if 0 <= i < objs.len() {
                value_of(objs[i])
            } else {
                Value::Other
            },
    )
}

/// The value of a constant.
pub open spec fn value_of(o: Obj) -> Value
    decreases o, 1int,
{
    match o {
        Obj::PyNone => Value::PyNone,
        Obj::Bool(b) => Value::Bool(b),
        Obj::Long(l) => Value::Long(l@),
        Obj::String(s) => Value::String(s@),
        Obj::Tuple(items) => Value::Tuple(values_of(items@)),
        Obj::List(items) => Value::List(values_of(items@)),
        Obj::PySet(items) => Value::PySet(values_of(items@)),
        Obj::Dict(entries) => Value::Dict(
            Seq::new(
                entries@.len(),
                |i: int|
                    if 0 <= i < entries@.len() {
                        (value_of(entries@[i].0), value_of(entries@[i].1))
                    } else {
                        (Value::Other, Value::Other)
                    },
            ),
        ),
        Obj::Code(c) => Value::Code(code_value_of(*c)),
        Obj::Other => Value::Other,
    }
}

/// The value of a code object.
pub open spec fn code_value_of(c: Code) -> CodeValue
    decreases c, 1int,
{
    CodeValue {
        argcount: c.argcount,
        nlocals: c.nlocals,
        stacksize: c.stacksize,
        flags: c.flags,
        code: c.code@,
        consts: values_of(c.consts@),
        names: Seq::new(c.names@.len(), |i: int| c.names@[i]@),
        varnames: Seq::new(c.varnames@.len(), |i: int| c.varnames@[i]@),
        freevars: Seq::new(c.freevars@.len(), |i: int| c.freevars@[i]@),
        cellvars: Seq::new(c.cellvars@.len(), |i: int| c.cellvars@[i]@),
        filename: c.filename@,
        name: c.name@,
        firstlineno: c.firstlineno,
        lnotab: c.lnotab@,
    }
}

/// The values of a sequence of constants have its length, and each is the
/// value of the constant at the same index.
pub proof fn lemma_values_of(objs: Seq<Obj>)
    ensures
        values_of(objs).len() == objs.len(),
        forall|i: int| 0 <= i < objs.len() ==> #[trigger] values_of(objs)[i] == value_of(objs[i]),
{
}

/// The value of a tuple, list or set has as many items as the constant.
pub proof fn lemma_value_of_items(o: Obj)
    ensures
        o matches Obj::Tuple(items) ==> value_of(o) == Value::Tuple(values_of(items@))
            && values_of(items@).len() == items@.len(),
        o matches Obj::List(items) ==> value_of(o) == Value::List(values_of(items@))
            && values_of(items@).len() == items@.len(),
        o matches Obj::PySet(items) ==> value_of(o) == Value::PySet(values_of(items@))
            && values_of(items@).len() == items@.len(),
{
    match o {
        Obj::Tuple(items) => lemma_values_of(items@),
        Obj::List(items) => lemma_values_of(items@),
        Obj::PySet(items) => lemma_values_of(items@),
        _ => {},
    }
}

/// The value of a code object holds the bytecode and the values of the
/// constants of the code object.
pub proof fn lemma_code_value(c: Code)
    ensures
        code_value_of(c).code == c.code@,
        code_value_of(c).consts == values_of(c.consts@),
        code_value_of(c).filename == c.filename@,
        code_value_of(c).name == c.name@,
        code_value_of(c).stacksize == c.stacksize,
{
}

/// The value of a constant that is a code object or a dictionary.
pub proof fn lemma_value_of_nested(o: Obj)
    ensures
        o matches Obj::Code(c) ==> value_of(o) == Value::Code(code_value_of(*c)),
        o matches Obj::Dict(entries) ==> (value_of(o) matches Value::Dict(values)
            && values.len() == entries@.len() && forall|i: int|
            0 <= i < entries@.len() ==> #[trigger] values[i] == (
                value_of(entries@[i].0),
                value_of(entries@[i].1),
            )),
{
}

impl View for Obj {
    type V = Value;

    open spec fn view(&self) -> Value {
        value_of(*self)
    }
}

impl View for Code {
    type V = CodeValue;

    open spec fn view(&self) -> CodeValue {
        code_value_of(*self)
    }
}

/// The kind of a constant, as reported in errors.
#[derive(Clone, Copy, Debug, PartialEq, Eq, Structural)]
pub enum ObjType {
    PyNone,
    Bool,
    Long,
    String,
    Tuple,
    List,
    PySet,
    Dict,
    Code,
    Other,
}

impl Value {
    /// The kind of this value.
    pub open spec fn typ(self) -> ObjType {
        match self {
            Value::PyNone => ObjType::PyNone,
            Value::Bool(_) => ObjType::Bool,
            Value::Long(_) => ObjType::Long,
            Value::String(_) => ObjType::String,
            Value::Tuple(_) => ObjType::Tuple,
            Value::List(_) => ObjType::List,
            Value::PySet(_) => ObjType::PySet,
            Value::Dict(_) => ObjType::Dict,
            Value::Code(_) => ObjType::Code,
            Value::Other => ObjType::Other,
        }
    }

    /// Whether this value can be an element of a set or a key of a
    /// dictionary: `None`, booleans, integers, strings, and tuples of such
    /// values.
    pub open spec fn hashable(self) -> bool
        decreases self,
    {
        match self {
            Value::PyNone | Value::Bool(_) | Value::Long(_) | Value::String(_) => true,
            Value::Tuple(items) => forall|i: int|
                0 <= i < items.len() ==> (#[trigger] items[i]).hashable(),
            _ => false,
        }
    }

    /// Whether a conditional jump that tests this value sees it as true.
    /// `None` is false, an integer is true unless it is zero, and a string or
    /// a collection is true unless it is empty. The truth of a code object or
    /// of an unmodelled constant is not decided.
    pub open spec fn truthiness(self) -> Option<bool> {
        match self {
            Value::PyNone => Some(false),
            Value::Bool(b) => Some(b),
            Value::Long(i) => Some(i != 0),
            Value::String(s) => Some(s.len() != 0),
            Value::Tuple(items) => Some(items.len() != 0),
            Value::List(items) => Some(items.len() != 0),
            Value::PySet(items) => Some(items.len() != 0),
            Value::Dict(entries) => Some(entries.len() != 0),
            Value::Code(_) => None,
            Value::Other => None,
        }
    }
}

/// A tuple can be an element of a set exactly when each of its items can.
pub proof fn lemma_hashable_tuple(items: Seq<Value>)
    ensures
        Value::Tuple(items).hashable() <==> (forall|k: int|
            0 <= k < items.len() ==> (#[trigger] items[k]).hashable()),
{
    if Value::Tuple(items).hashable() {
        assert(Value::Tuple(items)->Tuple_0 == items);
        assert(forall|k: int| 0 <= k < items.len() ==> (#[trigger] items[k]).hashable());
    }
}

/// Whether two byte strings are equal.
pub fn bytes_eq(a: &Vec<u8>, b: &Vec<u8>) -> (r: bool)
    ensures
        r == (a@ == b@),
{
    if a.len() != b.len() {
        return false;
    }
    let mut i: usize = 0;
    while i < a.len()
        invariant
            a.len() == b.len(),
            i <= a.len(),
            forall|j: int| 0 <= j < i ==> a@[j] == b@[j],
        decreases a.len() - i,
    {
        if a[i] != b[i] {
            return false;
        }
        i += 1;
    }
    assert(a@ =~= b@);
    true
}

/// A copy of a byte string.
pub fn clone_bytes(a: &Vec<u8>) -> (r: Vec<u8>)
    ensures
        r@ == a@,
{
    let mut out: Vec<u8> = Vec::new();
    let mut i: usize = 0;
    while i < a.len()
        invariant
            i <= a.len(),
            out@ == a@.subrange(0, i as int),
        decreases a.len() - i,
    {
        out.push(a[i]);
        assert(out@ =~= a@.subrange(0, i + 1));
        i += 1;
    }
    assert(out@ =~= a@);
    out
}

/// A copy of a list of byte strings.
pub fn clone_names(a: &Vec<Vec<u8>>) -> (r: Vec<Vec<u8>>)
    ensures
        r@.len() == a@.len(),
        forall|i: int| 0 <= i < a@.len() ==> (#[trigger] r@[i])@ == a@[i]@,
{
    let mut out: Vec<Vec<u8>> = Vec::new();
    let mut i: usize = 0;
    while i < a.len()
        invariant
            i <= a.len(),
            out@.len() == i,
            forall|j: int| 0 <= j < i ==> (#[trigger] out@[j])@ == a@[j]@,
        decreases a.len() - i,
    {
        out.push(clone_bytes(&a[i]));
        i += 1;
    }
    out
}

/// A copy of a sequence of constants.
pub fn clone_objs(items: &Vec<Obj>) -> (r: Vec<Obj>)
    ensures
        values_of(r@) == values_of(items@),
        r@.len() == items@.len(),
    decreases items, 0int,
{
    let mut out: Vec<Obj> = Vec::new();
    let mut i: usize = 0;
    while i < items.len()
        invariant
            i <= items.len(),
            out@.len() == i,
            forall|j: int| 0 <= j < i ==> value_of(#[trigger] out@[j]) == value_of(items@[j]),
        decreases items.len() - i,
    {
        out.push(items[i].clone());
        i += 1;
    }
    assert(values_of(out@) =~= values_of(items@));
    out
}

impl Clone for Obj {
    fn clone(&self) -> (r: Obj)
        ensures
            r@ == self@,
        decreases self, 1int,
    {
        match self {
            Obj::PyNone => Obj::PyNone,
            Obj::Bool(b) => Obj::Bool(*b),
            Obj::Long(l) => Obj::Long(l.clone()),
            Obj::String(s) => Obj::String(clone_bytes(s)),
            Obj::Tuple(items) => Obj::Tuple(clone_objs(items)),
            Obj::List(items) => Obj::List(clone_objs(items)),
            Obj::PySet(items) => Obj::PySet(clone_objs(items)),
            Obj::Dict(entries) => {
                let mut out: Vec<(Obj, Obj)> = Vec::new();
                let mut i: usize = 0;
                while i < entries.len()
                    invariant
                        *self == Obj::Dict(*entries),
                        i <= entries.len(),
                        out@.len() == i,
                        forall|j: int|
                            0 <= j < i ==> value_of((#[trigger] out@[j]).0) == value_of(
                                entries@[j].0,
                            ) && value_of(out@[j].1) == value_of(entries@[j].1),
                    decreases entries.len() - i,
                {
                    assert(decreases_to!(self => self->Dict_0));
                    assert(decreases_to!(entries => entries[i as int]));
                    assert(decreases_to!(entries[i as int] => entries[i as int].0));
                    assert(decreases_to!(entries[i as int] => entries[i as int].1));
                    let key = entries[i].0.clone();
                    let value = entries[i].1.clone();
                    out.push((key, value));
                    i += 1;
                }
                let r = Obj::Dict(out);
                assert(r@->Dict_0 =~= self@->Dict_0);
                r
            },
            Obj::Code(c) => Obj::Code(Box::new((**c).clone())),
            Obj::Other => Obj::Other,
        }
    }
}

impl Clone for Code {
    fn clone(&self) -> (r: Code)
        ensures
            r@ == self@,
        decreases self, 1int,
    {
        let r = Code {
            argcount: self.argcount,
            nlocals: self.nlocals,
            stacksize: self.stacksize,
            flags: self.flags,
            code: clone_bytes(&self.code),
            consts: clone_objs(&self.consts),
            names: clone_names(&self.names),
            varnames: clone_names(&self.varnames),
            freevars: clone_names(&self.freevars),
            cellvars: clone_names(&self.cellvars),
            filename: clone_bytes(&self.filename),
            name: clone_bytes(&self.name),
            firstlineno: self.firstlineno,
            lnotab: clone_bytes(&self.lnotab),
        };
        assert(r@.names =~= self@.names);
        assert(r@.varnames =~= self@.varnames);
        assert(r@.freevars =~= self@.freevars);
        assert(r@.cellvars =~= self@.cellvars);
        r
    }
}

impl Obj {
    /// Returns the kind of this constant.
    pub fn typ(&self) -> (t: ObjType)
        ensures
            t == self@.typ(),
    {
        match self {
            Obj::PyNone => ObjType::PyNone,
            Obj::Bool(_) => ObjType::Bool,
            Obj::Long(_) => ObjType::Long,
            Obj::String(_) => ObjType::String,
            Obj::Tuple(_) => ObjType::Tuple,
            Obj::List(_) => ObjType::List,
            Obj::PySet(_) => ObjType::PySet,
            Obj::Dict(_) => ObjType::Dict,
            Obj::Code(_) => ObjType::Code,
            Obj::Other => ObjType::Other,
        }
    }

    /// Returns whether this constant can be an element of a set.
    pub fn is_hashable(&self) -> (r: bool)
        ensures
            r == self@.hashable(),
        decreases self,
    {
        match self {
            Obj::PyNone | Obj::Bool(_) | Obj::Long(_) | Obj::String(_) => true,
            Obj::Tuple(items) => {
                let mut i: usize = 0;
                while i < items.len()
                    invariant
                        *self == Obj::Tuple(*items),
                        i <= items.len(),
                        forall|j: int| 0 <= j < i ==> value_of(#[trigger] items@[j]).hashable(),
                    decreases items.len() - i,
                {
                    assert(decreases_to!(items => items[i as int]));
                    assert(decreases_to!(self => self->Tuple_0));
                    if !items[i].is_hashable() {
                        proof {
                            lemma_values_of(items@);
                        }
                        proof {
                            lemma_hashable_tuple(values_of(items@));
                            assert(!values_of(items@)[i as int].hashable());
                        }
                        return false;
                    }
                    i += 1;
                }
                proof {
                    lemma_values_of(items@);
                    lemma_hashable_tuple(values_of(items@));
                    assert forall|j: int| 0 <= j < values_of(items@).len() implies (
                    #[trigger] values_of(items@)[j]).hashable() by {
                        assert(value_of(items@[j]).hashable());
                    }
                }
                true
            },
            _ => false,
        }
    }

    /// Returns whether two constants that can be elements of a set have the
    /// same value.
    pub fn same_value(&self, other: &Obj) -> (r: bool)
        requires
            self@.hashable(),
            other@.hashable(),
        ensures
            r == (self@ == other@),
        decreases self,
    {
        match (self, other) {
            (Obj::PyNone, Obj::PyNone) => true,
            (Obj::Bool(a), Obj::Bool(b)) => *a == *b,
            (Obj::Long(a), Obj::Long(b)) => a.equals(b),
            (Obj::String(a), Obj::String(b)) => bytes_eq(a, b),
            (Obj::Tuple(a), Obj::Tuple(b)) => {
                proof {
                    lemma_values_of(a@);
                    lemma_values_of(b@);
                }
                if a.len() != b.len() {
                    assert(values_of(a@).len() != values_of(b@).len());
                    return false;
                }
                let mut i: usize = 0;
                while i < a.len()
                    invariant
                        a.len() == b.len(),
                        i <= a.len(),
                        self@.hashable(),
                        other@.hashable(),
                        *self == Obj::Tuple(*a),
                        *other == Obj::Tuple(*b),
                        forall|j: int| 0 <= j < i ==> value_of(a@[j]) == value_of(b@[j]),
                    decreases a.len() - i,
                {
                    proof {
                        lemma_values_of(a@);
                        lemma_values_of(b@);
                        lemma_hashable_tuple(values_of(a@));
                        lemma_hashable_tuple(values_of(b@));
                    }
                    assert(values_of(a@)[i as int].hashable());
                    assert(values_of(b@)[i as int].hashable());
                    assert(decreases_to!(a => a[i as int]));
                    if !a[i].same_value(&b[i]) {
                        assert(values_of(a@)[i as int] != values_of(b@)[i as int]);
                        return false;
                    }
                    i += 1;
                }
                proof {
                    lemma_values_of(a@);
                    lemma_values_of(b@);
                }
                assert(values_of(a@) =~= values_of(b@));
                true
            },
            _ => false,
        }
    }

    /// Returns whether a conditional jump that tests this constant sees it as
    /// true, when that is decided.
    pub fn truthiness(&self) -> (r: Option<bool>)
        ensures
            r == self@.truthiness(),
    {
        proof {
            lemma_value_of_items(*self);
        }
        match self {
            Obj::PyNone => Some(false),
            Obj::Bool(b) => Some(*b),
            Obj::Long(l) => Some(!l.is_zero()),
            Obj::String(s) => Some(s.len() != 0),
            Obj::Tuple(items) => Some(items.len() != 0),
            Obj::List(items) => Some(items.len() != 0),
            Obj::PySet(items) => Some(items.len() != 0),
            Obj::Dict(entries) => Some(entries.len() != 0),
            Obj::Code(_) => None,
            Obj::Other => None,
        }
    }
}

} // verus!

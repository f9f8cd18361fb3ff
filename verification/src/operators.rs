//! The operators that the interpreter evaluates on known constants:
//! arithmetic on integers, concatenation and repetition of strings,
//! intersection and union of sets, comparisons, and the construction of
//! sets.

use vstd::prelude::*;
use vstd::arithmetic::power2::pow2;
use crate::long::{bitwise, floor_quotient, signed_decimal, BitOp, Long};
use crate::object::{
    clone_bytes, clone_objs, lemma_value_of_items, lemma_values_of, value_of, values_of, Obj,
    ObjType, Value,
};
use crate::opcode::Opcode;

verus! {

/// A binary arithmetic operator.
#[derive(Clone, Copy, Debug, PartialEq, Eq, Structural)]
pub enum BinaryOp {
    Add,
    Subtract,
    Multiply,
    Divide,
    And,
    Or,
    Xor,
    LeftShift,
    RightShift,
}

/// The operator that a binary or in-place opcode applies, if it is one.
pub open spec fn binary_op_of(opcode: Opcode) -> Option<BinaryOp> {
    match opcode {
        Opcode::BINARY_ADD | Opcode::INPLACE_ADD => Some(BinaryOp::Add),
        Opcode::BINARY_SUBTRACT | Opcode::INPLACE_SUBTRACT => Some(BinaryOp::Subtract),
        Opcode::BINARY_MULTIPLY | Opcode::INPLACE_MULTIPLY => Some(BinaryOp::Multiply),
        Opcode::BINARY_DIVIDE | Opcode::INPLACE_DIVIDE => Some(BinaryOp::Divide),
        Opcode::BINARY_AND | Opcode::INPLACE_AND => Some(BinaryOp::And),
        Opcode::BINARY_OR | Opcode::INPLACE_OR => Some(BinaryOp::Or),
        Opcode::BINARY_XOR | Opcode::INPLACE_XOR => Some(BinaryOp::Xor),
        Opcode::BINARY_LSHIFT | Opcode::INPLACE_LSHIFT => Some(BinaryOp::LeftShift),
        Opcode::BINARY_RSHIFT | Opcode::INPLACE_RSHIFT => Some(BinaryOp::RightShift),
        _ => None,
    }
}

/// Returns the operator that a binary or in-place opcode applies.
pub fn binary_operator(opcode: Opcode) -> (r: Option<BinaryOp>)
    ensures
        r == binary_op_of(opcode),
{
    match opcode {
        Opcode::BINARY_ADD | Opcode::INPLACE_ADD => Some(BinaryOp::Add),
        Opcode::BINARY_SUBTRACT | Opcode::INPLACE_SUBTRACT => Some(BinaryOp::Subtract),
        Opcode::BINARY_MULTIPLY | Opcode::INPLACE_MULTIPLY => Some(BinaryOp::Multiply),
        Opcode::BINARY_DIVIDE | Opcode::INPLACE_DIVIDE => Some(BinaryOp::Divide),
        Opcode::BINARY_AND | Opcode::INPLACE_AND => Some(BinaryOp::And),
        Opcode::BINARY_OR | Opcode::INPLACE_OR => Some(BinaryOp::Or),
        Opcode::BINARY_XOR | Opcode::INPLACE_XOR => Some(BinaryOp::Xor),
        Opcode::BINARY_LSHIFT | Opcode::INPLACE_LSHIFT => Some(BinaryOp::LeftShift),
        Opcode::BINARY_RSHIFT | Opcode::INPLACE_RSHIFT => Some(BinaryOp::RightShift),
        _ => None,
    }
}

/// The byte string `s` repeated `n` times.
pub open spec fn repeated(s: Seq<u8>, n: nat) -> Seq<u8>
    decreases n,
{
    if n == 0 {
        Seq::empty()
    } else {
        repeated(s, (n - 1) as nat) + s
    }
}

/// The result of an operator on two integers. Division rounds toward
/// negative infinity. Division by zero and a shift by a negative or
/// oversized amount have no result.
pub open spec fn long_binary_value(op: BinaryOp, a: int, b: int) -> Option<int> {
    match op {
        BinaryOp::Add => Some(a + b),
        BinaryOp::Subtract => Some(a - b),
        BinaryOp::Multiply => Some(a * b),
        BinaryOp::Divide => if b == 0 {
            None
        } else {
            Some(floor_quotient(a, b))
        },
        BinaryOp::And => Some(bitwise(BitOp::And, a, b)),
        BinaryOp::Or => Some(bitwise(BitOp::Or, a, b)),
        BinaryOp::Xor => Some(bitwise(BitOp::Xor, a, b)),
        BinaryOp::LeftShift => if 0 <= b <= usize::MAX {
            Some(a * pow2(b as nat))
        } else {
            None
        },
        BinaryOp::RightShift => if 0 <= b <= usize::MAX {
            Some(a / (pow2(b as nat) as int))
        } else {
            None
        },
    }
}

/// The values of `a`, in order, that `b` holds, if `held`, or that `b`
/// does not hold, if not.
pub open spec fn members(a: Seq<Value>, b: Seq<Value>, held: bool) -> Seq<Value>
    decreases a.len(),
{
    if a.len() == 0 {
        Seq::empty()
    } else {
        let front = members(a.drop_last(), b, held);
        if b.contains(a.last()) == held {
            front.push(a.last())
        } else {
            front
        }
    }
}

/// The result of `left op right` on known values, or the kind of the operand
/// that the operator is not defined on.
///
/// All operators are defined on two integers. Two strings can be added,
/// which concatenates them; a string can be multiplied by an integer that
/// is a valid length, which repeats it; and an integer can be added to a
/// string, which appends the integer written in decimal. Of two sets, `&`
/// gives the elements of the left one that the right one holds, and `|`
/// those of the left one and then those of the right one that the left one
/// lacks.
pub open spec fn binary_value(op: BinaryOp, left: Value, right: Value) -> Result<Value, ObjType> {
    match (left, right) {
        (Value::Long(a), Value::Long(b)) => match long_binary_value(op, a, b) {
            Some(v) => Ok(Value::Long(v)),
            None => Err(ObjType::Long),
        },
        (Value::String(a), Value::String(b)) => if op == BinaryOp::Add {
            Ok(Value::String(a + b))
        } else {
            Err(ObjType::String)
        },
        (Value::String(a), Value::Long(n)) => if op == BinaryOp::Multiply && 0 <= n <= usize::MAX {
            Ok(Value::String(repeated(a, n as nat)))
        } else if op == BinaryOp::Add {
            Ok(Value::String(a + signed_decimal(n)))
        } else {
            Err(ObjType::Long)
        },
        (Value::PySet(a), Value::PySet(b)) => if op == BinaryOp::And {
            Ok(Value::PySet(members(a, b, true)))
        } else if op == BinaryOp::Or {
            Ok(Value::PySet(a + members(b, a, false)))
        } else {
            Err(ObjType::PySet)
        },
        (Value::Long(_), _) => Err(right.typ()),
        (Value::String(_), _) => Err(right.typ()),
        (Value::PySet(_), _) => Err(right.typ()),
        _ => Err(left.typ()),
    }
}

/// Computes `a op b` on integers.
pub fn apply_long_binary(op: BinaryOp, a: &Long, b: &Long) -> (r: Option<Long>)
    ensures
        r is Some <==> long_binary_value(op, a@, b@) is Some,
        r matches Some(v) ==> long_binary_value(op, a@, b@) == Some(v@),
{
    match op {
        BinaryOp::Add => Some(a.sum(b)),
        BinaryOp::Subtract => Some(a.difference(b)),
        BinaryOp::Multiply => Some(a.product(b)),
        BinaryOp::Divide => a.floor_quotient(b),
        BinaryOp::And => Some(a.bit_and(b)),
        BinaryOp::Or => Some(a.bit_or(b)),
        BinaryOp::Xor => Some(a.bit_xor(b)),
        BinaryOp::LeftShift => match b.to_usize() {
            Some(n) => Some(a.shift_left(n)),
            None => None,
        },
        BinaryOp::RightShift => match b.to_usize() {
            Some(n) => Some(a.shift_right(n)),
            None => None,
        },
    }
}

/// Concatenates two byte strings.
pub fn concat_bytes(a: &Vec<u8>, b: &Vec<u8>) -> (r: Vec<u8>)
    ensures
        r@ == a@ + b@,
{
    let mut out = clone_bytes(a);
    let mut i: usize = 0;
    while i < b.len()
        invariant
            i <= b.len(),
            out@ == a@ + b@.subrange(0, i as int),
        decreases b.len() - i,
    {
        out.push(b[i]);
        assert(out@ =~= a@ + b@.subrange(0, i + 1));
        i += 1;
    }
    assert(out@ =~= a@ + b@);
    out
}

/// Repeats a byte string `n` times.
pub fn repeat_bytes(s: &Vec<u8>, n: usize) -> (r: Vec<u8>)
    ensures
        r@ == repeated(s@, n as nat),
{
    let mut out: Vec<u8> = Vec::new();
    let mut i: usize = 0;
    while i < n
        invariant
            i <= n,
            out@ == repeated(s@, i as nat),
        decreases n - i,
    {
        out = concat_bytes(&out, s);
        i += 1;
    }
    out
}

/// Returns whether a list of constants holds the value of `x`.
pub fn holds_value(items: &Vec<Obj>, x: &Obj) -> (r: bool)
    ensures
        r == values_of(items@).contains(x@),
{
    proof {
        lemma_values_of(items@);
    }
    let mut i: usize = 0;
    while i < items.len()
        invariant
            i <= items@.len(),
            values_of(items@).len() == items@.len(),
            forall|j: int| 0 <= j < i ==> values_of(items@)[j] != x@,
        decreases items@.len() - i,
    {
        proof {
            lemma_values_of(items@);
        }
        if items[i].equals(x) {
            assert(values_of(items@)[i as int] == x@);
            return true;
        }
        i += 1;
    }
    false
}

/// Returns the constants of `a`, in order, that `b` holds, if `held`, or
/// that `b` does not hold, if not.
pub fn select_members(a: &Vec<Obj>, b: &Vec<Obj>, held: bool) -> (r: Vec<Obj>)
    ensures
        values_of(r@) == members(values_of(a@), values_of(b@), held),
{
    let ghost all = values_of(a@);
    let ghost others = values_of(b@);
    let mut out: Vec<Obj> = Vec::new();
    let mut i: usize = 0;
    proof {
        lemma_values_of(a@);
        lemma_values_of(out@);
        assert(all.subrange(0, 0) =~= Seq::empty());
        assert(values_of(out@) =~= Seq::empty());
    }
    while i < a.len()
        invariant
            i <= a@.len(),
            all == values_of(a@),
            others == values_of(b@),
            all.len() == a@.len(),
            values_of(out@) == members(all.subrange(0, i as int), others, held),
        decreases a@.len() - i,
    {
        let ghost before = values_of(out@);
        proof {
            lemma_values_of(a@);
            let more = all.subrange(0, i + 1);
            assert(more.drop_last() =~= all.subrange(0, i as int));
            assert(more.last() == value_of(a@[i as int]));
        }
        if holds_value(b, &a[i]) == held {
            let ghost kept = out@;
            out.push(a[i].clone());
            proof {
                lemma_values_of(kept);
                lemma_values_of(out@);
                assert(values_of(out@) =~= before.push(value_of(a@[i as int])));
            }
        }
        i += 1;
    }
    assert(all.subrange(0, i as int) =~= all);
    out
}

/// Computes `left op right` on known constants.
pub fn apply_binary(op: BinaryOp, left: &Obj, right: &Obj) -> (r: Result<Obj, ObjType>)
    ensures
        r matches Ok(v) ==> binary_value(op, left@, right@) == Ok::<Value, ObjType>(v@),
        r matches Err(t) ==> binary_value(op, left@, right@) == Err::<Value, ObjType>(t),
{
    match (left, right) {
        (Obj::Long(a), Obj::Long(b)) => match apply_long_binary(op, a, b) {
            Some(v) => Ok(Obj::Long(v)),
            None => Err(ObjType::Long),
        },
        (Obj::String(a), Obj::String(b)) => if op == BinaryOp::Add {
            Ok(Obj::String(concat_bytes(a, b)))
        } else {
            Err(ObjType::String)
        },
        (Obj::String(a), Obj::Long(n)) => {
            if op == BinaryOp::Multiply {
                match n.to_usize() {
                    Some(count) => Ok(Obj::String(repeat_bytes(a, count))),
                    None => Err(ObjType::Long),
                }
            } else if op == BinaryOp::Add {
                Ok(Obj::String(concat_bytes(a, &n.to_decimal())))
            } else {
                Err(ObjType::Long)
            }
        },
        (Obj::PySet(a), Obj::PySet(b)) => {
            proof {
                lemma_value_of_items(*left);
                lemma_value_of_items(*right);
            }
            if op == BinaryOp::And {
                let r = Obj::PySet(select_members(a, b, true));
                proof {
                    lemma_value_of_items(r);
                }
                Ok(r)
            } else if op == BinaryOp::Or {
                let mut out = clone_objs(a);
                let more = select_members(b, a, false);
                let ghost first = out@;
                let mut i: usize = 0;
                while i < more.len()
                    invariant
                        i <= more@.len(),
                        values_of(first) == values_of(a@),
                        out@.len() == first.len() + i,
                        forall|j: int| 0 <= j < first.len() ==> out@[j] == first[j],
                        forall|j: int|
                            0 <= j < i ==> value_of(#[trigger] out@[first.len() + j]) == value_of(
                                more@[j],
                            ),
                    decreases more@.len() - i,
                {
                    out.push(more[i].clone());
                    i += 1;
                }
                let r = Obj::PySet(out);
                proof {
                    lemma_value_of_items(r);
                    lemma_values_of(out@);
                    lemma_values_of(first);
                    lemma_values_of(more@);
                    lemma_values_of(a@);
                    let joined = values_of(a@) + values_of(more@);
                    assert(values_of(out@).len() == joined.len());
                    assert forall|j: int| 0 <= j < joined.len() implies values_of(out@)[j]
                        == joined[j] by {
                        if j < first.len() {
                            assert(out@[j] == first[j]);
                            assert(values_of(first)[j] == value_of(first[j]));
                        } else {
                            assert(value_of(out@[first.len() + (j - first.len())]) == value_of(
                                more@[j - first.len()],
                            ));
                        }
                    }
                    assert(values_of(out@) =~= joined);
                }
                Ok(r)
            } else {
                Err(ObjType::PySet)
            }
        },
        (Obj::Long(_), _) => Err(right.typ()),
        (Obj::String(_), _) => Err(right.typ()),
        (Obj::PySet(_), _) => Err(right.typ()),
        _ => Err(left.typ()),
    }
}

/// The negation of a known value: of a boolean, its complement; of an
/// integer, whether it is zero.
pub open spec fn not_value(v: Value) -> Result<Value, ObjType> {
    match v {
        Value::Bool(b) => Ok(Value::Bool(!b)),
        Value::Long(i) => Ok(Value::Bool(i == 0)),
        _ => Err(v.typ()),
    }
}

/// Computes the negation of a known constant.
pub fn apply_not(v: &Obj) -> (r: Result<Obj, ObjType>)
    ensures
        r matches Ok(o) ==> not_value(v@) == Ok::<Value, ObjType>(o@),
        r matches Err(t) ==> not_value(v@) == Err::<Value, ObjType>(t),
{
    match v {
        Obj::Bool(b) => Ok(Obj::Bool(!*b)),
        Obj::Long(i) => Ok(Obj::Bool(i.is_zero())),
        _ => Err(v.typ()),
    }
}

/// Whether every value of a sequence can be an element of a set.
pub open spec fn all_hashable(items: Seq<Value>) -> bool {
    forall|i: int| 0 <= i < items.len() ==> (#[trigger] items[i]).hashable()
}

/// Whether two sequences hold the same values, regardless of order and
/// repetition.
pub open spec fn same_elements(a: Seq<Value>, b: Seq<Value>) -> bool {
    &&& forall|i: int| 0 <= i < a.len() ==> b.contains(#[trigger] a[i])
    &&& forall|i: int| 0 <= i < b.len() ==> a.contains(#[trigger] b[i])
}

/// A comparison operator, by its number in a `COMPARE_OP` argument.
pub open spec fn comparison_holds(arg: u16, a: int, b: int) -> Option<bool> {
    if arg == 0 {
        Some(a < b)
    } else if arg == 1 {
        Some(a <= b)
    } else if arg == 2 {
        Some(a == b)
    } else if arg == 3 {
        Some(a != b)
    } else if arg == 4 {
        Some(a > b)
    } else if arg == 5 {
        Some(a >= b)
    } else {
        None
    }
}

/// The result of the comparison numbered `arg` on known values, or the kind
/// of the operand that it is not defined on (`None` when the comparison
/// itself is not one of `<`, `<=`, `==`, `!=`, `>`, `>=`).
///
/// Integers are compared by value. Sets whose elements are all hashable can
/// be tested for equality and inequality, and are equal when they hold the
/// same elements.
pub open spec fn compare_value(arg: u16, left: Value, right: Value) -> Result<
    bool,
    Option<ObjType>,
> {
    if arg > 5 {
        Err(None)
    } else {
        match (left, right) {
            (Value::Long(a), Value::Long(b)) => Ok(comparison_holds(arg, a, b).unwrap()),
            (Value::PySet(a), Value::PySet(b)) => if (arg == 2 || arg == 3) && all_hashable(a)
                && all_hashable(b) {
                Ok(same_elements(a, b) == (arg == 2))
            } else {
                Err(Some(ObjType::PySet))
            },
            (Value::Long(_), _) => Err(Some(right.typ())),
            (Value::PySet(_), _) => Err(Some(right.typ())),
            _ => Err(Some(left.typ())),
        }
    }
}

/// Returns whether every constant of `items` can be an element of a set.
pub fn all_items_hashable(items: &Vec<Obj>) -> (r: bool)
    ensures
        r == all_hashable(values_of(items@)),
{
    proof {
        lemma_values_of(items@);
    }
    let mut i: usize = 0;
    while i < items.len()
        invariant
            i <= items.len(),
            values_of(items@).len() == items@.len(),
            forall|j: int| 0 <= j < i ==> (#[trigger] values_of(items@)[j]).hashable(),
        decreases items.len() - i,
    {
        if !items[i].is_hashable() {
            proof {
                lemma_values_of(items@);
                assert(!values_of(items@)[i as int].hashable());
            }
            return false;
        }
        proof {
            lemma_values_of(items@);
        }
        i += 1;
    }
    true
}

/// Returns whether `items` holds a constant with the value of `x`.
pub fn contains_value(items: &Vec<Obj>, x: &Obj) -> (r: bool)
    requires
        all_hashable(values_of(items@)),
        x@.hashable(),
    ensures
        r == values_of(items@).contains(x@),
{
    proof {
        lemma_values_of(items@);
    }
    let mut i: usize = 0;
    while i < items.len()
        invariant
            i <= items.len(),
            all_hashable(values_of(items@)),
            x@.hashable(),
            values_of(items@).len() == items@.len(),
            forall|j: int| 0 <= j < i ==> values_of(items@)[j] != x@,
        decreases items.len() - i,
    {
        proof {
            lemma_values_of(items@);
            assert(values_of(items@)[i as int].hashable());
        }
        if items[i].same_value(x) {
            assert(values_of(items@)[i as int] == x@);
            return true;
        }
        i += 1;
    }
    false
}

/// Returns whether every constant of `a` has its value in `b`.
pub fn is_subset(a: &Vec<Obj>, b: &Vec<Obj>) -> (r: bool)
    requires
        all_hashable(values_of(a@)),
        all_hashable(values_of(b@)),
    ensures
        r == (forall|i: int|
            0 <= i < values_of(a@).len() ==> values_of(b@).contains(#[trigger] values_of(a@)[i])),
{
    proof {
        lemma_values_of(a@);
    }
    let mut i: usize = 0;
    while i < a.len()
        invariant
            i <= a.len(),
            all_hashable(values_of(a@)),
            all_hashable(values_of(b@)),
            values_of(a@).len() == a@.len(),
            forall|j: int| 0 <= j < i ==> values_of(b@).contains(#[trigger] values_of(a@)[j]),
        decreases a.len() - i,
    {
        proof {
            lemma_values_of(a@);
            assert(values_of(a@)[i as int].hashable());
        }
        if !contains_value(b, &a[i]) {
            assert(!values_of(b@).contains(values_of(a@)[i as int]));
            return false;
        }
        i += 1;
    }
    true
}

/// Computes the comparison numbered `arg` on known constants.
pub fn apply_compare(arg: u16, left: &Obj, right: &Obj) -> (r: Result<bool, Option<ObjType>>)
    ensures
        r == compare_value(arg, left@, right@),
{
    if arg > 5 {
        return Err(None);
    }
    proof {
        lemma_value_of_items(*left);
        lemma_value_of_items(*right);
    }
    match (left, right) {
        (Obj::Long(a), Obj::Long(b)) => {
            let holds = if arg == 0 {
                a.less_than(b)
            } else if arg == 1 {
                !b.less_than(a)
            } else if arg == 2 {
                a.equals(b)
            } else if arg == 3 {
                !a.equals(b)
            } else if arg == 4 {
                b.less_than(a)
            } else {
                !a.less_than(b)
            };
            Ok(holds)
        },
        (Obj::PySet(a), Obj::PySet(b)) => {
            if (arg == 2 || arg == 3) && all_items_hashable(a) && all_items_hashable(b) {
                let same = is_subset(a, b) && is_subset(b, a);
                Ok(same == (arg == 2))
            } else {
                Err(Some(ObjType::PySet))
            }
        },
        (Obj::Long(_), _) => Err(Some(right.typ())),
        (Obj::PySet(_), _) => Err(Some(right.typ())),
        _ => Err(Some(left.typ())),
    }
}

/// The values of `items` without repetition: each value is kept where it
/// first occurs.
pub open spec fn distinct(items: Seq<Value>) -> Seq<Value>
    decreases items.len(),
{
    if items.len() == 0 {
        Seq::empty()
    } else {
        let before = distinct(items.drop_last());
        if before.contains(items.last()) {
            before
        } else {
            before.push(items.last())
        }
    }
}

/// The values of `distinct(items)` are values of `items`.
pub proof fn lemma_distinct_hashable(items: Seq<Value>)
    requires
        all_hashable(items),
    ensures
        all_hashable(distinct(items)),
    decreases items.len(),
{
    if items.len() > 0 {
        let before = items.drop_last();
        assert forall|i: int| 0 <= i < before.len() implies (#[trigger] before[i]).hashable() by {
            assert(before[i] == items[i]);
        }
        lemma_distinct_hashable(before);
        assert(items.last() == items[items.len() - 1]);
    }
}

/// Returns the constants of `items` without repetition of a value: each is
/// kept where its value first occurs.
pub fn distinct_objs(items: &Vec<Obj>) -> (r: Vec<Obj>)
    requires
        all_hashable(values_of(items@)),
    ensures
        values_of(r@) == distinct(values_of(items@)),
{
    let ghost all = values_of(items@);
    let mut out: Vec<Obj> = Vec::new();
    let mut i: usize = 0;
    proof {
        lemma_values_of(items@);
        lemma_values_of(out@);
        assert(all.subrange(0, 0) =~= Seq::empty());
        assert(values_of(out@) =~= distinct(all.subrange(0, 0)));
    }
    while i < items.len()
        invariant
            i <= items.len(),
            all == values_of(items@),
            all.len() == items@.len(),
            all_hashable(all),
            values_of(out@) == distinct(all.subrange(0, i as int)),
        decreases items.len() - i,
    {
        let ghost before = all.subrange(0, i as int);
        let ghost upto = all.subrange(0, i + 1);
        proof {
            lemma_values_of(items@);
            lemma_values_of(out@);
            assert(upto.drop_last() =~= before);
            assert(upto.last() == all[i as int]);
            assert(all[i as int].hashable());
            assert forall|j: int| 0 <= j < before.len() implies (#[trigger] before[j]).hashable() by {
                assert(before[j] == all[j]);
            }
            lemma_distinct_hashable(before);
        }
        if !contains_value(&out, &items[i]) {
            let ghost old_out = out@;
            out.push(items[i].clone());
            proof {
                lemma_values_of(old_out);
                lemma_values_of(out@);
                assert(values_of(out@) =~= values_of(old_out).push(all[i as int]));
            }
        }
        i += 1;
    }
    proof {
        assert(all.subrange(0, i as int) =~= all);
    }
    out
}

} // verus!

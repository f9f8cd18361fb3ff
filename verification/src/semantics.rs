//! The state of the abstract interpreter and the meaning of its
//! instructions.
//!
//! The interpreter executes one instruction at a time on a stack, a table of
//! local variables and a table of names. Every cell holds a value, which is
//! either a known constant or unknown, together with the identities of the
//! instructions that contributed to it. [`step`] defines what each
//! instruction does to that state.

use vstd::prelude::*;
use std::collections::HashMap;
use crate::error::ExecutionError;
use crate::instruction::Instruction;
use crate::object::{CodeValue, Obj, ObjType, Value};
use crate::opcode::Opcode;
use crate::operators::{
    all_hashable, binary_op_of, binary_value, compare_value, distinct, not_value,
};

verus! {

/// A value of the interpreter: a constant that is statically known, or
/// `None` for a value that is not.
pub type VmVar = Option<Obj>;

/// A value with the identities of the instructions that contributed to it,
/// in the order in which they did.
#[derive(Debug)]
pub struct VmVarWithTracking<T> {
    pub value: VmVar,
    pub accesses: Vec<T>,
}

/// The operand stack; its last element is the top.
pub type VmStack<T> = Vec<VmVarWithTracking<T>>;

/// The local variables that have been stored, by slot.
pub type VmVars<T> = HashMap<u16, VmVarWithTracking<T>>;

/// The names that have been stored. A later entry for a name replaces an
/// earlier one.
pub type VmNames<T> = Vec<(Vec<u8>, VmVarWithTracking<T>)>;

/// The mathematical value of a cell of the interpreter.
pub struct TrackedValue<T> {
    pub value: Option<Value>,
    pub accesses: Seq<T>,
}

/// The mathematical state of the interpreter.
pub struct VmValue<T> {
    pub stack: Seq<TrackedValue<T>>,
    pub vars: Map<u16, TrackedValue<T>>,
    pub names: Map<Seq<u8>, TrackedValue<T>>,
}

/// The value of an interpreter variable.
pub open spec fn var_value(v: VmVar) -> Option<Value> {
    match v {
        Some(o) => Some(o@),
        None => None,
    }
}

impl<T> View for VmVarWithTracking<T> {
    type V = TrackedValue<T>;

    open spec fn view(&self) -> TrackedValue<T> {
        TrackedValue { value: var_value(self.value), accesses: self.accesses@ }
    }
}

/// The values of a sequence of interpreter variables.
pub open spec fn var_values(vars: Seq<VmVar>) -> Seq<Option<Value>> {
    Seq::new(vars.len(), |i: int| var_value(vars[i]))
}

/// The values of a sequence of pairs of interpreter variables.
pub open spec fn var_pair_values(pairs: Seq<(VmVar, VmVar)>) -> Seq<(Option<Value>, Option<Value>)> {
    Seq::new(pairs.len(), |i: int| (var_value(pairs[i].0), var_value(pairs[i].1)))
}

/// The value of a stack.
pub open spec fn stack_value<T>(stack: Seq<VmVarWithTracking<T>>) -> Seq<TrackedValue<T>> {
    Seq::new(stack.len(), |i: int| stack[i]@)
}

/// The value of a table of local variables.
pub open spec fn vars_value<T>(vars: Map<u16, VmVarWithTracking<T>>) -> Map<u16, TrackedValue<T>> {
    Map::new(|k: u16| vars.contains_key(k), |k: u16| vars[k]@)
}

/// The value of a table of names: each name is bound to the cell of its last
/// entry.
pub open spec fn names_value<T>(names: Seq<(Vec<u8>, VmVarWithTracking<T>)>) -> Map<
    Seq<u8>,
    TrackedValue<T>,
>
    decreases names.len(),
{
    if names.len() == 0 {
        Map::empty()
    } else {
        names_value(names.drop_last()).insert(names.last().0@, names.last().1@)
    }
}

/// The value of the three parts of the interpreter's state.
pub open spec fn vm_value<T>(stack: VmStack<T>, vars: VmVars<T>, names: VmNames<T>) -> VmValue<T> {
    VmValue { stack: stack_value(stack@), vars: vars_value(vars@), names: names_value(names@) }
}

/// Resolves the calls that the interpreted code makes.
pub trait FunctionResolver {
    /// The result of calling `function` with the positional arguments `args`
    /// and the keyword arguments `kwargs`, each a pair of key and value; or
    /// the kind of the operand that the call is not defined on.
    ///
    /// A resolver defines this function to say what [`resolve`] computes.
    /// Where it does not, the result is left open.
    ///
    /// [`resolve`]: FunctionResolver::resolve
    open spec fn resolved(
        &self,
        function: Option<Value>,
        args: Seq<Option<Value>>,
        kwargs: Seq<(Option<Value>, Option<Value>)>,
    ) -> Result<Option<Value>, Option<ObjType>> {
        arbitrary()
    }

    /// Computes the result of a call.
    fn resolve(&self, function: &VmVar, args: &Vec<VmVar>, kwargs: &Vec<(VmVar, VmVar)>) -> (r:
        Result<VmVar, Option<ObjType>>)
        ensures
            r matches Ok(v) ==> self.resolved(
                var_value(*function),
                var_values(args@),
                var_pair_values(kwargs@),
            ) == Ok::<Option<Value>, Option<ObjType>>(var_value(v)),
            r matches Err(t) ==> self.resolved(
                var_value(*function),
                var_values(args@),
                var_pair_values(kwargs@),
            ) == Err::<Option<Value>, Option<ObjType>>(t),
    ;
}

/// The cell that lies `k` places below the top of a stack.
pub open spec fn top<T>(s: Seq<TrackedValue<T>>, k: int) -> TrackedValue<T>
    recommends
        0 <= k < s.len(),
{
    s[s.len() - 1 - k]
}

/// A stack without its `n` topmost cells, and with `cell` pushed instead.
pub open spec fn replace_top<T>(s: Seq<TrackedValue<T>>, n: int, cell: TrackedValue<T>) -> Seq<
    TrackedValue<T>,
>
    recommends
        0 <= n <= s.len(),
{
    s.subrange(0, s.len() - n).push(cell)
}

/// The accesses of the `n` topmost cells of a stack, from the top down.
pub open spec fn gathered<T>(s: Seq<TrackedValue<T>>, n: nat) -> Seq<T>
    recommends
        n <= s.len(),
    decreases n,
{
    if n == 0 {
        Seq::empty()
    } else {
        gathered(s, (n - 1) as nat) + top(s, n - 1).accesses
    }
}

/// The values of the `n` topmost cells of a stack, from the top down.
pub open spec fn popped<T>(s: Seq<TrackedValue<T>>, n: nat) -> Seq<Option<Value>>
    recommends
        n <= s.len(),
{
    Seq::new(n, |k: int| top(s, k).value)
}

/// Whether every value of a sequence is known.
pub open spec fn all_known(values: Seq<Option<Value>>) -> bool {
    forall|i: int| 0 <= i < values.len() ==> (#[trigger] values[i]) is Some
}

/// The known values of a sequence.
pub open spec fn known(values: Seq<Option<Value>>) -> Seq<Value>
    recommends
        all_known(values),
{
    Seq::new(values.len(), |i: int| values[i].unwrap())
}

/// The keyword arguments among the cells of a stack: `count` pairs below
/// the `skip` topmost cells, each with its value above its key.
pub open spec fn keyword_pairs<T>(s: Seq<TrackedValue<T>>, skip: nat, count: nat) -> Seq<
    (Option<Value>, Option<Value>),
> {
    Seq::new(count, |j: int| (top(s, skip + 2 * j + 1).value, top(s, skip + 2 * j).value))
}

/// Whether every key of a sequence of keyword arguments is unknown or can be
/// a key of a dictionary.
pub open spec fn keys_hashable(pairs: Seq<(Option<Value>, Option<Value>)>) -> bool {
    forall|j: int|
        0 <= j < pairs.len() ==> ((#[trigger] pairs[j]).0 matches Some(k) ==> k.hashable())
}

/// The stack after an instruction, or its refusal.
pub type StackResult<T> = Result<Seq<TrackedValue<T>>, ExecutionError>;

/// The refusal of an instruction, with the kind of the offending operand.
pub open spec fn refuse<T>(instr: Instruction, typ: Option<ObjType>) -> StackResult<T> {
    Err(ExecutionError::ComplexExpression(instr, typ))
}

/// The stack after an instruction that replaces the `n` topmost cells by one
/// cell. The new cell carries the accesses of the replaced cells, from the
/// top down, and `t`. Its value is `value`, which is consulted only when
/// all replaced cells are known: a cell computed from an unknown operand is
/// unknown.
pub open spec fn combine<T>(
    instr: Instruction,
    s: Seq<TrackedValue<T>>,
    n: nat,
    value: Result<Value, Option<ObjType>>,
    t: T,
) -> StackResult<T> {
    if s.len() < n {
        refuse(instr, None)
    } else {
        let accesses = gathered(s, n).push(t);
        if !all_known(popped(s, n)) {
            Ok(replace_top(s, n as int, TrackedValue { value: None, accesses }))
        } else {
            match value {
                Ok(v) => Ok(replace_top(s, n as int, TrackedValue { value: Some(v), accesses })),
                Err(typ) => refuse(instr, typ),
            }
        }
    }
}

/// The stack after an instruction that replaces the `n` topmost cells by an
/// unknown value.
pub open spec fn forget<T>(instr: Instruction, s: Seq<TrackedValue<T>>, n: nat, t: T) -> StackResult<
    T,
> {
    if s.len() < n {
        refuse(instr, None)
    } else {
        Ok(replace_top(s, n as int, TrackedValue { value: None, accesses: gathered(s, n).push(t) }))
    }
}

/// The widening of an operator's refusal to that of an instruction.
pub open spec fn widen(r: Result<Value, ObjType>) -> Result<Value, Option<ObjType>> {
    match r {
        Ok(v) => Ok(v),
        Err(t) => Err(Some(t)),
    }
}

/// The value of `container[index]`: the item of a list at an index within
/// its bounds.
pub open spec fn subscript_value(container: Value, index: Value) -> Result<Value, Option<ObjType>> {
    match container {
        Value::List(items) => match index {
            Value::Long(i) => if 0 <= i < items.len() {
                Ok(items[i])
            } else {
                Err(Some(ObjType::Long))
            },
            _ => Err(Some(index.typ())),
        },
        _ => Err(Some(container.typ())),
    }
}

/// The stack after `FOR_ITER`: the topmost cell is the iterator. From a
/// known string that is not empty, the last byte is taken away and pushed as
/// an integer; an empty string leaves the stack unchanged. An unknown
/// iterator yields an unknown value.
pub open spec fn for_iter<T>(instr: Instruction, s: Seq<TrackedValue<T>>, t: T) -> StackResult<T> {
    if s.len() < 1 {
        refuse(instr, None)
    } else {
        let iterator = top(s, 0);
        let accesses = iterator.accesses.push(t);
        match iterator.value {
            None => Ok(s.push(TrackedValue { value: None, accesses })),
            Some(Value::String(bytes)) => if bytes.len() == 0 {
                Ok(s)
            } else {
                Ok(
                    replace_top(
                        s,
                        1,
                        TrackedValue {
                            value: Some(Value::String(bytes.drop_last())),
                            accesses: iterator.accesses,
                        },
                    ).push(TrackedValue { value: Some(Value::Long(bytes.last() as int)), accesses }),
                )
            },
            Some(other) => refuse(instr, Some(other.typ())),
        }
    }
}

/// The stack after `LIST_APPEND`: the topmost cell, a known integer that is a
/// byte, is popped and appended to the string that lies `arg` places from
/// the top of the remaining stack. An unknown accumulator stays unknown.
pub open spec fn list_append<T>(instr: Instruction, s: Seq<TrackedValue<T>>, arg: u16, t: T) -> StackResult<
    T,
> {
    if s.len() < 1 {
        refuse(instr, None)
    } else {
        let item = top(s, 0);
        let rest = s.drop_last();
        match item.value {
            Some(Value::Long(b)) => if !(0 <= b <= 255) {
                refuse(instr, Some(ObjType::Long))
            } else if arg < 1 || arg > rest.len() {
                refuse(instr, None)
            } else {
                let target = top(rest, arg - 1);
                let accesses = (target.accesses + item.accesses).push(t);
                match target.value {
                    None => Ok(rest.update(rest.len() - arg, TrackedValue { value: None, accesses })),
                    Some(Value::String(bytes)) => Ok(
                        rest.update(
                            rest.len() - arg,
                            TrackedValue {
                                value: Some(Value::String(bytes.push(b as u8))),
                                accesses,
                            },
                        ),
                    ),
                    Some(other) => refuse(instr, Some(other.typ())),
                }
            },
            Some(other) => refuse(instr, Some(other.typ())),
            None => refuse(instr, None),
        }
    }
}

/// The cells that `UNPACK_SEQUENCE` pushes from a tuple: its last `arg`
/// items (all of them if it has fewer), from the last one on.
pub open spec fn unpacked<T>(items: Seq<Value>, arg: u16, accesses: Seq<T>) -> Seq<TrackedValue<T>> {
    let count = if arg <= items.len() {
        arg as nat
    } else {
        items.len()
    };
    Seq::new(count, |j: int| TrackedValue { value: Some(items[items.len() - 1 - j]), accesses })
}

/// The stack after `UNPACK_SEQUENCE`: the topmost cell is replaced by the
/// cells unpacked from it if it is a known tuple, and by `arg` unknown cells
/// if it is unknown.
pub open spec fn unpack_sequence<T>(instr: Instruction, s: Seq<TrackedValue<T>>, arg: u16, t: T) -> StackResult<
    T,
> {
    if s.len() < 1 {
        refuse(instr, None)
    } else {
        let source = top(s, 0);
        let accesses = source.accesses.push(t);
        let rest = s.drop_last();
        match source.value {
            None => Ok(rest + Seq::new(arg as nat, |j: int| TrackedValue { value: None, accesses })),
            Some(Value::Tuple(items)) => Ok(rest + unpacked(items, arg, accesses)),
            Some(other) => refuse(instr, Some(other.typ())),
        }
    }
}

/// The stack after `CALL_FUNCTION`: the low byte of `arg` counts the
/// positional arguments, which lie on top; the high byte counts the keyword
/// arguments below them, each a value above its key; the callable lies
/// below these. All are replaced by what the resolver returns. The new cell
/// carries the accesses of the arguments and of the callable, from the top
/// down, and `t`.
pub open spec fn call_function<F: FunctionResolver, T>(
    resolver: F,
    instr: Instruction,
    s: Seq<TrackedValue<T>>,
    arg: u16,
    t: T,
) -> StackResult<T> {
    let positional = (arg % 256) as nat;
    let keywords = (arg / 256) as nat;
    let operands = positional + 2 * keywords;
    if s.len() < operands + 1 {
        refuse(instr, None)
    } else {
        let pairs = keyword_pairs(s, positional, keywords);
        if !keys_hashable(pairs) {
            refuse(instr, None)
        } else {
            match resolver.resolved(top(s, operands as int).value, popped(s, positional), pairs) {
                Ok(value) => Ok(
                    replace_top(
                        s,
                        (operands + 1) as int,
                        TrackedValue { value, accesses: gathered(s, operands + 1).push(t) },
                    ),
                ),
                Err(typ) => refuse(instr, typ),
            }
        }
    }
}

/// The collection that a `BUILD_TUPLE`, `BUILD_LIST` or `BUILD_SET`
/// instruction builds from known values. A set holds each value once, and
/// all of them must be hashable.
pub open spec fn built_value(opcode: Opcode, values: Seq<Value>) -> Result<Value, Option<ObjType>> {
    match opcode {
        Opcode::BUILD_TUPLE => Ok(Value::Tuple(values)),
        Opcode::BUILD_LIST => Ok(Value::List(values)),
        _ => if all_hashable(values) {
            Ok(Value::PySet(distinct(values)))
        } else {
            Err(None)
        },
    }
}

/// The stack after an instruction that pushes a cell with the accesses
/// `accesses` and then `t`.
pub open spec fn load<T>(s: Seq<TrackedValue<T>>, value: Option<Value>, accesses: Seq<T>, t: T) -> StackResult<
    T,
> {
    Ok(s.push(TrackedValue { value, accesses: accesses.push(t) }))
}

/// The value that an instruction computes from its operands, which are
/// the topmost cells of the stack and are all known; or the kind of the
/// operand that the instruction is not defined on.
pub open spec fn combined_value<T>(instr: Instruction, s: Seq<TrackedValue<T>>) -> Result<
    Value,
    Option<ObjType>,
> {
    match instr.opcode {
        Opcode::UNARY_NOT => widen(not_value(top(s, 0).value.unwrap())),
        Opcode::COMPARE_OP => match instr.arg {
            Some(arg) => match compare_value(
                arg,
                top(s, 1).value.unwrap(),
                top(s, 0).value.unwrap(),
            ) {
                Ok(b) => Ok(Value::Bool(b)),
                Err(typ) => Err(typ),
            },
            None => Err(None),
        },
        Opcode::BINARY_SUBSC => subscript_value(top(s, 1).value.unwrap(), top(s, 0).value.unwrap()),
        Opcode::BUILD_TUPLE | Opcode::BUILD_LIST | Opcode::BUILD_SET => match instr.arg {
            Some(arg) => built_value(instr.opcode, known(popped(s, arg as nat))),
            None => Err(None),
        },
        _ => match binary_op_of(instr.opcode) {
            Some(op) => widen(
                binary_value(op, top(s, 1).value.unwrap(), top(s, 0).value.unwrap()),
            ),
            None => Err(None),
        },
    }
}

/// The number of operands of an instruction that computes one value from
/// the topmost cells of the stack, if it is such an instruction.
pub open spec fn operand_count(instr: Instruction) -> Option<nat> {
    match instr.opcode {
        Opcode::UNARY_NOT => Some(1),
        Opcode::COMPARE_OP | Opcode::BINARY_SUBSC => Some(2),
        Opcode::BUILD_TUPLE | Opcode::BUILD_LIST | Opcode::BUILD_SET => match instr.arg {
            Some(arg) => Some(arg as nat),
            None => Some(0),
        },
        _ => if binary_op_of(instr.opcode) is Some {
            Some(2)
        } else {
            None
        },
    }
}

/// The stack after an instruction that reads and writes the stack alone.
pub open spec fn stack_step<T>(instr: Instruction, s: Seq<TrackedValue<T>>, t: T) -> StackResult<T> {
    let no_accesses = Seq::<T>::empty();
    match instr.opcode {
        Opcode::GET_ITER | Opcode::JUMP_ABSOLUTE => Ok(s),
        Opcode::LOAD_GLOBAL => load(s, None, no_accesses, t),
        Opcode::BUILD_MAP => load(s, Some(Value::Dict(Seq::empty())), no_accesses, t),
        Opcode::DUP_TOP => if s.len() < 1 {
            refuse(instr, None)
        } else {
            load(s, top(s, 0).value, top(s, 0).accesses, t)
        },
        Opcode::IMPORT_FROM => if s.len() < 1 {
            refuse(instr, None)
        } else {
            load(s, None, top(s, 0).accesses, t)
        },
        Opcode::POP_TOP => if s.len() < 1 {
            refuse(instr, None)
        } else {
            Ok(s.drop_last())
        },
        Opcode::IMPORT_NAME => forget(instr, s, 2, t),
        Opcode::LOAD_ATTR | Opcode::MAKE_FUNCTION => forget(instr, s, 1, t),
        Opcode::FOR_ITER => for_iter(instr, s, t),
        Opcode::LIST_APPEND => match instr.arg {
            Some(arg) => list_append(instr, s, arg, t),
            None => refuse(instr, None),
        },
        Opcode::UNPACK_SEQUENCE => match instr.arg {
            Some(arg) => unpack_sequence(instr, s, arg, t),
            None => refuse(instr, None),
        },
        _ => match operand_count(instr) {
            Some(n) => if instr.opcode.has_arg_spec() && instr.arg is None {
                refuse(instr, None)
            } else {
                combine(instr, s, n, combined_value(instr, s), t)
            },
            None => Err(ExecutionError::UnsupportedOpcode(instr.opcode)),
        },
    }
}

/// The stack after an instruction that loads from the tables of the code
/// object, from the local variables or from the names. A variable or a name
/// that was never stored loads as a string that holds its identifier.
pub open spec fn load_step<T>(instr: Instruction, code: CodeValue, st: VmValue<T>, arg: u16, t: T) -> StackResult<
    T,
> {
    let s = st.stack;
    let no_accesses = Seq::<T>::empty();
    match instr.opcode {
        Opcode::LOAD_CONST => if arg < code.consts.len() {
            load(s, Some(code.consts[arg as int]), no_accesses, t)
        } else {
            refuse(instr, None)
        },
        Opcode::LOAD_FAST => if st.vars.contains_key(arg) {
            load(s, st.vars[arg].value, st.vars[arg].accesses, t)
        } else if arg < code.varnames.len() {
            load(s, Some(Value::String(code.varnames[arg as int])), no_accesses, t)
        } else {
            refuse(instr, None)
        },
        _ => if arg < code.names.len() {
            let name = code.names[arg as int];
            if st.names.contains_key(name) {
                load(s, st.names[name].value, st.names[name].accesses, t)
            } else {
                load(s, Some(Value::String(name)), no_accesses, t)
            }
        } else {
            refuse(instr, None)
        },
    }
}

/// The state `st` with the stack that an instruction left, or the refusal
/// of the instruction.
pub open spec fn with_stack<T>(st: VmValue<T>, r: StackResult<T>) -> Result<
    VmValue<T>,
    ExecutionError,
> {
    match r {
        Ok(stack) => Ok(VmValue { stack, vars: st.vars, names: st.names }),
        Err(e) => Err(e),
    }
}

/// The cell that a store instruction writes: the topmost cell, with `t`
/// added to its accesses.
pub open spec fn stored<T>(s: Seq<TrackedValue<T>>, t: T) -> TrackedValue<T>
    recommends
        s.len() > 0,
{
    TrackedValue { value: top(s, 0).value, accesses: top(s, 0).accesses.push(t) }
}

/// Whether a value is a list or a dictionary: a container that a store
/// through a subscript changes.
pub open spec fn is_mutable(value: Option<Value>) -> bool {
    value matches Some(v) && (v.typ() == ObjType::List || v.typ() == ObjType::Dict)
}

/// Whether `container[key] = ..` is defined: on a list with an integer
/// within its bounds as key, and on a dictionary with a hashable key.
/// Nothing is asked of what is unknown.
pub open spec fn store_check(container: Option<Value>, key: Option<Value>) -> Result<
    (),
    Option<ObjType>,
> {
    match container {
        None => Ok(()),
        Some(c) => if c.typ() == ObjType::Dict {
            match key {
                Some(k) => if k.hashable() {
                    Ok(())
                } else {
                    Err(Some(k.typ()))
                },
                None => Ok(()),
            }
        } else {
            match key {
                Some(k) => match subscript_value(c, k) {
                    Ok(_) => Ok(()),
                    Err(typ) => Err(typ),
                },
                None => if c.typ() == ObjType::List {
                    Ok(())
                } else {
                    Err(Some(c.typ()))
                },
            }
        },
    }
}

/// The index of the first entry for `key` from index `from` on, if there
/// is one.
pub open spec fn key_index(entries: Seq<(Value, Value)>, key: Value, from: nat) -> Option<nat>
    decreases entries.len() - from,
{
    if from >= entries.len() {
        None
    } else if entries[from as int].0 == key {
        Some(from)
    } else {
        key_index(entries, key, from + 1)
    }
}

/// The container after `container[key] = value`: the list with the item at
/// the index replaced; the dictionary with the value of the first entry for
/// the key replaced, or with a new entry at its end if it has none. No
/// other item or entry changes.
pub open spec fn stored_into(container: Value, key: Value, value: Value) -> Value {
    match container {
        Value::List(items) => match key {
            Value::Long(i) => if 0 <= i < items.len() {
                Value::List(items.update(i, value))
            } else {
                container
            },
            _ => container,
        },
        Value::Dict(entries) => match key_index(entries, key, 0) {
            Some(i) => Value::Dict(entries.update(i as int, (key, value))),
            None => Value::Dict(entries.push((key, value))),
        },
        _ => container,
    }
}

/// What is known of the container after a store: the container of
/// [`stored_into`] if the container, the key and the value are known, and
/// nothing otherwise.
pub open spec fn store_result(
    container: Option<Value>,
    key: Option<Value>,
    value: Option<Value>,
) -> Option<Value> {
    match (container, key, value) {
        (Some(c), Some(k), Some(v)) => Some(stored_into(c, k, v)),
        _ => None,
    }
}

/// A cell after a store through a subscript into `container`, of which
/// `changed` is known afterwards.
///
/// A cell that holds the container, which is a cell whose list or
/// dictionary has the value of the container, holds what is known of the
/// container afterwards, and carries the accesses `more` of the store.
/// Where the container is unknown, every cell that holds a list or a
/// dictionary may hold it, and is unknown afterwards. Every other cell
/// stays as it is.
pub open spec fn after_store<T>(
    cell: TrackedValue<T>,
    container: Option<Value>,
    changed: Option<Value>,
    more: Seq<T>,
) -> TrackedValue<T> {
    if !is_mutable(cell.value) {
        cell
    } else {
        match container {
            None => TrackedValue { value: None, accesses: cell.accesses + more },
            Some(c) => if cell.value == Some(c) {
                TrackedValue { value: changed, accesses: cell.accesses + more }
            } else {
                cell
            },
        }
    }
}

/// The state after `STORE_SUBSCR`, which stores the third cell from the
/// top into the container below the top under the key on top, and pops all
/// three. The store is carried out by [`after_store`] on every cell that is
/// left: the cells that hold the container hold the changed container
/// afterwards; an unknown container, key or value makes them unknown.
pub open spec fn store_subscript<T>(instr: Instruction, st: VmValue<T>, t: T) -> Result<
    VmValue<T>,
    ExecutionError,
> {
    let s = st.stack;
    if s.len() < 3 {
        with_stack(st, refuse(instr, None))
    } else {
        match store_check(top(s, 1).value, top(s, 0).value) {
            Err(typ) => with_stack(st, refuse(instr, typ)),
            Ok(()) => {
                let more = gathered(s, 3).push(t);
                let container = top(s, 1).value;
                let changed = store_result(container, top(s, 0).value, top(s, 2).value);
                Ok(
                    VmValue {
                        stack: Seq::new(
                            (s.len() - 3) as nat,
                            |i: int| after_store(s[i], container, changed, more),
                        ),
                        vars: Map::new(
                            |k: u16| st.vars.contains_key(k),
                            |k: u16| after_store(st.vars[k], container, changed, more),
                        ),
                        names: Map::new(
                            |n: Seq<u8>| st.names.contains_key(n),
                            |n: Seq<u8>| after_store(st.names[n], container, changed, more),
                        ),
                    },
                )
            },
        }
    }
}

/// The state after executing `instr` in the state `st`, or the refusal of
/// the instruction.
///
/// `code` is the code object that `instr` belongs to, `resolver` answers the
/// calls, and `t` is the identity under which `instr` is recorded in the
/// accesses of the cells it contributes to.
pub open spec fn step<F: FunctionResolver, T>(
    resolver: F,
    instr: Instruction,
    code: CodeValue,
    st: VmValue<T>,
    t: T,
) -> Result<VmValue<T>, ExecutionError> {
    let s = st.stack;
    match instr.opcode {
        Opcode::CALL_FUNCTION => match instr.arg {
            Some(arg) => with_stack(st, call_function(resolver, instr, s, arg, t)),
            None => with_stack(st, refuse(instr, None)),
        },
        Opcode::LOAD_CONST | Opcode::LOAD_FAST | Opcode::LOAD_NAME => match instr.arg {
            Some(arg) => with_stack(st, load_step(instr, code, st, arg, t)),
            None => with_stack(st, refuse(instr, None)),
        },
        Opcode::STORE_FAST => match instr.arg {
            Some(arg) => if s.len() < 1 {
                with_stack(st, refuse(instr, None))
            } else {
                Ok(
                    VmValue {
                        stack: s.drop_last(),
                        vars: st.vars.insert(arg, stored(s, t)),
                        names: st.names,
                    },
                )
            },
            None => with_stack(st, refuse(instr, None)),
        },
        Opcode::STORE_NAME => match instr.arg {
            Some(arg) => if s.len() < 1 || arg >= code.names.len() {
                with_stack(st, refuse(instr, None))
            } else {
                Ok(
                    VmValue {
                        stack: s.drop_last(),
                        vars: st.vars,
                        names: st.names.insert(code.names[arg as int], stored(s, t)),
                    },
                )
            },
            None => with_stack(st, refuse(instr, None)),
        },
        Opcode::STORE_SUBSCR => store_subscript(instr, st, t),
        _ => with_stack(st, stack_step(instr, s, t)),
    }
}

} // verus!

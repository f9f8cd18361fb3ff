//! A small abstract interpreter for Python 2.7 bytecode: the execution of
//! one instruction on a stack, a table of local variables and a table of
//! names.

use vstd::prelude::*;
use crate::error::ExecutionError;
use crate::instruction::Instruction;
use crate::long::Long;
use crate::object::{
    bytes_eq, clone_bytes, clone_objs, lemma_value_of_items, lemma_value_of_nested,
    lemma_values_of, value_of, values_of, Code, Obj, ObjType, Value,
};
use crate::opcode::Opcode;
use crate::operators::{
    all_items_hashable, apply_binary, apply_compare, apply_not, binary_operator, distinct_objs,
};
pub use crate::semantics::{
    FunctionResolver, StackResult, TrackedValue, VmNames, VmStack, VmValue, VmVar,
    VmVarWithTracking, VmVars,
};
use crate::semantics::{
    after_store, all_known, call_function, combine, combined_value, for_iter, forget, gathered,
    is_mutable, key_index, keys_hashable, keyword_pairs, known, list_append, load, load_step,
    names_value, operand_count, popped, replace_top, stack_value, step, store_check,
    store_result, store_subscript, stored, stored_into, subscript_value, top, unpack_sequence,
    unpacked, var_pair_values, var_value, var_values, vars_value, vm_value,
};

verus! {

/// Whether `r` and the stack `after` are the outcome that `expected`
/// describes for an instruction executed on the stack `before`: on success
/// the stack has the expected value, and a refused instruction leaves the
/// stack as it was.
pub open spec fn stack_outcome<T>(
    r: Result<(), ExecutionError>,
    before: Seq<VmVarWithTracking<T>>,
    after: Seq<VmVarWithTracking<T>>,
    expected: StackResult<T>,
) -> bool {
    match r {
        Ok(()) => expected == Ok::<Seq<TrackedValue<T>>, ExecutionError>(stack_value(after)),
        Err(e) => expected == Err::<Seq<TrackedValue<T>>, ExecutionError>(e) && after == before,
    }
}

/// A copy of an interpreter variable.
pub fn clone_var(v: &VmVar) -> (r: VmVar)
    ensures
        var_value(r) == var_value(*v),
{
    match v {
        Some(o) => Some(o.clone()),
        None => None,
    }
}

/// Appends the accesses `more` to `out`.
fn append_accesses<T: Copy>(out: &mut Vec<T>, more: &Vec<T>)
    ensures
        final(out)@ == old(out)@ + more@,
{
    let mut i: usize = 0;
    while i < more.len()
        invariant
            i <= more.len(),
            out@ == old(out)@ + more@.subrange(0, i as int),
        decreases more.len() - i,
    {
        out.push(more[i]);
        assert(out@ =~= old(out)@ + more@.subrange(0, i + 1));
        i += 1;
    }
    assert(out@ =~= old(out)@ + more@);
}

/// The accesses `accesses`, followed by `t`.
fn extended<T: Copy>(accesses: &Vec<T>, t: T) -> (r: Vec<T>)
    ensures
        r@ == accesses@.push(t),
{
    let mut out: Vec<T> = Vec::new();
    append_accesses(&mut out, accesses);
    out.push(t);
    assert(out@ =~= accesses@.push(t));
    out
}

/// The accesses of the `n` topmost cells, from the top down, followed by `t`.
fn gather<T: Copy>(stack: &VmStack<T>, n: usize, t: T) -> (r: Vec<T>)
    requires
        n <= stack.len(),
    ensures
        r@ == gathered(stack_value(stack@), n as nat).push(t),
{
    let len = stack.len();
    let mut out: Vec<T> = Vec::new();
    let mut k: usize = 0;
    while k < n
        invariant
            k <= n <= stack.len(),
            len == stack.len(),
            out@ == gathered(stack_value(stack@), k as nat),
        decreases n - k,
    {
        append_accesses(&mut out, &stack[len - 1 - k].accesses);
        k += 1;
    }
    out.push(t);
    out
}

/// Whether the `n` topmost cells are all known.
fn operands_known<T>(stack: &VmStack<T>, n: usize) -> (r: bool)
    requires
        n <= stack.len(),
    ensures
        r == all_known(popped(stack_value(stack@), n as nat)),
{
    let len = stack.len();
    let ghost values = popped(stack_value(stack@), n as nat);
    let mut k: usize = 0;
    while k < n
        invariant
            k <= n <= stack.len(),
            len == stack.len(),
            values == popped(stack_value(stack@), n as nat),
            forall|j: int| 0 <= j < k ==> (#[trigger] values[j]) is Some,
        decreases n - k,
    {
        if stack[len - 1 - k].value.is_none() {
            assert(values[k as int] is None);
            return false;
        }
        assert(values[k as int] is Some);
        k += 1;
    }
    true
}

/// Pushes a cell.
fn push_cell<T>(stack: &mut VmStack<T>, cell: VmVarWithTracking<T>)
    ensures
        final(stack)@ == old(stack)@.push(cell),
        stack_value(final(stack)@) == stack_value(old(stack)@).push(cell@),
{
    stack.push(cell);
    assert(stack_value(stack@) =~= stack_value(old(stack)@).push(cell@));
}

/// Replaces the `n` topmost cells by `cell`.
fn replace_cells<T>(stack: &mut VmStack<T>, n: usize, cell: VmVarWithTracking<T>)
    requires
        n <= old(stack).len(),
    ensures
        stack_value(final(stack)@) == replace_top(stack_value(old(stack)@), n as int, cell@),
{
    let len = stack.len();
    stack.truncate(len - n);
    stack.push(cell);
    assert(stack_value(stack@) =~= replace_top(stack_value(old(stack)@), n as int, cell@));
}

/// Pushes a cell with the value `value` and the accesses `accesses`, `t`.
fn exec_load<T: Copy>(stack: &mut VmStack<T>, value: VmVar, accesses: &Vec<T>, t: T)
    ensures
        load(stack_value(old(stack)@), var_value(value), accesses@, t) == Ok::<
            Seq<TrackedValue<T>>,
            ExecutionError,
        >(stack_value(final(stack)@)),
{
    let cell = VmVarWithTracking { value, accesses: extended(accesses, t) };
    push_cell(stack, cell);
}

/// Replaces the `n` topmost cells by an unknown value.
fn exec_forget<T: Copy>(instr: &Instruction, stack: &mut VmStack<T>, n: usize, t: T) -> (r: Result<
    (),
    ExecutionError,
>)
    ensures
        stack_outcome(
            r,
            old(stack)@,
            final(stack)@,
            forget(*instr, stack_value(old(stack)@), n as nat, t),
        ),
{
    if stack.len() < n {
        return Err(ExecutionError::ComplexExpression(*instr, None));
    }
    let accesses = gather(stack, n, t);
    replace_cells(stack, n, VmVarWithTracking { value: None, accesses });
    Ok(())
}

/// The item of a list at an index.
fn subscript(container: &Obj, index: &Obj) -> (r: Result<Obj, Option<ObjType>>)
    ensures
        r matches Ok(v) ==> subscript_value(container@, index@) == Ok::<Value, Option<ObjType>>(
            v@,
        ),
        r matches Err(t) ==> subscript_value(container@, index@) == Err::<Value, Option<ObjType>>(
            t,
        ),
{
    proof {
        lemma_value_of_items(*container);
    }
    match container {
        Obj::List(items) => match index {
            Obj::Long(i) => match i.to_usize() {
                Some(at) => {
                    if at < items.len() {
                        proof {
                            lemma_values_of(items@);
                        }
                        Ok(items[at].clone())
                    } else {
                        Err(Some(ObjType::Long))
                    }
                },
                None => {
                    let count = items.len();
                    assert(i@ < 0 || i@ >= count);
                    Err(Some(ObjType::Long))
                },
            },
            _ => Err(Some(index.typ())),
        },
        _ => Err(Some(container.typ())),
    }
}

/// Copies of the values of the `n` topmost cells, from the top down.
fn operand_values<T>(stack: &VmStack<T>, n: usize) -> (r: Vec<Obj>)
    requires
        n <= stack.len(),
        all_known(popped(stack_value(stack@), n as nat)),
    ensures
        values_of(r@) == known(popped(stack_value(stack@), n as nat)),
{
    let len = stack.len();
    let ghost values = popped(stack_value(stack@), n as nat);
    let mut out: Vec<Obj> = Vec::new();
    let mut k: usize = 0;
    while k < n
        invariant
            k <= n <= stack.len(),
            len == stack.len(),
            values == popped(stack_value(stack@), n as nat),
            all_known(values),
            out@.len() == k,
            forall|j: int| 0 <= j < k ==> Some(value_of(#[trigger] out@[j])) == values[j],
        decreases n - k,
    {
        assert(values[k as int] is Some);
        match &stack[len - 1 - k].value {
            Some(o) => {
                out.push(o.clone());
            },
            None => unreached(),
        }
        k += 1;
    }
    proof {
        lemma_values_of(out@);
        assert(values_of(out@) =~= known(values));
    }
    out
}

/// The value that `instr` computes from its operands.
fn operand_value<T>(instr: &Instruction, stack: &VmStack<T>, n: usize) -> (r: Result<
    Obj,
    Option<ObjType>,
>)
    requires
        operand_count(*instr) == Some(n as nat),
        instr.opcode.has_arg_spec() ==> instr.arg is Some,
        n <= stack.len(),
        all_known(popped(stack_value(stack@), n as nat)),
    ensures
        r matches Ok(v) ==> combined_value(*instr, stack_value(stack@)) == Ok::<
            Value,
            Option<ObjType>,
        >(v@),
        r matches Err(t) ==> combined_value(*instr, stack_value(stack@)) == Err::<
            Value,
            Option<ObjType>,
        >(t),
{
    let len = stack.len();
    let ghost s = stack_value(stack@);
    let ghost values = popped(s, n as nat);
    match instr.opcode {
        Opcode::BUILD_TUPLE | Opcode::BUILD_LIST | Opcode::BUILD_SET => {
            let items = operand_values(stack, n);
            match instr.opcode {
                Opcode::BUILD_TUPLE => {
                    let r = Obj::Tuple(items);
                    proof {
                        lemma_value_of_items(r);
                    }
                    Ok(r)
                },
                Opcode::BUILD_LIST => {
                    let r = Obj::List(items);
                    proof {
                        lemma_value_of_items(r);
                    }
                    Ok(r)
                },
                _ => {
                    if all_items_hashable(&items) {
                        let r = Obj::PySet(distinct_objs(&items));
                        proof {
                            lemma_value_of_items(r);
                        }
                        Ok(r)
                    } else {
                        Err(None)
                    }
                },
            }
        },
        Opcode::UNARY_NOT => {
            assert(values[0] is Some);
            match &stack[len - 1].value {
                Some(operand) => match apply_not(operand) {
                    Ok(v) => Ok(v),
                    Err(t) => Err(Some(t)),
                },
                None => unreached(),
            }
        },
        _ => {
            assert(values[0] is Some);
            assert(values[1] is Some);
            match (&stack[len - 2].value, &stack[len - 1].value) {
                (Some(left), Some(right)) => match instr.opcode {
                    Opcode::COMPARE_OP => match instr.arg {
                        Some(arg) => match apply_compare(arg, left, right) {
                            Ok(b) => Ok(Obj::Bool(b)),
                            Err(t) => Err(t),
                        },
                        None => Err(None),
                    },
                    Opcode::BINARY_SUBSC => subscript(left, right),
                    _ => match binary_operator(instr.opcode) {
                        Some(op) => match apply_binary(op, left, right) {
                            Ok(v) => Ok(v),
                            Err(t) => Err(Some(t)),
                        },
                        None => unreached(),
                    },
                },
                _ => unreached(),
            }
        },
    }
}

/// Replaces the operands of `instr` by the value computed from them.
fn exec_combine<T: Copy>(instr: &Instruction, stack: &mut VmStack<T>, n: usize, t: T) -> (r:
    Result<(), ExecutionError>)
    requires
        operand_count(*instr) == Some(n as nat),
        instr.opcode.has_arg_spec() ==> instr.arg is Some,
    ensures
        stack_outcome(
            r,
            old(stack)@,
            final(stack)@,
            combine(
                *instr,
                stack_value(old(stack)@),
                n as nat,
                combined_value(*instr, stack_value(old(stack)@)),
                t,
            ),
        ),
{
    if stack.len() < n {
        return Err(ExecutionError::ComplexExpression(*instr, None));
    }
    let accesses = gather(stack, n, t);
    if !operands_known(stack, n) {
        replace_cells(stack, n, VmVarWithTracking { value: None, accesses });
        return Ok(());
    }
    match operand_value(instr, stack, n) {
        Ok(v) => {
            replace_cells(stack, n, VmVarWithTracking { value: Some(v), accesses });
            Ok(())
        },
        Err(typ) => Err(ExecutionError::ComplexExpression(*instr, typ)),
    }
}

/// What the topmost cell of a stack holds, as far as `FOR_ITER`,
/// `LIST_APPEND` and `UNPACK_SEQUENCE` tell apart.
enum Shape {
    Unknown,
    Bytes(usize),
    Items(usize),
    Byte(u8),
    Unfit(ObjType),
}

/// The shape of a cell.
fn shape_of<T>(cell: &VmVarWithTracking<T>) -> (r: Shape)
    ensures
        match r {
            Shape::Unknown => cell@.value is None,
            Shape::Bytes(n) => cell@.value matches Some(Value::String(b)) && b.len() == n,
            Shape::Items(n) => cell@.value matches Some(Value::Tuple(items)) && items.len() == n,
            Shape::Byte(b) => cell@.value == Some(Value::Long(b as int)),
            Shape::Unfit(t) => cell@.value matches Some(v) && v.typ() == t && !(v is String) && !(v
                is Tuple) && (v matches Value::Long(i) ==> !(0 <= i <= 255)),
        },
{
    match &cell.value {
        None => Shape::Unknown,
        Some(o) => {
            proof {
                lemma_value_of_items(*o);
            }
            match o {
                Obj::String(bytes) => Shape::Bytes(bytes.len()),
                Obj::Tuple(items) => Shape::Items(items.len()),
                Obj::Long(l) => match l.to_u8() {
                    Some(b) => Shape::Byte(b),
                    None => Shape::Unfit(ObjType::Long),
                },
                _ => Shape::Unfit(o.typ()),
            }
        },
    }
}

/// Executes `FOR_ITER`.
fn exec_for_iter<T: Copy>(instr: &Instruction, stack: &mut VmStack<T>, t: T) -> (r: Result<
    (),
    ExecutionError,
>)
    ensures
        stack_outcome(r, old(stack)@, final(stack)@, for_iter(*instr, stack_value(old(stack)@), t)),
{
    let len = stack.len();
    if len < 1 {
        return Err(ExecutionError::ComplexExpression(*instr, None));
    }
    let ghost s = stack_value(stack@);
    match shape_of(&stack[len - 1]) {
        Shape::Unknown => {
            let accesses = extended(&stack[len - 1].accesses, t);
            push_cell(stack, VmVarWithTracking { value: None, accesses });
            Ok(())
        },
        Shape::Bytes(n) => {
            if n == 0 {
                assert(stack_value(stack@) =~= s);
                return Ok(());
            }
            let cell = stack.pop().unwrap();
            let VmVarWithTracking { value, accesses } = cell;
            let pushed = extended(&accesses, t);
            match value {
                Some(Obj::String(mut bytes)) => {
                    let ghost before = bytes@;
                    let b = bytes.pop().unwrap();
                    let shorter = VmVarWithTracking { value: Some(Obj::String(bytes)), accesses };
                    let item = VmVarWithTracking {
                        value: Some(Obj::Long(Long::from_u8(b))),
                        accesses: pushed,
                    };
                    assert(bytes@ =~= before.drop_last());
                    push_cell(stack, shorter);
                    push_cell(stack, item);
                    assert(stack_value(stack@) =~= replace_top(s, 1, shorter@).push(item@));
                    Ok(())
                },
                _ => unreached(),
            }
        },
        Shape::Items(_) => Err(ExecutionError::ComplexExpression(*instr, Some(ObjType::Tuple))),
        Shape::Byte(_) => Err(ExecutionError::ComplexExpression(*instr, Some(ObjType::Long))),
        Shape::Unfit(typ) => Err(ExecutionError::ComplexExpression(*instr, Some(typ))),
    }
}

/// Executes `LIST_APPEND`.
fn exec_list_append<T: Copy>(instr: &Instruction, stack: &mut VmStack<T>, arg: u16, t: T) -> (r:
    Result<(), ExecutionError>)
    ensures
        stack_outcome(
            r,
            old(stack)@,
            final(stack)@,
            list_append(*instr, stack_value(old(stack)@), arg, t),
        ),
{
    let len = stack.len();
    if len < 1 {
        return Err(ExecutionError::ComplexExpression(*instr, None));
    }
    let ghost s = stack_value(stack@);
    let ghost rest = s.drop_last();
    let byte = match shape_of(&stack[len - 1]) {
        Shape::Byte(b) => b,
        Shape::Unknown => {
            return Err(ExecutionError::ComplexExpression(*instr, None));
        },
        Shape::Bytes(_) => {
            return Err(ExecutionError::ComplexExpression(*instr, Some(ObjType::String)));
        },
        Shape::Items(_) => {
            return Err(ExecutionError::ComplexExpression(*instr, Some(ObjType::Tuple)));
        },
        Shape::Unfit(typ) => {
            return Err(ExecutionError::ComplexExpression(*instr, Some(typ)));
        },
    };
    if arg < 1 || arg as usize > len - 1 {
        return Err(ExecutionError::ComplexExpression(*instr, None));
    }
    let at = len - 1 - arg as usize;
    assert(top(rest, arg - 1) == s[at as int]);
    match shape_of(&stack[at]) {
        Shape::Unknown | Shape::Bytes(_) => {},
        Shape::Items(_) => {
            return Err(ExecutionError::ComplexExpression(*instr, Some(ObjType::Tuple)));
        },
        Shape::Byte(_) => {
            return Err(ExecutionError::ComplexExpression(*instr, Some(ObjType::Long)));
        },
        Shape::Unfit(typ) => {
            return Err(ExecutionError::ComplexExpression(*instr, Some(typ)));
        },
    }
    let item = stack.pop().unwrap();
    let target = stack.remove(at);
    let VmVarWithTracking { value, accesses } = target;
    let mut accesses = accesses;
    append_accesses(&mut accesses, &item.accesses);
    accesses.push(t);
    let value = match value {
        Some(Obj::String(mut bytes)) => {
            bytes.push(byte);
            Some(Obj::String(bytes))
        },
        other => other,
    };
    let cell = VmVarWithTracking { value, accesses };
    stack.insert(at, cell);
    assert(stack_value(stack@) =~= rest.update(rest.len() - arg, cell@));
    Ok(())
}

/// Executes `UNPACK_SEQUENCE`.
fn exec_unpack_sequence<T: Copy>(instr: &Instruction, stack: &mut VmStack<T>, arg: u16, t: T) -> (r:
    Result<(), ExecutionError>)
    ensures
        stack_outcome(
            r,
            old(stack)@,
            final(stack)@,
            unpack_sequence(*instr, stack_value(old(stack)@), arg, t),
        ),
{
    let len = stack.len();
    if len < 1 {
        return Err(ExecutionError::ComplexExpression(*instr, None));
    }
    let ghost s = stack_value(stack@);
    let ghost rest = s.drop_last();
    match shape_of(&stack[len - 1]) {
        Shape::Unknown => {
            let source = stack.pop().unwrap();
            let accesses = extended(&source.accesses, t);
            assert(stack_value(stack@) =~= rest);
            let mut j: u16 = 0;
            while j < arg
                invariant
                    j <= arg,
                    stack_value(stack@) == rest + Seq::new(
                        j as nat,
                        |k: int| TrackedValue { value: None, accesses: accesses@ },
                    ),
                decreases arg - j,
            {
                let mut copy: Vec<T> = Vec::new();
                append_accesses(&mut copy, &accesses);
                push_cell(stack, VmVarWithTracking { value: None, accesses: copy });
                assert(stack_value(stack@) =~= rest + Seq::new(
                    (j + 1) as nat,
                    |k: int| TrackedValue { value: None, accesses: accesses@ },
                ));
                j += 1;
            }
            Ok(())
        },
        Shape::Items(n) => {
            let source = stack.pop().unwrap();
            let accesses = extended(&source.accesses, t);
            assert(stack_value(stack@) =~= rest);
            let count: usize = if (arg as usize) <= n {
                arg as usize
            } else {
                n
            };
            match &source.value {
                Some(Obj::Tuple(items)) => {
                    proof {
                        lemma_value_of_items(Obj::Tuple(*items));
                        lemma_values_of(items@);
                    }
                    let ghost values = values_of(items@);
                    let mut j: usize = 0;
                    while j < count
                        invariant
                            j <= count <= n,
                            n == items.len(),
                            values == values_of(items@),
                            values.len() == n,
                            stack_value(stack@) == rest + Seq::new(
                                j as nat,
                                |k: int|
                                    TrackedValue {
                                        value: Some(values[values.len() - 1 - k]),
                                        accesses: accesses@,
                                    },
                            ),
                        decreases count - j,
                    {
                        proof {
                            lemma_values_of(items@);
                        }
                        let mut copy: Vec<T> = Vec::new();
                        append_accesses(&mut copy, &accesses);
                        let cell = VmVarWithTracking {
                            value: Some(items[n - 1 - j].clone()),
                            accesses: copy,
                        };
                        push_cell(stack, cell);
                        assert(stack_value(stack@) =~= rest + Seq::new(
                            (j + 1) as nat,
                            |k: int|
                                TrackedValue {
                                    value: Some(values[values.len() - 1 - k]),
                                    accesses: accesses@,
                                },
                        ));
                        j += 1;
                    }
                    assert(stack_value(stack@) =~= rest + unpacked(values, arg, accesses@));
                    Ok(())
                },
                _ => unreached(),
            }
        },
        Shape::Bytes(_) => Err(ExecutionError::ComplexExpression(*instr, Some(ObjType::String))),
        Shape::Byte(_) => Err(ExecutionError::ComplexExpression(*instr, Some(ObjType::Long))),
        Shape::Unfit(typ) => Err(ExecutionError::ComplexExpression(*instr, Some(typ))),
    }
}

/// Executes `CALL_FUNCTION`.
fn exec_call_function<F: FunctionResolver, T: Copy>(
    resolver: &F,
    instr: &Instruction,
    stack: &mut VmStack<T>,
    arg: u16,
    t: T,
) -> (r: Result<(), ExecutionError>)
    ensures
        stack_outcome(
            r,
            old(stack)@,
            final(stack)@,
            call_function(*resolver, *instr, stack_value(old(stack)@), arg, t),
        ),
{
    let positional: usize = (arg % 256) as usize;
    let keywords: usize = (arg / 256) as usize;
    let operands: usize = positional + 2 * keywords;
    let len = stack.len();
    if len < operands + 1 {
        return Err(ExecutionError::ComplexExpression(*instr, None));
    }
    let ghost s = stack_value(stack@);
    let ghost pairs = keyword_pairs(s, positional as nat, keywords as nat);
    let mut args: Vec<VmVar> = Vec::new();
    let mut k: usize = 0;
    while k < positional
        invariant
            k <= positional,
            positional < len,
            len == stack.len(),
            s == stack_value(stack@),
            args@.len() == k,
            forall|j: int| 0 <= j < k ==> var_value(#[trigger] args@[j]) == top(s, j).value,
        decreases positional - k,
    {
        args.push(clone_var(&stack[len - 1 - k].value));
        k += 1;
    }
    assert(var_values(args@) =~= popped(s, positional as nat));
    let mut kwargs: Vec<(VmVar, VmVar)> = Vec::new();
    let mut j: usize = 0;
    while j < keywords
        invariant
            j <= keywords,
            positional == arg % 256,
            keywords == arg / 256,
            operands == positional + 2 * keywords,
            operands < len,
            len == stack.len(),
            s == stack_value(stack@),
            stack@ == old(stack)@,
            pairs == keyword_pairs(s, positional as nat, keywords as nat),
            kwargs@.len() == j,
            forall|i: int|
                0 <= i < j ==> (var_value((#[trigger] kwargs@[i]).0), var_value(kwargs@[i].1))
                    == pairs[i],
            forall|i: int| 0 <= i < j ==> ((#[trigger] pairs[i]).0 matches Some(key) ==> key.hashable()),
        decreases keywords - j,
    {
        let key = clone_var(&stack[len - 1 - (positional + 2 * j + 1)].value);
        let value = clone_var(&stack[len - 1 - (positional + 2 * j)].value);
        let fit = match &key {
            Some(o) => o.is_hashable(),
            None => true,
        };
        if !fit {
            assert(!(pairs[j as int].0 matches Some(key) ==> key.hashable()));
            return Err(ExecutionError::ComplexExpression(*instr, None));
        }
        kwargs.push((key, value));
        j += 1;
    }
    assert(var_pair_values(kwargs@) =~= pairs);
    assert(keys_hashable(pairs));
    match resolver.resolve(&stack[len - 1 - operands].value, &args, &kwargs) {
        Ok(value) => {
            let accesses = gather(stack, operands + 1, t);
            replace_cells(stack, operands + 1, VmVarWithTracking { value, accesses });
            Ok(())
        },
        Err(typ) => Err(ExecutionError::ComplexExpression(*instr, typ)),
    }
}

/// A name is bound to the cell of its last entry.
pub proof fn lemma_names_value_found<T>(
    names: Seq<(Vec<u8>, VmVarWithTracking<T>)>,
    key: Seq<u8>,
    i: int,
)
    requires
        0 <= i < names.len(),
        names[i].0@ == key,
        forall|j: int| i < j < names.len() ==> (#[trigger] names[j]).0@ != key,
    ensures
        names_value(names).contains_key(key),
        names_value(names)[key] == names[i].1@,
    decreases names.len(),
{
    if i < names.len() - 1 {
        let before = names.drop_last();
        assert(before[i] == names[i]);
        assert forall|j: int| i < j < before.len() implies (#[trigger] before[j]).0@ != key by {
            assert(before[j] == names[j]);
        }
        lemma_names_value_found(before, key, i);
        assert(names.last() == names[names.len() - 1]);
    }
}

/// A name without an entry is not bound.
pub proof fn lemma_names_value_absent<T>(names: Seq<(Vec<u8>, VmVarWithTracking<T>)>, key: Seq<u8>)
    requires
        forall|j: int| 0 <= j < names.len() ==> (#[trigger] names[j]).0@ != key,
    ensures
        !names_value(names).contains_key(key),
    decreases names.len(),
{
    if names.len() > 0 {
        let before = names.drop_last();
        assert forall|j: int| 0 <= j < before.len() implies (#[trigger] before[j]).0@ != key by {
            assert(before[j] == names[j]);
        }
        lemma_names_value_absent(before, key);
        assert(names.last() == names[names.len() - 1]);
    }
}

/// The index of the last entry for `key`, if there is one.
fn find_name<T>(names: &VmNames<T>, key: &Vec<u8>) -> (r: Option<usize>)
    ensures
        match r {
            Some(i) => i < names@.len() && names_value(names@).contains_key(key@) && names_value(
                names@,
            )[key@] == names@[i as int].1@,
            None => !names_value(names@).contains_key(key@),
        },
{
    let mut i: usize = names.len();
    while i > 0
        invariant
            i <= names.len(),
            forall|j: int| i <= j < names@.len() ==> (#[trigger] names@[j]).0@ != key@,
        decreases i,
    {
        i -= 1;
        if bytes_eq(&names[i].0, key) {
            proof {
                lemma_names_value_found(names@, key@, i as int);
            }
            return Some(i);
        }
    }
    proof {
        lemma_names_value_absent(names@, key@);
    }
    None
}

/// Executes `LOAD_CONST`, `LOAD_FAST` or `LOAD_NAME`.
fn exec_load_step<T: Copy>(
    instr: &Instruction,
    code: &Code,
    stack: &mut VmStack<T>,
    vars: &VmVars<T>,
    names: &VmNames<T>,
    arg: u16,
    t: T,
) -> (r: Result<(), ExecutionError>)
    requires
        matches!(instr.opcode, Opcode::LOAD_CONST | Opcode::LOAD_FAST | Opcode::LOAD_NAME),
    ensures
        stack_outcome(
            r,
            old(stack)@,
            final(stack)@,
            load_step(*instr, code@, vm_value(*old(stack), *vars, *names), arg, t),
        ),
{
    let none: Vec<T> = Vec::new();
    let at = arg as usize;
    match instr.opcode {
        Opcode::LOAD_CONST => {
            proof {
                lemma_values_of(code.consts@);
            }
            if at < code.consts.len() {
                exec_load(stack, Some(code.consts[at].clone()), &none, t);
                Ok(())
            } else {
                Err(ExecutionError::ComplexExpression(*instr, None))
            }
        },
        Opcode::LOAD_FAST => {
            match vars.get(&arg) {
                Some(cell) => {
                    exec_load(stack, clone_var(&cell.value), &cell.accesses, t);
                    Ok(())
                },
                None => {
                    if at < code.varnames.len() {
                        exec_load(stack, Some(Obj::String(clone_bytes(&code.varnames[at]))), &none, t);
                        Ok(())
                    } else {
                        Err(ExecutionError::ComplexExpression(*instr, None))
                    }
                },
            }
        },
        _ => {
            if at < code.names.len() {
                match find_name(names, &code.names[at]) {
                    Some(i) => {
                        exec_load(stack, clone_var(&names[i].1.value), &names[i].1.accesses, t);
                        Ok(())
                    },
                    None => {
                        exec_load(stack, Some(Obj::String(clone_bytes(&code.names[at]))), &none, t);
                        Ok(())
                    },
                }
            } else {
                Err(ExecutionError::ComplexExpression(*instr, None))
            }
        },
    }
}

/// Returns whether a store through a subscript is defined on a container
/// and a key.
fn check_store(container: &VmVar, key: &VmVar) -> (r: Result<(), Option<ObjType>>)
    ensures
        r == store_check(var_value(*container), var_value(*key)),
{
    match container {
        None => Ok(()),
        Some(c) => {
            if matches!(c.typ(), ObjType::Dict) {
                match key {
                    Some(k) => if k.is_hashable() {
                        Ok(())
                    } else {
                        Err(Some(k.typ()))
                    },
                    None => Ok(()),
                }
            } else {
                match key {
                    Some(k) => match subscript(c, k) {
                        Ok(_) => Ok(()),
                        Err(typ) => Err(typ),
                    },
                    None => if matches!(c.typ(), ObjType::List) {
                        Ok(())
                    } else {
                        Err(Some(c.typ()))
                    },
                }
            }
        },
    }
}

/// Returns the index of the first entry for `key`.
fn find_key(entries: &Vec<(Obj, Obj)>, key: &Obj) -> (r: Option<usize>)
    ensures
        match r {
            Some(i) => i < entries@.len() && key_index(
                Seq::new(entries@.len(), |j: int| (value_of(entries@[j].0), value_of(entries@[j].1))),
                key@,
                0,
            ) == Some(i as nat),
            None => key_index(
                Seq::new(entries@.len(), |j: int| (value_of(entries@[j].0), value_of(entries@[j].1))),
                key@,
                0,
            ) is None,
        },
{
    let ghost values = Seq::new(
        entries@.len(),
        |j: int| (value_of(entries@[j].0), value_of(entries@[j].1)),
    );
    let mut i: usize = 0;
    while i < entries.len()
        invariant
            i <= entries@.len(),
            values == Seq::new(
                entries@.len(),
                |j: int| (value_of(entries@[j].0), value_of(entries@[j].1)),
            ),
            key_index(values, key@, i as nat) == key_index(values, key@, 0),
        decreases entries@.len() - i,
    {
        if entries[i].0.equals(key) {
            return Some(i);
        }
        i += 1;
    }
    None
}

/// Returns the container after `container[key] = value`.
fn store_into(container: &Obj, key: &Obj, value: &Obj) -> (r: Obj)
    ensures
        r@ == stored_into(container@, key@, value@),
{
    proof {
        lemma_value_of_items(*container);
        lemma_value_of_nested(*container);
    }
    match container {
        Obj::List(items) => {
            proof {
                lemma_values_of(items@);
            }
            let at = match key {
                Obj::Long(l) => l.to_usize(),
                _ => None,
            };
            let count = items.len();
            assert(container@ == Value::List(values_of(items@)));
            assert(key matches Obj::Long(l) ==> key@ == Value::Long(l@));
            assert(!(key is Long) ==> !(key@ is Long));
            match at {
                Some(i) => {
                    assert(key@ == Value::Long(i as int));
                    if i < items.len() {
                        let mut out = clone_objs(items);
                        let ghost cloned = out@;
                        let item = value.clone();
                        out.set(i, item);
                        let r = Obj::List(out);
                        proof {
                            lemma_values_of(items@);
                            lemma_values_of(cloned);
                            lemma_values_of(out@);
                            lemma_value_of_items(r);
                            assert(values_of(out@) =~= values_of(cloned).update(i as int, value@));
                            assert(r@ == Value::List(values_of(out@)));
                        }
                        r
                    } else {
                        container.clone()
                    }
                },
                None => {
                    assert(key@ matches Value::Long(i) ==> !(0 <= i < count));
                    container.clone()
                },
            }
        },
        Obj::Dict(entries) => {
            let ghost values = container@->Dict_0;
            let found = find_key(entries, key);
            let mut out: Vec<(Obj, Obj)> = Vec::new();
            let mut j: usize = 0;
            while j < entries.len()
                invariant
                    j <= entries@.len(),
                    out@.len() == j,
                    forall|k: int|
                        0 <= k < j ==> value_of((#[trigger] out@[k]).0) == value_of(entries@[k].0)
                            && value_of(out@[k].1) == value_of(entries@[k].1),
                decreases entries@.len() - j,
            {
                out.push((entries[j].0.clone(), entries[j].1.clone()));
                j += 1;
            }
            match found {
                Some(i) => {
                    out.set(i, (key.clone(), value.clone()));
                },
                None => {
                    out.push((key.clone(), value.clone()));
                },
            }
            let r = Obj::Dict(out);
            proof {
                lemma_value_of_nested(r);
                assert(values =~= Seq::new(
                    entries@.len(),
                    |j: int| (value_of(entries@[j].0), value_of(entries@[j].1)),
                ));
                assert(r@->Dict_0 =~= stored_into(container@, key@, value@)->Dict_0);
            }
            r
        },
        _ => container.clone(),
    }
}

/// Returns what is known of the container after a store.
fn result_of_store(container: &VmVar, key: &VmVar, value: &VmVar) -> (r: VmVar)
    ensures
        var_value(r) == store_result(var_value(*container), var_value(*key), var_value(*value)),
{
    match (container, key, value) {
        (Some(c), Some(k), Some(v)) => Some(store_into(c, k, v)),
        _ => None,
    }
}

/// Returns the cell that takes the place of `cell` after a store through a
/// subscript into `container` with the accesses `more`, if the store
/// changes the cell.
fn cell_after_store<T: Copy>(
    cell: &VmVarWithTracking<T>,
    container: &VmVar,
    changed: &VmVar,
    more: &Vec<T>,
) -> (r: Option<VmVarWithTracking<T>>)
    ensures
        match r {
            Some(c) => c@ == after_store(cell@, var_value(*container), var_value(*changed), more@),
            None => after_store(cell@, var_value(*container), var_value(*changed), more@) == cell@,
        },
{
    let mutable = match &cell.value {
        Some(o) => matches!(o.typ(), ObjType::List | ObjType::Dict),
        None => false,
    };
    if !mutable {
        return None;
    }
    let value = match container {
        None => None,
        Some(c) => {
            let holds = match &cell.value {
                Some(o) => o.equals(c),
                None => false,
            };
            if !holds {
                return None;
            }
            clone_var(changed)
        },
    };
    let mut accesses: Vec<T> = Vec::new();
    append_accesses(&mut accesses, &cell.accesses);
    append_accesses(&mut accesses, more);
    Some(VmVarWithTracking { value, accesses })
}

/// The names whose cells a store through a subscript has changed are bound
/// to the changed cells of the names before.
pub proof fn lemma_names_value_stored<T>(
    before: Seq<(Vec<u8>, VmVarWithTracking<T>)>,
    after: Seq<(Vec<u8>, VmVarWithTracking<T>)>,
    container: Option<Value>,
    changed: Option<Value>,
    more: Seq<T>,
)
    requires
        after.len() == before.len(),
        forall|i: int|
            0 <= i < before.len() ==> (#[trigger] after[i]).0@ == before[i].0@ && after[i].1@
                == after_store(before[i].1@, container, changed, more),
    ensures
        names_value(after) == Map::new(
            |n: Seq<u8>| names_value(before).contains_key(n),
            |n: Seq<u8>| after_store(names_value(before)[n], container, changed, more),
        ),
    decreases before.len(),
{
    let expected = Map::new(
        |n: Seq<u8>| names_value(before).contains_key(n),
        |n: Seq<u8>| after_store(names_value(before)[n], container, changed, more),
    );
    if before.len() > 0 {
        let front = before.drop_last();
        let rest = after.drop_last();
        assert forall|i: int| 0 <= i < front.len() implies (#[trigger] rest[i]).0@ == front[i].0@
            && rest[i].1@ == after_store(front[i].1@, container, changed, more) by {
            assert(rest[i] == after[i]);
            assert(front[i] == before[i]);
        }
        lemma_names_value_stored(front, rest, container, changed, more);
        assert(after.last() == after[before.len() - 1]);
        assert(before.last() == before[before.len() - 1]);
    }
    assert(names_value(after) =~= expected);
}

/// Executes `STORE_SUBSCR`.
fn exec_store_subscript<T: Copy>(
    instr: &Instruction,
    stack: &mut VmStack<T>,
    vars: &mut VmVars<T>,
    names: &mut VmNames<T>,
    t: T,
) -> (r: Result<(), ExecutionError>)
    ensures
        outcome(
            r,
            (*old(stack), *old(vars), *old(names)),
            (*final(stack), *final(vars), *final(names)),
            store_subscript(*instr, vm_value(*old(stack), *old(vars), *old(names)), t),
        ),
{
    let len = stack.len();
    if len < 3 {
        return Err(ExecutionError::ComplexExpression(*instr, None));
    }
    match check_store(&stack[len - 2].value, &stack[len - 1].value) {
        Ok(()) => {},
        Err(typ) => {
            return Err(ExecutionError::ComplexExpression(*instr, typ));
        },
    }
    let more = gather(stack, 3, t);
    let container = clone_var(&stack[len - 2].value);
    let changed = result_of_store(&stack[len - 2].value, &stack[len - 1].value, &stack[len - 3].value);
    let ghost held = var_value(container);
    let ghost known = var_value(changed);
    stack.truncate(len - 3);
    let mut i: usize = 0;
    while i < stack.len()
        invariant
            i <= stack@.len(),
            stack@.len() == len - 3,
            len == old(stack)@.len(),
            held == var_value(container),
            known == var_value(changed),
            forall|j: int|
                0 <= j < i ==> (#[trigger] stack@[j])@ == after_store(
                    old(stack)@[j]@,
                    held,
                    known,
                    more@,
                ),
            forall|j: int| i <= j < len - 3 ==> stack@[j] == old(stack)@[j],
        decreases stack@.len() - i,
    {
        match cell_after_store(&stack[i], &container, &changed, &more) {
            Some(cell) => {
                stack.set(i, cell);
            },
            None => {},
        }
        i += 1;
    }
    let mut k: u32 = 0;
    while k <= 0xffff
        invariant
            k <= 0x10000,
            held == var_value(container),
            known == var_value(changed),
            forall|key: u16| vars@.contains_key(key) == old(vars)@.contains_key(key),
            forall|key: u16|
                key < k && old(vars)@.contains_key(key) ==> (#[trigger] vars@[key])@ == after_store(
                    old(vars)@[key]@,
                    held,
                    known,
                    more@,
                ),
            forall|key: u16|
                key >= k && old(vars)@.contains_key(key) ==> #[trigger] vars@[key] == old(
                    vars,
                )@[key],
        decreases 0x10000 - k,
    {
        let key = k as u16;
        let replaced = match vars.get(&key) {
            Some(cell) => cell_after_store(cell, &container, &changed, &more),
            None => None,
        };
        match replaced {
            Some(cell) => {
                vars.insert(key, cell);
            },
            None => {},
        }
        k += 1;
    }
    let count = names.len();
    let mut i: usize = 0;
    while i < count
        invariant
            i <= count,
            count == names@.len(),
            count == old(names)@.len(),
            held == var_value(container),
            known == var_value(changed),
            forall|j: int|
                0 <= j < i ==> (#[trigger] names@[j]).0@ == old(names)@[j].0@ && names@[j].1@
                    == after_store(old(names)@[j].1@, held, known, more@),
            forall|j: int| i <= j < count ==> names@[j] == old(names)@[j],
        decreases count - i,
    {
        match cell_after_store(&names[i].1, &container, &changed, &more) {
            Some(cell) => {
                let name = clone_bytes(&names[i].0);
                names.set(i, (name, cell));
            },
            None => {},
        }
        i += 1;
    }
    proof {
        let before = vm_value(*old(stack), *old(vars), *old(names));
        let expected = store_subscript(*instr, before, t)->Ok_0;
        assert(stack_value(stack@) =~= expected.stack);
        assert(vars_value(vars@) =~= expected.vars);
        lemma_names_value_stored(old(names)@, names@, held, known, more@);
    }
    Ok(())
}

/// Whether `r` and the state after an instruction are the outcome that
/// `expected` describes: on success the state has the expected value, and a
/// refused instruction leaves the state as it was.
pub open spec fn outcome<T>(
    r: Result<(), ExecutionError>,
    before: (VmStack<T>, VmVars<T>, VmNames<T>),
    after: (VmStack<T>, VmVars<T>, VmNames<T>),
    expected: Result<VmValue<T>, ExecutionError>,
) -> bool {
    match r {
        Ok(()) => expected == Ok::<VmValue<T>, ExecutionError>(
            vm_value(after.0, after.1, after.2),
        ),
        Err(e) => expected == Err::<VmValue<T>, ExecutionError>(e) && after.0@ == before.0@
            && after.1@ == before.1@ && after.2@ == before.2@,
    }
}

/// Executes one instruction of `code` on the state of the interpreter.
///
/// On success the state is the one that [`step`] defines. An instruction
/// that the interpreter refuses leaves the state as it was; the error says
/// why it was refused. Calls are answered by `function_callback`, and
/// `access_tracking` is recorded in the accesses of every cell that the
/// instruction contributes to.
pub fn execute_instruction<F: FunctionResolver, T: Copy>(
    instr: &Instruction,
    code: &Code,
    stack: &mut VmStack<T>,
    vars: &mut VmVars<T>,
    names: &mut VmNames<T>,
    function_callback: &F,
    access_tracking: T,
) -> (r: Result<(), ExecutionError>)
    ensures
        outcome(
            r,
            (*old(stack), *old(vars), *old(names)),
            (*final(stack), *final(vars), *final(names)),
            step(
                *function_callback,
                *instr,
                code@,
                vm_value(*old(stack), *old(vars), *old(names)),
                access_tracking,
            ),
        ),
{
    let t = access_tracking;
    let ghost s = stack_value(stack@);
    let none: Vec<T> = Vec::new();
    match instr.opcode {
        Opcode::CALL_FUNCTION => match instr.arg {
            Some(arg) => exec_call_function(function_callback, instr, stack, arg, t),
            None => Err(ExecutionError::ComplexExpression(*instr, None)),
        },
        Opcode::LOAD_CONST | Opcode::LOAD_FAST | Opcode::LOAD_NAME => match instr.arg {
            Some(arg) => exec_load_step(instr, code, stack, vars, names, arg, t),
            None => Err(ExecutionError::ComplexExpression(*instr, None)),
        },
        Opcode::STORE_FAST => match instr.arg {
            Some(arg) => {
                if stack.len() < 1 {
                    return Err(ExecutionError::ComplexExpression(*instr, None));
                }
                let VmVarWithTracking { value, accesses } = stack.pop().unwrap();
                let mut accesses = accesses;
                accesses.push(t);
                let cell = VmVarWithTracking { value, accesses };
                vars.insert(arg, cell);
                proof {
                    assert(stack_value(stack@) =~= s.drop_last());
                    assert(vars_value(vars@) =~= vars_value(old(vars)@).insert(arg, stored(s, t)));
                }
                Ok(())
            },
            None => Err(ExecutionError::ComplexExpression(*instr, None)),
        },
        Opcode::STORE_NAME => match instr.arg {
            Some(arg) => {
                if stack.len() < 1 || arg as usize >= code.names.len() {
                    return Err(ExecutionError::ComplexExpression(*instr, None));
                }
                let VmVarWithTracking { value, accesses } = stack.pop().unwrap();
                let mut accesses = accesses;
                accesses.push(t);
                let cell = VmVarWithTracking { value, accesses };
                names.push((clone_bytes(&code.names[arg as usize]), cell));
                proof {
                    assert(stack_value(stack@) =~= s.drop_last());
                    assert(names@.drop_last() =~= old(names)@);
                }
                Ok(())
            },
            None => Err(ExecutionError::ComplexExpression(*instr, None)),
        },
        Opcode::GET_ITER | Opcode::JUMP_ABSOLUTE => Ok(()),
        Opcode::STORE_SUBSCR => exec_store_subscript(instr, stack, vars, names, t),
        Opcode::LOAD_GLOBAL => {
            exec_load(stack, None, &none, t);
            Ok(())
        },
        Opcode::BUILD_MAP => {
            let entries: Vec<(Obj, Obj)> = Vec::new();
            let dict = Obj::Dict(entries);
            assert(dict@ =~= Value::Dict(Seq::empty())) by {
                assert(dict@->Dict_0 =~= Seq::empty());
            }
            exec_load(stack, Some(dict), &none, t);
            Ok(())
        },
        Opcode::DUP_TOP => {
            let len = stack.len();
            if len < 1 {
                return Err(ExecutionError::ComplexExpression(*instr, None));
            }
            let value = clone_var(&stack[len - 1].value);
            let accesses = extended(&stack[len - 1].accesses, t);
            push_cell(stack, VmVarWithTracking { value, accesses });
            Ok(())
        },
        Opcode::IMPORT_FROM => {
            let len = stack.len();
            if len < 1 {
                return Err(ExecutionError::ComplexExpression(*instr, None));
            }
            let accesses = extended(&stack[len - 1].accesses, t);
            push_cell(stack, VmVarWithTracking { value: None, accesses });
            Ok(())
        },
        Opcode::POP_TOP => {
            if stack.len() < 1 {
                return Err(ExecutionError::ComplexExpression(*instr, None));
            }
            stack.pop();
            assert(stack_value(stack@) =~= s.drop_last());
            Ok(())
        },
        Opcode::IMPORT_NAME => exec_forget(instr, stack, 2, t),
        Opcode::LOAD_ATTR | Opcode::MAKE_FUNCTION => exec_forget(instr, stack, 1, t),
        Opcode::FOR_ITER => exec_for_iter(instr, stack, t),
        Opcode::LIST_APPEND => match instr.arg {
            Some(arg) => exec_list_append(instr, stack, arg, t),
            None => Err(ExecutionError::ComplexExpression(*instr, None)),
        },
        Opcode::UNPACK_SEQUENCE => match instr.arg {
            Some(arg) => exec_unpack_sequence(instr, stack, arg, t),
            None => Err(ExecutionError::ComplexExpression(*instr, None)),
        },
        _ => {
            let count: Option<usize> = match instr.opcode {
                Opcode::UNARY_NOT => Some(1),
                Opcode::COMPARE_OP | Opcode::BINARY_SUBSC => Some(2),
                Opcode::BUILD_TUPLE | Opcode::BUILD_LIST | Opcode::BUILD_SET => match instr.arg {
                    Some(arg) => Some(arg as usize),
                    None => Some(0),
                },
                _ => if binary_operator(instr.opcode).is_some() {
                    Some(2)
                } else {
                    None
                },
            };
            match count {
                Some(n) => {
                    if instr.opcode.has_arg() && instr.arg.is_none() {
                        Err(ExecutionError::ComplexExpression(*instr, None))
                    } else {
                        exec_combine(instr, stack, n, t)
                    }
                },
                None => Err(ExecutionError::UnsupportedOpcode(instr.opcode)),
            }
        },
    }
}

} // verus!

use std::collections::HashMap;

use pydeob::const_conditions::Unresolved;
use pydeob::error::ExecutionError;
use pydeob::instruction::Instruction;
use pydeob::long::Long;
use pydeob::object::{Code, Obj, ObjType};
use pydeob::opcode::Opcode;
use pydeob::smallvm::{execute_instruction, VmNames, VmStack, VmVarWithTracking, VmVars};
use pydeob::stage2::ChrResolver;

struct Vm {
    code: Code,
    stack: VmStack<u64>,
    vars: VmVars<u64>,
    names: VmNames<u64>,
}

fn vm(consts: Vec<Obj>) -> Vm {
    Vm {
        code: Code {
            argcount: 0,
            nlocals: 0,
            stacksize: 0,
            flags: 0,
            code: vec![],
            consts,
            names: vec![b"first".to_vec(), b"chr".to_vec()],
            varnames: vec![b"x".to_vec(), b"y".to_vec()],
            freevars: vec![],
            cellvars: vec![],
            filename: vec![],
            name: vec![],
            firstlineno: 0,
            lnotab: vec![],
        },
        stack: Vec::new(),
        vars: HashMap::new(),
        names: Vec::new(),
    }
}

impl Vm {
    fn run(&mut self, opcode: Opcode, arg: Option<u16>, at: u64) -> Result<(), ExecutionError> {
        execute_instruction(
            &Instruction::new(opcode, arg),
            &self.code,
            &mut self.stack,
            &mut self.vars,
            &mut self.names,
            &ChrResolver,
            at,
        )
    }

    fn top(&self) -> &VmVarWithTracking<u64> {
        self.stack.last().expect("a value on the stack")
    }
}

fn long(v: i64) -> Obj {
    Obj::Long(Long::from_i64(v))
}

fn as_long(value: &Option<Obj>) -> i64 {
    match value {
        Some(Obj::Long(l)) => l.to_i64().unwrap(),
        other => panic!("not a known integer: {:?}", other),
    }
}

fn as_bool(value: &Option<Obj>) -> bool {
    match value {
        Some(Obj::Bool(b)) => *b,
        other => panic!("not a known boolean: {:?}", other),
    }
}

fn as_string(value: &Option<Obj>) -> Vec<u8> {
    match value {
        Some(Obj::String(s)) => s.clone(),
        other => panic!("not a known string: {:?}", other),
    }
}

fn longs(items: &[Obj]) -> Vec<i64> {
    items.iter().map(|o| as_long(&Some(o.clone()))).collect()
}

#[test]
fn load_const_pushes_a_known_cell_with_its_own_access() {
    let mut m = vm(vec![long(41)]);
    m.run(Opcode::LOAD_CONST, Some(0), 7).unwrap();
    assert_eq!(as_long(&m.top().value), 41);
    assert_eq!(m.top().accesses, vec![7]);
    assert!(matches!(
        m.run(Opcode::LOAD_CONST, Some(1), 8),
        Err(ExecutionError::ComplexExpression(_, None))
    ));
    assert_eq!(m.stack.len(), 1);
}

#[test]
fn binary_operators_compute_on_integers_and_collect_accesses() {
    let cases: [(Opcode, i64, i64, i64); 16] = [
        (Opcode::BINARY_ADD, 7, 5, 12),
        (Opcode::INPLACE_ADD, 7, 5, 12),
        (Opcode::BINARY_SUBTRACT, 7, 5, 2),
        (Opcode::BINARY_MULTIPLY, 7, 5, 35),
        (Opcode::INPLACE_MULTIPLY, -7, 5, -35),
        (Opcode::BINARY_DIVIDE, -7, 2, -4),
        (Opcode::BINARY_DIVIDE, 7, -2, -4),
        (Opcode::BINARY_DIVIDE, -7, -2, 3),
        (Opcode::BINARY_DIVIDE, -8, 2, -4),
        (Opcode::BINARY_DIVIDE, 7, 2, 3),
        (Opcode::BINARY_AND, 12, 10, 8),
        (Opcode::BINARY_OR, 12, 10, 14),
        (Opcode::BINARY_XOR, 12, 10, 6),
        (Opcode::BINARY_LSHIFT, 3, 4, 48),
        (Opcode::BINARY_RSHIFT, 48, 4, 3),
        (Opcode::INPLACE_RSHIFT, -5, 1, -3),
    ];
    for (opcode, left, right, expected) in cases {
        let mut m = vm(vec![long(left), long(right)]);
        m.run(Opcode::LOAD_CONST, Some(0), 0).unwrap();
        m.run(Opcode::LOAD_CONST, Some(1), 3).unwrap();
        m.run(opcode, None, 6).unwrap();
        assert_eq!(m.stack.len(), 1);
        assert_eq!(as_long(&m.top().value), expected, "{:?}", opcode);
        assert_eq!(m.top().accesses, vec![3, 0, 6]);
    }
}

#[test]
fn division_by_zero_and_unfit_operands_are_refused() {
    let mut m = vm(vec![long(1), long(0), Obj::PyNone]);
    m.run(Opcode::LOAD_CONST, Some(0), 0).unwrap();
    m.run(Opcode::LOAD_CONST, Some(1), 3).unwrap();
    assert!(matches!(
        m.run(Opcode::BINARY_DIVIDE, None, 6),
        Err(ExecutionError::ComplexExpression(_, Some(ObjType::Long)))
    ));
    assert_eq!(m.stack.len(), 2);
    m.run(Opcode::LOAD_CONST, Some(2), 7).unwrap();
    assert!(matches!(
        m.run(Opcode::BINARY_ADD, None, 10),
        Err(ExecutionError::ComplexExpression(_, Some(ObjType::PyNone)))
    ));
    assert!(matches!(
        m.run(Opcode::BINARY_MODULO, None, 11),
        Err(ExecutionError::UnsupportedOpcode(Opcode::BINARY_MODULO))
    ));
}

#[test]
fn a_store_through_a_subscript_changes_the_cells_that_hold_the_list() {
    let mut m = vm(vec![long(7), long(1), Obj::String(b"key".to_vec()), long(0)]);
    // x = [1, 7]: the items are taken from the top of the stack down.
    m.run(Opcode::LOAD_CONST, Some(0), 0).unwrap();
    m.run(Opcode::LOAD_CONST, Some(1), 3).unwrap();
    m.run(Opcode::BUILD_LIST, Some(2), 6).unwrap();
    m.run(Opcode::STORE_FAST, Some(0), 9).unwrap();
    // first = {}
    m.run(Opcode::BUILD_MAP, Some(0), 12).unwrap();
    m.run(Opcode::STORE_NAME, Some(0), 15).unwrap();
    // y = 7
    m.run(Opcode::LOAD_CONST, Some(0), 18).unwrap();
    m.run(Opcode::STORE_FAST, Some(1), 21).unwrap();
    // A string stays below the operands of the store.
    m.run(Opcode::LOAD_CONST, Some(2), 24).unwrap();
    // x[0] = 7
    m.run(Opcode::LOAD_CONST, Some(0), 27).unwrap();
    m.run(Opcode::LOAD_FAST, Some(0), 30).unwrap();
    m.run(Opcode::LOAD_CONST, Some(3), 33).unwrap();
    m.run(Opcode::STORE_SUBSCR, None, 36).unwrap();
    assert_eq!(m.stack.len(), 1);
    assert_eq!(as_string(&m.top().value), b"key".to_vec());
    assert_eq!(m.top().accesses, vec![24]);
    // The variable holds the list that was stored into, and carries the
    // accesses of the key, the container and the value, and the store.
    let x = &m.vars[&0];
    match &x.value {
        Some(Obj::List(items)) => assert_eq!(longs(items), vec![7, 7]),
        other => panic!("not a known list: {:?}", other),
    }
    assert_eq!(x.accesses, vec![3, 0, 6, 9, 33, 3, 0, 6, 9, 30, 27, 36]);
    // The dictionary is another container, and the integer is none.
    let first = &m.names.last().unwrap().1;
    assert!(matches!(&first.value, Some(Obj::Dict(entries)) if entries.is_empty()));
    assert_eq!(first.accesses, vec![12, 15]);
    assert_eq!(as_long(&m.vars[&1].value), 7);
    assert_eq!(m.vars[&1].accesses, vec![18, 21]);
}

#[test]
fn a_store_through_a_subscript_binds_the_key_in_the_dictionary() {
    let mut m = vm(vec![long(7), long(1), Obj::String(b"key".to_vec()), long(0)]);
    // x = {}, and a second reference to it on the stack.
    m.run(Opcode::BUILD_MAP, Some(0), 0).unwrap();
    m.run(Opcode::DUP_TOP, None, 3).unwrap();
    m.run(Opcode::STORE_FAST, Some(0), 4).unwrap();
    // x["key"] = 7
    m.run(Opcode::LOAD_CONST, Some(0), 7).unwrap();
    m.run(Opcode::LOAD_FAST, Some(0), 10).unwrap();
    m.run(Opcode::LOAD_CONST, Some(2), 13).unwrap();
    m.run(Opcode::STORE_SUBSCR, None, 16).unwrap();
    // x[0] = 1
    m.run(Opcode::LOAD_CONST, Some(1), 17).unwrap();
    m.run(Opcode::LOAD_FAST, Some(0), 20).unwrap();
    m.run(Opcode::LOAD_CONST, Some(3), 23).unwrap();
    m.run(Opcode::STORE_SUBSCR, None, 26).unwrap();
    // x["key"] = 1: the entry is replaced, and no other entry changes.
    m.run(Opcode::LOAD_CONST, Some(1), 27).unwrap();
    m.run(Opcode::LOAD_FAST, Some(0), 30).unwrap();
    m.run(Opcode::LOAD_CONST, Some(2), 33).unwrap();
    m.run(Opcode::STORE_SUBSCR, None, 36).unwrap();
    let entries_of = |value: &Option<Obj>| -> Vec<(Vec<u8>, i64)> {
        match value {
            Some(Obj::Dict(entries)) => entries
                .iter()
                .map(|(k, v)| {
                    let key = match k {
                        Obj::String(s) => s.clone(),
                        Obj::Long(l) => l.to_i64().unwrap().to_string().into_bytes(),
                        other => panic!("unexpected key {:?}", other),
                    };
                    (key, as_long(&Some(v.clone())))
                })
                .collect(),
            other => panic!("not a known dictionary: {:?}", other),
        }
    };
    let expected = vec![(b"key".to_vec(), 1), (b"0".to_vec(), 1)];
    assert_eq!(entries_of(&m.vars[&0].value), expected);
    // The reference on the stack holds the same dictionary.
    assert_eq!(m.stack.len(), 1);
    assert_eq!(entries_of(&m.top().value), expected);
}

#[test]
fn a_store_of_or_into_what_is_unknown_makes_the_container_unknown() {
    // An unknown value: the cells that hold the container are unknown.
    let mut m = vm(vec![long(7), long(1)]);
    m.run(Opcode::BUILD_MAP, Some(0), 0).unwrap();
    m.run(Opcode::STORE_FAST, Some(0), 3).unwrap();
    m.run(Opcode::LOAD_CONST, Some(0), 6).unwrap();
    m.run(Opcode::BUILD_LIST, Some(1), 9).unwrap();
    m.run(Opcode::STORE_FAST, Some(1), 12).unwrap();
    m.run(Opcode::LOAD_GLOBAL, Some(0), 15).unwrap();
    m.run(Opcode::LOAD_FAST, Some(0), 18).unwrap();
    m.run(Opcode::LOAD_CONST, Some(1), 21).unwrap();
    m.run(Opcode::STORE_SUBSCR, None, 24).unwrap();
    assert!(m.stack.is_empty());
    assert!(m.vars[&0].value.is_none());
    assert!(matches!(&m.vars[&1].value, Some(Obj::List(items)) if longs(items) == vec![7]));
    // An unknown container: every list and dictionary is unknown.
    let mut m = vm(vec![long(7), long(1)]);
    m.run(Opcode::BUILD_MAP, Some(0), 0).unwrap();
    m.run(Opcode::STORE_FAST, Some(0), 3).unwrap();
    m.run(Opcode::LOAD_CONST, Some(0), 6).unwrap();
    m.run(Opcode::BUILD_LIST, Some(1), 9).unwrap();
    m.run(Opcode::STORE_FAST, Some(1), 12).unwrap();
    m.run(Opcode::LOAD_CONST, Some(0), 15).unwrap();
    m.run(Opcode::LOAD_GLOBAL, Some(0), 18).unwrap();
    m.run(Opcode::LOAD_CONST, Some(1), 21).unwrap();
    m.run(Opcode::STORE_SUBSCR, None, 24).unwrap();
    assert!(m.vars[&0].value.is_none());
    assert!(m.vars[&1].value.is_none());
}

#[test]
fn a_store_through_a_subscript_is_refused_where_it_is_not_defined() {
    // Too few operands.
    let mut m = vm(vec![long(1), long(5), Obj::PyNone]);
    m.run(Opcode::LOAD_CONST, Some(0), 0).unwrap();
    m.run(Opcode::LOAD_CONST, Some(0), 3).unwrap();
    assert!(matches!(
        m.run(Opcode::STORE_SUBSCR, None, 6),
        Err(ExecutionError::ComplexExpression(_, None))
    ));
    // The container is an integer.
    m.run(Opcode::LOAD_CONST, Some(0), 7).unwrap();
    assert!(matches!(
        m.run(Opcode::STORE_SUBSCR, None, 10),
        Err(ExecutionError::ComplexExpression(_, Some(ObjType::Long)))
    ));
    assert_eq!(m.stack.len(), 3);
    // The index lies beyond the list.
    let mut m = vm(vec![long(1), long(5), Obj::PyNone]);
    m.run(Opcode::LOAD_CONST, Some(0), 0).unwrap();
    m.run(Opcode::LOAD_CONST, Some(0), 3).unwrap();
    m.run(Opcode::BUILD_LIST, Some(1), 6).unwrap();
    m.run(Opcode::LOAD_CONST, Some(1), 9).unwrap();
    assert!(matches!(
        m.run(Opcode::STORE_SUBSCR, None, 12),
        Err(ExecutionError::ComplexExpression(_, Some(ObjType::Long)))
    ));
    // The key of a dictionary is a list.
    let mut m = vm(vec![long(1), long(5), Obj::PyNone]);
    m.run(Opcode::LOAD_CONST, Some(0), 0).unwrap();
    m.run(Opcode::BUILD_MAP, Some(0), 3).unwrap();
    m.run(Opcode::BUILD_LIST, Some(0), 6).unwrap();
    assert!(matches!(
        m.run(Opcode::STORE_SUBSCR, None, 9),
        Err(ExecutionError::ComplexExpression(_, Some(ObjType::List)))
    ));
    // A key that is not known is accepted.
    let mut m = vm(vec![long(1), long(5), Obj::PyNone]);
    m.run(Opcode::LOAD_CONST, Some(0), 0).unwrap();
    m.run(Opcode::BUILD_MAP, Some(0), 3).unwrap();
    m.run(Opcode::LOAD_GLOBAL, Some(0), 6).unwrap();
    m.run(Opcode::STORE_SUBSCR, None, 9).unwrap();
    assert!(m.stack.is_empty());
}

#[test]
fn an_integer_is_appended_to_a_string_in_decimal() {
    for (n, expected) in [(5, "ab5"), (-12, "ab-12"), (0, "ab0"), (1200, "ab1200")] {
        let mut m = vm(vec![Obj::String(b"ab".to_vec()), long(n)]);
        m.run(Opcode::LOAD_CONST, Some(0), 0).unwrap();
        m.run(Opcode::LOAD_CONST, Some(1), 3).unwrap();
        m.run(Opcode::BINARY_ADD, None, 6).unwrap();
        assert_eq!(as_string(&m.top().value), expected.as_bytes().to_vec());
    }
}

#[test]
fn sets_are_intersected_and_united() {
    let build = |m: &mut Vm, items: &[u16], at: u64| {
        for (k, item) in items.iter().enumerate() {
            m.run(Opcode::LOAD_CONST, Some(*item), at + k as u64).unwrap();
        }
        m.run(Opcode::BUILD_SET, Some(items.len() as u16), at + 10).unwrap();
    };
    let elements = |value: &Option<Obj>| -> Vec<i64> {
        match value {
            Some(Obj::PySet(items)) => longs(items),
            other => panic!("not a known set: {:?}", other),
        }
    };
    // Constants 1, 2, 3, 4 at the indices 0 to 3.
    let mut m = vm(vec![long(1), long(2), long(3), long(4)]);
    build(&mut m, &[0, 1, 2], 0);
    build(&mut m, &[1, 2, 3], 20);
    m.run(Opcode::BINARY_AND, None, 40).unwrap();
    let mut both = elements(&m.top().value);
    both.sort();
    assert_eq!(both, vec![2, 3]);

    let mut m = vm(vec![long(1), long(2), long(3), long(4)]);
    build(&mut m, &[0, 1, 2], 0);
    build(&mut m, &[1, 2, 3], 20);
    m.run(Opcode::BINARY_OR, None, 40).unwrap();
    let mut either = elements(&m.top().value);
    assert_eq!(either.len(), 4);
    either.sort();
    assert_eq!(either, vec![1, 2, 3, 4]);

    let mut m = vm(vec![long(1), long(2), long(3), long(4)]);
    build(&mut m, &[0], 0);
    build(&mut m, &[1], 20);
    assert!(matches!(
        m.run(Opcode::BINARY_XOR, None, 40),
        Err(ExecutionError::ComplexExpression(_, Some(ObjType::PySet)))
    ));
}

#[test]
fn strings_are_concatenated_and_repeated() {
    let mut m = vm(vec![Obj::String(b"ab".to_vec()), Obj::String(b"cd".to_vec()), long(3)]);
    m.run(Opcode::LOAD_CONST, Some(0), 0).unwrap();
    m.run(Opcode::LOAD_CONST, Some(1), 3).unwrap();
    m.run(Opcode::BINARY_ADD, None, 6).unwrap();
    assert_eq!(as_string(&m.top().value), b"abcd".to_vec());
    m.run(Opcode::LOAD_CONST, Some(2), 7).unwrap();
    m.run(Opcode::BINARY_MULTIPLY, None, 10).unwrap();
    assert_eq!(as_string(&m.top().value), b"abcdabcdabcd".to_vec());
}

#[test]
fn an_unknown_operand_makes_the_result_unknown() {
    let mut m = vm(vec![long(1)]);
    m.run(Opcode::LOAD_GLOBAL, Some(0), 0).unwrap();
    m.run(Opcode::LOAD_CONST, Some(0), 3).unwrap();
    m.run(Opcode::BINARY_ADD, None, 6).unwrap();
    assert!(m.top().value.is_none());
    assert_eq!(m.top().accesses, vec![3, 0, 6]);
}

#[test]
fn comparisons_yield_booleans() {
    let cases: [(u16, i64, i64, bool); 8] = [
        (0, 1, 2, true),
        (0, 2, 2, false),
        (1, 2, 2, true),
        (2, 2, 2, true),
        (3, 2, 2, false),
        (4, 3, 2, true),
        (5, 2, 3, false),
        (5, 3, 3, true),
    ];
    for (op, left, right, expected) in cases {
        let mut m = vm(vec![long(left), long(right)]);
        m.run(Opcode::LOAD_CONST, Some(0), 0).unwrap();
        m.run(Opcode::LOAD_CONST, Some(1), 3).unwrap();
        m.run(Opcode::COMPARE_OP, Some(op), 6).unwrap();
        assert_eq!(as_bool(&m.top().value), expected);
    }
    let mut m = vm(vec![long(1), long(2)]);
    m.run(Opcode::LOAD_CONST, Some(0), 0).unwrap();
    m.run(Opcode::LOAD_CONST, Some(1), 3).unwrap();
    assert!(matches!(
        m.run(Opcode::COMPARE_OP, Some(6), 6),
        Err(ExecutionError::ComplexExpression(_, None))
    ));
}

#[test]
fn sets_are_equal_when_they_hold_the_same_elements() {
    let mut m = vm(vec![long(1), long(2)]);
    m.run(Opcode::LOAD_CONST, Some(0), 0).unwrap();
    m.run(Opcode::LOAD_CONST, Some(1), 3).unwrap();
    m.run(Opcode::LOAD_CONST, Some(1), 6).unwrap();
    m.run(Opcode::BUILD_SET, Some(3), 9).unwrap();
    match &m.top().value {
        Some(Obj::PySet(items)) => assert_eq!(longs(items), vec![2, 1]),
        other => panic!("not a set: {:?}", other),
    }
    m.run(Opcode::LOAD_CONST, Some(1), 12).unwrap();
    m.run(Opcode::LOAD_CONST, Some(0), 15).unwrap();
    m.run(Opcode::BUILD_SET, Some(2), 18).unwrap();
    m.run(Opcode::COMPARE_OP, Some(2), 21).unwrap();
    assert!(as_bool(&m.top().value));
    assert_eq!(m.stack.len(), 1);
}

#[test]
fn tuples_are_built_and_unpacked() {
    let mut m = vm(vec![long(1), long(2), long(3)]);
    m.run(Opcode::LOAD_CONST, Some(0), 0).unwrap();
    m.run(Opcode::LOAD_CONST, Some(1), 3).unwrap();
    m.run(Opcode::LOAD_CONST, Some(2), 6).unwrap();
    m.run(Opcode::BUILD_TUPLE, Some(3), 9).unwrap();
    match &m.top().value {
        Some(Obj::Tuple(items)) => assert_eq!(longs(items), vec![3, 2, 1]),
        other => panic!("not a tuple: {:?}", other),
    }
    assert_eq!(m.top().accesses, vec![6, 3, 0, 9]);
    m.run(Opcode::UNPACK_SEQUENCE, Some(2), 12).unwrap();
    assert_eq!(m.stack.len(), 2);
    assert_eq!(as_long(&m.stack[0].value), 1);
    assert_eq!(as_long(&m.stack[1].value), 2);
    assert_eq!(m.stack[1].accesses, vec![6, 3, 0, 9, 12]);
}

#[test]
fn lists_are_indexed() {
    let mut m = vm(vec![long(10), long(20), long(0), long(5)]);
    m.run(Opcode::LOAD_CONST, Some(0), 0).unwrap();
    m.run(Opcode::LOAD_CONST, Some(1), 3).unwrap();
    m.run(Opcode::BUILD_LIST, Some(2), 6).unwrap();
    m.run(Opcode::LOAD_CONST, Some(2), 9).unwrap();
    m.run(Opcode::BINARY_SUBSC, None, 12).unwrap();
    assert_eq!(as_long(&m.top().value), 20);
    let mut m = vm(vec![long(10), long(5)]);
    m.run(Opcode::LOAD_CONST, Some(0), 0).unwrap();
    m.run(Opcode::BUILD_LIST, Some(1), 3).unwrap();
    m.run(Opcode::LOAD_CONST, Some(1), 6).unwrap();
    assert!(matches!(
        m.run(Opcode::BINARY_SUBSC, None, 9),
        Err(ExecutionError::ComplexExpression(_, Some(ObjType::Long)))
    ));
}

#[test]
fn not_negates_booleans_and_tests_integers_for_zero() {
    let mut m = vm(vec![long(0), Obj::Bool(true)]);
    m.run(Opcode::LOAD_CONST, Some(0), 0).unwrap();
    m.run(Opcode::UNARY_NOT, None, 3).unwrap();
    assert!(as_bool(&m.top().value));
    m.run(Opcode::LOAD_CONST, Some(1), 4).unwrap();
    m.run(Opcode::UNARY_NOT, None, 7).unwrap();
    assert!(!as_bool(&m.top().value));
}

#[test]
fn variables_and_names_keep_what_was_stored() {
    let mut m = vm(vec![long(5)]);
    m.run(Opcode::LOAD_FAST, Some(1), 0).unwrap();
    assert_eq!(as_string(&m.top().value), b"y".to_vec());
    assert_eq!(m.top().accesses, vec![0]);
    m.run(Opcode::LOAD_CONST, Some(0), 3).unwrap();
    m.run(Opcode::STORE_FAST, Some(1), 6).unwrap();
    m.run(Opcode::LOAD_FAST, Some(1), 9).unwrap();
    assert_eq!(as_long(&m.top().value), 5);
    assert_eq!(m.top().accesses, vec![3, 6, 9]);
    m.run(Opcode::STORE_NAME, Some(0), 12).unwrap();
    m.run(Opcode::LOAD_NAME, Some(0), 15).unwrap();
    assert_eq!(as_long(&m.top().value), 5);
    assert_eq!(m.top().accesses, vec![3, 6, 9, 12, 15]);
    m.run(Opcode::LOAD_NAME, Some(1), 18).unwrap();
    assert_eq!(as_string(&m.top().value), b"chr".to_vec());
    assert!(m.run(Opcode::LOAD_NAME, Some(2), 21).is_err());
    assert!(m.run(Opcode::LOAD_FAST, Some(9), 21).is_err());
}

#[test]
fn a_later_store_replaces_an_earlier_one() {
    let mut m = vm(vec![long(1), long(2)]);
    m.run(Opcode::LOAD_CONST, Some(0), 0).unwrap();
    m.run(Opcode::STORE_NAME, Some(0), 3).unwrap();
    m.run(Opcode::LOAD_CONST, Some(1), 6).unwrap();
    m.run(Opcode::STORE_NAME, Some(0), 9).unwrap();
    m.run(Opcode::LOAD_NAME, Some(0), 12).unwrap();
    assert_eq!(as_long(&m.top().value), 2);
}

#[test]
fn dup_and_pop_move_the_top() {
    let mut m = vm(vec![long(1)]);
    assert!(m.run(Opcode::DUP_TOP, None, 0).is_err());
    assert!(m.run(Opcode::POP_TOP, None, 0).is_err());
    m.run(Opcode::LOAD_CONST, Some(0), 0).unwrap();
    m.run(Opcode::DUP_TOP, None, 3).unwrap();
    assert_eq!(m.stack.len(), 2);
    assert_eq!(m.stack[0].accesses, vec![0]);
    assert_eq!(m.stack[1].accesses, vec![0, 3]);
    m.run(Opcode::POP_TOP, None, 4).unwrap();
    assert_eq!(m.stack.len(), 1);
}

#[test]
fn for_iter_takes_bytes_from_the_end_of_a_string() {
    let mut m = vm(vec![Obj::String(vec![1, 2])]);
    m.run(Opcode::LOAD_CONST, Some(0), 0).unwrap();
    m.run(Opcode::GET_ITER, None, 3).unwrap();
    m.run(Opcode::FOR_ITER, Some(9), 4).unwrap();
    assert_eq!(as_long(&m.top().value), 2);
    assert_eq!(as_string(&m.stack[0].value), vec![1]);
    m.run(Opcode::POP_TOP, None, 7).unwrap();
    m.run(Opcode::FOR_ITER, Some(9), 4).unwrap();
    assert_eq!(as_long(&m.top().value), 1);
    m.run(Opcode::POP_TOP, None, 7).unwrap();
    m.run(Opcode::FOR_ITER, Some(9), 4).unwrap();
    assert_eq!(m.stack.len(), 1);
    assert_eq!(as_string(&m.stack[0].value), Vec::<u8>::new());
}

#[test]
fn list_append_adds_a_byte_to_the_accumulator() {
    let mut m = vm(vec![Obj::String(vec![]), long(65), long(300)]);
    m.run(Opcode::LOAD_CONST, Some(0), 0).unwrap();
    m.run(Opcode::LOAD_GLOBAL, Some(0), 3).unwrap();
    m.run(Opcode::LOAD_CONST, Some(1), 6).unwrap();
    m.run(Opcode::LIST_APPEND, Some(2), 9).unwrap();
    assert_eq!(m.stack.len(), 2);
    assert_eq!(as_string(&m.stack[0].value), vec![65]);
    assert_eq!(m.stack[0].accesses, vec![0, 6, 9]);
    m.run(Opcode::LOAD_CONST, Some(2), 12).unwrap();
    assert!(matches!(
        m.run(Opcode::LIST_APPEND, Some(2), 15),
        Err(ExecutionError::ComplexExpression(_, Some(ObjType::Long)))
    ));
    assert_eq!(m.stack.len(), 3);
}

#[test]
fn calls_are_answered_by_the_resolver() {
    let mut m = vm(vec![long(65), long(256)]);
    m.run(Opcode::LOAD_NAME, Some(1), 0).unwrap();
    m.run(Opcode::LOAD_CONST, Some(0), 3).unwrap();
    m.run(Opcode::CALL_FUNCTION, Some(1), 6).unwrap();
    assert_eq!(m.stack.len(), 1);
    assert_eq!(as_long(&m.top().value), 65);
    assert_eq!(m.top().accesses, vec![3, 0, 6]);
    m.run(Opcode::LOAD_NAME, Some(1), 9).unwrap();
    m.run(Opcode::LOAD_CONST, Some(1), 12).unwrap();
    assert!(matches!(
        m.run(Opcode::CALL_FUNCTION, Some(1), 15),
        Err(ExecutionError::ComplexExpression(_, Some(ObjType::Long)))
    ));
    assert_eq!(m.stack.len(), 3);
}

#[test]
fn an_unresolved_call_is_unknown() {
    let mut m = vm(vec![long(65)]);
    m.run(Opcode::LOAD_NAME, Some(1), 0).unwrap();
    m.run(Opcode::LOAD_CONST, Some(0), 3).unwrap();
    execute_instruction(
        &Instruction::new(Opcode::CALL_FUNCTION, Some(1)),
        &m.code,
        &mut m.stack,
        &mut m.vars,
        &mut m.names,
        &Unresolved,
        6,
    )
    .unwrap();
    assert!(m.top().value.is_none());
}

#[test]
fn imports_attributes_and_functions_are_unknown() {
    let mut m = vm(vec![long(0), Obj::PyNone]);
    m.run(Opcode::LOAD_CONST, Some(0), 0).unwrap();
    m.run(Opcode::LOAD_CONST, Some(1), 3).unwrap();
    m.run(Opcode::IMPORT_NAME, Some(0), 6).unwrap();
    assert_eq!(m.stack.len(), 1);
    assert!(m.top().value.is_none());
    assert_eq!(m.top().accesses, vec![3, 0, 6]);
    m.run(Opcode::IMPORT_FROM, Some(0), 9).unwrap();
    assert_eq!(m.stack.len(), 2);
    m.run(Opcode::LOAD_ATTR, Some(0), 12).unwrap();
    assert_eq!(m.stack.len(), 2);
    m.run(Opcode::MAKE_FUNCTION, Some(0), 15).unwrap();
    assert_eq!(m.stack.len(), 2);
    m.run(Opcode::BUILD_MAP, Some(0), 18).unwrap();
    assert!(matches!(&m.top().value, Some(Obj::Dict(entries)) if entries.is_empty()));
    m.run(Opcode::JUMP_ABSOLUTE, Some(0), 21).unwrap();
    assert_eq!(m.stack.len(), 3);
}

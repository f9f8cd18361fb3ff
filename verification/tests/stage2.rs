use pydeob::error::{Error, ExecutionError};
use pydeob::instruction::Instruction;
use pydeob::long::Long;
use pydeob::object::{Code, Obj, ObjType};
use pydeob::opcode::Opcode;
use pydeob::stage2::{exec_stage2, reversed};

fn code_object(instrs: &[Instruction], consts: Vec<Obj>) -> Code {
    let mut bytecode = Vec::new();
    for instr in instrs {
        instr.serialize(&mut bytecode);
    }
    Code {
        argcount: 0,
        nlocals: 0,
        stacksize: 0,
        flags: 0,
        code: bytecode,
        consts,
        names: vec![],
        varnames: vec![b"map".to_vec()],
        freevars: vec![],
        cellvars: vec![],
        filename: vec![],
        name: vec![],
        firstlineno: 0,
        lnotab: vec![],
    }
}

fn long(v: i64) -> Obj {
    Obj::Long(Long::from_i64(v))
}

fn swap_function(map: Obj) -> Obj {
    Obj::Code(Box::new(code_object(
        &[
            Instruction::new(Opcode::LOAD_FAST, Some(0)),
            Instruction::new(Opcode::LOAD_CONST, Some(1)),
            Instruction::new(Opcode::RETURN_VALUE, None),
        ],
        vec![Obj::PyNone, map],
    )))
}

fn unpacker(function: Obj) -> Code {
    code_object(
        &[
            // 0
            Instruction::new(Opcode::LOAD_CONST, Some(1)),
            // 3
            Instruction::new(Opcode::MAKE_FUNCTION, Some(0)),
            // 6
            Instruction::new(Opcode::MAKE_FUNCTION, Some(0)),
            // 9
            Instruction::new(Opcode::MAKE_FUNCTION, Some(0)),
            // 12
            Instruction::new(Opcode::STORE_FAST, Some(0)),
            // 15
            Instruction::new(Opcode::BUILD_LIST, Some(0)),
            // 18
            Instruction::new(Opcode::BUILD_LIST, Some(0)),
            // 21
            Instruction::new(Opcode::LOAD_FAST, Some(0)),
            // 24
            Instruction::new(Opcode::LOAD_FAST, Some(0)),
            // 27
            Instruction::new(Opcode::CALL_FUNCTION, Some(0)),
            // 30
            Instruction::new(Opcode::GET_ITER, None),
            // 31: the walk leaves this loop and goes on at 34
            Instruction::new(Opcode::FOR_ITER, Some(0)),
            // 34
            Instruction::new(Opcode::GET_ITER, None),
            // 35: the loop that the interpreter runs
            Instruction::new(Opcode::FOR_ITER, Some(6)),
            // 38
            Instruction::new(Opcode::LIST_APPEND, Some(2)),
            // 41
            Instruction::new(Opcode::JUMP_ABSOLUTE, Some(35)),
            // 44
            Instruction::new(Opcode::RETURN_VALUE, None),
        ],
        vec![Obj::PyNone, function],
    )
}

fn outer(bytes: &[u8]) -> Code {
    let mut code = code_object(&[], vec![]);
    code.code = bytes.to_vec();
    code
}

fn swap_map(pairs: &[(i64, i64)]) -> Obj {
    Obj::Dict(pairs.iter().map(|(k, v)| (long(*k), long(*v))).collect())
}

#[test]
fn the_substituted_bytes_are_unpacked() {
    let code = unpacker(swap_function(swap_map(&[(1, 10), (2, 20), (3, 30)])));
    let unpacked = exec_stage2(&code, &outer(&[1, 2, 3, 3, 1])).unwrap();
    assert_eq!(unpacked, vec![10, 30, 30, 20, 10]);
}

#[test]
fn hidden_bytecode_that_is_empty_unpacks_to_nothing() {
    let code = unpacker(swap_function(swap_map(&[(1, 10)])));
    assert_eq!(exec_stage2(&code, &outer(&[])).unwrap(), Vec::<u8>::new());
}

#[test]
fn code_without_the_unpacking_idiom_unpacks_to_nothing() {
    let code = code_object(
        &[
            Instruction::new(Opcode::LOAD_CONST, Some(0)),
            Instruction::new(Opcode::RETURN_VALUE, None),
        ],
        vec![Obj::PyNone],
    );
    assert_eq!(exec_stage2(&code, &outer(&[1, 2])).unwrap(), Vec::<u8>::new());
}

#[test]
fn a_byte_that_the_map_lacks_is_an_object_error() {
    let code = unpacker(swap_function(swap_map(&[(1, 10)])));
    assert!(matches!(
        exec_stage2(&code, &outer(&[1, 2])),
        Err(Error::ObjectError("swap map value", ObjType::PyNone))
    ));
}

#[test]
fn a_map_that_is_no_dictionary_is_an_object_error() {
    let code = unpacker(swap_function(long(3)));
    assert!(matches!(
        exec_stage2(&code, &outer(&[1])),
        Err(Error::ObjectError("swap map", ObjType::Long))
    ));
    let code = unpacker(long(3));
    assert!(matches!(
        exec_stage2(&code, &outer(&[1])),
        Err(Error::ObjectError("swap map function", ObjType::Long))
    ));
}

#[test]
fn an_unexpected_instruction_after_the_functions_is_refused() {
    let code = code_object(
        &[
            Instruction::new(Opcode::MAKE_FUNCTION, Some(0)),
            Instruction::new(Opcode::MAKE_FUNCTION, Some(0)),
            Instruction::new(Opcode::MAKE_FUNCTION, Some(0)),
            Instruction::new(Opcode::POP_TOP, None),
        ],
        vec![],
    );
    assert!(matches!(
        exec_stage2(&code, &outer(&[1])),
        Err(Error::Execution(ExecutionError::UnsupportedOpcode(Opcode::POP_TOP)))
    ));
}

#[test]
fn reversed_turns_bytes_around() {
    assert_eq!(reversed(&vec![1, 2, 3]), vec![3, 2, 1]);
    assert_eq!(reversed(&vec![]), Vec::<u8>::new());
}

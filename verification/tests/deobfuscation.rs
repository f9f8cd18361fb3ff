use pydeob::deob::deobfuscate_code;
use pydeob::error::Error;
use pydeob::instruction::{decode, Instruction};
use pydeob::long::Long;
use pydeob::object::{Code, Obj};
use pydeob::opcode::Opcode;

fn code_object(instrs: &[Instruction], consts: Vec<Obj>) -> Code {
    let mut bytecode = Vec::new();
    for instr in instrs {
        instr.serialize(&mut bytecode);
    }
    Code {
        argcount: 0,
        nlocals: 0,
        stacksize: 0,
        flags: 0,
        code: bytecode,
        consts,
        names: vec![],
        varnames: vec![],
        freevars: vec![],
        cellvars: vec![],
        filename: b"filename".to_vec(),
        name: b"name".to_vec(),
        firstlineno: 0,
        lnotab: vec![],
    }
}

fn serialized(instrs: &[Instruction]) -> Vec<u8> {
    let mut bytecode = Vec::new();
    for instr in instrs {
        instr.serialize(&mut bytecode);
    }
    bytecode
}

fn decode_all(bytes: &[u8]) -> Vec<(usize, Instruction)> {
    let mut out = Vec::new();
    let mut offset = 0;
    while offset < bytes.len() {
        let instr = decode(bytes, offset).expect("the output decodes");
        out.push((offset, instr));
        offset += instr.len();
    }
    assert_eq!(offset, bytes.len());
    out
}

fn long(v: i64) -> Obj {
    Obj::Long(Long::from_i64(v))
}

const COMPARE_LESS: u16 = 0;

#[test]
fn simple_deobfuscation() {
    let consts = vec![Obj::PyNone, long(1), long(2)];
    let instrs = [
        // 0
        Instruction::new(Opcode::JUMP_ABSOLUTE, Some(3)),
        // 3
        Instruction::new(Opcode::JUMP_ABSOLUTE, Some(6)),
        // 6
        Instruction::new(Opcode::LOAD_CONST, Some(1)),
        // 9
        Instruction::new(Opcode::LOAD_CONST, Some(2)),
        // 12. 1 < 2, should evaluate to true
        Instruction::new(Opcode::COMPARE_OP, Some(COMPARE_LESS)),
        // 15
        Instruction::new(Opcode::POP_JUMP_IF_TRUE, Some(22)),
        // 18
        Instruction::new(Opcode::LOAD_CONST, Some(0)),
        // 21
        Instruction::new(Opcode::RETURN_VALUE, None),
        // 22
        Instruction::new(Opcode::LOAD_CONST, Some(1)),
        // 25
        Instruction::new(Opcode::RETURN_VALUE, None),
    ];
    let expected = [
        Instruction::new(Opcode::LOAD_CONST, Some(1)),
        Instruction::new(Opcode::RETURN_VALUE, None),
    ];
    let code = code_object(&instrs, consts);

    let (new_bytecode, _mapped_names) = deobfuscate_code(&code).unwrap();

    assert_eq!(new_bytecode, serialized(&expected));
}

#[test]
fn opaque_false_predicate_keeps_the_fallthrough() {
    let consts = vec![long(0), long(7), long(9)];
    let instrs = [
        // 0
        Instruction::new(Opcode::LOAD_CONST, Some(0)),
        // 3
        Instruction::new(Opcode::POP_JUMP_IF_TRUE, Some(10)),
        // 6
        Instruction::new(Opcode::LOAD_CONST, Some(1)),
        // 9
        Instruction::new(Opcode::RETURN_VALUE, None),
        // 10
        Instruction::new(Opcode::LOAD_CONST, Some(2)),
        // 13
        Instruction::new(Opcode::RETURN_VALUE, None),
    ];
    let expected = [
        Instruction::new(Opcode::LOAD_CONST, Some(1)),
        Instruction::new(Opcode::RETURN_VALUE, None),
    ];
    let code = code_object(&instrs, consts);
    assert_eq!(deobfuscate_code(&code).unwrap().0, serialized(&expected));
}

#[test]
fn garbage_behind_a_jump_leaves_no_trace() {
    let consts = vec![Obj::PyNone];
    let mut bytecode = Vec::new();
    // 0: jump over the garbage
    Instruction::new(Opcode::JUMP_ABSOLUTE, Some(5)).serialize(&mut bytecode);
    // 3, 4: bytes that are no opcodes
    bytecode.push(0xff);
    bytecode.push(0x06);
    // 5
    Instruction::new(Opcode::LOAD_CONST, Some(0)).serialize(&mut bytecode);
    // 8
    Instruction::new(Opcode::RETURN_VALUE, None).serialize(&mut bytecode);
    let mut code = code_object(&[], consts);
    code.code = bytecode;
    let expected = [
        Instruction::new(Opcode::LOAD_CONST, Some(0)),
        Instruction::new(Opcode::RETURN_VALUE, None),
    ];
    assert_eq!(deobfuscate_code(&code).unwrap().0, serialized(&expected));
}

#[test]
fn chain_of_jumps_collapses_to_one_block() {
    let consts = vec![Obj::PyNone, long(1)];
    // Every block but the last holds one POP-free instruction and a jump to the next.
    let instrs = [
        // 0
        Instruction::new(Opcode::LOAD_CONST, Some(1)),
        // 3
        Instruction::new(Opcode::JUMP_ABSOLUTE, Some(6)),
        // 6
        Instruction::new(Opcode::POP_TOP, None),
        // 7
        Instruction::new(Opcode::JUMP_ABSOLUTE, Some(10)),
        // 10
        Instruction::new(Opcode::LOAD_CONST, Some(0)),
        // 13
        Instruction::new(Opcode::JUMP_FORWARD, Some(0)),
        // 16
        Instruction::new(Opcode::RETURN_VALUE, None),
    ];
    let expected = [
        Instruction::new(Opcode::LOAD_CONST, Some(1)),
        Instruction::new(Opcode::POP_TOP, None),
        Instruction::new(Opcode::LOAD_CONST, Some(0)),
        Instruction::new(Opcode::RETURN_VALUE, None),
    ];
    let code = code_object(&instrs, consts);
    assert_eq!(deobfuscate_code(&code).unwrap().0, serialized(&expected));
}

#[test]
fn unknown_condition_keeps_both_branches_and_patches_targets() {
    let consts = vec![Obj::PyNone, long(1), long(2)];
    let mut code = code_object(
        &[
            // 0: jump around
            Instruction::new(Opcode::JUMP_ABSOLUTE, Some(3)),
            // 3
            Instruction::new(Opcode::LOAD_FAST, Some(0)),
            // 6
            Instruction::new(Opcode::POP_JUMP_IF_FALSE, Some(13)),
            // 9
            Instruction::new(Opcode::LOAD_CONST, Some(1)),
            // 12
            Instruction::new(Opcode::RETURN_VALUE, None),
            // 13
            Instruction::new(Opcode::LOAD_CONST, Some(2)),
            // 16
            Instruction::new(Opcode::RETURN_VALUE, None),
        ],
        consts,
    );
    code.varnames = vec![b"flag".to_vec()];
    let output = deobfuscate_code(&code).unwrap().0;
    let expected = [
        Instruction::new(Opcode::LOAD_FAST, Some(0)),
        Instruction::new(Opcode::POP_JUMP_IF_FALSE, Some(10)),
        Instruction::new(Opcode::LOAD_CONST, Some(1)),
        Instruction::new(Opcode::RETURN_VALUE, None),
        Instruction::new(Opcode::LOAD_CONST, Some(2)),
        Instruction::new(Opcode::RETURN_VALUE, None),
    ];
    assert_eq!(output, serialized(&expected));
}

#[test]
fn a_constant_that_an_unknown_condition_leaves_decides_the_next_condition() {
    let consts = vec![Obj::PyNone, long(1), long(2)];
    let mut code = code_object(
        &[
            // 0: the constant that the second jump tests
            Instruction::new(Opcode::LOAD_CONST, Some(1)),
            // 3
            Instruction::new(Opcode::LOAD_FAST, Some(0)),
            // 6: unknown
            Instruction::new(Opcode::POP_JUMP_IF_TRUE, Some(16)),
            // 9: reached from offset 6 only, with the constant on the stack
            Instruction::new(Opcode::POP_JUMP_IF_FALSE, Some(16)),
            // 12
            Instruction::new(Opcode::LOAD_CONST, Some(0)),
            // 15
            Instruction::new(Opcode::RETURN_VALUE, None),
            // 16
            Instruction::new(Opcode::LOAD_CONST, Some(2)),
            // 19
            Instruction::new(Opcode::RETURN_VALUE, None),
        ],
        consts,
    );
    code.varnames = vec![b"flag".to_vec()];
    let output = deobfuscate_code(&code).unwrap().0;
    // The constant is produced before the first jump, so it stays, and the
    // second jump becomes the instruction that takes it off the stack.
    let expected = [
        Instruction::new(Opcode::LOAD_CONST, Some(1)),
        Instruction::new(Opcode::LOAD_FAST, Some(0)),
        Instruction::new(Opcode::POP_JUMP_IF_TRUE, Some(14)),
        Instruction::new(Opcode::POP_TOP, None),
        Instruction::new(Opcode::LOAD_CONST, Some(0)),
        Instruction::new(Opcode::RETURN_VALUE, None),
        Instruction::new(Opcode::LOAD_CONST, Some(2)),
        Instruction::new(Opcode::RETURN_VALUE, None),
    ];
    assert_eq!(output, serialized(&expected));
}

#[test]
fn a_condition_that_control_reaches_in_two_ways_is_not_decided_by_a_path() {
    let consts = vec![Obj::PyNone, long(1), long(2)];
    let mut code = code_object(
        &[
            // 0
            Instruction::new(Opcode::LOAD_CONST, Some(1)),
            // 3
            Instruction::new(Opcode::LOAD_FAST, Some(0)),
            // 6: unknown; both branches lead to offset 12
            Instruction::new(Opcode::POP_JUMP_IF_TRUE, Some(12)),
            // 9
            Instruction::new(Opcode::NOP, None),
            // 10
            Instruction::new(Opcode::NOP, None),
            // 11
            Instruction::new(Opcode::NOP, None),
            // 12: reached from offset 6 and from offset 11
            Instruction::new(Opcode::POP_JUMP_IF_FALSE, Some(19)),
            // 15
            Instruction::new(Opcode::LOAD_CONST, Some(0)),
            // 18
            Instruction::new(Opcode::RETURN_VALUE, None),
            // 19
            Instruction::new(Opcode::LOAD_CONST, Some(2)),
            // 22
            Instruction::new(Opcode::RETURN_VALUE, None),
        ],
        consts,
    );
    code.varnames = vec![b"flag".to_vec()];
    code.stacksize = 2;
    let output = deobfuscate_code(&code).unwrap().0;
    let decoded: Vec<Opcode> = decode_all(&output).iter().map(|(_, i)| i.opcode).collect();
    assert_eq!(
        decoded.iter().filter(|o| **o == Opcode::POP_JUMP_IF_FALSE).count(),
        1
    );
    assert_eq!(
        decoded.iter().filter(|o| **o == Opcode::POP_JUMP_IF_TRUE).count(),
        1
    );
}

#[test]
fn output_decodes_and_jumps_land_on_instructions() {
    let consts = vec![Obj::PyNone, long(1), long(2)];
    let mut code = code_object(
        &[
            // 0
            Instruction::new(Opcode::LOAD_FAST, Some(0)),
            // 3
            Instruction::new(Opcode::POP_JUMP_IF_TRUE, Some(12)),
            // 6
            Instruction::new(Opcode::LOAD_CONST, Some(1)),
            // 9
            Instruction::new(Opcode::JUMP_FORWARD, Some(0)),
            // 12
            Instruction::new(Opcode::LOAD_CONST, Some(2)),
            // 15
            Instruction::new(Opcode::RETURN_VALUE, None),
        ],
        consts,
    );
    code.varnames = vec![b"flag".to_vec()];
    let output = deobfuscate_code(&code).unwrap().0;
    let decoded = decode_all(&output);
    let starts: Vec<usize> = decoded.iter().map(|(offset, _)| *offset).collect();
    for (offset, instr) in &decoded {
        if instr.opcode.is_jump() {
            let arg = instr.arg.unwrap() as usize;
            let target = if instr.opcode.is_relative_jump() { offset + 3 + arg } else { arg };
            assert!(starts.contains(&target), "jump at {} targets {}", offset, target);
        }
    }
    // Running the pipeline again yields the same bytes.
    assert_eq!(deobfuscate_code(&code).unwrap().0, output);
}

#[test]
fn dangling_tail_gets_a_return() {
    let consts = vec![long(5), Obj::PyNone];
    let code = code_object(&[Instruction::new(Opcode::LOAD_CONST, Some(0))], consts);
    let expected = [
        Instruction::new(Opcode::LOAD_CONST, Some(0)),
        Instruction::new(Opcode::LOAD_CONST, Some(1)),
        Instruction::new(Opcode::RETURN_VALUE, None),
    ];
    assert_eq!(deobfuscate_code(&code).unwrap().0, serialized(&expected));
}

#[test]
fn dangling_tail_without_none_is_an_object_error() {
    let code = code_object(&[Instruction::new(Opcode::LOAD_CONST, Some(0))], vec![long(5)]);
    assert!(matches!(deobfuscate_code(&code), Err(Error::ObjectError(_, _))));
}

#[test]
fn refused_instruction_aborts_the_code_object() {
    let consts = vec![Obj::PyNone, long(1)];
    let code = code_object(
        &[
            // 0
            Instruction::new(Opcode::LOAD_CONST, Some(1)),
            // 3
            Instruction::new(Opcode::UNARY_NEGATIVE, None),
            // 4
            Instruction::new(Opcode::POP_JUMP_IF_TRUE, Some(11)),
            // 7
            Instruction::new(Opcode::LOAD_CONST, Some(0)),
            // 10
            Instruction::new(Opcode::RETURN_VALUE, None),
            // 11
            Instruction::new(Opcode::LOAD_CONST, Some(1)),
            // 14
            Instruction::new(Opcode::RETURN_VALUE, None),
        ],
        consts,
    );
    assert!(matches!(deobfuscate_code(&code), Err(Error::Execution(_))));
}

#[test]
fn truncated_bytecode_is_a_disassembler_error() {
    let mut code = code_object(&[], vec![Obj::PyNone]);
    code.code = vec![100, 0];
    assert!(matches!(deobfuscate_code(&code), Err(Error::DisassemblerError(_))));
}

#[test]
fn name_tags_are_recorded_under_the_key_of_the_code_object() {
    let consts = vec![Obj::PyNone, Obj::String(b"real_name".to_vec())];
    let mut code = code_object(
        &[
            Instruction::new(Opcode::LOAD_CONST, Some(1)),
            Instruction::new(Opcode::STORE_NAME, Some(0)),
            Instruction::new(Opcode::LOAD_CONST, Some(1)),
            Instruction::new(Opcode::STORE_FAST, Some(0)),
            Instruction::new(Opcode::LOAD_CONST, Some(0)),
            Instruction::new(Opcode::RETURN_VALUE, None),
        ],
        consts,
    );
    code.names = vec![b"__name_tag__".to_vec()];
    code.varnames = vec![b"other".to_vec()];
    let (bytes, names) = deobfuscate_code(&code).unwrap();
    assert_eq!(names, vec![(b"filename_name".to_vec(), b"real_name".to_vec())]);
    assert_eq!(bytes, code.code);
}

struct Lcg(u64);

impl Lcg {
    fn next(&mut self, bound: usize) -> usize {
        self.0 = self.0.wrapping_mul(6364136223846793005).wrapping_add(1442695040888963407);
        ((self.0 >> 33) as usize) % bound
    }
}

fn random_program(rng: &mut Lcg) -> Code {
    let count = 1 + rng.next(24);
    let mut instrs = Vec::new();
    for _ in 0..count {
        // Targets are anywhere in the bytecode, also within instructions.
        let target = rng.next(3 * count + 1) as u16;
        instrs.push(match rng.next(12) {
            0 | 1 => Instruction::new(Opcode::LOAD_CONST, Some(rng.next(3) as u16)),
            2 => Instruction::new(Opcode::LOAD_FAST, Some(0)),
            3 => Instruction::new(Opcode::POP_TOP, None),
            4 => Instruction::new(Opcode::COMPARE_OP, Some(rng.next(6) as u16)),
            5 => Instruction::new(Opcode::JUMP_ABSOLUTE, Some(target)),
            6 => Instruction::new(Opcode::JUMP_FORWARD, Some(rng.next(7) as u16)),
            7 => Instruction::new(Opcode::POP_JUMP_IF_TRUE, Some(target)),
            8 => Instruction::new(Opcode::POP_JUMP_IF_FALSE, Some(target)),
            9 => Instruction::new(Opcode::JUMP_IF_TRUE_OR_POP, Some(target)),
            10 => Instruction::new(Opcode::UNARY_NOT, None),
            _ => Instruction::new(Opcode::RETURN_VALUE, None),
        });
    }
    let mut code = code_object(&instrs, vec![Obj::PyNone, long(0), long(3)]);
    code.varnames = vec![b"flag".to_vec()];
    code.stacksize = 64;
    if rng.next(4) == 0 {
        let at = rng.next(code.code.len());
        code.code[at] = 0xff;
    }
    code
}

#[test]
fn random_programs_give_bytecode_that_decodes_and_whose_jumps_land() {
    let mut rng = Lcg(2024);
    let mut written = 0;
    for _ in 0..500 {
        let code = random_program(&mut rng);
        let output = match deobfuscate_code(&code) {
            Ok((bytes, _)) => bytes,
            Err(Error::Execution(_)) | Err(Error::DisassemblerError(_)) => continue,
            Err(e) => panic!("unexpected error {:?}", e),
        };
        written += 1;
        let decoded = decode_all(&output);
        let starts: Vec<usize> = decoded.iter().map(|(offset, _)| *offset).collect();
        for (offset, instr) in &decoded {
            if instr.opcode.is_jump() {
                let arg = instr.arg.unwrap() as usize;
                let target = if instr.opcode.is_relative_jump() { offset + 3 + arg } else { arg };
                assert!(starts.contains(&target) || target == output.len());
            }
        }
        // Every path ends in a return.
        let (_, last) = decoded.last().unwrap();
        assert!(last.opcode.is_terminator() || last.opcode.is_unconditional_jump());
        assert_eq!(deobfuscate_code(&code).unwrap().0, output);
    }
    assert!(written > 100);
}

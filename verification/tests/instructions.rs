use pydeob::instruction::{decode, DecodeError, Instruction};
use pydeob::opcode::Opcode;

#[test]
fn decodes_an_instruction_with_a_little_endian_argument() {
    let bytes = [100u8, 0x34, 0x12, 83];
    assert_eq!(decode(&bytes, 0), Ok(Instruction::new(Opcode::LOAD_CONST, Some(0x1234))));
    assert_eq!(decode(&bytes, 3), Ok(Instruction::new(Opcode::RETURN_VALUE, None)));
}

#[test]
fn decodes_every_defined_opcode_and_rejects_the_rest() {
    for byte in 0..=255u8 {
        let bytes = [byte, 1, 2];
        match Opcode::from_u8(byte) {
            Some(opcode) => {
                assert_eq!(opcode.to_u8(), byte);
                let arg = if opcode.has_arg() { Some(0x0201) } else { None };
                assert_eq!(decode(&bytes, 0), Ok(Instruction::new(opcode, arg)));
            }
            None => assert_eq!(decode(&bytes, 0), Err(DecodeError::UnknownOpcode(byte))),
        }
    }
}

#[test]
fn a_missing_argument_is_truncated_input() {
    assert_eq!(decode(&[100, 0], 0), Err(DecodeError::TruncatedInput));
    assert_eq!(decode(&[100, 0, 0], 3), Err(DecodeError::TruncatedInput));
    assert_eq!(decode(&[], 0), Err(DecodeError::TruncatedInput));
    assert_eq!(decode(&[83], 7), Err(DecodeError::TruncatedInput));
}

#[test]
fn an_undefined_byte_is_an_unknown_opcode() {
    assert_eq!(decode(&[6], 0), Err(DecodeError::UnknownOpcode(6)));
    assert_eq!(decode(&[83, 144], 1), Err(DecodeError::UnknownOpcode(144)));
}

#[test]
fn serialized_instructions_decode_again() {
    let instrs = [
        Instruction::new(Opcode::LOAD_CONST, Some(0xfffe)),
        Instruction::new(Opcode::POP_TOP, None),
        Instruction::new(Opcode::JUMP_FORWARD, Some(256)),
        Instruction::new(Opcode::RETURN_VALUE, None),
    ];
    let mut bytes = Vec::new();
    for instr in &instrs {
        instr.serialize(&mut bytes);
    }
    assert_eq!(bytes, vec![100, 0xfe, 0xff, 1, 110, 0, 1, 83]);
    let mut offset = 0;
    for instr in &instrs {
        assert_eq!(decode(&bytes, offset), Ok(*instr));
        offset += instr.len();
    }
    assert_eq!(offset, bytes.len());
}

#[test]
fn opcodes_are_classified() {
    assert!(Opcode::JUMP_ABSOLUTE.is_jump());
    assert!(Opcode::JUMP_ABSOLUTE.is_absolute_jump());
    assert!(Opcode::JUMP_ABSOLUTE.is_unconditional_jump());
    assert!(!Opcode::JUMP_ABSOLUTE.is_conditional_jump());
    assert!(Opcode::JUMP_FORWARD.is_relative_jump());
    assert!(Opcode::FOR_ITER.is_relative_jump());
    assert!(!Opcode::FOR_ITER.is_unconditional_jump());
    assert!(Opcode::POP_JUMP_IF_TRUE.is_conditional_jump());
    assert!(Opcode::POP_JUMP_IF_TRUE.jumps_if_true());
    assert!(!Opcode::POP_JUMP_IF_FALSE.jumps_if_true());
    assert!(Opcode::JUMP_IF_TRUE_OR_POP.jumps_if_true());
    assert!(Opcode::CONTINUE_LOOP.is_absolute_jump());
    assert!(Opcode::RETURN_VALUE.is_terminator());
    assert!(Opcode::RAISE_VARARGS.is_terminator());
    assert!(!Opcode::LOAD_CONST.is_jump());
    assert!(Opcode::LOAD_CONST.has_arg());
    assert!(!Opcode::BUILD_CLASS.has_arg());
    assert!(Opcode::STORE_NAME.has_arg());
}

//! The Python 2.7 instruction set: opcodes, their byte values and their
//! classification (argument-carrying, jump kinds, terminators).

use vstd::prelude::*;

verus! {

/// A Python 2.7 virtual machine opcode.
///
/// Every opcode has a fixed byte value, given by [`Opcode::byte`]. Opcodes
/// whose byte value is at least [`HAVE_ARGUMENT`] are followed by a 16-bit
/// little-endian argument in the instruction stream.
#[allow(non_camel_case_types)]
#[derive(Clone, Copy, Debug, PartialEq, Eq, Structural)]
pub enum Opcode {
    STOP_CODE,
    POP_TOP,
    ROT_TWO,
    ROT_THREE,
    DUP_TOP,
    ROT_FOUR,
    NOP,
    UNARY_POSITIVE,
    UNARY_NEGATIVE,
    UNARY_NOT,
    UNARY_CONVERT,
    UNARY_INVERT,
    BINARY_POWER,
    BINARY_MULTIPLY,
    BINARY_DIVIDE,
    BINARY_MODULO,
    BINARY_ADD,
    BINARY_SUBTRACT,
    BINARY_SUBSC,
    BINARY_FLOOR_DIVIDE,
    BINARY_TRUE_DIVIDE,
    INPLACE_FLOOR_DIVIDE,
    INPLACE_TRUE_DIVIDE,
    SLICE_0,
    SLICE_1,
    SLICE_2,
    SLICE_3,
    STORE_SLICE_0,
    STORE_SLICE_1,
    STORE_SLICE_2,
    STORE_SLICE_3,
    DELETE_SLICE_0,
    DELETE_SLICE_1,
    DELETE_SLICE_2,
    DELETE_SLICE_3,
    STORE_MAP,
    INPLACE_ADD,
    INPLACE_SUBTRACT,
    INPLACE_MULTIPLY,
    INPLACE_DIVIDE,
    INPLACE_MODULO,
    STORE_SUBSCR,
    DELETE_SUBSCR,
    BINARY_LSHIFT,
    BINARY_RSHIFT,
    BINARY_AND,
    BINARY_XOR,
    BINARY_OR,
    INPLACE_POWER,
    GET_ITER,
    PRINT_EXPR,
    PRINT_ITEM,
    PRINT_NEWLINE,
    PRINT_ITEM_TO,
    PRINT_NEWLINE_TO,
    INPLACE_LSHIFT,
    INPLACE_RSHIFT,
    INPLACE_AND,
    INPLACE_XOR,
    INPLACE_OR,
    BREAK_LOOP,
    WITH_CLEANUP,
    LOAD_LOCALS,
    RETURN_VALUE,
    IMPORT_STAR,
    EXEC_STMT,
    YIELD_VALUE,
    POP_BLOCK,
    END_FINALLY,
    BUILD_CLASS,
    STORE_NAME,
    DELETE_NAME,
    UNPACK_SEQUENCE,
    FOR_ITER,
    LIST_APPEND,
    STORE_ATTR,
    DELETE_ATTR,
    STORE_GLOBAL,
    DELETE_GLOBAL,
    DUP_TOPX,
    LOAD_CONST,
    LOAD_NAME,
    BUILD_TUPLE,
    BUILD_LIST,
    BUILD_SET,
    BUILD_MAP,
    LOAD_ATTR,
    COMPARE_OP,
    IMPORT_NAME,
    IMPORT_FROM,
    JUMP_FORWARD,
    JUMP_IF_FALSE_OR_POP,
    JUMP_IF_TRUE_OR_POP,
    JUMP_ABSOLUTE,
    POP_JUMP_IF_FALSE,
    POP_JUMP_IF_TRUE,
    LOAD_GLOBAL,
    CONTINUE_LOOP,
    SETUP_LOOP,
    SETUP_EXCEPT,
    SETUP_FINALLY,
    LOAD_FAST,
    STORE_FAST,
    DELETE_FAST,
    RAISE_VARARGS,
    CALL_FUNCTION,
    MAKE_FUNCTION,
    BUILD_SLICE,
    MAKE_CLOSURE,
    LOAD_CLOSURE,
    LOAD_DEREF,
    STORE_DEREF,
    CALL_FUNCTION_VAR,
    CALL_FUNCTION_KW,
    CALL_FUNCTION_VAR_KW,
    SETUP_WITH,
    EXTENDED_ARG,
    SET_ADD,
    MAP_ADD,
}

/// The smallest byte value of an opcode that carries an argument.
pub const HAVE_ARGUMENT: u8 = 90;

impl Opcode {
    /// The byte value of this opcode in an instruction stream.
    pub open spec fn byte(self) -> u8 {
        match self {
            Opcode::STOP_CODE => 0,
            Opcode::POP_TOP => 1,
            Opcode::ROT_TWO => 2,
            Opcode::ROT_THREE => 3,
            Opcode::DUP_TOP => 4,
            Opcode::ROT_FOUR => 5,
            Opcode::NOP => 9,
            Opcode::UNARY_POSITIVE => 10,
            Opcode::UNARY_NEGATIVE => 11,
            Opcode::UNARY_NOT => 12,
            Opcode::UNARY_CONVERT => 13,
            Opcode::UNARY_INVERT => 15,
            Opcode::BINARY_POWER => 19,
            Opcode::BINARY_MULTIPLY => 20,
            Opcode::BINARY_DIVIDE => 21,
            Opcode::BINARY_MODULO => 22,
            Opcode::BINARY_ADD => 23,
            Opcode::BINARY_SUBTRACT => 24,
            Opcode::BINARY_SUBSC => 25,
            Opcode::BINARY_FLOOR_DIVIDE => 26,
            Opcode::BINARY_TRUE_DIVIDE => 27,
            Opcode::INPLACE_FLOOR_DIVIDE => 28,
            Opcode::INPLACE_TRUE_DIVIDE => 29,
            Opcode::SLICE_0 => 30,
            Opcode::SLICE_1 => 31,
            Opcode::SLICE_2 => 32,
            Opcode::SLICE_3 => 33,
            Opcode::STORE_SLICE_0 => 40,
            Opcode::STORE_SLICE_1 => 41,
            Opcode::STORE_SLICE_2 => 42,
            Opcode::STORE_SLICE_3 => 43,
            Opcode::DELETE_SLICE_0 => 50,
            Opcode::DELETE_SLICE_1 => 51,
            Opcode::DELETE_SLICE_2 => 52,
            Opcode::DELETE_SLICE_3 => 53,
            Opcode::STORE_MAP => 54,
            Opcode::INPLACE_ADD => 55,
            Opcode::INPLACE_SUBTRACT => 56,
            Opcode::INPLACE_MULTIPLY => 57,
            Opcode::INPLACE_DIVIDE => 58,
            Opcode::INPLACE_MODULO => 59,
            Opcode::STORE_SUBSCR => 60,
            Opcode::DELETE_SUBSCR => 61,
            Opcode::BINARY_LSHIFT => 62,
            Opcode::BINARY_RSHIFT => 63,
            Opcode::BINARY_AND => 64,
            Opcode::BINARY_XOR => 65,
            Opcode::BINARY_OR => 66,
            Opcode::INPLACE_POWER => 67,
            Opcode::GET_ITER => 68,
            Opcode::PRINT_EXPR => 70,
            Opcode::PRINT_ITEM => 71,
            Opcode::PRINT_NEWLINE => 72,
            Opcode::PRINT_ITEM_TO => 73,
            Opcode::PRINT_NEWLINE_TO => 74,
            Opcode::INPLACE_LSHIFT => 75,
            Opcode::INPLACE_RSHIFT => 76,
            Opcode::INPLACE_AND => 77,
            Opcode::INPLACE_XOR => 78,
            Opcode::INPLACE_OR => 79,
            Opcode::BREAK_LOOP => 80,
            Opcode::WITH_CLEANUP => 81,
            Opcode::LOAD_LOCALS => 82,
            Opcode::RETURN_VALUE => 83,
            Opcode::IMPORT_STAR => 84,
            Opcode::EXEC_STMT => 85,
            Opcode::YIELD_VALUE => 86,
            Opcode::POP_BLOCK => 87,
            Opcode::END_FINALLY => 88,
            Opcode::BUILD_CLASS => 89,
            Opcode::STORE_NAME => 90,
            Opcode::DELETE_NAME => 91,
            Opcode::UNPACK_SEQUENCE => 92,
            Opcode::FOR_ITER => 93,
            Opcode::LIST_APPEND => 94,
            Opcode::STORE_ATTR => 95,
            Opcode::DELETE_ATTR => 96,
            Opcode::STORE_GLOBAL => 97,
            Opcode::DELETE_GLOBAL => 98,
            Opcode::DUP_TOPX => 99,
            Opcode::LOAD_CONST => 100,
            Opcode::LOAD_NAME => 101,
            Opcode::BUILD_TUPLE => 102,
            Opcode::BUILD_LIST => 103,
            Opcode::BUILD_SET => 104,
            Opcode::BUILD_MAP => 105,
            Opcode::LOAD_ATTR => 106,
            Opcode::COMPARE_OP => 107,
            Opcode::IMPORT_NAME => 108,
            Opcode::IMPORT_FROM => 109,
            Opcode::JUMP_FORWARD => 110,
            Opcode::JUMP_IF_FALSE_OR_POP => 111,
            Opcode::JUMP_IF_TRUE_OR_POP => 112,
            Opcode::JUMP_ABSOLUTE => 113,
            Opcode::POP_JUMP_IF_FALSE => 114,
            Opcode::POP_JUMP_IF_TRUE => 115,
            Opcode::LOAD_GLOBAL => 116,
            Opcode::CONTINUE_LOOP => 119,
            Opcode::SETUP_LOOP => 120,
            Opcode::SETUP_EXCEPT => 121,
            Opcode::SETUP_FINALLY => 122,
            Opcode::LOAD_FAST => 124,
            Opcode::STORE_FAST => 125,
            Opcode::DELETE_FAST => 126,
            Opcode::RAISE_VARARGS => 130,
            Opcode::CALL_FUNCTION => 131,
            Opcode::MAKE_FUNCTION => 132,
            Opcode::BUILD_SLICE => 133,
            Opcode::MAKE_CLOSURE => 134,
            Opcode::LOAD_CLOSURE => 135,
            Opcode::LOAD_DEREF => 136,
            Opcode::STORE_DEREF => 137,
            Opcode::CALL_FUNCTION_VAR => 140,
            Opcode::CALL_FUNCTION_KW => 141,
            Opcode::CALL_FUNCTION_VAR_KW => 142,
            Opcode::SETUP_WITH => 143,
            Opcode::EXTENDED_ARG => 145,
            Opcode::SET_ADD => 146,
            Opcode::MAP_ADD => 147,
        }
    }

    /// The opcode with the given byte value, if the byte is a defined opcode.
    pub open spec fn of_byte(b: u8) -> Option<Opcode> {
        if b == 0 {
            Some(Opcode::STOP_CODE)
        } else if b == 1 {
            Some(Opcode::POP_TOP)
        } else if b == 2 {
            Some(Opcode::ROT_TWO)
        } else if b == 3 {
            Some(Opcode::ROT_THREE)
        } else if b == 4 {
            Some(Opcode::DUP_TOP)
        } else if b == 5 {
            Some(Opcode::ROT_FOUR)
        } else if b == 9 {
            Some(Opcode::NOP)
        } else if b == 10 {
            Some(Opcode::UNARY_POSITIVE)
        } else if b == 11 {
            Some(Opcode::UNARY_NEGATIVE)
        } else if b == 12 {
            Some(Opcode::UNARY_NOT)
        } else if b == 13 {
            Some(Opcode::UNARY_CONVERT)
        } else if b == 15 {
            Some(Opcode::UNARY_INVERT)
        } else if b == 19 {
            Some(Opcode::BINARY_POWER)
        } else if b == 20 {
            Some(Opcode::BINARY_MULTIPLY)
        } else if b == 21 {
            Some(Opcode::BINARY_DIVIDE)
        } else if b == 22 {
            Some(Opcode::BINARY_MODULO)
        } else if b == 23 {
            Some(Opcode::BINARY_ADD)
        } else if b == 24 {
            Some(Opcode::BINARY_SUBTRACT)
        } else if b == 25 {
            Some(Opcode::BINARY_SUBSC)
        } else if b == 26 {
            Some(Opcode::BINARY_FLOOR_DIVIDE)
        } else if b == 27 {
            Some(Opcode::BINARY_TRUE_DIVIDE)
        } else if b == 28 {
            Some(Opcode::INPLACE_FLOOR_DIVIDE)
        } else if b == 29 {
            Some(Opcode::INPLACE_TRUE_DIVIDE)
        } else if b == 30 {
            Some(Opcode::SLICE_0)
        } else if b == 31 {
            Some(Opcode::SLICE_1)
        } else if b == 32 {
            Some(Opcode::SLICE_2)
        } else if b == 33 {
            Some(Opcode::SLICE_3)
        } else if b == 40 {
            Some(Opcode::STORE_SLICE_0)
        } else if b == 41 {
            Some(Opcode::STORE_SLICE_1)
        } else if b == 42 {
            Some(Opcode::STORE_SLICE_2)
        } else if b == 43 {
            Some(Opcode::STORE_SLICE_3)
        } else if b == 50 {
            Some(Opcode::DELETE_SLICE_0)
        } else if b == 51 {
            Some(Opcode::DELETE_SLICE_1)
        } else if b == 52 {
            Some(Opcode::DELETE_SLICE_2)
        } else if b == 53 {
            Some(Opcode::DELETE_SLICE_3)
        } else if b == 54 {
            Some(Opcode::STORE_MAP)
        } else if b == 55 {
            Some(Opcode::INPLACE_ADD)
        } else if b == 56 {
            Some(Opcode::INPLACE_SUBTRACT)
        } else if b == 57 {
            Some(Opcode::INPLACE_MULTIPLY)
        } else if b == 58 {
            Some(Opcode::INPLACE_DIVIDE)
        } else if b == 59 {
            Some(Opcode::INPLACE_MODULO)
        } else if b == 60 {
            Some(Opcode::STORE_SUBSCR)
        } else if b == 61 {
            Some(Opcode::DELETE_SUBSCR)
        } else if b == 62 {
            Some(Opcode::BINARY_LSHIFT)
        } else if b == 63 {
            Some(Opcode::BINARY_RSHIFT)
        } else if b == 64 {
            Some(Opcode::BINARY_AND)
        } else if b == 65 {
            Some(Opcode::BINARY_XOR)
        } else if b == 66 {
            Some(Opcode::BINARY_OR)
        } else if b == 67 {
            Some(Opcode::INPLACE_POWER)
        } else if b == 68 {
            Some(Opcode::GET_ITER)
        } else if b == 70 {
            Some(Opcode::PRINT_EXPR)
        } else if b == 71 {
            Some(Opcode::PRINT_ITEM)
        } else if b == 72 {
            Some(Opcode::PRINT_NEWLINE)
        } else if b == 73 {
            Some(Opcode::PRINT_ITEM_TO)
        } else if b == 74 {
            Some(Opcode::PRINT_NEWLINE_TO)
        } else if b == 75 {
            Some(Opcode::INPLACE_LSHIFT)
        } else if b == 76 {
            Some(Opcode::INPLACE_RSHIFT)
        } else if b == 77 {
            Some(Opcode::INPLACE_AND)
        } else if b == 78 {
            Some(Opcode::INPLACE_XOR)
        } else if b == 79 {
            Some(Opcode::INPLACE_OR)
        } else if b == 80 {
            Some(Opcode::BREAK_LOOP)
        } else if b == 81 {
            Some(Opcode::WITH_CLEANUP)
        } else if b == 82 {
            Some(Opcode::LOAD_LOCALS)
        } else if b == 83 {
            Some(Opcode::RETURN_VALUE)
        } else if b == 84 {
            Some(Opcode::IMPORT_STAR)
        } else if b == 85 {
            Some(Opcode::EXEC_STMT)
        } else if b == 86 {
            Some(Opcode::YIELD_VALUE)
        } else if b == 87 {
            Some(Opcode::POP_BLOCK)
        } else if b == 88 {
            Some(Opcode::END_FINALLY)
        } else if b == 89 {
            Some(Opcode::BUILD_CLASS)
        } else if b == 90 {
            Some(Opcode::STORE_NAME)
        } else if b == 91 {
            Some(Opcode::DELETE_NAME)
        } else if b == 92 {
            Some(Opcode::UNPACK_SEQUENCE)
        } else if b == 93 {
            Some(Opcode::FOR_ITER)
        } else if b == 94 {
            Some(Opcode::LIST_APPEND)
        } else if b == 95 {
            Some(Opcode::STORE_ATTR)
        } else if b == 96 {
            Some(Opcode::DELETE_ATTR)
        } else if b == 97 {
            Some(Opcode::STORE_GLOBAL)
        } else if b == 98 {
            Some(Opcode::DELETE_GLOBAL)
        } else if b == 99 {
            Some(Opcode::DUP_TOPX)
        } else if b == 100 {
            Some(Opcode::LOAD_CONST)
        } else if b == 101 {
            Some(Opcode::LOAD_NAME)
        } else if b == 102 {
            Some(Opcode::BUILD_TUPLE)
        } else if b == 103 {
            Some(Opcode::BUILD_LIST)
        } else if b == 104 {
            Some(Opcode::BUILD_SET)
        } else if b == 105 {
            Some(Opcode::BUILD_MAP)
        } else if b == 106 {
            Some(Opcode::LOAD_ATTR)
        } else if b == 107 {
            Some(Opcode::COMPARE_OP)
        } else if b == 108 {
            Some(Opcode::IMPORT_NAME)
        } else if b == 109 {
            Some(Opcode::IMPORT_FROM)
        } else if b == 110 {
            Some(Opcode::JUMP_FORWARD)
        } else if b == 111 {
            Some(Opcode::JUMP_IF_FALSE_OR_POP)
        } else if b == 112 {
            Some(Opcode::JUMP_IF_TRUE_OR_POP)
        } else if b == 113 {
            Some(Opcode::JUMP_ABSOLUTE)
        } else if b == 114 {
            Some(Opcode::POP_JUMP_IF_FALSE)
        } else if b == 115 {
            Some(Opcode::POP_JUMP_IF_TRUE)
        } else if b == 116 {
            Some(Opcode::LOAD_GLOBAL)
        } else if b == 119 {
            Some(Opcode::CONTINUE_LOOP)
        } else if b == 120 {
            Some(Opcode::SETUP_LOOP)
        } else if b == 121 {
            Some(Opcode::SETUP_EXCEPT)
        } else if b == 122 {
            Some(Opcode::SETUP_FINALLY)
        } else if b == 124 {
            Some(Opcode::LOAD_FAST)
        } else if b == 125 {
            Some(Opcode::STORE_FAST)
        } else if b == 126 {
            Some(Opcode::DELETE_FAST)
        } else if b == 130 {
            Some(Opcode::RAISE_VARARGS)
        } else if b == 131 {
            Some(Opcode::CALL_FUNCTION)
        } else if b == 132 {
            Some(Opcode::MAKE_FUNCTION)
        } else if b == 133 {
            Some(Opcode::BUILD_SLICE)
        } else if b == 134 {
            Some(Opcode::MAKE_CLOSURE)
        } else if b == 135 {
            Some(Opcode::LOAD_CLOSURE)
        } else if b == 136 {
            Some(Opcode::LOAD_DEREF)
        } else if b == 137 {
            Some(Opcode::STORE_DEREF)
        } else if b == 140 {
            Some(Opcode::CALL_FUNCTION_VAR)
        } else if b == 141 {
            Some(Opcode::CALL_FUNCTION_KW)
        } else if b == 142 {
            Some(Opcode::CALL_FUNCTION_VAR_KW)
        } else if b == 143 {
            Some(Opcode::SETUP_WITH)
        } else if b == 145 {
            Some(Opcode::EXTENDED_ARG)
        } else if b == 146 {
            Some(Opcode::SET_ADD)
        } else if b == 147 {
            Some(Opcode::MAP_ADD)
        } else {
            None
        }
    }

    /// Returns the byte value of this opcode.
    pub fn to_u8(self) -> (b: u8)
        ensures
            b == self.byte(),
    {
        match self {
            Opcode::STOP_CODE => 0,
            Opcode::POP_TOP => 1,
            Opcode::ROT_TWO => 2,
            Opcode::ROT_THREE => 3,
            Opcode::DUP_TOP => 4,
            Opcode::ROT_FOUR => 5,
            Opcode::NOP => 9,
            Opcode::UNARY_POSITIVE => 10,
            Opcode::UNARY_NEGATIVE => 11,
            Opcode::UNARY_NOT => 12,
            Opcode::UNARY_CONVERT => 13,
            Opcode::UNARY_INVERT => 15,
            Opcode::BINARY_POWER => 19,
            Opcode::BINARY_MULTIPLY => 20,
            Opcode::BINARY_DIVIDE => 21,
            Opcode::BINARY_MODULO => 22,
            Opcode::BINARY_ADD => 23,
            Opcode::BINARY_SUBTRACT => 24,
            Opcode::BINARY_SUBSC => 25,
            Opcode::BINARY_FLOOR_DIVIDE => 26,
            Opcode::BINARY_TRUE_DIVIDE => 27,
            Opcode::INPLACE_FLOOR_DIVIDE => 28,
            Opcode::INPLACE_TRUE_DIVIDE => 29,
            Opcode::SLICE_0 => 30,
            Opcode::SLICE_1 => 31,
            Opcode::SLICE_2 => 32,
            Opcode::SLICE_3 => 33,
            Opcode::STORE_SLICE_0 => 40,
            Opcode::STORE_SLICE_1 => 41,
            Opcode::STORE_SLICE_2 => 42,
            Opcode::STORE_SLICE_3 => 43,
            Opcode::DELETE_SLICE_0 => 50,
            Opcode::DELETE_SLICE_1 => 51,
            Opcode::DELETE_SLICE_2 => 52,
            Opcode::DELETE_SLICE_3 => 53,
            Opcode::STORE_MAP => 54,
            Opcode::INPLACE_ADD => 55,
            Opcode::INPLACE_SUBTRACT => 56,
            Opcode::INPLACE_MULTIPLY => 57,
            Opcode::INPLACE_DIVIDE => 58,
            Opcode::INPLACE_MODULO => 59,
            Opcode::STORE_SUBSCR => 60,
            Opcode::DELETE_SUBSCR => 61,
            Opcode::BINARY_LSHIFT => 62,
            Opcode::BINARY_RSHIFT => 63,
            Opcode::BINARY_AND => 64,
            Opcode::BINARY_XOR => 65,
            Opcode::BINARY_OR => 66,
            Opcode::INPLACE_POWER => 67,
            Opcode::GET_ITER => 68,
            Opcode::PRINT_EXPR => 70,
            Opcode::PRINT_ITEM => 71,
            Opcode::PRINT_NEWLINE => 72,
            Opcode::PRINT_ITEM_TO => 73,
            Opcode::PRINT_NEWLINE_TO => 74,
            Opcode::INPLACE_LSHIFT => 75,
            Opcode::INPLACE_RSHIFT => 76,
            Opcode::INPLACE_AND => 77,
            Opcode::INPLACE_XOR => 78,
            Opcode::INPLACE_OR => 79,
            Opcode::BREAK_LOOP => 80,
            Opcode::WITH_CLEANUP => 81,
            Opcode::LOAD_LOCALS => 82,
            Opcode::RETURN_VALUE => 83,
            Opcode::IMPORT_STAR => 84,
            Opcode::EXEC_STMT => 85,
            Opcode::YIELD_VALUE => 86,
            Opcode::POP_BLOCK => 87,
            Opcode::END_FINALLY => 88,
            Opcode::BUILD_CLASS => 89,
            Opcode::STORE_NAME => 90,
            Opcode::DELETE_NAME => 91,
            Opcode::UNPACK_SEQUENCE => 92,
            Opcode::FOR_ITER => 93,
            Opcode::LIST_APPEND => 94,
            Opcode::STORE_ATTR => 95,
            Opcode::DELETE_ATTR => 96,
            Opcode::STORE_GLOBAL => 97,
            Opcode::DELETE_GLOBAL => 98,
            Opcode::DUP_TOPX => 99,
            Opcode::LOAD_CONST => 100,
            Opcode::LOAD_NAME => 101,
            Opcode::BUILD_TUPLE => 102,
            Opcode::BUILD_LIST => 103,
            Opcode::BUILD_SET => 104,
            Opcode::BUILD_MAP => 105,
            Opcode::LOAD_ATTR => 106,
            Opcode::COMPARE_OP => 107,
            Opcode::IMPORT_NAME => 108,
            Opcode::IMPORT_FROM => 109,
            Opcode::JUMP_FORWARD => 110,
            Opcode::JUMP_IF_FALSE_OR_POP => 111,
            Opcode::JUMP_IF_TRUE_OR_POP => 112,
            Opcode::JUMP_ABSOLUTE => 113,
            Opcode::POP_JUMP_IF_FALSE => 114,
            Opcode::POP_JUMP_IF_TRUE => 115,
            Opcode::LOAD_GLOBAL => 116,
            Opcode::CONTINUE_LOOP => 119,
            Opcode::SETUP_LOOP => 120,
            Opcode::SETUP_EXCEPT => 121,
            Opcode::SETUP_FINALLY => 122,
            Opcode::LOAD_FAST => 124,
            Opcode::STORE_FAST => 125,
            Opcode::DELETE_FAST => 126,
            Opcode::RAISE_VARARGS => 130,
            Opcode::CALL_FUNCTION => 131,
            Opcode::MAKE_FUNCTION => 132,
            Opcode::BUILD_SLICE => 133,
            Opcode::MAKE_CLOSURE => 134,
            Opcode::LOAD_CLOSURE => 135,
            Opcode::LOAD_DEREF => 136,
            Opcode::STORE_DEREF => 137,
            Opcode::CALL_FUNCTION_VAR => 140,
            Opcode::CALL_FUNCTION_KW => 141,
            Opcode::CALL_FUNCTION_VAR_KW => 142,
            Opcode::SETUP_WITH => 143,
            Opcode::EXTENDED_ARG => 145,
            Opcode::SET_ADD => 146,
            Opcode::MAP_ADD => 147,
        }
    }

    /// Returns the opcode with byte value `b`, or `None` when `b` is not a
    /// defined opcode.
    pub fn from_u8(b: u8) -> (op: Option<Opcode>)
        ensures
            op == Opcode::of_byte(b),
    {
        if b == 0 {
            Some(Opcode::STOP_CODE)
        } else if b == 1 {
            Some(Opcode::POP_TOP)
        } else if b == 2 {
            Some(Opcode::ROT_TWO)
        } else if b == 3 {
            Some(Opcode::ROT_THREE)
        } else if b == 4 {
            Some(Opcode::DUP_TOP)
        } else if b == 5 {
            Some(Opcode::ROT_FOUR)
        } else if b == 9 {
            Some(Opcode::NOP)
        } else if b == 10 {
            Some(Opcode::UNARY_POSITIVE)
        } else if b == 11 {
            Some(Opcode::UNARY_NEGATIVE)
        } else if b == 12 {
            Some(Opcode::UNARY_NOT)
        } else if b == 13 {
            Some(Opcode::UNARY_CONVERT)
        } else if b == 15 {
            Some(Opcode::UNARY_INVERT)
        } else if b == 19 {
            Some(Opcode::BINARY_POWER)
        } else if b == 20 {
            Some(Opcode::BINARY_MULTIPLY)
        } else if b == 21 {
            Some(Opcode::BINARY_DIVIDE)
        } else if b == 22 {
            Some(Opcode::BINARY_MODULO)
        } else if b == 23 {
            Some(Opcode::BINARY_ADD)
        } else if b == 24 {
            Some(Opcode::BINARY_SUBTRACT)
        } else if b == 25 {
            Some(Opcode::BINARY_SUBSC)
        } else if b == 26 {
            Some(Opcode::BINARY_FLOOR_DIVIDE)
        } else if b == 27 {
            Some(Opcode::BINARY_TRUE_DIVIDE)
        } else if b == 28 {
            Some(Opcode::INPLACE_FLOOR_DIVIDE)
        } else if b == 29 {
            Some(Opcode::INPLACE_TRUE_DIVIDE)
        } else if b == 30 {
            Some(Opcode::SLICE_0)
        } else if b == 31 {
            Some(Opcode::SLICE_1)
        } else if b == 32 {
            Some(Opcode::SLICE_2)
        } else if b == 33 {
            Some(Opcode::SLICE_3)
        } else if b == 40 {
            Some(Opcode::STORE_SLICE_0)
        } else if b == 41 {
            Some(Opcode::STORE_SLICE_1)
        } else if b == 42 {
            Some(Opcode::STORE_SLICE_2)
        } else if b == 43 {
            Some(Opcode::STORE_SLICE_3)
        } else if b == 50 {
            Some(Opcode::DELETE_SLICE_0)
        } else if b == 51 {
            Some(Opcode::DELETE_SLICE_1)
        } else if b == 52 {
            Some(Opcode::DELETE_SLICE_2)
        } else if b == 53 {
            Some(Opcode::DELETE_SLICE_3)
        } else if b == 54 {
            Some(Opcode::STORE_MAP)
        } else if b == 55 {
            Some(Opcode::INPLACE_ADD)
        } else if b == 56 {
            Some(Opcode::INPLACE_SUBTRACT)
        } else if b == 57 {
            Some(Opcode::INPLACE_MULTIPLY)
        } else if b == 58 {
            Some(Opcode::INPLACE_DIVIDE)
        } else if b == 59 {
            Some(Opcode::INPLACE_MODULO)
        } else if b == 60 {
            Some(Opcode::STORE_SUBSCR)
        } else if b == 61 {
            Some(Opcode::DELETE_SUBSCR)
        } else if b == 62 {
            Some(Opcode::BINARY_LSHIFT)
        } else if b == 63 {
            Some(Opcode::BINARY_RSHIFT)
        } else if b == 64 {
            Some(Opcode::BINARY_AND)
        } else if b == 65 {
            Some(Opcode::BINARY_XOR)
        } else if b == 66 {
            Some(Opcode::BINARY_OR)
        } else if b == 67 {
            Some(Opcode::INPLACE_POWER)
        } else if b == 68 {
            Some(Opcode::GET_ITER)
        } else if b == 70 {
            Some(Opcode::PRINT_EXPR)
        } else if b == 71 {
            Some(Opcode::PRINT_ITEM)
        } else if b == 72 {
            Some(Opcode::PRINT_NEWLINE)
        } else if b == 73 {
            Some(Opcode::PRINT_ITEM_TO)
        } else if b == 74 {
            Some(Opcode::PRINT_NEWLINE_TO)
        } else if b == 75 {
            Some(Opcode::INPLACE_LSHIFT)
        } else if b == 76 {
            Some(Opcode::INPLACE_RSHIFT)
        } else if b == 77 {
            Some(Opcode::INPLACE_AND)
        } else if b == 78 {
            Some(Opcode::INPLACE_XOR)
        } else if b == 79 {
            Some(Opcode::INPLACE_OR)
        } else if b == 80 {
            Some(Opcode::BREAK_LOOP)
        } else if b == 81 {
            Some(Opcode::WITH_CLEANUP)
        } else if b == 82 {
            Some(Opcode::LOAD_LOCALS)
        } else if b == 83 {
            Some(Opcode::RETURN_VALUE)
        } else if b == 84 {
            Some(Opcode::IMPORT_STAR)
        } else if b == 85 {
            Some(Opcode::EXEC_STMT)
        } else if b == 86 {
            Some(Opcode::YIELD_VALUE)
        } else if b == 87 {
            Some(Opcode::POP_BLOCK)
        } else if b == 88 {
            Some(Opcode::END_FINALLY)
        } else if b == 89 {
            Some(Opcode::BUILD_CLASS)
        } else if b == 90 {
            Some(Opcode::STORE_NAME)
        } else if b == 91 {
            Some(Opcode::DELETE_NAME)
        } else if b == 92 {
            Some(Opcode::UNPACK_SEQUENCE)
        } else if b == 93 {
            Some(Opcode::FOR_ITER)
        } else if b == 94 {
            Some(Opcode::LIST_APPEND)
        } else if b == 95 {
            Some(Opcode::STORE_ATTR)
        } else if b == 96 {
            Some(Opcode::DELETE_ATTR)
        } else if b == 97 {
            Some(Opcode::STORE_GLOBAL)
        } else if b == 98 {
            Some(Opcode::DELETE_GLOBAL)
        } else if b == 99 {
            Some(Opcode::DUP_TOPX)
        } else if b == 100 {
            Some(Opcode::LOAD_CONST)
        } else if b == 101 {
            Some(Opcode::LOAD_NAME)
        } else if b == 102 {
            Some(Opcode::BUILD_TUPLE)
        } else if b == 103 {
            Some(Opcode::BUILD_LIST)
        } else if b == 104 {
            Some(Opcode::BUILD_SET)
        } else if b == 105 {
            Some(Opcode::BUILD_MAP)
        } else if b == 106 {
            Some(Opcode::LOAD_ATTR)
        } else if b == 107 {
            Some(Opcode::COMPARE_OP)
        } else if b == 108 {
            Some(Opcode::IMPORT_NAME)
        } else if b == 109 {
            Some(Opcode::IMPORT_FROM)
        } else if b == 110 {
            Some(Opcode::JUMP_FORWARD)
        } else if b == 111 {
            Some(Opcode::JUMP_IF_FALSE_OR_POP)
        } else if b == 112 {
            Some(Opcode::JUMP_IF_TRUE_OR_POP)
        } else if b == 113 {
            Some(Opcode::JUMP_ABSOLUTE)
        } else if b == 114 {
            Some(Opcode::POP_JUMP_IF_FALSE)
        } else if b == 115 {
            Some(Opcode::POP_JUMP_IF_TRUE)
        } else if b == 116 {
            Some(Opcode::LOAD_GLOBAL)
        } else if b == 119 {
            Some(Opcode::CONTINUE_LOOP)
        } else if b == 120 {
            Some(Opcode::SETUP_LOOP)
        } else if b == 121 {
            Some(Opcode::SETUP_EXCEPT)
        } else if b == 122 {
            Some(Opcode::SETUP_FINALLY)
        } else if b == 124 {
            Some(Opcode::LOAD_FAST)
        } else if b == 125 {
            Some(Opcode::STORE_FAST)
        } else if b == 126 {
            Some(Opcode::DELETE_FAST)
        } else if b == 130 {
            Some(Opcode::RAISE_VARARGS)
        } else if b == 131 {
            Some(Opcode::CALL_FUNCTION)
        } else if b == 132 {
            Some(Opcode::MAKE_FUNCTION)
        } else if b == 133 {
            Some(Opcode::BUILD_SLICE)
        } else if b == 134 {
            Some(Opcode::MAKE_CLOSURE)
        } else if b == 135 {
            Some(Opcode::LOAD_CLOSURE)
        } else if b == 136 {
            Some(Opcode::LOAD_DEREF)
        } else if b == 137 {
            Some(Opcode::STORE_DEREF)
        } else if b == 140 {
            Some(Opcode::CALL_FUNCTION_VAR)
        } else if b == 141 {
            Some(Opcode::CALL_FUNCTION_KW)
        } else if b == 142 {
            Some(Opcode::CALL_FUNCTION_VAR_KW)
        } else if b == 143 {
            Some(Opcode::SETUP_WITH)
        } else if b == 145 {
            Some(Opcode::EXTENDED_ARG)
        } else if b == 146 {
            Some(Opcode::SET_ADD)
        } else if b == 147 {
            Some(Opcode::MAP_ADD)
        } else {
            None
        }
    }

    /// Whether a byte is the value of some opcode, stated by the contiguous
    /// ranges of byte values that the instruction set defines.
    pub open spec fn defined_byte(b: u8) -> bool {
        ||| b <= 5
        ||| 9 <= b <= 13
        ||| b == 15
        ||| 19 <= b <= 33
        ||| 40 <= b <= 43
        ||| 50 <= b <= 68
        ||| 70 <= b <= 116
        ||| 119 <= b <= 122
        ||| 124 <= b <= 126
        ||| 130 <= b <= 137
        ||| 140 <= b <= 143
        ||| 145 <= b <= 147
    }

    /// Whether this opcode is followed by a 16-bit argument.
    pub open spec fn has_arg_spec(&self) -> bool {
        self.byte() >= HAVE_ARGUMENT
    }

    /// Whether this opcode's argument is an offset relative to the end of
    /// the instruction.
    pub open spec fn is_relative_jump_spec(&self) -> bool {
        matches!(
            *self,
            Opcode::FOR_ITER
                | Opcode::JUMP_FORWARD
                | Opcode::SETUP_LOOP
                | Opcode::SETUP_EXCEPT
                | Opcode::SETUP_FINALLY
                | Opcode::SETUP_WITH
        )
    }

    /// Whether this opcode's argument is an offset from the start of the
    /// bytecode.
    pub open spec fn is_absolute_jump_spec(&self) -> bool {
        matches!(
            *self,
            Opcode::JUMP_IF_FALSE_OR_POP
                | Opcode::JUMP_IF_TRUE_OR_POP
                | Opcode::JUMP_ABSOLUTE
                | Opcode::POP_JUMP_IF_FALSE
                | Opcode::POP_JUMP_IF_TRUE
                | Opcode::CONTINUE_LOOP
        )
    }

    /// Whether this opcode may transfer control to its argument.
    pub open spec fn is_jump_spec(&self) -> bool {
        self.is_relative_jump_spec() || self.is_absolute_jump_spec()
    }

    /// Whether this opcode jumps depending on the value on top of the stack.
    pub open spec fn is_conditional_jump_spec(&self) -> bool {
        matches!(
            *self,
            Opcode::JUMP_IF_FALSE_OR_POP
                | Opcode::JUMP_IF_TRUE_OR_POP
                | Opcode::POP_JUMP_IF_FALSE
                | Opcode::POP_JUMP_IF_TRUE
        )
    }

    /// Whether this opcode always transfers control to its argument.
    pub open spec fn is_unconditional_jump_spec(&self) -> bool {
        matches!(*self, Opcode::JUMP_ABSOLUTE | Opcode::JUMP_FORWARD)
    }

    /// Whether a conditional jump is taken when the tested value is true.
    pub open spec fn jumps_if_true_spec(&self) -> bool {
        matches!(*self, Opcode::JUMP_IF_TRUE_OR_POP | Opcode::POP_JUMP_IF_TRUE)
    }

    /// Whether control never continues past this opcode.
    pub open spec fn is_terminator_spec(&self) -> bool {
        matches!(*self, Opcode::RETURN_VALUE | Opcode::RAISE_VARARGS)
    }

    /// Whether this opcode is followed by a 16-bit argument.
    #[verifier::when_used_as_spec(has_arg_spec)]
    pub fn has_arg(&self) -> (r: bool)
        ensures
            r == self.has_arg_spec(),
    {
        self.to_u8() >= HAVE_ARGUMENT
    }

    /// Whether this opcode's argument is an offset relative to the end of
    /// the instruction.
    #[verifier::when_used_as_spec(is_relative_jump_spec)]
    pub fn is_relative_jump(&self) -> (r: bool)
        ensures
            r == self.is_relative_jump_spec(),
    {
        matches!(
            *self,
            Opcode::FOR_ITER
                | Opcode::JUMP_FORWARD
                | Opcode::SETUP_LOOP
                | Opcode::SETUP_EXCEPT
                | Opcode::SETUP_FINALLY
                | Opcode::SETUP_WITH
        )
    }

    /// Whether this opcode's argument is an offset from the start of the
    /// bytecode.
    #[verifier::when_used_as_spec(is_absolute_jump_spec)]
    pub fn is_absolute_jump(&self) -> (r: bool)
        ensures
            r == self.is_absolute_jump_spec(),
    {
        matches!(
            *self,
            Opcode::JUMP_IF_FALSE_OR_POP
                | Opcode::JUMP_IF_TRUE_OR_POP
                | Opcode::JUMP_ABSOLUTE
                | Opcode::POP_JUMP_IF_FALSE
                | Opcode::POP_JUMP_IF_TRUE
                | Opcode::CONTINUE_LOOP
        )
    }

    /// Whether this opcode may transfer control to its argument.
    #[verifier::when_used_as_spec(is_jump_spec)]
    pub fn is_jump(&self) -> (r: bool)
        ensures
            r == self.is_jump_spec(),
    {
        self.is_relative_jump() || self.is_absolute_jump()
    }

    /// Whether this opcode jumps depending on the value on top of the stack.
    #[verifier::when_used_as_spec(is_conditional_jump_spec)]
    pub fn is_conditional_jump(&self) -> (r: bool)
        ensures
            r == self.is_conditional_jump_spec(),
    {
        matches!(
            *self,
            Opcode::JUMP_IF_FALSE_OR_POP
                | Opcode::JUMP_IF_TRUE_OR_POP
                | Opcode::POP_JUMP_IF_FALSE
                | Opcode::POP_JUMP_IF_TRUE
        )
    }

    /// Whether this opcode always transfers control to its argument.
    #[verifier::when_used_as_spec(is_unconditional_jump_spec)]
    pub fn is_unconditional_jump(&self) -> (r: bool)
        ensures
            r == self.is_unconditional_jump_spec(),
    {
        matches!(*self, Opcode::JUMP_ABSOLUTE | Opcode::JUMP_FORWARD)
    }

    /// Whether a conditional jump is taken when the tested value is true.
    #[verifier::when_used_as_spec(jumps_if_true_spec)]
    pub fn jumps_if_true(&self) -> (r: bool)
        ensures
            r == self.jumps_if_true_spec(),
    {
        matches!(*self, Opcode::JUMP_IF_TRUE_OR_POP | Opcode::POP_JUMP_IF_TRUE)
    }

    /// Whether control never continues past this opcode.
    #[verifier::when_used_as_spec(is_terminator_spec)]
    pub fn is_terminator(&self) -> (r: bool)
        ensures
            r == self.is_terminator_spec(),
    {
        matches!(*self, Opcode::RETURN_VALUE | Opcode::RAISE_VARARGS)
    }

    /// Converting an opcode to its byte and back yields the same opcode.
    pub proof fn lemma_byte_round_trip(self)
        ensures
            Opcode::of_byte(self.byte()) == Some(self),
            Opcode::defined_byte(self.byte()),
    {
    }

    /// A byte is a defined opcode exactly when some opcode has that byte
    /// value, and that opcode is unique.
    pub proof fn lemma_of_byte(b: u8)
        ensures
            Opcode::defined_byte(b) <==> Opcode::of_byte(b) is Some,
            Opcode::of_byte(b) matches Some(op) ==> op.byte() == b,
    {
    }

    /// Every jump opcode carries an argument, and the conditional and
    /// unconditional jumps are absolute or relative jumps.
    pub proof fn lemma_jumps_have_args(self)
        ensures
            self.is_jump_spec() ==> self.has_arg_spec(),
            self.is_conditional_jump_spec() ==> self.is_absolute_jump_spec(),
            self.is_unconditional_jump_spec() ==> self.is_jump_spec(),
            self.is_terminator_spec() ==> !self.is_jump_spec(),
    {
    }
}

} // verus!

//! The errors that deobfuscation reports.

use vstd::prelude::*;
use crate::instruction::{DecodeError, Instruction};
use crate::object::ObjType;
use crate::opcode::Opcode;

verus! {

/// Why the interpreter refused to execute an instruction.
#[derive(Clone, Copy, Debug, PartialEq, Eq, Structural)]
pub enum ExecutionError {
    /// The instruction met operands that it is not defined on; the kind of
    /// the offending operand is given where there is one.
    ComplexExpression(Instruction, Option<ObjType>),
    /// The interpreter does not model this opcode.
    UnsupportedOpcode(Opcode),
}

/// Why a code object could not be processed.
#[derive(Clone, Copy, Debug, PartialEq, Eq)]
pub enum Error {
    /// A constant had an unexpected kind; the first field names the place
    /// that met it.
    ObjectError(&'static str, ObjType),
    /// Bytecode that had to be read could not be decoded.
    DisassemblerError(DecodeError),
    /// The interpreter refused an instruction.
    Execution(ExecutionError),
    /// A walk over the bytecode took more steps than its limit allows.
    StepLimitReached,
    /// The bytecode to write is too long for the target of a jump to be
    /// encoded, or a relative jump would have to go backwards.
    JumpOutOfRange,
}

} // verus!

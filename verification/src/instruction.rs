//! Instructions and their byte encoding: decoding one instruction at an
//! offset of a byte stream, and serialising instructions back to bytes.

use vstd::prelude::*;
use crate::opcode::Opcode;

verus! {

/// An opcode together with its optional 16-bit argument.
#[derive(Clone, Copy, Debug, PartialEq, Eq, Structural)]
pub struct Instruction {
    pub opcode: Opcode,
    pub arg: Option<u16>,
}

/// Why no instruction could be decoded at an offset.
#[derive(Clone, Copy, Debug, PartialEq, Eq, Structural)]
pub enum DecodeError {
    /// The byte at the offset is not a defined opcode.
    UnknownOpcode(u8),
    /// The stream ends before the opcode or before its argument.
    TruncatedInput,
}

/// The 16-bit value whose little-endian bytes are `lo`, `hi`.
pub open spec fn le_u16(lo: u8, hi: u8) -> u16 {
    (lo as int + 256 * (hi as int)) as u16
}

impl Instruction {
    /// An instruction is well formed when it carries an argument exactly if
    /// its opcode takes one.
    pub open spec fn wf(self) -> bool {
        self.arg is Some <==> self.opcode.has_arg_spec()
    }

    /// The number of bytes this instruction occupies: one for the opcode and
    /// two more for an argument.
    pub open spec fn size(self) -> nat {
        if self.arg is Some {
            3
        } else {
            1
        }
    }

    /// The bytes of this instruction: the opcode byte, followed by the
    /// argument in little-endian order when there is one.
    pub open spec fn encoding(self) -> Seq<u8> {
        match self.arg {
            Some(a) => seq![self.opcode.byte(), (a % 256) as u8, (a / 256) as u8],
            None => seq![self.opcode.byte()],
        }
    }

    /// Builds an instruction from an opcode and an optional argument.
    pub fn new(opcode: Opcode, arg: Option<u16>) -> (i: Instruction)
        ensures
            i == (Instruction { opcode, arg }),
    {
        Instruction { opcode, arg }
    }

    /// Returns the number of bytes this instruction occupies.
    pub fn len(&self) -> (n: usize)
        ensures
            n == self.size(),
            n == self.encoding().len(),
    {
        if self.arg.is_some() {
            3
        } else {
            1
        }
    }

    /// Appends the encoding of this instruction to `out`.
    pub fn serialize(&self, out: &mut Vec<u8>)
        ensures
            final(out)@ == old(out)@ + self.encoding(),
    {
        out.push(self.opcode.to_u8());
        if let Some(a) = self.arg {
            out.push((a % 256) as u8);
            out.push((a / 256) as u8);
        }
        assert(out@ =~= old(out)@ + self.encoding());
    }
}

/// What the byte-level decoder yields at `offset`: the opcode byte and the
/// argument read after it, or the reason why nothing could be read.
pub open spec fn raw_decode(bytes: Seq<u8>, offset: int) -> Result<(u8, Option<u16>), DecodeError> {
    if offset < 0 || offset >= bytes.len() {
        Err(DecodeError::TruncatedInput)
    } else if !Opcode::defined_byte(bytes[offset]) {
        Err(DecodeError::UnknownOpcode(bytes[offset]))
    } else if bytes[offset] < crate::opcode::HAVE_ARGUMENT {
        Ok((bytes[offset], None))
    } else if offset + 2 >= bytes.len() {
        Err(DecodeError::TruncatedInput)
    } else {
        Ok((bytes[offset], Some(le_u16(bytes[offset + 1], bytes[offset + 2]))))
    }
}

/// The instruction that starts at `offset` of `bytes`.
pub open spec fn decode_spec(bytes: Seq<u8>, offset: int) -> Result<Instruction, DecodeError> {
    if offset < 0 || offset >= bytes.len() {
        Err(DecodeError::TruncatedInput)
    } else {
        match Opcode::of_byte(bytes[offset]) {
            None => Err(DecodeError::UnknownOpcode(bytes[offset])),
            Some(opcode) => if !opcode.has_arg_spec() {
                Ok(Instruction { opcode, arg: None })
            } else if offset + 2 >= bytes.len() {
                Err(DecodeError::TruncatedInput)
            } else {
                Ok(Instruction { opcode, arg: Some(le_u16(bytes[offset + 1], bytes[offset + 2])) })
            },
        }
    }
}

/// Calls `pydis::decode_py27` for the standard opcode set on a cursor placed
/// at `offset` of `bytes`.
///
/// Trusted: the function reads one byte and fails with an I/O error when none
/// is left; it rejects a byte that is no variant of `Standard` with
/// `UnknownOpcode`; for a variant of value 90 or more it reads two further
/// bytes as a little-endian `u16`, failing with an I/O error when fewer than
/// two are left. The variants of `Standard` are exactly the bytes of
/// [`Opcode::defined_byte`].
#[verifier::external_body]
fn pydis_decode(bytes: &[u8], offset: usize) -> (r: Result<(u8, Option<u16>), DecodeError>)
    ensures
        r == raw_decode(bytes@, offset as int),
{
    let mut reader = std::io::Cursor::new(bytes);
    reader.set_position(offset as u64);
    match pydis::decode_py27::<pydis::opcode::py27::Standard, _>(&mut reader) {
        Ok(instr) => Ok((instr.opcode as u8, instr.arg)),
        Err(pydis::error::DecodeError::UnknownOpcode(b)) => Err(DecodeError::UnknownOpcode(b)),
        Err(_) => Err(DecodeError::TruncatedInput),
    }
}

/// Decodes the instruction that starts at `offset` of `bytes`.
pub fn decode(bytes: &[u8], offset: usize) -> (r: Result<Instruction, DecodeError>)
    ensures
        r == decode_spec(bytes@, offset as int),
        r matches Ok(i) ==> i.wf() && offset + i.size() <= bytes@.len(),
{
    match pydis_decode(bytes, offset) {
        Ok((b, arg)) => {
            proof {
                Opcode::lemma_of_byte(b);
            }
            match Opcode::from_u8(b) {
                Some(opcode) => Ok(Instruction { opcode, arg }),
                None => Err(DecodeError::UnknownOpcode(b)),
            }
        },
        Err(e) => {
            proof {
                if offset < bytes@.len() {
                    Opcode::lemma_of_byte(bytes@[offset as int]);
                }
            }
            Err(e)
        },
    }
}

/// The concatenation of the encodings of `instrs`, in order.
pub open spec fn encode_all(instrs: Seq<Instruction>) -> Seq<u8>
    decreases instrs.len(),
{
    if instrs.len() == 0 {
        Seq::empty()
    } else {
        instrs[0].encoding() + encode_all(instrs.skip(1))
    }
}

/// Whether `bytes` from `offset` on is a sequence of instructions that ends
/// exactly at the end of the stream.
pub open spec fn decodes_fully(bytes: Seq<u8>, offset: int) -> bool
    decreases bytes.len() - offset,
{
    if offset < 0 {
        false
    } else if offset >= bytes.len() {
        offset == bytes.len()
    } else {
        match decode_spec(bytes, offset) {
            Ok(i) => decodes_fully(bytes, offset + i.size()),
            Err(_) => false,
        }
    }
}

/// Decoding the encoding of a well-formed instruction yields the instruction
/// again, whatever surrounds the encoding in the stream.
pub proof fn lemma_decode_encoding(prefix: Seq<u8>, i: Instruction, suffix: Seq<u8>)
    requires
        i.wf(),
    ensures
        decode_spec(prefix + i.encoding() + suffix, prefix.len() as int) == Ok::<
            Instruction,
            DecodeError,
        >(i),
{
    let bytes = prefix + i.encoding() + suffix;
    let off = prefix.len() as int;
    i.opcode.lemma_byte_round_trip();
    assert(bytes[off] == i.opcode.byte());
    match i.arg {
        Some(a) => {
            assert(bytes[off + 1] == (a % 256) as u8);
            assert(bytes[off + 2] == (a / 256) as u8);
            assert(le_u16((a % 256) as u8, (a / 256) as u8) == a);
        },
        None => {},
    }
}

/// The encoding of well-formed instructions, placed after any prefix, decodes
/// instruction by instruction up to the end of the stream.
pub proof fn lemma_encode_all_decodes(prefix: Seq<u8>, instrs: Seq<Instruction>)
    requires
        forall|k: int| 0 <= k < instrs.len() ==> (#[trigger] instrs[k]).wf(),
    ensures
        decodes_fully(prefix + encode_all(instrs), prefix.len() as int),
    decreases instrs.len(),
{
    let bytes = prefix + encode_all(instrs);
    if instrs.len() == 0 {
        assert(bytes =~= prefix);
    } else {
        let first = instrs[0];
        let rest = instrs.skip(1);
        assert(first.wf());
        assert forall|k: int| 0 <= k < rest.len() implies (#[trigger] rest[k]).wf() by {
            assert(rest[k] == instrs[k + 1]);
        }
        lemma_decode_encoding(prefix, first, encode_all(rest));
        assert(bytes =~= prefix + first.encoding() + encode_all(rest));
        lemma_encode_all_decodes(prefix + first.encoding(), rest);
        assert((prefix + first.encoding()).len() == prefix.len() + first.size());
    }
}

} // verus!

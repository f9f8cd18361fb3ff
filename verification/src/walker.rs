//! A walk over bytecode that decodes only what control flow can reach.
//!
//! The walk keeps a queue of offsets to decode and a map of the offsets it
//! has decoded. After each instruction it asks a callback how to go on, and
//! queues the offsets that the instruction can continue at. Bytes that do
//! not decode are recorded as bad and not followed.

use vstd::prelude::*;
use std::collections::BTreeMap;
use std::collections::VecDeque;
use crate::error::Error;
use crate::instruction::{decode, decode_spec, DecodeError, Instruction};
use crate::object::{lemma_values_of, values_of, Obj, Value};
use crate::opcode::Opcode;

verus! {

/// How a walk goes on after an instruction, as its callback decides.
#[derive(Clone, Copy, Debug, PartialEq, Eq, Structural)]
pub enum WalkerState {
    /// Continue parsing normally.
    Continue,
    /// Continue parsing, and parse the next instruction even if it has been
    /// parsed before.
    ContinueIgnoreAnalyzedInstructions,
    /// Stop parsing.
    Break,
    /// Start parsing at the given offset next, and continue from there.
    JumpTo(u64),
    /// Take the conditional jump that was just parsed if the flag is set,
    /// and fall through it otherwise.
    AssumeComparison(bool),
}

impl WalkerState {
    /// Whether the offsets queued under this reply are parsed next, whether
    /// or not they have been parsed before.
    pub open spec fn forces(self) -> bool {
        matches!(
            self,
            WalkerState::ContinueIgnoreAnalyzedInstructions | WalkerState::JumpTo(_)
                | WalkerState::AssumeComparison(_)
        )
    }

    /// Returns whether the offsets queued under this reply are parsed next,
    /// whether or not they have been parsed before.
    pub fn force_queue_next(&self) -> (r: bool)
        ensures
            r == self.forces(),
    {
        matches!(
            self,
            WalkerState::ContinueIgnoreAnalyzedInstructions | WalkerState::JumpTo(_)
                | WalkerState::AssumeComparison(_)
        )
    }
}

/// What a walk found at an offset.
#[derive(Clone, Copy, Debug, PartialEq, Eq, Structural)]
pub enum ParsedInstr {
    /// An instruction.
    Good(Instruction),
    /// A byte that is no opcode.
    Bad,
}

impl ParsedInstr {
    /// Returns the instruction that was found.
    pub fn unwrap(&self) -> (i: Instruction)
        requires
            *self is Good,
        ensures
            *self == ParsedInstr::Good(i),
    {
        match self {
            ParsedInstr::Good(i) => *i,
            ParsedInstr::Bad => unreached(),
        }
    }
}

/// Decides, after each instruction that a walk decodes, how the walk goes on.
pub trait WalkerCallback {
    /// The mathematical state of the callback.
    type State;

    /// The state of this callback. A callback defines this function and
    /// [`visited`] to say what [`visit`] does. Where it does not, both are
    /// left open.
    ///
    /// [`visited`]: WalkerCallback::visited
    /// [`visit`]: WalkerCallback::visit
    open spec fn state(&self) -> Self::State {
        arbitrary()
    }

    /// The state of the callback after it has seen `instr` at `offset`, and
    /// its reply.
    open spec fn visited(state: Self::State, instr: Instruction, offset: u64) -> (
        Self::State,
        Result<WalkerState, Error>,
    ) {
        arbitrary()
    }

    /// Sees `instr`, decoded at `offset`, and replies how the walk goes on.
    fn visit(&mut self, instr: &Instruction, offset: u64) -> (r: Result<WalkerState, Error>)
        ensures
            Self::visited(old(self).state(), *instr, offset) == (final(self).state(), r),
    ;
}

/// A callback that lets the walk continue normally.
pub struct NoCallback;

impl WalkerCallback for NoCallback {
    type State = ();

    open spec fn state(&self) -> () {
        ()
    }

    open spec fn visited(state: (), instr: Instruction, offset: u64) -> (
        (),
        Result<WalkerState, Error>,
    ) {
        ((), Ok(WalkerState::Continue))
    }

    fn visit(&mut self, instr: &Instruction, offset: u64) -> (r: Result<WalkerState, Error>) {
        Ok(WalkerState::Continue)
    }
}

/// The state of a walk: the queue of offsets to decode, each with a flag
/// that forces it to be decoded even if it has been before; what has been
/// found at each offset; what has been found, in the order of decoding; the
/// offsets that have been decoded, in that order; and the state of the
/// callback.
pub struct Walk<S> {
    pub queue: Seq<(u64, bool)>,
    pub analyzed: Map<u64, ParsedInstr>,
    pub sequence: Seq<ParsedInstr>,
    pub decoded: Seq<u64>,
    pub callback: S,
}

/// Whether `offset` is waiting in the queue.
pub open spec fn is_queued(queue: Seq<(u64, bool)>, offset: u64) -> bool {
    exists|i: int| 0 <= i < queue.len() && (#[trigger] queue[i]).0 == offset
}

/// The queue after `offset` was offered to it. An offset outside the
/// bytecode is not queued. A forced offset goes to the front. Any other
/// offset goes to the back, unless it has been decoded or is waiting already.
pub open spec fn enqueued(
    queue: Seq<(u64, bool)>,
    analyzed: Map<u64, ParsedInstr>,
    len: nat,
    offset: int,
    force: bool,
) -> Seq<(u64, bool)> {
    if offset < 0 || offset >= len || offset > u64::MAX {
        queue
    } else if force {
        seq![(offset as u64, true)] + queue
    } else if !analyzed.contains_key(offset as u64) && !is_queued(queue, offset as u64) {
        queue.push((offset as u64, false))
    } else {
        queue
    }
}

/// The index in the constant pool of the value that a conditional jump
/// tests, as far as the instructions decoded before it tell: the argument of
/// the `LOAD_CONST` found at index `i` of the sequence or before it, looking
/// back over `JUMP_ABSOLUTE` instructions only.
pub open spec fn tested_constant(sequence: Seq<ParsedInstr>, i: int) -> Option<u16>
    decreases i + 1,
{
    if i < 0 || i >= sequence.len() {
        None
    } else {
        match sequence[i] {
            ParsedInstr::Good(instr) => if instr.opcode == Opcode::LOAD_CONST {
                instr.arg
            } else if instr.opcode == Opcode::JUMP_ABSOLUTE {
                tested_constant(sequence, i - 1)
            } else {
                None
            },
            ParsedInstr::Bad => None,
        }
    }
}

/// Whether the constant at `index` is true, if there is one and that is
/// decided.
pub open spec fn constant_truthiness(consts: Seq<Value>, index: Option<u16>) -> Option<bool> {
    match index {
        Some(k) => if k < consts.len() {
            consts[k as int].truthiness()
        } else {
            None
        },
        None => None,
    }
}

/// Whether a conditional jump is taken, if that is known: as the callback
/// assumes, or else as the constant decides that the jump tests, given the
/// instructions `before` it in the order of decoding.
pub open spec fn jump_taken(
    instr: Instruction,
    consts: Seq<Value>,
    before: Seq<ParsedInstr>,
    reply: WalkerState,
) -> Option<bool> {
    match reply {
        WalkerState::AssumeComparison(taken) => Some(taken),
        _ => match constant_truthiness(consts, tested_constant(before, before.len() - 1)) {
            Some(truth) => Some(truth == instr.opcode.jumps_if_true_spec()),
            None => None,
        },
    }
}

/// The offset that a jump at `offset` transfers control to.
pub open spec fn jump_target(instr: Instruction, offset: int) -> int {
    let arg = match instr.arg {
        Some(a) => a as int,
        None => 0,
    };
    if instr.opcode.is_relative_jump_spec() {
        offset + instr.size() + arg
    } else {
        arg
    }
}

/// Whether a jump was found at offset `a`.
pub open spec fn is_jump_at(analyzed: Map<u64, ParsedInstr>, a: u64) -> bool {
    analyzed.contains_key(a) && (analyzed[a] matches ParsedInstr::Good(i) && i.opcode.is_jump_spec())
}

/// The greatest offset below `offset` at which a jump was found.
pub open spec fn last_jump_before(analyzed: Map<u64, ParsedInstr>, offset: u64) -> Option<u64>
    decreases offset,
{
    if offset == 0 {
        None
    } else if is_jump_at(analyzed, (offset - 1) as u64) {
        Some((offset - 1) as u64)
    } else {
        last_jump_before(analyzed, (offset - 1) as u64)
    }
}

/// The map without what was found strictly between the last jump before
/// `offset` and `offset`. Without such a jump the map stays as it is.
pub open spec fn without_bad_instructions(analyzed: Map<u64, ParsedInstr>, offset: u64) -> Map<
    u64,
    ParsedInstr,
> {
    match last_jump_before(analyzed, offset) {
        Some(jump) => analyzed.remove_keys(Set::new(|a: u64| jump < a < offset)),
        None => analyzed,
    }
}

/// The walk after the instruction `instr`, decoded at `offset` and answered
/// with `reply`, has been recorded and its successors have been queued.
///
/// A conditional jump queues the branch that is taken if that is known, and
/// else its target and then the offset after it. An unconditional jump
/// queues its target if an instruction decodes there, and nothing if not.
/// Any other jump queues its target and the offset after it. A return or
/// raise queues nothing, and every other instruction queues the offset
/// after it.
pub open spec fn recorded<S>(
    bytes: Seq<u8>,
    consts: Seq<Value>,
    w: Walk<S>,
    instr: Instruction,
    offset: u64,
    reply: WalkerState,
) -> Walk<S> {
    let len = bytes.len();
    let next = offset + instr.size();
    let target = jump_target(instr, offset as int);
    let force = reply.forces();
    let analyzed = w.analyzed.insert(offset, ParsedInstr::Good(instr));
    let sequence = w.sequence.push(ParsedInstr::Good(instr));
    let queue = w.queue;
    if instr.opcode.is_conditional_jump_spec() {
        let queue = match jump_taken(instr, consts, w.sequence, reply) {
            Some(true) => enqueued(queue, analyzed, len, target, force),
            Some(false) => enqueued(queue, analyzed, len, next, force),
            None => enqueued(
                enqueued(queue, analyzed, len, target, force),
                analyzed,
                len,
                next,
                force,
            ),
        };
        Walk { queue, analyzed, sequence, decoded: w.decoded.push(offset), callback: w.callback }
    } else if instr.opcode.is_unconditional_jump_spec() {
        if decode_spec(bytes, target) is Ok {
            Walk {
                queue: enqueued(queue, analyzed, len, target, force),
                analyzed,
                sequence,
                decoded: w.decoded.push(offset),
                callback: w.callback,
            }
        } else {
            Walk { queue, analyzed, sequence, decoded: w.decoded.push(offset), callback: w.callback }
        }
    } else if instr.opcode.is_jump_spec() {
        let queue = enqueued(
            queue,
            analyzed,
            len,
            target,
            force && instr.opcode.is_absolute_jump_spec(),
        );
        Walk {
            queue: enqueued(queue, analyzed, len, next, force),
            analyzed,
            sequence,
            decoded: w.decoded.push(offset),
            callback: w.callback,
        }
    } else if instr.opcode.is_terminator_spec() {
        Walk { queue, analyzed, sequence, decoded: w.decoded.push(offset), callback: w.callback }
    } else {
        Walk {
            queue: enqueued(queue, analyzed, len, next, force),
            analyzed,
            sequence,
            decoded: w.decoded.push(offset),
            callback: w.callback,
        }
    }
}

/// What one step of a walk leads to.
pub enum Advance<S> {
    /// The walk has ended with this result and this state of the callback.
    Finished(Result<Map<u64, ParsedInstr>, Error>, S),
    /// The walk goes on in this state.
    Continues(Walk<S>),
}

/// One step of a walk whose queue is not empty: the first offset is taken
/// from the queue.
///
/// An offset that is not forced and has been decoded is skipped. A byte that
/// is no opcode is recorded as bad. Bytecode that ends within an
/// instruction ends the walk with an error. An instruction is recorded and
/// shown to the callback: on `Break` the walk ends with what has been
/// found, on `JumpTo` the given offset is queued in front and the
/// successors of the instruction are not, and on every other reply the
/// successors of the instruction are queued.
pub open spec fn advance<C: WalkerCallback>(
    bytes: Seq<u8>,
    consts: Seq<Value>,
    w: Walk<C::State>,
) -> Advance<C::State>
    recommends
        w.queue.len() > 0,
{
    let (offset, forced) = w.queue[0];
    let rest = w.queue.skip(1);
    if !forced && w.analyzed.contains_key(offset) {
        Advance::Continues(
            Walk {
                queue: rest,
                analyzed: w.analyzed,
                sequence: w.sequence,
                decoded: w.decoded,
                callback: w.callback,
            },
        )
    } else {
        match decode_spec(bytes, offset as int) {
            Err(DecodeError::UnknownOpcode(_)) => Advance::Continues(
                Walk {
                    queue: rest,
                    analyzed: w.analyzed.insert(offset, ParsedInstr::Bad),
                    sequence: w.sequence.push(ParsedInstr::Bad),
                    decoded: w.decoded.push(offset),
                    callback: w.callback,
                },
            ),
            Err(e) => Advance::Finished(Err(Error::DisassemblerError(e)), w.callback),
            Ok(instr) => {
                let (callback, reply) = C::visited(w.callback, instr, offset);
                match reply {
                    Err(e) => Advance::Finished(Err(e), callback),
                    Ok(WalkerState::Break) => Advance::Finished(
                        Ok(w.analyzed.insert(offset, ParsedInstr::Good(instr))),
                        callback,
                    ),
                    Ok(WalkerState::JumpTo(to)) => Advance::Continues(
                        Walk {
                            queue: enqueued(
                                rest,
                                w.analyzed.insert(offset, ParsedInstr::Good(instr)),
                                bytes.len(),
                                to as int,
                                true,
                            ),
                            analyzed: w.analyzed.insert(offset, ParsedInstr::Good(instr)),
                            sequence: w.sequence.push(ParsedInstr::Good(instr)),
                            decoded: w.decoded.push(offset),
                            callback,
                        },
                    ),
                    Ok(reply) => Advance::Continues(
                        recorded(
                            bytes,
                            consts,
                            Walk {
                                queue: rest,
                                analyzed: w.analyzed,
                                sequence: w.sequence,
                                decoded: w.decoded,
                                callback,
                            },
                            instr,
                            offset,
                            reply,
                        ),
                    ),
                }
            },
        }
    }
}

/// The result of a walk from the state `w` that may take `limit` more
/// steps, and the state of the callback at its end. The walk ends when its
/// queue is empty, and fails when its steps are used up before.
pub open spec fn walk<C: WalkerCallback>(
    bytes: Seq<u8>,
    consts: Seq<Value>,
    w: Walk<C::State>,
    limit: nat,
) -> (Result<Map<u64, ParsedInstr>, Error>, C::State)
    decreases limit,
{
    if w.queue.len() == 0 {
        (Ok(w.analyzed), w.callback)
    } else if limit == 0 {
        (Err(Error::StepLimitReached), w.callback)
    } else {
        match advance::<C>(bytes, consts, w) {
            Advance::Finished(r, callback) => (r, callback),
            Advance::Continues(next) => walk::<C>(bytes, consts, next, (limit - 1) as nat),
        }
    }
}

/// The state in which a walk over `len` bytes starts: offset 0 is queued
/// unless there is no bytecode, and nothing has been found.
pub open spec fn start<S>(callback: S, len: nat) -> Walk<S> {
    Walk {
        queue: enqueued(Seq::empty(), Map::empty(), len, 0, false),
        analyzed: Map::empty(),
        sequence: Seq::empty(),
        decoded: Seq::empty(),
        callback,
    }
}

/// The number of steps that a walk may take unless a limit is given.
pub const STEP_LIMIT: u64 = 0xffff_ffff_ffff_ffff;

/// Whether `offset` is waiting in the queue.
fn offset_is_queued(queue: &VecDeque<(u64, bool)>, offset: u64) -> (r: bool)
    ensures
        r == is_queued(queue@, offset),
{
    let mut i: usize = 0;
    while i < queue.len()
        invariant
            i <= queue@.len(),
            forall|j: int| 0 <= j < i ==> (#[trigger] queue@[j]).0 != offset,
        decreases queue@.len() - i,
    {
        if queue[i].0 == offset {
            return true;
        }
        i += 1;
    }
    false
}

/// Offers `offset` to the queue.
fn enqueue(
    queue: &mut VecDeque<(u64, bool)>,
    analyzed: &BTreeMap<u64, ParsedInstr>,
    len: usize,
    offset: u64,
    force: bool,
)
    ensures
        final(queue)@ == enqueued(old(queue)@, analyzed@, len as nat, offset as int, force),
{
    if offset >= len as u64 {
        return ;
    }
    if force {
        queue.push_front((offset, true));
        assert(queue@ =~= seq![(offset, true)] + old(queue)@);
    } else if !analyzed.contains_key(&offset) && !offset_is_queued(queue, offset) {
        queue.push_back((offset, false));
    }
}

/// The index in the constant pool of the value that a conditional jump
/// decoded next would test.
fn tested(sequence: &Vec<ParsedInstr>) -> (r: Option<u16>)
    ensures
        r == tested_constant(sequence@, sequence@.len() - 1),
{
    let mut i: usize = sequence.len();
    while i > 0
        invariant
            i <= sequence@.len(),
            tested_constant(sequence@, i - 1) == tested_constant(sequence@, sequence@.len() - 1),
        decreases i,
    {
        i -= 1;
        match sequence[i] {
            ParsedInstr::Good(instr) => {
                if instr.opcode == Opcode::LOAD_CONST {
                    return instr.arg;
                } else if instr.opcode != Opcode::JUMP_ABSOLUTE {
                    return None;
                }
            },
            ParsedInstr::Bad => {
                return None;
            },
        }
    }
    None
}

/// Whether the constant at `index` is true, if there is one and that is
/// decided.
fn constant_truth(consts: &Vec<Obj>, index: Option<u16>) -> (r: Option<bool>)
    ensures
        r == constant_truthiness(values_of(consts@), index),
{
    proof {
        lemma_values_of(consts@);
    }
    match index {
        Some(k) => if (k as usize) < consts.len() {
            consts[k as usize].truthiness()
        } else {
            None
        },
        None => None,
    }
}

/// Removes what was found strictly between the last jump before `offset`
/// and `offset`. Without such a jump the map stays as it is.
pub fn remove_bad_instructions_behind_offset(
    offset: u64,
    analyzed_instructions: &mut BTreeMap<u64, ParsedInstr>,
)
    ensures
        final(analyzed_instructions)@ == without_bad_instructions(
            old(analyzed_instructions)@,
            offset,
        ),
{
    let ghost before = analyzed_instructions@;
    let mut a: u64 = offset;
    let mut last_jump: Option<u64> = None;
    while a > 0
        invariant_except_break
            last_jump is None,
            last_jump_before(before, a) == last_jump_before(before, offset),
        invariant
            a <= offset,
            analyzed_instructions@ == before,
        ensures
            analyzed_instructions@ == before,
            last_jump == last_jump_before(before, offset),
            last_jump matches Some(jump) ==> jump < offset,
        decreases a,
    {
        a -= 1;
        let found = match analyzed_instructions.get(&a) {
            Some(ParsedInstr::Good(i)) => i.opcode.is_jump(),
            _ => false,
        };
        if found {
            last_jump = Some(a);
            break ;
        }
    }
    match last_jump {
        Some(jump) => {
            let mut k: u64 = jump + 1;
            while k < offset
                invariant
                    jump < k <= offset,
                    analyzed_instructions@ == before.remove_keys(Set::new(|x: u64| jump < x < k)),
                decreases offset - k,
            {
                analyzed_instructions.remove(&k);
                assert(analyzed_instructions@ =~= before.remove_keys(
                    Set::new(|x: u64| jump < x < k + 1),
                ));
                k += 1;
            }
            assert(analyzed_instructions@ =~= before.remove_keys(
                Set::new(|x: u64| jump < x < offset),
            ));
        },
        None => {},
    }
}

/// The offset that the jump `instr` at `offset` transfers control to, or
/// the greatest offset if the target lies beyond it.
fn target_of(instr: &Instruction, offset: u64) -> (r: u64)
    requires
        offset + instr.size() <= u64::MAX,
    ensures
        jump_target(*instr, offset as int) <= u64::MAX ==> r == jump_target(*instr, offset as int),
        jump_target(*instr, offset as int) > u64::MAX ==> r == u64::MAX,
{
    let arg: u64 = match instr.arg {
        Some(a) => a as u64,
        None => 0,
    };
    if instr.opcode.is_relative_jump() {
        let next: u64 = offset + instr.len() as u64;
        if arg > u64::MAX - next {
            u64::MAX
        } else {
            next + arg
        }
    } else {
        arg
    }
}

/// Records `instr`, decoded at `offset` and answered with `reply`, and
/// queues its successors.
fn record(
    bytecode: &[u8],
    consts: &Vec<Obj>,
    queue: &mut VecDeque<(u64, bool)>,
    analyzed: &mut BTreeMap<u64, ParsedInstr>,
    sequence: &mut Vec<ParsedInstr>,
    instr: Instruction,
    offset: u64,
    reply: WalkerState,
)
    requires
        offset + instr.size() <= bytecode@.len(),
    ensures
        ({
            let w = recorded(
                bytecode@,
                values_of(consts@),
                Walk {
                    queue: old(queue)@,
                    analyzed: old(analyzed)@,
                    sequence: old(sequence)@,
                    decoded: Seq::empty(),
                    callback: (),
                },
                instr,
                offset,
                reply,
            );
            &&& final(queue)@ == w.queue
            &&& final(analyzed)@ == w.analyzed
            &&& final(sequence)@ == w.sequence
        }),
{
    let len = bytecode.len();
    let next: u64 = offset + instr.len() as u64;
    let target = target_of(&instr, offset);
    let force = reply.force_queue_next();
    let ghost exact = jump_target(instr, offset as int);
    let taken = if instr.opcode.is_conditional_jump() {
        match reply {
            WalkerState::AssumeComparison(b) => Some(b),
            _ => match constant_truth(consts, tested(sequence)) {
                Some(truth) => Some(truth == instr.opcode.jumps_if_true()),
                None => None,
            },
        }
    } else {
        None
    };
    analyzed.insert(offset, ParsedInstr::Good(instr));
    sequence.push(ParsedInstr::Good(instr));
    assert(forall|q: Seq<(u64, bool)>, f: bool|
        enqueued(q, analyzed@, len as nat, exact, f) == #[trigger] enqueued(
            q,
            analyzed@,
            len as nat,
            target as int,
            f,
        ));
    if instr.opcode.is_conditional_jump() {
        match taken {
            Some(true) => enqueue(queue, analyzed, len, target, force),
            Some(false) => enqueue(queue, analyzed, len, next, force),
            None => {
                enqueue(queue, analyzed, len, target, force);
                enqueue(queue, analyzed, len, next, force);
            },
        }
    } else if instr.opcode.is_unconditional_jump() {
        let valid = if target < len as u64 {
            decode(bytecode, target as usize).is_ok()
        } else {
            false
        };
        if valid {
            enqueue(queue, analyzed, len, target, force);
        }
    } else if instr.opcode.is_jump() {
        enqueue(queue, analyzed, len, target, force && instr.opcode.is_absolute_jump());
        enqueue(queue, analyzed, len, next, force);
    } else if instr.opcode.is_terminator() {
    } else {
        enqueue(queue, analyzed, len, next, force);
    }
}

/// The value of the outcome of a walk.
pub open spec fn walk_result(r: Result<BTreeMap<u64, ParsedInstr>, Error>) -> Result<
    Map<u64, ParsedInstr>,
    Error,
> {
    match r {
        Ok(m) => Ok(m@),
        Err(e) => Err(e),
    }
}

/// Walks the bytecode from offset 0, taking at most `limit` steps, and
/// returns what it found at each offset that it decoded.
///
/// The result and the state in which the callback is left are those of
/// [`walk`] from the [`start`] state.
pub fn walk_with_limit<C: WalkerCallback>(
    bytecode: &[u8],
    consts: &Vec<Obj>,
    callback: &mut C,
    limit: u64,
) -> (r: Result<BTreeMap<u64, ParsedInstr>, Error>)
    ensures
        (walk_result(r), final(callback).state()) == walk::<C>(
            bytecode@,
            values_of(consts@),
            start(old(callback).state(), bytecode@.len()),
            limit as nat,
        ),
{
    let len = bytecode.len();
    let mut queue: VecDeque<(u64, bool)> = VecDeque::new();
    let mut analyzed: BTreeMap<u64, ParsedInstr> = BTreeMap::new();
    let mut sequence: Vec<ParsedInstr> = Vec::new();
    let mut budget: u64 = limit;
    let ghost mut decoded: Seq<u64> = Seq::empty();
    enqueue(&mut queue, &analyzed, len, 0, false);
    let ghost bytes = bytecode@;
    let ghost values = values_of(consts@);
    let ghost expected = walk::<C>(
        bytes,
        values,
        start(old(callback).state(), bytes.len()),
        limit as nat,
    );
    loop
        invariant
            len == bytecode@.len(),
            bytes == bytecode@,
            values == values_of(consts@),
            expected == walk::<C>(
                bytes,
                values,
                start(old(callback).state(), bytes.len()),
                limit as nat,
            ),
            walk::<C>(
                bytes,
                values,
                Walk {
                    queue: queue@,
                    analyzed: analyzed@,
                    sequence: sequence@,
                    decoded,
                    callback: callback.state(),
                },
                budget as nat,
            ) == expected,
        decreases budget,
    {
        let ghost w = Walk {
            queue: queue@,
            analyzed: analyzed@,
            sequence: sequence@,
            decoded,
            callback: callback.state(),
        };
        if queue.len() == 0 {
            return Ok(analyzed);
        }
        if budget == 0 {
            return Err(Error::StepLimitReached);
        }
        budget -= 1;
        let (offset, forced) = match queue.pop_front() {
            Some(entry) => entry,
            None => unreached(),
        };
        assert(queue@ =~= w.queue.skip(1));
        if !forced && analyzed.contains_key(&offset) {
            continue ;
        }
        let found = if offset < len as u64 {
            decode(bytecode, offset as usize)
        } else {
            Err(DecodeError::TruncatedInput)
        };
        proof {
            decoded = decoded.push(offset);
        }
        match found {
            Err(DecodeError::UnknownOpcode(_)) => {
                analyzed.insert(offset, ParsedInstr::Bad);
                sequence.push(ParsedInstr::Bad);
            },
            Err(e) => {
                return Err(Error::DisassemblerError(e));
            },
            Ok(instr) => {
                let reply = callback.visit(&instr, offset);
                match reply {
                    Err(e) => {
                        return Err(e);
                    },
                    Ok(WalkerState::Break) => {
                        analyzed.insert(offset, ParsedInstr::Good(instr));
                        return Ok(analyzed);
                    },
                    Ok(WalkerState::JumpTo(to)) => {
                        analyzed.insert(offset, ParsedInstr::Good(instr));
                        sequence.push(ParsedInstr::Good(instr));
                        enqueue(&mut queue, &analyzed, len, to, true);
                    },
                    Ok(reply) => {
                        record(
                            bytecode,
                            consts,
                            &mut queue,
                            &mut analyzed,
                            &mut sequence,
                            instr,
                            offset,
                            reply,
                        );
                    },
                }
            },
        }
    }
}

/// Walks the bytecode from offset 0 and returns what it found at each
/// offset that it decoded. The walk follows only the paths that control
/// flow can take as far as constants tell, and tolerates bytes that are no
/// instructions where no path leads.
pub fn const_jmp_instruction_walker<C: WalkerCallback>(
    bytecode: &[u8],
    consts: &Vec<Obj>,
    callback: &mut C,
) -> (r: Result<BTreeMap<u64, ParsedInstr>, Error>)
    ensures
        (walk_result(r), final(callback).state()) == walk::<C>(
            bytecode@,
            values_of(consts@),
            start(old(callback).state(), bytecode@.len()),
            STEP_LIMIT as nat,
        ),
{
    walk_with_limit(bytecode, consts, callback, STEP_LIMIT)
}

/// Whether what was found at offset `k` is what the bytecode holds there:
/// the instruction that decodes at the offset, or a bad entry where the
/// byte is no opcode.
pub open spec fn found_at(bytes: Seq<u8>, k: u64, entry: ParsedInstr) -> bool {
    match entry {
        ParsedInstr::Good(i) => decode_spec(bytes, k as int) == Ok::<Instruction, DecodeError>(i),
        ParsedInstr::Bad => decode_spec(bytes, k as int) matches Err(
            DecodeError::UnknownOpcode(_),
        ),
    }
}

/// Whether a map of what was found holds offsets within the bytecode
/// only, and at each offset the instruction that decodes there, or a bad
/// entry where the byte is no opcode.
pub open spec fn faithful(bytes: Seq<u8>, analyzed: Map<u64, ParsedInstr>) -> bool {
    forall|k: u64| #[trigger]
        analyzed.contains_key(k) ==> k < bytes.len() && found_at(bytes, k, analyzed[k])
}

/// Whether every offset of a queue lies within `len` bytes.
pub open spec fn queue_in_range(queue: Seq<(u64, bool)>, len: nat) -> bool {
    forall|i: int| 0 <= i < queue.len() ==> (#[trigger] queue[i]).0 < len
}

/// Whether a walk is in a state in which what it has found is faithful to
/// the bytecode and what it has queued lies within the bytecode.
pub open spec fn sound<S>(bytes: Seq<u8>, w: Walk<S>) -> bool {
    faithful(bytes, w.analyzed) && queue_in_range(w.queue, bytes.len())
}

/// A queue stays within the bytecode when an offset is offered to it.
pub proof fn lemma_enqueued_in_range(
    queue: Seq<(u64, bool)>,
    analyzed: Map<u64, ParsedInstr>,
    len: nat,
    offset: int,
    force: bool,
)
    requires
        queue_in_range(queue, len),
    ensures
        queue_in_range(enqueued(queue, analyzed, len, offset, force), len),
{
    let after = enqueued(queue, analyzed, len, offset, force);
    assert forall|i: int| 0 <= i < after.len() implies (#[trigger] after[i]).0 < len by {
        if after != queue {
            if force {
                if i > 0 {
                    assert(after[i] == queue[i - 1]);
                }
            } else if i < queue.len() {
                assert(after[i] == queue[i]);
            }
        }
    }
}

/// A map stays faithful when what lies behind an offset is removed from
/// it.
pub proof fn lemma_without_bad_instructions_faithful(
    bytes: Seq<u8>,
    analyzed: Map<u64, ParsedInstr>,
    offset: u64,
)
    requires
        faithful(bytes, analyzed),
    ensures
        faithful(bytes, without_bad_instructions(analyzed, offset)),
{
    let after = without_bad_instructions(analyzed, offset);
    assert forall|k: u64| #[trigger] after.contains_key(k) implies k < bytes.len() && found_at(
        bytes,
        k,
        after[k],
    ) by {
        assert(analyzed.contains_key(k));
    }
}

/// A walk stays sound when an instruction that was decoded at an offset
/// within the bytecode is recorded.
pub proof fn lemma_recorded_sound<S>(
    bytes: Seq<u8>,
    consts: Seq<Value>,
    w: Walk<S>,
    instr: Instruction,
    offset: u64,
    reply: WalkerState,
)
    requires
        sound(bytes, w),
        decode_spec(bytes, offset as int) == Ok::<Instruction, DecodeError>(instr),
    ensures
        sound(bytes, recorded(bytes, consts, w, instr, offset, reply)),
{
    let len = bytes.len();
    let next = offset + instr.size();
    let target = jump_target(instr, offset as int);
    let force = reply.forces();
    let analyzed = w.analyzed.insert(offset, ParsedInstr::Good(instr));
    assert(faithful(bytes, analyzed));
    lemma_enqueued_in_range(w.queue, analyzed, len, target, force);
    lemma_enqueued_in_range(w.queue, analyzed, len, next, force);
    lemma_enqueued_in_range(
        w.queue,
        analyzed,
        len,
        target,
        force && instr.opcode.is_absolute_jump_spec(),
    );
    lemma_enqueued_in_range(
        enqueued(w.queue, analyzed, len, target, force),
        analyzed,
        len,
        next,
        force,
    );
    lemma_enqueued_in_range(
        enqueued(w.queue, analyzed, len, target, force && instr.opcode.is_absolute_jump_spec()),
        analyzed,
        len,
        next,
        force,
    );
}

/// A step of a sound walk leads to a sound walk, or ends the walk with a
/// faithful map.
pub proof fn lemma_advance_sound<C: WalkerCallback>(
    bytes: Seq<u8>,
    consts: Seq<Value>,
    w: Walk<C::State>,
)
    requires
        w.queue.len() > 0,
        sound(bytes, w),
    ensures
        match advance::<C>(bytes, consts, w) {
            Advance::Finished(Ok(m), _) => faithful(bytes, m),
            Advance::Finished(Err(_), _) => true,
            Advance::Continues(next) => sound(bytes, next),
        },
{
    let (offset, forced) = w.queue[0];
    let rest = w.queue.skip(1);
    assert forall|i: int| 0 <= i < rest.len() implies (#[trigger] rest[i]).0 < bytes.len() by {
        assert(rest[i] == w.queue[i + 1]);
    }
    if !forced && w.analyzed.contains_key(offset) {
    } else {
        match decode_spec(bytes, offset as int) {
            Err(DecodeError::UnknownOpcode(_)) => {
                assert(faithful(bytes, w.analyzed.insert(offset, ParsedInstr::Bad)));
            },
            Err(_) => {},
            Ok(instr) => {
                let (callback, reply) = C::visited(w.callback, instr, offset);
                match reply {
                    Err(_) => {},
                    Ok(WalkerState::Break) => {},
                    Ok(WalkerState::JumpTo(to)) => {
                        lemma_enqueued_in_range(rest, w.analyzed, bytes.len(), to as int, true);
                    },
                    Ok(reply) => {
                        lemma_recorded_sound(
                            bytes,
                            consts,
                            Walk {
                                queue: rest,
                                analyzed: w.analyzed,
                                sequence: w.sequence,
                                decoded: w.decoded,
                                callback,
                            },
                            instr,
                            offset,
                            reply,
                        );
                    },
                }
            },
        }
    }
}

/// What a sound walk finds is faithful to the bytecode.
pub proof fn lemma_walk_sound<C: WalkerCallback>(
    bytes: Seq<u8>,
    consts: Seq<Value>,
    w: Walk<C::State>,
    limit: nat,
)
    requires
        sound(bytes, w),
    ensures
        walk::<C>(bytes, consts, w, limit).0 matches Ok(m) ==> faithful(bytes, m),
    decreases limit,
{
    if w.queue.len() > 0 && limit > 0 {
        lemma_advance_sound::<C>(bytes, consts, w);
        match advance::<C>(bytes, consts, w) {
            Advance::Finished(_, _) => {},
            Advance::Continues(next) => {
                lemma_walk_sound::<C>(bytes, consts, next, (limit - 1) as nat);
            },
        }
    }
}

/// What a walk finds is faithful to the bytecode, whatever its callback
/// replies: every offset that it holds lies within the bytecode, every
/// instruction that it holds is the one that decodes at its offset, and
/// every bad entry stands at a byte that is no opcode.
pub proof fn lemma_walk_faithful<C: WalkerCallback>(
    bytes: Seq<u8>,
    consts: Seq<Value>,
    callback: C::State,
    limit: nat,
)
    ensures
        walk::<C>(bytes, consts, start(callback, bytes.len()), limit).0 matches Ok(m) ==> faithful(
            bytes,
            m,
        ),
{
    let w = start(callback, bytes.len());
    lemma_enqueued_in_range(Seq::empty(), Map::empty(), bytes.len(), 0, false);
    lemma_walk_sound::<C>(bytes, consts, w, limit);
}

/// Whether the callback `C` only lets a walk continue or ends it: it never
/// sends the walk to another offset, never has an offset decoded again and
/// never assumes the outcome of a comparison.
pub open spec fn gentle<C: WalkerCallback>() -> bool {
    forall|s: C::State, i: Instruction, o: u64|
        (#[trigger] C::visited(s, i, o)).1 matches Ok(r) ==> r is Continue || r is Break
}

/// Whether no offset of a queue is forced.
pub open spec fn unforced(queue: Seq<(u64, bool)>) -> bool {
    forall|i: int| 0 <= i < queue.len() ==> !(#[trigger] queue[i]).1
}

/// Whether a walk has decoded no offset twice: no offset in its queue is
/// forced, the offsets that it has decoded differ from each other, and what
/// was found at each of them is kept.
pub open spec fn decoded_once<S>(w: Walk<S>) -> bool {
    &&& unforced(w.queue)
    &&& w.sequence.len() == w.decoded.len()
    &&& forall|i: int, j: int| 0 <= i < j < w.decoded.len() ==> w.decoded[i] != w.decoded[j]
    &&& forall|i: int| 0 <= i < w.decoded.len() ==> w.analyzed.contains_key(#[trigger] w.decoded[i])
}

/// A queue without forced offsets stays so when an offset is offered to it
/// without force.
pub proof fn lemma_enqueued_unforced(
    queue: Seq<(u64, bool)>,
    analyzed: Map<u64, ParsedInstr>,
    len: nat,
    offset: int,
)
    requires
        unforced(queue),
    ensures
        unforced(enqueued(queue, analyzed, len, offset, false)),
{
    let after = enqueued(queue, analyzed, len, offset, false);
    assert forall|i: int| 0 <= i < after.len() implies !(#[trigger] after[i]).1 by {
        if i < queue.len() {
            assert(after[i] == queue[i]);
        }
    }
}

/// With a callback that only lets the walk continue or ends it, a walk
/// that has decoded no offset twice does not do so in its next step: an
/// offset that was decoded is skipped when it comes up again.
pub proof fn lemma_advance_decodes_once<C: WalkerCallback>(
    bytes: Seq<u8>,
    consts: Seq<Value>,
    w: Walk<C::State>,
)
    requires
        gentle::<C>(),
        w.queue.len() > 0,
        decoded_once(w),
    ensures
        advance::<C>(bytes, consts, w) matches Advance::Continues(next) ==> decoded_once(next),
{
    let (offset, forced) = w.queue[0];
    let rest = w.queue.skip(1);
    assert(!w.queue[0].1);
    assert forall|i: int| 0 <= i < rest.len() implies !(#[trigger] rest[i]).1 by {
        assert(rest[i] == w.queue[i + 1]);
    }
    if let Advance::Continues(next) = advance::<C>(bytes, consts, w) {
        if !w.analyzed.contains_key(offset) {
            let more = w.decoded.push(offset);
            assert forall|i: int, j: int| 0 <= i < j < more.len() implies more[i] != more[j] by {
                if j == w.decoded.len() {
                    assert(w.analyzed.contains_key(w.decoded[i]));
                }
            }
            if let Ok(instr) = decode_spec(bytes, offset as int) {
                let (callback, reply) = C::visited(w.callback, instr, offset);
                let len = bytes.len();
                let analyzed = w.analyzed.insert(offset, ParsedInstr::Good(instr));
                let target = jump_target(instr, offset as int);
                let after = offset + instr.size();
                lemma_enqueued_unforced(rest, analyzed, len, target);
                lemma_enqueued_unforced(rest, analyzed, len, after);
                lemma_enqueued_unforced(
                    enqueued(rest, analyzed, len, target, false),
                    analyzed,
                    len,
                    after,
                );
                assert(next.decoded == more);
                assert forall|i: int| 0 <= i < more.len() implies next.analyzed.contains_key(
                    #[trigger] more[i],
                ) by {
                    if i < w.decoded.len() {
                        assert(w.analyzed.contains_key(w.decoded[i]));
                    }
                }
            } else {
                assert(next.decoded == more);
                assert forall|i: int| 0 <= i < more.len() implies next.analyzed.contains_key(
                    #[trigger] more[i],
                ) by {
                    if i < w.decoded.len() {
                        assert(w.analyzed.contains_key(w.decoded[i]));
                    }
                }
            }
        }
    }
}

/// A walk starts without an offset that was decoded twice.
pub proof fn lemma_start_decodes_once<S>(callback: S, len: nat)
    ensures
        decoded_once(start(callback, len)),
{
    lemma_enqueued_unforced(Seq::empty(), Map::empty(), len, 0);
}

/// Whether the callback `C` lets every walk continue, whatever it sees.
pub open spec fn steady<C: WalkerCallback>() -> bool {
    forall|s: C::State, i: Instruction, o: u64|
        (#[trigger] C::visited(s, i, o)).1 == Ok::<WalkerState, Error>(WalkerState::Continue)
}

/// Whether a walk is done with the offset `x` or will come to it: the
/// offset lies beyond the bytecode, was decoded, or waits in the queue.
pub open spec fn pending<S>(len: nat, w: Walk<S>, x: int) -> bool {
    x >= len || x > u64::MAX || w.analyzed.contains_key(x as u64) || is_queued(w.queue, x as u64)
}

/// Whether a walk is done with what follows the instruction `instr` at
/// `offset`, or will come to it: after a conditional jump, its target or
/// the offset after it; after an unconditional jump, its target if an
/// instruction decodes there; after any other jump, its target and the
/// offset after it; nothing after a return or a raise; and the offset after
/// it after every other instruction.
pub open spec fn followed<S>(bytes: Seq<u8>, w: Walk<S>, instr: Instruction, offset: u64) -> bool {
    let len = bytes.len();
    let next = offset + instr.size();
    let target = jump_target(instr, offset as int);
    if instr.opcode.is_conditional_jump_spec() {
        pending(len, w, target) || pending(len, w, next)
    } else if instr.opcode.is_unconditional_jump_spec() {
        decode_spec(bytes, target) is Ok ==> pending(len, w, target)
    } else if instr.opcode.is_jump_spec() {
        pending(len, w, target) && pending(len, w, next)
    } else if instr.opcode.is_terminator_spec() {
        true
    } else {
        pending(len, w, next)
    }
}

/// Whether a walk leaves out nothing that control can reach: it is done
/// with the start of the bytecode or will come to it, and so with what
/// follows every instruction that it has found.
pub open spec fn closed<S>(bytes: Seq<u8>, w: Walk<S>) -> bool {
    &&& pending(bytes.len(), w, 0)
    &&& forall|o: u64| #[trigger]
        w.analyzed.contains_key(o) ==> (w.analyzed[o] matches ParsedInstr::Good(i) ==> followed(
            bytes,
            w,
            i,
            o,
        ))
}

/// What waits in a queue still waits after an offset was offered to it.
pub proof fn lemma_enqueued_keeps(
    queue: Seq<(u64, bool)>,
    analyzed: Map<u64, ParsedInstr>,
    len: nat,
    offset: int,
    force: bool,
    y: u64,
)
    requires
        is_queued(queue, y),
    ensures
        is_queued(enqueued(queue, analyzed, len, offset, force), y),
{
    let after = enqueued(queue, analyzed, len, offset, force);
    let i = choose|i: int| 0 <= i < queue.len() && (#[trigger] queue[i]).0 == y;
    if after != queue {
        if force {
            assert(after[i + 1] == queue[i]);
        } else {
            assert(after[i] == queue[i]);
        }
    }
}

/// An offset that was offered to a queue lies beyond the bytecode, was
/// decoded, or waits in the queue.
pub proof fn lemma_enqueued_waits(
    queue: Seq<(u64, bool)>,
    analyzed: Map<u64, ParsedInstr>,
    len: nat,
    offset: int,
    force: bool,
)
    requires
        0 <= offset,
    ensures
        offset >= len || offset > u64::MAX || analyzed.contains_key(offset as u64) || is_queued(
            enqueued(queue, analyzed, len, offset, force),
            offset as u64,
        ),
{
    let after = enqueued(queue, analyzed, len, offset, force);
    if offset < len && offset <= u64::MAX {
        if force {
            assert(after[0].0 == offset as u64);
        } else if !analyzed.contains_key(offset as u64) && !is_queued(queue, offset as u64) {
            assert(after[queue.len() as int].0 == offset as u64);
        } else if !analyzed.contains_key(offset as u64) {
        }
    }
}

/// A walk stays done with an offset, or coming to it, over a step that
/// takes the first offset from the queue, finds something there, and offers
/// the offsets `first` and `second` to the queue.
proof fn lemma_pending_kept<S>(
    len: nat,
    w: Walk<S>,
    entry: ParsedInstr,
    first: Option<int>,
    second: Option<int>,
    force: bool,
    next: Walk<S>,
    x: int,
)
    requires
        w.queue.len() > 0,
        pending(len, w, x),
        next.analyzed == w.analyzed.insert(w.queue[0].0, entry) || (next.analyzed == w.analyzed
            && w.analyzed.contains_key(w.queue[0].0)),
        ({
            let rest = w.queue.skip(1);
            let one = match first {
                Some(a) => enqueued(rest, next.analyzed, len, a, force),
                None => rest,
            };
            next.queue == match second {
                Some(b) => enqueued(one, next.analyzed, len, b, force),
                None => one,
            }
        }),
    ensures
        pending(len, next, x),
{
    if x < len && x <= u64::MAX && !w.analyzed.contains_key(x as u64) {
        let y = x as u64;
        let i = choose|i: int| 0 <= i < w.queue.len() && (#[trigger] w.queue[i]).0 == y;
        if i > 0 {
            let rest = w.queue.skip(1);
            assert(rest[i - 1] == w.queue[i]);
            assert(is_queued(rest, y));
            let one = match first {
                Some(a) => enqueued(rest, next.analyzed, len, a, force),
                None => rest,
            };
            if let Some(a) = first {
                lemma_enqueued_keeps(rest, next.analyzed, len, a, force, y);
            }
            if let Some(b) = second {
                lemma_enqueued_keeps(one, next.analyzed, len, b, force, y);
            }
        }
    }
}

/// With a callback that lets every walk continue, a step of a walk that
/// leaves out nothing leads to such a walk.
pub proof fn lemma_advance_closed<C: WalkerCallback>(
    bytes: Seq<u8>,
    consts: Seq<Value>,
    w: Walk<C::State>,
)
    requires
        steady::<C>(),
        w.queue.len() > 0,
        closed(bytes, w),
        unforced(w.queue),
        faithful(bytes, w.analyzed),
    ensures
        advance::<C>(bytes, consts, w) matches Advance::Continues(next) ==> closed(bytes, next),
{
    let len = bytes.len();
    let (offset, forced) = w.queue[0];
    let rest = w.queue.skip(1);
    assert(!w.queue[0].1);
    if let Advance::Continues(next) = advance::<C>(bytes, consts, w) {
        // What the step found, and the offsets that it offered to the queue.
        let skipped = w.analyzed.contains_key(offset);
        let found = decode_spec(bytes, offset as int);
        let entry = match found {
            Ok(instr) => ParsedInstr::Good(instr),
            Err(_) => ParsedInstr::Bad,
        };
        let (first, second): (Option<int>, Option<int>) = if skipped {
            (None, None)
        } else {
            match found {
                Ok(instr) => {
                    let after = offset + instr.size();
                    let target = jump_target(instr, offset as int);
                    if instr.opcode.is_conditional_jump_spec() {
                        match jump_taken(instr, consts, w.sequence, WalkerState::Continue) {
                            Some(true) => (Some(target), None),
                            Some(false) => (Some(after), None),
                            None => (Some(target), Some(after)),
                        }
                    } else if instr.opcode.is_unconditional_jump_spec() {
                        if decode_spec(bytes, target) is Ok {
                            (Some(target), None)
                        } else {
                            (None, None)
                        }
                    } else if instr.opcode.is_jump_spec() {
                        (Some(target), Some(after))
                    } else if instr.opcode.is_terminator_spec() {
                        (None, None)
                    } else {
                        (Some(after), None)
                    }
                },
                Err(_) => (None, None),
            }
        };
        if let Ok(instr) = found {
            assert(C::visited(w.callback, instr, offset).1 == Ok::<WalkerState, Error>(
                WalkerState::Continue,
            ));
        }
        assert forall|x: int| pending(len, w, x) implies pending(len, next, x) by {
            lemma_pending_kept(len, w, entry, first, second, false, next, x);
        }
        let one = match first {
            Some(a) => enqueued(rest, next.analyzed, len, a, false),
            None => rest,
        };
        if let Some(a) = first {
            lemma_enqueued_waits(rest, next.analyzed, len, a, false);
            if let Some(b) = second {
                if a < len && a <= u64::MAX && is_queued(one, a as u64) {
                    lemma_enqueued_keeps(one, next.analyzed, len, b, false, a as u64);
                }
            }
        }
        if let Some(b) = second {
            lemma_enqueued_waits(one, next.analyzed, len, b, false);
        }
        assert forall|o: u64| #[trigger] next.analyzed.contains_key(o) implies (
        next.analyzed[o] matches ParsedInstr::Good(i) ==> followed(bytes, next, i, o)) by {
            if let ParsedInstr::Good(i) = next.analyzed[o] {
                if o == offset && !skipped {
                    assert(found == Ok::<Instruction, DecodeError>(i));
                } else {
                    assert(w.analyzed.contains_key(o));
                    assert(w.analyzed[o] == next.analyzed[o]);
                    assert(followed(bytes, w, i, o));
                }
            }
        }
    }
}

/// With a callback that lets every walk continue, what a walk finds
/// leaves out nothing that control can reach: it holds the start of the
/// bytecode, and with every instruction what follows it within the
/// bytecode.
pub proof fn lemma_walk_closed<C: WalkerCallback>(
    bytes: Seq<u8>,
    consts: Seq<Value>,
    w: Walk<C::State>,
    limit: nat,
)
    requires
        steady::<C>(),
        closed(bytes, w),
        decoded_once(w),
        sound(bytes, w),
    ensures
        walk::<C>(bytes, consts, w, limit).0 matches Ok(m) ==> closed(
            bytes,
            Walk {
                queue: Seq::empty(),
                analyzed: m,
                sequence: w.sequence,
                decoded: w.decoded,
                callback: w.callback,
            },
        ),
    decreases limit,
{
    if w.queue.len() == 0 {
        let end = Walk {
            queue: Seq::<(u64, bool)>::empty(),
            analyzed: w.analyzed,
            sequence: w.sequence,
            decoded: w.decoded,
            callback: w.callback,
        };
        assert(w.queue =~= end.queue);
    } else if limit > 0 {
        lemma_advance_closed::<C>(bytes, consts, w);
        lemma_advance_decodes_once::<C>(bytes, consts, w);
        lemma_advance_sound::<C>(bytes, consts, w);
        match advance::<C>(bytes, consts, w) {
            Advance::Finished(r, _) => {
                let instr = decode_spec(bytes, w.queue[0].0 as int);
                if let Ok(i) = instr {
                    assert(C::visited(w.callback, i, w.queue[0].0).1 == Ok::<WalkerState, Error>(
                        WalkerState::Continue,
                    ));
                }
            },
            Advance::Continues(next) => {
                lemma_walk_closed::<C>(bytes, consts, next, (limit - 1) as nat);
                let m = walk::<C>(bytes, consts, next, (limit - 1) as nat).0;
                if let Ok(map) = m {
                    let a = Walk {
                        queue: Seq::<(u64, bool)>::empty(),
                        analyzed: map,
                        sequence: next.sequence,
                        decoded: next.decoded,
                        callback: next.callback,
                    };
                    let b = Walk {
                        queue: Seq::<(u64, bool)>::empty(),
                        analyzed: map,
                        sequence: w.sequence,
                        decoded: w.decoded,
                        callback: w.callback,
                    };
                    assert forall|x: int| pending(bytes.len(), a, x) == pending(
                        bytes.len(),
                        b,
                        x,
                    ) by {}
                    assert(closed(bytes, b));
                }
            },
        }
    }
}

/// Whether control can go on from the instruction `instr` at `from` to
/// the offset `to`: to the offset after it, or to its target if it is a
/// jump.
pub open spec fn leads(instr: Instruction, from: u64, to: u64) -> bool {
    to == from + instr.size() || (instr.opcode.is_jump_spec() && to == jump_target(
        instr,
        from as int,
    ))
}

/// Whether the offset `x` is the start of the bytecode, or an offset that
/// control can go on to from an instruction found at one of the first
/// `upto` offsets that were decoded.
pub open spec fn sourced<S>(w: Walk<S>, upto: int, x: u64) -> bool {
    x == 0 || exists|j: int|
        0 <= j < upto && j < w.decoded.len() && w.analyzed.contains_key(#[trigger] w.decoded[j])
            && (w.analyzed[w.decoded[j]] matches ParsedInstr::Good(i) && leads(i, w.decoded[j], x))
}

/// Whether a walk has found only what control can reach: every offset
/// that it decoded, and every offset in its queue, is the start of the
/// bytecode or an offset that control can go on to from an instruction that
/// was decoded before.
pub open spec fn grounded<S>(w: Walk<S>) -> bool {
    &&& forall|i: int| 0 <= i < w.decoded.len() ==> sourced(w, i, #[trigger] w.decoded[i])
    &&& forall|k: int|
        0 <= k < w.queue.len() ==> sourced(w, w.decoded.len() as int, (#[trigger] w.queue[k]).0)
}

/// An offset keeps its source when a walk decodes an offset that it has
/// not decoded before.
proof fn lemma_sourced_kept<S>(w: Walk<S>, next: Walk<S>, offset: u64, upto: int, x: u64)
    requires
        sourced(w, upto, x),
        !w.analyzed.contains_key(offset),
        next.decoded == w.decoded.push(offset),
        forall|k: u64| w.analyzed.contains_key(k) ==> next.analyzed.contains_key(k)
            && next.analyzed[k] == w.analyzed[k],
    ensures
        sourced(next, upto, x),
{
    if x != 0 {
        let j = choose|j: int|
            0 <= j < upto && j < w.decoded.len() && w.analyzed.contains_key(#[trigger] w.decoded[j])
                && (w.analyzed[w.decoded[j]] matches ParsedInstr::Good(i) && leads(
                i,
                w.decoded[j],
                x,
            ));
        assert(next.decoded[j] == w.decoded[j]);
    }
}

/// With a callback that only lets the walk continue or ends it, a step of
/// a walk that has found only what control can reach leads to such a walk.
pub proof fn lemma_advance_grounded<C: WalkerCallback>(
    bytes: Seq<u8>,
    consts: Seq<Value>,
    w: Walk<C::State>,
)
    requires
        gentle::<C>(),
        w.queue.len() > 0,
        grounded(w),
        decoded_once(w),
    ensures
        advance::<C>(bytes, consts, w) matches Advance::Continues(next) ==> grounded(next),
{
    let len = bytes.len();
    let (offset, forced) = w.queue[0];
    let rest = w.queue.skip(1);
    assert(!w.queue[0].1);
    if let Advance::Continues(next) = advance::<C>(bytes, consts, w) {
        let count = w.decoded.len() as int;
        if w.analyzed.contains_key(offset) {
            assert forall|k: int| 0 <= k < next.queue.len() implies sourced(
                next,
                count,
                (#[trigger] next.queue[k]).0,
            ) by {
                assert(next.queue[k] == w.queue[k + 1]);
            }
        } else {
            assert(next.decoded == w.decoded.push(offset));
            assert forall|k: u64| w.analyzed.contains_key(k) implies next.analyzed.contains_key(k)
                && next.analyzed[k] == w.analyzed[k] by {}
            assert forall|i: int| 0 <= i < next.decoded.len() implies sourced(
                next,
                i,
                #[trigger] next.decoded[i],
            ) by {
                if i < count {
                    lemma_sourced_kept(w, next, offset, i, w.decoded[i]);
                } else {
                    assert(sourced(w, count, w.queue[0].0));
                    lemma_sourced_kept(w, next, offset, count, offset);
                }
            }
            assert forall|k: int| 0 <= k < next.queue.len() implies sourced(
                next,
                count + 1,
                (#[trigger] next.queue[k]).0,
            ) by {
                let x = next.queue[k].0;
                if exists|r: int| 0 <= r < rest.len() && rest[r].0 == x {
                    let r = choose|r: int| 0 <= r < rest.len() && rest[r].0 == x;
                    assert(rest[r] == w.queue[r + 1]);
                    assert(sourced(w, count, w.queue[r + 1].0));
                    lemma_sourced_kept(w, next, offset, count, x);
                } else {
                    // The offset was offered by the instruction that was decoded.
                    let found = decode_spec(bytes, offset as int);
                    assert(found is Ok);
                    let instr = found->Ok_0;
                    assert(next.decoded[count] == offset);
                    assert(next.analyzed[offset] == ParsedInstr::Good(instr));
                    lemma_queue_origin(rest, next.analyzed, len, instr, offset, next.queue, k);
                    assert(leads(instr, offset, x));
                }
            }
        }
    }
}

/// An offset in the queue after an instruction was recorded under a reply
/// that does not force waited in the queue before, or is one that control
/// can go on to from the instruction.
proof fn lemma_queue_origin(
    rest: Seq<(u64, bool)>,
    analyzed: Map<u64, ParsedInstr>,
    len: nat,
    instr: Instruction,
    offset: u64,
    queue: Seq<(u64, bool)>,
    k: int,
)
    requires
        0 <= k < queue.len(),
        ({
            let next = offset + instr.size();
            let target = jump_target(instr, offset as int);
            let one = enqueued(rest, analyzed, len, target, false);
            ||| queue == rest
            ||| queue == one
            ||| queue == enqueued(rest, analyzed, len, next, false)
            ||| queue == enqueued(one, analyzed, len, next, false)
        }),
        instr.opcode.is_jump_spec() || queue == rest || queue == enqueued(
            rest,
            analyzed,
            len,
            offset + instr.size(),
            false,
        ),
    ensures
        (exists|r: int| 0 <= r < rest.len() && rest[r].0 == queue[k].0) || leads(
            instr,
            offset,
            queue[k].0,
        ),
{
    let next = offset + instr.size();
    let target = jump_target(instr, offset as int);
    let one = enqueued(rest, analyzed, len, target, false);
    if k < rest.len() {
        assert(queue[k] == rest[k]);
    } else if queue == one {
    } else if queue == enqueued(rest, analyzed, len, next, false) {
    } else {
        if k < one.len() {
            assert(queue[k] == one[k]);
        }
    }
}

/// Whether the offset `x` is the start of the bytecode, or an offset that
/// control can go on to from an instruction of the map.
pub open spec fn entered(m: Map<u64, ParsedInstr>, x: u64) -> bool {
    x == 0 || exists|o: u64| #[trigger]
        m.contains_key(o) && (m[o] matches ParsedInstr::Good(i) && leads(i, o, x))
}

/// Whether a walk has found only what control can reach, and has decoded
/// every offset at which it has found something.
pub open spec fn rooted<S>(w: Walk<S>) -> bool {
    &&& grounded(w)
    &&& decoded_once(w)
    &&& forall|k: u64| #[trigger]
        w.analyzed.contains_key(k) ==> exists|i: int|
            0 <= i < w.decoded.len() && #[trigger] w.decoded[i] == k
}

/// What has a source among the offsets that a walk decoded is entered from
/// what the walk found.
proof fn lemma_sourced_entered<S>(w: Walk<S>, upto: int, x: u64)
    requires
        sourced(w, upto, x),
    ensures
        entered(w.analyzed, x),
{
    if x != 0 {
        let j = choose|j: int|
            0 <= j < upto && j < w.decoded.len() && w.analyzed.contains_key(#[trigger] w.decoded[j])
                && (w.analyzed[w.decoded[j]] matches ParsedInstr::Good(i) && leads(
                i,
                w.decoded[j],
                x,
            ));
        assert(w.analyzed.contains_key(w.decoded[j]));
    }
}

/// With a callback that only lets the walk continue or ends it, a walk
/// finds only what control can reach: every offset of the map is the start
/// of the bytecode, or an offset that control can go on to from an
/// instruction of the map.
pub proof fn lemma_walk_rooted<C: WalkerCallback>(
    bytes: Seq<u8>,
    consts: Seq<Value>,
    w: Walk<C::State>,
    limit: nat,
)
    requires
        gentle::<C>(),
        rooted(w),
    ensures
        walk::<C>(bytes, consts, w, limit).0 matches Ok(m) ==> forall|k: u64| #[trigger]
            m.contains_key(k) ==> entered(m, k),
    decreases limit,
{
    if w.queue.len() == 0 {
        assert forall|k: u64| #[trigger] w.analyzed.contains_key(k) implies entered(
            w.analyzed,
            k,
        ) by {
            let i = choose|i: int| 0 <= i < w.decoded.len() && #[trigger] w.decoded[i] == k;
            lemma_sourced_entered(w, i, k);
        }
    } else if limit > 0 {
        let (offset, forced) = w.queue[0];
        assert(!w.queue[0].1);
        lemma_advance_grounded::<C>(bytes, consts, w);
        lemma_advance_decodes_once::<C>(bytes, consts, w);
        match advance::<C>(bytes, consts, w) {
            Advance::Finished(Ok(m), _) => {
                assert(!w.analyzed.contains_key(offset));
                assert forall|k: u64| #[trigger] m.contains_key(k) implies entered(m, k) by {
                    if k == offset {
                        lemma_sourced_entered(w, w.decoded.len() as int, offset);
                    } else {
                        let i = choose|i: int|
                            0 <= i < w.decoded.len() && #[trigger] w.decoded[i] == k;
                        lemma_sourced_entered(w, i, k);
                    }
                    if k != 0 {
                        let o = choose|o: u64| #[trigger]
                            w.analyzed.contains_key(o) && (w.analyzed[o] matches ParsedInstr::Good(
                                i,
                            ) && leads(i, o, k));
                        assert(m.contains_key(o) && m[o] == w.analyzed[o]);
                    }
                }
            },
            Advance::Finished(Err(_), _) => {},
            Advance::Continues(next) => {
                assert forall|k: u64| #[trigger] next.analyzed.contains_key(k) implies exists|
                    i: int,
                |
                    0 <= i < next.decoded.len() && #[trigger] next.decoded[i] == k by {
                    if w.analyzed.contains_key(k) {
                        let i = choose|i: int|
                            0 <= i < w.decoded.len() && #[trigger] w.decoded[i] == k;
                        if next.decoded != w.decoded {
                            assert(next.decoded == w.decoded.push(offset));
                            assert(next.decoded[i] == k);
                        }
                    } else {
                        assert(k == offset);
                        assert(next.decoded == w.decoded.push(offset));
                        assert(next.decoded[w.decoded.len() as int] == k);
                    }
                }
                lemma_walk_rooted::<C>(bytes, consts, next, (limit - 1) as nat);
            },
        }
    }
}

/// Whether a map of what was found leaves out nothing that control can
/// reach: it holds the start of the bytecode, and with every instruction
/// what follows it within the bytecode, as [`followed`] says.
pub open spec fn complete(bytes: Seq<u8>, m: Map<u64, ParsedInstr>) -> bool {
    closed(
        bytes,
        Walk {
            queue: Seq::empty(),
            analyzed: m,
            sequence: Seq::empty(),
            decoded: Seq::empty(),
            callback: (),
        },
    )
}

/// What a walk without a callback finds is what control can reach: it is
/// faithful to the bytecode, it leaves out nothing that control can reach,
/// and it holds nothing else, as every offset of it is the start of the
/// bytecode or an offset that control can go on to from an instruction of
/// it.
pub proof fn lemma_plain_walk_complete(bytes: Seq<u8>, consts: Seq<Value>, limit: nat)
    ensures
        walk::<NoCallback>(bytes, consts, start((), bytes.len()), limit).0 matches Ok(m) ==> {
            &&& faithful(bytes, m)
            &&& complete(bytes, m)
            &&& forall|k: u64| #[trigger] m.contains_key(k) ==> entered(m, k)
        },
{
    let w = start((), bytes.len());
    lemma_enqueued_in_range(Seq::empty(), Map::empty(), bytes.len(), 0, false);
    lemma_enqueued_waits(Seq::empty(), Map::empty(), bytes.len(), 0, false);
    lemma_start_decodes_once((), bytes.len());
    assert(steady::<NoCallback>());
    assert(gentle::<NoCallback>());
    lemma_walk_sound::<NoCallback>(bytes, consts, w, limit);
    lemma_walk_closed::<NoCallback>(bytes, consts, w, limit);
    assert(rooted(w)) by {
        assert forall|k: int| 0 <= k < w.queue.len() implies sourced(
            w,
            w.decoded.len() as int,
            (#[trigger] w.queue[k]).0,
        ) by {}
    }
    lemma_walk_rooted::<NoCallback>(bytes, consts, w, limit);
}

} // verus!

//! The second stage of unpacking: bytecode that was hidden behind a
//! substitution of bytes is recovered by running the code that unpacks it.
//!
//! The unpacking code is walked by a state machine. It first finds the
//! function that holds the substitution map and applies the map to the
//! hidden bytecode. It then lets the interpreter run the loop that consumes
//! the substituted bytes and builds the result.

use vstd::prelude::*;
use std::collections::HashMap;
use crate::error::{Error, ExecutionError};
use crate::instruction::Instruction;
use crate::long::Long;
use crate::object::{
    lemma_code_value, lemma_value_of_nested, lemma_values_of, value_of, Code, CodeValue, Obj,
    ObjType, Value,
};
use crate::opcode::Opcode;
use crate::semantics::{
    step, vm_value, FunctionResolver, TrackedValue, VmNames, VmStack, VmValue, VmVar,
    VmVarWithTracking, VmVars,
};
use crate::smallvm::execute_instruction;
use crate::walker::{
    const_jmp_instruction_walker, start, walk, WalkerCallback, WalkerState, STEP_LIMIT,
};

verus! {

/// The name of the only function that the unpacking code calls.
pub open spec fn chr_name() -> Seq<u8> {
    seq![99u8, 104u8, 114u8]
}

/// The resolver of the calls of the unpacking code. It knows the function
/// `chr`, which it models as the identity on the integers from 0 to 255.
pub struct ChrResolver;

impl FunctionResolver for ChrResolver {
    open spec fn resolved(
        &self,
        function: Option<Value>,
        args: Seq<Option<Value>>,
        kwargs: Seq<(Option<Value>, Option<Value>)>,
    ) -> Result<Option<Value>, Option<ObjType>> {
        match function {
            Some(Value::String(name)) => if name == chr_name() && args.len() > 0 {
                match args[0] {
                    Some(Value::Long(v)) => if 0 <= v <= 255 {
                        Ok(Some(Value::Long(v)))
                    } else {
                        Err(Some(ObjType::Long))
                    },
                    Some(other) => Err(Some(other.typ())),
                    None => Err(None),
                }
            } else {
                Err(Some(ObjType::String))
            },
            Some(other) => Err(Some(other.typ())),
            None => Err(None),
        }
    }

    fn resolve(&self, function: &VmVar, args: &Vec<VmVar>, kwargs: &Vec<(VmVar, VmVar)>) -> (r:
        Result<VmVar, Option<ObjType>>) {
        match function {
            Some(Obj::String(name)) => {
                let is_chr = name.len() == 3 && name[0] == 99 && name[1] == 104 && name[2] == 114;
                proof {
                    if is_chr {
                        assert(name@ =~= chr_name());
                    }
                }
                if is_chr && args.len() > 0 {
                    match &args[0] {
                        Some(Obj::Long(l)) => match l.to_u8() {
                            Some(b) => Ok(Some(Obj::Long(Long::from_u8(b)))),
                            None => Err(Some(ObjType::Long)),
                        },
                        Some(other) => Err(Some(other.typ())),
                        None => Err(None),
                    }
                } else {
                    Err(Some(ObjType::String))
                }
            },
            Some(other) => Err(Some(other.typ())),
            None => Err(None),
        }
    }
}

/// A callback that stops the walk at the first `LOAD_CONST` and keeps its
/// argument.
pub struct FirstLoadConst {
    pub found: Option<u16>,
}

impl WalkerCallback for FirstLoadConst {
    type State = Option<u16>;

    open spec fn state(&self) -> Option<u16> {
        self.found
    }

    open spec fn visited(state: Option<u16>, instr: Instruction, offset: u64) -> (
        Option<u16>,
        Result<WalkerState, Error>,
    ) {
        if instr.opcode == Opcode::LOAD_CONST {
            (instr.arg, Ok(WalkerState::Break))
        } else {
            (state, Ok(WalkerState::Continue))
        }
    }

    fn visit(&mut self, instr: &Instruction, offset: u64) -> (r: Result<WalkerState, Error>) {
        if instr.opcode == Opcode::LOAD_CONST {
            self.found = instr.arg;
            Ok(WalkerState::Break)
        } else {
            Ok(WalkerState::Continue)
        }
    }
}

/// The byte that the substitution map `entries` holds for the byte `b`: the
/// value of the first entry whose key is the integer `b`, if that value is
/// an integer from 0 to 255.
pub open spec fn swap_lookup(entries: Seq<(Value, Value)>, b: u8) -> Option<u8>
    decreases entries.len(),
{
    if entries.len() == 0 {
        None
    } else if entries[0].0 == Value::Long(b as int) {
        match entries[0].1 {
            Value::Long(v) => if 0 <= v <= 255 {
                Some(v as u8)
            } else {
                None
            },
            _ => None,
        }
    } else {
        swap_lookup(entries.skip(1), b)
    }
}

/// The bytes `bytes` after the substitution map has been applied to each,
/// if the map holds a byte for each.
pub open spec fn swapped(entries: Seq<(Value, Value)>, bytes: Seq<u8>) -> Option<Seq<u8>> {
    if forall|i: int| 0 <= i < bytes.len() ==> swap_lookup(entries, #[trigger] bytes[i]) is Some {
        Some(Seq::new(bytes.len(), |i: int| swap_lookup(entries, bytes[i]).unwrap()))
    } else {
        None
    }
}

/// The values of the entries of a dictionary.
pub open spec fn entry_values(entries: Seq<(Obj, Obj)>) -> Seq<(Value, Value)> {
    Seq::new(entries.len(), |i: int| (value_of(entries[i].0), value_of(entries[i].1)))
}

/// Returns the byte that the substitution map holds for `b`.
fn lookup_swap(entries: &Vec<(Obj, Obj)>, b: u8) -> (r: Option<u8>)
    ensures
        r == swap_lookup(entry_values(entries@), b),
{
    let key = Long::from_u8(b);
    let ghost all = entry_values(entries@);
    let mut i: usize = 0;
    assert(all.skip(0) =~= all);
    while i < entries.len()
        invariant
            i <= entries@.len(),
            all == entry_values(entries@),
            key@ == b,
            swap_lookup(all, b) == swap_lookup(all.skip(i as int), b),
        decreases entries@.len() - i,
    {
        let ghost rest = all.skip(i as int);
        assert(rest[0] == all[i as int]);
        assert(rest.skip(1) =~= all.skip(i + 1));
        let hit = match &entries[i].0 {
            Obj::Long(l) => l.equals(&key),
            _ => false,
        };
        if hit {
            return match &entries[i].1 {
                Obj::Long(v) => v.to_u8(),
                _ => None,
            };
        }
        i += 1;
    }
    None
}

/// Applies the substitution map to every byte of `bytes`.
fn apply_swapmap(entries: &Vec<(Obj, Obj)>, bytes: &Vec<u8>) -> (r: Option<Vec<u8>>)
    ensures
        match r {
            Some(out) => swapped(entry_values(entries@), bytes@) == Some(out@),
            None => swapped(entry_values(entries@), bytes@) is None,
        },
{
    let ghost all = entry_values(entries@);
    let mut out: Vec<u8> = Vec::new();
    let mut i: usize = 0;
    while i < bytes.len()
        invariant
            i <= bytes@.len(),
            all == entry_values(entries@),
            out@.len() == i,
            forall|j: int| 0 <= j < i ==> swap_lookup(all, #[trigger] bytes@[j]) == Some(out@[j]),
        decreases bytes@.len() - i,
    {
        match lookup_swap(entries, bytes[i]) {
            Some(b) => {
                out.push(b);
            },
            None => {
                assert(swap_lookup(all, bytes@[i as int]) is None);
                return None;
            },
        }
        i += 1;
    }
    assert(out@ =~= Seq::new(bytes@.len(), |i: int| swap_lookup(all, bytes@[i]).unwrap()));
    Some(out)
}

/// Returns the bytes of `bytes` in reverse order.
pub fn reversed(bytes: &Vec<u8>) -> (r: Vec<u8>)
    ensures
        r@ == bytes@.reverse(),
{
    let len = bytes.len();
    let mut out: Vec<u8> = Vec::new();
    let mut i: usize = 0;
    while i < len
        invariant
            i <= len,
            len == bytes@.len(),
            out@.len() == i,
            forall|j: int| 0 <= j < i ==> out@[j] == bytes@[len - 1 - j],
        decreases len - i,
    {
        out.push(bytes[len - 1 - i]);
        i += 1;
    }
    assert(out@ =~= bytes@.reverse());
    out
}

/// What the state machine is looking for.
#[derive(Clone, Copy, Debug, PartialEq, Eq, Structural)]
pub enum Phase {
    /// The third `MAKE_FUNCTION`; the argument of the last `LOAD_CONST` is
    /// kept, which is the index of the function that holds the map.
    FindXorStart { make_functions_found: u8, function_index: u16 },
    /// The instructions that call that function, of which `matched` have
    /// been seen.
    FindSwapMap { matched: u8, function_index: u16 },
    /// The instructions that start the unpacking loop, of which `matched`
    /// have been seen.
    AssertInstructionSequence { matched: u8 },
    /// Nothing: the interpreter executes every instruction.
    ExecuteVm,
}

/// The opcode at index `i` of the instructions that call the function that
/// holds the substitution map.
pub open spec fn swap_call_opcode(i: int) -> Opcode {
    if i == 0 {
        Opcode::STORE_FAST
    } else if i == 1 || i == 2 {
        Opcode::BUILD_LIST
    } else if i == 3 || i == 4 {
        Opcode::LOAD_FAST
    } else {
        Opcode::CALL_FUNCTION
    }
}

/// The opcode at index `i` of the instructions that start the unpacking
/// loop.
pub open spec fn loop_start_opcode(i: int) -> Opcode {
    if i == 1 {
        Opcode::FOR_ITER
    } else {
        Opcode::GET_ITER
    }
}

/// The mathematical state of the state machine.
pub struct Stage2Value {
    pub code: CodeValue,
    pub outer: CodeValue,
    pub phase: Phase,
    pub vm: VmValue<()>,
}

/// The error that reports a constant of an unexpected kind.
pub open spec fn unexpected(place: &'static str, found: Option<Value>) -> Error {
    Error::ObjectError(
        place,
        match found {
            Some(v) => v.typ(),
            None => ObjType::PyNone,
        },
    )
}

/// The constant at `index`, if there is one.
pub open spec fn constant_at(consts: Seq<Value>, index: int) -> Option<Value> {
    if 0 <= index < consts.len() {
        Some(consts[index])
    } else {
        None
    }
}

/// The bytes that the unpacking loop consumes: the hidden bytecode after
/// the substitution map has been applied to it, in reverse order.
///
/// The map is the dictionary among the constants of the function at
/// `function_index` that the first `LOAD_CONST` of that function loads.
pub open spec fn substituted(code: CodeValue, outer: CodeValue, function_index: u16) -> Result<
    Seq<u8>,
    Error,
> {
    match constant_at(code.consts, function_index as int) {
        Some(Value::Code(function)) => {
            let (found, index) = walk::<FirstLoadConst>(
                function.code,
                function.consts,
                start(None, function.code.len()),
                STEP_LIMIT as nat,
            );
            match found {
                Err(e) => Err(e),
                Ok(_) => match index {
                    None => Err(unexpected("swap map index", None)),
                    Some(at) => match constant_at(function.consts, at as int) {
                        Some(Value::Dict(entries)) => match swapped(entries, outer.code) {
                            Some(bytes) => Ok(bytes.reverse()),
                            None => Err(unexpected("swap map value", None)),
                        },
                        other => Err(unexpected("swap map", other)),
                    },
                },
            }
        },
        other => Err(unexpected("swap map function", other)),
    }
}

/// A cell that holds a known string and no accesses.
pub open spec fn string_cell(bytes: Seq<u8>) -> TrackedValue<()> {
    TrackedValue { value: Some(Value::String(bytes)), accesses: Seq::empty() }
}

/// The state of the state machine after it has seen `instr` at `offset`,
/// and its reply to the walk. A reply that is an error leaves the state as
/// it was.
pub open spec fn stage2_step(st: Stage2Value, instr: Instruction, offset: u64) -> (
    Stage2Value,
    Result<WalkerState, Error>,
) {
    let refused = Err(Error::Execution(ExecutionError::UnsupportedOpcode(instr.opcode)));
    match st.phase {
        Phase::FindXorStart { make_functions_found, function_index } => {
            let function_index = if instr.opcode == Opcode::LOAD_CONST {
                match instr.arg {
                    Some(a) => a,
                    None => function_index,
                }
            } else {
                function_index
            };
            let found = if instr.opcode == Opcode::MAKE_FUNCTION && make_functions_found < 3 {
                (make_functions_found + 1) as u8
            } else {
                make_functions_found
            };
            if found == 3 {
                (
                    Stage2Value {
                        phase: Phase::FindSwapMap { matched: 0, function_index },
                        ..st
                    },
                    Ok(WalkerState::ContinueIgnoreAnalyzedInstructions),
                )
            } else {
                (
                    Stage2Value {
                        phase: Phase::FindXorStart { make_functions_found: found, function_index },
                        ..st
                    },
                    Ok(WalkerState::Continue),
                )
            }
        },
        Phase::FindSwapMap { matched, function_index } => {
            if matched >= 6 || instr.opcode != swap_call_opcode(matched as int) {
                (st, refused)
            } else if matched < 5 {
                (
                    Stage2Value {
                        phase: Phase::FindSwapMap { matched: (matched + 1) as u8, function_index },
                        ..st
                    },
                    Ok(WalkerState::ContinueIgnoreAnalyzedInstructions),
                )
            } else {
                match substituted(st.code, st.outer, function_index) {
                    Err(e) => (st, Err(e)),
                    Ok(bytes) => (
                        Stage2Value {
                            phase: Phase::AssertInstructionSequence { matched: 0 },
                            vm: VmValue {
                                stack: seq![string_cell(Seq::empty()), string_cell(bytes)],
                                vars: Map::empty(),
                                names: Map::empty(),
                            },
                            ..st
                        },
                        Ok(WalkerState::ContinueIgnoreAnalyzedInstructions),
                    ),
                }
            }
        },
        Phase::AssertInstructionSequence { matched } => {
            if matched >= 3 || instr.opcode != loop_start_opcode(matched as int) {
                (st, refused)
            } else {
                let phase = if matched == 2 {
                    Phase::ExecuteVm
                } else {
                    Phase::AssertInstructionSequence { matched: (matched + 1) as u8 }
                };
                let arg = match instr.arg {
                    Some(a) => a as int,
                    None => 0,
                };
                if instr.opcode == Opcode::FOR_ITER {
                    if offset + 3 + arg > u64::MAX {
                        (st, Err(Error::JumpOutOfRange))
                    } else {
                        (
                            Stage2Value { phase, ..st },
                            Ok(WalkerState::JumpTo((offset + 3 + arg) as u64)),
                        )
                    }
                } else {
                    (
                        Stage2Value { phase, ..st },
                        Ok(WalkerState::ContinueIgnoreAnalyzedInstructions),
                    )
                }
            }
        },
        Phase::ExecuteVm => {
            if st.vm.stack.len() < 2 {
                (st, Err(unexpected("stage2 stack", None)))
            } else if instr.opcode == Opcode::FOR_ITER && (st.vm.stack[1].value matches Some(
                Value::String(s),
            ) && s.len() == 0) {
                (st, Ok(WalkerState::Break))
            } else {
                match step(ChrResolver, instr, st.code, st.vm, ()) {
                    Ok(vm) => (
                        Stage2Value { vm, ..st },
                        Ok(WalkerState::ContinueIgnoreAnalyzedInstructions),
                    ),
                    Err(e) => (st, Err(Error::Execution(e))),
                }
            }
        },
    }
}

/// The bytes that the unpacking code has built when the state machine is
/// in the state `st`: the string at the bottom of the stack of the
/// interpreter, in reverse order, and nothing if the interpreter has not
/// been started.
pub open spec fn unpacked_bytes(st: Stage2Value) -> Result<Seq<u8>, Error> {
    if st.vm.stack.len() == 0 {
        Ok(Seq::empty())
    } else {
        match st.vm.stack[0].value {
            Some(Value::String(bytes)) => Ok(bytes.reverse()),
            other => Err(unexpected("stage2 output", other)),
        }
    }
}

/// The state in which the state machine starts.
pub open spec fn stage2_start(code: CodeValue, outer: CodeValue) -> Stage2Value {
    Stage2Value {
        code,
        outer,
        phase: Phase::FindXorStart { make_functions_found: 0, function_index: 0 },
        vm: VmValue { stack: Seq::empty(), vars: Map::empty(), names: Map::empty() },
    }
}

/// The bytecode that the unpacking code `code` recovers from the bytecode
/// of `outer`: what the state machine has built when the walk over `code`
/// ends.
pub open spec fn stage2_output(code: CodeValue, outer: CodeValue) -> Result<Seq<u8>, Error> {
    let (found, st) = walk::<Stage2>(
        code.code,
        code.consts,
        start(stage2_start(code, outer), code.code.len()),
        STEP_LIMIT as nat,
    );
    match found {
        Err(e) => Err(e),
        Ok(_) => unpacked_bytes(st),
    }
}

/// The state machine that drives the walk over the unpacking code.
pub struct Stage2<'a> {
    pub code: &'a Code,
    pub outer: &'a Code,
    pub phase: Phase,
    pub stack: VmStack<()>,
    pub vars: VmVars<()>,
    pub names: VmNames<()>,
}

/// Returns the opcode at index `i` of the instructions that call the
/// function that holds the substitution map.
fn expected_swap_call(i: u8) -> (r: Opcode)
    ensures
        r == swap_call_opcode(i as int),
{
    if i == 0 {
        Opcode::STORE_FAST
    } else if i == 1 || i == 2 {
        Opcode::BUILD_LIST
    } else if i == 3 || i == 4 {
        Opcode::LOAD_FAST
    } else {
        Opcode::CALL_FUNCTION
    }
}

/// Returns the bytes that the unpacking loop consumes.
fn substitute(code: &Code, outer: &Code, function_index: u16) -> (r: Result<Vec<u8>, Error>)
    ensures
        r matches Ok(bytes) ==> substituted(code@, outer@, function_index) == Ok::<Seq<u8>, Error>(
            bytes@,
        ),
        r matches Err(e) ==> substituted(code@, outer@, function_index) == Err::<Seq<u8>, Error>(e),
{
    proof {
        lemma_values_of(code.consts@);
        lemma_code_value(*code);
        lemma_code_value(*outer);
    }
    if function_index as usize >= code.consts.len() {
        return Err(Error::ObjectError("swap map function", ObjType::PyNone));
    }
    proof {
        lemma_value_of_nested(code.consts@[function_index as int]);
    }
    match &code.consts[function_index as usize] {
        Obj::Code(boxed) => {
            let function: &Code = &**boxed;
            proof {
                lemma_values_of(function.consts@);
                lemma_code_value(*function);
            }
            let mut callback = FirstLoadConst { found: None };
            let found = const_jmp_instruction_walker(
                function.code.as_slice(),
                &function.consts,
                &mut callback,
            );
            match found {
                Err(e) => Err(e),
                Ok(_) => match callback.found {
                    None => Err(Error::ObjectError("swap map index", ObjType::PyNone)),
                    Some(at) => {
                        if at as usize >= function.consts.len() {
                            return Err(Error::ObjectError("swap map", ObjType::PyNone));
                        }
                        proof {
                            lemma_value_of_nested(function.consts@[at as int]);
                        }
                        match &function.consts[at as usize] {
                            Obj::Dict(entries) => {
                                assert(value_of(function.consts@[at as int])->Dict_0
                                    =~= entry_values(entries@));
                                match apply_swapmap(entries, &outer.code) {
                                    Some(bytes) => Ok(reversed(&bytes)),
                                    None => Err(
                                        Error::ObjectError("swap map value", ObjType::PyNone),
                                    ),
                                }
                            },
                            other => Err(Error::ObjectError("swap map", other.typ())),
                        }
                    },
                },
            }
        },
        other => Err(Error::ObjectError("swap map function", other.typ())),
    }
}

impl<'a> WalkerCallback for Stage2<'a> {
    type State = Stage2Value;

    open spec fn state(&self) -> Stage2Value {
        Stage2Value {
            code: (*self.code)@,
            outer: (*self.outer)@,
            phase: self.phase,
            vm: vm_value(self.stack, self.vars, self.names),
        }
    }

    open spec fn visited(state: Stage2Value, instr: Instruction, offset: u64) -> (
        Stage2Value,
        Result<WalkerState, Error>,
    ) {
        stage2_step(state, instr, offset)
    }

    fn visit(&mut self, instr: &Instruction, offset: u64) -> (r: Result<WalkerState, Error>) {
        let refused = Err(Error::Execution(ExecutionError::UnsupportedOpcode(instr.opcode)));
        match self.phase {
            Phase::FindXorStart { make_functions_found, function_index } => {
                let function_index = if instr.opcode == Opcode::LOAD_CONST {
                    match instr.arg {
                        Some(a) => a,
                        None => function_index,
                    }
                } else {
                    function_index
                };
                let found = if instr.opcode == Opcode::MAKE_FUNCTION && make_functions_found < 3 {
                    make_functions_found + 1
                } else {
                    make_functions_found
                };
                if found == 3 {
                    self.phase = Phase::FindSwapMap { matched: 0, function_index };
                    Ok(WalkerState::ContinueIgnoreAnalyzedInstructions)
                } else {
                    self.phase = Phase::FindXorStart { make_functions_found: found, function_index };
                    Ok(WalkerState::Continue)
                }
            },
            Phase::FindSwapMap { matched, function_index } => {
                if matched >= 6 || instr.opcode != expected_swap_call(matched) {
                    refused
                } else if matched < 5 {
                    self.phase = Phase::FindSwapMap { matched: matched + 1, function_index };
                    Ok(WalkerState::ContinueIgnoreAnalyzedInstructions)
                } else {
                    match substitute(self.code, self.outer, function_index) {
                        Err(e) => Err(e),
                        Ok(bytes) => {
                            let mut stack: VmStack<()> = Vec::new();
                            stack.push(
                                VmVarWithTracking {
                                    value: Some(Obj::String(Vec::new())),
                                    accesses: Vec::new(),
                                },
                            );
                            stack.push(
                                VmVarWithTracking {
                                    value: Some(Obj::String(bytes)),
                                    accesses: Vec::new(),
                                },
                            );
                            let vars: VmVars<()> = HashMap::new();
                            let names: VmNames<()> = Vec::new();
                            proof {
                                let vm = vm_value(stack, vars, names);
                                assert(vm.stack =~= seq![
                                    string_cell(Seq::empty()),
                                    string_cell(bytes@),
                                ]);
                                assert(vm.vars =~= Map::empty());
                                assert(vm.names =~= Map::empty());
                            }
                            self.stack = stack;
                            self.vars = vars;
                            self.names = names;
                            self.phase = Phase::AssertInstructionSequence { matched: 0 };
                            Ok(WalkerState::ContinueIgnoreAnalyzedInstructions)
                        },
                    }
                }
            },
            Phase::AssertInstructionSequence { matched } => {
                let expected = if matched == 1 {
                    Opcode::FOR_ITER
                } else {
                    Opcode::GET_ITER
                };
                if matched >= 3 || instr.opcode != expected {
                    refused
                } else {
                    let phase = if matched == 2 {
                        Phase::ExecuteVm
                    } else {
                        Phase::AssertInstructionSequence { matched: matched + 1 }
                    };
                    let arg: u64 = match instr.arg {
                        Some(a) => a as u64,
                        None => 0,
                    };
                    if instr.opcode == Opcode::FOR_ITER {
                        if offset > u64::MAX - 3 - arg {
                            Err(Error::JumpOutOfRange)
                        } else {
                            self.phase = phase;
                            Ok(WalkerState::JumpTo(offset + 3 + arg))
                        }
                    } else {
                        self.phase = phase;
                        Ok(WalkerState::ContinueIgnoreAnalyzedInstructions)
                    }
                }
            },
            Phase::ExecuteVm => {
                if self.stack.len() < 2 {
                    return Err(Error::ObjectError("stage2 stack", ObjType::PyNone));
                }
                let drained = match &self.stack[1].value {
                    Some(Obj::String(s)) => s.len() == 0,
                    _ => false,
                };
                if instr.opcode == Opcode::FOR_ITER && drained {
                    return Ok(WalkerState::Break);
                }
                let resolver = ChrResolver;
                match execute_instruction(
                    instr,
                    self.code,
                    &mut self.stack,
                    &mut self.vars,
                    &mut self.names,
                    &resolver,
                    (),
                ) {
                    Ok(()) => Ok(WalkerState::ContinueIgnoreAnalyzedInstructions),
                    Err(e) => Err(Error::Execution(e)),
                }
            },
        }
    }
}

/// Recovers the bytecode that the unpacking code `code` unpacks from the
/// bytecode of `outer_code`.
///
/// The result is that of [`stage2_output`]: the walk over `code` is driven
/// by the state machine of [`stage2_step`], and what the machine has built
/// at the end of the walk is returned.
pub fn exec_stage2(code: &Code, outer_code: &Code) -> (r: Result<Vec<u8>, Error>)
    ensures
        r matches Ok(bytes) ==> stage2_output(code@, outer_code@) == Ok::<Seq<u8>, Error>(bytes@),
        r matches Err(e) ==> stage2_output(code@, outer_code@) == Err::<Seq<u8>, Error>(e),
{
    let mut machine = Stage2 {
        code,
        outer: outer_code,
        phase: Phase::FindXorStart { make_functions_found: 0, function_index: 0 },
        stack: Vec::new(),
        vars: HashMap::new(),
        names: Vec::new(),
    };
    proof {
        lemma_values_of(code.consts@);
        lemma_code_value(*code);
        let vm = vm_value(machine.stack, machine.vars, machine.names);
        assert(vm.stack =~= Seq::empty());
        assert(vm.vars =~= Map::empty());
        assert(vm.names =~= Map::empty());
        assert(machine.state() == stage2_start(code@, outer_code@));
    }
    let found = const_jmp_instruction_walker(code.code.as_slice(), &code.consts, &mut machine);
    match found {
        Err(e) => Err(e),
        Ok(_) => {
            if machine.stack.len() == 0 {
                return Ok(Vec::new());
            }
            match &machine.stack[0].value {
                Some(Obj::String(bytes)) => Ok(reversed(bytes)),
                Some(other) => Err(Error::ObjectError("stage2 output", other.typ())),
                None => Err(Error::ObjectError("stage2 output", ObjType::PyNone)),
            }
        },
    }
}

} // verus!

//! The pass that removes conditional jumps whose outcome is constant.
//!
//! For every block that ends in a conditional jump, the interpreter runs
//! the instructions on the path from the entry to the block, if control
//! can reach the block in one way only, and then the instructions of the
//! block. Where the value that the jump tests is known, the jump is
//! replaced by the branch that is always taken, and the instructions of the
//! block that produced the value are removed if nothing else uses what they
//! produced.

use vstd::prelude::*;
use std::collections::HashMap;
use crate::code_graph::{
    conditional_jump, copy_entries, ending, is_plain, keeps_condition, BasicBlock, BlockValue, CodeGraph, Ending, GraphValue,
};
use crate::reachability::pruned;
use crate::error::{Error, ExecutionError};
use crate::instruction::Instruction;
use crate::object::{lemma_code_value, Code, CodeValue, ObjType, Value};
use crate::opcode::Opcode;
use crate::paths::{entries_value, path_before, paths_kept, pops_value, PATH_LIMIT};
use crate::semantics::{
    stack_value, step, top, vm_value, FunctionResolver, TrackedValue, VmNames, VmStack, VmValue,
    VmVar, VmVarWithTracking, VmVars,
};
use crate::smallvm::execute_instruction;
use crate::walker::ParsedInstr;

verus! {

/// A resolver that knows no function: every call yields an unknown value.
pub struct Unresolved;

impl FunctionResolver for Unresolved {
    open spec fn resolved(
        &self,
        function: Option<Value>,
        args: Seq<Option<Value>>,
        kwargs: Seq<(Option<Value>, Option<Value>)>,
    ) -> Result<Option<Value>, Option<ObjType>> {
        Ok(None)
    }

    fn resolve(&self, function: &VmVar, args: &Vec<VmVar>, kwargs: &Vec<(VmVar, VmVar)>) -> (r:
        Result<VmVar, Option<ObjType>>) {
        Ok(None)
    }
}

/// The greatest number of unknown values that the interpreter is started
/// with.
pub const MAX_ENTRY_DEPTH: u32 = 0xffff;

/// The number of unknown values that the interpreter is started with for a
/// code object: the size of its stack, which no block can exceed.
pub open spec fn entry_depth(code: CodeValue) -> nat {
    if code.stacksize <= MAX_ENTRY_DEPTH {
        code.stacksize as nat
    } else {
        MAX_ENTRY_DEPTH as nat
    }
}

/// The state in which the interpreter starts at the entry of a block: the
/// stack holds `depth` unknown values without accesses, which stand for
/// what the blocks before left, and no variable and no name is stored.
pub open spec fn entry_vm<T>(depth: nat) -> VmValue<T> {
    VmValue {
        stack: Seq::new(depth, |i: int| TrackedValue { value: None, accesses: Seq::empty() }),
        vars: Map::empty(),
        names: Map::empty(),
    }
}

/// The state of the interpreter after the first `k` entries of `instrs`,
/// started with `depth` unknown values on the stack. Each instruction is
/// recorded under its index in `instrs`. Bad entries are passed over.
pub open spec fn run_block(code: CodeValue, depth: nat, instrs: Seq<ParsedInstr>, k: nat) -> Result<
    VmValue<usize>,
    ExecutionError,
>
    decreases k,
{
    if k == 0 {
        Ok(entry_vm(depth))
    } else {
        match run_block(code, depth, instrs, (k - 1) as nat) {
            Err(e) => Err(e),
            Ok(st) => match instrs[k - 1] {
                ParsedInstr::Good(i) => step(Unresolved, i, code, st, (k - 1) as usize),
                ParsedInstr::Bad => Ok(st),
            },
        }
    }
}

/// Whether one of the first `k` entries of a block stores a variable or a
/// name.
pub open spec fn stores_before(instrs: Seq<ParsedInstr>, k: int) -> bool {
    exists|j: int|
        0 <= j < k && (#[trigger] instrs[j] matches ParsedInstr::Good(i) && (i.opcode
            == Opcode::STORE_FAST || i.opcode == Opcode::STORE_NAME))
}

/// Whether two sequences of accesses have no access in common.
pub open spec fn disjoint(a: Seq<usize>, b: Seq<usize>) -> bool {
    forall|i: int, j: int| 0 <= i < a.len() && 0 <= j < b.len() ==> a[i] != b[j]
}

/// Whether the instructions that contributed to the topmost cell
/// contributed to nothing else that the interpreter still holds: no cell
/// below the top shares an access with it.
pub open spec fn top_is_exclusive(stack: Seq<TrackedValue<usize>>) -> bool {
    forall|p: int|
        0 <= p < stack.len() - 1 ==> disjoint((#[trigger] stack[p]).accesses, top(stack, 0).accesses)
}

/// Whether none of the instructions at the indices `accesses` loads a
/// variable or a name. A variable that was never stored loads as its own
/// identifier, which says nothing of the value that it will hold.
pub open spec fn from_constants(instrs: Seq<ParsedInstr>, accesses: Seq<usize>) -> bool {
    forall|j: int|
        0 <= j < accesses.len() ==> !loads_variable(instrs, #[trigger] accesses[j] as int)
}

/// Whether the entry at index `k` loads a variable or a name.
pub open spec fn loads_variable(instrs: Seq<ParsedInstr>, k: int) -> bool {
    0 <= k < instrs.len() && (instrs[k] matches ParsedInstr::Good(i) && (i.opcode
        == Opcode::LOAD_FAST || i.opcode == Opcode::LOAD_NAME))
}

/// What is known of the conditional jump that ends a block.
pub struct Verdict {
    /// Whether the jump is taken.
    pub taken: bool,
    /// The indices of the instructions that contributed to the tested
    /// value, counted from the start of the path that leads to the block.
    pub accesses: Seq<usize>,
    /// The number of instructions on the path that leads to the block:
    /// the index under which the first instruction of the block is
    /// recorded.
    pub offset: usize,
    /// Whether the instructions that contributed to the tested value are
    /// instructions of the block that contributed to nothing else.
    pub exclusive: bool,
}

/// The instructions that the interpreter runs before a block: those of
/// the path that leads to the block, if there is one.
pub open spec fn run_before(path: Option<Seq<ParsedInstr>>) -> Seq<ParsedInstr> {
    match path {
        Some(before) => before,
        None => Seq::empty(),
    }
}

/// The number of unknown values that the interpreter is started with:
/// none at the entry of the graph, where a path starts, and the size of the
/// stack where a block has no path.
pub open spec fn depth_before(code: CodeValue, path: Option<Seq<ParsedInstr>>) -> nat {
    match path {
        Some(_) => 0,
        None => entry_depth(code),
    }
}

/// Whether every access lies at index `from` or behind it.
pub open spec fn from_index(accesses: Seq<usize>, from: int) -> bool {
    forall|j: int| 0 <= j < accesses.len() ==> #[trigger] accesses[j] >= from
}

/// The verdict on the conditional jump that ends a block to which `path`
/// leads: `None` if the block does not end in one, if the truth of the
/// value that it tests is not known after the interpreter has run the path
/// and the block, or if a load of a variable contributed to that value; and
/// the refusal of the interpreter if it refuses an instruction.
pub open spec fn verdict_of(
    code: CodeValue,
    path: Option<Seq<ParsedInstr>>,
    instrs: Seq<ParsedInstr>,
) -> Result<Option<Verdict>, ExecutionError> {
    match conditional_jump(instrs) {
        None => Ok(None),
        Some(jump) => judged(
            code,
            depth_before(code, path),
            run_before(path),
            instrs.drop_last(),
            jump.opcode.jumps_if_true_spec(),
        ),
    }
}

/// The verdict on a conditional jump that follows the entries `before`
/// of the path and `body` of the block, and is taken if the value that it
/// tests is `jumps_if`.
pub open spec fn judged(
    code: CodeValue,
    depth: nat,
    before: Seq<ParsedInstr>,
    body: Seq<ParsedInstr>,
    jumps_if: bool,
) -> Result<Option<Verdict>, ExecutionError> {
    let all = before + body;
    match run_block(code, depth, all, all.len()) {
        Err(e) => Err(e),
        Ok(st) => if st.stack.len() == 0 || !from_constants(all, top(st.stack, 0).accesses) {
            Ok(None)
        } else {
            match top(st.stack, 0).value {
                None => Ok(None),
                Some(v) => match v.truthiness() {
                    None => Ok(None),
                    Some(truth) => Ok(
                        Some(
                            Verdict {
                                taken: truth == jumps_if,
                                accesses: top(st.stack, 0).accesses,
                                offset: before.len() as usize,
                                exclusive: top_is_exclusive(st.stack) && !stores_before(
                                    all,
                                    all.len() as int,
                                ) && from_index(top(st.stack, 0).accesses, before.len() as int),
                            },
                        ),
                    ),
                },
            }
        },
    }
}

/// The entries of `instrs` that are not recorded among `accesses`, where
/// the entry at index `k` is recorded under `offset + k`.
pub open spec fn without(instrs: Seq<ParsedInstr>, accesses: Seq<usize>, offset: usize) -> Seq<
    ParsedInstr,
>
    decreases instrs.len(),
{
    if instrs.len() == 0 {
        Seq::empty()
    } else {
        let before = without(instrs.drop_last(), accesses, offset);
        if offset + instrs.len() - 1 <= usize::MAX && accesses.contains(
            (offset + instrs.len() - 1) as usize,
        ) {
            before
        } else {
            before.push(instrs.last())
        }
    }
}

/// The indices of the entries of `instrs` that are not recorded among
/// `accesses`, in order.
pub open spec fn kept_indices(instrs: Seq<ParsedInstr>, accesses: Seq<usize>, offset: usize) -> Seq<
    int,
>
    decreases instrs.len(),
{
    if instrs.len() == 0 {
        Seq::empty()
    } else {
        let before = kept_indices(instrs.drop_last(), accesses, offset);
        if offset + instrs.len() - 1 <= usize::MAX && accesses.contains(
            (offset + instrs.len() - 1) as usize,
        ) {
            before
        } else {
            before.push(instrs.len() - 1)
        }
    }
}

/// Whether the entry at index `k` of a block, recorded under `offset + k`,
/// is among `accesses`.
pub open spec fn is_recorded(accesses: Seq<usize>, offset: usize, k: int) -> bool {
    offset + k <= usize::MAX && accesses.contains((offset + k) as usize)
}

/// What is left of a block when the instructions that produced a value
/// are removed: the entries that are not recorded among the accesses, each
/// once and in the order of the block, and no entry that is recorded.
pub proof fn lemma_without_keeps_the_rest(
    instrs: Seq<ParsedInstr>,
    accesses: Seq<usize>,
    offset: usize,
)
    ensures
        ({
            let kept = without(instrs, accesses, offset);
            let at = kept_indices(instrs, accesses, offset);
            &&& kept.len() == at.len()
            &&& forall|k: int|
                0 <= k < at.len() ==> 0 <= #[trigger] at[k] < instrs.len() && kept[k]
                    == instrs[at[k]] && !is_recorded(accesses, offset, at[k])
            &&& forall|j: int, k: int| 0 <= j < k < at.len() ==> at[j] < at[k]
            &&& forall|i: int|
                0 <= i < instrs.len() && !is_recorded(accesses, offset, i) ==> at.contains(i)
        }),
    decreases instrs.len(),
{
    if instrs.len() > 0 {
        let front = instrs.drop_last();
        lemma_without_keeps_the_rest(front, accesses, offset);
        let kept = without(instrs, accesses, offset);
        let at = kept_indices(instrs, accesses, offset);
        let before = kept_indices(front, accesses, offset);
        let last = instrs.len() - 1;
        assert forall|k: int| 0 <= k < at.len() implies 0 <= #[trigger] at[k] < instrs.len()
            && kept[k] == instrs[at[k]] && !is_recorded(accesses, offset, at[k]) by {
            if k < before.len() {
                assert(at[k] == before[k]);
                assert(front[before[k]] == instrs[before[k]]);
            }
        }
        assert forall|j: int, k: int| 0 <= j < k < at.len() implies at[j] < at[k] by {
            assert(at[j] == before[j]);
            if k < before.len() {
                assert(at[k] == before[k]);
            }
        }
        assert forall|i: int|
            0 <= i < instrs.len() && !is_recorded(accesses, offset, i) implies at.contains(i) by {
            if i < last {
                assert(before.contains(i));
                let k = choose|k: int| 0 <= k < before.len() && before[k] == i;
                assert(at[k] == i);
            } else {
                assert(at[at.len() - 1] == i);
            }
        }
    }
}

/// A conditional jump that is never taken, and whose tested value nothing
/// else uses, leaves no trace when its verdict is carried out: the block
/// holds neither the jump nor the instructions that produced the value, it
/// holds its other entries as they were, and it has no edge to the target
/// of the jump.
pub proof fn lemma_resolved_untaken(g: GraphValue, b: int, jump: Instruction, v: Verdict)
    requires
        0 <= b < g.blocks.len(),
        b < g.jump.len(),
        conditional_jump(g.blocks[b].instrs) == Some(jump),
        !v.taken,
        v.exclusive,
    ensures
        ({
            let r = resolved_block(g, b, jump, v);
            &&& r.blocks[b].instrs == without(g.blocks[b].instrs.drop_last(), v.accesses, v.offset)
            &&& r.jump[b] is None
            &&& r.next == g.next
            &&& r.live == g.live
        }),
{
}

/// The entries of a block that ends in a conditional jump after the
/// verdict on the jump has been carried out.
///
/// If the jump takes the tested value off the stack, the instructions that
/// produced the value are removed where they produced nothing else, and a
/// `POP_TOP` takes the value off the stack otherwise. A jump that is taken
/// becomes an unconditional jump to the same target, and a jump that is not
/// taken is removed.
pub open spec fn resolved_instrs(instrs: Seq<ParsedInstr>, jump: Instruction, v: Verdict) -> Seq<
    ParsedInstr,
> {
    let body = instrs.drop_last();
    let kept = if !pops_value(jump, v.taken) {
        body
    } else if v.exclusive {
        without(body, v.accesses, v.offset)
    } else {
        body.push(ParsedInstr::Good(Instruction { opcode: Opcode::POP_TOP, arg: None }))
    };
    if v.taken {
        kept.push(ParsedInstr::Good(Instruction { opcode: Opcode::JUMP_ABSOLUTE, arg: jump.arg }))
    } else {
        kept
    }
}

/// The entries of a block that are kept are plain if all were.
pub proof fn lemma_without_plain(instrs: Seq<ParsedInstr>, accesses: Seq<usize>, offset: usize)
    requires
        forall|k: int| 0 <= k < instrs.len() ==> is_plain(#[trigger] instrs[k]),
    ensures
        forall|k: int|
            0 <= k < without(instrs, accesses, offset).len() ==> is_plain(
                #[trigger] without(instrs, accesses, offset)[k],
            ),
    decreases instrs.len(),
{
    if instrs.len() > 0 {
        let front = instrs.drop_last();
        assert forall|k: int| 0 <= k < front.len() implies is_plain(#[trigger] front[k]) by {
            assert(front[k] == instrs[k]);
        }
        lemma_without_plain(front, accesses, offset);
        assert(is_plain(instrs[instrs.len() - 1]));
        let kept = without(instrs, accesses, offset);
        let before = without(front, accesses, offset);
        assert forall|k: int| 0 <= k < kept.len() implies is_plain(#[trigger] kept[k]) by {
            if k < before.len() {
                assert(kept[k] == before[k]);
            } else {
                assert(kept[k] == instrs.last());
            }
        }
    }
}

/// Returns whether `x` is among `accesses`.
fn is_accessed(accesses: &Vec<usize>, x: usize) -> (r: bool)
    ensures
        r == accesses@.contains(x),
{
    let mut i: usize = 0;
    while i < accesses.len()
        invariant
            i <= accesses@.len(),
            forall|j: int| 0 <= j < i ==> accesses@[j] != x,
        decreases accesses@.len() - i,
    {
        if accesses[i] == x {
            return true;
        }
        i += 1;
    }
    false
}

/// Returns whether two sequences of accesses have no access in common.
fn are_disjoint(a: &Vec<usize>, b: &Vec<usize>) -> (r: bool)
    ensures
        r == disjoint(a@, b@),
{
    let mut i: usize = 0;
    while i < a.len()
        invariant
            i <= a@.len(),
            forall|x: int, y: int| 0 <= x < i && 0 <= y < b@.len() ==> a@[x] != b@[y],
        decreases a@.len() - i,
    {
        if is_accessed(b, a[i]) {
            return false;
        }
        i += 1;
    }
    true
}

/// Returns whether no cell below the top of the stack shares an access
/// with the topmost cell.
fn exclusive_top(stack: &VmStack<usize>) -> (r: bool)
    requires
        stack@.len() > 0,
    ensures
        r == top_is_exclusive(stack_value(stack@)),
{
    let len = stack.len();
    let ghost s = stack_value(stack@);
    let mut p: usize = 0;
    while p < len - 1
        invariant
            p <= len - 1,
            len == stack@.len(),
            s == stack_value(stack@),
            forall|q: int|
                0 <= q < p ==> disjoint((#[trigger] s[q]).accesses, top(s, 0).accesses),
        decreases len - 1 - p,
    {
        if !are_disjoint(&stack[p].accesses, &stack[len - 1].accesses) {
            assert(!disjoint(s[p as int].accesses, top(s, 0).accesses));
            return false;
        }
        p += 1;
    }
    true
}

/// Returns whether none of the instructions at the indices `accesses`
/// loads a variable or a name.
fn sourced_from_constants(instrs: &Vec<ParsedInstr>, accesses: &Vec<usize>) -> (r: bool)
    ensures
        r == from_constants(instrs@, accesses@),
{
    let mut j: usize = 0;
    while j < accesses.len()
        invariant
            j <= accesses@.len(),
            forall|x: int| 0 <= x < j ==> !loads_variable(instrs@, #[trigger] accesses@[x] as int),
        decreases accesses@.len() - j,
    {
        let k = accesses[j];
        if k < instrs.len() {
            match instrs[k] {
                ParsedInstr::Good(i) => {
                    if i.opcode == Opcode::LOAD_FAST || i.opcode == Opcode::LOAD_NAME {
                        assert(loads_variable(instrs@, accesses@[j as int] as int));
                        return false;
                    }
                },
                ParsedInstr::Bad => {},
            }
        }
        j += 1;
    }
    true
}

/// Returns whether every access lies at index `from` or behind it.
fn all_from_index(accesses: &Vec<usize>, from: usize) -> (r: bool)
    ensures
        r == from_index(accesses@, from as int),
{
    let mut j: usize = 0;
    while j < accesses.len()
        invariant
            j <= accesses@.len(),
            forall|x: int| 0 <= x < j ==> #[trigger] accesses@[x] >= from,
        decreases accesses@.len() - j,
    {
        if accesses[j] < from {
            return false;
        }
        j += 1;
    }
    true
}

/// The verdict on a conditional jump, as the pass computes it.
pub struct Judgement {
    pub taken: bool,
    pub accesses: Vec<usize>,
    pub offset: usize,
    pub exclusive: bool,
}

impl View for Judgement {
    type V = Verdict;

    open spec fn view(&self) -> Verdict {
        Verdict {
            taken: self.taken,
            accesses: self.accesses@,
            offset: self.offset,
            exclusive: self.exclusive,
        }
    }
}

/// The value of an optional judgement.
pub open spec fn judgement_value(j: Option<Judgement>) -> Option<Verdict> {
    match j {
        Some(j) => Some(j@),
        None => None,
    }
}

/// Runs the interpreter on the path that leads to a block, if there is
/// one, and on the block, and returns the verdict on the conditional jump
/// that ends the block.
pub fn judge(code: &Code, path: &Option<Vec<ParsedInstr>>, instrs: &Vec<ParsedInstr>) -> (r: Result<
    Option<Judgement>,
    ExecutionError,
>)
    ensures
        r matches Ok(j) ==> verdict_of(code@, entries_value(*path), instrs@) == Ok::<
            Option<Verdict>,
            ExecutionError,
        >(judgement_value(j)),
        r matches Err(e) ==> verdict_of(code@, entries_value(*path), instrs@) == Err::<
            Option<Verdict>,
            ExecutionError,
        >(e),
{
    if instrs.len() == 0 {
        return Ok(None);
    }
    let jump = match instrs[instrs.len() - 1] {
        ParsedInstr::Good(i) => i,
        ParsedInstr::Bad => {
            return Ok(None);
        },
    };
    if !jump.opcode.is_conditional_jump() {
        return Ok(None);
    }
    let mut all: Vec<ParsedInstr> = match path {
        Some(before) => copy_entries(before),
        None => Vec::new(),
    };
    let offset = all.len();
    let ghost before = all@;
    assert(before == run_before(entries_value(*path)));
    let mut i: usize = 0;
    while i < instrs.len() - 1
        invariant
            i <= instrs@.len() - 1,
            all@ == before + instrs@.subrange(0, i as int),
        decreases instrs@.len() - i,
    {
        all.push(instrs[i]);
        assert(all@ =~= before + instrs@.subrange(0, i + 1));
        i += 1;
    }
    assert(all@ =~= before + instrs@.drop_last());
    let len = all.len();
    let mut stack: VmStack<usize> = Vec::new();
    let vars_at_entry: VmVars<usize> = HashMap::new();
    let mut vars = vars_at_entry;
    let mut names: VmNames<usize> = Vec::new();
    let depth: u32 = if path.is_some() {
        0
    } else if code.stacksize <= MAX_ENTRY_DEPTH {
        code.stacksize
    } else {
        MAX_ENTRY_DEPTH
    };
    let mut d: u32 = 0;
    while d < depth
        invariant
            d <= depth,
            stack@.len() == d,
            forall|i: int|
                0 <= i < d ==> (#[trigger] stack@[i])@ == (TrackedValue::<usize> {
                    value: None,
                    accesses: Seq::empty(),
                }),
        decreases depth - d,
    {
        stack.push(VmVarWithTracking { value: None, accesses: Vec::new() });
        d += 1;
    }
    let mut stored = false;
    let resolver = Unresolved;
    let mut k: usize = 0;
    let ghost start = depth_before(code@, entries_value(*path));
    proof {
        lemma_code_value(*code);
        assert(start == depth);
        let vm = vm_value(stack, vars, names);
        let expected = entry_vm::<usize>(start);
        assert(vm.stack =~= expected.stack);
        assert(vm.vars =~= expected.vars);
        assert(vm.names =~= expected.names);
    }
    while k < len
        invariant
            k <= len,
            len == all@.len(),
            all@ == run_before(entries_value(*path)) + instrs@.drop_last(),
            start == depth_before(code@, entries_value(*path)),
            conditional_jump(instrs@) == Some(jump),
            run_block(code@, start, all@, k as nat) == Ok::<VmValue<usize>, ExecutionError>(
                vm_value(stack, vars, names),
            ),
            stored == stores_before(all@, k as int),
        decreases len - k,
    {
        match all[k] {
            ParsedInstr::Good(i) => {
                if i.opcode == Opcode::STORE_FAST || i.opcode == Opcode::STORE_NAME {
                    stored = true;
                }
                match execute_instruction(&i, code, &mut stack, &mut vars, &mut names, &resolver, k) {
                    Ok(()) => {},
                    Err(e) => {
                        proof {
                            assert(run_block(code@, start, all@, (k + 1) as nat) == Err::<
                                VmValue<usize>,
                                ExecutionError,
                            >(e));
                            lemma_run_block_fails(code@, start, all@, (k + 1) as nat, len as nat);
                        }
                        return Err(e);
                    },
                }
            },
            ParsedInstr::Bad => {},
        }
        proof {
            if stored {
                if stores_before(all@, k as int) {
                    let j = choose|j: int|
                        0 <= j < k && (#[trigger] all@[j] matches ParsedInstr::Good(i) && (i.opcode
                            == Opcode::STORE_FAST || i.opcode == Opcode::STORE_NAME));
                    assert(0 <= j < k + 1);
                } else {
                    assert(all@[k as int] matches ParsedInstr::Good(i) && (i.opcode
                        == Opcode::STORE_FAST || i.opcode == Opcode::STORE_NAME));
                }
                assert(stores_before(all@, k + 1));
            } else {
                assert(!stores_before(all@, k + 1));
            }
        }
        k += 1;
    }
    if stack.len() == 0 {
        return Ok(None);
    }
    if !sourced_from_constants(&all, &stack[stack.len() - 1].accesses) {
        return Ok(None);
    }
    let truth = match &stack[stack.len() - 1].value {
        Some(v) => v.truthiness(),
        None => None,
    };
    match truth {
        Some(truth) => {
            let exclusive = exclusive_top(&stack) && !stored && all_from_index(
                &stack[stack.len() - 1].accesses,
                offset,
            );
            let mut accesses: Vec<usize> = Vec::new();
            let tested = &stack[stack.len() - 1].accesses;
            let mut i: usize = 0;
            while i < tested.len()
                invariant
                    i <= tested@.len(),
                    accesses@ == tested@.subrange(0, i as int),
                decreases tested@.len() - i,
            {
                accesses.push(tested[i]);
                assert(accesses@ =~= tested@.subrange(0, i + 1));
                i += 1;
            }
            assert(accesses@ =~= tested@);
            Ok(
                Some(
                    Judgement {
                        taken: truth == jump.opcode.jumps_if_true(),
                        accesses,
                        offset,
                        exclusive,
                    },
                ),
            )
        },
        None => Ok(None),
    }
}

/// Once the interpreter has refused an instruction of a block, every
/// longer run of the block ends in the same refusal.
pub proof fn lemma_run_block_fails(
    code: CodeValue,
    depth: nat,
    instrs: Seq<ParsedInstr>,
    k: nat,
    n: nat,
)
    requires
        k <= n,
        run_block(code, depth, instrs, k) is Err,
    ensures
        run_block(code, depth, instrs, n) == run_block(code, depth, instrs, k),
    decreases n - k,
{
    if k < n {
        lemma_run_block_fails(code, depth, instrs, k, (n - 1) as nat);
    }
}

/// Returns the entries of `instrs` that are not recorded among
/// `accesses`, where the entry at index `k` is recorded under `offset + k`.
fn remove_accessed(instrs: &Vec<ParsedInstr>, accesses: &Vec<usize>, offset: usize) -> (r: Vec<
    ParsedInstr,
>)
    ensures
        r@ == without(instrs@, accesses@, offset),
{
    let mut out: Vec<ParsedInstr> = Vec::new();
    let mut k: usize = 0;
    assert(instrs@.subrange(0, 0) =~= Seq::empty());
    while k < instrs.len()
        invariant
            k <= instrs@.len(),
            out@ == without(instrs@.subrange(0, k as int), accesses@, offset),
        decreases instrs@.len() - k,
    {
        proof {
            let more = instrs@.subrange(0, k + 1);
            assert(more.drop_last() =~= instrs@.subrange(0, k as int));
            assert(more.last() == instrs@[k as int]);
        }
        let recorded = k <= usize::MAX - offset && is_accessed(accesses, offset + k);
        if !recorded {
            out.push(instrs[k]);
        }
        k += 1;
    }
    assert(instrs@.subrange(0, k as int) =~= instrs@);
    out
}

/// The graph in which the verdict `v` on the conditional jump `jump` that
/// ends block `b` has been carried out: the block holds the entries of
/// [`resolved_instrs`] and keeps the edge of the branch that is taken.
pub open spec fn resolved_block(g: GraphValue, b: int, jump: Instruction, v: Verdict) -> GraphValue {
    GraphValue {
        blocks: g.blocks.update(
            b,
            BlockValue {
                start_offset: g.blocks[b].start_offset,
                end_offset: g.blocks[b].end_offset,
                instrs: resolved_instrs(g.blocks[b].instrs, jump, v),
                flags: g.blocks[b].flags,
            },
        ),
        next: if v.taken {
            g.next.update(b, None)
        } else {
            g.next
        },
        jump: if v.taken {
            g.jump
        } else {
            g.jump.update(b, None)
        },
        live: g.live,
        root: g.root,
        order: g.order,
    }
}

/// The graph in which the verdicts on the conditional jumps that end the
/// live blocks from block `b` on have been carried out, and whether there
/// was any; or the refusal of the interpreter for the first block in which
/// it refuses an instruction.
pub open spec fn resolve_from(g: GraphValue, code: CodeValue, b: nat) -> Result<
    (GraphValue, bool),
    ExecutionError,
>
    decreases g.blocks.len() - b,
{
    if b >= g.blocks.len() {
        Ok((g, false))
    } else if !g.live[b as int] {
        resolve_from(g, code, b + 1)
    } else {
        match verdict_of(
            code,
            path_before(g, b as usize, PATH_LIMIT as nat),
            g.blocks[b as int].instrs,
        ) {
            Err(e) => Err(e),
            Ok(None) => resolve_from(g, code, b + 1),
            Ok(Some(v)) => match resolve_from(
                resolved_block(
                    g,
                    b as int,
                    conditional_jump(g.blocks[b as int].instrs).unwrap(),
                    v,
                ),
                code,
                b + 1,
            ) {
                Ok((resolved, _)) => Ok((resolved, true)),
                Err(e) => Err(e),
            },
        }
    }
}

/// The graph without the conditional jumps whose outcome is constant, and
/// whether a jump was removed. If one was, the blocks that control can no
/// longer reach are removed as well.
pub open spec fn without_const_conditions(g: GraphValue, code: CodeValue) -> Result<
    (GraphValue, bool),
    Error,
> {
    match resolve_from(g, code, 0) {
        Ok((resolved, changed)) => if changed {
            Ok((pruned(resolved), true))
        } else {
            Ok((resolved, false))
        },
        Err(e) => Err(Error::Execution(e)),
    }
}

/// The result of a part of a scan, given whether the scan has changed
/// the graph before.
pub open spec fn or_changed(r: Result<(GraphValue, bool), ExecutionError>, changed: bool) -> Result<
    (GraphValue, bool),
    ExecutionError,
> {
    match r {
        Ok((g, c)) => Ok((g, c || changed)),
        Err(e) => Err(e),
    }
}

impl CodeGraph {
    /// Whether block `b` does not end in a conditional jump whose outcome
    /// the interpreter knows after it has run the path that leads to the
    /// block and the block.
    pub open spec fn settled(&self, code: CodeValue, b: int) -> bool {
        verdict_of(
            code,
            path_before(self@, b as usize, PATH_LIMIT as nat),
            self.blocks@[b].instrs@,
        ) == Ok::<Option<Verdict>, ExecutionError>(None)
    }

    /// Returns the verdict on the conditional jump that ends block `b`.
    pub fn judge_block(&self, code: &Code, b: usize) -> (r: Result<
        Option<Judgement>,
        ExecutionError,
    >)
        requires
            self.wf(),
            self.is_live(b as int),
        ensures
            r matches Ok(j) ==> verdict_of(
                code@,
                path_before(self@, b, PATH_LIMIT as nat),
                self.blocks@[b as int].instrs@,
            ) == Ok::<Option<Verdict>, ExecutionError>(judgement_value(j)),
            r matches Err(e) ==> verdict_of(
                code@,
                path_before(self@, b, PATH_LIMIT as nat),
                self.blocks@[b as int].instrs@,
            ) == Err::<Option<Verdict>, ExecutionError>(e),
    {
        let instrs = &self.blocks[b].instrs;
        let conditional = instrs.len() > 0 && match instrs[instrs.len() - 1] {
            ParsedInstr::Good(i) => i.opcode.is_conditional_jump(),
            ParsedInstr::Bad => false,
        };
        if !conditional {
            return Ok(None);
        }
        let path = self.path_before_block(b, PATH_LIMIT);
        judge(code, &path, instrs)
    }

    /// Carries out the verdict on the conditional jump that ends block `b`.
    fn resolve_block(&mut self, b: usize, jump: Instruction, verdict: &Judgement)
        requires
            old(self).wf(),
            old(self).clean(),
            old(self).is_live(b as int),
            conditional_jump(old(self).blocks@[b as int].instrs@) == Some(jump),
        ensures
            final(self)@ == resolved_block(old(self)@, b as int, jump, verdict@),
            final(self).wf(),
            final(self).clean(),
            final(self).root == old(self).root,
            final(self).live@ == old(self).live@,
            final(self).blocks@.len() == old(self).blocks@.len(),
            conditional_jump(final(self).blocks@[b as int].instrs@) is None,
            forall|k: int|
                0 <= k < old(self).blocks@.len() && k != b ==> final(self).blocks@[k] == old(
                    self,
                ).blocks@[k],
    {
        let ghost before = *self;
        assert(self.block_wf(b as int));
        let ghost full = self.blocks@[b as int].instrs@;
        assert(full.last() == ParsedInstr::Good(jump));
        proof {
            jump.opcode.lemma_jumps_have_args();
        }
        let mut body = copy_entries(&self.blocks[b].instrs);
        body.pop();
        assert(body@ =~= full.drop_last());
        assert forall|k: int| 0 <= k < body@.len() implies is_plain(#[trigger] body@[k]) by {
            assert(body@[k] == full[k]);
        }
        let pops = matches!(jump.opcode, Opcode::POP_JUMP_IF_TRUE | Opcode::POP_JUMP_IF_FALSE)
            || !verdict.taken;
        let mut kept = if !pops {
            body
        } else if verdict.exclusive {
            proof {
                lemma_without_plain(body@, verdict.accesses@, verdict.offset);
            }
            remove_accessed(&body, &verdict.accesses, verdict.offset)
        } else {
            body.push(ParsedInstr::Good(Instruction { opcode: Opcode::POP_TOP, arg: None }));
            body
        };
        assert(forall|k: int| 0 <= k < kept@.len() ==> is_plain(#[trigger] kept@[k]));
        let ghost plain = kept@;
        if verdict.taken {
            kept.push(
                ParsedInstr::Good(Instruction { opcode: Opcode::JUMP_ABSOLUTE, arg: jump.arg }),
            );
            self.next.set(b, None);
        } else {
            self.jump.set(b, None);
        }
        let block = BasicBlock {
            start_offset: self.blocks[b].start_offset,
            end_offset: self.blocks[b].end_offset,
            instrs: kept,
            flags: self.blocks[b].flags,
        };
        self.blocks.set(b, block);
        proof {
            assert(self@.blocks =~= resolved_block(before@, b as int, jump, verdict@).blocks);
            let now = self.blocks@[b as int].instrs@;
            assert forall|k: int| 0 <= k < now.len() - 1 implies is_plain(#[trigger] now[k]) by {
                assert(now[k] == plain[k]);
            }
            if verdict.taken {
                assert(now.last() == ParsedInstr::Good(
                    Instruction { opcode: Opcode::JUMP_ABSOLUTE, arg: jump.arg },
                ));
            } else if now.len() > 0 {
                assert(now.last() == plain[plain.len() - 1]);
                assert(is_plain(now.last()));
            }
            assert forall|k: int| self.is_live(k) implies #[trigger] self.block_wf(k) by {
                assert(before.block_wf(k));
            }
            assert forall|k: int| self.is_live(k) implies ending(
                #[trigger] self.blocks[k].instrs@,
            ) != Ending::Bad by {
                assert(ending(before.blocks[k].instrs@) != Ending::Bad);
            }
        }
    }

    /// Removes every conditional jump whose outcome is constant: for each
    /// live block that ends in a conditional jump, the interpreter runs
    /// the path that leads to the block, if control can reach the block in
    /// one way only, and the block. Where it knows the truth of the tested
    /// value, the verdict is carried out as [`resolved_instrs`] describes.
    /// Blocks that control can no longer reach are removed from the graph.
    /// Returns whether a jump was removed; if none was, no live block ends
    /// in a conditional jump whose outcome the interpreter knows. Fails if
    /// the interpreter refuses an instruction.
    pub fn remove_const_conditions(&mut self, code: &Code) -> (r: Result<bool, Error>)
        requires
            old(self).wf(),
            old(self).clean(),
        ensures
            match r {
                Ok(changed) => without_const_conditions(old(self)@, code@) == Ok::<
                    (GraphValue, bool),
                    Error,
                >((final(self)@, changed)),
                Err(e) => without_const_conditions(old(self)@, code@) == Err::<
                    (GraphValue, bool),
                    Error,
                >(e),
            },
            final(self).wf(),
            final(self).clean(),
            final(self).root == old(self).root,
            final(self).blocks@.len() == old(self).blocks@.len(),
            r == Ok::<bool, Error>(false) ==> final(self).all_settled(code@),
            r == Ok::<bool, Error>(false) ==> final(self)@ == old(self)@,
            forall|b: int| final(self).is_live(b) ==> old(self).is_live(b),
    {
        let n = self.blocks.len();
        let mut changed = false;
        let mut b: usize = 0;
        while b < n
            invariant
                b <= n,
                n == self.blocks@.len(),
                n == old(self).blocks@.len(),
                self.wf(),
                self.clean(),
                self.root == old(self).root,
                self.live@ == old(self).live@,
                or_changed(resolve_from(self@, code@, b as nat), changed) == resolve_from(
                    old(self)@,
                    code@,
                    0,
                ),
                !changed ==> self@ == old(self)@,
                !changed ==> forall|k: int|
                    0 <= k < b && self.is_live(k) ==> #[trigger] self.settled(code@, k),
            decreases n - b,
        {
            if self.live[b] {
                let ghost before = *self;
                match self.judge_block(code, b) {
                    Err(e) => {
                        return Err(Error::Execution(e));
                    },
                    Ok(None) => {},
                    Ok(Some(verdict)) => {
                        let count = self.blocks[b].instrs.len();
                        let jump = match self.blocks[b].instrs[count - 1] {
                            ParsedInstr::Good(i) => i,
                            ParsedInstr::Bad => unreached(),
                        };
                        self.resolve_block(b, jump, &verdict);
                        changed = true;
                    },
                }
            }
            b += 1;
        }
        if changed {
            self.prune_unreachable();
        }
        Ok(changed)
    }
}

/// A block whose conditional jump has no known outcome keeps that
/// property when it is changed in a way that keeps its condition, as long
/// as the same path leads to it.
pub proof fn lemma_settled_kept(
    code: CodeValue,
    path: Option<Seq<ParsedInstr>>,
    before: Seq<ParsedInstr>,
    after: Seq<ParsedInstr>,
)
    requires
        verdict_of(code, path, before) == Ok::<Option<Verdict>, ExecutionError>(None),
        keeps_condition(before, after),
    ensures
        verdict_of(code, path, after) == Ok::<Option<Verdict>, ExecutionError>(None),
{
}

impl CodeGraph {
    /// Whether no live block ends in a conditional jump whose outcome the
    /// interpreter knows after it has run the path that leads to the block
    /// and the block.
    pub open spec fn all_settled(&self, code: CodeValue) -> bool {
        forall|b: int| self.is_live(b) ==> #[trigger] self.settled(code, b)
    }

    /// A pass that keeps the conditions of the blocks and the paths that
    /// lead to them, and adds no live block that ends in a conditional
    /// jump, keeps every conditional jump without a known outcome.
    pub proof fn lemma_all_settled_kept(&self, before: &CodeGraph, code: CodeValue)
        requires
            before.all_settled(code),
            self.keeps_conditions(before),
            paths_kept(before@, self@),
            forall|b: int|
                self.is_live(b) && b < before.blocks@.len() ==> before.is_live(b),
        ensures
            self.all_settled(code),
    {
        assert forall|b: int| self.is_live(b) implies #[trigger] self.settled(code, b) by {
            if b < before.blocks@.len() {
                assert(before.settled(code, b));
                assert(keeps_condition(before.blocks@[b].instrs@, self.blocks@[b].instrs@));
                assert(path_before(self@, b as usize, PATH_LIMIT as nat) == path_before(
                    before@,
                    b as usize,
                    PATH_LIMIT as nat,
                ));
                lemma_settled_kept(
                    code,
                    path_before(before@, b as usize, PATH_LIMIT as nat),
                    before.blocks@[b].instrs@,
                    self.blocks@[b].instrs@,
                );
            } else {
                assert(conditional_jump(self.blocks@[b].instrs@) is None);
            }
        }
    }
}

} // verus!

//! The control-flow graph of a code object: basic blocks, the edges between
//! them, and what makes a graph well formed.
//!
//! The graph is built in [`crate::graph_build`]. The passes that simplify
//! it are in [`crate::repair`], [`crate::reachability`], [`crate::join`] and
//! [`crate::const_conditions`]; [`crate::layout`] lays it out and
//! [`crate::emit`] writes it back as bytecode.

use vstd::prelude::*;
use crate::instruction::Instruction;
use crate::walker::ParsedInstr;

verus! {

/// What a pass has recorded about a basic block.
#[derive(Clone, Copy, Debug, PartialEq, Eq, Structural)]
pub struct BasicBlockFlags {
    /// The start offset of the block is that of the last layout.
    pub offsets_updated: bool,
    /// The block ran into bytes that are no instruction.
    pub bad: bool,
    /// The block was joined into its predecessor.
    pub joined: bool,
}

/// A straight-line sequence of instructions.
#[derive(Debug)]
pub struct BasicBlock {
    /// The offset of the first instruction.
    pub start_offset: u64,
    /// The offset after the last instruction.
    pub end_offset: u64,
    /// The instructions, in order; a bad entry can only be the last.
    pub instrs: Vec<ParsedInstr>,
    pub flags: BasicBlockFlags,
}

/// The meaning of an edge between two blocks.
#[derive(Clone, Copy, Debug, PartialEq, Eq, Structural)]
pub enum EdgeKind {
    /// The edge of an unconditional jump to its target.
    Unconditional,
    /// The edge that a conditional jump takes when the tested value is true.
    TrueBranch,
    /// The edge that a conditional jump takes when the tested value is false.
    FalseBranch,
    /// The edge from a block to the block that follows it.
    Fallthrough,
}

/// A control-flow graph. The edges live on the graph: for each block,
/// `next` is the block that control reaches without jumping and `jump` is
/// the block that the last instruction of the block jumps to.
#[derive(Debug)]
pub struct CodeGraph {
    pub blocks: Vec<BasicBlock>,
    pub next: Vec<Option<usize>>,
    pub jump: Vec<Option<usize>>,
    /// Whether each block is part of the graph; a block that was joined
    /// into another or pruned stays in `blocks` and is not live.
    pub live: Vec<bool>,
    /// The entry block.
    pub root: usize,
    /// The live blocks in the order in which they are written, as of the
    /// last layout.
    pub order: Vec<usize>,
}

/// The mathematical value of a basic block.
pub struct BlockValue {
    pub start_offset: u64,
    pub end_offset: u64,
    pub instrs: Seq<ParsedInstr>,
    pub flags: BasicBlockFlags,
}

impl View for BasicBlock {
    type V = BlockValue;

    open spec fn view(&self) -> BlockValue {
        BlockValue {
            start_offset: self.start_offset,
            end_offset: self.end_offset,
            instrs: self.instrs@,
            flags: self.flags,
        }
    }
}

/// The mathematical value of a control-flow graph.
pub struct GraphValue {
    pub blocks: Seq<BlockValue>,
    pub next: Seq<Option<usize>>,
    pub jump: Seq<Option<usize>>,
    pub live: Seq<bool>,
    pub root: usize,
    pub order: Seq<usize>,
}

impl View for CodeGraph {
    type V = GraphValue;

    open spec fn view(&self) -> GraphValue {
        GraphValue {
            blocks: Seq::new(self.blocks@.len(), |b: int| self.blocks@[b]@),
            next: self.next@,
            jump: self.jump@,
            live: self.live@,
            root: self.root,
            order: self.order@,
        }
    }
}

/// The number of bytes that an entry of a block occupies.
pub open spec fn entry_size(e: ParsedInstr) -> nat {
    match e {
        ParsedInstr::Good(i) => i.size(),
        ParsedInstr::Bad => 1,
    }
}

/// Whether an entry is an instruction after which control continues with the
/// next one.
pub open spec fn is_plain(e: ParsedInstr) -> bool {
    e matches ParsedInstr::Good(i) && i.wf() && !i.opcode.is_jump_spec()
        && !i.opcode.is_terminator_spec()
}

/// Whether an entry can be the last of a block.
pub open spec fn is_final(e: ParsedInstr) -> bool {
    e matches ParsedInstr::Good(i) ==> i.wf()
}

/// Whether a sequence of entries is a basic block: only the last entry may
/// be a jump, a return, a raise or a bad entry.
pub open spec fn shaped(instrs: Seq<ParsedInstr>) -> bool {
    &&& forall|k: int| 0 <= k < instrs.len() - 1 ==> is_plain(#[trigger] instrs[k])
    &&& instrs.len() > 0 ==> is_final(instrs.last())
}

/// How a block ends, which decides the edges that leave it.
#[derive(Clone, Copy, Debug, PartialEq, Eq, Structural)]
pub enum Ending {
    /// With an instruction after which control continues, or empty.
    Open,
    /// With a return or a raise.
    Return,
    /// With an unconditional jump.
    Jump,
    /// With a conditional jump, or with another instruction that either
    /// jumps or continues.
    Branch,
    /// With bytes that are no instruction.
    Bad,
}

/// How a sequence of entries ends.
pub open spec fn ending(instrs: Seq<ParsedInstr>) -> Ending {
    if instrs.len() == 0 {
        Ending::Open
    } else {
        match instrs.last() {
            ParsedInstr::Bad => Ending::Bad,
            ParsedInstr::Good(i) => if i.opcode.is_terminator_spec() {
                Ending::Return
            } else if i.opcode.is_unconditional_jump_spec() {
                Ending::Jump
            } else if i.opcode.is_jump_spec() {
                Ending::Branch
            } else {
                Ending::Open
            },
        }
    }
}

/// The conditional jump that ends a block, if the block ends in one.
pub open spec fn conditional_jump(instrs: Seq<ParsedInstr>) -> Option<Instruction> {
    if instrs.len() == 0 {
        None
    } else {
        match instrs.last() {
            ParsedInstr::Good(i) => if i.opcode.is_conditional_jump_spec() {
                Some(i)
            } else {
                None
            },
            ParsedInstr::Bad => None,
        }
    }
}

/// Whether the entries `after` of a block test the same condition as the
/// entries `before`: they are the same, or they do not end in a conditional
/// jump, or they differ from `before` in the argument of their last
/// instruction only.
pub open spec fn keeps_condition(before: Seq<ParsedInstr>, after: Seq<ParsedInstr>) -> bool {
    ||| after == before
    ||| conditional_jump(after) is None
    ||| (after.len() == before.len() && after.len() > 0 && after.drop_last() == before.drop_last()
        && (before.last() matches ParsedInstr::Good(i) && (after.last() matches ParsedInstr::Good(j)
        && i.opcode == j.opcode)))
}

/// Whether the edges `next` and `jump` are those that a block with the given
/// ending has: none after a return, a raise or bad bytes; the jump edge
/// alone after an unconditional jump; both after a conditional jump; and at
/// most the edge to the following block otherwise.
pub open spec fn edges_fit(e: Ending, next: Option<usize>, jump: Option<usize>) -> bool {
    match e {
        Ending::Open => jump is None,
        Ending::Return | Ending::Bad => next is None && jump is None,
        Ending::Jump => next is None && jump is Some,
        Ending::Branch => next is Some && jump is Some,
    }
}

/// Returns whether an entry is an instruction after which control continues
/// with the next one.
pub fn entry_is_plain(e: &ParsedInstr) -> (r: bool)
    ensures
        r == is_plain(*e),
{
    match e {
        ParsedInstr::Good(i) => i.arg.is_some() == i.opcode.has_arg() && !i.opcode.is_jump()
            && !i.opcode.is_terminator(),
        ParsedInstr::Bad => false,
    }
}

/// Returns how a sequence of entries ends.
pub fn ending_of(instrs: &Vec<ParsedInstr>) -> (r: Ending)
    ensures
        r == ending(instrs@),
{
    if instrs.len() == 0 {
        return Ending::Open;
    }
    match instrs[instrs.len() - 1] {
        ParsedInstr::Bad => Ending::Bad,
        ParsedInstr::Good(i) => if i.opcode.is_terminator() {
            Ending::Return
        } else if i.opcode.is_unconditional_jump() {
            Ending::Jump
        } else if i.opcode.is_jump() {
            Ending::Branch
        } else {
            Ending::Open
        },
    }
}

/// A copy of a sequence of entries.
pub fn copy_entries(instrs: &Vec<ParsedInstr>) -> (r: Vec<ParsedInstr>)
    ensures
        r@ == instrs@,
{
    let mut out: Vec<ParsedInstr> = Vec::new();
    let mut i: usize = 0;
    while i < instrs.len()
        invariant
            i <= instrs.len(),
            out@ == instrs@.subrange(0, i as int),
        decreases instrs.len() - i,
    {
        out.push(instrs[i]);
        assert(out@ =~= instrs@.subrange(0, i + 1));
        i += 1;
    }
    assert(out@ =~= instrs@);
    out
}

/// Whether `c` occurs in `s`.
pub open spec fn occurs(s: Seq<usize>, c: usize) -> bool {
    exists|i: int| 0 <= i < s.len() && #[trigger] s[i] == c
}

/// Whether an edge leads from block `c` to block `b`.
pub open spec fn has_edge(g: GraphValue, c: int, b: usize) -> bool {
    g.next[c] == Some(b) || g.jump[c] == Some(b)
}

/// The number of bytes that a sequence of entries occupies.
pub open spec fn block_size(instrs: Seq<ParsedInstr>) -> nat
    decreases instrs.len(),
{
    if instrs.len() == 0 {
        0
    } else {
        block_size(instrs.drop_last()) + entry_size(instrs.last())
    }
}

/// The size of a sequence of entries is the size of all but the last and
/// the size of the last.
pub proof fn lemma_block_size_push(instrs: Seq<ParsedInstr>, e: ParsedInstr)
    ensures
        block_size(instrs.push(e)) == block_size(instrs) + entry_size(e),
{
    assert(instrs.push(e).drop_last() =~= instrs);
}

/// Returns the number of bytes that a sequence of entries occupies, or
/// `None` if that number exceeds `limit`.
pub fn size_of_block(instrs: &Vec<ParsedInstr>, limit: u64) -> (r: Option<u64>)
    ensures
        r matches Some(n) ==> n == block_size(instrs@) && n <= limit,
        r is None ==> block_size(instrs@) > limit,
{
    let mut total: u64 = 0;
    let mut i: usize = 0;
    assert(instrs@.subrange(0, 0) =~= Seq::empty());
    while i < instrs.len()
        invariant
            i <= instrs@.len(),
            total == block_size(instrs@.subrange(0, i as int)),
            total <= limit,
        decreases instrs@.len() - i,
    {
        let size: u64 = match instrs[i] {
            ParsedInstr::Good(instr) => instr.len() as u64,
            ParsedInstr::Bad => 1,
        };
        proof {
            lemma_block_size_push(instrs@.subrange(0, i as int), instrs@[i as int]);
            assert(instrs@.subrange(0, i as int).push(instrs@[i as int]) =~= instrs@.subrange(
                0,
                i + 1,
            ));
        }
        if size > limit - total {
            proof {
                lemma_block_size_prefix(instrs@, i + 1);
            }
            return None;
        }
        total = total + size;
        i += 1;
    }
    assert(instrs@.subrange(0, i as int) =~= instrs@);
    Some(total)
}

/// A prefix of a sequence of entries is no larger than the sequence.
pub proof fn lemma_block_size_prefix(instrs: Seq<ParsedInstr>, i: int)
    requires
        0 <= i <= instrs.len(),
    ensures
        block_size(instrs.subrange(0, i)) <= block_size(instrs),
    decreases instrs.len() - i,
{
    if i < instrs.len() {
        lemma_block_size_push(instrs.subrange(0, i), instrs[i]);
        assert(instrs.subrange(0, i).push(instrs[i]) =~= instrs.subrange(0, i + 1));
        lemma_block_size_prefix(instrs, i + 1);
    } else {
        assert(instrs.subrange(0, i) =~= instrs);
    }
}

/// Replacing the last entry of a block by one of the same size keeps the
/// size of the block.
pub proof fn lemma_block_size_update_last(instrs: Seq<ParsedInstr>, e: ParsedInstr)
    requires
        instrs.len() > 0,
        entry_size(e) == entry_size(instrs.last()),
    ensures
        block_size(instrs.update(instrs.len() - 1, e)) == block_size(instrs),
{
    let updated = instrs.update(instrs.len() - 1, e);
    assert(updated.drop_last() =~= instrs.drop_last());
}

impl CodeGraph {
    /// Whether `b` is a live block of the graph.
    pub open spec fn is_live(&self, b: int) -> bool {
        0 <= b < self.blocks.len() && self.live[b]
    }

    /// Whether an edge leads to a live block, if there is an edge.
    pub open spec fn edge_ok(&self, edge: Option<usize>) -> bool {
        edge matches Some(c) ==> self.is_live(c as int)
    }

    /// Whether block `b` is a basic block whose edges fit its ending and
    /// lead to live blocks.
    pub open spec fn block_wf(&self, b: int) -> bool {
        &&& shaped(self.blocks[b].instrs@)
        &&& edges_fit(ending(self.blocks[b].instrs@), self.next[b], self.jump[b])
        &&& self.edge_ok(self.next[b])
        &&& self.edge_ok(self.jump[b])
    }

    /// Whether the graph is well formed: the entry block is live, and for
    /// every live block the last instruction determines the edges that
    /// leave it, which lead to live blocks.
    pub open spec fn wf(&self) -> bool {
        &&& self.next.len() == self.blocks.len()
        &&& self.jump.len() == self.blocks.len()
        &&& self.live.len() == self.blocks.len()
        &&& self.is_live(self.root as int)
        &&& forall|b: int| self.is_live(b) ==> #[trigger] self.block_wf(b)
    }

    /// Whether every block of this graph tests the same condition as the
    /// same block of the graph `before`, and none of the blocks that
    /// `before` does not have ends in a conditional jump.
    pub open spec fn keeps_conditions(&self, before: &CodeGraph) -> bool {
        &&& self.blocks@.len() >= before.blocks@.len()
        &&& forall|b: int|
            0 <= b < self.blocks@.len() ==> if b < before.blocks@.len() {
                keeps_condition(before.blocks@[b].instrs@, (#[trigger] self.blocks@[b]).instrs@)
            } else {
                conditional_jump(self.blocks@[b].instrs@) is None
            }
    }

    /// Keeping the conditions of the blocks is transitive.
    pub proof fn lemma_keeps_conditions_trans(&self, mid: &CodeGraph, before: &CodeGraph)
        requires
            mid.keeps_conditions(before),
            self.keeps_conditions(mid),
        ensures
            self.keeps_conditions(before),
    {
        assert forall|b: int| 0 <= b < self.blocks@.len() implies if b < before.blocks@.len() {
            keeps_condition(before.blocks@[b].instrs@, (#[trigger] self.blocks@[b]).instrs@)
        } else {
            conditional_jump(self.blocks@[b].instrs@) is None
        } by {
            if b < mid.blocks@.len() {
                assert(keeps_condition(mid.blocks@[b].instrs@, self.blocks@[b].instrs@));
                if b < before.blocks@.len() {
                    assert(keeps_condition(before.blocks@[b].instrs@, mid.blocks@[b].instrs@));
                } else {
                    assert(conditional_jump(mid.blocks@[b].instrs@) is None);
                }
            }
        }
    }

    /// Whether no live block holds a bad entry.
    pub open spec fn clean(&self) -> bool {
        forall|b: int|
            self.is_live(b) ==> ending(#[trigger] self.blocks[b].instrs@) != Ending::Bad
    }

    /// The kind of the edge that leaves block `b` through `jump`: the
    /// branch on which a conditional jump jumps, and unconditional for every
    /// other jump.
    pub open spec fn jump_kind(&self, b: int) -> EdgeKind {
        match conditional_jump(self.blocks@[b].instrs@) {
            Some(i) => if i.opcode.jumps_if_true_spec() {
                EdgeKind::TrueBranch
            } else {
                EdgeKind::FalseBranch
            },
            None => EdgeKind::Unconditional,
        }
    }

    /// The kind of the edge that leaves block `b` through `next`: the
    /// branch on which a conditional jump does not jump, and a fall through
    /// for every other block.
    pub open spec fn next_kind(&self, b: int) -> EdgeKind {
        match conditional_jump(self.blocks@[b].instrs@) {
            Some(i) => if i.opcode.jumps_if_true_spec() {
                EdgeKind::FalseBranch
            } else {
                EdgeKind::TrueBranch
            },
            None => EdgeKind::Fallthrough,
        }
    }

    /// The edges that leave block `b`, each with the block that it leads to
    /// and its kind: the edge to the block that follows before the edge of
    /// the jump.
    pub open spec fn edges(&self, b: int) -> Seq<(usize, EdgeKind)> {
        let by_next = match self.next@[b] {
            Some(c) => seq![(c, self.next_kind(b))],
            None => Seq::empty(),
        };
        let by_jump = match self.jump@[b] {
            Some(t) => seq![(t, self.jump_kind(b))],
            None => Seq::empty(),
        };
        by_next + by_jump
    }

    /// In a well-formed graph the last instruction of a live block
    /// determines the edges that leave it: a block that ends in a
    /// conditional jump has one edge for the true branch and one for the
    /// false branch; a block that ends in an unconditional jump has one
    /// unconditional edge; a block that ends in a return, a raise or bad
    /// bytes has none; and a block that ends openly has at most a fall
    /// through.
    pub proof fn lemma_edges_by_ending(&self, b: int)
        requires
            self.wf(),
            self.is_live(b),
        ensures
            conditional_jump(self.blocks@[b].instrs@) is Some ==> self.edges(b).len() == 2 && (
            self.edges(b)[0].1 == EdgeKind::TrueBranch) != (self.edges(b)[1].1
                == EdgeKind::TrueBranch) && (self.edges(b)[0].1 == EdgeKind::FalseBranch) != (
            self.edges(b)[1].1 == EdgeKind::FalseBranch),
            ending(self.blocks@[b].instrs@) == Ending::Jump ==> self.edges(b).len() == 1
                && self.edges(b)[0].1 == EdgeKind::Unconditional,
            ending(self.blocks@[b].instrs@) == Ending::Return || ending(self.blocks@[b].instrs@)
                == Ending::Bad ==> self.edges(b).len() == 0,
            ending(self.blocks@[b].instrs@) == Ending::Open ==> self.edges(b).len() <= 1 && (
            self.edges(b).len() == 1 ==> self.edges(b)[0].1 == EdgeKind::Fallthrough),
    {
        assert(self.block_wf(b));
        let instrs = self.blocks@[b].instrs@;
        if instrs.len() > 0 {
            if let ParsedInstr::Good(i) = instrs.last() {
                i.opcode.lemma_jumps_have_args();
            }
        }
    }

    /// Returns the edges that leave block `b`.
    pub fn successors(&self, b: usize) -> (r: Vec<(usize, EdgeKind)>)
        requires
            self.wf(),
            self.is_live(b as int),
        ensures
            r@ == self.edges(b as int),
    {
        let instrs = &self.blocks[b].instrs;
        let condition: Option<bool> = if instrs.len() == 0 {
            None
        } else {
            match instrs[instrs.len() - 1] {
                ParsedInstr::Good(i) => if i.opcode.is_conditional_jump() {
                    Some(i.opcode.jumps_if_true())
                } else {
                    None
                },
                ParsedInstr::Bad => None,
            }
        };
        let mut out: Vec<(usize, EdgeKind)> = Vec::new();
        match self.next[b] {
            Some(c) => {
                let kind = match condition {
                    Some(true) => EdgeKind::FalseBranch,
                    Some(false) => EdgeKind::TrueBranch,
                    None => EdgeKind::Fallthrough,
                };
                out.push((c, kind));
            },
            None => {},
        }
        match self.jump[b] {
            Some(t) => {
                let kind = match condition {
                    Some(true) => EdgeKind::TrueBranch,
                    Some(false) => EdgeKind::FalseBranch,
                    None => EdgeKind::Unconditional,
                };
                out.push((t, kind));
            },
            None => {},
        }
        assert(out@ =~= self.edges(b as int));
        out
    }

    /// The number of bytes that block `b` occupies.
    pub open spec fn size_of(&self, b: int) -> nat {
        block_size(self.blocks[b].instrs@)
    }

    /// Whether the graph is the same as `other` but for the start offsets
    /// and flags of its blocks and for its layout.
    pub open spec fn same_code(&self, other: &CodeGraph) -> bool {
        &&& self.root == other.root
        &&& self.live@ == other.live@
        &&& self.next@ == other.next@
        &&& self.jump@ == other.jump@
        &&& self.blocks@.len() == other.blocks@.len()
        &&& forall|b: int|
            0 <= b < self.blocks@.len() ==> (#[trigger] self.blocks@[b]).instrs@
                == other.blocks@[b].instrs@
    }

    /// The graphs with the same code have the same well-formedness.
    pub proof fn lemma_same_code(&self, other: &CodeGraph)
        requires
            self.same_code(other),
        ensures
            other.wf() ==> self.wf(),
            other.clean() ==> self.clean(),
            forall|order: Seq<usize>| other.covers(order) ==> self.covers(order),
            self.keeps_conditions(other),
    {
        if other.wf() {
            assert forall|b: int| self.is_live(b) implies #[trigger] self.block_wf(b) by {
                assert(other.block_wf(b));
            }
        }
        if other.clean() {
            assert forall|b: int| self.is_live(b) implies ending(
                #[trigger] self.blocks[b].instrs@,
            ) != Ending::Bad by {
                assert(ending(other.blocks[b].instrs@) != Ending::Bad);
            }
        }
    }
}

} // verus!

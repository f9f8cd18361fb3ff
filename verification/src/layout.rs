//! The layout of a graph: the order in which its blocks are written, the
//! offsets at which they start, and the arguments of the jumps between them.

use vstd::prelude::*;
use crate::code_graph::{
    block_size, copy_entries, ending, ending_of, is_plain, keeps_condition,
    lemma_block_size_update_last, size_of_block, BasicBlock, BasicBlockFlags, BlockValue,
    CodeGraph, Ending, GraphValue,
};
use crate::error::Error;
use crate::instruction::Instruction;
use crate::opcode::Opcode;
use crate::paths::{lemma_paths_kept_trans, paths_kept};
use crate::preserved::{
    layout_state, lemma_layout_state_next, lemma_layout_state_start, lemma_lengthened_paths,
    lemma_lengthened_state, lemma_patched_paths, lemma_same_flow_unjoinable, same_flow,
    unjoinable,
};
use crate::reachability::{
    count_unset, dfs, dfs_order, dfs_shaped, lemma_count_unset_update, lemma_dfs_shaped_edges,
};
use crate::walker::{jump_target, ParsedInstr};

verus! {

/// The greatest offset that a block may start or end at: the greatest
/// value of a jump argument.
pub const MAX_OFFSET: u64 = 0xffff;

/// The offset at which the block at position `p` of the layout starts: the
/// number of bytes that the blocks before it occupy.
pub open spec fn start_at(g: GraphValue, p: nat) -> nat
    decreases p,
{
    if p == 0 {
        0
    } else {
        start_at(g, (p - 1) as nat) + block_size(g.blocks[g.order[p - 1] as int].instrs)
    }
}

/// The blocks of a graph after the blocks at the first `p` positions of
/// the layout have got their offsets.
pub open spec fn placed_blocks(g: GraphValue, p: nat) -> Seq<BlockValue>
    decreases p,
{
    if p == 0 {
        g.blocks
    } else {
        let before = placed_blocks(g, (p - 1) as nat);
        let b = g.order[p - 1] as int;
        before.update(
            b,
            BlockValue {
                start_offset: start_at(g, (p - 1) as nat) as u64,
                end_offset: start_at(g, p) as u64,
                instrs: g.blocks[b].instrs,
                flags: BasicBlockFlags {
                    offsets_updated: true,
                    bad: g.blocks[b].flags.bad,
                    joined: g.blocks[b].flags.joined,
                },
            },
        )
    }
}

/// The graph in which every block of the layout starts where the block
/// before it ends, the first at offset 0. There is no such graph if the
/// blocks of the layout occupy more than [`MAX_OFFSET`] bytes.
pub open spec fn with_offsets(g: GraphValue) -> Result<GraphValue, Error> {
    if start_at(g, g.order.len()) <= MAX_OFFSET {
        Ok(
            GraphValue {
                blocks: placed_blocks(g, g.order.len()),
                next: g.next,
                jump: g.jump,
                live: g.live,
                root: g.root,
                order: g.order,
            },
        )
    } else {
        Err(Error::JumpOutOfRange)
    }
}

/// The graph with the layout of [`dfs_order`].
pub open spec fn ordered(g: GraphValue) -> GraphValue {
    GraphValue {
        blocks: g.blocks,
        next: g.next,
        jump: g.jump,
        live: g.live,
        root: g.root,
        order: dfs_order(g),
    }
}

/// The graph laid out: with the layout of [`dfs_order`] and the offsets of
/// [`with_offsets`].
pub open spec fn laid(g: GraphValue) -> Result<GraphValue, Error> {
    with_offsets(ordered(g))
}

/// The blocks of a layout start at offsets that do not decrease.
pub proof fn lemma_start_at_monotone(g: GraphValue, p: nat, q: nat)
    requires
        p <= q,
    ensures
        start_at(g, p) <= start_at(g, q),
    decreases q - p,
{
    if p < q {
        lemma_start_at_monotone(g, p, (q - 1) as nat);
    }
}

/// A depth-first walk depends on the edges of the graph alone.
pub proof fn lemma_dfs_same_edges(
    g: GraphValue,
    h: GraphValue,
    stack: Seq<usize>,
    placed: Seq<bool>,
    order: Seq<usize>,
)
    requires
        g.next == h.next,
        g.jump == h.jump,
    ensures
        dfs(g, stack, placed, order) == dfs(h, stack, placed, order),
    decreases 2 * count_unset(placed) + stack.len(),
{
    if stack.len() > 0 {
        let b = stack.last();
        let rest = stack.drop_last();
        if b >= placed.len() || placed[b as int] || b >= g.next.len() || b >= g.jump.len() {
            lemma_dfs_same_edges(g, h, rest, placed, order);
        } else {
            let with_jump = match g.jump[b as int] {
                Some(t) => rest.push(t),
                None => rest,
            };
            let with_next = match g.next[b as int] {
                Some(c) => with_jump.push(c),
                None => with_jump,
            };
            lemma_count_unset_update(placed, b as int);
            lemma_dfs_same_edges(g, h, with_next, placed.update(b as int, true), order.push(b));
        }
    }
}

/// The offsets of a layout depend on the order and on the entries of the
/// blocks alone.
pub proof fn lemma_start_at_same_entries(g: GraphValue, h: GraphValue, p: nat)
    requires
        g.order == h.order,
        p <= g.order.len(),
        forall|q: int|
            0 <= q < g.order.len() ==> g.blocks[#[trigger] g.order[q] as int].instrs
                == h.blocks[g.order[q] as int].instrs,
    ensures
        start_at(g, p) == start_at(h, p),
    decreases p,
{
    if p > 0 {
        lemma_start_at_same_entries(g, h, (p - 1) as nat);
    }
}

/// The block at position `p` of a layout after it has got its offsets.
pub open spec fn placed_block(g: GraphValue, p: int) -> BlockValue {
    let b = g.order[p] as int;
    BlockValue {
        start_offset: start_at(g, p as nat) as u64,
        end_offset: start_at(g, (p + 1) as nat) as u64,
        instrs: g.blocks[b].instrs,
        flags: BasicBlockFlags {
            offsets_updated: true,
            bad: g.blocks[b].flags.bad,
            joined: g.blocks[b].flags.joined,
        },
    }
}

/// After the blocks at the first `p` positions of a layout without
/// repetition have got their offsets, each of them is the block of
/// [`placed_block`], and every other block is as it was.
pub proof fn lemma_placed_blocks(g: GraphValue, p: nat)
    requires
        p <= g.order.len(),
        forall|q: int| 0 <= q < g.order.len() ==> (#[trigger] g.order[q]) < g.blocks.len(),
        forall|x: int, y: int| 0 <= x < y < g.order.len() ==> g.order[x] != g.order[y],
    ensures
        placed_blocks(g, p).len() == g.blocks.len(),
        forall|q: int| 0 <= q < p ==> placed_blocks(g, p)[#[trigger] g.order[q] as int]
            == placed_block(g, q),
        forall|b: int|
            0 <= b < g.blocks.len() && (forall|q: int| 0 <= q < p ==> g.order[q] != b)
                ==> #[trigger] placed_blocks(g, p)[b] == g.blocks[b],
    decreases p,
{
    if p > 0 {
        lemma_placed_blocks(g, (p - 1) as nat);
        let before = placed_blocks(g, (p - 1) as nat);
        let b = g.order[p - 1] as int;
        assert forall|q: int| 0 <= q < p implies placed_blocks(g, p)[#[trigger] g.order[q] as int]
            == placed_block(g, q) by {
            if q < p - 1 {
                assert(g.order[q] != g.order[p - 1]);
                assert(before[g.order[q] as int] == placed_block(g, q));
            }
        }
    }
}

/// Laying a graph out is idempotent: a graph that has been laid out is
/// its own layout.
pub proof fn lemma_laid_twice(g: GraphValue)
    requires
        forall|q: int|
            0 <= q < dfs_order(g).len() ==> (#[trigger] dfs_order(g)[q]) < g.blocks.len(),
        forall|x: int, y: int|
            0 <= x < y < dfs_order(g).len() ==> dfs_order(g)[x] != dfs_order(g)[y],
    ensures
        laid(g) matches Ok(h) ==> laid(h) == Ok::<GraphValue, Error>(h),
{
    if let Ok(h) = laid(g) {
        let first = ordered(g);
        let n = first.order.len();
        lemma_placed_blocks(first, n);
        lemma_dfs_same_edges(
            g,
            h,
            seq![g.root],
            Seq::new(g.blocks.len(), |b: int| false),
            Seq::empty(),
        );
        assert(dfs_order(h) == dfs_order(g));
        let second = ordered(h);
        assert(second == h);
        assert forall|q: int| 0 <= q < n implies first.blocks[#[trigger] first.order[q] as int].instrs
            == h.blocks[first.order[q] as int].instrs by {
            assert(h.blocks[first.order[q] as int] == placed_block(first, q));
        }
        assert forall|p: nat| p <= n implies start_at(h, p) == start_at(first, p) by {
            lemma_start_at_same_entries(first, h, p);
        }
        lemma_placed_blocks(h, n);
        assert forall|b: int| 0 <= b < h.blocks.len() implies placed_blocks(h, n)[b]
            == h.blocks[b] by {
            if exists|q: int| 0 <= q < n && h.order[q] == b {
                let q = choose|q: int| 0 <= q < n && h.order[q] == b;
                assert(placed_blocks(h, n)[h.order[q] as int] == placed_block(h, q));
                assert(h.blocks[first.order[q] as int] == placed_block(first, q));
                assert(start_at(h, q as nat) == start_at(first, q as nat));
                assert(start_at(h, (q + 1) as nat) == start_at(first, (q + 1) as nat));
            }
        }
        assert(placed_blocks(h, n) =~= h.blocks);
    }
}

/// The unconditional jump that makes a fall through explicit; its target
/// is written when the jumps are patched.
pub open spec fn explicit_jump() -> ParsedInstr {
    ParsedInstr::Good(Instruction { opcode: Opcode::JUMP_ABSOLUTE, arg: Some(0) })
}

/// The graph in which the fall through of block `b` to block `c` is
/// explicit: a block that ends openly has an unconditional jump to `c`
/// appended, and a block that ends with a conditional jump has a new block
/// as its follower that holds such a jump.
pub open spec fn lengthened(g: GraphValue, b: int, c: usize) -> GraphValue {
    if ending(g.blocks[b].instrs) == Ending::Open {
        GraphValue {
            blocks: g.blocks.update(
                b,
                BlockValue {
                    start_offset: g.blocks[b].start_offset,
                    end_offset: g.blocks[b].end_offset,
                    instrs: g.blocks[b].instrs.push(explicit_jump()),
                    flags: g.blocks[b].flags,
                },
            ),
            next: g.next.update(b, None),
            jump: g.jump.update(b, Some(c)),
            live: g.live,
            root: g.root,
            order: g.order,
        }
    } else {
        GraphValue {
            blocks: g.blocks.push(
                BlockValue {
                    start_offset: g.blocks[b].end_offset,
                    end_offset: g.blocks[b].end_offset,
                    instrs: seq![explicit_jump()],
                    flags: BasicBlockFlags { offsets_updated: false, bad: false, joined: false },
                },
            ),
            next: g.next.push(None).update(b, Some(g.blocks.len() as usize)),
            jump: g.jump.push(Some(c)),
            live: g.live.push(true),
            root: g.root,
            order: g.order,
        }
    }
}

/// The block that the block at position `p` of the layout falls through to
/// without being followed by it, if there is one.
pub open spec fn misplaced_follower(g: GraphValue, p: int) -> Option<usize> {
    match g.next[g.order[p] as int] {
        Some(c) => if p + 1 < g.order.len() && g.order[p + 1] == c {
            None
        } else {
            Some(c)
        },
        None => None,
    }
}

/// The graph in which the fall through of every block from position `p`
/// of the layout on is explicit where the block is not followed by the
/// block that it falls through to, and whether there was such a block.
pub open spec fn lengthen_from(g: GraphValue, p: nat) -> (GraphValue, bool)
    decreases g.order.len() - p,
{
    if p >= g.order.len() {
        (g, false)
    } else {
        match misplaced_follower(g, p as int) {
            Some(c) => (lengthen_from(lengthened(g, g.order[p as int] as int, c), p + 1).0, true),
            None => lengthen_from(g, p + 1),
        }
    }
}

/// The jump `instr` with the offset `target` as its target, where `end` is
/// the offset at which the jump ends. A forward jump whose target lies
/// before its end becomes an absolute jump; there is no such jump for a
/// relative jump of another kind whose target lies before its end.
pub open spec fn patched_jump(instr: Instruction, end: int, target: int) -> Option<Instruction> {
    if instr.opcode.is_relative_jump_spec() {
        if target >= end {
            Some(Instruction { opcode: instr.opcode, arg: Some((target - end) as u16) })
        } else if instr.opcode.is_unconditional_jump_spec() {
            Some(Instruction { opcode: Opcode::JUMP_ABSOLUTE, arg: Some(target as u16) })
        } else {
            None
        }
    } else {
        Some(Instruction { opcode: instr.opcode, arg: Some(target as u16) })
    }
}

/// The graph in which the jump that ends block `b`, if there is one, has
/// the start offset of the block that its edge leads to as its target.
/// There is no such graph if one of the offsets lies beyond
/// [`MAX_OFFSET`], or if there is no such jump.
pub open spec fn patched(g: GraphValue, b: int) -> Result<GraphValue, Error> {
    match g.jump[b] {
        None => Ok(g),
        Some(t) => {
            let block = g.blocks[b];
            let size = block_size(block.instrs);
            let target = g.blocks[t as int].start_offset;
            if block.instrs.len() == 0 || size > MAX_OFFSET || block.start_offset > MAX_OFFSET
                || target > MAX_OFFSET {
                Err(Error::JumpOutOfRange)
            } else {
                match block.instrs.last() {
                    ParsedInstr::Bad => Err(Error::JumpOutOfRange),
                    ParsedInstr::Good(i) => match patched_jump(
                        i,
                        block.start_offset + size,
                        target as int,
                    ) {
                        None => Err(Error::JumpOutOfRange),
                        Some(jump) => Ok(
                            GraphValue {
                                blocks: g.blocks.update(
                                    b,
                                    BlockValue {
                                        start_offset: block.start_offset,
                                        end_offset: block.end_offset,
                                        instrs: block.instrs.update(
                                            block.instrs.len() - 1,
                                            ParsedInstr::Good(jump),
                                        ),
                                        flags: block.flags,
                                    },
                                ),
                                next: g.next,
                                jump: g.jump,
                                live: g.live,
                                root: g.root,
                                order: g.order,
                            },
                        ),
                    },
                }
            }
        },
    }
}

/// The graph in which every jump of the layout from position `p` on has
/// the start offset of its target as its target.
pub open spec fn patch_from(g: GraphValue, p: nat) -> Result<GraphValue, Error>
    decreases g.order.len() - p,
{
    if p >= g.order.len() {
        Ok(g)
    } else {
        match patched(g, g.order[p as int] as int) {
            Err(e) => Err(e),
            Ok(next) => if next.order == g.order {
                patch_from(next, p + 1)
            } else {
                Err(Error::JumpOutOfRange)
            },
        }
    }
}

/// The graph made fit for writing, and whether a fall through had to be
/// made explicit: in that case the jumps are not patched, since the graph
/// needs a new layout.
pub open spec fn with_branches(g: GraphValue) -> Result<(GraphValue, bool), Error> {
    let (lengthened, changed) = lengthen_from(g, 0);
    if changed {
        Ok((lengthened, true))
    } else {
        match patch_from(g, 0) {
            Ok(patched) => Ok((patched, false)),
            Err(e) => Err(e),
        }
    }
}

impl CodeGraph {
    /// Whether the blocks of `order` start where the blocks before them
    /// end: the first at offset 0, and each other block at the offset at
    /// which the block before it ends.
    pub open spec fn placed_in(&self, order: Seq<usize>) -> bool {
        &&& order.len() > 0 ==> self.blocks[order[0] as int].start_offset == 0
        &&& forall|p: int|
            0 <= p < order.len() - 1 ==> self.blocks[#[trigger] order[p + 1] as int].start_offset
                == self.blocks[order[p] as int].start_offset + self.size_of(order[p] as int)
    }

    /// Whether the graph has a layout: `order` lists the blocks that control
    /// can reach, and each starts where the one before it ends.
    pub open spec fn laid_out(&self) -> bool {
        &&& self.covers(self.order@)
        &&& self.placed_in(self.order@)
    }

    /// Gives every block of the layout its start offset: the first starts
    /// at 0, and each other block starts where the one before it ends. Fails,
    /// and leaves the graph as it is, if a block would end beyond
    /// [`MAX_OFFSET`].
    fn assign_offsets(&mut self) -> (r: Result<(), Error>)
        requires
            old(self).wf(),
            old(self).covers(old(self).order@),
        ensures
            match r {
                Ok(()) => with_offsets(old(self)@) == Ok::<GraphValue, Error>(final(self)@),
                Err(e) => with_offsets(old(self)@) == Err::<GraphValue, Error>(e) && final(self)@
                    == old(self)@,
            },
            final(self).same_code(old(self)),
            final(self).order@ == old(self).order@,
            r is Ok ==> final(self).placed_in(final(self).order@),
    {
        let count = self.order.len();
        let ghost g = self@;
        let mut total: u64 = 0;
        let mut p: usize = 0;
        while p < count
            invariant
                p <= count,
                count == self.order@.len(),
                g == self@,
                self.wf(),
                self.covers(self.order@),
                total == start_at(g, p as nat),
                total <= MAX_OFFSET,
            decreases count - p,
        {
            let b = self.order[p];
            assert(self.is_live(b as int));
            match size_of_block(&self.blocks[b].instrs, MAX_OFFSET - total) {
                Some(n) => {
                    total = total + n;
                },
                None => {
                    proof {
                        lemma_start_at_monotone(g, (p + 1) as nat, count as nat);
                    }
                    return Err(Error::JumpOutOfRange);
                },
            }
            p += 1;
        }
        let mut offset: u64 = 0;
        let mut p: usize = 0;
        while p < count
            invariant
                p <= count,
                count == self.order@.len(),
                g == old(self)@,
                self.order@ == old(self).order@,
                self.next@ == old(self).next@,
                self.jump@ == old(self).jump@,
                self.live@ == old(self).live@,
                self.root == old(self).root,
                self.same_code(old(self)),
                old(self).covers(old(self).order@),
                start_at(g, count as nat) <= MAX_OFFSET,
                offset == start_at(g, p as nat),
                self@.blocks == placed_blocks(g, p as nat),
                self.blocks@.len() == old(self).blocks@.len(),
                forall|q: int|
                    p <= q < count ==> self.blocks@[#[trigger] self.order@[q] as int] == old(
                        self,
                    ).blocks@[self.order@[q] as int],
                self.placed_in(self.order@.subrange(0, p as int)),
                p > 0 ==> offset == self.blocks@[self.order@[p - 1] as int].start_offset
                    + self.size_of(self.order@[p - 1] as int),
            decreases count - p,
        {
            let b = self.order[p];
            assert(old(self).is_live(b as int));
            proof {
                lemma_start_at_monotone(g, (p + 1) as nat, count as nat);
            }
            let size = match size_of_block(&self.blocks[b].instrs, MAX_OFFSET - offset) {
                Some(n) => n,
                None => {
                    return Err(Error::JumpOutOfRange);
                },
            };
            let mut flags = self.blocks[b].flags;
            flags.offsets_updated = true;
            let block = BasicBlock {
                start_offset: offset,
                end_offset: offset + size,
                instrs: copy_entries(&self.blocks[b].instrs),
                flags,
            };
            let ghost before = *self;
            self.blocks.set(b, block);
            proof {
                assert(before.blocks@[b as int] == old(self).blocks@[b as int]);
                assert(g.blocks[b as int] == old(self).blocks@[b as int]@);
                assert(self@.blocks =~= placed_blocks(g, (p + 1) as nat));
                let upto = self.order@.subrange(0, p as int);
                let more = self.order@.subrange(0, p + 1);
                assert forall|q: int| 0 <= q < p implies self.order@[q] != b by {
                }
                assert forall|q: int| 0 <= q < more.len() - 1 implies self.blocks[#[trigger] more[q
                    + 1] as int].start_offset == self.blocks[more[q] as int].start_offset
                    + self.size_of(more[q] as int) by {
                    assert(more[q] == self.order@[q]);
                    assert(more[q + 1] == self.order@[q + 1]);
                    if q + 1 < p {
                        assert(upto[q + 1] == self.order@[q + 1]);
                        assert(upto[q] == self.order@[q]);
                        assert(before.blocks[upto[q + 1] as int].start_offset
                            == before.blocks[upto[q] as int].start_offset + before.size_of(
                            upto[q] as int,
                        ));
                    }
                }
                if p == 0 {
                    assert(more[0] == b);
                } else {
                    assert(upto[0] == self.order@[0]);
                    assert(more[0] == self.order@[0]);
                }
            }
            offset = offset + size;
            p += 1;
        }
        assert(self.order@.subrange(0, count as int) =~= self.order@);
        Ok(())
    }

    /// Lays the graph out: lists the blocks that control can reach in the
    /// order in which they are written, as [`dfs_order`] gives it, and gives
    /// every block its start offset. Fails, with the order listed and no
    /// start offset given, if a block would end beyond [`MAX_OFFSET`].
    ///
    /// The layout is idempotent: a graph that has been laid out is its own
    /// layout. It keeps the code, what can be joined, and the paths that
    /// lead to the blocks.
    pub fn update_bb_offsets(&mut self) -> (r: Result<(), Error>)
        requires
            old(self).wf(),
        ensures
            match r {
                Ok(()) => laid(old(self)@) == Ok::<GraphValue, Error>(final(self)@),
                Err(e) => laid(old(self)@) == Err::<GraphValue, Error>(e) && final(self)@
                    == ordered(old(self)@),
            },
            final(self).same_code(old(self)),
            final(self).wf(),
            final(self).covers(final(self).order@),
            r is Ok ==> final(self).laid_out(),
            dfs_shaped(final(self)@, final(self).order@),
            unjoinable(final(self)@) == unjoinable(old(self)@),
            paths_kept(old(self)@, final(self)@),
            r is Ok ==> laid(final(self)@) == Ok::<GraphValue, Error>(final(self)@),
    {
        let order = self.visit_order();
        let ghost start = *self;
        self.order = order;
        proof {
            self.lemma_same_code(&start);
            assert(self@.blocks =~= start@.blocks);
            assert(self@ == ordered(start@));
            start.lemma_dfs_order_shaped();
            assert forall|q: int| 0 <= q < order@.len() implies (#[trigger] order@[q])
                < start@.blocks.len() by {
                assert(start.is_live(order@[q] as int));
            }
            lemma_laid_twice(start@);
        }
        let ghost mid = *self;
        let r = self.assign_offsets();
        proof {
            self.lemma_same_code(&mid);
            lemma_dfs_shaped_edges(start@, self@, self.order@);
            self.lemma_same_code_unjoinable(&mid);
            mid.lemma_same_code_unjoinable(&start);
            self.lemma_same_code_paths(&start);
        }
        r
    }

    /// Whether every block of the layout is followed by the block that it
    /// falls through to.
    pub open spec fn straight(&self) -> bool {
        forall|p: int|
            0 <= p < self.order@.len() ==> (self.next@[#[trigger] self.order@[p] as int] matches Some(
                c,
            ) ==> p + 1 < self.order@.len() && self.order@[p + 1] == c)
    }

    /// Whether the jump that ends block `b`, if there is one, has the start
    /// offset of its target as its target: as its argument if the jump is
    /// absolute, and as the end of the jump plus its argument if it is
    /// relative.
    pub open spec fn branch_fits(&self, b: int) -> bool {
        self.jump@[b] matches Some(t) ==> {
            &&& self.blocks@[b].instrs@.len() > 0
            &&& self.blocks@[b].instrs@.last() matches ParsedInstr::Good(i)
            &&& jump_target(i, self.blocks@[b].start_offset + self.size_of(b) - i.size())
                == self.blocks@[t as int].start_offset
        }
    }

    /// Whether every jump of the layout has the start offset of its target
    /// as its target.
    pub open spec fn branches_fit(&self) -> bool {
        forall|p: int|
            0 <= p < self.order@.len() ==> self.branch_fits(#[trigger] self.order@[p] as int)
    }

    /// Whether the graph can be written as bytecode: it is well formed and
    /// free of bad entries, it has a layout in which every block is
    /// followed by the block that it falls through to, and every jump
    /// targets the start of the block that its edge leads to.
    pub open spec fn emittable(&self) -> bool {
        &&& self.wf()
        &&& self.clean()
        &&& self.laid_out()
        &&& self.straight()
        &&& self.branches_fit()
    }

    /// Makes the fall through of block `b` to block `c` explicit.
    fn lengthen(&mut self, b: usize, c: usize)
        requires
            old(self).wf(),
            old(self).clean(),
            old(self).is_live(b as int),
            old(self).next@[b as int] == Some(c),
        ensures
            final(self)@ == lengthened(old(self)@, b as int, c),
            final(self).wf(),
            final(self).clean(),
            final(self).root == old(self).root,
            final(self).order@ == old(self).order@,
            final(self).blocks@.len() >= old(self).blocks@.len(),
            final(self).keeps_conditions(old(self)),
            forall|k: int| old(self).is_live(k) ==> final(self).is_live(k),
            forall|k: int|
                final(self).is_live(k) && k < old(self).blocks@.len() ==> old(self).is_live(k),
    {
        let ghost before = *self;
        assert(self.block_wf(b as int));
        let jump_instr = ParsedInstr::Good(
            Instruction { opcode: Opcode::JUMP_ABSOLUTE, arg: Some(0) },
        );
        match ending_of(&self.blocks[b].instrs) {
            Ending::Open => {
                let mut instrs = copy_entries(&self.blocks[b].instrs);
                let ghost kept = instrs@;
                instrs.push(jump_instr);
                let block = BasicBlock {
                    start_offset: self.blocks[b].start_offset,
                    end_offset: self.blocks[b].end_offset,
                    instrs,
                    flags: self.blocks[b].flags,
                };
                self.blocks.set(b, block);
                self.next.set(b, None);
                self.jump.set(b, Some(c));
                proof {
                    assert(self@.blocks =~= lengthened(before@, b as int, c).blocks);
                    let now = self.blocks@[b as int].instrs@;
                    assert forall|k: int| 0 <= k < now.len() - 1 implies is_plain(
                        #[trigger] now[k],
                    ) by {
                        assert(now[k] == kept[k]);
                        if k == kept.len() - 1 {
                            assert(kept.last() == kept[k]);
                        }
                    }
                    assert(now.last() == jump_instr);
                    assert forall|k: int| self.is_live(k) implies #[trigger] self.block_wf(k) by {
                        assert(before.block_wf(k));
                    }
                    assert forall|k: int| self.is_live(k) implies ending(
                        #[trigger] self.blocks[k].instrs@,
                    ) != Ending::Bad by {
                        assert(ending(before.blocks[k].instrs@) != Ending::Bad);
                    }
                }
            },
            _ => {
                let mut instrs: Vec<ParsedInstr> = Vec::new();
                instrs.push(jump_instr);
                let fresh = self.blocks.len();
                let block = BasicBlock {
                    start_offset: self.blocks[b].end_offset,
                    end_offset: self.blocks[b].end_offset,
                    instrs,
                    flags: BasicBlockFlags { offsets_updated: false, bad: false, joined: false },
                };
                self.blocks.push(block);
                self.next.push(None);
                self.jump.push(Some(c));
                self.live.push(true);
                self.next.set(b, Some(fresh));
                proof {
                    assert(self.blocks@[fresh as int].instrs@ =~= seq![jump_instr]);
                    assert(self@.blocks =~= lengthened(before@, b as int, c).blocks);
                    let now = self.blocks@[fresh as int].instrs@;
                    assert(now.last() == jump_instr);
                    assert forall|k: int| self.is_live(k) implies #[trigger] self.block_wf(k) by {
                        if k < fresh {
                            assert(before.block_wf(k));
                        }
                    }
                    assert forall|k: int| self.is_live(k) implies ending(
                        #[trigger] self.blocks[k].instrs@,
                    ) != Ending::Bad by {
                        if k < fresh {
                            assert(ending(before.blocks[k].instrs@) != Ending::Bad);
                        }
                    }
                }
            },
        }
    }

    /// Writes the start offset of its target into the jump that ends
    /// block `b`.
    fn patch_branch(&mut self, b: usize) -> (r: Result<(), Error>)
        requires
            old(self).wf(),
            old(self).clean(),
            old(self).is_live(b as int),
        ensures
            match r {
                Ok(()) => patched(old(self)@, b as int) == Ok::<GraphValue, Error>(final(self)@),
                Err(e) => patched(old(self)@, b as int) == Err::<GraphValue, Error>(e)
                    && final(self)@ == old(self)@,
            },
            final(self).wf(),
            final(self).clean(),
            final(self).root == old(self).root,
            final(self).order@ == old(self).order@,
            final(self).live@ == old(self).live@,
            final(self).next@ == old(self).next@,
            final(self).jump@ == old(self).jump@,
            final(self).blocks@.len() == old(self).blocks@.len(),
            final(self).keeps_conditions(old(self)),
            forall|k: int|
                0 <= k < old(self).blocks@.len() ==> {
                    &&& (#[trigger] final(self).blocks@[k]).start_offset == old(
                        self,
                    ).blocks@[k].start_offset
                    &&& final(self).size_of(k) == old(self).size_of(k)
                    &&& (k != b ==> final(self).blocks@[k] == old(self).blocks@[k])
                },
            r is Ok ==> final(self).branch_fits(b as int),
            unjoinable(final(self)@) == unjoinable(old(self)@),
            paths_kept(old(self)@, final(self)@),
    {
        let ghost before = *self;
        assert(self.block_wf(b as int));
        proof {
            self.lemma_flow_wf();
            lemma_patched_paths(self@, b as int);
        }
        let t = match self.jump[b] {
            Some(t) => t,
            None => {
                return Ok(());
            },
        };
        let count = self.blocks[b].instrs.len();
        let last = self.blocks[b].instrs[count - 1];
        assert(self.blocks@[b as int].instrs@.last() == last);
        let instr = match last {
            ParsedInstr::Good(i) => i,
            ParsedInstr::Bad => {
                return Err(Error::JumpOutOfRange);
            },
        };
        let size = match size_of_block(&self.blocks[b].instrs, MAX_OFFSET) {
            Some(n) => n,
            None => {
                return Err(Error::JumpOutOfRange);
            },
        };
        let start = self.blocks[b].start_offset;
        let target = self.blocks[t].start_offset;
        if start > MAX_OFFSET || target > MAX_OFFSET {
            return Err(Error::JumpOutOfRange);
        }
        proof {
            assert(size >= 3) by {
                assert(instr.opcode.is_jump_spec());
                instr.opcode.lemma_jumps_have_args();
            }
        }
        let end: u64 = start + size;
        let with_target = if instr.opcode.is_relative_jump() {
            if target >= end {
                Instruction { opcode: instr.opcode, arg: Some((target - end) as u16) }
            } else if instr.opcode.is_unconditional_jump() {
                Instruction { opcode: Opcode::JUMP_ABSOLUTE, arg: Some(target as u16) }
            } else {
                return Err(Error::JumpOutOfRange);
            }
        } else {
            Instruction { opcode: instr.opcode, arg: Some(target as u16) }
        };
        let mut instrs = copy_entries(&self.blocks[b].instrs);
        instrs.set(count - 1, ParsedInstr::Good(with_target));
        let block = BasicBlock {
            start_offset: start,
            end_offset: self.blocks[b].end_offset,
            instrs,
            flags: self.blocks[b].flags,
        };
        self.blocks.set(b, block);
        proof {
            let old_instrs = before.blocks@[b as int].instrs@;
            let now = self.blocks@[b as int].instrs@;
            instr.opcode.lemma_jumps_have_args();
            lemma_block_size_update_last(old_instrs, ParsedInstr::Good(with_target));
            assert(now =~= old_instrs.update(old_instrs.len() - 1, ParsedInstr::Good(with_target)));
            assert(now.drop_last() =~= old_instrs.drop_last());
            assert(now.last() == ParsedInstr::Good(with_target));
            assert(old_instrs.last() == ParsedInstr::Good(instr));
            assert(keeps_condition(old_instrs, now));
            assert(self@.blocks =~= patched(before@, b as int)->Ok_0.blocks);
            assert forall|k: int| 0 <= k < now.len() - 1 implies is_plain(#[trigger] now[k]) by {
                assert(now[k] == old_instrs[k]);
            }
            assert(now.last() == ParsedInstr::Good(with_target));
            assert forall|k: int| self.is_live(k) implies #[trigger] self.block_wf(k) by {
                assert(before.block_wf(k));
            }
            assert forall|k: int| self.is_live(k) implies ending(
                #[trigger] self.blocks[k].instrs@,
            ) != Ending::Bad by {
                assert(ending(before.blocks[k].instrs@) != Ending::Bad);
            }
            assert(ending(now) == ending(old_instrs));
            assert(same_flow(self@, before@));
            lemma_same_flow_unjoinable(self@, before@);
        }
        Ok(())
    }

    /// Makes the layout fit for writing, as [`with_branches`] describes.
    /// Where a block is not followed by the block that it falls through
    /// to, the fall through is made explicit by an unconditional jump, and
    /// `true` is returned: the graph then needs a new layout. Otherwise the
    /// start offset of its target is written into every jump, and `false` is
    /// returned: the graph can then be written.
    pub fn update_branches(&mut self) -> (r: Result<bool, Error>)
        requires
            old(self).wf(),
            old(self).clean(),
            old(self).laid_out(),
        ensures
            match r {
                Ok(lengthened) => with_branches(old(self)@) == Ok::<(GraphValue, bool), Error>(
                    (final(self)@, lengthened),
                ),
                Err(e) => with_branches(old(self)@) == Err::<(GraphValue, bool), Error>(e),
            },
            final(self).wf(),
            final(self).clean(),
            final(self).root == old(self).root,
            final(self).keeps_conditions(old(self)),
            forall|k: int|
                final(self).is_live(k) && k < old(self).blocks@.len() ==> old(self).is_live(k),
            r == Ok::<bool, Error>(false) ==> final(self).emittable(),
            dfs_shaped(old(self)@, old(self).order@) && unjoinable(old(self)@) ==> unjoinable(
                final(self)@,
            ),
            dfs_shaped(old(self)@, old(self).order@) ==> paths_kept(old(self)@, final(self)@),
    {
        let ghost shaped = dfs_shaped(self@, self.order@);
        let ghost fixed = shaped && unjoinable(self@);
        proof {
            if shaped {
                assert forall|q: int| 0 <= q < self.order@.len() implies (
                #[trigger] self.order@[q]) < self.blocks@.len() && self.live@[self.order@[q] as int] by {
                    assert(self.is_live(self.order@[q] as int));
                }
                lemma_layout_state_start(self@);
            }
        }
        let count = self.order.len();
        let mut changed = false;
        let mut p: usize = 0;
        while p < count
            invariant
                p <= count,
                self.wf(),
                self.clean(),
                self.keeps_conditions(old(self)),
                forall|k: int|
                    self.is_live(k) && k < old(self).blocks@.len() ==> old(self).is_live(k),
                self.root == old(self).root,
                self.order@ == old(self).order@,
                count == self.order@.len(),
                old(self).covers(old(self).order@),
                forall|k: int| old(self).is_live(k) ==> self.is_live(k),
                !changed ==> *self == *old(self),
                !changed ==> forall|q: int|
                    0 <= q < p ==> (self.next@[#[trigger] self.order@[q] as int] matches Some(c)
                        ==> q + 1 < self.order@.len() && self.order@[q + 1] == c),
                lengthen_from(old(self)@, 0).0 == lengthen_from(self@, p as nat).0,
                lengthen_from(old(self)@, 0).1 == (changed || lengthen_from(self@, p as nat).1),
                fixed ==> shaped,
                shaped ==> layout_state(self@, p as int),
                fixed ==> unjoinable(self@),
                shaped ==> paths_kept(old(self)@, self@),
                self.blocks@.len() >= old(self).blocks@.len(),
            decreases count - p,
        {
            let b = self.order[p];
            assert(old(self).is_live(b as int));
            assert(self.block_wf(b as int));
            let adjacent = match self.next[b] {
                Some(c) => p + 1 < count && self.order[p + 1] == c,
                None => true,
            };
            if !adjacent {
                match self.next[b] {
                    Some(c) => {
                        let ghost mid = *self;
                        self.lengthen(b, c);
                        changed = true;
                        proof {
                            self.lemma_keeps_conditions_trans(&mid, old(self));
                            if shaped {
                                mid.lemma_flow_wf();
                                lemma_lengthened_state(mid@, p as int, c);
                                lemma_lengthened_paths(mid@, p as int, c);
                                lemma_paths_kept_trans(old(self)@, mid@, self@);
                            }
                        }
                    },
                    None => {},
                }
            }
            proof {
                if shaped && adjacent {
                    lemma_layout_state_next(self@, p as int);
                }
            }
            p += 1;
        }
        if changed {
            return Ok(true);
        }
        let mut p: usize = 0;
        while p < count
            invariant
                p <= count,
                self.wf(),
                self.clean(),
                self.keeps_conditions(old(self)),
                self.live@ == old(self).live@,
                self.blocks@.len() == old(self).blocks@.len(),
                self.root == old(self).root,
                self.order@ == old(self).order@,
                count == self.order@.len(),
                self.laid_out(),
                self.straight(),
                forall|q: int| 0 <= q < p ==> self.branch_fits(#[trigger] self.order@[q] as int),
                !lengthen_from(old(self)@, 0).1,
                patch_from(self@, p as nat) == patch_from(old(self)@, 0),
                fixed == (dfs_shaped(old(self)@, old(self).order@) && unjoinable(old(self)@)),
                fixed ==> unjoinable(self@),
                paths_kept(old(self)@, self@),
            decreases count - p,
        {
            let b = self.order[p];
            let ghost before = *self;
            assert(self.is_live(b as int));
            match self.patch_branch(b) {
                Ok(()) => {},
                Err(e) => {
                    return Err(e);
                },
            }
            proof {
                self.lemma_keeps_conditions_trans(&before, old(self));
                lemma_paths_kept_trans(old(self)@, before@, self@);
                assert forall|q: int| 0 <= q < self.order@.len() implies self.is_live(
                    #[trigger] self.order@[q] as int,
                ) by {
                    assert(before.is_live(before.order@[q] as int));
                }
                assert(self.covers(self.order@));
                assert(self.placed_in(self.order@)) by {
                    assert forall|q: int| 0 <= q < self.order@.len() - 1 implies self.blocks[#[trigger] self.order@[q
                        + 1] as int].start_offset == self.blocks[self.order@[q] as int].start_offset
                        + self.size_of(self.order@[q] as int) by {
                        assert(before.is_live(before.order@[q] as int));
                        assert(before.is_live(before.order@[q + 1] as int));
                        assert(before.blocks[before.order@[q + 1] as int].start_offset
                            == before.blocks[before.order@[q] as int].start_offset + before.size_of(
                            before.order@[q] as int,
                        ));
                    }
                    if self.order@.len() > 0 {
                        assert(before.is_live(before.order@[0] as int));
                    }
                }
                assert forall|q: int| 0 <= q < p + 1 implies self.branch_fits(
                    #[trigger] self.order@[q] as int,
                ) by {
                    let x = self.order@[q];
                    assert(before.is_live(x as int));
                    if x != b {
                        assert(before.branch_fits(x as int));
                        assert(before.block_wf(x as int));
                        if let Some(t) = before.jump@[x as int] {
                            assert(before.is_live(t as int));
                        }
                    }
                }
            }
            p += 1;
        }
        Ok(false)
    }
}

} // verus!

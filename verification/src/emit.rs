//! The emitter: the bytecode of a graph that has a layout, and what holds of
//! that bytecode.

use vstd::prelude::*;
use crate::code_graph::{
    block_size, ending, is_plain, occurs, shaped, CodeGraph, Ending, GraphValue,
};
use crate::instruction::{decodes_fully, encode_all, lemma_encode_all_decodes, Instruction};
use crate::walker::{jump_target, ParsedInstr};

verus! {

/// The instructions among a sequence of entries, in order.
pub open spec fn good_instrs(entries: Seq<ParsedInstr>) -> Seq<Instruction>
    decreases entries.len(),
{
    if entries.len() == 0 {
        Seq::empty()
    } else {
        match entries.last() {
            ParsedInstr::Good(i) => good_instrs(entries.drop_last()).push(i),
            ParsedInstr::Bad => good_instrs(entries.drop_last()),
        }
    }
}

/// The encoding of instructions followed by one more is the encoding of
/// the former followed by that of the latter.
pub proof fn lemma_encode_all_push(instrs: Seq<Instruction>, i: Instruction)
    ensures
        encode_all(instrs.push(i)) == encode_all(instrs) + i.encoding(),
    decreases instrs.len(),
{
    if instrs.len() == 0 {
        assert(instrs.push(i).skip(1) =~= Seq::empty());
        assert(encode_all(Seq::<Instruction>::empty()) =~= Seq::<u8>::empty());
        assert(encode_all(instrs.push(i)) =~= i.encoding());
        assert(encode_all(instrs) + i.encoding() =~= i.encoding());
    } else {
        assert(instrs.push(i).skip(1) =~= instrs.skip(1).push(i));
        lemma_encode_all_push(instrs.skip(1), i);
        assert(encode_all(instrs.push(i)) =~= encode_all(instrs) + i.encoding());
    }
}

/// The encoding of two sequences of instructions, one after the other, is
/// the encoding of the first followed by that of the second.
pub proof fn lemma_encode_all_concat(a: Seq<Instruction>, b: Seq<Instruction>)
    ensures
        encode_all(a + b) == encode_all(a) + encode_all(b),
    decreases b.len(),
{
    if b.len() == 0 {
        assert(a + b =~= a);
        assert(encode_all(a) + encode_all(b) =~= encode_all(a));
    } else {
        let front = b.drop_last();
        assert(a + b =~= (a + front).push(b.last()));
        assert(b =~= front.push(b.last()));
        lemma_encode_all_push(a + front, b.last());
        lemma_encode_all_push(front, b.last());
        lemma_encode_all_concat(a, front);
        assert(encode_all(a + b) =~= encode_all(a) + encode_all(b));
    }
}

/// The instructions of a basic block without a bad entry are encoded in as
/// many bytes as the block occupies.
pub proof fn lemma_encoded_size(entries: Seq<ParsedInstr>)
    requires
        shaped(entries),
        ending(entries) != Ending::Bad,
    ensures
        encode_all(good_instrs(entries)).len() == block_size(entries),
    decreases entries.len(),
{
    if entries.len() == 0 {
        assert(good_instrs(entries) =~= Seq::empty());
    } else {
        let front = entries.drop_last();
        assert forall|k: int| 0 <= k < front.len() - 1 implies is_plain(#[trigger] front[k]) by {
            assert(front[k] == entries[k]);
        }
        if front.len() > 0 {
            assert(is_plain(entries[front.len() - 1]));
            assert(front.last() == entries[front.len() - 1]);
        }
        lemma_encoded_size(front);
        match entries.last() {
            ParsedInstr::Good(i) => {
                lemma_encode_all_push(good_instrs(front), i);
            },
            ParsedInstr::Bad => {},
        }
    }
}

/// The instructions of a basic block are well formed.
pub proof fn lemma_good_instrs_wf(entries: Seq<ParsedInstr>)
    requires
        shaped(entries),
    ensures
        forall|k: int| 0 <= k < good_instrs(entries).len() ==> (#[trigger] good_instrs(
            entries,
        )[k]).wf(),
    decreases entries.len(),
{
    if entries.len() > 0 {
        let front = entries.drop_last();
        assert forall|k: int| 0 <= k < front.len() - 1 implies is_plain(#[trigger] front[k]) by {
            assert(front[k] == entries[k]);
        }
        if front.len() > 0 {
            assert(is_plain(entries[front.len() - 1]));
            assert(front.last() == entries[front.len() - 1]);
        }
        lemma_good_instrs_wf(front);
        let all = good_instrs(entries);
        assert forall|k: int| 0 <= k < all.len() implies (#[trigger] all[k]).wf() by {
            match entries.last() {
                ParsedInstr::Good(i) => {
                    if k < good_instrs(front).len() {
                        assert(all[k] == good_instrs(front)[k]);
                    } else {
                        assert(all[k] == i);
                    }
                },
                ParsedInstr::Bad => {},
            }
        }
    }
}

/// The instructions of the blocks of `order`, block after block.
pub open spec fn instructions_of(g: GraphValue, order: Seq<usize>) -> Seq<Instruction>
    decreases order.len(),
{
    if order.len() == 0 {
        Seq::empty()
    } else {
        instructions_of(g, order.drop_last()) + good_instrs(g.blocks[order.last() as int].instrs)
    }
}

/// The bytecode of a graph: the encoding of the instructions of the blocks
/// of its layout.
pub open spec fn emitted(g: GraphValue) -> Seq<u8> {
    encode_all(instructions_of(g, g.order))
}

impl CodeGraph {
    /// The instructions of the blocks of `order`, block after block.
    pub open spec fn instructions_in(&self, order: Seq<usize>) -> Seq<Instruction> {
        instructions_of(self@, order)
    }

    /// The bytecode of the graph: the encoding of the instructions of the
    /// blocks of its layout.
    pub open spec fn bytecode(&self) -> Seq<u8> {
        emitted(self@)
    }

    /// The instructions of live blocks of a well-formed graph are well
    /// formed.
    pub proof fn lemma_instructions_wf(&self, order: Seq<usize>)
        requires
            self.wf(),
            forall|p: int| 0 <= p < order.len() ==> self.is_live(#[trigger] order[p] as int),
        ensures
            forall|k: int|
                0 <= k < self.instructions_in(order).len() ==> (#[trigger] self.instructions_in(
                    order,
                )[k]).wf(),
        decreases order.len(),
    {
        if order.len() > 0 {
            let front = order.drop_last();
            assert forall|p: int| 0 <= p < front.len() implies self.is_live(
                #[trigger] front[p] as int,
            ) by {
                assert(front[p] == order[p]);
            }
            self.lemma_instructions_wf(front);
            let b = order.last();
            assert(b == order[order.len() - 1]);
            assert(self.block_wf(b as int));
            lemma_good_instrs_wf(self.blocks@[b as int].instrs@);
            let head = self.instructions_in(front);
            let tail = good_instrs(self.blocks@[b as int].instrs@);
            let all = self.instructions_in(order);
            assert forall|k: int| 0 <= k < all.len() implies (#[trigger] all[k]).wf() by {
                if k < head.len() {
                    assert(all[k] == head[k]);
                } else {
                    assert(all[k] == tail[k - head.len()]);
                }
            }
        }
    }

    /// The bytecode of a graph with a layout decodes from offset 0 on,
    /// instruction by instruction, up to its end.
    pub proof fn lemma_bytecode_decodes(&self)
        requires
            self.wf(),
            self.covers(self.order@),
        ensures
            decodes_fully(self.bytecode(), 0),
    {
        self.lemma_instructions_wf(self.order@);
        lemma_encode_all_decodes(Seq::empty(), self.instructions_in(self.order@));
        assert(Seq::<u8>::empty() + self.bytecode() =~= self.bytecode());
    }

    /// In a graph that can be written, the start offset of the block at
    /// position `p` of the layout is the offset at which its instructions
    /// start in the bytecode of the graph: the number of bytes that the
    /// instructions of the blocks before it are encoded in.
    pub proof fn lemma_block_starts_in_bytecode(&self, p: int)
        requires
            self.emittable(),
            0 <= p < self.order@.len(),
        ensures
            self.blocks@[self.order@[p] as int].start_offset == encode_all(
                self.instructions_in(self.order@.subrange(0, p)),
            ).len(),
        decreases p,
    {
        let upto = self.order@.subrange(0, p);
        if p == 0 {
            assert(upto =~= Seq::empty());
        } else {
            self.lemma_block_starts_in_bytecode(p - 1);
            let before = self.order@.subrange(0, p - 1);
            let b = self.order@[p - 1];
            assert(upto.drop_last() =~= before);
            assert(upto.last() == b);
            assert(self.is_live(b as int));
            assert(self.block_wf(b as int));
            assert(ending(self.blocks@[b as int].instrs@) != Ending::Bad);
            lemma_encoded_size(self.blocks@[b as int].instrs@);
            lemma_encode_all_concat(
                self.instructions_in(before),
                good_instrs(self.blocks@[b as int].instrs@),
            );
        }
    }

    /// In a graph that can be written, every jump is the last instruction
    /// of its block and targets the start offset of a block of the layout.
    pub proof fn lemma_jumps_target_blocks(&self, p: int, k: int)
        requires
            self.emittable(),
            0 <= p < self.order@.len(),
            0 <= k < self.blocks@[self.order@[p] as int].instrs@.len(),
            self.blocks@[self.order@[p] as int].instrs@[k] matches ParsedInstr::Good(i)
                && i.opcode.is_jump_spec(),
        ensures
            k == self.blocks@[self.order@[p] as int].instrs@.len() - 1,
            self.blocks@[self.order@[p] as int].instrs@[k] matches ParsedInstr::Good(i) && exists|
                q: int,
            |
                0 <= q < self.order@.len() && jump_target(
                    i,
                    self.blocks@[self.order@[p] as int].start_offset + self.size_of(
                        self.order@[p] as int,
                    ) - i.size(),
                ) == self.blocks@[#[trigger] self.order@[q] as int].start_offset,
    {
        let b = self.order@[p];
        let instrs = self.blocks@[b as int].instrs@;
        assert(self.is_live(b as int));
        assert(self.block_wf(b as int));
        if k < instrs.len() - 1 {
            assert(is_plain(instrs[k]));
        }
        assert(instrs.last() == instrs[k]);
        assert(self.branch_fits(b as int));
        let t = self.jump@[b as int]->0;
        assert(occurs(self.order@, t));
        let q = choose|q: int| 0 <= q < self.order@.len() && self.order@[q] == t;
        assert(self.order@[q] == t);
    }

    /// Appends the bytecode of the graph to `out`.
    pub fn write_bytecode(&self, out: &mut Vec<u8>)
        requires
            self.wf(),
            self.covers(self.order@),
        ensures
            final(out)@ == old(out)@ + self.bytecode(),
    {
        let count = self.order.len();
        let ghost done: Seq<Instruction> = Seq::empty();
        let mut p: usize = 0;
        assert(self.order@.subrange(0, 0) =~= Seq::empty());
        assert(old(out)@ + encode_all(done) =~= old(out)@);
        while p < count
            invariant
                p <= count,
                count == self.order@.len(),
                self.wf(),
                self.covers(self.order@),
                done == self.instructions_in(self.order@.subrange(0, p as int)),
                out@ == old(out)@ + encode_all(done),
            decreases count - p,
        {
            let b = self.order[p];
            assert(self.is_live(b as int));
            let instrs = &self.blocks[b].instrs;
            let ghost written: Seq<Instruction> = Seq::empty();
            let mut k: usize = 0;
            assert(instrs@.subrange(0, 0) =~= Seq::empty());
            assert(done + written =~= done);
            while k < instrs.len()
                invariant
                    k <= instrs@.len(),
                    written == good_instrs(instrs@.subrange(0, k as int)),
                    out@ == old(out)@ + encode_all(done + written),
                decreases instrs@.len() - k,
            {
                let ghost upto = instrs@.subrange(0, k as int);
                let ghost more = instrs@.subrange(0, k + 1);
                proof {
                    assert(more.drop_last() =~= upto);
                    assert(more.last() == instrs@[k as int]);
                }
                match instrs[k] {
                    ParsedInstr::Good(i) => {
                        i.serialize(out);
                        proof {
                            lemma_encode_all_push(done + written, i);
                            assert((done + written).push(i) =~= done + written.push(i));
                            written = written.push(i);
                        }
                    },
                    ParsedInstr::Bad => {},
                }
                k += 1;
            }
            proof {
                assert(instrs@.subrange(0, k as int) =~= instrs@);
                let upto = self.order@.subrange(0, p as int);
                let more = self.order@.subrange(0, p + 1);
                assert(more.drop_last() =~= upto);
                assert(more.last() == b);
                done = done + written;
            }
            p += 1;
        }
        assert(self.order@.subrange(0, count as int) =~= self.order@);
    }
}

} // verus!

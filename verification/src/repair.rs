//! The passes that repair the ends of blocks: blocks that ran into bytes
//! that are no instruction are cut, and paths that would run off the end of
//! the bytecode are ended by a return.

use vstd::prelude::*;
use crate::code_graph::{
    copy_entries, ending, ending_of, is_plain, BasicBlock, BasicBlockFlags, BlockValue,
    CodeGraph, Ending, GraphValue,
};
use crate::error::Error;
use crate::instruction::Instruction;
use crate::paths::paths_kept;
use crate::preserved::{lemma_massaged_paths, lemma_massaged_unjoinable, unjoinable};
use crate::object::{lemma_code_value, lemma_values_of, values_of, Code, Obj, ObjType, Value};
use crate::opcode::Opcode;
use crate::walker::ParsedInstr;

verus! {

/// A block that ran into bytes that are no instruction, repaired: cut
/// after its last instruction and flagged as bad.
pub open spec fn repaired_block(block: BlockValue) -> BlockValue {
    BlockValue {
        start_offset: block.start_offset,
        end_offset: block.end_offset,
        instrs: block.instrs.drop_last(),
        flags: BasicBlockFlags {
            offsets_updated: block.flags.offsets_updated,
            bad: true,
            joined: block.flags.joined,
        },
    }
}

/// The graph in which every live block that ran into bytes that are no
/// instruction has been repaired.
pub open spec fn repaired(g: GraphValue) -> GraphValue {
    GraphValue {
        blocks: Seq::new(
            g.blocks.len(),
            |b: int|
                if g.live[b] && ending(g.blocks[b].instrs) == Ending::Bad {
                    repaired_block(g.blocks[b])
                } else {
                    g.blocks[b]
                },
        ),
        next: g.next,
        jump: g.jump,
        live: g.live,
        root: g.root,
        order: g.order,
    }
}

/// The index of the first constant that is `None`, searching from index
/// `from` on, if there is one within the reach of an argument.
pub open spec fn none_index(consts: Seq<Value>, from: nat) -> Option<u16>
    decreases consts.len() - from,
{
    if from >= consts.len() || from > 0xffff {
        None
    } else if consts[from as int] is PyNone {
        Some(from as u16)
    } else {
        none_index(consts, from + 1)
    }
}

/// Whether control would run off the end of the bytecode after block `b`:
/// the block is live, ends openly and no block follows it.
pub open spec fn is_dangling(g: GraphValue, b: int) -> bool {
    0 <= b < g.blocks.len() && g.live[b] && ending(g.blocks[b].instrs) == Ending::Open
        && g.next[b] is None
}

/// A block with the instructions `LOAD_CONST at` and `RETURN_VALUE`
/// appended.
pub open spec fn returning_block(block: BlockValue, at: u16) -> BlockValue {
    BlockValue {
        start_offset: block.start_offset,
        end_offset: block.end_offset,
        instrs: block.instrs.push(
            ParsedInstr::Good(Instruction { opcode: Opcode::LOAD_CONST, arg: Some(at) }),
        ).push(ParsedInstr::Good(Instruction { opcode: Opcode::RETURN_VALUE, arg: None })),
        flags: block.flags,
    }
}

/// The graph in which every path ends with an explicit return: every
/// block after which control would run off the end of the bytecode returns
/// `None`. There is no such graph if there is such a block and the
/// constants do not hold `None` within the reach of an argument.
pub open spec fn massaged(g: GraphValue, consts: Seq<Value>) -> Result<GraphValue, Error> {
    match none_index(consts, 0) {
        None => if exists|b: int| is_dangling(g, b) {
            Err(Error::ObjectError("massage_returns_for_decompiler", ObjType::PyNone))
        } else {
            Ok(g)
        },
        Some(at) => Ok(
            GraphValue {
                blocks: Seq::new(
                    g.blocks.len(),
                    |b: int|
                        if is_dangling(g, b) {
                            returning_block(g.blocks[b], at)
                        } else {
                            g.blocks[b]
                        },
                ),
                next: g.next,
                jump: g.jump,
                live: g.live,
                root: g.root,
                order: g.order,
            },
        ),
    }
}

/// Returns the index of the first constant that is `None`.
fn find_none(consts: &Vec<Obj>) -> (r: Option<u16>)
    ensures
        r == none_index(values_of(consts@), 0),
{
    proof {
        lemma_values_of(consts@);
    }
    let mut i: usize = 0;
    while i < consts.len() && i <= 0xffff
        invariant
            i <= consts@.len(),
            values_of(consts@).len() == consts@.len(),
            none_index(values_of(consts@), i as nat) == none_index(values_of(consts@), 0),
        decreases consts@.len() - i,
    {
        proof {
            lemma_values_of(consts@);
        }
        match consts[i] {
            Obj::PyNone => {
                return Some(i as u16);
            },
            _ => {},
        }
        i += 1;
    }
    None
}

impl CodeGraph {
    /// Repairs every live block that ran into bytes that are no
    /// instruction: the block is cut after its last instruction and
    /// flagged as bad. It keeps no edge, since none leaves bad bytes.
    pub fn fix_bbs_with_bad_instr(&mut self)
        requires
            old(self).wf(),
        ensures
            final(self)@ == repaired(old(self)@),
            final(self).wf(),
            final(self).clean(),
            final(self).root == old(self).root,
            final(self).live@ == old(self).live@,
            final(self).next@ == old(self).next@,
            final(self).jump@ == old(self).jump@,
            final(self).blocks@.len() == old(self).blocks@.len(),
    {
        let n = self.blocks.len();
        let mut b: usize = 0;
        while b < n
            invariant
                b <= n,
                n == self.blocks@.len(),
                n == old(self).blocks@.len(),
                old(self).wf(),
                self.wf(),
                self.root == old(self).root,
                self.live@ == old(self).live@,
                self.next@ == old(self).next@,
                self.jump@ == old(self).jump@,
                forall|k: int|
                    0 <= k < b && self.is_live(k) ==> ending(#[trigger] self.blocks@[k].instrs@)
                        != Ending::Bad,
                self.order@ == old(self).order@,
                forall|k: int|
                    0 <= k < b ==> (#[trigger] self.blocks@[k])@ == repaired(old(self)@).blocks[k],
                forall|k: int| b <= k < n ==> self.blocks@[k] == old(self).blocks@[k],
            decreases n - b,
        {
            if self.live[b] {
                assert(self.block_wf(b as int));
                match ending_of(&self.blocks[b].instrs) {
                    Ending::Bad => {
                        let ghost before = *self;
                        let mut instrs = copy_entries(&self.blocks[b].instrs);
                        instrs.pop();
                        let mut flags = self.blocks[b].flags;
                        flags.bad = true;
                        let block = BasicBlock {
                            start_offset: self.blocks[b].start_offset,
                            end_offset: self.blocks[b].end_offset,
                            instrs,
                            flags,
                        };
                        self.blocks.set(b, block);
                        proof {
                            let cut = self.blocks@[b as int].instrs@;
                            let full = before.blocks@[b as int].instrs@;
                            assert forall|k: int| 0 <= k < cut.len() implies is_plain(
                                #[trigger] cut[k],
                            ) by {
                                assert(cut[k] == full[k]);
                            }
                            if cut.len() > 0 {
                                assert(is_plain(cut[cut.len() - 1]));
                            }
                            assert forall|k: int| self.is_live(k) implies #[trigger] self.block_wf(
                                k,
                            ) by {
                                assert(before.block_wf(k));
                            }
                        }
                    },
                    _ => {},
                }
            }
            b += 1;
        }
        assert(self@.blocks =~= repaired(old(self)@).blocks);
    }

    /// Whether no live block ends without a return, a raise, a jump or a
    /// block that follows it.
    pub open spec fn terminated(&self) -> bool {
        forall|b: int| self.is_live(b) ==> #[trigger] self.ends_well(b)
    }

    /// Whether block `b` ends with a return, a raise or a jump, or has a
    /// block that follows it.
    pub open spec fn ends_well(&self, b: int) -> bool {
        ending(self.blocks@[b].instrs@) == Ending::Open ==> self.next@[b] is Some
    }

    /// Ends every path with an explicit return: every live block after
    /// which control would run off the end of the bytecode gets the
    /// instructions `LOAD_CONST None` and `RETURN_VALUE` appended. Fails
    /// with an object error, and leaves the graph as it is, if there is
    /// such a block and the constants of `code` do not hold `None` within
    /// the reach of an argument.
    pub fn massage_returns_for_decompiler(&mut self, code: &Code) -> (r: Result<(), Error>)
        requires
            old(self).wf(),
            old(self).clean(),
        ensures
            match r {
                Ok(()) => massaged(old(self)@, code@.consts) == Ok::<GraphValue, Error>(
                    final(self)@,
                ),
                Err(e) => massaged(old(self)@, code@.consts) == Err::<GraphValue, Error>(e)
                    && final(self)@ == old(self)@,
            },
            final(self).wf(),
            final(self).clean(),
            final(self).live@ == old(self).live@,
            final(self).keeps_conditions(old(self)),
            r is Ok ==> final(self).terminated(),
            unjoinable(old(self)@) ==> unjoinable(final(self)@),
            paths_kept(old(self)@, final(self)@),
    {
        proof {
            lemma_code_value(*code);
            if unjoinable(old(self)@) {
                lemma_massaged_unjoinable(old(self)@, code@.consts);
            }
            self.lemma_flow_wf();
            lemma_massaged_paths(old(self)@, code@.consts);
        }
        let none_at = find_none(&code.consts);
        let n = self.blocks.len();
        let mut b: usize = 0;
        while b < n
            invariant
                b <= n,
                n == self.blocks@.len(),
                n == old(self).blocks@.len(),
                old(self).wf(),
                self.wf(),
                self.clean(),
                self.root == old(self).root,
                self.live@ == old(self).live@,
                self.next@ == old(self).next@,
                self.jump@ == old(self).jump@,
                self.order@ == old(self).order@,
                none_at == none_index(code@.consts, 0),
                none_at is None ==> self.blocks@ == old(self).blocks@,
                none_at is None ==> forall|k: int| 0 <= k < b ==> !is_dangling(old(self)@, k),
                forall|k: int| b <= k < n ==> self.blocks@[k] == old(self).blocks@[k],
                forall|k: int|
                    0 <= k < b ==> (#[trigger] self.blocks@[k])@ == (if is_dangling(
                        old(self)@,
                        k,
                    ) {
                        returning_block(old(self).blocks@[k]@, none_at->0)
                    } else {
                        old(self).blocks@[k]@
                    }),
                forall|k: int| 0 <= k < b && self.is_live(k) ==> #[trigger] self.ends_well(k),
            decreases n - b,
        {
            if self.live[b] {
                assert(self.block_wf(b as int));
                let dangling = match ending_of(&self.blocks[b].instrs) {
                    Ending::Open => self.next[b].is_none(),
                    _ => false,
                };
                if dangling {
                    assert(is_dangling(old(self)@, b as int));
                    let at = match none_at {
                        Some(at) => at,
                        None => {
                            assert(self@.blocks =~= old(self)@.blocks);
                            return Err(
                                Error::ObjectError(
                                    "massage_returns_for_decompiler",
                                    ObjType::PyNone,
                                ),
                            );
                        },
                    };
                    let ghost before = *self;
                    let mut instrs = copy_entries(&self.blocks[b].instrs);
                    let ghost kept = instrs@;
                    let load = ParsedInstr::Good(
                        Instruction { opcode: Opcode::LOAD_CONST, arg: Some(at) },
                    );
                    let ret = ParsedInstr::Good(
                        Instruction { opcode: Opcode::RETURN_VALUE, arg: None },
                    );
                    instrs.push(load);
                    instrs.push(ret);
                    let block = BasicBlock {
                        start_offset: self.blocks[b].start_offset,
                        end_offset: self.blocks[b].end_offset,
                        instrs,
                        flags: self.blocks[b].flags,
                    };
                    self.blocks.set(b, block);
                    proof {
                        let now = self.blocks@[b as int].instrs@;
                        assert forall|k: int| 0 <= k < now.len() - 1 implies is_plain(
                            #[trigger] now[k],
                        ) by {
                            if k < kept.len() {
                                assert(now[k] == kept[k]);
                                if k == kept.len() - 1 {
                                    assert(kept.last() == kept[k]);
                                }
                            } else {
                                assert(now[k] == load);
                            }
                        }
                        assert(now.last() == ret);
                        assert forall|k: int| self.is_live(k) implies #[trigger] self.block_wf(
                            k,
                        ) by {
                            assert(before.block_wf(k));
                        }
                        assert forall|k: int| self.is_live(k) implies ending(
                            #[trigger] self.blocks[k].instrs@,
                        ) != Ending::Bad by {
                            assert(ending(before.blocks[k].instrs@) != Ending::Bad);
                        }
                        assert forall|k: int| 0 <= k < b + 1 && self.is_live(
                            k,
                        ) implies #[trigger] self.ends_well(k) by {
                            if k < b {
                                assert(before.ends_well(k));
                            }
                        }
                    }
                }
            }
            b += 1;
        }
        proof {
            match none_at {
                Some(at) => {
                    assert(self@.blocks =~= massaged(old(self)@, code@.consts)->Ok_0.blocks);
                },
                None => {
                    assert(self@.blocks =~= old(self)@.blocks);
                    assert(!(exists|b: int| is_dangling(old(self)@, b)));
                },
            }
        }
        Ok(())
    }
}

} // verus!

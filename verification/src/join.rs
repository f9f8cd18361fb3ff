//! The pass that joins blocks: a block whose only successor has no other
//! predecessor is joined with it.

use vstd::prelude::*;
use crate::code_graph::{
    copy_entries, ending, ending_of, has_edge, is_plain, shaped, BasicBlock, BlockValue,
    CodeGraph, Ending, GraphValue,
};
use crate::walker::ParsedInstr;

verus! {

/// The number of entries of `marks` that are set.
pub open spec fn count_set(marks: Seq<bool>) -> nat
    decreases marks.len(),
{
    if marks.len() == 0 {
        0
    } else {
        count_set(marks.drop_last()) + if marks.last() {
            1nat
        } else {
            0nat
        }
    }
}

/// Clearing a mark that was set leaves one set mark less.
pub proof fn lemma_count_set_update(marks: Seq<bool>, i: int)
    requires
        0 <= i < marks.len(),
        marks[i],
    ensures
        count_set(marks.update(i, false)) + 1 == count_set(marks),
    decreases marks.len(),
{
    let updated = marks.update(i, false);
    if i == marks.len() - 1 {
        assert(updated.drop_last() =~= marks.drop_last());
    } else {
        assert(updated.drop_last() =~= marks.drop_last().update(i, false));
        lemma_count_set_update(marks.drop_last(), i);
    }
}

/// Plain entries followed by a basic block form a basic block, which ends
/// as the block does, or openly if the block is empty.
pub proof fn lemma_shaped_concat(prefix: Seq<ParsedInstr>, rest: Seq<ParsedInstr>)
    requires
        forall|k: int| 0 <= k < prefix.len() ==> is_plain(#[trigger] prefix[k]),
        shaped(rest),
    ensures
        shaped(prefix + rest),
        ending(prefix + rest) == (if rest.len() > 0 {
            ending(rest)
        } else {
            Ending::Open
        }),
{
    let all = prefix + rest;
    assert forall|k: int| 0 <= k < all.len() - 1 implies is_plain(#[trigger] all[k]) by {
        if k >= prefix.len() {
            assert(all[k] == rest[k - prefix.len()]);
        }
    }
    if rest.len() > 0 {
        assert(all.last() == rest.last());
    } else {
        assert(all =~= prefix);
    }
}

/// The only block that control can continue at after block `a`, if
/// control continues there without a condition.
pub open spec fn sole_successor(g: GraphValue, a: int) -> Option<usize> {
    match ending(g.blocks[a].instrs) {
        Ending::Jump => g.jump[a],
        Ending::Open => g.next[a],
        _ => None,
    }
}

/// Whether a live block other than `a` has an edge to block `b`.
pub open spec fn has_other_predecessor(g: GraphValue, a: int, b: usize) -> bool {
    exists|c: int|
        0 <= c < g.blocks.len() && g.live[c] && c != a && #[trigger] has_edge(g, c, b)
}

/// The block that block `a` can be joined with, if there is one: block
/// `a` is live and has a sole successor, reached by an unconditional jump
/// or by falling through; the successor is another live block and not the
/// root; and no other live block has an edge to the successor.
pub open spec fn join_target(g: GraphValue, a: int) -> Option<usize> {
    if 0 <= a < g.blocks.len() && a < g.live.len() && g.live[a] {
        match sole_successor(g, a) {
            Some(b) => if b != a && b != g.root && b < g.blocks.len() && b < g.live.len()
                && g.live[b as int] && !has_other_predecessor(g, a, b) {
                Some(b)
            } else {
                None
            },
            None => None,
        }
    } else {
        None
    }
}

/// The instructions of block `a` joined with those of its successor `b`:
/// the trailing unconditional jump of `a` is dropped.
pub open spec fn joined_instrs(g: GraphValue, a: int, b: int) -> Seq<ParsedInstr> {
    let first = g.blocks[a].instrs;
    let kept = if ending(first) == Ending::Jump {
        first.drop_last()
    } else {
        first
    };
    kept + g.blocks[b].instrs
}

/// The graph in which block `a` has been joined with its successor `b`:
/// block `a` holds the instructions of both and has the edges of `b`, and
/// `b` is not live.
pub open spec fn joined(g: GraphValue, a: int, b: int) -> GraphValue {
    GraphValue {
        blocks: g.blocks.update(
            a,
            BlockValue {
                start_offset: g.blocks[a].start_offset,
                end_offset: g.blocks[b].end_offset,
                instrs: joined_instrs(g, a, b),
                flags: g.blocks[a].flags,
            },
        ),
        next: g.next.update(a, g.next[b]),
        jump: g.jump.update(a, g.jump[b]),
        live: g.live.update(b, false),
        root: g.root,
        order: g.order,
    }
}

/// The graph after one scan over the blocks from block `a` on, and whether
/// the scan joined any blocks. A block that can be joined with its
/// successor is joined and looked at again.
pub open spec fn join_scan(g: GraphValue, a: nat) -> (GraphValue, bool)
    decreases count_set(g.live), g.blocks.len() - a,
{
    if a >= g.blocks.len() {
        (g, false)
    } else {
        match join_target(g, a as int) {
            Some(b) => {
                proof {
                    lemma_count_set_update(g.live, b as int);
                }
                (join_scan(joined(g, a as int, b as int), a).0, true)
            },
            None => join_scan(g, a + 1),
        }
    }
}

/// The graph in which the blocks have been joined in scans over all blocks
/// until a scan joined none.
pub open spec fn join_all(g: GraphValue) -> GraphValue
    decreases count_set(g.live),
{
    let (scanned, changed) = join_scan(g, 0);
    if changed && count_set(scanned.live) < count_set(g.live) {
        join_all(scanned)
    } else {
        scanned
    }
}

impl CodeGraph {
    /// Whether block `a` can be joined with its successor.
    pub open spec fn joinable(&self, a: int) -> bool {
        join_target(self@, a) is Some
    }

    /// Returns the block that `a` can be joined with, if there is one.
    fn join_candidate(&self, a: usize) -> (r: Option<usize>)
        requires
            self.wf(),
            a < self.blocks@.len(),
        ensures
            r == join_target(self@, a as int),
    {
        if !self.live[a] {
            return None;
        }
        assert(self.block_wf(a as int));
        let ghost g = self@;
        let successor = match ending_of(&self.blocks[a].instrs) {
            Ending::Jump => self.jump[a],
            Ending::Open => self.next[a],
            _ => None,
        };
        let b = match successor {
            Some(b) => b,
            None => {
                return None;
            },
        };
        if b == a || b == self.root {
            return None;
        }
        let n = self.blocks.len();
        let mut c: usize = 0;
        while c < n
            invariant
                c <= n,
                n == self.blocks@.len(),
                self.wf(),
                g == self@,
                self.is_live(a as int),
                sole_successor(g, a as int) == Some(b),
                b != a && b != self.root,
                forall|k: int| 0 <= k < c && g.live[k] && k != a ==> !has_edge(g, k, b),
            decreases n - c,
        {
            if self.live[c] && c != a {
                let by_next = match self.next[c] {
                    Some(x) => x == b,
                    None => false,
                };
                let by_jump = match self.jump[c] {
                    Some(x) => x == b,
                    None => false,
                };
                if by_next || by_jump {
                    assert(has_edge(g, c as int, b));
                    return None;
                }
            }
            c += 1;
        }
        Some(b)
    }

    /// Joins block `a` with its successor `b`.
    fn join(&mut self, a: usize, b: usize)
        requires
            old(self).wf(),
            join_target(old(self)@, a as int) == Some(b),
        ensures
            final(self)@ == joined(old(self)@, a as int, b as int),
            final(self).wf(),
            final(self).live@ == old(self).live@.update(b as int, false),
            final(self).blocks@.len() == old(self).blocks@.len(),
            final(self).root == old(self).root,
            old(self).clean() ==> final(self).clean(),
    {
        assert(self.block_wf(a as int));
        assert(self.block_wf(b as int));
        let ghost g = self@;
        let ghost first = self.blocks@[a as int].instrs@;
        let ghost second = self.blocks@[b as int].instrs@;
        let mut instrs = copy_entries(&self.blocks[a].instrs);
        match ending_of(&instrs) {
            Ending::Jump => {
                instrs.pop();
            },
            _ => {},
        }
        let ghost kept = instrs@;
        assert(forall|k: int| 0 <= k < kept.len() ==> is_plain(#[trigger] kept[k])) by {
            assert forall|k: int| 0 <= k < kept.len() implies is_plain(#[trigger] kept[k]) by {
                assert(kept[k] == first[k]);
                if k == first.len() - 1 {
                    assert(first.last() == first[k]);
                }
            }
        }
        let second_instrs = copy_entries(&self.blocks[b].instrs);
        let mut i: usize = 0;
        while i < second_instrs.len()
            invariant
                i <= second_instrs@.len(),
                instrs@ == kept + second_instrs@.subrange(0, i as int),
            decreases second_instrs@.len() - i,
        {
            instrs.push(second_instrs[i]);
            assert(instrs@ =~= kept + second_instrs@.subrange(0, i + 1));
            i += 1;
        }
        assert(instrs@ =~= kept + second);
        proof {
            lemma_shaped_concat(kept, second);
            assert(kept =~= if ending(first) == Ending::Jump {
                first.drop_last()
            } else {
                first
            });
        }
        let joined_block = BasicBlock {
            start_offset: self.blocks[a].start_offset,
            end_offset: self.blocks[b].end_offset,
            instrs,
            flags: self.blocks[a].flags,
        };
        let to_next = self.next[b];
        let to_jump = self.jump[b];
        let ghost before = *self;
        self.blocks.set(a, joined_block);
        self.next.set(a, to_next);
        self.jump.set(a, to_jump);
        self.live.set(b, false);
        proof {
            assert(self@.blocks =~= joined(g, a as int, b as int).blocks);
            assert forall|k: int| self.is_live(k) implies #[trigger] self.block_wf(k) by {
                assert(before.is_live(k));
                assert(before.block_wf(k));
                if k == a {
                    assert(before.block_wf(b as int));
                    assert(!has_edge(g, b as int, b));
                } else {
                    assert(!has_edge(g, k, b));
                }
            }
            if before.clean() {
                assert forall|k: int| self.is_live(k) implies ending(
                    #[trigger] self.blocks[k].instrs@,
                ) != Ending::Bad by {
                    assert(before.is_live(k));
                    if k == a {
                        assert(ending(before.blocks[b as int].instrs@) != Ending::Bad);
                    } else {
                        assert(ending(before.blocks[k].instrs@) != Ending::Bad);
                    }
                }
            }
        }
    }

    /// Joins every block with its successor where the two can be joined,
    /// in scans over all blocks, until no two blocks can be joined.
    pub fn join_blocks(&mut self)
        requires
            old(self).wf(),
        ensures
            final(self)@ == join_all(old(self)@),
            final(self).wf(),
            forall|a: int| !final(self).joinable(a),
            old(self).clean() ==> final(self).clean(),
            final(self).root == old(self).root,
            forall|b: int| final(self).is_live(b) ==> old(self).is_live(b),
    {
        let n = self.blocks.len();
        loop
            invariant
                self.wf(),
                n == self.blocks@.len(),
                n == old(self).blocks@.len(),
                old(self).clean() ==> self.clean(),
                self.root == old(self).root,
                forall|b: int| self.is_live(b) ==> old(self).is_live(b),
                join_all(self@) == join_all(old(self)@),
            decreases count_set(self.live@),
        {
            let ghost live_before = self.live@;
            let ghost scan_start = self@;
            let mut changed = false;
            let mut a: usize = 0;
            while a < n
                invariant
                    a <= n,
                    self.wf(),
                    n == self.blocks@.len(),
                    n == old(self).blocks@.len(),
                    old(self).clean() ==> self.clean(),
                    self.root == old(self).root,
                    forall|b: int| self.is_live(b) ==> old(self).is_live(b),
                    live_before == scan_start.live,
                    !changed ==> self.live@ == live_before,
                    changed ==> count_set(self.live@) < count_set(live_before),
                    !changed ==> forall|k: int| 0 <= k < a ==> !self.joinable(k),
                    join_scan(scan_start, 0).0 == join_scan(self@, a as nat).0,
                    join_scan(scan_start, 0).1 == (changed || join_scan(self@, a as nat).1),
                decreases count_set(self.live@), n - a,
            {
                match self.join_candidate(a) {
                    Some(b) => {
                        proof {
                            assert(self.block_wf(a as int));
                            lemma_count_set_update(self.live@, b as int);
                        }
                        self.join(a, b);
                        changed = true;
                    },
                    None => {
                        a += 1;
                    },
                }
            }
            if !changed {
                assert forall|a: int| !self.joinable(a) by {
                }
                return ;
            }
        }
    }
}

} // verus!

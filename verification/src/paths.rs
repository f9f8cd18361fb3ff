//! The path that leads to a block.
//!
//! Where control can reach a block in one way only, the instructions that
//! it runs on the way from the entry are known: those of the blocks that
//! lead to the block, each entered from the one before it. The interpreter
//! runs them before it runs the block.

use vstd::prelude::*;
use crate::code_graph::{
    conditional_jump, copy_entries, ending, ending_of, has_edge, CodeGraph, Ending, GraphValue,
};
use crate::instruction::Instruction;
use crate::join::has_other_predecessor;
use crate::opcode::Opcode;
use crate::walker::ParsedInstr;

verus! {

/// The greatest number of blocks that a path is retraced over. A block
/// that lies farther from the entry has no path.
pub const PATH_LIMIT: usize = 1024;

/// The instruction that takes the topmost value off the stack.
pub open spec fn pop_top() -> ParsedInstr {
    ParsedInstr::Good(Instruction { opcode: Opcode::POP_TOP, arg: None })
}

/// Whether a conditional jump takes the tested value off the stack when
/// its outcome is `taken`.
pub open spec fn pops_value(jump: Instruction, taken: bool) -> bool {
    jump.opcode == Opcode::POP_JUMP_IF_TRUE || jump.opcode == Opcode::POP_JUMP_IF_FALSE || !taken
}

/// Whether block `p` is the only live block with an edge to block `b`.
pub open spec fn is_sole_predecessor(g: GraphValue, p: usize, b: usize) -> bool {
    &&& p < g.blocks.len()
    &&& g.live[p as int]
    &&& has_edge(g, p as int, b)
    &&& !has_other_predecessor(g, p as int, b)
}

/// The only live block with an edge to block `b`, if there is exactly one.
pub open spec fn sole_predecessor(g: GraphValue, b: usize) -> Option<usize> {
    if exists|p: usize| is_sole_predecessor(g, p, b) {
        Some(choose|p: usize| is_sole_predecessor(g, p, b))
    } else {
        None
    }
}

/// The sole predecessor of a block is the block that is one.
pub proof fn lemma_sole_predecessor(g: GraphValue, p: usize, b: usize)
    requires
        is_sole_predecessor(g, p, b),
    ensures
        sole_predecessor(g, b) == Some(p),
{
    let q = choose|q: usize| is_sole_predecessor(g, q, b);
    if q != p {
        assert(has_edge(g, q as int, b));
        assert(has_other_predecessor(g, p as int, b));
    }
}

/// What control runs of a block when it passes the block and leaves it by
/// its jump edge, if `by_jump`, or by its other edge: all of a block that
/// ends openly; a block without the jump that ends it; and after a
/// conditional jump that takes the tested value off the stack, that value
/// is taken off the stack. Nothing is known of a block that ends otherwise.
pub open spec fn passage(instrs: Seq<ParsedInstr>, by_jump: bool) -> Option<Seq<ParsedInstr>> {
    match ending(instrs) {
        Ending::Open => Some(instrs),
        Ending::Jump => Some(instrs.drop_last()),
        Ending::Branch => match conditional_jump(instrs) {
            Some(jump) => Some(
                if pops_value(jump, by_jump) {
                    instrs.drop_last().push(pop_top())
                } else {
                    instrs.drop_last()
                },
            ),
            None => None,
        },
        _ => None,
    }
}

/// The instructions that control runs from the entry of the graph up to
/// block `b`, if control can reach the block in one way only: the root is
/// where control starts, and any other block has such a path if it has a
/// sole predecessor with such a path, from which one edge leads to the
/// block. At most `fuel` blocks are retraced.
pub open spec fn path_before(g: GraphValue, b: usize, fuel: nat) -> Option<Seq<ParsedInstr>>
    decreases fuel,
{
    if b == g.root {
        Some(Seq::empty())
    } else if fuel == 0 {
        None
    } else {
        match sole_predecessor(g, b) {
            None => None,
            Some(p) => if g.next[p as int] == Some(b) && g.jump[p as int] == Some(b) {
                None
            } else {
                match (
                    path_before(g, p, (fuel - 1) as nat),
                    passage(g.blocks[p as int].instrs, g.jump[p as int] == Some(b)),
                ) {
                    (Some(before), Some(through)) => Some(before + through),
                    _ => None,
                }
            },
        }
    }
}

/// The value of an optional sequence of entries.
pub open spec fn entries_value(o: Option<Vec<ParsedInstr>>) -> Option<Seq<ParsedInstr>> {
    match o {
        Some(v) => Some(v@),
        None => None,
    }
}

/// Whether control passes the blocks of `h` as it passes those of `g`:
/// the graphs have the same live blocks, with edges to the same blocks,
/// and control runs the same instructions of a block on its way along an
/// edge.
pub open spec fn same_passages(g: GraphValue, h: GraphValue) -> bool {
    &&& g.blocks.len() == h.blocks.len()
    &&& g.live == h.live
    &&& g.root == h.root
    &&& forall|p: int, x: usize|
        0 <= p < g.blocks.len() && g.live[p] ==> #[trigger] has_edge(h, p, x) == has_edge(g, p, x)
    &&& forall|p: int, x: usize|
        0 <= p < g.blocks.len() && g.live[p] && #[trigger] has_edge(g, p, x) ==> {
            &&& (g.next[p] == Some(x) && g.jump[p] == Some(x)) == (h.next[p] == Some(x)
                && h.jump[p] == Some(x))
            &&& passage(g.blocks[p].instrs, g.jump[p] == Some(x)) == passage(
                h.blocks[p].instrs,
                h.jump[p] == Some(x),
            )
        }
}

/// Graphs with the same live blocks, with edges to the same blocks, have
/// the same sole predecessors.
pub proof fn lemma_same_edges_sole_predecessor(g: GraphValue, h: GraphValue, b: usize)
    requires
        g.blocks.len() == h.blocks.len(),
        g.live == h.live,
        forall|p: int, x: usize|
            0 <= p < g.blocks.len() && g.live[p] ==> #[trigger] has_edge(h, p, x) == has_edge(
                g,
                p,
                x,
            ),
    ensures
        sole_predecessor(g, b) == sole_predecessor(h, b),
{
    assert forall|p: usize| is_sole_predecessor(g, p, b) implies is_sole_predecessor(h, p, b) by {
        assert(has_edge(h, p as int, b) == has_edge(g, p as int, b));
        if has_other_predecessor(h, p as int, b) {
            let c = choose|c: int|
                0 <= c < h.blocks.len() && h.live[c] && c != p && #[trigger] has_edge(h, c, b);
            assert(has_edge(g, c, b));
        }
    }
    assert forall|p: usize| is_sole_predecessor(h, p, b) implies is_sole_predecessor(g, p, b) by {
        assert(has_edge(h, p as int, b) == has_edge(g, p as int, b));
        if has_other_predecessor(g, p as int, b) {
            let c = choose|c: int|
                0 <= c < g.blocks.len() && g.live[c] && c != p && #[trigger] has_edge(g, c, b);
            assert(has_edge(h, c, b));
        }
    }
    if let Some(p) = sole_predecessor(g, b) {
        lemma_sole_predecessor(h, p, b);
    }
    if let Some(p) = sole_predecessor(h, b) {
        lemma_sole_predecessor(g, p, b);
    }
}

/// Graphs whose blocks control passes in the same way have the same
/// paths.
pub proof fn lemma_same_passages_paths(g: GraphValue, h: GraphValue, b: usize, fuel: nat)
    requires
        same_passages(g, h),
    ensures
        path_before(g, b, fuel) == path_before(h, b, fuel),
    decreases fuel,
{
    if b != g.root && fuel > 0 {
        lemma_same_edges_sole_predecessor(g, h, b);
        if let Some(p) = sole_predecessor(g, b) {
            assert(has_edge(g, p as int, b));
            lemma_same_passages_paths(g, h, p, (fuel - 1) as nat);
        }
    }
}

/// Whether every block of `g` has in `h` the path that it has in `g`.
pub open spec fn paths_kept(g: GraphValue, h: GraphValue) -> bool {
    forall|b: usize, fuel: nat|
        b < g.blocks.len() ==> #[trigger] path_before(h, b, fuel) == path_before(g, b, fuel)
}

/// Graphs whose blocks control passes in the same way keep the paths of
/// each other.
pub proof fn lemma_same_passages_kept(g: GraphValue, h: GraphValue)
    requires
        same_passages(g, h),
    ensures
        paths_kept(g, h),
{
    assert forall|b: usize, fuel: nat| b < g.blocks.len() implies #[trigger] path_before(
        h,
        b,
        fuel,
    ) == path_before(g, b, fuel) by {
        lemma_same_passages_paths(g, h, b, fuel);
    }
}

/// Keeping the paths is transitive.
pub proof fn lemma_paths_kept_trans(g: GraphValue, h: GraphValue, k: GraphValue)
    requires
        paths_kept(g, h),
        paths_kept(h, k),
        g.blocks.len() <= h.blocks.len(),
    ensures
        paths_kept(g, k),
{
    assert forall|b: usize, fuel: nat| b < g.blocks.len() implies #[trigger] path_before(
        k,
        b,
        fuel,
    ) == path_before(g, b, fuel) by {
        assert(path_before(h, b, fuel) == path_before(g, b, fuel));
    }
}

impl CodeGraph {
    /// Returns the only live block with an edge to block `b`, if there is
    /// exactly one.
    pub fn sole_predecessor_of(&self, b: usize) -> (r: Option<usize>)
        requires
            self.wf(),
        ensures
            r == sole_predecessor(self@, b),
    {
        let ghost g = self@;
        let n = self.blocks.len();
        let mut found: Option<usize> = None;
        let mut c: usize = 0;
        while c < n
            invariant
                c <= n,
                n == self.blocks@.len(),
                self.wf(),
                g == self@,
                found matches Some(p) ==> p < c && g.live[p as int] && has_edge(g, p as int, b),
                forall|k: int|
                    0 <= k < c && g.live[k] && found != Some(k as usize) ==> !has_edge(g, k, b),
            decreases n - c,
        {
            if self.live[c] {
                let by_next = match self.next[c] {
                    Some(x) => x == b,
                    None => false,
                };
                let by_jump = match self.jump[c] {
                    Some(x) => x == b,
                    None => false,
                };
                if by_next || by_jump {
                    assert(has_edge(g, c as int, b));
                    match found {
                        Some(p) => {
                            proof {
                                assert forall|q: usize| !is_sole_predecessor(g, q, b) by {
                                    if q == p {
                                        assert(has_edge(g, c as int, b));
                                    } else {
                                        assert(has_edge(g, p as int, b));
                                    }
                                }
                            }
                            return None;
                        },
                        None => {
                            found = Some(c);
                        },
                    }
                }
            }
            c += 1;
        }
        proof {
            match found {
                Some(p) => {
                    lemma_sole_predecessor(g, p, b);
                },
                None => {},
            }
        }
        found
    }

    /// Returns what control runs of block `p` when it leaves the block by
    /// its jump edge, if `by_jump`, or by its other edge.
    fn passage_of(&self, p: usize, by_jump: bool) -> (r: Option<Vec<ParsedInstr>>)
        requires
            p < self.blocks@.len(),
        ensures
            entries_value(r) == passage(self@.blocks[p as int].instrs, by_jump),
    {
        let instrs = &self.blocks[p].instrs;
        match ending_of(instrs) {
            Ending::Open => Some(copy_entries(instrs)),
            Ending::Jump => {
                let mut through = copy_entries(instrs);
                through.pop();
                assert(through@ =~= instrs@.drop_last());
                Some(through)
            },
            Ending::Branch => {
                let jump = match instrs[instrs.len() - 1] {
                    ParsedInstr::Good(i) => i,
                    ParsedInstr::Bad => {
                        return None;
                    },
                };
                if !jump.opcode.is_conditional_jump() {
                    return None;
                }
                let mut through = copy_entries(instrs);
                through.pop();
                assert(through@ =~= instrs@.drop_last());
                let pops = matches!(jump.opcode, Opcode::POP_JUMP_IF_TRUE | Opcode::POP_JUMP_IF_FALSE)
                    || !by_jump;
                if pops {
                    through.push(ParsedInstr::Good(Instruction { opcode: Opcode::POP_TOP, arg: None }));
                }
                Some(through)
            },
            _ => None,
        }
    }

    /// Returns the instructions that control runs from the entry of the
    /// graph up to block `b`, if control can reach the block in one way
    /// only, retracing at most `fuel` blocks.
    pub fn path_before_block(&self, b: usize, fuel: usize) -> (r: Option<Vec<ParsedInstr>>)
        requires
            self.wf(),
        ensures
            entries_value(r) == path_before(self@, b, fuel as nat),
        decreases fuel,
    {
        if b == self.root {
            return Some(Vec::new());
        }
        if fuel == 0 {
            return None;
        }
        let p = match self.sole_predecessor_of(b) {
            Some(p) => p,
            None => {
                return None;
            },
        };
        assert(is_sole_predecessor(self@, p, b));
        let by_next = match self.next[p] {
            Some(x) => x == b,
            None => false,
        };
        let by_jump = match self.jump[p] {
            Some(x) => x == b,
            None => false,
        };
        if by_next && by_jump {
            return None;
        }
        let mut before = match self.path_before_block(p, fuel - 1) {
            Some(before) => before,
            None => {
                return None;
            },
        };
        let through = match self.passage_of(p, by_jump) {
            Some(through) => through,
            None => {
                return None;
            },
        };
        let ghost first = before@;
        let mut i: usize = 0;
        while i < through.len()
            invariant
                i <= through@.len(),
                before@ == first + through@.subrange(0, i as int),
            decreases through@.len() - i,
        {
            before.push(through[i]);
            assert(before@ =~= first + through@.subrange(0, i + 1));
            i += 1;
        }
        assert(before@ =~= first + through@);
        Some(before)
    }
}

} // verus!

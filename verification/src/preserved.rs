//! What the passes that follow the simplification of a graph preserve: they
//! leave no blocks that can be joined, and the same path leads to every
//! block.
//!
//! A pass that keeps the edges and the endings of the blocks keeps what can
//! be joined, and a jump that makes a fall through explicit leads to a
//! block that has another predecessor.

use vstd::prelude::*;
use crate::code_graph::{
    conditional_jump, edges_fit, ending, has_edge, CodeGraph, Ending, GraphValue,
};
use crate::join::{has_other_predecessor, join_target, sole_successor};
use crate::layout::{explicit_jump, lengthened, misplaced_follower, patched};
use crate::instruction::Instruction;
use crate::object::Value;
use crate::opcode::Opcode;
use crate::paths::{
    is_sole_predecessor, lemma_same_passages_kept, lemma_sole_predecessor, passage, path_before,
    paths_kept, same_passages, sole_predecessor,
};
use crate::reachability::{dfs_shaped, edges_live, follower_near, has_parent, parents_first};
use crate::repair::{is_dangling, massaged};
use crate::walker::ParsedInstr;

verus! {

/// Whether no block of the graph can be joined with its successor.
pub open spec fn unjoinable(g: GraphValue) -> bool {
    forall|a: int| (#[trigger] join_target(g, a)) is None
}

/// Whether two graphs have the same flow of control: the same live blocks,
/// the same edges, and blocks that end in the same way.
pub open spec fn same_flow(g: GraphValue, h: GraphValue) -> bool {
    &&& g.blocks.len() == h.blocks.len()
    &&& g.next == h.next
    &&& g.jump == h.jump
    &&& g.live == h.live
    &&& g.root == h.root
    &&& forall|b: int|
        0 <= b < g.blocks.len() ==> #[trigger] ending(g.blocks[b].instrs) == ending(
            h.blocks[b].instrs,
        )
}

/// In graphs with the same flow of control the same blocks can be joined.
pub proof fn lemma_same_flow_joins(g: GraphValue, h: GraphValue, a: int)
    requires
        same_flow(g, h),
    ensures
        join_target(g, a) == join_target(h, a),
{
    if 0 <= a < g.blocks.len() {
        assert(ending(g.blocks[a].instrs) == ending(h.blocks[a].instrs));
        assert(sole_successor(g, a) == sole_successor(h, a));
        if let Some(b) = sole_successor(g, a) {
            if has_other_predecessor(g, a, b) {
                let c = choose|c: int|
                    0 <= c < g.blocks.len() && g.live[c] && c != a && #[trigger] has_edge(g, c, b);
                assert(has_edge(h, c, b));
            }
            if has_other_predecessor(h, a, b) {
                let c = choose|c: int|
                    0 <= c < h.blocks.len() && h.live[c] && c != a && #[trigger] has_edge(h, c, b);
                assert(has_edge(g, c, b));
            }
        }
    }
}

/// Graphs with the same flow of control are free of blocks that can be
/// joined together.
pub proof fn lemma_same_flow_unjoinable(g: GraphValue, h: GraphValue)
    requires
        same_flow(g, h),
    ensures
        unjoinable(g) == unjoinable(h),
{
    assert forall|a: int| #[trigger] join_target(g, a) == join_target(h, a) by {
        lemma_same_flow_joins(g, h, a);
    }
    if unjoinable(g) {
        assert forall|a: int| (#[trigger] join_target(h, a)) is None by {
            assert(join_target(g, a) == join_target(h, a));
        }
    }
    if unjoinable(h) {
        assert forall|a: int| (#[trigger] join_target(g, a)) is None by {
            assert(join_target(g, a) == join_target(h, a));
        }
    }
}

/// Ending every path with a return leaves no blocks that can be joined
/// where there were none: a block that gets a return had no successor.
pub proof fn lemma_massaged_unjoinable(g: GraphValue, consts: Seq<Value>)
    requires
        unjoinable(g),
    ensures
        massaged(g, consts) matches Ok(h) ==> unjoinable(h),
{
    if let Ok(h) = massaged(g, consts) {
        assert forall|a: int| (#[trigger] join_target(h, a)) is None by {
            assert(join_target(g, a) is None);
            if 0 <= a < g.blocks.len() && g.live[a] {
                if h.blocks[a] != g.blocks[a] {
                    assert(is_dangling(g, a));
                    assert(ending(h.blocks[a].instrs) == Ending::Return) by {
                        assert(h.blocks[a].instrs.last() == ParsedInstr::Good(
                            Instruction { opcode: Opcode::RETURN_VALUE, arg: None },
                        ));
                    }
                } else {
                    assert(sole_successor(h, a) == sole_successor(g, a));
                    if let Some(y) = sole_successor(g, a) {
                        if has_other_predecessor(g, a, y) {
                            let x = choose|x: int|
                                0 <= x < g.blocks.len() && g.live[x] && x != a
                                    && #[trigger] has_edge(g, x, y);
                            assert(has_edge(h, x, y));
                        }
                    }
                }
            }
        }
    }
}

/// Whether the edges of the live blocks of a graph fit their endings and
/// lead to live blocks.
pub open spec fn flow_wf(g: GraphValue) -> bool {
    &&& edges_live(g)
    &&& forall|b: int|
        0 <= b < g.blocks.len() && g.live[b] ==> edges_fit(
            #[trigger] ending(g.blocks[b].instrs),
            g.next[b],
            g.jump[b],
        )
}

/// Whether a graph whose layout is a depth-first order is in a state that
/// making the fall throughs explicit keeps, once that has been done up to
/// position `p` of the layout: the layout lists live blocks without
/// repetition, from the root on; every block of it but the first has an
/// edge from a block before it; and from position `p` on, the block that a
/// block falls through to is placed right after it unless it was placed
/// before.
pub closed spec fn layout_state(g: GraphValue, p: int) -> bool {
    &&& forall|q: int|
        0 <= q < g.order.len() ==> (#[trigger] g.order[q]) < g.blocks.len()
            && g.live[g.order[q] as int]
    &&& forall|x: int, y: int| 0 <= x < y < g.order.len() ==> g.order[x] != g.order[y]
    &&& g.order.len() > 0 ==> g.order[0] == g.root
    &&& parents_first(g, g.order)
    &&& forall|q: int| p <= q < g.order.len() ==> #[trigger] follower_near(g, g.order, q)
}

/// The state holds at the start of a layout that is a depth-first order.
pub proof fn lemma_layout_state_start(g: GraphValue)
    requires
        g.order.len() > 0 ==> g.order[0] == g.root,
        forall|q: int|
            0 <= q < g.order.len() ==> (#[trigger] g.order[q]) < g.blocks.len()
                && g.live[g.order[q] as int],
        forall|x: int, y: int| 0 <= x < y < g.order.len() ==> g.order[x] != g.order[y],
        dfs_shaped(g, g.order),
    ensures
        layout_state(g, 0),
{
}

/// The state holds one position later.
pub proof fn lemma_layout_state_next(g: GraphValue, p: int)
    requires
        layout_state(g, p),
    ensures
        layout_state(g, p + 1),
{
}

/// The block that a block falls through to without being followed by it
/// was placed before that block, or is that block.
proof fn lemma_misplaced_before(g: GraphValue, p: int, c: usize) -> (q: int)
    requires
        0 <= p < g.order.len(),
        follower_near(g, g.order, p),
        misplaced_follower(g, p) == Some(c),
    ensures
        0 <= q <= p,
        g.order[q] == c,
{
    choose|q: int| 0 <= q <= p + 1 && q < g.order.len() && #[trigger] g.order[q] == c
}

/// Making a fall through explicit by a jump at the end of the block keeps
/// the state, and leaves no blocks that can be joined where there were
/// none.
proof fn lemma_lengthened_open(g: GraphValue, p: int, c: usize)
    requires
        flow_wf(g),
        layout_state(g, p),
        0 <= p < g.order.len(),
        misplaced_follower(g, p) == Some(c),
        ending(g.blocks[g.order[p] as int].instrs) == Ending::Open,
    ensures
        layout_state(lengthened(g, g.order[p] as int, c), p + 1),
        unjoinable(g) ==> unjoinable(lengthened(g, g.order[p] as int, c)),
{
    let b = g.order[p] as int;
    let h = lengthened(g, b, c);
    let order = g.order;
    assert(g.jump[b] is None);
    assert(g.next[b] == Some(c));
    assert forall|x: int, y: usize| 0 <= x < g.blocks.len() implies has_edge(h, x, y) == has_edge(
        g,
        x,
        y,
    ) by {}
    assert(ending(h.blocks[b].instrs) == Ending::Jump) by {
        assert(h.blocks[b].instrs.last() == explicit_jump());
    }
    assert forall|q: int| 0 < q < order.len() implies #[trigger] has_parent(h, order, q, order[q]) by {
        assert(has_parent(g, order, q, order[q]));
        let r = choose|r: int|
            0 <= r < q && r < order.len() && #[trigger] has_edge(g, order[r] as int, order[q]);
        assert(has_edge(h, order[r] as int, order[q]));
    }
    assert forall|q: int| p + 1 <= q < order.len() implies #[trigger] follower_near(h, order, q) by {
        assert(follower_near(g, order, q));
        assert(order[q] != order[p]);
    }
    if unjoinable(g) {
        assert forall|a: int| (#[trigger] join_target(h, a)) is None by {
            assert(join_target(g, a) is None);
            if 0 <= a < g.blocks.len() && g.live[a] {
                assert(sole_successor(h, a) == sole_successor(g, a));
                if let Some(y) = sole_successor(g, a) {
                    if has_other_predecessor(g, a, y) {
                        let x = choose|x: int|
                            0 <= x < g.blocks.len() && g.live[x] && x != a && #[trigger] has_edge(
                                g,
                                x,
                                y,
                            );
                        assert(has_edge(h, x, y));
                    }
                }
            }
        }
    }
}

/// Making a fall through explicit by a block that holds a jump keeps the
/// state, and leaves no blocks that can be joined where there were none:
/// the block that the jump leads to is the root or has an edge from a block
/// that was placed before it.
proof fn lemma_lengthened_branch(g: GraphValue, p: int, c: usize)
    requires
        flow_wf(g),
        layout_state(g, p),
        0 <= p < g.order.len(),
        misplaced_follower(g, p) == Some(c),
        ending(g.blocks[g.order[p] as int].instrs) != Ending::Open,
    ensures
        layout_state(lengthened(g, g.order[p] as int, c), p + 1),
        unjoinable(g) ==> unjoinable(lengthened(g, g.order[p] as int, c)),
{
    let b = g.order[p] as int;
    let h = lengthened(g, b, c);
    let order = g.order;
    let n = g.blocks.len() as int;
    assert(g.next[b] == Some(c));
    assert(has_edge(g, b, c));
    assert(ending(g.blocks[b].instrs) == Ending::Branch);
    let at = lemma_misplaced_before(g, p, c);
    assert forall|x: int, y: usize| 0 <= x < n && x != b implies has_edge(h, x, y) == has_edge(
        g,
        x,
        y,
    ) by {}
    assert(ending(h.blocks[n].instrs) == Ending::Jump) by {
        assert(h.blocks[n].instrs.last() == explicit_jump());
    }
    assert forall|q: int| 0 < q < order.len() implies #[trigger] has_parent(h, order, q, order[q]) by {
        assert(has_parent(g, order, q, order[q]));
        let r = choose|r: int|
            0 <= r < q && r < order.len() && #[trigger] has_edge(g, order[r] as int, order[q]);
        if order[r] == b {
            assert(r == p);
            assert(order[q] != c);
        }
        assert(has_edge(h, order[r] as int, order[q]));
    }
    assert forall|q: int| p + 1 <= q < order.len() implies #[trigger] follower_near(h, order, q) by {
        assert(follower_near(g, order, q));
        assert(order[q] != order[p]);
    }
    if unjoinable(g) {
        assert forall|a: int| (#[trigger] join_target(h, a)) is None by {
            assert(join_target(g, a) is None);
            if a == n {
                assert(sole_successor(h, a) == Some(c));
                if at > 0 {
                    assert(has_parent(g, order, at, order[at]));
                    let r = choose|r: int|
                        0 <= r < at && r < order.len() && #[trigger] has_edge(g, order[r] as int, c);
                    assert(order[r] != order[p]);
                    assert(has_edge(h, order[r] as int, c));
                    assert(has_other_predecessor(h, a, c));
                }
            } else if a == b {
                assert(sole_successor(h, a) is None);
            } else if 0 <= a < n && g.live[a] {
                assert(sole_successor(h, a) == sole_successor(g, a));
                if let Some(y) = sole_successor(g, a) {
                    assert(has_edge(g, a, y));
                    if has_other_predecessor(g, a, y) {
                        let x = choose|x: int|
                            0 <= x < g.blocks.len() && g.live[x] && x != a && #[trigger] has_edge(
                                g,
                                x,
                                y,
                            );
                        if x == b && g.jump[b] != Some(y) {
                            assert(y == c);
                            assert(has_edge(h, n, c));
                        } else {
                            assert(has_edge(h, x, y));
                        }
                        assert(has_other_predecessor(h, a, y));
                    }
                }
            }
        }
    }
}

/// Ending every path with a return keeps the paths that lead to the
/// blocks: no edge leaves a block that gets a return.
pub proof fn lemma_massaged_paths(g: GraphValue, consts: Seq<Value>)
    requires
        flow_wf(g),
    ensures
        massaged(g, consts) matches Ok(h) ==> paths_kept(g, h),
{
    if let Ok(h) = massaged(g, consts) {
        assert forall|p: int, x: usize|
            0 <= p < g.blocks.len() && g.live[p] && #[trigger] has_edge(g, p, x) implies passage(
            g.blocks[p].instrs,
            g.jump[p] == Some(x),
        ) == passage(h.blocks[p].instrs, h.jump[p] == Some(x)) by {
            assert(edges_fit(ending(g.blocks[p].instrs), g.next[p], g.jump[p]));
            assert(!is_dangling(g, p));
        }
        assert(same_passages(g, h));
        lemma_same_passages_kept(g, h);
    }
}

/// Writing the target of a jump keeps the paths that lead to the blocks.
pub proof fn lemma_patched_paths(g: GraphValue, b: int)
    requires
        flow_wf(g),
        0 <= b < g.blocks.len(),
        g.live[b],
    ensures
        patched(g, b) matches Ok(h) ==> paths_kept(g, h),
{
    if let Ok(h) = patched(g, b) {
        if h != g {
            let before = g.blocks[b].instrs;
            let after = h.blocks[b].instrs;
            assert(after.drop_last() =~= before.drop_last());
            assert(before.len() > 0);
            assert(after.len() == before.len());
            assert(after.last() == after[before.len() - 1]);
            assert(before.last() is Good);
            let i = before.last()->Good_0;
            let j = after.last()->Good_0;
            assert(after.last() == ParsedInstr::Good(j));
            assert(j.opcode == i.opcode || (i.opcode.is_unconditional_jump_spec()
                && j.opcode == Opcode::JUMP_ABSOLUTE));
            assert(ending(before) == ending(after));
            assert(conditional_jump(before) is Some ==> conditional_jump(after) == Some(j)
                && j.opcode == i.opcode);
            assert(conditional_jump(before) is None ==> conditional_jump(after) is None);
            assert(edges_fit(ending(before), g.next[b], g.jump[b]));
            assert forall|by_jump: bool| passage(before, by_jump) == passage(after, by_jump) by {}
        }
        assert(same_passages(g, h));
        lemma_same_passages_kept(g, h);
    }
}

/// Making a fall through explicit by a jump at the end of the block keeps
/// the paths that lead to the blocks.
proof fn lemma_lengthened_open_paths(g: GraphValue, p: int, c: usize)
    requires
        flow_wf(g),
        layout_state(g, p),
        0 <= p < g.order.len(),
        misplaced_follower(g, p) == Some(c),
        ending(g.blocks[g.order[p] as int].instrs) == Ending::Open,
    ensures
        paths_kept(g, lengthened(g, g.order[p] as int, c)),
{
    let b = g.order[p] as int;
    let h = lengthened(g, b, c);
    assert(g.jump[b] is None);
    assert(g.next[b] == Some(c));
    assert(h.blocks[b].instrs.drop_last() =~= g.blocks[b].instrs);
    assert(ending(h.blocks[b].instrs) == Ending::Jump) by {
        assert(h.blocks[b].instrs.last() == explicit_jump());
    }
    assert(same_passages(g, h));
    lemma_same_passages_kept(g, h);
}

/// The path that leads to a block of the graph after a fall through has
/// been made explicit by a block that holds a jump.
proof fn lemma_lengthened_branch_path(g: GraphValue, p: int, c: usize, x: usize, fuel: nat)
    requires
        flow_wf(g),
        layout_state(g, p),
        0 <= p < g.order.len(),
        misplaced_follower(g, p) == Some(c),
        ending(g.blocks[g.order[p] as int].instrs) != Ending::Open,
        x < g.blocks.len() <= usize::MAX,
    ensures
        path_before(lengthened(g, g.order[p] as int, c), x, fuel) == path_before(g, x, fuel),
    decreases fuel,
{
    let b = g.order[p] as int;
    let h = lengthened(g, b, c);
    let order = g.order;
    let n = g.blocks.len() as int;
    if x != g.root && fuel > 0 {
        assert(g.next[b] == Some(c));
        assert(has_edge(g, b, c));
        assert(has_edge(h, n, c));
        if x == c {
            let at = lemma_misplaced_before(g, p, c);
            assert(at > 0);
            assert(has_parent(g, order, at, order[at]));
            let r = choose|r: int|
                0 <= r < at && r < order.len() && #[trigger] has_edge(g, order[r] as int, c);
            let d = order[r] as int;
            assert(d != b);
            assert(has_edge(h, d, c));
            assert forall|q: usize| !is_sole_predecessor(g, q, c) by {
                if q == b {
                    assert(has_edge(g, d, c));
                } else {
                    assert(has_edge(g, b, c));
                }
            }
            assert forall|q: usize| !is_sole_predecessor(h, q, c) by {
                if q == n {
                    assert(has_edge(h, d, c));
                } else {
                    assert(has_edge(h, n, c));
                }
            }
        } else {
            assert forall|q: int| 0 <= q < n implies has_edge(h, q, x) == has_edge(g, q, x) by {}
            assert(!has_edge(h, n, x));
            assert forall|q: usize| is_sole_predecessor(g, q, x) implies is_sole_predecessor(
                h,
                q,
                x,
            ) by {
                if has_other_predecessor(h, q as int, x) {
                    let k = choose|k: int|
                        0 <= k < h.blocks.len() && h.live[k] && k != q && #[trigger] has_edge(
                            h,
                            k,
                            x,
                        );
                    assert(has_edge(g, k, x));
                }
            }
            assert forall|q: usize| is_sole_predecessor(h, q, x) implies is_sole_predecessor(
                g,
                q,
                x,
            ) by {
                if has_other_predecessor(g, q as int, x) {
                    let k = choose|k: int|
                        0 <= k < g.blocks.len() && g.live[k] && k != q && #[trigger] has_edge(
                            g,
                            k,
                            x,
                        );
                    assert(has_edge(h, k, x));
                }
            }
            if let Some(q) = sole_predecessor(g, x) {
                lemma_sole_predecessor(h, q, x);
                lemma_lengthened_branch_path(g, p, c, q, (fuel - 1) as nat);
            }
            if let Some(q) = sole_predecessor(h, x) {
                lemma_sole_predecessor(g, q, x);
            }
        }
    }
}

/// Making the fall through of the block at position `p` of the layout
/// explicit keeps the paths that lead to the blocks.
pub proof fn lemma_lengthened_paths(g: GraphValue, p: int, c: usize)
    requires
        flow_wf(g),
        layout_state(g, p),
        0 <= p < g.order.len(),
        misplaced_follower(g, p) == Some(c),
        g.blocks.len() <= usize::MAX,
    ensures
        paths_kept(g, lengthened(g, g.order[p] as int, c)),
{
    let h = lengthened(g, g.order[p] as int, c);
    if ending(g.blocks[g.order[p] as int].instrs) == Ending::Open {
        lemma_lengthened_open_paths(g, p, c);
    } else {
        assert forall|x: usize, fuel: nat| x < g.blocks.len() implies #[trigger] path_before(
            h,
            x,
            fuel,
        ) == path_before(g, x, fuel) by {
            lemma_lengthened_branch_path(g, p, c, x, fuel);
        }
    }
}

/// Making the fall through of the block at position `p` of the layout
/// explicit keeps the state of [`layout_state`], and leaves no blocks that
/// can be joined where there were none.
pub proof fn lemma_lengthened_state(g: GraphValue, p: int, c: usize)
    requires
        flow_wf(g),
        layout_state(g, p),
        0 <= p < g.order.len(),
        misplaced_follower(g, p) == Some(c),
    ensures
        layout_state(lengthened(g, g.order[p] as int, c), p + 1),
        unjoinable(g) ==> unjoinable(lengthened(g, g.order[p] as int, c)),
{
    if ending(g.blocks[g.order[p] as int].instrs) == Ending::Open {
        lemma_lengthened_open(g, p, c);
    } else {
        lemma_lengthened_branch(g, p, c);
    }
}

impl CodeGraph {
    /// The edges of the live blocks of a well-formed graph fit their
    /// endings and lead to live blocks.
    pub proof fn lemma_flow_wf(&self)
        requires
            self.wf(),
        ensures
            flow_wf(self@),
    {
        let g = self@;
        assert forall|b: int, c: usize|
            0 <= b < g.blocks.len() && g.live[b] && #[trigger] has_edge(g, b, c) implies c
            < g.blocks.len() && g.live[c as int] by {
            assert(self.block_wf(b));
        }
        assert forall|b: int| 0 <= b < g.blocks.len() && g.live[b] implies edges_fit(
            #[trigger] ending(g.blocks[b].instrs),
            g.next[b],
            g.jump[b],
        ) by {
            assert(self.block_wf(b));
        }
    }

    /// Graphs with the same code have the same paths.
    pub proof fn lemma_same_code_paths(&self, other: &CodeGraph)
        requires
            self.same_code(other),
        ensures
            paths_kept(other@, self@),
    {
        assert forall|p: int| 0 <= p < self@.blocks.len() implies self@.blocks[p].instrs
            == #[trigger] other@.blocks[p].instrs by {
            assert(self.blocks@[p].instrs@ == other.blocks@[p].instrs@);
        }
        assert(same_passages(other@, self@));
        lemma_same_passages_kept(other@, self@);
    }

    /// Graphs with the same code are free of blocks that can be joined
    /// together.
    pub proof fn lemma_same_code_unjoinable(&self, other: &CodeGraph)
        requires
            self.same_code(other),
        ensures
            unjoinable(self@) == unjoinable(other@),
    {
        assert forall|b: int| 0 <= b < self@.blocks.len() implies #[trigger] ending(
            self@.blocks[b].instrs,
        ) == ending(other@.blocks[b].instrs) by {
            assert(self.blocks@[b].instrs@ == other.blocks@[b].instrs@);
        }
        lemma_same_flow_unjoinable(self@, other@);
    }
}

} // verus!

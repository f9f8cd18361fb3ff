//! What control can reach: the depth-first order of the blocks of a graph,
//! and the pass that removes the blocks that control cannot reach.

use vstd::prelude::*;
use crate::code_graph::{has_edge, occurs, CodeGraph, GraphValue};

verus! {

/// The number of entries of `marks` that are not set.
pub open spec fn count_unset(marks: Seq<bool>) -> nat
    decreases marks.len(),
{
    if marks.len() == 0 {
        0
    } else {
        count_unset(marks.drop_last()) + if marks.last() {
            0nat
        } else {
            1nat
        }
    }
}

/// Setting a mark that was not set leaves one unset mark less.
pub proof fn lemma_count_unset_update(marks: Seq<bool>, i: int)
    requires
        0 <= i < marks.len(),
        !marks[i],
    ensures
        count_unset(marks.update(i, true)) + 1 == count_unset(marks),
    decreases marks.len(),
{
    let updated = marks.update(i, true);
    if i == marks.len() - 1 {
        assert(updated.drop_last() =~= marks.drop_last());
    } else {
        assert(updated.drop_last() =~= marks.drop_last().update(i, true));
        lemma_count_unset_update(marks.drop_last(), i);
    }
}

/// Whether `path` leads from the root along edges of the graph.
pub open spec fn is_path(g: GraphValue, path: Seq<usize>) -> bool {
    &&& path.len() > 0
    &&& path[0] == g.root
    &&& forall|i: int|
        0 <= i < path.len() - 1 ==> has_edge(g, #[trigger] path[i] as int, path[i + 1])
}

/// Whether control can reach block `b` from the root.
pub open spec fn reachable(g: GraphValue, b: usize) -> bool {
    exists|path: Seq<usize>| #[trigger] is_path(g, path) && path.last() == b
}

/// The root can be reached.
pub proof fn lemma_root_reachable(g: GraphValue)
    ensures
        reachable(g, g.root),
{
    let path = seq![g.root];
    assert(is_path(g, path) && path.last() == g.root);
}

/// A block that an edge leads to from a block that can be reached can be
/// reached.
pub proof fn lemma_reachable_step(g: GraphValue, b: usize, c: usize)
    requires
        reachable(g, b),
        has_edge(g, b as int, c),
    ensures
        reachable(g, c),
{
    let path = choose|path: Seq<usize>| #[trigger] is_path(g, path) && path.last() == b;
    let longer = path.push(c);
    assert forall|i: int| 0 <= i < longer.len() - 1 implies has_edge(
        g,
        #[trigger] longer[i] as int,
        longer[i + 1],
    ) by {
        if i < path.len() - 1 {
            assert(longer[i] == path[i]);
            assert(longer[i + 1] == path[i + 1]);
        } else {
            assert(longer[i] == path.last());
        }
    }
    assert(is_path(g, longer) && longer.last() == c);
}

/// The blocks that a depth-first walk places after it has placed the
/// blocks of `order`, which are marked in `placed`, and has the blocks of
/// `stack` left to visit, the next one last.
///
/// A block that is visited is placed unless it is placed already. The
/// target of its jump and then the block that follows it are left to visit,
/// so that the block that follows it is visited first.
pub open spec fn dfs(g: GraphValue, stack: Seq<usize>, placed: Seq<bool>, order: Seq<usize>) -> Seq<
    usize,
>
    decreases 2 * count_unset(placed) + stack.len(),
{
    if stack.len() == 0 {
        order
    } else {
        let b = stack.last();
        let rest = stack.drop_last();
        if b >= placed.len() || placed[b as int] || b >= g.next.len() || b >= g.jump.len() {
            dfs(g, rest, placed, order)
        } else {
            let with_jump = match g.jump[b as int] {
                Some(t) => rest.push(t),
                None => rest,
            };
            let with_next = match g.next[b as int] {
                Some(c) => with_jump.push(c),
                None => with_jump,
            };
            proof {
                lemma_count_unset_update(placed, b as int);
            }
            dfs(g, with_next, placed.update(b as int, true), order.push(b))
        }
    }
}

/// The blocks that control can reach from the root, each once, in the
/// order of a depth-first walk that visits the block that follows a block
/// before the target of its jump.
pub open spec fn dfs_order(g: GraphValue) -> Seq<usize> {
    dfs(g, seq![g.root], Seq::new(g.blocks.len(), |b: int| false), Seq::empty())
}

/// The graph without the blocks that control cannot reach from the root:
/// the blocks of [`dfs_order`] are live, and no others.
pub open spec fn pruned(g: GraphValue) -> GraphValue {
    GraphValue {
        blocks: g.blocks,
        next: g.next,
        jump: g.jump,
        live: Seq::new(g.blocks.len(), |b: int| occurs(dfs_order(g), b as usize)),
        root: g.root,
        order: g.order,
    }
}

impl CodeGraph {
    /// Whether `order` lists live blocks without repetition, starts with
    /// the root, and holds every block that an edge from one of its blocks
    /// leads to.
    pub open spec fn covers(&self, order: Seq<usize>) -> bool {
        &&& order.len() > 0
        &&& order[0] == self.root
        &&& forall|p: int| 0 <= p < order.len() ==> self.is_live(#[trigger] order[p] as int)
        &&& forall|p: int, q: int| 0 <= p < q < order.len() ==> order[p] != order[q]
        &&& forall|p: int|
            0 <= p < order.len() ==> (self.next[#[trigger] order[p] as int] matches Some(c)
                ==> occurs(order, c))
        &&& forall|p: int|
            0 <= p < order.len() ==> (self.jump[#[trigger] order[p] as int] matches Some(c)
                ==> occurs(order, c))
    }

    /// An order that covers the graph holds every block of a path from the
    /// root.
    pub proof fn lemma_covers_path(&self, order: Seq<usize>, path: Seq<usize>, i: int)
        requires
            self.covers(order),
            is_path(self@, path),
            0 <= i < path.len(),
        ensures
            occurs(order, path[i]),
        decreases i,
    {
        if i == 0 {
            assert(order[0] == path[0]);
        } else {
            self.lemma_covers_path(order, path, i - 1);
            let p = choose|p: int| 0 <= p < order.len() && order[p] == path[i - 1];
            assert(has_edge(self@, path[i - 1] as int, path[i]));
            assert(self.is_live(order[p] as int));
        }
    }

    /// Lists the blocks that control can reach from the root, each once, in
    /// the order of a depth-first walk that follows the edge to the
    /// following block before the edge of a jump.
    pub fn visit_order(&self) -> (order: Vec<usize>)
        requires
            self.wf(),
        ensures
            order@ == dfs_order(self@),
            self.covers(order@),
            forall|b: usize| occurs(order@, b) <==> reachable(self@, b),
    {
        let n = self.blocks.len();
        let mut placed: Vec<bool> = Vec::new();
        let mut i: usize = 0;
        while i < n
            invariant
                i <= n,
                placed@.len() == i,
                forall|k: int| 0 <= k < i ==> !placed@[k],
            decreases n - i,
        {
            placed.push(false);
            i += 1;
        }
        let mut order: Vec<usize> = Vec::new();
        let mut stack: Vec<usize> = Vec::new();
        stack.push(self.root);
        assert(stack@[0] == self.root);
        assert(stack@ =~= seq![self.root]);
        assert(placed@ =~= Seq::new(self@.blocks.len(), |b: int| false));
        proof {
            lemma_root_reachable(self@);
        }
        while stack.len() > 0
            invariant
                self.wf(),
                dfs(self@, stack@, placed@, order@) == dfs_order(self@),
                forall|k: int| 0 <= k < stack@.len() ==> reachable(self@, #[trigger] stack@[k]),
                forall|p: int| 0 <= p < order@.len() ==> reachable(self@, #[trigger] order@[p]),
                n == self.blocks@.len(),
                placed@.len() == n,
                forall|k: int| 0 <= k < stack@.len() ==> self.is_live(#[trigger] stack@[k] as int),
                forall|p: int| 0 <= p < order@.len() ==> self.is_live(#[trigger] order@[p] as int),
                forall|p: int| 0 <= p < order@.len() ==> placed@[#[trigger] order@[p] as int],
                forall|b: int| 0 <= b < n && #[trigger] placed@[b] ==> occurs(order@, b as usize),
                forall|p: int, q: int| 0 <= p < q < order@.len() ==> order@[p] != order@[q],
                forall|p: int|
                    0 <= p < order@.len() ==> (self.next@[#[trigger] order@[p] as int] matches Some(
                        c,
                    ) ==> placed@[c as int] || occurs(stack@, c)),
                forall|p: int|
                    0 <= p < order@.len() ==> (self.jump@[#[trigger] order@[p] as int] matches Some(
                        c,
                    ) ==> placed@[c as int] || occurs(stack@, c)),
                order@.len() == 0 ==> stack@.len() == 1 && stack@[0] == self.root,
                order@.len() > 0 ==> order@[0] == self.root,
            decreases 2 * count_unset(placed@) + stack@.len(),
        {
            let ghost old_stack = stack@;
            let ghost old_order = order@;
            let ghost old_placed = placed@;
            let b = stack.pop().unwrap();
            assert(old_stack[old_stack.len() - 1] == b);
            assert(stack@ =~= old_stack.drop_last());
            assert(self.block_wf(b as int));
            if placed[b] {
                assert forall|c: usize|
                    #[trigger] occurs(old_stack, c) && 0 <= c < n && !placed@[c as int] implies occurs(
                    stack@,
                    c,
                ) by {
                    let i = choose|i: int| 0 <= i < old_stack.len() && old_stack[i] == c;
                    assert(stack@[i] == c);
                }
                assert forall|p: int| 0 <= p < order@.len() implies (self.next@[#[trigger] order@[p] as int] matches Some(
                    c,
                ) ==> placed@[c as int] || occurs(stack@, c)) by {
                    assert(self.block_wf(order@[p] as int));
                    if let Some(c) = self.next@[order@[p] as int] {
                        if !placed@[c as int] {
                            assert(occurs(old_stack, c));
                        }
                    }
                }
                assert forall|p: int| 0 <= p < order@.len() implies (self.jump@[#[trigger] order@[p] as int] matches Some(
                    c,
                ) ==> placed@[c as int] || occurs(stack@, c)) by {
                    assert(self.block_wf(order@[p] as int));
                    if let Some(c) = self.jump@[order@[p] as int] {
                        if !placed@[c as int] {
                            assert(occurs(old_stack, c));
                        }
                    }
                }
            } else {
                proof {
                    lemma_count_unset_update(placed@, b as int);
                }
                placed.set(b, true);
                order.push(b);
                assert(order@[order@.len() - 1] == b);
                let ghost mid_stack = stack@;
                match self.jump[b] {
                    Some(t) => {
                        stack.push(t);
                        assert(stack@[stack@.len() - 1] == t);
                        proof {
                            lemma_reachable_step(self@, b, t);
                        }
                    },
                    None => {},
                }
                let ghost mid2_stack = stack@;
                match self.next[b] {
                    Some(c) => {
                        stack.push(c);
                        assert(stack@[stack@.len() - 1] == c);
                        proof {
                            lemma_reachable_step(self@, b, c);
                        }
                    },
                    None => {},
                }
                assert forall|k: int| 0 <= k < stack@.len() implies reachable(
                    self@,
                    #[trigger] stack@[k],
                ) by {
                    if k < mid_stack.len() {
                        assert(stack@[k] == old_stack[k]);
                    }
                }
                assert forall|p: int| 0 <= p < order@.len() implies reachable(
                    self@,
                    #[trigger] order@[p],
                ) by {
                    if p < old_order.len() {
                        assert(order@[p] == old_order[p]);
                    }
                }
                assert forall|c: usize|
                    #[trigger] occurs(old_stack, c) && 0 <= c < n && !placed@[c as int] implies occurs(
                    stack@,
                    c,
                ) by {
                    let i = choose|i: int| 0 <= i < old_stack.len() && old_stack[i] == c;
                    assert(mid_stack[i] == c);
                    assert(mid2_stack[i] == c);
                    assert(stack@[i] == c);
                }
                assert forall|x: int| 0 <= x < n && #[trigger] placed@[x] implies occurs(
                    order@,
                    x as usize,
                ) by {
                    if x == b {
                        assert(order@[order@.len() - 1] == b);
                    } else {
                        assert(old_placed[x]);
                        let i = choose|i: int| 0 <= i < old_order.len() && old_order[i] == x as usize;
                        assert(order@[i] == x as usize);
                    }
                }
                assert forall|p: int, q: int| 0 <= p < q < order@.len() implies order@[p]
                    != order@[q] by {
                    if q == order@.len() - 1 {
                        assert(old_placed[old_order[p] as int]);
                    }
                }
                assert forall|p: int| 0 <= p < order@.len() implies (self.next@[#[trigger] order@[p] as int] matches Some(
                    c,
                ) ==> placed@[c as int] || occurs(stack@, c)) by {
                    assert(self.block_wf(order@[p] as int));
                    if let Some(c) = self.next@[order@[p] as int] {
                        if p < old_order.len() {
                            assert(order@[p] == old_order[p]);
                            if !placed@[c as int] {
                                assert(occurs(old_stack, c));
                            }
                        } else {
                            assert(stack@[stack@.len() - 1] == c);
                        }
                    }
                }
                assert forall|p: int| 0 <= p < order@.len() implies (self.jump@[#[trigger] order@[p] as int] matches Some(
                    c,
                ) ==> placed@[c as int] || occurs(stack@, c)) by {
                    assert(self.block_wf(order@[p] as int));
                    if let Some(t) = self.jump@[order@[p] as int] {
                        if p < old_order.len() {
                            assert(order@[p] == old_order[p]);
                            if !placed@[t as int] {
                                assert(occurs(old_stack, t));
                            }
                        } else {
                            assert(mid2_stack[mid2_stack.len() - 1] == t);
                            assert(stack@[mid2_stack.len() - 1] == t);
                        }
                    }
                }
            }
        }
        assert forall|p: int| 0 <= p < order@.len() implies (self.next@[#[trigger] order@[p] as int] matches Some(
            c,
        ) ==> occurs(order@, c)) by {
            assert(self.block_wf(order@[p] as int));
            if let Some(c) = self.next@[order@[p] as int] {
                assert(placed@[c as int]);
            }
        }
        assert forall|p: int| 0 <= p < order@.len() implies (self.jump@[#[trigger] order@[p] as int] matches Some(
            c,
        ) ==> occurs(order@, c)) by {
            assert(self.block_wf(order@[p] as int));
            if let Some(c) = self.jump@[order@[p] as int] {
                assert(placed@[c as int]);
            }
        }
        assert forall|b: usize| occurs(order@, b) <==> reachable(self@, b) by {
            if occurs(order@, b) {
                let p = choose|p: int| 0 <= p < order@.len() && order@[p] == b;
                assert(reachable(self@, order@[p]));
            }
            if reachable(self@, b) {
                let path = choose|path: Seq<usize>| #[trigger] is_path(self@, path) && path.last() == b;
                self.lemma_covers_path(order@, path, path.len() - 1);
            }
        }
        order
    }

    /// Removes from the graph every block that control cannot reach from
    /// the root: the blocks that stay live are those of
    /// [`CodeGraph::visit_order`].
    pub fn prune_unreachable(&mut self)
        requires
            old(self).wf(),
        ensures
            final(self)@ == pruned(old(self)@),
            final(self).wf(),
            forall|b: int|
                0 <= b < old(self).blocks@.len() ==> (final(self).is_live(b) <==> reachable(
                    old(self)@,
                    b as usize,
                )),
            final(self).root == old(self).root,
            final(self).blocks@ == old(self).blocks@,
            final(self).next@ == old(self).next@,
            final(self).jump@ == old(self).jump@,
            forall|b: int| final(self).is_live(b) ==> old(self).is_live(b),
            old(self).clean() ==> final(self).clean(),
    {
        let order = self.visit_order();
        let n = self.blocks.len();
        let mut marks: Vec<bool> = Vec::new();
        let mut i: usize = 0;
        while i < n
            invariant
                i <= n,
                marks@.len() == i,
                forall|k: int| 0 <= k < i ==> !marks@[k],
            decreases n - i,
        {
            marks.push(false);
            i += 1;
        }
        let mut p: usize = 0;
        while p < order.len()
            invariant
                p <= order@.len(),
                self.covers(order@),
                n == self.blocks@.len(),
                marks@.len() == n,
                forall|b: int|
                    0 <= b < n ==> (#[trigger] marks@[b] <==> occurs(
                        order@.subrange(0, p as int),
                        b as usize,
                    )),
            decreases order@.len() - p,
        {
            let b = order[p];
            let ghost before = marks@;
            marks.set(b, true);
            proof {
                let upto = order@.subrange(0, p as int);
                let next = order@.subrange(0, p + 1);
                assert forall|x: int| 0 <= x < n implies (#[trigger] marks@[x] <==> occurs(
                    next,
                    x as usize,
                )) by {
                    if occurs(next, x as usize) {
                        let i = choose|i: int| 0 <= i < next.len() && next[i] == x as usize;
                        if i < p {
                            assert(upto[i] == x as usize);
                        }
                    }
                    if marks@[x] {
                        if x == b {
                            assert(next[p as int] == b);
                        } else {
                            assert(before[x]);
                            let i = choose|i: int| 0 <= i < upto.len() && upto[i] == x as usize;
                            assert(next[i] == x as usize);
                        }
                    }
                }
            }
            p += 1;
        }
        assert(order@.subrange(0, order@.len() as int) =~= order@);
        let ghost before = *self;
        self.live = marks;
        proof {
            assert(self@.live =~= pruned(before@).live);
            assert(self@.blocks =~= before@.blocks);
            assert forall|b: int| self.is_live(b) implies before.is_live(b) by {
                let i = choose|i: int| 0 <= i < order@.len() && order@[i] == b as usize;
                assert(before.is_live(order@[i] as int));
            }
            assert(self.is_live(self.root as int)) by {
                assert(order@[0] == self.root);
            }
            assert forall|b: int| self.is_live(b) implies #[trigger] self.block_wf(b) by {
                assert(before.block_wf(b));
                let i = choose|i: int| 0 <= i < order@.len() && order@[i] == b as usize;
                assert(order@[i] == b as usize);
            }
        }
    }
}

/// Whether one of the blocks at the positions before `limit` of `order`
/// has an edge to block `c`.
pub open spec fn has_parent(g: GraphValue, order: Seq<usize>, limit: int, c: usize) -> bool {
    exists|r: int| 0 <= r < limit && r < order.len() && #[trigger] has_edge(g, order[r] as int, c)
}

/// Whether the block that follows the block at position `p` of `order`, if
/// there is one, is placed at most one position after it.
pub open spec fn follower_near(g: GraphValue, order: Seq<usize>, p: int) -> bool {
    g.next[order[p] as int] matches Some(c) ==> exists|q: int|
        0 <= q <= p + 1 && q < order.len() && #[trigger] order[q] == c
}

/// Whether `order` has the shape of a depth-first order: every block but
/// the first has an edge from a block before it, and the block that follows
/// a block is placed right after it unless it was placed before.
pub open spec fn dfs_shaped(g: GraphValue, order: Seq<usize>) -> bool {
    &&& parents_first(g, order)
    &&& forall|p: int| 0 <= p < order.len() ==> #[trigger] follower_near(g, order, p)
}

/// Whether the edges of the live blocks of a graph lead to live blocks.
pub open spec fn edges_live(g: GraphValue) -> bool {
    &&& g.next.len() == g.blocks.len()
    &&& g.jump.len() == g.blocks.len()
    &&& g.live.len() == g.blocks.len()
    &&& forall|b: int, c: usize|
        0 <= b < g.blocks.len() && g.live[b] && #[trigger] has_edge(g, b, c) ==> c < g.blocks.len()
            && g.live[c as int]
}

/// Whether every block on the stack of a depth-first walk is a live block
/// that is the root or has an edge from a block of `order`.
pub open spec fn stack_found(g: GraphValue, stack: Seq<usize>, order: Seq<usize>) -> bool {
    forall|k: int|
        0 <= k < stack.len() ==> (#[trigger] stack[k]) < g.blocks.len() && g.live[stack[k] as int]
            && (stack[k] == g.root || has_parent(g, order, order.len() as int, stack[k]))
}

/// Whether the blocks of `order` are live blocks that are marked as placed.
pub open spec fn order_placed(g: GraphValue, placed: Seq<bool>, order: Seq<usize>) -> bool {
    forall|p: int|
        0 <= p < order.len() ==> (#[trigger] order[p]) < g.blocks.len() && g.live[order[p] as int]
            && placed[order[p] as int]
}

/// Whether every block that is marked as placed occurs in `order`.
pub open spec fn placed_ordered(placed: Seq<bool>, order: Seq<usize>) -> bool {
    forall|b: int| 0 <= b < placed.len() && #[trigger] placed[b] ==> occurs(order, b as usize)
}

/// Whether every block of `order` but the first has an edge from a block
/// before it.
pub open spec fn parents_first(g: GraphValue, order: Seq<usize>) -> bool {
    forall|q: int| 0 < q < order.len() ==> #[trigger] has_parent(g, order, q, order[q])
}

/// Whether the followers of all blocks of `order` but the last are near.
pub open spec fn followers_near(g: GraphValue, order: Seq<usize>) -> bool {
    forall|p: int| 0 <= p < order.len() - 1 ==> #[trigger] follower_near(g, order, p)
}

/// Whether the follower of the last block of `order` is in `order` or on
/// top of the stack.
pub open spec fn follower_pending(g: GraphValue, stack: Seq<usize>, order: Seq<usize>) -> bool {
    order.len() > 0 ==> (g.next[order.last() as int] matches Some(c) ==> occurs(order, c) || (
    stack.len() > 0 && stack.last() == c))
}

/// Whether a depth-first walk is in a state from which it gives an order
/// of the shape of [`dfs_shaped`].
pub open spec fn dfs_state(
    g: GraphValue,
    stack: Seq<usize>,
    placed: Seq<bool>,
    order: Seq<usize>,
) -> bool {
    &&& edges_live(g)
    &&& placed.len() == g.blocks.len()
    &&& stack_found(g, stack, order)
    &&& order_placed(g, placed, order)
    &&& placed_ordered(placed, order)
    &&& parents_first(g, order)
    &&& order.len() == 0 ==> stack.len() == 1 && stack[0] == g.root
    &&& order.len() > 0 ==> order[0] == g.root
    &&& followers_near(g, order)
    &&& follower_pending(g, stack, order)
}

/// The stack of a depth-first walk after it placed block `b`.
pub open spec fn pushed(g: GraphValue, rest: Seq<usize>, b: usize) -> Seq<usize> {
    let with_jump = match g.jump[b as int] {
        Some(t) => rest.push(t),
        None => rest,
    };
    match g.next[b as int] {
        Some(c) => with_jump.push(c),
        None => with_jump,
    }
}

/// A walk stays in its state when it drops a block that was placed from
/// its stack.
proof fn lemma_dfs_state_skip(
    g: GraphValue,
    stack: Seq<usize>,
    placed: Seq<bool>,
    order: Seq<usize>,
)
    requires
        dfs_state(g, stack, placed, order),
        stack.len() > 0,
        placed[stack.last() as int],
    ensures
        dfs_state(g, stack.drop_last(), placed, order),
{
    let rest = stack.drop_last();
    assert(stack[stack.len() - 1] == stack.last());
    assert(stack_found(g, rest, order)) by {
        assert forall|k: int| 0 <= k < rest.len() implies (#[trigger] rest[k]) < g.blocks.len()
            && g.live[rest[k] as int] && (rest[k] == g.root || has_parent(
            g,
            order,
            order.len() as int,
            rest[k],
        )) by {
            assert(rest[k] == stack[k]);
        }
    }
    assert(order.len() > 0) by {
        if order.len() == 0 {
            assert(stack[0] == stack.last());
            assert(occurs(order, stack.last()));
        }
    }
}

/// A block with an edge from a block of an order has one in a longer
/// order.
proof fn lemma_has_parent_push(g: GraphValue, order: Seq<usize>, limit: int, c: usize, b: usize)
    requires
        has_parent(g, order, limit, c),
    ensures
        has_parent(g, order.push(b), limit, c),
{
    let r = choose|r: int|
        0 <= r < limit && r < order.len() && #[trigger] has_edge(g, order[r] as int, c);
    assert(order.push(b)[r] == order[r]);
}

/// What occurs in an order occurs in a longer one.
proof fn lemma_occurs_push(order: Seq<usize>, c: usize, b: usize)
    requires
        occurs(order, c),
    ensures
        occurs(order.push(b), c),
{
    let i = choose|i: int| 0 <= i < order.len() && order[i] == c;
    assert(order.push(b)[i] == c);
}

/// The stack after a block was placed holds what it held before, and
/// above it the blocks that the edges of the block lead to, the follower
/// on top.
proof fn lemma_pushed(g: GraphValue, rest: Seq<usize>, b: usize)
    ensures
        rest.len() <= pushed(g, rest, b).len() <= rest.len() + 2,
        forall|k: int| 0 <= k < rest.len() ==> pushed(g, rest, b)[k] == rest[k],
        forall|k: int|
            rest.len() <= k < pushed(g, rest, b).len() ==> has_edge(
                g,
                b as int,
                #[trigger] pushed(g, rest, b)[k],
            ),
        g.next[b as int] matches Some(c) ==> pushed(g, rest, b).len() > 0 && pushed(
            g,
            rest,
            b,
        ).last() == c,
{
}

/// Placing the topmost block of the stack keeps every block of the stack
/// found.
proof fn lemma_stack_found_place(g: GraphValue, stack: Seq<usize>, order: Seq<usize>)
    requires
        edges_live(g),
        stack_found(g, stack, order),
        stack.len() > 0,
    ensures
        stack_found(g, pushed(g, stack.drop_last(), stack.last()), order.push(stack.last())),
{
    let len = order.len() as int;
    let b = stack.last();
    let rest = stack.drop_last();
    let stack2 = pushed(g, rest, b);
    let order2 = order.push(b);
    assert(stack[stack.len() - 1] == b);
    assert(order2[len] == b);
    lemma_pushed(g, rest, b);
    assert forall|k: int| 0 <= k < stack2.len() implies (#[trigger] stack2[k]) < g.blocks.len()
        && g.live[stack2[k] as int] && (stack2[k] == g.root || has_parent(
        g,
        order2,
        len + 1,
        stack2[k],
    )) by {
        if k < rest.len() {
            assert(stack2[k] == stack[k]);
            if stack[k] != g.root {
                lemma_has_parent_push(g, order, len, stack[k], b);
            }
        } else {
            assert(has_edge(g, b as int, stack2[k]));
            assert(has_edge(g, order2[len] as int, stack2[k]));
        }
    }
}

/// Placing a live block keeps the blocks of the order placed.
proof fn lemma_order_placed_place(g: GraphValue, placed: Seq<bool>, order: Seq<usize>, b: usize)
    requires
        order_placed(g, placed, order),
        b < g.blocks.len(),
        placed.len() == g.blocks.len(),
        g.live[b as int],
    ensures
        order_placed(g, placed.update(b as int, true), order.push(b)),
{
    let order2 = order.push(b);
    let placed2 = placed.update(b as int, true);
    assert forall|p: int| 0 <= p < order2.len() implies (#[trigger] order2[p]) < g.blocks.len()
        && g.live[order2[p] as int] && placed2[order2[p] as int] by {
        if p < order.len() {
            assert(order2[p] == order[p]);
        }
    }
}

/// Placing a block keeps every placed block in the order.
proof fn lemma_placed_ordered_place(placed: Seq<bool>, order: Seq<usize>, b: usize)
    requires
        placed_ordered(placed, order),
        b < placed.len(),
    ensures
        placed_ordered(placed.update(b as int, true), order.push(b)),
{
    let order2 = order.push(b);
    let placed2 = placed.update(b as int, true);
    assert forall|x: int| 0 <= x < placed2.len() && #[trigger] placed2[x] implies occurs(
        order2,
        x as usize,
    ) by {
        if x != b {
            assert(placed[x]);
            lemma_occurs_push(order, x as usize, b);
        } else {
            assert(order2[order.len() as int] == b);
        }
    }
}

/// Placing a block with an edge from a block of the order keeps the
/// parents first.
proof fn lemma_parents_first_place(g: GraphValue, order: Seq<usize>, b: usize)
    requires
        parents_first(g, order),
        order.len() > 0 ==> has_parent(g, order, order.len() as int, b),
    ensures
        parents_first(g, order.push(b)),
{
    let order2 = order.push(b);
    assert forall|q: int| 0 < q < order2.len() implies #[trigger] has_parent(
        g,
        order2,
        q,
        order2[q],
    ) by {
        if q < order.len() {
            assert(order2[q] == order[q]);
            lemma_has_parent_push(g, order, q, order[q], b);
        } else {
            lemma_has_parent_push(g, order, q, b, b);
        }
    }
}

/// Placing the topmost block of the stack keeps the followers near: the
/// follower of the last block of the order was placed or lies on top.
proof fn lemma_followers_near_place(g: GraphValue, stack: Seq<usize>, order: Seq<usize>)
    requires
        followers_near(g, order),
        follower_pending(g, stack, order),
        stack.len() > 0,
    ensures
        followers_near(g, order.push(stack.last())),
{
    let len = order.len() as int;
    let b = stack.last();
    let order2 = order.push(b);
    assert forall|p: int| 0 <= p < order2.len() - 1 implies #[trigger] follower_near(
        g,
        order2,
        p,
    ) by {
        assert(order2[p] == order[p]);
        if let Some(c) = g.next[order[p] as int] {
            if p < len - 1 {
                assert(follower_near(g, order, p));
                let q = choose|q: int|
                    0 <= q <= p + 1 && q < order.len() && #[trigger] order[q] == c;
                assert(order2[q] == c);
            } else if occurs(order, c) {
                let q = choose|q: int| 0 <= q < order.len() && order[q] == c;
                assert(order2[q] == c);
            } else {
                assert(order2[len] == c);
            }
        }
    }
}

/// A walk stays in its state when it places the topmost block of its
/// stack.
proof fn lemma_dfs_state_place(
    g: GraphValue,
    stack: Seq<usize>,
    placed: Seq<bool>,
    order: Seq<usize>,
)
    requires
        dfs_state(g, stack, placed, order),
        stack.len() > 0,
        !placed[stack.last() as int],
    ensures
        dfs_state(
            g,
            pushed(g, stack.drop_last(), stack.last()),
            placed.update(stack.last() as int, true),
            order.push(stack.last()),
        ),
{
    let b = stack.last();
    let rest = stack.drop_last();
    let order2 = order.push(b);
    assert(stack[stack.len() - 1] == b);
    lemma_pushed(g, rest, b);
    lemma_stack_found_place(g, stack, order);
    lemma_order_placed_place(g, placed, order, b);
    lemma_placed_ordered_place(placed, order, b);
    if order.len() > 0 {
        assert(placed[order[0] as int]);
        assert(order2[0] == order[0]);
    } else {
        assert(stack[0] == b);
    }
    lemma_parents_first_place(g, order, b);
    lemma_followers_near_place(g, stack, order);
    assert(order2.last() == b);
}

/// A depth-first walk gives an order of the shape of [`dfs_shaped`].
pub proof fn lemma_dfs_shaped(
    g: GraphValue,
    stack: Seq<usize>,
    placed: Seq<bool>,
    order: Seq<usize>,
)
    requires
        dfs_state(g, stack, placed, order),
    ensures
        dfs_shaped(g, dfs(g, stack, placed, order)),
    decreases 2 * count_unset(placed) + stack.len(),
{
    let len = order.len() as int;
    if stack.len() == 0 {
        assert forall|p: int| 0 <= p < order.len() implies #[trigger] follower_near(
            g,
            order,
            p,
        ) by {
            if p == len - 1 {
                if let Some(c) = g.next[order[p] as int] {
                    let q = choose|q: int| 0 <= q < order.len() && order[q] == c;
                    assert(order[q] == c);
                }
            }
        }
    } else {
        let b = stack.last();
        let rest = stack.drop_last();
        assert(stack[stack.len() - 1] == b);
        if placed[b as int] {
            lemma_dfs_state_skip(g, stack, placed, order);
            lemma_dfs_shaped(g, rest, placed, order);
        } else {
            lemma_count_unset_update(placed, b as int);
            lemma_pushed(g, rest, b);
            lemma_dfs_state_place(g, stack, placed, order);
            lemma_dfs_shaped(
                g,
                pushed(g, rest, b),
                placed.update(b as int, true),
                order.push(b),
            );
        }
    }
}

/// Whether an order has the shape of a depth-first order depends on the
/// edges of the graph alone.
pub proof fn lemma_dfs_shaped_edges(g: GraphValue, h: GraphValue, order: Seq<usize>)
    requires
        dfs_shaped(g, order),
        g.next == h.next,
        g.jump == h.jump,
    ensures
        dfs_shaped(h, order),
{
    assert forall|q: int| 0 < q < order.len() implies #[trigger] has_parent(h, order, q, order[q]) by {
        assert(has_parent(g, order, q, order[q]));
        let r = choose|r: int|
            0 <= r < q && r < order.len() && #[trigger] has_edge(g, order[r] as int, order[q]);
        assert(has_edge(h, order[r] as int, order[q]));
    }
    assert forall|p: int| 0 <= p < order.len() implies #[trigger] follower_near(h, order, p) by {
        assert(follower_near(g, order, p));
    }
}

impl CodeGraph {
    /// The depth-first order of a well-formed graph has the shape of
    /// [`dfs_shaped`].
    pub proof fn lemma_dfs_order_shaped(&self)
        requires
            self.wf(),
        ensures
            dfs_shaped(self@, dfs_order(self@)),
    {
        let g = self@;
        assert forall|b: int, c: usize|
            0 <= b < g.blocks.len() && g.live[b] && #[trigger] has_edge(g, b, c) implies c
            < g.blocks.len() && g.live[c as int] by {
            assert(self.block_wf(b));
        }
        let stack = seq![g.root];
        let placed = Seq::new(g.blocks.len(), |b: int| false);
        let order = Seq::<usize>::empty();
        assert(dfs_state(g, stack, placed, order));
        lemma_dfs_shaped(g, stack, placed, order);
    }
}

} // verus!

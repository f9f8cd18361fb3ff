//! The deobfuscation of a code object.

use vstd::prelude::*;
use crate::code_graph::{CodeGraph, GraphValue};
use crate::emit::emitted;
use crate::graph_build::graph_of;
use crate::join::{join_all, join_target};
use crate::paths::{lemma_paths_kept_trans, paths_kept};
use crate::preserved::unjoinable;
use crate::layout::{laid, with_branches};
use crate::reachability::pruned;
use crate::repair::{massaged, repaired};
use crate::const_conditions::without_const_conditions;
use crate::error::Error;
use crate::instruction::decodes_fully;
use crate::name_tags::{name_tags, names_value, FunctionNames};
use crate::object::{Code, CodeValue};

verus! {

/// The number of fall throughs among the first `k` blocks: of blocks that
/// are followed by a block.
pub open spec fn fall_throughs(next: Seq<Option<usize>>, k: nat) -> nat
    decreases k,
{
    if k == 0 || k > next.len() {
        0
    } else {
        fall_throughs(next, (k - 1) as nat) + if next[k - 1] is Some {
            1nat
        } else {
            0nat
        }
    }
}

/// The number of times that the layout of a graph is computed anew at
/// most: once for each of its fall throughs, since a round makes every fall
/// through explicit that the layout does not keep.
pub open spec fn layout_rounds(g: GraphValue) -> nat {
    fall_throughs(g.next, g.next.len())
}

/// The graph `joined`, in which no blocks can be joined, after conditional
/// jumps with a constant outcome have been removed and blocks have been
/// joined, in turn, until no jump is removed. There is no such graph if the
/// interpreter refuses an instruction, or if jumps are still removed after
/// `rounds` more rounds.
pub open spec fn settle(joined: GraphValue, code: CodeValue, rounds: nat) -> Result<
    GraphValue,
    Error,
>
    decreases rounds,
{
    match without_const_conditions(joined, code) {
        Err(e) => Err(e),
        Ok((g, changed)) => if !changed {
            Ok(g)
        } else if rounds == 0 {
            Err(Error::StepLimitReached)
        } else {
            settle(join_all(g), code, (rounds - 1) as nat)
        },
    }
}

/// The graph laid out and made fit for writing. The layout is computed
/// anew for as long as a fall through has to be made explicit, and there is
/// no such graph if that is still so after `rounds` more rounds, or if an
/// offset does not fit into the argument of a jump.
pub open spec fn arrange(g: GraphValue, rounds: nat) -> Result<GraphValue, Error>
    decreases rounds,
{
    match laid(g) {
        Err(e) => Err(e),
        Ok(l) => match with_branches(l) {
            Err(e) => Err(e),
            Ok((b, lengthened)) => if !lengthened {
                Ok(b)
            } else if rounds == 0 {
                Err(Error::StepLimitReached)
            } else {
                arrange(b, (rounds - 1) as nat)
            },
        },
    }
}

/// The graph of a code object, repaired where it ran into bad bytes,
/// pruned of what control cannot reach, and with its blocks joined.
pub open spec fn joined_graph(g: GraphValue) -> GraphValue {
    join_all(pruned(repaired(g)))
}

/// The deobfuscated bytecode of a code object, and the function names
/// recovered from it.
///
/// The graph of the code object is built, repaired, pruned and joined. The
/// name tags are read from it. The graph is simplified, every path is
/// ended by a return, the graph is laid out, and its bytecode is written.
pub open spec fn deobfuscated(code: CodeValue) -> Result<
    (Seq<u8>, Seq<(Seq<u8>, Seq<u8>)>),
    Error,
> {
    match graph_of(code) {
        Err(e) => Err(e),
        Ok(g) => {
            let joined = joined_graph(g);
            match simplified(joined, code) {
                Err(e) => Err(e),
                Ok(settled) => match massaged(settled, code.consts) {
                    Err(e) => Err(e),
                    Ok(ended) => match arrange(ended, layout_rounds(ended)) {
                        Err(e) => Err(e),
                        Ok(arranged) => Ok((emitted(arranged), name_tags(code, joined))),
                    },
                },
            }
        },
    }
}

/// Whether `bytes` is the bytecode of a graph that can be written, in
/// which no live block ends in a conditional jump whose outcome the
/// interpreter knows, and in which no blocks can be joined.
pub open spec fn is_simplified(code: CodeValue, bytes: Seq<u8>) -> bool {
    exists|g: CodeGraph| #[trigger]
        g.emittable() && g.all_settled(code) && unjoinable(g@) && g.bytecode() == bytes
}

/// The graph simplified: its blocks are joined, and then conditional
/// jumps with a constant outcome are removed and blocks are joined, in
/// turn, until no jump is removed. At most as many rounds are taken as the
/// graph has blocks.
pub open spec fn simplified(g: GraphValue, code: CodeValue) -> Result<GraphValue, Error> {
    settle(join_all(g), code, g.blocks.len())
}

/// Simplifies a graph: joins its blocks, and then removes the conditional
/// jumps with a constant outcome and joins the blocks that this makes
/// joinable, in turn, until no jump is removed.
///
/// On success the graph is that of [`simplified`]. It is then at the fixed
/// point of both passes: no live block ends in a conditional jump whose
/// outcome the interpreter knows, and no two blocks can be joined.
pub fn simplify(graph: &mut CodeGraph, code: &Code) -> (r: Result<(), Error>)
    requires
        old(graph).wf(),
        old(graph).clean(),
    ensures
        match r {
            Ok(()) => simplified(old(graph)@, code@) == Ok::<GraphValue, Error>(final(graph)@),
            Err(e) => simplified(old(graph)@, code@) == Err::<GraphValue, Error>(e),
        },
        final(graph).wf(),
        final(graph).clean(),
        r is Ok ==> final(graph).all_settled(code@),
        r is Ok ==> forall|a: int| !final(graph).joinable(a),
{
    let first_rounds = graph.blocks.len();
    let mut rounds: usize = first_rounds;
    graph.join_blocks();
    loop
        invariant_except_break
            settle(graph@, code@, rounds as nat) == simplified(old(graph)@, code@),
        invariant
            graph.wf(),
            graph.clean(),
            forall|a: int| !graph.joinable(a),
        ensures
            graph.all_settled(code@),
            simplified(old(graph)@, code@) == Ok::<GraphValue, Error>(graph@),
        decreases rounds,
    {
        let ghost before = *graph;
        match graph.remove_const_conditions(code) {
            Ok(changed) => {
                if !changed {
                    assert forall|a: int| !graph.joinable(a) by {
                        assert(!before.joinable(a));
                    }
                    break ;
                }
            },
            Err(e) => {
                return Err(e);
            },
        }
        if rounds == 0 {
            return Err(Error::StepLimitReached);
        }
        rounds -= 1;
        graph.join_blocks();
    }
    Ok(())
}

/// Lays a graph out and makes it fit for writing. The layout is computed
/// anew for as long as a fall through has to be made explicit.
///
/// On success the graph is that of [`arrange`], and it can be written. The
/// blocks test the conditions that they tested before, and no blocks can be
/// joined if none could be joined before.
pub fn arrange_graph(graph: &mut CodeGraph) -> (r: Result<(), Error>)
    requires
        old(graph).wf(),
        old(graph).clean(),
    ensures
        match r {
            Ok(()) => arrange(old(graph)@, layout_rounds(old(graph)@)) == Ok::<GraphValue, Error>(
                final(graph)@,
            ),
            Err(e) => arrange(old(graph)@, layout_rounds(old(graph)@)) == Err::<
                GraphValue,
                Error,
            >(e),
        },
        r is Ok ==> final(graph).emittable(),
        final(graph).keeps_conditions(old(graph)),
        forall|b: int|
            final(graph).is_live(b) && b < old(graph).blocks@.len() ==> old(graph).is_live(b),
        unjoinable(old(graph)@) ==> unjoinable(final(graph)@),
        paths_kept(old(graph)@, final(graph)@),
{
    let mut rounds: usize = 0;
    let mut k: usize = 0;
    while k < graph.next.len()
        invariant
            k <= graph.next@.len(),
            rounds <= k,
            rounds == fall_throughs(graph.next@, k as nat),
            *graph == *old(graph),
        decreases graph.next@.len() - k,
    {
        if graph.next[k].is_some() {
            rounds += 1;
        }
        k += 1;
    }
    let ghost first_rounds = rounds as nat;
    assert(first_rounds == layout_rounds(old(graph)@));
    loop
        invariant_except_break
            arrange(graph@, rounds as nat) == arrange(old(graph)@, first_rounds),
            first_rounds == layout_rounds(old(graph)@),
        invariant
            graph.wf(),
            graph.clean(),
            graph.keeps_conditions(old(graph)),
            forall|b: int|
                graph.is_live(b) && b < old(graph).blocks@.len() ==> old(graph).is_live(b),
            unjoinable(old(graph)@) ==> unjoinable(graph@),
            paths_kept(old(graph)@, graph@),
            graph.blocks@.len() >= old(graph).blocks@.len(),
        ensures
            graph.emittable(),
            arrange(old(graph)@, first_rounds) == Ok::<GraphValue, Error>(graph@),
        decreases rounds,
    {
        let ghost before = *graph;
        let laid_out = graph.update_bb_offsets();
        let ghost mid = *graph;
        proof {
            graph.lemma_same_code(&before);
            graph.lemma_keeps_conditions_trans(&before, old(graph));
            lemma_paths_kept_trans(old(graph)@, before@, graph@);
        }
        match laid_out {
            Ok(()) => {},
            Err(e) => {
                return Err(e);
            },
        }
        let fitted = graph.update_branches();
        proof {
            graph.lemma_keeps_conditions_trans(&mid, old(graph));
            lemma_paths_kept_trans(old(graph)@, mid@, graph@);
        }
        match fitted {
            Ok(lengthened) => {
                if !lengthened {
                    break ;
                }
            },
            Err(e) => {
                return Err(e);
            },
        }
        if rounds == 0 {
            return Err(Error::StepLimitReached);
        }
        rounds -= 1;
    }
    Ok(())
}

/// A point on the way of a deobfuscation at which the graph can be looked
/// at.
#[derive(Clone, Copy, Debug, PartialEq, Eq)]
pub enum Checkpoint {
    /// The graph as it was built from the bytecode.
    Before,
    /// After the graph was repaired and pruned and its blocks were joined.
    Joined,
    /// After the conditional jumps with a constant outcome were removed.
    Target,
    /// After every path was ended by a return.
    Returns,
    /// After the graph was laid out.
    Offsets,
}

/// Looks at the graph at the checkpoints of a deobfuscation, to dump it
/// for debugging.
pub trait GraphObserver {
    /// Sees the graph at a checkpoint.
    fn checkpoint(&mut self, at: Checkpoint, graph: &CodeGraph);
}

/// An observer that does not look.
pub struct NoObserver;

impl GraphObserver for NoObserver {
    fn checkpoint(&mut self, at: Checkpoint, graph: &CodeGraph) {
    }
}

/// Deobfuscates a code object and shows the graph to `observer` at the
/// checkpoints on the way: returns the new bytecode of the code object and
/// the function names recovered from it. What the observer does has no
/// part in the result.
///
/// The result is that of [`deobfuscated`], so that the same code object
/// always gives the same bytes. The bytecode decodes from offset 0 on,
/// instruction by instruction, up to its end. It is the bytecode of a graph
/// that can be written, in which every jump targets the start of a block,
/// in which no live block ends in a conditional jump whose outcome the
/// interpreter knows, and in which no blocks can be joined.
pub fn deobfuscate_code_observed<O: GraphObserver>(code: &Code, observer: &mut O) -> (r: Result<
    (Vec<u8>, FunctionNames),
    Error,
>)
    ensures
        match r {
            Ok((bytes, names)) => deobfuscated(code@) == Ok::<
                (Seq<u8>, Seq<(Seq<u8>, Seq<u8>)>),
                Error,
            >((bytes@, names_value(names@))),
            Err(e) => deobfuscated(code@) == Err::<(Seq<u8>, Seq<(Seq<u8>, Seq<u8>)>), Error>(e),
        },
        r matches Ok((bytes, _)) ==> decodes_fully(bytes@, 0) && is_simplified(code@, bytes@),
{
    let mut graph = match CodeGraph::from_code(code) {
        Ok(g) => g,
        Err(e) => {
            return Err(e);
        },
    };
    observer.checkpoint(Checkpoint::Before, &graph);
    graph.fix_bbs_with_bad_instr();
    graph.prune_unreachable();
    graph.join_blocks();
    observer.checkpoint(Checkpoint::Joined, &graph);
    let mut mapped_function_names: FunctionNames = Vec::new();
    graph.collect_name_tags(code, &mut mapped_function_names);
    assert(names_value(mapped_function_names@) =~= name_tags(code@, graph@));
    match simplify(&mut graph, code) {
        Ok(()) => {},
        Err(e) => {
            return Err(e);
        },
    }
    observer.checkpoint(Checkpoint::Target, &graph);
    let ghost settled = graph;
    assert(unjoinable(graph@)) by {
        assert forall|a: int| (#[trigger] join_target(graph@, a)) is None by {
            assert(!graph.joinable(a));
        }
    }
    match graph.massage_returns_for_decompiler(code) {
        Ok(()) => {},
        Err(e) => {
            return Err(e);
        },
    }
    proof {
        graph.lemma_all_settled_kept(&settled, code@);
    }
    observer.checkpoint(Checkpoint::Returns, &graph);
    let ghost ended = graph;
    match arrange_graph(&mut graph) {
        Ok(()) => {},
        Err(e) => {
            return Err(e);
        },
    }
    proof {
        graph.lemma_all_settled_kept(&ended, code@);
    }
    observer.checkpoint(Checkpoint::Offsets, &graph);
    let mut new_bytecode: Vec<u8> = Vec::new();
    graph.write_bytecode(&mut new_bytecode);
    proof {
        graph.lemma_bytecode_decodes();
        assert(new_bytecode@ =~= graph.bytecode());
        assert(graph.emittable() && graph.all_settled(code@) && unjoinable(graph@)
            && graph.bytecode() == new_bytecode@);
    }
    Ok((new_bytecode, mapped_function_names))
}

/// Deobfuscates a code object: returns its new bytecode and the function
/// names recovered from it, as [`deobfuscate_code_observed`] does without
/// an observer.
pub fn deobfuscate_code(code: &Code) -> (r: Result<(Vec<u8>, FunctionNames), Error>)
    ensures
        match r {
            Ok((bytes, names)) => deobfuscated(code@) == Ok::<
                (Seq<u8>, Seq<(Seq<u8>, Seq<u8>)>),
                Error,
            >((bytes@, names_value(names@))),
            Err(e) => deobfuscated(code@) == Err::<(Seq<u8>, Seq<(Seq<u8>, Seq<u8>)>), Error>(e),
        },
        r matches Ok((bytes, _)) ==> decodes_fully(bytes@, 0) && is_simplified(code@, bytes@),
{
    let mut observer = NoObserver;
    deobfuscate_code_observed(code, &mut observer)
}

} // verus!

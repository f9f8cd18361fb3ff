//! The construction of the graph of a code object: what a walk over the
//! bytecode finds is split into basic blocks, and the blocks are connected
//! by the edges that their last instructions ask for.

use vstd::prelude::*;
use std::collections::BTreeMap;
use crate::code_graph::{
    copy_entries, edges_fit, ending, ending_of, entry_is_plain, entry_size, is_plain, shaped,
    BasicBlock, BasicBlockFlags, BlockValue, CodeGraph, Ending, GraphValue,
};
use crate::error::Error;
use crate::instruction::{DecodeError, Instruction};
use crate::object::{lemma_code_value, Code, CodeValue};
use crate::walker::{const_jmp_instruction_walker, start, walk, NoCallback, ParsedInstr, STEP_LIMIT};

verus! {

/// The argument of an instruction, or 0 if it has none.
pub open spec fn arg_or_zero(i: Instruction) -> nat {
    match i.arg {
        Some(a) => a as nat,
        None => 0,
    }
}

/// Whether what a walk found at `off` makes a block start at offset `o`:
/// a bad entry makes a block start after it; a jump makes a block start
/// at its target, if that lies within the bytecode, and after it; and a
/// return or a raise makes a block start after it.
pub open spec fn marks_leader(map: Map<u64, ParsedInstr>, len: nat, off: nat, o: int) -> bool {
    map.contains_key(off as u64) && match map[off as u64] {
        ParsedInstr::Bad => o == off + 1,
        ParsedInstr::Good(i) => {
            let end = off + i.size();
            let arg = arg_or_zero(i);
            end <= len && if i.opcode.is_jump_spec() {
                o == end || if i.opcode.is_relative_jump_spec() {
                    end + arg <= len && o == end + arg
                } else {
                    arg <= len && o == arg
                }
            } else {
                i.opcode.is_terminator_spec() && o == end
            }
        },
    }
}

/// Whether a block starts at offset `o` because of what a walk found
/// before offset `k`: offset 0 always starts a block.
pub open spec fn leader_before(map: Map<u64, ParsedInstr>, len: nat, k: nat, o: int) -> bool {
    o == 0 || exists|off: nat| off < k && #[trigger] marks_leader(map, len, off, o)
}

/// For each offset from 0 to `len`, whether a block starts there.
pub open spec fn leaders_of(map: Map<u64, ParsedInstr>, len: nat) -> Seq<bool> {
    Seq::new(len + 1, |o: int| leader_before(map, len, len, o))
}

/// Marks the offsets at which a block starts: offset 0, every jump target,
/// and every offset after a jump, a return, a raise or a bad entry.
fn find_leaders(map: &BTreeMap<u64, ParsedInstr>, len: usize) -> (leaders: Vec<bool>)
    requires
        len < usize::MAX,
    ensures
        leaders@ == leaders_of(map@, len as nat),
{
    let mut leaders: Vec<bool> = Vec::new();
    let mut i: usize = 0;
    while i <= len
        invariant
            i <= len + 1,
            len < usize::MAX,
            leaders@.len() == i,
            forall|o: int| 0 <= o < i ==> leaders@[o] == (o == 0),
        decreases len + 1 - i,
    {
        leaders.push(i == 0);
        i += 1;
    }
    let mut off: usize = 0;
    while off < len
        invariant
            off <= len,
            len < usize::MAX,
            leaders@.len() == len + 1,
            forall|o: int|
                0 <= o <= len ==> #[trigger] leaders@[o] == leader_before(
                    map@,
                    len as nat,
                    off as nat,
                    o,
                ),
        decreases len - off,
    {
        let ghost before = leaders@;
        match map.get(&(off as u64)) {
            Some(ParsedInstr::Good(i)) => {
                let size = i.len();
                if size <= len - off {
                    let end = off + size;
                    if i.opcode.is_jump() {
                        let arg: usize = match i.arg {
                            Some(a) => a as usize,
                            None => 0,
                        };
                        if i.opcode.is_relative_jump() {
                            if arg <= len - end {
                                leaders.set(end + arg, true);
                            }
                        } else if arg <= len {
                            leaders.set(arg, true);
                        }
                        leaders.set(end, true);
                    } else if i.opcode.is_terminator() {
                        leaders.set(end, true);
                    }
                }
            },
            Some(ParsedInstr::Bad) => {
                leaders.set(off + 1, true);
            },
            None => {},
        }
        proof {
            assert forall|o: int| 0 <= o <= len implies #[trigger] leaders@[o] == leader_before(
                map@,
                len as nat,
                (off + 1) as nat,
                o,
            ) by {
                assert(leaders@[o] == (before[o] || marks_leader(map@, len as nat, off as nat, o)));
                if leader_before(map@, len as nat, (off + 1) as nat, o) && o != 0 {
                    let w = choose|w: nat|
                        w < off + 1 && #[trigger] marks_leader(map@, len as nat, w, o);
                    if w < off {
                        assert(leader_before(map@, len as nat, off as nat, o));
                    }
                }
                if before[o] && o != 0 {
                    let w = choose|w: nat| w < off && #[trigger] marks_leader(map@, len as nat, w, o);
                    assert(w < off + 1);
                }
            }
        }
        off += 1;
    }
    assert(leaders@ =~= leaders_of(map@, len as nat));
    leaders
}

/// Whether `blocks` are basic blocks that are not empty and lie within
/// `len` bytes, and `block_at` maps the offset at which each block starts to
/// its index.
pub open spec fn blocks_split(
    blocks: Seq<BasicBlock>,
    block_at: Seq<Option<usize>>,
    len: nat,
) -> bool {
    &&& block_at.len() == len + 1
    &&& blocks_shaped(blocks, len)
    &&& forall|o: int|
        0 <= o <= len ==> ((#[trigger] block_at[o]) matches Some(b) ==> b < blocks.len())
}

/// Whether `blocks` are basic blocks that are not empty and lie within
/// `len` bytes.
pub open spec fn blocks_shaped(blocks: Seq<BasicBlock>, len: nat) -> bool {
    forall|b: int|
        0 <= b < blocks.len() ==> {
            &&& shaped((#[trigger] blocks[b]).instrs@)
            &&& blocks[b].instrs@.len() > 0
            &&& blocks[b].start_offset + entry_size(blocks[b].instrs@.last())
                <= blocks[b].end_offset <= len
        }
}

/// The values of a sequence of blocks.
pub open spec fn block_values(blocks: Seq<BasicBlock>) -> Seq<BlockValue> {
    Seq::new(blocks.len(), |b: int| blocks[b]@)
}

/// What a walk found at offset `off`, as a block holds it: an instruction
/// that is not well formed or that extends beyond the bytecode counts as a
/// bad entry.
pub open spec fn normalized(map: Map<u64, ParsedInstr>, len: nat, off: nat) -> Option<ParsedInstr> {
    if map.contains_key(off as u64) {
        match map[off as u64] {
            ParsedInstr::Good(i) => if i.wf() && i.size() <= len - off {
                Some(ParsedInstr::Good(i))
            } else {
                Some(ParsedInstr::Bad)
            },
            ParsedInstr::Bad => Some(ParsedInstr::Bad),
        }
    } else {
        None
    }
}

/// The state of the splitting of what a walk found into blocks: the blocks
/// that are complete, the index of the block that starts at each offset,
/// and the entries of the block that is being built, with the offset at
/// which it starts and the offset at which its last entry ends.
pub struct Split {
    pub blocks: Seq<BlockValue>,
    pub block_at: Seq<Option<usize>>,
    pub current: Seq<ParsedInstr>,
    pub start: nat,
    pub cursor: nat,
}

/// No flag is set.
pub open spec fn no_flags() -> BasicBlockFlags {
    BasicBlockFlags { offsets_updated: false, bad: false, joined: false }
}

/// The state in which the block that is being built is complete.
pub open spec fn closed(st: Split) -> Split {
    Split {
        blocks: st.blocks.push(
            BlockValue {
                start_offset: st.start as u64,
                end_offset: st.cursor as u64,
                instrs: st.current,
                flags: no_flags(),
            },
        ),
        block_at: st.block_at,
        current: Seq::empty(),
        start: st.start,
        cursor: st.cursor,
    }
}

/// The state of the splitting after offset `off` has been looked at.
///
/// Where the walk found nothing, nothing changes. Else the block that is
/// being built is complete if a block starts at `off` or if the block does
/// not end at `off`. What was found at `off` is added to the block that is
/// being built, which starts at `off` if it is empty, and is complete
/// unless the entry is plain.
pub open spec fn split_step(
    map: Map<u64, ParsedInstr>,
    leaders: Seq<bool>,
    len: nat,
    st: Split,
    off: nat,
) -> Split {
    let found = normalized(map, len, off);
    match found {
        None => st,
        Some(entry) => {
            let st = if st.current.len() > 0 && (leaders[off as int] || st.cursor != off) {
                closed(st)
            } else {
                st
            };
            let st = if st.current.len() == 0 {
                Split {
                    blocks: st.blocks,
                    block_at: st.block_at.update(off as int, Some(st.blocks.len() as usize)),
                    current: st.current,
                    start: off,
                    cursor: st.cursor,
                }
            } else {
                st
            };
            let st = Split {
                blocks: st.blocks,
                block_at: st.block_at,
                current: st.current.push(entry),
                start: st.start,
                cursor: off + entry_size(entry),
            };
            if is_plain(entry) {
                st
            } else {
                closed(st)
            }
        },
    }
}

/// The state of the splitting after the offsets before `k` have been
/// looked at.
pub open spec fn split_upto(
    map: Map<u64, ParsedInstr>,
    leaders: Seq<bool>,
    len: nat,
    k: nat,
) -> Split
    decreases k,
{
    if k == 0 {
        Split {
            blocks: Seq::empty(),
            block_at: Seq::new(len + 1, |o: int| None::<usize>),
            current: Seq::empty(),
            start: 0,
            cursor: 0,
        }
    } else {
        split_step(map, leaders, len, split_upto(map, leaders, len, (k - 1) as nat), (k - 1) as nat)
    }
}

/// What a walk found, split into basic blocks in the order of their
/// offsets, and the index of the block that starts at each offset.
pub open spec fn split_of(map: Map<u64, ParsedInstr>, leaders: Seq<bool>, len: nat) -> (
    Seq<BlockValue>,
    Seq<Option<usize>>,
) {
    let st = split_upto(map, leaders, len, len);
    if st.current.len() > 0 {
        (closed(st).blocks, st.block_at)
    } else {
        (st.blocks, st.block_at)
    }
}

/// Splits what a walk found into basic blocks, in the order of their
/// offsets. An instruction that is not well formed or that extends beyond
/// the bytecode counts as a bad entry.
fn split_blocks(map: &BTreeMap<u64, ParsedInstr>, leaders: &Vec<bool>, len: usize) -> (r: (
    Vec<BasicBlock>,
    Vec<Option<usize>>,
))
    requires
        len < usize::MAX,
        leaders@.len() == len + 1,
    ensures
        (block_values(r.0@), r.1@) == split_of(map@, leaders@, len as nat),
        blocks_split(r.0@, r.1@, len as nat),
{
    let flags = BasicBlockFlags { offsets_updated: false, bad: false, joined: false };
    let mut blocks: Vec<BasicBlock> = Vec::new();
    let mut block_at: Vec<Option<usize>> = Vec::new();
    let mut i: usize = 0;
    while i <= len
        invariant
            i <= len + 1,
            len < usize::MAX,
            block_at@.len() == i,
            forall|o: int| 0 <= o < i ==> (#[trigger] block_at@[o]) is None,
        decreases len + 1 - i,
    {
        block_at.push(None);
        i += 1;
    }
    let mut current: Vec<ParsedInstr> = Vec::new();
    let mut start: usize = 0;
    let mut cursor: usize = 0;
    let mut off: usize = 0;
    proof {
        assert(block_values(blocks@) =~= Seq::empty());
        assert(block_at@ =~= Seq::new((len + 1) as nat, |o: int| None::<usize>));
    }
    while off < len
        invariant
            off <= len,
            len < usize::MAX,
            leaders@.len() == len + 1,
            block_at@.len() == len + 1,
            flags == no_flags(),
            blocks_shaped(blocks@, len as nat),
            forall|o: int|
                0 <= o <= len ==> ((#[trigger] block_at@[o]) matches Some(b) ==> b < blocks@.len()
                    || (b == blocks@.len() && current@.len() > 0)),
            forall|k: int| 0 <= k < current@.len() ==> is_plain(#[trigger] current@[k]),
            current@.len() > 0 ==> start < cursor <= len && start + entry_size(current@.last())
                <= cursor,
            split_upto(map@, leaders@, len as nat, off as nat) == (Split {
                blocks: block_values(blocks@),
                block_at: block_at@,
                current: current@,
                start: start as nat,
                cursor: cursor as nat,
            }),
        decreases len - off,
    {
        let found: Option<ParsedInstr> = match map.get(&(off as u64)) {
            Some(ParsedInstr::Good(i)) => {
                if i.arg.is_some() == i.opcode.has_arg() && i.len() <= len - off {
                    Some(ParsedInstr::Good(*i))
                } else {
                    Some(ParsedInstr::Bad)
                }
            },
            Some(ParsedInstr::Bad) => Some(ParsedInstr::Bad),
            None => None,
        };
        assert(found == normalized(map@, len as nat, off as nat));
        if found.is_some() && current.len() > 0 && (leaders[off] || cursor != off) {
            let ghost listed = block_values(blocks@);
            let mut closed_entries: Vec<ParsedInstr> = Vec::new();
            std::mem::swap(&mut closed_entries, &mut current);
            blocks.push(
                BasicBlock {
                    start_offset: start as u64,
                    end_offset: cursor as u64,
                    instrs: closed_entries,
                    flags,
                },
            );
            assert(block_values(blocks@) =~= listed.push(blocks@[blocks@.len() - 1]@));
            assert(current@ =~= Seq::empty());
        }
        match found {
            Some(entry) => {
                if current.len() == 0 {
                    start = off;
                    block_at.set(off, Some(blocks.len()));
                }
                let size: usize = match entry {
                    ParsedInstr::Good(i) => i.len(),
                    ParsedInstr::Bad => 1,
                };
                cursor = off + size;
                let plain = entry_is_plain(&entry);
                current.push(entry);
                if !plain {
                    let ghost listed = block_values(blocks@);
                    let mut closed_entries: Vec<ParsedInstr> = Vec::new();
                    std::mem::swap(&mut closed_entries, &mut current);
                    assert(closed_entries@.last() == entry);
                    blocks.push(
                        BasicBlock {
                            start_offset: start as u64,
                            end_offset: cursor as u64,
                            instrs: closed_entries,
                            flags,
                        },
                    );
                    assert(block_values(blocks@) =~= listed.push(blocks@[blocks@.len() - 1]@));
                    assert(current@ =~= Seq::empty());
                }
            },
            None => {},
        }
        off += 1;
    }
    if current.len() > 0 {
        let ghost listed = block_values(blocks@);
        blocks.push(
            BasicBlock { start_offset: start as u64, end_offset: cursor as u64, instrs: current, flags },
        );
        assert(block_values(blocks@) =~= listed.push(blocks@[blocks@.len() - 1]@));
    }
    (blocks, block_at)
}

/// The block that starts at `offset`, if there is one.
pub open spec fn block_at_offset(block_at: Seq<Option<usize>>, offset: int) -> Option<usize> {
    if 0 <= offset < block_at.len() {
        block_at[offset]
    } else {
        None
    }
}

/// The block that starts at `offset`, if there is one.
fn block_starting_at(block_at: &Vec<Option<usize>>, offset: usize) -> (r: Option<usize>)
    ensures
        r == block_at_offset(block_at@, offset as int),
{
    if offset < block_at.len() {
        block_at[offset]
    } else {
        None
    }
}

/// A block flagged as bad, and without its last entry if `cut`.
pub open spec fn spoiled(block: BlockValue, cut: bool) -> BlockValue {
    BlockValue {
        start_offset: block.start_offset,
        end_offset: block.end_offset,
        instrs: if cut {
            block.instrs.drop_last()
        } else {
            block.instrs
        },
        flags: BasicBlockFlags {
            offsets_updated: block.flags.offsets_updated,
            bad: true,
            joined: block.flags.joined,
        },
    }
}

/// Block `b` with the edges that its last instruction asks for: the block,
/// the block that follows it and the block that it jumps to.
///
/// The block that starts where a jump targets is its target, and the block
/// that starts where the block ends follows it. A block that is missing as
/// a successor of a conditional jump is replaced by the stub, which is the
/// block after the given ones. An unconditional jump whose target is
/// missing is cut off, and its block is flagged as bad.
pub open spec fn linked_block(
    blocks: Seq<BlockValue>,
    block_at: Seq<Option<usize>>,
    len: nat,
    b: int,
) -> (BlockValue, Option<usize>, Option<usize>) {
    let block = blocks[b];
    let stub = blocks.len() as usize;
    let end = block.end_offset as int;
    match block.instrs.last() {
        ParsedInstr::Bad => (spoiled(block, false), None, None),
        ParsedInstr::Good(i) => {
            let arg = arg_or_zero(i);
            let target = if i.opcode.is_relative_jump_spec() {
                if arg <= len - end {
                    block_at_offset(block_at, end + arg)
                } else {
                    None
                }
            } else {
                block_at_offset(block_at, arg as int)
            };
            let follower = block_at_offset(block_at, end);
            match ending(block.instrs) {
                Ending::Open => (block, follower, None),
                Ending::Jump => if target is Some {
                    (block, None, target)
                } else {
                    (spoiled(block, true), None, None)
                },
                Ending::Branch => (
                    block,
                    Some(
                        match follower {
                            Some(f) => f,
                            None => stub,
                        },
                    ),
                    Some(
                        match target {
                            Some(t) => t,
                            None => stub,
                        },
                    ),
                ),
                _ => (block, None, None),
            }
        },
    }
}

/// The empty block that stands for every block that is missing.
pub open spec fn stub_block(len: nat) -> BlockValue {
    BlockValue {
        start_offset: len as u64,
        end_offset: len as u64,
        instrs: Seq::empty(),
        flags: BasicBlockFlags { offsets_updated: false, bad: true, joined: false },
    }
}

/// The graph of the given blocks, connected by the edges that their last
/// instructions ask for, with the stub as one more block. All blocks are
/// live; the root is the block that starts at offset 0, or the stub if
/// there is none; and there is no layout.
pub open spec fn linked_graph(blocks: Seq<BlockValue>, block_at: Seq<Option<usize>>, len: nat) -> GraphValue {
    GraphValue {
        blocks: Seq::new(
            blocks.len() + 1,
            |b: int|
                if b < blocks.len() {
                    linked_block(blocks, block_at, len, b).0
                } else {
                    stub_block(len)
                },
        ),
        next: Seq::new(
            blocks.len() + 1,
            |b: int|
                if b < blocks.len() {
                    linked_block(blocks, block_at, len, b).1
                } else {
                    None
                },
        ),
        jump: Seq::new(
            blocks.len() + 1,
            |b: int|
                if b < blocks.len() {
                    linked_block(blocks, block_at, len, b).2
                } else {
                    None
                },
        ),
        live: Seq::new(blocks.len() + 1, |b: int| true),
        root: match block_at_offset(block_at, 0) {
            Some(r) => r,
            None => blocks.len() as usize,
        },
        order: Seq::empty(),
    }
}

/// Connects the blocks by the edges that their last instructions ask for.
fn link(blocks: Vec<BasicBlock>, block_at: &Vec<Option<usize>>, len: usize) -> (g: CodeGraph)
    requires
        len < usize::MAX,
        blocks_split(blocks@, block_at@, len as nat),
    ensures
        g@ == linked_graph(block_values(blocks@), block_at@, len as nat),
        g.wf(),
        forall|b: int| 0 <= b < g.blocks@.len() ==> g.live@[b],
{
    let count = blocks.len();
    let stub = count;
    let ghost values = block_values(blocks@);
    let mut linked: Vec<BasicBlock> = Vec::new();
    let mut next: Vec<Option<usize>> = Vec::new();
    let mut jump: Vec<Option<usize>> = Vec::new();
    let mut live: Vec<bool> = Vec::new();
    let mut b: usize = 0;
    while b < count
        invariant
            b <= count,
            count == blocks@.len(),
            stub == count,
            len < usize::MAX,
            values == block_values(blocks@),
            blocks_split(blocks@, block_at@, len as nat),
            linked@.len() == b,
            next@.len() == b,
            jump@.len() == b,
            live@.len() == b,
            forall|k: int| 0 <= k < b ==> live@[k],
            forall|k: int|
                0 <= k < b ==> (linked@[k]@, next@[k], jump@[k]) == #[trigger] linked_block(
                    values,
                    block_at@,
                    len as nat,
                    k,
                ),
            forall|k: int|
                0 <= k < b ==> {
                    &&& shaped((#[trigger] linked@[k]).instrs@)
                    &&& edges_fit(ending(linked@[k].instrs@), next@[k], jump@[k])
                    &&& (next@[k] matches Some(c) ==> c <= count)
                    &&& (jump@[k] matches Some(c) ==> c <= count)
                },
        decreases count - b,
    {
        let block = &blocks[b];
        assert(values[b as int] == block@);
        let mut instrs = copy_entries(&block.instrs);
        let mut flags = block.flags;
        let end = block.end_offset as usize;
        let mut to_next: Option<usize> = None;
        let mut to_jump: Option<usize> = None;
        let last = instrs[instrs.len() - 1];
        let shape = ending_of(&instrs);
        match last {
            ParsedInstr::Good(i) => {
                let arg: usize = match i.arg {
                    Some(a) => a as usize,
                    None => 0,
                };
                let target: Option<usize> = if i.opcode.is_relative_jump() {
                    if arg <= len - end {
                        block_starting_at(block_at, end + arg)
                    } else {
                        None
                    }
                } else {
                    block_starting_at(block_at, arg)
                };
                let follower = block_starting_at(block_at, end);
                match shape {
                    Ending::Open => {
                        to_next = follower;
                    },
                    Ending::Jump => {
                        if target.is_some() {
                            to_jump = target;
                        } else {
                            instrs.pop();
                            flags.bad = true;
                        }
                    },
                    Ending::Branch => {
                        to_jump = match target {
                            Some(t) => Some(t),
                            None => Some(stub),
                        };
                        to_next = match follower {
                            Some(f) => Some(f),
                            None => Some(stub),
                        };
                    },
                    _ => {},
                }
            },
            ParsedInstr::Bad => {
                flags.bad = true;
            },
        }
        proof {
            let before = block.instrs@;
            assert forall|k: int| 0 <= k < instrs@.len() - 1 implies is_plain(
                #[trigger] instrs@[k],
            ) by {
                assert(instrs@[k] == before[k]);
            }
        }
        linked.push(
            BasicBlock {
                start_offset: block.start_offset,
                end_offset: block.end_offset,
                instrs,
                flags,
            },
        );
        next.push(to_next);
        jump.push(to_jump);
        live.push(true);
        b += 1;
    }
    linked.push(
        BasicBlock {
            start_offset: len as u64,
            end_offset: len as u64,
            instrs: Vec::new(),
            flags: BasicBlockFlags { offsets_updated: false, bad: true, joined: false },
        },
    );
    next.push(None);
    jump.push(None);
    live.push(true);
    let root: usize = match block_starting_at(block_at, 0) {
        Some(r) => r,
        None => stub,
    };
    let g = CodeGraph { blocks: linked, next, jump, live, root, order: Vec::new() };
    proof {
        let expected = linked_graph(values, block_at@, len as nat);
        assert(g@.blocks =~= expected.blocks);
        assert(g@.next =~= expected.next);
        assert(g@.jump =~= expected.jump);
        assert(g@.live =~= expected.live);
        assert(g@.order =~= expected.order);
    }
    assert forall|k: int| g.is_live(k) implies #[trigger] g.block_wf(k) by {
        if k < count {
            assert(shaped(g.blocks@[k].instrs@));
        }
    }
    g
}

/// The graph of a code object: what a walk over its bytecode finds, split
/// into basic blocks and connected by edges. There is no graph where the
/// walk fails.
pub open spec fn graph_of(code: CodeValue) -> Result<GraphValue, Error> {
    let len = code.code.len();
    if len >= usize::MAX {
        Err(Error::DisassemblerError(DecodeError::TruncatedInput))
    } else {
        match walk::<NoCallback>(code.code, code.consts, start((), len), STEP_LIMIT as nat).0 {
            Err(e) => Err(e),
            Ok(map) => {
                let (blocks, block_at) = split_of(map, leaders_of(map, len), len);
                Ok(linked_graph(blocks, block_at, len))
            },
        }
    }
}

impl CodeGraph {
    /// Builds the graph of a code object: walks its bytecode, splits what
    /// the walk found into basic blocks at every jump target and after
    /// every jump, return and raise, and connects the blocks by the edges
    /// that their last instructions ask for.
    pub fn from_code(code: &Code) -> (r: Result<CodeGraph, Error>)
        ensures
            match r {
                Ok(g) => graph_of(code@) == Ok::<GraphValue, Error>(g@) && g.wf(),
                Err(e) => graph_of(code@) == Err::<GraphValue, Error>(e),
            },
    {
        proof {
            lemma_code_value(*code);
        }
        let len = code.code.len();
        if len >= usize::MAX {
            return Err(Error::DisassemblerError(DecodeError::TruncatedInput));
        }
        let mut callback = NoCallback;
        let map = match const_jmp_instruction_walker(code.code.as_slice(), &code.consts, &mut callback) {
            Ok(m) => m,
            Err(e) => {
                return Err(e);
            },
        };
        let leaders = find_leaders(&map, len);
        let (blocks, block_at) = split_blocks(&map, &leaders, len);
        Ok(link(blocks, &block_at, len))
    }
}

} // verus!

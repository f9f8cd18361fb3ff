//! The recovery of function names from name tags.
//!
//! A name tag is a string constant that is loaded and stored at once under
//! the identifier [`name_tag_sentinel`]. The string is the real name of the
//! function whose code object holds the tag.

use vstd::prelude::*;
use crate::code_graph::{CodeGraph, GraphValue};
use crate::object::{
    bytes_eq, clone_bytes, lemma_code_value, lemma_values_of, Code, CodeValue, Obj, Value,
};
use crate::opcode::Opcode;
use crate::walker::ParsedInstr;

verus! {

/// The names that were recovered: pairs of the key of a code object, which
/// is its file name, an underscore and its name, and the real name of its
/// function. A later pair for a key replaces an earlier one.
pub type FunctionNames = Vec<(Vec<u8>, Vec<u8>)>;

/// The identifier under which a name tag is stored: `__name_tag__`.
pub open spec fn name_tag_sentinel() -> Seq<u8> {
    seq![95u8, 95u8, 110u8, 97u8, 109u8, 101u8, 95u8, 116u8, 97u8, 103u8, 95u8, 95u8]
}

/// The key of a code object: its file name, an underscore and its name.
pub open spec fn function_key(code: CodeValue) -> Seq<u8> {
    code.filename + seq![95u8] + code.name
}

/// The identifier that a store instruction stores under, if the entry is
/// one: the name at the index of a `STORE_NAME`, and the variable name at
/// the index of a `STORE_FAST`.
pub open spec fn stored_identifier(code: CodeValue, entry: ParsedInstr) -> Option<Seq<u8>> {
    match entry {
        ParsedInstr::Good(i) => match i.arg {
            Some(arg) => if i.opcode == Opcode::STORE_NAME && arg < code.names.len() {
                Some(code.names[arg as int])
            } else if i.opcode == Opcode::STORE_FAST && arg < code.varnames.len() {
                Some(code.varnames[arg as int])
            } else {
                None
            },
            None => None,
        },
        ParsedInstr::Bad => None,
    }
}

/// The string constant that an entry loads, if it loads one.
pub open spec fn loaded_string(code: CodeValue, entry: ParsedInstr) -> Option<Seq<u8>> {
    match entry {
        ParsedInstr::Good(i) => match i.arg {
            Some(arg) => if i.opcode == Opcode::LOAD_CONST && arg < code.consts.len() {
                match code.consts[arg as int] {
                    Value::String(s) => Some(s),
                    _ => None,
                }
            } else {
                None
            },
            None => None,
        },
        ParsedInstr::Bad => None,
    }
}

/// The name that the entries at `k` and `k + 1` of a block tag the
/// function with, if they are a name tag.
pub open spec fn tag_at(code: CodeValue, instrs: Seq<ParsedInstr>, k: int) -> Option<Seq<u8>> {
    if 0 <= k && k + 1 < instrs.len() && stored_identifier(code, instrs[k + 1]) == Some(
        name_tag_sentinel(),
    ) {
        loaded_string(code, instrs[k])
    } else {
        None
    }
}

/// The names that the name tags among the first `k` entries of a block
/// tag the function with, in order.
pub open spec fn tags_in(code: CodeValue, instrs: Seq<ParsedInstr>, k: nat) -> Seq<Seq<u8>>
    decreases k,
{
    if k == 0 {
        Seq::empty()
    } else {
        let before = tags_in(code, instrs, (k - 1) as nat);
        match tag_at(code, instrs, k - 1) {
            Some(name) => before.push(name),
            None => before,
        }
    }
}

/// The names that the name tags in the first `n` blocks of a graph tag the
/// function with, block after block. Blocks that are not live are passed
/// over.
pub open spec fn tags_of_blocks(code: CodeValue, graph: GraphValue, n: nat) -> Seq<Seq<u8>>
    decreases n,
{
    if n == 0 {
        Seq::empty()
    } else {
        let before = tags_of_blocks(code, graph, (n - 1) as nat);
        if graph.live[n - 1] {
            before + tags_in(code, graph.blocks[n - 1].instrs, graph.blocks[n - 1].instrs.len())
        } else {
            before
        }
    }
}

/// The pairs that record the names that the name tags in the live blocks
/// of a graph tag the function of `code` with.
pub open spec fn name_tags(code: CodeValue, graph: GraphValue) -> Seq<(Seq<u8>, Seq<u8>)> {
    recorded_names(code, tags_of_blocks(code, graph, graph.blocks.len()))
}

/// The pairs of keys and names that a list of recovered names holds.
pub open spec fn names_value(names: Seq<(Vec<u8>, Vec<u8>)>) -> Seq<(Seq<u8>, Seq<u8>)> {
    Seq::new(names.len(), |i: int| (names[i].0@, names[i].1@))
}

/// The pairs that record the names `found` for the code object `code`.
pub open spec fn recorded_names(code: CodeValue, found: Seq<Seq<u8>>) -> Seq<(Seq<u8>, Seq<u8>)> {
    Seq::new(found.len(), |i: int| (function_key(code), found[i]))
}

/// Returns whether `identifier` is the identifier under which a name tag
/// is stored.
fn is_sentinel(identifier: &Vec<u8>) -> (r: bool)
    ensures
        r == (identifier@ == name_tag_sentinel()),
{
    let mut sentinel: Vec<u8> = Vec::new();
    sentinel.push(95);
    sentinel.push(95);
    sentinel.push(110);
    sentinel.push(97);
    sentinel.push(109);
    sentinel.push(101);
    sentinel.push(95);
    sentinel.push(116);
    sentinel.push(97);
    sentinel.push(103);
    sentinel.push(95);
    sentinel.push(95);
    assert(sentinel@ =~= name_tag_sentinel());
    bytes_eq(identifier, &sentinel)
}

/// Returns the name that the entries at `k` and `k + 1` tag the function
/// with.
fn find_tag(code: &Code, instrs: &Vec<ParsedInstr>, k: usize) -> (r: Option<Vec<u8>>)
    requires
        k < instrs@.len(),
    ensures
        match r {
            Some(name) => tag_at(code@, instrs@, k as int) == Some(name@),
            None => tag_at(code@, instrs@, k as int) is None,
        },
{
    proof {
        lemma_code_value(*code);
        lemma_values_of(code.consts@);
    }
    if k >= instrs.len() - 1 {
        return None;
    }
    let stored = match instrs[k + 1] {
        ParsedInstr::Good(i) => match i.arg {
            Some(arg) => {
                if i.opcode == Opcode::STORE_NAME && (arg as usize) < code.names.len() {
                    is_sentinel(&code.names[arg as usize])
                } else if i.opcode == Opcode::STORE_FAST && (arg as usize) < code.varnames.len() {
                    is_sentinel(&code.varnames[arg as usize])
                } else {
                    false
                }
            },
            None => false,
        },
        ParsedInstr::Bad => false,
    };
    if !stored {
        return None;
    }
    match instrs[k] {
        ParsedInstr::Good(i) => match i.arg {
            Some(arg) => {
                if i.opcode == Opcode::LOAD_CONST && (arg as usize) < code.consts.len() {
                    match &code.consts[arg as usize] {
                        Obj::String(s) => Some(clone_bytes(s)),
                        _ => None,
                    }
                } else {
                    None
                }
            },
            None => None,
        },
        ParsedInstr::Bad => None,
    }
}

/// Returns the key of a code object.
pub fn key_of(code: &Code) -> (r: Vec<u8>)
    ensures
        r@ == function_key(code@),
{
    proof {
        lemma_code_value(*code);
    }
    let mut key = clone_bytes(&code.filename);
    key.push(95);
    let mut i: usize = 0;
    while i < code.name.len()
        invariant
            i <= code.name@.len(),
            key@ == code.filename@ + seq![95u8] + code.name@.subrange(0, i as int),
        decreases code.name@.len() - i,
    {
        key.push(code.name[i]);
        assert(key@ =~= code.filename@ + seq![95u8] + code.name@.subrange(0, i + 1));
        i += 1;
    }
    assert(code.name@.subrange(0, i as int) =~= code.name@);
    key
}

impl CodeGraph {
    /// Records the names that the name tags in the live blocks of the
    /// graph tag the function of `code` with: for each tag, in the order of
    /// the blocks and of their entries, the key of `code` and the name are
    /// appended to `mapped_function_names`.
    pub fn collect_name_tags(&self, code: &Code, mapped_function_names: &mut FunctionNames)
        requires
            self.live@.len() == self.blocks@.len(),
        ensures
            names_value(final(mapped_function_names)@) == names_value(old(mapped_function_names)@)
                + name_tags(code@, self@),
    {
        let n = self.blocks.len();
        let ghost start = names_value(mapped_function_names@);
        let mut b: usize = 0;
        assert(names_value(mapped_function_names@) =~= start + recorded_names(
            code@,
            tags_of_blocks(code@, self@, 0),
        ));
        while b < n
            invariant
                b <= n,
                n == self.blocks@.len(),
                self.live@.len() == n,
                names_value(mapped_function_names@) == start + recorded_names(
                    code@,
                    tags_of_blocks(code@, self@, b as nat),
                ),
            decreases n - b,
        {
            if self.live[b] {
                let instrs = &self.blocks[b].instrs;
                let ghost before = tags_of_blocks(code@, self@, b as nat);
                let mut k: usize = 0;
                assert(before + tags_in(code@, instrs@, 0) =~= before);
                while k < instrs.len()
                    invariant
                        k <= instrs@.len(),
                        names_value(mapped_function_names@) == start + recorded_names(
                            code@,
                            before + tags_in(code@, instrs@, k as nat),
                        ),
                    decreases instrs@.len() - k,
                {
                    let ghost found = before + tags_in(code@, instrs@, k as nat);
                    let ghost listed = names_value(mapped_function_names@);
                    match find_tag(code, instrs, k) {
                        Some(name) => {
                            let key = key_of(code);
                            mapped_function_names.push((key, name));
                            proof {
                                let more = before + tags_in(code@, instrs@, (k + 1) as nat);
                                assert(more =~= found.push(name@));
                                assert(names_value(mapped_function_names@) =~= listed.push(
                                    (function_key(code@), name@),
                                ));
                                assert(start + recorded_names(code@, more) =~= (start
                                    + recorded_names(code@, found)).push(
                                    (function_key(code@), name@),
                                ));
                            }
                        },
                        None => {},
                    }
                    k += 1;
                }
            }
            b += 1;
        }
    }
}

} // verus!

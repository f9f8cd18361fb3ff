//! The rebuilding of a code object after deobfuscation: every code object
//! gets its new bytecode, the name that was recovered for it, and sanitized
//! identifiers.

use vstd::prelude::*;
use crate::name_tags::{function_key, key_of, names_value, FunctionNames};
use crate::names::{
    fix_varnames, lemma_sanitized_all_counts, lemma_sanitized_counts, names_of, sanitize,
    sanitized, sanitized_all,
};
use crate::object::{
    bytes_eq, clone_bytes, clone_names, lemma_value_of_nested, lemma_values_of, value_of,
    values_of, Code, CodeValue, Obj, Value,
};

verus! {

/// The name that was recovered for `key`: that of the last pair with this
/// key.
pub open spec fn mapped_name(names: Seq<(Seq<u8>, Seq<u8>)>, key: Seq<u8>) -> Option<Seq<u8>>
    decreases names.len(),
{
    if names.len() == 0 {
        None
    } else if names.last().0 == key {
        Some(names.last().1)
    } else {
        mapped_name(names.drop_last(), key)
    }
}

/// The name of a rebuilt code object, and the count of replaced names
/// after it: the name that was recovered for the code object, an underscore
/// and its old name; or, if none was recovered, its old name sanitized.
/// There is none if the count of replaced names has reached the greatest
/// value of the counter.
pub open spec fn rebuilt_name(
    code: CodeValue,
    names: Seq<(Seq<u8>, Seq<u8>)>,
    unknowns: nat,
) -> Option<(Seq<u8>, nat)> {
    match mapped_name(names, function_key(code)) {
        Some(found) => Some((found + seq![95u8] + code.name, unknowns)),
        None => if unknowns < u64::MAX {
            Some(sanitized(code.name, unknowns))
        } else {
            None
        },
    }
}

/// The identifiers `list` sanitized, and the count of replaced names after
/// them. There are none if that count could pass the greatest value of the
/// counter.
pub open spec fn rebuilt_identifiers(list: Seq<Seq<u8>>, unknowns: nat) -> Option<
    (Seq<Seq<u8>>, nat),
> {
    if unknowns + list.len() <= u64::MAX {
        Some(sanitized_all(list, unknowns))
    } else {
        None
    }
}

/// The code object `code` rebuilt, the index of the next new bytecode and
/// the count of replaced names after it.
///
/// The code object gets the new bytecode at index `at` of `bytecodes`.
/// Then, in this order, its name is rebuilt, which is also its new file
/// name; the code objects among its constants are rebuilt, which take the
/// new bytecodes that follow; and its names and the names of its variables
/// are sanitized. There is no such code object if the new bytecodes run
/// out, or if the count of replaced names could pass the greatest value of
/// the counter.
pub open spec fn rebuilt(
    code: CodeValue,
    bytecodes: Seq<Seq<u8>>,
    at: nat,
    names: Seq<(Seq<u8>, Seq<u8>)>,
    unknowns: nat,
) -> Option<(CodeValue, nat, nat)>
    decreases code, code.consts.len() + 1,
{
    if at >= bytecodes.len() {
        None
    } else {
        match rebuilt_name(code, names, unknowns) {
            None => None,
            Some((name, named)) => match rebuilt_consts(
                code,
                code.consts.len(),
                bytecodes,
                at + 1,
                names,
                named,
            ) {
                None => None,
                Some((consts, next, counted)) => match rebuilt_identifiers(code.names, counted) {
                    None => None,
                    Some((new_names, counted)) => match rebuilt_identifiers(
                        code.varnames,
                        counted,
                    ) {
                        None => None,
                        Some((new_varnames, counted)) => Some(
                            (
                                CodeValue {
                                    argcount: code.argcount,
                                    nlocals: code.nlocals,
                                    stacksize: code.stacksize,
                                    flags: code.flags,
                                    code: bytecodes[at as int],
                                    consts,
                                    names: new_names,
                                    varnames: new_varnames,
                                    freevars: code.freevars,
                                    cellvars: code.cellvars,
                                    filename: name,
                                    name,
                                    firstlineno: code.firstlineno,
                                    lnotab: code.lnotab,
                                },
                                next,
                                counted,
                            ),
                        ),
                    },
                },
            },
        }
    }
}

/// The first `k` constants of `code` with the code objects among them
/// rebuilt, in order, and the index of the next new bytecode and the count
/// of replaced names after them.
pub open spec fn rebuilt_consts(
    code: CodeValue,
    k: nat,
    bytecodes: Seq<Seq<u8>>,
    at: nat,
    names: Seq<(Seq<u8>, Seq<u8>)>,
    unknowns: nat,
) -> Option<(Seq<Value>, nat, nat)>
    decreases code, k,
{
    if k == 0 || k > code.consts.len() {
        Some((Seq::empty(), at, unknowns))
    } else {
        match rebuilt_consts(code, (k - 1) as nat, bytecodes, at, names, unknowns) {
            None => None,
            Some((before, next, counted)) => match code.consts[k - 1] {
                Value::Code(inner) => match rebuilt(inner, bytecodes, next, names, counted) {
                    None => None,
                    Some((r, next, counted)) => Some((before.push(Value::Code(r)), next, counted)),
                },
                other => Some((before.push(other), next, counted)),
            },
        }
    }
}

/// Once a constant cannot be rebuilt, no longer list of constants can.
pub proof fn lemma_rebuilt_consts_fails(
    code: CodeValue,
    k: nat,
    n: nat,
    bytecodes: Seq<Seq<u8>>,
    at: nat,
    names: Seq<(Seq<u8>, Seq<u8>)>,
    unknowns: nat,
)
    requires
        k <= n <= code.consts.len(),
        rebuilt_consts(code, k, bytecodes, at, names, unknowns) is None,
    ensures
        rebuilt_consts(code, n, bytecodes, at, names, unknowns) is None,
    decreases n - k,
{
    if k < n {
        lemma_rebuilt_consts_fails(code, k, (n - 1) as nat, bytecodes, at, names, unknowns);
    }
}

/// The new bytecodes that a list holds.
pub open spec fn bytecodes_value(list: Seq<Vec<u8>>) -> Seq<Seq<u8>> {
    Seq::new(list.len(), |i: int| list[i]@)
}

/// Returns the name that was recovered for `key`.
fn find_mapped_name(names: &FunctionNames, key: &Vec<u8>) -> (r: Option<usize>)
    ensures
        match r {
            Some(i) => i < names@.len() && mapped_name(names_value(names@), key@) == Some(
                names@[i as int].1@,
            ),
            None => mapped_name(names_value(names@), key@) is None,
        },
{
    let ghost all = names_value(names@);
    let mut i: usize = names.len();
    assert(all.subrange(0, i as int) =~= all);
    while i > 0
        invariant
            i <= names@.len(),
            all == names_value(names@),
            mapped_name(all, key@) == mapped_name(all.subrange(0, i as int), key@),
        decreases i,
    {
        let ghost upto = all.subrange(0, i as int);
        assert(upto.last() == all[i - 1]);
        assert(upto.drop_last() =~= all.subrange(0, i - 1));
        i -= 1;
        if bytes_eq(&names[i].0, key) {
            return Some(i);
        }
    }
    None
}

/// Sanitizes a list of identifiers, if the count of replaced names cannot
/// pass the greatest value of the counter.
fn rebuild_identifiers(list: &Vec<Vec<u8>>, unknowns: &mut u64) -> (r: Option<Vec<Vec<u8>>>)
    ensures
        match r {
            Some(v) => rebuilt_identifiers(names_of(list@), *old(unknowns) as nat) == Some(
                (names_of(v@), *final(unknowns) as nat),
            ),
            None => rebuilt_identifiers(names_of(list@), *old(unknowns) as nat) is None,
        },
{
    if list.len() as u64 > u64::MAX - *unknowns {
        return None;
    }
    Some(fix_varnames(list, unknowns))
}

/// Rebuilds a code object: returns it with the new bytecode at index `at` of
/// `deobfuscated`, the name that was recovered for it among
/// `mapped_function_names` or else its name sanitized, the code objects
/// among its constants rebuilt in the same way, and its identifiers
/// sanitized. `at` counts the new bytecodes that were taken and `unknowns`
/// the names that were replaced.
///
/// The result is that of [`rebuilt`]: `None` if the new bytecodes run out,
/// or if the count of replaced names could pass the greatest value of the
/// counter.
pub fn cleanup_code_obj(
    code: &Code,
    deobfuscated: &Vec<Vec<u8>>,
    at: &mut usize,
    mapped_function_names: &FunctionNames,
    unknowns: &mut u64,
) -> (r: Option<Code>)
    ensures
        match r {
            Some(c) => rebuilt(
                code@,
                bytecodes_value(deobfuscated@),
                *old(at) as nat,
                names_value(mapped_function_names@),
                *old(unknowns) as nat,
            ) == Some((c@, *final(at) as nat, *final(unknowns) as nat)),
            None => rebuilt(
                code@,
                bytecodes_value(deobfuscated@),
                *old(at) as nat,
                names_value(mapped_function_names@),
                *old(unknowns) as nat,
            ) is None,
        },
    decreases code,
{
    let ghost bytecodes = bytecodes_value(deobfuscated@);
    let ghost names = names_value(mapped_function_names@);
    proof {
        lemma_values_of(code.consts@);
    }
    if *at >= deobfuscated.len() {
        return None;
    }
    let new_code = clone_bytes(&deobfuscated[*at]);
    *at = *at + 1;
    let key = key_of(code);
    let name: Vec<u8> = match find_mapped_name(mapped_function_names, &key) {
        Some(i) => {
            let mut name = clone_bytes(&mapped_function_names[i].1);
            name.push(95);
            let ghost front = name@;
            let mut j: usize = 0;
            while j < code.name.len()
                invariant
                    j <= code.name@.len(),
                    name@ == front + code.name@.subrange(0, j as int),
                decreases code.name@.len() - j,
            {
                name.push(code.name[j]);
                assert(name@ =~= front + code.name@.subrange(0, j + 1));
                j += 1;
            }
            assert(code.name@.subrange(0, j as int) =~= code.name@);
            assert(name@ =~= mapped_function_names@[i as int].1@ + seq![95u8] + code.name@);
            name
        },
        None => {
            if *unknowns == u64::MAX {
                return None;
            }
            sanitize(&code.name, unknowns)
        },
    };
    assert(rebuilt_name(code@, names, *old(unknowns) as nat) == Some((name@, *unknowns as nat)));
    let ghost named = *unknowns as nat;
    let mut consts: Vec<Obj> = Vec::new();
    let mut k: usize = 0;
    assert(values_of(consts@) =~= Seq::empty());
    while k < code.consts.len()
        invariant
            k <= code.consts@.len(),
            code@.consts == values_of(code.consts@),
            values_of(code.consts@).len() == code.consts@.len(),
            bytecodes == bytecodes_value(deobfuscated@),
            names == names_value(mapped_function_names@),
            *old(at) < bytecodes.len(),
            rebuilt_name(code@, names, *old(unknowns) as nat) == Some((name@, named)),
            rebuilt_consts(code@, k as nat, bytecodes, (*old(at) + 1) as nat, names, named) == Some(
                (values_of(consts@), *at as nat, *unknowns as nat),
            ),
        decreases code.consts@.len() - k,
    {
        let ghost before = values_of(consts@);
        proof {
            lemma_values_of(code.consts@);
            lemma_values_of(consts@);
            lemma_value_of_nested(code.consts@[k as int]);
        }
        let rebuilt_const = match &code.consts[k] {
            Obj::Code(inner) => {
                match cleanup_code_obj(inner, deobfuscated, at, mapped_function_names, unknowns) {
                    Some(c) => Obj::Code(Box::new(c)),
                    None => {
                        proof {
                            lemma_rebuilt_consts_fails(
                                code@,
                                (k + 1) as nat,
                                code@.consts.len(),
                                bytecodes,
                                (*old(at) + 1) as nat,
                                names,
                                named,
                            );
                        }
                        return None;
                    },
                }
            },
            other => other.clone(),
        };
        consts.push(rebuilt_const);
        proof {
            lemma_values_of(consts@);
            lemma_value_of_nested(rebuilt_const);
            assert(values_of(consts@) =~= before.push(value_of(rebuilt_const)));
        }
        k += 1;
    }
    let new_names = match rebuild_identifiers(&code.names, unknowns) {
        Some(v) => v,
        None => {
            return None;
        },
    };
    let new_varnames = match rebuild_identifiers(&code.varnames, unknowns) {
        Some(v) => v,
        None => {
            return None;
        },
    };
    let filename = clone_bytes(&name);
    let rebuilt_code = Code {
        argcount: code.argcount,
        nlocals: code.nlocals,
        stacksize: code.stacksize,
        flags: code.flags,
        code: new_code,
        consts,
        names: new_names,
        varnames: new_varnames,
        freevars: clone_names(&code.freevars),
        cellvars: clone_names(&code.cellvars),
        filename,
        name,
        firstlineno: code.firstlineno,
        lnotab: clone_bytes(&code.lnotab),
    };
    proof {
        let expected = rebuilt(code@, bytecodes, *old(at) as nat, names, *old(unknowns) as nat);
        assert(code@.names =~= names_of(code.names@));
        assert(code@.varnames =~= names_of(code.varnames@));
        assert(rebuilt_code@.names =~= names_of(new_names@));
        assert(rebuilt_code@.varnames =~= names_of(new_varnames@));
        assert(rebuilt_code@.freevars =~= code@.freevars);
        assert(rebuilt_code@.cellvars =~= code@.cellvars);
        assert(expected is Some);
        assert(rebuilt_code@ == expected->Some_0.0);
    }
    Some(rebuilt_code)
}

/// Rebuilds a code object and the code objects among its constants, from
/// the first new bytecode on. `unknowns` counts the names that were
/// replaced: the caller keeps it, so that no name is given twice over all
/// the code objects that it rebuilds.
pub fn rebuild_code(
    code: &Code,
    deobfuscated: &Vec<Vec<u8>>,
    mapped_function_names: &FunctionNames,
    unknowns: &mut u64,
) -> (r: Option<Code>)
    ensures
        match r {
            Some(c) => rebuilt(
                code@,
                bytecodes_value(deobfuscated@),
                0,
                names_value(mapped_function_names@),
                *old(unknowns) as nat,
            ) matches Some(built) && built.0 == c@ && built.2 == *final(unknowns)
                && *old(unknowns) <= *final(unknowns),
            None => rebuilt(
                code@,
                bytecodes_value(deobfuscated@),
                0,
                names_value(mapped_function_names@),
                *old(unknowns) as nat,
            ) is None,
        },
{
    proof {
        lemma_rebuilt_counts(
            code@,
            bytecodes_value(deobfuscated@),
            0,
            names_value(mapped_function_names@),
            *old(unknowns) as nat,
        );
    }
    let mut at: usize = 0;
    cleanup_code_obj(code, deobfuscated, &mut at, mapped_function_names, unknowns)
}

/// The count of replaced names does not go down when a code object is
/// rebuilt, and new bytecodes are taken.
pub proof fn lemma_rebuilt_counts(
    code: CodeValue,
    bytecodes: Seq<Seq<u8>>,
    at: nat,
    names: Seq<(Seq<u8>, Seq<u8>)>,
    unknowns: nat,
)
    ensures
        rebuilt(code, bytecodes, at, names, unknowns) matches Some(built) ==> at < built.1
            && unknowns <= built.2,
    decreases code, code.consts.len() + 1,
{
    if at < bytecodes.len() {
        if let Some((name, named)) = rebuilt_name(code, names, unknowns) {
            lemma_sanitized_counts(code.name, unknowns);
            lemma_rebuilt_consts_counts(code, code.consts.len(), bytecodes, at + 1, names, named);
            if let Some((consts, next, counted)) = rebuilt_consts(
                code,
                code.consts.len(),
                bytecodes,
                at + 1,
                names,
                named,
            ) {
                lemma_sanitized_all_counts(code.names, counted);
                if let Some((new_names, after_names)) = rebuilt_identifiers(code.names, counted) {
                    lemma_sanitized_all_counts(code.varnames, after_names);
                }
            }
        }
    }
}

/// The count of replaced names does not go down when constants are
/// rebuilt, nor does the index of the next new bytecode.
pub proof fn lemma_rebuilt_consts_counts(
    code: CodeValue,
    k: nat,
    bytecodes: Seq<Seq<u8>>,
    at: nat,
    names: Seq<(Seq<u8>, Seq<u8>)>,
    unknowns: nat,
)
    ensures
        rebuilt_consts(code, k, bytecodes, at, names, unknowns) matches Some(built) ==> at
            <= built.1 && unknowns <= built.2,
    decreases code, k,
{
    if !(k == 0 || k > code.consts.len()) {
        lemma_rebuilt_consts_counts(code, (k - 1) as nat, bytecodes, at, names, unknowns);
        if let Some((before, next, counted)) = rebuilt_consts(
            code,
            (k - 1) as nat,
            bytecodes,
            at,
            names,
            unknowns,
        ) {
            if let Value::Code(inner) = code.consts[k - 1] {
                lemma_rebuilt_counts(inner, bytecodes, next, names, counted);
            }
        }
    }
}

} // verus!

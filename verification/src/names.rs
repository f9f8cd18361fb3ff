//! The sanitization of identifiers.
//!
//! An identifier that is empty, that holds a character that no identifier
//! can hold, or that is a keyword is replaced by a name of the form
//! `unknown_<n>`, where `n` counts the names that have been replaced.

use vstd::prelude::*;

verus! {

/// Whether a byte is white space.
pub open spec fn is_space(b: u8) -> bool {
    b == 32 || 9 <= b <= 13
}

/// A byte string without the white space at its front.
pub open spec fn strip_front(s: Seq<u8>) -> Seq<u8>
    decreases s.len(),
{
    if s.len() > 0 && is_space(s[0]) {
        strip_front(s.skip(1))
    } else {
        s
    }
}

/// A byte string without the white space at its back.
pub open spec fn strip_back(s: Seq<u8>) -> Seq<u8>
    decreases s.len(),
{
    if s.len() > 0 && is_space(s.last()) {
        strip_back(s.drop_last())
    } else {
        s
    }
}

/// A byte string without the white space at its front and at its back.
pub open spec fn stripped(s: Seq<u8>) -> Seq<u8> {
    strip_back(strip_front(s))
}

/// Whether a byte is one of the characters `=!@#$%^&*()"'/,.` or a space,
/// which no identifier can hold.
pub open spec fn is_forbidden_char(b: u8) -> bool {
    b == 32 || b == 33 || b == 34 || b == 35 || b == 36 || b == 37 || b == 38 || b == 39 || b == 40 || b == 41 || b == 42 || b == 44 || b == 46 || b == 47 || b == 61 || b == 64 || b == 94
}

/// Whether a byte string holds a character that no identifier can hold.
pub open spec fn has_forbidden_char(s: Seq<u8>) -> bool {
    exists|i: int| 0 <= i < s.len() && is_forbidden_char(#[trigger] s[i])
}

/// The keywords that cannot be identifiers.
pub open spec fn keywords() -> Seq<Seq<u8>> {
    seq![
        // assert
        seq![97u8, 115u8, 115u8, 101u8, 114u8, 116u8],
        // in
        seq![105u8, 110u8],
        // continue
        seq![99u8, 111u8, 110u8, 116u8, 105u8, 110u8, 117u8, 101u8],
        // break
        seq![98u8, 114u8, 101u8, 97u8, 107u8],
        // for
        seq![102u8, 111u8, 114u8],
        // def
        seq![100u8, 101u8, 102u8],
        // as
        seq![97u8, 115u8],
        // elif
        seq![101u8, 108u8, 105u8, 102u8],
        // else
        seq![101u8, 108u8, 115u8, 101u8],
        // from
        seq![102u8, 114u8, 111u8, 109u8],
        // global
        seq![103u8, 108u8, 111u8, 98u8, 97u8, 108u8],
        // if
        seq![105u8, 102u8],
        // import
        seq![105u8, 109u8, 112u8, 111u8, 114u8, 116u8],
        // is
        seq![105u8, 115u8],
        // lambda
        seq![108u8, 97u8, 109u8, 98u8, 100u8, 97u8],
        // not
        seq![110u8, 111u8, 116u8],
        // or
        seq![111u8, 114u8],
        // pass
        seq![112u8, 97u8, 115u8, 115u8],
        // print
        seq![112u8, 114u8, 105u8, 110u8, 116u8],
        // return
        seq![114u8, 101u8, 116u8, 117u8, 114u8, 110u8],
        // while
        seq![119u8, 104u8, 105u8, 108u8, 101u8],
        // with
        seq![119u8, 105u8, 116u8, 104u8],
    ]
}

/// Whether a byte string is a keyword.
pub open spec fn is_keyword(s: Seq<u8>) -> bool {
    exists|i: int| 0 <= i < keywords().len() && #[trigger] keywords()[i] == s
}

/// Whether an identifier has to be replaced: it is empty, holds a
/// character that no identifier can hold, or is a keyword.
pub open spec fn is_banned(s: Seq<u8>) -> bool {
    s.len() == 0 || has_forbidden_char(s) || is_keyword(s)
}

/// The decimal digits of a number.
pub open spec fn decimal(n: nat) -> Seq<u8>
    decreases n,
{
    if n < 10 {
        seq![(48 + n) as u8]
    } else {
        decimal(n / 10).push((48 + n % 10) as u8)
    }
}

/// The prefix of the names that replace identifiers: `unknown_`.
pub open spec fn unknown_prefix() -> Seq<u8> {
    seq![117u8, 110u8, 107u8, 110u8, 111u8, 119u8, 110u8, 95u8]
}

/// The name that replaces the `n`-th identifier that is replaced.
pub open spec fn unknown_name(n: nat) -> Seq<u8> {
    unknown_prefix() + decimal(n)
}

/// The sanitized form of an identifier, and the count of replaced names
/// after it: the identifier without surrounding white space, or, if that has
/// to be replaced, the name for the count `unknowns`.
pub open spec fn sanitized(name: Seq<u8>, unknowns: nat) -> (Seq<u8>, nat) {
    let s = stripped(name);
    if is_banned(s) {
        (unknown_name(unknowns), unknowns + 1)
    } else {
        (s, unknowns)
    }
}

/// The sanitized forms of a sequence of identifiers, in order, and the
/// count of replaced names after them.
pub open spec fn sanitized_all(names: Seq<Seq<u8>>, unknowns: nat) -> (Seq<Seq<u8>>, nat)
    decreases names.len(),
{
    if names.len() == 0 {
        (Seq::empty(), unknowns)
    } else {
        let (before, count) = sanitized_all(names.drop_last(), unknowns);
        let (last, count) = sanitized(names.last(), count);
        (before.push(last), count)
    }
}

/// Returns the keyword at index `i`.
fn keyword(i: usize) -> (r: Vec<u8>)
    requires
        i < keywords().len(),
    ensures
        r@ == keywords()[i as int],
{
    let mut word: Vec<u8> = Vec::new();
    if i == 0 {
        word.push(97);
        word.push(115);
        word.push(115);
        word.push(101);
        word.push(114);
        word.push(116);
        assert(word@ =~= seq![97u8, 115u8, 115u8, 101u8, 114u8, 116u8]);
    } else if i == 1 {
        word.push(105);
        word.push(110);
        assert(word@ =~= seq![105u8, 110u8]);
    } else if i == 2 {
        word.push(99);
        word.push(111);
        word.push(110);
        word.push(116);
        word.push(105);
        word.push(110);
        word.push(117);
        word.push(101);
        assert(word@ =~= seq![99u8, 111u8, 110u8, 116u8, 105u8, 110u8, 117u8, 101u8]);
    } else if i == 3 {
        word.push(98);
        word.push(114);
        word.push(101);
        word.push(97);
        word.push(107);
        assert(word@ =~= seq![98u8, 114u8, 101u8, 97u8, 107u8]);
    } else if i == 4 {
        word.push(102);
        word.push(111);
        word.push(114);
        assert(word@ =~= seq![102u8, 111u8, 114u8]);
    } else if i == 5 {
        word.push(100);
        word.push(101);
        word.push(102);
        assert(word@ =~= seq![100u8, 101u8, 102u8]);
    } else if i == 6 {
        word.push(97);
        word.push(115);
        assert(word@ =~= seq![97u8, 115u8]);
    } else if i == 7 {
        word.push(101);
        word.push(108);
        word.push(105);
        word.push(102);
        assert(word@ =~= seq![101u8, 108u8, 105u8, 102u8]);
    } else if i == 8 {
        word.push(101);
        word.push(108);
        word.push(115);
        word.push(101);
        assert(word@ =~= seq![101u8, 108u8, 115u8, 101u8]);
    } else if i == 9 {
        word.push(102);
        word.push(114);
        word.push(111);
        word.push(109);
        assert(word@ =~= seq![102u8, 114u8, 111u8, 109u8]);
    } else if i == 10 {
        word.push(103);
        word.push(108);
        word.push(111);
        word.push(98);
        word.push(97);
        word.push(108);
        assert(word@ =~= seq![103u8, 108u8, 111u8, 98u8, 97u8, 108u8]);
    } else if i == 11 {
        word.push(105);
        word.push(102);
        assert(word@ =~= seq![105u8, 102u8]);
    } else if i == 12 {
        word.push(105);
        word.push(109);
        word.push(112);
        word.push(111);
        word.push(114);
        word.push(116);
        assert(word@ =~= seq![105u8, 109u8, 112u8, 111u8, 114u8, 116u8]);
    } else if i == 13 {
        word.push(105);
        word.push(115);
        assert(word@ =~= seq![105u8, 115u8]);
    } else if i == 14 {
        word.push(108);
        word.push(97);
        word.push(109);
        word.push(98);
        word.push(100);
        word.push(97);
        assert(word@ =~= seq![108u8, 97u8, 109u8, 98u8, 100u8, 97u8]);
    } else if i == 15 {
        word.push(110);
        word.push(111);
        word.push(116);
        assert(word@ =~= seq![110u8, 111u8, 116u8]);
    } else if i == 16 {
        word.push(111);
        word.push(114);
        assert(word@ =~= seq![111u8, 114u8]);
    } else if i == 17 {
        word.push(112);
        word.push(97);
        word.push(115);
        word.push(115);
        assert(word@ =~= seq![112u8, 97u8, 115u8, 115u8]);
    } else if i == 18 {
        word.push(112);
        word.push(114);
        word.push(105);
        word.push(110);
        word.push(116);
        assert(word@ =~= seq![112u8, 114u8, 105u8, 110u8, 116u8]);
    } else if i == 19 {
        word.push(114);
        word.push(101);
        word.push(116);
        word.push(117);
        word.push(114);
        word.push(110);
        assert(word@ =~= seq![114u8, 101u8, 116u8, 117u8, 114u8, 110u8]);
    } else if i == 20 {
        word.push(119);
        word.push(104);
        word.push(105);
        word.push(108);
        word.push(101);
        assert(word@ =~= seq![119u8, 104u8, 105u8, 108u8, 101u8]);
    } else if i == 21 {
        word.push(119);
        word.push(105);
        word.push(116);
        word.push(104);
        assert(word@ =~= seq![119u8, 105u8, 116u8, 104u8]);
    }
    word
}

/// The number of keywords.
pub const KEYWORD_COUNT: usize = 22;

/// White space at the front of a byte string is what `strip_front` takes
/// away.
pub proof fn lemma_strip_front(s: Seq<u8>, i: int)
    requires
        0 <= i <= s.len(),
        forall|k: int| 0 <= k < i ==> is_space(#[trigger] s[k]),
        i < s.len() ==> !is_space(s[i]),
    ensures
        strip_front(s) == s.subrange(i, s.len() as int),
    decreases i,
{
    if i == 0 {
        assert(s.subrange(0, s.len() as int) =~= s);
    } else {
        let rest = s.skip(1);
        assert forall|k: int| 0 <= k < i - 1 implies is_space(#[trigger] rest[k]) by {
            assert(rest[k] == s[k + 1]);
        }
        lemma_strip_front(rest, i - 1);
        assert(rest.subrange(i - 1, rest.len() as int) =~= s.subrange(i, s.len() as int));
    }
}

/// White space at the back of a byte string is what `strip_back` takes
/// away.
pub proof fn lemma_strip_back(s: Seq<u8>, j: int)
    requires
        0 <= j <= s.len(),
        forall|k: int| j <= k < s.len() ==> is_space(#[trigger] s[k]),
        j > 0 ==> !is_space(s[j - 1]),
    ensures
        strip_back(s) == s.subrange(0, j),
    decreases s.len() - j,
{
    if j == s.len() {
        assert(s.subrange(0, j) =~= s);
    } else {
        let rest = s.drop_last();
        assert forall|k: int| j <= k < rest.len() implies is_space(#[trigger] rest[k]) by {
            assert(rest[k] == s[k]);
        }
        lemma_strip_back(rest, j);
        assert(rest.subrange(0, j) =~= s.subrange(0, j));
    }
}

/// A stripped byte string neither starts nor ends with white space.
pub proof fn lemma_stripped_ends(s: Seq<u8>)
    ensures
        stripped(s).len() > 0 ==> !is_space(stripped(s)[0]) && !is_space(stripped(s).last()),
{
    lemma_strip_front_ends(s);
    lemma_strip_back_ends(strip_front(s));
}

/// What `strip_front` leaves does not start with white space.
pub proof fn lemma_strip_front_ends(s: Seq<u8>)
    ensures
        strip_front(s).len() > 0 ==> !is_space(strip_front(s)[0]),
    decreases s.len(),
{
    if s.len() > 0 && is_space(s[0]) {
        lemma_strip_front_ends(s.skip(1));
    }
}

/// What `strip_back` leaves does not end with white space, and starts as
/// the byte string did.
pub proof fn lemma_strip_back_ends(s: Seq<u8>)
    ensures
        strip_back(s).len() > 0 ==> !is_space(strip_back(s).last()) && strip_back(s)[0] == s[0],
        strip_back(s).len() <= s.len(),
    decreases s.len(),
{
    if s.len() > 0 && is_space(s.last()) {
        lemma_strip_back_ends(s.drop_last());
    }
}

/// A byte string that neither starts nor ends with white space is its own
/// stripped form.
pub proof fn lemma_stripped_fixed(s: Seq<u8>)
    requires
        s.len() > 0 ==> !is_space(s[0]) && !is_space(s.last()),
    ensures
        stripped(s) == s,
{
}

/// The decimal digits of a number are digits, and there is at least one.
pub proof fn lemma_decimal_digits(n: nat)
    ensures
        decimal(n).len() > 0,
        forall|i: int| 0 <= i < decimal(n).len() ==> 48 <= #[trigger] decimal(n)[i] <= 57,
    decreases n,
{
    if n >= 10 {
        lemma_decimal_digits(n / 10);
    }
}

/// A name that replaces an identifier does not have to be replaced itself,
/// and is its own stripped form.
pub proof fn lemma_unknown_name_is_clean(n: nat)
    ensures
        !is_banned(unknown_name(n)),
        stripped(unknown_name(n)) == unknown_name(n),
{
    let name = unknown_name(n);
    lemma_decimal_digits(n);
    assert(name.len() == 8 + decimal(n).len());
    assert forall|i: int| 0 <= i < name.len() implies !is_forbidden_char(#[trigger] name[i]) by {
        if i >= 8 {
            assert(name[i] == decimal(n)[i - 8]);
        } else {
            assert(name[i] == unknown_prefix()[i]);
        }
    }
    assert forall|i: int| 0 <= i < keywords().len() implies #[trigger] keywords()[i] != name by {
        assert(keywords()[i].len() <= 8);
    }
    assert(name[0] == unknown_prefix()[0]);
    assert(name.last() == decimal(n).last());
    lemma_stripped_fixed(name);
}

/// Sanitization is idempotent: the sanitized form of an identifier is
/// left as it is when it is sanitized again, whatever the count of
/// replaced names is by then, and no further name is counted. An
/// identifier that is empty after stripping, holds a forbidden character or
/// is a keyword is replaced by the name for the current count.
pub proof fn lemma_sanitized_is_stable(name: Seq<u8>, unknowns: nat, later: nat)
    ensures
        sanitized(sanitized(name, unknowns).0, later) == (sanitized(name, unknowns).0, later),
        is_banned(stripped(name)) ==> sanitized(name, unknowns).0 == unknown_name(unknowns),
        !is_banned(sanitized(name, unknowns).0),
{
    let s = stripped(name);
    if is_banned(s) {
        lemma_unknown_name_is_clean(unknowns);
    } else {
        lemma_stripped_ends(name);
        lemma_stripped_fixed(s);
    }
}

/// Sanitizing an identifier counts at most one name more, and never
/// fewer: the count goes up by one exactly when the identifier is replaced,
/// and the name that replaces it is the one for the count before.
pub proof fn lemma_sanitized_counts(name: Seq<u8>, unknowns: nat)
    ensures
        unknowns <= sanitized(name, unknowns).1 <= unknowns + 1,
        sanitized(name, unknowns).1 == unknowns + 1 <==> is_banned(stripped(name)),
        sanitized(name, unknowns).1 == unknowns + 1 ==> sanitized(name, unknowns).0
            == unknown_name(unknowns),
{
}

/// Sanitizing a list of identifiers counts at most one name more for each
/// of them, and never fewer.
pub proof fn lemma_sanitized_all_counts(names: Seq<Seq<u8>>, unknowns: nat)
    ensures
        unknowns <= sanitized_all(names, unknowns).1 <= unknowns + names.len(),
        sanitized_all(names, unknowns).0.len() == names.len(),
    decreases names.len(),
{
    if names.len() > 0 {
        lemma_sanitized_all_counts(names.drop_last(), unknowns);
    }
}

/// Different numbers have different decimal digits.
pub proof fn lemma_decimal_differs(n: nat, m: nat)
    requires
        decimal(n) == decimal(m),
    ensures
        n == m,
    decreases n,
{
    lemma_decimal_digits(n);
    lemma_decimal_digits(m);
    if n < 10 && m < 10 {
        assert(decimal(n)[0] == (48 + n) as u8);
        assert(decimal(m)[0] == (48 + m) as u8);
    } else if n < 10 {
        lemma_decimal_digits(m / 10);
        assert(decimal(m).len() >= 2);
    } else if m < 10 {
        lemma_decimal_digits(n / 10);
        assert(decimal(n).len() >= 2);
    } else {
        assert(decimal(n).drop_last() =~= decimal(n / 10));
        assert(decimal(m).drop_last() =~= decimal(m / 10));
        lemma_decimal_differs(n / 10, m / 10);
        assert(decimal(n).last() == (48 + n % 10) as u8);
        assert(decimal(m).last() == (48 + m % 10) as u8);
        assert(n % 10 == m % 10);
        assert(n == 10 * (n / 10) + n % 10) by (nonlinear_arith);
        assert(m == 10 * (m / 10) + m % 10) by (nonlinear_arith);
    }
}

/// The names that replace identifiers under different counts differ: as
/// long as the count is kept, no name is given twice.
pub proof fn lemma_unknown_names_differ(n: nat, m: nat)
    requires
        n != m,
    ensures
        unknown_name(n) != unknown_name(m),
{
    if unknown_name(n) == unknown_name(m) {
        assert(unknown_name(n).skip(8) =~= decimal(n));
        assert(unknown_name(m).skip(8) =~= decimal(m));
        lemma_decimal_differs(n, m);
    }
}

/// Returns a byte string without the white space at its front and at its
/// back.
pub fn strip(name: &Vec<u8>) -> (r: Vec<u8>)
    ensures
        r@ == stripped(name@),
{
    let len = name.len();
    let mut i: usize = 0;
    while i < len && (name[i] == 32 || (9 <= name[i] && name[i] <= 13))
        invariant
            i <= len,
            len == name@.len(),
            forall|k: int| 0 <= k < i ==> is_space(#[trigger] name@[k]),
        decreases len - i,
    {
        i += 1;
    }
    let mut j: usize = len;
    while j > i && (name[j - 1] == 32 || (9 <= name[j - 1] && name[j - 1] <= 13))
        invariant
            i <= j <= len,
            len == name@.len(),
            forall|k: int| j <= k < len ==> is_space(#[trigger] name@[k]),
        decreases j,
    {
        j -= 1;
    }
    let mut out: Vec<u8> = Vec::new();
    let mut k: usize = i;
    while k < j
        invariant
            i <= k <= j <= len,
            len == name@.len(),
            out@ == name@.subrange(i as int, k as int),
        decreases j - k,
    {
        out.push(name[k]);
        assert(out@ =~= name@.subrange(i as int, k + 1));
        k += 1;
    }
    proof {
        lemma_strip_front(name@, i as int);
        let front = name@.subrange(i as int, len as int);
        assert forall|x: int| j - i <= x < front.len() implies is_space(#[trigger] front[x]) by {
            assert(front[x] == name@[x + i]);
        }
        if j > i {
            assert(front[j - i - 1] == name@[j - 1]);
        }
        lemma_strip_back(front, j - i);
        assert(front.subrange(0, j - i) =~= name@.subrange(i as int, j as int));
    }
    out
}

/// Returns whether a byte string holds a character that no identifier can
/// hold.
pub fn contains_forbidden_char(name: &Vec<u8>) -> (r: bool)
    ensures
        r == has_forbidden_char(name@),
{
    let mut i: usize = 0;
    while i < name.len()
        invariant
            i <= name@.len(),
            forall|k: int| 0 <= k < i ==> !is_forbidden_char(#[trigger] name@[k]),
        decreases name@.len() - i,
    {
        let b = name[i];
        if b == 32 || b == 33 || b == 34 || b == 35 || b == 36 || b == 37 || b == 38 || b == 39
            || b == 40 || b == 41 || b == 42 || b == 44 || b == 46 || b == 47 || b == 61 || b == 64
            || b == 94 {
            return true;
        }
        i += 1;
    }
    false
}

/// Returns whether a byte string is a keyword.
pub fn is_keyword_name(name: &Vec<u8>) -> (r: bool)
    ensures
        r == is_keyword(name@),
{
    let mut i: usize = 0;
    while i < KEYWORD_COUNT
        invariant
            i <= KEYWORD_COUNT,
            KEYWORD_COUNT == keywords().len(),
            forall|k: int| 0 <= k < i ==> #[trigger] keywords()[k] != name@,
        decreases KEYWORD_COUNT - i,
    {
        let word = keyword(i);
        if crate::object::bytes_eq(&word, name) {
            return true;
        }
        i += 1;
    }
    false
}

/// Returns the decimal digits of a number.
pub fn decimal_digits(n: u64) -> (r: Vec<u8>)
    ensures
        r@ == decimal(n as nat),
    decreases n,
{
    if n < 10 {
        let mut out: Vec<u8> = Vec::new();
        out.push((48 + n) as u8);
        assert(out@ =~= seq![(48 + n) as u8]);
        out
    } else {
        let mut out = decimal_digits(n / 10);
        out.push((48 + n % 10) as u8);
        out
    }
}

/// Returns the name that replaces the `n`-th identifier that is replaced.
pub fn make_unknown_name(n: u64) -> (r: Vec<u8>)
    ensures
        r@ == unknown_name(n as nat),
{
    let mut out: Vec<u8> = Vec::new();
    out.push(117);
    out.push(110);
    out.push(107);
    out.push(110);
    out.push(111);
    out.push(119);
    out.push(110);
    out.push(95);
    assert(out@ =~= unknown_prefix());
    let digits = decimal_digits(n);
    let mut i: usize = 0;
    while i < digits.len()
        invariant
            i <= digits@.len(),
            out@ == unknown_prefix() + digits@.subrange(0, i as int),
        decreases digits@.len() - i,
    {
        out.push(digits[i]);
        assert(out@ =~= unknown_prefix() + digits@.subrange(0, i + 1));
        i += 1;
    }
    assert(digits@.subrange(0, i as int) =~= digits@);
    out
}

/// Sanitizes an identifier: returns it without surrounding white space,
/// or, if that has to be replaced, the name for the count `unknowns`, which
/// is then counted up.
pub fn sanitize(name: &Vec<u8>, unknowns: &mut u64) -> (r: Vec<u8>)
    requires
        *old(unknowns) < u64::MAX,
    ensures
        (r@, *final(unknowns) as nat) == sanitized(name@, *old(unknowns) as nat),
{
    let s = strip(name);
    if s.len() == 0 || contains_forbidden_char(&s) || is_keyword_name(&s) {
        let replaced = make_unknown_name(*unknowns);
        *unknowns = *unknowns + 1;
        replaced
    } else {
        s
    }
}

/// The byte strings that a list of names holds.
pub open spec fn names_of(names: Seq<Vec<u8>>) -> Seq<Seq<u8>> {
    Seq::new(names.len(), |i: int| names[i]@)
}

/// Sanitizes a list of identifiers, in order.
pub fn fix_varnames(varnames: &Vec<Vec<u8>>, unknowns: &mut u64) -> (r: Vec<Vec<u8>>)
    requires
        *old(unknowns) + varnames@.len() <= u64::MAX,
    ensures
        (names_of(r@), *final(unknowns) as nat) == sanitized_all(
            names_of(varnames@),
            *old(unknowns) as nat,
        ),
{
    let ghost all = names_of(varnames@);
    let mut out: Vec<Vec<u8>> = Vec::new();
    let mut i: usize = 0;
    assert(all.subrange(0, 0) =~= Seq::empty());
    assert(names_of(out@) =~= Seq::empty());
    while i < varnames.len()
        invariant
            i <= varnames@.len(),
            all == names_of(varnames@),
            *old(unknowns) + varnames@.len() <= u64::MAX,
            *old(unknowns) <= *unknowns <= *old(unknowns) + i,
            (names_of(out@), *unknowns as nat) == sanitized_all(
                all.subrange(0, i as int),
                *old(unknowns) as nat,
            ),
        decreases varnames@.len() - i,
    {
        let ghost before = names_of(out@);
        let name = sanitize(&varnames[i], unknowns);
        out.push(name);
        proof {
            let more = all.subrange(0, i + 1);
            assert(more.drop_last() =~= all.subrange(0, i as int));
            assert(more.last() == varnames@[i as int]@);
            assert(names_of(out@) =~= before.push(name@));
        }
        i += 1;
    }
    assert(all.subrange(0, i as int) =~= all);
    out
}

} // verus!

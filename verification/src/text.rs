//! Character-sequence utilities shared by the parser, the index and the
//! search engine: ASCII lowercasing, substring search, trimming and
//! case-insensitive lexicographic comparison.
use vstd::prelude::*;

verus! {

/// ASCII lowercase of a single character; other characters are unchanged.
pub open spec fn lower_char(c: char) -> char {
    if 'A' <= c && c <= 'Z' {
        (((c as u8) + 32) as char)
    } else {
        c
    }
}

/// ASCII lowercase of a whole sequence.
pub open spec fn lower(s: Seq<char>) -> Seq<char> {
    s.map_values(|c: char| lower_char(c))
}

pub fn lower_char_exec(c: char) -> (r: char)
    ensures
        r == lower_char(c),
{
    if 'A' <= c && c <= 'Z' {
        ((c as u8) + 32) as char
    } else {
        c
    }
}

pub fn lower_vec(v: &Vec<char>) -> (r: Vec<char>)
    ensures
        r@ == lower(v@),
{
    let mut r: Vec<char> = Vec::new();
    let mut i: usize = 0;
    while i < v.len()
        invariant
            i <= v.len(),
            r@ == lower(v@.take(i as int)),
        decreases v.len() - i,
    {
        r.push(lower_char_exec(v[i]));
        i = i + 1;
        assert(v@.take(i as int).map_values(|c: char| lower_char(c))
            =~= v@.take(i - 1).map_values(|c: char| lower_char(c)).push(lower_char(v@[i - 1])));
    }
    assert(v@.take(v@.len() as int) =~= v@);
    r
}

/// Convert a string slice to a vector of its characters.
pub fn to_chars(s: &str) -> (r: Vec<char>)
    ensures
        r@ == s@,
{
    let n = s.unicode_len();
    let mut r: Vec<char> = Vec::new();
    let mut i: usize = 0;
    while i < n
        invariant
            i <= n,
            n == s@.len(),
            r@ == s@.take(i as int),
        decreases n - i,
    {
        r.push(s.get_char(i));
        i = i + 1;
        assert(s@.take(i as int) =~= s@.take(i - 1).push(s@[i - 1]));
    }
    assert(s@.take(n as int) =~= s@);
    r
}

/// The pattern `pat` occurs in `s` starting at position `i`.
pub open spec fn occurs_at(s: Seq<char>, pat: Seq<char>, i: int) -> bool {
    0 <= i && i + pat.len() <= s.len() && s.subrange(i, i + pat.len() as int) == pat
}

/// `s` contains `pat` as a contiguous subsequence.
pub open spec fn contains_seq(s: Seq<char>, pat: Seq<char>) -> bool {
    exists|i: int| occurs_at(s, pat, i)
}

/// Position of the first occurrence of `pat` in `s` at or after `from`,
/// or -1 when there is none.
pub open spec fn find_from(s: Seq<char>, pat: Seq<char>, from: int) -> int
    recommends
        0 <= from,
    decreases s.len() + 1 - from,
    when 0 <= from
{
    if from + pat.len() > s.len() {
        -1
    } else if occurs_at(s, pat, from) {
        from
    } else {
        find_from(s, pat, from + 1)
    }
}

/// Position of the first occurrence of `pat` in `s`, or -1.
pub open spec fn find_first(s: Seq<char>, pat: Seq<char>) -> int {
    find_from(s, pat, 0)
}

pub proof fn lemma_find_from(s: Seq<char>, pat: Seq<char>, from: int)
    requires
        0 <= from,
    ensures
        find_from(s, pat, from) >= 0 ==> occurs_at(s, pat, find_from(s, pat, from))
            && from <= find_from(s, pat, from)
            && (forall|j: int| from <= j < find_from(s, pat, from) ==> !occurs_at(s, pat, j)),
        find_from(s, pat, from) == -1 ==> forall|j: int| j >= from ==> !occurs_at(s, pat, j),
        find_from(s, pat, from) == -1 || find_from(s, pat, from) >= from,
    decreases s.len() + 1 - from,
{
    if from + pat.len() > s.len() {
        assert forall|j: int| j >= from implies !occurs_at(s, pat, j) by {}
    } else if occurs_at(s, pat, from) {
    } else {
        lemma_find_from(s, pat, from + 1);
    }
}

pub proof fn lemma_find_first_contains(s: Seq<char>, pat: Seq<char>)
    ensures
        find_first(s, pat) >= 0 <==> contains_seq(s, pat),
{
    lemma_find_from(s, pat, 0);
    if contains_seq(s, pat) {
        let i = choose|i: int| occurs_at(s, pat, i);
        assert(i >= 0);
    }
}

/// Position of the last occurrence of `pat` in `s`, or -1.
pub open spec fn find_last_before(s: Seq<char>, pat: Seq<char>, before: int) -> int
    recommends
        before <= s.len() - pat.len(),
    decreases before + 1,
{
    if before < 0 {
        -1
    } else if occurs_at(s, pat, before) {
        before
    } else {
        find_last_before(s, pat, before - 1)
    }
}

pub open spec fn find_last(s: Seq<char>, pat: Seq<char>) -> int {
    find_last_before(s, pat, s.len() - pat.len())
}

pub proof fn lemma_find_last_before(s: Seq<char>, pat: Seq<char>, before: int)
    requires
        before <= s.len() - pat.len(),
    ensures
        find_last_before(s, pat, before) >= 0 ==> occurs_at(s, pat, find_last_before(s, pat, before))
            && find_last_before(s, pat, before) <= before
            && (forall|j: int| find_last_before(s, pat, before) < j <= before ==> !occurs_at(s, pat, j)),
        find_last_before(s, pat, before) == -1 ==> forall|j: int| j <= before ==> !occurs_at(s, pat, j),
        find_last_before(s, pat, before) == -1 || find_last_before(s, pat, before) >= 0,
    decreases before + 1,
{
    if before < 0 {
    } else if occurs_at(s, pat, before) {
    } else {
        lemma_find_last_before(s, pat, before - 1);
    }
}

pub proof fn lemma_find_last_contains(s: Seq<char>, pat: Seq<char>)
    ensures
        find_last(s, pat) >= 0 <==> contains_seq(s, pat),
{
    lemma_find_last_before(s, pat, s.len() - pat.len());
    if contains_seq(s, pat) {
        let i = choose|i: int| occurs_at(s, pat, i);
        assert(i <= s.len() - pat.len());
    }
}

/// `s` with the first occurrence of `pat` removed; `s` itself when `pat`
/// does not occur.
pub open spec fn remove_first(s: Seq<char>, pat: Seq<char>) -> Seq<char> {
    let i = find_first(s, pat);
    if i < 0 {
        s
    } else {
        s.subrange(0, i) + s.subrange(i + pat.len() as int, s.len() as int)
    }
}

/// The text after the last occurrence of `pat` in `s`; `s` itself when
/// `pat` does not occur.
pub open spec fn after_last(s: Seq<char>, pat: Seq<char>) -> Seq<char> {
    let i = find_last(s, pat);
    if i < 0 {
        s
    } else {
        s.subrange(i + pat.len() as int, s.len() as int)
    }
}

/// `s` ends with `pat`.
pub open spec fn ends_with(s: Seq<char>, pat: Seq<char>) -> bool {
    pat.len() <= s.len() && s.subrange(s.len() - pat.len() as int, s.len() as int) == pat
}

/// A character with the Unicode white-space property, as `char::is_whitespace`
/// classifies it.
pub open spec fn is_space(c: char) -> bool {
    c == ' ' || c == '\t' || c == '\n' || c == '\u{b}' || c == '\u{c}' || c == '\r'
        || c == '\u{85}' || c == '\u{a0}' || c == '\u{1680}'
        || ('\u{2000}' <= c && c <= '\u{200a}') || c == '\u{2028}' || c == '\u{2029}'
        || c == '\u{202f}' || c == '\u{205f}' || c == '\u{3000}'
}

/// `s` with trailing white space removed.
pub open spec fn trim_end(s: Seq<char>) -> Seq<char>
    decreases s.len(),
{
    if s.len() > 0 && is_space(s.last()) {
        trim_end(s.drop_last())
    } else {
        s
    }
}

/// Case-insensitive lexicographic order: `lower(a)` is at most `lower(b)`
/// under the order on character code points.
pub open spec fn ci_le(a: Seq<char>, b: Seq<char>) -> bool {
    lex_le(lower(a), lower(b))
}

/// Lexicographic order on character sequences by code point.
pub open spec fn lex_le(a: Seq<char>, b: Seq<char>) -> bool
    decreases a.len(),
{
    if a.len() == 0 {
        true
    } else if b.len() == 0 {
        false
    } else if a[0] != b[0] {
        (a[0] as u32) < (b[0] as u32)
    } else {
        lex_le(a.drop_first(), b.drop_first())
    }
}

pub fn is_space_exec(c: char) -> (r: bool)
    ensures
        r == is_space(c),
{
    c == ' ' || c == '\t' || c == '\n' || c == '\u{b}' || c == '\u{c}' || c == '\r'
        || c == '\u{85}' || c == '\u{a0}' || c == '\u{1680}'
        || ('\u{2000}' <= c && c <= '\u{200a}') || c == '\u{2028}' || c == '\u{2029}'
        || c == '\u{202f}' || c == '\u{205f}' || c == '\u{3000}'
}

/// Length of `v` once trailing white space is dropped, so that
/// `v@.take(r)` is `trim_end(v@)`.
pub fn trimmed_len(v: &Vec<char>) -> (r: usize)
    ensures
        r <= v@.len(),
        v@.take(r as int) == trim_end(v@),
{
    let mut i: usize = v.len();
    proof {
        assert(v@.take(v@.len() as int) =~= v@);
    }
    while i > 0 && is_space_exec(v[i - 1])
        invariant
            i <= v.len(),
            trim_end(v@.take(i as int)) == trim_end(v@),
        decreases i,
    {
        proof {
            assert(v@.take(i as int).drop_last() =~= v@.take(i - 1));
        }
        i = i - 1;
    }
    proof {
        if i > 0 {
            assert(!is_space(v@.take(i as int).last()));
        }
        assert(trim_end(v@.take(i as int)) == v@.take(i as int));
    }
    i
}

/// Whether `pat` occurs in `v` starting at `i`.
fn occurs_at_exec(v: &Vec<char>, pat: &Vec<char>, i: usize) -> (r: bool)
    requires
        i + pat@.len() <= v@.len(),
    ensures
        r == occurs_at(v@, pat@, i as int),
{
    let mut j: usize = 0;
    assert(v.len() == v@.len());
    while j < pat.len()
        invariant
            j <= pat@.len(),
            i + pat@.len() <= v@.len(),
            v@.len() <= usize::MAX,
            forall|k: int| 0 <= k < j ==> v@[i + k] == pat@[k],
        decreases pat@.len() - j,
    {
        if v[i + j] != pat[j] {
            assert(v@.subrange(i as int, i + pat@.len() as int)[j as int] != pat@[j as int]);
            return false;
        }
        j = j + 1;
    }
    proof {
        assert(v@.subrange(i as int, i + pat@.len() as int) =~= pat@);
    }
    true
}

/// Position of the first occurrence of `pat` in `v`, if any.
pub fn find_first_exec(v: &Vec<char>, pat: &Vec<char>) -> (r: Option<usize>)
    ensures
        match r {
            Some(i) => i as int == find_first(v@, pat@),
            None => find_first(v@, pat@) == -1,
        },
{
    if pat.len() == 0 {
        proof {
            assert(v@.subrange(0, 0) =~= pat@);
        }
        return Some(0);
    }
    let mut i: usize = 0;
    loop
        invariant
            pat@.len() >= 1,
            i <= v@.len(),
            find_first(v@, pat@) == find_from(v@, pat@, i as int),
        decreases v@.len() + 1 - i,
    {
        if pat.len() > v.len() || i > v.len() - pat.len() {
            return None;
        }
        if occurs_at_exec(v, pat, i) {
            return Some(i);
        }
        i = i + 1;
    }
}

pub fn contains_exec(v: &Vec<char>, pat: &Vec<char>) -> (r: bool)
    ensures
        r == contains_seq(v@, pat@),
{
    proof {
        lemma_find_first_contains(v@, pat@);
    }
    find_first_exec(v, pat).is_some()
}

/// Position of the last occurrence of `pat` in `v`, if any.
pub fn find_last_exec(v: &Vec<char>, pat: &Vec<char>) -> (r: Option<usize>)
    ensures
        match r {
            Some(i) => i as int == find_last(v@, pat@),
            None => find_last(v@, pat@) == -1,
        },
{
    if pat.len() > v.len() {
        return None;
    }
    if pat.len() == 0 {
        proof {
            assert(v@.subrange(v@.len() as int, v@.len() as int) =~= pat@);
        }
        return Some(v.len());
    }
    let mut i: usize = v.len() - pat.len();
    loop
        invariant
            pat@.len() >= 1,
            i <= v@.len() - pat@.len(),
            find_last(v@, pat@) == find_last_before(v@, pat@, i as int),
        decreases i + 1,
    {
        if occurs_at_exec(v, pat, i) {
            return Some(i);
        }
        if i == 0 {
            proof {
                assert(find_last_before(v@, pat@, -1) == -1);
            }
            return None;
        }
        i = i - 1;
    }
}

/// `v` with the first occurrence of `pat` removed.
pub fn remove_first_exec(v: &Vec<char>, pat: &Vec<char>) -> (r: Vec<char>)
    ensures
        r@ == remove_first(v@, pat@),
{
    match find_first_exec(v, pat) {
        None => copy_range(v, 0, v.len()),
        Some(i) => {
            assert(v.len() == v@.len());
            proof {
                lemma_find_from(v@, pat@, 0);
            }
            let mut r = copy_range(v, 0, i);
            let mut rest = copy_range(v, i + pat.len(), v.len());
            r.append(&mut rest);
            r
        },
    }
}

/// The text after the last occurrence of `pat` in `v`; all of `v` when
/// `pat` does not occur.
pub fn after_last_exec(v: &Vec<char>, pat: &Vec<char>) -> (r: Vec<char>)
    ensures
        r@ == after_last(v@, pat@),
{
    match find_last_exec(v, pat) {
        None => copy_range(v, 0, v.len()),
        Some(i) => {
            assert(v.len() == v@.len());
            proof {
                lemma_find_last_before(v@, pat@, v@.len() - pat@.len());
            }
            copy_range(v, i + pat.len(), v.len())
        },
    }
}

/// Copy of `v[from..to]`.
pub fn copy_range(v: &Vec<char>, from: usize, to: usize) -> (r: Vec<char>)
    requires
        from <= to <= v@.len(),
    ensures
        r@ == v@.subrange(from as int, to as int),
{
    let mut r: Vec<char> = Vec::new();
    let mut i: usize = from;
    while i < to
        invariant
            from <= i <= to <= v@.len(),
            r@ == v@.subrange(from as int, i as int),
        decreases to - i,
    {
        r.push(v[i]);
        i = i + 1;
        assert(v@.subrange(from as int, i as int)
            =~= v@.subrange(from as int, i - 1).push(v@[i - 1]));
    }
    r
}

pub fn ends_with_exec(v: &Vec<char>, pat: &Vec<char>) -> (r: bool)
    ensures
        r == ends_with(v@, pat@),
{
    if pat.len() > v.len() {
        return false;
    }
    occurs_at_exec(v, pat, v.len() - pat.len())
}

pub fn eq_chars(a: &Vec<char>, b: &Vec<char>) -> (r: bool)
    ensures
        r == (a@ == b@),
{
    if a.len() != b.len() {
        return false;
    }
    let mut i: usize = 0;
    while i < a.len()
        invariant
            i <= a@.len(),
            a@.len() == b@.len(),
            forall|k: int| 0 <= k < i ==> a@[k] == b@[k],
        decreases a@.len() - i,
    {
        if a[i] != b[i] {
            return false;
        }
        i = i + 1;
    }
    proof {
        assert(a@ =~= b@);
    }
    true
}

/// Case-insensitive comparison: is `lower(a)` at most `lower(b)` in the
/// lexicographic order on code points?
pub fn ci_le_exec(a: &Vec<char>, b: &Vec<char>) -> (r: bool)
    ensures
        r == ci_le(a@, b@),
{
    let mut i: usize = 0;
    proof {
        assert(lower(a@).skip(0) =~= lower(a@));
        assert(lower(b@).skip(0) =~= lower(b@));
    }
    loop
        invariant
            i <= a@.len(),
            i <= b@.len(),
            forall|k: int| 0 <= k < i ==> lower_char(a@[k]) == lower_char(b@[k]),
            ci_le(a@, b@) == lex_le(lower(a@).skip(i as int), lower(b@).skip(i as int)),
        decreases a@.len() - i,
    {
        if i == a.len() {
            return true;
        }
        if i == b.len() {
            return false;
        }
        let ca = lower_char_exec(a[i]);
        let cb = lower_char_exec(b[i]);
        if ca != cb {
            proof {
                assert(lower(a@).skip(i as int)[0] == lower_char(a@[i as int]));
                assert(lower(b@).skip(i as int)[0] == lower_char(b@[i as int]));
            }
            return (ca as u32) < (cb as u32);
        }
        i = i + 1;
        proof {
            assert(lower(a@).skip(i as int) =~= lower(a@).skip(i - 1).drop_first());
            assert(lower(b@).skip(i as int) =~= lower(b@).skip(i - 1).drop_first());
        }
    }
}

/// Build a `String` from a vector of characters.
///
/// Relies on std's `FromIterator` for `String`: collecting characters
/// yields the string of exactly those characters in order.
#[verifier::external_body]
pub fn chars_to_string(v: &Vec<char>) -> (r: String)
    ensures
        r@ == v@,
{
    v.iter().collect()
}

} // verus!

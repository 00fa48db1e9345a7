//! The description parser: a two-state scan over the lines of a
//! decompressed document that extracts its one-line summary.
//!
//! The first state looks for a NAME section heading; the second state looks
//! for either a dedicated description macro line or a `name - description`
//! separator, taking the text from that line or from the one after it,
//! depending on how the line ends.
use vstd::prelude::*;

use crate::text::{
    after_last, after_last_exec, contains_exec, contains_seq, copy_range, chars_to_string,
    ends_with, ends_with_exec, find_first, lemma_find_from, lower, lower_vec, remove_first,
    remove_first_exec, to_chars, trim_end, trimmed_len,
};

verus! {

/// The newline character, as a one-element pattern.
pub open spec fn nl_pat() -> Seq<char> {
    seq!['\n']
}

/// The lines of `s`, split at newlines, with a carriage return immediately
/// before a newline dropped and no empty final line after a trailing
/// newline. This matches how the extracted text is iterated line by line.
pub open spec fn spec_lines(s: Seq<char>) -> Seq<Seq<char>>
    decreases s.len(),
    via spec_lines_decreases
{
    if s.len() == 0 {
        Seq::empty()
    } else {
        let i = find_first(s, nl_pat());
        if i < 0 {
            seq![s]
        } else {
            let raw = s.subrange(0, i);
            let line = if raw.len() > 0 && raw.last() == '\r' {
                raw.drop_last()
            } else {
                raw
            };
            seq![line] + spec_lines(s.subrange(i + 1, s.len() as int))
        }
    }
}

#[via_fn]
proof fn spec_lines_decreases(s: Seq<char>) {
    if s.len() != 0 {
        let i = find_first(s, nl_pat());
        if i >= 0 {
            lemma_find_from(s, nl_pat(), 0);
        }
    }
}

/// A line that announces the NAME section: it contains the section macro
/// with the heading, quoted or not, in any letter case.
pub open spec fn is_name_heading(l: Seq<char>) -> bool {
    contains_seq(lower(l), ".sh name"@) || contains_seq(lower(l), ".sh \"name\""@)
}

/// Index of the first NAME heading at or after `i`, or -1 when none is left.
pub open spec fn first_heading(lines: Seq<Seq<char>>, i: int) -> int
    decreases lines.len() + 1 - i,
    when 0 <= i
{
    if i >= lines.len() {
        -1
    } else if is_name_heading(lines[i]) {
        i
    } else {
        first_heading(lines, i + 1)
    }
}

/// The description extracted from `lines[j..]`, once a NAME heading was seen:
/// - a line holding the description macro that ends (after trailing white
///   space) with the bare macro takes the next line, lowercased;
/// - a line holding the macro with trailing content yields that content,
///   with the first macro token removed, lowercased;
/// - otherwise a line holding a dash that ends with an open continuation
///   (a bare dash, or a dash, space and backslash) takes the next line;
/// - otherwise a line holding a dash yields the text after the last
///   `- ` separator, lowercased;
/// - the first extraction wins; no match by the end yields the empty text.
pub open spec fn desc_from(lines: Seq<Seq<char>>, j: int) -> Seq<char>
    decreases lines.len() + 1 - j,
    when 0 <= j
{
    if j >= lines.len() {
        Seq::empty()
    } else {
        let l = lines[j];
        if contains_seq(lower(l), ".nd"@) {
            if ends_with(trim_end(l), ".nd"@) {
                if j + 1 < lines.len() {
                    lower(lines[j + 1])
                } else {
                    Seq::empty()
                }
            } else {
                remove_first(remove_first(lower(l), ".nd "@), ".nd"@)
            }
        } else if contains_seq(l, "-"@) {
            if ends_with(trim_end(l), "-"@) || ends_with(trim_end(l), "- \\"@) {
                if j + 1 < lines.len() {
                    lower(lines[j + 1])
                } else {
                    Seq::empty()
                }
            } else {
                after_last(lower(l), "- "@)
            }
        } else {
            desc_from(lines, j + 1)
        }
    }
}

/// The description of a document's text: empty when no NAME heading occurs,
/// otherwise whatever the scan after the heading extracts.
pub open spec fn spec_description(text: Seq<char>) -> Seq<char> {
    let lines = spec_lines(text);
    let h = first_heading(lines, 0);
    if h < 0 {
        Seq::empty()
    } else {
        desc_from(lines, h + 1)
    }
}

/// A text with no NAME heading parses to the empty description — it is
/// tolerated, not an error.
pub proof fn lemma_no_heading_empty_description(text: Seq<char>)
    requires
        first_heading(spec_lines(text), 0) == -1,
    ensures
        spec_description(text) == Seq::<char>::empty(),
{
}

/// Split `v` into its lines, as `spec_lines` describes them.
pub fn split_lines(v: &Vec<char>) -> (r: Vec<Vec<char>>)
    ensures
        r.deep_view() == spec_lines(v@),
{
    let mut nl: Vec<char> = Vec::new();
    nl.push('\n');
    proof {
        assert(nl@ =~= nl_pat());
    }
    let mut acc: Vec<Vec<char>> = Vec::new();
    let mut rest = copy_range(v, 0, v.len());
    proof {
        assert(v@.subrange(0, v@.len() as int) =~= v@);
    }
    loop
        invariant
            nl@ == nl_pat(),
            spec_lines(v@) == acc.deep_view() + spec_lines(rest@),
        decreases rest@.len(),
    {
        if rest.len() == 0 {
            proof {
                assert(acc.deep_view() + spec_lines(rest@) =~= acc.deep_view());
            }
            return acc;
        }
        let ghost prev_acc = acc.deep_view();
        let ghost prev_rest = rest@;
        match crate::text::find_first_exec(&rest, &nl) {
            None => {
                let whole = copy_range(&rest, 0, rest.len());
                proof {
                    assert(rest@.subrange(0, rest@.len() as int) =~= rest@);
                }
                acc.push(whole);
                proof {
                    assert(acc.deep_view() =~~= prev_acc.push(prev_rest));
                    assert(prev_acc + (seq![prev_rest])
                        =~~= prev_acc.push(prev_rest));
                    assert(acc.deep_view() + spec_lines(Seq::<char>::empty())
                        =~= acc.deep_view());
                }
                let empty_rest: Vec<char> = Vec::new();
                rest = empty_rest;
                proof {
                    assert(acc.deep_view() + spec_lines(rest@) =~= acc.deep_view());
                }
            },
            Some(i) => {
                proof {
                    lemma_find_from(rest@, nl@, 0);
                }
                let raw_end: usize = if i > 0 && rest[i - 1] == '\r' {
                    i - 1
                } else {
                    i
                };
                let line = copy_range(&rest, 0, raw_end);
                proof {
                    let raw = prev_rest.subrange(0, i as int);
                    if i > 0 && prev_rest[i - 1] == '\r' {
                        assert(raw.len() > 0 && raw.last() == '\r');
                        assert(line@ =~= raw.drop_last());
                    } else {
                        if raw.len() > 0 {
                            assert(raw.last() == prev_rest[i - 1]);
                        }
                        assert(line@ =~= raw);
                    }
                }
                acc.push(line);
                let new_rest = copy_range(&rest, i + 1, rest.len());
                rest = new_rest;
                proof {
                    assert(acc.deep_view() =~~= prev_acc.push(line@));
                    assert(spec_lines(prev_rest) =~= seq![line@] + spec_lines(rest@));
                    assert(prev_acc + (seq![line@] + spec_lines(rest@))
                        =~~= (prev_acc.push(line@)) + spec_lines(rest@));
                }
            },
        }
    }
}

/// Index of the first NAME heading line, if any.
fn find_heading(lines: &Vec<Vec<char>>) -> (r: Option<usize>)
    ensures
        match r {
            Some(h) => h < lines@.len() && first_heading(lines.deep_view(), 0) == h as int,
            None => first_heading(lines.deep_view(), 0) == -1,
        },
{
    let heading1 = to_chars(".sh name");
    let heading2 = to_chars(".sh \"name\"");
    let ghost dv = lines.deep_view();
    proof {
        assert forall|k: int| 0 <= k < lines@.len() implies dv[k] == lines@[k]@ by {
            assert(lines@[k].deep_view() =~= lines@[k]@);
        }
    }
    let mut i: usize = 0;
    while i < lines.len()
        invariant
            i <= lines@.len(),
            dv == lines.deep_view(),
            dv.len() == lines@.len(),
            heading1@ == ".sh name"@,
            heading2@ == ".sh \"name\""@,
            first_heading(dv, 0) == first_heading(dv, i as int),
            forall|k: int| 0 <= k < lines@.len() ==> dv[k] == lines@[k]@,
        decreases lines@.len() - i,
    {
        let low = lower_vec(&lines[i]);
        if contains_exec(&low, &heading1) || contains_exec(&low, &heading2) {
            proof {
                assert(is_name_heading(dv[i as int]));
            }
            return Some(i);
        }
        proof {
            assert(!is_name_heading(dv[i as int]));
        }
        i = i + 1;
    }
    None
}

/// Extract a document's one-line description from its decompressed text.
///
/// The result is exactly `spec_description` of the text: the parser is a
/// pure function of its input, so parsing the same text again always yields
/// the same description.
pub fn get_description(text: &str) -> (r: String)
    ensures
        r@ == spec_description(text@),
{
    let chars = to_chars(text);
    let lines = split_lines(&chars);
    let ghost dv = lines.deep_view();
    proof {
        assert forall|k: int| 0 <= k < lines@.len() implies dv[k] == lines@[k]@ by {
            assert(lines@[k].deep_view() =~= lines@[k]@);
        }
    }
    let h: usize;
    match find_heading(&lines) {
        None => {
            return String::new();
        },
        Some(found) => {
            h = found;
        },
    }

    let nd = to_chars(".nd");
    let nd_sp = to_chars(".nd ");
    let dash = to_chars("-");
    let dash_sp = to_chars("- ");
    let dash_open = to_chars("- \\");

    assert(lines.len() == lines@.len());
    let mut j: usize = h + 1;
    loop
        invariant
            h < lines@.len(),
            h + 1 <= j <= lines@.len(),
            dv == lines.deep_view(),
            dv.len() == lines@.len(),
            nd@ == ".nd"@,
            nd_sp@ == ".nd "@,
            dash@ == "-"@,
            dash_sp@ == "- "@,
            dash_open@ == "- \\"@,
            dv == spec_lines(chars@),
            chars@ == text@,
            first_heading(dv, 0) == h as int,
            spec_description(text@) == desc_from(dv, j as int),
            forall|k: int| 0 <= k < lines@.len() ==> dv[k] == lines@[k]@,
        decreases lines@.len() - j,
    {
        if j >= lines.len() {
            return String::new();
        }
        let l = &lines[j];
        let low = lower_vec(l);
        if contains_exec(&low, &nd) {
            let tl = trimmed_len(l);
            let trimmed = copy_range(l, 0, tl);
            if ends_with_exec(&trimmed, &nd) {
                if j + 1 < lines.len() {
                    let desc = lower_vec(&lines[j + 1]);
                    return chars_to_string(&desc);
                } else {
                    return String::new();
                }
            } else {
                let once = remove_first_exec(&low, &nd_sp);
                let desc = remove_first_exec(&once, &nd);
                return chars_to_string(&desc);
            }
        } else if contains_exec(l, &dash) {
            let tl = trimmed_len(l);
            let trimmed = copy_range(l, 0, tl);
            if ends_with_exec(&trimmed, &dash) || ends_with_exec(&trimmed, &dash_open) {
                if j + 1 < lines.len() {
                    let desc = lower_vec(&lines[j + 1]);
                    return chars_to_string(&desc);
                } else {
                    return String::new();
                }
            } else {
                let desc = after_last_exec(&low, &dash_sp);
                return chars_to_string(&desc);
            }
        }
        j = j + 1;
    }
}

} // verus!

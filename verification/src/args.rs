//! The decisions behind argument handling: how a single command-line token
//! is classified, how a numeric section argument is read, and how the path
//! of a requested document is assembled from its parts.
use vstd::prelude::*;

use crate::text::{chars_to_string, copy_range, lower, lower_vec, to_chars};

verus! {

/// What a single argument token means.
#[derive(PartialEq, Eq, Structural)]
pub enum ArgKind {
    /// The command that rebuilds the index.
    UpdateIndex,
    /// An exact-search flag: it starts with `-f` or is `--whatis`.
    WhatisFlag,
    /// A substring-search flag: it starts with `-k` or is `--apropos`.
    AproposFlag,
    /// A section token: it starts with a decimal digit.
    SectionToken,
    /// An unrecognised long option: it starts with `--`.
    LongOption,
    /// An invalid short option: it starts with `-`.
    ShortOption,
    /// Anything else: a page name.
    PageName,
}

/// `s` starts with `pre`.
pub open spec fn starts_with(s: Seq<char>, pre: Seq<char>) -> bool {
    pre.len() <= s.len() && s.subrange(0, pre.len() as int) == pre
}

/// An ASCII decimal digit.
pub open spec fn is_digit(c: char) -> bool {
    '0' <= c && c <= '9'
}

/// The classification of one argument token, in the order the flags are
/// tried: the rebuild command, the search flags, a token led by a digit,
/// the two option shapes, and lastly a page name.
pub open spec fn spec_classify(s: Seq<char>) -> ArgKind {
    if s == "makewhatis"@ {
        ArgKind::UpdateIndex
    } else if starts_with(s, "-f"@) || s == "--whatis"@ {
        ArgKind::WhatisFlag
    } else if starts_with(s, "-k"@) || s == "--apropos"@ {
        ArgKind::AproposFlag
    } else if s.len() > 0 && is_digit(s[0]) {
        ArgKind::SectionToken
    } else if starts_with(s, "--"@) {
        ArgKind::LongOption
    } else if starts_with(s, "-"@) {
        ArgKind::ShortOption
    } else {
        ArgKind::PageName
    }
}

fn starts_with_exec(v: &Vec<char>, pre: &Vec<char>) -> (r: bool)
    ensures
        r == starts_with(v@, pre@),
{
    if pre.len() > v.len() {
        return false;
    }
    let head = copy_range(v, 0, pre.len());
    crate::text::eq_chars(&head, pre)
}

/// Classify one argument token.
pub fn classify_arg(arg: &str) -> (r: ArgKind)
    ensures
        r == spec_classify(arg@),
{
    let v = to_chars(arg);
    let mw = to_chars("makewhatis");
    let fshort = to_chars("-f");
    let fwhole = to_chars("--whatis");
    let kshort = to_chars("-k");
    let kwhole = to_chars("--apropos");
    let ddash = to_chars("--");
    let dash = to_chars("-");
    if crate::text::eq_chars(&v, &mw) {
        ArgKind::UpdateIndex
    } else if starts_with_exec(&v, &fshort) || crate::text::eq_chars(&v, &fwhole) {
        ArgKind::WhatisFlag
    } else if starts_with_exec(&v, &kshort) || crate::text::eq_chars(&v, &kwhole) {
        ArgKind::AproposFlag
    } else if v.len() > 0 && { let c = v[0]; '0' <= c && c <= '9' } {
        ArgKind::SectionToken
    } else if starts_with_exec(&v, &ddash) {
        ArgKind::LongOption
    } else if starts_with_exec(&v, &dash) {
        ArgKind::ShortOption
    } else {
        ArgKind::PageName
    }
}

/// The numeric value of a decimal token, as reading it into a small
/// unsigned integer does: an optional plus sign, then at least one digit,
/// with the value at most 255.
pub open spec fn spec_parse_u8(s: Seq<char>) -> Option<u8> {
    let digits = if s.len() > 0 && s[0] == '+' {
        s.drop_first()
    } else {
        s
    };
    if digits.len() == 0 || !all_digits(digits) || digits_value(digits) > 255 {
        None
    } else {
        Some(digits_value(digits) as u8)
    }
}

/// Every character of `s` is a decimal digit.
pub open spec fn all_digits(s: Seq<char>) -> bool {
    forall|i: int| 0 <= i < s.len() ==> is_digit(#[trigger] s[i])
}

/// The value of a digit string, most significant first.
pub open spec fn digits_value(s: Seq<char>) -> int
    decreases s.len(),
{
    if s.len() == 0 {
        0
    } else {
        digits_value(s.drop_last()) * 10 + (s.last() as u32 - '0' as u32)
    }
}

/// Read a decimal token as a small unsigned integer.
pub fn parse_u8_arg(arg: &str) -> (r: Option<u8>)
    ensures
        r == spec_parse_u8(arg@),
{
    let v = to_chars(arg);
    let start: usize = if v.len() > 0 && v[0] == '+' {
        1
    } else {
        0
    };
    let digits = copy_range(&v, start, v.len());
    let ghost sd = if arg@.len() > 0 && arg@[0] == '+' {
        arg@.drop_first()
    } else {
        arg@
    };
    proof {
        if v@.len() > 0 && v@[0] == '+' {
            assert(digits@ =~= v@.drop_first());
        } else {
            assert(digits@ =~= v@);
        }
        assert(digits@ == sd);
    }
    if digits.len() == 0 {
        return None;
    }
    let mut value: u32 = 0;
    let mut i: usize = 0;
    while i < digits.len()
        invariant
            digits@ == sd,
            sd == (if arg@.len() > 0 && arg@[0] == '+' {
                arg@.drop_first()
            } else {
                arg@
            }),
            i <= digits@.len(),
            value == digits_value(digits@.take(i as int)) || digits_value(digits@.take(i as int))
                > 255,
            value <= 255 ==> value == digits_value(digits@.take(i as int)),
            value <= 65535,
            forall|k: int| 0 <= k < i ==> is_digit(#[trigger] digits@[k]),
        decreases digits@.len() - i,
    {
        let c = digits[i];
        if !('0' <= c && c <= '9') {
            proof {
                assert(0 <= (i as int) < sd.len() && !is_digit(sd[i as int]));
                assert(!all_digits(sd));
            }
            return None;
        }
        let d: u32 = (c as u32) - 48;
        if value > 255 {
            value = 256;
        } else {
            value = value * 10 + d;
        }
        i = i + 1;
        proof {
            assert(digits@.take(i as int).drop_last() =~= digits@.take(i - 1));
            assert(digits@.take(i as int).last() == digits@[i - 1]);
        }
    }
    proof {
        assert(digits@.take(digits@.len() as int) =~= digits@);
    }
    if value > 255 {
        proof {
            assert(digits_value(digits@) > 255);
        }
        None
    } else {
        Some(value as u8)
    }
}

/// The path of a document under the configured root:
/// `<root>/man<digit>/<page>.<section>.gz`.
pub open spec fn spec_page_path(
    root: Seq<char>,
    digit: Seq<char>,
    page: Seq<char>,
    section: Seq<char>,
) -> Seq<char> {
    root + "/man"@ + digit + "/"@ + lower(page) + "."@ + section + ".gz"@
}

/// Assemble the path of a requested document from the configured root,
/// the numeric section digit, the page name (lowercased) and the full
/// section label.
pub fn build_page_path(root: &str, digit: &str, page: &str, section: &str) -> (r: String)
    ensures
        r@ == spec_page_path(root@, digit@, page@, section@),
{
    let mut out = to_chars(root);
    let mut part = to_chars("/man");
    out.append(&mut part);
    let mut dg = to_chars(digit);
    out.append(&mut dg);
    let mut sl = to_chars("/");
    out.append(&mut sl);
    let pg = to_chars(page);
    let mut low = lower_vec(&pg);
    out.append(&mut low);
    let mut dot = to_chars(".");
    out.append(&mut dot);
    let mut sect = to_chars(section);
    out.append(&mut sect);
    let mut ext = to_chars(".gz");
    out.append(&mut ext);
    proof {
        assert(out@ =~= spec_page_path(root@, digit@, page@, section@));
    }
    chars_to_string(&out)
}

} // verus!


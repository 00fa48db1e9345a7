//! The search engine and section resolver: exact and substring queries over
//! a loaded index, formatting of result lines, case-insensitive ascending
//! sort, removal of adjacent duplicates, and the no-match message.
use vstd::prelude::*;

use crate::index::{page_of, path_parses, section_of, Index, RecordView};
use crate::text::{
    chars_to_string, ci_le, ci_le_exec, contains_exec, contains_seq, copy_range, eq_chars,
    to_chars,
};
use vstd::pervasive::unreached;

verus! {

/// A formatted result line: `<page> (<section>) - <description>`.
pub open spec fn spec_format_line(page: Seq<char>, section: Seq<char>, desc: Seq<char>) -> Seq<
    char,
> {
    page + " ("@ + section + ") - "@ + desc
}

/// The formatted line of one record.
pub open spec fn spec_record_line(rv: RecordView) -> Seq<char> {
    spec_format_line(rv.page, rv.section, rv.description)
}

/// Formatted lines of the records whose page name equals the term exactly.
pub open spec fn exact_lines(recs: Seq<RecordView>, term: Seq<char>) -> Seq<Seq<char>> {
    recs.filter(|r: RecordView| r.page == term).map_values(|r: RecordView| spec_record_line(r))
}

/// Formatted lines of the records whose page name or description contains
/// the term as a substring.
pub open spec fn apropos_lines(recs: Seq<RecordView>, term: Seq<char>) -> Seq<Seq<char>> {
    recs.filter(
        |r: RecordView| contains_seq(r.page, term) || contains_seq(r.description, term),
    ).map_values(|r: RecordView| spec_record_line(r))
}

/// Source paths of the records whose page name equals the term exactly.
pub open spec fn match_paths(recs: Seq<RecordView>, term: Seq<char>) -> Seq<Seq<char>> {
    recs.filter(|r: RecordView| r.page == term).map_values(|r: RecordView| r.file_path)
}

/// `x` inserted into `s` after every element at most `x` in the
/// case-insensitive order: insertion after equals keeps earlier elements
/// earlier.
pub open spec fn insert_ci(x: Seq<char>, s: Seq<Seq<char>>) -> Seq<Seq<char>>
    decreases s.len(),
{
    if s.len() == 0 {
        seq![x]
    } else if ci_le(s[0], x) {
        seq![s[0]] + insert_ci(x, s.drop_first())
    } else {
        seq![x] + s
    }
}

/// Stable insertion sort under the case-insensitive order: exactly what a
/// stable ascending sort of the lines produces.
pub open spec fn sort_ci(s: Seq<Seq<char>>) -> Seq<Seq<char>>
    decreases s.len(),
{
    if s.len() == 0 {
        Seq::empty()
    } else {
        insert_ci(s.last(), sort_ci(s.drop_last()))
    }
}

/// `s` with every element equal to its predecessor removed.
pub open spec fn spec_dedup(s: Seq<Seq<char>>) -> Seq<Seq<char>>
    decreases s.len(),
{
    if s.len() <= 1 {
        s
    } else if s.last() == s[s.len() - 2] {
        spec_dedup(s.drop_last())
    } else {
        spec_dedup(s.drop_last()).push(s.last())
    }
}

/// What the engine reports for a list of result lines: the lines sorted
/// case-insensitively ascending with adjacent duplicates removed, or the
/// single no-match message when nothing was found.
pub open spec fn spec_display(rs: Seq<Seq<char>>, term: Seq<char>) -> Seq<Seq<char>> {
    let s = spec_dedup(sort_ci(rs));
    if s.len() == 0 {
        seq![term + ": nothing appropriate"@]
    } else {
        s
    }
}

/// The resolved path for a bare page name: the case-insensitively smallest
/// source path among the exactly matching records, or nothing.
pub open spec fn spec_first_path(recs: Seq<RecordView>, term: Seq<char>) -> Option<Seq<char>> {
    let mp = match_paths(recs, term);
    if mp.len() == 0 {
        Option::None
    } else {
        Option::Some(sort_ci(mp)[0])
    }
}

/// Concatenation of page, section and description into one result line.
fn format_line_chars(page: &Vec<char>, section: &Vec<char>, desc: &Vec<char>) -> (r: Vec<char>)
    ensures
        r@ == spec_format_line(page@, section@, desc@),
{
    let mut r = copy_range(page, 0, page.len());
    let mut part = to_chars(" (");
    r.append(&mut part);
    let mut sec = copy_range(section, 0, section.len());
    r.append(&mut sec);
    let mut part2 = to_chars(") - ");
    r.append(&mut part2);
    let mut de = copy_range(desc, 0, desc.len());
    r.append(&mut de);
    proof {
        assert(page@.subrange(0, page@.len() as int) =~= page@);
        assert(section@.subrange(0, section@.len() as int) =~= section@);
        assert(desc@.subrange(0, desc@.len() as int) =~= desc@);
        assert(r@ =~= spec_format_line(page@, section@, desc@));
    }
    r
}

/// Format a document's path and description for display, as
/// `<page> (<section>) - <description>`.
pub fn format_filename_description(path: &str, description: &str) -> (r: String)
    requires
        path_parses(path@),
    ensures
        r@ == spec_format_line(page_of(path@), section_of(path@), description@),
{
    let path_chars = to_chars(path);
    match crate::index::page_and_section(&path_chars) {
        None => unreached(),
        Some(ps) => {
            let (page, section) = ps;
            let desc = to_chars(description);
            let line = format_line_chars(&page, &section, &desc);
            chars_to_string(&line)
        },
    }
}

/// `x` placed into the sorted `v` after every element at most `x`.
fn insert_sorted(v: Vec<String>, x: String) -> (r: Vec<String>)
    ensures
        r.deep_view() == insert_ci(x@, v.deep_view()),
{
    let ghost dv = v.deep_view();
    proof {
        assert(dv.len() == v@.len());
        assert forall|k: int| 0 <= k < v@.len() implies dv[k] == v@[k]@ by {}
    }
    let xc = to_chars(x.as_str());
    let mut pos: usize = 0;
    loop
        invariant
            pos <= v@.len(),
            dv == v.deep_view(),
            dv.len() == v@.len(),
            xc@ == x@,
            forall|j: int| 0 <= j < pos ==> ci_le(#[trigger] dv[j], x@),
        decreases v@.len() - pos,
    {
        if pos >= v.len() {
            proof {
                lemma_insert_ci_at(x@, dv, dv.len() as int);
            }
            let mut out = v;
            let n = out.len();
            out.insert(n, x);
            proof {
                assert(out.deep_view() =~~= dv.take(dv.len() as int) + seq![x@] + dv.skip(
                    dv.len() as int,
                ));
            }
            return out;
        }
        let ec = to_chars(v[pos].as_str());
        if !ci_le_exec(&ec, &xc) {
            proof {
                lemma_insert_ci_at(x@, dv, pos as int);
            }
            let mut out = v;
            out.insert(pos, x);
            proof {
                assert(out.deep_view() =~~= dv.take(pos as int) + seq![x@] + dv.skip(pos as int));
            }
            return out;
        }
        pos = pos + 1;
    }
}

proof fn lemma_insert_ci_at(x: Seq<char>, s: Seq<Seq<char>>, pos: int)
    requires
        0 <= pos <= s.len(),
        forall|j: int| 0 <= j < pos ==> ci_le(#[trigger] s[j], x),
        pos < s.len() ==> !ci_le(s[pos], x),
    ensures
        insert_ci(x, s) == s.take(pos) + seq![x] + s.skip(pos),
    decreases s.len(),
{
    if s.len() == 0 {
        assert(insert_ci(x, s) =~= s.take(pos) + seq![x] + s.skip(pos));
    } else if pos == 0 {
        assert(insert_ci(x, s) =~= s.take(pos) + seq![x] + s.skip(pos));
    } else {
        assert(ci_le(s[0], x));
        lemma_insert_ci_at(x, s.drop_first(), pos - 1);
        assert(s.drop_first().take(pos - 1) =~= s.take(pos).drop_first());
        assert(s.drop_first().skip(pos - 1) =~= s.skip(pos));
        assert(insert_ci(x, s) =~= s.take(pos) + seq![x] + s.skip(pos));
    }
}

/// Sort lines ascending in the case-insensitive order; lines that compare
/// equal keep their relative order.
pub fn sort_lines(v: Vec<String>) -> (r: Vec<String>)
    ensures
        r.deep_view() == sort_ci(v.deep_view()),
{
    let ghost dv = v.deep_view();
    proof {
        assert(dv.len() == v@.len());
        assert forall|k: int| 0 <= k < v@.len() implies dv[k] == v@[k]@ by {}
    }
    let mut out: Vec<String> = Vec::new();
    let mut k: usize = 0;
    proof {
        assert(out.deep_view() =~~= sort_ci(dv.take(0)));
    }
    while k < v.len()
        invariant
            k <= v@.len(),
            dv == v.deep_view(),
            dv.len() == v@.len(),
            forall|j: int| 0 <= j < v@.len() ==> dv[j] == v@[j]@,
            out.deep_view() == sort_ci(dv.take(k as int)),
        decreases v@.len() - k,
    {
        let ghost prev = out.deep_view();
        out = insert_sorted(out, v[k].clone());
        k = k + 1;
        proof {
            let taken = dv.take(k as int);
            assert(taken.drop_last() =~= dv.take(k - 1));
            assert(taken.last() == dv[k - 1]);
            assert(sort_ci(taken) == insert_ci(dv[k - 1], sort_ci(dv.take(k - 1))));
        }
    }
    proof {
        assert(dv.take(dv.len() as int) =~= dv);
    }
    out
}

/// Remove every line equal to its predecessor; on sorted input this
/// removes all duplicates.
pub fn dedup_lines(v: Vec<String>) -> (r: Vec<String>)
    ensures
        r.deep_view() == spec_dedup(v.deep_view()),
{
    let ghost dv = v.deep_view();
    proof {
        assert(dv.len() == v@.len());
        assert forall|k: int| 0 <= k < v@.len() implies dv[k] == v@[k]@ by {}
    }
    let mut out: Vec<String> = Vec::new();
    let mut k: usize = 0;
    proof {
        assert(out.deep_view() =~~= spec_dedup(dv.take(0)));
    }
    while k < v.len()
        invariant
            k <= v@.len(),
            dv == v.deep_view(),
            dv.len() == v@.len(),
            forall|j: int| 0 <= j < v@.len() ==> dv[j] == v@[j]@,
            out.deep_view() == spec_dedup(dv.take(k as int)),
        decreases v@.len() - k,
    {
        let ghost prev = out.deep_view();
        let keep: bool = if k == 0 {
            true
        } else {
            !(v[k] == v[k - 1])
        };
        if keep {
            out.push(v[k].clone());
        }
        k = k + 1;
        proof {
            let taken = dv.take(k as int);
            assert(taken.drop_last() =~= dv.take(k - 1));
            assert(taken.last() == dv[k - 1]);
            if k == 1 {
                assert(taken =~= seq![dv[0]]);
                assert(spec_dedup(taken) =~= taken);
                assert(out.deep_view() =~~= prev.push(dv[k - 1]));
                assert(out.deep_view() =~~= spec_dedup(taken));
            } else {
                assert(taken[k - 2] == dv[k - 2]);
                if keep {
                    assert(out.deep_view() =~~= prev.push(dv[k - 1]));
                    assert(out.deep_view() =~~= spec_dedup(taken));
                } else {
                    assert(out.deep_view() =~~= spec_dedup(taken));
                }
            }
        }
    }
    proof {
        assert(dv.take(dv.len() as int) =~= dv);
    }
    out
}

/// Sort results ascending case-insensitively, drop adjacent duplicates,
/// and report the no-match message when nothing is left.
pub fn display_index_results(results: Vec<String>, search_term: &str) -> (r: Vec<String>)
    ensures
        r.deep_view() == spec_display(results.deep_view(), search_term@),
{
    let sorted = sort_lines(results);
    let deduped = dedup_lines(sorted);
    if deduped.len() == 0 {
        let mut msg = to_chars(search_term);
        let mut tail = to_chars(": nothing appropriate");
        msg.append(&mut tail);
        let line = chars_to_string(&msg);
        let mut out: Vec<String> = Vec::new();
        out.push(line);
        proof {
            assert(deduped.deep_view().len() == 0);
            assert(out.deep_view() =~~= spec_display(
                results.deep_view(),
                search_term@,
            ));
        }
        out
    } else {
        proof {
            assert(deduped.deep_view().len() != 0);
        }
        deduped
    }
}

/// Exact search: report every record whose page name equals the term,
/// formatted, sorted and deduplicated; or the no-match message.
pub fn index_whatis_search(index: &Index, search_term: &str) -> (r: Vec<String>)
    ensures
        r.deep_view() == spec_display(exact_lines(index@, search_term@), search_term@),
{
    let term = to_chars(search_term);
    let mut lines: Vec<String> = Vec::new();
    let mut i: usize = 0;
    proof {
        assert(lines.deep_view() =~~= exact_lines(index@.take(0), search_term@));
    }
    while i < index.records.len()
        invariant
            i <= index.records@.len(),
            index@.len() == index.records@.len(),
            term@ == search_term@,
            lines.deep_view() == exact_lines(index@.take(i as int), search_term@),
        decreases index.records@.len() - i,
    {
        let ghost prev = lines.deep_view();
        let rec = &index.records[i];
        let page = to_chars(rec.page.as_str());
        let matched = eq_chars(&page, &term);
        if matched {
            let section = to_chars(rec.section.as_str());
            let desc = to_chars(rec.description.as_str());
            let line = format_line_chars(&page, &section, &desc);
            lines.push(chars_to_string(&line));
        }
        i = i + 1;
        proof {
            let taken = index@.take(i as int);
            assert(taken.drop_last() =~= index@.take(i - 1));
            assert(taken.last() == index@[i - 1]);
            assert(index@[i - 1] == index.records@[i - 1]@);
            reveal(Seq::filter);
            let pred = |r: RecordView| r.page == search_term@;
            assert(matched == pred(index@[i - 1]));
            if matched {
                assert(lines.deep_view() =~~= prev.push(spec_record_line(index@[i - 1])));
                assert(taken.filter(pred) =~= index@.take(i - 1).filter(pred).push(
                    index@[i - 1],
                ));
                assert(lines.deep_view() =~~= exact_lines(taken, search_term@));
            } else {
                assert(taken.filter(pred) =~= index@.take(i - 1).filter(pred));
                assert(lines.deep_view() =~~= exact_lines(taken, search_term@));
            }
        }
    }
    proof {
        assert(index@.take(index@.len() as int) =~= index@);
    }
    display_index_results(lines, search_term)
}

/// Substring search: report every record whose page name or description
/// contains the term, formatted, sorted and deduplicated; or the no-match
/// message.
pub fn index_apropos_search(index: &Index, search_term: &str) -> (r: Vec<String>)
    ensures
        r.deep_view() == spec_display(apropos_lines(index@, search_term@), search_term@),
{
    let term = to_chars(search_term);
    let mut lines: Vec<String> = Vec::new();
    let mut i: usize = 0;
    proof {
        assert(lines.deep_view() =~~= apropos_lines(index@.take(0), search_term@));
    }
    while i < index.records.len()
        invariant
            i <= index.records@.len(),
            index@.len() == index.records@.len(),
            term@ == search_term@,
            lines.deep_view() == apropos_lines(index@.take(i as int), search_term@),
        decreases index.records@.len() - i,
    {
        let ghost prev = lines.deep_view();
        let rec = &index.records[i];
        let page = to_chars(rec.page.as_str());
        let desc = to_chars(rec.description.as_str());
        let matched = contains_exec(&page, &term) || contains_exec(&desc, &term);
        if matched {
            let section = to_chars(rec.section.as_str());
            let line = format_line_chars(&page, &section, &desc);
            lines.push(chars_to_string(&line));
        }
        i = i + 1;
        proof {
            let taken = index@.take(i as int);
            assert(taken.drop_last() =~= index@.take(i - 1));
            assert(taken.last() == index@[i - 1]);
            assert(index@[i - 1] == index.records@[i - 1]@);
            reveal(Seq::filter);
            let pred = |r: RecordView|
                contains_seq(r.page, search_term@) || contains_seq(r.description, search_term@);
            assert(matched == pred(index@[i - 1]));
            if matched {
                assert(lines.deep_view() =~~= prev.push(spec_record_line(index@[i - 1])));
                assert(taken.filter(pred) =~= index@.take(i - 1).filter(pred).push(
                    index@[i - 1],
                ));
                assert(lines.deep_view() =~~= apropos_lines(taken, search_term@));
            } else {
                assert(taken.filter(pred) =~= index@.take(i - 1).filter(pred));
                assert(lines.deep_view() =~~= apropos_lines(taken, search_term@));
            }
        }
    }
    proof {
        assert(index@.take(index@.len() as int) =~= index@);
    }
    display_index_results(lines, search_term)
}

/// Resolve a bare page name to the source path of its first section: the
/// case-insensitively smallest path among the exactly matching records.
pub fn first_section(index: &Index, page: &str) -> (r: Option<String>)
    ensures
        match r {
            Some(p) => spec_first_path(index@, page@) == Some(p@),
            None => spec_first_path(index@, page@) is None,
        },
{
    let term = to_chars(page);
    let mut paths: Vec<String> = Vec::new();
    let mut i: usize = 0;
    proof {
        assert(paths.deep_view() =~~= match_paths(index@.take(0), page@));
    }
    while i < index.records.len()
        invariant
            i <= index.records@.len(),
            index@.len() == index.records@.len(),
            term@ == page@,
            paths.deep_view() == match_paths(index@.take(i as int), page@),
        decreases index.records@.len() - i,
    {
        let ghost prev = paths.deep_view();
        let rec = &index.records[i];
        let pg = to_chars(rec.page.as_str());
        let matched = eq_chars(&pg, &term);
        if matched {
            paths.push(rec.file_path.clone());
        }
        i = i + 1;
        proof {
            let taken = index@.take(i as int);
            assert(taken.drop_last() =~= index@.take(i - 1));
            assert(taken.last() == index@[i - 1]);
            assert(index@[i - 1] == index.records@[i - 1]@);
            reveal(Seq::filter);
            let pred = |r: RecordView| r.page == page@;
            assert(matched == pred(index@[i - 1]));
            if matched {
                assert(paths.deep_view() =~~= prev.push(index@[i - 1].file_path));
                assert(taken.filter(pred) =~= index@.take(i - 1).filter(pred).push(
                    index@[i - 1],
                ));
                assert(paths.deep_view() =~~= match_paths(taken, page@));
            } else {
                assert(taken.filter(pred) =~= index@.take(i - 1).filter(pred));
                assert(paths.deep_view() =~~= match_paths(taken, page@));
            }
        }
    }
    proof {
        assert(index@.take(index@.len() as int) =~= index@);
    }
    let sorted = sort_lines(paths);
    if sorted.len() == 0 {
        proof {
            assert(match_paths(index@, page@).len() == sorted.deep_view().len());
        }
        None
    } else {
        proof {
            assert(sorted.deep_view()[0] == sorted@[0]@);
        }
        Some(sorted[0].clone())
    }
}

/// Ascending under the case-insensitive order at every adjacent pair.
pub open spec fn sorted_ci(s: Seq<Seq<char>>) -> bool {
    forall|i: int| 0 <= i < s.len() - 1 ==> ci_le(#[trigger] s[i], s[i + 1])
}

/// The case-insensitive order is total.
pub proof fn lemma_lex_total(a: Seq<char>, b: Seq<char>)
    ensures
        crate::text::lex_le(a, b) || crate::text::lex_le(b, a),
    decreases a.len(),
{
    if a.len() == 0 || b.len() == 0 {
    } else if a[0] != b[0] {
        if a[0] as u32 == b[0] as u32 {
            vstd::utf8::char_u32_cast(a[0], a[0] as u32);
            vstd::utf8::char_u32_cast(b[0], b[0] as u32);
        }
    } else {
        lemma_lex_total(a.drop_first(), b.drop_first());
    }
}

proof fn lemma_insert_ci_keeps_sorted(x: Seq<char>, s: Seq<Seq<char>>)
    requires
        sorted_ci(s),
    ensures
        sorted_ci(insert_ci(x, s)),
        insert_ci(x, s).len() == s.len() + 1,
        insert_ci(x, s)[0] == x || insert_ci(x, s)[0] == s[0],
    decreases s.len(),
{
    if s.len() == 0 {
    } else if ci_le(s[0], x) {
        let rest = s.drop_first();
        assert(forall|i: int| 0 <= i < rest.len() ==> rest[i] == s[i + 1]);
        lemma_insert_ci_keeps_sorted(x, rest);
        let inner = insert_ci(x, rest);
        let out = seq![s[0]] + inner;
        assert(forall|i: int| 0 <= i < inner.len() ==> out[i + 1] == inner[i]);
        if rest.len() == 0 {
            assert(inner[0] == x);
            assert(ci_le(s[0], out[1]));
        } else {
            assert(inner[0] == x || inner[0] == rest[0]);
            assert(ci_le(s[0], out[1]));
        }
        assert forall|i: int| 0 <= i < out.len() - 1 implies ci_le(#[trigger] out[i], out[i + 1]) by {
            if i > 0 {
                assert(out[i] == inner[i - 1] && out[i + 1] == inner[i]);
            }
        }
    } else {
        lemma_lex_total(crate::text::lower(x), crate::text::lower(s[0]));
        assert(ci_le(x, s[0]));
        let out = seq![x] + s;
        assert forall|i: int| 0 <= i < out.len() - 1 implies ci_le(#[trigger] out[i], out[i + 1]) by {
            if i > 0 {
                assert(out[i] == s[i - 1] && out[i + 1] == s[i]);
            }
        }
    }
}

/// A stable insertion sort really sorts: its result ascends at every
/// adjacent pair.
pub proof fn lemma_sort_ci_sorted(s: Seq<Seq<char>>)
    ensures
        sorted_ci(sort_ci(s)),
        sort_ci(s).len() == s.len(),
    decreases s.len(),
{
    if s.len() == 0 {
    } else {
        lemma_sort_ci_sorted(s.drop_last());
        lemma_insert_ci_keeps_sorted(s.last(), sort_ci(s.drop_last()));
    }
}

proof fn lemma_dedup_keeps_sorted(s: Seq<Seq<char>>)
    requires
        sorted_ci(s),
    ensures
        sorted_ci(spec_dedup(s)),
        forall|i: int|
            0 <= i < spec_dedup(s).len() - 1 ==> (#[trigger] spec_dedup(s)[i]) != spec_dedup(s)[i
                + 1],
        s.len() > 0 ==> spec_dedup(s).len() > 0 && spec_dedup(s).last() == s.last(),
    decreases s.len(),
{
    if s.len() <= 1 {
    } else {
        let front = s.drop_last();
        assert(forall|i: int| 0 <= i < front.len() ==> front[i] == s[i]);
        lemma_dedup_keeps_sorted(front);
        if s.last() == s[s.len() - 2] {
        } else {
            let d = spec_dedup(front);
            let out = d.push(s.last());
            assert(d.last() == front.last());
            assert(ci_le(s[s.len() - 2], s.last()));
            assert forall|i: int| 0 <= i < out.len() - 1 implies ci_le(
                #[trigger] out[i],
                out[i + 1],
            ) by {
                if i < d.len() - 1 {
                    assert(out[i] == d[i] && out[i + 1] == d[i + 1]);
                } else {
                    assert(out[i] == d.last() && out[i + 1] == s.last());
                }
            }
            assert forall|i: int| 0 <= i < out.len() - 1 implies (#[trigger] out[i]) != out[i
                + 1] by {
                if i < d.len() - 1 {
                    assert(out[i] == d[i] && out[i + 1] == d[i + 1]);
                } else {
                    assert(out[i] == d.last() && out[i + 1] == s.last());
                }
            }
        }
    }
}

/// What the engine reports for a non-empty result set ascends in the
/// case-insensitive order, and no two adjacent reported lines are equal:
/// sorting first is what makes the adjacent-duplicate removal complete.
pub proof fn lemma_results_sorted_and_deduped(rs: Seq<Seq<char>>)
    ensures
        sorted_ci(spec_dedup(sort_ci(rs))),
        forall|i: int|
            0 <= i < spec_dedup(sort_ci(rs)).len() - 1 ==> (#[trigger] spec_dedup(sort_ci(rs))[i])
                != spec_dedup(sort_ci(rs))[i + 1],
{
    lemma_sort_ci_sorted(rs);
    lemma_dedup_keeps_sorted(sort_ci(rs));
}

/// A filter keeps nothing when nothing satisfies the predicate.
proof fn lemma_filter_none(s: Seq<RecordView>, pred: spec_fn(RecordView) -> bool)
    requires
        forall|i: int| 0 <= i < s.len() ==> !pred(#[trigger] s[i]),
    ensures
        s.filter(pred) == Seq::<RecordView>::empty(),
    decreases s.len(),
{
    reveal(Seq::filter);
    if s.len() == 0 {
    } else {
        assert(forall|i: int| 0 <= i < s.drop_last().len() ==> s.drop_last()[i] == s[i]);
        lemma_filter_none(s.drop_last(), pred);
    }
}

/// A filter that everything satisfies keeps everything.
proof fn lemma_filter_all(s: Seq<RecordView>, pred: spec_fn(RecordView) -> bool)
    requires
        forall|i: int| 0 <= i < s.len() ==> pred(#[trigger] s[i]),
    ensures
        s.filter(pred) == s,
    decreases s.len(),
{
    reveal(Seq::filter);
    if s.len() == 0 {
    } else {
        assert(forall|i: int| 0 <= i < s.drop_last().len() ==> s.drop_last()[i] == s[i]);
        lemma_filter_all(s.drop_last(), pred);
        assert(s.filter(pred) =~= s);
    }
}

/// A filter that exactly one element satisfies keeps exactly that element.
proof fn lemma_filter_single(s: Seq<RecordView>, pred: spec_fn(RecordView) -> bool, i: int)
    requires
        0 <= i < s.len(),
        pred(s[i]),
        forall|j: int| 0 <= j < s.len() && j != i ==> !pred(#[trigger] s[j]),
    ensures
        s.filter(pred) == seq![s[i]],
    decreases s.len(),
{
    reveal(Seq::filter);
    if i == s.len() - 1 {
        assert(forall|j: int| 0 <= j < s.drop_last().len() ==> s.drop_last()[j] == s[j]);
        lemma_filter_none(s.drop_last(), pred);
        assert(s.filter(pred) =~= seq![s[i]]);
    } else {
        assert(!pred(s.last()));
        assert(forall|j: int| 0 <= j < s.drop_last().len() ==> s.drop_last()[j] == s[j]);
        lemma_filter_single(s.drop_last(), pred, i);
    }
}

/// A query term that no record matches exactly is answered by the single
/// no-match message and nothing else.
pub proof fn lemma_whatis_no_match(recs: Seq<RecordView>, term: Seq<char>)
    requires
        forall|i: int| 0 <= i < recs.len() ==> (#[trigger] recs[i]).page != term,
    ensures
        spec_display(exact_lines(recs, term), term) == seq![term + ": nothing appropriate"@],
{
    let pred = |r: RecordView| r.page == term;
    lemma_filter_none(recs, pred);
    assert(exact_lines(recs, term) =~= Seq::<Seq<char>>::empty());
    assert(sort_ci(exact_lines(recs, term)).len() == 0);
    assert(spec_dedup(sort_ci(exact_lines(recs, term))).len() == 0);
}

/// A query term contained in no record's page name or description is
/// answered by the single no-match message and nothing else.
pub proof fn lemma_apropos_no_match(recs: Seq<RecordView>, term: Seq<char>)
    requires
        forall|i: int|
            0 <= i < recs.len() ==> !contains_seq((#[trigger] recs[i]).page, term) && !contains_seq(
                recs[i].description,
                term,
            ),
    ensures
        spec_display(apropos_lines(recs, term), term) == seq![term + ": nothing appropriate"@],
{
    let pred = |r: RecordView| contains_seq(r.page, term) || contains_seq(r.description, term);
    lemma_filter_none(recs, pred);
    assert(apropos_lines(recs, term) =~= Seq::<Seq<char>>::empty());
    assert(sort_ci(apropos_lines(recs, term)).len() == 0);
    assert(spec_dedup(sort_ci(apropos_lines(recs, term))).len() == 0);
}

/// When exactly one record carries the page name, resolution yields that
/// record's source path.
pub proof fn lemma_single_match_resolution(recs: Seq<RecordView>, term: Seq<char>, i: int)
    requires
        0 <= i < recs.len(),
        recs[i].page == term,
        forall|j: int| 0 <= j < recs.len() && j != i ==> (#[trigger] recs[j]).page != term,
    ensures
        spec_first_path(recs, term) == Some(recs[i].file_path),
{
    let pred = |r: RecordView| r.page == term;
    lemma_filter_single(recs, pred, i);
    let mp = match_paths(recs, term);
    assert(mp =~= seq![recs[i].file_path]);
    assert(mp.drop_last() =~= Seq::<Seq<char>>::empty());
    assert(sort_ci(Seq::<Seq<char>>::empty()) == Seq::<Seq<char>>::empty());
    assert(sort_ci(mp) == insert_ci(recs[i].file_path, Seq::<Seq<char>>::empty()));
    assert(sort_ci(mp)[0] == recs[i].file_path);
}

/// When every record's page name or description contains the term, the
/// substring search selects every record's formatted line: none is
/// dropped before sorting and deduplication.
pub proof fn lemma_apropos_all_match(recs: Seq<RecordView>, term: Seq<char>)
    requires
        forall|i: int|
            0 <= i < recs.len() ==> contains_seq((#[trigger] recs[i]).page, term) || contains_seq(
                recs[i].description,
                term,
            ),
    ensures
        apropos_lines(recs, term) == recs.map_values(|r: RecordView| spec_record_line(r)),
{
    let pred = |r: RecordView| contains_seq(r.page, term) || contains_seq(r.description, term);
    lemma_filter_all(recs, pred);
}

/// A record whose page name contains the term is reported by the substring
/// search whatever its description holds — an empty description does not
/// exclude it.
pub proof fn lemma_page_match_included(recs: Seq<RecordView>, term: Seq<char>, i: int)
    requires
        0 <= i < recs.len(),
        contains_seq(recs[i].page, term),
    ensures
        apropos_lines(recs, term).contains(spec_record_line(recs[i])),
{
    let pred = |r: RecordView| contains_seq(r.page, term) || contains_seq(r.description, term);
    recs.lemma_filter_contains(pred, i);
    let f = recs.filter(pred);
    let k = choose|k: int| 0 <= k < f.len() && f[k] == recs[i];
    assert(apropos_lines(recs, term)[k] == spec_record_line(recs[i]));
}

} // verus!

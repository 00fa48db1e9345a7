//! The index: one record per discovered document, with identifiers assigned
//! sequentially from 1 in scan order, and the derivation of a record's page
//! name and section label from the document's file name.
use vstd::prelude::*;

use crate::text::{
    after_last, chars_to_string, contains_seq, copy_range, find_last, find_last_exec,
    lemma_find_last_before, lemma_find_last_contains, lower, lower_vec, to_chars,
};

verus! {

/// One entry of the index: a document's page name, section label, one-line
/// description and source path, under a numeric identifier.
#[derive(Clone, Debug, PartialEq, Eq)]
pub struct IndexRecord {
    pub id: u32,
    pub page: String,
    pub section: String,
    pub description: String,
    pub file_path: String,
}

/// The mathematical content of a record: its identifier and the character
/// sequences of its text fields.
pub struct RecordView {
    pub id: u32,
    pub page: Seq<char>,
    pub section: Seq<char>,
    pub description: Seq<char>,
    pub file_path: Seq<char>,
}

impl View for IndexRecord {
    type V = RecordView;

    open spec fn view(&self) -> RecordView {
        RecordView {
            id: self.id,
            page: self.page@,
            section: self.section@,
            description: self.description@,
            file_path: self.file_path@,
        }
    }
}

/// The views of a sequence of records.
pub open spec fn records_view(rs: Seq<IndexRecord>) -> Seq<RecordView> {
    Seq::new(rs.len(), |i: int| rs[i]@)
}

/// The index of all discovered documents, in scan order.
#[derive(Clone, Debug, PartialEq, Eq)]
pub struct Index {
    pub records: Vec<IndexRecord>,
}

impl View for Index {
    type V = Seq<RecordView>;

    open spec fn view(&self) -> Seq<RecordView> {
        records_view(self.records@)
    }
}

/// Identifiers are unique and contiguous from 1 in record order.
pub open spec fn index_wf(v: Seq<RecordView>) -> bool {
    forall|i: int| 0 <= i < v.len() ==> (#[trigger] v[i].id) as int == i + 1
}

/// The file name part of a path: everything after the last separator.
pub open spec fn filename_of(p: Seq<char>) -> Seq<char> {
    after_last(p, "/"@)
}

/// The file name with every trailing compression extension removed.
pub open spec fn strip_gz(f: Seq<char>) -> Seq<char>
    decreases f.len(),
{
    if f.len() >= 3 && f[f.len() - 3] == '.' && f[f.len() - 2] == 'g' && f[f.len() - 1] == 'z' {
        strip_gz(f.take(f.len() - 3))
    } else {
        f
    }
}

/// The stripped file name of a path.
pub open spec fn base_of(p: Seq<char>) -> Seq<char> {
    strip_gz(filename_of(p))
}

/// A path parses into a page name and a section label when its stripped
/// file name still carries a section suffix after a dot.
pub open spec fn path_parses(p: Seq<char>) -> bool {
    contains_seq(base_of(p), seq!['.'])
}

/// The page name: the stripped file name up to its last dot.
pub open spec fn page_of(p: Seq<char>) -> Seq<char> {
    base_of(p).take(find_last(base_of(p), seq!['.']))
}

/// The section label: the stripped file name after its last dot.
pub open spec fn section_of(p: Seq<char>) -> Seq<char> {
    after_last(base_of(p), seq!['.'])
}

/// Split a path's file name into page name and section label, when the
/// file name carries a section suffix.
pub fn page_and_section(path: &Vec<char>) -> (r: Option<(Vec<char>, Vec<char>)>)
    ensures
        match r {
            Some(ps) => path_parses(path@) && ps.0@ == page_of(path@) && ps.1@ == section_of(
                path@,
            ),
            None => !path_parses(path@),
        },
{
    let mut slash: Vec<char> = Vec::new();
    slash.push('/');
    proof {
        assert(slash@ =~= "/"@) by {
            reveal_strlit("/");
        }
    }
    let filename = crate::text::after_last_exec(path, &slash);
    let mut base = filename;
    while base.len() >= 3 && base[base.len() - 3] == '.' && base[base.len() - 2] == 'g'
        && base[base.len() - 1] == 'z'
        invariant
            strip_gz(base@) == strip_gz(filename_of(path@)),
        decreases base@.len(),
    {
        let ghost prev = base@;
        let n = base.len() - 3;
        base.truncate(n);
        proof {
            assert(strip_gz(prev) == strip_gz(base@));
        }
    }
    proof {
        assert(strip_gz(base@) == base@);
        assert(base@ == base_of(path@));
    }
    let mut dot: Vec<char> = Vec::new();
    dot.push('.');
    proof {
        assert(dot@ =~= seq!['.']);
    }
    match find_last_exec(&base, &dot) {
        None => {
            proof {
                lemma_find_last_contains(base@, dot@);
            }
            None
        },
        Some(i) => {
            proof {
                lemma_find_last_contains(base@, dot@);
                lemma_find_last_before(base@, dot@, base@.len() - dot@.len());
            }
            let page = copy_range(&base, 0, i);
            let section = copy_range(&base, i + 1, base.len());
            proof {
                assert(page@ =~= page_of(path@));
                assert(section@ =~= section_of(path@));
            }
            Some((page, section))
        },
    }
}

/// The records built from `(path, description)` items from `i` on, with the
/// next identifier `next_id`: one record per parseable path, in order, its
/// page name lowercased.
pub open spec fn spec_build_from(
    items: Seq<(Seq<char>, Seq<char>)>,
    i: int,
    next_id: int,
) -> Seq<RecordView>
    decreases items.len() + 1 - i,
    when 0 <= i
{
    if i >= items.len() {
        Seq::empty()
    } else {
        let p = items[i].0;
        let d = items[i].1;
        if path_parses(p) {
            seq![
                RecordView {
                    id: next_id as u32,
                    page: lower(page_of(p)),
                    section: section_of(p),
                    description: d,
                    file_path: p,
                },
            ] + spec_build_from(items, i + 1, next_id + 1)
        } else {
            spec_build_from(items, i + 1, next_id)
        }
    }
}

/// The complete index contents built from scanned items.
pub open spec fn spec_build(items: Seq<(Seq<char>, Seq<char>)>) -> Seq<RecordView> {
    spec_build_from(items, 0, 1)
}

pub proof fn lemma_build_from_ids(items: Seq<(Seq<char>, Seq<char>)>, i: int, next_id: int)
    requires
        0 <= i <= items.len(),
        1 <= next_id,
        next_id + items.len() - i <= u32::MAX + 1,
    ensures
        forall|k: int|
            0 <= k < spec_build_from(items, i, next_id).len()
                ==> (#[trigger] spec_build_from(items, i, next_id)[k].id) as int == next_id + k,
        spec_build_from(items, i, next_id).len() <= items.len() - i,
    decreases items.len() + 1 - i,
{
    if i >= items.len() {
    } else {
        let p = items[i].0;
        let d = items[i].1;
        if path_parses(p) {
            lemma_build_from_ids(items, i + 1, next_id + 1);
            let head = seq![
                RecordView {
                    id: next_id as u32,
                    page: lower(page_of(p)),
                    section: section_of(p),
                    description: d,
                    file_path: p,
                },
            ];
            let tail = spec_build_from(items, i + 1, next_id + 1);
            assert(spec_build_from(items, i, next_id) == head + tail);
            assert((head + tail).len() == 1 + tail.len());
            assert forall|k: int| 0 <= k < (head + tail).len()
                implies ((head + tail)[k].id) as int == next_id + k by {
                if k == 0 {
                    assert((head + tail)[0] == head[0]);
                } else {
                    assert((head + tail)[k] == tail[k - 1]);
                }
            }
        } else {
            lemma_build_from_ids(items, i + 1, next_id);
        }
    }
}

/// Identifiers of a freshly built index are unique and contiguous from 1
/// in scan order.
pub proof fn lemma_build_ids(items: Seq<(Seq<char>, Seq<char>)>)
    requires
        items.len() <= u32::MAX,
    ensures
        index_wf(spec_build(items)),
{
    lemma_build_from_ids(items, 0, 1);
}

/// Every parseable scanned item yields a record carrying exactly its
/// lowercased page name, section label, description and path — an empty
/// description does not exclude a document from the index.
pub proof fn lemma_parseable_item_indexed(items: Seq<(Seq<char>, Seq<char>)>, i: int)
    requires
        0 <= i < items.len(),
        path_parses(items[i].0),
    ensures
        exists|k: int|
            0 <= k < spec_build(items).len() && (#[trigger] spec_build(items)[k]).page == lower(
                page_of(items[i].0),
            ) && spec_build(items)[k].section == section_of(items[i].0) && spec_build(
                items,
            )[k].description == items[i].1 && spec_build(items)[k].file_path == items[i].0,
{
    lemma_parseable_item_indexed_from(items, i, 0, 1);
    let built = spec_build_from(items, 0, 1);
    let k = choose|k: int|
        0 <= k < built.len() && (#[trigger] built[k]).page == lower(page_of(items[i].0))
            && built[k].section == section_of(items[i].0) && built[k].description == items[i].1
            && built[k].file_path == items[i].0;
    assert(spec_build(items)[k] == built[k]);
}

proof fn lemma_parseable_item_indexed_from(
    items: Seq<(Seq<char>, Seq<char>)>,
    i: int,
    j: int,
    next_id: int,
)
    requires
        0 <= j <= i < items.len(),
        path_parses(items[i].0),
    ensures
        exists|k: int|
            0 <= k < spec_build_from(items, j, next_id).len() && (#[trigger] spec_build_from(
                items,
                j,
                next_id,
            )[k]).page == lower(page_of(items[i].0)) && spec_build_from(
                items,
                j,
                next_id,
            )[k].section == section_of(items[i].0) && spec_build_from(
                items,
                j,
                next_id,
            )[k].description == items[i].1 && spec_build_from(items, j, next_id)[k].file_path
                == items[i].0,
    decreases items.len() - j,
{
    let out = spec_build_from(items, j, next_id);
    if j == i {
        assert(out[0].page == lower(page_of(items[i].0)));
    } else {
        let p = items[j].0;
        if path_parses(p) {
            lemma_parseable_item_indexed_from(items, i, j + 1, next_id + 1);
            let tail = spec_build_from(items, j + 1, next_id + 1);
            let k = choose|k: int|
                0 <= k < tail.len() && (#[trigger] tail[k]).page == lower(page_of(items[i].0))
                    && tail[k].section == section_of(items[i].0) && tail[k].description
                    == items[i].1 && tail[k].file_path == items[i].0;
            assert(out[k + 1] == tail[k]);
        } else {
            lemma_parseable_item_indexed_from(items, i, j + 1, next_id);
        }
    }
}

/// Build the index from scanned `(path, description)` pairs, assigning
/// identifiers sequentially from 1 in scan order, lowercasing each page
/// name, and skipping entries whose file name does not parse.
pub fn build_index(entries: Vec<(String, String)>) -> (r: Index)
    requires
        entries@.len() <= u32::MAX,
    ensures
        r@ == spec_build(
            Seq::new(entries@.len(), |i: int| (entries@[i].0@, entries@[i].1@)),
        ),
        index_wf(r@),
{
    let ghost items = Seq::new(entries@.len(), |i: int| (entries@[i].0@, entries@[i].1@));
    let mut records: Vec<IndexRecord> = Vec::new();
    let mut i: usize = 0;
    while i < entries.len()
        invariant
            i <= entries@.len(),
            entries@.len() <= u32::MAX,
            items == Seq::new(entries@.len(), |k: int| (entries@[k].0@, entries@[k].1@)),
            records@.len() <= i,
            records_view(records@) + spec_build_from(items, i as int, records@.len() as int + 1)
                =~= spec_build(items),
        decreases entries@.len() - i,
    {
        let ghost prev = records_view(records@);
        let path_chars = to_chars(entries[i].0.as_str());
        match page_and_section(&path_chars) {
            None => {},
            Some(ps) => {
                let (page, section) = ps;
                let page_lower = lower_vec(&page);
                let rec = IndexRecord {
                    id: (records.len() as u32) + 1,
                    page: chars_to_string(&page_lower),
                    section: chars_to_string(&section),
                    description: entries[i].1.clone(),
                    file_path: entries[i].0.clone(),
                };
                records.push(rec);
                proof {
                    assert(records_view(records@) =~= prev.push(records@.last()@));
                }
            },
        }
        i = i + 1;
    }
    proof {
        assert(spec_build_from(items, i as int, records@.len() as int + 1) =~= Seq::<RecordView>::empty());
        assert(records_view(records@) =~= spec_build(items));
        lemma_build_ids(items);
    }
    Index { records }
}

} // verus!

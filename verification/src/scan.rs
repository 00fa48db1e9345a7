//! The document scanner's pure half: deciding which file names denote
//! compressed documents, reading the section digit out of a name, and
//! ordering scanned paths by ascending section digit while keeping
//! encounter order within a section.
use vstd::prelude::*;

use crate::index::filename_of;
use crate::text::to_chars;

verus! {

/// An ASCII letter.
pub open spec fn is_alpha(c: char) -> bool {
    ('a' <= c && c <= 'z') || ('A' <= c && c <= 'Z')
}

/// A section digit, 1 through 9.
pub open spec fn is_digit19(c: char) -> bool {
    '1' <= c && c <= '9'
}

/// Start of the maximal run of ASCII letters that ends just before `j`.
pub open spec fn alpha_run_start(f: Seq<char>, j: int) -> int
    decreases j,
    when j <= f.len()
{
    if 0 < j && j <= f.len() && is_alpha(f[j - 1]) {
        alpha_run_start(f, j - 1)
    } else {
        j
    }
}

/// A file name of the form `<name>.<digit 1-9><letters>.gz`: it ends with
/// the compression extension, preceded by an optional run of letters, a
/// section digit and a dot.
pub open spec fn is_doc_name(f: Seq<char>) -> bool {
    f.len() >= 5 && f[f.len() - 3] == '.' && f[f.len() - 2] == 'g' && f[f.len() - 1] == 'z' && {
        let p = alpha_run_start(f, f.len() - 3) - 1;
        p >= 1 && is_digit19(f[p]) && f[p - 1] == '.'
    }
}

/// The numeric section digit of a document file name.
pub open spec fn section_digit(f: Seq<char>) -> int {
    (f[alpha_run_start(f, f.len() - 3) - 1] as u32 - '0' as u32) as int
}

/// A full path whose file name denotes a document.
pub open spec fn entry_is_doc(p: Seq<char>) -> bool {
    is_doc_name(filename_of(p))
}

/// The numeric section digit of a document path.
pub open spec fn doc_digit(p: Seq<char>) -> int {
    section_digit(filename_of(p))
}

/// The document paths of section `d`, in encounter order.
pub open spec fn bucket(ps: Seq<Seq<char>>, d: int) -> Seq<Seq<char>> {
    ps.filter(|p: Seq<char>| entry_is_doc(p) && doc_digit(p) == d)
}

/// All document paths, ordered by ascending section digit, with encounter
/// order kept within each section.
pub open spec fn spec_scan_sorted(ps: Seq<Seq<char>>) -> Seq<Seq<char>> {
    bucket(ps, 1) + bucket(ps, 2) + bucket(ps, 3) + bucket(ps, 4) + bucket(ps, 5) + bucket(ps, 6)
        + bucket(ps, 7) + bucket(ps, 8) + bucket(ps, 9)
}

fn is_alpha_exec(c: char) -> (r: bool)
    ensures
        r == is_alpha(c),
{
    ('a' <= c && c <= 'z') || ('A' <= c && c <= 'Z')
}

/// The section digit of a document file name, or nothing when the name
/// does not denote a document.
pub fn doc_section_digit(name: &Vec<char>) -> (r: Option<u8>)
    ensures
        match r {
            Some(d) => is_doc_name(name@) && d as int == section_digit(name@) && 1 <= d <= 9,
            None => !is_doc_name(name@),
        },
{
    if name.len() < 5 {
        return None;
    }
    let n = name.len();
    if !(name[n - 3] == '.' && name[n - 2] == 'g' && name[n - 1] == 'z') {
        return None;
    }
    let mut j: usize = n - 3;
    while j > 0 && is_alpha_exec(name[j - 1])
        invariant
            j <= name@.len(),
            n == name@.len(),
            alpha_run_start(name@, n - 3) == alpha_run_start(name@, j as int),
        decreases j,
    {
        j = j - 1;
    }
    proof {
        assert(alpha_run_start(name@, j as int) == j as int);
    }
    if j < 2 {
        return None;
    }
    let c = name[j - 1];
    if !('1' <= c && c <= '9') {
        return None;
    }
    if name[j - 2] != '.' {
        return None;
    }
    let d: u8 = (c as u8) - 48;
    proof {
        assert(is_doc_name(name@));
        assert(d as int == section_digit(name@));
    }
    Some(d)
}

/// Keep the paths whose file names denote documents, ordered by ascending
/// numeric section digit; paths that share a digit keep their encounter
/// order.
pub fn list_all_sections(paths: &Vec<String>) -> (r: Vec<String>)
    ensures
        r.deep_view() == spec_scan_sorted(paths.deep_view()),
{
    let ghost dv = paths.deep_view();
    proof {
        assert forall|k: int| 0 <= k < paths@.len() implies dv[k] == paths@[k]@ by {}
        assert(dv.len() == paths@.len());
    }
    let mut out: Vec<String> = Vec::new();
    proof {
        assert(out.deep_view() =~~= prefix_buckets(dv, 1));
    }
    let mut d: u8 = 1;
    while d <= 9
        invariant
            1 <= d <= 10,
            dv == paths.deep_view(),
            dv.len() == paths@.len(),
            forall|k: int| 0 <= k < paths@.len() ==> dv[k] == paths@[k]@,
            out.deep_view() == prefix_buckets(dv, d as int),
        decreases 10 - d,
    {
        let ghost before = out.deep_view();
        let mut i: usize = 0;
        while i < paths.len()
            invariant
                i <= paths@.len(),
                1 <= d <= 9,
                dv == paths.deep_view(),
                dv.len() == paths@.len(),
                forall|k: int| 0 <= k < paths@.len() ==> dv[k] == paths@[k]@,
                before == prefix_buckets(dv, d as int),
                out.deep_view() == before + bucket(dv.take(i as int), d as int),
            decreases paths@.len() - i,
        {
            let ghost prev_out = out.deep_view();
            let path_chars = to_chars(paths[i].as_str());
            let mut slash: Vec<char> = Vec::new();
            slash.push('/');
            proof {
                assert(slash@ =~= "/"@) by {
                    reveal_strlit("/");
                }
            }
            let fname = crate::text::after_last_exec(&path_chars, &slash);
            let keep: bool = match doc_section_digit(&fname) {
                Some(fd) => fd == d,
                None => false,
            };
            if keep {
                out.push(paths[i].clone());
                proof {
                    assert(out.deep_view() =~~= prev_out.push(dv[i as int]));
                }
            }
            i = i + 1;
            proof {
                let taken = dv.take(i as int);
                assert(taken.drop_last() =~= dv.take(i - 1));
                assert(taken.last() == dv[i - 1]);
                assert(fname@ == filename_of(dv[i - 1]));
                assert(keep == (entry_is_doc(dv[i - 1]) && doc_digit(dv[i - 1]) == d as int));
                reveal(Seq::filter);
                if keep {
                    assert(bucket(taken, d as int)
                        =~= bucket(dv.take(i - 1), d as int).push(dv[i - 1]));
                    assert(out.deep_view() =~~= before + bucket(taken, d as int));
                } else {
                    assert(bucket(taken, d as int) =~= bucket(dv.take(i - 1), d as int));
                    assert(out.deep_view() =~~= before + bucket(taken, d as int));
                }
            }
        }
        proof {
            assert(dv.take(dv.len() as int) =~= dv);
            assert(out.deep_view() =~~= prefix_buckets(dv, d as int + 1));
        }
        d = d + 1;
    }
    proof {
        reveal_with_fuel(prefix_buckets, 11);
        assert(prefix_buckets(dv, 10) =~~= spec_scan_sorted(dv));
    }
    out
}

/// The concatenation of the buckets for digits below `d`.
pub open spec fn prefix_buckets(ps: Seq<Seq<char>>, d: int) -> Seq<Seq<char>>
    decreases d,
{
    if d <= 1 {
        Seq::empty()
    } else {
        prefix_buckets(ps, d - 1) + bucket(ps, d - 1)
    }
}

} // verus!

//! The store codec: the index serialized to a single binary blob and read
//! back. Integers are little-endian, each character is stored as its code
//! point, and every variable-length field is length-prefixed, so decoding
//! inverts encoding exactly.
use vstd::prelude::*;

use crate::index::{records_view, Index, IndexRecord, RecordView};
use crate::text::{chars_to_string, to_chars};

verus! {

/// Little-endian bytes of a 64-bit integer.
pub open spec fn enc_u64(v: u64) -> Seq<u8> {
    seq![
        (v & 0xff) as u8,
        ((v >> 8) & 0xff) as u8,
        ((v >> 16) & 0xff) as u8,
        ((v >> 24) & 0xff) as u8,
        ((v >> 32) & 0xff) as u8,
        ((v >> 40) & 0xff) as u8,
        ((v >> 48) & 0xff) as u8,
        ((v >> 56) & 0xff) as u8,
    ]
}

/// The 64-bit integer read from eight little-endian bytes.
pub open spec fn dec_u64(b: Seq<u8>) -> u64 {
    ((b[0] as u64) | ((b[1] as u64) << 8) | ((b[2] as u64) << 16) | ((b[3] as u64) << 24) | (
    (b[4] as u64) << 32) | ((b[5] as u64) << 40) | ((b[6] as u64) << 48) | ((b[7] as u64) << 56))
        as u64
}

/// Every character's code point avoids the surrogate range and stays
/// within the largest scalar value.
pub proof fn lemma_char_bounds(c: char)
    ensures
        c as u32 <= 0x10FFFF,
        c as u32 <= 0xD7FF || c as u32 >= 0xE000,
{
}

pub proof fn lemma_u64_round(v: u64)
    ensures
        dec_u64(enc_u64(v)) == v,
{
    let b = enc_u64(v);
    assert(((((v & 0xff) as u8) as u64) | ((((v >> 8) & 0xff) as u8) as u64) << 8 | ((((v >> 16)
        & 0xff) as u8) as u64) << 16 | ((((v >> 24) & 0xff) as u8) as u64) << 24 | ((((v >> 32)
        & 0xff) as u8) as u64) << 32 | ((((v >> 40) & 0xff) as u8) as u64) << 40 | ((((v >> 48)
        & 0xff) as u8) as u64) << 48 | ((((v >> 56) & 0xff) as u8) as u64) << 56) == v)
        by (bit_vector);
}

/// A code point that denotes a character: not a surrogate and not beyond
/// the largest scalar value.
pub open spec fn valid_code(u: u32) -> bool {
    u <= 0xD7FF || (0xE000 <= u && u <= 0x10FFFF)
}

/// Turn a code point back into a character.
///
/// Relies on std's `char::from_u32`: it returns the character with the
/// given code point, and nothing exactly for surrogates and values beyond
/// the largest scalar value.
#[verifier::external_body]
fn char_from_u32(u: u32) -> (r: Option<char>)
    ensures
        r is Some <==> valid_code(u),
        r matches Some(c) ==> c as u32 == u,
{
    char::from_u32(u)
}

/// The bytes of a character sequence: each code point in four
/// little-endian bytes.
pub open spec fn enc_chars(s: Seq<char>) -> Seq<u8>
    decreases s.len(),
{
    if s.len() == 0 {
        Seq::empty()
    } else {
        seq![
            ((s[0] as u32) & 0xff) as u8,
            (((s[0] as u32) >> 8) & 0xff) as u8,
            (((s[0] as u32) >> 16) & 0xff) as u8,
            (((s[0] as u32) >> 24) & 0xff) as u8,
        ] + enc_chars(s.drop_first())
    }
}

/// The bytes of a text field: its length, then its characters.
pub open spec fn enc_str(s: Seq<char>) -> Seq<u8> {
    enc_u64(s.len() as u64) + enc_chars(s)
}

/// The bytes of one record: identifier, then the four text fields.
pub open spec fn enc_rec(rv: RecordView) -> Seq<u8> {
    enc_u64(rv.id as u64) + enc_str(rv.page) + enc_str(rv.section) + enc_str(rv.description)
        + enc_str(rv.file_path)
}

/// The bytes of the records in order.
pub open spec fn enc_recs(v: Seq<RecordView>) -> Seq<u8>
    decreases v.len(),
{
    if v.len() == 0 {
        Seq::empty()
    } else {
        enc_rec(v[0]) + enc_recs(v.drop_first())
    }
}

/// The bytes of the whole index: the record count, then the records.
pub open spec fn enc_index(v: Seq<RecordView>) -> Seq<u8> {
    enc_u64(v.len() as u64) + enc_recs(v)
}

/// Read a 64-bit integer at `p`, with the next position.
pub open spec fn dec_u64_at(b: Seq<u8>, p: int) -> Option<(u64, int)> {
    if 0 <= p && p + 8 <= b.len() {
        Some((dec_u64(b.subrange(p, p + 8)), p + 8))
    } else {
        None
    }
}

/// The code point at `p`.
pub open spec fn dec_u32_at(b: Seq<u8>, p: int) -> u32 {
    ((b[p] as u32) | ((b[p + 1] as u32) << 8) | ((b[p + 2] as u32) << 16) | ((b[p + 3] as u32)
        << 24)) as u32
}

/// Read one character at `p`, with the next position.
pub open spec fn dec_char_at(b: Seq<u8>, p: int) -> Option<(char, int)> {
    if 0 <= p && p + 4 <= b.len() && valid_code(dec_u32_at(b, p)) {
        Some(((dec_u32_at(b, p) as char), p + 4))
    } else {
        None
    }
}

/// Read `n` characters at `p`, with the next position.
pub open spec fn dec_chars_at(b: Seq<u8>, p: int, n: int) -> Option<(Seq<char>, int)>
    decreases n,
{
    if n <= 0 {
        Some((Seq::empty(), p))
    } else {
        match dec_char_at(b, p) {
            None => None,
            Some((c, q)) => match dec_chars_at(b, q, n - 1) {
                None => None,
                Some((s, e)) => Some((seq![c] + s, e)),
            },
        }
    }
}

/// Read a text field at `p`, with the next position.
pub open spec fn dec_str_at(b: Seq<u8>, p: int) -> Option<(Seq<char>, int)> {
    match dec_u64_at(b, p) {
        None => None,
        Some((n, q)) => dec_chars_at(b, q, n as int),
    }
}

/// Read one record at `p`, with the next position.
pub open spec fn dec_rec_at(b: Seq<u8>, p: int) -> Option<(RecordView, int)> {
    match dec_u64_at(b, p) {
        None => None,
        Some((id, q1)) => if id <= u32::MAX as u64 {
            match dec_str_at(b, q1) {
                None => None,
                Some((page, q2)) => match dec_str_at(b, q2) {
                    None => None,
                    Some((section, q3)) => match dec_str_at(b, q3) {
                        None => None,
                        Some((description, q4)) => match dec_str_at(b, q4) {
                            None => None,
                            Some((file_path, q5)) => Some(
                                (
                                    RecordView {
                                        id: id as u32,
                                        page,
                                        section,
                                        description,
                                        file_path,
                                    },
                                    q5,
                                ),
                            ),
                        },
                    },
                },
            }
        } else {
            None
        },
    }
}

/// Read `n` records at `p`, with the next position.
pub open spec fn dec_recs_at(b: Seq<u8>, p: int, n: int) -> Option<(Seq<RecordView>, int)>
    decreases n,
{
    if n <= 0 {
        Some((Seq::empty(), p))
    } else {
        match dec_rec_at(b, p) {
            None => None,
            Some((rv, q)) => match dec_recs_at(b, q, n - 1) {
                None => None,
                Some((v, e)) => Some((seq![rv] + v, e)),
            },
        }
    }
}

/// Decode a whole blob: the record count, then exactly that many records,
/// consuming every byte.
pub open spec fn dec_index(b: Seq<u8>) -> Option<Seq<RecordView>> {
    match dec_u64_at(b, 0) {
        None => None,
        Some((n, q)) => match dec_recs_at(b, q, n as int) {
            None => None,
            Some((v, e)) => if e == b.len() {
                Some(v)
            } else {
                None
            },
        },
    }
}

/// Every length stored in the blob fits its length prefix.
pub open spec fn enc_sizes_ok(v: Seq<RecordView>) -> bool {
    v.len() <= u64::MAX && forall|i: int|
        0 <= i < v.len() ==> (#[trigger] v[i]).page.len() <= u64::MAX && v[i].section.len()
            <= u64::MAX && v[i].description.len() <= u64::MAX && v[i].file_path.len() <= u64::MAX
}

/// Splitting a decoded window: when a range of `b` holds `x + y`, its two
/// halves hold `x` and `y`.
pub proof fn lemma_split(b: Seq<u8>, p: int, x: Seq<u8>, y: Seq<u8>)
    requires
        0 <= p,
        p + x.len() + y.len() <= b.len(),
        b.subrange(p, p + x.len() + y.len()) == x + y,
    ensures
        b.subrange(p, p + x.len() as int) == x,
        b.subrange(p + x.len() as int, p + x.len() + y.len()) == y,
{
    let whole = b.subrange(p, p + x.len() + y.len());
    assert forall|i: int| 0 <= i < x.len() implies b.subrange(p, p + x.len() as int)[i] == x[i] by {
        assert(whole[i] == (x + y)[i]);
    }
    assert(b.subrange(p, p + x.len() as int) =~= x);
    assert forall|i: int|
        0 <= i < y.len() implies b.subrange(p + x.len() as int, p + x.len() + y.len())[i]
        == y[i] by {
        assert(whole[x.len() + i] == (x + y)[x.len() + i]);
    }
    assert(b.subrange(p + x.len() as int, p + x.len() + y.len()) =~= y);
}

pub proof fn lemma_dec_u64_prefix(b: Seq<u8>, p: int, v: u64)
    requires
        0 <= p,
        p + 8 <= b.len(),
        b.subrange(p, p + 8) == enc_u64(v),
    ensures
        dec_u64_at(b, p) == Some((v, p + 8)),
{
    lemma_u64_round(v);
}

pub proof fn lemma_dec_chars_prefix(b: Seq<u8>, p: int, s: Seq<char>)
    requires
        0 <= p,
        p + 4 * s.len() <= b.len(),
        b.subrange(p, p + 4 * s.len()) == enc_chars(s),
    ensures
        dec_chars_at(b, p, s.len() as int) == Some((s, p + 4 * s.len())),
    decreases s.len(),
{
    if s.len() == 0 {
    } else {
        let u = s[0] as u32;
        let head = seq![
            (u & 0xff) as u8,
            ((u >> 8) & 0xff) as u8,
            ((u >> 16) & 0xff) as u8,
            ((u >> 24) & 0xff) as u8,
        ];
        let rest = s.drop_first();
        lemma_enc_chars_len(rest);
        assert(enc_chars(s) == head + enc_chars(rest));
        lemma_split(b, p, head, enc_chars(rest));
        assert(b[p] == head[0] && b[p + 1] == head[1] && b[p + 2] == head[2] && b[p + 3]
            == head[3]) by {
            let pre = b.subrange(p, p + 4);
            assert(pre[0] == b[p] && pre[1] == b[p + 1] && pre[2] == b[p + 2] && pre[3] == b[p
                + 3]);
        }
        assert(((((u & 0xff) as u8) as u32) | ((((u >> 8) & 0xff) as u8) as u32) << 8 | ((((u
            >> 16) & 0xff) as u8) as u32) << 16 | ((((u >> 24) & 0xff) as u8) as u32) << 24) == u)
            by (bit_vector);
        assert(dec_u32_at(b, p) == u);
        lemma_char_bounds(s[0]);
        assert(valid_code(u));
        vstd::utf8::char_u32_cast(s[0], u);
        assert((dec_u32_at(b, p) as char) == s[0]);
        assert(dec_char_at(b, p) == Some((s[0], p + 4)));
        lemma_dec_chars_prefix(b, p + 4, rest);
        assert(seq![s[0]] + rest =~= s);
    }
}

pub proof fn lemma_enc_chars_len(s: Seq<char>)
    ensures
        enc_chars(s).len() == 4 * s.len(),
    decreases s.len(),
{
    if s.len() == 0 {
    } else {
        lemma_enc_chars_len(s.drop_first());
    }
}

pub proof fn lemma_dec_str_prefix(b: Seq<u8>, p: int, s: Seq<char>)
    requires
        0 <= p,
        s.len() <= u64::MAX,
        p + enc_str(s).len() <= b.len(),
        b.subrange(p, p + enc_str(s).len()) == enc_str(s),
    ensures
        enc_str(s).len() == 8 + 4 * s.len(),
        dec_str_at(b, p) == Some((s, p + enc_str(s).len())),
{
    lemma_enc_chars_len(s);
    let n = s.len() as u64;
    lemma_split(b, p, enc_u64(n), enc_chars(s));
    lemma_dec_u64_prefix(b, p, n);
    lemma_dec_chars_prefix(b, p + 8, s);
}

pub proof fn lemma_rec_sizes(rv: RecordView)
    requires
        rv.page.len() <= u64::MAX,
        rv.section.len() <= u64::MAX,
        rv.description.len() <= u64::MAX,
        rv.file_path.len() <= u64::MAX,
    ensures
        enc_rec(rv).len() == 8 + (8 + 4 * rv.page.len()) + (8 + 4 * rv.section.len()) + (8 + 4
            * rv.description.len()) + (8 + 4 * rv.file_path.len()),
{
    lemma_enc_chars_len(rv.page);
    lemma_enc_chars_len(rv.section);
    lemma_enc_chars_len(rv.description);
    lemma_enc_chars_len(rv.file_path);
}

#[verifier::rlimit(60)]
pub proof fn lemma_dec_rec_prefix(b: Seq<u8>, p: int, rv: RecordView)
    requires
        0 <= p,
        rv.page.len() <= u64::MAX,
        rv.section.len() <= u64::MAX,
        rv.description.len() <= u64::MAX,
        rv.file_path.len() <= u64::MAX,
        p + enc_rec(rv).len() <= b.len(),
        b.subrange(p, p + enc_rec(rv).len()) == enc_rec(rv),
    ensures
        dec_rec_at(b, p) == Some((rv, p + enc_rec(rv).len())),
{
    lemma_rec_sizes(rv);
    let e_id = enc_u64(rv.id as u64);
    let e_pg = enc_str(rv.page);
    let e_se = enc_str(rv.section);
    let e_de = enc_str(rv.description);
    let e_fp = enc_str(rv.file_path);
    lemma_enc_chars_len(rv.page);
    lemma_enc_chars_len(rv.section);
    lemma_enc_chars_len(rv.description);
    lemma_enc_chars_len(rv.file_path);
    let q1 = p + 8;
    let q2 = q1 + e_pg.len();
    let q3 = q2 + e_se.len();
    let q4 = q3 + e_de.len();
    let q5 = q4 + e_fp.len();
    assert(b.subrange(p, p + e_id.len() + (e_pg + e_se + e_de + e_fp).len()) =~= e_id + (e_pg
        + e_se + e_de + e_fp));
    lemma_split(b, p, e_id, e_pg + e_se + e_de + e_fp);
    lemma_dec_u64_prefix(b, p, rv.id as u64);
    assert(b.subrange(q1, q1 + e_pg.len() + (e_se + e_de + e_fp).len()) =~= e_pg + (e_se + e_de
        + e_fp));
    lemma_split(b, q1, e_pg, e_se + e_de + e_fp);
    lemma_dec_str_prefix(b, q1, rv.page);
    assert(b.subrange(q2, q2 + e_se.len() + (e_de + e_fp).len()) =~= e_se + (e_de + e_fp));
    lemma_split(b, q2, e_se, e_de + e_fp);
    lemma_dec_str_prefix(b, q2, rv.section);
    assert(b.subrange(q3, q3 + e_de.len() + e_fp.len()) =~= e_de + e_fp);
    lemma_split(b, q3, e_de, e_fp);
    lemma_dec_str_prefix(b, q3, rv.description);
    lemma_dec_str_prefix(b, q4, rv.file_path);
}

#[verifier::rlimit(60)]
pub proof fn lemma_dec_recs_prefix(b: Seq<u8>, p: int, v: Seq<RecordView>)
    requires
        0 <= p,
        forall|i: int|
            0 <= i < v.len() ==> (#[trigger] v[i]).page.len() <= u64::MAX && v[i].section.len()
                <= u64::MAX && v[i].description.len() <= u64::MAX && v[i].file_path.len()
                <= u64::MAX,
        p + enc_recs(v).len() <= b.len(),
        b.subrange(p, p + enc_recs(v).len()) == enc_recs(v),
    ensures
        dec_recs_at(b, p, v.len() as int) == Some((v, p + enc_recs(v).len())),
    decreases v.len(),
{
    if v.len() == 0 {
    } else {
        let rv = v[0];
        let rest = v.drop_first();
        assert(enc_recs(v) == enc_rec(rv) + enc_recs(rest));
        assert(b.subrange(p, p + enc_rec(rv).len() + enc_recs(rest).len()) =~= enc_rec(rv)
            + enc_recs(rest));
        lemma_split(b, p, enc_rec(rv), enc_recs(rest));
        lemma_dec_rec_prefix(b, p, rv);
        let q = p + enc_rec(rv).len();
        assert(forall|i: int| 0 <= i < rest.len() ==> rest[i] == v[i + 1]);
        lemma_dec_recs_prefix(b, q, rest);
        assert(seq![rv] + rest =~= v);
    }
}

/// Decoding inverts encoding: reading back a saved index yields exactly
/// the records that were saved.
pub proof fn lemma_index_round_trip(v: Seq<RecordView>)
    requires
        enc_sizes_ok(v),
    ensures
        dec_index(enc_index(v)) == Some(v),
{
    let b = enc_index(v);
    let n = v.len() as u64;
    assert(b.subrange(0, 0 + enc_u64(n).len() + enc_recs(v).len() as int) =~= enc_u64(n) + enc_recs(v));
    lemma_split(b, 0, enc_u64(n), enc_recs(v));
    lemma_dec_u64_prefix(b, 0, n);
    lemma_dec_recs_prefix(b, 8, v);
}

/// Encoding distributes over concatenation of character sequences.
pub proof fn lemma_enc_chars_app(a: Seq<char>, b: Seq<char>)
    ensures
        enc_chars(a + b) == enc_chars(a) + enc_chars(b),
    decreases a.len(),
{
    if a.len() == 0 {
        assert(a + b =~= b);
        assert(enc_chars(a) + enc_chars(b) =~= enc_chars(b));
    } else {
        assert((a + b).drop_first() =~= a.drop_first() + b);
        assert((a + b)[0] == a[0]);
        lemma_enc_chars_app(a.drop_first(), b);
        assert(enc_chars(a + b) =~= enc_chars(a) + enc_chars(b));
    }
}

/// Encoding distributes over concatenation of record sequences.
pub proof fn lemma_enc_recs_app(a: Seq<RecordView>, b: Seq<RecordView>)
    ensures
        enc_recs(a + b) == enc_recs(a) + enc_recs(b),
    decreases a.len(),
{
    if a.len() == 0 {
        assert(a + b =~= b);
        assert(enc_recs(a) + enc_recs(b) =~= enc_recs(b));
    } else {
        assert((a + b).drop_first() =~= a.drop_first() + b);
        assert((a + b)[0] == a[0]);
        lemma_enc_recs_app(a.drop_first(), b);
        assert(enc_recs(a + b) =~= enc_recs(a) + enc_recs(b));
    }
}

/// The encoding of a single character.
pub proof fn lemma_enc_chars_single(c: char)
    ensures
        enc_chars(seq![c]) == seq![
            ((c as u32) & 0xff) as u8,
            (((c as u32) >> 8) & 0xff) as u8,
            (((c as u32) >> 16) & 0xff) as u8,
            (((c as u32) >> 24) & 0xff) as u8,
        ],
{
    let one = seq![c];
    assert(one.drop_first() =~= Seq::<char>::empty());
    assert(enc_chars(one.drop_first()) =~= Seq::<u8>::empty());
    assert(enc_chars(one) =~= seq![
        ((c as u32) & 0xff) as u8,
        (((c as u32) >> 8) & 0xff) as u8,
        (((c as u32) >> 16) & 0xff) as u8,
        (((c as u32) >> 24) & 0xff) as u8,
    ]);
}

/// Appending one record to an encoded run appends its encoding.
pub proof fn lemma_enc_recs_push(pre: Seq<RecordView>, rv: RecordView)
    ensures
        enc_recs(pre.push(rv)) == enc_recs(pre) + enc_rec(rv),
{
    assert(pre.push(rv) =~= pre + seq![rv]);
    lemma_enc_recs_app(pre, seq![rv]);
    assert(seq![rv].drop_first() =~= Seq::<RecordView>::empty());
    assert(enc_recs(seq![rv].drop_first()) =~= Seq::<u8>::empty());
    assert(enc_recs(seq![rv]) =~= enc_rec(rv));
}

fn push_u64(out: &mut Vec<u8>, v: u64)
    ensures
        final(out)@ == old(out)@ + enc_u64(v),
{
    out.push((v & 0xff) as u8);
    out.push(((v >> 8) & 0xff) as u8);
    out.push(((v >> 16) & 0xff) as u8);
    out.push(((v >> 24) & 0xff) as u8);
    out.push(((v >> 32) & 0xff) as u8);
    out.push(((v >> 40) & 0xff) as u8);
    out.push(((v >> 48) & 0xff) as u8);
    out.push(((v >> 56) & 0xff) as u8);
    proof {
        assert(out@ =~= old(out)@ + enc_u64(v));
    }
}

fn push_str(out: &mut Vec<u8>, s: &String)
    ensures
        final(out)@ == old(out)@ + enc_str(s@),
{
    let cs = to_chars(s.as_str());
    push_u64(out, cs.len() as u64);
    let ghost mid = out@;
    let mut i: usize = 0;
    proof {
        assert(out@ =~= mid + enc_chars(s@.take(0)));
    }
    while i < cs.len()
        invariant
            i <= cs@.len(),
            cs@ == s@,
            out@ == mid + enc_chars(s@.take(i as int)),
        decreases cs@.len() - i,
    {
        let u = cs[i] as u32;
        out.push((u & 0xff) as u8);
        out.push(((u >> 8) & 0xff) as u8);
        out.push(((u >> 16) & 0xff) as u8);
        out.push(((u >> 24) & 0xff) as u8);
        i = i + 1;
        proof {
            let pre = s@.take(i - 1);
            let one = seq![s@[i - 1]];
            assert(s@.take(i as int) =~= pre + one);
            lemma_enc_chars_app(pre, one);
            lemma_enc_chars_single(s@[i - 1]);
            assert(out@ =~= mid + enc_chars(s@.take(i as int)));
        }
    }
    proof {
        assert(s@.take(s@.len() as int) =~= s@);
        assert(out@ =~= old(out)@ + enc_str(s@));
    }
}

/// Serialize the whole index into one binary blob.
#[verifier::rlimit(60)]
pub fn encode_index(idx: &Index) -> (r: Vec<u8>)
    ensures
        r@ == enc_index(idx@),
{
    let mut out: Vec<u8> = Vec::new();
    push_u64(&mut out, idx.records.len() as u64);
    let ghost mid = out@;
    let mut i: usize = 0;
    proof {
        assert(out@ =~= mid + enc_recs(idx@.take(0)));
    }
    while i < idx.records.len()
        invariant
            i <= idx.records@.len(),
            idx@.len() == idx.records@.len(),
            out@ == mid + enc_recs(idx@.take(i as int)),
            mid == enc_u64(idx.records@.len() as u64),
        decreases idx.records@.len() - i,
    {
        let rec = &idx.records[i];
        push_u64(&mut out, rec.id as u64);
        push_str(&mut out, &rec.page);
        push_str(&mut out, &rec.section);
        push_str(&mut out, &rec.description);
        push_str(&mut out, &rec.file_path);
        i = i + 1;
        proof {
            let pre = idx@.take(i - 1);
            assert(idx@.take(i as int) =~= pre.push(idx@[i - 1]));
            lemma_enc_recs_push(pre, idx@[i - 1]);
            assert(idx@[i - 1] == idx.records@[i - 1]@);
            assert(out@ =~= mid + enc_recs(idx@.take(i as int)));
        }
    }
    proof {
        assert(idx@.take(idx@.len() as int) =~= idx@);
        assert(out@ =~= enc_index(idx@));
    }
    out
}

fn read_u64(b: &Vec<u8>, p: usize) -> (r: Option<(u64, usize)>)
    ensures
        match r {
            Some(vq) => dec_u64_at(b@, p as int) == Some((vq.0, vq.1 as int)),
            None => dec_u64_at(b@, p as int) is None,
        },
{
    if p > b.len() || b.len() - p < 8 {
        return None;
    }
    let v: u64 = (b[p] as u64) | ((b[p + 1] as u64) << 8) | ((b[p + 2] as u64) << 16) | ((b[p
        + 3] as u64) << 24) | ((b[p + 4] as u64) << 32) | ((b[p + 5] as u64) << 40) | ((b[p
        + 6] as u64) << 48) | ((b[p + 7] as u64) << 56);
    proof {
        let sub = b@.subrange(p as int, p + 8);
        assert(sub[0] == b@[p as int] && sub[1] == b@[p + 1] && sub[2] == b@[p + 2] && sub[3]
            == b@[p + 3] && sub[4] == b@[p + 4] && sub[5] == b@[p + 5] && sub[6] == b@[p + 6]
            && sub[7] == b@[p + 7]);
    }
    Some((v, p + 8))
}

fn read_char(b: &Vec<u8>, p: usize) -> (r: Option<(char, usize)>)
    ensures
        match r {
            Some(cq) => dec_char_at(b@, p as int) == Some((cq.0, cq.1 as int)),
            None => dec_char_at(b@, p as int) is None,
        },
{
    if p > b.len() || b.len() - p < 4 {
        return None;
    }
    let u: u32 = (b[p] as u32) | ((b[p + 1] as u32) << 8) | ((b[p + 2] as u32) << 16) | ((b[p
        + 3] as u32) << 24);
    proof {
        assert(u == dec_u32_at(b@, p as int));
    }
    match char_from_u32(u) {
        None => None,
        Some(c) => {
            proof {
                vstd::utf8::char_u32_cast(c, u);
            }
            Some((c, p + 4))
        },
    }
}

/// `o` with `pre` prepended to a decoded character sequence.
pub open spec fn opt_prepend_chars(pre: Seq<char>, o: Option<(Seq<char>, int)>) -> Option<
    (Seq<char>, int),
> {
    match o {
        None => None,
        Some((s, e)) => Some((pre + s, e)),
    }
}

fn read_chars(b: &Vec<u8>, p: usize, n: u64) -> (r: Option<(Vec<char>, usize)>)
    ensures
        match r {
            Some(sq) => dec_chars_at(b@, p as int, n as int) == Some((sq.0@, sq.1 as int)),
            None => dec_chars_at(b@, p as int, n as int) is None,
        },
{
    let mut acc: Vec<char> = Vec::new();
    let mut pos: usize = p;
    let mut k: u64 = 0;
    proof {
        assert(opt_prepend_chars(acc@, dec_chars_at(b@, pos as int, n - k))
            == dec_chars_at(b@, p as int, n as int));
    }
    while k < n
        invariant
            k <= n,
            dec_chars_at(b@, p as int, n as int) == opt_prepend_chars(
                acc@,
                dec_chars_at(b@, pos as int, n - k),
            ),
        decreases n - k,
    {
        match read_char(b, pos) {
            None => {
                proof {
                    assert(dec_chars_at(b@, pos as int, n - k) is None);
                }
                return None;
            },
            Some(cq) => {
                let (c, q) = cq;
                proof {
                    let m = n - k;
                    assert(dec_chars_at(b@, pos as int, m) == opt_prepend_chars(
                        seq![c],
                        dec_chars_at(b@, q as int, m - 1),
                    ));
                    let inner = dec_chars_at(b@, q as int, m - 1);
                    match inner {
                        None => {},
                        Some((s2, e2)) => {
                            assert(acc@ + (seq![c] + s2) =~= acc@.push(c) + s2);
                        },
                    }
                }
                acc.push(c);
                pos = q;
                k = k + 1;
            },
        }
    }
    proof {
        assert(dec_chars_at(b@, pos as int, 0) == Some((Seq::<char>::empty(), pos as int)));
        assert(acc@ + Seq::<char>::empty() =~= acc@);
    }
    Some((acc, pos))
}

fn read_str(b: &Vec<u8>, p: usize) -> (r: Option<(String, usize)>)
    ensures
        match r {
            Some(sq) => dec_str_at(b@, p as int) == Some((sq.0@, sq.1 as int)),
            None => dec_str_at(b@, p as int) is None,
        },
{
    match read_u64(b, p) {
        None => None,
        Some(nq) => {
            let (n, q) = nq;
            match read_chars(b, q, n) {
                None => None,
                Some(sq) => {
                    let (cs, e) = sq;
                    Some((chars_to_string(&cs), e))
                },
            }
        },
    }
}

fn read_rec(b: &Vec<u8>, p: usize) -> (r: Option<(IndexRecord, usize)>)
    ensures
        match r {
            Some(rq) => dec_rec_at(b@, p as int) == Some((rq.0@, rq.1 as int)),
            None => dec_rec_at(b@, p as int) is None,
        },
{
    match read_u64(b, p) {
        None => None,
        Some(idq) => {
            let (id, q1) = idq;
            if id > 0xffff_ffff {
                return None;
            }
            match read_str(b, q1) {
                None => None,
                Some(pg) => {
                    let (page, q2) = pg;
                    match read_str(b, q2) {
                        None => None,
                        Some(se) => {
                            let (section, q3) = se;
                            match read_str(b, q3) {
                                None => None,
                                Some(de) => {
                                    let (description, q4) = de;
                                    match read_str(b, q4) {
                                        None => None,
                                        Some(fp) => {
                                            let (file_path, q5) = fp;
                                            let rec = IndexRecord {
                                                id: id as u32,
                                                page,
                                                section,
                                                description,
                                                file_path,
                                            };
                                            Some((rec, q5))
                                        },
                                    }
                                },
                            }
                        },
                    }
                },
            }
        },
    }
}

/// `o` with `pre` prepended to a decoded record sequence.
pub open spec fn opt_prepend_recs(pre: Seq<RecordView>, o: Option<(Seq<RecordView>, int)>) -> Option<
    (Seq<RecordView>, int),
> {
    match o {
        None => None,
        Some((v, e)) => Some((pre + v, e)),
    }
}

/// Deserialize a blob back into an index; nothing when the bytes are not
/// a whole well-formed encoding.
pub fn decode_index(bytes: &Vec<u8>) -> (r: Option<Index>)
    ensures
        match r {
            Some(idx) => dec_index(bytes@) == Some(idx@),
            None => dec_index(bytes@) is None,
        },
{
    match read_u64(bytes, 0) {
        None => None,
        Some(nq) => {
            let (n, q0) = nq;
            let mut records: Vec<IndexRecord> = Vec::new();
            let mut pos: usize = q0;
            let mut k: u64 = 0;
            proof {
                assert(records_view(records@) =~= Seq::<RecordView>::empty());
                assert(opt_prepend_recs(
                    records_view(records@),
                    dec_recs_at(bytes@, pos as int, n - k),
                ) == dec_recs_at(bytes@, q0 as int, n as int));
            }
            while k < n
                invariant
                    k <= n,
                    dec_recs_at(bytes@, q0 as int, n as int) == opt_prepend_recs(
                        records_view(records@),
                        dec_recs_at(bytes@, pos as int, n - k),
                    ),
                    dec_u64_at(bytes@, 0) == Some((n, q0 as int)),
                decreases n - k,
            {
                match read_rec(bytes, pos) {
                    None => {
                        proof {
                            assert(dec_recs_at(bytes@, pos as int, n - k) is None);
                        }
                        return None;
                    },
                    Some(rq) => {
                        let (rec, q) = rq;
                        let ghost prev = records_view(records@);
                        proof {
                            let m = n - k;
                            assert(dec_recs_at(bytes@, pos as int, m) == opt_prepend_recs(
                                seq![rec@],
                                dec_recs_at(bytes@, q as int, m - 1),
                            ));
                        }
                        records.push(rec);
                        proof {
                            assert(records_view(records@) =~= prev.push(records@.last()@));
                            let inner = dec_recs_at(bytes@, q as int, n - k - 1);
                            match inner {
                                None => {},
                                Some((v2, e2)) => {
                                    assert(prev + (seq![rec@] + v2) =~= records_view(records@)
                                        + v2);
                                },
                            }
                        }
                        pos = q;
                        k = k + 1;
                    },
                }
            }
            proof {
                assert(dec_recs_at(bytes@, pos as int, 0) == Some(
                    (Seq::<RecordView>::empty(), pos as int),
                ));
                assert(records_view(records@) + Seq::<RecordView>::empty() =~= records_view(
                    records@,
                ));
            }
            if pos == bytes.len() {
                Some(Index { records })
            } else {
                None
            }
        },
    }
}

} // verus!

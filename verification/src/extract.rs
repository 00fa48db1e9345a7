//! Document extraction: decompressing a document's raw bytes into text,
//! classifying open failures into user-facing messages, and the two
//! failure policies — abort the operation or report and carry on.
use vstd::prelude::*;

use crate::index::{page_of, path_parses, section_of};
use crate::text::{chars_to_string, copy_range, to_chars};
use crate::ErrorAction;

verus! {

/// What decompressing a gzip stream yields: a function of the input bytes
/// alone.
pub uninterp spec fn gunzip_of(bytes: Seq<u8>) -> Seq<char>;

/// Whether a gzip stream decompresses to valid text: a function of the
/// input bytes alone.
pub uninterp spec fn gunzip_ok(bytes: Seq<u8>) -> bool;

/// Decompress a gzip stream into text.
///
/// Relies on flate2's `GzDecoder` driven by `read_to_string`: whether the
/// read succeeds, and on success the text read, are determined by the
/// input bytes alone; on failure the error's rendering is returned.
#[verifier::external_body]
fn gunzip(bytes: &Vec<u8>) -> (r: Result<String, String>)
    ensures
        r is Ok <==> gunzip_ok(bytes@),
        r matches Ok(s) ==> s@ == gunzip_of(bytes@),
{
    let mut decoder = flate2::read::GzDecoder::new(&bytes[..]);
    let mut text = String::new();
    match std::io::Read::read_to_string(&mut decoder, &mut text) {
        Ok(_) => Ok(text),
        Err(e) => Err(format!("{}", e)),
    }
}

/// How opening the document on disk went; produced by the caller that
/// performs the read.
pub enum OpenOutcome {
    /// The raw bytes of the document.
    Opened(Vec<u8>),
    NotFound,
    PermissionDenied,
    /// Any other failure, with its rendering.
    OtherError(String),
}

/// The outcome of an extraction: the decompressed text (empty on any
/// failure), the message to report, if any, and whether the failure is
/// fatal under the chosen policy.
pub struct Extraction {
    pub text: String,
    pub message: Option<String>,
    pub fatal: bool,
}

/// The message for a document missing on disk.
pub open spec fn not_found_msg(p: Seq<char>) -> Seq<char> {
    "No manual entry for "@ + page_of(p) + " in section "@ + section_of(p)
}

/// The message for a document that may not be read.
pub open spec fn perm_denied_msg(p: Seq<char>) -> Seq<char> {
    "Permission denied for "@ + page_of(p) + " in section "@ + section_of(p)
}

/// The message for any other open failure.
pub open spec fn open_err_msg(detail: Seq<char>) -> Seq<char> {
    "Error opening file "@ + detail
}

/// The message for a document whose bytes do not decompress.
pub open spec fn gzip_err_msg(p: Seq<char>, detail: Seq<char>) -> Seq<char> {
    "Error extracting gzip file for "@ + page_of(p) + " in section "@ + section_of(p) + ": "@
        + detail
}

fn concat_chars(a: Vec<char>, b: &Vec<char>) -> (r: Vec<char>)
    ensures
        r@ == a@ + b@,
{
    let mut r = a;
    let mut tail = copy_range(b, 0, b.len());
    proof {
        assert(b@.subrange(0, b@.len() as int) =~= b@);
    }
    r.append(&mut tail);
    r
}

fn page_section_msg(prefix: &Vec<char>, path: &str) -> (r: String)
    requires
        path_parses(path@),
    ensures
        r@ == prefix@ + page_of(path@) + " in section "@ + section_of(path@),
{
    let path_chars = to_chars(path);
    match crate::index::page_and_section(&path_chars) {
        None => vstd::pervasive::unreached(),
        Some(ps) => {
            let (page, section) = ps;
            let head = copy_range(prefix, 0, prefix.len());
            proof {
                assert(prefix@.subrange(0, prefix@.len() as int) =~= prefix@);
            }
            let with_page = concat_chars(head, &page);
            let mid = to_chars(" in section ");
            let with_mid = concat_chars(with_page, &mid);
            let whole = concat_chars(with_mid, &section);
            proof {
                assert(whole@ =~= prefix@ + page_of(path@) + " in section "@ + section_of(
                    path@,
                ));
            }
            chars_to_string(&whole)
        },
    }
}

/// Decompress a document, turning an open failure into its classified
/// message: a missing document and a forbidden one are reported naming the
/// page and the section, any other failure generically. Under the abort
/// policy an open failure is fatal; under the report policy, and for a
/// failure of the decompression itself, the extraction carries on with
/// empty text beside the message.
pub fn extract_gzip(path: &str, opened: OpenOutcome, errors: ErrorAction) -> (r: Extraction)
    requires
        path_parses(path@),
    ensures
        match opened {
            OpenOutcome::Opened(b) => {
                &&& !r.fatal
                &&& (r.message is None <==> gunzip_ok(b@))
                &&& (r.message is None ==> r.text@ == gunzip_of(b@))
                &&& (r.message matches Some(m) ==> r.text@ == Seq::<char>::empty() && (exists|
                    d: Seq<char>,
                |
                    m@ == gzip_err_msg(path@, d)))
            },
            OpenOutcome::NotFound => {
                &&& r.text@ == Seq::<char>::empty()
                &&& r.message matches Some(m) && m@ == not_found_msg(path@)
                &&& r.fatal == (errors == ErrorAction::Fail)
            },
            OpenOutcome::PermissionDenied => {
                &&& r.text@ == Seq::<char>::empty()
                &&& r.message matches Some(m) && m@ == perm_denied_msg(path@)
                &&& r.fatal == (errors == ErrorAction::Fail)
            },
            OpenOutcome::OtherError(d) => {
                &&& r.text@ == Seq::<char>::empty()
                &&& r.message matches Some(m) && m@ == open_err_msg(d@)
                &&& r.fatal == (errors == ErrorAction::Fail)
            },
        },
{
    match opened {
        OpenOutcome::Opened(bytes) => match gunzip(&bytes) {
            Ok(text) => Extraction { text, message: None, fatal: false },
            Err(detail) => {
                let prefix = to_chars("Error extracting gzip file for ");
                let base = page_section_msg(&prefix, path);
                let base_chars = to_chars(base.as_str());
                let sep = to_chars(": ");
                let with_sep = concat_chars(base_chars, &sep);
                let detail_chars = to_chars(detail.as_str());
                let whole = concat_chars(with_sep, &detail_chars);
                proof {
                    assert(whole@ =~= gzip_err_msg(path@, detail@));
                }
                Extraction {
                    text: String::new(),
                    message: Some(chars_to_string(&whole)),
                    fatal: false,
                }
            },
        },
        OpenOutcome::NotFound => {
            let prefix = to_chars("No manual entry for ");
            let msg = page_section_msg(&prefix, path);
            Extraction {
                text: String::new(),
                message: Some(msg),
                fatal: errors == ErrorAction::Fail,
            }
        },
        OpenOutcome::PermissionDenied => {
            let prefix = to_chars("Permission denied for ");
            let msg = page_section_msg(&prefix, path);
            Extraction {
                text: String::new(),
                message: Some(msg),
                fatal: errors == ErrorAction::Fail,
            }
        },
        OpenOutcome::OtherError(detail) => {
            let prefix = to_chars("Error opening file ");
            let detail_chars = to_chars(detail.as_str());
            let whole = concat_chars(prefix, &detail_chars);
            Extraction {
                text: String::new(),
                message: Some(chars_to_string(&whole)),
                fatal: errors == ErrorAction::Fail,
            }
        },
    }
}

} // verus!

use manr::args::{build_page_path, classify_arg, parse_u8_arg, ArgKind};
use manr::extract::{extract_gzip, OpenOutcome};
use manr::parser::get_description;
use manr::scan::list_all_sections;
use manr::ErrorAction;
use std::io::Write;

#[test]
fn description_from_separator_line() {
    let text = ".TH MAN 1\n.SH NAME\nman \\- an interface to the system reference manuals\n.SH SYNOPSIS\n";
    assert_eq!(get_description(text), "an interface to the system reference manuals");
}

#[test]
fn description_from_macro_with_trailing_content() {
    let text = ".Dd January 1\n.Sh NAME\n.Nm prog\n.Nd does useful things\n";
    assert_eq!(get_description(text), "does useful things");
}

#[test]
fn description_from_line_after_bare_macro() {
    let text = ".Sh NAME\n.Nm x\n.nd\nThe Description Line\n";
    assert_eq!(get_description(text), "the description line");
}

#[test]
fn bare_macro_in_capitals_yields_empty_text() {
    // The trailing-macro check reads the line as written, so a
    // capitalised bare macro line falls through to token removal and
    // leaves nothing.
    let text = ".Sh NAME\n.Nd\nnot taken\n";
    assert_eq!(get_description(text), "");
}

#[test]
fn description_from_line_after_open_dash() {
    let text = ".SH NAME\nfoo -\nBar Baz\n";
    assert_eq!(get_description(text), "bar baz");
}

#[test]
fn description_from_line_after_dash_continuation() {
    let text = ".SH NAME\nfoo - \\\nNext Line Text\n";
    assert_eq!(get_description(text), "next line text");
}

#[test]
fn description_takes_text_after_last_separator() {
    let text = ".SH NAME\na - b - The Real Part\n";
    assert_eq!(get_description(text), "the real part");
}

#[test]
fn no_name_heading_yields_empty_description() {
    let text = ".TH X 1\n.SH SYNOPSIS\nnothing here\n";
    assert_eq!(get_description(text), "");
    assert_eq!(get_description(""), "");
}

#[test]
fn carriage_returns_before_newlines_are_dropped() {
    let text = ".SH NAME\r\nfoo \\- Mixed Line Endings\r\n";
    assert_eq!(get_description(text), "mixed line endings");
}

#[test]
fn parser_idempotence() {
    let text = ".SH NAME\nman \\- an interface to the system reference manuals\n";
    let first = get_description(text);
    let second = get_description(text);
    assert_eq!(first, second);
    assert_eq!(first, "an interface to the system reference manuals");
}

#[test]
fn scanner_orders_by_section_digit_keeping_encounter_order() {
    let paths = vec![
        "/m/man3/three.3.gz".to_string(),
        "/m/man1/first.1.gz".to_string(),
        "/m/man2/two.2ssl.gz".to_string(),
        "/m/man1/second.1.gz".to_string(),
        "/m/man1/README".to_string(),
        "/m/man1/nogz.1".to_string(),
    ];
    let sorted = list_all_sections(&paths);
    assert_eq!(
        sorted,
        vec![
            "/m/man1/first.1.gz",
            "/m/man1/second.1.gz",
            "/m/man2/two.2ssl.gz",
            "/m/man3/three.3.gz",
        ]
    );
}

#[test]
fn scanner_requires_digit_between_dots() {
    let paths = vec![
        "/m/man1/x.0.gz".to_string(),
        "/m/man1/x.10.gz".to_string(),
        "/m/man1/x.1a2b.gz".to_string(),
        "/m/man1/.1.gz".to_string(),
    ];
    // `x.0.gz` and `x.10.gz` end in `0`, which is no section digit;
    // `1a2b` puts a digit inside the letter run; a bare `.1.gz` qualifies.
    let sorted = list_all_sections(&paths);
    assert_eq!(sorted, vec!["/m/man1/.1.gz"]);
}

#[test]
fn page_section_not_found() {
    let page = "man";
    let bad_sect = "1gjopege";
    let expected = format!("No manual entry for {} in section {}", page, bad_sect);
    let path = format!("/usr/share/man/man1/{}.{}.gz", page, bad_sect);
    let outcome = extract_gzip(&path, OpenOutcome::NotFound, ErrorAction::Fail);
    assert_eq!(outcome.message.as_deref(), Some(expected.as_str()));
    assert!(outcome.fatal);
    assert_eq!(outcome.text, "");
}

#[test]
fn page_open_permission_denied() {
    let bad_page = "permdenied";
    let expected = format!("Permission denied for {} in section", bad_page);
    let path = "/usr/share/man/man1/permdenied.1.gz";
    let outcome = extract_gzip(path, OpenOutcome::PermissionDenied, ErrorAction::Fail);
    let message = outcome.message.expect("a denied open is reported");
    assert!(message.contains(&expected));
    assert_eq!(message, "Permission denied for permdenied in section 1");
    assert!(outcome.fatal);
}

#[test]
fn gzip_extract_failed() {
    let bad_page = "badgzip";
    let expected = format!("Error extracting gzip file for {} in section", bad_page);
    let path = "/usr/share/man/man1/badgzip.1.gz";
    let outcome = extract_gzip(
        path,
        OpenOutcome::Opened(vec![0x00, 0x01, 0x02]),
        ErrorAction::Log,
    );
    let message = outcome.message.expect("a broken stream is reported");
    assert!(message.starts_with(&expected));
    assert!(!outcome.fatal);
    assert_eq!(outcome.text, "");
}

#[test]
fn open_failures_are_not_fatal_under_log_policy() {
    let path = "/m/man1/gone.1.gz";
    let outcome = extract_gzip(path, OpenOutcome::NotFound, ErrorAction::Log);
    assert!(!outcome.fatal);
    assert_eq!(
        outcome.message.as_deref(),
        Some("No manual entry for gone in section 1")
    );
    let other = extract_gzip(
        path,
        OpenOutcome::OtherError("interrupted".to_string()),
        ErrorAction::Log,
    );
    assert_eq!(other.message.as_deref(), Some("Error opening file interrupted"));
}

#[test]
fn extract_decompresses_real_gzip_bytes() {
    let original = ".TH GZIP 1\n.SH NAME\ngzip \\- Compress Or Expand Files\n";
    let mut encoder =
        flate2::write::GzEncoder::new(Vec::new(), flate2::Compression::default());
    encoder.write_all(original.as_bytes()).unwrap();
    let bytes = encoder.finish().unwrap();
    assert_ne!(bytes, original.as_bytes());

    let outcome = extract_gzip(
        "/m/man1/gzip.1.gz",
        OpenOutcome::Opened(bytes),
        ErrorAction::Log,
    );
    assert_eq!(outcome.message, None);
    assert_eq!(outcome.text, original);
    assert_eq!(get_description(&outcome.text), "compress or expand files");
}

#[test]
fn classify_arg_covers_every_token_shape() {
    assert!(classify_arg("makewhatis") == ArgKind::UpdateIndex);
    assert!(classify_arg("-f") == ArgKind::WhatisFlag);
    assert!(classify_arg("-fx") == ArgKind::WhatisFlag);
    assert!(classify_arg("--whatis") == ArgKind::WhatisFlag);
    assert!(classify_arg("-k") == ArgKind::AproposFlag);
    assert!(classify_arg("--apropos") == ArgKind::AproposFlag);
    assert!(classify_arg("1ssl") == ArgKind::SectionToken);
    assert!(classify_arg("7") == ArgKind::SectionToken);
    assert!(classify_arg("--bogus") == ArgKind::LongOption);
    assert!(classify_arg("-x") == ArgKind::ShortOption);
    assert!(classify_arg("man") == ArgKind::PageName);
}

#[test]
fn parse_u8_arg_reads_decimal_tokens() {
    assert_eq!(parse_u8_arg("7"), Some(7));
    assert_eq!(parse_u8_arg("+9"), Some(9));
    assert_eq!(parse_u8_arg("255"), Some(255));
    assert_eq!(parse_u8_arg("256"), None);
    assert_eq!(parse_u8_arg("300"), None);
    assert_eq!(parse_u8_arg("1ssl"), None);
    assert_eq!(parse_u8_arg(""), None);
    assert_eq!(parse_u8_arg("+"), None);
}

#[test]
fn build_page_path_assembles_and_lowercases() {
    assert_eq!(
        build_page_path("/usr/share/man", "1", "MAN", "1"),
        "/usr/share/man/man1/man.1.gz"
    );
    assert_eq!(
        build_page_path("/root", "3", "ssl", "3ssl"),
        "/root/man3/ssl.3ssl.gz"
    );
}

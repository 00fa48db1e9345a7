use manr::codec::{decode_index, encode_index};
use manr::index::{build_index, Index, IndexRecord};
use manr::search::{
    display_index_results, first_section, format_filename_description, index_apropos_search,
    index_whatis_search,
};

fn rec(id: u32, page: &str, section: &str, description: &str, file_path: &str) -> IndexRecord {
    IndexRecord {
        id,
        page: page.to_string(),
        section: section.to_string(),
        description: description.to_string(),
        file_path: file_path.to_string(),
    }
}

fn man_index() -> Index {
    Index {
        records: vec![
            rec(
                1,
                "man",
                "1",
                "an interface to the system reference manuals",
                "/usr/share/man/man1/man.1.gz",
            ),
            rec(
                2,
                "cat",
                "1",
                "concatenate files and print on the standard output",
                "/usr/share/man/man1/cat.1.gz",
            ),
            rec(3, "man", "7", "macros to format man pages", "/usr/share/man/man7/man.7.gz"),
        ],
    }
}

fn zcat_index() -> Index {
    Index {
        records: vec![
            rec(
                1,
                "bzcat",
                "1",
                "a block-sorting file compressor, v1.0.8",
                "/usr/share/man/man1/bzcat.1.gz",
            ),
            rec(
                2,
                "lzcat",
                "1",
                "compress or decompress .xz and .lzma files",
                "/usr/share/man/man1/lzcat.1.gz",
            ),
            rec(
                3,
                "xzcat",
                "1",
                "compress or decompress .xz and .lzma files",
                "/usr/share/man/man1/xzcat.1.gz",
            ),
            rec(4, "zcat", "1", "compress or expand files", "/usr/share/man/man1/zcat.1.gz"),
        ],
    }
}

#[test]
fn whatis_search() {
    let index = man_index();
    let expected = vec![
        "man (1) - an interface to the system reference manuals",
        "man (7) - macros to format man pages",
    ];
    let lines = index_whatis_search(&index, "man");
    assert_eq!(lines, expected);
}

#[test]
fn whatis_search_not_found() {
    let index = man_index();
    let bad_page = "manxcjgcj";
    let expected = format!("{}: nothing appropriate", bad_page);
    let lines = index_whatis_search(&index, bad_page);
    assert_eq!(lines, vec![expected]);
}

#[test]
fn apropos_search() {
    let index = zcat_index();
    let expected = vec![
        "bzcat (1) - a block-sorting file compressor, v1.0.8",
        "lzcat (1) - compress or decompress .xz and .lzma files",
        "xzcat (1) - compress or decompress .xz and .lzma files",
        "zcat (1) - compress or expand files",
    ];
    let lines = index_apropos_search(&index, "zcat");
    assert_eq!(lines, expected);
}

#[test]
fn apropos_search_not_found() {
    let index = zcat_index();
    let bad_page = "manxcjgcj";
    let expected = format!("{}: nothing appropriate", bad_page);
    let lines = index_apropos_search(&index, bad_page);
    assert_eq!(lines, vec![expected]);
}

#[test]
fn page_not_found() {
    let index = man_index();
    let bad_page = "manxcjgcj";
    assert_eq!(first_section(&index, bad_page), None);
}

#[test]
fn index_cache_refresh() {
    // A rebuild discards and replaces the whole persisted structure: build,
    // save and reload, and the loaded index equals the built one.
    let entries = vec![
        (
            "/usr/share/man/man1/man.1.gz".to_string(),
            "an interface to the system reference manuals".to_string(),
        ),
        ("/usr/share/man/man7/man.7.gz".to_string(), "macros to format man pages".to_string()),
    ];
    let index = build_index(entries);
    let blob = encode_index(&index);
    let reloaded = decode_index(&blob).expect("a freshly saved index must load");
    assert_eq!(reloaded, index);
}

#[test]
fn round_trip_preserves_every_field() {
    let index = zcat_index();
    let blob = encode_index(&index);
    let reloaded = decode_index(&blob).expect("decode");
    assert_eq!(reloaded, index);
}

#[test]
fn corrupt_blob_fails_to_load() {
    let index = man_index();
    let mut blob = encode_index(&index);
    blob.truncate(blob.len() - 1);
    assert_eq!(decode_index(&blob), None);
    assert_eq!(decode_index(&vec![0x7f, 0x00, 0x01]), None);
}

#[test]
fn trailing_bytes_fail_to_load() {
    let index = man_index();
    let mut blob = encode_index(&index);
    blob.push(0);
    assert_eq!(decode_index(&blob), None);
}

#[test]
fn ids_are_contiguous_from_one_in_scan_order() {
    let entries = vec![
        ("/m/man1/a.1.gz".to_string(), "first".to_string()),
        ("/m/man1/noext".to_string(), "skipped: no parseable name".to_string()),
        ("/m/man2/b.2.gz".to_string(), "second".to_string()),
        ("/m/man3/c.3ssl.gz".to_string(), "third".to_string()),
    ];
    let index = build_index(entries);
    let ids: Vec<u32> = index.records.iter().map(|r| r.id).collect();
    assert_eq!(ids, vec![1, 2, 3]);
    assert_eq!(index.records[0].page, "a");
    assert_eq!(index.records[1].page, "b");
    assert_eq!(index.records[2].page, "c");
    assert_eq!(index.records[2].section, "3ssl");
}

#[test]
fn builder_keeps_records_with_empty_descriptions() {
    let entries = vec![("/m/man1/plain.1.gz".to_string(), String::new())];
    let index = build_index(entries);
    assert_eq!(index.records.len(), 1);
    assert_eq!(index.records[0].description, "");
    let lines = index_apropos_search(&index, "plain");
    assert_eq!(lines, vec!["plain (1) - "]);
}

#[test]
fn builder_lowercases_page_names() {
    let entries = vec![
        ("/m/man1/MAN.1.gz".to_string(), "written under an upper-case name".to_string()),
    ];
    let index = build_index(entries);
    assert_eq!(index.records[0].page, "man");
    assert_eq!(index.records[0].file_path, "/m/man1/MAN.1.gz");
    let lines = index_whatis_search(&index, "man");
    assert_eq!(lines, vec!["man (1) - written under an upper-case name"]);
}

#[test]
fn section_resolution_single_record() {
    let index = Index {
        records: vec![rec(1, "cat", "1", "concatenate files", "/m/man1/cat.1.gz")],
    };
    assert_eq!(first_section(&index, "cat"), Some("/m/man1/cat.1.gz".to_string()));
}

#[test]
fn section_resolution_prefers_section_one() {
    let index = Index {
        records: vec![
            rec(1, "man", "7", "macros to format man pages", "/usr/share/man/man7/man.7.gz"),
            rec(
                2,
                "man",
                "1",
                "an interface to the system reference manuals",
                "/usr/share/man/man1/man.1.gz",
            ),
        ],
    };
    assert_eq!(
        first_section(&index, "man"),
        Some("/usr/share/man/man1/man.1.gz".to_string())
    );
}

#[test]
fn display_sorts_case_insensitively_and_dedups() {
    let results = vec![
        "Zeta (1) - last".to_string(),
        "alpha (1) - first".to_string(),
        "alpha (1) - first".to_string(),
        "Beta (1) - middle".to_string(),
    ];
    let lines = display_index_results(results, "anything");
    assert_eq!(lines, vec!["alpha (1) - first", "Beta (1) - middle", "Zeta (1) - last"]);
}

#[test]
fn display_keeps_nonadjacent_duplicates_apart_only_after_sort() {
    let results = vec![
        "b (1) - x".to_string(),
        "a (1) - x".to_string(),
        "b (1) - x".to_string(),
    ];
    let lines = display_index_results(results, "x");
    assert_eq!(lines, vec!["a (1) - x", "b (1) - x"]);
}

#[test]
fn format_filename_description_shapes_the_line() {
    let line = format_filename_description(
        "/usr/share/man/man1/gzip.1.gz",
        "compress or expand files",
    );
    assert_eq!(line, "gzip (1) - compress or expand files");
    let suffixed = format_filename_description("/x/man3/ssl.3ssl.gz", "openssl overview");
    assert_eq!(suffixed, "ssl (3ssl) - openssl overview");
}

//! Tests of the `#line` directive parser and the file walker.

use fiasco_lsp_proxy::line_directives::{extract_line_mappings, is_endif_line, parse_line_directive};
use fiasco_lsp_proxy::source_mapping::PreprocessSection;

fn lines(ls: &[&str]) -> Vec<String> {
    ls.iter().map(|l| l.to_string()).collect()
}

#[test]
fn parse_directive_accepts_well_formed_lines() {
    let r = parse_line_directive("#line 10 \"a.cpp\"").unwrap();
    assert_eq!(r.0, 10);
    assert_eq!(r.1, "a.cpp");

    let r = parse_line_directive("#line 1 \"dir/with space/x.cpp\"").unwrap();
    assert_eq!(r.0, 1);
    assert_eq!(r.1, "dir/with space/x.cpp");
}

#[test]
fn parse_directive_rejects_malformed_lines() {
    assert!(parse_line_directive("#line \"a.cpp\"").is_none());
    assert!(parse_line_directive("#line 10 a.cpp").is_none());
    assert!(parse_line_directive("#line 10 \"\"").is_none());
    assert!(parse_line_directive("#line 10 \"a.cpp\" trailing").is_none());
    assert!(parse_line_directive("line 10 \"a.cpp\"").is_none());
    assert!(parse_line_directive("").is_none());
}

#[test]
fn parse_directive_clamps_overlong_numbers() {
    // A value that does not fit a u32 falls back to one.
    let r = parse_line_directive("#line 99999999999999999999 \"a.cpp\"").unwrap();
    assert_eq!(r.0, 1);
}

#[test]
fn endif_marker_uses_sanitized_name() {
    assert!(is_endif_line("#endif // foo_cc", "foo.cc"));
    assert!(is_endif_line("#endif // a_b_c_h", "a+b-c.h"));
    assert!(!is_endif_line("#endif // other", "foo.cc"));
    assert!(!is_endif_line("#endif", "foo.cc"));
}

/// The line-map parse scenario: a directive, a section marker with its
/// synthetic lines, a second directive, and the closing envelope.
#[test]
fn line_map_parse() {
    let mut file: Vec<String> = Vec::new();
    file.push("// preamble".to_string()); // physical line 1
    file.push("// preamble".to_string()); // physical line 2
    file.push("#line 10 \"a.cpp\"".to_string()); // physical line 3
    for i in 0..20 {
        file.push(format!("content a {}", i)); // physical lines 4..=23
    }
    file.push("// IMPLEMENTATION".to_string()); // physical line 24
    for i in 0..5 {
        file.push(format!("synthetic {}", i)); // physical lines 25..=29
    }
    file.push("#line 100 \"b.cpp\"".to_string()); // physical line 30
    for i in 0..5 {
        file.push(format!("content b {}", i)); // physical lines 31..=35
    }
    file.push("#endif // test_cc".to_string()); // physical line 36

    let ms = extract_line_mappings("test.cc", &file);
    assert_eq!(ms.len(), 2);

    // First region: opened by the first directive (content starts at
    // zero-based line 3), closed by the section marker at zero-based 23.
    assert!(matches!(ms[0].section, PreprocessSection::NoSection));
    assert_eq!(ms[0].src_line, 3);
    assert_eq!(ms[0].src_end_line, 23);
    assert_eq!(ms[0].dst_file, "a.cpp");
    assert_eq!(ms[0].dst_line, 9);

    // Second region: opened inside the implementation section (content
    // starts at zero-based 30), closed by the envelope at zero-based 35,
    // one line back.
    assert!(matches!(ms[1].section, PreprocessSection::Implementation));
    assert_eq!(ms[1].src_line, 30);
    assert_eq!(ms[1].src_end_line, 34);
    assert_eq!(ms[1].dst_file, "b.cpp");
    assert_eq!(ms[1].dst_line, 99);
}

#[test]
fn extension_marker_adjusts_the_close() {
    let mut file: Vec<String> = Vec::new();
    file.push("#line 1 \"x.cpp\"".to_string()); // index 0
    file.push("code".to_string()); // index 1
    file.push("private: // EXTENSION".to_string()); // index 2
    file.push("synthetic".to_string()); // index 3
    file.push("synthetic".to_string()); // index 4
    file.push("synthetic".to_string()); // index 5
    let ms = extract_line_mappings("y.cc", &file);
    assert_eq!(ms.len(), 1);
    assert_eq!(ms[0].src_line, 1);
    // End of file at index 5, minus the three excluded synthetic lines.
    assert_eq!(ms[0].src_end_line, 2);
}

#[test]
fn stops_at_the_envelope() {
    let file = lines(&[
        "#line 1 \"x.cpp\"",
        "code",
        "#endif // y_cc",
        "#line 50 \"ignored.cpp\"",
    ]);
    let ms = extract_line_mappings("y.cc", &file);
    assert_eq!(ms.len(), 1);
    assert_eq!(ms[0].dst_file, "x.cpp");
    assert_eq!(ms[0].src_end_line, 1);
}

#[test]
fn empty_input_yields_no_mappings() {
    let ms = extract_line_mappings("x.cc", &Vec::new());
    assert!(ms.is_empty());
    let ms = extract_line_mappings("x.cc", &lines(&["just content", "no markers"]));
    assert!(ms.is_empty());
}

#[test]
fn directive_with_line_zero_clamps_to_the_first_line() {
    let ms = extract_line_mappings("x.cc", &lines(&["#line 0 \"a.cpp\"", "content"]));
    assert_eq!(ms.len(), 1);
    assert_eq!(ms[0].dst_line, 0);
}

#[test]
fn interface_marker_switches_the_section() {
    let file = lines(&[
        "// INTERFACE",     // index 0, five synthetic lines follow
        "s", "s", "s", "s", "s",
        "#line 1 \"a.cpp\"",  // index 6
        "content",          // index 7
    ]);
    let ms = extract_line_mappings("x.cc", &file);
    assert_eq!(ms.len(), 1);
    assert!(matches!(ms[0].section, PreprocessSection::Interface));
    assert_eq!(ms[0].src_line, 7);
    assert_eq!(ms[0].src_end_line, 7);
}

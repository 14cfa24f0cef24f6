//! Tests of the bidirectional mapping database and its point, range and
//! file queries.

use fiasco_lsp_proxy::source_mapping::{
    FiascoSourceMapping, LineMapping, MapDirection, PreprocessSection,
};
use fiasco_lsp_proxy::util::{Position, Range};

fn mapping(section: PreprocessSection, src: u32, end: u32, dst_file: &str, dst: u32) -> LineMapping {
    LineMapping {
        section,
        src_line: src,
        src_end_line: end,
        dst_file: dst_file.to_string(),
        dst_line: dst,
    }
}

/// foo.cpp contributes to X.cc (interface 0..10 -> 100.., implementation
/// 5..20 -> 200..) and to Y.cc (implementation 30..40 -> 10..).
fn sample() -> FiascoSourceMapping {
    let mut m = FiascoSourceMapping::new();
    m.add_preprocessed_file(
        "X.cc",
        vec![
            mapping(PreprocessSection::Interface, 100, 110, "foo.cpp", 0),
            mapping(PreprocessSection::Implementation, 200, 215, "foo.cpp", 5),
        ],
    );
    m.add_preprocessed_file(
        "Y.cc",
        vec![mapping(PreprocessSection::Implementation, 10, 20, "foo.cpp", 30)],
    );
    m.sort();
    assert!(m.check());
    m
}

#[test]
fn map_translates_in_both_directions() {
    let m = sample();
    // Author -> preprocessed: foo.cpp line 2 sits only in the interface
    // region, which maps to X.cc starting at 100.
    let loc = m.map(MapDirection::ToPreprocess, "foo.cpp", 2, 7);
    assert_eq!(loc.path, "X.cc");
    assert_eq!(loc.line, 102);
    assert_eq!(loc.character, 7);
    // Preprocessed -> author.
    let back = m.map(MapDirection::FromPreprocess, "X.cc", 102, 7);
    assert_eq!(back.path, "foo.cpp");
    assert_eq!(back.line, 2);
}

/// A line covered by both the interface and the implementation projection
/// answers with the implementation image.
#[test]
fn priority_prefers_implementation() {
    let m = sample();
    // foo.cpp line 7 is inside interface (0..10) and implementation (5..20).
    let loc = m.map(MapDirection::ToPreprocess, "foo.cpp", 7, 0);
    assert_eq!(loc.path, "X.cc");
    assert_eq!(loc.line, 202);
}

#[test]
fn unknown_files_and_lines_pass_through() {
    let m = sample();
    let loc = m.map(MapDirection::ToPreprocess, "other.cpp", 3, 4);
    assert_eq!(loc.path, "other.cpp");
    assert_eq!(loc.line, 3);
    // foo.cpp line 50 is outside every region.
    let loc = m.map(MapDirection::ToPreprocess, "foo.cpp", 50, 4);
    assert_eq!(loc.path, "foo.cpp");
    assert_eq!(loc.line, 50);
}

#[test]
fn map_files_lists_destinations() {
    let m = sample();
    let files = m.map_files(MapDirection::ToPreprocess, "foo.cpp");
    assert_eq!(files, vec!["X.cc".to_string(), "Y.cc".to_string()]);
    let files = m.map_files(MapDirection::FromPreprocess, "X.cc");
    assert_eq!(files, vec!["foo.cpp".to_string()]);
    assert!(m.map_files(MapDirection::ToPreprocess, "missing.cpp").is_empty());
}

#[test]
fn map_files_with_range_collects_overlaps() {
    let m = sample();
    // Lines 0..=6 only touch the interface and implementation regions of X.cc.
    let fs = m.map_files_with_range(MapDirection::ToPreprocess, "foo.cpp", 0, 6);
    assert_eq!(fs, vec!["X.cc".to_string()]);
    // Lines 0..=35 also overlap the Y.cc region.
    let fs = m.map_files_with_range(MapDirection::ToPreprocess, "foo.cpp", 0, 35);
    assert_eq!(fs, vec!["X.cc".to_string(), "Y.cc".to_string()]);
}

#[test]
fn file_length_reports_the_largest_end() {
    let m = sample();
    assert_eq!(m.file_length(MapDirection::FromPreprocess, "X.cc"), Some(215));
    assert_eq!(m.file_length(MapDirection::FromPreprocess, "Y.cc"), Some(20));
    assert_eq!(m.file_length(MapDirection::FromPreprocess, "Z.cc"), None);
}

#[test]
fn map_range_refuses_cross_file_ranges() {
    let m = sample();
    let mut path = "foo.cpp".to_string();
    let mut range = Range {
        start: Position { line: 2, character: 0 },
        // Line 32 maps into Y.cc while line 2 maps into X.cc.
        end: Position { line: 32, character: 0 },
    };
    assert!(m.map_range(MapDirection::ToPreprocess, &mut path, &mut range).is_err());
    // Refused ranges are left untouched.
    assert_eq!(path, "foo.cpp");
    assert_eq!(range.start.line, 2);
    assert_eq!(range.end.line, 32);

    let mut range = Range {
        start: Position { line: 6, character: 1 },
        end: Position { line: 8, character: 2 },
    };
    assert!(m.map_range(MapDirection::ToPreprocess, &mut path, &mut range).is_ok());
    assert_eq!(path, "X.cc");
    assert_eq!(range.start.line, 201);
    assert_eq!(range.end.line, 203);
}

#[test]
fn check_detects_overlapping_regions() {
    let mut m = FiascoSourceMapping::new();
    m.add_preprocessed_file(
        "X.cc",
        vec![
            mapping(PreprocessSection::NoSection, 0, 10, "a.cpp", 0),
            mapping(PreprocessSection::NoSection, 5, 15, "b.cpp", 0),
        ],
    );
    m.sort();
    assert!(!m.check());
}

#[test]
fn round_trip_through_both_tables() {
    let m = sample();
    for line in [0u32, 3, 9] {
        let there = m.map(MapDirection::ToPreprocess, "foo.cpp", line, 0);
        if there.path == "foo.cpp" {
            continue;
        }
        let back = m.map(MapDirection::FromPreprocess, there.path.as_str(), there.line, 0);
        assert_eq!(back.path, "foo.cpp");
        assert_eq!(back.line, line);
    }
}

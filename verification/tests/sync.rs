//! Tests of document-synchronisation translation: open/close reference
//! counting and change bucketing.

use fiasco_lsp_proxy::global_state::GlobalState;
use fiasco_lsp_proxy::handler::document_sync::{
    handle_did_change_text_document, handle_did_close_text_document,
    handle_did_open_text_document, ContentChange,
};
use fiasco_lsp_proxy::source_mapping::{
    FiascoSourceMapping, LineMapping, PreprocessSection,
};
use fiasco_lsp_proxy::util::{Position, Range};

fn mapping(section: PreprocessSection, src: u32, end: u32, dst_file: &str, dst: u32) -> LineMapping {
    LineMapping {
        section,
        src_line: src,
        src_end_line: end,
        dst_file: dst_file.to_string(),
        dst_line: dst,
    }
}

/// foo.cpp maps into X.cc and Y.cc; foo-extra.cpp also maps into X.cc.
fn fan_out_mapping() -> FiascoSourceMapping {
    let mut m = FiascoSourceMapping::new();
    m.add_preprocessed_file(
        "X.cc",
        vec![
            mapping(PreprocessSection::Interface, 0, 10, "foo.cpp", 0),
            mapping(PreprocessSection::Interface, 10, 20, "foo-extra.cpp", 0),
        ],
    );
    m.add_preprocessed_file(
        "Y.cc",
        vec![mapping(PreprocessSection::Implementation, 0, 10, "foo.cpp", 20)],
    );
    m.sort();
    assert!(m.check());
    m
}

/// The didOpen fan-out scenario: opening foo.cpp opens X.cc and Y.cc;
/// opening foo-extra.cpp (which shares X.cc) opens nothing new; closing
/// foo.cpp closes only Y.cc.
#[test]
fn did_open_fan_out() {
    let mut state = GlobalState::new(fan_out_mapping());

    let opened = handle_did_open_text_document(&mut state, "foo.cpp").unwrap();
    assert_eq!(opened, vec!["X.cc".to_string(), "Y.cc".to_string()]);

    let opened = handle_did_open_text_document(&mut state, "foo-extra.cpp").unwrap();
    assert!(opened.is_empty());

    let closed = handle_did_close_text_document(&mut state, "foo.cpp").unwrap();
    assert_eq!(closed, vec!["Y.cc".to_string()]);

    // Closing the sibling now releases X.cc as well.
    let closed = handle_did_close_text_document(&mut state, "foo-extra.cpp").unwrap();
    assert_eq!(closed, vec!["X.cc".to_string()]);
}

#[test]
fn did_open_unknown_file_passes_through() {
    let mut state = GlobalState::new(fan_out_mapping());
    assert!(handle_did_open_text_document(&mut state, "stranger.cpp").is_none());
    assert!(handle_did_close_text_document(&mut state, "stranger.cpp").is_none());
}

#[test]
fn did_close_without_open_emits_nothing() {
    let mut state = GlobalState::new(fan_out_mapping());
    let closed = handle_did_close_text_document(&mut state, "foo.cpp").unwrap();
    assert!(closed.is_empty());
}

fn span(sl: u32, sc: u32, el: u32, ec: u32) -> Range {
    Range {
        start: Position { line: sl, character: sc },
        end: Position { line: el, character: ec },
    }
}

/// The cross-file change refusal scenario: a change whose range starts in
/// the region mapped to X.cc and ends in the region mapped to Y.cc is
/// dropped; the other change in the same notification is delivered.
#[test]
fn did_change_cross_file_refusal() {
    let m = fan_out_mapping();
    let changes = vec![
        // Fine: inside the X.cc region of foo.cpp.
        ContentChange { range: Some(span(1, 0, 2, 5)), tag: 0 },
        // Crosses from the interface region (X.cc) into the implementation
        // region (Y.cc).
        ContentChange { range: Some(span(1, 0, 25, 0)), tag: 1 },
    ];
    let groups = handle_did_change_text_document(&m, "foo.cpp", changes).unwrap();
    assert_eq!(groups.len(), 1);
    assert_eq!(groups[0].0, "X.cc");
    assert_eq!(groups[0].1.len(), 1);
    assert_eq!(groups[0].1[0].tag, 0);
    assert_eq!(groups[0].1[0].range.unwrap().start.line, 1);
    assert_eq!(groups[0].1[0].range.unwrap().end.line, 2);
}

#[test]
fn did_change_buckets_by_destination() {
    let m = fan_out_mapping();
    let changes = vec![
        ContentChange { range: Some(span(1, 0, 1, 4)), tag: 0 }, // X.cc
        ContentChange { range: Some(span(22, 0, 23, 0)), tag: 1 }, // Y.cc
        ContentChange { range: Some(span(2, 0, 2, 1)), tag: 2 }, // X.cc
        // A whole-document change carries no range and is dropped.
        ContentChange { range: None, tag: 3 },
    ];
    let groups = handle_did_change_text_document(&m, "foo.cpp", changes).unwrap();
    assert_eq!(groups.len(), 2);
    assert_eq!(groups[0].0, "X.cc");
    assert_eq!(groups[0].1.iter().map(|c| c.tag).collect::<Vec<_>>(), vec![0, 2]);
    assert_eq!(groups[1].0, "Y.cc");
    assert_eq!(groups[1].1.iter().map(|c| c.tag).collect::<Vec<_>>(), vec![1]);
    assert_eq!(groups[1].1[0].range.unwrap().start.line, 2);
}

#[test]
fn did_change_unknown_file_passes_through() {
    let m = fan_out_mapping();
    assert!(handle_did_change_text_document(&m, "stranger.cpp", Vec::new()).is_none());
}

//! Tests of the server-to-client translation paths: diagnostics fan-in,
//! goto responses, highlights, and code actions.

use fiasco_lsp_proxy::global_state::{ReqContext, ReqId, ReqValue};
use fiasco_lsp_proxy::handler::code_action::{
    handle_req_code_action, handle_res_code_action, CodeAction, CodeActionOrCommand,
    CodeActionParams, TextEdit,
};
use fiasco_lsp_proxy::handler::diagnostics::{handle_publish_diagnostics, Diagnostic};
use fiasco_lsp_proxy::handler::document_highlight::{
    handle_res_document_highlight, DocumentHighlight,
};
use fiasco_lsp_proxy::handler::goto::{
    handle_res_goto, handle_res_references, GotoResponse, LocationLink,
};
use fiasco_lsp_proxy::source_mapping::{
    FiascoSourceMapping, LineMapping, PreprocessSection,
};
use fiasco_lsp_proxy::util::{Location, Position, Range};

fn mapping(section: PreprocessSection, src: u32, end: u32, dst_file: &str, dst: u32) -> LineMapping {
    LineMapping {
        section,
        src_line: src,
        src_end_line: end,
        dst_file: dst_file.to_string(),
        dst_line: dst,
    }
}

/// X.cc was built from foo.cpp (lines 0..10 of X.cc) and foo-extra.cpp
/// (lines 10..20 of X.cc).
fn fan_in_mapping() -> FiascoSourceMapping {
    let mut m = FiascoSourceMapping::new();
    m.add_preprocessed_file(
        "X.cc",
        vec![
            mapping(PreprocessSection::Interface, 0, 10, "foo.cpp", 0),
            mapping(PreprocessSection::Interface, 10, 20, "foo-extra.cpp", 0),
        ],
    );
    m.sort();
    assert!(m.check());
    m
}

fn span(sl: u32, sc: u32, el: u32, ec: u32) -> Range {
    Range {
        start: Position { line: sl, character: sc },
        end: Position { line: el, character: ec },
    }
}

/// The diagnostics fan-in scenario: one diagnostic per author file plus a
/// whole-file diagnostic that is copied to both.
#[test]
fn diagnostics_fan_in() {
    let m = fan_in_mapping();
    let diags = vec![
        Diagnostic { range: span(2, 0, 2, 5), tag: 1 },  // maps to foo.cpp
        Diagnostic { range: span(12, 0, 12, 5), tag: 2 },  // maps to foo-extra.cpp
        Diagnostic { range: span(0, 0, 0, 0), tag: 3 },  // whole file
    ];
    let groups = handle_publish_diagnostics(&m, "X.cc", diags).unwrap();
    assert_eq!(groups.len(), 2);
    assert_eq!(groups[0].0, "foo.cpp");
    assert_eq!(groups[0].1.iter().map(|d| d.tag).collect::<Vec<_>>(), vec![1, 3]);
    assert_eq!(groups[0].1[0].range.start.line, 2);
    assert_eq!(groups[1].0, "foo-extra.cpp");
    assert_eq!(groups[1].1.iter().map(|d| d.tag).collect::<Vec<_>>(), vec![2, 3]);
    assert_eq!(groups[1].1[0].range.start.line, 2);
}

#[test]
fn diagnostics_unknown_file_passes_through() {
    let m = fan_in_mapping();
    assert!(handle_publish_diagnostics(&m, "Z.cc", Vec::new()).is_none());
}

fn path_pair_context() -> ReqContext {
    let mut ctx = ReqContext::new("textDocument/definition".to_string(), ReqId::Num(7));
    ctx.set_value(ReqValue::PathPair {
        source_path: "foo.cpp".to_string(),
        mapped_path: "X.cc".to_string(),
    });
    ctx
}

/// The goto fan-out merge scenario: a link whose target range and target
/// selection range map into different author files is dropped, leaving an
/// empty result rather than an error.
#[test]
fn goto_link_divergent_targets_dropped() {
    let m = fan_in_mapping();
    let mut ctx = path_pair_context();
    let link = LocationLink {
        origin_selection_range: None,
        target_path: "X.cc".to_string(),
        // 2..4 maps into foo.cpp ...
        target_range: span(2, 0, 4, 0),
        // ... but the selection range maps into foo-extra.cpp.
        target_selection_range: span(12, 0, 13, 0),
        tag: 0,
    };
    let r = handle_res_goto(&m, &mut ctx, Some(GotoResponse::Link(vec![link])));
    match r {
        Some(GotoResponse::Link(links)) => assert!(links.is_empty()),
        _ => panic!("expected a link response"),
    }
}

#[test]
fn goto_link_consistent_targets_survive() {
    let m = fan_in_mapping();
    let mut ctx = path_pair_context();
    let link = LocationLink {
        origin_selection_range: Some(span(3, 0, 3, 4)),
        target_path: "X.cc".to_string(),
        target_range: span(2, 0, 4, 0),
        target_selection_range: span(2, 1, 2, 5),
        tag: 9,
    };
    let r = handle_res_goto(&m, &mut ctx, Some(GotoResponse::Link(vec![link])));
    match r {
        Some(GotoResponse::Link(links)) => {
            assert_eq!(links.len(), 1);
            assert_eq!(links[0].target_path, "foo.cpp");
            assert_eq!(links[0].target_range.start.line, 2);
            assert_eq!(links[0].target_selection_range.start.line, 2);
            assert_eq!(links[0].origin_selection_range.unwrap().start.line, 3);
            assert_eq!(links[0].tag, 9);
        },
        _ => panic!("expected a link response"),
    }
}

#[test]
fn goto_array_keeps_only_mappable_locations() {
    let m = fan_in_mapping();
    let mut ctx = path_pair_context();
    let locs = vec![
        Location { path: "X.cc".to_string(), range: span(2, 0, 3, 0) },
        Location { path: "Z.cc".to_string(), range: span(2, 0, 3, 0) },
    ];
    let r = handle_res_goto(&m, &mut ctx, Some(GotoResponse::Array(locs)));
    match r {
        Some(GotoResponse::Array(ls)) => {
            assert_eq!(ls.len(), 2);
            assert_eq!(ls[0].path, "foo.cpp");
            // The unknown file passes through unchanged rather than failing.
            assert_eq!(ls[1].path, "Z.cc");
        },
        _ => panic!("expected an array response"),
    }
}

#[test]
fn references_are_mapped_back() {
    let m = fan_in_mapping();
    let mut ctx = path_pair_context();
    let locs = vec![Location { path: "X.cc".to_string(), range: span(12, 0, 12, 3) }];
    let r = handle_res_references(&m, &mut ctx, Some(locs)).unwrap();
    assert_eq!(r.len(), 1);
    assert_eq!(r[0].path, "foo-extra.cpp");
    assert_eq!(r[0].range.start.line, 2);
}

#[test]
fn highlights_outside_the_request_file_are_dropped() {
    let m = fan_in_mapping();
    let mut ctx = path_pair_context();
    let hs = vec![
        DocumentHighlight { range: span(1, 0, 1, 2), tag: 0 },  // foo.cpp
        DocumentHighlight { range: span(11, 0, 11, 2), tag: 1 },  // foo-extra.cpp
    ];
    let r = handle_res_document_highlight(&m, &mut ctx, Some(hs)).unwrap();
    assert_eq!(r.len(), 1);
    assert_eq!(r[0].tag, 0);
    assert_eq!(r[0].range.start.line, 1);
}

#[test]
fn code_action_request_translates_and_filters() {
    let m = fan_in_mapping();
    let mut ctx = ReqContext::new("textDocument/codeAction".to_string(), ReqId::Num(1));
    let params = CodeActionParams {
        path: "foo.cpp".to_string(),
        range: span(1, 0, 2, 0),
        diagnostics: vec![
            Diagnostic { range: span(1, 0, 1, 5), tag: 0 },
            // An out-of-range diagnostic passes through unmapped and lands
            // in the same (identity) file, so it is detached.
            Diagnostic { range: span(90, 0, 91, 0), tag: 1 },
        ],
    };
    let r = handle_req_code_action(&m, &mut ctx, params);
    assert_eq!(r.path, "X.cc");
    assert_eq!(r.range.start.line, 1);
    assert_eq!(r.diagnostics.len(), 1);
    assert_eq!(r.diagnostics[0].tag, 0);
    assert_eq!(r.diagnostics[0].range.start.line, 1);
}

#[test]
fn code_action_response_rebuckets_edits() {
    let m = fan_in_mapping();
    let mut ctx = path_pair_context();
    let action = CodeAction {
        edit_changes: Some(vec![(
            "X.cc".to_string(),
            vec![
                TextEdit { range: span(1, 0, 1, 4), tag: 0 },  // foo.cpp
                TextEdit { range: span(11, 0, 11, 4), tag: 1 },  // foo-extra.cpp
            ],
        )]),
        diagnostics: Some(vec![Diagnostic { range: span(2, 0, 2, 2), tag: 5 }]),
        tag: 3,
    };
    let r = handle_res_code_action(
        &m,
        &mut ctx,
        Some(vec![CodeActionOrCommand::Action(action), CodeActionOrCommand::Command { tag: 8 }]),
    )
    .unwrap();
    assert_eq!(r.len(), 2);
    match &r[0] {
        CodeActionOrCommand::Action(a) => {
            let changes = a.edit_changes.as_ref().unwrap();
            assert_eq!(changes.len(), 2);
            assert_eq!(changes[0].0, "foo.cpp");
            assert_eq!(changes[0].1.len(), 1);
            assert_eq!(changes[0].1[0].tag, 0);
            assert_eq!(changes[0].1[0].range.start.line, 1);
            assert_eq!(changes[1].0, "foo-extra.cpp");
            assert_eq!(changes[1].1[0].tag, 1);
            assert_eq!(changes[1].1[0].range.start.line, 1);
            let diags = a.diagnostics.as_ref().unwrap();
            assert_eq!(diags.len(), 1);
            assert_eq!(diags[0].tag, 5);
            assert_eq!(a.tag, 3);
        },
        _ => panic!("expected an action"),
    }
    assert!(matches!(r[1], CodeActionOrCommand::Command { tag: 8 }));
}

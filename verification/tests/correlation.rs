//! Tests of the correlation state: request registries, fresh identifiers,
//! and the fan-out joins.

use fiasco_lsp_proxy::global_state::{GlobalState, ReqContext, ReqContextAlloc, ReqId};
use fiasco_lsp_proxy::handler::document_symbol::{
    handle_req_doc_symbol, handle_res_doc_symbol, DocumentSymbolParams,
};
use fiasco_lsp_proxy::handler::inlay_hint::{
    handle_req_inlay_hint, handle_res_inlay_hint, InlayHintParams,
};
use fiasco_lsp_proxy::source_mapping::{
    FiascoSourceMapping, LineMapping, PreprocessSection,
};
use fiasco_lsp_proxy::util::{
    DocSymbol, DocSymbolResponse, FlatSymbol, InlayHintItem, Location, Position, Range,
};
use fiasco_lsp_proxy::Direction;

fn mapping(section: PreprocessSection, src: u32, end: u32, dst_file: &str, dst: u32) -> LineMapping {
    LineMapping {
        section,
        src_line: src,
        src_end_line: end,
        dst_file: dst_file.to_string(),
        dst_line: dst,
    }
}

fn fan_out_mapping() -> FiascoSourceMapping {
    let mut m = FiascoSourceMapping::new();
    m.add_preprocessed_file(
        "X.cc",
        vec![
            mapping(PreprocessSection::Interface, 0, 10, "foo.cpp", 0),
            mapping(PreprocessSection::Interface, 10, 20, "foo-extra.cpp", 0),
        ],
    );
    m.add_preprocessed_file(
        "Y.cc",
        vec![mapping(PreprocessSection::Implementation, 0, 15, "foo.cpp", 20)],
    );
    m.sort();
    assert!(m.check());
    m
}

fn span(sl: u32, sc: u32, el: u32, ec: u32) -> Range {
    Range {
        start: Position { line: sl, character: sc },
        end: Position { line: el, character: ec },
    }
}

/// The identifier round trip: a response is emitted under exactly the
/// identifier the originating peer used, and the registry shrinks by one.
#[test]
fn request_id_round_trip() {
    let mut state = GlobalState::new(fan_out_mapping());
    let ctx = ReqContext::new("textDocument/hover".to_string(), ReqId::Num(42));
    let fresh = state.register_request(Direction::ToServer, ctx);
    assert_eq!(state.client_reqs.len(), 1);

    let got = state.take_response(Direction::ToServer, fresh).unwrap();
    assert!(matches!(got.req_id, ReqId::Num(42)));
    assert_eq!(got.method, "textDocument/hover");
    assert_eq!(state.client_reqs.len(), 0);

    // A second arrival of the same identifier finds nothing.
    assert!(state.take_response(Direction::ToServer, fresh).is_none());
}

#[test]
fn registries_are_per_direction() {
    let mut state = GlobalState::new(fan_out_mapping());
    let c1 = ReqContext::new("a".to_string(), ReqId::Num(1));
    let c2 = ReqContext::new("b".to_string(), ReqId::Text("two".to_string()));
    let f1 = state.register_request(Direction::ToServer, c1);
    let f2 = state.register_request(Direction::FromServer, c2);
    assert_ne!(f1, f2);
    assert!(state.take_response(Direction::FromServer, f1).is_none());
    let got = state.take_response(Direction::FromServer, f2).unwrap();
    assert!(matches!(got.req_id, ReqId::Text(t) if t == "two"));
}

/// An inlay-hint request over a range covering both preprocessed files
/// fans out into two whole-file sub-requests, and the responses join back
/// into one list that keeps only the author file's hints.
#[test]
fn inlay_hint_fan_out_and_join() {
    let mut state = GlobalState::new(fan_out_mapping());
    let alloc = ReqContextAlloc {
        req_method: "textDocument/inlayHint".to_string(),
        req_id: ReqId::Num(5),
    };
    let params = InlayHintParams { path: "foo.cpp".to_string(), range: span(0, 0, 25, 0) };
    let mut shards = handle_req_inlay_hint(&mut state, &alloc, &params).unwrap();
    // The overlap scan visits the implementation section first.
    assert_eq!(shards.len(), 2);
    assert_eq!(shards[0].0.path, "Y.cc");
    assert_eq!(shards[0].0.range.start.line, 0);
    assert_eq!(shards[0].0.range.end.line, 15);
    assert_eq!(shards[1].0.path, "X.cc");
    assert_eq!(shards[1].0.range.end.line, 20);

    let mut ctx_x = shards.pop().unwrap().1;
    let mut ctx_y = shards.pop().unwrap().1;

    // First shard: a hint in Y.cc, mapping back to foo.cpp line 23.
    let hints = vec![InlayHintItem { position: Position { line: 3, character: 0 }, tag: 2 }];
    let r = handle_res_inlay_hint(&mut state, &mut ctx_y, Some(hints));
    assert!(r.is_none(), "the first shard must be held back");

    // Last shard: one hint mapping back into foo.cpp, one into the
    // sibling author file, which is dropped.
    let hints = vec![
        InlayHintItem { position: Position { line: 2, character: 1 }, tag: 0 },
        InlayHintItem { position: Position { line: 12, character: 1 }, tag: 1 },
    ];
    let r = handle_res_inlay_hint(&mut state, &mut ctx_x, Some(hints));
    let merged = r.expect("last shard releases the join").expect("a merged list");
    assert_eq!(merged.len(), 2);
    assert_eq!(merged[0].tag, 2);
    // Y.cc line 3 maps back to foo.cpp line 23.
    assert_eq!(merged[0].position.line, 23);
    assert_eq!(merged[1].tag, 0);
    assert_eq!(merged[1].position.line, 2);
}

/// A document-symbol request fans out one sub-request per preprocessed
/// file; flat responses are filtered per shard and merged.
#[test]
fn document_symbol_fan_out_and_merge() {
    let mut state = GlobalState::new(fan_out_mapping());
    let alloc = ReqContextAlloc {
        req_method: "textDocument/documentSymbol".to_string(),
        req_id: ReqId::Num(9),
    };
    let params = DocumentSymbolParams { path: "foo.cpp".to_string() };
    let mut shards = handle_req_doc_symbol(&mut state, &alloc, &params).unwrap();
    assert_eq!(shards.len(), 2);
    assert_eq!(shards[0].0.path, "X.cc");
    assert_eq!(shards[1].0.path, "Y.cc");

    let mut ctx1 = shards.pop().unwrap().1;
    let mut ctx0 = shards.pop().unwrap().1;

    let flat = vec![
        FlatSymbol {
            location: Location { path: "X.cc".to_string(), range: span(1, 0, 2, 0) },
            tag: 0,
        },
        FlatSymbol {
            location: Location { path: "X.cc".to_string(), range: span(11, 0, 12, 0) },
            tag: 1,
        },
    ];
    let r = handle_res_doc_symbol(&mut state, &mut ctx0, Some(DocSymbolResponse::Flat(flat)));
    assert!(r.is_none());

    let flat = vec![FlatSymbol {
        location: Location { path: "Y.cc".to_string(), range: span(1, 0, 1, 5) },
        tag: 2,
    }];
    let r = handle_res_doc_symbol(&mut state, &mut ctx1, Some(DocSymbolResponse::Flat(flat)));
    let merged = r.expect("last shard").expect("merged response");
    match merged {
        DocSymbolResponse::Flat(ss) => {
            assert_eq!(ss.len(), 2);
            assert_eq!(ss[0].tag, 0);
            assert_eq!(ss[0].location.path, "foo.cpp");
            assert_eq!(ss[1].tag, 2);
            assert_eq!(ss[1].location.path, "foo.cpp");
            assert_eq!(ss[1].location.range.start.line, 21);
        },
        _ => panic!("expected a flat response"),
    }
}

/// Nested symbols are filtered recursively: a child that maps into the
/// sibling author file disappears while its parent survives.
#[test]
fn nested_symbols_filtered_recursively() {
    let mut state = GlobalState::new(fan_out_mapping());
    let alloc = ReqContextAlloc {
        req_method: "textDocument/documentSymbol".to_string(),
        req_id: ReqId::Num(10),
    };
    // Narrow the fan-out to one file by using the sibling author file,
    // which maps only into X.cc.
    let params = DocumentSymbolParams { path: "foo-extra.cpp".to_string() };
    let mut shards = handle_req_doc_symbol(&mut state, &alloc, &params).unwrap();
    assert_eq!(shards.len(), 1);
    let mut ctx = shards.pop().unwrap().1;

    let tree = vec![DocSymbol {
        range: span(11, 0, 15, 0),
        selection_range: span(11, 0, 11, 4),
        children: vec![
            DocSymbol {
                range: span(12, 0, 13, 0),
                selection_range: span(12, 0, 12, 2),
                children: Vec::new(),
                tag: 1,
            },
            // This child sits in foo.cpp's region of X.cc.
            DocSymbol {
                range: span(2, 0, 3, 0),
                selection_range: span(2, 0, 2, 2),
                children: Vec::new(),
                tag: 2,
            },
        ],
        tag: 0,
    }];
    let r = handle_res_doc_symbol(&mut state, &mut ctx, Some(DocSymbolResponse::Nested(tree)));
    let merged = r.expect("single shard").expect("merged response");
    match merged {
        DocSymbolResponse::Nested(ss) => {
            assert_eq!(ss.len(), 1);
            assert_eq!(ss[0].tag, 0);
            assert_eq!(ss[0].range.start.line, 1);
            assert_eq!(ss[0].children.len(), 1);
            assert_eq!(ss[0].children[0].tag, 1);
            assert_eq!(ss[0].children[0].range.start.line, 2);
        },
        _ => panic!("expected a nested response"),
    }
}

//! Translation of document-symbol requests and responses.
//!
//! An author file's symbols live in every preprocessed file it feeds, so
//! the request is fanned out, one sub-request per preprocessed file.  Each
//! response shard is filtered down to the symbols that map back into the
//! author file — recursively, for the nested response shape — and the last
//! shard releases the merged response.

use vstd::prelude::*;

use crate::global_state::{
    join_contains, join_index, GlobalState, ReqContext, ReqContextAlloc, ReqValue,
};
use crate::handler::document_sync::known_file;

use crate::source_mapping::{entry_for, has_entry, FiascoSourceMapping, MapDirection};
use crate::util::{DocSymbol, DocSymbolResponse, FlatSymbol, Range};

verus! {

/// What a document-symbol request carries: the document.
#[derive(Debug)]
pub struct DocumentSymbolParams {
    pub path: String,
}

/// The mathematical content of a nested symbol tree node.
pub struct DocSymbolModel {
    pub range: Range,
    pub selection_range: Range,
    pub children: Seq<DocSymbolModel>,
    pub tag: usize,
}

/// The model of one nested symbol.
pub open spec fn symbol_model(s: DocSymbol) -> DocSymbolModel
    decreases s, 1int,
{
    DocSymbolModel {
        range: s.range,
        selection_range: s.selection_range,
        children: symbols_model_from(s.children@, 0),
        tag: s.tag,
    }
}

/// The models of the symbols of `ss` from index `i` on.
pub open spec fn symbols_model_from(ss: Seq<DocSymbol>, i: int) -> Seq<DocSymbolModel>
    decreases ss, 0int, ss.len() - i,
{
    if i < 0 || i >= ss.len() {
        Seq::empty()
    } else {
        seq![symbol_model(ss[i])] + symbols_model_from(ss, i + 1)
    }
}

/// The models of a whole symbol list.
pub open spec fn symbols_model(ss: Seq<DocSymbol>) -> Seq<DocSymbolModel> {
    symbols_model_from(ss, 0)
}

/// Index access into the model list.
pub proof fn lemma_symbols_model_from(ss: Seq<DocSymbol>, i: int)
    requires
        0 <= i <= ss.len(),
    ensures
        symbols_model_from(ss, i).len() == ss.len() - i,
        forall|j: int|
            i <= j < ss.len() ==> symbols_model_from(ss, i)[j - i] == symbol_model(#[trigger] ss[j]),
    decreases ss.len() - i,
{
    if i < ss.len() {
        lemma_symbols_model_from(ss, i + 1);
    }
}

/// The mathematical content of one flat symbol.
pub struct FlatSymbolModel {
    pub path: Seq<char>,
    pub range: Range,
    pub tag: usize,
}

/// The model of one flat symbol.
pub open spec fn flat_model(s: FlatSymbol) -> FlatSymbolModel {
    FlatSymbolModel { path: s.location.path@, range: s.location.range, tag: s.tag }
}

/// The mathematical content of a whole response.
pub enum DocSymbolResponseModel {
    Flat(Seq<FlatSymbolModel>),
    Nested(Seq<DocSymbolModel>),
}

/// The models of a flat-symbol sequence.
pub open spec fn flat_seq_view(ss: Seq<FlatSymbol>) -> Seq<FlatSymbolModel> {
    ss.map_values(|s: FlatSymbol| flat_model(s))
}

/// The model of one whole response.
pub open spec fn resp_model(r: DocSymbolResponse) -> DocSymbolResponseModel {
    match r {
        DocSymbolResponse::Flat(ss) => DocSymbolResponseModel::Flat(flat_seq_view(ss@)),
        DocSymbolResponse::Nested(ss) => DocSymbolResponseModel::Nested(symbols_model(ss@)),
    }
}

/// What one nested symbol becomes: dropped unless its range maps out of
/// the preprocessed file into the author file and its selection range maps
/// into the same file; kept symbols carry translated spans and recursively
/// filtered children.
pub open spec fn symbol_filtered(
    m: FiascoSourceMapping,
    sp: Seq<char>,
    mp: Seq<char>,
    s: DocSymbolModel,
) -> Option<DocSymbolModel>
    decreases s, 1int,
{
    let range_ok = m.spec_range_ok(MapDirection::FromPreprocess, mp, s.range);
    let mapped = m.spec_map_range(MapDirection::FromPreprocess, mp, s.range);
    let sel_ok = m.spec_range_ok(MapDirection::FromPreprocess, mp, s.selection_range);
    let sel = m.spec_map_range(MapDirection::FromPreprocess, mp, s.selection_range);
    if range_ok && mapped.0 == sp && sel_ok && sel.0 == mapped.0 {
        Some(
            DocSymbolModel {
                range: mapped.1,
                selection_range: sel.1,
                children: symbols_filtered_from(m, sp, mp, s.children, 0),
                tag: s.tag,
            },
        )
    } else {
        None
    }
}

/// The suffix of `ss` from `i` on, each symbol filtered, survivors in
/// order.
pub open spec fn symbols_filtered_from(
    m: FiascoSourceMapping,
    sp: Seq<char>,
    mp: Seq<char>,
    ss: Seq<DocSymbolModel>,
    i: int,
) -> Seq<DocSymbolModel>
    decreases ss, 0int, ss.len() - i,
{
    if i < 0 || i >= ss.len() {
        Seq::empty()
    } else {
        let rest = symbols_filtered_from(m, sp, mp, ss, i + 1);
        match symbol_filtered(m, sp, mp, ss[i]) {
            Some(s2) => seq![s2] + rest,
            None => rest,
        }
    }
}

/// Filter one nested symbol, translating its spans and its children.
pub fn filter_document_symbol(
    mapping: &FiascoSourceMapping,
    source_path: &String,
    mapped_path: &String,
    s: &DocSymbol,
) -> (r: Option<DocSymbol>)
    requires
        mapping.wf(),
    ensures
        match symbol_filtered(*mapping, source_path@, mapped_path@, symbol_model(*s)) {
            Some(model) => r matches Some(s2) && symbol_model(s2) == model,
            None => r is None,
        },
    decreases *s, 1int,
{
    let mut p = mapped_path.clone();
    let mut range = s.range;
    let range_ok = mapping.map_range(MapDirection::FromPreprocess, &mut p, &mut range);
    if range_ok.is_err() {
        return None;
    }
    if !crate::util::str_eq(p.as_str(), source_path.as_str()) {
        return None;
    }
    let mut sel_p = mapped_path.clone();
    let mut selection_range = s.selection_range;
    let sel_ok = mapping.map_range(MapDirection::FromPreprocess, &mut sel_p, &mut selection_range);
    if sel_ok.is_err() {
        return None;
    }
    if !crate::util::str_eq(sel_p.as_str(), p.as_str()) {
        return None;
    }
    let children = filter_document_symbols_from(mapping, source_path, mapped_path, &s.children, 0);
    let r = DocSymbol { range, selection_range, children, tag: s.tag };
    proof {
        assert(symbol_model(r) == symbol_filtered(
            *mapping,
            source_path@,
            mapped_path@,
            symbol_model(*s),
        )->Some_0);
    }
    Some(r)
}

/// Filter the symbols of `ss` from index `from` on.
pub fn filter_document_symbols_from(
    mapping: &FiascoSourceMapping,
    source_path: &String,
    mapped_path: &String,
    ss: &Vec<DocSymbol>,
    from: usize,
) -> (r: Vec<DocSymbol>)
    requires
        mapping.wf(),
        from <= ss@.len(),
    ensures
        symbols_model(r@) == symbols_filtered_from(
            *mapping,
            source_path@,
            mapped_path@,
            symbols_model(ss@),
            from as int,
        ),
    decreases *ss, 0int, ss@.len() - from,
{
    proof {
        lemma_symbols_model_from(ss@, 0);
    }
    if from >= ss.len() {
        let r: Vec<DocSymbol> = Vec::new();
        proof {
            assert(symbols_model(r@) =~= Seq::<DocSymbolModel>::empty());
            assert(symbols_filtered_from(
                *mapping,
                source_path@,
                mapped_path@,
                symbols_model(ss@),
                from as int,
            ) =~= Seq::<DocSymbolModel>::empty());
        }
        return r;
    }
    let first = filter_document_symbol(mapping, source_path, mapped_path, &ss[from]);
    let mut rest = filter_document_symbols_from(mapping, source_path, mapped_path, ss, from + 1);
    proof {
        assert(symbols_model(ss@)[from as int] == symbol_model(ss@[from as int]));
    }
    match first {
        Some(s2) => {
            let ghost s2_snap = s2;
            let ghost rest_snap = rest@;
            let mut out: Vec<DocSymbol> = Vec::new();
            out.push(s2);
            out.append(&mut rest);
            proof {
                assert(out@ =~= seq![s2_snap] + rest_snap);
                lemma_symbols_model_push_front(s2_snap, rest_snap);
                assert(symbols_model(out@) =~= seq![symbol_model(s2_snap)] + symbols_model(
                    rest_snap,
                ));
                lemma_symbols_model_from(ss@, 0);
                assert(symbols_filtered_from(
                    *mapping,
                    source_path@,
                    mapped_path@,
                    symbols_model(ss@),
                    from as int,
                ) == seq![
                    symbol_filtered(
                        *mapping,
                        source_path@,
                        mapped_path@,
                        symbols_model(ss@)[from as int],
                    )->Some_0,
                ] + symbols_filtered_from(
                    *mapping,
                    source_path@,
                    mapped_path@,
                    symbols_model(ss@),
                    from as int + 1,
                ));
                assert(symbols_model(out@) =~= symbols_filtered_from(
                    *mapping,
                    source_path@,
                    mapped_path@,
                    symbols_model(ss@),
                    from as int,
                ));
            }
            out
        },
        None => {
            proof {
                assert(symbols_model(rest@) =~= symbols_filtered_from(
                    *mapping,
                    source_path@,
                    mapped_path@,
                    symbols_model(ss@),
                    from as int,
                ));
            }
            rest
        },
    }
}

/// The model list of an element-first concatenation.
pub proof fn lemma_symbols_model_push_front(s: DocSymbol, rest: Seq<DocSymbol>)
    ensures
        symbols_model(seq![s] + rest) =~= seq![symbol_model(s)] + symbols_model(rest),
{
    let whole = seq![s] + rest;
    lemma_symbols_model_from(whole, 0);
    lemma_symbols_model_from(rest, 0);
    assert(whole[0] == s);
    assert forall|j: int| 0 <= j < rest.len() implies whole[j + 1] == rest[j] by {}
    assert forall|j: int|
        0 <= j < symbols_model(whole).len() implies symbols_model(whole)[j] == (seq![
        symbol_model(s),
    ] + symbols_model(rest))[j] by {
        if j == 0 {
            assert(symbols_model(whole)[0] == symbol_model(whole[0]));
        } else {
            assert(symbols_model(whole)[j] == symbol_model(whole[j]));
            assert(symbols_model(rest)[j - 1] == symbol_model(rest[j - 1]));
        }
    }
}

/// The flat symbols that survive: those whose location maps back cleanly
/// and lands in the author file, translated, in order.
pub open spec fn flat_filtered(
    m: FiascoSourceMapping,
    sp: Seq<char>,
    ss: Seq<FlatSymbolModel>,
) -> Seq<FlatSymbolModel>
    decreases ss.len(),
{
    if ss.len() == 0 {
        Seq::empty()
    } else {
        let rest = flat_filtered(m, sp, ss.drop_last());
        let s = ss.last();
        if m.spec_range_ok(MapDirection::FromPreprocess, s.path, s.range) && m.spec_map_range(
            MapDirection::FromPreprocess,
            s.path,
            s.range,
        ).0 == sp {
            rest.push(
                FlatSymbolModel {
                    path: m.spec_map_range(MapDirection::FromPreprocess, s.path, s.range).0,
                    range: m.spec_map_range(MapDirection::FromPreprocess, s.path, s.range).1,
                    tag: s.tag,
                },
            )
        } else {
            rest
        }
    }
}

/// Filter a flat symbol list down to the symbols that map back into the
/// author file.
pub fn filter_symbol_informations(
    mapping: &FiascoSourceMapping,
    source_path: &String,
    symbols: Vec<FlatSymbol>,
) -> (r: Vec<FlatSymbol>)
    requires
        mapping.wf(),
    ensures
        flat_seq_view(r@) == flat_filtered(*mapping, source_path@, flat_seq_view(symbols@)),
{
    let ghost all = flat_seq_view(symbols@);
    let mut rest = symbols;
    let n = rest.len();
    let mut out: Vec<FlatSymbol> = Vec::new();
    let mut i: usize = 0;
    proof {
        assert(flat_seq_view(rest@) =~= all.subrange(0, all.len() as int));
        assert(flat_seq_view(out@) =~= flat_filtered(*mapping, source_path@, all.subrange(0, 0)));
    }
    while rest.len() > 0
        invariant
            mapping.wf(),
            i <= all.len(),
            all.len() == n,
            flat_seq_view(rest@) =~= all.subrange(i as int, all.len() as int),
            flat_seq_view(out@) == flat_filtered(*mapping, source_path@, all.subrange(0, i as int)),
        decreases rest@.len(),
    {
        proof {
            assert(flat_seq_view(rest@).len() == rest@.len());
        }
        let ghost prefix = all.subrange(0, i as int);
        let ghost next = all.subrange(0, i + 1);
        let ghost pre_rest = rest@;
        let mut s = rest.remove(0);
        proof {
            assert(s == pre_rest[0]);
            assert(flat_model(s) == all[i as int]) by {
                assert(flat_seq_view(pre_rest)[0] == all.subrange(i as int, all.len() as int)[0]);
                assert(flat_seq_view(pre_rest)[0] == flat_model(pre_rest[0]));
            }
            assert(flat_seq_view(rest@) =~= all.subrange(i + 1, all.len() as int)) by {
                assert forall|j: int|
                    0 <= j < rest@.len() implies flat_seq_view(rest@)[j] == all[i + 1 + j] by {
                    assert(rest@[j] == pre_rest[j + 1]);
                    assert(flat_seq_view(rest@)[j] == flat_model(rest@[j]));
                    assert(flat_seq_view(pre_rest)[j + 1] == flat_model(pre_rest[j + 1]));
                    assert(flat_seq_view(pre_rest)[j + 1] == all.subrange(
                        i as int,
                        all.len() as int,
                    )[j + 1]);
                }
            }
            assert(next.drop_last() =~= prefix);
            assert(next.last() == flat_model(s));
        }
        let ok = mapping.map_location(MapDirection::FromPreprocess, &mut s.location);
        if ok.is_ok() && crate::util::str_eq(s.location.path.as_str(), source_path.as_str()) {
            let ghost pre_out = flat_seq_view(out@);
            out.push(s);
            proof {
                assert(flat_seq_view(out@) =~= pre_out.push(flat_model(s)));
                assert(flat_seq_view(out@) =~= flat_filtered(*mapping, source_path@, next));
            }
        } else {
            proof {
                assert(flat_seq_view(out@) == flat_filtered(*mapping, source_path@, next));
            }
        }
        i += 1;
    }
    proof {
        assert(all.subrange(0, all.len() as int) =~= all);
    }
    out
}

/// Handle an author-side document-symbol request: open a join and emit one
/// sub-request per preprocessed file the author file feeds, each carrying
/// a shard context.  `None` means the file is unknown and the request
/// should be forwarded unchanged.
pub fn handle_req_doc_symbol(
    state: &mut GlobalState,
    req_context_alloc: &ReqContextAlloc,
    params: &DocumentSymbolParams,
) -> (r: Option<Vec<(DocumentSymbolParams, ReqContext)>>)
    requires
        old(state).wf(),
        old(state).next_req_id < u64::MAX,
    ensures
        final(state).wf(),
        final(state).source_mapping == old(state).source_mapping,
        final(state).open_files == old(state).open_files,
        final(state).client_reqs == old(state).client_reqs,
        final(state).server_reqs == old(state).server_reqs,
        final(state).inlay_joins == old(state).inlay_joins,
        r is None <==> !known_file(
            old(state).source_mapping,
            MapDirection::ToPreprocess,
            params.path@,
        ),
        r is None ==> *final(state) == *old(state),
        r matches Some(shards) ==> ({
            let batch = old(state).next_req_id;
            let files = crate::handler::document_sync::dest_files(
                old(state).source_mapping,
                MapDirection::ToPreprocess,
                params.path@,
            );
            &&& shards@.len() == files.len()
            &&& shards@.len() >= 1
            &&& final(state).next_req_id == old(state).next_req_id + 1
            &&& final(state).symbol_joins.slots@.len() == old(state).symbol_joins.slots@.len() + 1
            &&& final(state).symbol_joins.slots@.last().batch == batch
            &&& final(state).symbol_joins.slots@.last().remaining == shards@.len()
            &&& final(state).symbol_joins.slots@.last().items@.len() == 0
            &&& forall|k: int|
                0 <= k < shards@.len() ==> {
                    let (p, ctx) = #[trigger] shards@[k];
                    &&& p.path@ == files[k]
                    &&& ctx.method == req_context_alloc.req_method
                    &&& ctx.req_id == req_context_alloc.req_id
                    &&& ctx.value matches Some(ReqValue::Shard { source_path, mapped_path, batch: b })
                        && source_path@ == params.path@ && mapped_path@ == p.path@ && b == batch
                }
        }),
{
    let files = state.source_mapping.map_files(MapDirection::ToPreprocess, params.path.as_str());
    if files.len() == 0 {
        proof {
            if has_entry(state.source_mapping.side(MapDirection::ToPreprocess), params.path@) {
                assert(entry_for(
                    state.source_mapping.side(MapDirection::ToPreprocess),
                    params.path@,
                ).files@.len() == 0);
            }
        }
        return None;
    }
    proof {
        assert(has_entry(state.source_mapping.side(MapDirection::ToPreprocess), params.path@));
    }
    let ghost m = state.source_mapping;
    let ghost fl = crate::handler::document_sync::dest_files(
        m,
        MapDirection::ToPreprocess,
        params.path@,
    );
    proof {
        assert(files@ == entry_for(m.side(MapDirection::ToPreprocess), params.path@).files@);
        assert(forall|j: int| 0 <= j < files@.len() ==> fl[j] == (#[trigger] files@[j])@);
    }
    let batch = state.open_symbol_join(files.len());
    let mut shards: Vec<(DocumentSymbolParams, ReqContext)> = Vec::new();
    let mut i: usize = 0;
    while i < files.len()
        invariant
            i <= files@.len(),
            shards@.len() == i,
            fl.len() == files@.len(),
            forall|j: int| 0 <= j < files@.len() ==> fl[j] == (#[trigger] files@[j])@,
            forall|k: int|
                0 <= k < i ==> {
                    let (p, ctx) = #[trigger] shards@[k];
                    &&& p.path@ == fl[k]
                    &&& ctx.method == req_context_alloc.req_method
                    &&& ctx.req_id == req_context_alloc.req_id
                    &&& ctx.value matches Some(ReqValue::Shard { source_path, mapped_path, batch: b })
                        && source_path@ == params.path@ && mapped_path@ == p.path@ && b == batch
                },
        decreases files@.len() - i,
    {
        let f = &files[i];
        let mut ctx = req_context_alloc.fresh_context();
        ctx.set_value(
            ReqValue::Shard {
                source_path: params.path.clone(),
                mapped_path: f.clone(),
                batch,
            },
        );
        shards.push((DocumentSymbolParams { path: f.clone() }, ctx));
        i += 1;
    }
    Some(shards)
}

/// The models of a response sequence.
pub open spec fn resp_seq_view(rs: Seq<DocSymbolResponse>) -> Seq<DocSymbolResponseModel> {
    rs.map_values(|r: DocSymbolResponse| resp_model(r))
}

/// The merge of the gathered shard responses: the first shard fixes the
/// shape; later shards of the same shape are appended, shards of the other
/// shape are dropped.
pub open spec fn merged_responses(rs: Seq<DocSymbolResponseModel>) -> Option<DocSymbolResponseModel>
    decreases rs.len(),
{
    if rs.len() == 0 {
        None
    } else {
        let rest = merged_responses(rs.drop_last());
        match rest {
            None => Some(rs.last()),
            Some(acc) => match (acc, rs.last()) {
                (DocSymbolResponseModel::Flat(a), DocSymbolResponseModel::Flat(b)) => Some(
                    DocSymbolResponseModel::Flat(a + b),
                ),
                (DocSymbolResponseModel::Nested(a), DocSymbolResponseModel::Nested(b)) => Some(
                    DocSymbolResponseModel::Nested(a + b),
                ),
                _ => Some(acc),
            },
        }
    }
}

/// Merge the gathered shard responses into at most one response.
pub fn merge_symbol_responses(rs: Vec<DocSymbolResponse>) -> (r: Option<DocSymbolResponse>)
    ensures
        match merged_responses(resp_seq_view(rs@)) {
            None => r is None,
            Some(model) => r matches Some(resp) && resp_model(resp) == model,
        },
{
    let ghost all = resp_seq_view(rs@);
    let mut rest = rs;
    let n = rest.len();
    let mut acc: Option<DocSymbolResponse> = None;
    let mut i: usize = 0;
    proof {
        assert(resp_seq_view(rest@) =~= all.subrange(0, all.len() as int));
    }
    while rest.len() > 0
        invariant
            i <= all.len(),
            all.len() == n,
            resp_seq_view(rest@) =~= all.subrange(i as int, all.len() as int),
            match merged_responses(all.subrange(0, i as int)) {
                None => acc is None,
                Some(model) => acc matches Some(resp) && resp_model(resp) == model,
            },
        decreases rest@.len(),
    {
        proof {
            assert(resp_seq_view(rest@).len() == rest@.len());
        }
        let ghost prefix = all.subrange(0, i as int);
        let ghost next = all.subrange(0, i + 1);
        let ghost pre_rest = rest@;
        let item = rest.remove(0);
        proof {
            assert(item == pre_rest[0]);
            assert(resp_model(item) == all[i as int]) by {
                assert(resp_seq_view(pre_rest)[0] == all.subrange(i as int, all.len() as int)[0]);
                assert(resp_seq_view(pre_rest)[0] == resp_model(pre_rest[0]));
            }
            assert(resp_seq_view(rest@) =~= all.subrange(i + 1, all.len() as int)) by {
                assert forall|j: int|
                    0 <= j < rest@.len() implies resp_seq_view(rest@)[j] == all[i + 1 + j] by {
                    assert(rest@[j] == pre_rest[j + 1]);
                    assert(resp_seq_view(rest@)[j] == resp_model(rest@[j]));
                    assert(resp_seq_view(pre_rest)[j + 1] == resp_model(pre_rest[j + 1]));
                    assert(resp_seq_view(pre_rest)[j + 1] == all.subrange(
                        i as int,
                        all.len() as int,
                    )[j + 1]);
                }
            }
            assert(next.drop_last() =~= prefix);
            assert(next.last() == resp_model(item));
        }
        acc = match (acc, item) {
            (None, item) => Some(item),
            (Some(DocSymbolResponse::Flat(mut a)), DocSymbolResponse::Flat(b)) => {
                let ghost av = flat_seq_view(a@);
                let ghost bv = flat_seq_view(b@);
                let mut b = b;
                a.append(&mut b);
                proof {
                    assert(flat_seq_view(a@) =~= av + bv);
                }
                Some(DocSymbolResponse::Flat(a))
            },
            (Some(DocSymbolResponse::Nested(mut a)), DocSymbolResponse::Nested(b)) => {
                let ghost av = symbols_model(a@);
                let ghost bv = symbols_model(b@);
                let mut b = b;
                a.append(&mut b);
                proof {
                    lemma_symbols_model_concat(av, bv, a@);
                    assert(symbols_model(a@) =~= av + bv);
                }
                Some(DocSymbolResponse::Nested(a))
            },
            (Some(acc), _) => Some(acc),
        };
        i += 1;
    }
    proof {
        assert(all.subrange(0, all.len() as int) =~= all);
    }
    acc
}

/// The model list of a concatenation, given the parts' models.
pub proof fn lemma_symbols_model_concat(av: Seq<DocSymbolModel>, bv: Seq<DocSymbolModel>, whole: Seq<DocSymbol>)
    requires
        exists|a: Seq<DocSymbol>, b: Seq<DocSymbol>|
            whole == a + b && av == symbols_model(a) && bv == symbols_model(b),
    ensures
        symbols_model(whole) =~= av + bv,
{
    let (a, b): (Seq<DocSymbol>, Seq<DocSymbol>) = choose|a: Seq<DocSymbol>, b: Seq<DocSymbol>|
        whole == a + b && av == symbols_model(a) && bv == symbols_model(b);
    lemma_symbols_model_from(whole, 0);
    lemma_symbols_model_from(a, 0);
    lemma_symbols_model_from(b, 0);
    assert forall|j: int|
        0 <= j < symbols_model(whole).len() implies symbols_model(whole)[j] == (av + bv)[j] by {
        if j < a.len() {
            assert(whole[j] == a[j]);
        } else {
            assert(whole[j] == b[j - a.len()]);
        }
    }
}

/// The filtered form of one shard's response.
pub open spec fn shard_filtered(
    m: FiascoSourceMapping,
    sp: Seq<char>,
    mp: Seq<char>,
    resp: DocSymbolResponseModel,
) -> DocSymbolResponseModel {
    match resp {
        DocSymbolResponseModel::Flat(ss) => DocSymbolResponseModel::Flat(flat_filtered(m, sp, ss)),
        DocSymbolResponseModel::Nested(ss) => DocSymbolResponseModel::Nested(
            symbols_filtered_from(m, sp, mp, ss, 0),
        ),
    }
}

/// Handle one shard of a fanned-out document-symbol response: filter it
/// down to the author file's symbols, add it to the join, and release the
/// merged response when this was the last shard.  A response whose context
/// carries no shard value is passed through for immediate emission.
pub fn handle_res_doc_symbol(
    state: &mut GlobalState,
    req_context: &mut ReqContext,
    res: Option<DocSymbolResponse>,
) -> (r: Option<Option<DocSymbolResponse>>)
    requires
        old(state).wf(),
    ensures
        final(state).wf(),
        final(state).source_mapping == old(state).source_mapping,
        final(state).open_files == old(state).open_files,
        final(state).client_reqs == old(state).client_reqs,
        final(state).server_reqs == old(state).server_reqs,
        final(state).inlay_joins == old(state).inlay_joins,
        final(state).next_req_id == old(state).next_req_id,
        final(req_context).method == old(req_context).method,
        final(req_context).req_id == old(req_context).req_id,
        !(old(req_context).value matches Some(ReqValue::Shard { .. })) ==> r == Some(res)
            && *final(state) == *old(state),
        (old(req_context).value matches Some(ReqValue::Shard { .. })) ==> ({
            let sp = ((old(req_context).value)->Some_0)->Shard_source_path;
            let mp = ((old(req_context).value)->Some_0)->Shard_mapped_path;
            let batch = ((old(req_context).value)->Some_0)->Shard_batch;
            let shard_models: Seq<DocSymbolResponseModel> = match res {
                Some(resp) => seq![
                    shard_filtered(old(state).source_mapping, sp@, mp@, resp_model(resp)),
                ],
                None => Seq::empty(),
            };
            if join_contains(old(state).symbol_joins.slots@, batch) {
                let i = join_index(old(state).symbol_joins.slots@, batch);
                let slot = old(state).symbol_joins.slots@[i];
                if slot.remaining == 1 {
                    match merged_responses(resp_seq_view(slot.items@) + shard_models) {
                        None => r matches Some(merged) && merged is None,
                        Some(model) => r matches Some(merged) && merged matches Some(resp)
                            && resp_model(resp) == model,
                    }
                } else {
                    r is None
                }
            } else {
                r is None && final(state).symbol_joins == old(state).symbol_joins
            }
        }),
{
    let value = req_context.take_value();
    let (source_path, mapped_path, batch) = match value {
        Some(ReqValue::Shard { source_path, mapped_path, batch }) => (
            source_path,
            mapped_path,
            batch,
        ),
        Some(other) => {
            req_context.set_value(other);
            return Some(res);
        },
        None => {
            return Some(res);
        },
    };
    let ghost res_snap = res;
    let ghost m_snap = state.source_mapping;
    let mut items: Vec<DocSymbolResponse> = Vec::new();
    match res {
        Some(DocSymbolResponse::Flat(ss)) => {
            let filtered = filter_symbol_informations(&state.source_mapping, &source_path, ss);
            items.push(DocSymbolResponse::Flat(filtered));
        },
        Some(DocSymbolResponse::Nested(ss)) => {
            let filtered = filter_document_symbols_from(
                &state.source_mapping,
                &source_path,
                &mapped_path,
                &ss,
                0,
            );
            items.push(DocSymbolResponse::Nested(filtered));
        },
        None => (),
    }
    let ghost items_snap = items@;
    proof {
        match res_snap {
            Some(resp) => {
                assert(items_snap.len() == 1);
                assert(resp_seq_view(items_snap)[0] == resp_model(items_snap[0]));
                assert(resp_model(items_snap[0]) == shard_filtered(
                    m_snap,
                    source_path@,
                    mapped_path@,
                    resp_model(resp),
                ));
                assert(resp_seq_view(items_snap) =~= seq![
                    shard_filtered(m_snap, source_path@, mapped_path@, resp_model(resp)),
                ]);
            },
            None => {
                assert(resp_seq_view(items_snap) =~= Seq::<DocSymbolResponseModel>::empty());
            },
        }
    }
    match state.add_symbol_shard(batch, items) {
        Some(all_items) => {
            proof {
                assert(resp_seq_view(all_items@) =~= resp_seq_view(
                    old(state).symbol_joins.slots@[join_index(
                        old(state).symbol_joins.slots@,
                        batch,
                    )].items@,
                ) + resp_seq_view(items_snap));
            }
            Some(merge_symbol_responses(all_items))
        },
        None => None,
    }
}

} // verus!

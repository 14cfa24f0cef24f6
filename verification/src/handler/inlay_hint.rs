//! Translation of inlay-hint requests and responses.
//!
//! An author-side range can overlap regions that were copied into several
//! preprocessed files, so the request is fanned out: one sub-request per
//! overlapped file, each asking for that file's whole span.  The responses
//! are joined again: each shard keeps only the hints that map back into the
//! author file, and the last shard releases the merged list.

use vstd::prelude::*;

use crate::global_state::{
    join_contains, join_index, GlobalState, ReqContext, ReqContextAlloc, ReqValue,
};
use crate::handler::document_sync::known_file;
use crate::source_mapping::{entry_for, has_entry, FiascoSourceMapping, MapDirection};
use crate::util::{has_str, InlayHintItem, Position, Range};

verus! {

/// What an inlay-hint request carries: the document and the span to cover.
#[derive(Debug)]
pub struct InlayHintParams {
    pub path: String,
    pub range: Range,
}

/// The request can be fanned out: the author file is known and its range
/// overlaps at least one preprocessed region.
pub open spec fn fan_out_possible(m: FiascoSourceMapping, path: Seq<char>, range: Range) -> bool {
    &&& known_file(m, MapDirection::ToPreprocess, path)
    &&& exists|f: Seq<char>|
        entry_for(m.side(MapDirection::ToPreprocess), path).overlapping_dst(
            range.start.line,
            range.end.line,
            f,
        )
}

/// The whole-file span used for one shard: from the file's first line to
/// its recorded length.
pub open spec fn whole_file_range(m: FiascoSourceMapping, f: Seq<char>) -> Range {
    Range {
        start: Position { line: 0, character: 0 },
        end: Position {
            line: if has_entry(m.side(MapDirection::FromPreprocess), f) {
                entry_for(m.side(MapDirection::FromPreprocess), f).length
            } else {
                0
            },
            character: 0,
        },
    }
}

/// Handle an author-side inlay-hint request: open a join and emit one
/// sub-request per preprocessed file the range overlaps, each covering that
/// file's whole span and carrying a shard context.  `None` means the file
/// or range is unknown and the request should be forwarded unchanged.
pub fn handle_req_inlay_hint(
    state: &mut GlobalState,
    req_context_alloc: &ReqContextAlloc,
    params: &InlayHintParams,
) -> (r: Option<Vec<(InlayHintParams, ReqContext)>>)
    requires
        old(state).wf(),
        old(state).next_req_id < u64::MAX,
    ensures
        final(state).wf(),
        final(state).source_mapping == old(state).source_mapping,
        final(state).open_files == old(state).open_files,
        final(state).client_reqs == old(state).client_reqs,
        final(state).server_reqs == old(state).server_reqs,
        final(state).symbol_joins == old(state).symbol_joins,
        r is None <==> !fan_out_possible(old(state).source_mapping, params.path@, params.range),
        r is None ==> *final(state) == *old(state),
        r matches Some(shards) ==> ({
            let batch = old(state).next_req_id;
            let flm = entry_for(
                old(state).source_mapping.side(MapDirection::ToPreprocess),
                params.path@,
            );
            &&& shards@.len() >= 1
            &&& final(state).next_req_id == old(state).next_req_id + 1
            &&& final(state).inlay_joins.slots@.len() == old(state).inlay_joins.slots@.len() + 1
            &&& final(state).inlay_joins.slots@.last().batch == batch
            &&& final(state).inlay_joins.slots@.last().remaining == shards@.len()
            &&& final(state).inlay_joins.slots@.last().items@.len() == 0
            &&& forall|k: int|
                0 <= k < shards@.len() ==> {
                    let (p, ctx) = #[trigger] shards@[k];
                    &&& flm.overlapping_dst(params.range.start.line, params.range.end.line, p.path@)
                    &&& p.range == whole_file_range(old(state).source_mapping, p.path@)
                    &&& ctx.method == req_context_alloc.req_method
                    &&& ctx.req_id == req_context_alloc.req_id
                    &&& ctx.value matches Some(ReqValue::Shard { source_path, mapped_path, batch: b })
                        && source_path@ == params.path@ && mapped_path@ == p.path@ && b == batch
                }
            &&& forall|f: Seq<char>|
                flm.overlapping_dst(params.range.start.line, params.range.end.line, f)
                    ==> exists|k: int| 0 <= k < shards@.len() && (#[trigger] shards@[k]).0.path@ == f
            &&& forall|a: int, b: int|
                0 <= a < b < shards@.len() ==> shards@[a].0.path@ != shards@[b].0.path@
        }),
{
    let files = state.source_mapping.map_files(MapDirection::ToPreprocess, params.path.as_str());
    if files.len() == 0 {
        proof {
            if has_entry(state.source_mapping.side(MapDirection::ToPreprocess), params.path@) {
                assert(entry_for(
                    state.source_mapping.side(MapDirection::ToPreprocess),
                    params.path@,
                ).files@.len() == 0);
            }
        }
        return None;
    }
    proof {
        assert(has_entry(state.source_mapping.side(MapDirection::ToPreprocess), params.path@));
    }
    let fan = state.source_mapping.map_file_range(
        MapDirection::ToPreprocess,
        params.path.as_str(),
        &params.range,
    );
    if fan.len() == 0 {
        proof {
            let flm = entry_for(
                state.source_mapping.side(MapDirection::ToPreprocess),
                params.path@,
            );
            if exists|f: Seq<char>|
                flm.overlapping_dst(params.range.start.line, params.range.end.line, f) {
                let f = choose|f: Seq<char>|
                    flm.overlapping_dst(params.range.start.line, params.range.end.line, f);
                assert(has_str(fan@, f));
            }
        }
        return None;
    }
    let ghost m = state.source_mapping;
    let ghost flm = entry_for(m.side(MapDirection::ToPreprocess), params.path@);
    proof {
        assert(has_str(fan@, fan@[0]@));
        assert(flm.overlapping_dst(params.range.start.line, params.range.end.line, fan@[0]@));
        assert(fan_out_possible(state.source_mapping, params.path@, params.range));
        assert forall|j: int|
            0 <= j < fan@.len() implies flm.overlapping_dst(
            params.range.start.line,
            params.range.end.line,
            (#[trigger] fan@[j])@,
        ) by {
            assert(has_str(fan@, fan@[j]@));
        }
    }
    let batch = state.open_inlay_join(fan.len());
    let mut shards: Vec<(InlayHintParams, ReqContext)> = Vec::new();
    let mut i: usize = 0;
    while i < fan.len()
        invariant
            m == state.source_mapping,
            state.wf(),
            i <= fan@.len(),
            shards@.len() == i,
            flm == entry_for(m.side(MapDirection::ToPreprocess), params.path@),
            forall|a: int, b: int| 0 <= a < b < fan@.len() ==> fan@[a]@ != fan@[b]@,
            forall|j: int|
                0 <= j < fan@.len() ==> flm.overlapping_dst(
                    params.range.start.line,
                    params.range.end.line,
                    (#[trigger] fan@[j])@,
                ),
            forall|k: int|
                0 <= k < i ==> {
                    let (p, ctx) = #[trigger] shards@[k];
                    &&& p.path@ == fan@[k]@
                    &&& flm.overlapping_dst(params.range.start.line, params.range.end.line, p.path@)
                    &&& p.range == whole_file_range(m, p.path@)
                    &&& ctx.method == req_context_alloc.req_method
                    &&& ctx.req_id == req_context_alloc.req_id
                    &&& ctx.value matches Some(ReqValue::Shard { source_path, mapped_path, batch: b })
                        && source_path@ == params.path@ && mapped_path@ == p.path@ && b == batch
                },
        decreases fan@.len() - i,
    {
        let f = &fan[i];
        let flen = match state.source_mapping.file_length(
            MapDirection::FromPreprocess,
            f.as_str(),
        ) {
            Some(n) => n,
            None => 0,
        };
        let mut ctx = req_context_alloc.fresh_context();
        ctx.set_value(
            ReqValue::Shard {
                source_path: params.path.clone(),
                mapped_path: f.clone(),
                batch,
            },
        );
        let p = InlayHintParams {
            path: f.clone(),
            range: Range {
                start: Position { line: 0, character: 0 },
                end: Position { line: flen, character: 0 },
            },
        };
        proof {
            assert(p.range == whole_file_range(m, f@));
        }
        shards.push((p, ctx));
        i += 1;
    }
    proof {
        assert forall|f: Seq<char>|
            flm.overlapping_dst(params.range.start.line, params.range.end.line, f) implies exists|k: int|
            0 <= k < shards@.len() && (#[trigger] shards@[k]).0.path@ == f by {
            assert(has_str(fan@, f));
            let w = choose|w: int| 0 <= w < fan@.len() && fan@[w]@ == f;
            assert(shards@[w].0.path@ == f);
        }
    }
    Some(shards)
}

/// The hints of one shard that map back into the author file, translated,
/// in order.
pub open spec fn mapped_hints(
    m: FiascoSourceMapping,
    source_path: Seq<char>,
    mapped_path: Seq<char>,
    hs: Seq<InlayHintItem>,
) -> Seq<InlayHintItem>
    decreases hs.len(),
{
    if hs.len() == 0 {
        Seq::empty()
    } else {
        let rest = mapped_hints(m, source_path, mapped_path, hs.drop_last());
        let h = hs.last();
        if m.spec_map_position(MapDirection::FromPreprocess, mapped_path, h.position).0
            == source_path {
            rest.push(
                InlayHintItem {
                    position: m.spec_map_position(
                        MapDirection::FromPreprocess,
                        mapped_path,
                        h.position,
                    ).1,
                    tag: h.tag,
                },
            )
        } else {
            rest
        }
    }
}

/// Handle one shard of a fanned-out inlay-hint response: keep the hints
/// that map back into the author file, add them to the join, and release
/// the merged list when this was the last shard.  A response whose context
/// carries no shard value is passed through for immediate emission.
pub fn handle_res_inlay_hint(
    state: &mut GlobalState,
    req_context: &mut ReqContext,
    res: Option<Vec<InlayHintItem>>,
) -> (r: Option<Option<Vec<InlayHintItem>>>)
    requires
        old(state).wf(),
    ensures
        final(state).wf(),
        final(state).source_mapping == old(state).source_mapping,
        final(state).open_files == old(state).open_files,
        final(state).client_reqs == old(state).client_reqs,
        final(state).server_reqs == old(state).server_reqs,
        final(state).symbol_joins == old(state).symbol_joins,
        final(state).next_req_id == old(state).next_req_id,
        final(req_context).method == old(req_context).method,
        final(req_context).req_id == old(req_context).req_id,
        !(old(req_context).value matches Some(ReqValue::Shard { .. })) ==> r == Some(res)
            && *final(state) == *old(state),
        (old(req_context).value matches Some(ReqValue::Shard { .. })) ==> ({
            let sp = ((old(req_context).value)->Some_0)->Shard_source_path;
            let mp = ((old(req_context).value)->Some_0)->Shard_mapped_path;
            let batch = ((old(req_context).value)->Some_0)->Shard_batch;
            let filtered = mapped_hints(
                old(state).source_mapping,
                sp@,
                mp@,
                match res {
                    Some(hs) => hs@,
                    None => Seq::empty(),
                },
            );
            if join_contains(old(state).inlay_joins.slots@, batch) {
                let i = join_index(old(state).inlay_joins.slots@, batch);
                let slot = old(state).inlay_joins.slots@[i];
                if slot.remaining == 1 {
                    r matches Some(Some(all)) && all@ == slot.items@ + filtered && !join_contains(
                        final(state).inlay_joins.slots@,
                        batch,
                    )
                } else {
                    r is None && join_contains(final(state).inlay_joins.slots@, batch) && ({
                        let k = join_index(final(state).inlay_joins.slots@, batch);
                        final(state).inlay_joins.slots@[k].remaining == slot.remaining - 1 && final(state).inlay_joins.slots@[k].items@ == slot.items@ + filtered
                    })
                }
            } else {
                r is None && final(state).inlay_joins == old(state).inlay_joins
            }
        }),
{
    let value = req_context.take_value();
    let (source_path, mapped_path, batch) = match value {
        Some(ReqValue::Shard { source_path, mapped_path, batch }) => (
            source_path,
            mapped_path,
            batch,
        ),
        Some(other) => {
            req_context.set_value(other);
            return Some(res);
        },
        None => {
            return Some(res);
        },
    };
    let hs = match res {
        Some(hs) => hs,
        None => Vec::new(),
    };
    let ghost all = hs@;
    let ghost m = state.source_mapping;
    let ghost sp = source_path@;
    let ghost mp = mapped_path@;
    let mut filtered: Vec<InlayHintItem> = Vec::new();
    let mut i: usize = 0;
    proof {
        assert(all.subrange(0, 0) =~= Seq::<InlayHintItem>::empty());
        assert(filtered@ =~= mapped_hints(m, sp, mp, all.subrange(0, 0)));
    }
    while i < hs.len()
        invariant
            m == state.source_mapping,
            m.wf(),
            i <= all.len(),
            hs@ == all,
            sp == source_path@,
            mp == mapped_path@,
            filtered@ == mapped_hints(m, sp, mp, all.subrange(0, i as int)),
        decreases all.len() - i,
    {
        let h = hs[i];
        let ghost prefix = all.subrange(0, i as int);
        let ghost next = all.subrange(0, i + 1);
        proof {
            assert(next.drop_last() =~= prefix);
            assert(next.last() == h);
        }
        let mut p = mapped_path.clone();
        let mut pos = h.position;
        state.source_mapping.map_position(MapDirection::FromPreprocess, &mut p, &mut pos);
        if crate::util::str_eq(p.as_str(), source_path.as_str()) {
            filtered.push(InlayHintItem { position: pos, tag: h.tag });
        }
        proof {
            assert(filtered@ == mapped_hints(m, sp, mp, next));
        }
        i += 1;
    }
    proof {
        assert(all.subrange(0, all.len() as int) =~= all);
    }
    match state.add_inlay_shard(batch, filtered) {
        Some(all_items) => Some(Some(all_items)),
        None => None,
    }
}

} // verus!

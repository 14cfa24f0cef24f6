//! Translation of code-action requests and responses.
//!
//! The request's document, range and attached diagnostics are translated
//! into the preprocessed file; diagnostics that land elsewhere are
//! detached.  The response's workspace edits are translated back and
//! re-bucketed by the author file each edit lands in, and the response's
//! diagnostics are filtered against the file the request named.

use vstd::prelude::*;

use crate::global_state::{ReqContext, ReqValue};
use crate::handler::diagnostics::Diagnostic;
use crate::handler::document_sync::known_file;
use crate::source_mapping::{entry_for, has_entry, FiascoSourceMapping, MapDirection};
use crate::util::{
    bucket_pairs, groups_of, groups_view, pairs_view, Range,
};

verus! {

/// What a code-action request carries: the document, the span the action
/// is asked for, and the diagnostics the editor attached to it.
#[derive(Debug)]
pub struct CodeActionParams {
    pub path: String,
    pub range: Range,
    pub diagnostics: Vec<Diagnostic>,
}

/// One text edit of a workspace edit: its range and the caller's token for
/// its new text.
#[derive(Clone, Copy, Debug)]
pub struct TextEdit {
    pub range: Range,
    pub tag: usize,
}

/// One entry of a code-action response: a proper action with its optional
/// workspace edit and diagnostics, or a bare command, carried unchanged.
#[derive(Debug)]
pub enum CodeActionOrCommand {
    Action(CodeAction),
    Command { tag: usize },
}

/// The translated parts of one code action, plus the caller's token for
/// everything else.
#[derive(Debug)]
pub struct CodeAction {
    pub edit_changes: Option<Vec<(String, Vec<TextEdit>)>>,
    pub diagnostics: Option<Vec<Diagnostic>>,
    pub tag: usize,
}

/// The diagnostics of `ds` whose ranges translate in direction `d` from
/// `from_path` and land in `target_path`, translated, in order.
pub open spec fn kept_diags(
    m: FiascoSourceMapping,
    d: MapDirection,
    from_path: Seq<char>,
    target_path: Seq<char>,
    ds: Seq<Diagnostic>,
) -> Seq<Diagnostic>
    decreases ds.len(),
{
    if ds.len() == 0 {
        Seq::empty()
    } else {
        let rest = kept_diags(m, d, from_path, target_path, ds.drop_last());
        let dg = ds.last();
        if m.spec_range_ok(d, from_path, dg.range) && m.spec_map_range(d, from_path, dg.range).0
            == target_path {
            rest.push(Diagnostic { range: m.spec_map_range(d, from_path, dg.range).1, tag: dg.tag })
        } else {
            rest
        }
    }
}

/// Retain the diagnostics whose ranges map out of `from_path` and land in
/// `target_path`, each with its mapped range.
fn filter_diags(
    mapping: &FiascoSourceMapping,
    d: MapDirection,
    from_path: &String,
    target_path: &String,
    ds: Vec<Diagnostic>,
) -> (r: Vec<Diagnostic>)
    requires
        mapping.wf(),
    ensures
        r@ == kept_diags(*mapping, d, from_path@, target_path@, ds@),
{
    let ghost all = ds@;
    let mut out: Vec<Diagnostic> = Vec::new();
    let mut i: usize = 0;
    proof {
        assert(all.subrange(0, 0) =~= Seq::<Diagnostic>::empty());
        assert(out@ =~= kept_diags(*mapping, d, from_path@, target_path@, all.subrange(0, 0)));
    }
    while i < ds.len()
        invariant
            mapping.wf(),
            i <= all.len(),
            ds@ == all,
            out@ == kept_diags(*mapping, d, from_path@, target_path@, all.subrange(0, i as int)),
        decreases all.len() - i,
    {
        let dg = ds[i];
        let ghost prefix = all.subrange(0, i as int);
        let ghost next = all.subrange(0, i + 1);
        proof {
            assert(next.drop_last() =~= prefix);
            assert(next.last() == dg);
        }
        let mut p = from_path.clone();
        let mut rg = dg.range;
        let ok = mapping.map_range(d, &mut p, &mut rg);
        if ok.is_ok() && crate::util::str_eq(p.as_str(), target_path.as_str()) {
            out.push(Diagnostic { range: rg, tag: dg.tag });
        }
        proof {
            assert(out@ == kept_diags(*mapping, d, from_path@, target_path@, next));
        }
        i += 1;
    }
    proof {
        assert(all.subrange(0, all.len() as int) =~= all);
    }
    out
}

/// Handle an author-side code-action request: translate the document and
/// range, detach diagnostics that map into a different file, and park the
/// path pair for the response.  An unknown file or an untranslatable range
/// leaves the request, and the context, unchanged.
pub fn handle_req_code_action(
    mapping: &FiascoSourceMapping,
    req_context: &mut ReqContext,
    params: CodeActionParams,
) -> (r: CodeActionParams)
    requires
        mapping.wf(),
    ensures
        final(req_context).method == old(req_context).method,
        final(req_context).req_id == old(req_context).req_id,
        !known_file(*mapping, MapDirection::ToPreprocess, params.path@) ==> r == params && final(req_context).value == old(req_context).value,
        known_file(*mapping, MapDirection::ToPreprocess, params.path@) && !mapping.spec_range_ok(
            MapDirection::ToPreprocess,
            params.path@,
            params.range,
        ) ==> r == params && final(req_context).value == old(req_context).value,
        known_file(*mapping, MapDirection::ToPreprocess, params.path@) && mapping.spec_range_ok(
            MapDirection::ToPreprocess,
            params.path@,
            params.range,
        ) ==> ({
            let mapped = mapping.spec_map_range(
                MapDirection::ToPreprocess,
                params.path@,
                params.range,
            );
            &&& r.path@ == mapped.0
            &&& r.range == mapped.1
            &&& r.diagnostics@ == kept_diags(
                *mapping,
                MapDirection::ToPreprocess,
                params.path@,
                mapped.0,
                params.diagnostics@,
            )
            &&& final(req_context).value matches Some(ReqValue::PathPair {
                source_path,
                mapped_path,
            }) && source_path@ == params.path@ && mapped_path@ == mapped.0
        }),
{
    let files = mapping.map_files(MapDirection::ToPreprocess, params.path.as_str());
    if files.len() == 0 {
        proof {
            if has_entry(mapping.side(MapDirection::ToPreprocess), params.path@) {
                assert(entry_for(mapping.side(MapDirection::ToPreprocess), params.path@)
                    .files@.len() == 0);
            }
        }
        return params;
    }
    proof {
        assert(has_entry(mapping.side(MapDirection::ToPreprocess), params.path@));
    }
    let source_path = params.path;
    let mut mapped_path = source_path.clone();
    let mut range = params.range;
    let ok = mapping.map_range(MapDirection::ToPreprocess, &mut mapped_path, &mut range);
    if ok.is_err() {
        return CodeActionParams { path: source_path, range: params.range, diagnostics: params.diagnostics };
    }
    req_context.set_value(
        ReqValue::PathPair { source_path: source_path.clone(), mapped_path: mapped_path.clone() },
    );
    let diagnostics = filter_diags(
        mapping,
        MapDirection::ToPreprocess,
        &source_path,
        &mapped_path,
        params.diagnostics,
    );
    CodeActionParams { path: mapped_path, range, diagnostics }
}

/// The translated destinations of the edits of one changed file: each edit
/// whose range maps back cleanly goes to the author file it lands in.
pub open spec fn edit_pairs_of(m: FiascoSourceMapping, url: Seq<char>, es: Seq<TextEdit>) -> Seq<
    (Seq<char>, TextEdit),
>
    decreases es.len(),
{
    if es.len() == 0 {
        Seq::empty()
    } else {
        let rest = edit_pairs_of(m, url, es.drop_last());
        let e = es.last();
        if m.spec_range_ok(MapDirection::FromPreprocess, url, e.range) {
            rest.push(
                (
                    m.spec_map_range(MapDirection::FromPreprocess, url, e.range).0,
                    TextEdit {
                        range: m.spec_map_range(MapDirection::FromPreprocess, url, e.range).1,
                        tag: e.tag,
                    },
                ),
            )
        } else {
            rest
        }
    }
}

/// The translated destinations of a whole workspace edit, file by file in
/// order.
pub open spec fn edit_pairs(
    m: FiascoSourceMapping,
    gs: Seq<(Seq<char>, Seq<TextEdit>)>,
) -> Seq<(Seq<char>, TextEdit)>
    decreases gs.len(),
{
    if gs.len() == 0 {
        Seq::empty()
    } else {
        edit_pairs(m, gs.drop_last()) + edit_pairs_of(m, gs.last().0, gs.last().1)
    }
}

/// The view of a changed-files list.
pub open spec fn changes_view(gs: Seq<(String, Vec<TextEdit>)>) -> Seq<(Seq<char>, Seq<TextEdit>)> {
    gs.map_values(|g: (String, Vec<TextEdit>)| (g.0@, g.1@))
}

/// One translated action relates to its original: same token, workspace
/// edits re-bucketed by the author file they map into, diagnostics kept
/// only where they map back into the request's file.
pub open spec fn action_mapped(
    m: FiascoSourceMapping,
    source_path: Seq<char>,
    mapped_path: Seq<char>,
    a: CodeAction,
    a2: CodeAction,
) -> bool {
    &&& a2.tag == a.tag
    &&& match a.edit_changes {
        None => a2.edit_changes is None,
        Some(gs) => a2.edit_changes matches Some(gs2) && groups_of(
            groups_view(gs2@),
            edit_pairs(m, changes_view(gs@)),
        ),
    }
    &&& match a.diagnostics {
        None => a2.diagnostics is None,
        Some(ds) => a2.diagnostics matches Some(ds2) && ds2@ == kept_diags(
            m,
            MapDirection::FromPreprocess,
            mapped_path,
            source_path,
            ds@,
        ),
    }
}

/// Handle a code-action response: translate each action's workspace edit
/// back into author files and filter its diagnostics.  A response whose
/// context carries no path pair is passed through unchanged.
pub fn handle_res_code_action(
    mapping: &FiascoSourceMapping,
    req_context: &mut ReqContext,
    res: Option<Vec<CodeActionOrCommand>>,
) -> (r: Option<Vec<CodeActionOrCommand>>)
    requires
        mapping.wf(),
    ensures
        final(req_context).method == old(req_context).method,
        final(req_context).req_id == old(req_context).req_id,
        !(old(req_context).value matches Some(ReqValue::PathPair { .. })) ==> r == res,
        (old(req_context).value matches Some(ReqValue::PathPair { .. })) ==> ({
            let sp = ((old(req_context).value)->Some_0)->PathPair_source_path;
            let mp = ((old(req_context).value)->Some_0)->PathPair_mapped_path;
            match res {
                None => r is None,
                Some(actions) => r matches Some(out) && out@.len() == actions@.len()
                    && forall|k: int|
                    0 <= k < actions@.len() ==> match #[trigger] actions@[k] {
                        CodeActionOrCommand::Command { tag } => out@[k] matches
                            CodeActionOrCommand::Command { tag: t2 } && t2 == tag,
                        CodeActionOrCommand::Action(a) => out@[k] matches
                            CodeActionOrCommand::Action(a2) && action_mapped(
                            *mapping,
                            sp@,
                            mp@,
                            a,
                            a2,
                        ),
                    },
            }
        }),
{
    let value = req_context.take_value();
    let (source_path, mapped_path) = match value {
        Some(ReqValue::PathPair { source_path, mapped_path }) => (source_path, mapped_path),
        Some(other) => {
            req_context.set_value(other);
            return res;
        },
        None => {
            return res;
        },
    };
    let actions = match res {
        Some(actions) => actions,
        None => {
            return None;
        },
    };
    let ghost all = actions@;
    let mut rest = actions;
    let n = rest.len();
    let mut out: Vec<CodeActionOrCommand> = Vec::new();
    let mut i: usize = 0;
    proof {
        assert(rest@ =~= all.subrange(0, all.len() as int));
    }
    while rest.len() > 0
        invariant
            mapping.wf(),
            i <= all.len(),
            all.len() == n,
            rest@ =~= all.subrange(i as int, all.len() as int),
            out@.len() == i,
            forall|k: int|
                0 <= k < i ==> match #[trigger] all[k] {
                    CodeActionOrCommand::Command { tag } => out@[k] matches
                        CodeActionOrCommand::Command { tag: t2 } && t2 == tag,
                    CodeActionOrCommand::Action(a) => out@[k] matches CodeActionOrCommand::Action(
                        a2,
                    ) && action_mapped(*mapping, source_path@, mapped_path@, a, a2),
                },
        decreases rest@.len(),
    {
        let ghost pre_rest = rest@;
        let item = rest.remove(0);
        proof {
            assert(item == pre_rest[0]);
            assert(item == all[i as int]);
            assert(rest@ =~= all.subrange(i + 1, all.len() as int)) by {
                assert forall|j: int| 0 <= j < rest@.len() implies rest@[j] == all[i + 1 + j] by {
                    assert(rest@[j] == pre_rest[j + 1]);
                }
            }
        }
        match item {
            CodeActionOrCommand::Command { tag } => {
                out.push(CodeActionOrCommand::Command { tag });
            },
            CodeActionOrCommand::Action(a) => {
                let CodeAction { edit_changes, diagnostics, tag } = a;
                let ghost a_ghost = CodeAction { edit_changes, diagnostics, tag };
                let new_changes = match edit_changes {
                    None => None,
                    Some(gs) => {
                        let ghost gv = changes_view(gs@);
                        let mut grest = gs;
                        let gn = grest.len();
                        let mut pairs: Vec<(String, TextEdit)> = Vec::new();
                        let mut gi: usize = 0;
                        proof {
                            assert(changes_view(grest@) =~= gv.subrange(0, gv.len() as int));
                            assert(pairs_view(pairs@) =~= edit_pairs(*mapping, gv.subrange(0, 0)));
                        }
                        while grest.len() > 0
                            invariant
                                mapping.wf(),
                                gi <= gv.len(),
                                gv.len() == gn,
                                changes_view(grest@) =~= gv.subrange(gi as int, gv.len() as int),
                                pairs_view(pairs@) == edit_pairs(*mapping, gv.subrange(0, gi as int)),
                            decreases grest@.len(),
                        {
                            proof {
                                assert(changes_view(grest@).len() == grest@.len());
                            }
                            let ghost gprefix = gv.subrange(0, gi as int);
                            let ghost gnext = gv.subrange(0, gi + 1);
                            let ghost gpre_rest = grest@;
                            let (url, edits) = grest.remove(0);
                            proof {
                                assert((url, edits) == gpre_rest[0]);
                                assert(changes_view(gpre_rest)[0] == (url@, edits@));
                                assert((url@, edits@) == gv[gi as int]);
                                assert(changes_view(grest@) =~= gv.subrange(gi + 1, gv.len() as int))
                                    by {
                                    assert forall|j: int|
                                        0 <= j < grest@.len() implies changes_view(grest@)[j] == gv[
                                        gi + 1 + j] by {
                                        assert(grest@[j] == gpre_rest[j + 1]);
                                        assert(changes_view(gpre_rest)[j + 1] == gv.subrange(
                                            gi as int,
                                            gv.len() as int,
                                        )[j + 1]);
                                    }
                                }
                                assert(gnext.drop_last() =~= gprefix);
                                assert(gnext.last() == (url@, edits@));
                            }
                            let ghost ev = edits@;
                            let ghost before = pairs_view(pairs@);
                            let mut ei: usize = 0;
                            proof {
                                assert(ev.subrange(0, 0) =~= Seq::<TextEdit>::empty());
                                assert(before + edit_pairs_of(*mapping, url@, ev.subrange(0, 0))
                                    =~= before);
                            }
                            while ei < edits.len()
                                invariant
                                    mapping.wf(),
                                    ei <= ev.len(),
                                    edits@ == ev,
                                    pairs_view(pairs@) == before + edit_pairs_of(
                                        *mapping,
                                        url@,
                                        ev.subrange(0, ei as int),
                                    ),
                                decreases ev.len() - ei,
                            {
                                let e = edits[ei];
                                let ghost eprefix = ev.subrange(0, ei as int);
                                let ghost enext = ev.subrange(0, ei + 1);
                                proof {
                                    assert(enext.drop_last() =~= eprefix);
                                    assert(enext.last() == e);
                                }
                                let mut p = url.clone();
                                let mut rg = e.range;
                                let ok = mapping.map_range(
                                    MapDirection::FromPreprocess,
                                    &mut p,
                                    &mut rg,
                                );
                                if ok.is_ok() {
                                    let ghost pre_pairs = pairs@;
                                    pairs.push((p, TextEdit { range: rg, tag: e.tag }));
                                    proof {
                                        assert(pairs_view(pairs@) =~= pairs_view(pre_pairs).push(
                                            (
                                                mapping.spec_map_range(
                                                    MapDirection::FromPreprocess,
                                                    url@,
                                                    e.range,
                                                ).0,
                                                TextEdit {
                                                    range: mapping.spec_map_range(
                                                        MapDirection::FromPreprocess,
                                                        url@,
                                                        e.range,
                                                    ).1,
                                                    tag: e.tag,
                                                },
                                            ),
                                        ));
                                        assert(pairs_view(pairs@) =~= before + edit_pairs_of(
                                            *mapping,
                                            url@,
                                            enext,
                                        ));
                                    }
                                }
                                ei += 1;
                            }
                            proof {
                                assert(ev.subrange(0, ev.len() as int) =~= ev);
                                assert(pairs_view(pairs@) =~= edit_pairs(*mapping, gnext));
                            }
                            gi += 1;
                        }
                        proof {
                            assert(gv.subrange(0, gv.len() as int) =~= gv);
                        }
                        Some(bucket_pairs(pairs))
                    },
                };
                let new_diags = match diagnostics {
                    None => None,
                    Some(ds) => Some(
                        filter_diags(
                            mapping,
                            MapDirection::FromPreprocess,
                            &mapped_path,
                            &source_path,
                            ds,
                        ),
                    ),
                };
                out.push(
                    CodeActionOrCommand::Action(
                        CodeAction { edit_changes: new_changes, diagnostics: new_diags, tag },
                    ),
                );
                proof {
                    assert(all[i as int] matches CodeActionOrCommand::Action(ag) && action_mapped(
                        *mapping,
                        source_path@,
                        mapped_path@,
                        ag,
                        out@.last()->Action_0,
                    ));
                }
            },
        }
        i += 1;
    }
    proof {
        assert(all.subrange(0, all.len() as int) =~= all);
    }
    Some(out)
}

} // verus!

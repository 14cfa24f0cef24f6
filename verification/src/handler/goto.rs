//! Translation of definition/declaration/implementation responses and
//! reference lists coming back from the server.
//!
//! Locations the server reports live in preprocessed files; each is mapped
//! back into its author file.  List entries that cannot be mapped cleanly
//! are dropped rather than exposed; a lone scalar location is left as it
//! came when it cannot be mapped.

use vstd::prelude::*;

use crate::global_state::{ReqContext, ReqValue};
use crate::source_mapping::{FiascoSourceMapping, MapDirection};
use crate::util::{Location, Range};

verus! {

/// A link-style goto result: an optional origin span and a target with its
/// full and selection ranges, plus the caller's token for its other fields.
#[derive(Debug)]
pub struct LocationLink {
    pub origin_selection_range: Option<Range>,
    pub target_path: String,
    pub target_range: Range,
    pub target_selection_range: Range,
    pub tag: usize,
}

/// A goto response as the translation sees it.
#[derive(Debug)]
pub enum GotoResponse {
    Scalar(Location),
    Array(Vec<Location>),
    Link(Vec<LocationLink>),
}

/// The mathematical content of a location.
pub open spec fn loc_view(l: Location) -> (Seq<char>, Range) {
    (l.path@, l.range)
}

/// The mathematical content of a location list.
pub open spec fn locs_view(ls: Seq<Location>) -> Seq<(Seq<char>, Range)> {
    ls.map_values(|l: Location| loc_view(l))
}

/// The mathematical content of a location link.
pub struct LinkModel {
    pub origin_selection_range: Option<Range>,
    pub target_path: Seq<char>,
    pub target_range: Range,
    pub target_selection_range: Range,
    pub tag: usize,
}

/// The mathematical content of a link list.
pub open spec fn links_view(ls: Seq<LocationLink>) -> Seq<LinkModel> {
    ls.map_values(
        |l: LocationLink|
            LinkModel {
                origin_selection_range: l.origin_selection_range,
                target_path: l.target_path@,
                target_range: l.target_range,
                target_selection_range: l.target_selection_range,
                tag: l.tag,
            },
    )
}

/// The locations of `ls` that map back cleanly, each translated, in order.
pub open spec fn mapped_locations(m: FiascoSourceMapping, ls: Seq<(Seq<char>, Range)>) -> Seq<
    (Seq<char>, Range),
>
    decreases ls.len(),
{
    if ls.len() == 0 {
        Seq::empty()
    } else {
        let rest = mapped_locations(m, ls.drop_last());
        let l = ls.last();
        if m.spec_range_ok(MapDirection::FromPreprocess, l.0, l.1) {
            rest.push(
                (
                    m.spec_map_range(MapDirection::FromPreprocess, l.0, l.1).0,
                    m.spec_map_range(MapDirection::FromPreprocess, l.0, l.1).1,
                ),
            )
        } else {
            rest
        }
    }
}

/// What one link becomes: dropped when its target range or target
/// selection range cannot be mapped or when the two map into different
/// author files; otherwise translated, with an origin span that is mapped
/// from the request's translated file when that is possible and carried
/// unchanged when not.
pub open spec fn link_mapped(
    m: FiascoSourceMapping,
    mapped_path: Seq<char>,
    lk: LinkModel,
) -> Option<LinkModel> {
    let tr_ok = m.spec_range_ok(MapDirection::FromPreprocess, lk.target_path, lk.target_range);
    let ts_ok = m.spec_range_ok(
        MapDirection::FromPreprocess,
        lk.target_path,
        lk.target_selection_range,
    );
    if !tr_ok || !ts_ok {
        None
    } else {
        let tr = m.spec_map_range(MapDirection::FromPreprocess, lk.target_path, lk.target_range);
        let ts = m.spec_map_range(
            MapDirection::FromPreprocess,
            lk.target_path,
            lk.target_selection_range,
        );
        if tr.0 != ts.0 {
            None
        } else {
            Some(
                LinkModel {
                    origin_selection_range: match lk.origin_selection_range {
                        Some(orig) => {
                            if m.spec_range_ok(MapDirection::FromPreprocess, mapped_path, orig) {
                                Some(m.spec_map_range(MapDirection::FromPreprocess, mapped_path, orig).1)
                            } else {
                                Some(orig)
                            }
                        },
                        None => None,
                    },
                    target_path: ts.0,
                    target_range: tr.1,
                    target_selection_range: ts.1,
                    tag: lk.tag,
                },
            )
        }
    }
}

/// The links of `ls` that survive translation, in order.
pub open spec fn mapped_links(
    m: FiascoSourceMapping,
    mapped_path: Seq<char>,
    ls: Seq<LinkModel>,
) -> Seq<LinkModel>
    decreases ls.len(),
{
    if ls.len() == 0 {
        Seq::empty()
    } else {
        let rest = mapped_links(m, mapped_path, ls.drop_last());
        match link_mapped(m, mapped_path, ls.last()) {
            Some(lk) => rest.push(lk),
            None => rest,
        }
    }
}

/// Retain the locations of `ls` that map back cleanly, translated.
pub fn map_location_list(mapping: &FiascoSourceMapping, ls: Vec<Location>) -> (r: Vec<Location>)
    requires
        mapping.wf(),
    ensures
        locs_view(r@) == mapped_locations(*mapping, locs_view(ls@)),
{
    let ghost all = locs_view(ls@);
    let mut rest = ls;
    let n = rest.len();
    let mut out: Vec<Location> = Vec::new();
    let mut i: usize = 0;
    proof {
        assert(all.subrange(0, 0) =~= Seq::<(Seq<char>, Range)>::empty());
        assert(locs_view(rest@) =~= all.subrange(0, all.len() as int));
        assert(locs_view(out@) =~= mapped_locations(*mapping, all.subrange(0, 0)));
    }
    while rest.len() > 0
        invariant
            mapping.wf(),
            i <= all.len(),
            all.len() == n,
            locs_view(rest@) =~= all.subrange(i as int, all.len() as int),
            locs_view(out@) == mapped_locations(*mapping, all.subrange(0, i as int)),
        decreases rest@.len(),
    {
        proof {
            assert(locs_view(rest@).len() == rest@.len());
        }
        let ghost prefix = all.subrange(0, i as int);
        let ghost next = all.subrange(0, i + 1);
        let ghost pre_rest = rest@;
        let mut l = rest.remove(0);
        proof {
            assert(l == pre_rest[0]);
            assert(locs_view(pre_rest)[0] == loc_view(l));
            assert(loc_view(l) == all[i as int]);
            assert(locs_view(rest@) =~= all.subrange(i + 1, all.len() as int)) by {
                assert forall|j: int|
                    0 <= j < rest@.len() implies locs_view(rest@)[j] == all[i + 1 + j] by {
                    assert(rest@[j] == pre_rest[j + 1]);
                    assert(locs_view(pre_rest)[j + 1] == all.subrange(i as int, all.len() as int)[j
                        + 1]);
                }
            }
            assert(next.drop_last() =~= prefix);
            assert(next.last() == loc_view(l));
        }
        let ok = mapping.map_location(MapDirection::FromPreprocess, &mut l);
        if ok.is_ok() {
            out.push(l);
            proof {
                assert(locs_view(out@) =~= mapped_locations(*mapping, next));
            }
        }
        i += 1;
    }
    proof {
        assert(all.subrange(0, all.len() as int) =~= all);
    }
    out
}

/// Handle a goto-style response.  The correlation value carries the file
/// the request named and the preprocessed file it was translated to; a
/// response whose context carries no such pair is passed through
/// unchanged.
pub fn handle_res_goto(
    mapping: &FiascoSourceMapping,
    req_context: &mut ReqContext,
    res: Option<GotoResponse>,
) -> (r: Option<GotoResponse>)
    requires
        mapping.wf(),
    ensures
        final(req_context).method == old(req_context).method,
        final(req_context).req_id == old(req_context).req_id,
        !(old(req_context).value matches Some(ReqValue::PathPair { .. })) ==> r == res,
        (old(req_context).value matches Some(ReqValue::PathPair { source_path, mapped_path }))
            ==> match res {
            None => r is None,
            Some(gr) => match gr {
                GotoResponse::Scalar(l) => r matches Some(GotoResponse::Scalar(l2)) && ({
                    if mapping.spec_range_ok(MapDirection::FromPreprocess, l.path@, l.range) {
                        loc_view(l2) == (
                            mapping.spec_map_range(
                                MapDirection::FromPreprocess,
                                l.path@,
                                l.range,
                            ).0,
                            mapping.spec_map_range(
                                MapDirection::FromPreprocess,
                                l.path@,
                                l.range,
                            ).1,
                        )
                    } else {
                        l2 == l
                    }
                }),
                GotoResponse::Array(ls) => r matches Some(GotoResponse::Array(out)) && locs_view(
                    out@,
                ) == mapped_locations(*mapping, locs_view(ls@)),
                GotoResponse::Link(ks) => {
                    let mp = (old(req_context).value->Some_0)->PathPair_mapped_path;
                    r matches Some(GotoResponse::Link(out)) && links_view(out@) == mapped_links(
                        *mapping,
                        mp@,
                        links_view(ks@),
                    )
                },
            },
        },
{
    let value = req_context.take_value();
    let (source_path, mapped_path) = match value {
        Some(ReqValue::PathPair { source_path, mapped_path }) => (source_path, mapped_path),
        Some(other) => {
            req_context.set_value(other);
            return res;
        },
        None => {
            return res;
        },
    };
    let gr = match res {
        Some(gr) => gr,
        None => {
            return None;
        },
    };
    match gr {
        GotoResponse::Scalar(mut l) => {
            let _ = mapping.map_location(MapDirection::FromPreprocess, &mut l);
            Some(GotoResponse::Scalar(l))
        },
        GotoResponse::Array(ls) => Some(GotoResponse::Array(map_location_list(mapping, ls))),
        GotoResponse::Link(ks) => {
            let ghost all = links_view(ks@);
            let ghost mp = mapped_path@;
            let mut rest = ks;
            let n = rest.len();
            let mut out: Vec<LocationLink> = Vec::new();
            let mut i: usize = 0;
            proof {
                assert(links_view(rest@) =~= all.subrange(0, all.len() as int));
                assert(links_view(out@) =~= mapped_links(*mapping, mp, all.subrange(0, 0)));
            }
            while rest.len() > 0
                invariant
                    mapping.wf(),
                    i <= all.len(),
                    all.len() == n,
                    mp == mapped_path@,
                    links_view(rest@) =~= all.subrange(i as int, all.len() as int),
                    links_view(out@) == mapped_links(*mapping, mp, all.subrange(0, i as int)),
                decreases rest@.len(),
            {
                proof {
                    assert(links_view(rest@).len() == rest@.len());
                }
                let ghost prefix = all.subrange(0, i as int);
                let ghost next = all.subrange(0, i + 1);
                let ghost pre_rest = rest@;
                let mut lk = rest.remove(0);
                proof {
                    assert(lk == pre_rest[0]);
                    assert(links_view(pre_rest)[0] == all[i as int]);
                    assert(links_view(rest@) =~= all.subrange(i + 1, all.len() as int)) by {
                        assert forall|j: int|
                            0 <= j < rest@.len() implies links_view(rest@)[j] == all[i + 1 + j] by {
                            assert(rest@[j] == pre_rest[j + 1]);
                            assert(links_view(pre_rest)[j + 1] == all.subrange(
                                i as int,
                                all.len() as int,
                            )[j + 1]);
                        }
                    }
                    assert(next.drop_last() =~= prefix);
                    assert(next.last() == all[i as int]);
                }
                let ghost lkm = all[i as int];
                // Map the origin span from the request's translated file.
                match &mut lk.origin_selection_range {
                    Some(orig) => {
                        let mut p = mapped_path.clone();
                        let _ = mapping.map_range(MapDirection::FromPreprocess, &mut p, orig);
                    },
                    None => (),
                }
                // Map the target's full range and selection range; both
                // must land in the same author file.
                let mut target_path_for_range = lk.target_path.clone();
                let tr_ok = mapping.map_range(
                    MapDirection::FromPreprocess,
                    &mut target_path_for_range,
                    &mut lk.target_range,
                );
                if tr_ok.is_ok() {
                    let ts_ok = mapping.map_range(
                        MapDirection::FromPreprocess,
                        &mut lk.target_path,
                        &mut lk.target_selection_range,
                    );
                    if ts_ok.is_ok() {
                        if crate::util::str_eq(
                            target_path_for_range.as_str(),
                            lk.target_path.as_str(),
                        ) {
                            out.push(lk);
                            proof {
                                assert(link_mapped(*mapping, mp, lkm) is Some);
                                assert(links_view(out@).last() == link_mapped(
                                    *mapping,
                                    mp,
                                    lkm,
                                )->Some_0);
                                assert(links_view(out@) =~= mapped_links(*mapping, mp, next));
                            }
                        } else {
                            proof {
                                assert(link_mapped(*mapping, mp, lkm) is None);
                            }
                        }
                    } else {
                        proof {
                            assert(link_mapped(*mapping, mp, lkm) is None);
                        }
                    }
                } else {
                    proof {
                        assert(link_mapped(*mapping, mp, lkm) is None);
                    }
                }
                i += 1;
            }
            proof {
                assert(all.subrange(0, all.len() as int) =~= all);
            }
            Some(GotoResponse::Link(out))
        },
    }
}

/// Handle a references response: retain the locations that map back
/// cleanly, translated into their author files.
pub fn handle_res_references(
    mapping: &FiascoSourceMapping,
    _req_context: &mut ReqContext,
    res: Option<Vec<Location>>,
) -> (r: Option<Vec<Location>>)
    requires
        mapping.wf(),
    ensures
        res is None ==> r is None,
        res matches Some(ls) ==> r matches Some(out) && locs_view(out@) == mapped_locations(
            *mapping,
            locs_view(ls@),
        ),
{
    match res {
        None => None,
        Some(ls) => Some(map_location_list(mapping, ls)),
    }
}

} // verus!

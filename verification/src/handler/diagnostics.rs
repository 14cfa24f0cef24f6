//! Translation of `textDocument/publishDiagnostics` from the server.
//!
//! Diagnostics arrive against a preprocessed file and are scattered over
//! the author files it was built from: a diagnostic with a proper range
//! goes to the author file its range maps into; a diagnostic whose range is
//! empty speaks about the whole file and is copied to every author file.

use vstd::prelude::*;

use crate::handler::document_sync::known_file;
use crate::source_mapping::{entry_for, has_entry, FiascoSourceMapping, MapDirection};
use crate::util::{bucket_pairs, groups_of, groups_view, pairs_view, Range};

verus! {

/// One diagnostic as the translation sees it: its range and the caller's
/// token identifying the rest of its fields.
#[derive(Clone, Copy, Debug)]
pub struct Diagnostic {
    pub range: Range,
    pub tag: usize,
}

/// One copy of the whole-file diagnostic `d` for every file of `files`.
pub open spec fn fan_out(files: Seq<Seq<char>>, d: Diagnostic) -> Seq<(Seq<char>, Diagnostic)>
    decreases files.len(),
{
    if files.len() == 0 {
        Seq::empty()
    } else {
        fan_out(files.drop_last(), d).push((files.last(), d))
    }
}

/// Where the diagnostics published for `path` go: whole-file diagnostics
/// (empty range) to every author file of `files`, ranged diagnostics to the
/// author file their range maps into, untranslatable ones dropped.
pub open spec fn diag_dests(
    m: FiascoSourceMapping,
    path: Seq<char>,
    files: Seq<Seq<char>>,
    ds: Seq<Diagnostic>,
) -> Seq<(Seq<char>, Diagnostic)>
    decreases ds.len(),
{
    if ds.len() == 0 {
        Seq::empty()
    } else {
        let rest = diag_dests(m, path, files, ds.drop_last());
        let d = ds.last();
        if d.range.start == d.range.end {
            rest + fan_out(files, d)
        } else if m.spec_range_ok(MapDirection::FromPreprocess, path, d.range) {
            rest.push(
                (
                    m.spec_map_range(MapDirection::FromPreprocess, path, d.range).0,
                    Diagnostic {
                        range: m.spec_map_range(MapDirection::FromPreprocess, path, d.range).1,
                        tag: d.tag,
                    },
                ),
            )
        } else {
            rest
        }
    }
}

/// Handle a server-side `publishDiagnostics` for `path`: translate each
/// diagnostic and gather the survivors into one publication per author
/// file.  `None` means the preprocessed file is unknown and the
/// notification should be forwarded unchanged.
pub fn handle_publish_diagnostics(
    mapping: &FiascoSourceMapping,
    path: &str,
    diagnostics: Vec<Diagnostic>,
) -> (r: Option<Vec<(String, Vec<Diagnostic>)>>)
    requires
        mapping.wf(),
    ensures
        r is None <==> !known_file(*mapping, MapDirection::FromPreprocess, path@),
        r matches Some(groups) ==> groups_of(
            groups_view(groups@),
            diag_dests(
                *mapping,
                path@,
                crate::handler::document_sync::dest_files(
                    *mapping,
                    MapDirection::FromPreprocess,
                    path@,
                ),
                diagnostics@,
            ),
        ),
{
    let files = mapping.map_files(MapDirection::FromPreprocess, path);
    if files.len() == 0 {
        proof {
            if has_entry(mapping.side(MapDirection::FromPreprocess), path@) {
                assert(entry_for(mapping.side(MapDirection::FromPreprocess), path@).files@.len()
                    == 0);
            }
        }
        return None;
    }
    let ghost fl = crate::handler::document_sync::dest_files(
        *mapping,
        MapDirection::FromPreprocess,
        path@,
    );
    proof {
        assert(has_entry(mapping.side(MapDirection::FromPreprocess), path@));
        assert(files@ == entry_for(mapping.side(MapDirection::FromPreprocess), path@).files@);
        assert(forall|j: int| 0 <= j < files@.len() ==> fl[j] == (#[trigger] files@[j])@);
        assert(fl.len() == files@.len());
    }
    let ghost all = diagnostics@;
    let mut pairs: Vec<(String, Diagnostic)> = Vec::new();
    let mut i: usize = 0;
    proof {
        assert(all.subrange(0, 0) =~= Seq::<Diagnostic>::empty());
        assert(pairs_view(pairs@) =~= diag_dests(*mapping, path@, fl, all.subrange(0, 0)));
    }
    while i < diagnostics.len()
        invariant
            mapping.wf(),
            i <= all.len(),
            diagnostics@ == all,
            fl.len() == files@.len(),
            forall|j: int| 0 <= j < files@.len() ==> fl[j] == (#[trigger] files@[j])@,
            pairs_view(pairs@) == diag_dests(*mapping, path@, fl, all.subrange(0, i as int)),
        decreases all.len() - i,
    {
        let d = diagnostics[i];
        let ghost prefix = all.subrange(0, i as int);
        let ghost next = all.subrange(0, i + 1);
        proof {
            assert(next.drop_last() =~= prefix);
            assert(next.last() == d);
        }
        if d.range.start.line == d.range.end.line && d.range.start.character
            == d.range.end.character {
            proof {
                assert(d.range.start == d.range.end);
            }
            let ghost before = pairs_view(pairs@);
            let mut j: usize = 0;
            while j < files.len()
                invariant
                    j <= files@.len(),
                    fl.len() == files@.len(),
                    forall|k: int| 0 <= k < files@.len() ==> fl[k] == (#[trigger] files@[k])@,
                    pairs_view(pairs@) == before + fan_out(fl.subrange(0, j as int), d),
                decreases files@.len() - j,
            {
                let ghost pre_pairs = pairs@;
                pairs.push((files[j].clone(), d));
                proof {
                    assert(fl.subrange(0, j + 1).drop_last() =~= fl.subrange(0, j as int));
                    assert(fl.subrange(0, j + 1).last() == fl[j as int]);
                    assert(pairs_view(pairs@) =~= pairs_view(pre_pairs).push((fl[j as int], d)));
                    assert(pairs_view(pre_pairs).push((fl[j as int], d)) =~= before + fan_out(
                        fl.subrange(0, j + 1),
                        d,
                    ));
                }
                j += 1;
            }
            proof {
                assert(fl.subrange(0, fl.len() as int) =~= fl);
                assert(pairs_view(pairs@) == diag_dests(*mapping, path@, fl, next));
            }
        } else {
            proof {
                assert(d.range.start != d.range.end);
            }
            let mut p = crate::util::string_copy(path);
            let mut r = d.range;
            let ok = mapping.map_range(MapDirection::FromPreprocess, &mut p, &mut r);
            if ok.is_ok() {
                pairs.push((p, Diagnostic { range: r, tag: d.tag }));
                proof {
                    assert(pairs_view(pairs@) =~= diag_dests(*mapping, path@, fl, next));
                }
            }
        }
        i += 1;
    }
    proof {
        assert(all.subrange(0, all.len() as int) =~= all);
    }
    Some(bucket_pairs(pairs))
}

} // verus!

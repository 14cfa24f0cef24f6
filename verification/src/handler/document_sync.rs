//! Translation of the document-synchronisation notifications.
//!
//! Opening an author file opens every preprocessed file it contributes to,
//! but a preprocessed file is opened toward the server only when the first
//! author file mapping to it opens, and closed only when the last one
//! closes; the reference counts in the global state keep the books.
//! Changes are translated range by range and bucketed by the preprocessed
//! file they land in.

use vstd::prelude::*;

use crate::global_state::GlobalState;
use crate::source_mapping::{entry_for, has_entry, FiascoSourceMapping, MapDirection};
use crate::util::{bucket_pairs, groups_of, groups_view, has_str, pairs_view, Range};

verus! {

/// The file is known in direction `d` and has at least one destination.
pub open spec fn known_file(m: FiascoSourceMapping, d: MapDirection, path: Seq<char>) -> bool {
    has_entry(m.side(d), path) && entry_for(m.side(d), path).files@.len() > 0
}

/// The destination files recorded for a known file, as character sequences.
pub open spec fn dest_files(m: FiascoSourceMapping, d: MapDirection, path: Seq<char>) -> Seq<
    Seq<char>,
> {
    entry_for(m.side(d), path).files@.map_values(|f: String| f@)
}

/// The count `f` will have after one more open: one more, saturating.
pub open spec fn inc_count(c: int) -> int {
    if c < u64::MAX {
        c + 1
    } else {
        c
    }
}

/// The count `f` will have after one close: one less, stopped at zero.
pub open spec fn dec_count(c: int) -> int {
    if c > 0 {
        c - 1
    } else {
        0
    }
}

/// Handle an author-side `didOpen`: raise the count of every preprocessed
/// file the author file contributes to, and return the files that must now
/// be opened toward the server.  `None` means the file is unknown and the
/// notification should be forwarded unchanged.
///
/// The returned list is the heart of the at-most-one-open guarantee: a file
/// appears on it exactly when its count was zero, so a preprocessed file
/// that is already open toward the server is never opened a second time.
pub fn handle_did_open_text_document(state: &mut GlobalState, path: &str) -> (r: Option<
    Vec<String>,
>)
    requires
        old(state).wf(),
    ensures
        final(state).wf(),
        final(state).source_mapping == old(state).source_mapping,
        final(state).client_reqs == old(state).client_reqs,
        final(state).server_reqs == old(state).server_reqs,
        final(state).next_req_id == old(state).next_req_id,
        r is None <==> !known_file(
            old(state).source_mapping,
            MapDirection::ToPreprocess,
            path@,
        ),
        r is None ==> final(state).open_files == old(state).open_files,
        r matches Some(emitted) ==> {
            let files = dest_files(old(state).source_mapping, MapDirection::ToPreprocess, path@);
            &&& forall|f: Seq<char>|
                files.contains(f) ==> final(state).open_files.count_of(f) == inc_count(
                    old(state).open_files.count_of(f),
                )
            &&& forall|f: Seq<char>|
                !files.contains(f) ==> final(state).open_files.count_of(f) == old(
                    state,
                ).open_files.count_of(f)
            &&& forall|f: Seq<char>|
                #[trigger] has_str(emitted@, f) <==> files.contains(f) && old(
                    state,
                ).open_files.count_of(f) == 0
            &&& forall|i: int, j: int| 0 <= i < j < emitted@.len() ==> emitted@[i]@ != emitted@[j]@
        },
{
    let files = state.source_mapping.map_files(MapDirection::ToPreprocess, path);
    if files.len() == 0 {
        proof {
            if has_entry(state.source_mapping.side(MapDirection::ToPreprocess), path@) {
                assert(entry_for(state.source_mapping.side(MapDirection::ToPreprocess), path@)
                    .files@.len() == 0);
            }
        }
        return None;
    }
    let ghost fl = dest_files(state.source_mapping, MapDirection::ToPreprocess, path@);
    let ghost orig = state.open_files;
    proof {
        assert(has_entry(state.source_mapping.side(MapDirection::ToPreprocess), path@));
        assert(files@ == entry_for(
            state.source_mapping.side(MapDirection::ToPreprocess),
            path@,
        ).files@);
        lemma_dest_files_distinct(state.source_mapping, MapDirection::ToPreprocess, path@);
        assert(forall|j: int| 0 <= j < files@.len() ==> fl[j] == (#[trigger] files@[j])@);
    }
    let mut emitted: Vec<String> = Vec::new();
    let mut i: usize = 0;
    while i < files.len()
        invariant
            i <= files@.len(),
            fl.len() == files@.len(),
            forall|j: int| 0 <= j < files@.len() ==> fl[j] == (#[trigger] files@[j])@,
            forall|a: int, b: int| 0 <= a < b < fl.len() ==> fl[a] != fl[b],
            state.source_mapping == old(state).source_mapping,
            state.client_reqs == old(state).client_reqs,
            state.server_reqs == old(state).server_reqs,
            state.next_req_id == old(state).next_req_id,
            state.wf(),
            orig == old(state).open_files,
            forall|f: Seq<char>|
                (exists|j: int| 0 <= j < i && fl[j] == f) ==> state.open_files.count_of(f)
                    == inc_count(orig.count_of(f)),
            forall|f: Seq<char>|
                !(exists|j: int| 0 <= j < i && fl[j] == f) ==> state.open_files.count_of(f)
                    == orig.count_of(f),
            forall|f: Seq<char>|
                #[trigger] has_str(emitted@, f) <==> exists|j: int|
                    0 <= j < i && fl[j] == f && orig.count_of(f) == 0,
            forall|a: int, b: int| 0 <= a < b < emitted@.len() ==> emitted@[a]@ != emitted@[b]@,
        decreases files@.len() - i,
    {
        let f = &files[i];
        proof {
            assert(fl[i as int] == f@);
            assert(!(exists|j: int| 0 <= j < i && fl[j] == f@)) by {
                if exists|j: int| 0 <= j < i && fl[j] == f@ {
                    let w = choose|j: int| 0 <= j < i && fl[j] == f@;
                    assert(fl[w] != fl[i as int]);
                }
            }
            assert(state.open_files.count_of(f@) == orig.count_of(f@));
        }
        let ghost pre_open = state.open_files;
        let ghost pre_emitted = emitted@;
        let newly_open = state.open_files.increment(f.as_str());
        if newly_open {
            emitted.push(f.clone());
        }
        proof {
            assert forall|g: Seq<char>|
                (exists|j: int| 0 <= j < i + 1 && fl[j] == g) implies state.open_files.count_of(g)
                == inc_count(orig.count_of(g)) by {
                let w = choose|j: int| 0 <= j < i + 1 && fl[j] == g;
                if w < i {
                    assert(g != f@) by {
                        if g == f@ {
                            assert(fl[w] != fl[i as int]);
                        }
                    }
                    assert(pre_open.count_of(g) == inc_count(orig.count_of(g)));
                } else {
                    assert(g == f@);
                }
            }
            assert forall|g: Seq<char>|
                !(exists|j: int| 0 <= j < i + 1 && fl[j] == g) implies state.open_files.count_of(g)
                == orig.count_of(g) by {
                assert(g != f@) by {
                    if g == f@ {
                        assert(fl[i as int] == g);
                    }
                }
                assert(!(exists|j: int| 0 <= j < i && fl[j] == g));
            }
            assert forall|g: Seq<char>|
                #[trigger] has_str(emitted@, g) <==> exists|j: int|
                    0 <= j < i + 1 && fl[j] == g && orig.count_of(g) == 0 by {
                if has_str(emitted@, g) {
                    let w = choose|w: int| 0 <= w < emitted@.len() && emitted@[w]@ == g;
                    if w < pre_emitted.len() {
                        assert(has_str(pre_emitted, g));
                        let w2 = choose|j: int| 0 <= j < i && fl[j] == g && orig.count_of(g) == 0;
                        assert(fl[w2] == g && orig.count_of(g) == 0);
                    } else {
                        assert(emitted@[w]@ == f@);
                        assert(fl[i as int] == g && orig.count_of(g) == 0);
                    }
                }
                if exists|j: int| 0 <= j < i + 1 && fl[j] == g && orig.count_of(g) == 0 {
                    let w = choose|j: int| 0 <= j < i + 1 && fl[j] == g && orig.count_of(g) == 0;
                    if w < i {
                        assert(has_str(pre_emitted, g));
                        let w2 = choose|w2: int| 0 <= w2 < pre_emitted.len() && pre_emitted[w2]@ == g;
                        assert(emitted@[w2]@ == g);
                    } else {
                        assert(g == f@);
                        assert(newly_open);
                        assert(emitted@[emitted@.len() - 1]@ == g);
                    }
                }
            }
            assert forall|a: int, b: int|
                0 <= a < b < emitted@.len() implies emitted@[a]@ != emitted@[b]@ by {
                if b == emitted@.len() - 1 && emitted@.len() > pre_emitted.len() {
                    assert(emitted@[a] == pre_emitted[a]);
                    if emitted@[a]@ == f@ {
                        assert(has_str(pre_emitted, f@));
                        let w = choose|j: int| 0 <= j < i && fl[j] == f@ && orig.count_of(f@) == 0;
                        assert(fl[w] != fl[i as int]);
                    }
                } else {
                    assert(emitted@[a] == pre_emitted[a] && emitted@[b] == pre_emitted[b]);
                }
            }
        }
        i += 1;
    }
    Some(emitted)
}

/// Handle an author-side `didClose`: lower the counts and return the
/// preprocessed files whose last author file just closed, which must now be
/// closed toward the server.  `None` means the file is unknown and the
/// notification should be forwarded unchanged.
pub fn handle_did_close_text_document(state: &mut GlobalState, path: &str) -> (r: Option<
    Vec<String>,
>)
    requires
        old(state).wf(),
    ensures
        final(state).wf(),
        final(state).source_mapping == old(state).source_mapping,
        final(state).client_reqs == old(state).client_reqs,
        final(state).server_reqs == old(state).server_reqs,
        final(state).next_req_id == old(state).next_req_id,
        r is None <==> !known_file(
            old(state).source_mapping,
            MapDirection::ToPreprocess,
            path@,
        ),
        r is None ==> final(state).open_files == old(state).open_files,
        r matches Some(emitted) ==> {
            let files = dest_files(old(state).source_mapping, MapDirection::ToPreprocess, path@);
            &&& forall|f: Seq<char>|
                files.contains(f) ==> final(state).open_files.count_of(f) == dec_count(
                    old(state).open_files.count_of(f),
                )
            &&& forall|f: Seq<char>|
                !files.contains(f) ==> final(state).open_files.count_of(f) == old(
                    state,
                ).open_files.count_of(f)
            &&& forall|f: Seq<char>|
                #[trigger] has_str(emitted@, f) <==> files.contains(f) && old(
                    state,
                ).open_files.count_of(f) == 1
            &&& forall|i: int, j: int| 0 <= i < j < emitted@.len() ==> emitted@[i]@ != emitted@[j]@
        },
{
    let files = state.source_mapping.map_files(MapDirection::ToPreprocess, path);
    if files.len() == 0 {
        proof {
            if has_entry(state.source_mapping.side(MapDirection::ToPreprocess), path@) {
                assert(entry_for(state.source_mapping.side(MapDirection::ToPreprocess), path@)
                    .files@.len() == 0);
            }
        }
        return None;
    }
    let ghost fl = dest_files(state.source_mapping, MapDirection::ToPreprocess, path@);
    let ghost orig = state.open_files;
    proof {
        assert(has_entry(state.source_mapping.side(MapDirection::ToPreprocess), path@));
        assert(files@ == entry_for(
            state.source_mapping.side(MapDirection::ToPreprocess),
            path@,
        ).files@);
        lemma_dest_files_distinct(state.source_mapping, MapDirection::ToPreprocess, path@);
        assert(forall|j: int| 0 <= j < files@.len() ==> fl[j] == (#[trigger] files@[j])@);
    }
    let mut emitted: Vec<String> = Vec::new();
    let mut i: usize = 0;
    while i < files.len()
        invariant
            i <= files@.len(),
            fl.len() == files@.len(),
            forall|j: int| 0 <= j < files@.len() ==> fl[j] == (#[trigger] files@[j])@,
            forall|a: int, b: int| 0 <= a < b < fl.len() ==> fl[a] != fl[b],
            state.source_mapping == old(state).source_mapping,
            state.client_reqs == old(state).client_reqs,
            state.server_reqs == old(state).server_reqs,
            state.next_req_id == old(state).next_req_id,
            state.wf(),
            orig == old(state).open_files,
            forall|f: Seq<char>|
                (exists|j: int| 0 <= j < i && fl[j] == f) ==> state.open_files.count_of(f)
                    == dec_count(orig.count_of(f)),
            forall|f: Seq<char>|
                !(exists|j: int| 0 <= j < i && fl[j] == f) ==> state.open_files.count_of(f)
                    == orig.count_of(f),
            forall|f: Seq<char>|
                #[trigger] has_str(emitted@, f) <==> exists|j: int|
                    0 <= j < i && fl[j] == f && orig.count_of(f) == 1,
            forall|a: int, b: int| 0 <= a < b < emitted@.len() ==> emitted@[a]@ != emitted@[b]@,
        decreases files@.len() - i,
    {
        let f = &files[i];
        proof {
            assert(fl[i as int] == f@);
            assert(!(exists|j: int| 0 <= j < i && fl[j] == f@)) by {
                if exists|j: int| 0 <= j < i && fl[j] == f@ {
                    let w = choose|j: int| 0 <= j < i && fl[j] == f@;
                    assert(fl[w] != fl[i as int]);
                }
            }
            assert(state.open_files.count_of(f@) == orig.count_of(f@));
        }
        let ghost pre_open = state.open_files;
        let ghost pre_emitted = emitted@;
        let last_close = state.open_files.decrement(f.as_str());
        match last_close {
            Some(true) => emitted.push(f.clone()),
            _ => (),
        }
        proof {
            assert(state.open_files.count_of(f@) == dec_count(orig.count_of(f@)));
            assert forall|g: Seq<char>|
                (exists|j: int| 0 <= j < i + 1 && fl[j] == g) implies state.open_files.count_of(g)
                == dec_count(orig.count_of(g)) by {
                let w = choose|j: int| 0 <= j < i + 1 && fl[j] == g;
                if w < i {
                    assert(g != f@) by {
                        if g == f@ {
                            assert(fl[w] != fl[i as int]);
                        }
                    }
                    assert(pre_open.count_of(g) == dec_count(orig.count_of(g)));
                    assert(state.open_files.count_of(g) == pre_open.count_of(g));
                } else {
                    assert(g == f@);
                }
            }
            assert forall|g: Seq<char>|
                !(exists|j: int| 0 <= j < i + 1 && fl[j] == g) implies state.open_files.count_of(g)
                == orig.count_of(g) by {
                assert(g != f@) by {
                    if g == f@ {
                        assert(fl[i as int] == g);
                    }
                }
                assert(!(exists|j: int| 0 <= j < i && fl[j] == g));
            }
            assert forall|g: Seq<char>|
                #[trigger] has_str(emitted@, g) <==> exists|j: int|
                    0 <= j < i + 1 && fl[j] == g && orig.count_of(g) == 1 by {
                if has_str(emitted@, g) {
                    let w = choose|w: int| 0 <= w < emitted@.len() && emitted@[w]@ == g;
                    if w < pre_emitted.len() {
                        assert(has_str(pre_emitted, g));
                        let w2 = choose|j: int| 0 <= j < i && fl[j] == g && orig.count_of(g) == 1;
                        assert(fl[w2] == g && orig.count_of(g) == 1);
                    } else {
                        assert(emitted@[w]@ == f@);
                        assert(fl[i as int] == g && orig.count_of(g) == 1);
                    }
                }
                if exists|j: int| 0 <= j < i + 1 && fl[j] == g && orig.count_of(g) == 1 {
                    let w = choose|j: int| 0 <= j < i + 1 && fl[j] == g && orig.count_of(g) == 1;
                    if w < i {
                        assert(has_str(pre_emitted, g));
                        let w2 = choose|w2: int| 0 <= w2 < pre_emitted.len() && pre_emitted[w2]@ == g;
                        assert(emitted@[w2]@ == g);
                    } else {
                        assert(g == f@);
                        assert(last_close == Some(true));
                        assert(emitted@[emitted@.len() - 1]@ == g);
                    }
                }
            }
            assert forall|a: int, b: int|
                0 <= a < b < emitted@.len() implies emitted@[a]@ != emitted@[b]@ by {
                if b == emitted@.len() - 1 && emitted@.len() > pre_emitted.len() {
                    assert(emitted@[a] == pre_emitted[a]);
                    if emitted@[a]@ == f@ {
                        assert(has_str(pre_emitted, f@));
                        let w = choose|j: int| 0 <= j < i && fl[j] == f@ && orig.count_of(f@) == 1;
                        assert(fl[w] != fl[i as int]);
                    }
                } else {
                    assert(emitted@[a] == pre_emitted[a] && emitted@[b] == pre_emitted[b]);
                }
            }
        }
        i += 1;
    }
    Some(emitted)
}

/// The destination files recorded for a known file are pairwise distinct.
pub proof fn lemma_dest_files_distinct(m: FiascoSourceMapping, d: MapDirection, path: Seq<char>)
    requires
        m.wf(),
        has_entry(m.side(d), path),
    ensures
        forall|a: int, b: int|
            0 <= a < b < dest_files(m, d, path).len() ==> dest_files(m, d, path)[a] != dest_files(
                m,
                d,
                path,
            )[b],
        dest_files(m, d, path).len() == entry_for(m.side(d), path).files@.len(),
{
    let idx = crate::source_mapping::entry_index(m.side(d), path);
    assert(m.side(d)[idx].mappings.base_wf()) by {
        match d {
            MapDirection::ToPreprocess => {},
            MapDirection::FromPreprocess => {},
        }
    }
    let fs = entry_for(m.side(d), path).files@;
    assert forall|a: int, b: int|
        0 <= a < b < dest_files(m, d, path).len() implies dest_files(m, d, path)[a] != dest_files(
        m,
        d,
        path,
    )[b] by {
        assert(fs[a]@ != fs[b]@);
    }
}

/// One content change of a `didChange`, with its range (if the change
/// carries one) and the caller's token identifying the change's text.
#[derive(Clone, Copy, Debug)]
pub struct ContentChange {
    pub range: Option<Range>,
    pub tag: usize,
}

/// Where the changes of a `didChange` on `path` go: each ranged change that
/// translates cleanly is sent to its preprocessed file with the translated
/// range; changes whose endpoints map into different files, and changes
/// that replace the whole document, are dropped.
pub open spec fn change_dests(
    m: FiascoSourceMapping,
    path: Seq<char>,
    cs: Seq<ContentChange>,
) -> Seq<(Seq<char>, ContentChange)>
    decreases cs.len(),
{
    if cs.len() == 0 {
        Seq::empty()
    } else {
        let rest = change_dests(m, path, cs.drop_last());
        let c = cs.last();
        match c.range {
            Some(r) => {
                if m.spec_range_ok(MapDirection::ToPreprocess, path, r) {
                    rest.push(
                        (
                            m.spec_map_range(MapDirection::ToPreprocess, path, r).0,
                            ContentChange {
                                range: Some(m.spec_map_range(MapDirection::ToPreprocess, path, r).1),
                                tag: c.tag,
                            },
                        ),
                    )
                } else {
                    rest
                }
            },
            None => rest,
        }
    }
}

/// Handle an author-side `didChange`: translate each ranged content change
/// and gather the survivors into one notification per preprocessed file.
/// `None` means the author file is unknown and the notification should be
/// forwarded unchanged.
pub fn handle_did_change_text_document(
    mapping: &FiascoSourceMapping,
    path: &str,
    content_changes: Vec<ContentChange>,
) -> (r: Option<Vec<(String, Vec<ContentChange>)>>)
    requires
        mapping.wf(),
    ensures
        r is None <==> !known_file(*mapping, MapDirection::ToPreprocess, path@),
        r matches Some(groups) ==> groups_of(
            groups_view(groups@),
            change_dests(*mapping, path@, content_changes@),
        ),
{
    let files = mapping.map_files(MapDirection::ToPreprocess, path);
    if files.len() == 0 {
        proof {
            if has_entry(mapping.side(MapDirection::ToPreprocess), path@) {
                assert(entry_for(mapping.side(MapDirection::ToPreprocess), path@).files@.len()
                    == 0);
            }
        }
        return None;
    }
    proof {
        assert(has_entry(mapping.side(MapDirection::ToPreprocess), path@));
    }
    let ghost all = content_changes@;
    let mut pairs: Vec<(String, ContentChange)> = Vec::new();
    let mut i: usize = 0;
    proof {
        assert(all.subrange(0, 0) =~= Seq::<ContentChange>::empty());
        assert(pairs_view(pairs@) =~= change_dests(*mapping, path@, all.subrange(0, 0)));
    }
    while i < content_changes.len()
        invariant
            mapping.wf(),
            i <= all.len(),
            content_changes@ == all,
            pairs_view(pairs@) == change_dests(*mapping, path@, all.subrange(0, i as int)),
        decreases all.len() - i,
    {
        let c = content_changes[i];
        let ghost prefix = all.subrange(0, i as int);
        let ghost next = all.subrange(0, i + 1);
        proof {
            assert(next.drop_last() =~= prefix);
            assert(next.last() == c);
        }
        match c.range {
            Some(range) => {
                let mut p = crate::util::string_copy(path);
                let mut r = range;
                let ok = mapping.map_range(MapDirection::ToPreprocess, &mut p, &mut r);
                if ok.is_ok() {
                    pairs.push((p, ContentChange { range: Some(r), tag: c.tag }));
                    proof {
                        assert(pairs_view(pairs@) =~= change_dests(*mapping, path@, next));
                    }
                }
            },
            None => (),
        }
        i += 1;
    }
    proof {
        assert(all.subrange(0, all.len() as int) =~= all);
    }
    Some(bucket_pairs(pairs))
}

} // verus!

//! Small verified helpers shared across the crate: character-level string
//! comparisons, the plain position/range records that LSP payload
//! translation works on, and the position and range queries built on the
//! mapping database.

use vstd::prelude::*;
use vstd::string::StrSliceExecFns;

use crate::source_mapping::{FiascoSourceMapping, MapDirection};

verus! {

/// A zero-based line and column.
#[derive(Clone, Copy, Debug, PartialEq, Eq, Structural)]
pub struct Position {
    pub line: u32,
    pub character: u32,
}

/// A span between two positions in one document.
#[derive(Clone, Copy, Debug, PartialEq, Eq, Structural)]
pub struct Range {
    pub start: Position,
    pub end: Position,
}

/// A range within a named file.
#[derive(Debug)]
pub struct Location {
    pub path: String,
    pub range: Range,
}

impl Clone for Location {
    fn clone(&self) -> (r: Location)
        ensures
            r == *self,
    {
        Location { path: self.path.clone(), range: self.range }
    }
}

/// `prefix` is an initial segment of `s`.
pub open spec fn spec_starts_with(s: Seq<char>, prefix: Seq<char>) -> bool {
    prefix.len() <= s.len() && s.subrange(0, prefix.len() as int) == prefix
}

/// A `String` holding the same characters as `s`.
pub fn string_copy(s: &str) -> (r: String)
    ensures
        r@ == s@,
{
    s.to_owned()
}

/// Character-for-character equality of two string slices.
pub fn str_eq(a: &str, b: &str) -> (r: bool)
    ensures
        r == (a@ == b@),
{
    let a_len = a.unicode_len();
    let b_len = b.unicode_len();
    if a_len != b_len {
        assert(a@ != b@) by {
            assert(a@.len() != b@.len());
        }
        return false;
    }
    let mut i: usize = 0;
    while i < a_len
        invariant
            a_len == a@.len(),
            b_len == b@.len(),
            a@.len() == b@.len(),
            i <= a_len,
            forall|j: int| 0 <= j < i ==> a@[j] == b@[j],
        decreases a_len - i,
    {
        if a.get_char(i) != b.get_char(i) {
            return false;
        }
        i += 1;
    }
    proof {
        assert(a@ =~= b@);
    }
    true
}

/// Whether `s` begins with `prefix`.
pub fn str_starts_with(s: &str, prefix: &str) -> (r: bool)
    ensures
        r == spec_starts_with(s@, prefix@),
{
    let s_len = s.unicode_len();
    let p_len = prefix.unicode_len();
    if p_len > s_len {
        return false;
    }
    let mut i: usize = 0;
    while i < p_len
        invariant
            s_len == s@.len(),
            p_len == prefix@.len(),
            p_len <= s_len,
            i <= p_len,
            forall|j: int| 0 <= j < i ==> s@[j] == prefix@[j],
        decreases p_len - i,
    {
        if s.get_char(i) != prefix.get_char(i) {
            assert(!spec_starts_with(s@, prefix@)) by {
                assert(s@.subrange(0, prefix@.len() as int)[i as int] == s@[i as int]);
            }
            return false;
        }
        i += 1;
    }
    proof {
        assert(s@.subrange(0, prefix@.len() as int) =~= prefix@);
    }
    true
}

/// Some member of `fs` reads as `f`.
pub open spec fn has_str(fs: Seq<String>, f: Seq<char>) -> bool {
    exists|i: int| 0 <= i < fs.len() && fs[i]@ == f
}

/// Whether one of the strings in `fs` reads as `f`.
pub fn vec_contains_str(fs: &Vec<String>, f: &str) -> (r: bool)
    ensures
        r == has_str(fs@, f@),
{
    let mut i: usize = 0;
    while i < fs.len()
        invariant
            i <= fs@.len(),
            forall|j: int| 0 <= j < i ==> fs@[j]@ != f@,
        decreases fs@.len() - i,
    {
        if str_eq(fs[i].as_str(), f) {
            return true;
        }
        i += 1;
    }
    false
}


impl FiascoSourceMapping {
    /// Where a position of `path` translates to: the mapped file and line,
    /// the column unchanged.
    pub open spec fn spec_map_position(self, d: MapDirection, path: Seq<char>, pos: Position) -> (
        Seq<char>,
        Position,
    ) {
        let pl = self.spec_map(d, path, pos.line);
        (pl.0, Position { line: pl.1, character: pos.character })
    }

    /// Both ends of the range land in the same file, so the range as a whole
    /// can be translated.
    pub open spec fn spec_range_ok(self, d: MapDirection, path: Seq<char>, range: Range) -> bool {
        self.spec_map(d, path, range.start.line).0 == self.spec_map(d, path, range.end.line).0
    }

    /// Where a range of `path` translates to: each endpoint mapped on its
    /// own, columns unchanged.  Meaningful when [`Self::spec_range_ok`].
    pub open spec fn spec_map_range(self, d: MapDirection, path: Seq<char>, range: Range) -> (
        Seq<char>,
        Range,
    ) {
        let s = self.spec_map(d, path, range.start.line);
        let e = self.spec_map(d, path, range.end.line);
        (
            s.0,
            Range {
                start: Position { line: s.1, character: range.start.character },
                end: Position { line: e.1, character: range.end.character },
            },
        )
    }

    /// Translate a position in place.
    pub fn map_position(&self, direction: MapDirection, path: &mut String, position: &mut Position)
        requires
            self.wf(),
        ensures
            final(path)@ == self.spec_map_position(direction, old(path)@, *old(position)).0,
            *final(position) == self.spec_map_position(direction, old(path)@, *old(position)).1,
    {
        let loc = self.map(direction, path.as_str(), position.line, position.character);
        *path = loc.path;
        position.line = loc.line;
        position.character = loc.character;
    }

    /// Translate a range in place.  When the endpoints map into different
    /// files nothing is changed and the caller must handle the refusal.
    pub fn map_range(&self, direction: MapDirection, path: &mut String, range: &mut Range) -> (r:
        Result<(), ()>)
        requires
            self.wf(),
        ensures
            r is Ok <==> self.spec_range_ok(direction, old(path)@, *old(range)),
            r is Ok ==> final(path)@ == self.spec_map_range(direction, old(path)@, *old(range)).0
                && *final(range) == self.spec_map_range(direction, old(path)@, *old(range)).1,
            r is Err ==> *final(path) == *old(path) && *final(range) == *old(range),
    {
        let mapped_start = self.map(direction, path.as_str(), range.start.line, range.start.character);
        let mapped_end = self.map(direction, path.as_str(), range.end.line, range.end.character);
        if !str_eq(mapped_start.path.as_str(), mapped_end.path.as_str()) {
            return Err(());
        }
        *path = mapped_start.path;
        range.start.line = mapped_start.line;
        range.start.character = mapped_start.character;
        range.end.line = mapped_end.line;
        range.end.character = mapped_end.character;
        Ok(())
    }

    /// Translate a location in place, refusing ranges that would straddle
    /// two files.
    pub fn map_location(&self, direction: MapDirection, location: &mut Location) -> (r: Result<
        (),
        (),
    >)
        requires
            self.wf(),
        ensures
            r is Ok <==> self.spec_range_ok(direction, old(location).path@, old(location).range),
            r is Ok ==> final(location).path@ == self.spec_map_range(
                direction,
                old(location).path@,
                old(location).range,
            ).0 && final(location).range == self.spec_map_range(
                direction,
                old(location).path@,
                old(location).range,
            ).1,
            r is Err ==> *final(location) == *old(location),
    {
        self.map_range(direction, &mut location.path, &mut location.range)
    }

    /// The destination files of every mapping of `path` overlapping the
    /// line span of `range`.
    pub fn map_file_range(&self, direction: MapDirection, path: &str, range: &Range) -> (r: Vec<
        String,
    >)
        requires
            self.wf(),
        ensures
            !crate::source_mapping::has_entry(self.side(direction), path@) ==> r@.len() == 0,
            crate::source_mapping::has_entry(self.side(direction), path@) ==> forall|f: Seq<char>|
                #[trigger] has_str(r@, f) <==> crate::source_mapping::entry_for(
                    self.side(direction),
                    path@,
                ).overlapping_dst(range.start.line, range.end.line, f),
            forall|i: int, j: int| 0 <= i < j < r@.len() ==> r@[i]@ != r@[j]@,
    {
        self.map_files_with_range(direction, path, range.start.line, range.end.line)
    }
}


/// The items of `pairs` destined for `path`, in order.
pub open spec fn matching_items<T>(pairs: Seq<(Seq<char>, T)>, path: Seq<char>) -> Seq<T>
    decreases pairs.len(),
{
    if pairs.len() == 0 {
        Seq::empty()
    } else {
        let rest = matching_items(pairs.drop_last(), path);
        if pairs.last().0 == path {
            rest.push(pairs.last().1)
        } else {
            rest
        }
    }
}

/// Some pair is destined for `path`.
pub open spec fn has_pair_key<T>(pairs: Seq<(Seq<char>, T)>, path: Seq<char>) -> bool {
    exists|i: int| 0 <= i < pairs.len() && pairs[i].0 == path
}

/// The view of a keyed pair list: each key as its character sequence.
pub open spec fn pairs_view<T>(pairs: Seq<(String, T)>) -> Seq<(Seq<char>, T)> {
    pairs.map_values(|p: (String, T)| (p.0@, p.1))
}

/// `groups` buckets `pairs` by key: one group per distinct key, holding
/// exactly the items destined for it, in their original order.
pub open spec fn groups_of<T>(groups: Seq<(Seq<char>, Seq<T>)>, pairs: Seq<(Seq<char>, T)>) -> bool {
    &&& forall|k: int| 0 <= k < groups.len() ==> (#[trigger] groups[k]).1 == matching_items(
        pairs,
        groups[k].0,
    )
    &&& forall|k: int, k2: int| 0 <= k < k2 < groups.len() ==> groups[k].0 != groups[k2].0
    &&& forall|f: Seq<char>|
        #[trigger] has_pair_key(pairs, f) <==> exists|k: int| 0 <= k < groups.len() && (
        #[trigger] groups[k]).0 == f
}

/// The view of a built group list.
pub open spec fn groups_view<T>(groups: Seq<(String, Vec<T>)>) -> Seq<(Seq<char>, Seq<T>)> {
    groups.map_values(|g: (String, Vec<T>)| (g.0@, g.1@))
}

/// Extending the pair list by one pair extends exactly its key's items.
pub proof fn lemma_matching_step<T>(pairs: Seq<(Seq<char>, T)>, p: (Seq<char>, T))
    ensures
        forall|f: Seq<char>|
            #[trigger] matching_items(pairs.push(p), f) == if p.0 == f {
                matching_items(pairs, f).push(p.1)
            } else {
                matching_items(pairs, f)
            },
{
    assert forall|f: Seq<char>|
        #[trigger] matching_items(pairs.push(p), f) == if p.0 == f {
            matching_items(pairs, f).push(p.1)
        } else {
            matching_items(pairs, f)
        } by {
        assert(pairs.push(p).drop_last() =~= pairs);
        assert(pairs.push(p).last() == p);
    }
}

/// Gather a list of keyed items into one group per key, keys in order of
/// first appearance, items in their original order.
pub fn bucket_pairs<T>(pairs: Vec<(String, T)>) -> (r: Vec<(String, Vec<T>)>)
    ensures
        groups_of(groups_view(r@), pairs_view(pairs@)),
{
    let ghost all = pairs_view(pairs@);
    let mut rest = pairs;
    let n = rest.len();
    let mut groups: Vec<(String, Vec<T>)> = Vec::new();
    let mut i: usize = 0;
    proof {
        assert(pairs_view(rest@) =~= all.subrange(0, all.len() as int));
        assert(matching_items(all.subrange(0, 0), Seq::<char>::empty()) =~= Seq::<T>::empty());
        assert forall|f: Seq<char>| !(#[trigger] has_pair_key(all.subrange(0, 0), f)) by {}
    }
    while rest.len() > 0
        invariant
            i <= all.len(),
            all.len() == n,
            pairs_view(rest@) =~= all.subrange(i as int, all.len() as int),
            groups_of(groups_view(groups@), all.subrange(0, i as int)),
        decreases rest@.len(),
    {
        proof {
            assert(pairs_view(rest@).len() == rest@.len());
            assert(rest@.len() == all.len() - i);
        }
        let ghost prefix = all.subrange(0, i as int);
        let ghost next = all.subrange(0, i + 1);
        let ghost pre_rest = rest@;
        let (key, item) = rest.remove(0);
        proof {
            assert((key, item) == pre_rest[0]);
            assert(pairs_view(pre_rest)[0] == (key@, item));
            assert((key@, item) == all[i as int]);
            assert(pairs_view(rest@) =~= all.subrange(i + 1, all.len() as int)) by {
                assert forall|j: int|
                    0 <= j < rest@.len() implies pairs_view(rest@)[j] == all[i + 1 + j] by {
                    assert(rest@[j] == pre_rest[j + 1]);
                    assert(pairs_view(pre_rest)[j + 1] == all.subrange(
                        i as int,
                        all.len() as int,
                    )[j + 1]);
                }
            }
            assert(next.drop_last() =~= prefix);
            assert(next.last() == (key@, item));
            lemma_matching_step(prefix, (key@, item));
        }
        let ghost pre_groups = groups_view(groups@);
        // Find the group for this key, if it exists.
        let mut k: usize = 0;
        let mut found = false;
        while k < groups.len()
            invariant
                k <= groups@.len(),
                !found ==> forall|j: int| 0 <= j < k ==> groups@[j].0@ != key@,
                found ==> k < groups@.len() && groups@[k as int].0@ == key@,
            ensures
                found ==> k < groups@.len() && groups@[k as int].0@ == key@,
                !found ==> forall|j: int| 0 <= j < groups@.len() ==> groups@[j].0@ != key@,
            decreases groups@.len() - k,
        {
            if str_eq(groups[k].0.as_str(), key.as_str()) {
                found = true;
                break;
            }
            k += 1;
        }
        if found {
            let (gkey, mut gitems) = groups.remove(k);
            gitems.push(item);
            groups.insert(k, (gkey, gitems));
            proof {
                assert(groups_view(groups@) =~= pre_groups.update(
                    k as int,
                    (pre_groups[k as int].0, pre_groups[k as int].1.push(item)),
                ));
                assert(pre_groups[k as int].0 == key@);
                assert forall|k2: int|
                    0 <= k2 < groups_view(groups@).len() implies (#[trigger] groups_view(
                    groups@,
                )[k2]).1 == matching_items(next, groups_view(groups@)[k2].0) by {
                    if k2 == k {
                        assert(pre_groups[k2].1 == matching_items(prefix, key@));
                        assert(groups_view(groups@)[k2].1 == matching_items(prefix, key@).push(
                            item,
                        ));
                    } else {
                        assert(groups_view(groups@)[k2] == pre_groups[k2]);
                        assert(pre_groups[k2].0 != pre_groups[k as int].0);
                    }
                }
                assert forall|f: Seq<char>| #[trigger] has_pair_key(next, f) implies exists|k2: int|
                    0 <= k2 < groups_view(groups@).len() && (#[trigger] groups_view(groups@)[k2]).0
                        == f by {
                    let w = choose|w: int| 0 <= w < next.len() && next[w].0 == f;
                    if w < i {
                        assert(prefix[w].0 == f);
                        assert(has_pair_key(prefix, f));
                        let k2 = choose|k2: int|
                            0 <= k2 < pre_groups.len() && pre_groups[k2].0 == f;
                        assert(groups_view(groups@)[k2].0 == f);
                    } else {
                        assert(f == key@);
                        assert(groups_view(groups@)[k as int].0 == f);
                    }
                }
                assert forall|f: Seq<char>|
                    (exists|k2: int|
                        0 <= k2 < groups_view(groups@).len() && (#[trigger] groups_view(groups@)[
                        k2]).0 == f) implies #[trigger] has_pair_key(next, f) by {
                    let k2 = choose|k2: int|
                        0 <= k2 < groups_view(groups@).len() && groups_view(groups@)[k2].0 == f;
                    assert(pre_groups[k2].0 == f);
                    assert(has_pair_key(prefix, f));
                    let w = choose|w: int| 0 <= w < prefix.len() && prefix[w].0 == f;
                    assert(next[w].0 == f);
                }
            }
        } else {
            proof {
                assert(!has_pair_key(prefix, key@)) by {
                    if has_pair_key(prefix, key@) {
                        let k2 = choose|k2: int|
                            0 <= k2 < pre_groups.len() && pre_groups[k2].0 == key@;
                        assert(groups@[k2].0@ == key@);
                    }
                }
                lemma_matching_empty(prefix, key@);
            }
            let mut gitems: Vec<T> = Vec::new();
            gitems.push(item);
            groups.push((key, gitems));
            proof {
                assert(groups_view(groups@).len() == pre_groups.len() + 1);
                assert(forall|k2: int|
                    0 <= k2 < pre_groups.len() ==> groups_view(groups@)[k2] == pre_groups[k2]);
                assert(groups_view(groups@).last().0 == key@);
                assert(groups_view(groups@).last().1 =~= matching_items(prefix, key@).push(item));
                assert forall|k2: int|
                    0 <= k2 < groups_view(groups@).len() implies (#[trigger] groups_view(
                    groups@,
                )[k2]).1 == matching_items(next, groups_view(groups@)[k2].0) by {
                    if k2 == groups_view(groups@).len() - 1 {
                    } else {
                        assert(groups_view(groups@)[k2] == pre_groups[k2]);
                        assert(pre_groups[k2].0 != key@) by {
                            if pre_groups[k2].0 == key@ {
                                assert(has_pair_key(prefix, key@));
                            }
                        }
                    }
                }
                assert forall|k2: int, k3: int|
                    0 <= k2 < k3 < groups_view(groups@).len() implies groups_view(groups@)[k2].0
                    != groups_view(groups@)[k3].0 by {
                    if k3 == groups_view(groups@).len() - 1 {
                        if groups_view(groups@)[k2].0 == key@ {
                            assert(pre_groups[k2].0 == key@);
                            assert(has_pair_key(prefix, key@));
                        }
                    } else {
                        assert(groups_view(groups@)[k2] == pre_groups[k2]);
                        assert(groups_view(groups@)[k3] == pre_groups[k3]);
                        assert(pre_groups[k2].0 != pre_groups[k3].0);
                    }
                }
                assert forall|f: Seq<char>| #[trigger] has_pair_key(next, f) implies exists|k2: int|
                    0 <= k2 < groups_view(groups@).len() && (#[trigger] groups_view(groups@)[k2]).0
                        == f by {
                    let w = choose|w: int| 0 <= w < next.len() && next[w].0 == f;
                    if w < i {
                        assert(prefix[w].0 == f);
                        assert(has_pair_key(prefix, f));
                        let k2 = choose|k2: int|
                            0 <= k2 < pre_groups.len() && pre_groups[k2].0 == f;
                        assert(groups_view(groups@)[k2].0 == f);
                    } else {
                        assert(f == key@);
                        assert(groups_view(groups@).last().0 == f);
                    }
                }
                assert forall|f: Seq<char>|
                    (exists|k2: int|
                        0 <= k2 < groups_view(groups@).len() && (#[trigger] groups_view(groups@)[
                        k2]).0 == f) implies #[trigger] has_pair_key(next, f) by {
                    let k2 = choose|k2: int|
                        0 <= k2 < groups_view(groups@).len() && groups_view(groups@)[k2].0 == f;
                    if k2 < pre_groups.len() {
                        assert(pre_groups[k2].0 == f);
                        assert(has_pair_key(prefix, f));
                        let w = choose|w: int| 0 <= w < prefix.len() && prefix[w].0 == f;
                        assert(next[w].0 == f);
                    } else {
                        assert(f == key@);
                        assert(next[i as int].0 == f);
                    }
                }
            }
        }
        i += 1;
    }
    proof {
        assert(all.subrange(0, all.len() as int) =~= all);
    }
    groups
}

/// A key that appears in no pair gathers no items.
pub proof fn lemma_matching_empty<T>(pairs: Seq<(Seq<char>, T)>, f: Seq<char>)
    requires
        !has_pair_key(pairs, f),
    ensures
        matching_items(pairs, f) =~= Seq::<T>::empty(),
    decreases pairs.len(),
{
    if pairs.len() > 0 {
        assert(!has_pair_key(pairs.drop_last(), f)) by {
            if has_pair_key(pairs.drop_last(), f) {
                let w = choose|w: int|
                    0 <= w < pairs.drop_last().len() && pairs.drop_last()[w].0 == f;
                assert(pairs[w].0 == f);
            }
        }
        assert(pairs.last().0 != f) by {
            assert(pairs[pairs.len() - 1] == pairs.last());
        }
        lemma_matching_empty(pairs.drop_last(), f);
    }
}


/// One inlay hint as the translation sees it: its position and the
/// caller's token identifying the rest of its fields.
#[derive(Clone, Copy, Debug)]
pub struct InlayHintItem {
    pub position: Position,
    pub tag: usize,
}

/// One flat document symbol: a full location and the caller's token.
#[derive(Debug)]
pub struct FlatSymbol {
    pub location: Location,
    pub tag: usize,
}

impl Clone for FlatSymbol {
    fn clone(&self) -> (r: FlatSymbol)
        ensures
            r == *self,
    {
        FlatSymbol { location: self.location.clone(), tag: self.tag }
    }
}

/// One nested document symbol: its spans, its children, and the caller's
/// token for its other fields.
#[derive(Debug)]
pub struct DocSymbol {
    pub range: Range,
    pub selection_range: Range,
    pub children: Vec<DocSymbol>,
    pub tag: usize,
}

/// A document-symbol response, in either of the protocol's two shapes.
#[derive(Debug)]
pub enum DocSymbolResponse {
    Flat(Vec<FlatSymbol>),
    Nested(Vec<DocSymbol>),
}

} // verus!

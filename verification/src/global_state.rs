//! The proxy's correlation state: the in-flight request registries, the
//! open-file reference counts, and the counter that mints outbound request
//! identifiers.
//!
//! All of it is owned by one coordinator, which processes one message at a
//! time; the functions here are the only ways it changes.

use vstd::prelude::*;

use crate::source_mapping::FiascoSourceMapping;
use crate::util::{str_eq, DocSymbolResponse, InlayHintItem};
use crate::Direction;

verus! {

/// A request identifier as a peer chose it: LSP allows numbers and strings.
#[derive(Debug)]
pub enum ReqId {
    Num(i32),
    Text(String),
}

impl Clone for ReqId {
    fn clone(&self) -> (r: ReqId)
        ensures
            r == *self,
    {
        match self {
            ReqId::Num(n) => ReqId::Num(*n),
            ReqId::Text(s) => ReqId::Text(s.clone()),
        }
    }
}

/// The per-request state a handler parks between the request and its
/// response: the paths involved in the translation and, for a fan-out
/// shard, the join batch it belongs to.
#[derive(Debug)]
pub enum ReqValue {
    /// The file the request named and the file it was translated to.
    PathPair { source_path: String, mapped_path: String },
    /// One shard of a fanned-out request joined under `batch`.
    Shard { source_path: String, mapped_path: String, batch: u64 },
}

/// What the dispatcher must remember about one outbound request: the
/// method, the identifier the originating peer used, and the handler's
/// correlation state.
#[derive(Debug)]
pub struct ReqContext {
    pub method: String,
    pub req_id: ReqId,
    pub value: Option<ReqValue>,
}

impl ReqContext {
    pub fn new(method: String, req_id: ReqId) -> (r: ReqContext)
        ensures
            r.method == method,
            r.req_id == req_id,
            r.value is None,
    {
        ReqContext { method, req_id, value: None }
    }

    pub fn method(&self) -> (r: &str)
        ensures
            r@ == self.method@,
    {
        self.method.as_str()
    }

    pub fn req_id(&self) -> (r: &ReqId)
        ensures
            r == self.req_id,
    {
        &self.req_id
    }

    /// Park a correlation value, replacing any present one.
    pub fn set_value(&mut self, value: ReqValue)
        ensures
            final(self).method == old(self).method,
            final(self).req_id == old(self).req_id,
            final(self).value == Some(value),
    {
        self.value = Some(value);
    }

    /// Take the parked correlation value out.
    pub fn take_value(&mut self) -> (r: Option<ReqValue>)
        ensures
            r == old(self).value,
            final(self).method == old(self).method,
            final(self).req_id == old(self).req_id,
            final(self).value is None,
    {
        self.value.take()
    }
}

/// The seed for the contexts of a fanned-out request: every shard shares
/// the method and the originating peer's identifier.
pub struct ReqContextAlloc {
    pub req_method: String,
    pub req_id: ReqId,
}

impl ReqContextAlloc {
    /// A fresh context carrying the shared method and identifier.
    pub fn fresh_context(&self) -> (r: ReqContext)
        ensures
            r.method == self.req_method,
            r.req_id == self.req_id,
            r.value is None,
    {
        ReqContext::new(self.req_method.clone(), self.req_id.clone())
    }
}

/// The slots of one registry: outbound request identifier to context.
pub struct RequestRegistry {
    pub entries: Vec<(u64, ReqContext)>,
}

/// Some slot carries identifier `id`.
pub open spec fn reg_contains(entries: Seq<(u64, ReqContext)>, id: u64) -> bool {
    exists|i: int| 0 <= i < entries.len() && entries[i].0 == id
}

/// The index of the slot carrying `id`; unique when identifiers are unique.
pub open spec fn reg_index(entries: Seq<(u64, ReqContext)>, id: u64) -> int {
    choose|i: int| 0 <= i < entries.len() && entries[i].0 == id
}

/// The context stored under `id`, when present.
pub open spec fn reg_lookup(entries: Seq<(u64, ReqContext)>, id: u64) -> Option<ReqContext> {
    if reg_contains(entries, id) {
        Some(entries[reg_index(entries, id)].1)
    } else {
        None
    }
}

impl RequestRegistry {
    /// No two slots carry the same identifier.
    pub open spec fn wf(self) -> bool {
        forall|i: int, j: int|
            0 <= i < j < self.entries@.len() ==> self.entries@[i].0 != self.entries@[j].0
    }

    /// The number of requests in flight.
    pub open spec fn spec_len(self) -> nat {
        self.entries@.len()
    }

    pub fn new() -> (r: RequestRegistry)
        ensures
            r.wf(),
            r.spec_len() == 0,
    {
        RequestRegistry { entries: Vec::new() }
    }

    pub fn len(&self) -> (r: usize)
        ensures
            r == self.spec_len(),
    {
        self.entries.len()
    }

    /// Record an in-flight request.  The registry grows by exactly one slot
    /// and every other slot is untouched.
    pub fn insert(&mut self, id: u64, ctx: ReqContext)
        requires
            old(self).wf(),
            !reg_contains(old(self).entries@, id),
        ensures
            final(self).wf(),
            final(self).entries@ == old(self).entries@.push((id, ctx)),
            final(self).spec_len() == old(self).spec_len() + 1,
            reg_lookup(final(self).entries@, id) == Some(ctx),
            forall|other: u64|
                other != id ==> reg_lookup(final(self).entries@, other) == reg_lookup(
                    old(self).entries@,
                    other,
                ),
    {
        let ghost pre = self.entries@;
        self.entries.push((id, ctx));
        proof {
            let post = self.entries@;
            assert forall|i: int, j: int|
                0 <= i < j < post.len() implies post[i].0 != post[j].0 by {
                if j == post.len() - 1 {
                    assert(post[i] == pre[i]);
                    if post[i].0 == id {
                        assert(reg_contains(pre, id));
                    }
                }
            }
            assert(reg_contains(post, id)) by {
                assert(post[post.len() - 1].0 == id);
            }
            lemma_reg_index_unique(post, id, post.len() - 1);
            assert forall|other: u64|
                other != id implies reg_lookup(post, other) == reg_lookup(pre, other) by {
                if reg_contains(pre, other) {
                    let w = reg_index(pre, other);
                    assert(post[w].0 == other);
                    lemma_reg_index_unique(post, other, w);
                } else {
                    if reg_contains(post, other) {
                        let w = reg_index(post, other);
                        assert(post[w].0 == other);
                        assert(w < pre.len());
                        assert(reg_contains(pre, other));
                    }
                }
            }
        }
    }

    /// Look up and remove the context of a response's identifier.  On a hit
    /// the registry shrinks by exactly one slot; an unknown identifier
    /// changes nothing.
    pub fn remove(&mut self, id: u64) -> (r: Option<ReqContext>)
        requires
            old(self).wf(),
        ensures
            final(self).wf(),
            r == reg_lookup(old(self).entries@, id),
            reg_contains(old(self).entries@, id) ==> final(self).spec_len() == old(self).spec_len() - 1,
            !reg_contains(old(self).entries@, id) ==> *final(self) == *old(self),
            !reg_contains(final(self).entries@, id),
            forall|other: u64|
                other != id ==> reg_lookup(final(self).entries@, other) == reg_lookup(
                    old(self).entries@,
                    other,
                ),
            forall|i: int|
                0 <= i < final(self).entries@.len() ==> reg_contains(
                    old(self).entries@,
                    (#[trigger] final(self).entries@[i]).0,
                ),
    {
        let ghost pre = self.entries@;
        let mut i: usize = 0;
        while i < self.entries.len()
            invariant
                *self == *old(self),
                self.entries@ == pre,
                forall|a: int, b: int| 0 <= a < b < pre.len() ==> pre[a].0 != pre[b].0,
                i <= pre.len(),
                forall|j: int| 0 <= j < i ==> pre[j].0 != id,
            decreases pre.len() - i,
        {
            if self.entries[i].0 == id {
                let (_, ctx) = self.entries.remove(i);
                proof {
                    lemma_reg_index_unique(pre, id, i as int);
                    let post = self.entries@;
                    assert(post == pre.remove(i as int));
                    assert forall|a: int, b: int|
                        0 <= a < b < post.len() implies post[a].0 != post[b].0 by {
                        if b < i {
                        } else if a < i {
                            assert(post[a] == pre[a] && post[b] == pre[b + 1]);
                        } else {
                            assert(post[a] == pre[a + 1] && post[b] == pre[b + 1]);
                        }
                    }
                    assert(!reg_contains(post, id)) by {
                        if reg_contains(post, id) {
                            let w = reg_index(post, id);
                            if w < i {
                                assert(pre[w].0 == id);
                                lemma_reg_index_unique(pre, id, w);
                            } else {
                                assert(pre[w + 1].0 == id);
                                lemma_reg_index_unique(pre, id, w + 1);
                            }
                        }
                    }
                    assert forall|other: u64|
                        other != id implies reg_lookup(post, other) == reg_lookup(pre, other) by {
                        if reg_contains(pre, other) {
                            let w = reg_index(pre, other);
                            assert(pre[w].0 == other);
                            if w < i {
                                assert(post[w] == pre[w]);
                                lemma_reg_index_unique(post, other, w);
                            } else {
                                assert(w > i);
                                assert(post[w - 1] == pre[w]);
                                lemma_reg_index_unique(post, other, w - 1);
                            }
                        } else {
                            if reg_contains(post, other) {
                                let w = reg_index(post, other);
                                if w < i {
                                    assert(pre[w].0 == other);
                                } else {
                                    assert(pre[w + 1].0 == other);
                                }
                                assert(reg_contains(pre, other));
                            }
                        }
                    }
                    assert forall|a: int|
                        0 <= a < post.len() implies reg_contains(pre, (#[trigger] post[a]).0) by {
                        if a < i {
                            assert(pre[a].0 == post[a].0);
                        } else {
                            assert(pre[a + 1].0 == post[a].0);
                        }
                    }
                }
                return Some(ctx);
            }
            i += 1;
        }
        proof {
            if reg_contains(pre, id) {
                let w = reg_index(pre, id);
                assert(pre[w].0 == id);
            }
        }
        None
    }
}

/// In a registry with unique identifiers the located slot is the only one.
pub proof fn lemma_reg_index_unique(entries: Seq<(u64, ReqContext)>, id: u64, i: int)
    requires
        forall|a: int, b: int| 0 <= a < b < entries.len() ==> entries[a].0 != entries[b].0,
        0 <= i < entries.len(),
        entries[i].0 == id,
    ensures
        reg_contains(entries, id),
        reg_index(entries, id) == i,
{
    let w = reg_index(entries, id);
    assert(reg_contains(entries, id));
    if w < i {
        assert(entries[w].0 != entries[i].0);
    } else if w > i {
        assert(entries[i].0 != entries[w].0);
    }
}

/// Law: the identifier round trip.  A context stored under a fresh
/// identifier is returned intact when that identifier's response arrives,
/// so the response goes out under exactly the identifier the originating
/// peer used.
pub proof fn lemma_id_round_trip(entries: Seq<(u64, ReqContext)>, id: u64, ctx: ReqContext)
    requires
        forall|a: int, b: int| 0 <= a < b < entries.len() ==> entries[a].0 != entries[b].0,
        !reg_contains(entries, id),
    ensures
        reg_lookup(entries.push((id, ctx)), id) == Some(ctx),
{
    let post = entries.push((id, ctx));
    assert(post[post.len() - 1].0 == id);
    assert forall|a: int, b: int| 0 <= a < b < post.len() implies post[a].0 != post[b].0 by {
        if b == post.len() - 1 {
            assert(post[a] == entries[a]);
            if post[a].0 == id {
                assert(reg_contains(entries, id));
            }
        }
    }
    lemma_reg_index_unique(post, id, post.len() - 1);
}

/// The reference counts of the preprocessed files currently open toward the
/// server: present exactly while at least one author file that maps to them
/// is open.
pub struct OpenFiles {
    pub entries: Vec<(String, u64)>,
}

impl OpenFiles {
    /// How many open author files currently map to `f`.
    pub open spec fn count_of(self, f: Seq<char>) -> int {
        if exists|i: int| 0 <= i < self.entries@.len() && self.entries@[i].0@ == f {
            self.entries@[choose|i: int|
                0 <= i < self.entries@.len() && self.entries@[i].0@ == f].1 as int
        } else {
            0
        }
    }

    /// Unique keys, every count positive.
    pub open spec fn wf(self) -> bool {
        &&& forall|i: int, j: int|
            0 <= i < j < self.entries@.len() ==> self.entries@[i].0@ != self.entries@[j].0@
        &&& forall|i: int| 0 <= i < self.entries@.len() ==> (#[trigger] self.entries@[i]).1 >= 1
    }

    pub fn new() -> (r: OpenFiles)
        ensures
            r.wf(),
            r.entries@.len() == 0,
            forall|f: Seq<char>| r.count_of(f) == 0,
    {
        OpenFiles { entries: Vec::new() }
    }
}

/// The relation `increment` establishes between the old and new counts at
/// `f`: one more, saturating at the largest representable count.
pub open spec fn inc_rel(pre: OpenFiles, post: OpenFiles, f: Seq<char>) -> bool {
    &&& post.count_of(f) == if pre.count_of(f) < u64::MAX {
        pre.count_of(f) + 1
    } else {
        pre.count_of(f)
    }
    &&& forall|g: Seq<char>| g != f ==> post.count_of(g) == pre.count_of(g)
}

/// The relation `decrement` establishes: one less, stopping at zero.
pub open spec fn dec_rel(pre: OpenFiles, post: OpenFiles, f: Seq<char>) -> bool {
    &&& post.count_of(f) == if pre.count_of(f) > 0 {
        pre.count_of(f) - 1
    } else {
        0
    }
    &&& forall|g: Seq<char>| g != f ==> post.count_of(g) == pre.count_of(g)
}

/// Law: reference-count conservation.  An open followed by the matching
/// close leaves every file's count exactly where it started, so any matched
/// sequence of opens and closes balances out.
pub proof fn lemma_refcount_conservation(
    pre: OpenFiles,
    mid: OpenFiles,
    post: OpenFiles,
    f: Seq<char>,
)
    requires
        inc_rel(pre, mid, f),
        dec_rel(mid, post, f),
        pre.count_of(f) < u64::MAX,
    ensures
        forall|g: Seq<char>| post.count_of(g) == pre.count_of(g),
{
    assert forall|g: Seq<char>| post.count_of(g) == pre.count_of(g) by {
        if g == f {
            assert(mid.count_of(f) == pre.count_of(f) + 1);
        }
    }
}

impl OpenFiles {
    /// Raise the count for `f`, creating it at one.  Returns whether the
    /// file was closed before, i.e. whether this open must reach the server.
    pub fn increment(&mut self, f: &str) -> (newly_open: bool)
        requires
            old(self).wf(),
        ensures
            final(self).wf(),
            newly_open == (old(self).count_of(f@) == 0),
            inc_rel(*old(self), *final(self), f@),
    {
        let ghost pre = *self;
        let mut i: usize = 0;
        while i < self.entries.len()
            invariant
                *self == pre,
                pre == *old(self),
                pre.wf(),
                i <= pre.entries@.len(),
                forall|j: int| 0 <= j < i ==> pre.entries@[j].0@ != f@,
            decreases pre.entries@.len() - i,
        {
            if str_eq(self.entries[i].0.as_str(), f) {
                proof {
                    lemma_count_at(pre, i as int);
                }
                let (key, count) = self.entries.remove(i);
                let new_count = if count < u64::MAX {
                    count + 1
                } else {
                    count
                };
                self.entries.insert(i, (key, new_count));
                proof {
                    assert(self.entries@ =~= pre.entries@.update(
                        i as int,
                        (pre.entries@[i as int].0, new_count),
                    ));
                    assert(self.entries@[i as int].0@ == f@);
                    assert(self.wf()) by {
                        assert(forall|j: int|
                            0 <= j < self.entries@.len() && j != i ==> self.entries@[j]
                                == pre.entries@[j]);
                    }
                    lemma_count_at(*self, i as int);
                    assert forall|g: Seq<char>|
                        g != f@ implies self.count_of(g) == pre.count_of(g) by {
                        lemma_count_other(pre, *self, i as int, g);
                    }
                }
                return false;
            }
            i += 1;
        }
        let ghost pre2 = *self;
        self.entries.push((f.to_owned(), 1));
        proof {
            assert(pre.count_of(f@) == 0);
            assert(self.entries@[self.entries@.len() - 1].0@ == f@);
            assert(self.entries@[self.entries@.len() - 1].1 == 1);
            assert forall|a: int, b: int|
                0 <= a < b < self.entries@.len() implies self.entries@[a].0@
                != self.entries@[b].0@ by {
                if b == self.entries@.len() - 1 {
                    assert(self.entries@[a] == pre.entries@[a]);
                }
            }
            lemma_count_at(*self, self.entries@.len() - 1);
            assert forall|g: Seq<char>| g != f@ implies self.count_of(g) == pre.count_of(g) by {
                lemma_count_push_other(pre, *self, g);
            }
        }
        true
    }

    /// Lower the count for `f`, removing it at zero.  Returns whether this
    /// was the last open, i.e. whether a close must reach the server; a file
    /// that was not open at all yields `None`, for the caller to report.
    pub fn decrement(&mut self, f: &str) -> (r: Option<bool>)
        requires
            old(self).wf(),
        ensures
            final(self).wf(),
            r is None <==> old(self).count_of(f@) == 0,
            r is None ==> *final(self) == *old(self),
            r == Some(true) <==> old(self).count_of(f@) == 1,
            r is Some ==> dec_rel(*old(self), *final(self), f@),
    {
        let ghost pre = *self;
        let mut i: usize = 0;
        while i < self.entries.len()
            invariant
                *self == pre,
                pre == *old(self),
                pre.wf(),
                i <= pre.entries@.len(),
                forall|j: int| 0 <= j < i ==> pre.entries@[j].0@ != f@,
            decreases pre.entries@.len() - i,
        {
            if str_eq(self.entries[i].0.as_str(), f) {
                proof {
                    lemma_count_at(pre, i as int);
                }
                if self.entries[i].1 > 1 {
                    let (key, count) = self.entries.remove(i);
                    self.entries.insert(i, (key, count - 1));
                    proof {
                        assert(self.entries@ =~= pre.entries@.update(
                            i as int,
                            (pre.entries@[i as int].0, (pre.entries@[i as int].1 - 1) as u64),
                        ));
                        assert(self.wf()) by {
                            assert(forall|j: int|
                                0 <= j < self.entries@.len() && j != i ==> self.entries@[j]
                                    == pre.entries@[j]);
                        }
                        lemma_count_at(*self, i as int);
                        assert forall|g: Seq<char>|
                            g != f@ implies self.count_of(g) == pre.count_of(g) by {
                            lemma_count_other(pre, *self, i as int, g);
                        }
                    }
                    return Some(false);
                } else {
                    self.entries.remove(i);
                    proof {
                        assert(self.entries@ =~= pre.entries@.remove(i as int));
                        lemma_count_removed(pre, *self, i as int);
                    }
                    return Some(true);
                }
            }
            i += 1;
        }
        proof {
            if exists|j: int| 0 <= j < pre.entries@.len() && pre.entries@[j].0@ == f@ {
                let w = choose|j: int| 0 <= j < pre.entries@.len() && pre.entries@[j].0@ == f@;
                assert(pre.entries@[w].0@ != f@);
            }
        }
        None
    }
}

/// The count at a slot is the count of its key.
proof fn lemma_count_at(o: OpenFiles, i: int)
    requires
        o.wf(),
        0 <= i < o.entries@.len(),
    ensures
        o.count_of(o.entries@[i].0@) == o.entries@[i].1 as int,
{
    let f = o.entries@[i].0@;
    assert(exists|j: int| 0 <= j < o.entries@.len() && o.entries@[j].0@ == f);
    let w = choose|j: int| 0 <= j < o.entries@.len() && o.entries@[j].0@ == f;
    if w < i {
        assert(o.entries@[w].0@ != o.entries@[i].0@);
    } else if w > i {
        assert(o.entries@[i].0@ != o.entries@[w].0@);
    }
}

/// Updating one slot's count leaves every other key's count alone.
proof fn lemma_count_other(pre: OpenFiles, post: OpenFiles, i: int, g: Seq<char>)
    requires
        pre.wf(),
        0 <= i < pre.entries@.len(),
        post.entries@.len() == pre.entries@.len(),
        forall|j: int| 0 <= j < pre.entries@.len() && j != i ==> post.entries@[j] == pre.entries@[j],
        post.entries@[i].0 == pre.entries@[i].0,
        g != pre.entries@[i].0@,
    ensures
        post.count_of(g) == pre.count_of(g),
{
    if exists|j: int| 0 <= j < pre.entries@.len() && pre.entries@[j].0@ == g {
        let w = choose|j: int| 0 <= j < pre.entries@.len() && pre.entries@[j].0@ == g;
        assert(w != i);
        assert(post.entries@[w].0@ == g);
        let w2 = choose|j: int| 0 <= j < post.entries@.len() && post.entries@[j].0@ == g;
        if w2 != w {
            if w2 == i {
                assert(post.entries@[i].0@ == pre.entries@[i].0@);
            } else {
                assert(pre.entries@[w2].0@ == g);
                if w2 < w {
                    assert(pre.entries@[w2].0@ != pre.entries@[w].0@);
                } else {
                    assert(pre.entries@[w].0@ != pre.entries@[w2].0@);
                }
            }
        }
    } else {
        if exists|j: int| 0 <= j < post.entries@.len() && post.entries@[j].0@ == g {
            let w = choose|j: int| 0 <= j < post.entries@.len() && post.entries@[j].0@ == g;
            if w == i {
                assert(post.entries@[i].0@ == pre.entries@[i].0@);
            } else {
                assert(pre.entries@[w].0@ == g);
            }
        }
    }
}

/// Appending a slot with a fresh key leaves every other key's count alone.
proof fn lemma_count_push_other(pre: OpenFiles, post: OpenFiles, g: Seq<char>)
    requires
        pre.wf(),
        post.entries@.len() == pre.entries@.len() + 1,
        forall|j: int| 0 <= j < pre.entries@.len() ==> post.entries@[j] == pre.entries@[j],
        g != post.entries@[post.entries@.len() - 1].0@,
    ensures
        post.count_of(g) == pre.count_of(g),
{
    if exists|j: int| 0 <= j < pre.entries@.len() && pre.entries@[j].0@ == g {
        let w = choose|j: int| 0 <= j < pre.entries@.len() && pre.entries@[j].0@ == g;
        assert(post.entries@[w].0@ == g);
        let w2 = choose|j: int| 0 <= j < post.entries@.len() && post.entries@[j].0@ == g;
        assert(w2 < pre.entries@.len());
        assert(pre.entries@[w2].0@ == g);
        if w2 != w {
            if w2 < w {
                assert(pre.entries@[w2].0@ != pre.entries@[w].0@);
            } else {
                assert(pre.entries@[w].0@ != pre.entries@[w2].0@);
            }
        }
        assert(post.entries@[w2].1 == pre.entries@[w].1);
        let wp = choose|j: int| 0 <= j < pre.entries@.len() && pre.entries@[j].0@ == g;
        if wp != w {
            if wp < w {
                assert(pre.entries@[wp].0@ != pre.entries@[w].0@);
            } else {
                assert(pre.entries@[w].0@ != pre.entries@[wp].0@);
            }
        }
    } else {
        if exists|j: int| 0 <= j < post.entries@.len() && post.entries@[j].0@ == g {
            let w = choose|j: int| 0 <= j < post.entries@.len() && post.entries@[j].0@ == g;
            assert(w < pre.entries@.len());
            assert(pre.entries@[w].0@ == g);
        }
    }
}

/// Removing a slot zeroes its key's count and leaves the others alone.
proof fn lemma_count_removed(pre: OpenFiles, post: OpenFiles, i: int)
    requires
        pre.wf(),
        0 <= i < pre.entries@.len(),
        post.entries@ == pre.entries@.remove(i),
    ensures
        post.wf(),
        post.count_of(pre.entries@[i].0@) == 0,
        forall|g: Seq<char>| g != pre.entries@[i].0@ ==> post.count_of(g) == pre.count_of(g),
{
    let f = pre.entries@[i].0@;
    assert forall|a: int, b: int|
        0 <= a < b < post.entries@.len() implies post.entries@[a].0@ != post.entries@[b].0@ by {
        if b < i {
        } else if a < i {
            assert(post.entries@[a] == pre.entries@[a] && post.entries@[b] == pre.entries@[b + 1]);
        } else {
            assert(post.entries@[a] == pre.entries@[a + 1] && post.entries@[b] == pre.entries@[b
                + 1]);
        }
    }
    assert forall|j: int| 0 <= j < post.entries@.len() implies (#[trigger] post.entries@[j]).1
        >= 1 by {
        if j < i {
            assert(post.entries@[j] == pre.entries@[j]);
        } else {
            assert(post.entries@[j] == pre.entries@[j + 1]);
        }
    }
    assert(post.count_of(f) == 0) by {
        if exists|j: int| 0 <= j < post.entries@.len() && post.entries@[j].0@ == f {
            let w = choose|j: int| 0 <= j < post.entries@.len() && post.entries@[j].0@ == f;
            if w < i {
                assert(pre.entries@[w].0@ != pre.entries@[i].0@);
            } else {
                assert(pre.entries@[i].0@ != pre.entries@[w + 1].0@);
            }
        }
    }
    assert forall|g: Seq<char>| g != f implies post.count_of(g) == pre.count_of(g) by {
        if exists|j: int| 0 <= j < pre.entries@.len() && pre.entries@[j].0@ == g {
            let w = choose|j: int| 0 <= j < pre.entries@.len() && pre.entries@[j].0@ == g;
            assert(w != i);
            if w < i {
                assert(post.entries@[w].0@ == g);
                assert(post.count_of(g) == post.entries@[choose|j: int|
                    0 <= j < post.entries@.len() && post.entries@[j].0@ == g].1 as int);
                let w2 = choose|j: int| 0 <= j < post.entries@.len() && post.entries@[j].0@ == g;
                assert(post.entries@[w2].0@ == g);
                if w2 < i {
                    assert(pre.entries@[w2].0@ == g);
                    if w2 != w {
                        if w2 < w {
                            assert(pre.entries@[w2].0@ != pre.entries@[w].0@);
                        } else {
                            assert(pre.entries@[w].0@ != pre.entries@[w2].0@);
                        }
                    }
                    assert(post.entries@[w2].1 == pre.entries@[w].1);
                } else {
                    assert(pre.entries@[w2 + 1].0@ == g);
                    if w2 + 1 != w {
                        if w2 + 1 < w {
                            assert(pre.entries@[w2 + 1].0@ != pre.entries@[w].0@);
                        } else {
                            assert(pre.entries@[w].0@ != pre.entries@[w2 + 1].0@);
                        }
                    }
                    assert(post.entries@[w2].1 == pre.entries@[w].1);
                }
            } else {
                assert(post.entries@[w - 1].0@ == g);
                let w2 = choose|j: int| 0 <= j < post.entries@.len() && post.entries@[j].0@ == g;
                if w2 < i {
                    assert(pre.entries@[w2].0@ == g);
                    if w2 < w {
                        assert(pre.entries@[w2].0@ != pre.entries@[w].0@);
                    }
                } else {
                    assert(pre.entries@[w2 + 1].0@ == g);
                    if w2 + 1 != w {
                        if w2 + 1 < w {
                            assert(pre.entries@[w2 + 1].0@ != pre.entries@[w].0@);
                        } else {
                            assert(pre.entries@[w].0@ != pre.entries@[w2 + 1].0@);
                        }
                    }
                }
                assert(post.entries@[w2].1 == pre.entries@[w].1);
            }
        } else {
            if exists|j: int| 0 <= j < post.entries@.len() && post.entries@[j].0@ == g {
                let w = choose|j: int| 0 <= j < post.entries@.len() && post.entries@[j].0@ == g;
                if w < i {
                    assert(pre.entries@[w].0@ == g);
                } else {
                    assert(pre.entries@[w + 1].0@ == g);
                }
            }
        }
    }
}

/// One pending fan-out join: the batch identifier, how many shards are
/// still to arrive, and the items gathered so far.
pub struct JoinSlot<T> {
    pub batch: u64,
    pub remaining: usize,
    pub items: Vec<T>,
}

/// The pending fan-out joins of one response family.
pub struct JoinTable<T> {
    pub slots: Vec<JoinSlot<T>>,
}

/// Some slot joins batch `b`.
pub open spec fn join_contains<T>(slots: Seq<JoinSlot<T>>, b: u64) -> bool {
    exists|i: int| 0 <= i < slots.len() && slots[i].batch == b
}

/// The index of the slot joining `b`; unique when batches are unique.
pub open spec fn join_index<T>(slots: Seq<JoinSlot<T>>, b: u64) -> int {
    choose|i: int| 0 <= i < slots.len() && slots[i].batch == b
}

impl<T> JoinTable<T> {
    /// No two slots join the same batch, and every slot still waits for at
    /// least one shard.
    pub open spec fn wf(self) -> bool {
        &&& forall|i: int, j: int|
            0 <= i < j < self.slots@.len() ==> self.slots@[i].batch != self.slots@[j].batch
        &&& forall|i: int| 0 <= i < self.slots@.len() ==> (#[trigger] self.slots@[i]).remaining >= 1
    }

    pub fn new() -> (r: JoinTable<T>)
        ensures
            r.wf(),
            r.slots@.len() == 0,
    {
        JoinTable { slots: Vec::new() }
    }

    /// Open a join for a fresh batch expecting `expected` shards.
    pub fn create(&mut self, batch: u64, expected: usize)
        requires
            old(self).wf(),
            !join_contains(old(self).slots@, batch),
            expected >= 1,
        ensures
            final(self).wf(),
            final(self).slots@.len() == old(self).slots@.len() + 1,
            forall|i: int| 0 <= i < old(self).slots@.len() ==> final(self).slots@[i] == old(self).slots@[i],
            final(self).slots@.last().batch == batch,
            final(self).slots@.last().remaining == expected,
            final(self).slots@.last().items@.len() == 0,
            join_contains(final(self).slots@, batch),
    {
        let ghost pre = self.slots@;
        self.slots.push(JoinSlot { batch, remaining: expected, items: Vec::new() });
        proof {
            assert forall|i: int, j: int|
                0 <= i < j < self.slots@.len() implies self.slots@[i].batch
                != self.slots@[j].batch by {
                if j == self.slots@.len() - 1 {
                    assert(self.slots@[i] == pre[i]);
                    if self.slots@[i].batch == batch {
                        assert(join_contains(pre, batch));
                    }
                }
            }
            assert(self.slots@[self.slots@.len() - 1].batch == batch);
        }
    }

    /// Record the arrival of one shard's items for `batch`.  Returns the
    /// gathered items of the whole batch when this was the last shard (the
    /// join is then closed), `None` while shards are still missing or when
    /// the batch is unknown.  The shard's items follow everything gathered
    /// before them.
    pub fn add_shard(&mut self, batch: u64, items: Vec<T>) -> (r: Option<Vec<T>>)
        requires
            old(self).wf(),
        ensures
            final(self).wf(),
            !join_contains(old(self).slots@, batch) ==> r is None && *final(self) == *old(self),
            join_contains(old(self).slots@, batch) ==> ({
                let i = join_index(old(self).slots@, batch);
                let slot = old(self).slots@[i];
                if slot.remaining == 1 {
                    r matches Some(all) && all@ == slot.items@ + items@ && !join_contains(
                        final(self).slots@,
                        batch,
                    ) && final(self).slots@.len() == old(self).slots@.len() - 1
                } else {
                    r is None && final(self).slots@.len() == old(self).slots@.len()
                        && join_contains(final(self).slots@, batch) && ({
                        let k = join_index(final(self).slots@, batch);
                        final(self).slots@[k].remaining == slot.remaining - 1 && final(self).slots@[k].items@ == slot.items@ + items@
                    })
                }
            }),
            forall|b: u64|
                b != batch ==> (join_contains(final(self).slots@, b) <==> join_contains(
                    old(self).slots@,
                    b,
                )),
    {
        let ghost pre = self.slots@;
        let mut i: usize = 0;
        while i < self.slots.len()
            invariant
                *self == *old(self),
                self.slots@ == pre,
                forall|a: int, b: int| 0 <= a < b < pre.len() ==> pre[a].batch != pre[b].batch,
                forall|a: int| 0 <= a < pre.len() ==> (#[trigger] pre[a]).remaining >= 1,
                i <= pre.len(),
                forall|j: int| 0 <= j < i ==> pre[j].batch != batch,
            decreases pre.len() - i,
        {
            if self.slots[i].batch == batch {
                proof {
                    lemma_join_index_unique(pre, batch, i as int);
                }
                let mut slot = self.slots.remove(i);
                let mut items = items;
                slot.items.append(&mut items);
                if slot.remaining == 1 {
                    proof {
                        assert(self.slots@ =~= pre.remove(i as int));
                        lemma_join_removed(pre, self.slots@, i as int);
                    }
                    return Some(slot.items);
                }
                slot.remaining = slot.remaining - 1;
                self.slots.insert(i, slot);
                proof {
                    assert(self.slots@ =~= pre.update(
                        i as int,
                        JoinSlot {
                            batch,
                            remaining: (pre[i as int].remaining - 1) as usize,
                            items: slot.items,
                        },
                    ));
                    assert forall|a: int, b: int|
                        0 <= a < b < self.slots@.len() implies self.slots@[a].batch
                        != self.slots@[b].batch by {
                        assert(self.slots@[a].batch == pre[a].batch);
                        assert(self.slots@[b].batch == pre[b].batch);
                    }
                    assert(self.slots@[i as int].batch == batch);
                    lemma_join_index_unique(self.slots@, batch, i as int);
                    assert forall|b: u64|
                        b != batch implies (join_contains(self.slots@, b) <==> join_contains(
                        pre,
                        b,
                    )) by {
                        if join_contains(pre, b) {
                            let w = join_index(pre, b);
                            assert(self.slots@[w].batch == b);
                        }
                        if join_contains(self.slots@, b) {
                            let w = join_index(self.slots@, b);
                            assert(pre[w].batch == b);
                        }
                    }
                }
                return None;
            }
            i += 1;
        }
        proof {
            if join_contains(pre, batch) {
                let w = join_index(pre, batch);
                assert(pre[w].batch == batch);
            }
        }
        None
    }
}

/// In a table with unique batches the located slot is the only one.
proof fn lemma_join_index_unique<T>(slots: Seq<JoinSlot<T>>, b: u64, i: int)
    requires
        forall|a: int, c: int| 0 <= a < c < slots.len() ==> slots[a].batch != slots[c].batch,
        0 <= i < slots.len(),
        slots[i].batch == b,
    ensures
        join_contains(slots, b),
        join_index(slots, b) == i,
{
    let w = join_index(slots, b);
    assert(join_contains(slots, b));
    if w < i {
        assert(slots[w].batch != slots[i].batch);
    } else if w > i {
        assert(slots[i].batch != slots[w].batch);
    }
}

/// Removing a slot keeps the table well formed and its batch absent.
proof fn lemma_join_removed<T>(pre: Seq<JoinSlot<T>>, post: Seq<JoinSlot<T>>, i: int)
    requires
        forall|a: int, c: int| 0 <= a < c < pre.len() ==> pre[a].batch != pre[c].batch,
        forall|a: int| 0 <= a < pre.len() ==> (#[trigger] pre[a]).remaining >= 1,
        0 <= i < pre.len(),
        post == pre.remove(i),
    ensures
        forall|a: int, c: int| 0 <= a < c < post.len() ==> post[a].batch != post[c].batch,
        forall|a: int| 0 <= a < post.len() ==> (#[trigger] post[a]).remaining >= 1,
        !join_contains(post, pre[i].batch),
        forall|b: u64| b != pre[i].batch ==> (join_contains(post, b) <==> join_contains(pre, b)),
{
    assert forall|a: int, c: int|
        0 <= a < c < post.len() implies post[a].batch != post[c].batch by {
        if c < i {
        } else if a < i {
            assert(post[a] == pre[a] && post[c] == pre[c + 1]);
        } else {
            assert(post[a] == pre[a + 1] && post[c] == pre[c + 1]);
        }
    }
    assert forall|a: int| 0 <= a < post.len() implies (#[trigger] post[a]).remaining >= 1 by {
        if a < i {
            assert(post[a] == pre[a]);
        } else {
            assert(post[a] == pre[a + 1]);
        }
    }
    assert(!join_contains(post, pre[i].batch)) by {
        if join_contains(post, pre[i].batch) {
            let w = join_index(post, pre[i].batch);
            if w < i {
                assert(pre[w].batch != pre[i].batch);
            } else {
                assert(pre[i].batch != pre[w + 1].batch);
            }
        }
    }
    assert forall|b: u64|
        b != pre[i].batch implies (join_contains(post, b) <==> join_contains(pre, b)) by {
        if join_contains(pre, b) {
            let w = join_index(pre, b);
            assert(pre[w].batch == b);
            if w < i {
                assert(post[w].batch == b);
            } else {
                assert(w > i);
                assert(post[w - 1].batch == b);
            }
        }
        if join_contains(post, b) {
            let w = join_index(post, b);
            if w < i {
                assert(pre[w].batch == b);
            } else {
                assert(pre[w + 1].batch == b);
            }
        }
    }
}

/// Everything the coordinator owns and mutates while translating messages:
/// the mapping database, the open-file counts, one request registry per
/// direction, and the counter for fresh outbound identifiers.
pub struct GlobalState {
    pub source_mapping: FiascoSourceMapping,
    pub open_files: OpenFiles,
    pub client_reqs: RequestRegistry,
    pub server_reqs: RequestRegistry,
    pub inlay_joins: JoinTable<InlayHintItem>,
    pub symbol_joins: JoinTable<DocSymbolResponse>,
    pub next_req_id: u64,
}

impl GlobalState {
    /// Structural consistency, kept from construction on: a well-formed
    /// mapping database and registries whose identifiers were all minted by
    /// the counter.
    pub open spec fn wf(self) -> bool {
        &&& self.source_mapping.wf()
        &&& self.open_files.wf()
        &&& self.client_reqs.wf()
        &&& self.server_reqs.wf()
        &&& forall|i: int|
            0 <= i < self.client_reqs.entries@.len() ==> (#[trigger] self.client_reqs.entries@[i]).0 < self.next_req_id
        &&& forall|i: int|
            0 <= i < self.server_reqs.entries@.len() ==> (#[trigger] self.server_reqs.entries@[i]).0 < self.next_req_id
        &&& self.inlay_joins.wf()
        &&& self.symbol_joins.wf()
        &&& forall|i: int|
            0 <= i < self.inlay_joins.slots@.len() ==> (#[trigger] self.inlay_joins.slots@[i]).batch
                < self.next_req_id
        &&& forall|i: int|
            0 <= i < self.symbol_joins.slots@.len() ==> (
            #[trigger] self.symbol_joins.slots@[i]).batch < self.next_req_id
    }

    /// The registry of requests sent out in direction `d`.
    pub open spec fn reqs_spec(self, d: Direction) -> RequestRegistry {
        match d {
            Direction::ToServer => self.client_reqs,
            Direction::FromServer => self.server_reqs,
        }
    }

    pub fn new(source_mapping: FiascoSourceMapping) -> (r: GlobalState)
        requires
            source_mapping.wf(),
        ensures
            r.wf(),
            r.source_mapping == source_mapping,
            r.open_files.entries@.len() == 0,
            r.client_reqs.spec_len() == 0,
            r.server_reqs.spec_len() == 0,
            r.inlay_joins.slots@.len() == 0,
            r.symbol_joins.slots@.len() == 0,
            r.next_req_id == 0,
    {
        GlobalState {
            source_mapping,
            open_files: OpenFiles::new(),
            client_reqs: RequestRegistry::new(),
            server_reqs: RequestRegistry::new(),
            inlay_joins: JoinTable::new(),
            symbol_joins: JoinTable::new(),
            next_req_id: 0,
        }
    }

    /// Mint a fresh outbound request identifier.
    pub fn alloc_req_id(&mut self) -> (r: u64)
        requires
            old(self).next_req_id < u64::MAX,
        ensures
            r == old(self).next_req_id,
            final(self).next_req_id == old(self).next_req_id + 1,
            final(self).source_mapping == old(self).source_mapping,
            final(self).open_files == old(self).open_files,
            final(self).client_reqs == old(self).client_reqs,
            final(self).server_reqs == old(self).server_reqs,
            final(self).inlay_joins == old(self).inlay_joins,
            final(self).symbol_joins == old(self).symbol_joins,
            old(self).wf() ==> final(self).wf(),
    {
        let r = self.next_req_id;
        self.next_req_id = self.next_req_id + 1;
        r
    }

    /// Register an outbound request travelling in direction `d`: mint a
    /// fresh identifier and park the context under it.  The other
    /// direction's registry, the counts and the mapping stay as they are.
    pub fn register_request(&mut self, d: Direction, ctx: ReqContext) -> (fresh: u64)
        requires
            old(self).wf(),
            old(self).next_req_id < u64::MAX,
        ensures
            final(self).wf(),
            fresh == old(self).next_req_id,
            final(self).next_req_id == old(self).next_req_id + 1,
            final(self).source_mapping == old(self).source_mapping,
            final(self).open_files == old(self).open_files,
            final(self).reqs_spec(d).entries@ == old(self).reqs_spec(d).entries@.push(
                (fresh, ctx),
            ),
            final(self).reqs_spec(d).spec_len() == old(self).reqs_spec(d).spec_len() + 1,
            reg_lookup(final(self).reqs_spec(d).entries@, fresh) == Some(ctx),
            final(self).reqs_spec(d.reverse_spec()) == old(self).reqs_spec(d.reverse_spec()),
            final(self).inlay_joins == old(self).inlay_joins,
            final(self).symbol_joins == old(self).symbol_joins,
    {
        let fresh = self.alloc_req_id();
        proof {
            if reg_contains(self.client_reqs.entries@, fresh) {
                let w = reg_index(self.client_reqs.entries@, fresh);
                assert(self.client_reqs.entries@[w].0 == fresh);
            }
            if reg_contains(self.server_reqs.entries@, fresh) {
                let w = reg_index(self.server_reqs.entries@, fresh);
                assert(self.server_reqs.entries@[w].0 == fresh);
            }
        }
        match d {
            Direction::ToServer => self.client_reqs.insert(fresh, ctx),
            Direction::FromServer => self.server_reqs.insert(fresh, ctx),
        }
        fresh
    }

    /// Take the context of an arrived response out of the registry of the
    /// direction its request was sent in.  A hit shrinks that registry by
    /// exactly one; an identifier that was never registered changes nothing
    /// and yields `None`, for the caller to drop the response.
    pub fn take_response(&mut self, d: Direction, id: u64) -> (r: Option<ReqContext>)
        requires
            old(self).wf(),
        ensures
            final(self).wf(),
            r == reg_lookup(old(self).reqs_spec(d).entries@, id),
            reg_contains(old(self).reqs_spec(d).entries@, id) ==> final(self).reqs_spec(
                d,
            ).spec_len() == old(self).reqs_spec(d).spec_len() - 1,
            !reg_contains(old(self).reqs_spec(d).entries@, id) ==> final(self).reqs_spec(d) == old(self).reqs_spec(d),
            !reg_contains(final(self).reqs_spec(d).entries@, id),
            final(self).reqs_spec(d.reverse_spec()) == old(self).reqs_spec(d.reverse_spec()),
            final(self).source_mapping == old(self).source_mapping,
            final(self).open_files == old(self).open_files,
            final(self).inlay_joins == old(self).inlay_joins,
            final(self).symbol_joins == old(self).symbol_joins,
            final(self).next_req_id == old(self).next_req_id,
    {
        let r = match d {
            Direction::ToServer => self.client_reqs.remove(id),
            Direction::FromServer => self.server_reqs.remove(id),
        };
        proof {
            match d {
                Direction::ToServer => {
                    assert forall|i: int|
                        0 <= i < self.client_reqs.entries@.len() implies (
                    #[trigger] self.client_reqs.entries@[i]).0 < self.next_req_id by {
                        let pre = old(self).client_reqs.entries@;
                        assert(reg_contains(pre, self.client_reqs.entries@[i].0));
                        let w = reg_index(pre, self.client_reqs.entries@[i].0);
                        assert(pre[w].0 == self.client_reqs.entries@[i].0);
                    }
                },
                Direction::FromServer => {
                    assert forall|i: int|
                        0 <= i < self.server_reqs.entries@.len() implies (
                    #[trigger] self.server_reqs.entries@[i]).0 < self.next_req_id by {
                        let pre = old(self).server_reqs.entries@;
                        assert(reg_contains(pre, self.server_reqs.entries@[i].0));
                        let w = reg_index(pre, self.server_reqs.entries@[i].0);
                        assert(pre[w].0 == self.server_reqs.entries@[i].0);
                    }
                },
            }
        }
        r
    }

    /// Open an inlay-hint join expecting `expected` shards, under a fresh
    /// batch identifier.
    pub fn open_inlay_join(&mut self, expected: usize) -> (batch: u64)
        requires
            old(self).wf(),
            old(self).next_req_id < u64::MAX,
            expected >= 1,
        ensures
            final(self).wf(),
            batch == old(self).next_req_id,
            final(self).next_req_id == old(self).next_req_id + 1,
            final(self).source_mapping == old(self).source_mapping,
            final(self).open_files == old(self).open_files,
            final(self).client_reqs == old(self).client_reqs,
            final(self).server_reqs == old(self).server_reqs,
            final(self).symbol_joins == old(self).symbol_joins,
            final(self).inlay_joins.slots@.len() == old(self).inlay_joins.slots@.len() + 1,
            final(self).inlay_joins.slots@.last().batch == batch,
            final(self).inlay_joins.slots@.last().remaining == expected,
            final(self).inlay_joins.slots@.last().items@.len() == 0,
    {
        let batch = self.alloc_req_id();
        proof {
            if join_contains(self.inlay_joins.slots@, batch) {
                let w = join_index(self.inlay_joins.slots@, batch);
                assert(self.inlay_joins.slots@[w].batch == batch);
            }
        }
        self.inlay_joins.create(batch, expected);
        batch
    }

    /// Record one inlay-hint shard; the gathered items come back with the
    /// last shard.
    pub fn add_inlay_shard(&mut self, batch: u64, items: Vec<InlayHintItem>) -> (r: Option<
        Vec<InlayHintItem>,
    >)
        requires
            old(self).wf(),
        ensures
            final(self).wf(),
            final(self).source_mapping == old(self).source_mapping,
            final(self).open_files == old(self).open_files,
            final(self).client_reqs == old(self).client_reqs,
            final(self).server_reqs == old(self).server_reqs,
            final(self).symbol_joins == old(self).symbol_joins,
            final(self).next_req_id == old(self).next_req_id,
            !join_contains(old(self).inlay_joins.slots@, batch) ==> r is None && final(self).inlay_joins == old(self).inlay_joins,
            join_contains(old(self).inlay_joins.slots@, batch) ==> ({
                let i = join_index(old(self).inlay_joins.slots@, batch);
                let slot = old(self).inlay_joins.slots@[i];
                if slot.remaining == 1 {
                    r matches Some(all) && all@ == slot.items@ + items@ && !join_contains(
                        final(self).inlay_joins.slots@,
                        batch,
                    )
                } else {
                    r is None && join_contains(final(self).inlay_joins.slots@, batch) && ({
                        let k = join_index(final(self).inlay_joins.slots@, batch);
                        final(self).inlay_joins.slots@[k].remaining == slot.remaining - 1 && final(self).inlay_joins.slots@[k].items@ == slot.items@ + items@
                    })
                }
            }),
    {
        let r = self.inlay_joins.add_shard(batch, items);
        proof {
            lemma_join_batches_bounded(
                old(self).inlay_joins.slots@,
                self.inlay_joins.slots@,
                batch,
                self.next_req_id,
            );
        }
        r
    }

    /// Open a document-symbol join expecting `expected` shards, under a
    /// fresh batch identifier.
    pub fn open_symbol_join(&mut self, expected: usize) -> (batch: u64)
        requires
            old(self).wf(),
            old(self).next_req_id < u64::MAX,
            expected >= 1,
        ensures
            final(self).wf(),
            batch == old(self).next_req_id,
            final(self).next_req_id == old(self).next_req_id + 1,
            final(self).source_mapping == old(self).source_mapping,
            final(self).open_files == old(self).open_files,
            final(self).client_reqs == old(self).client_reqs,
            final(self).server_reqs == old(self).server_reqs,
            final(self).inlay_joins == old(self).inlay_joins,
            final(self).symbol_joins.slots@.len() == old(self).symbol_joins.slots@.len() + 1,
            final(self).symbol_joins.slots@.last().batch == batch,
            final(self).symbol_joins.slots@.last().remaining == expected,
            final(self).symbol_joins.slots@.last().items@.len() == 0,
    {
        let batch = self.alloc_req_id();
        proof {
            if join_contains(self.symbol_joins.slots@, batch) {
                let w = join_index(self.symbol_joins.slots@, batch);
                assert(self.symbol_joins.slots@[w].batch == batch);
            }
        }
        self.symbol_joins.create(batch, expected);
        batch
    }

    /// Record one document-symbol shard; the gathered responses come back
    /// with the last shard.
    pub fn add_symbol_shard(&mut self, batch: u64, items: Vec<DocSymbolResponse>) -> (r: Option<
        Vec<DocSymbolResponse>,
    >)
        requires
            old(self).wf(),
        ensures
            final(self).wf(),
            final(self).source_mapping == old(self).source_mapping,
            final(self).open_files == old(self).open_files,
            final(self).client_reqs == old(self).client_reqs,
            final(self).server_reqs == old(self).server_reqs,
            final(self).inlay_joins == old(self).inlay_joins,
            final(self).next_req_id == old(self).next_req_id,
            !join_contains(old(self).symbol_joins.slots@, batch) ==> r is None && final(self).symbol_joins == old(self).symbol_joins,
            join_contains(old(self).symbol_joins.slots@, batch) ==> ({
                let i = join_index(old(self).symbol_joins.slots@, batch);
                let slot = old(self).symbol_joins.slots@[i];
                if slot.remaining == 1 {
                    r matches Some(all) && all@ == slot.items@ + items@ && !join_contains(
                        final(self).symbol_joins.slots@,
                        batch,
                    )
                } else {
                    r is None && join_contains(final(self).symbol_joins.slots@, batch) && ({
                        let k = join_index(final(self).symbol_joins.slots@, batch);
                        final(self).symbol_joins.slots@[k].remaining == slot.remaining - 1 && final(self).symbol_joins.slots@[k].items@ == slot.items@ + items@
                    })
                }
            }),
    {
        let r = self.symbol_joins.add_shard(batch, items);
        proof {
            lemma_join_batches_bounded(
                old(self).symbol_joins.slots@,
                self.symbol_joins.slots@,
                batch,
                self.next_req_id,
            );
        }
        r
    }
}

/// A shard arrival introduces no batch that was not already present, so a
/// bound on the old batches bounds the new ones.
proof fn lemma_join_batches_bounded<T>(
    pre: Seq<JoinSlot<T>>,
    post: Seq<JoinSlot<T>>,
    batch: u64,
    bound: u64,
)
    requires
        forall|i: int| 0 <= i < pre.len() ==> (#[trigger] pre[i]).batch < bound,
        forall|b: u64| b != batch ==> (join_contains(post, b) <==> join_contains(pre, b)),
        join_contains(post, batch) ==> join_contains(pre, batch),
    ensures
        forall|i: int| 0 <= i < post.len() ==> (#[trigger] post[i]).batch < bound,
{
    assert forall|i: int| 0 <= i < post.len() implies (#[trigger] post[i]).batch < bound by {
        let b = post[i].batch;
        assert(join_contains(post, b));
        assert(join_contains(pre, b));
        let w = join_index(pre, b);
        assert(pre[w].batch == b);
    }
}

} // verus!

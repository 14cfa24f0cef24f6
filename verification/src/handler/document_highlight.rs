//! Translation of document-highlight responses from the server.
//!
//! Highlights come back against the preprocessed file the request was sent
//! to; each is mapped back into the author file the request named, and any
//! highlight that maps elsewhere, or not at all, is dropped.

use vstd::prelude::*;

use crate::global_state::{ReqContext, ReqValue};
use crate::source_mapping::{FiascoSourceMapping, MapDirection};
use crate::util::Range;

verus! {

/// One highlight as the translation sees it: its range and the caller's
/// token identifying the rest of its fields.
#[derive(Clone, Copy, Debug)]
pub struct DocumentHighlight {
    pub range: Range,
    pub tag: usize,
}

/// The highlights that survive: those whose range maps cleanly out of
/// `mapped_path` and lands back in `source_path`, translated, in order.
pub open spec fn mapped_highlights(
    m: FiascoSourceMapping,
    source_path: Seq<char>,
    mapped_path: Seq<char>,
    hs: Seq<DocumentHighlight>,
) -> Seq<DocumentHighlight>
    decreases hs.len(),
{
    if hs.len() == 0 {
        Seq::empty()
    } else {
        let rest = mapped_highlights(m, source_path, mapped_path, hs.drop_last());
        let h = hs.last();
        if m.spec_range_ok(MapDirection::FromPreprocess, mapped_path, h.range)
            && m.spec_map_range(MapDirection::FromPreprocess, mapped_path, h.range).0
            == source_path {
            rest.push(
                DocumentHighlight {
                    range: m.spec_map_range(MapDirection::FromPreprocess, mapped_path, h.range).1,
                    tag: h.tag,
                },
            )
        } else {
            rest
        }
    }
}

/// Handle a document-highlight response.  The correlation value carries
/// the file the request named and the preprocessed file it was translated
/// to; a response whose context carries no such pair is passed through
/// unchanged.
pub fn handle_res_document_highlight(
    mapping: &FiascoSourceMapping,
    req_context: &mut ReqContext,
    res: Option<Vec<DocumentHighlight>>,
) -> (r: Option<Vec<DocumentHighlight>>)
    requires
        mapping.wf(),
    ensures
        final(req_context).method == old(req_context).method,
        final(req_context).req_id == old(req_context).req_id,
        !(old(req_context).value matches Some(ReqValue::PathPair { .. })) ==> r == res,
        (old(req_context).value matches Some(ReqValue::PathPair { .. })) ==> ({
            let sp = ((old(req_context).value)->Some_0)->PathPair_source_path;
            let mp = ((old(req_context).value)->Some_0)->PathPair_mapped_path;
            match res {
                None => r is None,
                Some(hs) => r matches Some(out) && out@ == mapped_highlights(
                    *mapping,
                    sp@,
                    mp@,
                    hs@,
                ),
            }
        }),
{
    let value = req_context.take_value();
    let (source_path, mapped_path) = match value {
        Some(ReqValue::PathPair { source_path, mapped_path }) => (source_path, mapped_path),
        Some(other) => {
            req_context.set_value(other);
            return res;
        },
        None => {
            return res;
        },
    };
    let hs = match res {
        Some(hs) => hs,
        None => {
            return None;
        },
    };
    let ghost all = hs@;
    let ghost sp = source_path@;
    let ghost mp = mapped_path@;
    let mut out: Vec<DocumentHighlight> = Vec::new();
    let mut i: usize = 0;
    proof {
        assert(all.subrange(0, 0) =~= Seq::<DocumentHighlight>::empty());
        assert(out@ =~= mapped_highlights(*mapping, sp, mp, all.subrange(0, 0)));
    }
    while i < hs.len()
        invariant
            mapping.wf(),
            i <= all.len(),
            hs@ == all,
            sp == source_path@,
            mp == mapped_path@,
            out@ == mapped_highlights(*mapping, sp, mp, all.subrange(0, i as int)),
        decreases all.len() - i,
    {
        let h = hs[i];
        let ghost prefix = all.subrange(0, i as int);
        let ghost next = all.subrange(0, i + 1);
        proof {
            assert(next.drop_last() =~= prefix);
            assert(next.last() == h);
        }
        let mut p = mapped_path.clone();
        let mut rg = h.range;
        let ok = mapping.map_range(MapDirection::FromPreprocess, &mut p, &mut rg);
        if ok.is_ok() && crate::util::str_eq(p.as_str(), source_path.as_str()) {
            out.push(DocumentHighlight { range: rg, tag: h.tag });
        }
        proof {
            assert(out@ == mapped_highlights(*mapping, sp, mp, next));
        }
        i += 1;
    }
    proof {
        assert(all.subrange(0, all.len() as int) =~= all);
    }
    Some(out)
}

} // verus!

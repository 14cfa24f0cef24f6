//! The bidirectional line-range mapping between author source files and the
//! preprocessed translation units assembled from them.
//!
//! A preprocessed file carries `#line` directives naming the author file and
//! line each region was copied from.  Parsing those directives (see the
//! sibling parsing module) yields a list of [`LineMapping`] records; this
//! module holds them, keyed by file path and segmented by section, and
//! answers point, range and file queries in both directions.

use vstd::multiset::Multiset;
use vstd::prelude::*;
use vstd::string::StrSliceExecFns;

use crate::util::{has_str, str_eq, vec_contains_str};

verus! {

/// The semantic section a mapped region belongs to.  A physical line of an
/// author file may contribute to both its interface and its implementation
/// projection, so the three per-section lists may overlap each other while
/// each stays internally disjoint.
#[derive(Clone, Copy, Debug, PartialEq, Eq, Structural)]
pub enum PreprocessSection {
    /// Free content seen before any section marker.
    NoSection,
    Interface,
    Implementation,
}

/// A contiguous run of lines in one file that corresponds, line for line, to
/// a run of equal length in another file.  `src_end_line` is exclusive.
#[derive(Debug)]
pub struct LineMapping {
    pub section: PreprocessSection,
    pub src_line: u32,
    pub src_end_line: u32,
    pub dst_file: String,
    pub dst_line: u32,
}

impl LineMapping {
    /// The record is internally consistent: the range is ordered and every
    /// image line fits in `u32`.
    pub open spec fn wf(self) -> bool {
        self.src_line <= self.src_end_line
            && self.dst_line + (self.src_end_line - self.src_line) <= u32::MAX
    }

    /// `line` lies inside the source-side range.
    pub open spec fn spec_contains(self, line: u32) -> bool {
        self.src_line <= line < self.src_end_line
    }

    /// The destination line `line` maps to; meaningful when the mapping
    /// contains `line` and is well formed.
    pub open spec fn image_line(self, line: u32) -> u32 {
        (self.dst_line + (line - self.src_line)) as u32
    }

    /// The source-side range meets the inclusive line range `[start, end]`.
    pub open spec fn spec_overlaps(self, start: u32, end: u32) -> bool {
        self.src_line <= end && start < self.src_end_line
    }

    pub fn contains(&self, line: u32) -> (r: bool)
        ensures
            r == self.spec_contains(line),
    {
        self.src_line <= line && line < self.src_end_line
    }

    pub fn overlaps(&self, start: u32, end: u32) -> (r: bool)
        ensures
            r == self.spec_overlaps(start, end),
    {
        self.src_line <= end && start < self.src_end_line
    }
}

/// The mathematical content of a [`LineMapping`]: the same fields with the
/// destination path as a character sequence.
pub struct LineMappingModel {
    pub section: PreprocessSection,
    pub src_line: u32,
    pub src_end_line: u32,
    pub dst_file: Seq<char>,
    pub dst_line: u32,
}

impl View for LineMapping {
    type V = LineMappingModel;

    open spec fn view(&self) -> LineMappingModel {
        LineMappingModel {
            section: self.section,
            src_line: self.src_line,
            src_end_line: self.src_end_line,
            dst_file: self.dst_file@,
            dst_line: self.dst_line,
        }
    }
}

impl LineMappingModel {
    /// The record is internally consistent, as for [`LineMapping::wf`].
    pub open spec fn wf(self) -> bool {
        self.src_line <= self.src_end_line
            && self.dst_line + (self.src_end_line - self.src_line) <= u32::MAX
    }
}

/// The records of `ms` as their mathematical content.
pub open spec fn mappings_view(ms: Seq<LineMapping>) -> Seq<LineMappingModel> {
    ms.map_values(|m: LineMapping| m@)
}

impl Clone for LineMapping {
    fn clone(&self) -> (r: LineMapping)
        ensures
            r == *self,
    {
        LineMapping {
            section: self.section,
            src_line: self.src_line,
            src_end_line: self.src_end_line,
            dst_file: self.dst_file.clone(),
            dst_line: self.dst_line,
        }
    }
}

/// `b`, read as a mapping of the file `b_path`, is the mirror image of `a`,
/// read as a mapping of the file `a_path`: same section, source and
/// destination swapped, same length.
pub open spec fn mirrors(a: LineMapping, a_path: Seq<char>, b: LineMapping, b_path: Seq<char>) -> bool {
    &&& b.section == a.section
    &&& b.src_line == a.dst_line
    &&& b.src_end_line == a.dst_line + (a.src_end_line - a.src_line)
    &&& b.dst_line == a.src_line
    &&& b.dst_file@ == a_path
    &&& a.dst_file@ == b_path
}

/// All records in the list are well formed.
pub open spec fn all_wf(ms: Seq<LineMapping>) -> bool {
    forall|i: int| 0 <= i < ms.len() ==> ms[i].wf()
}

/// Consecutive records do not overlap: each ends at or before the next
/// starts.
pub open spec fn separated(ms: Seq<LineMapping>) -> bool {
    forall|i: int| 0 <= i < ms.len() - 1 ==> ms[i].src_end_line <= ms[i + 1].src_line
}

/// Records are ordered by their starting line.
pub open spec fn sorted_by_src(ms: Seq<LineMapping>) -> bool {
    forall|i: int, j: int| 0 <= i <= j < ms.len() ==> ms[i].src_line <= ms[j].src_line
}

/// In a well-formed, separated list the ordering extends from consecutive
/// pairs to arbitrary pairs.
pub proof fn lemma_separated_ordered(ms: Seq<LineMapping>, i: int, j: int)
    requires
        all_wf(ms),
        separated(ms),
        0 <= i < j < ms.len(),
    ensures
        ms[i].src_end_line <= ms[j].src_line,
    decreases j - i,
{
    if i + 1 < j {
        lemma_separated_ordered(ms, i + 1, j);
    }
}

/// Some record in the list contains `line`.
pub open spec fn has_containing(ms: Seq<LineMapping>, line: u32) -> bool {
    exists|i: int| 0 <= i < ms.len() && ms[i].spec_contains(line)
}

/// The record containing `line`; unique when the list is well formed and
/// separated.
pub open spec fn containing_mapping(ms: Seq<LineMapping>, line: u32) -> LineMapping {
    ms[choose|i: int| 0 <= i < ms.len() && ms[i].spec_contains(line)]
}

/// In a well-formed, separated list at most one record contains any line.
pub proof fn lemma_containing_unique(ms: Seq<LineMapping>, line: u32, i: int, j: int)
    requires
        all_wf(ms),
        separated(ms),
        0 <= i < ms.len(),
        0 <= j < ms.len(),
        ms[i].spec_contains(line),
        ms[j].spec_contains(line),
    ensures
        i == j,
{
    if i < j {
        lemma_separated_ordered(ms, i, j);
    } else if j < i {
        lemma_separated_ordered(ms, j, i);
    }
}

/// Locate the record containing `line`, if any.
fn find_mapping_in(ms: &Vec<LineMapping>, line: u32) -> (r: Option<usize>)
    ensures
        match r {
            Some(i) => i < ms@.len() && ms@[i as int].spec_contains(line),
            None => !has_containing(ms@, line),
        },
{
    let mut i: usize = 0;
    while i < ms.len()
        invariant
            i <= ms@.len(),
            forall|j: int| 0 <= j < i ==> !ms@[j].spec_contains(line),
        decreases ms@.len() - i,
    {
        if ms[i].contains(line) {
            return Some(i);
        }
        i += 1;
    }
    None
}

/// The largest exclusive end line over the list, 0 when empty.
pub open spec fn max_end(ms: Seq<LineMapping>) -> u32
    decreases ms.len(),
{
    if ms.len() == 0 {
        0u32
    } else {
        let rest = max_end(ms.drop_last());
        if ms.last().src_end_line > rest {
            ms.last().src_end_line
        } else {
            rest
        }
    }
}

/// The sublist of `ms` whose records belong to section `s`, in order.
pub open spec fn section_part(ms: Seq<LineMapping>, s: PreprocessSection) -> Seq<LineMapping>
    decreases ms.len(),
{
    if ms.len() == 0 {
        Seq::empty()
    } else {
        let rest = section_part(ms.drop_last(), s);
        if ms.last().section == s {
            rest.push(ms.last())
        } else {
            rest
        }
    }
}

/// Some record in `ms` has `f` as its destination file.
pub open spec fn has_dst(ms: Seq<LineMapping>, f: Seq<char>) -> bool {
    exists|i: int| 0 <= i < ms.len() && ms[i].dst_file@ == f
}

/// The largest of three line numbers.
pub open spec fn max3(a: u32, b: u32, c: u32) -> u32 {
    if a >= b && a >= c {
        a
    } else if b >= c {
        b
    } else {
        c
    }
}

/// The line mappings recorded for one source-side file: three per-section
/// lists, the destination files seen, and the largest end line, reported as
/// the file's length.
#[derive(Debug)]
pub struct FileLineMappings {
    pub files: Vec<String>,
    pub no_section: Vec<LineMapping>,
    pub interface: Vec<LineMapping>,
    pub implementation: Vec<LineMapping>,
    pub length: u32,
}

impl FileLineMappings {
    /// The list holding section `s`.
    pub open spec fn section_seq(self, s: PreprocessSection) -> Seq<LineMapping> {
        match s {
            PreprocessSection::NoSection => self.no_section@,
            PreprocessSection::Interface => self.interface@,
            PreprocessSection::Implementation => self.implementation@,
        }
    }

    /// Some record, in any section, has `f` as its destination file.
    pub open spec fn has_dst_file(self, f: Seq<char>) -> bool {
        ||| has_dst(self.no_section@, f)
        ||| has_dst(self.interface@, f)
        ||| has_dst(self.implementation@, f)
    }

    /// Each section list holds only records tagged with that section.
    pub open spec fn sections_tagged(self) -> bool {
        forall|s: PreprocessSection, j: int|
            #![trigger self.section_seq(s)[j]]
            0 <= j < self.section_seq(s).len() ==> self.section_seq(s)[j].section == s
    }

    /// `files` lists exactly the destination files of the records, each once.
    pub open spec fn files_wf(self) -> bool {
        &&& forall|i: int|
            0 <= i < self.files@.len() ==> self.has_dst_file(#[trigger] self.files@[i]@)
        &&& forall|s: PreprocessSection, j: int|
            0 <= j < self.section_seq(s).len() ==> has_str(
                self.files@,
                (#[trigger] self.section_seq(s)[j]).dst_file@,
            )
        &&& forall|i: int, j: int|
            0 <= i < j < self.files@.len() ==> self.files@[i]@ != self.files@[j]@
    }

    /// Structural consistency that holds from construction on: well-formed
    /// records, an accurate file list, and an accurate length.
    pub open spec fn base_wf(self) -> bool {
        &&& all_wf(self.no_section@)
        &&& all_wf(self.interface@)
        &&& all_wf(self.implementation@)
        &&& self.sections_tagged()
        &&& self.files_wf()
        &&& self.length == max3(
            max_end(self.no_section@),
            max_end(self.interface@),
            max_end(self.implementation@),
        )
    }

    /// Full well-formedness, established once the lists are sorted and
    /// checked: each section list is internally non-overlapping.
    pub open spec fn wf(self) -> bool {
        &&& self.base_wf()
        &&& separated(self.no_section@)
        &&& separated(self.interface@)
        &&& separated(self.implementation@)
    }

    pub fn new() -> (r: FileLineMappings)
        ensures
            r.files@ =~= Seq::<String>::empty(),
            r.no_section@ =~= Seq::<LineMapping>::empty(),
            r.interface@ =~= Seq::<LineMapping>::empty(),
            r.implementation@ =~= Seq::<LineMapping>::empty(),
            r.length == 0,
            r.base_wf(),
    {
        FileLineMappings {
            files: Vec::new(),
            no_section: Vec::new(),
            interface: Vec::new(),
            implementation: Vec::new(),
            length: 0,
        }
    }

    /// Record one more mapping: appended to its section's list, its
    /// destination file added if new, the length raised if it ends later.
    pub fn push(&mut self, mapping: LineMapping)
        ensures
            final(self).section_seq(mapping.section) == old(self).section_seq(
                mapping.section,
            ).push(mapping),
            forall|s: PreprocessSection|
                s != mapping.section ==> final(self).section_seq(s) == old(self).section_seq(s),
            final(self).files@ == if has_str(old(self).files@, mapping.dst_file@) {
                old(self).files@
            } else {
                old(self).files@.push(mapping.dst_file)
            },
            final(self).length == if mapping.src_end_line > old(self).length {
                mapping.src_end_line
            } else {
                old(self).length
            },
            old(self).base_wf() && mapping.wf() ==> final(self).base_wf(),
    {
        let ghost pre = *self;
        if mapping.src_end_line > self.length {
            self.length = mapping.src_end_line;
        }
        if !vec_contains_str(&self.files, mapping.dst_file.as_str()) {
            self.files.push(mapping.dst_file.clone());
        }
        let ghost mid = *self;
        let ghost m = mapping;
        match mapping.section {
            PreprocessSection::NoSection => self.no_section.push(mapping),
            PreprocessSection::Interface => self.interface.push(mapping),
            PreprocessSection::Implementation => self.implementation.push(mapping),
        }
        proof {
            assert(self.section_seq(m.section) =~= pre.section_seq(m.section).push(m));
            if has_str(pre.files@, m.dst_file@) {
                assert(self.files@ == pre.files@);
            } else {
                assert(self.files@ == pre.files@.push(m.dst_file));
            }
            assert(has_str(self.files@, m.dst_file@)) by {
                if has_str(pre.files@, m.dst_file@) {
                    let w = choose|k: int|
                        0 <= k < pre.files@.len() && pre.files@[k]@ == m.dst_file@;
                    assert(self.files@[w]@ == m.dst_file@);
                } else {
                    assert(self.files@[self.files@.len() - 1]@ == m.dst_file@);
                }
            }
            if pre.base_wf() && m.wf() {
                assert(self.section_seq(m.section).drop_last() =~= pre.section_seq(m.section));
                assert(self.sections_tagged()) by {
                    assert forall|s: PreprocessSection, j: int|
                        0 <= j < self.section_seq(s).len() implies (#[trigger] self.section_seq(
                        s,
                    )[j]).section == s by {
                        if s == m.section && j == self.section_seq(s).len() - 1 {
                            assert(self.section_seq(s)[j] == m);
                        } else {
                            assert(self.section_seq(s)[j] == pre.section_seq(s)[j]);
                        }
                    }
                }
                assert(all_wf(self.section_seq(m.section))) by {
                    assert forall|j: int|
                        0 <= j < self.section_seq(m.section).len() implies (#[trigger] self
                        .section_seq(m.section)[j]).wf() by {
                        if j < self.section_seq(m.section).len() - 1 {
                            assert(self.section_seq(m.section)[j] == pre.section_seq(m.section)[j]);
                        } else {
                            assert(self.section_seq(m.section)[j] == m);
                        }
                    }
                }
                assert forall|s: PreprocessSection, j: int|
                    0 <= j < self.section_seq(s).len() implies has_str(
                    self.files@,
                    (#[trigger] self.section_seq(s)[j]).dst_file@,
                ) by {
                    if s == m.section && j == self.section_seq(s).len() - 1 {
                        assert(self.section_seq(s)[j] == m);
                    } else {
                        assert(self.section_seq(s)[j] == pre.section_seq(s)[j]);
                        let w = choose|k: int|
                            0 <= k < pre.files@.len() && pre.files@[k]@ == pre.section_seq(
                                s,
                            )[j].dst_file@;
                        assert(self.files@[w]@ == pre.section_seq(s)[j].dst_file@);
                    }
                }
                assert forall|i2: int|
                    0 <= i2 < self.files@.len() implies self.has_dst_file(
                    #[trigger] self.files@[i2]@,
                ) by {
                    if i2 < pre.files@.len() {
                        assert(pre.has_dst_file(pre.files@[i2]@));
                        lemma_has_dst_file_extend(pre, *self, m, pre.files@[i2]@);
                        assert(self.files@[i2]@ == pre.files@[i2]@);
                    } else {
                        assert(self.files@[i2]@ == m.dst_file@);
                        assert(self.section_seq(m.section).last() == m);
                        assert(has_dst(self.section_seq(m.section), m.dst_file@));
                    }
                }
                assert forall|i2: int, j2: int|
                    0 <= i2 < j2 < self.files@.len() implies self.files@[i2]@ != self.files@[j2]@ by {
                    if j2 < pre.files@.len() {
                        assert(pre.files@[i2]@ != pre.files@[j2]@);
                    } else {
                        assert(self.files@[j2]@ == m.dst_file@);
                        assert(!has_str(pre.files@, m.dst_file@));
                        assert(self.files@[i2]@ == pre.files@[i2]@);
                    }
                }
                assert(max_end(self.section_seq(m.section)) == if m.src_end_line > max_end(
                    pre.section_seq(m.section),
                ) {
                    m.src_end_line
                } else {
                    max_end(pre.section_seq(m.section))
                });
            }
        }
    }

    /// Gather a list of parsed records into per-section lists; consumes the
    /// list, splitting it record by record.
    pub fn from_mappings(mappings: Vec<LineMapping>) -> (r: FileLineMappings)
        ensures
            r.no_section@ == section_part(mappings@, PreprocessSection::NoSection),
            r.interface@ == section_part(mappings@, PreprocessSection::Interface),
            r.implementation@ == section_part(mappings@, PreprocessSection::Implementation),
            r.length == max_end(mappings@),
            all_wf(mappings@) ==> r.base_wf(),
    {
        let ghost all = mappings@;
        let mut rest = mappings;
        let n = rest.len();
        let mut r = Self::new();
        let mut i: usize = 0;
        proof {
            assert(all.subrange(0, 0) =~= Seq::<LineMapping>::empty());
            assert(rest@ =~= all.subrange(0, all.len() as int));
        }
        while rest.len() > 0
            invariant
                i <= all.len(),
                all.len() == n,
                rest@ == all.subrange(i as int, all.len() as int),
                r.no_section@ == section_part(
                    all.subrange(0, i as int),
                    PreprocessSection::NoSection,
                ),
                r.interface@ == section_part(
                    all.subrange(0, i as int),
                    PreprocessSection::Interface,
                ),
                r.implementation@ == section_part(
                    all.subrange(0, i as int),
                    PreprocessSection::Implementation,
                ),
                r.length == max_end(all.subrange(0, i as int)),
                all_wf(all) ==> r.base_wf(),
            decreases rest@.len(),
        {
            proof {
                assert(rest@.len() == all.len() - i);
            }
            let ghost prefix = all.subrange(0, i as int);
            let m = rest.remove(0);
            proof {
                assert(m == all[i as int]);
                assert(rest@ =~= all.subrange(i + 1, all.len() as int));
                if all_wf(all) {
                    assert(m.wf());
                }
            }
            let ghost pre_r = r;
            r.push(m);
            proof {
                let next = all.subrange(0, i + 1);
                assert(next =~= prefix.push(m));
                assert(next.drop_last() =~= prefix);
                assert(next.last() == m);
                lemma_section_part_step(prefix, m);
                assert(r.section_seq(PreprocessSection::NoSection) == if m.section
                    == PreprocessSection::NoSection {
                    pre_r.no_section@.push(m)
                } else {
                    pre_r.no_section@
                });
                assert(r.section_seq(PreprocessSection::Interface) == if m.section
                    == PreprocessSection::Interface {
                    pre_r.interface@.push(m)
                } else {
                    pre_r.interface@
                });
                assert(r.section_seq(PreprocessSection::Implementation) == if m.section
                    == PreprocessSection::Implementation {
                    pre_r.implementation@.push(m)
                } else {
                    pre_r.implementation@
                });
                assert(r.length == max_end(next));
            }
            i += 1;
        }
        proof {
            assert(all.subrange(0, all.len() as int) =~= all);
        }
        r
    }

    pub fn length(&self) -> (r: u32)
        ensures
            r == self.length,
    {
        self.length
    }

    /// Order every section list by starting line.  The records themselves
    /// are only rearranged, so every membership fact survives.
    pub fn sort(&mut self)
        ensures
            seq_permuted(old(self).no_section@, final(self).no_section@),
            seq_permuted(old(self).interface@, final(self).interface@),
            seq_permuted(old(self).implementation@, final(self).implementation@),
            sorted_by_src(final(self).no_section@),
            sorted_by_src(final(self).interface@),
            sorted_by_src(final(self).implementation@),
            final(self).files@ == old(self).files@,
            final(self).length == old(self).length,
            old(self).base_wf() ==> final(self).base_wf(),
    {
        let ghost pre = *self;
        sort_section(&mut self.no_section);
        sort_section(&mut self.interface);
        sort_section(&mut self.implementation);
        proof {
            if pre.base_wf() {
                lemma_permuted_base_wf(pre, *self);
            }
        }
    }

    /// Whether every section list is free of internal overlaps.
    pub fn check(&self) -> (r: bool)
        ensures
            r == (separated(self.no_section@) && separated(self.interface@) && separated(
                self.implementation@,
            )),
    {
        check_section(&self.no_section) && check_section(&self.interface) && check_section(
            &self.implementation,
        )
    }
}

/// `b` holds the same records as `a`, each the same number of times.
pub open spec fn seq_permuted(a: Seq<LineMapping>, b: Seq<LineMapping>) -> bool {
    a.to_multiset() == b.to_multiset()
}

/// A permutation preserves length and membership.
pub proof fn lemma_permuted_facts(a: Seq<LineMapping>, b: Seq<LineMapping>)
    requires
        seq_permuted(a, b),
    ensures
        a.len() == b.len(),
        forall|m: LineMapping| a.contains(m) <==> b.contains(m),
        forall|j: int| 0 <= j < b.len() ==> a.contains(#[trigger] b[j]),
        forall|j: int| 0 <= j < a.len() ==> b.contains(#[trigger] a[j]),
{
    broadcast use vstd::multiset::group_multiset_axioms;

    vstd::seq_lib::to_multiset_len(a);
    vstd::seq_lib::to_multiset_len(b);
    assert(a.to_multiset().len() == b.to_multiset().len());
    assert forall|j: int| 0 <= j < b.len() implies a.contains(#[trigger] b[j]) by {
        vstd::seq_lib::to_multiset_contains(b, b[j]);
        vstd::seq_lib::to_multiset_contains(a, b[j]);
        assert(b.to_multiset().count(b[j]) > 0);
    }
    assert forall|j: int| 0 <= j < a.len() implies b.contains(#[trigger] a[j]) by {
        vstd::seq_lib::to_multiset_contains(a, a[j]);
        vstd::seq_lib::to_multiset_contains(b, a[j]);
        assert(a.to_multiset().count(a[j]) > 0);
    }
}

/// Rearranging each section list preserves structural consistency.
proof fn lemma_permuted_base_wf(pre: FileLineMappings, post: FileLineMappings)
    requires
        pre.base_wf(),
        seq_permuted(pre.no_section@, post.no_section@),
        seq_permuted(pre.interface@, post.interface@),
        seq_permuted(pre.implementation@, post.implementation@),
        post.files@ == pre.files@,
        post.length == pre.length,
    ensures
        post.base_wf(),
{
    lemma_permuted_facts(pre.no_section@, post.no_section@);
    lemma_permuted_facts(pre.interface@, post.interface@);
    lemma_permuted_facts(pre.implementation@, post.implementation@);
    lemma_permuted_max_end(pre.no_section@, post.no_section@);
    lemma_permuted_max_end(pre.interface@, post.interface@);
    lemma_permuted_max_end(pre.implementation@, post.implementation@);
    assert forall|s: PreprocessSection, j: int|
        0 <= j < post.section_seq(s).len() implies has_str(
        post.files@,
        (#[trigger] post.section_seq(s)[j]).dst_file@,
    ) by {
        let m = post.section_seq(s)[j];
        assert(pre.section_seq(s).contains(m));
        let k = choose|k: int| 0 <= k < pre.section_seq(s).len() && pre.section_seq(s)[k] == m;
        assert(has_str(pre.files@, pre.section_seq(s)[k].dst_file@));
    }
    assert forall|s: PreprocessSection, j: int|
        0 <= j < post.section_seq(s).len() implies (#[trigger] post.section_seq(s)[j]).section
        == s by {
        let m = post.section_seq(s)[j];
        assert(pre.section_seq(s).contains(m));
        let k = choose|k: int| 0 <= k < pre.section_seq(s).len() && pre.section_seq(s)[k] == m;
        assert(pre.section_seq(s)[k].section == s);
    }
    assert forall|i: int|
        0 <= i < post.files@.len() implies post.has_dst_file(#[trigger] post.files@[i]@) by {
        assert(pre.has_dst_file(pre.files@[i]@));
        let f = pre.files@[i]@;
        if has_dst(pre.no_section@, f) {
            let w = choose|k: int|
                0 <= k < pre.no_section@.len() && pre.no_section@[k].dst_file@ == f;
            assert(post.no_section@.contains(pre.no_section@[w]));
            let w2 = choose|k: int|
                0 <= k < post.no_section@.len() && post.no_section@[k] == pre.no_section@[w];
            assert(post.no_section@[w2].dst_file@ == f);
        } else if has_dst(pre.interface@, f) {
            let w = choose|k: int| 0 <= k < pre.interface@.len() && pre.interface@[k].dst_file@ == f;
            assert(post.interface@.contains(pre.interface@[w]));
            let w2 = choose|k: int|
                0 <= k < post.interface@.len() && post.interface@[k] == pre.interface@[w];
            assert(post.interface@[w2].dst_file@ == f);
        } else {
            let w = choose|k: int|
                0 <= k < pre.implementation@.len() && pre.implementation@[k].dst_file@ == f;
            assert(post.implementation@.contains(pre.implementation@[w]));
            let w2 = choose|k: int|
                0 <= k < post.implementation@.len() && post.implementation@[k]
                    == pre.implementation@[w];
            assert(post.implementation@[w2].dst_file@ == f);
        }
    }
}

/// A permutation has the same largest end line.
proof fn lemma_permuted_max_end(a: Seq<LineMapping>, b: Seq<LineMapping>)
    requires
        seq_permuted(a, b),
    ensures
        max_end(a) == max_end(b),
{
    broadcast use vstd::multiset::group_multiset_axioms;

    lemma_permuted_facts(a, b);
    lemma_max_end_bound(a);
    lemma_max_end_bound(b);
    if a.len() > 0 {
        let ia = choose|i: int| 0 <= i < a.len() && a[i].src_end_line == max_end(a);
        let ib = choose|i: int| 0 <= i < b.len() && b[i].src_end_line == max_end(b);
        assert(b.contains(a[ia]));
        assert(a.contains(b[ib]));
        let ja = choose|j: int| 0 <= j < b.len() && b[j] == a[ia];
        let jb = choose|j: int| 0 <= j < a.len() && a[j] == b[ib];
        assert(max_end(b) >= b[ja].src_end_line);
        assert(max_end(a) >= a[jb].src_end_line);
    }
}

/// The largest end line bounds every record and is attained by one of them.
pub proof fn lemma_max_end_bound(ms: Seq<LineMapping>)
    ensures
        forall|i: int| 0 <= i < ms.len() ==> (#[trigger] ms[i]).src_end_line <= max_end(ms),
        ms.len() > 0 ==> exists|i: int|
            0 <= i < ms.len() && (#[trigger] ms[i]).src_end_line == max_end(ms),
    decreases ms.len(),
{
    if ms.len() > 0 {
        lemma_max_end_bound(ms.drop_last());
        assert(forall|i: int| 0 <= i < ms.len() - 1 ==> ms.drop_last()[i] == ms[i]);
        if ms.len() > 1 || ms.last().src_end_line >= max_end(ms.drop_last()) {
        }
        if max_end(ms) == ms.last().src_end_line {
            assert(ms[ms.len() - 1].src_end_line == max_end(ms));
        } else {
            let i = choose|i: int|
                0 <= i < ms.drop_last().len() && (#[trigger] ms.drop_last()[i]).src_end_line
                    == max_end(ms.drop_last());
            assert(ms[i].src_end_line == max_end(ms));
        }
    }
}

/// Selection sort of one section list by starting line.
fn sort_section(ms: &mut Vec<LineMapping>)
    ensures
        seq_permuted(old(ms)@, final(ms)@),
        sorted_by_src(final(ms)@),
        final(ms)@.len() == old(ms)@.len(),
{
    broadcast use vstd::seq_lib::group_to_multiset_ensures;
    broadcast use vstd::multiset::group_multiset_axioms;

    let ghost orig = old(ms)@;
    let mut out: Vec<LineMapping> = Vec::new();
    proof {
        assert(out@.to_multiset() =~= Multiset::<LineMapping>::empty());
        assert(out@.to_multiset().add(ms@.to_multiset()) =~= orig.to_multiset());
    }
    while ms.len() > 0
        invariant
            out@.to_multiset().add(ms@.to_multiset()) == orig.to_multiset(),
            out@.len() + ms@.len() == orig.len(),
            sorted_by_src(out@),
            forall|i: int, j: int|
                0 <= i < out@.len() && 0 <= j < ms@.len() ==> out@[i].src_line <= ms@[j].src_line,
        decreases ms@.len(),
    {
        let mut min: usize = 0;
        let mut k: usize = 1;
        while k < ms.len()
            invariant
                k <= ms@.len(),
                min < k || (min == 0 && k == 0),
                min < ms@.len(),
                forall|j: int| 0 <= j < k ==> ms@[min as int].src_line <= ms@[j].src_line,
            decreases ms@.len() - k,
        {
            if ms[k].src_line < ms[min].src_line {
                min = k;
            }
            k += 1;
        }
        let ghost before = ms@;
        let ghost pre_out = out@;
        let m = ms.remove(min);
        out.push(m);
        proof {
            assert(m == before[min as int]);
            assert(before.contains(m));
            vstd::seq_lib::to_multiset_contains(before, m);
            assert(before.to_multiset().count(m) > 0);
            assert(ms@ == before.remove(min as int));
            vstd::seq_lib::to_multiset_remove(before, min as int);
            assert(ms@.to_multiset() == before.to_multiset().remove(m));
            vstd::seq_lib::to_multiset_build(pre_out, m);
            assert(out@.to_multiset() =~= pre_out.to_multiset().insert(m));
            assert(out@.to_multiset().add(ms@.to_multiset()) =~= orig.to_multiset());
            assert forall|j: int| 0 <= j < ms@.len() implies m.src_line <= ms@[j].src_line by {
                if j < min {
                    assert(ms@[j] == before[j]);
                } else {
                    assert(ms@[j] == before[j + 1]);
                }
            }
            assert(forall|i: int| 0 <= i < pre_out.len() ==> out@[i] == pre_out[i]);
            assert forall|i: int, j: int|
                0 <= i <= j < out@.len() implies out@[i].src_line <= out@[j].src_line by {
                if j < out@.len() - 1 {
                } else if i < out@.len() - 1 {
                    assert(out@[j] == m);
                    assert(pre_out[i].src_line <= before[min as int].src_line);
                }
            }
            assert forall|i: int, j: int|
                0 <= i < out@.len() && 0 <= j < ms@.len() implies out@[i].src_line
                <= ms@[j].src_line by {
                if i == out@.len() - 1 {
                    assert(out@[i] == m);
                }
            }
        }
    }
    proof {
        assert(ms@.to_multiset() =~= Multiset::<LineMapping>::empty());
        assert(out@.to_multiset() =~= orig.to_multiset());
    }
    *ms = out;
}

/// Whether consecutive records of one section list keep apart.
fn check_section(ms: &Vec<LineMapping>) -> (r: bool)
    ensures
        r == separated(ms@),
{
    if ms.len() < 2 {
        return true;
    }
    let mut i: usize = 0;
    while i < ms.len() - 1
        invariant
            ms@.len() >= 2,
            i <= ms@.len() - 1,
            forall|j: int| 0 <= j < i ==> ms@[j].src_end_line <= ms@[j + 1].src_line,
        decreases ms@.len() - i,
    {
        if ms[i].src_end_line > ms[i + 1].src_line {
            return false;
        }
        i += 1;
    }
    true
}

/// A destination file present before a record is appended is still present
/// afterwards.
pub proof fn lemma_has_dst_file_extend(
    pre: FileLineMappings,
    post: FileLineMappings,
    m: LineMapping,
    f: Seq<char>,
)
    requires
        post.section_seq(m.section) == pre.section_seq(m.section).push(m),
        forall|s: PreprocessSection|
            s != m.section ==> post.section_seq(s) == pre.section_seq(s),
        pre.has_dst_file(f),
    ensures
        post.has_dst_file(f),
{
    assert(pre.section_seq(PreprocessSection::NoSection) == pre.no_section@);
    assert(pre.section_seq(PreprocessSection::Interface) == pre.interface@);
    assert(pre.section_seq(PreprocessSection::Implementation) == pre.implementation@);
    if has_dst(pre.no_section@, f) {
        let w = choose|k: int| 0 <= k < pre.no_section@.len() && pre.no_section@[k].dst_file@ == f;
        assert(post.section_seq(PreprocessSection::NoSection)[w].dst_file@ == f);
        assert(has_dst(post.no_section@, f));
    } else if has_dst(pre.interface@, f) {
        let w = choose|k: int| 0 <= k < pre.interface@.len() && pre.interface@[k].dst_file@ == f;
        assert(post.section_seq(PreprocessSection::Interface)[w].dst_file@ == f);
        assert(has_dst(post.interface@, f));
    } else {
        let w = choose|k: int|
            0 <= k < pre.implementation@.len() && pre.implementation@[k].dst_file@ == f;
        assert(post.section_seq(PreprocessSection::Implementation)[w].dst_file@ == f);
        assert(has_dst(post.implementation@, f));
    }
}

/// Extending a list by one record extends exactly that record's section
/// part.
pub proof fn lemma_section_part_step(prefix: Seq<LineMapping>, m: LineMapping)
    ensures
        forall|s: PreprocessSection|
            #[trigger] section_part(prefix.push(m), s) == if m.section == s {
                section_part(prefix, s).push(m)
            } else {
                section_part(prefix, s)
            },
{
    assert forall|s: PreprocessSection|
        #[trigger] section_part(prefix.push(m), s) == if m.section == s {
            section_part(prefix, s).push(m)
        } else {
            section_part(prefix, s)
        } by {
        assert(prefix.push(m).drop_last() =~= prefix);
        assert(prefix.push(m).last() == m);
    }
}


/// One keyed slot of the mapping table: a file path and the line mappings
/// recorded for it.
#[derive(Debug)]
pub struct MappingEntry {
    pub path: String,
    pub mappings: FileLineMappings,
}

/// The direction a query translates in: author file to preprocessed file, or
/// back.
#[derive(Clone, Copy, Debug, PartialEq, Eq, Structural)]
pub enum MapDirection {
    ToPreprocess,
    FromPreprocess,
}

impl MapDirection {
    /// The direction that undoes this one.
    pub open spec fn spec_opposite(self) -> MapDirection {
        match self {
            MapDirection::ToPreprocess => MapDirection::FromPreprocess,
            MapDirection::FromPreprocess => MapDirection::ToPreprocess,
        }
    }

    pub fn opposite(self) -> (r: MapDirection)
        ensures
            r == self.spec_opposite(),
    {
        match self {
            MapDirection::ToPreprocess => MapDirection::FromPreprocess,
            MapDirection::FromPreprocess => MapDirection::ToPreprocess,
        }
    }
}

/// A point in the file universe: a path, a zero-based line, and a column.
#[derive(Debug)]
pub struct SourceLocation {
    pub path: String,
    pub line: u32,
    pub character: u32,
}

/// No two slots share a path.
pub open spec fn keys_unique(es: Seq<MappingEntry>) -> bool {
    forall|i: int, j: int| 0 <= i < j < es.len() ==> es[i].path@ != es[j].path@
}

/// Some slot is keyed by `path`.
pub open spec fn has_entry(es: Seq<MappingEntry>, path: Seq<char>) -> bool {
    exists|i: int| 0 <= i < es.len() && es[i].path@ == path
}

/// The index of the slot keyed by `path`; unique when keys are unique.
pub open spec fn entry_index(es: Seq<MappingEntry>, path: Seq<char>) -> int {
    choose|i: int| 0 <= i < es.len() && es[i].path@ == path
}

/// The mappings recorded under `path`.
pub open spec fn entry_for(es: Seq<MappingEntry>, path: Seq<char>) -> FileLineMappings {
    es[entry_index(es, path)].mappings
}

/// Every slot's records are structurally consistent and the keys are unique.
pub open spec fn entries_base_wf(es: Seq<MappingEntry>) -> bool {
    keys_unique(es) && forall|i: int| 0 <= i < es.len() ==> (#[trigger] es[i]).mappings.base_wf()
}

/// Every slot's section lists are internally non-overlapping.
pub open spec fn entries_separated(es: Seq<MappingEntry>) -> bool {
    forall|i: int|
        0 <= i < es.len() ==> {
            let m = (#[trigger] es[i]).mappings;
            separated(m.no_section@) && separated(m.interface@) && separated(m.implementation@)
        }
}

/// Locate the slot keyed by `path`, if any.
fn find_entry(es: &Vec<MappingEntry>, path: &str) -> (r: Option<usize>)
    ensures
        match r {
            Some(i) => i < es@.len() && es@[i as int].path@ == path@,
            None => !has_entry(es@, path@),
        },
{
    let mut i: usize = 0;
    while i < es.len()
        invariant
            i <= es@.len(),
            forall|j: int| 0 <= j < i ==> es@[j].path@ != path@,
        decreases es@.len() - i,
    {
        if str_eq(es[i].path.as_str(), path) {
            return Some(i);
        }
        i += 1;
    }
    None
}

impl FileLineMappings {
    /// The section whose mapping answers a point query at `line`, searching
    /// in priority order implementation, interface, free content.
    pub open spec fn chosen_section(self, line: u32) -> Option<PreprocessSection> {
        if has_containing(self.implementation@, line) {
            Some(PreprocessSection::Implementation)
        } else if has_containing(self.interface@, line) {
            Some(PreprocessSection::Interface)
        } else if has_containing(self.no_section@, line) {
            Some(PreprocessSection::NoSection)
        } else {
            None
        }
    }

    /// The translated file and line for `line`, if any mapping contains it.
    pub open spec fn image_of(self, line: u32) -> Option<(Seq<char>, u32)> {
        match self.chosen_section(line) {
            Some(s) => {
                let m = containing_mapping(self.section_seq(s), line);
                Some((m.dst_file@, m.image_line(line)))
            },
            None => None,
        }
    }

    /// Answer a point query against this file's mappings.
    pub fn image(&self, line: u32) -> (r: Option<(String, u32)>)
        requires
            self.wf(),
        ensures
            r is Some <==> self.image_of(line) is Some,
            r matches Some(pl) ==> self.image_of(line) matches Some(il) && pl.0@ == il.0 && pl.1
                == il.1,
    {
        if let Some(i) = find_mapping_in(&self.implementation, line) {
            let m = &self.implementation[i];
            proof {
                let w = choose|k: int|
                    0 <= k < self.implementation@.len() && self.implementation@[k].spec_contains(
                        line,
                    );
                lemma_containing_unique(self.implementation@, line, w, i as int);
                assert(containing_mapping(self.implementation@, line) == self.implementation@[i as int]);
                assert(m.wf());
            }
            return Some((m.dst_file.clone(), m.dst_line + (line - m.src_line)));
        }
        if let Some(i) = find_mapping_in(&self.interface, line) {
            let m = &self.interface[i];
            proof {
                let w = choose|k: int|
                    0 <= k < self.interface@.len() && self.interface@[k].spec_contains(line);
                lemma_containing_unique(self.interface@, line, w, i as int);
                assert(m.wf());
            }
            return Some((m.dst_file.clone(), m.dst_line + (line - m.src_line)));
        }
        if let Some(i) = find_mapping_in(&self.no_section, line) {
            let m = &self.no_section[i];
            proof {
                let w = choose|k: int|
                    0 <= k < self.no_section@.len() && self.no_section@[k].spec_contains(line);
                lemma_containing_unique(self.no_section@, line, w, i as int);
                assert(m.wf());
            }
            return Some((m.dst_file.clone(), m.dst_line + (line - m.src_line)));
        }
        None
    }

    /// Some record in some section overlaps `[start, end]` and points at `f`.
    pub open spec fn overlapping_dst(self, start: u32, end: u32, f: Seq<char>) -> bool {
        exists|s: PreprocessSection, j: int|
            0 <= j < self.section_seq(s).len() && (#[trigger] self.section_seq(s)[j]).spec_overlaps(
                start,
                end,
            ) && self.section_seq(s)[j].dst_file@ == f
    }
}

/// Add the destination files of every record of `ms` overlapping
/// `[start, end]` to `acc`, skipping files already present.
fn collect_overlapping(ms: &Vec<LineMapping>, start: u32, end: u32, acc: &mut Vec<String>)
    ensures
        forall|f: Seq<char>|
            #[trigger] has_str(final(acc)@, f) <==> has_str(old(acc)@, f) || exists|j: int|
                0 <= j < ms@.len() && (#[trigger] ms@[j]).spec_overlaps(start, end)
                    && ms@[j].dst_file@ == f,
        (forall|i: int, j: int| 0 <= i < j < old(acc)@.len() ==> old(acc)@[i]@ != old(acc)@[j]@)
            ==> (forall|i: int, j: int|
            0 <= i < j < final(acc)@.len() ==> final(acc)@[i]@ != final(acc)@[j]@),
{
    let ghost orig = old(acc)@;
    let mut i: usize = 0;
    while i < ms.len()
        invariant
            i <= ms@.len(),
            forall|f: Seq<char>|
                #[trigger] has_str(acc@, f) <==> has_str(orig, f) || exists|j: int|
                    0 <= j < i && (#[trigger] ms@[j]).spec_overlaps(start, end) && ms@[j].dst_file@
                        == f,
            (forall|i2: int, j2: int| 0 <= i2 < j2 < orig.len() ==> orig[i2]@ != orig[j2]@) ==> (
            forall|i2: int, j2: int| 0 <= i2 < j2 < acc@.len() ==> acc@[i2]@ != acc@[j2]@),
        decreases ms@.len() - i,
    {
        let ghost pre = acc@;
        if ms[i].overlaps(start, end) {
            if !vec_contains_str(acc, ms[i].dst_file.as_str()) {
                acc.push(ms[i].dst_file.clone());
            }
        }
        proof {
            assert forall|f: Seq<char>| #[trigger] has_str(acc@, f) implies has_str(orig, f)
                || exists|j: int|
                0 <= j < i + 1 && (#[trigger] ms@[j]).spec_overlaps(start, end) && ms@[j].dst_file@
                    == f by {
                let w = choose|k: int| 0 <= k < acc@.len() && acc@[k]@ == f;
                if w < pre.len() {
                    assert(has_str(pre, f));
                } else {
                    assert(acc@[w]@ == ms@[i as int].dst_file@);
                    assert(ms@[i as int].spec_overlaps(start, end) && ms@[i as int].dst_file@ == f);
                }
            }
            assert forall|f: Seq<char>|
                has_str(orig, f) || exists|j: int|
                    0 <= j < i + 1 && (#[trigger] ms@[j]).spec_overlaps(start, end)
                        && ms@[j].dst_file@ == f implies #[trigger] has_str(acc@, f) by {
                if has_str(orig, f) || exists|j: int|
                    0 <= j < i && (#[trigger] ms@[j]).spec_overlaps(start, end) && ms@[j].dst_file@
                        == f {
                    assert(has_str(pre, f));
                    let w = choose|k: int| 0 <= k < pre.len() && pre[k]@ == f;
                    assert(acc@[w]@ == f);
                } else {
                    assert(ms@[i as int].spec_overlaps(start, end) && ms@[i as int].dst_file@ == f);
                    if has_str(pre, f) {
                        let w = choose|k: int| 0 <= k < pre.len() && pre[k]@ == f;
                        assert(acc@[w]@ == f);
                    } else {
                        assert(acc@[acc@.len() - 1]@ == f);
                    }
                }
            }
        }
        i += 1;
    }
}

/// The bidirectional mapping database: one table keyed by author files whose
/// records point into preprocessed files, and one keyed by preprocessed
/// files whose records point back.
#[derive(Debug)]
pub struct FiascoSourceMapping {
    pub to_preprocess: Vec<MappingEntry>,
    pub from_preprocess: Vec<MappingEntry>,
}

impl FiascoSourceMapping {
    /// The table a query in direction `d` consults.
    pub open spec fn side(self, d: MapDirection) -> Seq<MappingEntry> {
        match d {
            MapDirection::ToPreprocess => self.to_preprocess@,
            MapDirection::FromPreprocess => self.from_preprocess@,
        }
    }

    /// Both tables structurally consistent, before sorting.
    pub open spec fn base_wf(self) -> bool {
        entries_base_wf(self.to_preprocess@) && entries_base_wf(self.from_preprocess@)
    }

    /// Fully well formed: sorted, checked tables on both sides.
    pub open spec fn wf(self) -> bool {
        &&& self.base_wf()
        &&& entries_separated(self.to_preprocess@)
        &&& entries_separated(self.from_preprocess@)
    }

    /// What a point query returns: the image under the file's mappings, or
    /// the input unchanged when the file or line is unknown.
    pub open spec fn spec_map(self, d: MapDirection, path: Seq<char>, line: u32) -> (Seq<char>, u32) {
        if has_entry(self.side(d), path) {
            match entry_for(self.side(d), path).image_of(line) {
                Some(pl) => pl,
                None => (path, line),
            }
        } else {
            (path, line)
        }
    }

    pub fn new() -> (r: FiascoSourceMapping)
        ensures
            r.to_preprocess@ =~= Seq::<MappingEntry>::empty(),
            r.from_preprocess@ =~= Seq::<MappingEntry>::empty(),
            r.wf(),
            r.inverse_consistent(),
    {
        let r = FiascoSourceMapping { to_preprocess: Vec::new(), from_preprocess: Vec::new() };
        proof {
            reveal(side_mirrored);
        }
        r
    }

    fn entries(&self, d: MapDirection) -> (r: &Vec<MappingEntry>)
        ensures
            r@ == self.side(d),
    {
        match d {
            MapDirection::ToPreprocess => &self.to_preprocess,
            MapDirection::FromPreprocess => &self.from_preprocess,
        }
    }

    /// Translate one point.  Lines covered by a mapping move to their image;
    /// anything else passes through unchanged.  The column never changes.
    pub fn map(&self, direction: MapDirection, path: &str, line: u32, character: u32) -> (r:
        SourceLocation)
        requires
            self.wf(),
        ensures
            r.path@ == self.spec_map(direction, path@, line).0,
            r.line == self.spec_map(direction, path@, line).1,
            r.character == character,
    {
        let es = self.entries(direction);
        match find_entry(es, path) {
            None => SourceLocation { path: path.to_owned(), line, character },
            Some(ei) => {
                proof {
                    let w = entry_index(self.side(direction), path@);
                    assert(self.side(direction)[w].path@ == path@);
                    assert(w == ei as int);
                }
                let flm = &es[ei].mappings;
                match flm.image(line) {
                    Some((p, l)) => SourceLocation { path: p, line: l, character },
                    None => SourceLocation { path: path.to_owned(), line, character },
                }
            },
        }
    }

    /// The destination files recorded for `path`: the preprocessed files an
    /// author file feeds, or the author files a preprocessed file was built
    /// from.  Unknown files yield an empty list.
    pub fn map_files(&self, direction: MapDirection, path: &str) -> (r: Vec<String>)
        requires
            self.wf(),
        ensures
            has_entry(self.side(direction), path@) ==> r@ == entry_for(
                self.side(direction),
                path@,
            ).files@,
            !has_entry(self.side(direction), path@) ==> r@.len() == 0,
    {
        let es = self.entries(direction);
        match find_entry(es, path) {
            None => Vec::new(),
            Some(ei) => {
                proof {
                    let w = entry_index(self.side(direction), path@);
                    assert(self.side(direction)[w].path@ == path@);
                    assert(w == ei as int);
                }
                let r = es[ei].mappings.files.clone();
                proof {
                    assert forall|k: int| 0 <= k < r@.len() implies r@[k] == es@[ei as int].mappings.files@[k] by {
                        assert(cloned::<String>(es@[ei as int].mappings.files@[k], r@[k]));
                    }
                    assert(r@ =~= es@[ei as int].mappings.files@);
                }
                r
            },
        }
    }

    /// The destination files of every mapping, in any section, that overlaps
    /// the inclusive line range `[start, end]` of `path`; each file once.
    pub fn map_files_with_range(&self, direction: MapDirection, path: &str, start: u32, end: u32)
        -> (r: Vec<String>)
        requires
            self.wf(),
        ensures
            !has_entry(self.side(direction), path@) ==> r@.len() == 0,
            has_entry(self.side(direction), path@) ==> forall|f: Seq<char>|
                #[trigger] has_str(r@, f) <==> entry_for(self.side(direction), path@).overlapping_dst(
                    start,
                    end,
                    f,
                ),
            forall|i: int, j: int| 0 <= i < j < r@.len() ==> r@[i]@ != r@[j]@,
    {
        let es = self.entries(direction);
        match find_entry(es, path) {
            None => Vec::new(),
            Some(ei) => {
                proof {
                    let w = entry_index(self.side(direction), path@);
                    assert(self.side(direction)[w].path@ == path@);
                    assert(w == ei as int);
                }
                let flm = &es[ei].mappings;
                let mut acc: Vec<String> = Vec::new();
                collect_overlapping(&flm.implementation, start, end, &mut acc);
                collect_overlapping(&flm.interface, start, end, &mut acc);
                collect_overlapping(&flm.no_section, start, end, &mut acc);
                proof {
                    assert forall|f: Seq<char>| #[trigger] has_str(acc@, f) implies flm.overlapping_dst(
                        start,
                        end,
                        f,
                    ) by {
                        if exists|j: int|
                            0 <= j < flm.implementation@.len() && (#[trigger] flm.implementation@[j]).spec_overlaps(start, end)
                                && flm.implementation@[j].dst_file@ == f {
                            let j = choose|j: int|
                                0 <= j < flm.implementation@.len() && (#[trigger] flm.implementation@[j]).spec_overlaps(start, end)
                                    && flm.implementation@[j].dst_file@ == f;
                            assert(flm.section_seq(PreprocessSection::Implementation)[j].spec_overlaps(start, end));
                        } else if exists|j: int|
                            0 <= j < flm.interface@.len() && (#[trigger] flm.interface@[j]).spec_overlaps(start, end)
                                && flm.interface@[j].dst_file@ == f {
                            let j = choose|j: int|
                                0 <= j < flm.interface@.len() && (#[trigger] flm.interface@[j]).spec_overlaps(start, end)
                                    && flm.interface@[j].dst_file@ == f;
                            assert(flm.section_seq(PreprocessSection::Interface)[j].spec_overlaps(start, end));
                        } else {
                            let j = choose|j: int|
                                0 <= j < flm.no_section@.len() && (#[trigger] flm.no_section@[j]).spec_overlaps(start, end)
                                    && flm.no_section@[j].dst_file@ == f;
                            assert(flm.section_seq(PreprocessSection::NoSection)[j].spec_overlaps(start, end));
                        }
                    }
                    assert forall|f: Seq<char>| flm.overlapping_dst(start, end, f) implies #[trigger] has_str(
                        acc@,
                        f,
                    ) by {
                        let (s, j): (PreprocessSection, int) = choose|s: PreprocessSection, j: int|
                            0 <= j < flm.section_seq(s).len() && (#[trigger] flm.section_seq(s)[j]).spec_overlaps(
                                start,
                                end,
                            ) && flm.section_seq(s)[j].dst_file@ == f;
                        match s {
                            PreprocessSection::Implementation => {
                                assert(flm.implementation@[j].spec_overlaps(start, end));
                            },
                            PreprocessSection::Interface => {
                                assert(flm.interface@[j].spec_overlaps(start, end));
                            },
                            PreprocessSection::NoSection => {
                                assert(flm.no_section@[j].spec_overlaps(start, end));
                            },
                        }
                    }
                }
                acc
            },
        }
    }

    /// The recorded length of `path` in the given direction: the largest end
    /// line over its mappings.
    pub fn file_length(&self, direction: MapDirection, path: &str) -> (r: Option<u32>)
        requires
            self.wf(),
        ensures
            has_entry(self.side(direction), path@) ==> r == Some(
                entry_for(self.side(direction), path@).length,
            ),
            !has_entry(self.side(direction), path@) ==> r is None,
    {
        let es = self.entries(direction);
        match find_entry(es, path) {
            None => None,
            Some(ei) => {
                proof {
                    let w = entry_index(self.side(direction), path@);
                    assert(self.side(direction)[w].path@ == path@);
                    assert(w == ei as int);
                }
                Some(es[ei].mappings.length)
            },
        }
    }
}


/// `a` is an initial segment of `b`.
pub open spec fn seq_prefix(a: Seq<LineMapping>, b: Seq<LineMapping>) -> bool {
    a.len() <= b.len() && forall|j: int| 0 <= j < a.len() ==> b[j] == a[j]
}

/// Some slot of `es`, keyed by `m`'s destination file, holds the mirror
/// image of `m` in `m`'s own section.
pub open spec fn has_mirror(es: Seq<MappingEntry>, m: LineMapping, src_path: Seq<char>) -> bool {
    exists|k: int, idx: int|
        0 <= k < es.len() && es[k].path@ == m.dst_file@ && 0 <= idx
            < es[k].mappings.section_seq(m.section).len() && mirrors(
            m,
            src_path,
            es[k].mappings.section_seq(m.section)[idx],
            es[k].path@,
        )
}

/// The mirror relation swaps cleanly.
pub proof fn lemma_mirrors_symmetric(a: LineMapping, a_path: Seq<char>, b: LineMapping, b_path: Seq<char>)
    requires
        a.wf(),
        mirrors(a, a_path, b, b_path),
    ensures
        mirrors(b, b_path, a, a_path),
{
}

/// Membership in a section part is membership in the whole list with that
/// section.
pub proof fn lemma_section_part_membership(ms: Seq<LineMapping>, s: PreprocessSection)
    ensures
        forall|idx: int|
            0 <= idx < section_part(ms, s).len() ==> (#[trigger] section_part(ms, s)[idx]).section
                == s && ms.contains(section_part(ms, s)[idx]),
        forall|j: int|
            0 <= j < ms.len() && (#[trigger] ms[j]).section == s ==> section_part(ms, s).contains(
                ms[j],
            ),
    decreases ms.len(),
{
    if ms.len() > 0 {
        lemma_section_part_membership(ms.drop_last(), s);
        let pre = ms.drop_last();
        assert(forall|j: int| 0 <= j < pre.len() ==> pre[j] == ms[j]);
        assert forall|idx: int|
            0 <= idx < section_part(ms, s).len() implies (#[trigger] section_part(ms, s)[idx]).section
            == s && ms.contains(section_part(ms, s)[idx]) by {
            if ms.last().section == s && idx == section_part(ms, s).len() - 1 {
                assert(section_part(ms, s)[idx] == ms.last());
                assert(ms[ms.len() - 1] == ms.last());
            } else {
                assert(section_part(ms, s)[idx] == section_part(pre, s)[idx]);
                let w = choose|w: int| 0 <= w < pre.len() && pre[w] == section_part(pre, s)[idx];
                assert(ms[w] == section_part(ms, s)[idx]);
            }
        }
        assert forall|j: int|
            0 <= j < ms.len() && (#[trigger] ms[j]).section == s implies section_part(
            ms,
            s,
        ).contains(ms[j]) by {
            if j == ms.len() - 1 {
                assert(section_part(ms, s).last() == ms[j]);
            } else {
                let w = choose|w: int|
                    0 <= w < section_part(pre, s).len() && section_part(pre, s)[w] == pre[j];
                assert(section_part(ms, s)[w] == ms[j]);
            }
        }
    }
}

impl FiascoSourceMapping {
    /// Record one parsed preprocessed file: its own mappings under its path
    /// on the from-preprocess side, and the mirror image of each record
    /// under the record's destination file on the to-preprocess side.
    pub fn add_preprocessed_file(&mut self, path: &str, mappings: Vec<LineMapping>)
        requires
            old(self).base_wf(),
            all_wf(mappings@),
            !has_entry(old(self).from_preprocess@, path@),
        ensures
            final(self).base_wf(),
            final(self).from_preprocess@.len() == old(self).from_preprocess@.len() + 1,
            forall|k: int|
                0 <= k < old(self).from_preprocess@.len() ==> final(self).from_preprocess@[k]
                    == old(self).from_preprocess@[k],
            final(self).from_preprocess@.last().path@ == path@,
            forall|s: PreprocessSection|
                final(self).from_preprocess@.last().mappings.section_seq(s) == section_part(
                    mappings@,
                    s,
                ),
            final(self).from_preprocess@.last().mappings.length == max_end(mappings@),
            final(self).to_preprocess@.len() >= old(self).to_preprocess@.len(),
            forall|k: int|
                0 <= k < old(self).to_preprocess@.len() ==> (#[trigger] final(self).to_preprocess@[k]).path == old(self).to_preprocess@[k].path,
            forall|k: int, s: PreprocessSection|
                0 <= k < old(self).to_preprocess@.len() ==> seq_prefix(
                    old(self).to_preprocess@[k].mappings.section_seq(s),
                    #[trigger] final(self).to_preprocess@[k].mappings.section_seq(s),
                ),
            forall|j: int|
                0 <= j < mappings@.len() ==> has_mirror(
                    final(self).to_preprocess@,
                    #[trigger] mappings@[j],
                    path@,
                ),
            forall|k: int, s: PreprocessSection, j: int|
                #![trigger final(self).to_preprocess@[k].mappings.section_seq(s)[j]]
                0 <= k < final(self).to_preprocess@.len() && 0 <= j < final(self).to_preprocess@[k].mappings.section_seq(s).len() && !(k < old(self).to_preprocess@.len() && j < old(self).to_preprocess@[k].mappings.section_seq(
                    s,
                ).len()) ==> exists|jj: int|
                    0 <= jj < mappings@.len() && mirrors(
                        mappings@[jj],
                        path@,
                        final(self).to_preprocess@[k].mappings.section_seq(s)[j],
                        final(self).to_preprocess@[k].path@,
                    ),
    {
        let ghost pre = *self;
        let ghost all = mappings@;
        let mut i: usize = 0;
        while i < mappings.len()
            invariant
                all_wf(all),
                mappings@ == all,
                i <= all.len(),
                self.from_preprocess@ == pre.from_preprocess@,
                entries_base_wf(self.to_preprocess@),
                self.to_preprocess@.len() >= pre.to_preprocess@.len(),
                forall|k: int|
                    0 <= k < pre.to_preprocess@.len() ==> (#[trigger] self.to_preprocess@[k]).path
                        == pre.to_preprocess@[k].path,
                forall|k: int, s: PreprocessSection|
                    0 <= k < pre.to_preprocess@.len() ==> seq_prefix(
                        pre.to_preprocess@[k].mappings.section_seq(s),
                        #[trigger] self.to_preprocess@[k].mappings.section_seq(s),
                    ),
                forall|j: int|
                    0 <= j < i ==> has_mirror(self.to_preprocess@, #[trigger] all[j], path@),
                forall|k: int, s: PreprocessSection, j: int|
                    #![trigger self.to_preprocess@[k].mappings.section_seq(s)[j]]
                    0 <= k < self.to_preprocess@.len() && 0 <= j < self.to_preprocess@[k].mappings.section_seq(s).len() && !(k < pre.to_preprocess@.len() && j
                        < pre.to_preprocess@[k].mappings.section_seq(s).len()) ==> exists|jj: int|
                        0 <= jj < i && mirrors(
                            all[jj],
                            path@,
                            self.to_preprocess@[k].mappings.section_seq(s)[j],
                            self.to_preprocess@[k].path@,
                        ),
            decreases all.len() - i,
        {
            let m = mappings[i].clone();
            proof {
                assert(m == all[i as int]);
                assert(m.wf());
            }
            let inv = LineMapping {
                section: m.section,
                src_line: m.dst_line,
                src_end_line: m.dst_line + (m.src_end_line - m.src_line),
                dst_file: path.to_owned(),
                dst_line: m.src_line,
            };
            let ghost pre_to = self.to_preprocess@;
            match find_entry(&self.to_preprocess, m.dst_file.as_str()) {
                Some(k) => {
                    let mut e = self.to_preprocess.remove(k);
                    let ghost pre_e = e;
                    e.mappings.push(inv);
                    proof {
                        assert(inv.wf());
                        assert(e.mappings.base_wf());
                    }
                    self.to_preprocess.insert(k, e);
                    proof {
                        assert(self.to_preprocess@ =~= pre_to.update(k as int, e));
                        assert(mirrors(m, path@, inv, self.to_preprocess@[k as int].path@));
                        assert(self.to_preprocess@[k as int].mappings.section_seq(m.section)
                            == pre_e.mappings.section_seq(m.section).push(inv));
                        lemma_add_step_facts(pre_to, self.to_preprocess@, k as int, pre_e, e, inv, m, all, path@, i as int, pre.to_preprocess@);
                    }
                },
                None => {
                    let mut flm = FileLineMappings::new();
                    flm.push(inv);
                    let key = m.dst_file.clone();
                    self.to_preprocess.push(MappingEntry { path: key, mappings: flm });
                    proof {
                        let k = self.to_preprocess@.len() - 1;
                        assert(self.to_preprocess@[k].path@ == m.dst_file@);
                        assert(forall|j2: int| 0 <= j2 < pre_to.len() ==> self.to_preprocess@[j2] == pre_to[j2]);
                        assert(mirrors(m, path@, inv, self.to_preprocess@[k].path@));
                        assert(self.to_preprocess@[k].mappings.section_seq(m.section) =~= seq![inv]);
                        lemma_add_new_entry_facts(pre_to, self.to_preprocess@, k, inv, m, all, path@, i as int, pre.to_preprocess@);
                    }
                },
            }
            i += 1;
        }
        let flm = FileLineMappings::from_mappings(mappings);
        let ghost pre_from = self.from_preprocess@;
        self.from_preprocess.push(MappingEntry { path: path.to_owned(), mappings: flm });
        proof {
            assert(self.from_preprocess@.last().path@ == path@);
            assert forall|k: int, j: int|
                0 <= k < j < self.from_preprocess@.len() implies self.from_preprocess@[k].path@
                != self.from_preprocess@[j].path@ by {
                if j < self.from_preprocess@.len() - 1 {
                    assert(pre_from[k].path@ != pre_from[j].path@);
                } else {
                    assert(!has_entry(pre_from, path@));
                    assert(self.from_preprocess@[k] == pre_from[k]);
                }
            }
            assert(entries_base_wf(self.from_preprocess@)) by {
                assert forall|k: int|
                    0 <= k < self.from_preprocess@.len() implies (#[trigger] self.from_preprocess@[k]).mappings.base_wf() by {
                    if k < self.from_preprocess@.len() - 1 {
                        assert(self.from_preprocess@[k] == pre_from[k]);
                        assert(pre_from[k].mappings.base_wf());
                    } else {
                        assert(self.from_preprocess@[k].mappings == flm);
                    }
                }
            }
            assert forall|s: PreprocessSection|
                self.from_preprocess@.last().mappings.section_seq(s) == section_part(
                    all,
                    s,
                ) by {
                match s {
                    PreprocessSection::NoSection => {},
                    PreprocessSection::Interface => {},
                    PreprocessSection::Implementation => {},
                }
            }
        }
    }
}

/// After extending one slot in place, every tracked fact of the enclosing
/// ingestion loop still holds.
proof fn lemma_add_step_facts(
    pre_to: Seq<MappingEntry>,
    post_to: Seq<MappingEntry>,
    k: int,
    pre_e: MappingEntry,
    e: MappingEntry,
    inv: LineMapping,
    m: LineMapping,
    all: Seq<LineMapping>,
    path: Seq<char>,
    i: int,
    orig_to: Seq<MappingEntry>,
)
    requires
        0 <= k < pre_to.len(),
        0 <= i < all.len(),
        m == all[i],
        post_to == pre_to.update(k, e),
        pre_e == pre_to[k],
        e.path == pre_e.path,
        e.mappings.section_seq(m.section) == pre_e.mappings.section_seq(m.section).push(inv),
        forall|s: PreprocessSection|
            s != m.section ==> e.mappings.section_seq(s) == pre_e.mappings.section_seq(s),
        e.path@ == m.dst_file@,
        mirrors(m, path, inv, e.path@),
        // facts carried by the loop
        orig_to.len() <= pre_to.len(),
        forall|k2: int|
            0 <= k2 < orig_to.len() ==> (#[trigger] pre_to[k2]).path == orig_to[k2].path,
        forall|k2: int, s: PreprocessSection|
            0 <= k2 < orig_to.len() ==> seq_prefix(
                orig_to[k2].mappings.section_seq(s),
                #[trigger] pre_to[k2].mappings.section_seq(s),
            ),
        forall|j: int| 0 <= j < i ==> has_mirror(pre_to, #[trigger] all[j], path),
        forall|k2: int, s: PreprocessSection, j: int|
            #![trigger pre_to[k2].mappings.section_seq(s)[j]]
            0 <= k2 < pre_to.len() && 0 <= j < pre_to[k2].mappings.section_seq(s).len() && !(k2 < orig_to.len() && j < orig_to[k2].mappings.section_seq(s).len())
                ==> exists|jj: int|
                0 <= jj < i && mirrors(
                    all[jj],
                    path,
                    pre_to[k2].mappings.section_seq(s)[j],
                    pre_to[k2].path@,
                ),
    ensures
        post_to.len() == pre_to.len(),
        forall|k2: int|
            0 <= k2 < orig_to.len() ==> (#[trigger] post_to[k2]).path == orig_to[k2].path,
        forall|k2: int, s: PreprocessSection|
            0 <= k2 < orig_to.len() ==> seq_prefix(
                orig_to[k2].mappings.section_seq(s),
                #[trigger] post_to[k2].mappings.section_seq(s),
            ),
        forall|j: int| 0 <= j <= i ==> has_mirror(post_to, #[trigger] all[j], path),
        forall|k2: int, s: PreprocessSection, j: int|
            #![trigger post_to[k2].mappings.section_seq(s)[j]]
            0 <= k2 < post_to.len() && 0 <= j < post_to[k2].mappings.section_seq(s).len() && !(k2 < orig_to.len() && j < orig_to[k2].mappings.section_seq(s).len())
                ==> exists|jj: int|
                0 <= jj <= i && mirrors(
                    all[jj],
                    path,
                    post_to[k2].mappings.section_seq(s)[j],
                    post_to[k2].path@,
                ),
{
    assert forall|k2: int, s: PreprocessSection|
        0 <= k2 < orig_to.len() implies seq_prefix(
        orig_to[k2].mappings.section_seq(s),
        #[trigger] post_to[k2].mappings.section_seq(s),
    ) by {
        if k2 == k {
            assert(seq_prefix(orig_to[k2].mappings.section_seq(s), pre_e.mappings.section_seq(s)));
            if s == m.section {
                assert(forall|j: int|
                    0 <= j < pre_e.mappings.section_seq(s).len() ==> e.mappings.section_seq(s)[j]
                        == pre_e.mappings.section_seq(s)[j]);
            }
        } else {
            assert(post_to[k2] == pre_to[k2]);
        }
    }
    assert forall|j: int| 0 <= j <= i implies has_mirror(post_to, #[trigger] all[j], path) by {
        if j < i {
            let (k2, idx): (int, int) = choose|k2: int, idx: int|
                0 <= k2 < pre_to.len() && pre_to[k2].path@ == all[j].dst_file@ && 0 <= idx
                    < pre_to[k2].mappings.section_seq(all[j].section).len() && mirrors(
                    all[j],
                    path,
                    pre_to[k2].mappings.section_seq(all[j].section)[idx],
                    pre_to[k2].path@,
                );
            if k2 == k {
                if all[j].section == m.section {
                    assert(post_to[k2].mappings.section_seq(all[j].section)[idx]
                        == pre_to[k2].mappings.section_seq(all[j].section)[idx]);
                } else {
                    assert(post_to[k2].mappings.section_seq(all[j].section)
                        == pre_to[k2].mappings.section_seq(all[j].section));
                }
                assert(mirrors(
                    all[j],
                    path,
                    post_to[k2].mappings.section_seq(all[j].section)[idx],
                    post_to[k2].path@,
                ));
            } else {
                assert(post_to[k2] == pre_to[k2]);
                assert(mirrors(
                    all[j],
                    path,
                    post_to[k2].mappings.section_seq(all[j].section)[idx],
                    post_to[k2].path@,
                ));
            }
        } else {
            let idx = e.mappings.section_seq(m.section).len() - 1;
            assert(e.mappings.section_seq(m.section)[idx] == inv);
            assert(post_to[k].path@ == m.dst_file@);
            assert(mirrors(all[j], path, post_to[k].mappings.section_seq(m.section)[idx], post_to[k].path@));
        }
    }
    assert forall|k2: int, s: PreprocessSection, j: int|
            #![trigger post_to[k2].mappings.section_seq(s)[j]]
            0 <= k2 < post_to.len() && 0 <= j < post_to[k2].mappings.section_seq(s).len() && !(k2 < orig_to.len() && j < orig_to[k2].mappings.section_seq(s).len())
            implies exists|jj: int|
            0 <= jj <= i && mirrors(
                all[jj],
                path,
                post_to[k2].mappings.section_seq(s)[j],
                post_to[k2].path@,
            ) by {
        if k2 == k && s == m.section && j == e.mappings.section_seq(s).len() - 1 {
            assert(post_to[k2].mappings.section_seq(s)[j] == inv);
            assert(mirrors(all[i], path, inv, post_to[k2].path@));
        } else {
            if k2 == k {
                if s == m.section {
                    assert(post_to[k2].mappings.section_seq(s)[j]
                        == pre_to[k2].mappings.section_seq(s)[j]);
                } else {
                    assert(post_to[k2].mappings.section_seq(s) == pre_to[k2].mappings.section_seq(s));
                }
            } else {
                assert(post_to[k2] == pre_to[k2]);
            }
            let jj = choose|jj: int|
                0 <= jj < i && mirrors(
                    all[jj],
                    path,
                    pre_to[k2].mappings.section_seq(s)[j],
                    pre_to[k2].path@,
                );
            assert(mirrors(all[jj], path, post_to[k2].mappings.section_seq(s)[j], post_to[k2].path@));
        }
    }
}

/// After appending a fresh slot, every tracked fact of the enclosing
/// ingestion loop still holds.
proof fn lemma_add_new_entry_facts(
    pre_to: Seq<MappingEntry>,
    post_to: Seq<MappingEntry>,
    k: int,
    inv: LineMapping,
    m: LineMapping,
    all: Seq<LineMapping>,
    path: Seq<char>,
    i: int,
    orig_to: Seq<MappingEntry>,
)
    requires
        0 <= i < all.len(),
        m == all[i],
        k == pre_to.len(),
        post_to.len() == pre_to.len() + 1,
        forall|j2: int| 0 <= j2 < pre_to.len() ==> post_to[j2] == pre_to[j2],
        post_to[k].path@ == m.dst_file@,
        post_to[k].mappings.section_seq(m.section) =~= seq![inv],
        forall|s: PreprocessSection|
            s != m.section ==> post_to[k].mappings.section_seq(s) =~= Seq::<LineMapping>::empty(),
        mirrors(m, path, inv, post_to[k].path@),
        orig_to.len() <= pre_to.len(),
        forall|k2: int|
            0 <= k2 < orig_to.len() ==> (#[trigger] pre_to[k2]).path == orig_to[k2].path,
        forall|k2: int, s: PreprocessSection|
            0 <= k2 < orig_to.len() ==> seq_prefix(
                orig_to[k2].mappings.section_seq(s),
                #[trigger] pre_to[k2].mappings.section_seq(s),
            ),
        forall|j: int| 0 <= j < i ==> has_mirror(pre_to, #[trigger] all[j], path),
        forall|k2: int, s: PreprocessSection, j: int|
            #![trigger pre_to[k2].mappings.section_seq(s)[j]]
            0 <= k2 < pre_to.len() && 0 <= j < pre_to[k2].mappings.section_seq(s).len() && !(k2 < orig_to.len() && j < orig_to[k2].mappings.section_seq(s).len())
                ==> exists|jj: int|
                0 <= jj < i && mirrors(
                    all[jj],
                    path,
                    pre_to[k2].mappings.section_seq(s)[j],
                    pre_to[k2].path@,
                ),
    ensures
        forall|k2: int|
            0 <= k2 < orig_to.len() ==> (#[trigger] post_to[k2]).path == orig_to[k2].path,
        forall|k2: int, s: PreprocessSection|
            0 <= k2 < orig_to.len() ==> seq_prefix(
                orig_to[k2].mappings.section_seq(s),
                #[trigger] post_to[k2].mappings.section_seq(s),
            ),
        forall|j: int| 0 <= j <= i ==> has_mirror(post_to, #[trigger] all[j], path),
        forall|k2: int, s: PreprocessSection, j: int|
            #![trigger post_to[k2].mappings.section_seq(s)[j]]
            0 <= k2 < post_to.len() && 0 <= j < post_to[k2].mappings.section_seq(s).len() && !(k2 < orig_to.len() && j < orig_to[k2].mappings.section_seq(s).len())
                ==> exists|jj: int|
                0 <= jj <= i && mirrors(
                    all[jj],
                    path,
                    post_to[k2].mappings.section_seq(s)[j],
                    post_to[k2].path@,
                ),
{
    assert forall|j: int| 0 <= j <= i implies has_mirror(post_to, #[trigger] all[j], path) by {
        if j < i {
            let (k2, idx): (int, int) = choose|k2: int, idx: int|
                0 <= k2 < pre_to.len() && pre_to[k2].path@ == all[j].dst_file@ && 0 <= idx
                    < pre_to[k2].mappings.section_seq(all[j].section).len() && mirrors(
                    all[j],
                    path,
                    pre_to[k2].mappings.section_seq(all[j].section)[idx],
                    pre_to[k2].path@,
                );
            assert(post_to[k2] == pre_to[k2]);
            assert(mirrors(
                all[j],
                path,
                post_to[k2].mappings.section_seq(all[j].section)[idx],
                post_to[k2].path@,
            ));
        } else {
            assert(post_to[k].mappings.section_seq(m.section)[0] == inv);
            assert(mirrors(all[j], path, post_to[k].mappings.section_seq(m.section)[0], post_to[k].path@));
        }
    }
    assert forall|k2: int, s: PreprocessSection, j: int|
            #![trigger post_to[k2].mappings.section_seq(s)[j]]
            0 <= k2 < post_to.len() && 0 <= j < post_to[k2].mappings.section_seq(s).len() && !(k2 < orig_to.len() && j < orig_to[k2].mappings.section_seq(s).len())
            implies exists|jj: int|
            0 <= jj <= i && mirrors(
                all[jj],
                path,
                post_to[k2].mappings.section_seq(s)[j],
                post_to[k2].path@,
            ) by {
        if k2 == k {
            assert(s == m.section) by {
                if s != m.section {
                    assert(post_to[k2].mappings.section_seq(s).len() == 0);
                }
            }
            assert(j == 0);
            assert(post_to[k2].mappings.section_seq(s)[j] == inv);
            assert(mirrors(all[i], path, inv, post_to[k2].path@));
        } else {
            assert(post_to[k2] == pre_to[k2]);
            let jj = choose|jj: int|
                0 <= jj < i && mirrors(
                    all[jj],
                    path,
                    pre_to[k2].mappings.section_seq(s)[j],
                    pre_to[k2].path@,
                );
            assert(mirrors(all[jj], path, post_to[k2].mappings.section_seq(s)[j], post_to[k2].path@));
        }
    }
}


/// Sort the section lists of every slot in the table.
fn sort_entries(es: &mut Vec<MappingEntry>)
    ensures
        final(es)@.len() == old(es)@.len(),
        forall|k: int|
            0 <= k < old(es)@.len() ==> {
                &&& (#[trigger] final(es)@[k]).path == old(es)@[k].path
                &&& seq_permuted(
                    old(es)@[k].mappings.no_section@,
                    final(es)@[k].mappings.no_section@,
                )
                &&& seq_permuted(old(es)@[k].mappings.interface@, final(es)@[k].mappings.interface@)
                &&& seq_permuted(
                    old(es)@[k].mappings.implementation@,
                    final(es)@[k].mappings.implementation@,
                )
                &&& sorted_by_src(final(es)@[k].mappings.no_section@)
                &&& sorted_by_src(final(es)@[k].mappings.interface@)
                &&& sorted_by_src(final(es)@[k].mappings.implementation@)
                &&& final(es)@[k].mappings.files@ == old(es)@[k].mappings.files@
                &&& final(es)@[k].mappings.length == old(es)@[k].mappings.length
            },
        entries_base_wf(old(es)@) ==> entries_base_wf(final(es)@),
{
    let ghost orig = old(es)@;
    let mut i: usize = 0;
    while i < es.len()
        invariant
            es@.len() == orig.len(),
            i <= orig.len(),
            forall|k: int| i <= k < orig.len() ==> es@[k] == orig[k],
            forall|k: int|
                0 <= k < i ==> {
                    &&& (#[trigger] es@[k]).path == orig[k].path
                    &&& seq_permuted(orig[k].mappings.no_section@, es@[k].mappings.no_section@)
                    &&& seq_permuted(orig[k].mappings.interface@, es@[k].mappings.interface@)
                    &&& seq_permuted(
                        orig[k].mappings.implementation@,
                        es@[k].mappings.implementation@,
                    )
                    &&& sorted_by_src(es@[k].mappings.no_section@)
                    &&& sorted_by_src(es@[k].mappings.interface@)
                    &&& sorted_by_src(es@[k].mappings.implementation@)
                    &&& es@[k].mappings.files@ == orig[k].mappings.files@
                    &&& es@[k].mappings.length == orig[k].mappings.length
                    &&& orig[k].mappings.base_wf() ==> es@[k].mappings.base_wf()
                },
        decreases orig.len() - i,
    {
        let ghost pre_es = es@;
        let mut e = es.remove(i);
        e.mappings.sort();
        es.insert(i, e);
        proof {
            assert(es@ =~= pre_es.update(i as int, e));
        }
        i += 1;
    }
    proof {
        if entries_base_wf(orig) {
            assert forall|k: int|
                0 <= k < es@.len() implies (#[trigger] es@[k]).mappings.base_wf() by {
                assert(orig[k].mappings.base_wf());
            }
            assert forall|k: int, j: int|
                0 <= k < j < es@.len() implies es@[k].path@ != es@[j].path@ by {
                assert(orig[k].path@ != orig[j].path@);
            }
        }
    }
}

/// Whether every slot of the table passes the per-section overlap check.
fn check_entries(es: &Vec<MappingEntry>) -> (r: bool)
    ensures
        r == entries_separated(es@),
{
    let mut i: usize = 0;
    while i < es.len()
        invariant
            i <= es@.len(),
            forall|k: int|
                0 <= k < i ==> {
                    let m = (#[trigger] es@[k]).mappings;
                    separated(m.no_section@) && separated(m.interface@) && separated(
                        m.implementation@,
                    )
                },
        decreases es@.len() - i,
    {
        if !es[i].mappings.check() {
            return false;
        }
        i += 1;
    }
    true
}

/// Every record of every slot of `a` has its mirror image somewhere in `b`.
#[verifier::opaque]
pub open spec fn side_mirrored(a: Seq<MappingEntry>, b: Seq<MappingEntry>) -> bool {
    forall|k: int, s: PreprocessSection, j: int|
        #![trigger a[k].mappings.section_seq(s)[j]]
        0 <= k < a.len() && 0 <= j < a[k].mappings.section_seq(s).len() ==> has_mirror(
            b,
            a[k].mappings.section_seq(s)[j],
            a[k].path@,
        )
}

impl FiascoSourceMapping {
    /// The two tables are mutual inverses: every mapping on either side has
    /// its mirror image on the other.
    pub open spec fn inverse_consistent(self) -> bool {
        side_mirrored(self.to_preprocess@, self.from_preprocess@) && side_mirrored(
            self.from_preprocess@,
            self.to_preprocess@,
        )
    }

    /// Sort every slot's section lists on both sides.
    pub fn sort(&mut self)
        ensures
            final(self).to_preprocess@.len() == old(self).to_preprocess@.len(),
            final(self).from_preprocess@.len() == old(self).from_preprocess@.len(),
            forall|k: int|
                0 <= k < old(self).to_preprocess@.len() ==> entry_sorted_from(
                    old(self).to_preprocess@[k],
                    #[trigger] final(self).to_preprocess@[k],
                ),
            forall|k: int|
                0 <= k < old(self).from_preprocess@.len() ==> entry_sorted_from(
                    old(self).from_preprocess@[k],
                    #[trigger] final(self).from_preprocess@[k],
                ),
            old(self).base_wf() ==> final(self).base_wf(),
            old(self).inverse_consistent() ==> final(self).inverse_consistent(),
    {
        let ghost pre = *self;
        sort_entries(&mut self.to_preprocess);
        sort_entries(&mut self.from_preprocess);
        proof {
            if pre.inverse_consistent() {
                lemma_permuted_preserves_mirrored(
                    pre.to_preprocess@,
                    pre.from_preprocess@,
                    self.to_preprocess@,
                    self.from_preprocess@,
                );
                lemma_permuted_preserves_mirrored(
                    pre.from_preprocess@,
                    pre.to_preprocess@,
                    self.from_preprocess@,
                    self.to_preprocess@,
                );
            }
        }
    }

    /// Whether every slot on both sides is internally non-overlapping; with
    /// structural consistency this is full well-formedness.
    pub fn check(&self) -> (r: bool)
        ensures
            r == (entries_separated(self.to_preprocess@) && entries_separated(
                self.from_preprocess@,
            )),
            self.base_wf() && r ==> self.wf(),
    {
        check_entries(&self.to_preprocess) && check_entries(&self.from_preprocess)
    }
}

/// `post` is `pre` with its section lists rearranged: same path, same files
/// and length, each section a permutation.
pub open spec fn entry_sorted_from(pre: MappingEntry, post: MappingEntry) -> bool {
    &&& post.path == pre.path
    &&& seq_permuted(pre.mappings.no_section@, post.mappings.no_section@)
    &&& seq_permuted(pre.mappings.interface@, post.mappings.interface@)
    &&& seq_permuted(pre.mappings.implementation@, post.mappings.implementation@)
    &&& sorted_by_src(post.mappings.no_section@)
    &&& sorted_by_src(post.mappings.interface@)
    &&& sorted_by_src(post.mappings.implementation@)
    &&& post.mappings.files@ == pre.mappings.files@
    &&& post.mappings.length == pre.mappings.length
}

/// Each section of each slot permuted on both sides preserves the mirror
/// property.
proof fn lemma_permuted_preserves_mirrored(
    a: Seq<MappingEntry>,
    b: Seq<MappingEntry>,
    a2: Seq<MappingEntry>,
    b2: Seq<MappingEntry>,
)
    requires
        side_mirrored(a, b),
        a2.len() == a.len(),
        b2.len() == b.len(),
        forall|k: int| 0 <= k < a.len() ==> entry_sorted_from(a[k], #[trigger] a2[k]),
        forall|k: int| 0 <= k < b.len() ==> entry_sorted_from(b[k], #[trigger] b2[k]),
    ensures
        side_mirrored(a2, b2),
{
    reveal(side_mirrored);
    assert forall|k: int, s: PreprocessSection, j: int|
        #![trigger a2[k].mappings.section_seq(s)[j]]
        0 <= k < a2.len() && 0 <= j < a2[k].mappings.section_seq(s).len() implies has_mirror(
        b2,
        a2[k].mappings.section_seq(s)[j],
        a2[k].path@,
    ) by {
        let m = a2[k].mappings.section_seq(s)[j];
        lemma_entry_sections_permuted(a[k], a2[k], s);
        lemma_permuted_facts(a[k].mappings.section_seq(s), a2[k].mappings.section_seq(s));
        let j0 = choose|j0: int|
            0 <= j0 < a[k].mappings.section_seq(s).len() && a[k].mappings.section_seq(s)[j0] == m;
        assert(has_mirror(b, m, a[k].path@));
        let (k2, idx): (int, int) = choose|k2: int, idx: int|
            0 <= k2 < b.len() && b[k2].path@ == m.dst_file@ && 0 <= idx
                < b[k2].mappings.section_seq(m.section).len() && mirrors(
                m,
                a[k].path@,
                b[k2].mappings.section_seq(m.section)[idx],
                b[k2].path@,
            );
        lemma_entry_sections_permuted(b[k2], b2[k2], m.section);
        lemma_permuted_facts(
            b[k2].mappings.section_seq(m.section),
            b2[k2].mappings.section_seq(m.section),
        );
        let mir = b[k2].mappings.section_seq(m.section)[idx];
        let idx2 = choose|idx2: int|
            0 <= idx2 < b2[k2].mappings.section_seq(m.section).len() && b2[k2].mappings.section_seq(
                m.section,
            )[idx2] == mir;
        assert(b2[k2].path@ == m.dst_file@);
        assert(mirrors(m, a2[k].path@, b2[k2].mappings.section_seq(m.section)[idx2], b2[k2].path@));
    }
}

/// An `entry_sorted_from` pair has permuted lists in every section.
proof fn lemma_entry_sections_permuted(pre: MappingEntry, post: MappingEntry, s: PreprocessSection)
    requires
        entry_sorted_from(pre, post),
    ensures
        seq_permuted(pre.mappings.section_seq(s), post.mappings.section_seq(s)),
{
}


/// Ingesting one preprocessed file preserves the mutual-inverse property:
/// the file's own records mirror the freshly inserted slots on the other
/// side, and everything older is untouched.
pub proof fn lemma_add_preserves_inverse(
    pre: FiascoSourceMapping,
    post: FiascoSourceMapping,
    path: Seq<char>,
    mappings: Seq<LineMapping>,
)
    requires
        pre.inverse_consistent(),
        all_wf(mappings),
        post.from_preprocess@.len() == pre.from_preprocess@.len() + 1,
        forall|k: int|
            0 <= k < pre.from_preprocess@.len() ==> #[trigger] post.from_preprocess@[k]
                == pre.from_preprocess@[k],
        post.from_preprocess@.last().path@ == path,
        forall|s: PreprocessSection|
            #[trigger] post.from_preprocess@.last().mappings.section_seq(s) == section_part(
                mappings,
                s,
            ),
        post.to_preprocess@.len() >= pre.to_preprocess@.len(),
        forall|k: int|
            0 <= k < pre.to_preprocess@.len() ==> (#[trigger] post.to_preprocess@[k]).path
                == pre.to_preprocess@[k].path,
        forall|k: int, s: PreprocessSection|
            0 <= k < pre.to_preprocess@.len() ==> seq_prefix(
                pre.to_preprocess@[k].mappings.section_seq(s),
                #[trigger] post.to_preprocess@[k].mappings.section_seq(s),
            ),
        forall|j: int|
            0 <= j < mappings.len() ==> has_mirror(
                post.to_preprocess@,
                #[trigger] mappings[j],
                path,
            ),
        forall|k: int, s: PreprocessSection, j: int|
            #![trigger post.to_preprocess@[k].mappings.section_seq(s)[j]]
            0 <= k < post.to_preprocess@.len() && 0 <= j < post.to_preprocess@[k].mappings.section_seq(
                s,
            ).len() && !(k < pre.to_preprocess@.len() && j
                < pre.to_preprocess@[k].mappings.section_seq(s).len()) ==> exists|jj: int|
                0 <= jj < mappings.len() && mirrors(
                    mappings[jj],
                    path,
                    post.to_preprocess@[k].mappings.section_seq(s)[j],
                    post.to_preprocess@[k].path@,
                ),
    ensures
        post.inverse_consistent(),
{
    reveal(side_mirrored);
    // to-preprocess side: every record has a mirror on the from side.
    assert forall|k: int, s: PreprocessSection, j: int|
        #![trigger post.to_preprocess@[k].mappings.section_seq(s)[j]]
        0 <= k < post.to_preprocess@.len() && 0 <= j < post.to_preprocess@[k].mappings.section_seq(
            s,
        ).len() implies has_mirror(
        post.from_preprocess@,
        post.to_preprocess@[k].mappings.section_seq(s)[j],
        post.to_preprocess@[k].path@,
    ) by {
        let t = post.to_preprocess@[k].mappings.section_seq(s)[j];
        if k < pre.to_preprocess@.len() && j < pre.to_preprocess@[k].mappings.section_seq(s).len() {
            // An old record: its old mirror is still in place.
            assert(t == pre.to_preprocess@[k].mappings.section_seq(s)[j]);
            assert(has_mirror(pre.from_preprocess@, t, pre.to_preprocess@[k].path@));
            let (k2, idx): (int, int) = choose|k2: int, idx: int|
                0 <= k2 < pre.from_preprocess@.len() && pre.from_preprocess@[k2].path@
                    == t.dst_file@ && 0 <= idx < pre.from_preprocess@[k2].mappings.section_seq(
                    t.section,
                ).len() && mirrors(
                    t,
                    pre.to_preprocess@[k].path@,
                    pre.from_preprocess@[k2].mappings.section_seq(t.section)[idx],
                    pre.from_preprocess@[k2].path@,
                );
            assert(post.from_preprocess@[k2] == pre.from_preprocess@[k2]);
            assert(mirrors(
                t,
                post.to_preprocess@[k].path@,
                post.from_preprocess@[k2].mappings.section_seq(t.section)[idx],
                post.from_preprocess@[k2].path@,
            ));
        } else {
            // A freshly inserted record: it mirrors one of the new file's
            // records, which sits in the new last slot on the from side.
            let jj = choose|jj: int|
                0 <= jj < mappings.len() && mirrors(
                    mappings[jj],
                    path,
                    post.to_preprocess@[k].mappings.section_seq(s)[j],
                    post.to_preprocess@[k].path@,
                );
            let m = mappings[jj];
            lemma_mirrors_symmetric(m, path, t, post.to_preprocess@[k].path@);
            lemma_section_part_membership(mappings, m.section);
            assert(section_part(mappings, m.section).contains(m));
            let idx = choose|idx: int|
                0 <= idx < section_part(mappings, m.section).len() && section_part(
                    mappings,
                    m.section,
                )[idx] == m;
            let k2 = post.from_preprocess@.len() - 1;
            assert(t.section == m.section);
            assert(post.from_preprocess@[k2].path@ == path);
            assert(t.dst_file@ == path);
            assert(post.from_preprocess@[k2].mappings.section_seq(t.section)[idx] == m);
            assert(mirrors(
                t,
                post.to_preprocess@[k].path@,
                post.from_preprocess@[k2].mappings.section_seq(t.section)[idx],
                post.from_preprocess@[k2].path@,
            ));
        }
    }
    // from-preprocess side: every record has a mirror on the to side.
    assert forall|k: int, s: PreprocessSection, j: int|
        #![trigger post.from_preprocess@[k].mappings.section_seq(s)[j]]
        0 <= k < post.from_preprocess@.len() && 0 <= j
            < post.from_preprocess@[k].mappings.section_seq(s).len() implies has_mirror(
        post.to_preprocess@,
        post.from_preprocess@[k].mappings.section_seq(s)[j],
        post.from_preprocess@[k].path@,
    ) by {
        let m = post.from_preprocess@[k].mappings.section_seq(s)[j];
        if k < pre.from_preprocess@.len() {
            assert(post.from_preprocess@[k] == pre.from_preprocess@[k]);
            assert(pre.from_preprocess@[k].mappings.section_seq(s)[j] == m);
            assert(has_mirror(pre.to_preprocess@, m, pre.from_preprocess@[k].path@));
            let (k2, idx): (int, int) = choose|k2: int, idx: int|
                0 <= k2 < pre.to_preprocess@.len() && pre.to_preprocess@[k2].path@ == m.dst_file@
                    && 0 <= idx < pre.to_preprocess@[k2].mappings.section_seq(m.section).len()
                    && mirrors(
                    m,
                    pre.from_preprocess@[k].path@,
                    pre.to_preprocess@[k2].mappings.section_seq(m.section)[idx],
                    pre.to_preprocess@[k2].path@,
                );
            assert(seq_prefix(
                pre.to_preprocess@[k2].mappings.section_seq(m.section),
                post.to_preprocess@[k2].mappings.section_seq(m.section),
            ));
            assert(post.to_preprocess@[k2].mappings.section_seq(m.section)[idx]
                == pre.to_preprocess@[k2].mappings.section_seq(m.section)[idx]);
            assert(post.to_preprocess@[k2].path@ == pre.to_preprocess@[k2].path@);
            assert(mirrors(
                m,
                post.from_preprocess@[k].path@,
                post.to_preprocess@[k2].mappings.section_seq(m.section)[idx],
                post.to_preprocess@[k2].path@,
            ));
        } else {
            // A record of the new slot: it is one of the ingested records.
            assert(k == post.from_preprocess@.len() - 1);
            assert(post.from_preprocess@[k] == post.from_preprocess@.last());
            assert(post.from_preprocess@[k].mappings.section_seq(s) == section_part(mappings, s));
            lemma_section_part_membership(mappings, s);
            assert(mappings.contains(m));
            let jj = choose|jj: int| 0 <= jj < mappings.len() && mappings[jj] == m;
            assert(has_mirror(post.to_preprocess@, mappings[jj], path));
        }
    }
}

impl FiascoSourceMapping {
    /// Law: every recorded line mapping has its mirror image, with source
    /// and destination swapped, under its destination file on the opposite
    /// side of the database.
    pub proof fn lemma_inverse_maps(self, d: MapDirection, k: int, s: PreprocessSection, j: int)
        requires
            self.inverse_consistent(),
            0 <= k < self.side(d).len(),
            0 <= j < self.side(d)[k].mappings.section_seq(s).len(),
        ensures
            has_mirror(
                self.side(d.spec_opposite()),
                self.side(d)[k].mappings.section_seq(s)[j],
                self.side(d)[k].path@,
            ),
    {
        reveal(side_mirrored);
        match d {
            MapDirection::ToPreprocess => {
                assert(self.to_preprocess@[k].mappings.section_seq(s)[j] == self.side(d)[k].mappings.section_seq(s)[j]);
            },
            MapDirection::FromPreprocess => {
                assert(self.from_preprocess@[k].mappings.section_seq(s)[j] == self.side(d)[k].mappings.section_seq(s)[j]);
            },
        }
    }

    /// Law: a point translated one way comes back unchanged when the
    /// opposite query resolves through the same section.  The proviso is
    /// needed because section priority could otherwise pick an overlapping
    /// mapping from a higher-priority section at the translated point.
    pub proof fn lemma_round_trip(self, d: MapDirection, path: Seq<char>, line: u32)
        requires
            self.wf(),
            self.inverse_consistent(),
            has_entry(self.side(d), path),
            entry_for(self.side(d), path).chosen_section(line) is Some,
            ({
                let flm = entry_for(self.side(d), path);
                let pl = flm.image_of(line)->Some_0;
                has_entry(self.side(d.spec_opposite()), pl.0) ==> entry_for(
                    self.side(d.spec_opposite()),
                    pl.0,
                ).chosen_section(pl.1) == flm.chosen_section(line)
            }),
        ensures
            ({
                let pl = self.spec_map(d, path, line);
                self.spec_map(d.spec_opposite(), pl.0, pl.1) == (path, line)
            }),
    {
        let es = self.side(d);
        let os = self.side(d.spec_opposite());
        self.lemma_side_wf(d);
        self.lemma_side_wf(d.spec_opposite());
        let k = entry_index(es, path);
        let flm = es[k].mappings;
        assert(es[k].path@ == path);
        assert(flm.base_wf() && flm_separated(flm));
        let sec = flm.chosen_section(line)->Some_0;
        let ms = flm.section_seq(sec);
        lemma_flm_section_wf(flm, sec);
        assert(has_containing(ms, line)) by {
            match sec {
                PreprocessSection::NoSection => {},
                PreprocessSection::Interface => {},
                PreprocessSection::Implementation => {},
            }
        }
        let w = choose|i: int| 0 <= i < ms.len() && ms[i].spec_contains(line);
        let m = containing_mapping(ms, line);
        assert(m == ms[w]);
        assert(m.wf() && m.section == sec);
        let p2 = m.dst_file@;
        let l2 = m.image_line(line);
        assert(flm.image_of(line) == Some((p2, l2)));
        assert(self.spec_map(d, path, line) == (p2, l2));
        // The mirror record on the opposite side.
        self.lemma_inverse_maps(d, k, sec, w);
        let (k2, idx): (int, int) = choose|k2: int, idx: int|
            0 <= k2 < os.len() && os[k2].path@ == m.dst_file@ && 0 <= idx
                < os[k2].mappings.section_seq(m.section).len() && mirrors(
                m,
                es[k].path@,
                os[k2].mappings.section_seq(m.section)[idx],
                os[k2].path@,
            );
        let mir = os[k2].mappings.section_seq(m.section)[idx];
        assert(has_entry(os, p2));
        let k3 = entry_index(os, p2);
        assert(os[k3].path@ == p2);
        assert(k3 == k2) by {
            if k3 != k2 {
                assert(os[k3].path@ == os[k2].path@);
            }
        }
        let flm2 = os[k2].mappings;
        assert(flm2.base_wf() && flm_separated(flm2));
        lemma_flm_section_wf(flm2, sec);
        let ms2 = flm2.section_seq(sec);
        assert(mir.spec_contains(l2)) by {
            assert(mir.src_line == m.dst_line);
            assert(mir.src_end_line == m.dst_line + (m.src_end_line - m.src_line));
            assert(m.src_line <= line < m.src_end_line);
        }
        assert(has_containing(ms2, l2)) by {
            assert(ms2[idx] == mir);
            assert(ms2[idx].spec_contains(l2));
        }
        assert(flm2.chosen_section(l2) == Some(sec));
        let w2 = choose|i: int| 0 <= i < ms2.len() && ms2[i].spec_contains(l2);
        lemma_containing_unique(ms2, l2, w2, idx);
        assert(containing_mapping(ms2, l2) == mir);
        assert(flm2.image_of(l2) == Some((mir.dst_file@, mir.image_line(l2))));
        assert(mir.dst_file@ == path);
        assert(mir.image_line(l2) == line) by {
            assert(mir.dst_line == m.src_line);
            assert(l2 == m.dst_line + (line - m.src_line));
        }
        assert(self.spec_map(d.spec_opposite(), p2, l2) == (path, line));
    }

    /// Both well-formedness halves of one side of the database.
    pub proof fn lemma_side_wf(self, d: MapDirection)
        requires
            self.wf(),
        ensures
            entries_base_wf(self.side(d)),
            entries_separated(self.side(d)),
    {
        match d {
            MapDirection::ToPreprocess => {},
            MapDirection::FromPreprocess => {},
        }
    }
}

/// Every section list of the slot is internally non-overlapping.
pub open spec fn flm_separated(flm: FileLineMappings) -> bool {
    separated(flm.no_section@) && separated(flm.interface@) && separated(flm.implementation@)
}

/// One section list of a well-formed slot, with its record facts.
pub proof fn lemma_flm_section_wf(flm: FileLineMappings, sec: PreprocessSection)
    requires
        flm.base_wf(),
        flm_separated(flm),
    ensures
        all_wf(flm.section_seq(sec)),
        separated(flm.section_seq(sec)),
        forall|j: int|
            0 <= j < flm.section_seq(sec).len() ==> (#[trigger] flm.section_seq(sec)[j]).section
                == sec,
{
    match sec {
        PreprocessSection::NoSection => {},
        PreprocessSection::Interface => {},
        PreprocessSection::Implementation => {},
    }
}

} // verus!

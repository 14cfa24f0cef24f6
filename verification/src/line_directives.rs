//! Parsing the preprocessor's markers out of a preprocessed file.
//!
//! A preprocessed translation unit carries `#line N "PATH"` directives where
//! content copied from an author file begins, `// INTERFACE` and
//! `// IMPLEMENTATION` markers at section boundaries (each followed by five
//! synthetic lines), `private: // EXTENSION` markers (three synthetic
//! lines), and a closing `#endif` naming the file itself with `+`, `-` and
//! `.` replaced by `_`.  A small state machine walks the lines and produces
//! the [`LineMapping`] records the mapping database is built from.

use vstd::prelude::*;
use vstd::string::StrSliceExecFns;

use crate::source_mapping::{LineMapping, LineMappingModel, PreprocessSection, all_wf, mappings_view};
use crate::util::{spec_starts_with, str_starts_with};

verus! {

/// A decimal digit.
pub open spec fn spec_is_digit(c: char) -> bool {
    '0' <= c && c <= '9'
}

/// The numeric value of a digit character.
pub open spec fn digit_val(c: char) -> int {
    c as int - '0' as int
}

/// The first index at or after `i` that does not hold a digit.
pub open spec fn digits_end(l: Seq<char>, i: int) -> int
    decreases l.len() - i,
{
    if i < 0 || i >= l.len() {
        i
    } else if spec_is_digit(l[i]) {
        digits_end(l, i + 1)
    } else {
        i
    }
}

/// The value of the digit run `l[from..to]`.
pub open spec fn digits_value(l: Seq<char>, from: int, to: int) -> int
    decreases to - from,
{
    if to <= from {
        0
    } else {
        digits_value(l, from, to - 1) * 10 + digit_val(l[to - 1])
    }
}

/// A digit run's value is never negative.
pub proof fn lemma_digits_value_nonneg(l: Seq<char>, from: int, to: int)
    requires
        forall|j: int| from <= j < to ==> spec_is_digit(#[trigger] l[j]),
    ensures
        digits_value(l, from, to) >= 0,
    decreases to - from,
{
    if to > from {
        lemma_digits_value_nonneg(l, from, to - 1);
    }
}

/// A scan that saw digits up to `i` and a non-digit (or the end) at `i` has
/// found the end of the run.
pub proof fn lemma_digits_end_at(l: Seq<char>, from: int, i: int)
    requires
        0 <= from <= i <= l.len(),
        forall|j: int| from <= j < i ==> spec_is_digit(#[trigger] l[j]),
        i == l.len() || !spec_is_digit(l[i]),
    ensures
        digits_end(l, from) == i,
    decreases i - from,
{
    if from < i {
        lemma_digits_end_at(l, from + 1, i);
    }
}

/// The directive's line number as a `u32`: values that do not fit fall back
/// to one, as a failed numeric conversion does in the surrounding tooling.
pub open spec fn clamp_line_number(v: int) -> u32 {
    if v > u32::MAX {
        1u32
    } else {
        v as u32
    }
}

/// The zero-based destination line a directive with value `v` opens at.
pub open spec fn directive_dst(v: int) -> u32 {
    let n = clamp_line_number(v);
    if n == 0 {
        0u32
    } else {
        (n - 1) as u32
    }
}

/// What `#line N "PATH"` parses to: the value of `N` and `PATH`.  The line
/// must consist of exactly the prefix, a non-empty digit run, one space, and
/// a non-empty quoted path reaching to the end of the line.
pub open spec fn spec_parse_line_directive(l: Seq<char>) -> Option<(int, Seq<char>)> {
    let p = "#line "@;
    if !spec_starts_with(l, p) {
        None
    } else {
        let d1 = digits_end(l, p.len() as int);
        if d1 == p.len() {
            None
        } else if l.len() < d1 + 4 {
            None
        } else if l[d1] != ' ' {
            None
        } else if l[d1 + 1] != '"' {
            None
        } else if l[l.len() - 1] != '"' {
            None
        } else {
            Some((digits_value(l, p.len() as int, d1), l.subrange(d1 + 2, l.len() - 1)))
        }
    }
}

/// Parse a `#line` directive, returning the clamped line number and path.
pub fn parse_line_directive(line: &str) -> (r: Option<(u32, String)>)
    ensures
        r is Some <==> spec_parse_line_directive(line@) is Some,
        r matches Some(np) ==> spec_parse_line_directive(line@) matches Some(sp) && np.0
            == clamp_line_number(sp.0) && np.1@ == sp.1,
{
    let len = line.unicode_len();
    if !str_starts_with(line, "#line ") {
        return None;
    }
    let d0 = "#line ".unicode_len();
    let ghost l = line@;
    // Scan the digit run, accumulating its value with saturation just above
    // the largest representable line number.
    let mut i = d0;
    let mut acc: u64 = 0;
    while i < len
        invariant
            d0 == "#line "@.len(),
            d0 <= i <= len,
            len == l.len(),
            l == line@,
            forall|j: int| d0 <= j < i ==> spec_is_digit(#[trigger] l[j]),
            digits_value(l, d0 as int, i as int) <= u32::MAX ==> acc == digits_value(
                l,
                d0 as int,
                i as int,
            ),
            digits_value(l, d0 as int, i as int) > u32::MAX ==> acc == u32::MAX as u64 + 1,
            acc <= u32::MAX as u64 + 1,
        ensures
            d0 <= i <= len,
            forall|j: int| d0 <= j < i ==> spec_is_digit(#[trigger] l[j]),
            i == len || !spec_is_digit(l[i as int]),
            digits_value(l, d0 as int, i as int) <= u32::MAX ==> acc == digits_value(
                l,
                d0 as int,
                i as int,
            ),
            digits_value(l, d0 as int, i as int) > u32::MAX ==> acc == u32::MAX as u64 + 1,
        decreases len - i,
    {
        let c = line.get_char(i);
        if !('0' <= c && c <= '9') {
            break;
        }
        let d: u64 = (c as u32 - '0' as u32) as u64;
        proof {
            lemma_digits_value_nonneg(l, d0 as int, i as int);
            assert(digits_value(l, d0 as int, i + 1) == digits_value(l, d0 as int, i as int) * 10
                + digit_val(l[i as int]));
        }
        let next = acc * 10 + d;
        if next > u32::MAX as u64 {
            acc = u32::MAX as u64 + 1;
        } else {
            acc = next;
        }
        i += 1;
    }
    proof {
        lemma_digits_end_at(l, d0 as int, i as int);
    }
    if i == d0 {
        return None;
    }
    if len - i < 4 {
        return None;
    }
    if line.get_char(i) != ' ' {
        return None;
    }
    if line.get_char(i + 1) != '"' {
        return None;
    }
    if line.get_char(len - 1) != '"' {
        return None;
    }
    let n: u32 = if acc > u32::MAX as u64 {
        1
    } else {
        acc as u32
    };
    let path = line.substring_char(i + 2, len - 1).to_owned();
    proof {
        lemma_digits_value_nonneg(l, d0 as int, i as int);
    }
    Some((n, path))
}

/// A file name character as it appears in the `#endif` marker: the
/// preprocessor writes `+`, `-` and `.` as `_`.
pub open spec fn sanitize_char(c: char) -> char {
    if c == '+' || c == '-' || c == '.' {
        '_'
    } else {
        c
    }
}

/// The line closes the file: it starts with `#endif // ` followed by the
/// sanitized file name.
pub open spec fn spec_is_endif(l: Seq<char>, name: Seq<char>) -> bool {
    let p = "#endif // "@;
    &&& l.len() >= p.len() + name.len()
    &&& l.subrange(0, p.len() as int) == p
    &&& forall|j: int| 0 <= j < name.len() ==> l[p.len() + j] == sanitize_char(#[trigger] name[j])
}

/// Whether `line` is the closing `#endif` marker for the file `name`.
pub fn is_endif_line(line: &str, name: &str) -> (r: bool)
    ensures
        r == spec_is_endif(line@, name@),
{
    let p_len = "#endif // ".unicode_len();
    if !str_starts_with(line, "#endif // ") {
        proof {
            if spec_is_endif(line@, name@) {
                assert(spec_starts_with(line@, "#endif // "@));
            }
        }
        return false;
    }
    let len = line.unicode_len();
    let n_len = name.unicode_len();
    if len - p_len < n_len {
        return false;
    }
    let mut j: usize = 0;
    while j < n_len
        invariant
            p_len == "#endif // "@.len(),
            n_len == name@.len(),
            len == line@.len(),
            len >= p_len + n_len,
            j <= n_len,
            forall|k: int| 0 <= k < j ==> line@[p_len + k] == sanitize_char(#[trigger] name@[k]),
        decreases n_len - j,
    {
        let c = name.get_char(j);
        let want = if c == '+' || c == '-' || c == '.' {
            '_'
        } else {
            c
        };
        if line.get_char(p_len + j) != want {
            return false;
        }
        j += 1;
    }
    true
}


/// The walker's state between lines: the current section, the records so
/// far, the count of synthetic lines to exclude from the next close, and
/// whether the closing `#endif` was seen.
pub struct ExtractState {
    pub section: PreprocessSection,
    pub mappings: Seq<LineMappingModel>,
    pub offset: u32,
    pub done: bool,
}

/// `a - b`, stopped at zero.
pub open spec fn sub_floor(a: int, b: int) -> int {
    if a - b < 0 {
        0int
    } else {
        a - b
    }
}

/// The end line for the most recent record: at least its own start, and
/// small enough that every image line fits in `u32`.
pub open spec fn clamp_end(m: LineMappingModel, e: int) -> u32 {
    let cap = m.src_line + (u32::MAX - m.dst_line);
    let e2 = if e > cap {
        cap
    } else {
        e
    };
    if e2 < m.src_line {
        m.src_line
    } else {
        e2 as u32
    }
}

/// Close the most recent record at line `e`, if there is one.
pub open spec fn spec_close(ms: Seq<LineMappingModel>, e: int) -> Seq<LineMappingModel> {
    if ms.len() == 0 {
        ms
    } else {
        ms.update(
            ms.len() - 1,
            LineMappingModel { src_end_line: clamp_end(ms.last(), e), ..ms.last() },
        )
    }
}

/// The record a directive at line `l` opens: content starts on the next
/// line, the destination line is the directive's value less one.
pub open spec fn opened_mapping(section: PreprocessSection, l: u32, v: int, path: Seq<char>) -> LineMappingModel {
    LineMappingModel {
        section,
        src_line: (l + 1) as u32,
        src_end_line: (l + 1) as u32,
        dst_file: path,
        dst_line: directive_dst(v),
    }
}

/// One step of the walker on the line `line` at zero-based index `l`.
pub open spec fn spec_extract_step(
    name: Seq<char>,
    st: ExtractState,
    l: u32,
    line: Seq<char>,
) -> ExtractState {
    if st.done {
        st
    } else if spec_parse_line_directive(line) is Some {
        let (v, path) = spec_parse_line_directive(line)->Some_0;
        ExtractState {
            section: st.section,
            mappings: spec_close(st.mappings, sub_floor(l as int, st.offset + 1)).push(
                opened_mapping(st.section, l, v, path),
            ),
            offset: 0,
            done: false,
        }
    } else if spec_starts_with(line, "// INTERFACE"@) {
        ExtractState {
            section: PreprocessSection::Interface,
            mappings: spec_close(st.mappings, l as int),
            offset: 5,
            done: false,
        }
    } else if spec_starts_with(line, "// IMPLEMENTATION"@) {
        ExtractState {
            section: PreprocessSection::Implementation,
            mappings: spec_close(st.mappings, l as int),
            offset: 5,
            done: false,
        }
    } else if spec_starts_with(line, "private: // EXTENSION"@) {
        ExtractState { offset: 3, ..st }
    } else if spec_is_endif(line, name) {
        ExtractState {
            mappings: spec_close(st.mappings, sub_floor(l as int - 1, st.offset as int)),
            done: true,
            ..st
        }
    } else {
        st
    }
}

/// The walker's state after the first `i` lines.
pub open spec fn spec_run(name: Seq<char>, lines: Seq<Seq<char>>, i: int) -> ExtractState
    decreases i,
{
    if i <= 0 {
        ExtractState {
            section: PreprocessSection::NoSection,
            mappings: Seq::empty(),
            offset: 0,
            done: false,
        }
    } else {
        spec_extract_step(name, spec_run(name, lines, i - 1), (i - 1) as u32, lines[i - 1])
    }
}

/// Once the walker has stopped, further lines change nothing.
pub proof fn lemma_run_done(name: Seq<char>, lines: Seq<Seq<char>>, i: int, j: int)
    requires
        0 <= i <= j,
        spec_run(name, lines, i).done,
    ensures
        spec_run(name, lines, j) == spec_run(name, lines, i),
    decreases j - i,
{
    if i < j {
        lemma_run_done(name, lines, i, j - 1);
    }
}

/// What parsing the whole file yields: the walker's records, with the last
/// one closed at the final line if no `#endif` was seen.
pub open spec fn spec_extract(name: Seq<char>, lines: Seq<Seq<char>>) -> Seq<LineMappingModel> {
    let st = spec_run(name, lines, lines.len() as int);
    if st.done {
        st.mappings
    } else {
        spec_close(st.mappings, sub_floor(lines.len() - 1, st.offset as int))
    }
}

/// The views of the lines of a list of strings.
pub open spec fn lines_view(ls: Seq<String>) -> Seq<Seq<char>> {
    ls.map_values(|l: String| l@)
}

/// Close the most recent record of `mappings` at line `e`.
fn close_last(mappings: &mut Vec<LineMapping>, e: u32)
    ensures
        mappings_view(final(mappings)@) == spec_close(mappings_view(old(mappings)@), e as int),
        all_wf(old(mappings)@) ==> all_wf(final(mappings)@),
{
    let ghost pre = mappings@;
    if mappings.len() == 0 {
        proof {
            assert(mappings_view(pre).len() == 0);
        }
        return;
    }
    let mut m = match mappings.pop() {
        Some(m) => m,
        None => {
            proof {
                assert(false);
            }
            return;
        },
    };
    let cap: u64 = m.src_line as u64 + (u32::MAX - m.dst_line) as u64;
    let e2: u64 = if (e as u64) > cap {
        cap
    } else {
        e as u64
    };
    let end: u32 = if e2 < m.src_line as u64 {
        m.src_line
    } else {
        e2 as u32
    };
    m.src_end_line = end;
    mappings.push(m);
    proof {
        assert(m.src_end_line == clamp_end(pre.last()@, e as int));
        assert(m@ == LineMappingModel {
            src_end_line: clamp_end(mappings_view(pre).last(), e as int),
            ..mappings_view(pre).last()
        });
        assert(mappings_view(mappings@) =~= spec_close(mappings_view(pre), e as int));
        assert(m.wf());
        if all_wf(pre) {
            assert forall|j: int| 0 <= j < mappings@.len() implies (#[trigger] mappings@[j]).wf() by {
                if j < mappings@.len() - 1 {
                    assert(mappings@[j] == pre[j]);
                }
            }
        }
    }
}

/// Walk a preprocessed file called `name`, given as its lines, and return
/// the line mappings its markers describe.
pub fn extract_line_mappings(name: &str, lines: &Vec<String>) -> (r: Vec<LineMapping>)
    requires
        lines@.len() < u32::MAX,
    ensures
        mappings_view(r@) == spec_extract(name@, lines_view(lines@)),
        all_wf(r@),
{
    let ghost lv = lines_view(lines@);
    let mut mappings: Vec<LineMapping> = Vec::new();
    let mut section = PreprocessSection::NoSection;
    let mut offset: u32 = 0;
    let mut i: usize = 0;
    proof {
        assert(mappings_view(mappings@) =~= Seq::<LineMappingModel>::empty());
    }
    while i < lines.len()
        invariant
            lv == lines_view(lines@),
            lv.len() == lines@.len() < u32::MAX,
            i <= lines@.len(),
            !spec_run(name@, lv, i as int).done,
            section == spec_run(name@, lv, i as int).section,
            offset == spec_run(name@, lv, i as int).offset,
            mappings_view(mappings@) == spec_run(name@, lv, i as int).mappings,
            all_wf(mappings@),
        decreases lines@.len() - i,
    {
        let ghost st = spec_run(name@, lv, i as int);
        let line = &lines[i];
        proof {
            assert(lv[i as int] == line@);
            assert(spec_run(name@, lv, i + 1) == spec_extract_step(name@, st, i as u32, lv[i as int]));
        }
        if let Some((n, path)) = parse_line_directive(line.as_str()) {
            let e: u32 = if (i as u64) >= offset as u64 + 1 {
                i as u32 - offset - 1
            } else {
                0
            };
            proof {
                assert(e as int == sub_floor(i as int, offset + 1));
            }
            close_last(&mut mappings, e);
            let dst_line: u32 = if n == 0 {
                0
            } else {
                n - 1
            };
            let m = LineMapping {
                section,
                src_line: i as u32 + 1,
                src_end_line: i as u32 + 1,
                dst_file: path,
                dst_line,
            };
            proof {
                let sp = spec_parse_line_directive(line@)->Some_0;
                assert(m@ == opened_mapping(st.section, i as u32, sp.0, sp.1));
                assert(m.wf());
            }
            mappings.push(m);
            proof {
                assert(mappings_view(mappings@) =~= spec_run(name@, lv, i + 1).mappings);
                assert forall|j: int| 0 <= j < mappings@.len() implies (#[trigger] mappings@[j]).wf() by {
                    if j == mappings@.len() - 1 {
                        assert(mappings@[j] == m);
                    }
                }
            }
            offset = 0;
        } else if str_starts_with(line.as_str(), "// INTERFACE") {
            section = PreprocessSection::Interface;
            close_last(&mut mappings, i as u32);
            offset = 5;
            proof {
                assert(mappings_view(mappings@) == spec_run(name@, lv, i + 1).mappings);
            }
        } else if str_starts_with(line.as_str(), "// IMPLEMENTATION") {
            section = PreprocessSection::Implementation;
            close_last(&mut mappings, i as u32);
            offset = 5;
            proof {
                assert(mappings_view(mappings@) == spec_run(name@, lv, i + 1).mappings);
            }
        } else if str_starts_with(line.as_str(), "private: // EXTENSION") {
            offset = 3;
        } else if is_endif_line(line.as_str(), name) {
            let e: u32 = if (i as u64) >= 1 + offset as u64 {
                i as u32 - 1 - offset
            } else {
                0
            };
            proof {
                assert(e as int == sub_floor(i as int - 1, offset as int));
            }
            close_last(&mut mappings, e);
            proof {
                assert(spec_run(name@, lv, i + 1).done);
                assert(mappings_view(mappings@) == spec_run(name@, lv, i + 1).mappings);
                lemma_run_done(name@, lv, i + 1, lv.len() as int);
            }
            return mappings;
        }
        i += 1;
    }
    let e: u32 = if lines.len() > 0 {
        let last: usize = lines.len() - 1;
        if (last as u64) >= offset as u64 {
            last as u32 - offset
        } else {
            0
        }
    } else {
        0
    };
    proof {
        let st = spec_run(name@, lv, lv.len() as int);
        if lv.len() > 0 {
            assert(e as int == sub_floor(lv.len() - 1, st.offset as int));
        } else {
            assert(st.mappings.len() == 0);
        }
    }
    close_last(&mut mappings, e);
    mappings
}

} // verus!

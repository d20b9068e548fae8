//! A decoded Markdown document: its text, its line table, and the
//! headings that the line-based grammar finds in it.
use vstd::prelude::*;
use vstd::string::StringSliceAdditionalSpecFns;
use vstd::utf8::*;

use crate::error::InputError;
use crate::section::{spec_sections, SectionIndex};

use crate::text::{
    byte_range, chars_of, lead_count, lead_len, lemma_ascii_boundaries, starts_with1, starts_with2, starts_with3,
    starts_with, string_of_range, trail_count, trail_len, trim, trim_end, trim_end_range, trim_start,
    trim_start_range, trim_ws_range, utf8_str, CharClass,
};

verus! {

// ---------------------------------------------------------------------
// The line table
// ---------------------------------------------------------------------
/// Index of the first line feed at or after `i`, or the length when there is none.
pub open spec fn next_nl(b: Seq<u8>, i: int) -> int
    decreases b.len() - i,
{
    if i < 0 || i >= b.len() {
        b.len() as int
    } else if b[i] == 10 {
        i
    } else {
        next_nl(b, i + 1)
    }
}

pub proof fn lemma_next_nl(b: Seq<u8>, i: int)
    ensures
        0 <= i <= b.len() ==> i <= next_nl(b, i) <= b.len(),
        0 <= i <= b.len() ==> forall|k: int| i <= k < next_nl(b, i) ==> b[k] != 10,
        0 <= i <= b.len() && next_nl(b, i) < b.len() ==> b[next_nl(b, i)] == 10,
    decreases b.len() - i,
{
    if 0 <= i < b.len() && b[i] != 10 {
        lemma_next_nl(b, i + 1);
    }
}

proof fn lemma_next_nl_skip(b: Seq<u8>, a: int, c: int)
    requires
        0 <= a <= c <= b.len(),
        forall|k: int| a <= k < c ==> b[k] != 10,
    ensures
        next_nl(b, a) == next_nl(b, c),
    decreases c - a,
{
    if a < c {
        lemma_next_nl_skip(b, a + 1, c);
    }
}

/// The lines that start at byte `start`: each is
/// `(content start, content end, end including its line break)`, where the
/// content excludes a final `\n` or `\r\n`.
pub open spec fn spans_from(b: Seq<u8>, start: int) -> Seq<(int, int, int)>
    decreases b.len() - start,
{
    if start < 0 || start >= b.len() {
        seq![]
    } else {
        let i = next_nl(b, start);
        proof {
            lemma_next_nl(b, start);
        }
        if i < b.len() {
            let ce = if i > start && b[i - 1] == 13 {
                i - 1
            } else {
                i
            };
            seq![(start, ce, i + 1)] + spans_from(b, i + 1)
        } else {
            seq![(start, b.len() as int, b.len() as int)]
        }
    }
}

/// The line table of a text: lines end at `\n`, a `\r` before it is not
/// content, and a last line without a line break counts when it is not empty.
pub open spec fn line_spans(b: Seq<u8>) -> Seq<(int, int, int)> {
    spans_from(b, 0)
}

/// The facts about one entry of the line table.
pub open spec fn span_ok(b: Seq<u8>, sp: (int, int, int)) -> bool {
    &&& span_shape(b, sp)
    &&& is_char_boundary(b, sp.0)
    &&& is_char_boundary(b, sp.1)
    &&& is_char_boundary(b, sp.2)
}

/// The placement of one line and its break, leaving character boundaries aside.
pub open spec fn span_shape(b: Seq<u8>, sp: (int, int, int)) -> bool {
    &&& 0 <= sp.0 <= sp.1 <= sp.2 <= b.len()
    &&& sp.0 < sp.2
    &&& forall|k: int| sp.0 <= k < sp.1 ==> b[k] != 10
    &&& (sp.2 == sp.1 ==> sp.2 == b.len())
    &&& (sp.2 == sp.1 + 1 ==> b[sp.1] == 10 && (sp.1 == sp.0 || b[sp.1 - 1] != 13))
    &&& (sp.2 == sp.1 + 2 ==> b[sp.1] == 13 && b[sp.1 + 1] == 10)
    &&& sp.2 <= sp.1 + 2
}

/// Lines placed one after the other.
pub open spec fn spans_chain(b: Seq<u8>, sps: Seq<(int, int, int)>) -> bool {
    &&& forall|k: int| 0 <= k < sps.len() ==> span_shape(b, #[trigger] sps[k])
    &&& forall|k: int| 0 <= k < sps.len() - 1 ==> (#[trigger] sps[k]).2 == sps[k + 1].0
}

/// The lines cover the text from `start` to the end, one after the other.
pub open spec fn spans_cover(b: Seq<u8>, sps: Seq<(int, int, int)>, start: int) -> bool {
    &&& (sps.len() == 0 <==> start == b.len())
    &&& (sps.len() > 0 ==> sps[0].0 == start && sps.last().2 == b.len())
    &&& forall|k: int| 0 <= k < sps.len() ==> span_ok(b, #[trigger] sps[k])
    &&& forall|k: int| 0 <= k < sps.len() - 1 ==> (#[trigger] sps[k]).2 == sps[k + 1].0
}

proof fn lemma_spans_from(b: Seq<u8>, start: int)
    requires
        valid_utf8(b),
        0 <= start <= b.len(),
        start == 0 || b[start - 1] == 10,
    ensures
        spans_cover(b, spans_from(b, start), start),
    decreases b.len() - start,
{
    broadcast use vstd::utf8::is_char_boundary_start_end_of_seq;

    if start < b.len() {
        if start > 0 {
            lemma_ascii_boundaries(b, start - 1);
        }
        let i = next_nl(b, start);
        lemma_next_nl(b, start);
        let sps = spans_from(b, start);
        if i < b.len() {
            lemma_ascii_boundaries(b, i);
            let ce = if i > start && b[i - 1] == 13 {
                i - 1
            } else {
                i
            };
            if ce == i - 1 {
                lemma_ascii_boundaries(b, i - 1);
            }
            lemma_spans_from(b, i + 1);
            let rest = spans_from(b, i + 1);
            assert(span_ok(b, (start, ce, i + 1)));
            assert(sps == seq![(start, ce, i + 1)] + rest);
            assert forall|k: int| 0 <= k < sps.len() implies span_ok(b, #[trigger] sps[k]) by {
                if k > 0 {
                    assert(sps[k] == rest[k - 1]);
                }
            }
            assert forall|k: int| 0 <= k < sps.len() - 1 implies (#[trigger] sps[k]).2 == sps[k
                + 1].0 by {
                if k > 0 {
                    assert(sps[k] == rest[k - 1]);
                }
            }
        } else {
            assert(span_ok(b, (start, b.len() as int, b.len() as int)));
        }
    }
}

/// Every line of a valid UTF-8 text is well placed, and the lines cover the text.
pub proof fn lemma_line_spans(b: Seq<u8>)
    requires
        valid_utf8(b),
    ensures
        spans_cover(b, line_spans(b), 0),
{
    lemma_spans_from(b, 0);
}

/// Number of line feeds.
pub open spec fn newline_count(b: Seq<u8>) -> nat
    decreases b.len(),
{
    if b.len() == 0 {
        0
    } else {
        newline_count(b.drop_last()) + if b.last() == 10 {
            1nat
        } else {
            0nat
        }
    }
}

/// Number of lines that `str::lines` yields for a text with these bytes: one
/// per line feed, and one more for a last line without one.
pub open spec fn lines_count(b: Seq<u8>) -> nat {
    newline_count(b) + if b.len() > 0 && b.last() != 10 {
        1nat
    } else {
        0nat
    }
}

proof fn lemma_newline_count_bound(b: Seq<u8>)
    ensures
        newline_count(b) <= b.len(),
    decreases b.len(),
{
    if b.len() > 0 {
        lemma_newline_count_bound(b.drop_last());
    }
}

pub proof fn lemma_lines_count_bound(b: Seq<u8>)
    ensures
        lines_count(b) <= b.len(),
{
    if b.len() > 0 {
        lemma_newline_count_bound(b.drop_last());
    }
}

proof fn lemma_newline_count_concat(a: Seq<u8>, b: Seq<u8>)
    ensures
        newline_count(a + b) == newline_count(a) + newline_count(b),
    decreases b.len(),
{
    if b.len() > 0 {
        lemma_newline_count_concat(a, b.drop_last());
        assert((a + b).drop_last() =~= a + b.drop_last());
    } else {
        assert(a + b =~= a);
    }
}

proof fn lemma_newline_count_none(b: Seq<u8>)
    requires
        forall|k: int| 0 <= k < b.len() ==> b[k] != 10,
    ensures
        newline_count(b) == 0,
    decreases b.len(),
{
    if b.len() > 0 {
        lemma_newline_count_none(b.drop_last());
    }
}

/// The bytes of lines `s..=e` of a line table hold `e - s + 1` lines, and
/// end with a line feed exactly when line `e` has a line break.
proof fn lemma_run_lines_count(b: Seq<u8>, sps: Seq<(int, int, int)>, s: int, e: int)
    requires
        spans_chain(b, sps),
        1 <= s <= e <= sps.len(),
    ensures
        lines_count(b.subrange(sps[s - 1].0, sps[e - 1].2)) == e - s + 1,
        b.subrange(sps[s - 1].0, sps[e - 1].2).len() > 0,
        (b.subrange(sps[s - 1].0, sps[e - 1].2).last() == 10) <==> (sps[e - 1].2 > sps[e - 1].1),
        sps[s - 1].0 < sps[e - 1].2,
    decreases e - s,
{
    let last_span = sps[e - 1];
    lemma_span_newlines(b, last_span);
    if s < e {
        lemma_run_lines_count(b, sps, s, e - 1);
        let prev = sps[e - 2];
        assert(span_shape(b, prev));
        assert(prev.2 == last_span.0);
        let a = sps[s - 1].0;
        lemma_subrange_split(b, a, last_span.0, last_span.2);
        lemma_lines_count_append(b.subrange(a, last_span.0), b.subrange(last_span.0, last_span.2));
    }
}

proof fn lemma_subrange_split(b: Seq<u8>, i: int, j: int, k: int)
    requires
        0 <= i <= j <= k <= b.len(),
    ensures
        b.subrange(i, k) == b.subrange(i, j) + b.subrange(j, k),
{
    assert(b.subrange(i, k) =~= b.subrange(i, j) + b.subrange(j, k));
}

/// Appending one line to text that ends with a line feed adds one line.
proof fn lemma_lines_count_append(first: Seq<u8>, last: Seq<u8>)
    requires
        first.len() > 0,
        first.last() == 10,
        last.len() > 0,
        newline_count(last) == if last.last() == 10 {
            1nat
        } else {
            0nat
        },
    ensures
        lines_count(first + last) == lines_count(first) + 1,
        (first + last).len() > 0,
        (first + last).last() == last.last(),
{
    lemma_newline_count_concat(first, last);
}

/// One line, with its break, holds one line feed exactly when it has a break,
/// and then ends with it.
proof fn lemma_span_newlines(b: Seq<u8>, sp: (int, int, int))
    requires
        span_shape(b, sp),
    ensures
        newline_count(b.subrange(sp.0, sp.2)) == if sp.2 > sp.1 {
            1nat
        } else {
            0nat
        },
        b.subrange(sp.0, sp.2).len() > 0,
        (b.subrange(sp.0, sp.2).last() == 10) <==> (sp.2 > sp.1),
{
    let all = b.subrange(sp.0, sp.2);
    let content = b.subrange(sp.0, sp.1);
    let brk = b.subrange(sp.1, sp.2);
    assert(all =~= content + brk);
    lemma_newline_count_concat(content, brk);
    lemma_newline_count_none(content);
    if sp.2 == sp.1 {
        assert(brk.len() == 0);
        assert(newline_count(brk) == 0);
        assert(all.last() == b[sp.1 - 1]);
    } else if sp.2 == sp.1 + 1 {
        assert(brk.drop_last() =~= Seq::<u8>::empty());
        assert(newline_count(brk.drop_last()) == 0);
        assert(brk.last() == 10);
        assert(newline_count(brk) == 1);
    } else {
        assert(brk.drop_last().drop_last() =~= Seq::<u8>::empty());
        assert(newline_count(brk.drop_last().drop_last()) == 0);
        assert(brk.drop_last().last() == 13);
        assert(newline_count(brk.drop_last()) == 0);
        assert(brk.last() == 10);
        assert(newline_count(brk) == 1);
    }
}

#[derive(Debug, PartialEq, Eq)]
struct LineRange {
    content_start: usize,
    content_end: usize,
    full_end: usize,
}

spec fn range_views(v: Seq<LineRange>) -> Seq<(int, int, int)> {
    v.map_values(|r: LineRange| (r.content_start as int, r.content_end as int, r.full_end as int))
}

fn index_lines(source: &str) -> (lines: Vec<LineRange>)
    ensures
        range_views(lines@) == line_spans(source.spec_bytes()),
{
    let bytes = source.as_bytes();
    let ghost b = bytes@;
    let mut lines: Vec<LineRange> = Vec::new();
    let mut line_start: usize = 0;
    let mut idx: usize = 0;
    while idx < bytes.len()
        invariant
            b == bytes@,
            b == source.spec_bytes(),
            line_start <= idx <= b.len(),
            forall|k: int| line_start <= k < idx ==> b[k] != 10,
            range_views(lines@) + spans_from(b, line_start as int) == spans_from(b, 0),
        decreases bytes.len() - idx,
    {
        if bytes[idx] == 10u8 {
            let content_end = if idx > line_start && bytes[idx - 1] == 13u8 {
                idx - 1
            } else {
                idx
            };
            proof {
                lemma_next_nl_skip(b, line_start as int, idx as int);
                assert(next_nl(b, line_start as int) == idx);
            }
            let ghost old_lines = lines@;
            lines.push(LineRange { content_start: line_start, content_end, full_end: idx + 1 });
            proof {
                assert(range_views(lines@) =~= range_views(old_lines).push(
                    (line_start as int, content_end as int, idx + 1),
                ));
                assert(range_views(lines@) + spans_from(b, idx + 1) =~= range_views(old_lines)
                    + spans_from(b, line_start as int));
            }
            line_start = idx + 1;
        }
        idx += 1;
    }
    proof {
        lemma_next_nl_skip(b, line_start as int, idx as int);
    }
    if line_start < bytes.len() {
        let ghost old_lines = lines@;
        lines.push(
            LineRange { content_start: line_start, content_end: bytes.len(), full_end: bytes.len() },
        );
        proof {
            assert(range_views(lines@) =~= range_views(old_lines) + spans_from(
                b,
                line_start as int,
            ));
        }
    } else {
        assert(range_views(lines@) =~= range_views(lines@) + spans_from(b, line_start as int));
    }
    lines
}

// ---------------------------------------------------------------------
// Line grammar
// ---------------------------------------------------------------------
/// Number of leading spaces.
pub open spec fn indent_of(line: Seq<char>) -> nat {
    lead_len(line, CharClass::Is(' '))
}

/// An ATX heading's text without its closing run of `#`.
pub open spec fn spec_strip_atx_closing(content: Seq<char>) -> Seq<char> {
    let t = trim_end(content);
    let h = trail_len(t, CharClass::Is('#'));
    if h == 0 {
        t
    } else {
        let w = t.take(t.len() - h);
        if w.len() > 0 && (w.last() == ' ' || w.last() == '\t') {
            trim_end(w)
        } else {
            t
        }
    }
}

/// An ATX heading line: up to 3 spaces, 1 to 6 `#`, then nothing or a space
/// or tab; gives the level and the title.
pub open spec fn spec_parse_atx(line: Seq<char>) -> Option<(u8, Seq<char>)> {
    let indent = indent_of(line);
    if indent > 3 {
        None
    } else {
        let t = line.skip(indent as int);
        let m = lead_len(t, CharClass::Is('#'));
        if m == 0 || m > 6 {
            None
        } else {
            let rest = t.skip(m as int);
            if rest.len() > 0 && rest[0] != ' ' && rest[0] != '\t' {
                None
            } else {
                Some((m as u8, spec_strip_atx_closing(trim(rest))))
            }
        }
    }
}

/// A setext underline: up to 3 spaces, then only `=` (level 1) or only `-` (level 2)
/// around optional whitespace.
pub open spec fn spec_setext_underline(line: Seq<char>) -> Option<u8> {
    if indent_of(line) > 3 {
        None
    } else {
        let t = trim(line);
        if t.len() == 0 {
            None
        } else if lead_len(t, CharClass::Is('=')) == t.len() {
            Some(1)
        } else if lead_len(t, CharClass::Is('-')) == t.len() {
            Some(2)
        } else {
            None
        }
    }
}

/// A list item marker at the start: `- `, `* `, `+ `, or digits, `.` and a space.
pub open spec fn spec_list_marker(l: Seq<char>) -> bool {
    ||| starts_with(l, seq!['-', ' '])
    ||| starts_with(l, seq!['*', ' '])
    ||| starts_with(l, seq!['+', ' '])
    ||| {
        let d = lead_len(l, CharClass::Digit);
        &&& 0 < d < l.len()
        &&& l[d as int] == '.'
        &&& starts_with(l.skip(d as int + 1), seq![' '])
    }
}

/// A line that can be the text of a setext heading: not blank, at most 3
/// spaces of indent, and not a quote, fence, ATX heading or list item.
pub open spec fn spec_setext_text(line: Seq<char>) -> bool {
    let t = trim_start(line);
    &&& trim(line).len() != 0
    &&& indent_of(line) <= 3
    &&& !starts_with(t, seq!['>'])
    &&& !starts_with(t, seq!['`', '`', '`'])
    &&& !starts_with(t, seq!['~', '~', '~'])
    &&& spec_parse_atx(line) is None
    &&& !spec_list_marker(t)
}

pub open spec fn atx_view(r: Option<(u8, String)>) -> Option<(u8, Seq<char>)> {
    match r {
        Some((l, t)) => Some((l, t@)),
        None => None,
    }
}

/// Bounds of the title without its closing sequence, within `line[a..b]`.
fn strip_atx_closing_sequence(line: &[char], a: usize, b: usize) -> (r: (usize, usize))
    requires
        a <= b <= line@.len(),
    ensures
        a <= r.0 <= r.1 <= b,
        line@.subrange(r.0 as int, r.1 as int) == spec_strip_atx_closing(
            line@.subrange(a as int, b as int),
        ),
{
    let te = trim_end_range(line, a, b);
    let h = trail_count(line, a, te, CharClass::Is('#'));
    let ghost t = line@.subrange(a as int, te as int);
    if h == 0 {
        return (a, te);
    }
    let we = te - h;
    proof {
        assert(t.take(t.len() - h) =~= line@.subrange(a as int, we as int));
    }
    if we > a && (line[we - 1] == ' ' || line[we - 1] == '\t') {
        let e = trim_end_range(line, a, we);
        (a, e)
    } else {
        (a, te)
    }
}

fn parse_atx_heading(line: &[char]) -> (r: Option<(u8, String)>)
    ensures
        atx_view(r) == spec_parse_atx(line@),
{
    let len = line.len();
    let indent = lead_count(line, 0, len, CharClass::Is(' '));
    proof {
        assert(line@.subrange(0, len as int) =~= line@);
    }
    if indent > 3 {
        return None;
    }
    let marker_len = lead_count(line, indent, len, CharClass::Is('#'));
    proof {
        assert(line@.subrange(indent as int, len as int) =~= line@.skip(indent as int));
    }
    if marker_len == 0 || marker_len > 6 {
        return None;
    }
    let rest = indent + marker_len;
    proof {
        let t = line@.skip(indent as int);
        assert(t.skip(marker_len as int) =~= line@.subrange(rest as int, len as int));
    }
    if rest < len && line[rest] != ' ' && line[rest] != '\t' {
        return None;
    }
    let (a, b) = trim_ws_range(line, rest, len);
    let (x, y) = strip_atx_closing_sequence(line, a, b);
    Some((marker_len as u8, string_of_range(line, x, y)))
}

fn parse_setext_underline(line: &[char]) -> (r: Option<u8>)
    ensures
        r == spec_setext_underline(line@),
{
    let len = line.len();
    let indent = lead_count(line, 0, len, CharClass::Is(' '));
    proof {
        assert(line@.subrange(0, len as int) =~= line@);
    }
    if indent > 3 {
        return None;
    }
    let (a, b) = trim_ws_range(line, 0, len);
    if a == b {
        return None;
    }
    if lead_count(line, a, b, CharClass::Is('=')) == b - a {
        return Some(1);
    }
    if lead_count(line, a, b, CharClass::Is('-')) == b - a {
        return Some(2);
    }
    None
}

/// Whether `line[from..to]` starts with a list item marker.
pub(crate) fn matches_list_marker(line: &[char], from: usize, to: usize) -> (r: bool)
    requires
        from <= to <= line@.len(),
    ensures
        r == spec_list_marker(line@.subrange(from as int, to as int)),
{
    let ghost l = line@.subrange(from as int, to as int);
    if starts_with2(line, from, to, '-', ' ') || starts_with2(line, from, to, '*', ' ')
        || starts_with2(line, from, to, '+', ' ') {
        return true;
    }
    let digits = lead_count(line, from, to, CharClass::Digit);
    if digits < to - from {
        let ch = line[from + digits];
        proof {
            assert(l[digits as int] == ch);
        }
        if digits > 0 && ch == '.' {
            proof {
                assert(l.skip(digits as int + 1) =~= line@.subrange(from + digits + 1, to as int));
            }
            starts_with1(line, from + digits + 1, to, ' ')
        } else {
            false
        }
    } else {
        false
    }
}

fn is_setext_heading_text(line: &[char]) -> (r: bool)
    ensures
        r == spec_setext_text(line@),
{
    let len = line.len();
    proof {
        assert(line@.subrange(0, len as int) =~= line@);
    }
    let (a, b) = trim_ws_range(line, 0, len);
    if a == b {
        return false;
    }
    let indent = lead_count(line, 0, len, CharClass::Is(' '));
    if indent > 3 {
        return false;
    }
    let t = trim_start_range(line, 0, len);
    if starts_with1(line, t, len, '>') {
        return false;
    }
    if starts_with3(line, t, len, '`', '`', '`') || starts_with3(line, t, len, '~', '~', '~') {
        return false;
    }
    if parse_atx_heading(line).is_some() {
        return false;
    }
    if matches_list_marker(line, t, len) {
        return false;
    }
    true
}

// ---------------------------------------------------------------------
// Headings
// ---------------------------------------------------------------------
#[derive(Clone, Copy, Debug, PartialEq, Eq, Structural)]
pub enum HeadingKind {
    Atx,
    Setext,
}

/// A heading with its level, title, line range and byte offsets.
#[derive(Clone, Debug, PartialEq, Eq)]
pub struct Heading {
    pub kind: HeadingKind,
    pub level: u8,
    pub title: String,
    pub start_line: usize,
    pub end_line: usize,
    pub start_offset: usize,
    pub end_offset: usize,
}

/// The mathematical content of a heading.
pub struct HeadingView {
    pub kind: HeadingKind,
    pub level: u8,
    pub title: Seq<char>,
    pub start_line: int,
    pub end_line: int,
    pub start_offset: int,
    pub end_offset: int,
}

impl View for Heading {
    type V = HeadingView;

    open spec fn view(&self) -> HeadingView {
        HeadingView {
            kind: self.kind,
            level: self.level,
            title: self.title@,
            start_line: self.start_line as int,
            end_line: self.end_line as int,
            start_offset: self.start_offset as int,
            end_offset: self.end_offset as int,
        }
    }
}

pub open spec fn heading_views(v: Seq<Heading>) -> Seq<HeadingView> {
    v.map_values(|h: Heading| h@)
}

/// The headings found from line `n` on: an ATX heading takes its line; a
/// setext heading takes a text line and its underline; every other line is
/// skipped.
pub open spec fn headings_from(doc: &Document, n: int) -> Seq<HeadingView>
    decreases doc.num_lines() + 1 - n,
{
    if n < 1 || n > doc.num_lines() {
        seq![]
    } else {
        match spec_parse_atx(doc.line_text(n)) {
            Some((level, title)) => seq![
                HeadingView {
                    kind: HeadingKind::Atx,
                    level,
                    title,
                    start_line: n,
                    end_line: n,
                    start_offset: doc.line_start(n),
                    end_offset: doc.line_end(n),
                },
            ] + headings_from(doc, n + 1),
            None => {
                if n < doc.num_lines() && spec_setext_underline(doc.line_text(n + 1)) is Some
                    && spec_setext_text(doc.line_text(n)) {
                    seq![
                        HeadingView {
                            kind: HeadingKind::Setext,
                            level: spec_setext_underline(doc.line_text(n + 1))->0,
                            title: trim(doc.line_text(n)),
                            start_line: n,
                            end_line: n + 1,
                            start_offset: doc.line_start(n),
                            end_offset: doc.line_end(n + 1),
                        },
                    ] + headings_from(doc, n + 2)
                } else {
                    headings_from(doc, n + 1)
                }
            },
        }
    }
}

/// All headings of the document, in order.
pub open spec fn spec_headings(doc: &Document) -> Seq<HeadingView> {
    headings_from(doc, 1)
}

/// Headings lie inside the document, in order, without overlapping.
pub open spec fn headings_ordered(hs: Seq<HeadingView>, from: int, last: int) -> bool {
    &&& forall|k: int|
        0 <= k < hs.len() ==> from <= (#[trigger] hs[k]).start_line <= hs[k].end_line <= last
            && hs[k].end_line <= hs[k].start_line + 1 && 1 <= hs[k].level <= 6
    &&& forall|k1: int, k2: int|
        0 <= k1 < k2 < hs.len() ==> (#[trigger] hs[k1]).end_line < (#[trigger] hs[k2]).start_line
}

pub proof fn lemma_headings_from(doc: &Document, n: int)
    requires
        n >= 1,
    ensures
        headings_ordered(headings_from(doc, n), n, doc.num_lines()),
    decreases doc.num_lines() + 1 - n,
{
    let hs = headings_from(doc, n);
    if n <= doc.num_lines() {
        match spec_parse_atx(doc.line_text(n)) {
            Some((level, title)) => {
                lemma_headings_from(doc, n + 1);
                let rest = headings_from(doc, n + 1);
                assert forall|k: int| 0 < k < hs.len() implies hs[k] == rest[k - 1] by {}
            },
            None => {
                if n < doc.num_lines() && spec_setext_underline(doc.line_text(n + 1)) is Some
                    && spec_setext_text(doc.line_text(n)) {
                    lemma_headings_from(doc, n + 2);
                    let rest = headings_from(doc, n + 2);
                    assert forall|k: int| 0 < k < hs.len() implies hs[k] == rest[k - 1] by {}
                } else {
                    lemma_headings_from(doc, n + 1);
                }
            },
        }
    }
}

pub proof fn lemma_headings(doc: &Document)
    ensures
        headings_ordered(spec_headings(doc), 1, doc.num_lines()),
{
    lemma_headings_from(doc, 1);
}

/// The shape of one heading found at its lines: an ATX heading is one line
/// that parses as one; a setext heading is a text line and its underline,
/// of level 1 or 2; the offsets are those of its first line's start and its
/// last line's end.
pub open spec fn heading_fits(doc: &Document, h: HeadingView) -> bool {
    &&& h.start_offset == doc.line_start(h.start_line)
    &&& h.end_offset == doc.line_end(h.end_line)
    &&& h.kind == HeadingKind::Atx ==> h.end_line == h.start_line && spec_parse_atx(
        doc.line_text(h.start_line),
    ) == Some((h.level, h.title))
    &&& h.kind == HeadingKind::Setext ==> {
        &&& h.end_line == h.start_line + 1
        &&& spec_setext_text(doc.line_text(h.start_line))
        &&& spec_parse_atx(doc.line_text(h.start_line)) is None
        &&& spec_setext_underline(doc.line_text(h.end_line)) == Some(h.level)
        &&& 1 <= h.level <= 2
        &&& h.title == trim(doc.line_text(h.start_line))
    }
}

/// Every heading the parser reports has the shape its kind asks for.
pub proof fn law_heading_shape(doc: &Document)
    ensures
        forall|k: int| 0 <= k < spec_headings(doc).len() ==> heading_fits(doc, #[trigger] spec_headings(doc)[k]),
{
    lemma_heading_shape_from(doc, 1);
}

proof fn lemma_heading_shape_from(doc: &Document, n: int)
    requires
        n >= 1,
    ensures
        forall|k: int| 0 <= k < headings_from(doc, n).len() ==> heading_fits(doc, #[trigger] headings_from(doc, n)[k]),
    decreases doc.num_lines() + 1 - n,
{
    let hs = headings_from(doc, n);
    if n <= doc.num_lines() {
        match spec_parse_atx(doc.line_text(n)) {
            Some((level, title)) => {
                lemma_heading_shape_from(doc, n + 1);
                let rest = headings_from(doc, n + 1);
                assert forall|k: int| 0 <= k < hs.len() implies heading_fits(doc, #[trigger] hs[k]) by {
                    if k > 0 {
                        assert(hs[k] == rest[k - 1]);
                    }
                }
            },
            None => {
                if n < doc.num_lines() && spec_setext_underline(doc.line_text(n + 1)) is Some
                    && spec_setext_text(doc.line_text(n)) {
                    lemma_heading_shape_from(doc, n + 2);
                    let rest = headings_from(doc, n + 2);
                    assert forall|k: int| 0 <= k < hs.len() implies heading_fits(doc, #[trigger] hs[k]) by {
                        if k > 0 {
                            assert(hs[k] == rest[k - 1]);
                        }
                    }
                } else {
                    lemma_heading_shape_from(doc, n + 1);
                    assert(hs == headings_from(doc, n + 1));
                }
            },
        }
    }
}

/// A setext underline never parses as an ATX heading.
pub proof fn lemma_underline_not_atx(l: Seq<char>)
    ensures
        spec_setext_underline(l) is Some ==> spec_parse_atx(l) is None,
{
    if spec_setext_underline(l) is Some && spec_parse_atx(l) is Some {
        let indent = indent_of(l);
        let t = l.skip(indent as int);
        crate::text::lemma_lead_len_bound(t, CharClass::Is('#'));
        crate::text::lemma_lead_len_bound(l, CharClass::Is(' '));
        assert(t[0] == '#');
        assert(l[indent as int] == '#');
        assert forall|i: int| 0 <= i < indent implies crate::text::in_class(CharClass::Ws, #[trigger] l[i]) by {
            assert(crate::text::in_class(CharClass::Is(' '), l[i]));
        }
        crate::text::lemma_lead_len(l, CharClass::Ws, indent as int);
        let ts = trim_start(l);
        assert(ts[0] == '#');
        crate::text::lemma_trail_len_bound(ts, CharClass::Ws);
        if trail_len(ts, CharClass::Ws) == ts.len() {
            assert(crate::text::in_class(CharClass::Ws, ts[0]));
        }
        let tr = trim(l);
        assert(tr[0] == '#');
        crate::text::lemma_lead_len_bound(tr, CharClass::Is('='));
        crate::text::lemma_lead_len_bound(tr, CharClass::Is('-'));
    }
}

/// Which lines are headings: every line that parses as an ATX heading is
/// reported as one, with its level and title; a line that is a setext text
/// line (and no ATX heading) followed by an underline starts a setext
/// heading, unless it is itself the underline of the setext heading just
/// before it.
pub proof fn law_heading_lines(doc: &Document)
    ensures
        ({
            let hs = spec_headings(doc);
            &&& forall|n: int|
                1 <= n <= doc.num_lines() && (#[trigger] spec_parse_atx(doc.line_text(n))) is Some
                    ==> exists|k: int|
                    0 <= k < hs.len() && hs[k].start_line == n && hs[k].kind == HeadingKind::Atx
                        && spec_parse_atx(doc.line_text(n)) == Some((hs[k].level, hs[k].title))
            &&& forall|n: int|
                1 <= n < doc.num_lines() && #[trigger] spec_setext_text(doc.line_text(n))
                    && spec_setext_underline(doc.line_text(n + 1)) is Some && !(exists|j: int|
                    0 <= j < hs.len() && hs[j].kind == HeadingKind::Setext && hs[j].end_line == n)
                    ==> exists|k: int|
                    0 <= k < hs.len() && hs[k].start_line == n && hs[k].kind == HeadingKind::Setext
        }),
{
    lemma_heading_lines_from(doc, 1);
    assert(spec_headings(doc) == headings_from(doc, 1));
}

proof fn lemma_heading_lines_from(doc: &Document, m: int)
    requires
        m >= 1,
    ensures
        ({
            let hs = headings_from(doc, m);
            &&& forall|n: int|
                m <= n <= doc.num_lines() && (#[trigger] spec_parse_atx(doc.line_text(n))) is Some
                    ==> exists|k: int|
                    0 <= k < hs.len() && hs[k].start_line == n && hs[k].kind == HeadingKind::Atx
                        && spec_parse_atx(doc.line_text(n)) == Some((hs[k].level, hs[k].title))
            &&& forall|n: int|
                m <= n < doc.num_lines() && #[trigger] spec_setext_text(doc.line_text(n))
                    && spec_setext_underline(doc.line_text(n + 1)) is Some && !(exists|j: int|
                    0 <= j < hs.len() && hs[j].kind == HeadingKind::Setext && hs[j].end_line == n)
                    ==> exists|k: int|
                    0 <= k < hs.len() && hs[k].start_line == n && hs[k].kind == HeadingKind::Setext
        }),
    decreases doc.num_lines() + 1 - m,
{
    let hs = headings_from(doc, m);
    if m <= doc.num_lines() {
        match spec_parse_atx(doc.line_text(m)) {
            Some((level, title)) => {
                lemma_heading_lines_from(doc, m + 1);
                let rest = headings_from(doc, m + 1);
                assert forall|n: int|
                    m <= n <= doc.num_lines() && (#[trigger] spec_parse_atx(doc.line_text(n))) is Some
                        implies exists|k: int|
                    0 <= k < hs.len() && hs[k].start_line == n && hs[k].kind == HeadingKind::Atx
                        && spec_parse_atx(doc.line_text(n)) == Some((hs[k].level, hs[k].title)) by {
                    if n == m {
                        assert(hs[0].start_line == n);
                    } else {
                        let k = choose|k: int|
                            0 <= k < rest.len() && rest[k].start_line == n && rest[k].kind
                                == HeadingKind::Atx && spec_parse_atx(doc.line_text(n)) == Some(
                                (rest[k].level, rest[k].title),
                            );
                        assert(hs[k + 1] == rest[k]);
                    }
                }
                assert forall|n: int|
                    m <= n < doc.num_lines() && #[trigger] spec_setext_text(doc.line_text(n))
                        && spec_setext_underline(doc.line_text(n + 1)) is Some && !(exists|j: int|
                        0 <= j < hs.len() && hs[j].kind == HeadingKind::Setext && hs[j].end_line
                            == n) implies exists|k: int|
                    0 <= k < hs.len() && hs[k].start_line == n && hs[k].kind == HeadingKind::Setext by {
                    if n > m {
                        if exists|j: int|
                            0 <= j < rest.len() && rest[j].kind == HeadingKind::Setext
                                && rest[j].end_line == n {
                            let j = choose|j: int|
                                0 <= j < rest.len() && rest[j].kind == HeadingKind::Setext
                                    && rest[j].end_line == n;
                            assert(hs[j + 1] == rest[j]);
                        }
                        let k = choose|k: int|
                            0 <= k < rest.len() && rest[k].start_line == n && rest[k].kind
                                == HeadingKind::Setext;
                        assert(hs[k + 1] == rest[k]);
                    }
                }
            },
            None => {
                if m < doc.num_lines() && spec_setext_underline(doc.line_text(m + 1)) is Some
                    && spec_setext_text(doc.line_text(m)) {
                    lemma_heading_lines_from(doc, m + 2);
                    lemma_underline_not_atx(doc.line_text(m + 1));
                    let rest = headings_from(doc, m + 2);
                    assert forall|n: int|
                        m <= n <= doc.num_lines() && (#[trigger] spec_parse_atx(doc.line_text(n)))
                            is Some implies exists|k: int|
                        0 <= k < hs.len() && hs[k].start_line == n && hs[k].kind == HeadingKind::Atx
                            && spec_parse_atx(doc.line_text(n)) == Some((hs[k].level, hs[k].title)) by {
                        let k = choose|k: int|
                            0 <= k < rest.len() && rest[k].start_line == n && rest[k].kind
                                == HeadingKind::Atx && spec_parse_atx(doc.line_text(n)) == Some(
                                (rest[k].level, rest[k].title),
                            );
                        assert(hs[k + 1] == rest[k]);
                    }
                    assert forall|n: int|
                        m <= n < doc.num_lines() && #[trigger] spec_setext_text(doc.line_text(n))
                            && spec_setext_underline(doc.line_text(n + 1)) is Some && !(exists|j: int|
                            0 <= j < hs.len() && hs[j].kind == HeadingKind::Setext && hs[j].end_line
                                == n) implies exists|k: int|
                        0 <= k < hs.len() && hs[k].start_line == n && hs[k].kind
                            == HeadingKind::Setext by {
                        if n == m {
                            assert(hs[0].start_line == n);
                        } else if n == m + 1 {
                            assert(hs[0].end_line == n && hs[0].kind == HeadingKind::Setext);
                        } else {
                            if exists|j: int|
                                0 <= j < rest.len() && rest[j].kind == HeadingKind::Setext
                                    && rest[j].end_line == n {
                                let j = choose|j: int|
                                    0 <= j < rest.len() && rest[j].kind == HeadingKind::Setext
                                        && rest[j].end_line == n;
                                assert(hs[j + 1] == rest[j]);
                            }
                            let k = choose|k: int|
                                0 <= k < rest.len() && rest[k].start_line == n && rest[k].kind
                                    == HeadingKind::Setext;
                            assert(hs[k + 1] == rest[k]);
                        }
                    }
                } else {
                    lemma_heading_lines_from(doc, m + 1);
                    assert(hs == headings_from(doc, m + 1));
                }
            },
        }
    }
}

/// A document has at most one heading per line.
pub proof fn lemma_headings_count(doc: &Document)
    ensures
        spec_headings(doc).len() <= doc.num_lines(),
{
    let hs = spec_headings(doc);
    lemma_headings(doc);
    if hs.len() > 0 {
        lemma_heading_line_rank(hs, doc.num_lines(), hs.len() - 1);
    }
}

proof fn lemma_heading_line_rank(hs: Seq<HeadingView>, last: int, k: int)
    requires
        headings_ordered(hs, 1, last),
        0 <= k < hs.len(),
    ensures
        hs[k].start_line >= k + 1,
    decreases k,
{
    if k > 0 {
        lemma_heading_line_rank(hs, last, k - 1);
        assert(hs[k - 1].end_line < hs[k].start_line);
    }
}

fn parse_headings(document: &Document) -> (headings: Vec<Heading>)
    requires
        document.wf(),
    ensures
        heading_views(headings@) == spec_headings(document),
{
    let mut headings: Vec<Heading> = Vec::new();
    let count = document.line_count();
    if count == 0 {
        return headings;
    }
    let mut line_number: usize = 1;
    loop
        invariant_except_break
            heading_views(headings@) + headings_from(document, line_number as int)
                == spec_headings(document),
        invariant
            document.wf(),
            count == document.num_lines(),
            1 <= line_number <= count,
        ensures
            heading_views(headings@) == spec_headings(document),
        decreases count - line_number,
    {
        let ghost old_h = headings@;
        let line = chars_of(document.line(line_number).unwrap());
        if let Some((level, title)) = parse_atx_heading(&line) {
            headings.push(
                Heading {
                    kind: HeadingKind::Atx,
                    level,
                    title,
                    start_line: line_number,
                    end_line: line_number,
                    start_offset: document.line_start_offset(line_number).unwrap(),
                    end_offset: document.line_end_offset(line_number).unwrap(),
                },
            );
            proof {
                assert(heading_views(headings@) =~= heading_views(old_h).push(headings@.last()@));
                assert(heading_views(headings@) + headings_from(document, line_number + 1)
                    =~= heading_views(old_h) + headings_from(document, line_number as int));
                if line_number == count {
                    assert(heading_views(headings@) + headings_from(document, line_number + 1)
                        =~= heading_views(headings@));
                }
            }
            if line_number == count {
                break;
            }
            line_number += 1;
            continue;
        }
        if line_number < count {
            let next_line = chars_of(document.line(line_number + 1).unwrap());
            if let Some(level) = parse_setext_underline(&next_line) {
                if is_setext_heading_text(&line) {
                    let (a, b) = trim_ws_range(&line, 0, line.len());
                    proof {
                        assert(line@.subrange(0, line@.len() as int) =~= line@);
                    }
                    headings.push(
                        Heading {
                            kind: HeadingKind::Setext,
                            level,
                            title: string_of_range(&line, a, b),
                            start_line: line_number,
                            end_line: line_number + 1,
                            start_offset: document.line_start_offset(line_number).unwrap(),
                            end_offset: document.line_end_offset(line_number + 1).unwrap(),
                        },
                    );
                    proof {
                        assert(heading_views(headings@) =~= heading_views(old_h).push(
                            headings@.last()@,
                        ));
                        assert(heading_views(headings@) + headings_from(document, line_number + 2)
                            =~= heading_views(old_h) + headings_from(
                            document,
                            line_number as int,
                        ));
                        if count - line_number < 2 {
                            assert(heading_views(headings@) + headings_from(
                                document,
                                line_number + 2,
                            ) =~= heading_views(headings@));
                        }
                    }
                    if count - line_number < 2 {
                        break;
                    }
                    line_number += 2;
                    continue;
                }
            }
        }
        if line_number == count {
            proof {
                assert(heading_views(headings@) + headings_from(document, line_number + 1)
                    =~= heading_views(headings@));
            }
            break;
        }
        line_number += 1;
    }
    headings
}

// ---------------------------------------------------------------------
// Documents
// ---------------------------------------------------------------------
/// A UTF-8 Markdown text without its byte order mark, with its line table.
#[derive(Debug, PartialEq, Eq)]
pub struct Document {
    source: String,
    lines: Vec<LineRange>,
}

/// The text with a leading byte order mark removed.
pub open spec fn strip_bom(s: Seq<char>) -> Seq<char> {
    if s.len() > 0 && s[0] == '\u{feff}' {
        s.drop_first()
    } else {
        s
    }
}

impl Document {
    /// The characters of the document.
    pub closed spec fn text(&self) -> Seq<char> {
        self.source@
    }

    /// The line table as stored.
    pub closed spec fn spans(&self) -> Seq<(int, int, int)> {
        range_views(self.lines@)
    }

    /// The UTF-8 bytes of the document.
    pub open spec fn bytes(&self) -> Seq<u8> {
        encode_utf8(self.text())
    }

    /// The stored line table is the line table of the text.
    pub open spec fn wf(&self) -> bool {
        self.spans() == line_spans(self.bytes())
    }

    pub open spec fn num_lines(&self) -> int {
        self.spans().len() as int
    }

    /// Byte offset where line `n` (1-based) starts.
    pub open spec fn line_start(&self, n: int) -> int {
        self.spans()[n - 1].0
    }

    /// Byte offset where the content of line `n` ends, before its line break.
    pub open spec fn line_end(&self, n: int) -> int {
        self.spans()[n - 1].1
    }

    /// Byte offset just after the line break of line `n`.
    pub open spec fn line_full_end(&self, n: int) -> int {
        self.spans()[n - 1].2
    }

    /// The text of line `n` without its line break.
    pub open spec fn line_text(&self, n: int) -> Seq<char> {
        decode_utf8(self.bytes().subrange(self.line_start(n), self.line_end(n)))
    }

    /// The bytes from the start of line `s` to the end of line `e`, line breaks included.
    pub open spec fn lines_bytes(&self, s: int, e: int) -> Seq<u8> {
        self.bytes().subrange(self.line_start(s), self.line_full_end(e))
    }

    pub proof fn lemma_wf(&self)
        requires
            self.wf(),
        ensures
            valid_utf8(self.bytes()),
            spans_cover(self.bytes(), self.spans(), 0),
    {
        vstd::utf8::encode_utf8_valid_utf8(self.text());
        lemma_line_spans(self.bytes());
    }

    /// Decodes `bytes` as UTF-8, drops a leading byte order mark, and indexes the lines.
    pub fn from_bytes(path: &str, bytes: &[u8]) -> (r: Result<Document, InputError>)
        ensures
            match r {
                Ok(d) => valid_utf8(bytes@) && d.wf() && d.text() == strip_bom(decode_utf8(bytes@)),
                Err(e) => !valid_utf8(bytes@) && e.is_decode_of(path@),
            },
    {
        match utf8_str(bytes) {
            None => Err(InputError::Decode { path: path.to_owned() }),
            Some(s) => {
                let cs = chars_of(s);
                let start: usize = if cs.len() > 0 && cs[0] == '\u{feff}' {
                    1
                } else {
                    0
                };
                let source = string_of_range(&cs, start, cs.len());
                proof {
                    vstd::utf8::encode_utf8_decode_utf8(s@);
                    assert(source@ =~= strip_bom(decode_utf8(bytes@)));
                }
                let lines = index_lines(source.as_str());
                Ok(Document { source, lines })
            },
        }
    }

    /// The whole text.
    pub fn source(&self) -> (r: &str)
        ensures
            r@ == self.text(),
    {
        self.source.as_str()
    }

    /// Number of lines.
    pub fn line_count(&self) -> (n: usize)
        ensures
            n == self.num_lines(),
    {
        self.lines.len()
    }

    /// Line `line_number` (1-based) without its line break.
    pub fn line(&self, line_number: usize) -> (r: Option<&str>)
        requires
            self.wf(),
        ensures
            r is Some <==> 1 <= line_number <= self.num_lines(),
            r matches Some(s) ==> s@ == self.line_text(line_number as int),
    {
        if line_number == 0 || line_number > self.lines.len() {
            return None;
        }
        proof {
            self.lemma_wf();
            assert(span_ok(self.bytes(), self.spans()[line_number - 1]));
        }
        let range = &self.lines[line_number - 1];
        Some(byte_range(self.source.as_str(), range.content_start, range.content_end))
    }

    /// Lines `start_line..=end_line`, line breaks included, exactly as in the text.
    pub fn slice_lines(&self, start_line: usize, end_line: usize) -> (r: Option<&str>)
        requires
            self.wf(),
        ensures
            r is Some <==> 1 <= start_line <= end_line <= self.num_lines(),
            r matches Some(s) ==> s.spec_bytes() == self.lines_bytes(
                start_line as int,
                end_line as int,
            ) && s@ == decode_utf8(self.lines_bytes(start_line as int, end_line as int)),
    {
        if start_line == 0 || start_line > end_line || end_line > self.lines.len() {
            return None;
        }
        proof {
            self.lemma_wf();
            assert(span_ok(self.bytes(), self.spans()[start_line - 1]));
            assert(span_ok(self.bytes(), self.spans()[end_line - 1]));
            self.lemma_spans_ordered(start_line as int, end_line as int);
        }
        let start = self.lines[start_line - 1].content_start;
        let end = self.lines[end_line - 1].full_end;
        Some(byte_range(self.source.as_str(), start, end))
    }

    /// The text of lines `s..=e` holds `e - s + 1` lines, and it ends with a
    /// line feed exactly when line `e` has a line break.
    pub proof fn lemma_lines_count(&self, s: int, e: int)
        requires
            self.wf(),
            1 <= s <= e <= self.num_lines(),
        ensures
            lines_count(self.lines_bytes(s, e)) == e - s + 1,
            self.lines_bytes(s, e).len() > 0,
            (self.lines_bytes(s, e).last() == 10) <==> (self.line_full_end(e) > self.line_end(e)),
    {
        self.lemma_chain();
        lemma_run_lines_count(self.bytes(), self.spans(), s, e);
    }

    /// The lines are placed one after the other, each with its break.
    pub proof fn lemma_chain(&self)
        requires
            self.wf(),
        ensures
            spans_chain(self.bytes(), self.spans()),
            self.num_lines() > 0 ==> self.line_full_end(self.num_lines()) == self.bytes().len(),
    {
        self.lemma_wf();
        let b = self.bytes();
        let sps = self.spans();
        assert forall|k: int| 0 <= k < sps.len() implies span_shape(b, #[trigger] sps[k]) by {
            assert(span_ok(b, sps[k]));
        }
    }

    /// The number of lines fits in a `usize`.
    pub proof fn lemma_num_lines_bound(&self)
        ensures
            self.num_lines() <= usize::MAX,
    {
        assert(self.spans().len() == self.lines.len());
    }

    /// Lines start in order.
    pub proof fn lemma_spans_ordered(&self, s: int, e: int)
        requires
            self.wf(),
            1 <= s <= e <= self.num_lines(),
        ensures
            self.line_start(s) <= self.line_start(e),
            self.line_start(s) < self.line_full_end(e),
        decreases e - s,
    {
        self.lemma_wf();
        let sps = self.spans();
        assert(span_ok(self.bytes(), sps[e - 1]));
        if s < e {
            self.lemma_spans_ordered(s, e - 1);
            assert(span_ok(self.bytes(), sps[e - 2]));
            assert(sps[e - 2].2 == sps[e - 1].0);
        }
    }

    /// The headings, in order.
    pub fn headings(&self) -> (r: Vec<Heading>)
        requires
            self.wf(),
        ensures
            heading_views(r@) == spec_headings(self),
    {
        parse_headings(self)
    }

    /// The section tree.
    pub fn section_index(&self) -> (r: SectionIndex)
        requires
            self.wf(),
        ensures
            r@ == spec_sections(self),
    {
        SectionIndex::new(self)
    }

    /// Byte offset where line `line_number` starts.
    pub fn line_start_offset(&self, line_number: usize) -> (r: Option<usize>)
        ensures
            r is Some <==> 1 <= line_number <= self.num_lines(),
            r matches Some(o) ==> o == self.line_start(line_number as int),
    {
        if line_number == 0 || line_number > self.lines.len() {
            return None;
        }
        Some(self.lines[line_number - 1].content_start)
    }

    /// Byte offset where the content of line `line_number` ends.
    pub fn line_end_offset(&self, line_number: usize) -> (r: Option<usize>)
        ensures
            r is Some <==> 1 <= line_number <= self.num_lines(),
            r matches Some(o) ==> o == self.line_end(line_number as int),
    {
        if line_number == 0 || line_number > self.lines.len() {
            return None;
        }
        Some(self.lines[line_number - 1].content_end)
    }
}

} // verus!

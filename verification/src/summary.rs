//! The first-block summary of a section: which block comes first in the
//! section's body, and its one-line payload.
use vstd::prelude::*;

use crate::document::{
    indent_of, lemma_headings, matches_list_marker, spec_headings, spec_list_marker, Document,
    HeadingView,
};
use crate::section::{Section, SectionView};
use crate::text::{
    char_is_ws, chars_of, contains_sub, dec, find_pair, find_sub, join, lead_count, lead_len,
    lemma_find_from_bounds, lemma_lead_len_bound, normalize, normalize_range, pieces,
    push_joined_strings, split_on, split_ranges, starts_with, starts_with1, starts_with2,
    string_of_range, trim, trim_char, trim_range, trim_start, trim_start_range, trim_ws_range,
    word_ranges, words, CharClass,
};

verus! {

// ---------------------------------------------------------------------
// Line classes
// ---------------------------------------------------------------------
pub open spec fn is_blank(l: Seq<char>) -> bool {
    trim(l).len() == 0
}

/// Number of occurrences of `c` in `s`.
pub open spec fn count_char(s: Seq<char>, c: char) -> nat
    decreases s.len(),
{
    if s.len() == 0 {
        0
    } else {
        count_char(s.drop_last(), c) + if s.last() == c {
            1nat
        } else {
            0nat
        }
    }
}

/// A thematic break: up to 3 spaces, then at least three of one of `-`, `*`,
/// `_`, with only whitespace between them.
pub open spec fn spec_thematic_break(l: Seq<char>) -> bool {
    let indent = indent_of(l);
    let t = trim(l.skip(indent as int));
    &&& indent <= 3
    &&& t.len() >= 3
    &&& (t[0] == '-' || t[0] == '*' || t[0] == '_')
    &&& count_char(t, t[0]) >= 3
    &&& forall|i: int| 0 <= i < t.len() ==> #[trigger] t[i] == t[0] || crate::text::is_ws(t[i])
}

/// A code fence opening: up to 3 spaces, then three or more of `` ` `` or `~`;
/// gives the fence character and the run length.
pub open spec fn spec_parse_fence(l: Seq<char>) -> Option<(char, nat)> {
    let indent = indent_of(l);
    let t = l.skip(indent as int);
    if indent > 3 || t.len() == 0 || (t[0] != '`' && t[0] != '~') {
        None
    } else {
        let n = lead_len(t, CharClass::Is(t[0]));
        if n >= 3 {
            Some((t[0], n))
        } else {
            None
        }
    }
}

/// A fence closing line for a fence of `len` characters `c`.
pub open spec fn spec_fence_closing(l: Seq<char>, c: char, len: nat) -> bool {
    let indent = indent_of(l);
    let t = l.skip(indent as int);
    let r = lead_len(t, CharClass::Is(c));
    indent <= 3 && r >= len && trim(t.skip(r as int)).len() == 0
}

pub open spec fn spec_blockquote_line(l: Seq<char>) -> bool {
    indent_of(l) <= 3 && starts_with(l.skip(indent_of(l) as int), seq!['>'])
}

/// A table separator cell: dashes with optional colons at either end.
pub open spec fn spec_separator_cell(cell: Seq<char>) -> bool {
    let core = trim_char(cell, ':');
    core.len() > 0 && lead_len(core, CharClass::Is('-')) == core.len()
}

/// A table separator row such as `---|---` or `|:---:|`.
pub open spec fn spec_separator_row(l: Seq<char>) -> bool {
    let t = trim(l);
    let cells = split_on(trim_char(t, '|'), '|');
    &&& t.len() > 0
    &&& t.contains('|')
    &&& forall|i: int| 0 <= i < cells.len() ==> spec_separator_cell(trim(#[trigger] cells[i]))
}

pub open spec fn spec_list_start(l: Seq<char>) -> bool {
    indent_of(l) <= 3 && spec_list_marker(l.skip(indent_of(l) as int))
}

/// A paragraph that starts with an image: `![alt](src)`.
pub open spec fn spec_image_start(l: Seq<char>) -> bool {
    let t = trim_start(l);
    &&& starts_with(t, seq!['!', '['])
    &&& find_sub(t, seq![']', '(']) is Some
    &&& t.skip(find_sub(t, seq![']', '('])->0 + 2).contains(')')
}

// ---------------------------------------------------------------------
// Executable line classes
// ---------------------------------------------------------------------
fn is_blank_line(l: &[char]) -> (r: bool)
    ensures
        r == is_blank(l@),
{
    let (a, b) = trim_ws_range(l, 0, l.len());
    proof {
        assert(l@.subrange(0, l@.len() as int) =~= l@);
    }
    a == b
}

fn count_in_range(s: &[char], from: usize, to: usize, c: char) -> (n: usize)
    requires
        from <= to <= s@.len(),
    ensures
        n == count_char(s@.subrange(from as int, to as int), c),
{
    let mut n: usize = 0;
    let mut i = from;
    while i < to
        invariant
            from <= i <= to <= s@.len(),
            n == count_char(s@.subrange(from as int, i as int), c),
            n <= i - from,
        decreases to - i,
    {
        proof {
            assert(s@.subrange(from as int, i + 1).drop_last() =~= s@.subrange(from as int, i as int));
        }
        if s[i] == c {
            n += 1;
        }
        i += 1;
    }
    n
}

#[verifier::loop_isolation(false)]
fn is_thematic_break(l: &[char]) -> (r: bool)
    ensures
        r == spec_thematic_break(l@),
{
    let len = l.len();
    let indent = lead_count(l, 0, len, CharClass::Is(' '));
    proof {
        assert(l@.subrange(0, len as int) =~= l@);
        assert(l@.subrange(indent as int, len as int) =~= l@.skip(indent as int));
    }
    if indent > 3 {
        return false;
    }
    let (a, b) = trim_ws_range(l, indent, len);
    let ghost t = l@.subrange(a as int, b as int);
    if b - a < 3 {
        return false;
    }
    let marker = l[a];
    assert(t[0] == marker);
    if !(marker == '-' || marker == '*' || marker == '_') {
        return false;
    }
    let count = count_in_range(l, a, b, marker);
    if count < 3 {
        return false;
    }
    let mut i = a;
    while i < b
        invariant
            a <= i <= b <= l@.len(),
            t == l@.subrange(a as int, b as int),
            t[0] == marker,
            forall|k: int| 0 <= k < i - a ==> #[trigger] t[k] == t[0] || crate::text::is_ws(t[k]),
        decreases b - i,
    {
        if !(l[i] == marker || char_is_ws(l[i])) {
            assert(t[i - a] == l@[i as int]);
            assert(!(t[i - a] == t[0] || crate::text::is_ws(t[i - a])));
            return false;
        }
        assert(t[i - a] == l@[i as int]);
        i += 1;
    }
    true
}

fn parse_fence(l: &[char]) -> (r: Option<(char, usize)>)
    ensures
        r matches Some((c, n)) ==> spec_parse_fence(l@) == Some((c, n as nat)),
        r is None <==> spec_parse_fence(l@) is None,
{
    let len = l.len();
    let indent = lead_count(l, 0, len, CharClass::Is(' '));
    proof {
        assert(l@.subrange(0, len as int) =~= l@);
        assert(l@.subrange(indent as int, len as int) =~= l@.skip(indent as int));
    }
    if indent > 3 || indent == len {
        return None;
    }
    let first = l[indent];
    if first != '`' && first != '~' {
        return None;
    }
    let n = lead_count(l, indent, len, CharClass::Is(first));
    if n >= 3 {
        Some((first, n))
    } else {
        None
    }
}

fn is_fence_closing_line(l: &[char], c: char, len: usize) -> (r: bool)
    ensures
        r == spec_fence_closing(l@, c, len as nat),
{
    let n = l.len();
    let indent = lead_count(l, 0, n, CharClass::Is(' '));
    proof {
        assert(l@.subrange(0, n as int) =~= l@);
        assert(l@.subrange(indent as int, n as int) =~= l@.skip(indent as int));
    }
    if indent > 3 {
        return false;
    }
    let repeated = lead_count(l, indent, n, CharClass::Is(c));
    let (a, b) = trim_ws_range(l, indent + repeated, n);
    proof {
        assert(l@.skip(indent as int).skip(repeated as int) =~= l@.subrange(indent + repeated, n as int));
    }
    repeated >= len && a == b
}

fn is_blockquote_line(l: &[char]) -> (r: bool)
    ensures
        r == spec_blockquote_line(l@),
{
    let n = l.len();
    let indent = lead_count(l, 0, n, CharClass::Is(' '));
    proof {
        assert(l@.subrange(0, n as int) =~= l@);
        assert(l@.subrange(indent as int, n as int) =~= l@.skip(indent as int));
    }
    indent <= 3 && starts_with1(l, indent, n, '>')
}

fn range_contains(s: &[char], from: usize, to: usize, c: char) -> (r: bool)
    requires
        from <= to <= s@.len(),
    ensures
        r == s@.subrange(from as int, to as int).contains(c),
{
    let mut i = from;
    while i < to
        invariant
            from <= i <= to <= s@.len(),
            forall|k: int| from <= k < i ==> s@[k] != c,
        decreases to - i,
    {
        if s[i] == c {
            assert(s@.subrange(from as int, to as int)[i - from] == c);
            return true;
        }
        i += 1;
    }
    assert forall|k: int| 0 <= k < to - from implies s@.subrange(from as int, to as int)[k] != c by {
        assert(s@.subrange(from as int, to as int)[k] == s@[from + k]);
    }
    false
}

fn is_table_separator_cell(s: &[char], from: usize, to: usize) -> (r: bool)
    requires
        from <= to <= s@.len(),
    ensures
        r == spec_separator_cell(s@.subrange(from as int, to as int)),
{
    let (a, b) = trim_range(s, from, to, CharClass::Is(':'));
    a < b && lead_count(s, a, b, CharClass::Is('-')) == b - a
}

#[verifier::loop_isolation(false)]
fn is_table_separator_row(l: &[char]) -> (r: bool)
    ensures
        r == spec_separator_row(l@),
{
    let n = l.len();
    proof {
        assert(l@.subrange(0, n as int) =~= l@);
    }
    let (a, b) = trim_ws_range(l, 0, n);
    if a == b || !range_contains(l, a, b, '|') {
        return false;
    }
    let (c, d) = trim_range(l, a, b, CharClass::Is('|'));
    let cells = split_ranges(l, c, d, '|');
    let ghost ps = pieces(l@, cells@);
    assert(l@.subrange(c as int, d as int) == trim_char(trim(l@), '|'));
    assert(ps == split_on(trim_char(trim(l@), '|'), '|'));
    let mut k: usize = 0;
    while k < cells.len()
        invariant
            k <= cells@.len(),
            ps == pieces(l@, cells@),
            forall|j: int| 0 <= j < cells@.len() ==> c <= (#[trigger] cells@[j]).0 <= cells@[j].1 <= d,
            d <= l@.len(),
            forall|j: int| 0 <= j < k ==> spec_separator_cell(trim(#[trigger] ps[j])),
        decreases cells.len() - k,
    {
        let (x, y) = cells[k];
        let (x2, y2) = trim_ws_range(l, x, y);
        assert(ps[k as int] == l@.subrange(x as int, y as int));
        if !is_table_separator_cell(l, x2, y2) {
            assert(!spec_separator_cell(trim(ps[k as int])));
            return false;
        }
        k += 1;
    }
    true
}

fn is_list_start(l: &[char]) -> (r: bool)
    ensures
        r == spec_list_start(l@),
{
    let n = l.len();
    let indent = lead_count(l, 0, n, CharClass::Is(' '));
    proof {
        assert(l@.subrange(0, n as int) =~= l@);
        assert(l@.subrange(indent as int, n as int) =~= l@.skip(indent as int));
    }
    indent <= 3 && matches_list_marker(l, indent, n)
}

fn is_image_paragraph_start(l: &[char]) -> (r: bool)
    ensures
        r == spec_image_start(l@),
{
    let n = l.len();
    proof {
        assert(l@.subrange(0, n as int) =~= l@);
    }
    let t = trim_start_range(l, 0, n);
    if !starts_with2(l, t, n, '!', '[') {
        return false;
    }
    match find_pair(l, t, n, ']', '(') {
        None => false,
        Some(a) => {
            proof {
                let ts = l@.subrange(t as int, n as int);
                assert(ts.skip(a + 2) =~= l@.subrange(t + a + 2, n as int));
            }
            range_contains(l, t + a + 2, n, ')')
        },
    }
}

} // verus!

verus! {

// ---------------------------------------------------------------------
// Blocks
// ---------------------------------------------------------------------
#[derive(Clone, Copy, Debug, PartialEq, Eq, Structural)]
pub enum SummaryKind {
    Paragraph,
    Blockquote,
    List,
    Code,
    Table,
    Image,
}

/// The first block of a section: its kind, its line range and its lines.
#[derive(Clone, Debug, PartialEq, Eq)]
pub struct SummaryBlock {
    pub kind: SummaryKind,
    pub start_line: usize,
    pub end_line: usize,
    pub lines: Vec<String>,
}

pub struct BlockView {
    pub kind: SummaryKind,
    pub start_line: int,
    pub end_line: int,
    pub lines: Seq<Seq<char>>,
}

impl View for SummaryBlock {
    type V = BlockView;

    open spec fn view(&self) -> BlockView {
        BlockView {
            kind: self.kind,
            start_line: self.start_line as int,
            end_line: self.end_line as int,
            lines: crate::text::string_views(self.lines@),
        }
    }
}

pub open spec fn block_view(r: Option<SummaryBlock>) -> Option<BlockView> {
    match r {
        Some(b) => Some(b@),
        None => None,
    }
}

/// The first heading nested in `sec`'s body (after its heading, within its
/// range, with a higher level), searching from index `k`.
pub open spec fn first_nested(hs: Seq<HeadingView>, sec: SectionView, k: int) -> Option<int>
    decreases hs.len() - k,
{
    if k < 0 || k >= hs.len() {
        None
    } else if hs[k].start_line > sec.heading.end_line && hs[k].start_line <= sec.end_line
        && hs[k].level > sec.level {
        Some(k)
    } else {
        first_nested(hs, sec, k + 1)
    }
}

/// The last line the summary scan may look at: the line before the first
/// nested heading, or the section's last line.
pub open spec fn scan_window_end(hs: Seq<HeadingView>, sec: SectionView) -> int {
    let e = match first_nested(hs, sec, 0) {
        Some(k) => if hs[k].start_line > 0 {
            hs[k].start_line - 1
        } else {
            0
        },
        None => sec.end_line,
    };
    if e < sec.end_line {
        e
    } else {
        sec.end_line
    }
}

/// The last line the summary scan looks at: the scan window's end, and never
/// past the document's last line.
pub open spec fn summary_window_end(doc: &Document, sec: SectionView) -> int {
    let e = scan_window_end(spec_headings(doc), sec);
    if e < doc.num_lines() {
        e
    } else {
        doc.num_lines()
    }
}

/// The first line from `n` to `e` that is neither blank nor a thematic break.
pub open spec fn first_block_line(doc: &Document, n: int, e: int) -> Option<int>
    decreases e + 1 - n,
{
    if n > e {
        None
    } else if is_blank(doc.line_text(n)) || spec_thematic_break(doc.line_text(n)) {
        first_block_line(doc, n + 1, e)
    } else {
        Some(n)
    }
}

/// Last line of a fenced code block whose body starts at `m`: the closing
/// fence, or `e` when there is none.
pub open spec fn code_end(doc: &Document, m: int, e: int, c: char, len: nat) -> int
    decreases e + 1 - m,
{
    if m > e {
        e
    } else if spec_fence_closing(doc.line_text(m), c, len) {
        m
    } else {
        code_end(doc, m + 1, e, c, len)
    }
}

/// Which lines continue a block.
pub enum RunKind {
    Quote,
    Pipe,
    Any,
}

pub open spec fn run_ok(k: RunKind, l: Seq<char>) -> bool {
    match k {
        RunKind::Quote => spec_blockquote_line(l),
        RunKind::Pipe => l.contains('|'),
        RunKind::Any => true,
    }
}

/// Last line of a run that continues from `m` while lines are not blank and fit `k`.
pub open spec fn run_end(doc: &Document, m: int, e: int, k: RunKind) -> int
    decreases e + 1 - m,
{
    if m > e {
        m - 1
    } else if is_blank(doc.line_text(m)) || !run_ok(k, doc.line_text(m)) {
        m - 1
    } else {
        run_end(doc, m + 1, e, k)
    }
}

/// A pipe table starts at `n`: a header row with `|` and a separator row below it.
pub open spec fn spec_table_start(doc: &Document, n: int, e: int) -> bool {
    n + 1 <= e && doc.line_text(n).contains('|') && spec_separator_row(doc.line_text(n + 1))
}

/// The kind and last line of the block that starts at `n`, in priority order:
/// fenced code, blockquote, table, list, then image or paragraph.
pub open spec fn block_kind_end(doc: &Document, n: int, e: int) -> (SummaryKind, int) {
    let l = doc.line_text(n);
    match spec_parse_fence(l) {
        Some((c, len)) => (SummaryKind::Code, code_end(doc, n + 1, e, c, len)),
        None => if spec_blockquote_line(l) {
            (SummaryKind::Blockquote, run_end(doc, n + 1, e, RunKind::Quote))
        } else if spec_table_start(doc, n, e) {
            (SummaryKind::Table, run_end(doc, n + 2, e, RunKind::Pipe))
        } else if spec_list_start(l) {
            (SummaryKind::List, run_end(doc, n + 1, e, RunKind::Any))
        } else if spec_image_start(l) {
            (SummaryKind::Image, run_end(doc, n + 1, e, RunKind::Any))
        } else {
            (SummaryKind::Paragraph, run_end(doc, n + 1, e, RunKind::Any))
        },
    }
}

/// The texts of lines `s..=e`.
pub open spec fn lines_between(doc: &Document, s: int, e: int) -> Seq<Seq<char>> {
    Seq::new((e - s + 1) as nat, |i: int| doc.line_text(s + i))
}

/// The first block of `sec`'s body before any nested heading, if there is one.
pub open spec fn spec_summary(doc: &Document, sec: SectionView) -> Option<BlockView> {
    let start = sec.heading.end_line + 1;
    let e = summary_window_end(doc, sec);
    if start > e {
        None
    } else {
        match first_block_line(doc, start, e) {
            None => None,
            Some(n) => {
                let (kind, end) = block_kind_end(doc, n, e);
                Some(BlockView { kind, start_line: n, end_line: end, lines: lines_between(doc, n, end) })
            },
        }
    }
}

// ---------------------------------------------------------------------
// Executable scanning
// ---------------------------------------------------------------------
fn line_chars(document: &Document, n: usize) -> (v: Vec<char>)
    requires
        document.wf(),
        1 <= n <= document.num_lines(),
    ensures
        v@ == document.line_text(n as int),
{
    chars_of(document.line(n).unwrap())
}

fn summary_scan_end(document: &Document, section: &Section) -> (e: usize)
    requires
        document.wf(),
    ensures
        e == scan_window_end(spec_headings(document), section@),
{
    let headings = document.headings();
    let ghost hs = spec_headings(document);
    let mut k: usize = 0;
    let mut first: usize = section.end_line;
    while k < headings.len()
        invariant_except_break
            first == section.end_line,
        invariant
            crate::document::heading_views(headings@) == hs,
            k <= headings@.len(),
            first_nested(hs, section@, 0) == first_nested(hs, section@, k as int),
        ensures
            first == match first_nested(hs, section@, 0) {
                Some(j) => if hs[j].start_line > 0 {
                    hs[j].start_line - 1
                } else {
                    0
                },
                None => section@.end_line,
            },
        decreases headings.len() - k,
    {
        let h = &headings[k];
        assert(h@ == hs[k as int]);
        if h.start_line > section.heading.end_line && h.start_line <= section.end_line && h.level
            > section.level {
            first = h.start_line.saturating_sub(1);
            break;
        }
        k += 1;
    }
    if first < section.end_line {
        first
    } else {
        section.end_line
    }
}

/// The lines `start_line..=end_line` as strings.
fn collect_lines(document: &Document, start_line: usize, end_line: usize) -> (r: Vec<String>)
    requires
        document.wf(),
        1 <= start_line <= end_line <= document.num_lines(),
    ensures
        crate::text::string_views(r@) == lines_between(document, start_line as int, end_line as int),
{
    let mut out: Vec<String> = Vec::new();
    let mut m = start_line;
    loop
        invariant
            document.wf(),
            1 <= start_line <= m <= end_line <= document.num_lines(),
            crate::text::string_views(out@) == lines_between(document, start_line as int, m - 1),
        decreases end_line - m,
    {
        let ghost old_out = out@;
        let text = document.line(m).unwrap().to_owned();
        assert(text@ == document.line_text(m as int));
        out.push(text);
        proof {
            assert(crate::text::string_views(out@) =~= crate::text::string_views(old_out).push(
                text@,
            ));
            assert(lines_between(document, start_line as int, m as int) =~= lines_between(
                document,
                start_line as int,
                m - 1,
            ).push(document.line_text(m as int)));
        }
        if m == end_line {
            return out;
        }
        m += 1;
    }
}

fn capture_fenced_code(document: &Document, start_line: usize, scan_end: usize) -> (r: SummaryBlock)
    requires
        document.wf(),
        1 <= start_line <= scan_end <= document.num_lines(),
        spec_parse_fence(document.line_text(start_line as int)) is Some,
    ensures
        r@ == ({
            let (c, len) = spec_parse_fence(document.line_text(start_line as int))->0;
            let end = code_end(document, start_line + 1, scan_end as int, c, len);
            BlockView {
                kind: SummaryKind::Code,
                start_line: start_line as int,
                end_line: end,
                lines: lines_between(document, start_line as int, end),
            }
        }),
{
    let opening = line_chars(document, start_line);
    let (fence_char, fence_len) = parse_fence(&opening).unwrap();
    let ghost c = fence_char;
    let ghost len = fence_len as nat;
    let mut end_line = start_line;
    if start_line < scan_end {
        let mut m = start_line + 1;
        loop
            invariant
                document.wf(),
                start_line < m <= scan_end <= document.num_lines(),
                code_end(document, start_line + 1, scan_end as int, c, len) == code_end(
                    document,
                    m as int,
                    scan_end as int,
                    c,
                    len,
                ),
                c == fence_char,
                len == fence_len,
            ensures
                end_line == code_end(document, start_line + 1, scan_end as int, c, len),
                start_line <= end_line <= scan_end,
            decreases scan_end - m,
        {
            let line = line_chars(document, m);
            if is_fence_closing_line(&line, fence_char, fence_len) {
                end_line = m;
                break;
            }
            if m == scan_end {
                assert(code_end(document, m + 1, scan_end as int, c, len) == scan_end);
                end_line = m;
                break;
            }
            m += 1;
        }
    }
    SummaryBlock {
        kind: SummaryKind::Code,
        start_line,
        end_line,
        lines: collect_lines(document, start_line, end_line),
    }
}

fn run_line_ok(k: &RunKind, l: &[char]) -> (r: bool)
    ensures
        r == run_ok(*k, l@),
{
    match k {
        RunKind::Quote => is_blockquote_line(l),
        RunKind::Pipe => range_contains(l, 0, l.len(), '|') && {
            proof {
                assert(l@.subrange(0, l@.len() as int) =~= l@);
            }
            true
        },
        RunKind::Any => true,
    }
}

/// Last line of the run that continues from `start + skip`; `start + skip - 1`
/// when the run is empty.
fn run_end_exec(document: &Document, start: usize, skip: usize, scan_end: usize, k: RunKind) -> (end: usize)
    requires
        document.wf(),
        1 <= start,
        1 <= skip <= 2,
        start + skip <= scan_end + 1,
        scan_end <= document.num_lines(),
    ensures
        end == run_end(document, start + skip, scan_end as int, k),
        start + skip - 1 <= end <= scan_end,
{
    if scan_end - start < skip {
        return scan_end;
    }
    let from = start + skip;
    let mut end_line = from - 1;
    let mut m = from;
    loop
        invariant_except_break
            end_line == m - 1,
        invariant
            document.wf(),
            from <= m <= scan_end <= document.num_lines(),
            from - 1 <= end_line <= scan_end,
            from == start + skip,
            run_end(document, from as int, scan_end as int, k) == run_end(
                document,
                m as int,
                scan_end as int,
                k,
            ),
        ensures
            end_line == run_end(document, from as int, scan_end as int, k),
            from - 1 <= end_line <= scan_end,
        decreases scan_end - m,
    {
        let line = line_chars(document, m);
        if is_blank_line(&line) || !run_line_ok(&k, &line) {
            break;
        }
        end_line = m;
        if m == scan_end {
            assert(run_end(document, m + 1, scan_end as int, k) == m);
            break;
        }
        m += 1;
    }
    end_line
}

fn capture_contiguous_block(document: &Document, start_line: usize, scan_end: usize, kind: SummaryKind) -> (r: SummaryBlock)
    requires
        document.wf(),
        1 <= start_line <= scan_end <= document.num_lines(),
    ensures
        r@ == ({
            let end = run_end(document, start_line + 1, scan_end as int, RunKind::Quote);
            BlockView {
                kind,
                start_line: start_line as int,
                end_line: end,
                lines: lines_between(document, start_line as int, end),
            }
        }),
{
    let end_line = run_end_exec(document, start_line, 1, scan_end, RunKind::Quote);
    SummaryBlock { kind, start_line, end_line, lines: collect_lines(document, start_line, end_line) }
}

fn capture_table(document: &Document, start_line: usize, scan_end: usize) -> (r: SummaryBlock)
    requires
        document.wf(),
        1 <= start_line,
        start_line + 1 <= scan_end <= document.num_lines(),
    ensures
        r@ == ({
            let end = run_end(document, start_line + 2, scan_end as int, RunKind::Pipe);
            BlockView {
                kind: SummaryKind::Table,
                start_line: start_line as int,
                end_line: end,
                lines: lines_between(document, start_line as int, end),
            }
        }),
{
    let end_line = run_end_exec(document, start_line, 2, scan_end, RunKind::Pipe);
    SummaryBlock {
        kind: SummaryKind::Table,
        start_line,
        end_line,
        lines: collect_lines(document, start_line, end_line),
    }
}

fn capture_list(document: &Document, start_line: usize, scan_end: usize) -> (r: SummaryBlock)
    requires
        document.wf(),
        1 <= start_line <= scan_end <= document.num_lines(),
    ensures
        r@ == ({
            let end = run_end(document, start_line + 1, scan_end as int, RunKind::Any);
            BlockView {
                kind: SummaryKind::List,
                start_line: start_line as int,
                end_line: end,
                lines: lines_between(document, start_line as int, end),
            }
        }),
{
    let end_line = run_end_exec(document, start_line, 1, scan_end, RunKind::Any);
    SummaryBlock {
        kind: SummaryKind::List,
        start_line,
        end_line,
        lines: collect_lines(document, start_line, end_line),
    }
}

fn capture_paragraph_like(document: &Document, start_line: usize, scan_end: usize) -> (r: SummaryBlock)
    requires
        document.wf(),
        1 <= start_line <= scan_end <= document.num_lines(),
    ensures
        r@ == ({
            let end = run_end(document, start_line + 1, scan_end as int, RunKind::Any);
            BlockView {
                kind: if spec_image_start(document.line_text(start_line as int)) {
                    SummaryKind::Image
                } else {
                    SummaryKind::Paragraph
                },
                start_line: start_line as int,
                end_line: end,
                lines: lines_between(document, start_line as int, end),
            }
        }),
{
    let end_line = run_end_exec(document, start_line, 1, scan_end, RunKind::Any);
    let first = line_chars(document, start_line);
    let kind = if is_image_paragraph_start(&first) {
        SummaryKind::Image
    } else {
        SummaryKind::Paragraph
    };
    SummaryBlock { kind, start_line, end_line, lines: collect_lines(document, start_line, end_line) }
}

fn is_table_start(document: &Document, line_number: usize, scan_end: usize) -> (r: bool)
    requires
        document.wf(),
        1 <= line_number <= scan_end <= document.num_lines(),
    ensures
        r == spec_table_start(document, line_number as int, scan_end as int),
{
    if line_number >= scan_end {
        return false;
    }
    let header = line_chars(document, line_number);
    let separator = line_chars(document, line_number + 1);
    proof {
        assert(header@.subrange(0, header@.len() as int) =~= header@);
    }
    range_contains(&header, 0, header.len(), '|') && is_table_separator_row(&separator)
}

impl Section {
    /// The first block of this section's body before any nested heading.
    pub fn summary_block(&self, document: &Document) -> (r: Option<SummaryBlock>)
        requires
            document.wf(),
        ensures
            block_view(r) == spec_summary(document, self@),
    {
        let window_end = summary_scan_end(document, self);
        let count = document.line_count();
        let scan_end = if window_end < count {
            window_end
        } else {
            count
        };
        if self.heading.end_line >= scan_end {
            return None;
        }
        let scan_start = self.heading.end_line + 1;
        let mut line_number = scan_start;
        loop
            invariant
                document.wf(),
                1 <= scan_start <= line_number <= scan_end <= document.num_lines(),
                scan_start == self.heading.end_line + 1,
                scan_end == summary_window_end(document, self@),
                first_block_line(document, scan_start as int, scan_end as int) == first_block_line(
                    document,
                    line_number as int,
                    scan_end as int,
                ),
            decreases scan_end - line_number,
        {
            let line = line_chars(document, line_number);
            if is_blank_line(&line) || is_thematic_break(&line) {
                if line_number == scan_end {
                    assert(first_block_line(document, line_number + 1, scan_end as int) is None);
                    return None;
                }
                line_number += 1;
                continue;
            }
            if parse_fence(&line).is_some() {
                return Some(capture_fenced_code(document, line_number, scan_end));
            }
            if is_blockquote_line(&line) {
                return Some(
                    capture_contiguous_block(document, line_number, scan_end, SummaryKind::Blockquote),
                );
            }
            if is_table_start(document, line_number, scan_end) {
                return Some(capture_table(document, line_number, scan_end));
            }
            if is_list_start(&line) {
                return Some(capture_list(document, line_number, scan_end));
            }
            return Some(capture_paragraph_like(document, line_number, scan_end));
        }
    }
}

} // verus!

verus! {

// ---------------------------------------------------------------------
// Payloads
// ---------------------------------------------------------------------
pub open spec fn char_views(v: Seq<Vec<char>>) -> Seq<Seq<char>> {
    v.map_values(|x: Vec<char>| x@)
}

/// All ASCII-whitespace separated words of the lines, in order.
pub open spec fn words_of_lines(ls: Seq<Seq<char>>) -> Seq<Seq<char>>
    decreases ls.len(),
{
    if ls.len() == 0 {
        seq![]
    } else {
        words_of_lines(ls.drop_last()) + words(ls.last())
    }
}

/// The lines' words joined by single spaces.
pub open spec fn normalize_lines_spec(ls: Seq<Seq<char>>) -> Seq<char> {
    join(words_of_lines(ls), seq![' '])
}

/// A quote line without up to 3 spaces of indent, its `>` and the whitespace after it.
pub open spec fn strip_quote_spec(l: Seq<char>) -> Seq<char> {
    let i = indent_of(l);
    let indent = if i > 3 {
        3
    } else {
        i
    };
    let t = l.skip(indent as int);
    let w = if starts_with(t, seq!['>']) {
        t.drop_first()
    } else {
        t
    };
    trim_start(w)
}

/// Indent of a list item line, when it is one.
pub open spec fn list_marker_indent_spec(l: Seq<char>) -> Option<nat> {
    let i = indent_of(l);
    if i > 3 {
        None
    } else if spec_list_marker(l.skip(i as int)) {
        Some(i)
    } else {
        None
    }
}

/// The item text after a list marker.
pub open spec fn strip_list_marker_spec(l: Seq<char>) -> Option<Seq<char>> {
    if starts_with(l, seq!['-', ' ']) || starts_with(l, seq!['*', ' ']) || starts_with(
        l,
        seq!['+', ' '],
    ) {
        Some(l.skip(2))
    } else {
        let d = lead_len(l, CharClass::Digit);
        if d == 0 {
            None
        } else if starts_with(l.skip(d as int), seq!['.', ' ']) {
            Some(l.skip(d as int + 2))
        } else {
            None
        }
    }
}

/// The normalized text of a list item at indent `base`.
pub open spec fn top_item_spec(l: Seq<char>, base: nat) -> Option<Seq<char>> {
    match list_marker_indent_spec(l) {
        None => None,
        Some(i) => if i != base {
            None
        } else {
            match strip_list_marker_spec(l.skip(i as int)) {
                Some(rest) => Some(normalize(rest)),
                None => None,
            }
        },
    }
}

/// Indent of the first list item line from `k` on, or 0.
pub open spec fn list_base(ls: Seq<Seq<char>>, k: int) -> nat
    decreases ls.len() - k,
{
    if k < 0 || k >= ls.len() {
        0
    } else {
        match list_marker_indent_spec(ls[k]) {
            Some(i) => i,
            None => list_base(ls, k + 1),
        }
    }
}

/// The item texts of the lines at indent `base`, in order.
pub open spec fn list_items(ls: Seq<Seq<char>>, base: nat) -> Seq<Seq<char>>
    decreases ls.len(),
{
    if ls.len() == 0 {
        seq![]
    } else {
        list_items(ls.drop_last(), base) + match top_item_spec(ls.last(), base) {
            Some(x) => seq![x],
            None => seq![],
        }
    }
}

pub open spec fn first_three(s: Seq<Seq<char>>) -> Seq<Seq<char>> {
    if s.len() > 3 {
        s.take(3)
    } else {
        s
    }
}

/// Up to three top-level items joined by `; `.
pub open spec fn list_payload_spec(ls: Seq<Seq<char>>) -> Seq<char> {
    join(first_three(list_items(ls, list_base(ls, 0))), "; "@)
}

/// `<lang>, <N> lines`: the first token of the info string (or `text`) and
/// the number of lines between the fences.
pub open spec fn code_payload_spec(ls: Seq<Seq<char>>) -> Seq<char> {
    let o = ls[0];
    let (c, len) = spec_parse_fence(o)->0;
    let info = trim(trim_start(o).skip(len as int));
    let lang = if info.len() == 0 {
        "text"@
    } else {
        info.take(lead_len(info, CharClass::NotWs) as int)
    };
    let n: int = if spec_fence_closing(ls.last(), c, len) {
        if ls.len() >= 2 {
            ls.len() - 2
        } else {
            0
        }
    } else {
        ls.len() - 1
    };
    lang + ", "@ + dec(n as nat) + " lines"@
}

/// The cells of a table row, each normalized.
pub open spec fn table_cells(l: Seq<char>) -> Seq<Seq<char>> {
    split_on(trim_char(trim(l), '|'), '|').map_values(|c: Seq<char>| normalize(trim(c)))
}

/// `<headers> (<cols> cols x <rows> rows)`.
pub open spec fn table_payload_spec(ls: Seq<Seq<char>>) -> Seq<char> {
    let headers = if ls.len() > 0 {
        join(table_cells(ls[0]), " | "@)
    } else {
        seq![]
    };
    let cols: nat = if ls.len() > 0 {
        table_cells(ls[0]).len()
    } else {
        0
    };
    let rows: nat = if ls.len() >= 2 {
        (ls.len() - 2) as nat
    } else {
        0
    };
    headers + " ("@ + dec(cols) + " cols x "@ + dec(rows) + " rows)"@
}

/// `alt="<alt>", src=<data-uri|url|path>`.
pub open spec fn image_payload_spec(ls: Seq<Seq<char>>) -> Seq<char> {
    let l = trim_start(ls[0]);
    let a = find_sub(l, seq![']', '('])->0;
    let q = lead_len(l.skip(a + 2), CharClass::NotIs(')'));
    let alt = l.subrange(2, a);
    let src = l.subrange(a + 2, a + 2 + q);
    "alt=\""@ + alt + "\", src="@ + source_kind(src)
}

/// The kind of an image source: `data-uri` for `data:`, `url` when it holds
/// `://`, else `path`.
pub open spec fn source_kind(src: Seq<char>) -> Seq<char> {
    if starts_with(src, "data:"@) {
        "data-uri"@
    } else if contains_sub(src, "://"@) {
        "url"@
    } else {
        "path"@
    }
}

/// The payload of a block, by kind.
pub open spec fn payload_spec(b: BlockView) -> Seq<char> {
    match b.kind {
        SummaryKind::Paragraph => normalize_lines_spec(b.lines),
        SummaryKind::Blockquote => normalize_lines_spec(b.lines.map_values(|l: Seq<char>| strip_quote_spec(l))),
        SummaryKind::List => list_payload_spec(b.lines),
        SummaryKind::Code => code_payload_spec(b.lines),
        SummaryKind::Table => table_payload_spec(b.lines),
        SummaryKind::Image => image_payload_spec(b.lines),
    }
}

/// A code block starts with a fence and an image block with an image.
pub open spec fn payload_ok(b: BlockView) -> bool {
    match b.kind {
        SummaryKind::Code => b.lines.len() > 0 && spec_parse_fence(b.lines[0]) is Some,
        SummaryKind::Image => b.lines.len() > 0 && spec_image_start(b.lines[0]),
        _ => true,
    }
}

pub open spec fn tag_spec(k: SummaryKind) -> Seq<char> {
    match k {
        SummaryKind::Paragraph => "P"@,
        SummaryKind::Blockquote => "Q"@,
        SummaryKind::List => "L"@,
        SummaryKind::Code => "C"@,
        SummaryKind::Table => "T"@,
        SummaryKind::Image => "I"@,
    }
}

fn char_lines(lines: &Vec<String>) -> (r: Vec<Vec<char>>)
    ensures
        char_views(r@) == crate::text::string_views(lines@),
{
    let mut r: Vec<Vec<char>> = Vec::new();
    let mut k: usize = 0;
    while k < lines.len()
        invariant
            k <= lines@.len(),
            char_views(r@) == crate::text::string_views(lines@).take(k as int),
        decreases lines.len() - k,
    {
        let ghost old_r = r@;
        r.push(chars_of(lines[k].as_str()));
        proof {
            assert(char_views(r@) =~= char_views(old_r).push(lines@[k as int]@));
            assert(crate::text::string_views(lines@).take(k + 1) =~= crate::text::string_views(
                lines@,
            ).take(k as int).push(lines@[k as int]@));
        }
        k += 1;
    }
    assert(crate::text::string_views(lines@).take(k as int) =~= crate::text::string_views(lines@));
    r
}

fn normalize_lines(lines: &Vec<Vec<char>>) -> (r: String)
    ensures
        r@ == normalize_lines_spec(char_views(lines@)),
{
    let ghost ls = char_views(lines@);
    let mut all: Vec<String> = Vec::new();
    let mut k: usize = 0;
    while k < lines.len()
        invariant
            k <= lines@.len(),
            ls == char_views(lines@),
            crate::text::string_views(all@) == words_of_lines(ls.take(k as int)),
        decreases lines.len() - k,
    {
        let line = &lines[k];
        let rs = word_ranges(line, 0, line.len());
        proof {
            assert(line@.subrange(0, line@.len() as int) =~= line@);
            assert(ls.take(k + 1).drop_last() =~= ls.take(k as int));
        }
        let mut j: usize = 0;
        let ghost base = all@;
        while j < rs.len()
            invariant
                j <= rs@.len(),
                forall|i: int| 0 <= i < rs@.len() ==> (#[trigger] rs@[i]).0 <= rs@[i].1 <= line@.len(),
                crate::text::string_views(all@) == crate::text::string_views(base) + pieces(
                    line@,
                    rs@,
                ).take(j as int),
            decreases rs.len() - j,
        {
            let (a, b) = rs[j];
            let ghost before = all@;
            all.push(string_of_range(line, a, b));
            proof {
                assert(crate::text::string_views(all@) =~= crate::text::string_views(before).push(
                    line@.subrange(a as int, b as int),
                ));
                assert(pieces(line@, rs@).take(j + 1) =~= pieces(line@, rs@).take(j as int).push(
                    line@.subrange(a as int, b as int),
                ));
            }
            j += 1;
        }
        proof {
            assert(pieces(line@, rs@).take(j as int) =~= pieces(line@, rs@));
            assert(ls.take(k + 1).last() == line@);
        }
        k += 1;
    }
    assert(ls.take(k as int) =~= ls);
    let mut out = String::new();
    push_joined_strings(&mut out, &all, " ");
    proof {
        reveal_strlit(" ");
        assert(" "@ =~= seq![' ']);
        assert(out@ =~= normalize_lines_spec(ls));
    }
    out
}

/// Copies `v[from..to]`.
fn slice_vec(v: &[char], from: usize, to: usize) -> (r: Vec<char>)
    requires
        from <= to <= v@.len(),
    ensures
        r@ == v@.subrange(from as int, to as int),
{
    let mut r: Vec<char> = Vec::new();
    let mut i = from;
    while i < to
        invariant
            from <= i <= to <= v@.len(),
            r@ == v@.subrange(from as int, i as int),
        decreases to - i,
    {
        r.push(v[i]);
        i += 1;
        assert(r@ =~= v@.subrange(from as int, i as int));
    }
    r
}

fn strip_blockquote_marker(line: &[char]) -> (r: Vec<char>)
    ensures
        r@ == strip_quote_spec(line@),
{
    let n = line.len();
    let lead = lead_count(line, 0, n, CharClass::Is(' '));
    proof {
        assert(line@.subrange(0, n as int) =~= line@);
    }
    let indent = if lead > 3 {
        3
    } else {
        lead
    };
    proof {
        assert(line@.skip(indent as int) =~= line@.subrange(indent as int, n as int));
    }
    let w = if starts_with1(line, indent, n, '>') {
        proof {
            assert(line@.skip(indent as int).drop_first() =~= line@.subrange(indent + 1, n as int));
        }
        indent + 1
    } else {
        indent
    };
    let a = trim_start_range(line, w, n);
    slice_vec(line, a, n)
}

fn blockquote_payload(lines: &Vec<Vec<char>>) -> (r: String)
    ensures
        r@ == normalize_lines_spec(char_views(lines@).map_values(|l: Seq<char>| strip_quote_spec(l))),
{
    let mut stripped: Vec<Vec<char>> = Vec::new();
    let mut k: usize = 0;
    while k < lines.len()
        invariant
            k <= lines@.len(),
            char_views(stripped@) == char_views(lines@).map_values(|l: Seq<char>| strip_quote_spec(l)).take(
                k as int,
            ),
        decreases lines.len() - k,
    {
        let ghost before = stripped@;
        stripped.push(strip_blockquote_marker(&lines[k]));
        proof {
            assert(char_views(stripped@) =~= char_views(before).push(strip_quote_spec(lines@[k as int]@)));
            assert(char_views(lines@).map_values(|l: Seq<char>| strip_quote_spec(l)).take(k + 1)
                =~= char_views(lines@).map_values(|l: Seq<char>| strip_quote_spec(l)).take(
                k as int,
            ).push(strip_quote_spec(lines@[k as int]@)));
        }
        k += 1;
    }
    assert(char_views(lines@).map_values(|l: Seq<char>| strip_quote_spec(l)).take(k as int)
        =~= char_views(lines@).map_values(|l: Seq<char>| strip_quote_spec(l)));
    normalize_lines(&stripped)
}

fn list_marker_indent(line: &[char]) -> (r: Option<usize>)
    ensures
        r matches Some(i) ==> list_marker_indent_spec(line@) == Some(i as nat) && i <= line@.len(),
        r is None <==> list_marker_indent_spec(line@) is None,
{
    let n = line.len();
    let indent = lead_count(line, 0, n, CharClass::Is(' '));
    proof {
        assert(line@.subrange(0, n as int) =~= line@);
        assert(line@.skip(indent as int) =~= line@.subrange(indent as int, n as int));
    }
    if indent > 3 {
        return None;
    }
    if matches_list_marker(line, indent, n) {
        Some(indent)
    } else {
        None
    }
}

/// Start of the item text after the list marker at `from`, when there is one.
fn strip_list_marker(line: &[char], from: usize) -> (r: Option<usize>)
    requires
        from <= line@.len(),
    ensures
        r matches Some(k) ==> from <= k <= line@.len() && strip_list_marker_spec(line@.skip(from as int))
            == Some(line@.subrange(k as int, line@.len() as int)),
        r is None <==> strip_list_marker_spec(line@.skip(from as int)) is None,
{
    let n = line.len();
    let ghost l = line@.skip(from as int);
    proof {
        assert(l =~= line@.subrange(from as int, n as int));
    }
    if starts_with2(line, from, n, '-', ' ') || starts_with2(line, from, n, '*', ' ')
        || starts_with2(line, from, n, '+', ' ') {
        proof {
            assert(l.skip(2) =~= line@.subrange(from + 2, n as int));
        }
        return Some(from + 2);
    }
    let digits = lead_count(line, from, n, CharClass::Digit);
    if digits == 0 {
        return None;
    }
    proof {
        assert(l.skip(digits as int) =~= line@.subrange(from + digits, n as int));
    }
    if starts_with2(line, from + digits, n, '.', ' ') {
        proof {
            assert(l.skip(digits + 2) =~= line@.subrange(from + digits + 2, n as int));
        }
        Some(from + digits + 2)
    } else {
        None
    }
}

fn top_level_list_item_text(line: &[char], base_indent: usize) -> (r: Option<String>)
    ensures
        r matches Some(s) ==> top_item_spec(line@, base_indent as nat) == Some(s@),
        r is None <==> top_item_spec(line@, base_indent as nat) is None,
{
    let indent = match list_marker_indent(line) {
        Some(i) => i,
        None => return None,
    };
    if indent != base_indent {
        return None;
    }
    match strip_list_marker(line, indent) {
        Some(k) => Some(normalize_range(line, k, line.len())),
        None => None,
    }
}

fn list_payload(lines: &Vec<Vec<char>>) -> (r: String)
    ensures
        r@ == list_payload_spec(char_views(lines@)),
{
    let ghost ls = char_views(lines@);
    let mut base_indent: usize = 0;
    let mut k: usize = 0;
    while k < lines.len()
        invariant_except_break
            list_base(ls, 0) == list_base(ls, k as int),
            base_indent == 0,
        invariant
            k <= lines@.len(),
            ls == char_views(lines@),
        ensures
            base_indent == list_base(ls, 0),
        decreases lines.len() - k,
    {
        if let Some(i) = list_marker_indent(&lines[k]) {
            base_indent = i;
            break;
        }
        k += 1;
    }
    let mut items: Vec<String> = Vec::new();
    let mut k: usize = 0;
    while k < lines.len()
        invariant
            k <= lines@.len(),
            ls == char_views(lines@),
            base_indent == list_base(ls, 0),
            crate::text::string_views(items@) == first_three(list_items(ls.take(k as int), base_indent as nat)),
        decreases lines.len() - k,
    {
        let item = top_level_list_item_text(&lines[k], base_indent);
        proof {
            assert(ls.take(k + 1).drop_last() =~= ls.take(k as int));
            assert(ls.take(k + 1).last() == ls[k as int]);
        }
        let ghost before = items@;
        match item {
            Some(s) => {
                if items.len() < 3 {
                    items.push(s);
                    proof {
                        assert(crate::text::string_views(items@) =~= crate::text::string_views(before).push(
                            items@.last()@,
                        ));
                        assert(first_three(list_items(ls.take(k + 1), base_indent as nat)) =~= first_three(
                            list_items(ls.take(k as int), base_indent as nat),
                        ).push(items@.last()@));
                    }
                } else {
                    proof {
                        assert(first_three(list_items(ls.take(k + 1), base_indent as nat)) =~= first_three(
                            list_items(ls.take(k as int), base_indent as nat),
                        ));
                    }
                }
            },
            None => {
                proof {
                    assert(list_items(ls.take(k + 1), base_indent as nat) =~= list_items(
                        ls.take(k as int),
                        base_indent as nat,
                    ));
                }
            },
        }
        k += 1;
    }
    assert(ls.take(k as int) =~= ls);
    let mut out = String::new();
    push_joined_strings(&mut out, &items, "; ");
    assert(out@ =~= list_payload_spec(ls));
    out
}

} // verus!

verus! {

/// A fence line trims to its fence: the fence starts after the indent, and
/// the info string follows the fence characters.
proof fn lemma_fence_info(o: Seq<char>)
    requires
        spec_parse_fence(o) is Some,
    ensures
        ({
            let (c, len) = spec_parse_fence(o)->0;
            let indent = crate::document::indent_of(o) as int;
            &&& trim_start(o) == o.skip(indent)
            &&& indent + len <= o.len()
            &&& trim_start(o).skip(len as int) == o.subrange(indent + len, o.len() as int)
        }),
{
    let indent = crate::document::indent_of(o);
    crate::text::lemma_lead_len_bound(o, CharClass::Is(' '));
    assert forall|i: int| 0 <= i < indent implies crate::text::in_class(CharClass::Ws, #[trigger] o[i]) by {
        assert(crate::text::in_class(CharClass::Is(' '), o[i]));
    }
    assert(o.skip(indent as int)[0] == o[indent as int]);
    crate::text::lemma_lead_len(o, CharClass::Ws, indent as int);
    let rest = o.skip(indent as int);
    crate::text::lemma_lead_len_bound(rest, CharClass::Is(rest[0]));
    let (c, len) = spec_parse_fence(o)->0;
    assert(trim_start(o).skip(len as int) =~= o.subrange((indent + len) as int, o.len() as int));
}

#[verifier::spinoff_prover]
fn code_payload(lines: &Vec<Vec<char>>) -> (r: String)
    requires
        lines@.len() > 0,
        spec_parse_fence(lines@[0]@) is Some,
    ensures
        r@ == code_payload_spec(char_views(lines@)),
{
    let ghost ls = char_views(lines@);
    let opening = &lines[0];
    let n = opening.len();
    let (fence_char, fence_len) = parse_fence(opening).unwrap();
    proof {
        assert(opening@.subrange(0, n as int) =~= opening@);
    }
    let t = trim_start_range(opening, 0, n);
    proof {
        lemma_fence_info(opening@);
        assert(t == crate::document::indent_of(opening@));
    }
    let (x, y) = trim_ws_range(opening, t + fence_len, n);
    let mut out = String::new();
    if x == y {
        crate::text::push_str(&mut out, "text");
    } else {
        let k = lead_count(opening, x, y, CharClass::NotWs);
        proof {
            assert(opening@.subrange(x as int, y as int).take(k as int) =~= opening@.subrange(
                x as int,
                x + k,
            ));
        }
        crate::text::push_range(&mut out, opening, x, x + k);
    }
    let last = &lines[lines.len() - 1];
    let has_closing_fence = is_fence_closing_line(last, fence_char, fence_len);
    let content_line_count = if has_closing_fence {
        lines.len().saturating_sub(2)
    } else {
        lines.len() - 1
    };
    crate::text::push_str(&mut out, ", ");
    crate::text::push_decimal(&mut out, content_line_count);
    crate::text::push_str(&mut out, " lines");
    proof {
        assert(ls.last() == last@);
        assert(out@ =~= code_payload_spec(ls));
    }
    out
}

fn parse_table_cells(l: &[char]) -> (r: Vec<String>)
    ensures
        crate::text::string_views(r@) == table_cells(l@),
{
    let n = l.len();
    proof {
        assert(l@.subrange(0, n as int) =~= l@);
    }
    let (a, b) = trim_ws_range(l, 0, n);
    let (c, d) = trim_range(l, a, b, CharClass::Is('|'));
    let rs = split_ranges(l, c, d, '|');
    let ghost ps = pieces(l@, rs@);
    assert(ps == split_on(trim_char(trim(l@), '|'), '|'));
    let mut out: Vec<String> = Vec::new();
    let mut k: usize = 0;
    while k < rs.len()
        invariant
            k <= rs@.len(),
            ps == pieces(l@, rs@),
            forall|j: int| 0 <= j < rs@.len() ==> c <= (#[trigger] rs@[j]).0 <= rs@[j].1 <= d,
            d <= l@.len(),
            crate::text::string_views(out@) == ps.map_values(|c: Seq<char>| normalize(trim(c))).take(
                k as int,
            ),
        decreases rs.len() - k,
    {
        let (x, y) = rs[k];
        let (x2, y2) = trim_ws_range(l, x, y);
        let ghost before = out@;
        out.push(normalize_range(l, x2, y2));
        proof {
            assert(ps[k as int] == l@.subrange(x as int, y as int));
            assert(crate::text::string_views(out@) =~= crate::text::string_views(before).push(
                normalize(trim(ps[k as int])),
            ));
            assert(ps.map_values(|c: Seq<char>| normalize(trim(c))).take(k + 1) =~= ps.map_values(
                |c: Seq<char>| normalize(trim(c)),
            ).take(k as int).push(normalize(trim(ps[k as int]))));
        }
        k += 1;
    }
    assert(ps.map_values(|c: Seq<char>| normalize(trim(c))).take(k as int) =~= ps.map_values(
        |c: Seq<char>| normalize(trim(c)),
    ));
    out
}

fn table_payload(lines: &Vec<Vec<char>>) -> (r: String)
    ensures
        r@ == table_payload_spec(char_views(lines@)),
{
    let ghost ls = char_views(lines@);
    let mut out = String::new();
    let mut column_count: usize = 0;
    if lines.len() > 0 {
        let cells = parse_table_cells(&lines[0]);
        crate::text::push_joined_strings(&mut out, &cells, " | ");
        column_count = cells.len();
    }
    let row_count = lines.len().saturating_sub(2);
    crate::text::push_str(&mut out, " (");
    crate::text::push_decimal(&mut out, column_count);
    crate::text::push_str(&mut out, " cols x ");
    crate::text::push_decimal(&mut out, row_count);
    crate::text::push_str(&mut out, " rows)");
    proof {
        assert(out@ =~= table_payload_spec(ls));
    }
    out
}

#[verifier::spinoff_prover]
fn image_payload(lines: &Vec<Vec<char>>) -> (r: String)
    requires
        lines@.len() > 0,
        spec_image_start(lines@[0]@),
    ensures
        r@ == image_payload_spec(char_views(lines@)),
{
    let ghost ls = char_views(lines@);
    let line = &lines[0];
    let n = line.len();
    let t = trim_start_range(line, 0, n);
    proof {
        assert(line@.subrange(0, n as int) =~= line@);
    }
    let ghost tl = line@.subrange(t as int, n as int);
    let alt_end = find_pair(line, t, n, ']', '(').unwrap();
    proof {
        lemma_find_from_bounds(tl, seq![']', '('], 0);
        assert(tl.subrange(alt_end as int, alt_end + 2) == seq![']', '(']);
        assert(tl.take(2) == seq!['!', '[']);
        if alt_end == 0 {
            assert(tl.subrange(0, 2)[0] == tl.take(2)[0]);
        }
        if alt_end == 1 {
            assert(tl.subrange(1, 3)[0] == tl.take(2)[1]);
        }
        assert(alt_end >= 2);
    }
    let from = t + alt_end + 2;
    let q = lead_count(line, from, n, CharClass::NotIs(')'));
    proof {
        assert(tl.skip(alt_end + 2) =~= line@.subrange(from as int, n as int));
    }
    let data = chars_of("data:");
    let scheme = chars_of("://");
    let mut out = String::new();
    crate::text::push_str(&mut out, "alt=\"");
    crate::text::push_range(&mut out, line, t + 2, t + alt_end);
    crate::text::push_str(&mut out, "\", src=");
    if crate::text::range_starts_with(line, from, from + q, data.as_slice()) {
        crate::text::push_str(&mut out, "data-uri");
    } else if crate::text::find_in_range(line, from, from + q, scheme.as_slice()).is_some() {
        crate::text::push_str(&mut out, "url");
    } else {
        crate::text::push_str(&mut out, "path");
    }
    proof {
        assert(tl.subrange(2, alt_end as int) =~= line@.subrange(t + 2, t + alt_end));
        assert(tl.subrange(alt_end + 2, alt_end + 2 + q) =~= line@.subrange(from as int, from + q));
        assert(out@ =~= image_payload_spec(ls));
    }
    out
}

impl SummaryBlock {
    /// One-letter tag of the block kind.
    pub fn tag(&self) -> (r: &'static str)
        ensures
            r@ == tag_spec(self.kind),
    {
        match self.kind {
            SummaryKind::Paragraph => "P",
            SummaryKind::Blockquote => "Q",
            SummaryKind::List => "L",
            SummaryKind::Code => "C",
            SummaryKind::Table => "T",
            SummaryKind::Image => "I",
        }
    }

    /// The one-line summary text of the block.
    pub fn payload(&self) -> (r: String)
        requires
            payload_ok(self@),
        ensures
            r@ == payload_spec(self@),
    {
        let lines = char_lines(&self.lines);
        match self.kind {
            SummaryKind::Paragraph => normalize_lines(&lines),
            SummaryKind::Blockquote => blockquote_payload(&lines),
            SummaryKind::List => list_payload(&lines),
            SummaryKind::Code => code_payload(&lines),
            SummaryKind::Table => table_payload(&lines),
            SummaryKind::Image => image_payload(&lines),
        }
    }
}

} // verus!

verus! {

proof fn lemma_code_end(doc: &Document, m: int, e: int, c: char, len: nat)
    requires
        m <= e + 1,
    ensures
        m - 1 <= code_end(doc, m, e, c, len) <= e,
    decreases e + 1 - m,
{
    if m <= e && !spec_fence_closing(doc.line_text(m), c, len) {
        lemma_code_end(doc, m + 1, e, c, len);
    }
}

proof fn lemma_run_end(doc: &Document, m: int, e: int, k: RunKind)
    requires
        m <= e + 1,
    ensures
        m - 1 <= run_end(doc, m, e, k) <= e,
    decreases e + 1 - m,
{
    if m <= e && !(is_blank(doc.line_text(m)) || !run_ok(k, doc.line_text(m))) {
        lemma_run_end(doc, m + 1, e, k);
    }
}

proof fn lemma_first_block_line(doc: &Document, n: int, e: int)
    ensures
        first_block_line(doc, n, e) matches Some(m) ==> n <= m <= e,
    decreases e + 1 - n,
{
    if n <= e && (is_blank(doc.line_text(n)) || spec_thematic_break(doc.line_text(n))) {
        lemma_first_block_line(doc, n + 1, e);
    }
}

/// A summary block lies inside the section's scan window, starts at its first
/// line, and can always be given a payload.
pub proof fn lemma_summary_block(doc: &Document, sec: SectionView)
    ensures
        spec_summary(doc, sec) matches Some(b) ==> {
            &&& sec.heading.end_line + 1 <= b.start_line <= b.end_line
            &&& b.end_line <= summary_window_end(doc, sec)
            &&& b.end_line <= scan_window_end(spec_headings(doc), sec)
            &&& b.lines.len() == b.end_line - b.start_line + 1
            &&& b.lines[0] == doc.line_text(b.start_line)
            &&& payload_ok(b)
        },
{
    let start = sec.heading.end_line + 1;
    let e = summary_window_end(doc, sec);
    if start <= e {
        lemma_first_block_line(doc, start, e);
        if let Some(n) = first_block_line(doc, start, e) {
            let l = doc.line_text(n);
            match spec_parse_fence(l) {
                Some((c, len)) => lemma_code_end(doc, n + 1, e, c, len),
                None => {
                    lemma_run_end(doc, n + 1, e, RunKind::Quote);
                    lemma_run_end(doc, n + 1, e, RunKind::Any);
                    if spec_table_start(doc, n, e) {
                        lemma_run_end(doc, n + 2, e, RunKind::Pipe);
                    }
                },
            }
        }
    }
}

} // verus!

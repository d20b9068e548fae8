//! What holds of the library as a whole: how lines cover the text, where
//! sections end, what `get`, `find` and `tree --max-depth` give back.
use vstd::prelude::*;

use crate::cli::{FindArgs, GetArgs, GetFormat};
use crate::command::get_output;
use crate::document::{lines_count, spans_cover, spec_headings, Document};
use crate::render::{extracted_end, get_json_spec, get_text_spec, keep_depth};
use crate::summary::{
    first_block_line, first_nested, is_blank, scan_window_end, spec_summary, spec_thematic_break,
};
use crate::search::{
    flagged_lines, line_flags, line_matches, match_limit, matching_lines, section_id_for, spec_find,
};
use crate::section::{
    find_for_line, first_closer, law_section_ranges, lemma_first_closer, levels, spec_sections,
    SectionView, ROOT_SECTION_ID,
};
use crate::summary::{
    code_payload_spec, first_three, image_payload_spec, list_base, list_items, payload_spec,
    table_cells, table_payload_spec, top_item_spec, words_of_lines, BlockView, SummaryKind,
};
use crate::text::{dec, is_ascii_digit, join, lead_len, lemma_dec_digits, lemma_lead_len_bound, words, CharClass};
use vstd::utf8::{
    decode_first_scalar, decode_utf8, is_leading_byte_width_1, pop_first_scalar, valid_utf8,
};

verus! {

/// The lines of a document follow one another and together make up its whole
/// text: the first starts at byte 0, each next one where the previous one's
/// line break ends, and the last ends with the text. A document has no lines
/// exactly when its text is empty.
pub proof fn law_lines_cover_text(doc: &Document)
    requires
        doc.wf(),
    ensures
        spans_cover(doc.bytes(), doc.spans(), 0),
        doc.num_lines() == 0 <==> doc.bytes().len() == 0,
        doc.num_lines() > 0 ==> doc.lines_bytes(1, doc.num_lines()) == doc.bytes(),
        doc.num_lines() == lines_count(doc.bytes()),
{
    doc.lemma_wf();
    if doc.num_lines() > 0 {
        assert(doc.lines_bytes(1, doc.num_lines()) =~= doc.bytes());
        doc.lemma_lines_count(1, doc.num_lines());
    }
}

/// Each line is its text followed by its line break: `\n`, or `\r\n`, or
/// nothing for a last line that has none. A line's text never keeps the `\r`
/// of a `\r\n` break: it ends in `\r` only when the break is missing.
pub proof fn law_line_break(doc: &Document, n: int)
    requires
        doc.wf(),
        1 <= n <= doc.num_lines(),
    ensures
        ({
            let text = doc.bytes().subrange(doc.line_start(n), doc.line_end(n));
            let all = doc.lines_bytes(n, n);
            &&& all == text + seq![10u8] || all == text + seq![13u8, 10u8] || (all == text && n
                == doc.num_lines() && doc.line_full_end(n) == doc.bytes().len())
            &&& all == text + seq![10u8] ==> text.len() == 0 || text.last() != 13
            &&& forall|k: int| 0 <= k < text.len() ==> text[k] != 10
        }),
{
    doc.lemma_chain();
    lemma_chain_break(doc.bytes(), doc.spans(), n);
}

proof fn lemma_chain_break(b: Seq<u8>, sps: Seq<(int, int, int)>, n: int)
    requires
        crate::document::spans_chain(b, sps),
        1 <= n <= sps.len(),
    ensures
        ({
            let sp = sps[n - 1];
            let text = b.subrange(sp.0, sp.1);
            let all = b.subrange(sp.0, sp.2);
            &&& all == text + seq![10u8] || all == text + seq![13u8, 10u8] || (all == text && n
                == sps.len() && sp.2 == b.len())
            &&& all == text + seq![10u8] ==> text.len() == 0 || text.last() != 13
            &&& forall|k: int| 0 <= k < text.len() ==> text[k] != 10
        }),
{
    assert(crate::document::span_shape(b, sps[n - 1]));
    lemma_span_break(b, sps[n - 1]);
    if sps[n - 1].2 == sps[n - 1].1 && n < sps.len() {
        assert(crate::document::span_shape(b, sps[n]));
        assert(sps[n - 1].2 == sps[n].0);
    }
}

proof fn lemma_span_break(b: Seq<u8>, sp: (int, int, int))
    requires
        crate::document::span_shape(b, sp),
    ensures
        ({
            let text = b.subrange(sp.0, sp.1);
            let all = b.subrange(sp.0, sp.2);
            &&& all == text + seq![10u8] || all == text + seq![13u8, 10u8] || (all == text && sp.2
                == b.len() && sp.2 == sp.1)
            &&& all == text + seq![10u8] ==> text.len() == 0 || text.last() != 13
            &&& forall|k: int| 0 <= k < text.len() ==> text[k] != 10
        }),
{
    let text = b.subrange(sp.0, sp.1);
    let all = b.subrange(sp.0, sp.2);
    if sp.2 == sp.1 + 1 {
        assert(all =~= text + seq![10u8]);
        if text.len() > 0 {
            assert(text.last() == b[sp.1 - 1]);
        }
    } else if sp.2 == sp.1 + 2 {
        assert(all =~= text + seq![13u8, 10u8]);
        assert(all.len() == text.len() + 2);
        assert(all != text + seq![10u8]);
    } else {
        assert(all =~= text);
        assert(all.len() == text.len());
        assert(all != text + seq![10u8]);
    }
}

/// A section ends on the line just before the next heading whose level is at
/// most its own, or on the last line of the document when no such heading
/// follows; every heading inside its range after its own is deeper.
pub proof fn law_section_end(doc: &Document, i: int)
    requires
        0 <= i < spec_sections(doc).len(),
    ensures
        ({
            let v = spec_sections(doc);
            let hs = spec_headings(doc);
            &&& forall|k: int|
                i < k < hs.len() && (#[trigger] hs[k]).start_line <= v[i].end_line ==> hs[k].level
                    > v[i].level
            &&& (v[i].end_line == doc.num_lines() <==> forall|k: int|
                i < k < hs.len() ==> (#[trigger] hs[k]).level > v[i].level)
            &&& v[i].end_line < doc.num_lines() ==> exists|k: int|
                i < k < hs.len() && (#[trigger] hs[k]).start_line == v[i].end_line + 1
                    && hs[k].level <= v[i].level
        }),
{
    let v = spec_sections(doc);
    let hs = spec_headings(doc);
    let ls = levels(hs);
    crate::document::lemma_headings(doc);
    law_section_ranges(doc);
    assert(v[i] == v[i]);
    assert(hs[i] == hs[i]);
    lemma_first_closer(ls, i, i + 1);
    match first_closer(ls, i, i + 1) {
        Some(c) => {
            assert(hs[c] == hs[c]);
            assert forall|k: int|
                i < k < hs.len() && (#[trigger] hs[k]).start_line <= v[i].end_line implies hs[k].level
                > v[i].level by {
                if k >= c {
                    if k > c {
                        assert(hs[c].end_line < hs[k].start_line);
                    }
                    assert(hs[c].start_line <= hs[c].end_line);
                }
                assert(ls[k] == hs[k].level);
            }
            assert(ls[c] == hs[c].level);
        },
        None => {
            assert forall|k: int| i < k < hs.len() implies (#[trigger] hs[k]).level > v[i].level by {
                assert(ls[k] == hs[k].level);
            }
        },
    }
}

/// Without `--max-lines`, `get` is never truncated and gives the section
/// exactly as it stands in the file, from its heading line to its last line,
/// line breaks included: as the text output (without line numbers) and as
/// the `content` of the JSON output.
pub proof fn law_get_exact_slice(doc: &Document, a: GetArgs, i: int)
    requires
        0 <= i < spec_sections(doc).len(),
        a.max_lines is None,
    ensures
        ({
            let s = spec_sections(doc)[i];
            let text = decode_utf8(doc.lines_bytes(s.start_line, s.end_line));
            &&& extracted_end(s.start_line, s.end_line, a.max_lines) == s.end_line
            &&& a.format == GetFormat::Text && !a.with_line_numbers ==> get_output(doc, a, s) == text
            &&& a.format == GetFormat::Json ==> get_output(doc, a, s) == get_json_spec(
                a.file@,
                a.id@,
                s.start_line,
                s.end_line,
                false,
                text,
            )
        }),
{
    law_section_ranges(doc);
    assert(spec_sections(doc)[i] == spec_sections(doc)[i]);
}

/// `--max-lines N` keeps the first `min(N, section lines)` lines of the
/// section, and the output is marked truncated exactly when `N` is smaller
/// than the section's line count.
pub proof fn law_get_truncation(doc: &Document, i: int, n: usize)
    requires
        doc.wf(),
        0 <= i < spec_sections(doc).len(),
        n > 0,
    ensures
        ({
            let s = spec_sections(doc)[i];
            let x = extracted_end(s.start_line, s.end_line, Some(n));
            let len = s.end_line - s.start_line + 1;
            &&& lines_count(doc.lines_bytes(s.start_line, x)) == if n < len {
                n as int
            } else {
                len
            }
            &&& (x < s.end_line <==> n < len)
        }),
{
    law_section_ranges(doc);
    let s = spec_sections(doc)[i];
    let x = extracted_end(s.start_line, s.end_line, Some(n));
    doc.lemma_lines_count(s.start_line, x);
}

/// Every reported match is a matching line of the document; the matches come
/// in ascending line order, at most `--max-matches` of them (at least one
/// when there is one); each carries its line's text and the id of the
/// innermost section holding the line, and no matching line is skipped
/// before the last one reported.
pub proof fn law_find_results(doc: &Document, a: FindArgs)
    ensures
        ({
            let r = spec_find(doc, a);
            let all = matching_lines(doc, a.query@, a.regex, a.case_sensitive, doc.num_lines());
            &&& r.len() <= match_limit(a.max_matches)
            &&& r.len() == all.len() || r.len() == match_limit(a.max_matches)
            &&& forall|j: int|
                0 <= j < r.len() ==> {
                    let m = #[trigger] r[j];
                    &&& 1 <= m.line <= doc.num_lines()
                    &&& line_matches(a.query@, a.regex, a.case_sensitive, doc.line_text(m.line))
                    &&& m.text == doc.line_text(m.line)
                    &&& m.section_id == section_id_for(doc, m.line)
                }
            &&& forall|j1: int, j2: int| 0 <= j1 < j2 < r.len() ==> (#[trigger] r[j1]).line < (#[trigger] r[j2]).line
            &&& forall|n: int|
                1 <= n <= doc.num_lines() && line_matches(
                    a.query@,
                    a.regex,
                    a.case_sensitive,
                    doc.line_text(n),
                ) && (r.len() < match_limit(a.max_matches) || n <= r.last().line) ==> exists|j: int|
                    0 <= j < r.len() && (#[trigger] r[j]).line == n
        }),
{
    let q = a.query@;
    let flags = line_flags(doc, q, a.regex, a.case_sensitive);
    let all = matching_lines(doc, q, a.regex, a.case_sensitive, doc.num_lines());
    lemma_flagged_lines(flags, doc.num_lines());
    assert forall|n: int| 1 <= n <= doc.num_lines() implies flags[n - 1] == line_matches(
        q,
        a.regex,
        a.case_sensitive,
        doc.line_text(n),
    ) by {}
    let r = spec_find(doc, a);
    let k = match_limit(a.max_matches);
    let taken = if all.len() > k {
        all.take(k)
    } else {
        all
    };
    assert(r.len() == taken.len());
    assert forall|j: int| 0 <= j < r.len() implies (#[trigger] r[j]).line == all[j] by {}
    assert forall|n: int|
        1 <= n <= doc.num_lines() && line_matches(q, a.regex, a.case_sensitive, doc.line_text(n)) && (
        r.len() < k || n <= r.last().line) implies exists|j: int|
        0 <= j < r.len() && (#[trigger] r[j]).line == n by {
        assert(flags[n - 1]);
        let t = choose|t: int| 0 <= t < all.len() && all[t] == (n - 1) + 1;
        if t >= r.len() {
            assert(r.len() == k);
            assert(r.last().line == all[r.len() - 1]);
            assert(all[r.len() - 1] < all[t]);
        }
        assert(r[t].line == n);
    }
}

/// The flagged line numbers up to `upto` are ascending, lie in `1..=upto`,
/// are flagged, and include every flagged line in that range.
proof fn lemma_flagged_lines(flags: Seq<bool>, upto: int)
    requires
        upto <= flags.len(),
    ensures
        ({
            let m = flagged_lines(flags, upto);
            &&& forall|j: int| 0 <= j < m.len() ==> 1 <= #[trigger] m[j] <= upto && flags[m[j] - 1]
            &&& forall|j1: int, j2: int| 0 <= j1 < j2 < m.len() ==> #[trigger] m[j1] < #[trigger] m[j2]
            &&& forall|i: int|
                0 <= i < upto && #[trigger] flags[i] ==> exists|t: int| 0 <= t < m.len() && m[t] == i + 1
        }),
    decreases upto,
{
    if upto > 0 {
        lemma_flagged_lines(flags, upto - 1);
        let m0 = flagged_lines(flags, upto - 1);
        let m = flagged_lines(flags, upto);
        assert forall|j: int| 0 <= j < m0.len() implies m[j] == m0[j] by {}
        assert forall|i: int| 0 <= i < upto && #[trigger] flags[i] implies exists|t: int|
            0 <= t < m.len() && m[t] == i + 1 by {
            if i < upto - 1 {
                let t = choose|t: int| 0 <= t < m0.len() && m0[t] == i + 1;
                assert(m[t] == i + 1);
            } else {
                assert(m[m.len() - 1] == i + 1);
            }
        }
    }
}

/// A line is mapped to `root` exactly when no section's range holds it (the
/// preamble before the first heading); otherwise to the innermost (latest
/// starting) section whose range holds it.
pub proof fn law_find_section_mapping(doc: &Document, n: int)
    ensures
        ({
            let v = spec_sections(doc);
            &&& section_id_for(doc, n) == ROOT_SECTION_ID@ && find_for_line(v, n, v.len() as int)
                is None <==> forall|i: int| 0 <= i < v.len() ==> !((#[trigger] v[i]).start_line <= n <= v[i].end_line)
            &&& find_for_line(v, n, v.len() as int) matches Some(i) ==> {
                &&& 0 <= i < v.len()
                &&& v[i].start_line <= n <= v[i].end_line
                &&& section_id_for(doc, n) == v[i].id
                &&& forall|k: int| i < k < v.len() ==> !((#[trigger] v[k]).start_line <= n <= v[k].end_line)
            }
        }),
{
    let v = spec_sections(doc);
    lemma_find_for_line(v, n, v.len() as int);
}

proof fn lemma_find_for_line(v: Seq<SectionView>, n: int, k: int)
    requires
        k <= v.len(),
    ensures
        find_for_line(v, n, k) matches Some(i) ==> 0 <= i < k && v[i].start_line <= n
            <= v[i].end_line && forall|j: int| i < j < k ==> !((#[trigger] v[j]).start_line <= n <= v[j].end_line),
        find_for_line(v, n, k) is None ==> forall|j: int|
            0 <= j < k ==> !((#[trigger] v[j]).start_line <= n <= v[j].end_line),
    decreases k,
{
    if k > 0 {
        lemma_find_for_line(v, n, k - 1);
    }
}

/// The outline shows exactly the sections whose level is within
/// `--max-depth`, in source order, each as computed from the full document
/// (same id, range and summary source).
pub proof fn law_depth_filter(v: Seq<SectionView>, max_depth: Option<u8>)
    ensures
        keep_depth(v, max_depth) == v.filter(|s: SectionView| within_depth(s, max_depth)),
    decreases v.len(),
{
    reveal(Seq::filter);
    if v.len() > 0 {
        law_depth_filter(v.drop_last(), max_depth);
    }
}

/// A section is shown at this depth limit.
pub open spec fn within_depth(s: SectionView, max_depth: Option<u8>) -> bool {
    match max_depth {
        Some(d) => s.level <= d,
        None => true,
    }
}

/// A section has a summary exactly when some line of its body before the
/// first nested heading is neither blank nor a thematic break; a section
/// whose body is empty, or holds only subsections, has none.
pub proof fn law_summary_presence(doc: &Document, sec: SectionView)
    ensures
        spec_summary(doc, sec) is Some <==> exists|n: int|
            sec.heading.end_line + 1 <= n <= crate::summary::summary_window_end(doc, sec) && !is_blank(
                #[trigger] doc.line_text(n),
            ) && !spec_thematic_break(doc.line_text(n)),
{
    let start = sec.heading.end_line + 1;
    let e = crate::summary::summary_window_end(doc, sec);
    lemma_first_block(doc, start, e);
}

/// A summary block starts at the first line of the scan window (after the
/// heading, before the first nested heading) that is neither blank nor a
/// thematic break, and ends within the window.
pub proof fn law_summary_first_line(doc: &Document, sec: SectionView)
    ensures
        spec_summary(doc, sec) matches Some(b) ==> {
            let e = crate::summary::summary_window_end(doc, sec);
            &&& sec.heading.end_line + 1 <= b.start_line <= b.end_line <= e
            &&& !is_blank(doc.line_text(b.start_line)) && !spec_thematic_break(doc.line_text(b.start_line))
            &&& forall|n: int|
                sec.heading.end_line + 1 <= n < b.start_line ==> is_blank(#[trigger] doc.line_text(n))
                    || spec_thematic_break(doc.line_text(n))
            &&& b.lines.len() == b.end_line - b.start_line + 1
            &&& forall|k: int| 0 <= k < b.lines.len() ==> #[trigger] b.lines[k] == doc.line_text(b.start_line + k)
        },
{
    let start = sec.heading.end_line + 1;
    let e = crate::summary::summary_window_end(doc, sec);
    crate::summary::lemma_summary_block(doc, sec);
    lemma_first_block_min(doc, start, e);
}

proof fn lemma_first_block_min(doc: &Document, n: int, e: int)
    ensures
        first_block_line(doc, n, e) matches Some(m) ==> n <= m <= e && !is_blank(doc.line_text(m))
            && !spec_thematic_break(doc.line_text(m)) && forall|k: int|
            n <= k < m ==> is_blank(#[trigger] doc.line_text(k)) || spec_thematic_break(doc.line_text(k)),
    decreases e + 1 - n,
{
    if n <= e && (is_blank(doc.line_text(n)) || spec_thematic_break(doc.line_text(n))) {
        lemma_first_block_min(doc, n + 1, e);
    }
}

proof fn lemma_first_block(doc: &Document, n: int, e: int)
    ensures
        first_block_line(doc, n, e) is Some <==> exists|m: int|
            n <= m <= e && !is_blank(#[trigger] doc.line_text(m)) && !spec_thematic_break(
                doc.line_text(m),
            ),
    decreases e + 1 - n,
{
    if n <= e {
        lemma_first_block(doc, n + 1, e);
        if !is_blank(doc.line_text(n)) && !spec_thematic_break(doc.line_text(n)) {
            assert(!is_blank(doc.line_text(n)));
        }
    }
}

/// The summary of a section never reaches a heading nested in it: its block
/// ends before every deeper heading inside the section's range.
pub proof fn law_summary_before_nested(doc: &Document, i: int)
    requires
        0 <= i < spec_sections(doc).len(),
    ensures
        ({
            let sec = spec_sections(doc)[i];
            let hs = spec_headings(doc);
            spec_summary(doc, sec) matches Some(b) ==> forall|k: int|
                0 <= k < hs.len() && sec.heading.end_line < (#[trigger] hs[k]).start_line
                    <= sec.end_line && hs[k].level > sec.level ==> b.end_line < hs[k].start_line
        }),
{
    let sec = spec_sections(doc)[i];
    let hs = spec_headings(doc);
    crate::summary::lemma_summary_block(doc, sec);
    crate::document::lemma_headings(doc);
    lemma_first_nested(hs, sec, 0);
    if let Some(b) = spec_summary(doc, sec) {
        assert forall|k: int|
            0 <= k < hs.len() && sec.heading.end_line < (#[trigger] hs[k]).start_line
                <= sec.end_line && hs[k].level > sec.level implies b.end_line < hs[k].start_line by {
            let f = first_nested(hs, sec, 0)->0;
            if k > f {
                assert(hs[f].end_line < hs[k].start_line);
                assert(hs[f].start_line <= hs[f].end_line);
            }
        }
    }
}

proof fn lemma_first_nested(hs: Seq<crate::document::HeadingView>, sec: SectionView, k: int)
    requires
        0 <= k,
    ensures
        first_nested(hs, sec, k) matches Some(f) ==> k <= f < hs.len() && hs[f].start_line
            > sec.heading.end_line && hs[f].start_line <= sec.end_line && hs[f].level > sec.level
            && forall|j: int|
            k <= j < f ==> !((#[trigger] hs[j]).start_line > sec.heading.end_line
                && hs[j].start_line <= sec.end_line && hs[j].level > sec.level),
        first_nested(hs, sec, k) is None ==> forall|j: int|
            k <= j < hs.len() ==> !((#[trigger] hs[j]).start_line > sec.heading.end_line
                && hs[j].start_line <= sec.end_line && hs[j].level > sec.level),
    decreases hs.len() - k,
{
    if k < hs.len() && !(hs[k].start_line > sec.heading.end_line && hs[k].start_line
        <= sec.end_line && hs[k].level > sec.level) {
        lemma_first_nested(hs, sec, k + 1);
    }
}

// ---------------------------------------------------------------------
// Single lines
// ---------------------------------------------------------------------
/// The text holds no line feed.
pub open spec fn no_line_feed(s: Seq<char>) -> bool {
    forall|i: int| 0 <= i < s.len() ==> s[i] != '\n'
}

proof fn lemma_concat_nlf(a: Seq<char>, b: Seq<char>)
    requires
        no_line_feed(a),
        no_line_feed(b),
    ensures
        no_line_feed(a + b),
{
    assert forall|i: int| 0 <= i < (a + b).len() implies (a + b)[i] != '\n' by {
        if i >= a.len() {
            assert((a + b)[i] == b[i - a.len()]);
        }
    }
}

proof fn lemma_join_nlf(ps: Seq<Seq<char>>, sep: Seq<char>)
    requires
        no_line_feed(sep),
        forall|k: int| 0 <= k < ps.len() ==> no_line_feed(#[trigger] ps[k]),
    ensures
        no_line_feed(join(ps, sep)),
    decreases ps.len(),
{
    if ps.len() > 1 {
        lemma_join_nlf(ps.drop_last(), sep);
        lemma_concat_nlf(join(ps.drop_last(), sep), sep);
        assert(no_line_feed(ps[ps.len() - 1]));
        lemma_concat_nlf(join(ps.drop_last(), sep) + sep, ps.last());
    } else if ps.len() == 1 {
        assert(no_line_feed(ps[0]));
    }
}

/// Words hold no ASCII whitespace, so no line feed.
proof fn lemma_words_nlf(s: Seq<char>)
    ensures
        forall|k: int| 0 <= k < words(s).len() ==> no_line_feed(#[trigger] words(s)[k]),
    decreases s.len(),
{
    if s.len() > 0 {
        if crate::text::is_ascii_ws(s[0]) {
            lemma_words_nlf(s.drop_first());
            assert(words(s) == words(s.drop_first()));
        } else {
            let n = lead_len(s, CharClass::NotAsciiWs);
            lemma_lead_len_bound(s, CharClass::NotAsciiWs);
            lemma_words_nlf(s.skip(n as int));
            let w = words(s);
            assert forall|k: int| 0 <= k < w.len() implies no_line_feed(#[trigger] w[k]) by {
                if k == 0 {
                    assert(w[0] == s.take(n as int));
                    assert forall|i: int| 0 <= i < w[0].len() implies w[0][i] != '\n' by {
                        assert(w[0][i] == s[i]);
                    }
                } else {
                    assert(w[k] == words(s.skip(n as int))[k - 1]);
                }
            }
        }
    }
}

proof fn lemma_normalize_nlf(s: Seq<char>)
    ensures
        no_line_feed(crate::text::normalize(s)),
{
    lemma_words_nlf(s);
    lemma_join_nlf(words(s), seq![' ']);
}

proof fn lemma_words_of_lines_nlf(ls: Seq<Seq<char>>)
    ensures
        forall|k: int| 0 <= k < words_of_lines(ls).len() ==> no_line_feed(#[trigger] words_of_lines(ls)[k]),
    decreases ls.len(),
{
    if ls.len() > 0 {
        lemma_words_of_lines_nlf(ls.drop_last());
        lemma_words_nlf(ls.last());
        let a = words_of_lines(ls.drop_last());
        let b = words(ls.last());
        assert forall|k: int| 0 <= k < words_of_lines(ls).len() implies no_line_feed(
            #[trigger] words_of_lines(ls)[k],
        ) by {
            if k < a.len() {
                assert(words_of_lines(ls)[k] == a[k]);
            } else {
                assert(words_of_lines(ls)[k] == b[k - a.len()]);
            }
        }
    }
}

proof fn lemma_list_items_nlf(ls: Seq<Seq<char>>, base: nat)
    ensures
        forall|k: int| 0 <= k < list_items(ls, base).len() ==> no_line_feed(#[trigger] list_items(ls, base)[k]),
    decreases ls.len(),
{
    if ls.len() > 0 {
        lemma_list_items_nlf(ls.drop_last(), base);
        let a = list_items(ls.drop_last(), base);
        assert forall|k: int| 0 <= k < list_items(ls, base).len() implies no_line_feed(
            #[trigger] list_items(ls, base)[k],
        ) by {
            if k < a.len() {
                assert(list_items(ls, base)[k] == a[k]);
            } else {
                let l = ls.last();
                let i = crate::summary::list_marker_indent_spec(l)->0;
                let rest = crate::summary::strip_list_marker_spec(l.skip(i as int))->0;
                lemma_normalize_nlf(rest);
            }
        }
    }
}

proof fn lemma_dec_nlf(n: nat)
    ensures
        no_line_feed(dec(n)),
{
    lemma_dec_digits(n);
    assert forall|i: int| 0 <= i < dec(n).len() implies dec(n)[i] != '\n' by {
        assert(is_ascii_digit(dec(n)[i]));
    }
}

/// Decoding bytes without a line feed byte gives text without a line feed.
proof fn lemma_decode_nlf(b: Seq<u8>)
    requires
        valid_utf8(b),
        forall|k: int| 0 <= k < b.len() ==> b[k] != 10,
    ensures
        no_line_feed(decode_utf8(b)),
    decreases b.len(),
{
    if b.len() > 0 {
        let rest = pop_first_scalar(b);
        let c = decode_first_scalar(b);
        vstd::utf8::decode_utf8_first_scalar(b);
        if (c as char) == '\n' {
            let ten: u32 = 10;
            assert((ten & 0x7f) as u8 == 10u8) by (bit_vector)
                requires
                    ten == 10,
            ;
            assert(vstd::utf8::encode_scalar(('\n' as char) as u32) == seq![10u8]);
            assert(vstd::utf8::take_first_scalar(b)[0] == b[0]);
        }
        lemma_decode_nlf(rest);
        assert(decode_utf8(b) == seq![c as char] + decode_utf8(rest));
        lemma_concat_nlf(seq![c as char], decode_utf8(rest));
    }
}

/// No line of a document holds a line feed: line breaks are never part of
/// a line's text.
pub proof fn law_line_text_single_line(doc: &Document, n: int)
    requires
        doc.wf(),
        1 <= n <= doc.num_lines(),
    ensures
        no_line_feed(doc.line_text(n)),
{
    broadcast use vstd::utf8::valid_utf8_split;

    doc.lemma_wf();
    let b = doc.bytes();
    let sp = doc.spans()[n - 1];
    assert(crate::document::span_ok(b, sp));
    let p = b.subrange(0, sp.1);
    assert(valid_utf8(p));
    crate::text::lemma_boundary_prefix(b, sp.1, sp.0);
    vstd::utf8::valid_utf8_split(p, sp.0);
    let sub = b.subrange(sp.0, sp.1);
    assert(p.subrange(sp.0, p.len() as int) =~= sub);
    lemma_decode_nlf(sub);
}

/// A summary payload is a single line: it never holds a line feed.
pub proof fn law_summary_single_line(doc: &Document, i: int)
    requires
        doc.wf(),
        0 <= i < spec_sections(doc).len(),
    ensures
        spec_summary(doc, spec_sections(doc)[i]) matches Some(b) ==> no_line_feed(payload_spec(b)),
{
    let sec = spec_sections(doc)[i];
    law_section_ranges(doc);
    crate::summary::lemma_summary_block(doc, sec);
    if let Some(b) = spec_summary(doc, sec) {
        match b.kind {
            SummaryKind::Paragraph => {
                lemma_words_of_lines_nlf(b.lines);
                lemma_join_nlf(words_of_lines(b.lines), seq![' ']);
            },
            SummaryKind::Blockquote => {
                let ls = b.lines.map_values(|l: Seq<char>| crate::summary::strip_quote_spec(l));
                lemma_words_of_lines_nlf(ls);
                lemma_join_nlf(words_of_lines(ls), seq![' ']);
            },
            SummaryKind::List => {
                let items = list_items(b.lines, list_base(b.lines, 0));
                lemma_list_items_nlf(b.lines, list_base(b.lines, 0));
                reveal_strlit("; ");
                lemma_join_nlf(first_three(items), "; "@);
            },
            SummaryKind::Code => lemma_code_nlf(b.lines),
            SummaryKind::Table => lemma_table_nlf(b.lines),
            SummaryKind::Image => {
                law_line_text_single_line(doc, b.start_line);
                lemma_image_nlf(b.lines);
            },
        }
    }
}

proof fn lemma_code_nlf(ls: Seq<Seq<char>>)
    requires
        ls.len() > 0,
        crate::summary::spec_parse_fence(ls[0]) is Some,
    ensures
        no_line_feed(code_payload_spec(ls)),
{
    let o = ls[0];
    let (fc, len) = crate::summary::spec_parse_fence(o)->0;
    let info = crate::text::trim(crate::text::trim_start(o).skip(len as int));
    let lang = if info.len() == 0 {
        "text"@
    } else {
        info.take(lead_len(info, CharClass::NotWs) as int)
    };
    reveal_strlit("text");
    reveal_strlit(", ");
    reveal_strlit(" lines");
    lemma_lead_len_bound(info, CharClass::NotWs);
    assert(no_line_feed(lang)) by {
        if info.len() > 0 {
            assert forall|i: int| 0 <= i < lang.len() implies lang[i] != '\n' by {
                assert(lang[i] == info[i]);
                assert(!crate::text::is_ws(info[i]));
            }
        }
    }
    let cnt: int = if crate::summary::spec_fence_closing(ls.last(), fc, len) {
        if ls.len() >= 2 {
            ls.len() - 2
        } else {
            0
        }
    } else {
        ls.len() - 1
    };
    lemma_dec_nlf(cnt as nat);
    lemma_concat_nlf(lang, ", "@);
    lemma_concat_nlf(lang + ", "@, dec(cnt as nat));
    lemma_concat_nlf(lang + ", "@ + dec(cnt as nat), " lines"@);
}

proof fn lemma_table_nlf(ls: Seq<Seq<char>>)
    ensures
        no_line_feed(table_payload_spec(ls)),
{
    reveal_strlit(" | ");
    reveal_strlit(" (");
    reveal_strlit(" cols x ");
    reveal_strlit(" rows)");
    let headers = if ls.len() > 0 {
        join(table_cells(ls[0]), " | "@)
    } else {
        seq![]
    };
    if ls.len() > 0 {
        let cells = table_cells(ls[0]);
        assert forall|k: int| 0 <= k < cells.len() implies no_line_feed(#[trigger] cells[k]) by {
            let raw = crate::text::split_on(
                crate::text::trim_char(crate::text::trim(ls[0]), '|'),
                '|',
            );
            lemma_normalize_nlf(crate::text::trim(raw[k]));
        }
        lemma_join_nlf(cells, " | "@);
    }
    let cols: nat = if ls.len() > 0 {
        table_cells(ls[0]).len()
    } else {
        0
    };
    let rows: nat = if ls.len() >= 2 {
        (ls.len() - 2) as nat
    } else {
        0
    };
    lemma_dec_nlf(cols);
    lemma_dec_nlf(rows);
    lemma_concat_nlf(headers, " ("@);
    lemma_concat_nlf(headers + " ("@, dec(cols));
    lemma_concat_nlf(headers + " ("@ + dec(cols), " cols x "@);
    lemma_concat_nlf(headers + " ("@ + dec(cols) + " cols x "@, dec(rows));
    lemma_concat_nlf(headers + " ("@ + dec(cols) + " cols x "@ + dec(rows), " rows)"@);
}

proof fn lemma_image_nlf(ls: Seq<Seq<char>>)
    requires
        ls.len() > 0,
        crate::summary::spec_image_start(ls[0]),
        no_line_feed(ls[0]),
    ensures
        no_line_feed(image_payload_spec(ls)),
{
    let l = crate::text::trim_start(ls[0]);
    let a = crate::text::find_sub(l, seq![']', '('])->0;
    crate::text::lemma_find_from_bounds(l, seq![']', '('], 0);
    crate::text::lemma_lead_len_bound(ls[0], CharClass::Ws);
    let alt = l.subrange(2, a);
    assert(no_line_feed(alt)) by {
        assert forall|i: int| 0 <= i < alt.len() implies alt[i] != '\n' by {
            assert(alt[i] == l[i + 2]);
            assert(l[i + 2] == ls[0][lead_len(ls[0], CharClass::Ws) + i + 2]);
        }
    }
    reveal_strlit("alt=\"");
    reveal_strlit("\", src=");
    reveal_strlit("data-uri");
    reveal_strlit("url");
    reveal_strlit("path");
    let q = lead_len(l.skip(a + 2), CharClass::NotIs(')'));
    let src = l.subrange(a + 2, a + 2 + q);
    let kind = if crate::text::starts_with(src, "data:"@) {
        "data-uri"@
    } else if crate::text::contains_sub(src, "://"@) {
        "url"@
    } else {
        "path"@
    };
    lemma_concat_nlf("alt=\""@, alt);
    lemma_concat_nlf("alt=\""@ + alt, "\", src="@);
    lemma_concat_nlf("alt=\""@ + alt + "\", src="@, kind);
}

/// An image summary shows the alt text and only the kind of its source
/// (`data-uri`, `url` or `path`): nothing of the source itself, so no
/// base64 data, is ever emitted; a `data:` source is reported as `data-uri`.
pub proof fn law_image_summary_hides_source(b: BlockView)
    requires
        b.kind == SummaryKind::Image,
        crate::summary::payload_ok(b),
    ensures
        ({
            let l = crate::text::trim_start(b.lines[0]);
            let a = crate::text::find_sub(l, seq![']', '('])->0;
            let src = l.subrange(a + 2, a + 2 + lead_len(l.skip(a + 2), CharClass::NotIs(')')));
            &&& exists|k: Seq<char>|
                (k == "data-uri"@ || k == "url"@ || k == "path"@) && payload_spec(b) == "alt=\""@
                    + l.subrange(2, a) + "\", src="@ + k
            &&& crate::text::starts_with(src, "data:"@) ==> payload_spec(b) == "alt=\""@
                + l.subrange(2, a) + "\", src="@ + "data-uri"@
        }),
{
    let l = crate::text::trim_start(b.lines[0]);
    let a = crate::text::find_sub(l, seq![']', '('])->0;
    let src = l.subrange(a + 2, a + 2 + lead_len(l.skip(a + 2), CharClass::NotIs(')')));
    let k = if crate::text::starts_with(src, "data:"@) {
        "data-uri"@
    } else if crate::text::contains_sub(src, "://"@) {
        "url"@
    } else {
        "path"@
    };
    assert(payload_spec(b) == "alt=\""@ + l.subrange(2, a) + "\", src="@ + k);
}

/// The headings of a document, as `Document::headings` returns them: each has
/// a level from 1 to 6 and lies on lines inside the document; an ATX heading
/// takes one line and a setext heading two, with level 1 or 2; its offsets are
/// the start of its first line and the end of its last line's text; and the
/// headings come in line order without sharing a line.
pub proof fn law_headings(doc: &Document)
    ensures
        ({
            let hs = spec_headings(doc);
            &&& forall|k: int|
                0 <= k < hs.len() ==> {
                    let h = #[trigger] hs[k];
                    &&& 1 <= h.level <= 6
                    &&& 1 <= h.start_line <= h.end_line <= doc.num_lines()
                    &&& h.kind == crate::document::HeadingKind::Atx ==> h.end_line == h.start_line
                    &&& h.kind == crate::document::HeadingKind::Setext ==> h.end_line == h.start_line
                        + 1 && h.level <= 2
                    &&& h.start_offset == doc.line_start(h.start_line)
                    &&& h.end_offset == doc.line_end(h.end_line)
                }
            &&& forall|i: int, j: int| 0 <= i < j < hs.len() ==> (#[trigger] hs[i]).end_line < (#[trigger] hs[j]).start_line
        }),
{
    crate::document::lemma_headings(doc);
    crate::document::law_heading_shape(doc);
    let hs = spec_headings(doc);
    assert forall|k: int| 0 <= k < hs.len() implies {
        let h = #[trigger] hs[k];
        &&& 1 <= h.level <= 6
        &&& 1 <= h.start_line <= h.end_line <= doc.num_lines()
        &&& h.kind == crate::document::HeadingKind::Atx ==> h.end_line == h.start_line
        &&& h.kind == crate::document::HeadingKind::Setext ==> h.end_line == h.start_line + 1
            && h.level <= 2
        &&& h.start_offset == doc.line_start(h.start_line)
        &&& h.end_offset == doc.line_end(h.end_line)
    } by {
        assert(crate::document::heading_fits(doc, hs[k]));
    }
}

/// The image summary of a line `![<alt>](<src>)`, with no `](` in the alt
/// text and no `)` in the source, is `alt="<alt>", src=<kind of src>`: two
/// such lines with the same alt text and `data:` sources give the same
/// payload, `alt="<alt>", src=data-uri`, whatever data they carry.
pub proof fn law_image_line_payload(b: BlockView, alt: Seq<char>, src: Seq<char>)
    requires
        b.kind == SummaryKind::Image,
        b.lines.len() > 0,
        b.lines[0] == seq!['!', '['] + alt + seq![']', '('] + src + seq![')'],
        forall|i: int| 0 <= i < alt.len() - 1 ==> !occurs_at(alt, seq![']', '('], i),
        forall|i: int| 0 <= i < src.len() ==> src[i] != ')',
    ensures
        payload_spec(b) == "alt=\""@ + alt + "\", src="@ + crate::summary::source_kind(src),
        crate::text::starts_with(src, "data:"@) ==> payload_spec(b) == "alt=\""@ + alt
            + "\", src="@ + "data-uri"@,
{
    let line = b.lines[0];
    let pair = seq![']', '('];
    let k: int = alt.len() as int + 2;
    assert(line.len() == alt.len() + src.len() + 5);
    // the line starts with `!`, which is not whitespace, so trimming keeps it
    assert(!crate::text::in_class(CharClass::Ws, line[0]));
    crate::text::lemma_lead_len(line, CharClass::Ws, 0);
    assert(crate::text::trim_start(line) =~= line);
    // the first `](` is the one after the alt text
    assert(line.subrange(k, k + 2) =~= pair);
    assert forall|j: int| 0 <= j < k implies !occurs_at(line, pair, j) by {
        if j == 0 {
            assert(line.subrange(j, j + 2)[0] == '!');
        } else if j == 1 {
            assert(line.subrange(j, j + 2)[0] == '[');
        } else if j == k - 1 {
            assert(line.subrange(j, j + 2)[1] == ']');
        } else {
            assert(!occurs_at(alt, pair, j - 2));
            assert(alt.subrange(j - 2, j) =~= line.subrange(j, j + 2));
            assert(line.subrange(j, j + 2)[0] == line[j]);
            assert(line.subrange(j, j + 2)[1] == line[j + 1]);
        }
    }
    lemma_find_first(line, pair, 0, k);
    // the source runs up to the closing `)`
    let rest = line.skip(k + 2);
    assert(rest =~= src + seq![')']);
    assert forall|i: int| 0 <= i < src.len() implies crate::text::in_class(
        CharClass::NotIs(')'),
        #[trigger] rest[i],
    ) by {
        assert(rest[i] == src[i]);
    }
    crate::text::lemma_lead_len(rest, CharClass::NotIs(')'), src.len() as int);
    assert(line.subrange(k + 2, k + 2 + src.len() as int) =~= src);
    assert(line.subrange(2, k) =~= alt);
    reveal_strlit("data:");
    reveal_strlit("data-uri");
}

/// `p` occurs in `s` at `j`.
pub open spec fn occurs_at(s: Seq<char>, p: Seq<char>, j: int) -> bool {
    s.subrange(j, j + p.len()) == p
}

/// The first occurrence of `p` from `i` is at `k` when `p` sits at `k` and
/// nowhere between.
proof fn lemma_find_first(s: Seq<char>, p: Seq<char>, i: int, k: int)
    requires
        0 <= i <= k,
        k + p.len() <= s.len(),
        s.subrange(k, k + p.len()) == p,
        forall|j: int| i <= j < k ==> !occurs_at(s, p, j),
    ensures
        crate::text::find_from(s, p, i) == Some(k),
    decreases k - i,
{
    if i < k {
        assert(!occurs_at(s, p, i));
        lemma_find_first(s, p, i + 1, k);
    }
}

// ---------------------------------------------------------------------
// Line grammar
// ---------------------------------------------------------------------
/// `n` spaces.
pub open spec fn spaces(n: nat) -> Seq<char> {
    Seq::new(n, |i: int| ' ')
}

/// A line of up to three spaces, then `-`, `*` or `+` and a space, then any
/// text, is a list item: it starts a list, its indent is those spaces, and
/// its item text is everything after the marker and its space.
pub proof fn law_bullet_list_item(i: nat, bullet: char, rest: Seq<char>)
    requires
        i <= 3,
        bullet == '-' || bullet == '*' || bullet == '+',
    ensures
        ({
            let l = spaces(i) + seq![bullet, ' '] + rest;
            &&& crate::document::spec_list_marker(seq![bullet, ' '] + rest)
            &&& crate::summary::spec_list_start(l)
            &&& crate::summary::list_marker_indent_spec(l) == Some(i)
            &&& crate::summary::strip_list_marker_spec(l.skip(i as int)) == Some(rest)
        }),
{
    let l = spaces(i) + seq![bullet, ' '] + rest;
    let m = seq![bullet, ' '] + rest;
    assert(m.take(2) =~= seq![bullet, ' ']);
    assert(l[i as int] == bullet);
    assert forall|j: int| 0 <= j < i implies crate::text::in_class(CharClass::Is(' '), #[trigger] l[j]) by {
        assert(l[j] == ' ');
    }
    crate::text::lemma_lead_len(l, CharClass::Is(' '), i as int);
    assert(l.skip(i as int) =~= m);
    assert(m.skip(2) =~= rest);
}

/// `n` copies of `c`.
pub open spec fn run_of(c: char, n: nat) -> Seq<char> {
    Seq::new(n, |i: int| c)
}

/// A `:` when `on`, else nothing.
pub open spec fn colon_if(on: bool) -> Seq<char> {
    if on {
        seq![':']
    } else {
        seq![]
    }
}

/// A table separator cell is one or more `-` with an optional `:` at either
/// end: `---`, `:---`, `---:` and `:---:` all are.
pub proof fn law_separator_cells(n: nat, left: bool, right: bool)
    requires
        n >= 1,
    ensures
        crate::summary::spec_separator_cell(colon_if(left) + run_of('-', n) + colon_if(right)),
{
    let cell = colon_if(left) + run_of('-', n) + colon_if(right);
    let a: int = if left {
        1
    } else {
        0
    };
    let b: int = if right {
        1
    } else {
        0
    };
    assert forall|j: int| 0 <= j < a implies crate::text::in_class(CharClass::Is(':'), #[trigger] cell[j]) by {}
    assert(cell[a] == '-');
    crate::text::lemma_lead_len(cell, CharClass::Is(':'), a);
    let t = cell.skip(a);
    assert(t =~= run_of('-', n) + colon_if(right));
    assert forall|j: int| t.len() - b <= j < t.len() implies crate::text::in_class(
        CharClass::Is(':'),
        #[trigger] t[j],
    ) by {}
    assert(t[t.len() - b - 1] == '-');
    crate::text::lemma_trail_len(t, CharClass::Is(':'), b);
    let core = t.take(t.len() - b);
    assert(core =~= run_of('-', n));
    assert forall|j: int| 0 <= j < n implies crate::text::in_class(CharClass::Is('-'), #[trigger] core[j]) by {}
    crate::text::lemma_lead_len(core, CharClass::Is('-'), n as int);
}

// ---------------------------------------------------------------------
// Matching
// ---------------------------------------------------------------------
/// A case-sensitive literal query (no `--regex`) matches a line exactly when
/// it occurs in the line at some position.
pub proof fn law_literal_case_sensitive_match(query: Seq<char>, line: Seq<char>)
    ensures
        line_matches(query, false, true, line) <==> exists|i: int|
            0 <= i && i + query.len() <= line.len() && #[trigger] occurs_at(line, query, i),
{
    lemma_find_from_occurs(line, query, 0);
}

proof fn lemma_find_from_occurs(s: Seq<char>, p: Seq<char>, j: int)
    requires
        0 <= j,
    ensures
        crate::text::find_from(s, p, j) is Some <==> exists|i: int|
            j <= i && i + p.len() <= s.len() && #[trigger] occurs_at(s, p, i),
    decreases s.len() + 1 - j,
{
    if j + p.len() <= s.len() {
        lemma_find_from_occurs(s, p, j + 1);
        if crate::text::find_from(s, p, j) is None {
            assert forall|i: int| j <= i && i + p.len() <= s.len() implies !#[trigger] occurs_at(s, p, i) by {
                if i == j {
                    assert(!occurs_at(s, p, j));
                }
            }
        } else if !occurs_at(s, p, j) {
            let i = choose|i: int| j + 1 <= i && i + p.len() <= s.len() && #[trigger] occurs_at(s, p, i);
            assert(occurs_at(s, p, i));
        } else {
            assert(occurs_at(s, p, j));
        }
    }
}

/// The title of an ATX heading keeps a run of `#` glued to its last word
/// (`# Using C#` is titled `Using C#`); only a run of `#` after a space is a
/// closing sequence and is dropped (`## Title ##` is titled `Title`).
pub proof fn law_atx_closing_run(level: nat, w: Seq<char>, k: nat)
    requires
        1 <= level <= 6,
        w.len() > 0,
        !crate::text::is_ws(w[0]),
        !crate::text::is_ws(w.last()),
        w.last() != '#',
    ensures
        crate::document::spec_parse_atx(run_of('#', level) + seq![' '] + w + run_of('#', k)) == Some(
            (level as u8, w + run_of('#', k)),
        ),
        k >= 1 ==> crate::document::spec_parse_atx(
            run_of('#', level) + seq![' '] + w + seq![' '] + run_of('#', k),
        ) == Some((level as u8, w)),
{
    let r = run_of('#', k);
    lemma_atx_line(level, w + r);
    lemma_trimmed_word_run(w, k);
    assert(run_of('#', level) + seq![' '] + w + r =~= run_of('#', level) + seq![' '] + (w + r));
    if k >= 1 {
        let wsp = w + seq![' '];
        lemma_atx_line(level, wsp + r);
        assert(run_of('#', level) + seq![' '] + w + seq![' '] + r =~= run_of('#', level) + seq![
            ' ',
        ] + (wsp + r));
        let t = w + seq![' '] + r;
        assert(wsp + r =~= t);
        // trimming keeps `w`, the space and the run
        assert(!crate::text::in_class(CharClass::Ws, t[0]));
        crate::text::lemma_lead_len(t, CharClass::Ws, 0);
        assert(t.skip(0) =~= t);
        assert(!crate::text::in_class(CharClass::Ws, t.last()));
        crate::text::lemma_trail_len(t, CharClass::Ws, 0);
        assert(t.take(t.len() as int) =~= t);
        assert(crate::text::trim(t) == t);
        // the closing run is exactly the `k` hashes
        assert forall|j: int| t.len() - k <= j < t.len() implies crate::text::in_class(
            CharClass::Is('#'),
            #[trigger] t[j],
        ) by {}
        assert(t[t.len() - k - 1] == ' ');
        crate::text::lemma_trail_len(t, CharClass::Is('#'), k as int);
        let before = t.take(t.len() - k);
        assert(before =~= wsp);
        assert(before.last() == ' ');
        assert forall|j: int| wsp.len() - 1 <= j < wsp.len() implies crate::text::in_class(
            CharClass::Ws,
            #[trigger] wsp[j],
        ) by {}
        assert(!crate::text::in_class(CharClass::Ws, wsp[wsp.len() - 1 - 1]));
        crate::text::lemma_trail_len(wsp, CharClass::Ws, 1);
        assert(wsp.take(wsp.len() - 1) =~= w);
    }
}

/// `#...# <body>` with a body starting with a non-space character parses
/// with that level and the trimmed body before closing-run stripping.
proof fn lemma_atx_line(level: nat, body: Seq<char>)
    requires
        1 <= level <= 6,
        body.len() > 0,
        !crate::text::is_ws(body[0]),
    ensures
        crate::document::spec_parse_atx(run_of('#', level) + seq![' '] + body) == Some(
            (level as u8, crate::document::spec_strip_atx_closing(crate::text::trim(seq![' '] + body))),
        ),
        crate::text::trim(seq![' '] + body) == crate::text::trim(body),
{
    let line = run_of('#', level) + seq![' '] + body;
    crate::text::lemma_lead_len(line, CharClass::Is(' '), 0);
    assert(line.skip(0) =~= line);
    assert forall|j: int| 0 <= j < level implies crate::text::in_class(CharClass::Is('#'), #[trigger] line[j]) by {}
    assert(line[level as int] == ' ');
    crate::text::lemma_lead_len(line, CharClass::Is('#'), level as int);
    let rest = line.skip(level as int);
    assert(rest =~= seq![' '] + body);
    assert(rest[0] == ' ');
    assert(crate::text::in_class(CharClass::Ws, rest[0]));
    assert(!crate::text::in_class(CharClass::Ws, rest[1]));
    crate::text::lemma_lead_len(rest, CharClass::Ws, 1);
    assert(rest.skip(1) =~= body);
    crate::text::lemma_lead_len(body, CharClass::Ws, 0);
    assert(body.skip(0) =~= body);
}

/// A word followed by a run of `#` trims to itself, and its closing-run
/// stripping keeps it whole.
proof fn lemma_trimmed_word_run(w: Seq<char>, k: nat)
    requires
        w.len() > 0,
        !crate::text::is_ws(w[0]),
        !crate::text::is_ws(w.last()),
        w.last() != '#',
    ensures
        crate::text::trim(w + run_of('#', k)) == w + run_of('#', k),
        crate::document::spec_strip_atx_closing(w + run_of('#', k)) == w + run_of('#', k),
{
    let t = w + run_of('#', k);
    assert(t[0] == w[0]);
    crate::text::lemma_lead_len(t, CharClass::Ws, 0);
    assert(t.skip(0) =~= t);
    assert(!crate::text::in_class(CharClass::Ws, t.last()));
    crate::text::lemma_trail_len(t, CharClass::Ws, 0);
    assert(t.take(t.len() as int) =~= t);
    assert forall|j: int| t.len() - k <= j < t.len() implies crate::text::in_class(
        CharClass::Is('#'),
        #[trigger] t[j],
    ) by {}
    assert(t[t.len() - k - 1] == w.last());
    crate::text::lemma_trail_len(t, CharClass::Is('#'), k as int);
    assert(t.take(t.len() - k) =~= w);
}

/// Up to the first non-space character, a line's indent is its leading spaces.
proof fn lemma_indent(i: nat, rest: Seq<char>)
    requires
        rest.len() > 0,
        rest[0] != ' ',
    ensures
        crate::document::indent_of(spaces(i) + rest) == i,
        (spaces(i) + rest).skip(i as int) == rest,
{
    let l = spaces(i) + rest;
    assert forall|j: int| 0 <= j < i implies crate::text::in_class(CharClass::Is(' '), #[trigger] l[j]) by {}
    assert(l[i as int] == rest[0]);
    crate::text::lemma_lead_len(l, CharClass::Is(' '), i as int);
    assert(l.skip(i as int) =~= rest);
}

/// Spaces around a text that starts and ends with non-whitespace trim away.
proof fn lemma_trim_spaces(i: nat, core: Seq<char>, m: nat)
    requires
        core.len() > 0,
        !crate::text::is_ws(core[0]),
        !crate::text::is_ws(core.last()),
    ensures
        crate::text::trim(spaces(i) + core + spaces(m)) == core,
{
    let l = spaces(i) + core + spaces(m);
    assert forall|j: int| 0 <= j < i implies crate::text::in_class(CharClass::Ws, #[trigger] l[j]) by {}
    assert(l[i as int] == core[0]);
    crate::text::lemma_lead_len(l, CharClass::Ws, i as int);
    let t = l.skip(i as int);
    assert(t =~= core + spaces(m));
    assert forall|j: int| t.len() - m <= j < t.len() implies crate::text::in_class(CharClass::Ws, #[trigger] t[j]) by {}
    assert(t[t.len() - m - 1] == core.last());
    crate::text::lemma_trail_len(t, CharClass::Ws, m as int);
    assert(t.take(t.len() - m) =~= core);
}

/// A setext underline, after up to three spaces, of one or more `=` is level
/// 1 and of one or more `-` is level 2, trailing spaces allowed.
pub proof fn law_setext_underline(i: nat, n: nat, m: nat)
    requires
        i <= 3,
        n >= 1,
    ensures
        crate::document::spec_setext_underline(spaces(i) + run_of('=', n) + spaces(m)) == Some(1u8),
        crate::document::spec_setext_underline(spaces(i) + run_of('-', n) + spaces(m)) == Some(2u8),
{
    let eq = run_of('=', n);
    let da = run_of('-', n);
    lemma_indent(i, eq + spaces(m));
    lemma_indent(i, da + spaces(m));
    assert(spaces(i) + (eq + spaces(m)) =~= spaces(i) + eq + spaces(m));
    assert(spaces(i) + (da + spaces(m)) =~= spaces(i) + da + spaces(m));
    lemma_trim_spaces(i, eq, m);
    lemma_trim_spaces(i, da, m);
    assert forall|j: int| 0 <= j < n implies crate::text::in_class(CharClass::Is('='), #[trigger] eq[j]) by {}
    crate::text::lemma_lead_len(eq, CharClass::Is('='), n as int);
    assert forall|j: int| 0 <= j < n implies crate::text::in_class(CharClass::Is('-'), #[trigger] da[j]) by {}
    crate::text::lemma_lead_len(da, CharClass::Is('-'), n as int);
    crate::text::lemma_lead_len(da, CharClass::Is('='), 0);
}

/// A code fence is up to three spaces, then three or more backticks or
/// tildes: the fence character and the length of the run are reported.
pub proof fn law_code_fence(i: nat, c: char, n: nat, info: Seq<char>)
    requires
        i <= 3,
        c == '`' || c == '~',
        n >= 3,
        info.len() == 0 || info[0] != c,
    ensures
        crate::summary::spec_parse_fence(spaces(i) + run_of(c, n) + info) == Some((c, n)),
{
    let t = run_of(c, n) + info;
    lemma_indent(i, t);
    assert(spaces(i) + t =~= spaces(i) + run_of(c, n) + info);
    assert forall|j: int| 0 <= j < n implies crate::text::in_class(CharClass::Is(c), #[trigger] t[j]) by {}
    crate::text::lemma_lead_len(t, CharClass::Is(c), n as int);
}

proof fn lemma_count_run(c: char, n: nat)
    ensures
        crate::summary::count_char(run_of(c, n), c) == n,
    decreases n,
{
    if n > 0 {
        lemma_count_run(c, (n - 1) as nat);
        assert(run_of(c, n).drop_last() =~= run_of(c, (n - 1) as nat));
    }
}

/// Three or more `-`, `*` or `_`, after up to three spaces, are a thematic
/// break.
pub proof fn law_thematic_break(i: nat, c: char, n: nat)
    requires
        i <= 3,
        c == '-' || c == '*' || c == '_',
        n >= 3,
    ensures
        crate::summary::spec_thematic_break(spaces(i) + run_of(c, n)),
{
    let r = run_of(c, n);
    lemma_indent(i, r);
    lemma_trim_spaces(0, r, 0);
    assert(spaces(0) + r + spaces(0) =~= r);
    lemma_count_run(c, n);
}

/// A blockquote line is up to three spaces and `>`; its quoted text is what
/// follows the `>`, without leading whitespace.
pub proof fn law_blockquote_line(i: nat, rest: Seq<char>)
    requires
        i <= 3,
    ensures
        crate::summary::spec_blockquote_line(spaces(i) + seq!['>'] + rest),
        crate::summary::strip_quote_spec(spaces(i) + seq!['>'] + rest) == crate::text::trim_start(rest),
{
    let t = seq!['>'] + rest;
    lemma_indent(i, t);
    assert(spaces(i) + t =~= spaces(i) + seq!['>'] + rest);
    assert(t.take(1) =~= seq!['>']);
    assert(t.drop_first() =~= rest);
}

/// A fenced code summary counts the lines between the opening fence and a
/// closing fence of the same character and at least the same length; with
/// no closing fence, every line after the opening one.
pub proof fn law_code_line_count(ls: Seq<Seq<char>>, c: char, n: nat)
    requires
        ls.len() >= 2,
        crate::summary::spec_parse_fence(ls[0]) == Some((c, n)),
    ensures
        ls.last() == run_of(c, n) ==> exists|lang: Seq<char>|
            code_payload_spec(ls) == lang + ", "@ + dec((ls.len() - 2) as nat) + " lines"@,
        ls.last().len() > 0 && ls.last()[0] != ' ' && ls.last()[0] != c ==> exists|lang: Seq<char>|
            code_payload_spec(ls) == lang + ", "@ + dec((ls.len() - 1) as nat) + " lines"@,
{
    let last = ls.last();
    let o = ls[0];
    let info = crate::text::trim(crate::text::trim_start(o).skip(n as int));
    let lang = if info.len() == 0 {
        "text"@
    } else {
        info.take(lead_len(info, CharClass::NotWs) as int)
    };
    if last == run_of(c, n) {
        if n > 0 {
            assert(run_of(c, n)[0] == c);
        }
        assert(c != ' ');
        crate::text::lemma_lead_len(last, CharClass::Is(' '), 0);
        assert(last.skip(0) =~= last);
        assert forall|j: int| 0 <= j < n implies crate::text::in_class(CharClass::Is(c), #[trigger] last[j]) by {}
        crate::text::lemma_lead_len(last, CharClass::Is(c), n as int);
        assert(last.skip(n as int) =~= Seq::<char>::empty());
        crate::text::lemma_lead_len(Seq::<char>::empty(), CharClass::Ws, 0);
        crate::text::lemma_trail_len(Seq::<char>::empty(), CharClass::Ws, 0);
        assert(crate::summary::spec_fence_closing(last, c, n));
        assert(code_payload_spec(ls) == lang + ", "@ + dec((ls.len() - 2) as nat) + " lines"@);
    }
    if last.len() > 0 && last[0] != ' ' && last[0] != c {
        crate::text::lemma_lead_len(last, CharClass::Is(' '), 0);
        assert(last.skip(0) =~= last);
        crate::text::lemma_lead_len(last, CharClass::Is(c), 0);
        assert(!crate::summary::spec_fence_closing(last, c, n));
        assert(code_payload_spec(ls) == lang + ", "@ + dec((ls.len() - 1) as nat) + " lines"@);
    }
}

/// A separator cell: one or more `-`, optionally with `:` at either end.
pub open spec fn separator_cell_form(cell: Seq<char>) -> bool {
    exists|n: nat, left: bool, right: bool|
        n >= 1 && cell == #[trigger] (colon_if(left) + run_of('-', n) + colon_if(right))
}

/// A text made only of `:` and `-`, and not empty.
pub open spec fn colons_dashes(c: Seq<char>) -> bool {
    c.len() > 0 && forall|j: int| 0 <= j < c.len() ==> (#[trigger] c[j] == ':' || c[j] == '-')
}

proof fn lemma_cell_form_chars(c: Seq<char>)
    requires
        separator_cell_form(c),
    ensures
        colons_dashes(c),
        crate::summary::spec_separator_cell(c),
{
    let (n, l, r) = choose|n: nat, left: bool, right: bool|
        n >= 1 && c == #[trigger] (colon_if(left) + run_of('-', n) + colon_if(right));
    law_separator_cells(n, l, r);
}

proof fn lemma_row_core(c1: Seq<char>, c2: Seq<char>)
    requires
        colons_dashes(c1),
        colons_dashes(c2),
    ensures
        crate::text::trim_char(
            crate::text::trim(seq!['|', ' '] + c1 + seq![' ', '|', ' '] + c2 + seq![' ', '|']),
            '|',
        ) == (seq![' '] + c1 + seq![' ']) + seq!['|'] + (seq![' '] + c2 + seq![' ']),
{
    let r = seq!['|', ' '] + c1 + seq![' ', '|', ' '] + c2 + seq![' ', '|'];
    assert(r[0] == '|');
    assert(r.last() == '|');
    lemma_trim_spaces(0, r, 0);
    assert(spaces(0) + r + spaces(0) =~= r);
    assert(!crate::text::in_class(CharClass::Is('|'), r[1]));
    crate::text::lemma_lead_len(r, CharClass::Is('|'), 1);
    let t = r.skip(1);
    assert(!crate::text::in_class(CharClass::Is('|'), t[t.len() - 2]));
    assert forall|j: int| t.len() - 1 <= j < t.len() implies crate::text::in_class(CharClass::Is('|'), #[trigger] t[j]) by {}
    crate::text::lemma_trail_len(t, CharClass::Is('|'), 1);
    assert(t.take(t.len() - 1) =~= (seq![' '] + c1 + seq![' ']) + seq!['|'] + (seq![' '] + c2 + seq![' ']));
}

proof fn lemma_split_two(p1: Seq<char>, p2: Seq<char>)
    requires
        forall|j: int| 0 <= j < p1.len() ==> #[trigger] p1[j] != '|',
        forall|j: int| 0 <= j < p2.len() ==> #[trigger] p2[j] != '|',
    ensures
        crate::text::split_on(p1 + seq!['|'] + p2, '|') == seq![p1, p2],
{
    let core = p1 + seq!['|'] + p2;
    let k = p1.len() as int;
    assert forall|j: int| 0 <= j < k implies #[trigger] core[j] != '|' by {
        assert(core[j] == p1[j]);
    }
    crate::text::lemma_split_on_first(core, '|', k);
    assert(core.take(k) =~= p1);
    assert(core.skip(k + 1) =~= p2);
    crate::text::lemma_split_on_first(p2, '|', p2.len() as int);
    assert(seq![p1] + seq![p2] =~= seq![p1, p2]);
}

/// `| c1 | c2 |` with separator cells, such as `| :--- | ---: |`, is a table
/// separator row.
pub proof fn law_separator_row(c1: Seq<char>, c2: Seq<char>)
    requires
        separator_cell_form(c1),
        separator_cell_form(c2),
    ensures
        crate::summary::spec_separator_row(
            seq!['|', ' '] + c1 + seq![' ', '|', ' '] + c2 + seq![' ', '|'],
        ),
{
    lemma_cell_form_chars(c1);
    lemma_cell_form_chars(c2);
    let r = seq!['|', ' '] + c1 + seq![' ', '|', ' '] + c2 + seq![' ', '|'];
    let p1 = seq![' '] + c1 + seq![' '];
    let p2 = seq![' '] + c2 + seq![' '];
    lemma_row_core(c1, c2);
    assert forall|j: int| 0 <= j < p1.len() implies #[trigger] p1[j] != '|' by {
        if 0 < j < p1.len() - 1 {
            assert(p1[j] == c1[j - 1]);
        }
    }
    assert forall|j: int| 0 <= j < p2.len() implies #[trigger] p2[j] != '|' by {
        if 0 < j < p2.len() - 1 {
            assert(p2[j] == c2[j - 1]);
        }
    }
    lemma_split_two(p1, p2);
    assert(c1[0] == ':' || c1[0] == '-');
    assert(c2[0] == ':' || c2[0] == '-');
    assert(c1.last() == ':' || c1.last() == '-');
    assert(c2.last() == ':' || c2.last() == '-');
    lemma_trim_spaces(1, c1, 1);
    lemma_trim_spaces(1, c2, 1);
    assert(spaces(1) + c1 + spaces(1) =~= p1);
    assert(spaces(1) + c2 + spaces(1) =~= p2);
    lemma_trim_spaces(0, r, 0);
    assert(spaces(0) + r + spaces(0) =~= r);
    assert(r[0] == '|');
    assert(r.last() == '|');
}


/// A block whose first line is a bullet item (up to three spaces, `-`, `*`
/// or `+` and a space, no `|` in the line) is summarized as a list.
pub proof fn law_bullet_block(doc: &Document, n: int, e: int, i: nat, bullet: char, rest: Seq<char>)
    requires
        i <= 3,
        bullet == '-' || bullet == '*' || bullet == '+',
        !rest.contains('|'),
        doc.line_text(n) == spaces(i) + seq![bullet, ' '] + rest,
    ensures
        crate::summary::block_kind_end(doc, n, e).0 == crate::summary::SummaryKind::List,
{
    let l = spaces(i) + seq![bullet, ' '] + rest;
    law_bullet_list_item(i, bullet, rest);
    crate::text::lemma_lead_len(l, CharClass::Is(' '), i as int);
    assert(l.skip(i as int)[0] == bullet);
    assert(!l.contains('|')) by {
        if l.contains('|') {
            let j = choose|j: int| 0 <= j < l.len() && l[j] == '|';
            if j >= i + 2 {
                assert(rest[j - i - 2] == '|');
            }
        }
    }
}

/// A pipe header row (a line that starts with `|`) followed by a separator
/// row `| c1 | c2 |` of cells such as `---`, `:---`, `---:` or `:---:` is
/// summarized as a table.
pub proof fn law_pipe_table_block(doc: &Document, n: int, e: int, head: Seq<char>, c1: Seq<char>, c2: Seq<char>)
    requires
        n + 1 <= e,
        separator_cell_form(c1),
        separator_cell_form(c2),
        doc.line_text(n) == seq!['|'] + head,
        doc.line_text(n + 1) == seq!['|', ' '] + c1 + seq![' ', '|', ' '] + c2 + seq![' ', '|'],
    ensures
        crate::summary::block_kind_end(doc, n, e).0 == crate::summary::SummaryKind::Table,
{
    let l = seq!['|'] + head;
    law_separator_row(c1, c2);
    crate::text::lemma_lead_len(l, CharClass::Is(' '), 0);
    assert(l[0] == '|');
    assert(l.skip(0) =~= l);
    assert(l.take(1)[0] == '|');
    assert(!crate::summary::spec_blockquote_line(l));
    assert(crate::summary::spec_parse_fence(l) is None);
    assert(l.contains('|'));
    assert(crate::summary::spec_table_start(doc, n, e));
}

/// In a document, a line `#... w###` whose word `w` ends in no space and no
/// `#` is reported as a heading titled `w###`: the glued run stays part of
/// the title.
pub proof fn law_atx_title_in_document(doc: &Document, n: int, level: nat, w: Seq<char>, k: nat)
    requires
        1 <= n <= doc.num_lines(),
        1 <= level <= 6,
        w.len() > 0,
        !crate::text::is_ws(w[0]),
        !crate::text::is_ws(w.last()),
        w.last() != '#',
        doc.line_text(n) == run_of('#', level) + seq![' '] + w + run_of('#', k),
    ensures
        exists|j: int|
            0 <= j < spec_headings(doc).len() && (#[trigger] spec_headings(doc)[j]).start_line == n
                && spec_headings(doc)[j].level == level && spec_headings(doc)[j].title == w + run_of('#', k),
{
    law_atx_closing_run(level, w, k);
    crate::document::law_heading_lines(doc);
    assert(crate::document::spec_parse_atx(doc.line_text(n)) is Some);
}

} // verus!

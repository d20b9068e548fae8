//! The output of each command, as text: the annotated outline, the JSON
//! objects, extracted sections and search results.
use vstd::prelude::*;

use crate::cli::{FindArgs, GetArgs, TreeArgs, TreeFormat};
use crate::document::{lines_count, newline_count, Document, Heading};
use crate::error::{json_escape, push_json_escaped};
use crate::section::{law_section_ranges, spec_sections, Section, SectionView, ROOT_SECTION_ID};
use crate::summary::{lemma_summary_block, payload_spec, spec_summary, tag_spec, BlockView};
use crate::search::{match_views, FindMatch, FindMatchView};
use crate::text::{dec, join, lemma_join_take, push_char, push_decimal, push_str, str_eq};
use vstd::utf8::{decode_utf8, encode_utf8};

verus! {

pub open spec fn hashes(n: nat) -> Seq<char> {
    Seq::new(n, |i: int| '#')
}

pub open spec fn bool_text(b: bool) -> Seq<char> {
    if b {
        "true"@
    } else {
        "false"@
    }
}

/// The sections whose level is within `max_depth`, in order.
pub open spec fn keep_depth(v: Seq<SectionView>, max_depth: Option<u8>) -> Seq<SectionView>
    decreases v.len(),
{
    if v.len() == 0 {
        seq![]
    } else {
        keep_depth(v.drop_last(), max_depth) + if max_depth matches Some(d) && v.last().level > d {
            seq![]
        } else {
            seq![v.last()]
        }
    }
}

proof fn lemma_keep_depth(v: Seq<SectionView>, max_depth: Option<u8>)
    ensures
        forall|j: int|
            0 <= j < keep_depth(v, max_depth).len() ==> exists|i: int|
                0 <= i < v.len() && v[i] == #[trigger] keep_depth(v, max_depth)[j],
    decreases v.len(),
{
    if v.len() > 0 {
        lemma_keep_depth(v.drop_last(), max_depth);
        let k = keep_depth(v, max_depth);
        let k0 = keep_depth(v.drop_last(), max_depth);
        assert forall|j: int| 0 <= j < k.len() implies exists|i: int|
            0 <= i < v.len() && v[i] == #[trigger] k[j] by {
            if j < k0.len() {
                assert(k[j] == k0[j]);
                let i = choose|i: int| 0 <= i < v.drop_last().len() && v.drop_last()[i] == k0[j];
                assert(v[i] == k[j]);
            } else {
                assert(k[j] == v.last());
                assert(v[v.len() - 1] == k[j]);
            }
        }
    }
}

/// The summary shown for a section, unless summaries are off.
pub open spec fn shown_summary(doc: &Document, s: SectionView, no_summary: bool) -> Option<BlockView> {
    if no_summary {
        None
    } else {
        spec_summary(doc, s)
    }
}

/// `<#...> [<id> L<start>-L<end>] <title>` and a line break.
pub open spec fn md_heading(s: SectionView) -> Seq<char> {
    hashes(s.level as nat) + " ["@ + s.id + " L"@ + dec(s.start_line as nat) + "-L"@ + dec(
        s.end_line as nat,
    ) + "] "@ + s.title + "\n"@
}

/// `<tag>: <payload>` and a line break, when the section shows a summary.
pub open spec fn md_summary(doc: &Document, s: SectionView, no_summary: bool) -> Seq<char> {
    match shown_summary(doc, s, no_summary) {
        Some(b) => tag_spec(b.kind) + ": "@ + payload_spec(b) + "\n"@,
        None => seq![],
    }
}

/// The heading line of a section and its summary line.
pub open spec fn md_block(doc: &Document, s: SectionView, no_summary: bool) -> Seq<char> {
    md_heading(s) + md_summary(doc, s, no_summary)
}

/// The annotated outline: the blocks of the shown sections, separated by blank lines.
pub open spec fn tree_md_spec(doc: &Document, args: TreeArgs) -> Seq<char> {
    join(
        keep_depth(spec_sections(doc), args.max_depth).map_values(
            |s: SectionView| md_block(doc, s, args.no_summary),
        ),
        "\n"@,
    )
}

/// The fields of a section object before its summary.
pub open spec fn json_section_head(s: SectionView) -> Seq<char> {
    "{\"id\":\""@ + json_escape(s.id) + "\",\"parent_id\":\""@ + json_escape(s.parent_id)
        + "\",\"level\":"@ + dec(s.level as nat) + ",\"title\":\""@ + json_escape(s.title)
        + "\",\"start_line\":"@ + dec(s.start_line as nat) + ",\"end_line\":"@ + dec(
        s.end_line as nat,
    )
}

/// The summary field of a section object, when the section shows a summary.
pub open spec fn json_summary(doc: &Document, s: SectionView, no_summary: bool) -> Seq<char> {
    match shown_summary(doc, s, no_summary) {
        Some(b) => ",\"summary\":{\"tag\":\""@ + tag_spec(b.kind) + "\",\"text\":\""@ + json_escape(
            payload_spec(b),
        ) + "\"}"@,
        None => seq![],
    }
}

/// One section object of the JSON outline.
pub open spec fn json_section(doc: &Document, s: SectionView, no_summary: bool) -> Seq<char> {
    json_section_head(s) + json_summary(doc, s, no_summary) + "}"@
}

/// The JSON outline.
pub open spec fn tree_json_spec(doc: &Document, args: TreeArgs) -> Seq<char> {
    "{\"command\":\"tree\",\"file\":\""@ + json_escape(args.file@)
        + "\",\"format\":\"json\",\"sections\":["@ + join(
        keep_depth(spec_sections(doc), args.max_depth).map_values(
            |s: SectionView| json_section(doc, s, args.no_summary),
        ),
        ","@,
    ) + "]}\n"@
}

fn clone_section(s: &Section) -> (r: Section)
    ensures
        r@ == s@,
{
    let mut children: Vec<usize> = Vec::new();
    let mut k: usize = 0;
    while k < s.children.len()
        invariant
            k <= s.children@.len(),
            children@ == s.children@.take(k as int),
        decreases s.children.len() - k,
    {
        children.push(s.children[k]);
        k += 1;
        assert(children@ =~= s.children@.take(k as int));
    }
    assert(s.children@.take(k as int) =~= s.children@);
    Section {
        id: s.id.clone(),
        parent_id: s.parent_id.clone(),
        level: s.level,
        title: s.title.clone(),
        start_line: s.start_line,
        end_line: s.end_line,
        heading: Heading {
            kind: s.heading.kind,
            level: s.heading.level,
            title: s.heading.title.clone(),
            start_line: s.heading.start_line,
            end_line: s.heading.end_line,
            start_offset: s.heading.start_offset,
            end_offset: s.heading.end_offset,
        },
        children,
    }
}

/// The sections that the outline shows: those within `--max-depth`.
pub fn filtered_tree_sections(document: &Document, args: &TreeArgs) -> (r: Vec<Section>)
    requires
        document.wf(),
    ensures
        crate::section::section_views(r@) == keep_depth(spec_sections(document), args.max_depth),
{
    let index = document.section_index();
    let all = index.sections();
    let ghost v = spec_sections(document);
    let mut out: Vec<Section> = Vec::new();
    let mut k: usize = 0;
    while k < all.len()
        invariant
            crate::section::section_views(all@) == v,
            v == spec_sections(document),
            k <= all@.len(),
            crate::section::section_views(out@) == keep_depth(v.take(k as int), args.max_depth),
        decreases all.len() - k,
    {
        let s = &all[k];
        proof {
            assert(v.take(k + 1).drop_last() =~= v.take(k as int));
            assert(v.take(k + 1).last() == s@);
        }
        let keep = match args.max_depth {
            Some(d) => s.level <= d,
            None => true,
        };
        if keep {
            let ghost before = out@;
            out.push(clone_section(s));
            proof {
                assert(crate::section::section_views(out@) =~= crate::section::section_views(
                    before,
                ).push(s@));
            }
        }
        k += 1;
    }
    assert(v.take(k as int) =~= v);
    out
}

/// Every shown section is a section of the document.
proof fn lemma_shown_sections(doc: &Document, max_depth: Option<u8>)
    ensures
        forall|j: int|
            0 <= j < keep_depth(spec_sections(doc), max_depth).len() ==> {
                let s = #[trigger] keep_depth(spec_sections(doc), max_depth)[j];
                &&& 1 <= s.start_line <= s.end_line <= doc.num_lines()
                &&& 1 <= s.level <= 6
            },
{
    lemma_keep_depth(spec_sections(doc), max_depth);
    law_section_ranges(doc);
    assert forall|j: int| 0 <= j < keep_depth(spec_sections(doc), max_depth).len() implies {
        let s = #[trigger] keep_depth(spec_sections(doc), max_depth)[j];
        &&& 1 <= s.start_line <= s.end_line <= doc.num_lines()
        &&& 1 <= s.level <= 6
    } by {
        let s = keep_depth(spec_sections(doc), max_depth)[j];
        let i = choose|i: int|
            0 <= i < spec_sections(doc).len() && spec_sections(doc)[i] == keep_depth(
                spec_sections(doc),
                max_depth,
            )[j];
        assert(spec_sections(doc)[i] == s);
    }
}

fn push_hashes(out: &mut String, n: u8)
    ensures
        final(out)@ == old(out)@ + hashes(n as nat),
{
    let mut k: u8 = 0;
    while k < n
        invariant
            k <= n,
            out@ == old(out)@ + hashes(k as nat),
        decreases n - k,
    {
        push_char(out, '#');
        k += 1;
        assert(out@ =~= old(out)@ + hashes(k as nat));
    }
}

fn push_md_heading(out: &mut String, section: &Section)
    ensures
        final(out)@ == old(out)@ + md_heading(section@),
{
    push_hashes(out, section.level);
    push_str(out, " [");
    push_str(out, section.id.as_str());
    push_str(out, " L");
    push_decimal(out, section.start_line);
    push_str(out, "-L");
    push_decimal(out, section.end_line);
    push_str(out, "] ");
    push_str(out, section.title.as_str());
    push_str(out, "\n");
    assert(final(out)@ =~= old(out)@ + md_heading(section@));
}

/// Appends the summary line of a shown section, when it has one.
fn push_md_summary(out: &mut String, document: &Document, section: &Section, no_summary: bool)
    requires
        document.wf(),
        section.end_line <= document.num_lines(),
    ensures
        final(out)@ == old(out)@ + md_summary(document, section@, no_summary),
{
    if !no_summary {
        if let Some(summary) = section.summary_block(document) {
            proof {
                lemma_summary_block(document, section@);
            }
            push_str(out, summary.tag());
            push_str(out, ": ");
            let payload = summary.payload();
            push_str(out, payload.as_str());
            push_str(out, "\n");
            assert(final(out)@ =~= old(out)@ + md_summary(document, section@, no_summary));
            return ;
        }
    }
    assert(old(out)@ =~= old(out)@ + Seq::<char>::empty());
}

/// The annotated-Markdown outline of the document.
pub fn render_tree_annotated_md(document: &Document, args: &TreeArgs) -> (r: String)
    requires
        document.wf(),
    ensures
        r@ == tree_md_spec(document, *args),
{
    let sections = filtered_tree_sections(document, args);
    let ghost shown = keep_depth(spec_sections(document), args.max_depth);
    let ghost blocks = shown.map_values(|s: SectionView| md_block(document, s, args.no_summary));
    proof {
        lemma_shown_sections(document, args.max_depth);
    }
    let mut out = String::new();
    let mut k: usize = 0;
    while k < sections.len()
        invariant
            document.wf(),
            crate::section::section_views(sections@) == shown,
            shown == keep_depth(spec_sections(document), args.max_depth),
            blocks == shown.map_values(|s: SectionView| md_block(document, s, args.no_summary)),
            k <= sections@.len(),
            forall|j: int|
                0 <= j < shown.len() ==> {
                    let s = #[trigger] shown[j];
                    &&& 1 <= s.start_line <= s.end_line <= document.num_lines()
                    &&& 1 <= s.level <= 6
                },
            out@ == join(blocks.take(k as int), "\n"@),
        decreases sections.len() - k,
    {
        let section = &sections[k];
        assert(section@ == shown[k as int]);
        proof {
            lemma_join_take(blocks, "\n"@, k as int);
        }
        let ghost before = out@;
        if k > 0 {
            push_str(&mut out, "\n");
        }
        let ghost mid = out@;
        push_md_heading(&mut out, section);
        push_md_summary(&mut out, document, section, args.no_summary);
        proof {
            assert(out@ =~= mid + md_block(document, section@, args.no_summary));
            assert(blocks[k as int] == md_block(document, section@, args.no_summary));
        }
        k += 1;
    }
    assert(blocks.take(k as int) =~= blocks);
    out
}

fn push_json_section_head(out: &mut String, section: &Section)
    ensures
        final(out)@ == old(out)@ + json_section_head(section@),
{
    push_str(out, "{\"id\":\"");
    push_json_escaped(out, section.id.as_str());
    push_str(out, "\",\"parent_id\":\"");
    push_json_escaped(out, section.parent_id.as_str());
    push_str(out, "\",\"level\":");
    push_decimal(out, section.level as usize);
    push_str(out, ",\"title\":\"");
    push_json_escaped(out, section.title.as_str());
    push_str(out, "\",\"start_line\":");
    push_decimal(out, section.start_line);
    push_str(out, ",\"end_line\":");
    push_decimal(out, section.end_line);
    assert(final(out)@ =~= old(out)@ + json_section_head(section@));
}

fn push_json_summary(out: &mut String, document: &Document, section: &Section, no_summary: bool)
    requires
        document.wf(),
        section.end_line <= document.num_lines(),
    ensures
        final(out)@ == old(out)@ + json_summary(document, section@, no_summary),
{
    if !no_summary {
        if let Some(summary) = section.summary_block(document) {
            proof {
                lemma_summary_block(document, section@);
            }
            push_str(out, ",\"summary\":{\"tag\":\"");
            push_str(out, summary.tag());
            push_str(out, "\",\"text\":\"");
            let payload = summary.payload();
            push_json_escaped(out, payload.as_str());
            push_str(out, "\"}");
            assert(final(out)@ =~= old(out)@ + json_summary(document, section@, no_summary));
            return ;
        }
    }
    assert(old(out)@ =~= old(out)@ + Seq::<char>::empty());
}

/// The JSON outline of the document.
pub fn render_tree_json(document: &Document, args: &TreeArgs) -> (r: String)
    requires
        document.wf(),
    ensures
        r@ == tree_json_spec(document, *args),
{
    let sections = filtered_tree_sections(document, args);
    let ghost shown = keep_depth(spec_sections(document), args.max_depth);
    let ghost items = shown.map_values(|s: SectionView| json_section(document, s, args.no_summary));
    proof {
        lemma_shown_sections(document, args.max_depth);
    }
    let mut out = String::new();
    push_str(&mut out, "{\"command\":\"tree\",\"file\":\"");
    push_json_escaped(&mut out, args.file.as_str());
    push_str(&mut out, "\",\"format\":\"json\",\"sections\":[");
    let ghost prefix = out@;
    let mut k: usize = 0;
    while k < sections.len()
        invariant
            document.wf(),
            crate::section::section_views(sections@) == shown,
            shown == keep_depth(spec_sections(document), args.max_depth),
            items == shown.map_values(|s: SectionView| json_section(document, s, args.no_summary)),
            k <= sections@.len(),
            forall|j: int|
                0 <= j < shown.len() ==> {
                    let s = #[trigger] shown[j];
                    &&& 1 <= s.start_line <= s.end_line <= document.num_lines()
                    &&& 1 <= s.level <= 6
                },
            out@ == prefix + join(items.take(k as int), ","@),
        decreases sections.len() - k,
    {
        let section = &sections[k];
        assert(section@ == shown[k as int]);
        proof {
            lemma_join_take(items, ","@, k as int);
        }
        if k > 0 {
            push_str(&mut out, ",");
        }
        let ghost mid = out@;
        push_json_section_head(&mut out, section);
        push_json_summary(&mut out, document, section, args.no_summary);
        push_str(&mut out, "}");
        proof {
            assert(out@ =~= mid + json_section(document, section@, args.no_summary));
            assert(items[k as int] == json_section(document, section@, args.no_summary));
        }
        k += 1;
    }
    assert(items.take(k as int) =~= items);
    push_str(&mut out, "]}\n");
    assert(out@ =~= tree_json_spec(document, *args));
    out
}

// ---------------------------------------------------------------------
// get
// ---------------------------------------------------------------------
/// An extracted slice: the section's full range, whether lines were cut,
/// and the text.
pub struct GetContent {
    pub start_line: usize,
    pub end_line: usize,
    pub truncated: bool,
    pub content: String,
}

/// Last line emitted: the section's last line, or fewer with `--max-lines`.
pub open spec fn extracted_end(start: int, end: int, max_lines: Option<usize>) -> int {
    let e = match max_lines {
        Some(l) => start + if l == 0 {
            0
        } else {
            l - 1
        },
        None => end,
    };
    if e < end {
        e
    } else {
        end
    }
}

pub fn get_content(document: &Document, start_line: usize, end_line: usize, max_lines: Option<usize>) -> (r: Option<GetContent>)
    requires
        document.wf(),
    ensures
        ({
            let x = extracted_end(start_line as int, end_line as int, max_lines);
            &&& r is Some <==> 1 <= start_line <= x <= document.num_lines()
            &&& r matches Some(c) ==> {
                &&& c.start_line == start_line
                &&& c.end_line == end_line
                &&& c.truncated == (x < end_line)
                &&& c.content@ == decode_utf8(document.lines_bytes(start_line as int, x))
                &&& encode_utf8(c.content@) == document.lines_bytes(start_line as int, x)
            }
        }),
{
    let extracted_end = match max_lines {
        Some(limit) => if limit == 0 {
            if start_line < end_line {
                start_line
            } else {
                end_line
            }
        } else if start_line <= end_line && limit - 1 < end_line - start_line {
            start_line + (limit - 1)
        } else {
            end_line
        },
        None => end_line,
    };
    let content = match document.slice_lines(start_line, extracted_end) {
        Some(c) => c,
        None => return None,
    };
    Some(
        GetContent {
            start_line,
            end_line,
            truncated: extracted_end < end_line,
            content: content.to_owned(),
        },
    )
}

/// `max(lines, 1)`, where `lines` is what `str::lines` yields for the text.
pub open spec fn content_lines(text: Seq<char>) -> int {
    let n = lines_count(encode_utf8(text)) as int;
    if n > 1 {
        n
    } else {
        1
    }
}

pub fn content_line_count(content: &GetContent) -> (n: usize)
    ensures
        n == content_lines(content.content@),
{
    let bytes = content.content.as_str().as_bytes();
    let mut count: usize = 0;
    let mut i: usize = 0;
    while i < bytes.len()
        invariant
            bytes@ == encode_utf8(content.content@),
            i <= bytes@.len(),
            count == newline_count(bytes@.take(i as int)),
            count <= i,
        decreases bytes.len() - i,
    {
        proof {
            assert(bytes@.take(i + 1).drop_last() =~= bytes@.take(i as int));
        }
        if bytes[i] == 10u8 {
            count += 1;
        }
        i += 1;
    }
    assert(bytes@.take(i as int) =~= bytes@);
    proof {
        crate::document::lemma_lines_count_bound(bytes@);
    }
    if bytes.len() > 0 && bytes[bytes.len() - 1] != 10u8 {
        count += 1;
    }
    if count > 1 {
        count
    } else {
        1
    }
}

/// `L<n>: <line>` and the line's own break, if it has one.
pub open spec fn numbered_line(doc: &Document, n: int) -> Seq<char> {
    "L"@ + dec(n as nat) + ": "@ + doc.line_text(n) + if doc.lines_bytes(n, n).last() == 10 {
        "\n"@
    } else {
        seq![]
    }
}

/// Lines `s..=e`, each numbered.
pub open spec fn numbered_lines(doc: &Document, s: int, e: int) -> Seq<char>
    decreases e - s + 1,
{
    if e < s {
        seq![]
    } else {
        numbered_lines(doc, s, e - 1) + numbered_line(doc, e)
    }
}

/// The text output of `get`: the slice, or its lines numbered with their
/// line numbers in the file.
pub open spec fn get_text_spec(doc: &Document, start: int, text: Seq<char>, with_line_numbers: bool) -> Seq<char> {
    if !with_line_numbers {
        text
    } else {
        numbered_lines(doc, start, start + content_lines(text) - 1)
    }
}

pub fn render_get_text(document: &Document, content: &GetContent, with_line_numbers: bool) -> (r: String)
    requires
        document.wf(),
        with_line_numbers ==> 1 <= content.start_line && content.start_line + content_lines(
            content.content@,
        ) - 1 <= document.num_lines(),
    ensures
        r@ == get_text_spec(document, content.start_line as int, content.content@, with_line_numbers),
{
    if !with_line_numbers {
        return content.content.clone();
    }
    let count = content_line_count(content);
    proof {
        document.lemma_num_lines_bound();
    }
    let last = content.start_line + (count - 1);
    let mut out = String::new();
    let mut line_number = content.start_line;
    loop
        invariant_except_break
            out@ == numbered_lines(document, content.start_line as int, line_number - 1),
        invariant
            document.wf(),
            1 <= content.start_line <= line_number <= last <= document.num_lines(),
            last == content.start_line + content_lines(content.content@) - 1,
        ensures
            out@ == numbered_lines(document, content.start_line as int, last as int),
        decreases last - line_number,
    {
        let line = document.line(line_number).unwrap();
        let slice = document.slice_lines(line_number, line_number).unwrap();
        let ghost before = out@;
        push_str(&mut out, "L");
        push_decimal(&mut out, line_number);
        push_str(&mut out, ": ");
        push_str(&mut out, line);
        let bytes = slice.as_bytes();
        proof {
            document.lemma_lines_count(line_number as int, line_number as int);
        }
        if bytes[bytes.len() - 1] == 10u8 {
            push_str(&mut out, "\n");
        }
        proof {
            assert(out@ =~= before + numbered_line(document, line_number as int));
        }
        if line_number == last {
            break;
        }
        line_number += 1;
    }
    out
}

/// The JSON output of `get`.
pub open spec fn get_json_spec(file: Seq<char>, id: Seq<char>, start: int, end: int, truncated: bool, text: Seq<char>) -> Seq<char> {
    "{\"command\":\"get\",\"file\":\""@ + json_escape(file) + "\",\"format\":\"json\",\"id\":\""@
        + json_escape(id) + "\",\"start_line\":"@ + dec(start as nat) + ",\"end_line\":"@ + dec(
        end as nat,
    ) + ",\"truncated\":"@ + bool_text(truncated) + ",\"content\":\""@ + json_escape(text)
        + "\"}\n"@
}

fn push_bool(out: &mut String, b: bool)
    ensures
        final(out)@ == old(out)@ + bool_text(b),
{
    if b {
        push_str(out, "true");
    } else {
        push_str(out, "false");
    }
}

pub fn render_get_json(args: &GetArgs, start_line: usize, end_line: usize, content: &GetContent) -> (r: String)
    ensures
        r@ == get_json_spec(
            args.file@,
            args.id@,
            start_line as int,
            end_line as int,
            content.truncated,
            content.content@,
        ),
{
    let mut out = String::new();
    push_str(&mut out, "{\"command\":\"get\",\"file\":\"");
    push_json_escaped(&mut out, args.file.as_str());
    push_str(&mut out, "\",\"format\":\"json\",\"id\":\"");
    push_json_escaped(&mut out, args.id.as_str());
    push_str(&mut out, "\",\"start_line\":");
    push_decimal(&mut out, start_line);
    push_str(&mut out, ",\"end_line\":");
    push_decimal(&mut out, end_line);
    push_str(&mut out, ",\"truncated\":");
    push_bool(&mut out, content.truncated);
    push_str(&mut out, ",\"content\":\"");
    push_json_escaped(&mut out, content.content.as_str());
    push_str(&mut out, "\"}\n");
    assert(out@ =~= get_json_spec(
        args.file@,
        args.id@,
        start_line as int,
        end_line as int,
        content.truncated,
        content.content@,
    ));
    out
}

// ---------------------------------------------------------------------
// find
// ---------------------------------------------------------------------
/// `L<line> [<section id, or - before the first heading>] <text>` per match.
pub open spec fn find_text_line(m: FindMatchView) -> Seq<char> {
    "L"@ + dec(m.line as nat) + " ["@ + if m.section_id == ROOT_SECTION_ID@ {
        "-"@
    } else {
        m.section_id
    } + "] "@ + m.text + "\n"@
}

pub open spec fn find_text_spec(ms: Seq<FindMatchView>) -> Seq<char>
    decreases ms.len(),
{
    if ms.len() == 0 {
        seq![]
    } else {
        find_text_spec(ms.drop_last()) + find_text_line(ms.last())
    }
}

pub fn render_find_text(matches: &Vec<FindMatch>) -> (r: String)
    ensures
        r@ == find_text_spec(match_views(matches@)),
{
    let ghost ms = match_views(matches@);
    let mut out = String::new();
    let mut k: usize = 0;
    while k < matches.len()
        invariant
            k <= matches@.len(),
            ms == match_views(matches@),
            out@ == find_text_spec(ms.take(k as int)),
        decreases matches.len() - k,
    {
        let item = &matches[k];
        let ghost before = out@;
        push_str(&mut out, "L");
        push_decimal(&mut out, item.line);
        push_str(&mut out, " [");
        if str_eq(item.section_id.as_str(), ROOT_SECTION_ID) {
            push_str(&mut out, "-");
        } else {
            push_str(&mut out, item.section_id.as_str());
        }
        push_str(&mut out, "] ");
        push_str(&mut out, item.text.as_str());
        push_str(&mut out, "\n");
        proof {
            assert(ms.take(k + 1).drop_last() =~= ms.take(k as int));
            assert(ms.take(k + 1).last() == item@);
            assert(out@ =~= before + find_text_line(item@));
        }
        k += 1;
    }
    assert(ms.take(k as int) =~= ms);
    out
}

/// One match object of the JSON output of `find`.
pub open spec fn find_json_item(m: FindMatchView) -> Seq<char> {
    "{\"line\":"@ + dec(m.line as nat) + ",\"section_id\":\""@ + json_escape(m.section_id)
        + "\",\"text\":\""@ + json_escape(m.text) + "\"}"@
}

/// The JSON output of `find`.
pub open spec fn find_json_spec(args: FindArgs, ms: Seq<FindMatchView>) -> Seq<char> {
    "{\"command\":\"find\",\"file\":\""@ + json_escape(args.file@) + "\",\"format\":\"json\",\"query\":\""@
        + json_escape(args.query@) + "\",\"regex\":"@ + bool_text(args.regex)
        + ",\"case_sensitive\":"@ + bool_text(args.case_sensitive) + ",\"matches\":["@ + join(
        ms.map_values(|m: FindMatchView| find_json_item(m)),
        ","@,
    ) + "]}\n"@
}

fn push_find_json_item(out: &mut String, item: &FindMatch)
    ensures
        final(out)@ == old(out)@ + find_json_item(item@),
{
    push_str(out, "{\"line\":");
    push_decimal(out, item.line);
    push_str(out, ",\"section_id\":\"");
    push_json_escaped(out, item.section_id.as_str());
    push_str(out, "\",\"text\":\"");
    push_json_escaped(out, item.text.as_str());
    push_str(out, "\"}");
    assert(final(out)@ =~= old(out)@ + find_json_item(item@));
}

pub fn render_find_json(args: &FindArgs, matches: &Vec<FindMatch>) -> (r: String)
    ensures
        r@ == find_json_spec(*args, match_views(matches@)),
{
    let ghost items = match_views(matches@).map_values(|m: FindMatchView| find_json_item(m));
    let mut out = String::new();
    push_str(&mut out, "{\"command\":\"find\",\"file\":\"");
    push_json_escaped(&mut out, args.file.as_str());
    push_str(&mut out, "\",\"format\":\"json\",\"query\":\"");
    push_json_escaped(&mut out, args.query.as_str());
    push_str(&mut out, "\",\"regex\":");
    push_bool(&mut out, args.regex);
    push_str(&mut out, ",\"case_sensitive\":");
    push_bool(&mut out, args.case_sensitive);
    push_str(&mut out, ",\"matches\":[");
    let ghost prefix = out@;
    let mut k: usize = 0;
    while k < matches.len()
        invariant
            k <= matches@.len(),
            items == match_views(matches@).map_values(|m: FindMatchView| find_json_item(m)),
            out@ == prefix + join(items.take(k as int), ","@),
        decreases matches.len() - k,
    {
        proof {
            lemma_join_take(items, ","@, k as int);
        }
        if k > 0 {
            push_str(&mut out, ",");
        }
        let ghost mid = out@;
        push_find_json_item(&mut out, &matches[k]);
        proof {
            assert(items[k as int] == find_json_item(matches@[k as int]@));
            assert(out@ =~= mid + items[k as int]);
        }
        k += 1;
    }
    assert(items.take(k as int) =~= items);
    push_str(&mut out, "]}\n");
    assert(out@ =~= find_json_spec(*args, match_views(matches@)));
    out
}

} // verus!

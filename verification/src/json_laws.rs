//! JSON strings read back: a decoder for the inside of a JSON string literal,
//! and the laws that every string field the library writes reads back as the
//! value it stands for.
use vstd::prelude::*;

use crate::error::{hex_digit, json_escape, json_escape_char};
use crate::document::Document;
use crate::render::{
    find_json_item, find_json_spec, get_json_spec, json_section_head, json_summary, tree_json_spec,
};
use crate::section::SectionView;
use crate::summary::payload_spec;

verus! {

/// The value of a hexadecimal digit.
pub open spec fn hex_value(c: char) -> Option<nat> {
    if '0' <= c && c <= '9' {
        Some((c as u32 - '0' as u32) as nat)
    } else if 'a' <= c && c <= 'f' {
        Some((c as u32 - 'a' as u32 + 10) as nat)
    } else if 'A' <= c && c <= 'F' {
        Some((c as u32 - 'A' as u32 + 10) as nat)
    } else {
        None
    }
}

/// The character that a one-letter escape `\x` stands for.
pub open spec fn simple_escape(c: char) -> Option<char> {
    if c == '"' {
        Some('"')
    } else if c == '\\' {
        Some('\\')
    } else if c == '/' {
        Some('/')
    } else if c == 'b' {
        Some('\x08')
    } else if c == 'f' {
        Some('\x0C')
    } else if c == 'n' {
        Some('\n')
    } else if c == 'r' {
        Some('\r')
    } else if c == 't' {
        Some('\t')
    } else {
        None
    }
}

/// The code unit of a `\uXXXX` escape at the start of `e`, when it is one.
pub open spec fn unicode_escape(e: Seq<char>) -> Option<nat> {
    if e.len() < 6 || e[0] != '\\' || e[1] != 'u' {
        None
    } else {
        match (hex_value(e[2]), hex_value(e[3]), hex_value(e[4]), hex_value(e[5])) {
            (Some(a), Some(b), Some(c), Some(d)) => Some(a * 4096 + b * 256 + c * 16 + d),
            _ => None,
        }
    }
}

/// The text that the inside of a JSON string literal stands for (RFC 8259):
/// a character other than `"`, `\` and the controls stands for itself; `\"`,
/// `\\`, `\/`, `\b`, `\f`, `\n`, `\r`, `\t` and `\uXXXX` (outside the
/// surrogate range) for the character they name. `None` when the text is not
/// the inside of a string literal: a bare `"` would end it early, and a bare
/// control character or an unknown escape is not allowed.
pub open spec fn json_decode(e: Seq<char>) -> Option<Seq<char>>
    decreases e.len(),
{
    if e.len() == 0 {
        Some(seq![])
    } else if e[0] == '"' || (e[0] as u32) < 0x20 {
        None
    } else if e[0] != '\\' {
        match json_decode(e.drop_first()) {
            Some(r) => Some(seq![e[0]] + r),
            None => None,
        }
    } else if e.len() < 2 {
        None
    } else if simple_escape(e[1]) is Some {
        match json_decode(e.skip(2)) {
            Some(r) => Some(seq![simple_escape(e[1])->0] + r),
            None => None,
        }
    } else {
        match unicode_escape(e) {
            Some(v) => if 0xD800 <= v <= 0xDFFF {
                None
            } else {
                match json_decode(e.skip(6)) {
                    Some(r) => Some(seq![(v as u32) as char] + r),
                    None => None,
                }
            },
            None => None,
        }
    }
}

proof fn lemma_hex_digit(d: nat)
    requires
        d < 16,
    ensures
        hex_value(hex_digit(d)) == Some(d),
{
}

proof fn lemma_escape_front(t: Seq<char>)
    requires
        t.len() > 0,
    ensures
        json_escape(t) == json_escape_char(t[0]) + json_escape(t.drop_first()),
    decreases t.len(),
{
    if t.len() > 1 {
        lemma_escape_front(t.drop_last());
        assert(t.drop_last().drop_first() =~= t.drop_first().drop_last());
        assert(t.drop_first().last() == t.last());
        assert(json_escape(t.drop_first()) == json_escape(t.drop_first().drop_last())
            + json_escape_char(t.drop_first().last()));
    } else {
        assert(t.drop_last() =~= Seq::<char>::empty());
        assert(t.drop_first() =~= Seq::<char>::empty());
    }
}

/// One escaped character in front of the rest decodes to that character in
/// front of what the rest decodes to.
proof fn lemma_decode_char(c: char, rest: Seq<char>)
    ensures
        json_decode(json_escape_char(c) + rest) == match json_decode(rest) {
            Some(r) => Some(seq![c] + r),
            None => None,
        },
{
    let e = json_escape_char(c) + rest;
    let u = c as u32;
    if c == '"' || c == '\\' || c == '\n' || c == '\r' || c == '\t' {
        assert(e.skip(2) =~= rest);
    } else if u < 0x20 {
        lemma_hex_digit((u / 16) as nat);
        lemma_hex_digit((u % 16) as nat);
        assert(e.skip(6) =~= rest);
        assert(simple_escape(e[1]) is None);
        assert(unicode_escape(e) == Some((u / 16) as nat * 16 + (u % 16) as nat));
        assert((u / 16) as nat * 16 + (u % 16) as nat == u);
        vstd::utf8::char_u32_cast(c, u);
    } else {
        assert(e.drop_first() =~= rest);
    }
}

/// What the library writes for a text as a JSON string reads back as that
/// text.
pub proof fn law_json_escape_decodes(t: Seq<char>)
    ensures
        json_decode(json_escape(t)) == Some(t),
    decreases t.len(),
{
    if t.len() == 0 {
        assert(json_escape(t) =~= Seq::<char>::empty());
    } else {
        lemma_escape_front(t);
        law_json_escape_decodes(t.drop_first());
        lemma_decode_char(t[0], json_escape(t.drop_first()));
        assert(seq![t[0]] + t.drop_first() =~= t);
    }
}

/// `out` is `x` followed by the member `"<key>":"<e>"` and then `y`.
pub open spec fn splits_as_member(out: Seq<char>, x: Seq<char>, key: Seq<char>, e: Seq<char>, y: Seq<char>) -> bool {
    out == x + seq!['"'] + key + seq!['"', ':', '"'] + e + seq!['"'] + y
}

/// `out` holds a member `"<key>":"..."` whose string reads back as `value`.
pub open spec fn has_string_member(out: Seq<char>, key: Seq<char>, value: Seq<char>) -> bool {
    exists|x: Seq<char>, e: Seq<char>, y: Seq<char>|
        #[trigger] splits_as_member(out, x, key, e, y) && json_decode(e) == Some(value)
}

proof fn lemma_member(out: Seq<char>, x: Seq<char>, key: Seq<char>, v: Seq<char>, y: Seq<char>)
    requires
        out == x + seq!['"'] + key + seq!['"', ':', '"'] + json_escape(v) + seq!['"'] + y,
    ensures
        has_string_member(out, key, v),
{
    law_json_escape_decodes(v);
    assert(splits_as_member(out, x, key, json_escape(v), y));
}

/// A member built from its parts: text before, the key, the escaped value,
/// text after.
proof fn lemma_member_in(pre: Seq<char>, x1: Seq<char>, key: Seq<char>, v: Seq<char>, y1: Seq<char>, post: Seq<char>)
    ensures
        has_string_member(
            pre + (x1 + seq!['"'] + key + seq!['"', ':', '"']) + json_escape(v) + (seq!['"'] + y1) + post,
            key,
            v,
        ),
{
    let out = pre + (x1 + seq!['"'] + key + seq!['"', ':', '"']) + json_escape(v) + (seq!['"'] + y1) + post;
    assert(out =~= (pre + x1) + seq!['"'] + key + seq!['"', ':', '"'] + json_escape(v) + seq!['"'] + (
    y1 + post));
    lemma_member(out, pre + x1, key, v, y1 + post);
}

/// A section object of the JSON outline holds its id, its parent's id and its
/// title as string members that read back exactly as those texts.
pub proof fn law_json_section_strings(s: SectionView)
    ensures
        has_string_member(json_section_head(s), "id"@, s.id),
        has_string_member(json_section_head(s), "parent_id"@, s.parent_id),
        has_string_member(json_section_head(s), "title"@, s.title),
{
    let h = json_section_head(s);
    let ei = json_escape(s.id);
    let ep = json_escape(s.parent_id);
    let et = json_escape(s.title);
    let dl = crate::text::dec(s.level as nat);
    let ds = crate::text::dec(s.start_line as nat);
    let de = crate::text::dec(s.end_line as nat);
    assert("{\"id\":\""@ == seq!['{'] + seq!['"'] + "id"@ + seq!['"', ':', '"']) by {
        reveal_strlit("{\"id\":\"");
        reveal_strlit("id");
    }
    assert("\",\"parent_id\":\""@ == seq!['"'] + seq![',', '"', 'p', 'a', 'r', 'e', 'n', 't', '_', 'i', 'd', '"', ':', '"']) by {
        reveal_strlit("\",\"parent_id\":\"");
    }
    assert(h =~= Seq::<char>::empty() + "{\"id\":\""@ + json_escape(s.id) + "\",\"parent_id\":\""@ + (ep + "\",\"level\":"@ + dl + ",\"title\":\""@ + et + "\",\"start_line\":"@ + ds + ",\"end_line\":"@ + de));
    lemma_member_in(Seq::<char>::empty(), seq!['{'], "id"@, s.id, seq![',', '"', 'p', 'a', 'r', 'e', 'n', 't', '_', 'i', 'd', '"', ':', '"'], ep + "\",\"level\":"@ + dl + ",\"title\":\""@ + et + "\",\"start_line\":"@ + ds + ",\"end_line\":"@ + de);
    assert("\",\"parent_id\":\""@ == seq!['"', ','] + seq!['"'] + "parent_id"@ + seq!['"', ':', '"']) by {
        reveal_strlit("\",\"parent_id\":\"");
        reveal_strlit("parent_id");
    }
    assert("\",\"level\":"@ == seq!['"'] + seq![',', '"', 'l', 'e', 'v', 'e', 'l', '"', ':']) by {
        reveal_strlit("\",\"level\":");
    }
    assert(h =~= "{\"id\":\""@ + ei + "\",\"parent_id\":\""@ + json_escape(s.parent_id) + "\",\"level\":"@ + (dl + ",\"title\":\""@ + et + "\",\"start_line\":"@ + ds + ",\"end_line\":"@ + de));
    lemma_member_in("{\"id\":\""@ + ei, seq!['"', ','], "parent_id"@, s.parent_id, seq![',', '"', 'l', 'e', 'v', 'e', 'l', '"', ':'], dl + ",\"title\":\""@ + et + "\",\"start_line\":"@ + ds + ",\"end_line\":"@ + de);
    assert(",\"title\":\""@ == seq![','] + seq!['"'] + "title"@ + seq!['"', ':', '"']) by {
        reveal_strlit(",\"title\":\"");
        reveal_strlit("title");
    }
    assert("\",\"start_line\":"@ == seq!['"'] + seq![',', '"', 's', 't', 'a', 'r', 't', '_', 'l', 'i', 'n', 'e', '"', ':']) by {
        reveal_strlit("\",\"start_line\":");
    }
    assert(h =~= "{\"id\":\""@ + ei + "\",\"parent_id\":\""@ + ep + "\",\"level\":"@ + dl + ",\"title\":\""@ + json_escape(s.title) + "\",\"start_line\":"@ + (ds + ",\"end_line\":"@ + de));
    lemma_member_in("{\"id\":\""@ + ei + "\",\"parent_id\":\""@ + ep + "\",\"level\":"@ + dl, seq![','], "title"@, s.title, seq![',', '"', 's', 't', 'a', 'r', 't', '_', 'l', 'i', 'n', 'e', '"', ':'], ds + ",\"end_line\":"@ + de);
}

/// The summary member of a section object holds the payload as its `text`
/// string, which reads back exactly as the payload.
pub proof fn law_json_summary_text(doc: &Document, sec: SectionView, no_summary: bool)
    ensures
        crate::render::shown_summary(doc, sec, no_summary) matches Some(b) ==> has_string_member(
            json_summary(doc, sec, no_summary),
            "text"@,
            payload_spec(b),
        ),
{
    if let Some(b) = crate::render::shown_summary(doc, sec, no_summary) {
        let out = json_summary(doc, sec, no_summary);
        assert("\",\"text\":\""@ == seq!['"', ','] + seq!['"'] + "text"@ + seq!['"', ':', '"']) by {
            reveal_strlit("\",\"text\":\"");
            reveal_strlit("text");
        }
        assert("\"}"@ == seq!['"'] + seq!['}']) by {
            reveal_strlit("\"}");
        }
        assert(out =~= ",\"summary\":{\"tag\":\""@ + crate::summary::tag_spec(b.kind) + "\",\"text\":\""@ + json_escape(payload_spec(b)) + "\"}"@ + (Seq::<char>::empty()));
        lemma_member_in(",\"summary\":{\"tag\":\""@ + crate::summary::tag_spec(b.kind), seq!['"', ','], "text"@, payload_spec(b), seq!['}'], Seq::<char>::empty());
    }
}

/// The JSON outline names the file as given, as a string that reads back
/// exactly as the path.
pub proof fn law_json_tree_file(doc: &Document, args: crate::cli::TreeArgs)
    ensures
        has_string_member(tree_json_spec(doc, args), "file"@, args.file@),
{
    let out = tree_json_spec(doc, args);
    let items = crate::text::join(
        crate::render::keep_depth(crate::section::spec_sections(doc), args.max_depth).map_values(
            |s: SectionView| crate::render::json_section(doc, s, args.no_summary),
        ),
        ","@,
    );
    assert("{\"command\":\"tree\",\"file\":\""@ == seq!['{', '"', 'c', 'o', 'm', 'm', 'a', 'n', 'd', '"', ':', '"', 't', 'r', 'e', 'e', '"', ','] + seq!['"'] + "file"@ + seq!['"', ':', '"']) by {
        reveal_strlit("{\"command\":\"tree\",\"file\":\"");
        reveal_strlit("file");
    }
    assert("\",\"format\":\"json\",\"sections\":["@ == seq!['"'] + seq![',', '"', 'f', 'o', 'r', 'm', 'a', 't', '"', ':', '"', 'j', 's', 'o', 'n', '"', ',', '"', 's', 'e', 'c', 't', 'i', 'o', 'n', 's', '"', ':', '[']) by {
        reveal_strlit("\",\"format\":\"json\",\"sections\":[");
    }
    assert(out =~= Seq::<char>::empty() + "{\"command\":\"tree\",\"file\":\""@ + json_escape(args.file@) + "\",\"format\":\"json\",\"sections\":["@ + (items + "]}\n"@));
    lemma_member_in(Seq::<char>::empty(), seq!['{', '"', 'c', 'o', 'm', 'm', 'a', 'n', 'd', '"', ':', '"', 't', 'r', 'e', 'e', '"', ','], "file"@, args.file@, seq![',', '"', 'f', 'o', 'r', 'm', 'a', 't', '"', ':', '"', 'j', 's', 'o', 'n', '"', ',', '"', 's', 'e', 'c', 't', 'i', 'o', 'n', 's', '"', ':', '['], items + "]}\n"@);
}

/// The JSON output of `get` holds the file, the id and the extracted text as
/// strings that read back exactly as those texts.
pub proof fn law_json_get_strings(file: Seq<char>, id: Seq<char>, start: int, end: int, truncated: bool, text: Seq<char>)
    ensures
        has_string_member(get_json_spec(file, id, start, end, truncated, text), "file"@, file),
        has_string_member(get_json_spec(file, id, start, end, truncated, text), "id"@, id),
        has_string_member(get_json_spec(file, id, start, end, truncated, text), "content"@, text),
{
    let out = get_json_spec(file, id, start, end, truncated, text);
    let ef = json_escape(file);
    let ei = json_escape(id);
    let et = json_escape(text);
    let ds = crate::text::dec(start as nat);
    let de = crate::text::dec(end as nat);
    let bt = crate::render::bool_text(truncated);
    assert("{\"command\":\"get\",\"file\":\""@ == seq!['{', '"', 'c', 'o', 'm', 'm', 'a', 'n', 'd', '"', ':', '"', 'g', 'e', 't', '"', ','] + seq!['"'] + "file"@ + seq!['"', ':', '"']) by {
        reveal_strlit("{\"command\":\"get\",\"file\":\"");
        reveal_strlit("file");
    }
    assert("\",\"format\":\"json\",\"id\":\""@ == seq!['"'] + seq![',', '"', 'f', 'o', 'r', 'm', 'a', 't', '"', ':', '"', 'j', 's', 'o', 'n', '"', ',', '"', 'i', 'd', '"', ':', '"']) by {
        reveal_strlit("\",\"format\":\"json\",\"id\":\"");
    }
    assert(out =~= Seq::<char>::empty() + "{\"command\":\"get\",\"file\":\""@ + json_escape(file) + "\",\"format\":\"json\",\"id\":\""@ + (ei + "\",\"start_line\":"@ + ds + ",\"end_line\":"@ + de + ",\"truncated\":"@ + bt + ",\"content\":\""@ + et + "\"}\n"@));
    lemma_member_in(Seq::<char>::empty(), seq!['{', '"', 'c', 'o', 'm', 'm', 'a', 'n', 'd', '"', ':', '"', 'g', 'e', 't', '"', ','], "file"@, file, seq![',', '"', 'f', 'o', 'r', 'm', 'a', 't', '"', ':', '"', 'j', 's', 'o', 'n', '"', ',', '"', 'i', 'd', '"', ':', '"'], ei + "\",\"start_line\":"@ + ds + ",\"end_line\":"@ + de + ",\"truncated\":"@ + bt + ",\"content\":\""@ + et + "\"}\n"@);
    assert("\",\"format\":\"json\",\"id\":\""@ == seq!['"', ',', '"', 'f', 'o', 'r', 'm', 'a', 't', '"', ':', '"', 'j', 's', 'o', 'n', '"', ','] + seq!['"'] + "id"@ + seq!['"', ':', '"']) by {
        reveal_strlit("\",\"format\":\"json\",\"id\":\"");
        reveal_strlit("id");
    }
    assert("\",\"start_line\":"@ == seq!['"'] + seq![',', '"', 's', 't', 'a', 'r', 't', '_', 'l', 'i', 'n', 'e', '"', ':']) by {
        reveal_strlit("\",\"start_line\":");
    }
    assert(out =~= "{\"command\":\"get\",\"file\":\""@ + ef + "\",\"format\":\"json\",\"id\":\""@ + json_escape(id) + "\",\"start_line\":"@ + (ds + ",\"end_line\":"@ + de + ",\"truncated\":"@ + bt + ",\"content\":\""@ + et + "\"}\n"@));
    lemma_member_in("{\"command\":\"get\",\"file\":\""@ + ef, seq!['"', ',', '"', 'f', 'o', 'r', 'm', 'a', 't', '"', ':', '"', 'j', 's', 'o', 'n', '"', ','], "id"@, id, seq![',', '"', 's', 't', 'a', 'r', 't', '_', 'l', 'i', 'n', 'e', '"', ':'], ds + ",\"end_line\":"@ + de + ",\"truncated\":"@ + bt + ",\"content\":\""@ + et + "\"}\n"@);
    assert(",\"content\":\""@ == seq![','] + seq!['"'] + "content"@ + seq!['"', ':', '"']) by {
        reveal_strlit(",\"content\":\"");
        reveal_strlit("content");
    }
    assert("\"}\n"@ == seq!['"'] + seq!['}', '\n']) by {
        reveal_strlit("\"}\n");
    }
    assert(out =~= "{\"command\":\"get\",\"file\":\""@ + ef + "\",\"format\":\"json\",\"id\":\""@ + ei + "\",\"start_line\":"@ + ds + ",\"end_line\":"@ + de + ",\"truncated\":"@ + bt + ",\"content\":\""@ + json_escape(text) + "\"}\n"@ + (Seq::<char>::empty()));
    lemma_member_in("{\"command\":\"get\",\"file\":\""@ + ef + "\",\"format\":\"json\",\"id\":\""@ + ei + "\",\"start_line\":"@ + ds + ",\"end_line\":"@ + de + ",\"truncated\":"@ + bt, seq![','], "content"@, text, seq!['}', '\n'], Seq::<char>::empty());
}

/// A match object of `find` holds the section id and the line's text as
/// strings that read back exactly as those texts.
pub proof fn law_json_match_strings(m: crate::search::FindMatchView)
    ensures
        has_string_member(find_json_item(m), "section_id"@, m.section_id),
        has_string_member(find_json_item(m), "text"@, m.text),
{
    let out = find_json_item(m);
    let dl = crate::text::dec(m.line as nat);
    let es = json_escape(m.section_id);
    let et = json_escape(m.text);
    assert(",\"section_id\":\""@ == seq![','] + seq!['"'] + "section_id"@ + seq!['"', ':', '"']) by {
        reveal_strlit(",\"section_id\":\"");
        reveal_strlit("section_id");
    }
    assert("\",\"text\":\""@ == seq!['"'] + seq![',', '"', 't', 'e', 'x', 't', '"', ':', '"']) by {
        reveal_strlit("\",\"text\":\"");
    }
    assert(out =~= "{\"line\":"@ + dl + ",\"section_id\":\""@ + json_escape(m.section_id) + "\",\"text\":\""@ + (et + "\"}"@));
    lemma_member_in("{\"line\":"@ + dl, seq![','], "section_id"@, m.section_id, seq![',', '"', 't', 'e', 'x', 't', '"', ':', '"'], et + "\"}"@);
    assert("\",\"text\":\""@ == seq!['"', ','] + seq!['"'] + "text"@ + seq!['"', ':', '"']) by {
        reveal_strlit("\",\"text\":\"");
        reveal_strlit("text");
    }
    assert("\"}"@ == seq!['"'] + seq!['}']) by {
        reveal_strlit("\"}");
    }
    assert(out =~= "{\"line\":"@ + dl + ",\"section_id\":\""@ + es + "\",\"text\":\""@ + json_escape(m.text) + "\"}"@ + (Seq::<char>::empty()));
    lemma_member_in("{\"line\":"@ + dl + ",\"section_id\":\""@ + es, seq!['"', ','], "text"@, m.text, seq!['}'], Seq::<char>::empty());
}

/// The JSON output of `find` holds the file and the query as strings that
/// read back exactly as those texts.
pub proof fn law_json_find_strings(args: crate::cli::FindArgs, ms: Seq<crate::search::FindMatchView>)
    ensures
        has_string_member(find_json_spec(args, ms), "file"@, args.file@),
        has_string_member(find_json_spec(args, ms), "query"@, args.query@),
{
    let out = find_json_spec(args, ms);
    let ef = json_escape(args.file@);
    let eq = json_escape(args.query@);
    let br = crate::render::bool_text(args.regex);
    let bc = crate::render::bool_text(args.case_sensitive);
    let items = crate::text::join(ms.map_values(|m: crate::search::FindMatchView| find_json_item(m)), ","@);
    assert("{\"command\":\"find\",\"file\":\""@ == seq!['{', '"', 'c', 'o', 'm', 'm', 'a', 'n', 'd', '"', ':', '"', 'f', 'i', 'n', 'd', '"', ','] + seq!['"'] + "file"@ + seq!['"', ':', '"']) by {
        reveal_strlit("{\"command\":\"find\",\"file\":\"");
        reveal_strlit("file");
    }
    assert("\",\"format\":\"json\",\"query\":\""@ == seq!['"'] + seq![',', '"', 'f', 'o', 'r', 'm', 'a', 't', '"', ':', '"', 'j', 's', 'o', 'n', '"', ',', '"', 'q', 'u', 'e', 'r', 'y', '"', ':', '"']) by {
        reveal_strlit("\",\"format\":\"json\",\"query\":\"");
    }
    assert(out =~= Seq::<char>::empty() + "{\"command\":\"find\",\"file\":\""@ + json_escape(args.file@) + "\",\"format\":\"json\",\"query\":\""@ + (eq + "\",\"regex\":"@ + br + ",\"case_sensitive\":"@ + bc + ",\"matches\":["@ + items + "]}\n"@));
    lemma_member_in(Seq::<char>::empty(), seq!['{', '"', 'c', 'o', 'm', 'm', 'a', 'n', 'd', '"', ':', '"', 'f', 'i', 'n', 'd', '"', ','], "file"@, args.file@, seq![',', '"', 'f', 'o', 'r', 'm', 'a', 't', '"', ':', '"', 'j', 's', 'o', 'n', '"', ',', '"', 'q', 'u', 'e', 'r', 'y', '"', ':', '"'], eq + "\",\"regex\":"@ + br + ",\"case_sensitive\":"@ + bc + ",\"matches\":["@ + items + "]}\n"@);
    assert("\",\"format\":\"json\",\"query\":\""@ == seq!['"', ',', '"', 'f', 'o', 'r', 'm', 'a', 't', '"', ':', '"', 'j', 's', 'o', 'n', '"', ','] + seq!['"'] + "query"@ + seq!['"', ':', '"']) by {
        reveal_strlit("\",\"format\":\"json\",\"query\":\"");
        reveal_strlit("query");
    }
    assert("\",\"regex\":"@ == seq!['"'] + seq![',', '"', 'r', 'e', 'g', 'e', 'x', '"', ':']) by {
        reveal_strlit("\",\"regex\":");
    }
    assert(out =~= "{\"command\":\"find\",\"file\":\""@ + ef + "\",\"format\":\"json\",\"query\":\""@ + json_escape(args.query@) + "\",\"regex\":"@ + (br + ",\"case_sensitive\":"@ + bc + ",\"matches\":["@ + items + "]}\n"@));
    lemma_member_in("{\"command\":\"find\",\"file\":\""@ + ef, seq!['"', ',', '"', 'f', 'o', 'r', 'm', 'a', 't', '"', ':', '"', 'j', 's', 'o', 'n', '"', ','], "query"@, args.query@, seq![',', '"', 'r', 'e', 'g', 'e', 'x', '"', ':'], br + ",\"case_sensitive\":"@ + bc + ",\"matches\":["@ + items + "]}\n"@);
}

/// An error object holds its message as a string that reads back exactly as
/// the message.
pub proof fn law_json_error_message(err: crate::error::AppError)
    ensures
        has_string_member(err.json_spec(), "message"@, err.message_spec()),
{
    let out = err.json_spec();
    assert("\",\"message\":\""@ == seq!['"', ','] + seq!['"'] + "message"@ + seq!['"', ':', '"']) by {
        reveal_strlit("\",\"message\":\"");
        reveal_strlit("message");
    }
    assert("\"}}"@ == seq!['"'] + seq!['}', '}']) by {
        reveal_strlit("\"}}");
    }
    assert(out =~= "{\"error\":{\"code\":\""@ + err.code_spec() + "\",\"message\":\""@ + json_escape(err.message_spec()) + "\"}}"@ + (Seq::<char>::empty()));
    lemma_member_in("{\"error\":{\"code\":\""@ + err.code_spec(), seq!['"', ','], "message"@, err.message_spec(), seq!['}', '}'], Seq::<char>::empty());
}

} // verus!

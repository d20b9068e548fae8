//! Line search: literal or regular-expression matching of each line, with
//! each match mapped to the section that holds it.
use vstd::prelude::*;

use crate::cli::FindArgs;
use crate::document::Document;
use crate::error::{AppError, UsageError};
use crate::section::{find_for_line, spec_sections, SectionIndex, ROOT_SECTION_ID};
use crate::text::{chars_of, contains_sub, find_in_range};

verus! {

// ---------------------------------------------------------------------
// The regex crate
// ---------------------------------------------------------------------
#[verifier::external_type_specification]
#[verifier::external_body]
pub struct ExRegex(regex::Regex);

/// The characters that have a meaning in a regular expression.
pub open spec fn is_meta_character(c: char) -> bool {
    c == '\\' || c == '.' || c == '+' || c == '*' || c == '?' || c == '(' || c == ')' || c == '|'
        || c == '[' || c == ']' || c == '{' || c == '}' || c == '^' || c == '$' || c == '#' || c
        == '&' || c == '-' || c == '~'
}

/// The pattern with a backslash put before each meta character, every
/// other character copied: a regex that matches the pattern literally.
pub open spec fn regex_escape(pattern: Seq<char>) -> Seq<char>
    decreases pattern.len(),
{
    if pattern.len() == 0 {
        seq![]
    } else {
        regex_escape(pattern.drop_last()) + if is_meta_character(pattern.last()) {
            seq!['\\', pattern.last()]
        } else {
            seq![pattern.last()]
        }
    }
}

/// What building a regex from `pattern` gives: `None` when it compiles, else
/// the error's display text.
pub uninterp spec fn regex_build_error(pattern: Seq<char>, case_insensitive: bool) -> Option<Seq<char>>;

/// Whether the regex built from `pattern` matches somewhere in `haystack`.
pub uninterp spec fn regex_is_match(pattern: Seq<char>, case_insensitive: bool, haystack: Seq<char>) -> bool;

/// `regex::escape`: a backslash before each meta character of the fixed
/// list, every other character copied (`regex_syntax::escape_into`).
#[verifier::external_body]
fn escape_pattern(pattern: &str) -> (r: String)
    ensures
        r@ == regex_escape(pattern@),
{
    regex::escape(pattern)
}

/// A regex together with the pattern and case option it was built from.
/// Only `compile_regex` builds one.
pub struct CompiledRegex {
    pattern: String,
    case_insensitive: bool,
    regex: regex::Regex,
}

impl CompiledRegex {
    pub closed spec fn pattern_spec(&self) -> Seq<char> {
        self.pattern@
    }

    pub closed spec fn case_insensitive_spec(&self) -> bool {
        self.case_insensitive
    }
}

/// `RegexBuilder::new(pattern).case_insensitive(ci).build()`, with the error
/// turned into its display text. The contract ties success and the error
/// text to the arguments through a name and states nothing more of them.
#[verifier::external_body]
fn compile_regex(pattern: &str, case_insensitive: bool) -> (r: Result<CompiledRegex, String>)
    ensures
        r is Ok <==> regex_build_error(pattern@, case_insensitive) is None,
        r matches Ok(c) ==> c.pattern_spec() == pattern@ && c.case_insensitive_spec()
            == case_insensitive,
        r matches Err(m) ==> regex_build_error(pattern@, case_insensitive) == Some(m@),
{
    match regex::RegexBuilder::new(pattern).case_insensitive(case_insensitive).build() {
        Ok(regex) => Ok(CompiledRegex { pattern: pattern.to_owned(), case_insensitive, regex }),
        Err(err) => Err(err.to_string()),
    }
}

/// `Regex::is_match`: whether the regex matches somewhere in the haystack.
/// The contract names the result and states nothing more of it.
#[verifier::external_body]
fn compiled_is_match(re: &CompiledRegex, haystack: &str) -> (r: bool)
    ensures
        r == regex_is_match(re.pattern_spec(), re.case_insensitive_spec(), haystack@),
{
    re.regex.is_match(haystack)
}

// ---------------------------------------------------------------------
// Matching lines
// ---------------------------------------------------------------------
/// Whether a line matches the query: a regex search with `regex`, a plain
/// substring search with `case_sensitive`, otherwise a case-insensitive
/// search for the escaped literal.
pub open spec fn line_matches(query: Seq<char>, regex: bool, case_sensitive: bool, line: Seq<char>) -> bool {
    if regex {
        regex_is_match(query, !case_sensitive, line)
    } else if case_sensitive {
        contains_sub(line, query)
    } else {
        regex_is_match(regex_escape(query), true, line)
    }
}

/// A query that cannot be turned into a matcher: an escaped literal that does
/// not compile.
pub open spec fn literal_fails(query: Seq<char>, regex: bool, case_sensitive: bool) -> bool {
    !regex && !case_sensitive && regex_build_error(regex_escape(query), true) is Some
}

struct LineMatcher {
    query: String,
    regex: bool,
    case_sensitive: bool,
    matcher: Option<CompiledRegex>,
}

impl LineMatcher {
    spec fn wf(&self) -> bool {
        if self.regex {
            self.matcher matches Some(m) && m.pattern_spec() == self.query@
                && m.case_insensitive_spec() == !self.case_sensitive
        } else if self.case_sensitive {
            self.matcher is None
        } else {
            self.matcher matches Some(m) && m.pattern_spec() == regex_escape(self.query@)
                && m.case_insensitive_spec()
        }
    }

    /// `None` where the escaped literal does not compile.
    fn new(query: &str, regex: bool, case_sensitive: bool) -> (r: Option<Result<LineMatcher, AppError>>)
        ensures
            r is None <==> literal_fails(query@, regex, case_sensitive),
            r matches Some(Err(e)) ==> regex && (e matches AppError::Usage(u)
                && regex_build_error(query@, !case_sensitive) == Some(u.message_spec())),
            r matches Some(Ok(m)) ==> m.wf() && m.query@ == query@ && m.regex == regex
                && m.case_sensitive == case_sensitive,
            regex ==> (r matches Some(Err(_)) <==> regex_build_error(query@, !case_sensitive) is Some),
    {
        let matcher = if regex {
            match compile_regex(query, !case_sensitive) {
                Ok(m) => Some(m),
                Err(message) => {
                    return Some(Err(AppError::Usage(UsageError::new(message.as_str()))));
                },
            }
        } else if case_sensitive {
            None
        } else {
            let escaped = escape_pattern(query);
            match compile_regex(escaped.as_str(), true) {
                Ok(m) => Some(m),
                Err(_) => {
                    return None;
                },
            }
        };
        Some(Ok(LineMatcher { query: query.to_owned(), regex, case_sensitive, matcher }))
    }

    fn is_match(&self, line: &str) -> (r: bool)
        requires
            self.wf(),
        ensures
            r == line_matches(self.query@, self.regex, self.case_sensitive, line@),
    {
        if let Some(regex) = &self.matcher {
            return compiled_is_match(regex, line);
        }
        let l = chars_of(line);
        let q = chars_of(self.query.as_str());
        proof {
            assert(l@.subrange(0, l@.len() as int) =~= l@);
        }
        find_in_range(&l, 0, l.len(), &q).is_some()
    }
}

// ---------------------------------------------------------------------
// Finding
// ---------------------------------------------------------------------
/// One matching line.
#[derive(Debug, PartialEq, Eq)]
pub struct FindMatch {
    pub line: usize,
    pub section_id: String,
    pub text: String,
}

pub struct FindMatchView {
    pub line: int,
    pub section_id: Seq<char>,
    pub text: Seq<char>,
}

impl View for FindMatch {
    type V = FindMatchView;

    open spec fn view(&self) -> FindMatchView {
        FindMatchView { line: self.line as int, section_id: self.section_id@, text: self.text@ }
    }
}

pub open spec fn match_views(v: Seq<FindMatch>) -> Seq<FindMatchView> {
    v.map_values(|m: FindMatch| m@)
}

/// The numbers of the flagged lines up to `upto` (line `n` is flagged by
/// `flags[n - 1]`), ascending.
pub open spec fn flagged_lines(flags: Seq<bool>, upto: int) -> Seq<int>
    decreases upto,
{
    if upto <= 0 {
        seq![]
    } else {
        flagged_lines(flags, upto - 1) + if flags[upto - 1] {
            seq![upto]
        } else {
            seq![]
        }
    }
}

/// For each line of the document, whether it matches the query.
pub open spec fn line_flags(doc: &Document, query: Seq<char>, regex: bool, case_sensitive: bool) -> Seq<bool> {
    Seq::new(doc.num_lines() as nat, |i: int| line_matches(query, regex, case_sensitive, doc.line_text(i + 1)))
}

/// The matching line numbers up to `upto`, ascending.
pub open spec fn matching_lines(doc: &Document, query: Seq<char>, regex: bool, case_sensitive: bool, upto: int) -> Seq<int> {
    flagged_lines(line_flags(doc, query, regex, case_sensitive), upto)
}

/// Id of the innermost section holding line `n`, or `root` before the first heading.
pub open spec fn section_id_for(doc: &Document, n: int) -> Seq<char> {
    let v = spec_sections(doc);
    match find_for_line(v, n, v.len() as int) {
        Some(i) => v[i].id,
        None => ROOT_SECTION_ID@,
    }
}

/// At most this many matches are reported (a limit of 0 still reports one).
pub open spec fn match_limit(max_matches: usize) -> int {
    if max_matches == 0 {
        1
    } else {
        max_matches as int
    }
}

pub open spec fn match_view_at(doc: &Document, n: int) -> FindMatchView {
    FindMatchView { line: n, section_id: section_id_for(doc, n), text: doc.line_text(n) }
}

/// The first flagged lines of the document, at most `match_limit(max_matches)`
/// of them, in ascending order, each with its section id and text.
pub open spec fn spec_collect(doc: &Document, flags: Seq<bool>, max_matches: usize) -> Seq<FindMatchView> {
    let all = flagged_lines(flags, flags.len() as int);
    let k = match_limit(max_matches);
    let taken = if all.len() > k {
        all.take(k)
    } else {
        all
    };
    taken.map_values(|n: int| match_view_at(doc, n))
}

/// The first matching lines of the document, in ascending order, each with
/// its section id and text.
pub open spec fn spec_find(doc: &Document, args: FindArgs) -> Seq<FindMatchView> {
    spec_collect(doc, line_flags(doc, args.query@, args.regex, args.case_sensitive), args.max_matches)
}

proof fn lemma_flagged_prefix(flags: Seq<bool>, a: int, b: int)
    requires
        0 <= a <= b,
    ensures
        flagged_lines(flags, a).len() <= flagged_lines(flags, b).len(),
        flagged_lines(flags, b).take(flagged_lines(flags, a).len() as int) == flagged_lines(flags, a),
    decreases b - a,
{
    if a < b {
        lemma_flagged_prefix(flags, a, b - 1);
        let x = flagged_lines(flags, a);
        let y = flagged_lines(flags, b - 1);
        let z = flagged_lines(flags, b);
        assert(z.take(x.len() as int) =~= y.take(x.len() as int));
    } else {
        let x = flagged_lines(flags, a);
        assert(x.take(x.len() as int) =~= x);
    }
}

/// The matches for the given per-line flags: the first flagged lines, at
/// most `max_matches` of them (one when it is 0), in ascending order, each
/// with the id of the innermost section holding it (`root` before the first
/// heading) and its text.
pub fn collect_matches(document: &Document, flags: &Vec<bool>, max_matches: usize) -> (r: Vec<FindMatch>)
    requires
        document.wf(),
        flags@.len() == document.num_lines(),
    ensures
        match_views(r@) == spec_collect(document, flags@, max_matches),
{
    let sections = document.section_index();
    let mut matches: Vec<FindMatch> = Vec::new();
    let count = flags.len();
    let ghost fl = flags@;
    let ghost k = match_limit(max_matches);
    if count == 0 {
        proof {
            assert(spec_collect(document, fl, max_matches) =~= Seq::<FindMatchView>::empty());
            assert(match_views(matches@) =~= Seq::<FindMatchView>::empty());
        }
        return matches;
    }
    let mut line_number: usize = 1;
    loop
        invariant_except_break
            match_views(matches@) == flagged_lines(fl, line_number - 1).map_values(
                |n: int| match_view_at(document, n),
            ),
            matches@.len() < k,
        invariant
            document.wf(),
            fl == flags@,
            k == match_limit(max_matches),
            sections@ == spec_sections(document),
            count == document.num_lines(),
            count == fl.len(),
            1 <= line_number <= count,
        ensures
            match_views(matches@) == spec_collect(document, fl, max_matches),
        decreases count - line_number,
    {
        let ghost before = matches@;
        let ghost prev = flagged_lines(fl, line_number - 1);
        if flags[line_number - 1] {
            let line = document.line(line_number).unwrap();
            let section_id = match sections.section_for_line(line_number) {
                Some(section) => section.id.clone(),
                None => ROOT_SECTION_ID.to_owned(),
            };
            matches.push(FindMatch { line: line_number, section_id, text: line.to_owned() });
            proof {
                assert(match_views(matches@) =~= match_views(before).push(
                    match_view_at(document, line_number as int),
                ));
                assert(flagged_lines(fl, line_number as int) =~= prev.push(line_number as int));
                assert(match_views(matches@) =~= flagged_lines(fl, line_number as int).map_values(
                    |n: int| match_view_at(document, n),
                ));
            }
            if matches.len() >= max_matches {
                proof {
                    let all = flagged_lines(fl, count as int);
                    let cur = flagged_lines(fl, line_number as int);
                    lemma_flagged_prefix(fl, line_number as int, count as int);
                    assert(cur.len() == k);
                    if all.len() > k {
                        assert(all.take(k) == cur);
                    } else {
                        assert(all =~= cur);
                    }
                }
                break;
            }
        } else {
            proof {
                assert(flagged_lines(fl, line_number as int) =~= prev);
            }
        }
        if line_number == count {
            proof {
                let all = flagged_lines(fl, count as int);
                assert(all.len() < k);
            }
            break;
        }
        line_number += 1;
    }
    matches
}

/// The matching lines, mapped to sections; `None` where the escaped literal
/// query does not compile, and a usage error for an invalid regex.
pub fn find_matches(document: &Document, args: &FindArgs) -> (r: Option<Result<Vec<FindMatch>, AppError>>)
    requires
        document.wf(),
    ensures
        r is None <==> literal_fails(args.query@, args.regex, args.case_sensitive),
        r matches Some(Err(e)) ==> args.regex && (e matches AppError::Usage(u) && regex_build_error(
            args.query@,
            !args.case_sensitive,
        ) == Some(u.message_spec())),
        args.regex ==> (r matches Some(Err(_)) <==> regex_build_error(
            args.query@,
            !args.case_sensitive,
        ) is Some),
        r matches Some(Ok(ms)) ==> match_views(ms@) == spec_find(document, *args),
{
    let matcher = match LineMatcher::new(args.query.as_str(), args.regex, args.case_sensitive) {
        None => return None,
        Some(Err(e)) => return Some(Err(e)),
        Some(Ok(m)) => m,
    };
    let ghost want = line_flags(document, args.query@, args.regex, args.case_sensitive);
    let count = document.line_count();
    let mut flags: Vec<bool> = Vec::new();
    let mut n: usize = 0;
    while n < count
        invariant
            document.wf(),
            matcher.wf(),
            matcher.query@ == args.query@,
            matcher.regex == args.regex,
            matcher.case_sensitive == args.case_sensitive,
            want == line_flags(document, args.query@, args.regex, args.case_sensitive),
            count == document.num_lines(),
            n <= count,
            flags@ == want.take(n as int),
        decreases count - n,
    {
        let line = document.line(n + 1).unwrap();
        let hit = matcher.is_match(line);
        flags.push(hit);
        n += 1;
        assert(flags@ =~= want.take(n as int));
    }
    assert(want.take(n as int) =~= want);
    Some(Ok(collect_matches(document, &flags, args.max_matches)))
}

} // verus!

//! Character-level text model: whitespace classes, trimming, splitting,
//! joining and decimal rendering, each stated over `Seq<char>` and
//! implemented over `&[char]`.
use vstd::prelude::*;
use vstd::string::StringExecFns;
use vstd::string::StringSliceAdditionalSpecFns;
use vstd::utf8::*;

verus! {

// ---------------------------------------------------------------------
// Character classes
// ---------------------------------------------------------------------
/// The Unicode `White_Space` property, which `char::is_whitespace` follows.
pub open spec fn is_ws(c: char) -> bool {
    let u = c as u32;
    ||| 9 <= u <= 13
    ||| u == 0x20
    ||| u == 0x85
    ||| u == 0xA0
    ||| u == 0x1680
    ||| 0x2000 <= u <= 0x200A
    ||| u == 0x2028
    ||| u == 0x2029
    ||| u == 0x202F
    ||| u == 0x205F
    ||| u == 0x3000
}

/// ASCII whitespace as `char::is_ascii_whitespace` defines it.
pub open spec fn is_ascii_ws(c: char) -> bool {
    c == ' ' || c == '\t' || c == '\n' || c == '\x0C' || c == '\r'
}

pub open spec fn is_ascii_digit(c: char) -> bool {
    '0' <= c && c <= '9'
}

/// A class of characters that a scan can run over.
#[derive(Clone, Copy)]
pub enum CharClass {
    Is(char),
    NotIs(char),
    Ws,
    NotWs,
    AsciiWs,
    NotAsciiWs,
    Digit,
}

pub open spec fn in_class(k: CharClass, c: char) -> bool {
    match k {
        CharClass::Is(x) => c == x,
        CharClass::NotIs(x) => c != x,
        CharClass::Ws => is_ws(c),
        CharClass::NotWs => !is_ws(c),
        CharClass::AsciiWs => is_ascii_ws(c),
        CharClass::NotAsciiWs => !is_ascii_ws(c),
        CharClass::Digit => is_ascii_digit(c),
    }
}

pub fn char_is_ws(c: char) -> (b: bool)
    ensures
        b == is_ws(c),
{
    let u = c as u32;
    (9 <= u && u <= 13) || u == 0x20 || u == 0x85 || u == 0xA0 || u == 0x1680 || (0x2000 <= u && u
        <= 0x200A) || u == 0x2028 || u == 0x2029 || u == 0x202F || u == 0x205F || u == 0x3000
}

pub fn char_in_class(k: CharClass, c: char) -> (b: bool)
    ensures
        b == in_class(k, c),
{
    match k {
        CharClass::Is(x) => c == x,
        CharClass::NotIs(x) => c != x,
        CharClass::Ws => char_is_ws(c),
        CharClass::NotWs => !char_is_ws(c),
        CharClass::AsciiWs => c == ' ' || c == '\t' || c == '\n' || c == '\x0C' || c == '\r',
        CharClass::NotAsciiWs => !(c == ' ' || c == '\t' || c == '\n' || c == '\x0C' || c == '\r'),
        CharClass::Digit => '0' <= c && c <= '9',
    }
}

// ---------------------------------------------------------------------
// Leading and trailing runs
// ---------------------------------------------------------------------
/// Number of leading characters of `s` in class `k`.
pub open spec fn lead_len(s: Seq<char>, k: CharClass) -> nat
    decreases s.len(),
{
    if s.len() > 0 && in_class(k, s[0]) {
        1 + lead_len(s.drop_first(), k)
    } else {
        0
    }
}

/// Number of trailing characters of `s` in class `k`.
pub open spec fn trail_len(s: Seq<char>, k: CharClass) -> nat
    decreases s.len(),
{
    if s.len() > 0 && in_class(k, s.last()) {
        1 + trail_len(s.drop_last(), k)
    } else {
        0
    }
}

pub proof fn lemma_lead_len(s: Seq<char>, k: CharClass, n: int)
    requires
        0 <= n <= s.len(),
        forall|i: int| 0 <= i < n ==> in_class(k, #[trigger] s[i]),
        n < s.len() ==> !in_class(k, s[n]),
    ensures
        lead_len(s, k) == n,
    decreases n,
{
    if n > 0 {
        lemma_lead_len(s.drop_first(), k, n - 1);
    }
}

pub proof fn lemma_lead_len_bound(s: Seq<char>, k: CharClass)
    ensures
        lead_len(s, k) <= s.len(),
        forall|i: int| 0 <= i < lead_len(s, k) ==> in_class(k, #[trigger] s[i]),
        lead_len(s, k) < s.len() ==> !in_class(k, s[lead_len(s, k) as int]),
    decreases s.len(),
{
    if s.len() > 0 && in_class(k, s[0]) {
        lemma_lead_len_bound(s.drop_first(), k);
        assert forall|i: int| 0 <= i < lead_len(s, k) implies in_class(k, #[trigger] s[i]) by {
            if i > 0 {
                assert(s[i] == s.drop_first()[i - 1]);
            }
        }
    }
}

pub proof fn lemma_trail_len(s: Seq<char>, k: CharClass, n: int)
    requires
        0 <= n <= s.len(),
        forall|i: int| s.len() - n <= i < s.len() ==> in_class(k, #[trigger] s[i]),
        n < s.len() ==> !in_class(k, s[s.len() - n - 1]),
    ensures
        trail_len(s, k) == n,
    decreases n,
{
    if n > 0 {
        let t = s.drop_last();
        assert forall|i: int| t.len() - (n - 1) <= i < t.len() implies in_class(k, #[trigger] t[i]) by {
            assert(t[i] == s[i]);
        }
        lemma_trail_len(t, k, n - 1);
    }
}

pub proof fn lemma_trail_len_bound(s: Seq<char>, k: CharClass)
    ensures
        trail_len(s, k) <= s.len(),
        forall|i: int| s.len() - trail_len(s, k) <= i < s.len() ==> in_class(k, #[trigger] s[i]),
        trail_len(s, k) < s.len() ==> !in_class(k, s[s.len() - trail_len(s, k) - 1]),
    decreases s.len(),
{
    if s.len() > 0 && in_class(k, s.last()) {
        let t = s.drop_last();
        lemma_trail_len_bound(t, k);
        assert forall|i: int| s.len() - trail_len(s, k) <= i < s.len() implies in_class(
            k,
            #[trigger] s[i],
        ) by {
            if i < s.len() - 1 {
                assert(s[i] == t[i]);
            }
        }
        if trail_len(s, k) < s.len() {
            assert(s[s.len() - trail_len(s, k) - 1] == t[t.len() - trail_len(t, k) - 1]);
        }
    }
}

/// Length of the run of class `k` at the start of `s[from..to]`.
pub fn lead_count(s: &[char], from: usize, to: usize, k: CharClass) -> (n: usize)
    requires
        from <= to <= s@.len(),
    ensures
        n == lead_len(s@.subrange(from as int, to as int), k),
        from + n <= to,
{
    let mut i = from;
    while i < to && char_in_class(k, s[i])
        invariant
            from <= i <= to <= s@.len(),
            forall|j: int| from <= j < i ==> in_class(k, #[trigger] s@[j]),
        decreases to - i,
    {
        i += 1;
    }
    proof {
        let t = s@.subrange(from as int, to as int);
        assert forall|j: int| 0 <= j < i - from implies in_class(k, #[trigger] t[j]) by {
            assert(t[j] == s@[from + j]);
        }
        if i < to {
            assert(t[i - from] == s@[i as int]);
        }
        lemma_lead_len(t, k, i - from);
    }
    i - from
}

/// Length of the run of class `k` at the end of `s[from..to]`.
pub fn trail_count(s: &[char], from: usize, to: usize, k: CharClass) -> (n: usize)
    requires
        from <= to <= s@.len(),
    ensures
        n == trail_len(s@.subrange(from as int, to as int), k),
        from + n <= to,
{
    let mut i = to;
    while i > from && char_in_class(k, s[i - 1])
        invariant
            from <= i <= to <= s@.len(),
            forall|j: int| i <= j < to ==> in_class(k, #[trigger] s@[j]),
        decreases i,
    {
        i -= 1;
    }
    proof {
        let t = s@.subrange(from as int, to as int);
        assert forall|j: int| t.len() - (to - i) <= j < t.len() implies in_class(
            k,
            #[trigger] t[j],
        ) by {
            assert(t[j] == s@[from + j]);
        }
        if i > from {
            assert(t[t.len() - (to - i) - 1] == s@[i - 1]);
        }
        lemma_trail_len(t, k, to - i);
    }
    to - i
}

// ---------------------------------------------------------------------
// Trimming
// ---------------------------------------------------------------------
/// `str::trim_start`: drop leading Unicode whitespace.
pub open spec fn trim_start(s: Seq<char>) -> Seq<char> {
    s.skip(lead_len(s, CharClass::Ws) as int)
}

/// `str::trim_end`: drop trailing Unicode whitespace.
pub open spec fn trim_end(s: Seq<char>) -> Seq<char> {
    s.take(s.len() - trail_len(s, CharClass::Ws))
}

/// `str::trim`: drop leading and trailing Unicode whitespace.
pub open spec fn trim(s: Seq<char>) -> Seq<char> {
    trim_end(trim_start(s))
}

/// `str::trim_matches(c)` for a single character `c`.
pub open spec fn trim_char(s: Seq<char>, c: char) -> Seq<char> {
    let t = s.skip(lead_len(s, CharClass::Is(c)) as int);
    t.take(t.len() - trail_len(t, CharClass::Is(c)))
}

/// Bounds of the trimmed part of `s[from..to]`.
pub fn trim_range(s: &[char], from: usize, to: usize, k: CharClass) -> (r: (usize, usize))
    requires
        from <= to <= s@.len(),
    ensures
        from <= r.0 <= r.1 <= to,
        s@.subrange(r.0 as int, r.1 as int) == ({
            let t = s@.subrange(from as int, to as int);
            let u = t.skip(lead_len(t, k) as int);
            u.take(u.len() - trail_len(u, k))
        }),
{
    let a = from + lead_count(s, from, to, k);
    let n = trail_count(s, a, to, k);
    proof {
        let t = s@.subrange(from as int, to as int);
        let u = t.skip(lead_len(t, k) as int);
        assert(u =~= s@.subrange(a as int, to as int));
        assert(u.take(u.len() - trail_len(u, k)) =~= s@.subrange(a as int, to - n));
    }
    (a, to - n)
}

pub fn trim_ws_range(s: &[char], from: usize, to: usize) -> (r: (usize, usize))
    requires
        from <= to <= s@.len(),
    ensures
        from <= r.0 <= r.1 <= to,
        s@.subrange(r.0 as int, r.1 as int) == trim(s@.subrange(from as int, to as int)),
{
    trim_range(s, from, to, CharClass::Ws)
}

pub fn trim_start_range(s: &[char], from: usize, to: usize) -> (a: usize)
    requires
        from <= to <= s@.len(),
    ensures
        from <= a <= to,
        s@.subrange(a as int, to as int) == trim_start(s@.subrange(from as int, to as int)),
{
    let a = from + lead_count(s, from, to, CharClass::Ws);
    proof {
        let t = s@.subrange(from as int, to as int);
        assert(trim_start(t) =~= s@.subrange(a as int, to as int));
    }
    a
}

pub fn trim_end_range(s: &[char], from: usize, to: usize) -> (b: usize)
    requires
        from <= to <= s@.len(),
    ensures
        from <= b <= to,
        s@.subrange(from as int, b as int) == trim_end(s@.subrange(from as int, to as int)),
{
    let n = trail_count(s, from, to, CharClass::Ws);
    proof {
        let t = s@.subrange(from as int, to as int);
        assert(trim_end(t) =~= s@.subrange(from as int, to - n));
    }
    to - n
}

// ---------------------------------------------------------------------
// Prefixes and searching
// ---------------------------------------------------------------------
pub open spec fn starts_with(s: Seq<char>, p: Seq<char>) -> bool {
    p.len() <= s.len() && s.take(p.len() as int) == p
}

pub fn range_starts_with(s: &[char], from: usize, to: usize, p: &[char]) -> (b: bool)
    requires
        from <= to <= s@.len(),
    ensures
        b == starts_with(s@.subrange(from as int, to as int), p@),
{
    if p.len() > to - from {
        return false;
    }
    let mut i: usize = 0;
    while i < p.len()
        invariant
            i <= p@.len(),
            from + p@.len() <= to <= s@.len(),
            forall|j: int| 0 <= j < i ==> s@[from + j] == p@[j],
        decreases p.len() - i,
    {
        if s[from + i] != p[i] {
            proof {
                let t = s@.subrange(from as int, to as int);
                assert(t.take(p@.len() as int)[i as int] != p@[i as int]);
            }
            return false;
        }
        i += 1;
    }
    proof {
        let t = s@.subrange(from as int, to as int);
        assert(t.take(p@.len() as int) =~= p@);
    }
    true
}

/// Whether `s[from..to]` starts with the character `a`.
pub fn starts_with1(s: &[char], from: usize, to: usize, a: char) -> (b: bool)
    requires
        from <= to <= s@.len(),
    ensures
        b == starts_with(s@.subrange(from as int, to as int), seq![a]),
{
    let ghost t = s@.subrange(from as int, to as int);
    if to - from < 1 {
        return false;
    }
    proof {
        assert(t.take(1) =~= seq![s@[from as int]]);
        if s@[from as int] != a {
            assert(t.take(1)[0] != seq![a][0]);
        }
    }
    s[from] == a
}

/// Whether `s[from..to]` starts with the characters `a`, `b`.
pub fn starts_with2(s: &[char], from: usize, to: usize, a: char, b: char) -> (r: bool)
    requires
        from <= to <= s@.len(),
    ensures
        r == starts_with(s@.subrange(from as int, to as int), seq![a, b]),
{
    let ghost t = s@.subrange(from as int, to as int);
    if to - from < 2 {
        return false;
    }
    proof {
        assert(t.take(2) =~= seq![s@[from as int], s@[from + 1]]);
        if s@[from as int] != a {
            assert(t.take(2)[0] != seq![a, b][0]);
        }
        if s@[from + 1] != b {
            assert(t.take(2)[1] != seq![a, b][1]);
        }
    }
    s[from] == a && s[from + 1] == b
}

/// Whether `s[from..to]` starts with the characters `a`, `b`, `c`.
pub fn starts_with3(s: &[char], from: usize, to: usize, a: char, b: char, c: char) -> (r: bool)
    requires
        from <= to <= s@.len(),
    ensures
        r == starts_with(s@.subrange(from as int, to as int), seq![a, b, c]),
{
    let ghost t = s@.subrange(from as int, to as int);
    if to - from < 3 {
        return false;
    }
    proof {
        assert(t.take(3) =~= seq![s@[from as int], s@[from + 1], s@[from + 2]]);
        if s@[from as int] != a {
            assert(t.take(3)[0] != seq![a, b, c][0]);
        }
        if s@[from + 1] != b {
            assert(t.take(3)[1] != seq![a, b, c][1]);
        }
        if s@[from + 2] != c {
            assert(t.take(3)[2] != seq![a, b, c][2]);
        }
    }
    s[from] == a && s[from + 1] == b && s[from + 2] == c
}

/// Index of the first occurrence of `p` in `s` at or after `i`.
pub open spec fn find_from(s: Seq<char>, p: Seq<char>, i: int) -> Option<int>
    decreases s.len() + 1 - i,
{
    if i < 0 || i + p.len() > s.len() {
        None
    } else if s.subrange(i, i + p.len()) == p {
        Some(i)
    } else {
        find_from(s, p, i + 1)
    }
}

/// `str::find` for a pattern string: index of the first occurrence.
pub open spec fn find_sub(s: Seq<char>, p: Seq<char>) -> Option<int> {
    find_from(s, p, 0)
}

/// `str::contains` for a pattern string.
pub open spec fn contains_sub(s: Seq<char>, p: Seq<char>) -> bool {
    find_sub(s, p) is Some
}

pub proof fn lemma_find_from_bounds(s: Seq<char>, p: Seq<char>, i: int)
    ensures
        find_from(s, p, i) matches Some(j) ==> i <= j && j + p.len() <= s.len() && s.subrange(
            j,
            j + p.len(),
        ) == p,
    decreases s.len() + 1 - i,
{
    if !(i < 0 || i + p.len() > s.len()) && s.subrange(i, i + p.len()) != p {
        lemma_find_from_bounds(s, p, i + 1);
    }
}

/// First index `j` in `from..to` (relative to `from`) where `s[from..to]`
/// holds `p`.
pub fn find_in_range(s: &[char], from: usize, to: usize, p: &[char]) -> (r: Option<usize>)
    requires
        from <= to <= s@.len(),
    ensures
        r is None <==> find_sub(s@.subrange(from as int, to as int), p@) is None,
        r matches Some(j) ==> find_sub(s@.subrange(from as int, to as int), p@) == Some(j as int)
            && from + j + p@.len() <= to,
{
    let ghost t = s@.subrange(from as int, to as int);
    if p.len() > to - from {
        assert(find_from(t, p@, 0) is None);
        return None;
    }
    let last = to - from - p.len();
    let mut i: usize = 0;
    loop
        invariant
            from <= to <= s@.len(),
            t == s@.subrange(from as int, to as int),
            last + p@.len() == t.len(),
            i <= last,
            find_sub(t, p@) == find_from(t, p@, i as int),
        decreases last - i,
    {
        let m = range_starts_with(s, from + i, to, p);
        proof {
            assert(s@.subrange(from + i, to as int) =~= t.skip(i as int));
            assert(t.skip(i as int).take(p@.len() as int) =~= t.subrange(i as int, i + p@.len()));
        }
        if m {
            proof {
                lemma_find_from_bounds(t, p@, i as int);
            }
            return Some(i);
        }
        if i == last {
            proof {
                assert(find_from(t, p@, i as int) == find_from(t, p@, i + 1));
                assert(find_from(t, p@, i + 1) is None);
            }
            return None;
        }
        i += 1;
    }
}

/// `find_in_range` for the two-character pattern `a`, `b`.
pub fn find_pair(s: &[char], from: usize, to: usize, a: char, b: char) -> (r: Option<usize>)
    requires
        from <= to <= s@.len(),
    ensures
        r is None <==> find_sub(s@.subrange(from as int, to as int), seq![a, b]) is None,
        r matches Some(j) ==> find_sub(s@.subrange(from as int, to as int), seq![a, b]) == Some(
            j as int,
        ) && from + j + 2 <= to,
{
    let mut p: Vec<char> = Vec::new();
    p.push(a);
    p.push(b);
    assert(p@ =~= seq![a, b]);
    find_in_range(s, from, to, p.as_slice())
}

// ---------------------------------------------------------------------
// Splitting and joining
// ---------------------------------------------------------------------
/// `str::split(c)`: the pieces between occurrences of `c`, always at least one.
pub open spec fn split_on(s: Seq<char>, c: char) -> Seq<Seq<char>>
    decreases s.len(),
{
    if s.len() == 0 {
        seq![Seq::<char>::empty()]
    } else {
        let r = split_on(s.drop_first(), c);
        if s[0] == c {
            seq![Seq::<char>::empty()] + r
        } else {
            r.update(0, seq![s[0]] + r[0])
        }
    }
}

pub proof fn lemma_split_on_len(s: Seq<char>, c: char)
    ensures
        split_on(s, c).len() >= 1,
    decreases s.len(),
{
    if s.len() > 0 {
        lemma_split_on_len(s.drop_first(), c);
    }
}

/// Splitting at the first occurrence of `c`, or not at all when there is none.
pub proof fn lemma_split_on_first(s: Seq<char>, c: char, n: int)
    requires
        0 <= n <= s.len(),
        forall|i: int| 0 <= i < n ==> #[trigger] s[i] != c,
        n < s.len() ==> s[n] == c,
    ensures
        n == s.len() ==> split_on(s, c) == seq![s],
        n < s.len() ==> split_on(s, c) == seq![s.take(n)] + split_on(s.skip(n + 1), c),
    decreases n,
{
    if n == 0 {
        if s.len() == 0 {
            assert(s =~= Seq::<char>::empty());
            assert(split_on(s, c) =~~= seq![s]);
        } else {
            assert(s.drop_first() =~= s.skip(1));
            assert(s.take(0) =~= Seq::<char>::empty());
        }
    } else {
        let t = s.drop_first();
        lemma_split_on_first(t, c, n - 1);
        lemma_split_on_len(t, c);
        if n == s.len() {
            assert(seq![s[0]] + t =~= s);
            assert(split_on(s, c) =~~= seq![s]);
        } else {
            assert(seq![s[0]] + t.take(n - 1) =~= s.take(n));
            assert(t.skip(n) =~= s.skip(n + 1));
        }
    }
}

/// The ASCII-whitespace separated words of `s`, as `split_ascii_whitespace`.
pub open spec fn words(s: Seq<char>) -> Seq<Seq<char>>
    decreases s.len(),
{
    if s.len() == 0 {
        seq![]
    } else if is_ascii_ws(s[0]) {
        words(s.drop_first())
    } else {
        let n = lead_len(s, CharClass::NotAsciiWs);
        proof {
            lemma_lead_len_bound(s, CharClass::NotAsciiWs);
        }
        seq![s.take(n as int)] + words(s.skip(n as int))
    }
}

/// The pieces of `ps` joined by `sep`, as `[..].join(sep)`.
pub open spec fn join(ps: Seq<Seq<char>>, sep: Seq<char>) -> Seq<char>
    decreases ps.len(),
{
    if ps.len() == 0 {
        seq![]
    } else if ps.len() == 1 {
        ps[0]
    } else {
        join(ps.drop_last(), sep) + sep + ps.last()
    }
}

/// Words of a line joined by single spaces.
pub open spec fn normalize(s: Seq<char>) -> Seq<char> {
    join(words(s), seq![' '])
}

/// The texts that a list of `(start, end)` ranges picks out of `s`.
pub open spec fn pieces(s: Seq<char>, rs: Seq<(usize, usize)>) -> Seq<Seq<char>> {
    rs.map_values(|r: (usize, usize)| s.subrange(r.0 as int, r.1 as int))
}

/// The views of a list of strings.
pub open spec fn string_views(v: Seq<String>) -> Seq<Seq<char>> {
    v.map_values(|x: String| x@)
}

/// Ranges of the pieces of `s[from..to]` split on `c`.
pub fn split_ranges(s: &[char], from: usize, to: usize, c: char) -> (rs: Vec<(usize, usize)>)
    requires
        from <= to <= s@.len(),
    ensures
        pieces(s@, rs@) == split_on(s@.subrange(from as int, to as int), c),
        forall|k: int| 0 <= k < rs@.len() ==> from <= (#[trigger] rs@[k]).0 <= rs@[k].1 <= to,
{
    let mut rs: Vec<(usize, usize)> = Vec::new();
    let mut i = from;
    loop
        invariant
            from <= i <= to <= s@.len(),
            pieces(s@, rs@) + split_on(s@.subrange(i as int, to as int), c) == split_on(
                s@.subrange(from as int, to as int),
                c,
            ),
            forall|k: int| 0 <= k < rs@.len() ==> from <= (#[trigger] rs@[k]).0 <= rs@[k].1 <= to,
        decreases to - i,
    {
        let n = lead_count(s, i, to, CharClass::NotIs(c));
        let ghost t = s@.subrange(i as int, to as int);
        proof {
            lemma_lead_len_bound(t, CharClass::NotIs(c));
            assert forall|j: int| 0 <= j < n implies #[trigger] t[j] != c by {
                assert(in_class(CharClass::NotIs(c), t[j]));
            }
            lemma_split_on_first(t, c, n as int);
        }
        let ghost old_rs = rs@;
        rs.push((i, i + n));
        proof {
            assert(s@.subrange(i as int, i + n) =~= t.take(n as int));
            assert(pieces(s@, rs@) =~= pieces(s@, old_rs).push(t.take(n as int)));
        }
        if i + n == to {
            proof {
                assert(t.take(n as int) =~= t);
                assert(pieces(s@, rs@) =~= pieces(s@, old_rs) + split_on(t, c));
            }
            return rs;
        }
        proof {
            assert(t.skip(n + 1) =~= s@.subrange(i + n + 1, to as int));
            assert(pieces(s@, rs@) + split_on(s@.subrange(i + n + 1, to as int), c) =~= pieces(
                s@,
                old_rs,
            ) + split_on(t, c));
        }
        i = i + n + 1;
    }
}

/// Ranges of the ASCII-whitespace separated words of `s[from..to]`.
pub fn word_ranges(s: &[char], from: usize, to: usize) -> (rs: Vec<(usize, usize)>)
    requires
        from <= to <= s@.len(),
    ensures
        pieces(s@, rs@) == words(s@.subrange(from as int, to as int)),
        forall|k: int| 0 <= k < rs@.len() ==> from <= (#[trigger] rs@[k]).0 <= rs@[k].1 <= to,
{
    let mut rs: Vec<(usize, usize)> = Vec::new();
    let mut i = from;
    while i < to
        invariant
            from <= i <= to <= s@.len(),
            pieces(s@, rs@) + words(s@.subrange(i as int, to as int)) == words(
                s@.subrange(from as int, to as int),
            ),
            forall|k: int| 0 <= k < rs@.len() ==> from <= (#[trigger] rs@[k]).0 <= rs@[k].1 <= to,
        decreases to - i,
    {
        let ghost t = s@.subrange(i as int, to as int);
        if char_in_class(CharClass::AsciiWs, s[i]) {
            proof {
                assert(t.drop_first() =~= s@.subrange(i + 1, to as int));
            }
            i += 1;
        } else {
            let n = lead_count(s, i, to, CharClass::NotAsciiWs);
            proof {
                assert(t[0] == s@[i as int]);
                assert(in_class(CharClass::NotAsciiWs, t[0]));
                assert(lead_len(t, CharClass::NotAsciiWs) >= 1);
                assert(t.skip(n as int) =~= s@.subrange(i + n, to as int));
            }
            let ghost old_rs = rs@;
            rs.push((i, i + n));
            proof {
                assert(s@.subrange(i as int, i + n) =~= t.take(n as int));
            assert(pieces(s@, rs@) =~= pieces(s@, old_rs).push(t.take(n as int)));
                assert(pieces(s@, rs@) + words(s@.subrange(i + n, to as int)) =~= pieces(
                    s@,
                    old_rs,
                ) + words(t));
            }
            i = i + n;
        }
    }
    proof {
        assert(s@.subrange(i as int, to as int) =~= Seq::<char>::empty());
        assert(pieces(s@, rs@) + words(s@.subrange(i as int, to as int)) =~= pieces(s@, rs@));
    }
    rs
}

pub proof fn lemma_join_take(ps: Seq<Seq<char>>, sep: Seq<char>, k: int)
    requires
        0 <= k < ps.len(),
    ensures
        join(ps.take(k + 1), sep) == if k == 0 {
            ps[0]
        } else {
            join(ps.take(k), sep) + sep + ps[k]
        },
{
    assert(ps.take(k + 1).drop_last() =~= ps.take(k));
}

/// `s[rs[0]] + sep + s[rs[1]] + ...` appended to `out`.
pub fn push_joined_ranges(out: &mut String, s: &[char], rs: &Vec<(usize, usize)>, sep: &str)
    requires
        forall|k: int| 0 <= k < rs@.len() ==> (#[trigger] rs@[k]).0 <= rs@[k].1 <= s@.len(),
    ensures
        final(out)@ == old(out)@ + join(pieces(s@, rs@), sep@),
{
    let ghost ps = pieces(s@, rs@);
    let mut k: usize = 0;
    while k < rs.len()
        invariant
            k <= rs@.len(),
            ps == pieces(s@, rs@),
            forall|k: int| 0 <= k < rs@.len() ==> (#[trigger] rs@[k]).0 <= rs@[k].1 <= s@.len(),
            out@ == old(out)@ + join(ps.take(k as int), sep@),
        decreases rs.len() - k,
    {
        proof {
            lemma_join_take(ps, sep@, k as int);
        }
        if k > 0 {
            push_str(out, sep);
        }
        let (a, b) = rs[k];
        push_range(out, s, a, b);
        k += 1;
        proof {
            if k == 1 {
                assert(out@ =~= old(out)@ + join(ps.take(k as int), sep@));
            } else {
                assert(out@ =~= old(out)@ + join(ps.take(k as int), sep@));
            }
        }
    }
    assert(ps.take(k as int) =~= ps);
}

/// `ps[0] + sep + ps[1] + ...` appended to `out`.
pub fn push_joined_strings(out: &mut String, ps: &Vec<String>, sep: &str)
    ensures
        final(out)@ == old(out)@ + join(string_views(ps@), sep@),
{
    let ghost vs = string_views(ps@);
    let mut k: usize = 0;
    while k < ps.len()
        invariant
            k <= ps@.len(),
            vs == string_views(ps@),
            out@ == old(out)@ + join(vs.take(k as int), sep@),
        decreases ps.len() - k,
    {
        proof {
            lemma_join_take(vs, sep@, k as int);
        }
        if k > 0 {
            push_str(out, sep);
        }
        push_str(out, ps[k].as_str());
        k += 1;
        proof {
            assert(out@ =~= old(out)@ + join(vs.take(k as int), sep@));
        }
    }
    assert(vs.take(k as int) =~= vs);
}

/// Words of `s[from..to]` joined by single spaces.
pub fn normalize_range(s: &[char], from: usize, to: usize) -> (r: String)
    requires
        from <= to <= s@.len(),
    ensures
        r@ == normalize(s@.subrange(from as int, to as int)),
{
    let rs = word_ranges(s, from, to);
    let mut out = String::new();
    push_joined_ranges(&mut out, s, &rs, " ");
    proof {
        reveal_strlit(" ");
        assert(" "@ =~= seq![' ']);
        assert(out@ =~= normalize(s@.subrange(from as int, to as int)));
    }
    out
}

// ---------------------------------------------------------------------
// Decimal rendering
// ---------------------------------------------------------------------
pub open spec fn digit_char(d: nat) -> char {
    if d == 0 {
        '0'
    } else if d == 1 {
        '1'
    } else if d == 2 {
        '2'
    } else if d == 3 {
        '3'
    } else if d == 4 {
        '4'
    } else if d == 5 {
        '5'
    } else if d == 6 {
        '6'
    } else if d == 7 {
        '7'
    } else if d == 8 {
        '8'
    } else {
        '9'
    }
}

/// Decimal digits of `n`, most significant first.
pub open spec fn dec(n: nat) -> Seq<char>
    decreases n,
{
    if n < 10 {
        seq![digit_char(n)]
    } else {
        dec(n / 10).push(digit_char(n % 10))
    }
}

/// Decimal digits are ASCII digits, at least one, and the first is not `0`
/// unless the number is.
pub proof fn lemma_dec_digits(n: nat)
    ensures
        dec(n).len() > 0,
        forall|k: int| 0 <= k < dec(n).len() ==> is_ascii_digit(#[trigger] dec(n)[k]),
        n > 0 ==> dec(n)[0] != '0',
    decreases n,
{
    if n >= 10 {
        lemma_dec_digits(n / 10);
        assert(dec(n)[0] == dec(n / 10)[0]);
    }
}

fn digit(d: usize) -> (c: char)
    requires
        d < 10,
    ensures
        c == digit_char(d as nat),
{
    if d == 0 {
        '0'
    } else if d == 1 {
        '1'
    } else if d == 2 {
        '2'
    } else if d == 3 {
        '3'
    } else if d == 4 {
        '4'
    } else if d == 5 {
        '5'
    } else if d == 6 {
        '6'
    } else if d == 7 {
        '7'
    } else if d == 8 {
        '8'
    } else {
        '9'
    }
}

/// Appends the decimal digits of `n`.
pub fn push_decimal(s: &mut String, n: usize)
    ensures
        final(s)@ == old(s)@ + dec(n as nat),
    decreases n,
{
    if n >= 10 {
        push_decimal(s, n / 10);
    }
    push_char(s, digit(n % 10));
    proof {
        if n >= 10 {
            assert(final(s)@ =~= old(s)@ + dec(n as nat));
        } else {
            assert(final(s)@ =~= old(s)@ + dec(n as nat));
        }
    }
}

// ---------------------------------------------------------------------
// Strings
// ---------------------------------------------------------------------
/// `String::push`: appends one character.
#[verifier::external_body]
pub(crate) fn push_char(s: &mut String, c: char)
    ensures
        final(s)@ == old(s)@.push(c),
{
    s.push(c);
}

/// Appends a string slice.
pub(crate) fn push_str(s: &mut String, t: &str)
    ensures
        final(s)@ == old(s)@ + t@,
{
    s.append(t);
}

/// Appends `v[from..to]`.
pub fn push_range(s: &mut String, v: &[char], from: usize, to: usize)
    requires
        from <= to <= v@.len(),
    ensures
        final(s)@ == old(s)@ + v@.subrange(from as int, to as int),
{
    let mut i = from;
    while i < to
        invariant
            from <= i <= to <= v@.len(),
            s@ == old(s)@ + v@.subrange(from as int, i as int),
        decreases to - i,
    {
        push_char(s, v[i]);
        i += 1;
        assert(s@ =~= old(s)@ + v@.subrange(from as int, i as int));
    }
}

/// A new string holding `v[from..to]`.
pub fn string_of_range(v: &[char], from: usize, to: usize) -> (s: String)
    requires
        from <= to <= v@.len(),
    ensures
        s@ == v@.subrange(from as int, to as int),
{
    let mut s = String::new();
    push_range(&mut s, v, from, to);
    assert(s@ =~= v@.subrange(from as int, to as int));
    s
}

/// The characters of a string slice.
pub fn chars_of(s: &str) -> (v: Vec<char>)
    ensures
        v@ == s@,
{
    let mut v: Vec<char> = Vec::new();
    for c in it: s.chars()
        invariant
            v@ == it.seq().take(it.index() as int),
    {
        v.push(c);
    }
    v
}

/// Whether two string slices hold the same characters.
pub fn str_eq(a: &str, b: &str) -> (r: bool)
    ensures
        r == (a@ == b@),
{
    let x = chars_of(a);
    let y = chars_of(b);
    if x.len() != y.len() {
        return false;
    }
    let mut i: usize = 0;
    while i < x.len()
        invariant
            x@ == a@,
            y@ == b@,
            x@.len() == y@.len(),
            i <= x@.len(),
            forall|j: int| 0 <= j < i ==> x@[j] == y@[j],
        decreases x.len() - i,
    {
        if x[i] != y[i] {
            return false;
        }
        i += 1;
    }
    assert(x@ =~= y@);
    true
}

// ---------------------------------------------------------------------
// UTF-8 byte ranges
// ---------------------------------------------------------------------
/// `std::str::from_utf8`: succeeds exactly on valid UTF-8, and the slice
/// then holds the same bytes.
#[verifier::external_body]
pub(crate) fn utf8_str(bytes: &[u8]) -> (r: Option<&str>)
    ensures
        r is Some <==> valid_utf8(bytes@),
        r matches Some(s) ==> s.spec_bytes() == bytes@,
{
    std::str::from_utf8(bytes).ok()
}


/// `&s[a..b]` on byte offsets that are character boundaries.
pub fn byte_range<'a>(s: &'a str, a: usize, b: usize) -> (r: &'a str)
    requires
        a <= b <= s.spec_bytes().len(),
        is_char_boundary(s.spec_bytes(), a as int),
        is_char_boundary(s.spec_bytes(), b as int),
    ensures
        r.spec_bytes() == s.spec_bytes().subrange(a as int, b as int),
        r@ == decode_utf8(s.spec_bytes().subrange(a as int, b as int)),
{
    proof {
        broadcast use vstd::utf8::encode_utf8_valid_utf8;

        assert(valid_utf8(s.spec_bytes()));
    }
    let (left, _) = s.split_at(b);
    proof {
        broadcast use vstd::utf8::encode_utf8_valid_utf8;

        assert(valid_utf8(left.spec_bytes()));
        lemma_boundary_prefix(s.spec_bytes(), b as int, a as int);
    }
    let (_, mid) = left.split_at(a);
    proof {
        assert(mid.spec_bytes() =~= s.spec_bytes().subrange(a as int, b as int));
        vstd::utf8::encode_utf8_decode_utf8(mid@);
    }
    mid
}

pub proof fn lemma_boundary_prefix(bytes: Seq<u8>, b: int, a: int)
    requires
        valid_utf8(bytes),
        0 <= a <= b <= bytes.len(),
        is_char_boundary(bytes, a),
        is_char_boundary(bytes, b),
    ensures
        is_char_boundary(bytes.subrange(0, b), a),
{
    broadcast use vstd::utf8::valid_utf8_split, vstd::utf8::is_char_boundary_start_end_of_seq;

    let p = bytes.subrange(0, b);
    assert(valid_utf8(p));
    if a < b {
        vstd::utf8::is_char_boundary_iff_not_is_continuation_byte(bytes, a);
        vstd::utf8::is_char_boundary_iff_not_is_continuation_byte(p, a);
    } else {
        assert(p.len() == b);
    }
}

/// An ASCII byte in valid UTF-8 starts a character, and so does the byte
/// after it.
pub proof fn lemma_ascii_boundaries(bytes: Seq<u8>, i: int)
    requires
        valid_utf8(bytes),
        0 <= i < bytes.len(),
        is_leading_byte_width_1(bytes[i]),
    ensures
        is_char_boundary(bytes, i),
        is_char_boundary(bytes, i + 1),
    decreases bytes.len(),
{
    vstd::utf8::is_char_boundary_iff_not_is_continuation_byte(bytes, i);
    let k = length_of_first_scalar(bytes);
    let rest = pop_first_scalar(bytes);
    reveal_with_fuel(is_char_boundary, 2);
    if i == 0 {
        assert(k == 1);
        assert(is_char_boundary(rest, 0));
    } else {
        assert(valid_utf8(rest));
        assert(is_char_boundary(rest, i - k));
        assert(rest[i - k] == bytes[i]);
        lemma_ascii_boundaries(rest, i - k);
        assert(is_char_boundary(rest, i - k + 1));
    }
}

} // verus!

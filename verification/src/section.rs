//! The section tree built from the headings: parents, children,
//! hierarchical ids and line ranges.
use vstd::prelude::*;

use crate::document::{heading_views, spec_headings, Document, Heading, HeadingView};
use crate::text::{dec, digit_char, is_ascii_digit, lemma_dec_digits, push_char, push_decimal, push_str, str_eq};

verus! {

/// Id of the virtual root that top-level sections hang from.
pub const ROOT_SECTION_ID: &'static str = "root";

// ---------------------------------------------------------------------
// The tree over a sequence of heading levels
// ---------------------------------------------------------------------
pub open spec fn levels(hs: Seq<HeadingView>) -> Seq<u8> {
    hs.map_values(|h: HeadingView| h.level)
}

/// The last index `r <= j` whose level is below `l`.
pub open spec fn nearest_lower(ls: Seq<u8>, l: u8, j: int) -> Option<int>
    decreases j + 1,
{
    if j < 0 {
        None
    } else if ls[j] < l {
        Some(j)
    } else {
        nearest_lower(ls, l, j - 1)
    }
}

/// The parent of section `i`: the nearest earlier section with a lower level,
/// or none (the virtual root).
pub open spec fn parent_of(ls: Seq<u8>, i: int) -> Option<int> {
    nearest_lower(ls, ls[i], i - 1)
}

pub proof fn lemma_nearest_lower(ls: Seq<u8>, l: u8, j: int)
    ensures
        nearest_lower(ls, l, j) matches Some(r) ==> 0 <= r <= j && ls[r] < l && forall|k: int|
            r < k <= j ==> ls[k] >= l,
        nearest_lower(ls, l, j) is None ==> forall|k: int| 0 <= k <= j ==> ls[k] >= l,
    decreases j + 1,
{
    if j >= 0 && ls[j] >= l {
        lemma_nearest_lower(ls, l, j - 1);
    }
}

/// The first index `k >= from` whose level is at most that of section `i`.
pub open spec fn first_closer(ls: Seq<u8>, i: int, from: int) -> Option<int>
    decreases ls.len() - from,
{
    if from < 0 || from >= ls.len() {
        None
    } else if ls[from] <= ls[i] {
        Some(from)
    } else {
        first_closer(ls, i, from + 1)
    }
}

pub proof fn lemma_first_closer(ls: Seq<u8>, i: int, from: int)
    requires
        0 <= from,
    ensures
        first_closer(ls, i, from) matches Some(k) ==> from <= k < ls.len() && ls[k] <= ls[i]
            && forall|m: int| from <= m < k ==> ls[m] > ls[i],
        first_closer(ls, i, from) is None ==> forall|m: int| from <= m < ls.len() ==> ls[m] > ls[i],
    decreases ls.len() - from,
{
    if from < ls.len() && ls[from] > ls[i] {
        lemma_first_closer(ls, i, from + 1);
    }
}

/// Number of sections before `m` whose parent is `p`.
pub open spec fn count_parent(ls: Seq<u8>, p: Option<int>, m: int) -> nat
    decreases m,
{
    if m <= 0 {
        0
    } else {
        count_parent(ls, p, m - 1) + if parent_of(ls, m - 1) == p {
            1nat
        } else {
            0nat
        }
    }
}

/// Section ids: the n-th top-level section is `sn`; the m-th child of
/// section `x` is `x-m`, counting siblings in source order from 1.
pub open spec fn id_of(ls: Seq<u8>, i: int) -> Seq<char>
    decreases i,
{
    let p = parent_of(ls, i);
    let rank = count_parent(ls, p, i) + 1;
    proof {
        lemma_nearest_lower(ls, ls[i], i - 1);
    }
    match p {
        None => seq!['s'] + dec(rank),
        Some(q) => if 0 <= q < i {
            id_of(ls, q) + seq!['-'] + dec(rank)
        } else {
            seq![]
        },
    }
}

/// The parent's id, or `root`.
pub open spec fn parent_id_of(ls: Seq<u8>, i: int) -> Seq<char> {
    match parent_of(ls, i) {
        None => ROOT_SECTION_ID@,
        Some(q) => id_of(ls, q),
    }
}

/// Children of section `i` among the sections before `m`, in order.
pub open spec fn kids_upto(ls: Seq<u8>, i: int, m: int) -> Seq<usize>
    decreases m,
{
    if m <= 0 {
        seq![]
    } else if parent_of(ls, m - 1) == Some(i) {
        kids_upto(ls, i, m - 1).push((m - 1) as usize)
    } else {
        kids_upto(ls, i, m - 1)
    }
}

/// A section ends on the line before the next heading whose level is at
/// most its own, or at the end of the document.
pub open spec fn section_end(hs: Seq<HeadingView>, i: int, eof: int) -> int {
    match first_closer(levels(hs), i, i + 1) {
        Some(k) => hs[k].start_line - 1,
        None => if eof >= hs[i].start_line {
            eof
        } else {
            hs[i].start_line
        },
    }
}

// ---------------------------------------------------------------------
// The open-section stack
// ---------------------------------------------------------------------
/// Section `j` is still open before section `n`: every section between has a
/// higher level.
pub open spec fn open_at(ls: Seq<u8>, j: int, n: int) -> bool {
    forall|k: int| j < k < n ==> #[trigger] ls[k] > ls[j]
}

/// The stack holds exactly the open sections before `n`, in order.
pub open spec fn stack_ok(ls: Seq<u8>, st: Seq<usize>, n: int) -> bool {
    &&& 0 <= n <= ls.len() <= usize::MAX
    &&& forall|t: int| 0 <= t < st.len() ==> 0 <= #[trigger] st[t] < n
    &&& forall|t: int| 0 <= t < st.len() ==> open_at(ls, #[trigger] st[t] as int, n)
    &&& forall|t1: int, t2: int| 0 <= t1 < t2 < st.len() ==> #[trigger] st[t1] < #[trigger] st[t2]
    &&& forall|j: int| 0 <= j < n && open_at(ls, j, n) ==> #[trigger] st.contains(j as usize)
}

proof fn lemma_stack_levels(ls: Seq<u8>, st: Seq<usize>, n: int, t1: int, t2: int)
    requires
        stack_ok(ls, st, n),
        0 <= t1 < t2 < st.len(),
    ensures
        ls[st[t1] as int] < ls[st[t2] as int],
{
    assert(st[t1] < st[t2]);
    assert(open_at(ls, st[t1] as int, n));
    assert(ls[st[t2] as int] > ls[st[t1] as int]);
}

/// One step of the stack walk: popping the sections whose level is at least
/// that of section `n` leaves its parent on top, and each popped section
/// ends where section `n` starts.
proof fn lemma_stack_step(ls: Seq<u8>, st: Seq<usize>, m: int, n: int)
    requires
        stack_ok(ls, st, n),
        n < ls.len(),
        0 <= m <= st.len(),
        forall|t: int| m <= t < st.len() ==> ls[#[trigger] st[t] as int] >= ls[n],
        m > 0 ==> ls[st[m - 1] as int] < ls[n],
    ensures
        stack_ok(ls, st.take(m).push(n as usize), n + 1),
        parent_of(ls, n) == if m == 0 {
            None::<int>
        } else {
            Some(st[m - 1] as int)
        },
        forall|t: int|
            m <= t < st.len() ==> first_closer(ls, #[trigger] st[t] as int, st[t] + 1) == Some(n),
        forall|j: int|
            0 <= j < n && open_at(ls, j, n) && !open_at(ls, j, n + 1) ==> exists|t: int|
                m <= t < st.len() && #[trigger] st[t] == j,
{
    let r = nearest_lower(ls, ls[n], n - 1);
    lemma_nearest_lower(ls, ls[n], n - 1);
    // levels below m are below ls[n]
    assert forall|t: int| 0 <= t < m implies ls[#[trigger] st[t] as int] < ls[n] by {
        if t < m - 1 {
            lemma_stack_levels(ls, st, n, t, m - 1);
        }
    }
    // the parent
    match r {
        Some(j) => {
            assert(open_at(ls, j, n));
            assert(st.contains(j as usize));
            assert(exists|t: int| 0 <= t < st.len() && st[t] == j as usize);
            let t = choose|t: int| 0 <= t < st.len() && st[t] == j as usize;
            assert(t < m) by {
                if t >= m {
                    assert(ls[st[t] as int] >= ls[n]);
                }
            }
            assert(st[t] as int == j);
            if t < m - 1 {
                assert(st[t] < st[m - 1]);
                assert(st[m - 1] < n);
                let k = st[m - 1] as int;
                assert(j < k <= n - 1);
                assert(ls[k] >= ls[n]);
                assert(ls[st[m - 1] as int] < ls[n]);
            }
            assert(t == m - 1);
        },
        None => {
            if m > 0 {
                assert(ls[st[m - 1] as int] < ls[n]);
            }
        },
    }
    let st2 = st.take(m).push(n as usize);
    assert forall|t: int| 0 <= t < st2.len() implies open_at(ls, #[trigger] st2[t] as int, n + 1) by {
        if t < m {
            let j = st[t] as int;
            assert(st2[t] == st[t]);
            assert(open_at(ls, j, n));
            assert(ls[j] < ls[n]);
            assert forall|k: int| j < k < n + 1 implies #[trigger] ls[k] > ls[j] by {
                if k < n {
                    assert(open_at(ls, j, n));
                }
            }
            assert(open_at(ls, j, n + 1));
        } else {
            assert(st2[t] == n as usize);
            assert(open_at(ls, n, n + 1));
        }
    }
    assert forall|t1: int, t2: int| 0 <= t1 < t2 < st2.len() implies #[trigger] st2[t1]
        < #[trigger] st2[t2] by {
        if t2 < m {
            assert(st2[t1] == st[t1] && st2[t2] == st[t2]);
        } else {
            assert(st2[t1] == st[t1]);
        }
    }
    assert forall|j: int| 0 <= j < n + 1 && open_at(ls, j, n + 1) implies #[trigger] st2.contains(
        j as usize,
    ) by {
        if j == n {
            assert(st2[m] == n);
        } else {
            assert(open_at(ls, j, n));
            assert(st.contains(j as usize));
            assert(exists|t: int| 0 <= t < st.len() && st[t] == j as usize);
            let t = choose|t: int| 0 <= t < st.len() && st[t] == j as usize;
            assert(ls[n] > ls[j]);
            if t >= m {
                assert(ls[st[t] as int] >= ls[n]);
            }
            assert(st2[t] == j);
        }
    }
    assert forall|t: int| m <= t < st.len() implies first_closer(
        ls,
        #[trigger] st[t] as int,
        st[t] + 1,
    ) == Some(n) by {
        let j = st[t] as int;
        assert(open_at(ls, j, n));
        lemma_first_closer(ls, j, j + 1);
        match first_closer(ls, j, j + 1) {
            Some(k) => {
                if k < n {
                    assert(ls[k] > ls[j]);
                }
                if k > n {
                    assert(ls[n] > ls[j]);
                }
            },
            None => {
                assert(ls[n] > ls[j]);
            },
        }
    }
    assert forall|j: int| 0 <= j < n && open_at(ls, j, n) && !open_at(ls, j, n + 1) implies exists|
        t: int,
    | m <= t < st.len() && #[trigger] st[t] == j by {
        assert(st.contains(j as usize));
        assert(exists|t: int| 0 <= t < st.len() && st[t] == j as usize);
            let t = choose|t: int| 0 <= t < st.len() && st[t] == j as usize;
        assert(ls[n] <= ls[j]);
        if t < m {
            assert(ls[st[t] as int] < ls[n]);
        }
        assert(m <= t < st.len() && st[t] == j);
    }
}

proof fn lemma_kids_none(ls: Seq<u8>, i: int, m: int)
    requires
        0 <= i,
        m <= i + 1,
    ensures
        kids_upto(ls, i, m) == Seq::<usize>::empty(),
    decreases m,
{
    if m > 0 {
        lemma_nearest_lower(ls, ls[m - 1], m - 2);
        lemma_kids_none(ls, i, m - 1);
    }
}

proof fn lemma_count_parent_bound(ls: Seq<u8>, p: Option<int>, m: int)
    requires
        m >= 0,
    ensures
        count_parent(ls, p, m) <= m,
    decreases m,
{
    if m > 0 {
        lemma_count_parent_bound(ls, p, m - 1);
    }
}

spec fn opt_int(o: Option<usize>) -> Option<int> {
    match o {
        Some(x) => Some(x as int),
        None => None,
    }
}

// ---------------------------------------------------------------------
// Sections
// ---------------------------------------------------------------------
/// A section: a heading with its place in the tree and its line range.
#[derive(Clone, Debug, PartialEq, Eq)]
pub struct Section {
    pub id: String,
    pub parent_id: String,
    pub level: u8,
    pub title: String,
    pub start_line: usize,
    pub end_line: usize,
    pub heading: Heading,
    pub children: Vec<usize>,
}

pub struct SectionView {
    pub id: Seq<char>,
    pub parent_id: Seq<char>,
    pub level: u8,
    pub title: Seq<char>,
    pub start_line: int,
    pub end_line: int,
    pub heading: HeadingView,
    pub children: Seq<usize>,
}

impl View for Section {
    type V = SectionView;

    open spec fn view(&self) -> SectionView {
        SectionView {
            id: self.id@,
            parent_id: self.parent_id@,
            level: self.level,
            title: self.title@,
            start_line: self.start_line as int,
            end_line: self.end_line as int,
            heading: self.heading@,
            children: self.children@,
        }
    }
}

pub open spec fn section_views(v: Seq<Section>) -> Seq<SectionView> {
    v.map_values(|s: Section| s@)
}

/// Section `i` of the tree over the headings `hs` of a document with `eof` lines.
pub open spec fn section_model(hs: Seq<HeadingView>, eof: int, i: int) -> SectionView {
    let ls = levels(hs);
    SectionView {
        id: id_of(ls, i),
        parent_id: parent_id_of(ls, i),
        level: hs[i].level,
        title: hs[i].title,
        start_line: hs[i].start_line,
        end_line: section_end(hs, i, eof),
        heading: hs[i],
        children: kids_upto(ls, i, hs.len() as int),
    }
}

/// All sections of a document, in heading order.
pub open spec fn spec_sections(doc: &Document) -> Seq<SectionView> {
    let hs = spec_headings(doc);
    Seq::new(hs.len(), |i: int| section_model(hs, doc.num_lines(), i))
}

/// The sections of a document, in heading order.
#[derive(Clone, Debug, PartialEq, Eq)]
pub struct SectionIndex {
    sections: Vec<Section>,
}

impl View for SectionIndex {
    type V = Seq<SectionView>;

    closed spec fn view(&self) -> Seq<SectionView> {
        section_views(self.sections@)
    }
}

fn clone_heading(h: &Heading) -> (r: Heading)
    ensures
        r@ == h@,
{
    Heading {
        kind: h.kind,
        level: h.level,
        title: h.title.clone(),
        start_line: h.start_line,
        end_line: h.end_line,
        start_offset: h.start_offset,
        end_offset: h.end_offset,
    }
}

} // verus!

verus! {

spec fn base_ok(s: Section, hs: Seq<HeadingView>, ls: Seq<u8>, j: int, m: int, count: int) -> bool {
    &&& s.level == hs[j].level
    &&& s.title@ == hs[j].title
    &&& s.start_line == hs[j].start_line
    &&& s.heading@ == hs[j]
    &&& s.children@ == kids_upto(ls, j, m)
    &&& s.end_line == count
}

/// Same view except possibly the id.
spec fn frame_id(a: SectionView, b: SectionView) -> bool {
    &&& a.parent_id == b.parent_id
    &&& a.level == b.level
    &&& a.title == b.title
    &&& a.start_line == b.start_line
    &&& a.end_line == b.end_line
    &&& a.heading == b.heading
    &&& a.children == b.children
}

/// Same view except possibly the parent id.
spec fn frame_parent_id(a: SectionView, b: SectionView) -> bool {
    &&& a.id == b.id
    &&& a.level == b.level
    &&& a.title == b.title
    &&& a.start_line == b.start_line
    &&& a.end_line == b.end_line
    &&& a.heading == b.heading
    &&& a.children == b.children
}

/// Same view except possibly the end line.
spec fn frame_end(a: SectionView, b: SectionView) -> bool {
    &&& a.id == b.id
    &&& a.parent_id == b.parent_id
    &&& a.level == b.level
    &&& a.title == b.title
    &&& a.start_line == b.start_line
    &&& a.heading == b.heading
    &&& a.children == b.children
}

/// Gives each section its hierarchical id, in source order.
fn assign_section_ids(sections: &mut Vec<Section>, parents: &Vec<Option<usize>>, Ghost(ls): Ghost<Seq<u8>>)
    requires
        old(sections)@.len() == parents@.len() == ls.len() <= usize::MAX,
        forall|j: int| 0 <= j < ls.len() ==> opt_int(#[trigger] parents@[j]) == parent_of(ls, j),
    ensures
        final(sections)@.len() == old(sections)@.len(),
        forall|j: int|
            0 <= j < ls.len() ==> (#[trigger] final(sections)@[j])@.id == id_of(ls, j) && frame_id(
                final(sections)@[j]@,
                old(sections)@[j]@,
            ),
{
    let n = sections.len();
    let mut child_counts: Vec<usize> = Vec::new();
    while child_counts.len() < n
        invariant
            child_counts@.len() <= n,
            forall|p: int| 0 <= p < child_counts@.len() ==> #[trigger] child_counts@[p] == 0,
        decreases n - child_counts.len(),
    {
        child_counts.push(0);
    }
    let mut root_count: usize = 0;
    let mut idx: usize = 0;
    while idx < n
        invariant
            n == ls.len() == parents@.len() == sections@.len() == old(sections)@.len(),
            n <= usize::MAX,
            child_counts@.len() == n,
            idx <= n,
            forall|j: int| 0 <= j < ls.len() ==> opt_int(#[trigger] parents@[j]) == parent_of(ls, j),
            root_count == count_parent(ls, None, idx as int),
            forall|p: int|
                0 <= p < n ==> #[trigger] child_counts@[p] == count_parent(ls, Some(p), idx as int),
            forall|j: int| 0 <= j < idx ==> (#[trigger] sections@[j])@.id == id_of(ls, j),
            forall|j: int| 0 <= j < n ==> frame_id((#[trigger] sections@[j])@, old(sections)@[j]@),
        decreases n - idx,
    {
        proof {
            lemma_nearest_lower(ls, ls[idx as int], idx - 1);
            lemma_count_parent_bound(ls, parent_of(ls, idx as int), idx as int);
        }
        let mut id = String::new();
        match parents[idx] {
            None => {
                root_count += 1;
                push_char(&mut id, 's');
                push_decimal(&mut id, root_count);
            },
            Some(p) => {
                let c = child_counts[p] + 1;
                child_counts.set(p, c);
                id = sections[p].id.clone();
                push_char(&mut id, '-');
                push_decimal(&mut id, c);
            },
        }
        proof {
            assert(id@ =~= id_of(ls, idx as int));
        }
        sections[idx].id = id;
        idx += 1;
    }
}

/// Records each section's parent id, or `root`.
fn fill_parent_ids(sections: &mut Vec<Section>, parents: &Vec<Option<usize>>, Ghost(ls): Ghost<Seq<u8>>)
    requires
        old(sections)@.len() == parents@.len() == ls.len(),
        forall|j: int| 0 <= j < ls.len() ==> opt_int(#[trigger] parents@[j]) == parent_of(ls, j),
        forall|j: int| 0 <= j < ls.len() ==> (#[trigger] old(sections)@[j])@.id == id_of(ls, j),
    ensures
        final(sections)@.len() == old(sections)@.len(),
        forall|j: int|
            0 <= j < ls.len() ==> (#[trigger] final(sections)@[j])@.parent_id == parent_id_of(ls, j)
                && frame_parent_id(final(sections)@[j]@, old(sections)@[j]@),
{
    let n = sections.len();
    let mut idx: usize = 0;
    while idx < n
        invariant
            n == ls.len() == parents@.len() == sections@.len() == old(sections)@.len(),
            idx <= n,
            forall|j: int| 0 <= j < ls.len() ==> opt_int(#[trigger] parents@[j]) == parent_of(ls, j),
            forall|j: int| 0 <= j < idx ==> (#[trigger] sections@[j])@.parent_id == parent_id_of(ls, j),
            forall|j: int| 0 <= j < n ==> frame_parent_id((#[trigger] sections@[j])@, old(sections)@[j]@),
            forall|j: int| 0 <= j < n ==> (#[trigger] old(sections)@[j])@.id == id_of(ls, j),
        decreases n - idx,
    {
        proof {
            lemma_nearest_lower(ls, ls[idx as int], idx - 1);
        }
        let parent_id = match parents[idx] {
            None => ROOT_SECTION_ID.to_owned(),
            Some(p) => sections[p].id.clone(),
        };
        sections[idx].parent_id = parent_id;
        idx += 1;
    }
}

/// Sets each section's end line: the line before the next heading whose
/// level is at most its own, or the last line.
fn fill_section_ranges(sections: &mut Vec<Section>, eof_line: usize, Ghost(hs): Ghost<Seq<HeadingView>>)
    requires
        old(sections)@.len() == hs.len() <= usize::MAX,
        forall|j: int|
            0 <= j < hs.len() ==> (#[trigger] old(sections)@[j]).level == hs[j].level
                && old(sections)@[j].start_line == hs[j].start_line,
        forall|j: int| 0 <= j < hs.len() ==> 1 <= (#[trigger] hs[j]).start_line,
    ensures
        final(sections)@.len() == old(sections)@.len(),
        forall|j: int|
            0 <= j < hs.len() ==> (#[trigger] final(sections)@[j])@.end_line == section_end(
                hs,
                j,
                eof_line as int,
            ) && frame_end(final(sections)@[j]@, old(sections)@[j]@),
{
    let ghost ls = levels(hs);
    let n = sections.len();
    let mut open_stack: Vec<usize> = Vec::new();
    let mut idx: usize = 0;
    while idx < n
        invariant
            n == hs.len() == ls.len() == sections@.len() == old(sections)@.len(),
            ls == levels(hs),
            n <= usize::MAX,
            idx <= n,
            stack_ok(ls, open_stack@, idx as int),
            forall|j: int|
                0 <= j < n ==> (#[trigger] old(sections)@[j]).level == hs[j].level
                    && old(sections)@[j].start_line == hs[j].start_line,
            forall|j: int| 0 <= j < hs.len() ==> 1 <= (#[trigger] hs[j]).start_line,
            forall|j: int| 0 <= j < n ==> frame_end((#[trigger] sections@[j])@, old(sections)@[j]@),
            forall|j: int|
                0 <= j < idx && !open_at(ls, j, idx as int) ==> (#[trigger] sections@[j])@.end_line
                    == section_end(hs, j, eof_line as int),
        decreases n - idx,
    {
        let ghost st0 = open_stack@;
        let ghost sec0 = sections@;
        let level = sections[idx].level;
        let start = sections[idx].start_line;
        while open_stack.len() > 0 && sections[open_stack[open_stack.len() - 1]].level >= level
            invariant
                n == hs.len() == ls.len() == sections@.len() == old(sections)@.len(),
                ls == levels(hs),
                idx < n,
                level == ls[idx as int],
                start == hs[idx as int].start_line,
                stack_ok(ls, st0, idx as int),
                open_stack@.len() <= st0.len(),
                open_stack@ == st0.take(open_stack@.len() as int),
                forall|t: int|
                    open_stack@.len() <= t < st0.len() ==> ls[#[trigger] st0[t] as int] >= ls[idx as int]
                        && sections@[st0[t] as int].end_line == start - 1,
                forall|j: int| 0 <= j < n ==> frame_end((#[trigger] sections@[j])@, old(sections)@[j]@),
                forall|j: int|
                    0 <= j < n && !st0.subrange(open_stack@.len() as int, st0.len() as int).contains(
                        j as usize,
                    ) ==> #[trigger] sections@[j] == sec0[j],
                forall|j: int|
                    0 <= j < n ==> (#[trigger] old(sections)@[j]).level == hs[j].level
                        && old(sections)@[j].start_line == hs[j].start_line,
                forall|j: int| 0 <= j < hs.len() ==> 1 <= (#[trigger] hs[j]).start_line,
            decreases open_stack.len(),
        {
            let open_idx = open_stack[open_stack.len() - 1];
            let ghost before = sections@;
            let ghost l0 = open_stack@.len() as int;
            sections[open_idx].end_line = start.saturating_sub(1);
            open_stack.pop();
            proof {
                assert(open_stack@ =~= st0.take(open_stack@.len() as int));
                let l = l0 - 1;
                assert(st0[l] == open_idx);
                assert forall|j: int|
                    0 <= j < n && !st0.subrange(l, st0.len() as int).contains(j as usize) implies #[trigger] sections@[j]
                    == sec0[j] by {
                    assert(st0.subrange(l, st0.len() as int)[0] == open_idx);
                    if st0.subrange(l0, st0.len() as int).contains(j as usize) {
                        let t = choose|t: int|
                            0 <= t < st0.len() - l0 && st0.subrange(l0, st0.len() as int)[t] == j as usize;
                        assert(st0.subrange(l, st0.len() as int)[t + 1] == j as usize);
                    }
                    assert(j != open_idx);
                    assert(sections@[j] == before[j]);
                }
            }
        }
        proof {
            let m = open_stack@.len() as int;
            lemma_stack_step(ls, st0, m, idx as int);
            assert(open_stack@.push(idx) =~= st0.take(m).push(idx));
            assert forall|j: int|
                0 <= j < idx + 1 && !open_at(ls, j, idx + 1) implies (#[trigger] sections@[j])@.end_line
                == section_end(hs, j, eof_line as int) by {
                if j < idx && !open_at(ls, j, idx as int) {
                    if st0.subrange(m, st0.len() as int).contains(j as usize) {
                        let t = choose|t: int| 0 <= t < st0.len() - m && st0.subrange(m, st0.len() as int)[t] == j as usize;
                        assert(st0[m + t] == j);
                        assert(open_at(ls, j, idx as int));
                    }
                    assert(sections@[j] == sec0[j]);
                } else if j < idx {
                    let t = choose|t: int| m <= t < st0.len() && #[trigger] st0[t] == j;
                    assert(first_closer(ls, st0[t] as int, st0[t] + 1) == Some(idx as int));
                } else {
                    assert(open_at(ls, j, idx + 1));
                }
            }
        }
        open_stack.push(idx);
        idx += 1;
    }
    let ghost sec1 = sections@;
    let ghost st = open_stack@;
    let mut k: usize = 0;
    while k < open_stack.len()
        invariant
            n == hs.len() == ls.len() == sections@.len() == old(sections)@.len(),
            ls == levels(hs),
            idx == n,
            st == open_stack@,
            stack_ok(ls, st, n as int),
            k <= st.len(),
            forall|j: int|
                0 <= j < n ==> (#[trigger] old(sections)@[j]).level == hs[j].level
                    && old(sections)@[j].start_line == hs[j].start_line,
            forall|j: int| 0 <= j < n ==> frame_end((#[trigger] sections@[j])@, old(sections)@[j]@),
            forall|j: int|
                0 <= j < n && !st.subrange(0, k as int).contains(j as usize) ==> #[trigger] sections@[j] == sec1[j],
            forall|t: int|
                0 <= t < k ==> (#[trigger] sections@[st[t] as int])@.end_line == section_end(
                    hs,
                    st[t] as int,
                    eof_line as int,
                ),
        decreases st.len() - k,
    {
        let j = open_stack[k];
        let s = sections[j].start_line;
        let e = if eof_line > s {
            eof_line
        } else {
            s
        };
        proof {
            assert(open_at(ls, j as int, n as int));
            lemma_first_closer(ls, j as int, j + 1);
            if let Some(c) = first_closer(ls, j as int, j + 1) {
                assert(ls[c] > ls[j as int]);
            }
        }
        sections[j].end_line = e;
        proof {
            assert forall|t: int| 0 <= t < k implies st[t] != j by {
                assert(st[t] < st[k as int]);
            }
            assert forall|j2: int| 0 <= j2 < n && !st.subrange(0, k + 1).contains(j2 as usize) implies #[trigger] sections@[j2] == sec1[j2] by {
                assert(st.subrange(0, k + 1)[k as int] == j);
                if st.subrange(0, k as int).contains(j2 as usize) {
                    let t = choose|t: int| 0 <= t < k && st.subrange(0, k as int)[t] == j2 as usize;
                    assert(st.subrange(0, k + 1)[t] == j2);
                }
            }
        }
        k += 1;
    }
    proof {
        assert forall|j: int| 0 <= j < n implies (#[trigger] sections@[j])@.end_line == section_end(
            hs,
            j,
            eof_line as int,
        ) by {
            if open_at(ls, j, n as int) {
                assert(st.contains(j as usize));
                let t = choose|t: int| 0 <= t < st.len() && st[t] == j as usize;
                assert(sections@[st[t] as int]@.end_line == section_end(hs, st[t] as int, eof_line as int));
            } else {
                if st.subrange(0, k as int).contains(j as usize) {
                    let t = choose|t: int| 0 <= t < k && st.subrange(0, k as int)[t] == j as usize;
                    assert(st[t] == j);
                    assert(open_at(ls, j, n as int));
                }
                assert(sections@[j] == sec1[j]);
            }
        }
    }
}

impl SectionIndex {
    /// Builds the section tree of a document.
    pub fn new(document: &Document) -> (r: SectionIndex)
        requires
            document.wf(),
        ensures
            r@ == spec_sections(document),
    {
        let headings = document.headings();
        let ghost hs = spec_headings(document);
        let ghost ls = levels(hs);
        proof {
            crate::document::lemma_headings(document);
        }
        let n = headings.len();
        let count = document.line_count();
        let mut sections: Vec<Section> = Vec::new();
        let mut parents: Vec<Option<usize>> = Vec::new();
        let mut open_stack: Vec<usize> = Vec::new();
        let mut idx: usize = 0;
        assert(ls.len() == n);
        while idx < n
            invariant
                heading_views(headings@) == hs,
                n == hs.len() == ls.len() == headings@.len(),
                ls == levels(hs),
                count == document.num_lines(),
                idx <= n,
                sections@.len() == idx,
                parents@.len() == idx,
                stack_ok(ls, open_stack@, idx as int),
                forall|j: int| 0 <= j < idx ==> opt_int(#[trigger] parents@[j]) == parent_of(ls, j),
                forall|j: int|
                    0 <= j < idx ==> base_ok(#[trigger] sections@[j], hs, ls, j, idx as int, count as int),
            decreases n - idx,
        {
            let level = headings[idx].level;
            let ghost st0 = open_stack@;
            assert(level == ls[idx as int]);
            while open_stack.len() > 0 && sections[open_stack[open_stack.len() - 1]].level >= level
                invariant
                    n == hs.len() == ls.len(),
                    ls == levels(hs),
                    idx < n,
                    sections@.len() == idx,
                    level == ls[idx as int],
                    stack_ok(ls, st0, idx as int),
                    open_stack@.len() <= st0.len(),
                    open_stack@ == st0.take(open_stack@.len() as int),
                    forall|t: int|
                        open_stack@.len() <= t < st0.len() ==> ls[#[trigger] st0[t] as int] >= ls[idx as int],
                    forall|j: int|
                        0 <= j < idx ==> base_ok(#[trigger] sections@[j], hs, ls, j, idx as int, count as int),
                decreases open_stack.len(),
            {
                open_stack.pop();
                proof {
                    assert(open_stack@ =~= st0.take(open_stack@.len() as int));
                }
            }
            let ghost m = open_stack@.len() as int;
            proof {
                lemma_stack_step(ls, st0, m, idx as int);
            }
            let parent: Option<usize> = if open_stack.len() > 0 {
                Some(open_stack[open_stack.len() - 1])
            } else {
                None
            };
            let heading = clone_heading(&headings[idx]);
            let title = heading.title.clone();
            let start_line = heading.start_line;
            let ghost old_sections = sections@;
            sections.push(
                Section {
                    id: String::new(),
                    parent_id: String::new(),
                    level,
                    title,
                    start_line,
                    end_line: count,
                    heading,
                    children: Vec::new(),
                },
            );
            parents.push(parent);
            if let Some(p) = parent {
                sections[p].children.push(idx);
            }
            open_stack.push(idx);
            proof {
                assert(open_stack@ =~= st0.take(m).push(idx));
                lemma_kids_none(ls, idx as int, idx + 1);
                assert forall|j: int| 0 <= j < idx + 1 implies base_ok(
                    #[trigger] sections@[j],
                    hs,
                    ls,
                    j,
                    idx + 1,
                    count as int,
                ) by {
                    if j < idx {
                        assert(base_ok(old_sections[j], hs, ls, j, idx as int, count as int));
                    }
                }
            }
            idx += 1;
        }
        assign_section_ids(&mut sections, &parents, Ghost(ls));
        fill_parent_ids(&mut sections, &parents, Ghost(ls));
        fill_section_ranges(&mut sections, count, Ghost(hs));
        let r = SectionIndex { sections };
        proof {
            assert(r@ =~= spec_sections(document));
        }
        r
    }
}

} // verus!

verus! {

/// The first section at or after `k` whose id is `id`.
pub open spec fn find_by_id(v: Seq<SectionView>, id: Seq<char>, k: int) -> Option<int>
    decreases v.len() - k,
{
    if k < 0 || k >= v.len() {
        None
    } else if v[k].id == id {
        Some(k)
    } else {
        find_by_id(v, id, k + 1)
    }
}

/// The first section from `k` on with that id, when there is one.
pub proof fn lemma_find_by_id(v: Seq<SectionView>, id: Seq<char>, k: int)
    ensures
        find_by_id(v, id, k) matches Some(i) ==> k <= i < v.len() && v[i].id == id,
        find_by_id(v, id, k) is None ==> forall|j: int| 0 <= k <= j < v.len() ==> v[j].id != id,
    decreases v.len() - k,
{
    if 0 <= k < v.len() && v[k].id != id {
        lemma_find_by_id(v, id, k + 1);
    }
}

/// The last section before `k` whose line range holds `line`.
pub open spec fn find_for_line(v: Seq<SectionView>, line: int, k: int) -> Option<int>
    decreases k,
{
    if k <= 0 {
        None
    } else if v[k - 1].start_line <= line <= v[k - 1].end_line {
        Some(k - 1)
    } else {
        find_for_line(v, line, k - 1)
    }
}

impl SectionIndex {
    /// The sections in heading order.
    pub fn sections(&self) -> (r: &[Section])
        ensures
            section_views(r@) == self@,
    {
        self.sections.as_slice()
    }

    /// Whether there are no sections.
    pub fn is_empty(&self) -> (r: bool)
        ensures
            r == (self@.len() == 0),
    {
        self.sections.len() == 0
    }

    /// The first section with the given id.
    pub fn by_id(&self, id: &str) -> (r: Option<&Section>)
        ensures
            match find_by_id(self@, id@, 0) {
                Some(i) => r is Some && r->0@ == self@[i],
                None => r is None,
            },
    {
        let mut k: usize = 0;
        while k < self.sections.len()
            invariant
                k <= self.sections@.len(),
                self@ == section_views(self.sections@),
                find_by_id(self@, id@, 0) == find_by_id(self@, id@, k as int),
            decreases self.sections.len() - k,
        {
            if str_eq(self.sections[k].id.as_str(), id) {
                return Some(&self.sections[k]);
            }
            k += 1;
        }
        None
    }

    /// The innermost section whose line range holds `line_number`.
    pub fn section_for_line(&self, line_number: usize) -> (r: Option<&Section>)
        ensures
            match find_for_line(self@, line_number as int, self@.len() as int) {
                Some(i) => r is Some && r->0@ == self@[i],
                None => r is None,
            },
    {
        let mut k: usize = self.sections.len();
        while k > 0
            invariant
                k <= self.sections@.len(),
                self@ == section_views(self.sections@),
                find_for_line(self@, line_number as int, self@.len() as int) == find_for_line(
                    self@,
                    line_number as int,
                    k as int,
                ),
            decreases k,
        {
            let s = &self.sections[k - 1];
            if s.start_line <= line_number && line_number <= s.end_line {
                return Some(s);
            }
            k -= 1;
        }
        None
    }
}

} // verus!

verus! {

/// Every section starts on its heading line, ends on or after the heading's
/// last line, and ends within the document.
pub proof fn law_section_ranges(doc: &Document)
    ensures
        forall|i: int|
            0 <= i < spec_sections(doc).len() ==> {
                let s = #[trigger] spec_sections(doc)[i];
                &&& 1 <= s.start_line
                &&& s.start_line == s.heading.start_line
                &&& s.heading.start_line <= s.heading.end_line <= s.end_line
                &&& s.end_line <= doc.num_lines()
                &&& 1 <= s.level <= 6
            },
{
    let hs = spec_headings(doc);
    let ls = levels(hs);
    crate::document::lemma_headings(doc);
    assert forall|i: int| 0 <= i < spec_sections(doc).len() implies {
        let s = #[trigger] spec_sections(doc)[i];
        &&& 1 <= s.start_line
        &&& s.start_line == s.heading.start_line
        &&& s.heading.start_line <= s.heading.end_line <= s.end_line
        &&& s.end_line <= doc.num_lines()
        &&& 1 <= s.level <= 6
    } by {
        assert(hs[i] == hs[i]);
        lemma_first_closer(ls, i, i + 1);
        match first_closer(ls, i, i + 1) {
            Some(k) => {
                assert(hs[i].end_line < hs[k].start_line);
                assert(hs[k].start_line <= hs[k].end_line);
            },
            None => {},
        }
    }
}

/// The parent of a section is the nearest earlier section with a lower level;
/// a section without one hangs from the root.
pub proof fn law_parent(doc: &Document, i: int)
    requires
        0 <= i < spec_headings(doc).len(),
    ensures
        ({
            let ls = levels(spec_headings(doc));
            match parent_of(ls, i) {
                Some(p) => 0 <= p < i && ls[p] < ls[i] && forall|k: int| p < k < i ==> ls[k] >= ls[i],
                None => forall|k: int| 0 <= k < i ==> ls[k] >= ls[i],
            }
        }),
{
    let ls = levels(spec_headings(doc));
    lemma_nearest_lower(ls, ls[i], i - 1);
}

/// A child's line range lies inside its parent's.
pub proof fn law_child_inside_parent(doc: &Document, c: int)
    requires
        0 <= c < spec_headings(doc).len(),
        parent_of(levels(spec_headings(doc)), c) is Some,
    ensures
        ({
            let v = spec_sections(doc);
            let p = parent_of(levels(spec_headings(doc)), c)->0;
            v[p].start_line < v[c].start_line && v[c].end_line <= v[p].end_line
        }),
{
    let hs = spec_headings(doc);
    let ls = levels(hs);
    let p = parent_of(ls, c)->0;
    law_parent(doc, c);
    law_section_ranges(doc);
    crate::document::lemma_headings(doc);
    assert(hs[p].end_line < hs[c].start_line);
    lemma_first_closer(ls, p, p + 1);
    lemma_first_closer(ls, c, c + 1);
    match first_closer(ls, p, p + 1) {
        Some(kp) => {
            if kp <= c {
                if kp < c {
                    assert(ls[kp] >= ls[c]);
                }
            }
            assert(kp > c);
            match first_closer(ls, c, c + 1) {
                Some(kc) => {
                    if kc > kp {
                        assert(ls[kp] > ls[c]);
                    }
                    if kc < kp {
                        assert(hs[kc].start_line <= hs[kc].end_line);
                        assert(hs[kc].end_line < hs[kp].start_line);
                    }
                },
                None => {
                    assert(ls[kp] > ls[c]);
                },
            }
        },
        None => {
            assert(spec_sections(doc)[c].end_line <= doc.num_lines()) by {
                assert(spec_sections(doc)[c] == spec_sections(doc)[c]);
            }
        },
    }
}

/// Ids are made from the heading levels alone: documents whose headings
/// have the same levels have the same ids, whatever their titles, bodies or
/// line numbers.
pub proof fn law_ids_from_levels_only(a: &Document, b: &Document, i: int)
    requires
        levels(spec_headings(a)) == levels(spec_headings(b)),
        0 <= i < spec_headings(a).len(),
    ensures
        spec_sections(a)[i].id == spec_sections(b)[i].id,
        spec_sections(a)[i].parent_id == spec_sections(b)[i].parent_id,
        spec_sections(a)[i].children == spec_sections(b)[i].children,
{
}

/// Digits of a number of at least one, without a leading zero.
pub open spec fn positive_decimal(d: Seq<char>) -> bool {
    &&& d.len() > 0
    &&& d[0] != '0'
    &&& forall|k: int| 0 <= k < d.len() ==> is_ascii_digit(#[trigger] d[k])
}

/// Ids follow the tree: a section under the root is `s<k>` and a section
/// under section `q` is `<id of q>-<k>`, where `k` is its 1-based position
/// among its siblings in source order; that position is its place in the
/// parent's child list.
pub proof fn law_id_by_sibling_index(doc: &Document, i: int)
    requires
        0 <= i < spec_sections(doc).len(),
    ensures
        ({
            let v = spec_sections(doc);
            let ls = levels(spec_headings(doc));
            let k = count_parent(ls, parent_of(ls, i), i);
            &&& positive_decimal(dec(k + 1))
            &&& match parent_of(ls, i) {
                None => v[i].id == seq!['s'] + dec(k + 1) && v[i].parent_id == ROOT_SECTION_ID@,
                Some(q) => {
                    &&& 0 <= q < i
                    &&& v[i].id == v[q].id + seq!['-'] + dec(k + 1)
                    &&& v[i].parent_id == v[q].id
                    &&& k < v[q].children.len()
                    &&& v[q].children[k as int] == i
                },
            }
        }),
{
    lemma_dec_digits(count_parent(levels(spec_headings(doc)), parent_of(levels(spec_headings(doc)), i), i) + 1);
    let v = spec_sections(doc);
    let ls = levels(spec_headings(doc));
    lemma_nearest_lower(ls, ls[i], i - 1);
    crate::document::lemma_headings_count(doc);
    doc.lemma_num_lines_bound();
    assert(v[i] == section_model(spec_headings(doc), doc.num_lines(), i));
    if let Some(q) = parent_of(ls, i) {
        assert(v[q] == section_model(spec_headings(doc), doc.num_lines(), q));
        lemma_kids_count(ls, q, ls.len() as int, i);
    }
}

/// The children of `p` before `m` are as many as the sections before `m`
/// with parent `p`, and a child `c` sits at the position given by the number
/// of its earlier siblings.
proof fn lemma_kids_count(ls: Seq<u8>, p: int, m: int, c: int)
    requires
        0 <= c < m,
        m <= usize::MAX,
        parent_of(ls, c) == Some(p),
    ensures
        kids_upto(ls, p, m).len() == count_parent(ls, Some(p), m),
        count_parent(ls, Some(p), c) < kids_upto(ls, p, m).len(),
        kids_upto(ls, p, m)[count_parent(ls, Some(p), c) as int] == c,
    decreases m,
{
    lemma_kids_len(ls, p, m);
    if c < m - 1 {
        lemma_kids_count(ls, p, m - 1, c);
    } else {
        lemma_kids_len(ls, p, m - 1);
    }
}

proof fn lemma_kids_len(ls: Seq<u8>, p: int, m: int)
    ensures
        kids_upto(ls, p, m).len() == count_parent(ls, Some(p), m),
    decreases m,
{
    if m > 0 {
        lemma_kids_len(ls, p, m - 1);
    }
}

/// Different sections have different ids.
pub proof fn law_ids_unique(doc: &Document, i: int, j: int)
    requires
        0 <= i < spec_sections(doc).len(),
        0 <= j < spec_sections(doc).len(),
        i != j,
    ensures
        spec_sections(doc)[i].id != spec_sections(doc)[j].id,
{
    let v = spec_sections(doc);
    let ls = levels(spec_headings(doc));
    assert(v[i] == section_model(spec_headings(doc), doc.num_lines(), i));
    assert(v[j] == section_model(spec_headings(doc), doc.num_lines(), j));
    if v[i].id == v[j].id {
        lemma_id_injective(ls, i, j);
    }
}

proof fn lemma_id_injective(ls: Seq<u8>, i: int, j: int)
    requires
        0 <= i < ls.len(),
        0 <= j < ls.len(),
        id_of(ls, i) == id_of(ls, j),
    ensures
        i == j,
    decreases i + j,
{
    lemma_nearest_lower(ls, ls[i], i - 1);
    lemma_nearest_lower(ls, ls[j], j - 1);
    let ri = count_parent(ls, parent_of(ls, i), i) + 1;
    let rj = count_parent(ls, parent_of(ls, j), j) + 1;
    lemma_dec_digits(ri);
    lemma_dec_digits(rj);
    match (parent_of(ls, i), parent_of(ls, j)) {
        (None, None) => {
            assert(id_of(ls, i) == seq!['s'] + dec(ri));
            assert(id_of(ls, j) == seq!['s'] + dec(rj));
            assert(dec(ri) =~= id_of(ls, i).drop_first());
            assert(dec(rj) =~= id_of(ls, j).drop_first());
            lemma_dec_injective(ri, rj);
            lemma_same_parent_rank(ls, i, j);
        },
        (Some(qi), Some(qj)) => {
            assert(id_of(ls, i) == id_of(ls, qi) + seq!['-'] + dec(ri));
            assert(id_of(ls, j) == id_of(ls, qj) + seq!['-'] + dec(rj));
            lemma_split_last_dash(id_of(ls, qi), dec(ri), id_of(ls, qj), dec(rj));
            lemma_dec_injective(ri, rj);
            lemma_id_injective(ls, qi, qj);
            lemma_same_parent_rank(ls, i, j);
        },
        (None, Some(qj)) => {
            assert(id_of(ls, i) == seq!['s'] + dec(ri));
            assert(id_of(ls, j) == id_of(ls, qj) + seq!['-'] + dec(rj));
            let x = id_of(ls, j);
            assert(x[id_of(ls, qj).len() as int] == '-');
            assert(id_of(ls, i)[id_of(ls, qj).len() as int] == '-');
        },
        (Some(qi), None) => {
            assert(id_of(ls, j) == seq!['s'] + dec(rj));
            assert(id_of(ls, i) == id_of(ls, qi) + seq!['-'] + dec(ri));
            let x = id_of(ls, i);
            assert(x[id_of(ls, qi).len() as int] == '-');
            assert(id_of(ls, j)[id_of(ls, qi).len() as int] == '-');
        },
    }
}

/// Two sections with the same parent and the same number of earlier
/// siblings are the same section.
proof fn lemma_same_parent_rank(ls: Seq<u8>, i: int, j: int)
    requires
        0 <= i < ls.len(),
        0 <= j < ls.len(),
        parent_of(ls, i) == parent_of(ls, j),
        count_parent(ls, parent_of(ls, i), i) == count_parent(ls, parent_of(ls, j), j),
    ensures
        i == j,
{
    if i < j {
        lemma_count_parent_mono(ls, parent_of(ls, i), i + 1, j);
    } else if j < i {
        lemma_count_parent_mono(ls, parent_of(ls, j), j + 1, i);
    }
}

proof fn lemma_count_parent_mono(ls: Seq<u8>, p: Option<int>, a: int, b: int)
    requires
        a <= b,
    ensures
        count_parent(ls, p, a) <= count_parent(ls, p, b),
    decreases b - a,
{
    if a < b {
        lemma_count_parent_mono(ls, p, a, b - 1);
    }
}

proof fn lemma_dec_injective(a: nat, b: nat)
    requires
        dec(a) == dec(b),
    ensures
        a == b,
    decreases a,
{
    lemma_dec_digits(a);
    lemma_dec_digits(b);
    if a >= 10 && b >= 10 {
        assert(dec(a) == dec(a / 10).push(digit_char(a % 10)));
        assert(dec(b) == dec(b / 10).push(digit_char(b % 10)));
        assert(dec(a / 10) =~= dec(a).drop_last());
        assert(dec(b / 10) =~= dec(b).drop_last());
        assert(dec(a).last() == digit_char(a % 10));
        assert(dec(b).last() == digit_char(b % 10));
        lemma_dec_injective(a / 10, b / 10);
        lemma_digit_injective(a % 10, b % 10);
        assert(a == 10 * (a / 10) + a % 10);
        assert(b == 10 * (b / 10) + b % 10);
    } else if a >= 10 {
        lemma_dec_digits(a / 10);
    } else if b >= 10 {
        lemma_dec_digits(b / 10);
    } else {
        assert(dec(a)[0] == digit_char(a));
        assert(dec(b)[0] == digit_char(b));
        lemma_digit_injective(a, b);
    }
}

proof fn lemma_digit_injective(x: nat, y: nat)
    requires
        x < 10,
        y < 10,
        digit_char(x) == digit_char(y),
    ensures
        x == y,
{
}

/// `x-d` and `y-e` with digit strings `d` and `e` are equal only when the
/// parts are.
proof fn lemma_split_last_dash(x: Seq<char>, d: Seq<char>, y: Seq<char>, e: Seq<char>)
    requires
        x + seq!['-'] + d == y + seq!['-'] + e,
        forall|k: int| 0 <= k < d.len() ==> #[trigger] d[k] != '-',
        forall|k: int| 0 <= k < e.len() ==> #[trigger] e[k] != '-',
    ensures
        x == y,
        d == e,
{
    let l = x + seq!['-'] + d;
    let r = y + seq!['-'] + e;
    assert(l.len() == r.len());
    assert(x.len() + d.len() == y.len() + e.len());
    if d.len() < e.len() {
        let k = e.len() - d.len() - 1;
        assert(l[x.len() as int] == '-');
        assert(r[x.len() as int] == e[k]);
    } else if e.len() < d.len() {
        let k = d.len() - e.len() - 1;
        assert(r[y.len() as int] == '-');
        assert(l[y.len() as int] == d[k]);
    }
    assert(x =~= l.take(x.len() as int));
    assert(y =~= r.take(y.len() as int));
    assert(d =~= l.skip(x.len() as int + 1));
    assert(e =~= r.skip(y.len() as int + 1));
}

/// The id written from a path of sibling positions: `s<n1>-<n2>-...`.
pub open spec fn id_from_path(ns: Seq<nat>) -> Seq<char>
    decreases ns.len(),
{
    if ns.len() <= 1 {
        seq!['s'] + dec(if ns.len() == 1 {
            ns[0]
        } else {
            0
        })
    } else {
        id_from_path(ns.drop_last()) + seq!['-'] + dec(ns.last())
    }
}

/// The sibling positions from the root down to section `i`.
pub open spec fn id_path(ls: Seq<u8>, i: int) -> Seq<nat>
    decreases i,
{
    let p = parent_of(ls, i);
    let rank = count_parent(ls, p, i) + 1;
    proof {
        lemma_nearest_lower(ls, ls[i], i - 1);
    }
    match p {
        None => seq![rank],
        Some(q) => if 0 <= q < i {
            id_path(ls, q).push(rank)
        } else {
            seq![]
        },
    }
}

proof fn lemma_id_path(ls: Seq<u8>, i: int)
    requires
        0 <= i < ls.len(),
    ensures
        id_path(ls, i).len() >= 1,
        forall|t: int| 0 <= t < id_path(ls, i).len() ==> #[trigger] id_path(ls, i)[t] >= 1,
        id_of(ls, i) == id_from_path(id_path(ls, i)),
        id_of(ls, i)[0] == 's',
    decreases i,
{
    lemma_nearest_lower(ls, ls[i], i - 1);
    let rank = count_parent(ls, parent_of(ls, i), i) + 1;
    match parent_of(ls, i) {
        None => {
            assert(id_path(ls, i) == seq![rank]);
            assert(id_of(ls, i) == seq!['s'] + dec(rank));
        },
        Some(q) => {
            lemma_id_path(ls, q);
            let pq = id_path(ls, q);
            assert(id_path(ls, i) == pq.push(rank));
            assert(id_path(ls, i).drop_last() =~= pq);
            assert(id_of(ls, i) == id_of(ls, q) + seq!['-'] + dec(rank));
            assert(id_of(ls, i)[0] == id_of(ls, q)[0]);
        },
    }
}

/// Number of sections before `m` whose parent id is that of section `i`.
pub open spec fn count_same_parent_id(v: Seq<SectionView>, i: int, m: int) -> nat
    decreases m,
{
    if m <= 0 {
        0
    } else {
        count_same_parent_id(v, i, m - 1) + if v[m - 1].parent_id == v[i].parent_id {
            1nat
        } else {
            0nat
        }
    }
}

/// Ids read as the tree: a section whose parent id is `root` has id `s<k>`,
/// any other has id `<parent id>-<k>`, where `k - 1` is the number of earlier
/// sections with the same parent id; every id is `s` followed by positive
/// decimals without leading zeros joined by `-`.
pub proof fn law_id_by_parent_id(doc: &Document, i: int)
    requires
        0 <= i < spec_sections(doc).len(),
    ensures
        ({
            let v = spec_sections(doc);
            let k = count_same_parent_id(v, i, i) + 1;
            &&& v[i].parent_id == ROOT_SECTION_ID@ ==> v[i].id == seq!['s'] + dec(k)
            &&& v[i].parent_id != ROOT_SECTION_ID@ ==> v[i].id == v[i].parent_id + seq!['-'] + dec(k)
            &&& exists|ns: Seq<nat>|
                ns.len() >= 1 && (forall|t: int| 0 <= t < ns.len() ==> #[trigger] ns[t] >= 1)
                    && v[i].id == id_from_path(ns)
        }),
{
    let v = spec_sections(doc);
    let hs = spec_headings(doc);
    let ls = levels(hs);
    reveal_strlit("root");
    assert(v[i] == section_model(hs, doc.num_lines(), i));
    lemma_id_path(ls, i);
    lemma_count_same_parent(doc, i, i);
    lemma_nearest_lower(ls, ls[i], i - 1);
    match parent_of(ls, i) {
        None => {},
        Some(q) => {
            lemma_id_path(ls, q);
            assert(v[i].parent_id == id_of(ls, q));
            assert(v[i].parent_id[0] != ROOT_SECTION_ID@[0]);
        },
    }
}

/// Counting earlier sections by parent id is counting them by parent: two
/// sections have the same parent id exactly when they have the same parent.
proof fn lemma_count_same_parent(doc: &Document, i: int, m: int)
    requires
        0 <= i < spec_sections(doc).len(),
        0 <= m <= spec_sections(doc).len(),
    ensures
        count_same_parent_id(spec_sections(doc), i, m) == count_parent(
            levels(spec_headings(doc)),
            parent_of(levels(spec_headings(doc)), i),
            m,
        ),
    decreases m,
{
    if m > 0 {
        lemma_count_same_parent(doc, i, m - 1);
        lemma_same_parent_id(doc, m - 1, i);
    }
}

proof fn lemma_same_parent_id(doc: &Document, j: int, i: int)
    requires
        0 <= i < spec_sections(doc).len(),
        0 <= j < spec_sections(doc).len(),
    ensures
        (spec_sections(doc)[j].parent_id == spec_sections(doc)[i].parent_id) <==> (parent_of(
            levels(spec_headings(doc)),
            j,
        ) == parent_of(levels(spec_headings(doc)), i)),
{
    let v = spec_sections(doc);
    let hs = spec_headings(doc);
    let ls = levels(hs);
    reveal_strlit("root");
    assert(v[i] == section_model(hs, doc.num_lines(), i));
    assert(v[j] == section_model(hs, doc.num_lines(), j));
    lemma_nearest_lower(ls, ls[i], i - 1);
    lemma_nearest_lower(ls, ls[j], j - 1);
    match (parent_of(ls, j), parent_of(ls, i)) {
        (Some(a), Some(b)) => {
            if id_of(ls, a) == id_of(ls, b) {
                lemma_id_injective(ls, a, b);
            }
        },
        (Some(a), None) => {
            lemma_id_path(ls, a);
            assert(v[j].parent_id[0] != v[i].parent_id[0]);
        },
        (None, Some(b)) => {
            lemma_id_path(ls, b);
            assert(v[j].parent_id[0] != v[i].parent_id[0]);
        },
        (None, None) => {},
    }
}

} // verus!

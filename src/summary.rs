//! The outline parser: the text of a SUMMARY document to a tree of book items.

use vstd::prelude::*;
use crate::bookitem::{BookItem, Chapter, flat, flatten, label_text, numbered_count};
use crate::text::{push_char, push_decimal};

verus! {

broadcast use vstd::std_specs::vec::group_vec_axioms, vstd::seq::group_seq_axioms;

/// What an entry of the outline becomes.
#[derive(Clone, Copy, Debug, PartialEq, Eq, Structural)]
pub enum EntryKind {
    Chapter,
    Affix,
    Spacer,
}

/// One link or separator of the outline, with its nesting depth.
#[derive(Debug)]
pub struct OutlineEntry {
    /// The line number, counted from 1.
    pub line: usize,
    pub depth: usize,
    pub kind: EntryKind,
    pub name: String,
    pub path: String,
}

/// An entry as the tree shows it: depth, kind, name and path.
pub type Node = (nat, EntryKind, Seq<char>, Seq<char>);

pub open spec fn entry_node(e: OutlineEntry) -> Node {
    (e.depth as nat, e.kind, e.name@, e.path@)
}

pub open spec fn entry_nodes(es: Seq<OutlineEntry>) -> Seq<Node> {
    es.map_values(|e: OutlineEntry| entry_node(e))
}

/// The pre-order of a tree whose top items stand at `depth`, each node with its depth.
pub open spec fn preorder(items: Seq<BookItem>, depth: nat) -> Seq<Node>
    decreases items,
{
    if items.len() == 0 {
        seq![]
    } else {
        let rest = preorder(items.drop_first(), depth);
        match items[0] {
            BookItem::Chapter(_, ch) => seq![(depth, EntryKind::Chapter, ch.name@, ch.path@)]
                + preorder(ch.sub_items@, depth + 1) + rest,
            BookItem::Affix(ch) => seq![(depth, EntryKind::Affix, ch.name@, ch.path@)]
                + preorder(ch.sub_items@, depth + 1) + rest,
            BookItem::Spacer => seq![(depth, EntryKind::Spacer, Seq::<char>::empty(), Seq::<char>::empty())]
                + rest,
        }
    }
}

pub proof fn lemma_preorder_push(items: Seq<BookItem>, x: BookItem, depth: nat)
    ensures
        preorder(items.push(x), depth) == preorder(items, depth) + preorder(seq![x], depth),
    decreases items.len(),
{
    if items.len() == 0 {
        assert(items.push(x) =~= seq![x]);
        assert(preorder(items.push(x), depth) =~= preorder(items, depth) + preorder(seq![x], depth));
    } else {
        lemma_preorder_push(items.drop_first(), x, depth);
        assert(items.push(x).drop_first() =~= items.drop_first().push(x));
        assert(preorder(items.push(x), depth) =~= preorder(items, depth) + preorder(seq![x], depth));
    }
}

/// Entries that form a tree: the first stands at the top, each goes at most one level
/// deeper than the one before, and nothing is nested under a separator.
pub open spec fn well_nested(es: Seq<OutlineEntry>) -> bool {
    &&& es.len() > 0 ==> es[0].depth == 0
    &&& forall|i: int| 0 < i < es.len() ==> #[trigger] es[i].depth <= es[i - 1].depth + 1
    &&& forall|i: int| 0 < i < es.len() && #[trigger] es[i].depth == es[i - 1].depth + 1
        ==> es[i - 1].kind != EntryKind::Spacer
    &&& forall|i: int| 0 <= i < es.len() && #[trigger] es[i].kind == EntryKind::Spacer
        ==> es[i].name@.len() == 0 && es[i].path@.len() == 0
}

/// Every chapter holds the label that a traversal gives it (see `flat`): its section
/// number where its level is numbered, the empty label below an affix.
pub open spec fn labels_agree(items: Seq<BookItem>, nums: Seq<nat>, next: nat, numbered: bool) -> bool
    decreases items,
{
    if items.len() == 0 {
        true
    } else {
        let rest = items.drop_first();
        match items[0] {
            BookItem::Chapter(l, ch) => if numbered {
                &&& l@ == label_text(nums.push(next))
                &&& labels_agree(ch.sub_items@, nums.push(next), 1, true)
                &&& labels_agree(rest, nums, next + 1, true)
            } else {
                &&& l@.len() == 0
                &&& labels_agree(ch.sub_items@, nums, 1, false)
                &&& labels_agree(rest, nums, next, false)
            },
            BookItem::Affix(ch) => labels_agree(ch.sub_items@, nums, 1, false)
                && labels_agree(rest, nums, next, numbered),
            BookItem::Spacer => labels_agree(rest, nums, next, numbered),
        }
    }
}

proof fn lemma_labels_agree_push(items: Seq<BookItem>, x: BookItem, nums: Seq<nat>, next: nat, numbered: bool)
    requires
        labels_agree(items, nums, next, numbered),
        labels_agree(seq![x], nums, next + numbered_count(items, numbered), numbered),
    ensures
        labels_agree(items.push(x), nums, next, numbered),
        numbered_count(items.push(x), numbered)
            == numbered_count(items, numbered) + (if numbered && x is Chapter { 1nat } else { 0nat }),
    decreases items.len(),
{
    if items.len() == 0 {
        assert(items.push(x) =~= seq![x]);
        assert(seq![x][0] == x);
        assert(seq![x].drop_first() =~= Seq::<BookItem>::empty());
        assert(numbered_count(Seq::<BookItem>::empty(), numbered) == 0);
    } else {
        assert(items.push(x).drop_first() =~= items.drop_first().push(x));
        assert(items.push(x)[0] == items[0]);
        if numbered && items[0] is Chapter {
            lemma_labels_agree_push(items.drop_first(), x, nums, next + 1, numbered);
        } else {
            lemma_labels_agree_push(items.drop_first(), x, nums, next, numbered);
        }
    }
}

fn make_item(e: &OutlineEntry, label: String, sub_items: Vec<BookItem>) -> (r: BookItem)
    requires
        e.kind == EntryKind::Spacer ==> e.name@.len() == 0 && e.path@.len() == 0 && sub_items@.len() == 0,
    ensures
        preorder(seq![r], e.depth as nat) == seq![entry_node(*e)] + preorder(sub_items@, e.depth as nat + 1),
        (e.kind == EntryKind::Chapter) == (r is Chapter),
        r matches BookItem::Chapter(l, ch) ==> l == label && ch.sub_items == sub_items,
        r matches BookItem::Affix(ch) ==> ch.sub_items == sub_items,
{
    let r = match e.kind {
        EntryKind::Chapter => BookItem::Chapter(
            label,
            Chapter { name: e.name.clone(), path: e.path.clone(), sub_items },
        ),
        EntryKind::Affix => BookItem::Affix(
            Chapter { name: e.name.clone(), path: e.path.clone(), sub_items },
        ),
        EntryKind::Spacer => BookItem::Spacer,
    };
    proof {
        let s = seq![r];
        let d = e.depth as nat;
        assert(s[0] == r);
        assert(s.drop_first() =~= Seq::<BookItem>::empty());
        assert(preorder(s.drop_first(), d) =~= Seq::<Node>::empty());
        if e.kind == EntryKind::Spacer {
            assert(e.name@ =~= Seq::<char>::empty());
            assert(e.path@ =~= Seq::<char>::empty());
            assert(preorder(sub_items@, e.depth as nat + 1) =~= Seq::<Node>::empty());
        }
        assert(preorder(s, e.depth as nat) =~= seq![entry_node(*e)] + preorder(sub_items@, e.depth as nat + 1));
    }
    r
}

/// Builds the items of one level from `entries[*pos]` on, together with all that is nested
/// under them, and leaves `*pos` at the first entry that stands shallower.
///
/// Chapters are labelled as a traversal numbers them: `prefix` is the label of the enclosing
/// chapter, and nothing is labelled where `numbered` is false.
#[verifier::rlimit(40)]
fn build_level(
    entries: &Vec<OutlineEntry>,
    pos: &mut usize,
    depth: usize,
    numbered: bool,
    prefix: &String,
    nums: Ghost<Seq<nat>>,
) -> (r: Vec<BookItem>)
    requires
        well_nested(entries@),
        *old(pos) < entries@.len(),
        entries@[*old(pos) as int].depth == depth,
        numbered ==> prefix@ == label_text(nums@),
    ensures
        labels_agree(r@, nums@, 1, numbered),
        *old(pos) < *final(pos) <= entries@.len(),
        *final(pos) < entries@.len() ==> entries@[*final(pos) as int].depth < depth,
        preorder(r@, depth as nat) == entry_nodes(entries@.subrange(*old(pos) as int, *final(pos) as int)),
    decreases entries@.len() - *old(pos),
{
    let ghost start = *pos as int;
    let mut items: Vec<BookItem> = Vec::new();
    let mut seen: usize = 0;
    while *pos < entries.len() && entries[*pos].depth == depth
        invariant
            well_nested(entries@),
            start == *old(pos),
            start <= *pos <= entries@.len(),
            *pos == start ==> entries@[start].depth == depth,
            *pos > start && *pos < entries@.len() ==> entries@[*pos as int].depth <= depth,
            seen <= items@.len() <= *pos - start,
            numbered ==> prefix@ == label_text(nums@),
            seen == numbered_count(items@, numbered),
            labels_agree(items@, nums@, 1, numbered),
            preorder(items@, depth as nat) == entry_nodes(entries@.subrange(start, *pos as int)),
        decreases entries@.len() - *pos,
    {
        let e = &entries[*pos];
        let at = *pos;
        *pos = *pos + 1;
        let mut label = String::new();
        let ghost own = nums@.push(seen as nat + 1);
        if numbered && e.kind == EntryKind::Chapter {
            label = prefix.clone();
            proof {
                crate::bookitem::lemma_label_text_empty(nums@);
                assert(own.drop_last() =~= nums@);
            }
            if !prefix.as_str().is_empty() {
                push_char(&mut label, '.');
            }
            push_decimal(&mut label, seen + 1);
            assert(label@ =~= label_text(own));
        }
        let ghost child_nums = if numbered && e.kind == EntryKind::Chapter { own } else { nums@ };
        let children = if *pos < entries.len() && entries[*pos].depth > depth {
            let child_numbered = numbered && e.kind == EntryKind::Chapter;
            build_level(entries, pos, entries[*pos].depth, child_numbered, &label, Ghost(child_nums))
        } else {
            Vec::new()
        };
        assert(children@.len() > 0 ==> entries@[at + 1].depth == depth + 1);
        let item = make_item(e, label, children);
        proof {
            let one = seq![item];
            assert(one[0] == item);
            assert(one.drop_first() =~= Seq::<BookItem>::empty());
            assert(labels_agree(children@, child_nums, 1, numbered && e.kind == EntryKind::Chapter));
            let k = seen as nat + 1;
            assert(labels_agree(Seq::<BookItem>::empty(), nums@, k + 1, numbered));
            assert(labels_agree(Seq::<BookItem>::empty(), nums@, k, numbered));
            assert(labels_agree(one, nums@, k, numbered));
            lemma_labels_agree_push(items@, item, nums@, 1, numbered);
        }
        if numbered && e.kind == EntryKind::Chapter {
            seen = seen + 1;
        }
        let ghost before = items@;
        items.push(item);
        proof {
            lemma_preorder_push(before, item, depth as nat);
            let es = entries@;
            assert(entry_nodes(es.subrange(start, *pos as int)) =~= entry_nodes(es.subrange(start, at as int))
                + seq![entry_node(es[at as int])] + entry_nodes(es.subrange(at + 1, *pos as int)));
        }
    }
    items
}


/// Builds the tree whose pre-order, with depths, is exactly `entries`.
fn build_tree(entries: &Vec<OutlineEntry>) -> (r: Vec<BookItem>)
    requires
        well_nested(entries@),
    ensures
        preorder(r@, 0) == entry_nodes(entries@),
        labels_agree(r@, seq![], 1, true),
{
    if entries.len() == 0 {
        assert(entry_nodes(entries@) =~= Seq::<Node>::empty());
        return Vec::new();
    }
    let mut pos: usize = 0;
    let prefix = String::new();
    let r = build_level(entries, &mut pos, 0, true, &prefix, Ghost(Seq::empty()));
    assert(entries@.subrange(0, entries@.len() as int) =~= entries@);
    r
}

/// How a line of the outline reads.
#[derive(Clone, Copy, Debug, PartialEq, Eq, Structural)]
pub enum LineKind {
    /// Nothing but whitespace.
    Blank,
    /// A `#` heading: a title only, not part of the structure.
    Heading,
    /// Three or more `-` alone: a separator.
    Rule,
    /// A bare link `[name](path)`.
    Plain,
    /// A list item `- [name](path)` (or with `*` or `+`).
    Listed,
    /// Anything else.
    Broken,
}

pub open spec fn lead_ws(c: char) -> bool {
    c == ' ' || c == '\t'
}

pub open spec fn trail_ws(c: char) -> bool {
    c == ' ' || c == '\t' || c == '\r'
}

/// The first index from `i` on that is not a space or a tab.
pub open spec fn skip_lead(l: Seq<char>, i: int) -> int
    decreases l.len() - i,
{
    if 0 <= i < l.len() && lead_ws(l[i]) {
        skip_lead(l, i + 1)
    } else {
        i
    }
}

/// The end of `l[lo..j]` once trailing whitespace is dropped.
pub open spec fn trim_end(l: Seq<char>, lo: int, j: int) -> int
    decreases j - lo,
{
    if lo < j && trail_ws(l[j - 1]) {
        trim_end(l, lo, j - 1)
    } else {
        j
    }
}

/// The indentation of a line: its leading spaces and tabs, each one column.
pub open spec fn indent(l: Seq<char>) -> int {
    skip_lead(l, 0)
}

/// A line without its indentation and trailing whitespace.
pub open spec fn line_body(l: Seq<char>) -> Seq<char> {
    l.subrange(indent(l), trim_end(l, indent(l), l.len() as int))
}

/// The first index from `i` on that holds `c`, or the length.
pub open spec fn find_from(t: Seq<char>, c: char, i: int) -> int
    decreases t.len() - i,
{
    if i >= t.len() {
        t.len() as int
    } else if t[i] == c {
        i
    } else {
        find_from(t, c, i + 1)
    }
}

/// Where the name of a link ends: its first `]`.
pub open spec fn link_close(t: Seq<char>) -> int {
    find_from(t, ']', 1)
}

/// `t` is exactly a link `[name](path)`, with no `]` in the name.
pub open spec fn is_link(t: Seq<char>) -> bool {
    &&& t.len() >= 4
    &&& t[0] == '['
    &&& t.last() == ')'
    &&& link_close(t) + 3 <= t.len()
    &&& t[link_close(t) + 1] == '('
}

pub open spec fn link_name(t: Seq<char>) -> Seq<char> {
    t.subrange(1, link_close(t))
}

pub open spec fn link_path(t: Seq<char>) -> Seq<char> {
    t.subrange(link_close(t) + 2, t.len() - 1)
}

pub open spec fn is_rule(b: Seq<char>) -> bool {
    b.len() >= 3 && forall|i: int| 0 <= i < b.len() ==> b[i] == '-'
}

pub open spec fn is_marker(c: char) -> bool {
    c == '-' || c == '*' || c == '+'
}

pub open spec fn has_marker(b: Seq<char>) -> bool {
    b.len() >= 2 && is_marker(b[0]) && b[1] == ' '
}

/// A list item's text after its marker and the spaces that follow it.
pub open spec fn after_marker(b: Seq<char>) -> Seq<char> {
    b.subrange(skip_lead(b, 1), b.len() as int)
}

pub open spec fn line_kind(l: Seq<char>) -> LineKind {
    let b = line_body(l);
    if b.len() == 0 {
        LineKind::Blank
    } else if b[0] == '#' {
        LineKind::Heading
    } else if is_rule(b) {
        LineKind::Rule
    } else if b[0] == '[' {
        if is_link(b) { LineKind::Plain } else { LineKind::Broken }
    } else if has_marker(b) && is_link(after_marker(b)) {
        LineKind::Listed
    } else {
        LineKind::Broken
    }
}

/// The link that a `Plain` or `Listed` line holds.
pub open spec fn line_link(l: Seq<char>) -> Seq<char> {
    if line_kind(l) == LineKind::Listed {
        after_marker(line_body(l))
    } else {
        line_body(l)
    }
}

proof fn lemma_skip_lead_bounds(l: Seq<char>, i: int)
    requires
        0 <= i <= l.len(),
    ensures
        i <= skip_lead(l, i) <= l.len(),
    decreases l.len() - i,
{
    if i < l.len() && lead_ws(l[i]) {
        lemma_skip_lead_bounds(l, i + 1);
    }
}

proof fn lemma_trim_end_bounds(l: Seq<char>, lo: int, j: int)
    requires
        0 <= lo <= j <= l.len(),
    ensures
        lo <= trim_end(l, lo, j) <= j,
    decreases j - lo,
{
    if lo < j && trail_ws(l[j - 1]) {
        lemma_trim_end_bounds(l, lo, j - 1);
    }
}

fn skip_lead_exec(l: &Vec<char>, i: usize) -> (r: usize)
    requires
        i <= l@.len(),
    ensures
        r == skip_lead(l@, i as int),
        i <= r <= l@.len(),
{
    proof {
        lemma_skip_lead_bounds(l@, i as int);
    }
    let mut k = i;
    while k < l.len() && (l[k] == ' ' || l[k] == '\t')
        invariant
            i <= k <= l@.len(),
            skip_lead(l@, k as int) == skip_lead(l@, i as int),
        decreases l@.len() - k,
    {
        k = k + 1;
    }
    k
}

proof fn lemma_skip_lead_shift(l: Seq<char>, start: int, end: int, i: int)
    requires
        0 <= start < end <= l.len(),
        !lead_ws(l[end - 1]),
        0 <= i < end - start,
    ensures
        skip_lead(l, start + i) == start + skip_lead(l.subrange(start, end), i),
    decreases end - start - i,
{
    let b = l.subrange(start, end);
    if lead_ws(l[start + i]) {
        assert(i + 1 < end - start);
        lemma_skip_lead_shift(l, start, end, i + 1);
    }
}

/// Whether `l[a..e]` is exactly a link; if so, where its name ends.
fn link_at(l: &Vec<char>, a: usize, e: usize) -> (r: (bool, usize))
    requires
        a < e <= l@.len(),
    ensures
        r.0 == is_link(l@.subrange(a as int, e as int)),
        r.0 ==> r.1 == a + link_close(l@.subrange(a as int, e as int)),
        r.0 ==> a + 1 <= r.1 && r.1 + 3 <= e,
{
    let ghost t = l@.subrange(a as int, e as int);
    if e - a < 4 || l[a] != '[' || l[e - 1] != ')' {
        return (false, 0);
    }
    let mut k = a + 1;
    while k < e && l[k] != ']'
        invariant
            a + 1 <= k <= e <= l@.len(),
            t == l@.subrange(a as int, e as int),
            find_from(t, ']', (k - a) as int) == find_from(t, ']', 1),
        decreases e - k,
    {
        assert(t[(k - a) as int] == l@[k as int]);
        k = k + 1;
    }
    if k < e {
        assert(t[(k - a) as int] == l@[k as int]);
    }
    assert(find_from(t, ']', (k - a) as int) == (k - a) as int);
    if e - k >= 3 && l[k + 1] == '(' {
        assert(t[(k - a) as int + 1] == l@[k + 1]);
        (true, k)
    } else {
        (false, 0)
    }
}

/// Classifies one line; for a link line also gives where the link stands in it.
pub fn classify_line(l: &Vec<char>) -> (r: (LineKind, usize, usize))
    ensures
        r.0 == line_kind(l@),
        (r.0 == LineKind::Plain || r.0 == LineKind::Listed) ==> {
            &&& r.1 <= r.2 <= l@.len()
            &&& l@.subrange(r.1 as int, r.2 as int) == line_link(l@)
        },
{
    let start = skip_lead_exec(l, 0);
    proof {
        lemma_trim_end_bounds(l@, start as int, l@.len() as int);
    }
    let mut end = l.len();
    while end > start && (l[end - 1] == ' ' || l[end - 1] == '\t' || l[end - 1] == '\r')
        invariant
            start <= end <= l@.len(),
            trim_end(l@, start as int, end as int) == trim_end(l@, start as int, l@.len() as int),
        decreases end,
    {
        end = end - 1;
    }
    let ghost b = line_body(l@);
    assert(b =~= l@.subrange(start as int, end as int));
    if end == start {
        return (LineKind::Blank, 0, 0);
    }
    if l[start] == '#' {
        return (LineKind::Heading, 0, 0);
    }
    let mut all_dash = end - start >= 3;
    let mut k = start;
    while k < end
        invariant
            start <= k <= end <= l@.len(),
            b =~= l@.subrange(start as int, end as int),
            all_dash == (end - start >= 3 && forall|i: int| 0 <= i < k - start ==> b[i] == '-'),
        decreases end - k,
    {
        assert(b[k - start] == l@[k as int]);
        if l[k] != '-' {
            all_dash = false;
        }
        k = k + 1;
    }
    if all_dash {
        return (LineKind::Rule, 0, 0);
    }
    if l[start] == '[' {
        if link_at(l, start, end).0 {
            return (LineKind::Plain, start, end);
        }
        return (LineKind::Broken, 0, 0);
    }
    if end - start >= 2 && (l[start] == '-' || l[start] == '*' || l[start] == '+') && l[start + 1] == ' ' {
        let s2 = skip_lead_exec(l, start + 1);
        proof {
            lemma_skip_lead_shift(l@, start as int, end as int, 1);
            lemma_skip_lead_bounds(b, 1);
        }
        assert(after_marker(b) =~= l@.subrange(s2 as int, end as int));
        if s2 < end && link_at(l, s2, end).0 {
            return (LineKind::Listed, s2, end);
        }
    }
    (LineKind::Broken, 0, 0)
}


/// The lines of a text, split at each `'\n'`; a text of `k` newlines has `k + 1` lines.
pub open spec fn lines_of(s: Seq<char>) -> Seq<Seq<char>>
    decreases s.len(),
{
    if s.len() == 0 {
        seq![Seq::<char>::empty()]
    } else {
        let prev = lines_of(s.drop_last());
        if s.last() == '\n' {
            prev.push(Seq::<char>::empty())
        } else {
            prev.update(prev.len() - 1, prev.last().push(s.last()))
        }
    }
}

proof fn lemma_lines_of_len(s: Seq<char>)
    ensures
        lines_of(s).len() >= 1,
        lines_of(s).len() <= s.len() + 1,
    decreases s.len(),
{
    if s.len() > 0 {
        lemma_lines_of_len(s.drop_last());
    }
}

pub(crate) fn chars_of(text: &str) -> (r: Vec<char>)
    ensures
        r@ == text@,
{
    broadcast use vstd::string::axiom_spec_iter;
    let mut out: Vec<char> = Vec::new();
    for c in it: text.chars()
        invariant
            out@ == it.seq().take(it.index() as int),
    {
        out.push(c);
    }
    out
}

fn split_lines(s: &Vec<char>) -> (r: Vec<Vec<char>>)
    ensures
        r@.len() == lines_of(s@).len(),
        forall|j: int| 0 <= j < r@.len() ==> #[trigger] r@[j]@ == lines_of(s@)[j],
{
    let mut done: Vec<Vec<char>> = Vec::new();
    let mut cur: Vec<char> = Vec::new();
    let mut i: usize = 0;
    assert(s@.subrange(0, 0) =~= Seq::<char>::empty());
    while i < s.len()
        invariant
            i <= s@.len(),
            done@.len() + 1 == lines_of(s@.subrange(0, i as int)).len(),
            forall|j: int| 0 <= j < done@.len() ==> #[trigger] done@[j]@ == lines_of(s@.subrange(0, i as int))[j],
            cur@ == lines_of(s@.subrange(0, i as int)).last(),
        decreases s@.len() - i,
    {
        let ghost pre = s@.subrange(0, i as int);
        let ghost next = s@.subrange(0, i + 1);
        assert(next.drop_last() =~= pre);
        proof {
            lemma_lines_of_len(pre);
        }
        let c = s[i];
        if c == '\n' {
            done.push(cur);
            cur = Vec::new();
        } else {
            cur.push(c);
        }
        i = i + 1;
        assert(forall|j: int| 0 <= j < done@.len() ==> #[trigger] done@[j]@ == lines_of(s@.subrange(0, i as int))[j]);
    }
    assert(s@.subrange(0, s@.len() as int) =~= s@);
    let ghost before = done@;
    done.push(cur);
    assert(forall|j: int| 0 <= j < done@.len() ==> #[trigger] done@[j]@ == lines_of(s@)[j]) by {
        assert(forall|j: int| 0 <= j < before.len() ==> done@[j] == before[j]);
    }
    done
}

/// Copies `l[a..b]` into a string.
fn string_of(l: &Vec<char>, a: usize, b: usize) -> (r: String)
    requires
        a <= b <= l@.len(),
    ensures
        r@ == l@.subrange(a as int, b as int),
{
    let mut r = String::new();
    let mut k = a;
    while k < b
        invariant
            a <= k <= b <= l@.len(),
            r@ == l@.subrange(a as int, k as int),
        decreases b - k,
    {
        push_char(&mut r, l[k]);
        k = k + 1;
        assert(r@ =~= l@.subrange(a as int, k as int));
    }
    r
}

/// Why an outline could not be read.
#[derive(Debug, PartialEq, Eq)]
pub enum ParseError {
    /// The document could not be read.
    Io(String),
    /// A line breaks the structure: its number, counted from 1, and its text.
    Malformed { line: usize, text: String },
}

/// An entry as the scan records it: line number, depth, kind, name and path.
pub type EntryModel = (nat, nat, EntryKind, Seq<char>, Seq<char>);

/// The state of a scan over the lines of an outline.
pub struct Scan {
    pub entries: Seq<EntryModel>,
    /// The indentation of one level: that of the first indented entry, 0 before it.
    pub step: nat,
    /// A numbered chapter has stood at the top level.
    pub seen: bool,
    /// Back matter has begun: every later top-level link is an affix.
    pub back: bool,
    /// The number of the first line that breaks the structure.
    pub error: Option<nat>,
}

pub open spec fn scan_start() -> Scan {
    Scan { entries: seq![], step: 0, seen: false, back: false, error: None }
}

/// What a link or separator line becomes at `depth`.
///
/// Below the top level a link is a chapter. At the top level a bare link is an affix, and so
/// is every link once back matter has begun; back matter begins at the first separator or
/// bare link that follows a numbered chapter.
pub open spec fn entry_kind(k: LineKind, depth: nat, back: bool) -> EntryKind {
    if k == LineKind::Rule {
        EntryKind::Spacer
    } else if depth > 0 {
        EntryKind::Chapter
    } else if k == LineKind::Plain || back {
        EntryKind::Affix
    } else {
        EntryKind::Chapter
    }
}

/// The scan after line number `n`, whose text is `l`.
pub open spec fn scan_line(st: Scan, l: Seq<char>, n: nat) -> Scan {
    let k = line_kind(l);
    if st.error is Some || k == LineKind::Blank || k == LineKind::Heading {
        st
    } else if k == LineKind::Broken {
        Scan { error: Some(n), ..st }
    } else {
        let ind = indent(l) as nat;
        let step = if st.step == 0 { ind } else { st.step };
        let depth = if ind == 0 { 0 } else { ind / step };
        let fits = if st.entries.len() == 0 {
            depth == 0
        } else {
            let prev = st.entries.last();
            &&& depth <= prev.1 + 1
            &&& depth == prev.1 + 1 ==> prev.2 != EntryKind::Spacer
        };
        if ind != 0 && ind % step != 0 || !fits {
            Scan { error: Some(n), ..st }
        } else {
            let kind = entry_kind(k, depth, st.back);
            let name = if k == LineKind::Rule { Seq::<char>::empty() } else { link_name(line_link(l)) };
            let path = if k == LineKind::Rule { Seq::<char>::empty() } else { link_path(line_link(l)) };
            Scan {
                entries: st.entries.push((n, depth, kind, name, path)),
                step,
                seen: st.seen || (depth == 0 && kind == EntryKind::Chapter),
                back: st.back || (depth == 0 && st.seen && k != LineKind::Listed),
                error: None,
            }
        }
    }
}

/// The scan over the given lines, numbered from 1.
pub open spec fn scan(lines: Seq<Seq<char>>) -> Scan
    decreases lines.len(),
{
    if lines.len() == 0 {
        scan_start()
    } else {
        scan_line(scan(lines.drop_last()), lines.last(), lines.len())
    }
}

proof fn lemma_scan_error_stays(lines: Seq<Seq<char>>, j: int)
    requires
        0 <= j <= lines.len(),
        scan(lines.subrange(0, j)).error is Some,
    ensures
        scan(lines).error == scan(lines.subrange(0, j)).error,
    decreases lines.len() - j,
{
    if j < lines.len() {
        let a = lines.subrange(0, j);
        let b = lines.subrange(0, j + 1);
        assert(b.drop_last() =~= a);
        lemma_scan_error_stays(lines, j + 1);
    } else {
        assert(lines.subrange(0, j) =~= lines);
    }
}

pub open spec fn model_node(m: EntryModel) -> Node {
    (m.1, m.2, m.3, m.4)
}

pub open spec fn entry_model(e: OutlineEntry) -> EntryModel {
    (e.line as nat, e.depth as nat, e.kind, e.name@, e.path@)
}

/// The nodes, in pre-order, of the tree that an outline text describes.
pub open spec fn outline_nodes(text: Seq<char>) -> Seq<Node> {
    scan(lines_of(text)).entries.map_values(|m: EntryModel| model_node(m))
}


/// Reads an outline into its tree of book items.
///
/// Each line is blank, a `#` heading (both skipped), a separator (`---`), a bare link
/// `[name](path)` or a list item `- [name](path)`. A line's depth is its indentation
/// divided by that of the first indented entry. The parse fails at the first line that is
/// none of these, whose indentation is not a multiple of that step, that stands deeper
/// than one level below the entry before it, or that would be nested under a separator.
/// On success the tree's pre-order gives the entries in the order of the document.
pub fn parse_summary(text: &str) -> (r: Result<Vec<BookItem>, ParseError>)
    ensures
        scan(lines_of(text@)).error matches Some(n) ==> (r matches Err(ParseError::Malformed { line, text: t })
            && line == n && 1 <= n <= lines_of(text@).len() && t@ == lines_of(text@)[n - 1]),
        scan(lines_of(text@)).error is None ==> (r matches Ok(items)
            && preorder(items@, 0) == outline_nodes(text@) && labels_agree(items@, seq![], 1, true)),
{
    let chars = chars_of(text);
    let lines = split_lines(&chars);
    let ghost ls = lines_of(text@);
    let mut entries: Vec<OutlineEntry> = Vec::new();
    let mut step: usize = 0;
    let mut seen = false;
    let mut back = false;
    let mut i: usize = 0;
    assert(ls.subrange(0, 0) =~= Seq::<Seq<char>>::empty());
    while i < lines.len()
        invariant
            ls == lines_of(text@),
            lines@.len() == ls.len(),
            forall|j: int| 0 <= j < lines@.len() ==> #[trigger] lines@[j]@ == ls[j],
            i <= lines@.len(),
            well_nested(entries@),
            scan(ls.subrange(0, i as int)).error is None,
            scan(ls.subrange(0, i as int)).entries == entries@.map_values(|e: OutlineEntry| entry_model(e)),
            scan(ls.subrange(0, i as int)).step == step as nat,
            scan(ls.subrange(0, i as int)).seen == seen,
            scan(ls.subrange(0, i as int)).back == back,
        decreases lines@.len() - i,
    {
        let ghost pre = ls.subrange(0, i as int);
        let ghost cur = ls.subrange(0, i + 1);
        assert(cur.drop_last() =~= pre);
        assert(cur.last() == lines@[i as int]@);
        assert(scan(cur) == scan_line(scan(pre), cur.last(), cur.len()));
        let l = &lines[i];
        let n = i + 1;
        let (kind, a, e) = classify_line(l);
        if kind == LineKind::Broken {
            proof {
                lemma_scan_error_stays(ls, n as int);
                assert(l@.subrange(0, l@.len() as int) =~= l@);
            }
            let t = string_of(l, 0, l.len());
            return Err(ParseError::Malformed { line: n, text: t });
        }
        if kind == LineKind::Blank || kind == LineKind::Heading {
            i = i + 1;
            continue;
        }
        let ind = skip_lead_exec(l, 0);
        let new_step = if step == 0 { ind } else { step };
        let depth = if ind == 0 { 0 } else { ind / new_step };
        let fits = if entries.len() == 0 {
            depth == 0
        } else {
            let prev = &entries[entries.len() - 1];
            depth <= prev.depth || (depth - prev.depth == 1 && prev.kind != EntryKind::Spacer)
        };
        if (ind != 0 && ind % new_step != 0) || !fits {
            proof {
                lemma_scan_error_stays(ls, n as int);
                assert(l@.subrange(0, l@.len() as int) =~= l@);
            }
            return Err(ParseError::Malformed { line: n, text: string_of(l, 0, l.len()) });
        }
        let ekind = if kind == LineKind::Rule {
            EntryKind::Spacer
        } else if depth > 0 {
            EntryKind::Chapter
        } else if kind == LineKind::Plain || back {
            EntryKind::Affix
        } else {
            EntryKind::Chapter
        };
        let (name, path) = if kind == LineKind::Rule {
            (String::new(), String::new())
        } else {
            let (_, close) = link_at(l, a, e);
            let name = string_of(l, a + 1, close);
            let path = string_of(l, close + 2, e - 1);
            proof {
                let t = l@.subrange(a as int, e as int);
                assert(name@ =~= link_name(t));
                assert(path@ =~= link_path(t));
            }
            (name, path)
        };
        let ghost old_entries = entries@;
        entries.push(OutlineEntry { line: n, depth, kind: ekind, name, path });
        back = back || (depth == 0 && seen && kind != LineKind::Listed);
        seen = seen || (depth == 0 && ekind == EntryKind::Chapter);
        step = new_step;
        i = i + 1;
        proof {
            assert(entries@.map_values(|e: OutlineEntry| entry_model(e))
                =~= old_entries.map_values(|e: OutlineEntry| entry_model(e)).push(entry_model(entries@.last())));
        }
    }
    assert(ls.subrange(0, ls.len() as int) =~= ls);
    let items = build_tree(&entries);
    assert(entry_nodes(entries@) =~= outline_nodes(text@));
    Ok(items)
}

/// What a yielded item shows of itself: kind, name and path.
pub open spec fn item_view(item: BookItem) -> (EntryKind, Seq<char>, Seq<char>) {
    match item {
        BookItem::Chapter(_, ch) => (EntryKind::Chapter, ch.name@, ch.path@),
        BookItem::Affix(ch) => (EntryKind::Affix, ch.name@, ch.path@),
        BookItem::Spacer => (EntryKind::Spacer, Seq::<char>::empty(), Seq::<char>::empty()),
    }
}

pub open spec fn node_view(n: Node) -> (EntryKind, Seq<char>, Seq<char>) {
    (n.1, n.2, n.3)
}

pub open spec fn yielded_views(pairs: Seq<(Seq<char>, BookItem)>) -> Seq<(EntryKind, Seq<char>, Seq<char>)> {
    pairs.map_values(|e: (Seq<char>, BookItem)| item_view(e.1))
}

proof fn lemma_views_concat(a: Seq<(Seq<char>, BookItem)>, b: Seq<(Seq<char>, BookItem)>, c: Seq<Node>, d: Seq<Node>)
    ensures
        yielded_views(a + b) == yielded_views(a) + yielded_views(b),
        (c + d).map_values(|n: Node| node_view(n))
            == c.map_values(|n: Node| node_view(n)) + d.map_values(|n: Node| node_view(n)),
{
    assert(yielded_views(a + b) =~= yielded_views(a) + yielded_views(b));
    assert((c + d).map_values(|n: Node| node_view(n))
        =~= c.map_values(|n: Node| node_view(n)) + d.map_values(|n: Node| node_view(n)));
}

/// A labelled traversal visits the items in the same order as the pre-order with depths.
pub proof fn lemma_flat_is_preorder(items: Seq<BookItem>, nums: Seq<nat>, next: nat, numbered: bool, depth: nat)
    ensures
        yielded_views(flat(items, nums, next, numbered))
            == preorder(items, depth).map_values(|n: Node| node_view(n)),
    decreases items,
{
    if items.len() > 0 {
        let rest = items.drop_first();
        match items[0] {
            BookItem::Chapter(_, ch) => {
                if numbered {
                    lemma_flat_is_preorder(ch.sub_items@, nums.push(next), 1, true, depth + 1);
                    lemma_flat_is_preorder(rest, nums, next + 1, true, depth);
                } else {
                    lemma_flat_is_preorder(ch.sub_items@, nums, 1, false, depth + 1);
                    lemma_flat_is_preorder(rest, nums, next, false, depth);
                }
            },
            BookItem::Affix(ch) => {
                lemma_flat_is_preorder(ch.sub_items@, nums, 1, false, depth + 1);
                lemma_flat_is_preorder(rest, nums, next, numbered, depth);
            },
            BookItem::Spacer => {
                lemma_flat_is_preorder(rest, nums, next, numbered, depth);
            },
        }
        let it = items[0];
        let head = seq![(if numbered && it is Chapter { label_text(nums.push(next)) } else { Seq::<char>::empty() }, it)];
        let hn = seq![(depth, item_view(it).0, item_view(it).1, item_view(it).2)];
        let (sf, sp) = match it {
            BookItem::Chapter(_, ch) => if numbered {
                (flat(ch.sub_items@, nums.push(next), 1, true), preorder(ch.sub_items@, depth + 1))
            } else {
                (flat(ch.sub_items@, nums, 1, false), preorder(ch.sub_items@, depth + 1))
            },
            BookItem::Affix(ch) => (flat(ch.sub_items@, nums, 1, false), preorder(ch.sub_items@, depth + 1)),
            BookItem::Spacer => (Seq::empty(), Seq::empty()),
        };
        let nn = if numbered && it is Chapter { next + 1 } else { next };
        let rf = flat(rest, nums, nn, numbered);
        let rp = preorder(rest, depth);
        assert(flat(items, nums, next, numbered) =~= head + sf + rf);
        assert(preorder(items, depth) =~= hn + sp + rp);
        lemma_views_concat(head + sf, rf, hn + sp, rp);
        lemma_views_concat(head, sf, hn, sp);
        assert(yielded_views(head) =~= hn.map_values(|n: Node| node_view(n)));
    }
}

/// The entries of a scan come from distinct lines, in the order of the lines.
pub proof fn lemma_scan_in_line_order(lines: Seq<Seq<char>>)
    ensures
        forall|i: int| 0 <= i < scan(lines).entries.len() ==> 1 <= (#[trigger] scan(lines).entries[i]).0 <= lines.len(),
        forall|i: int, j: int| 0 <= i < j < scan(lines).entries.len()
            ==> (#[trigger] scan(lines).entries[i]).0 < (#[trigger] scan(lines).entries[j]).0,
    decreases lines.len(),
{
    if lines.len() > 0 {
        lemma_scan_in_line_order(lines.drop_last());
    }
}

/// A parsed outline is yielded in the order of the document: the kinds, names and paths
/// that a traversal of the tree yields are those of the outline's links and separators,
/// taken top to bottom.
pub proof fn lemma_document_order(text: Seq<char>, items: Seq<BookItem>)
    requires
        preorder(items, 0) == outline_nodes(text),
    ensures
        yielded_views(flatten(items))
            == scan(lines_of(text)).entries.map_values(|m: EntryModel| (m.2, m.3, m.4)),
        forall|i: int, j: int| 0 <= i < j < scan(lines_of(text)).entries.len()
            ==> (#[trigger] scan(lines_of(text)).entries[i]).0 < (#[trigger] scan(lines_of(text)).entries[j]).0,
{
    lemma_flat_is_preorder(items, seq![], 1, true, 0);
    lemma_scan_in_line_order(lines_of(text));
    assert(yielded_views(flatten(items))
        =~= scan(lines_of(text)).entries.map_values(|m: EntryModel| (m.2, m.3, m.4)));
}

/// Parsing is a function of the text: two trees read from one text have the same shape and
/// yield the same items in the same order.
pub proof fn lemma_reparse(text: Seq<char>, a: Seq<BookItem>, b: Seq<BookItem>)
    requires
        preorder(a, 0) == outline_nodes(text),
        preorder(b, 0) == outline_nodes(text),
    ensures
        preorder(a, 0) == preorder(b, 0),
        yielded_views(flatten(a)) == yielded_views(flatten(b)),
{
    lemma_document_order(text, a);
    lemma_document_order(text, b);
}

/// Where labels agree, every chapter that a traversal yields carries, as its own label, the
/// very label the traversal yields with it.
pub proof fn lemma_stored_labels_match(items: Seq<BookItem>, nums: Seq<nat>, next: nat, numbered: bool)
    requires
        labels_agree(items, nums, next, numbered),
    ensures
        forall|i: int| 0 <= i < flat(items, nums, next, numbered).len()
            && (#[trigger] flat(items, nums, next, numbered)[i]).1 is Chapter
            ==> (flat(items, nums, next, numbered)[i].1 matches BookItem::Chapter(l, _)
            && l@ == flat(items, nums, next, numbered)[i].0),
    decreases items,
{
    if items.len() > 0 {
        let rest = items.drop_first();
        let whole = flat(items, nums, next, numbered);
        match items[0] {
            BookItem::Chapter(_, ch) => {
                let own = if numbered { nums.push(next) } else { nums };
                let nn = if numbered { next + 1 } else { next };
                lemma_stored_labels_match(ch.sub_items@, own, 1, numbered);
                lemma_stored_labels_match(rest, nums, nn, numbered);
                let sub = flat(ch.sub_items@, own, 1, numbered);
                let tail = flat(rest, nums, nn, numbered);
                assert forall|i: int| 0 <= i < whole.len() && (#[trigger] whole[i]).1 is Chapter
                    implies (whole[i].1 matches BookItem::Chapter(l, _) && l@ == whole[i].0) by {
                    if 1 <= i < 1 + sub.len() {
                        assert(whole[i] == sub[i - 1]);
                    } else if i >= 1 + sub.len() {
                        assert(whole[i] == tail[i - 1 - sub.len()]);
                    }
                }
            },
            BookItem::Affix(ch) => {
                lemma_stored_labels_match(ch.sub_items@, nums, 1, false);
                lemma_stored_labels_match(rest, nums, next, numbered);
                let sub = flat(ch.sub_items@, nums, 1, false);
                let tail = flat(rest, nums, next, numbered);
                assert forall|i: int| 0 <= i < whole.len() && (#[trigger] whole[i]).1 is Chapter
                    implies (whole[i].1 matches BookItem::Chapter(l, _) && l@ == whole[i].0) by {
                    if 1 <= i < 1 + sub.len() {
                        assert(whole[i] == sub[i - 1]);
                    } else if i >= 1 + sub.len() {
                        assert(whole[i] == tail[i - 1 - sub.len()]);
                    }
                }
            },
            BookItem::Spacer => {
                lemma_stored_labels_match(rest, nums, next, numbered);
                let tail = flat(rest, nums, next, numbered);
                assert forall|i: int| 0 <= i < whole.len() && (#[trigger] whole[i]).1 is Chapter
                    implies (whole[i].1 matches BookItem::Chapter(l, _) && l@ == whole[i].0) by {
                    if i >= 1 {
                        assert(whole[i] == tail[i - 1]);
                    }
                }
            },
        }
    }
}

/// An entry line (a link or a separator) that stands two or more levels deeper than the
/// entry before it breaks the structure: where no earlier line is broken, the scan fails at
/// that very line, whatever follows it, so the parse returns that line and no tree. A level
/// is the indentation of the first indented entry (this line's own, where it is the first).
pub proof fn lemma_too_deep_rejected(lines: Seq<Seq<char>>, n: int)
    requires
        1 <= n <= lines.len(),
        scan(lines.take(n - 1)).error is None,
        scan(lines.take(n - 1)).entries.len() > 0,
        line_kind(lines[n - 1]) == LineKind::Plain || line_kind(lines[n - 1]) == LineKind::Listed
            || line_kind(lines[n - 1]) == LineKind::Rule,
        ({
            let st = scan(lines.take(n - 1));
            let ind = indent(lines[n - 1]);
            let step = if st.step == 0 { ind } else { st.step as int };
            step > 0 && ind / step >= st.entries.last().1 + 2
        }),
    ensures
        scan(lines).error == Some(n as nat),
{
    let cur = lines.take(n);
    assert(cur.drop_last() =~= lines.take(n - 1));
    assert(cur.last() == lines[n - 1]);
    lemma_skip_lead_bounds(lines[n - 1], 0);
    let st = scan(lines.take(n - 1));
    let ind = indent(lines[n - 1]) as nat;
    let step: nat = if st.step == 0 { ind } else { st.step };
    assert(ind != 0) by {
        if ind == 0 {
            assert(ind / step == 0) by (nonlinear_arith)
                requires ind == 0, step > 0;
        }
    }
    if st.step == 0 {
        assert(ind / ind == 1) by (nonlinear_arith)
            requires ind > 0;
    }
    assert(scan(cur) == scan_line(st, cur.last(), cur.len()));
    assert(scan(cur).error == Some(n as nat));
    lemma_scan_error_stays(lines, n);
}

} // verus!

//! The book item tree and its depth-first, numbered traversal.

use vstd::prelude::*;
use crate::text::{decimal, lemma_decimal_nonempty, push_char, push_decimal};

verus! {

broadcast use vstd::std_specs::vec::group_vec_axioms, vstd::seq::group_seq_axioms;

/// A navigable content unit: a name, a backing file (empty for none) and nested items.
#[derive(Debug, PartialEq, Eq)]
pub struct Chapter {
    pub name: String,
    pub path: String,
    pub sub_items: Vec<BookItem>,
}

/// One node of the outline tree.
#[derive(Debug, PartialEq, Eq)]
pub enum BookItem {
    /// A numbered chapter, with the section label given to it when the outline was read.
    Chapter(String, Chapter),
    /// Front or back matter: neither it nor anything below it is numbered.
    Affix(Chapter),
    /// A separator with no content and no children.
    Spacer,
}

impl Chapter {
    pub fn new(name: String, path: String) -> (r: Chapter)
        ensures
            r.name == name,
            r.path == path,
            r.sub_items@.len() == 0,
    {
        Chapter { name, path, sub_items: Vec::new() }
    }
}

/// The dotted section label of a number path: `[2, 1]` is "2.1"; the empty path has the empty label.
pub open spec fn label_text(nums: Seq<nat>) -> Seq<char>
    decreases nums.len(),
{
    if nums.len() == 0 {
        seq![]
    } else if nums.len() == 1 {
        decimal(nums[0])
    } else {
        label_text(nums.drop_last()) + seq!['.'] + decimal(nums.last())
    }
}

pub proof fn lemma_label_text_empty(nums: Seq<nat>)
    ensures
        (label_text(nums).len() == 0) == (nums.len() == 0),
    decreases nums.len(),
{
    if nums.len() == 1 {
        lemma_decimal_nonempty(nums[0]);
    } else if nums.len() > 1 {
        lemma_decimal_nonempty(nums.last());
    }
}

/// The pre-order sequence of `(label, item)` pairs that a traversal of `items` yields.
///
/// `nums` is the number path of the enclosing chapter and `next` the number that the
/// next chapter among `items` receives. Where `numbered` is false (below an affix) every
/// label is empty; an affix or a spacer has the empty label and leaves `next` as it is.
pub open spec fn flat(items: Seq<BookItem>, nums: Seq<nat>, next: nat, numbered: bool) -> Seq<(Seq<char>, BookItem)>
    decreases items,
{
    if items.len() == 0 {
        seq![]
    } else {
        let item = items[0];
        let rest = items.drop_first();
        match item {
            BookItem::Chapter(_, ch) => {
                if numbered {
                    let own = nums.push(next);
                    seq![(label_text(own), item)] + flat(ch.sub_items@, own, 1, true)
                        + flat(rest, nums, next + 1, true)
                } else {
                    seq![(Seq::<char>::empty(), item)] + flat(ch.sub_items@, nums, 1, false)
                        + flat(rest, nums, next, false)
                }
            },
            BookItem::Affix(ch) => {
                seq![(Seq::<char>::empty(), item)] + flat(ch.sub_items@, nums, 1, false)
                    + flat(rest, nums, next, numbered)
            },
            BookItem::Spacer => {
                seq![(Seq::<char>::empty(), item)] + flat(rest, nums, next, numbered)
            },
        }
    }
}

/// The labelled pre-order of a whole outline, numbered from "1".
pub open spec fn flatten(items: Seq<BookItem>) -> Seq<(Seq<char>, BookItem)> {
    flat(items, seq![], 1, true)
}


/// How many chapters among `items` a traversal numbers, given whether the level is numbered.
pub open spec fn numbered_count(items: Seq<BookItem>, numbered: bool) -> nat
    decreases items.len(),
{
    if items.len() == 0 || !numbered {
        0
    } else {
        (if items[0] is Chapter { 1nat } else { 0nat }) + numbered_count(items.drop_first(), numbered)
    }
}

/// A traversal of two sibling runs in a row is the traversal of the first, then that of the
/// second with its numbering carried on from where the first left off.
pub proof fn lemma_flat_concat(a: Seq<BookItem>, b: Seq<BookItem>, nums: Seq<nat>, next: nat, numbered: bool)
    ensures
        flat(a + b, nums, next, numbered)
            == flat(a, nums, next, numbered) + flat(b, nums, next + numbered_count(a, numbered), numbered),
    decreases a.len(),
{
    if a.len() == 0 {
        assert(a + b =~= b);
        assert(flat(a + b, nums, next, numbered) =~= flat(a, nums, next, numbered)
            + flat(b, nums, next + numbered_count(a, numbered), numbered));
    } else {
        let rest = a.drop_first();
        assert((a + b).drop_first() =~= rest + b);
        assert((a + b)[0] == a[0]);
        match a[0] {
            BookItem::Chapter(_, _) => {
                if numbered {
                    lemma_flat_concat(rest, b, nums, next + 1, numbered);
                } else {
                    lemma_flat_concat(rest, b, nums, next, numbered);
                }
            },
            _ => {
                lemma_flat_concat(rest, b, nums, next, numbered);
            },
        }
        assert(flat(a + b, nums, next, numbered) =~= flat(a, nums, next, numbered)
            + flat(b, nums, next + numbered_count(a, numbered), numbered));
    }
}

/// Below an affix nothing is labelled: every pair that an unnumbered level yields, at any
/// depth, has the empty label.
pub proof fn lemma_unnumbered_unlabelled(items: Seq<BookItem>, nums: Seq<nat>, next: nat)
    ensures
        forall|i: int| 0 <= i < flat(items, nums, next, false).len()
            ==> (#[trigger] flat(items, nums, next, false)[i]).0.len() == 0,
    decreases items,
{
    if items.len() > 0 {
        let rest = items.drop_first();
        lemma_unnumbered_unlabelled(rest, nums, next);
        match items[0] {
            BookItem::Chapter(_, ch) => {
                lemma_unnumbered_unlabelled(ch.sub_items@, nums, 1);
            },
            BookItem::Affix(ch) => {
                lemma_unnumbered_unlabelled(ch.sub_items@, nums, 1);
            },
            BookItem::Spacer => {},
        }
        let whole = flat(items, nums, next, false);
        assert forall|i: int| 0 <= i < whole.len() implies (#[trigger] whole[i]).0.len() == 0 by {
            match items[0] {
                BookItem::Chapter(_, ch) => {
                    let sub = flat(ch.sub_items@, nums, 1, false);
                    if 1 <= i < 1 + sub.len() {
                        assert(whole[i] == sub[i - 1]);
                    } else if i >= 1 + sub.len() {
                        assert(whole[i] == flat(rest, nums, next, false)[i - 1 - sub.len()]);
                    }
                },
                BookItem::Affix(ch) => {
                    let sub = flat(ch.sub_items@, nums, 1, false);
                    if 1 <= i < 1 + sub.len() {
                        assert(whole[i] == sub[i - 1]);
                    } else if i >= 1 + sub.len() {
                        assert(whole[i] == flat(rest, nums, next, false)[i - 1 - sub.len()]);
                    }
                },
                BookItem::Spacer => {
                    if i >= 1 {
                        assert(whole[i] == flat(rest, nums, next, false)[i - 1]);
                    }
                },
            }
        }
    }
}

/// An affix and everything nested under it, at any depth, are yielded with the empty label,
/// whatever the numbering of the level the affix stands in.
pub proof fn lemma_affix_unlabelled(ch: Chapter, rest: Seq<BookItem>, nums: Seq<nat>, next: nat, numbered: bool)
    ensures
        ({
            let items = seq![BookItem::Affix(ch)] + rest;
            let subtree = 1 + flat(ch.sub_items@, nums, 1, false).len();
            forall|i: int| 0 <= i < subtree ==> (#[trigger] flat(items, nums, next, numbered)[i]).0.len() == 0
        }),
{
    let items = seq![BookItem::Affix(ch)] + rest;
    assert(items[0] == BookItem::Affix(ch));
    assert(items.drop_first() =~= rest);
    lemma_unnumbered_unlabelled(ch.sub_items@, nums, 1);
    let sub = flat(ch.sub_items@, nums, 1, false);
    let whole = flat(items, nums, next, numbered);
    assert forall|i: int| 0 <= i < 1 + sub.len() implies (#[trigger] whole[i]).0.len() == 0 by {
        if i >= 1 {
            assert(whole[i] == sub[i - 1]);
        }
    }
}

/// A spacer gets the empty label and changes no other pair: the traversal with a spacer put
/// between two sibling runs is the one without it, with the spacer's pair inserted.
pub proof fn lemma_spacer_transparent(a: Seq<BookItem>, b: Seq<BookItem>, nums: Seq<nat>, next: nat, numbered: bool)
    ensures
        flat(a + seq![BookItem::Spacer] + b, nums, next, numbered)
            == flat(a + b, nums, next, numbered).insert(
                flat(a, nums, next, numbered).len() as int,
                (Seq::<char>::empty(), BookItem::Spacer),
            ),
{
    let sp = seq![BookItem::Spacer];
    lemma_flat_concat(a, sp + b, nums, next, numbered);
    lemma_flat_concat(a, b, nums, next, numbered);
    assert(a + sp + b =~= a + (sp + b));
    let k = next + numbered_count(a, numbered);
    assert((sp + b)[0] == BookItem::Spacer);
    assert((sp + b).drop_first() =~= b);
    assert(flat(sp + b, nums, k, numbered) == seq![(Seq::<char>::empty(), BookItem::Spacer)] + flat(b, nums, k, numbered));
    assert(flat(a + sp + b, nums, next, numbered) =~= flat(a + b, nums, next, numbered).insert(
        flat(a, nums, next, numbered).len() as int,
        (Seq::<char>::empty(), BookItem::Spacer),
    ));
}

/// `b` is `a` with one spacer inserted into one of its sibling lists, at any depth.
pub open spec fn spacer_inserted(a: Seq<BookItem>, b: Seq<BookItem>) -> bool
    decreases a,
{
    ||| exists|k: int| 0 <= k <= a.len() && b == a.insert(k, BookItem::Spacer)
    ||| {
        &&& a.len() == b.len()
        &&& exists|i: int| #![trigger a[i]] 0 <= i < a.len() && {
            &&& forall|j: int| 0 <= j < a.len() && j != i ==> a[j] == b[j]
            &&& match (a[i], b[i]) {
                (BookItem::Chapter(_, ca), BookItem::Chapter(_, cb)) => spacer_inserted(ca.sub_items@, cb.sub_items@),
                (BookItem::Affix(ca), BookItem::Affix(cb)) => spacer_inserted(ca.sub_items@, cb.sub_items@),
                _ => false,
            }
        }
    }
}

/// The labels of a run of traversal pairs.
pub open spec fn labels_of(pairs: Seq<(Seq<char>, BookItem)>) -> Seq<Seq<char>> {
    pairs.map_values(|e: (Seq<char>, BookItem)| e.0)
}

proof fn lemma_labels_of_concat(x: Seq<(Seq<char>, BookItem)>, y: Seq<(Seq<char>, BookItem)>)
    ensures
        labels_of(x + y) == labels_of(x) + labels_of(y),
{
    assert(labels_of(x + y) =~= labels_of(x) + labels_of(y));
}

/// The children of a chapter or an affix; none for a spacer.
pub open spec fn sub_items_of(x: BookItem) -> Seq<BookItem> {
    match x {
        BookItem::Chapter(_, c) => c.sub_items@,
        BookItem::Affix(c) => c.sub_items@,
        BookItem::Spacer => seq![],
    }
}

proof fn lemma_spacer_at_level(a: Seq<BookItem>, k: int, nums: Seq<nat>, next: nat, numbered: bool)
    requires
        0 <= k <= a.len(),
    ensures
        exists|m: int| 0 <= m <= flat(a, nums, next, numbered).len()
            && labels_of(flat(a.insert(k, BookItem::Spacer), nums, next, numbered))
                == labels_of(flat(a, nums, next, numbered)).insert(m, Seq::<char>::empty()),
{
    let pre = a.take(k);
    let post = a.skip(k);
    assert(a =~= pre + post);
    assert(a.insert(k, BookItem::Spacer) =~= pre + seq![BookItem::Spacer] + post);
    lemma_spacer_transparent(pre, post, nums, next, numbered);
    lemma_flat_concat(pre, post, nums, next, numbered);
    let m = flat(pre, nums, next, numbered).len() as int;
    assert(labels_of(flat(a.insert(k, BookItem::Spacer), nums, next, numbered))
        =~= labels_of(flat(a, nums, next, numbered)).insert(m, Seq::<char>::empty()));
}

proof fn lemma_spacer_below(
    pre: Seq<BookItem>,
    x: BookItem,
    y: BookItem,
    post: Seq<BookItem>,
    nums: Seq<nat>,
    next: nat,
    numbered: bool,
    m1: int,
)
    requires
        (x is Chapter && y is Chapter) || (x is Affix && y is Affix),
        ({
            let k = next + numbered_count(pre, numbered);
            let own = if numbered && x is Chapter { nums.push(k) } else { nums };
            let cn = numbered && x is Chapter;
            &&& 0 <= m1 <= flat(sub_items_of(x), own, 1, cn).len()
            &&& labels_of(flat(sub_items_of(y), own, 1, cn))
                == labels_of(flat(sub_items_of(x), own, 1, cn)).insert(m1, Seq::<char>::empty())
        }),
    ensures
        exists|m: int| 0 <= m <= flat(pre + seq![x] + post, nums, next, numbered).len()
            && labels_of(flat(pre + seq![y] + post, nums, next, numbered))
                == labels_of(flat(pre + seq![x] + post, nums, next, numbered)).insert(m, Seq::<char>::empty()),
{
    let k = next + numbered_count(pre, numbered);
    let own = if numbered && x is Chapter { nums.push(k) } else { nums };
    let cn = numbered && x is Chapter;
    let nn = if cn { k + 1 } else { k };
    lemma_flat_concat(pre, seq![x] + post, nums, next, numbered);
    lemma_flat_concat(pre, seq![y] + post, nums, next, numbered);
    assert(pre + seq![x] + post =~= pre + (seq![x] + post));
    assert(pre + seq![y] + post =~= pre + (seq![y] + post));
    let one_x = seq![x] + post;
    let one_y = seq![y] + post;
    assert(one_x[0] == x && one_y[0] == y);
    assert(one_x.drop_first() =~= post && one_y.drop_first() =~= post);
    let lab = if cn { label_text(own) } else { Seq::<char>::empty() };
    let fx = flat(sub_items_of(x), own, 1, cn);
    let fy = flat(sub_items_of(y), own, 1, cn);
    let fp = flat(pre, nums, next, numbered);
    let ft = flat(post, nums, nn, numbered);
    assert(flat(one_x, nums, k, numbered) == seq![(lab, x)] + fx + ft);
    assert(flat(one_y, nums, k, numbered) == seq![(lab, y)] + fy + ft);
    lemma_labels_of_concat(fp, seq![(lab, x)] + fx + ft);
    lemma_labels_of_concat(fp, seq![(lab, y)] + fy + ft);
    lemma_labels_of_concat(seq![(lab, x)] + fx, ft);
    lemma_labels_of_concat(seq![(lab, y)] + fy, ft);
    lemma_labels_of_concat(seq![(lab, x)], fx);
    lemma_labels_of_concat(seq![(lab, y)], fy);
    let m = fp.len() + 1 + m1;
    assert(labels_of(seq![(lab, x)]) =~= labels_of(seq![(lab, y)]));
    assert(labels_of(flat(pre + seq![y] + post, nums, next, numbered))
        =~= labels_of(flat(pre + seq![x] + post, nums, next, numbered)).insert(m, Seq::<char>::empty()));
}

/// A spacer never changes a label, wherever it is inserted in the tree: the labels of the
/// traversal with the spacer are those without it, with one empty label inserted.
pub proof fn lemma_spacer_transparent_anywhere(a: Seq<BookItem>, b: Seq<BookItem>, nums: Seq<nat>, next: nat, numbered: bool)
    requires
        spacer_inserted(a, b),
    ensures
        exists|m: int| 0 <= m <= flat(a, nums, next, numbered).len()
            && labels_of(flat(b, nums, next, numbered))
                == labels_of(flat(a, nums, next, numbered)).insert(m, Seq::<char>::empty()),
    decreases a,
{
    if exists|k: int| 0 <= k <= a.len() && b == a.insert(k, BookItem::Spacer) {
        let k = choose|k: int| 0 <= k <= a.len() && b == a.insert(k, BookItem::Spacer);
        lemma_spacer_at_level(a, k, nums, next, numbered);
    } else {
        let i = choose|i: int| #![trigger a[i]] 0 <= i < a.len() && {
            &&& forall|j: int| 0 <= j < a.len() && j != i ==> a[j] == b[j]
            &&& match (a[i], b[i]) {
                (BookItem::Chapter(_, ca), BookItem::Chapter(_, cb)) => spacer_inserted(ca.sub_items@, cb.sub_items@),
                (BookItem::Affix(ca), BookItem::Affix(cb)) => spacer_inserted(ca.sub_items@, cb.sub_items@),
                _ => false,
            }
        };
        let pre = a.take(i);
        let post = a.skip(i + 1);
        let x = a[i];
        let y = b[i];
        assert(a =~= pre + seq![x] + post);
        assert(b =~= pre + seq![y] + post);
        let k = next + numbered_count(pre, numbered);
        let own = if numbered && x is Chapter { nums.push(k) } else { nums };
        let cn = numbered && x is Chapter;
        match (x, y) {
            (BookItem::Chapter(_, ca), BookItem::Chapter(_, cb)) => {
                lemma_spacer_transparent_anywhere(ca.sub_items@, cb.sub_items@, own, 1, cn);
            },
            (BookItem::Affix(ca), BookItem::Affix(cb)) => {
                lemma_spacer_transparent_anywhere(ca.sub_items@, cb.sub_items@, own, 1, cn);
            },
            _ => {},
        }
        let m1 = choose|m: int| 0 <= m <= flat(sub_items_of(x), own, 1, cn).len()
            && labels_of(flat(sub_items_of(y), own, 1, cn))
                == labels_of(flat(sub_items_of(x), own, 1, cn)).insert(m, Seq::<char>::empty());
        lemma_spacer_below(pre, x, y, post, nums, next, numbered, m1);
    }
}

/// One level of a pending traversal: the siblings, the position among them, how many
/// numbered chapters came before it there, and the label of the enclosing chapter.
pub struct Frame<'a> {
    items: &'a Vec<BookItem>,
    index: usize,
    seen: usize,
    numbered: bool,
    prefix: String,
    nums: Ghost<Seq<nat>>,
}

impl<'a> Frame<'a> {
    pub closed spec fn wf(&self) -> bool {
        &&& self.index <= self.items@.len()
        &&& self.seen <= self.index
        &&& self.prefix@ == label_text(self.nums@)
    }

    /// What is left to yield at this level.
    pub closed spec fn rest(&self) -> Seq<(Seq<char>, BookItem)> {
        flat(
            self.items@.subrange(self.index as int, self.items@.len() as int),
            self.nums@,
            self.seen as nat + 1,
            self.numbered,
        )
    }
}

pub closed spec fn stack_rest<'a>(stack: Seq<Frame<'a>>) -> Seq<(Seq<char>, BookItem)>
    decreases stack.len(),
{
    if stack.len() == 0 {
        seq![]
    } else {
        stack.last().rest() + stack_rest(stack.drop_last())
    }
}

proof fn lemma_stack_rest_push<'a>(stack: Seq<Frame<'a>>, f: Frame<'a>)
    ensures
        stack_rest(stack.push(f)) == f.rest() + stack_rest(stack),
{
    assert(stack.push(f).drop_last() =~= stack);
}

/// A depth-first traversal of an outline that yields each item with its section label.
pub struct BookItems<'a> {
    current: Frame<'a>,
    stack: Vec<Frame<'a>>,
}

impl<'a> BookItems<'a> {
    pub closed spec fn wf(&self) -> bool {
        &&& self.current.wf()
        &&& forall|i: int| 0 <= i < self.stack@.len() ==> #[trigger] self.stack@[i].wf()
    }

    /// The `(label, item)` pairs still to come, in order.
    pub closed spec fn remaining(&self) -> Seq<(Seq<char>, BookItem)> {
        self.current.rest() + stack_rest(self.stack@)
    }

    /// A fresh traversal of `items`, numbered from "1".
    pub fn new(items: &'a Vec<BookItem>) -> (r: BookItems<'a>)
        ensures
            r.wf(),
            r.remaining() == flatten(items@),
    {
        let r = BookItems {
            current: Frame {
                items,
                index: 0,
                seen: 0,
                numbered: true,
                prefix: String::new(),
                nums: Ghost(Seq::empty()),
            },
            stack: Vec::new(),
        };
        assert(items@.subrange(0, items@.len() as int) =~= items@);
        assert(r.remaining() =~= flatten(items@));
        r
    }

    /// Yields the next item in pre-order with its label: the dotted section number of a
    /// chapter outside any affix, the empty string for anything else.
    pub fn next(&mut self) -> (r: Option<(String, &'a BookItem)>)
        requires
            old(self).wf(),
        ensures
            final(self).wf(),
            old(self).remaining().len() == 0 ==> r is None && final(self).remaining().len() == 0,
            old(self).remaining().len() > 0 ==> {
                &&& r matches Some((label, item))
                &&& label@ == old(self).remaining()[0].0
                &&& *item == old(self).remaining()[0].1
                &&& final(self).remaining() == old(self).remaining().drop_first()
            },
    {
        loop
            invariant
                self.wf(),
                self.remaining() == old(self).remaining(),
            decreases self.stack@.len(),
        {
            if self.current.index >= self.current.items.len() {
                assert(self.current.items@.subrange(self.current.index as int, self.current.items@.len() as int) =~= seq![]);
                match self.stack.pop() {
                    None => {
                        return None;
                    },
                    Some(frame) => {
                        proof {
                            lemma_stack_rest_push(self.stack@, frame);
                        }
                        self.current = frame;
                    },
                }
            } else {
                let items = self.current.items;
                let index = self.current.index;
                let ghost sub = items@.subrange(index as int, items@.len() as int);
                assert(sub[0] == items@[index as int]);
                assert(sub.drop_first() =~= items@.subrange(index + 1, items@.len() as int));
                let item = &items[index];
                match item {
                    BookItem::Chapter(_, ch) => {
                        if self.current.numbered {
                            let mut label = self.current.prefix.clone();
                            proof {
                                lemma_label_text_empty(self.current.nums@);
                            }
                            if !self.current.prefix.as_str().is_empty() {
                                push_char(&mut label, '.');
                            }
                            push_decimal(&mut label, self.current.seen + 1);
                            let ghost own = self.current.nums@.push(self.current.seen as nat + 1);
                            assert(own.drop_last() =~= self.current.nums@);
                            assert(label@ =~= label_text(own));
                            let child = Frame {
                                items: &ch.sub_items,
                                index: 0,
                                seen: 0,
                                numbered: true,
                                prefix: label.clone(),
                                nums: Ghost(own),
                            };
                            let parent = Frame {
                                items,
                                index: index + 1,
                                seen: self.current.seen + 1,
                                numbered: true,
                                prefix: self.current.prefix.clone(),
                                nums: self.current.nums,
                            };
                            let ghost pf = parent;
                        let ghost old_stack = self.stack@;
                        self.stack.push(parent);
                        proof {
                            lemma_stack_rest_push(old_stack, pf);
                        }
                            self.current = child;
                            assert(ch.sub_items@.subrange(0, ch.sub_items@.len() as int) =~= ch.sub_items@);
                            return Some((label, item));
                        } else {
                            let child = Frame {
                                items: &ch.sub_items,
                                index: 0,
                                seen: 0,
                                numbered: false,
                                prefix: self.current.prefix.clone(),
                                nums: self.current.nums,
                            };
                            let parent = Frame {
                                items,
                                index: index + 1,
                                seen: self.current.seen,
                                numbered: false,
                                prefix: self.current.prefix.clone(),
                                nums: self.current.nums,
                            };
                            let ghost pf = parent;
                        let ghost old_stack = self.stack@;
                        self.stack.push(parent);
                        proof {
                            lemma_stack_rest_push(old_stack, pf);
                        }
                            self.current = child;
                            assert(ch.sub_items@.subrange(0, ch.sub_items@.len() as int) =~= ch.sub_items@);
                            return Some((String::new(), item));
                        }
                    },
                    BookItem::Affix(ch) => {
                        let child = Frame {
                            items: &ch.sub_items,
                            index: 0,
                            seen: 0,
                            numbered: false,
                            prefix: self.current.prefix.clone(),
                            nums: self.current.nums,
                        };
                        let parent = Frame {
                            items,
                            index: index + 1,
                            seen: self.current.seen,
                            numbered: self.current.numbered,
                            prefix: self.current.prefix.clone(),
                            nums: self.current.nums,
                        };
                        let ghost pf = parent;
                        let ghost old_stack = self.stack@;
                        self.stack.push(parent);
                        proof {
                            lemma_stack_rest_push(old_stack, pf);
                        }
                        self.current = child;
                        assert(ch.sub_items@.subrange(0, ch.sub_items@.len() as int) =~= ch.sub_items@);
                        return Some((String::new(), item));
                    },
                    BookItem::Spacer => {
                        self.current.index = index + 1;
                        return Some((String::new(), item));
                    },
                }
            }
        }
    }
}

/// `r` lists, in order, exactly the `(label, item)` pairs of a traversal of `items`.
pub open spec fn lists_traversal<'a>(r: Seq<(String, &'a BookItem)>, items: Seq<BookItem>) -> bool {
    &&& r.len() == flatten(items).len()
    &&& forall|i: int| 0 <= i < r.len() ==> (#[trigger] r[i]).0@ == flatten(items)[i].0 && *r[i].1 == flatten(items)[i].1
}

/// Drives a fresh traversal of `items` to its end and returns what it yielded.
pub fn collect_items<'a>(items: &'a Vec<BookItem>) -> (r: Vec<(String, &'a BookItem)>)
    ensures
        lists_traversal(r@, items@),
{
    let ghost all = flatten(items@);
    let mut it = BookItems::new(items);
    let mut r: Vec<(String, &'a BookItem)> = Vec::new();
    loop
        invariant
            all == flatten(items@),
            it.wf(),
            r@.len() + it.remaining().len() == all.len(),
            it.remaining() == all.skip(r@.len() as int),
            forall|i: int| 0 <= i < r@.len() ==> (#[trigger] r@[i]).0@ == all[i].0 && *r@[i].1 == all[i].1,
        ensures
            r@.len() == all.len(),
            forall|i: int| 0 <= i < r@.len() ==> (#[trigger] r@[i]).0@ == all[i].0 && *r@[i].1 == all[i].1,
        decreases it.remaining().len(),
    {
        match it.next() {
            None => {
                break;
            },
            Some(pair) => {
                assert(all.skip(r@.len() as int)[0] == all[r@.len() as int]);
                r.push(pair);
                assert(it.remaining() =~= all.skip(r@.len() as int));
            },
        }
    }
    r
}

/// Traversals are restartable: any two traversals of one tree yield the same pairs.
pub proof fn lemma_restartable<'a>(items: Seq<BookItem>, r1: Seq<(String, &'a BookItem)>, r2: Seq<(String, &'a BookItem)>)
    requires
        lists_traversal(r1, items),
        lists_traversal(r2, items),
    ensures
        r1.len() == r2.len(),
        forall|i: int| 0 <= i < r1.len() ==> (#[trigger] r1[i]).0@ == r2[i].0@ && *r1[i].1 == *r2[i].1,
{
}

} // verus!

//! The book: its outline, where its files live, and its metadata.

use vstd::prelude::*;
use crate::bookitem::{BookItem, BookItems, collect_items, flatten};
use crate::summary::{ParseError, labels_agree, parse_summary, preorder, outline_nodes, lines_of, scan};
use crate::text::push_char;

verus! {

broadcast use vstd::std_specs::vec::group_vec_axioms, vstd::seq::group_seq_axioms;

/// A path is absolute when it starts at the root, `/`.
pub open spec fn is_absolute(p: Seq<char>) -> bool {
    p.len() > 0 && p[0] == '/'
}

/// `base` joined with `p`: `p` itself where it is absolute or `base` is empty, else the two
/// with one `/` between them.
pub open spec fn join_path(base: Seq<char>, p: Seq<char>) -> Seq<char> {
    if is_absolute(p) || base.len() == 0 {
        p
    } else if base.last() == '/' {
        base + p
    } else {
        base + seq!['/'] + p
    }
}

fn push_str(s: &mut String, t: &String)
    ensures
        final(s)@ == old(s)@ + t@,
{
    let chars = crate::summary::chars_of(t.as_str());
    let mut k: usize = 0;
    while k < chars.len()
        invariant
            k <= chars@.len(),
            chars@ == t@,
            s@ == old(s)@ + t@.take(k as int),
        decreases chars@.len() - k,
    {
        push_char(s, chars[k]);
        k = k + 1;
        assert(s@ =~= old(s)@ + t@.take(k as int));
    }
    assert(t@.take(chars@.len() as int) =~= t@);
}

/// Joins `p` onto `base` as a file system path does.
pub fn join(base: &String, p: &String) -> (r: String)
    ensures
        r@ == join_path(base@, p@),
{
    let bc = crate::summary::chars_of(base.as_str());
    let pc = crate::summary::chars_of(p.as_str());
    if (pc.len() > 0 && pc[0] == '/') || bc.len() == 0 {
        return p.clone();
    }
    let mut r = base.clone();
    if bc[bc.len() - 1] != '/' {
        push_char(&mut r, '/');
    }
    push_str(&mut r, p);
    proof {
        if base@.last() != '/' {
            assert(r@ =~= base@ + seq!['/'] + p@);
        }
    }
    r
}

/// `p` relative to `base`, where `base` is one of its leading components; the empty base
/// leads every path.
pub open spec fn relative_to(p: Seq<char>, base: Seq<char>) -> Option<Seq<char>> {
    let n = base.len() as int;
    if p == base {
        Some(Seq::<char>::empty())
    } else if n == 0 {
        Some(p)
    } else if p.len() > n && p.take(n) == base && base.last() == '/' {
        Some(p.skip(n))
    } else if p.len() > n && p.take(n) == base && p[n] == '/' {
        Some(p.skip(n + 1))
    } else {
        None
    }
}

fn starts_with_chars(p: &Vec<char>, base: &Vec<char>) -> (r: bool)
    ensures
        r == (p@.len() >= base@.len() && p@.take(base@.len() as int) == base@),
{
    if p.len() < base.len() {
        return false;
    }
    let mut k: usize = 0;
    while k < base.len()
        invariant
            k <= base@.len() <= p@.len(),
            p@.take(k as int) == base@.take(k as int),
        decreases base@.len() - k,
    {
        if p[k] != base[k] {
            assert(p@.take(base@.len() as int)[k as int] != base@[k as int]);
            return false;
        }
        k = k + 1;
        assert(p@.take(k as int) =~= base@.take(k as int));
    }
    assert(base@.take(base@.len() as int) =~= base@);
    true
}

fn string_from(chars: &Vec<char>, from: usize) -> (r: String)
    requires
        from <= chars@.len(),
    ensures
        r@ == chars@.skip(from as int),
{
    let mut r = String::new();
    let mut k = from;
    while k < chars.len()
        invariant
            from <= k <= chars@.len(),
            r@ == chars@.subrange(from as int, k as int),
        decreases chars@.len() - k,
    {
        push_char(&mut r, chars[k]);
        k = k + 1;
        assert(r@ =~= chars@.subrange(from as int, k as int));
    }
    assert(r@ =~= chars@.skip(from as int));
    r
}

/// `p` relative to `base`: none where `base` does not lead it as whole components.
pub fn relative_path(p: &String, base: &String) -> (r: Option<String>)
    ensures
        r matches Some(x) ==> relative_to(p@, base@) == Some(x@),
        r is None ==> relative_to(p@, base@) is None,
{
    let pc = crate::summary::chars_of(p.as_str());
    let bc = crate::summary::chars_of(base.as_str());
    let n = bc.len();
    let lead = starts_with_chars(&pc, &bc);
    if lead && pc.len() == n {
        assert(p@ =~= base@);
        return Some(String::new());
    }
    proof {
        if p@ == base@ {
            assert(p@.take(n as int) =~= p@);
        }
    }
    if n == 0 {
        return Some(p.clone());
    }
    if pc.len() > n && lead && bc[n - 1] == '/' {
        return Some(string_from(&pc, n));
    }
    if pc.len() > n && lead && pc[n] == '/' {
        return Some(string_from(&pc, n + 1));
    }
    None
}

/// The files that an outline's items stand for, in traversal order: for each chapter (and
/// each affix too, unless `chapters_only`) with a non-empty path, that path under `src`
/// together with the item's name.
pub open spec fn backed_files(
    pairs: Seq<(Seq<char>, BookItem)>,
    src: Seq<char>,
    chapters_only: bool,
) -> Seq<(Seq<char>, Seq<char>)>
    decreases pairs.len(),
{
    if pairs.len() == 0 {
        seq![]
    } else {
        let prev = backed_files(pairs.drop_last(), src, chapters_only);
        match pairs.last().1 {
            BookItem::Chapter(_, ch) => if ch.path@.len() > 0 {
                prev.push((join_path(src, ch.path@), ch.name@))
            } else {
                prev
            },
            BookItem::Affix(ch) => if ch.path@.len() > 0 && !chapters_only {
                prev.push((join_path(src, ch.path@), ch.name@))
            } else {
                prev
            },
            BookItem::Spacer => prev,
        }
    }
}

/// A book: the root directory, the source and output directories, metadata, and the outline.
pub struct MDBook {
    root: String,
    dest: String,
    src: String,
    title: String,
    author: String,
    description: String,
    pub content: Vec<BookItem>,
    livereload: Option<String>,
}

impl MDBook {
    /// A book rooted at `root`, with source directory `root/src` and output directory
    /// `root/book`, no metadata and an empty outline.
    pub fn new(root: &str) -> (r: MDBook)
        ensures
            r.root()@ == root@,
            r.dest()@ == join_path(root@, seq!['b', 'o', 'o', 'k']),
            r.src()@ == join_path(root@, seq!['s', 'r', 'c']),
            r.title()@.len() == 0,
            r.author()@.len() == 0,
            r.description()@.len() == 0,
            r.outline().len() == 0,
            r.livereload() is None,
    {
        let mut dest = String::new();
        push_char(&mut dest, 'b');
        push_char(&mut dest, 'o');
        push_char(&mut dest, 'o');
        push_char(&mut dest, 'k');
        let mut src = String::new();
        push_char(&mut src, 's');
        push_char(&mut src, 'r');
        push_char(&mut src, 'c');
        let root = root.to_owned();
        let dest = join(&root, &dest);
        let src = join(&root, &src);
        MDBook {
            root,
            dest,
            src,
            title: String::new(),
            author: String::new(),
            description: String::new(),
            content: Vec::new(),
            livereload: None,
        }
    }

    pub closed spec fn root(&self) -> String {
        self.root
    }

    pub closed spec fn dest(&self) -> String {
        self.dest
    }

    pub closed spec fn src(&self) -> String {
        self.src
    }

    pub closed spec fn title(&self) -> String {
        self.title
    }

    pub closed spec fn author(&self) -> String {
        self.author
    }

    pub closed spec fn description(&self) -> String {
        self.description
    }

    /// The outline: the top-level items of the book.
    pub closed spec fn outline(&self) -> Seq<BookItem> {
        self.content@
    }

    pub closed spec fn livereload(&self) -> Option<String> {
        self.livereload
    }

    /// A depth-first traversal of the outline that yields each item with its section label.
    pub fn iter(&self) -> (r: BookItems<'_>)
        ensures
            r.wf(),
            r.remaining() == flatten(self.outline()),
    {
        BookItems::new(&self.content)
    }

    /// Reads the outline from the text of the summary document; on failure the outline is
    /// left as it was.
    pub fn parse_summary(&mut self, text: &str) -> (r: Result<(), ParseError>)
        ensures
            final(self).root() == old(self).root(),
            final(self).dest() == old(self).dest(),
            final(self).src() == old(self).src(),
            final(self).title() == old(self).title(),
            final(self).author() == old(self).author(),
            final(self).description() == old(self).description(),
            final(self).livereload() == old(self).livereload(),
            scan(lines_of(text@)).error matches Some(n) ==> (r matches Err(ParseError::Malformed { line, text: t })
                && line == n && t@ == lines_of(text@)[n - 1] && final(self).outline() == old(self).outline()),
            scan(lines_of(text@)).error is None ==> (r is Ok
                && preorder(final(self).outline(), 0) == outline_nodes(text@)
                && labels_agree(final(self).outline(), seq![], 1, true)),
    {
        match parse_summary(text) {
            Ok(items) => {
                self.content = items;
                Ok(())
            },
            Err(e) => Err(e),
        }
    }

    /// The files behind the outline's items, each with the item's name: see `backed_files`.
    /// Scaffolding creates those that are missing; testing runs the chapters' ones.
    pub fn source_files(&self, chapters_only: bool) -> (r: Vec<(String, String)>)
        ensures
            r@.len() == backed_files(flatten(self.outline()), self.src()@, chapters_only).len(),
            forall|i: int| 0 <= i < r@.len() ==> (#[trigger] r@[i]).0@
                == backed_files(flatten(self.outline()), self.src()@, chapters_only)[i].0
                && r@[i].1@ == backed_files(flatten(self.outline()), self.src()@, chapters_only)[i].1,
    {
        let pairs = collect_items(&self.content);
        let ghost all = flatten(self.content@);
        let mut r: Vec<(String, String)> = Vec::new();
        let mut k: usize = 0;
        while k < pairs.len()
            invariant
                all == flatten(self.content@),
                k <= pairs@.len() == all.len(),
                forall|i: int| 0 <= i < pairs@.len() ==> (#[trigger] pairs@[i]).0@ == all[i].0 && *pairs@[i].1 == all[i].1,
                r@.len() == backed_files(all.take(k as int), self.src@, chapters_only).len(),
                forall|i: int| 0 <= i < r@.len() ==> (#[trigger] r@[i]).0@
                    == backed_files(all.take(k as int), self.src@, chapters_only)[i].0
                    && r@[i].1@ == backed_files(all.take(k as int), self.src@, chapters_only)[i].1,
            decreases pairs@.len() - k,
        {
            let ghost before = r@;
            assert(all.take(k + 1).drop_last() =~= all.take(k as int));
            assert(all.take(k + 1).last() == all[k as int]);
            let item = pairs[k].1;
            match item {
                BookItem::Chapter(_, ch) => {
                    if !ch.path.as_str().is_empty() {
                        r.push((join(&self.src, &ch.path), ch.name.clone()));
                    }
                },
                BookItem::Affix(ch) => {
                    if !ch.path.as_str().is_empty() && !chapters_only {
                        r.push((join(&self.src, &ch.path), ch.name.clone()));
                    }
                },
                BookItem::Spacer => {},
            }
            k = k + 1;
        }
        assert(all.take(pairs@.len() as int) =~= all);
        r
    }

    /// Where the ignore file of the book's root goes.
    pub fn get_gitignore(&self) -> (r: String)
        ensures
            r@ == join_path(self.root()@, seq!['.', 'g', 'i', 't', 'i', 'g', 'n', 'o', 'r', 'e']),
    {
        let mut name = String::new();
        push_char(&mut name, '.');
        push_char(&mut name, 'g');
        push_char(&mut name, 'i');
        push_char(&mut name, 't');
        push_char(&mut name, 'i');
        push_char(&mut name, 'g');
        push_char(&mut name, 'n');
        push_char(&mut name, 'o');
        push_char(&mut name, 'r');
        push_char(&mut name, 'e');
        join(&self.root, &name)
    }

    /// The line that the ignore file gets: the output directory relative to the root, or
    /// none where the output directory lies outside the root.
    pub fn gitignore_entry(&self) -> (r: Option<String>)
        ensures
            r matches Some(x) ==> relative_to(self.dest()@, self.root()@) == Some(x@),
            r is None ==> relative_to(self.dest()@, self.root()@) is None,
    {
        relative_path(&self.dest, &self.root)
    }

    /// Replaces the outline with `items`.
    pub fn set_content(&mut self, items: Vec<BookItem>)
        ensures
            final(self).outline() == items@,
            final(self).root() == old(self).root(),
            final(self).dest() == old(self).dest(),
            final(self).src() == old(self).src(),
            final(self).title() == old(self).title(),
            final(self).author() == old(self).author(),
            final(self).description() == old(self).description(),
            final(self).livereload() == old(self).livereload(),
    {
        self.content = items;
    }

    pub fn get_root(&self) -> (r: &String)
        ensures
            *r == self.root(),
    {
        &self.root
    }

    /// Sets the output directory: `dest` itself where it is absolute, else `dest` under the root.
    pub fn set_dest(self, dest: &String) -> (r: MDBook)
        ensures
            r.dest()@ == join_path(self.root()@, dest@),
            r.root() == self.root(),
            r.src() == self.src(),
            r.title() == self.title(),
            r.author() == self.author(),
            r.description() == self.description(),
            r.outline() == self.outline(),
            r.livereload() == self.livereload(),
    {
        let joined = join(&self.root, dest);
        MDBook { dest: joined, ..self }
    }

    pub fn get_dest(&self) -> (r: &String)
        ensures
            *r == self.dest(),
    {
        &self.dest
    }

    /// Sets the source directory: `src` itself where it is absolute, else `src` under the root.
    pub fn set_src(self, src: &String) -> (r: MDBook)
        ensures
            r.src()@ == join_path(self.root()@, src@),
            r.root() == self.root(),
            r.dest() == self.dest(),
            r.title() == self.title(),
            r.author() == self.author(),
            r.description() == self.description(),
            r.outline() == self.outline(),
            r.livereload() == self.livereload(),
    {
        let joined = join(&self.root, src);
        MDBook { src: joined, ..self }
    }

    pub fn get_src(&self) -> (r: &String)
        ensures
            *r == self.src(),
    {
        &self.src
    }

    pub fn set_title(self, title: &str) -> (r: MDBook)
        ensures
            r.title()@ == title@,
            r.root() == self.root(),
            r.dest() == self.dest(),
            r.src() == self.src(),
            r.author() == self.author(),
            r.description() == self.description(),
            r.outline() == self.outline(),
            r.livereload() == self.livereload(),
    {
        MDBook { title: title.to_owned(), ..self }
    }

    pub fn get_title(&self) -> (r: &String)
        ensures
            *r == self.title(),
    {
        &self.title
    }

    pub fn set_author(self, author: &str) -> (r: MDBook)
        ensures
            r.author()@ == author@,
            r.root() == self.root(),
            r.dest() == self.dest(),
            r.src() == self.src(),
            r.title() == self.title(),
            r.description() == self.description(),
            r.outline() == self.outline(),
            r.livereload() == self.livereload(),
    {
        MDBook { author: author.to_owned(), ..self }
    }

    pub fn get_author(&self) -> (r: &String)
        ensures
            *r == self.author(),
    {
        &self.author
    }

    pub fn set_description(self, description: &str) -> (r: MDBook)
        ensures
            r.description()@ == description@,
            r.root() == self.root(),
            r.dest() == self.dest(),
            r.src() == self.src(),
            r.title() == self.title(),
            r.author() == self.author(),
            r.outline() == self.outline(),
            r.livereload() == self.livereload(),
    {
        MDBook { description: description.to_owned(), ..self }
    }

    pub fn get_description(&self) -> (r: &String)
        ensures
            *r == self.description(),
    {
        &self.description
    }

    pub fn set_livereload(&mut self, livereload: String) -> (r: &mut MDBook)
        ensures
            r.livereload() == Some(livereload),
            r.root() == old(self).root(),
            r.dest() == old(self).dest(),
            r.src() == old(self).src(),
            r.title() == old(self).title(),
            r.author() == old(self).author(),
            r.description() == old(self).description(),
            r.outline() == old(self).outline(),
            *final(self) == *final(r),
    {
        self.livereload = Some(livereload);
        self
    }

    pub fn unset_livereload(&mut self) -> (r: &MDBook)
        ensures
            *r == *final(self),
            final(self).livereload() is None,
            final(self).root() == old(self).root(),
            final(self).dest() == old(self).dest(),
            final(self).src() == old(self).src(),
            final(self).title() == old(self).title(),
            final(self).author() == old(self).author(),
            final(self).description() == old(self).description(),
            final(self).outline() == old(self).outline(),
    {
        self.livereload = None;
        self
    }

    pub fn get_livereload(&self) -> (r: Option<&String>)
        ensures
            self.livereload() matches Some(l) ==> (r matches Some(x) && *x == l),
            self.livereload() is None ==> r is None,
    {
        match &self.livereload {
            Some(l) => Some(l),
            None => None,
        }
    }
}

} // verus!

use mdbook::book::{join, relative_path, MDBook};
use mdbook::bookitem::{BookItem, Chapter};
use mdbook::summary::ParseError;

#[test]
fn new_book_defaults() {
    let book = MDBook::new("mybook");
    assert_eq!(book.get_root(), "mybook");
    assert_eq!(book.get_dest(), "mybook/book");
    assert_eq!(book.get_src(), "mybook/src");
    assert_eq!(book.gitignore_entry(), Some("book".to_string()));
    assert_eq!(book.get_title(), "");
    assert_eq!(book.get_author(), "");
    assert_eq!(book.get_description(), "");
    assert!(book.get_livereload().is_none());
    assert!(book.content.is_empty());
}

#[test]
fn relative_dirs_go_under_root() {
    let book = MDBook::new("/tmp/mybook").set_dest(&"out".to_string()).set_src(&"source".to_string());
    assert_eq!(book.get_dest(), "/tmp/mybook/out");
    assert_eq!(book.get_src(), "/tmp/mybook/source");
}

#[test]
fn absolute_dirs_replace() {
    let book = MDBook::new("/tmp/mybook").set_dest(&"/var/out".to_string());
    assert_eq!(book.get_dest(), "/var/out");
}

#[test]
fn join_paths() {
    assert_eq!(join(&"a/".to_string(), &"b".to_string()), "a/b");
    assert_eq!(join(&"a".to_string(), &"b".to_string()), "a/b");
    assert_eq!(join(&"".to_string(), &"b".to_string()), "b");
    assert_eq!(join(&"a".to_string(), &"/b".to_string()), "/b");
}

#[test]
fn metadata_setters() {
    let book = MDBook::new("r").set_title("T").set_author("A").set_description("D");
    assert_eq!(book.get_title(), "T");
    assert_eq!(book.get_author(), "A");
    assert_eq!(book.get_description(), "D");
}

#[test]
fn livereload_set_and_unset() {
    let mut book = MDBook::new("r");
    book.set_livereload("script".to_string());
    assert_eq!(book.get_livereload(), Some(&"script".to_string()));
    book.unset_livereload();
    assert_eq!(book.get_livereload(), None);
}

#[test]
fn book_parses_and_iterates() {
    let mut book = MDBook::new("r");
    assert_eq!(book.parse_summary("- [A](a.md)\n  - [B](b.md)\n"), Ok(()));
    let mut it = book.iter();
    let (l1, i1) = it.next().unwrap();
    assert_eq!(l1, "1");
    assert!(matches!(i1, BookItem::Chapter(_, _)));
    let (l2, _) = it.next().unwrap();
    assert_eq!(l2, "1.1");
    assert!(it.next().is_none());
}

#[test]
fn failed_parse_keeps_outline() {
    let mut book = MDBook::new("r");
    assert_eq!(book.parse_summary("- [A](a.md)\n"), Ok(()));
    assert_eq!(
        book.parse_summary("- [A](a.md\n"),
        Err(ParseError::Malformed { line: 1, text: "- [A](a.md".to_string() })
    );
    assert_eq!(book.content.len(), 1);
}

#[test]
fn source_files_for_scaffolding_and_testing() {
    let mut book = MDBook::new("/b").set_src(&"src".to_string());
    let text = "[Intro](intro.md)\n- [A](a.md)\n  - [Draft]()\n---\n[End](end.md)\n";
    assert_eq!(book.parse_summary(text), Ok(()));
    let all = book.source_files(false);
    assert_eq!(
        all,
        vec![
            ("/b/src/intro.md".to_string(), "Intro".to_string()),
            ("/b/src/a.md".to_string(), "A".to_string()),
            ("/b/src/end.md".to_string(), "End".to_string()),
        ]
    );
    let chapters = book.source_files(true);
    assert_eq!(chapters, vec![("/b/src/a.md".to_string(), "A".to_string())]);
}

#[test]
fn gitignore_location_and_entry() {
    let book = MDBook::new("/b").set_dest(&"book".to_string());
    assert_eq!(book.get_gitignore(), "/b/.gitignore");
    assert_eq!(book.gitignore_entry(), Some("book".to_string()));
    let outside = MDBook::new("/b").set_dest(&"/elsewhere/book".to_string());
    assert_eq!(outside.gitignore_entry(), None);
    let sibling = MDBook::new("/b").set_dest(&"/bb/book".to_string());
    assert_eq!(sibling.gitignore_entry(), None);
}

#[test]
fn relative_paths() {
    assert_eq!(relative_path(&"/a/b/c".to_string(), &"/a".to_string()), Some("b/c".to_string()));
    assert_eq!(relative_path(&"/a/b".to_string(), &"/a/".to_string()), Some("b".to_string()));
    assert_eq!(relative_path(&"/a".to_string(), &"/a".to_string()), Some(String::new()));
    assert_eq!(relative_path(&"/ab".to_string(), &"/a".to_string()), None);
    assert_eq!(relative_path(&"x/y".to_string(), &"".to_string()), Some("x/y".to_string()));
    assert_eq!(relative_path(&"/x".to_string(), &"".to_string()), Some("/x".to_string()));
}

fn numbered(name: &str, path: &str, sub_items: Vec<BookItem>) -> BookItem {
    BookItem::Chapter(String::new(), Chapter { name: name.to_string(), path: path.to_string(), sub_items })
}

fn book_labels(book: &MDBook) -> Vec<String> {
    let mut it = book.iter();
    let mut out = Vec::new();
    while let Some((label, _)) = it.next() {
        out.push(label);
    }
    out
}

#[test]
fn book_with_given_outline_numbers_it() {
    let mut book = MDBook::new("r");
    book.set_content(vec![
        numbered("A", "a.md", vec![]),
        numbered("B", "b.md", vec![numbered("B1", "b/1.md", vec![]), numbered("B2", "b/2.md", vec![])]),
        numbered("C", "c.md", vec![]),
    ]);
    assert_eq!(book_labels(&book), vec!["1", "2", "2.1", "2.2", "3"]);
    book.set_content(vec![numbered("One", "1.md", vec![]), BookItem::Spacer, numbered("Two", "2.md", vec![])]);
    assert_eq!(book_labels(&book), vec!["1", "", "2"]);
}

#[test]
fn unset_livereload_returns_the_book() {
    let mut book = MDBook::new("r").set_title("T");
    book.set_livereload("x".to_string());
    let after = book.unset_livereload();
    assert!(after.get_livereload().is_none());
    assert_eq!(after.get_title(), "T");
}

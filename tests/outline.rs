use mdbook::bookitem::{collect_items, BookItem, BookItems, Chapter};
use mdbook::summary::{classify_line, parse_summary, LineKind, ParseError};

fn chapter(name: &str, path: &str, sub_items: Vec<BookItem>) -> Chapter {
    Chapter { name: name.to_string(), path: path.to_string(), sub_items }
}

fn numbered(name: &str, path: &str, sub_items: Vec<BookItem>) -> BookItem {
    BookItem::Chapter(String::new(), chapter(name, path, sub_items))
}

fn labels(items: &Vec<BookItem>) -> Vec<String> {
    let mut it = BookItems::new(items);
    let mut out = Vec::new();
    while let Some((label, _)) = it.next() {
        out.push(label);
    }
    out
}

fn paths(items: &Vec<BookItem>) -> Vec<String> {
    let mut it = BookItems::new(items);
    let mut out = Vec::new();
    while let Some((_, item)) = it.next() {
        match item {
            BookItem::Chapter(_, ch) | BookItem::Affix(ch) => out.push(ch.path.clone()),
            BookItem::Spacer => out.push(String::new()),
        }
    }
    out
}

#[test]
fn numbering_three_chapters_with_two_sub_items() {
    let items = vec![
        numbered("One", "1.md", vec![]),
        numbered("Two", "2.md", vec![numbered("Two A", "2a.md", vec![]), numbered("Two B", "2b.md", vec![])]),
        numbered("Three", "3.md", vec![]),
    ];
    assert_eq!(labels(&items), vec!["1", "2", "2.1", "2.2", "3"]);
}

#[test]
fn numbering_past_nine_uses_several_digits() {
    let mut items = Vec::new();
    for k in 0..12 {
        items.push(numbered("c", &format!("{}.md", k), vec![]));
    }
    let got = labels(&items);
    assert_eq!(got[8], "9");
    assert_eq!(got[9], "10");
    assert_eq!(got[11], "12");
}

#[test]
fn deep_numbering() {
    let items = vec![numbered(
        "a",
        "a.md",
        vec![numbered("b", "b.md", vec![numbered("c", "c.md", vec![]), numbered("d", "d.md", vec![])])],
    )];
    assert_eq!(labels(&items), vec!["1", "1.1", "1.1.1", "1.1.2"]);
}

#[test]
fn affix_subtree_is_unlabelled() {
    let items = vec![
        BookItem::Affix(chapter("Intro", "intro.md", vec![numbered("Inner", "inner.md", vec![numbered("Deep", "deep.md", vec![])])])),
        numbered("One", "1.md", vec![]),
    ];
    assert_eq!(labels(&items), vec!["", "", "", "1"]);
}

#[test]
fn spacer_does_not_shift_numbering() {
    let items = vec![numbered("One", "1.md", vec![]), BookItem::Spacer, numbered("Two", "2.md", vec![])];
    assert_eq!(labels(&items), vec!["1", "", "2"]);
    let without = vec![numbered("One", "1.md", vec![]), numbered("Two", "2.md", vec![])];
    assert_eq!(labels(&without), vec!["1", "2"]);
}

#[test]
fn two_traversals_yield_the_same() {
    let items = vec![
        numbered("One", "1.md", vec![numbered("One A", "1a.md", vec![])]),
        BookItem::Spacer,
        BookItem::Affix(chapter("End", "end.md", vec![])),
    ];
    let a = collect_items(&items);
    let b = collect_items(&items);
    assert_eq!(a.len(), 4);
    assert_eq!(a, b);
    assert_eq!(labels(&items), labels(&items));
}

#[test]
fn empty_outline_yields_nothing() {
    let items: Vec<BookItem> = Vec::new();
    let mut it = BookItems::new(&items);
    assert!(it.next().is_none());
    assert!(it.next().is_none());
}

#[test]
fn scenario_summary_document() {
    let text = "# Summary\n- [Chapter 1](ch1.md)\n  - [Sub A](ch1/a.md)\n- [Chapter 2](ch2.md)\n---\n- [Appendix](appendix.md)\n";
    let items = parse_summary(text).unwrap();
    let expected = vec![
        BookItem::Chapter(
            "1".to_string(),
            chapter("Chapter 1", "ch1.md", vec![BookItem::Chapter("1.1".to_string(), chapter("Sub A", "ch1/a.md", vec![]))]),
        ),
        BookItem::Chapter("2".to_string(), chapter("Chapter 2", "ch2.md", vec![])),
        BookItem::Spacer,
        BookItem::Affix(chapter("Appendix", "appendix.md", vec![])),
    ];
    assert_eq!(items, expected);
    assert_eq!(labels(&items), vec!["1", "1.1", "2", "", ""]);
}

#[test]
fn traversal_follows_document_order() {
    let text = "[Intro](intro.md)\n- [A](a.md)\n    - [B](b.md)\n        - [C](c.md)\n    - [D](d.md)\n- [E](e.md)\n[Outro](outro.md)\n";
    let items = parse_summary(text).unwrap();
    assert_eq!(paths(&items), vec!["intro.md", "a.md", "b.md", "c.md", "d.md", "e.md", "outro.md"]);
    assert_eq!(labels(&items), vec!["", "1", "1.1", "1.1.1", "1.2", "2", ""]);
}

#[test]
fn parsing_twice_gives_equal_trees() {
    let text = "- [A](a.md)\n  - [B](b.md)\n---\n[C](c.md)\n";
    assert_eq!(parse_summary(text), parse_summary(text));
}

#[test]
fn item_two_levels_too_deep_is_rejected() {
    let text = "# Summary\n- [A](a.md)\n  - [B](b.md)\n      - [C](c.md)\n";
    assert_eq!(
        parse_summary(text),
        Err(ParseError::Malformed { line: 4, text: "      - [C](c.md)".to_string() })
    );
}

#[test]
fn first_item_indented_is_rejected() {
    let text = "  - [A](a.md)\n";
    assert_eq!(parse_summary(text), Err(ParseError::Malformed { line: 1, text: "  - [A](a.md)".to_string() }));
}

#[test]
fn indentation_off_the_step_is_rejected() {
    let text = "- [A](a.md)\n    - [B](b.md)\n  - [C](c.md)\n";
    assert_eq!(parse_summary(text), Err(ParseError::Malformed { line: 3, text: "  - [C](c.md)".to_string() }));
}

#[test]
fn broken_link_is_rejected() {
    let text = "- [A](a.md)\n- [B(b.md)\n";
    assert_eq!(parse_summary(text), Err(ParseError::Malformed { line: 2, text: "- [B(b.md)".to_string() }));
}

#[test]
fn plain_text_line_is_rejected() {
    let text = "- [A](a.md)\nsome words\n";
    assert_eq!(parse_summary(text), Err(ParseError::Malformed { line: 2, text: "some words".to_string() }));
}

#[test]
fn nothing_nests_under_a_spacer() {
    let text = "- [A](a.md)\n---\n  - [B](b.md)\n";
    assert_eq!(parse_summary(text), Err(ParseError::Malformed { line: 3, text: "  - [B](b.md)".to_string() }));
}

#[test]
fn blank_lines_headings_and_whitespace_are_tolerated() {
    let text = "# Title\r\n\r\n- [A](a.md)   \r\n\t- [B](b.md)\r\n\n## Part\n* [C](c.md)\n+ [D]()\n";
    let items = parse_summary(text).unwrap();
    assert_eq!(paths(&items), vec!["a.md", "b.md", "c.md", ""]);
    assert_eq!(labels(&items), vec!["1", "1.1", "2", "3"]);
}

#[test]
fn empty_document_gives_empty_tree() {
    assert_eq!(parse_summary(""), Ok(vec![]));
    assert_eq!(parse_summary("# Summary\n\n"), Ok(vec![]));
}

#[test]
fn duplicate_paths_are_kept() {
    let text = "- [A](same.md)\n- [B](same.md)\n";
    let items = parse_summary(text).unwrap();
    assert_eq!(paths(&items), vec!["same.md", "same.md"]);
}

#[test]
fn front_matter_is_affix() {
    let text = "[Preface](preface.md)\n---\n- [One](one.md)\n";
    let items = parse_summary(text).unwrap();
    assert!(matches!(items[0], BookItem::Affix(_)));
    assert!(matches!(items[1], BookItem::Spacer));
    assert_eq!(labels(&items), vec!["", "", "1"]);
}

#[test]
fn names_keep_inner_spaces() {
    let items = parse_summary("-   [Getting started here](dir/start here.md)").unwrap();
    match &items[0] {
        BookItem::Chapter(label, ch) => {
            assert_eq!(label, "1");
            assert_eq!(ch.name, "Getting started here");
            assert_eq!(ch.path, "dir/start here.md");
        }
        _ => panic!("expected a chapter"),
    }
}

#[test]
fn classify_lines() {
    let chars = |s: &str| s.chars().collect::<Vec<char>>();
    assert_eq!(classify_line(&chars("   ")).0, LineKind::Blank);
    assert_eq!(classify_line(&chars("# Summary")).0, LineKind::Heading);
    assert_eq!(classify_line(&chars(" ----- ")).0, LineKind::Rule);
    assert_eq!(classify_line(&chars("--")).0, LineKind::Broken);
    let plain = chars("[A](a.md)");
    assert_eq!(classify_line(&plain), (LineKind::Plain, 0, 9));
    let listed = chars("  -  [A](a.md) ");
    assert_eq!(classify_line(&listed), (LineKind::Listed, 5, 14));
    assert_eq!(classify_line(&chars("- [A]x(a.md)")).0, LineKind::Broken);
    assert_eq!(classify_line(&chars("-[A](a.md)")).0, LineKind::Broken);
}

#[test]
fn items_nested_under_affix_text_are_unlabelled() {
    let text = "[Preface](preface.md)\n  - [Thanks](thanks.md)\n    - [People](people.md)\n- [One](one.md)\n";
    let items = parse_summary(text).unwrap();
    assert!(matches!(items[0], BookItem::Affix(_)));
    assert_eq!(labels(&items), vec!["", "", "", "1"]);
    assert_eq!(paths(&items), vec!["preface.md", "thanks.md", "people.md", "one.md"]);
}

#[test]
fn tab_indentation_nests() {
    let text = "- [A](a.md)\n\t- [B](b.md)\n\t\t- [C](c.md)\n- [D](d.md)\n";
    let items = parse_summary(text).unwrap();
    assert_eq!(labels(&items), vec!["1", "1.1", "1.1.1", "2"]);
}

#[test]
fn nested_spacer_does_not_shift_numbering() {
    let items = vec![numbered(
        "One",
        "1.md",
        vec![numbered("A", "a.md", vec![]), BookItem::Spacer, numbered("B", "b.md", vec![])],
    )];
    assert_eq!(labels(&items), vec!["1", "1.1", "", "1.2"]);
}

use mdbook::book::bookitem::{BookItem, BookItems, Chapter};
use mdbook::parse::summary::{classify, construct_bookitems, level, LineKind, OutlineError};
use mdbook::source::SourceTree;

fn book(outline: &str) -> SourceTree {
    let mut fs = SourceTree::new();
    fs.add_document("SUMMARY.md", outline);
    fs
}

fn depth(items: &[BookItem]) -> usize {
    let mut deepest = 0;
    for item in items {
        let below = match item {
            BookItem::Chapter(_, ch) | BookItem::Affix(ch) => &ch.sub_items,
            BookItem::Spacer => continue,
        };
        if !below.is_empty() {
            deepest = deepest.max(1 + depth(below));
        }
    }
    deepest
}

fn top_level(outline: &str) -> usize {
    let mut top = 0;
    for line in outline.split('\n') {
        if classify(line) != LineKind::Ignore {
            top = top.max(level(line, 4).unwrap());
        }
    }
    top
}

#[test]
fn tree_is_as_deep_as_the_deepest_item_is_indented() {
    for outline in [
        "",
        "- [A](a.md)\n",
        "[P](p.md)\n- [A](a.md)\n    - [B](b.md)\n\t\t- [C](c.md)\n    - [D](d.md)\n---\n",
        "- [A](a.md)\n\t- [B](b.md)\n\t\t- [C](c.md)\n\t\t\t- [D](d.md)\n- [E](e.md)\n\t- [F](f.md)\n",
        "- [A](a.md)\n    # note\n    - [B](b.md)\n        # note\n# note\n",
        "- [A](a.md)\n\t# only a note below\n",
    ] {
        let items = construct_bookitems(&book(outline), "SUMMARY.md").unwrap();
        assert_eq!(depth(&items), top_level(outline), "{:?}", outline);
    }
}

#[test]
fn skipped_level_makes_the_tree_flatter_than_the_indentation() {
    let outline = "- [A](a.md)\n\t\t- [B](b.md)\n";
    let items = construct_bookitems(&book(outline), "SUMMARY.md").unwrap();
    assert_eq!(depth(&items), 1);
    assert_eq!(top_level(outline), 2);
}

#[test]
fn nested_outline_makes_the_tree_deeper_than_the_indentation() {
    let mut fs = book("- [A](a)\n");
    fs.add_directory("a");
    fs.add_document("a/SUMMARY.md", "- [B](b.md)\n\t- [C](c.md)\n");
    let items = construct_bookitems(&fs, "SUMMARY.md").unwrap();
    assert_eq!(depth(&items), 2);
}

#[test]
fn compiled_outline_keeps_separators_and_affixes_at_the_root() {
    let mut fs = book("[P](p.md)\n- [A](a)\n    - [B](b.md)\n---\n[S](s.md)\n");
    fs.add_directory("a");
    fs.add_document("a/SUMMARY.md", "- [X](x.md)\n    - [Y](y.md)\n");
    let items = construct_bookitems(&fs, "SUMMARY.md").unwrap();
    for item in &items {
        if let BookItem::Chapter(_, ch) = item {
            for below in BookItems::new(&ch.sub_items).collect() {
                assert!(matches!(below, BookItem::Chapter(_, _)));
            }
        }
        if let BookItem::Affix(ch) = item {
            assert!(ch.sub_items.is_empty());
        }
    }
    assert_eq!(BookItems::new(&items).collect().len(), 7);
}

#[test]
fn every_kind_of_error() {
    assert_eq!(
        construct_bookitems(&book("  - [A](a.md)"), "SUMMARY.md"),
        Err(OutlineError::IndentationError("  - [A](a.md)".to_string()))
    );
    assert_eq!(
        construct_bookitems(&book("- [A](a.md)\n\t[P](p.md)"), "SUMMARY.md"),
        Err(OutlineError::MalformedOutline)
    );
    assert_eq!(
        construct_bookitems(&book(""), "other.md"),
        Err(OutlineError::OutlineUnavailable("other.md".to_string()))
    );
}

#[test]
fn link_is_the_path_without_extension() {
    assert_eq!(Chapter::new("A".to_string(), "ch1/index.md".to_string()).link(), "ch1/index");
    assert_eq!(Chapter::new("A".to_string(), "a".to_string()).link(), "a");
    assert_eq!(Chapter::new("A".to_string(), String::new()).link(), "");
}

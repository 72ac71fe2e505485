use mdbook::book::bookitem::{BookItem, Chapter};
use mdbook::parse::summary::{
    classify, construct_bookitems, first_heading, level, parse_level, parse_line, read_link,
    LineKind, OutlineError,
};
use mdbook::source::SourceTree;

fn chapter(name: &str, path: &str, sub_items: Vec<BookItem>) -> BookItem {
    BookItem::Chapter(
        String::new(),
        Chapter { name: name.to_string(), path: path.to_string(), sub_items },
    )
}

fn affix(name: &str, path: &str) -> BookItem {
    BookItem::Affix(Chapter { name: name.to_string(), path: path.to_string(), sub_items: vec![] })
}

fn book(outline: &str) -> SourceTree {
    let mut fs = SourceTree::new();
    fs.add_directory("src");
    fs.add_document("src/SUMMARY.md", outline);
    fs
}

#[test]
fn level_counts_tabs_and_runs_of_four_spaces() {
    assert_eq!(level("- [a](a.md)", 4), Ok(0));
    assert_eq!(level("    - [a](a.md)", 4), Ok(1));
    assert_eq!(level("\t- [a](a.md)", 4), Ok(1));
    assert_eq!(level("\t    \t- [a](a.md)", 4), Ok(3));
    assert_eq!(level("        x", 4), Ok(2));
    assert_eq!(level("", 4), Ok(0));
    assert_eq!(level("    ", 4), Ok(1));
}

#[test]
fn level_lets_a_tab_stand_between_the_spaces_of_a_run() {
    assert_eq!(level("  \t  x", 4), Ok(2));
}

#[test]
fn level_with_another_width() {
    assert_eq!(level("    x", 2), Ok(2));
    assert_eq!(level("   x", 2), Err(OutlineError::IndentationError("   x".to_string())));
}

#[test]
fn three_spaces_are_an_indentation_error() {
    assert_eq!(
        level("   - [a](a.md)", 4),
        Err(OutlineError::IndentationError("   - [a](a.md)".to_string()))
    );
    assert_eq!(
        level("    \t   - [a](a.md)", 4),
        Err(OutlineError::IndentationError("    \t   - [a](a.md)".to_string()))
    );
    assert_eq!(level("   ", 4), Err(OutlineError::IndentationError("   ".to_string())));
}

#[test]
fn read_link_finds_name_and_path() {
    assert_eq!(
        read_link("[Intro](intro.md)"),
        Some(("Intro".to_string(), "intro.md".to_string()))
    );
    assert_eq!(
        read_link("see [A b](c/d.md) and [E](f.md)"),
        Some(("A b".to_string(), "c/d.md".to_string()))
    );
    assert_eq!(read_link("[]()"), Some((String::new(), String::new())));
    assert_eq!(read_link("[a]](b)"), Some(("a]".to_string(), "b".to_string())));
}

#[test]
fn read_link_without_a_delimiter_is_no_link() {
    assert_eq!(read_link("plain text"), None);
    assert_eq!(read_link("[name] (path)"), None);
    assert_eq!(read_link("[name](path"), None);
    assert_eq!(read_link("](path)[name"), None);
    assert_eq!(read_link(""), None);
}

#[test]
fn classify_follows_the_rules_in_order() {
    assert_eq!(classify("------"), LineKind::Spacer);
    assert_eq!(classify("  --"), LineKind::Spacer);
    assert_eq!(classify("-- [a](b)"), LineKind::Spacer);
    assert_eq!(
        classify("- [Intro](intro.md)"),
        LineKind::ChapterRef("Intro".to_string(), "intro.md".to_string())
    );
    assert_eq!(
        classify("\t* [Intro](intro.md)  "),
        LineKind::ChapterRef("Intro".to_string(), "intro.md".to_string())
    );
    assert_eq!(classify("- ch2"), LineKind::ChapterRef(String::new(), "ch2".to_string()));
    assert_eq!(classify("-"), LineKind::ChapterRef(String::new(), String::new()));
    assert_eq!(classify("# Summary"), LineKind::Ignore);
    assert_eq!(classify("#[a](b)"), LineKind::Ignore);
    assert_eq!(
        classify("[Preface](preface.md)"),
        LineKind::AffixRef("Preface".to_string(), "preface.md".to_string())
    );
    assert_eq!(classify("some prose"), LineKind::Ignore);
    assert_eq!(classify(""), LineKind::Ignore);
    assert_eq!(classify("   \t "), LineKind::Ignore);
}

#[test]
fn first_heading_is_what_follows_the_first_hash_line() {
    assert_eq!(first_heading("# Title\nbody\n"), " Title");
    assert_eq!(first_heading("intro\n## Second\n# First\n"), "# Second");
    assert_eq!(first_heading("no heading here\n"), "");
    assert_eq!(first_heading("uses C# a lot\n#Real\n"), "Real");
    assert_eq!(first_heading("#"), "");
    assert_eq!(first_heading(""), "");
}

#[test]
fn scenario_nested_outline_is_spliced_below_its_chapter() {
    let mut fs = book("- [Intro](intro.md)\n- [Ch1](ch1/)\n");
    fs.add_directory("src/ch1");
    fs.add_document("src/ch1/SUMMARY.md", "- [Sub](sub.md)");
    let items = construct_bookitems(&fs, "src/SUMMARY.md").unwrap();
    assert_eq!(
        items,
        vec![
            chapter("Intro", "intro.md", vec![]),
            chapter("Ch1", "ch1/index.md", vec![chapter("Sub", "ch1/sub.md", vec![])]),
        ]
    );
}

#[test]
fn scenario_bare_path_gets_extension_and_heading() {
    let fs = book("- ch2\n");
    assert_eq!(construct_bookitems(&fs, "src/SUMMARY.md"), Ok(vec![chapter("", "ch2.md", vec![])]));

    let mut fs = book("- ch2\n");
    fs.add_document("src/ch2.md", "# Second chapter\n\ntext\n");
    assert_eq!(
        construct_bookitems(&fs, "src/SUMMARY.md"),
        Ok(vec![chapter(" Second chapter", "ch2.md", vec![])])
    );
}

#[test]
fn scenario_separator_at_root_and_below() {
    let fs = book("------\n");
    assert_eq!(construct_bookitems(&fs, "src/SUMMARY.md"), Ok(vec![BookItem::Spacer]));

    let fs = book("\t------\n");
    assert_eq!(construct_bookitems(&fs, "src/SUMMARY.md"), Err(OutlineError::MalformedOutline));

    let fs = book("- [A](a.md)\n\t------\n");
    assert_eq!(construct_bookitems(&fs, "src/SUMMARY.md"), Err(OutlineError::MalformedOutline));
}

#[test]
fn affix_below_root_is_malformed() {
    let fs = book("- [A](a.md)\n    [Preface](p.md)\n");
    assert_eq!(construct_bookitems(&fs, "src/SUMMARY.md"), Err(OutlineError::MalformedOutline));
}

#[test]
fn indentation_after_separator_or_affix_is_malformed() {
    let fs = book("------\n    - [A](a.md)\n");
    assert_eq!(construct_bookitems(&fs, "src/SUMMARY.md"), Err(OutlineError::MalformedOutline));
    let fs = book("[Preface](p.md)\n\t- [A](a.md)\n");
    assert_eq!(construct_bookitems(&fs, "src/SUMMARY.md"), Err(OutlineError::MalformedOutline));
}

#[test]
fn indentation_with_nothing_above_is_malformed() {
    let fs = book("    - [A](a.md)\n");
    assert_eq!(construct_bookitems(&fs, "src/SUMMARY.md"), Err(OutlineError::MalformedOutline));
    let fs = book("# Summary\n\n    - [A](a.md)\n");
    assert_eq!(construct_bookitems(&fs, "src/SUMMARY.md"), Err(OutlineError::MalformedOutline));
}

#[test]
fn indentation_error_carries_the_line() {
    let fs = book("- [A](a.md)\n   - [B](b.md)\n");
    assert_eq!(
        construct_bookitems(&fs, "src/SUMMARY.md"),
        Err(OutlineError::IndentationError("   - [B](b.md)".to_string()))
    );
}

#[test]
fn missing_outline_is_unavailable() {
    let fs = SourceTree::new();
    assert_eq!(
        construct_bookitems(&fs, "src/SUMMARY.md"),
        Err(OutlineError::OutlineUnavailable("src/SUMMARY.md".to_string()))
    );
    let mut fs = SourceTree::new();
    fs.add_directory("src/SUMMARY.md");
    assert_eq!(
        construct_bookitems(&fs, "src/SUMMARY.md"),
        Err(OutlineError::OutlineUnavailable("src/SUMMARY.md".to_string()))
    );
}

#[test]
fn levels_build_the_tree() {
    let fs = book(
        "# Summary\n\n[Preface](preface.md)\n\n- [A](a.md)\n    - [A1](a1.md)\n\t\t- [A1x](a1x.md)\n    - [A2](a2.md)\n- [B](b)\n---\n[End](end.md)\n",
    );
    assert_eq!(
        construct_bookitems(&fs, "src/SUMMARY.md"),
        Ok(vec![
            affix("Preface", "preface.md"),
            chapter(
                "A",
                "a.md",
                vec![
                    chapter("A1", "a1.md", vec![chapter("A1x", "a1x.md", vec![])]),
                    chapter("A2", "a2.md", vec![]),
                ]
            ),
            chapter("B", "b.md", vec![]),
            BookItem::Spacer,
            affix("End", "end.md"),
        ])
    );
}

#[test]
fn skipped_level_goes_below_the_same_chapter() {
    let fs = book("- [A](a.md)\n\t\t- [Deep](deep.md)\n\t- [Mid](mid.md)\n");
    assert_eq!(
        construct_bookitems(&fs, "src/SUMMARY.md"),
        Ok(vec![chapter(
            "A",
            "a.md",
            vec![chapter("Deep", "deep.md", vec![]), chapter("Mid", "mid.md", vec![])]
        )])
    );
}

#[test]
fn ignored_line_does_not_end_the_chapter_above() {
    let fs = book("- [A](a.md)\nsome prose\n    - [A1](a1.md)\n");
    assert_eq!(
        construct_bookitems(&fs, "src/SUMMARY.md"),
        Ok(vec![chapter("A", "a.md", vec![chapter("A1", "a1.md", vec![])])])
    );
}

#[test]
fn directory_without_outline_is_a_leaf() {
    let mut fs = book("- [Ch1](ch1)\n");
    fs.add_directory("src/ch1");
    fs.add_document("src/ch1/index.md", "# One\n");
    assert_eq!(
        construct_bookitems(&fs, "src/SUMMARY.md"),
        Ok(vec![chapter("Ch1", "ch1/index.md", vec![])])
    );
}

#[test]
fn directory_with_broken_outline_is_a_leaf() {
    let mut fs = book("- [Ch1](ch1)\n- [Ch2](ch2)\n- [Ch3](ch3)\n");
    fs.add_directory("src/ch1");
    fs.add_document("src/ch1/SUMMARY.md", "- [A](a.md)\n  - [B](b.md)\n");
    fs.add_directory("src/ch2");
    fs.add_document("src/ch2/SUMMARY.md", "- [A](a.md)\n---\n");
    fs.add_directory("src/ch3");
    fs.add_document("src/ch3/SUMMARY.md", "[Preface](p.md)\n- [A](a.md)\n");
    assert_eq!(
        construct_bookitems(&fs, "src/SUMMARY.md"),
        Ok(vec![
            chapter("Ch1", "ch1/index.md", vec![]),
            chapter("Ch2", "ch2/index.md", vec![]),
            chapter("Ch3", "ch3/index.md", vec![]),
        ])
    );
}

#[test]
fn nested_outlines_nest() {
    let mut fs = book("- [One](one)\n    - [Extra](extra.md)\n");
    fs.add_directory("src/one");
    fs.add_document("src/one/SUMMARY.md", "- [Two](two)\n- [Leaf](leaf)\n");
    fs.add_directory("src/one/two");
    fs.add_document("src/one/two/SUMMARY.md", "- deep\n");
    fs.add_document("src/one/two/index.md", "text\n# Two's title\n");
    fs.add_document("src/one/two/deep.md", "#Deep\n");
    assert_eq!(
        construct_bookitems(&fs, "src/SUMMARY.md"),
        Ok(vec![chapter(
            "One",
            "one/index.md",
            vec![
                chapter("Two", "one/two/index.md", vec![chapter("Deep", "one/two/deep.md", vec![])]),
                chapter("Leaf", "one/leaf.md", vec![]),
                chapter("Extra", "extra.md", vec![]),
            ]
        )])
    );
}

#[test]
fn chapter_that_names_its_own_directory_has_no_pages_below() {
    let fs = book("- [Self]()\n- [Slash](/)\n");
    let mut fs = fs;
    fs.add_directory("");
    assert_eq!(
        construct_bookitems(&fs, "src/SUMMARY.md"),
        Ok(vec![chapter("Self", "index.md", vec![]), chapter("Slash", "/index.md", vec![])])
    );
}

#[test]
fn parse_line_makes_the_item_of_a_line() {
    let mut fs = SourceTree::new();
    fs.add_document("book/intro.md", "# Welcome\n");
    assert_eq!(parse_line(&fs, "book", "------"), Some(BookItem::Spacer));
    assert_eq!(parse_line(&fs, "book", "# nothing"), None);
    assert_eq!(parse_line(&fs, "book", "[P](p.md)"), Some(affix("P", "p.md")));
    assert_eq!(parse_line(&fs, "book", "* intro"), Some(chapter(" Welcome", "intro.md", vec![])));
    assert_eq!(
        parse_line(&fs, "book", "* [Named](intro)"),
        Some(chapter("Named", "intro.md", vec![]))
    );
    assert_eq!(
        parse_line(&fs, "book", "- [T](notes.txt)"),
        Some(chapter("T", "notes.md", vec![]))
    );
}

#[test]
fn parse_level_stops_at_a_lower_level() {
    let fs = SourceTree::new();
    let lines: Vec<String> =
        vec!["    - [A](a.md)".to_string(), "    - [B](b.md)".to_string(), "- [C](c.md)".to_string()];
    assert_eq!(
        parse_level(&fs, "", &lines, 0, 1, false),
        Ok((vec![chapter("A", "a.md", vec![]), chapter("B", "b.md", vec![])], 2))
    );
    assert_eq!(parse_level(&fs, "", &lines, 2, 1, false), Ok((vec![], 2)));
    assert_eq!(parse_level(&fs, "", &lines, 3, 0, false), Ok((vec![], 3)));
}

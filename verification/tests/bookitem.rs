use mdbook::book::bookitem::{prepend_all, BookItem, BookItems, Chapter};

fn page(name: &str, path: &str, sub_items: Vec<BookItem>) -> Chapter {
    Chapter { name: name.to_string(), path: path.to_string(), sub_items }
}

fn chapter(label: &str, name: &str, path: &str, sub_items: Vec<BookItem>) -> BookItem {
    BookItem::Chapter(label.to_string(), page(name, path, sub_items))
}

fn names(items: &[&BookItem]) -> Vec<String> {
    let mut out = Vec::new();
    for item in items {
        match item {
            BookItem::Chapter(_, ch) => out.push(ch.name.clone()),
            BookItem::Affix(ch) => out.push(format!("({})", ch.name)),
            BookItem::Spacer => out.push("--".to_string()),
        }
    }
    out
}

fn sample() -> Vec<BookItem> {
    vec![
        BookItem::Affix(page("Preface", "preface.md", vec![])),
        chapter(
            "1.",
            "A",
            "a.md",
            vec![
                chapter("1.1.", "A1", "a1.md", vec![chapter("1.1.1.", "A1x", "a1x.md", vec![])]),
                chapter("1.2.", "A2", "a2.md", vec![]),
            ],
        ),
        BookItem::Spacer,
        chapter("2.", "B", "b.md", vec![chapter("2.1.", "B1", "b1.md", vec![])]),
    ]
}

#[test]
fn new_chapter_has_no_pages_below() {
    let ch = Chapter::new("Intro".to_string(), "intro.md".to_string());
    assert_eq!(ch, page("Intro", "intro.md", vec![]));
}

#[test]
fn clone_copies_the_whole_tree() {
    let items = sample();
    let copy: Vec<BookItem> = items.iter().map(|i| i.clone()).collect();
    assert_eq!(copy, items);
}

#[test]
fn prepend_moves_chapter_and_pages_below() {
    let mut item = chapter(
        "1.",
        "Sub",
        "sub.md",
        vec![chapter("1.1.", "Deep", "deep/x.md", vec![]), BookItem::Spacer],
    );
    item.prepend("3.".to_string(), &page("Ch1", "ch1", vec![]));
    assert_eq!(
        item,
        chapter(
            "3.1.",
            "Sub",
            "ch1/sub.md",
            vec![chapter("3.1.1.", "Deep", "ch1/deep/x.md", vec![]), BookItem::Spacer],
        )
    );
}

#[test]
fn prepend_declared_path_lands_below_the_parent_directory() {
    let mut item = chapter("", "A", "a.md", vec![]);
    item.prepend(String::new(), &page("Parent", "parent-dir", vec![]));
    assert_eq!(item, chapter("", "A", "parent-dir/a.md", vec![]));

    let mut item = chapter("", "A", "a.md", vec![]);
    item.prepend(String::new(), &page("Parent", "parent-dir/", vec![]));
    assert_eq!(item, chapter("", "A", "parent-dir/a.md", vec![]));
}

#[test]
fn prepend_rewrites_affix_path_and_leaves_spacer() {
    let mut item = BookItem::Affix(page("P", "p.md", vec![]));
    item.prepend("1.".to_string(), &page("Ch1", "ch1", vec![]));
    assert_eq!(item, BookItem::Affix(page("P", "ch1/p.md", vec![])));

    let mut item = BookItem::Spacer;
    item.prepend("1.".to_string(), &page("Ch1", "ch1", vec![]));
    assert_eq!(item, BookItem::Spacer);
}

#[test]
fn prepend_all_moves_every_item() {
    let mut items = vec![chapter("", "A", "a.md", vec![]), chapter("", "B", "b/", vec![])];
    prepend_all(&mut items, &"x".to_string(), &page("D", "d", vec![]));
    assert_eq!(items, vec![chapter("x", "A", "d/a.md", vec![]), chapter("x", "B", "d/b/", vec![])]);
}

#[test]
fn walk_yields_reading_order() {
    let items = sample();
    let mut walk = BookItems::new(&items);
    let mut seen: Vec<&BookItem> = Vec::new();
    while let Some(item) = walk.next() {
        seen.push(item);
    }
    assert_eq!(names(&seen), vec!["(Preface)", "A", "A1", "A1x", "A2", "--", "B", "B1"]);
    assert!(walk.next().is_none());
    assert!(walk.next().is_none());
}

#[test]
fn walk_visits_every_item_once() {
    let items = sample();
    let all = BookItems::new(&items).collect();
    assert_eq!(all.len(), 8);
    assert!(std::ptr::eq(all[0], &items[0]));
    assert!(std::ptr::eq(all[1], &items[1]));
    assert!(std::ptr::eq(all[5], &items[2]));
    assert!(std::ptr::eq(all[6], &items[3]));
}

#[test]
fn walk_over_nothing_is_empty() {
    let items: Vec<BookItem> = vec![];
    assert!(BookItems::new(&items).next().is_none());
    assert!(BookItems::new(&items).collect().is_empty());
}

#[test]
fn walk_can_be_resumed_from_its_fields() {
    let items = sample();
    let walk = BookItems { items: &items, current_index: 2, stack: vec![] };
    assert_eq!(names(&walk.collect()), vec!["--", "B", "B1"]);
    let walk = BookItems { items: &items, current_index: 9, stack: vec![(&items[..], usize::MAX)] };
    assert!(walk.collect().is_empty());
    let walk = BookItems { items: &[], current_index: 0, stack: vec![(&items[..], 2)] };
    assert_eq!(names(&walk.collect()), vec!["B", "B1"]);
}

#[test]
fn walk_goes_below_an_affix_that_has_pages() {
    let items =
        vec![BookItem::Affix(page("P", "p.md", vec![chapter("", "Inner", "i.md", vec![])]))];
    assert_eq!(names(&BookItems::new(&items).collect()), vec!["(P)", "Inner"]);
}

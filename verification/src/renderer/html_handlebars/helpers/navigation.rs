//! The links to the page before and to the page after the one that is
//! shown.

use crate::book::bookitem::{item_view, item_views, lemma_item_views, BookItem, ChapterView, ItemView};
use crate::path::{with_ext, with_extension};
use vstd::prelude::*;

verus! {

/// The page of `item`, where `item` is a page with a path.
pub open spec fn page_of(item: ItemView) -> Option<ChapterView> {
    match item {
        ItemView::Chapter(_, ch) => if ch.path.len() > 0 {
            Some(ch)
        } else {
            None
        },
        ItemView::Affix(ch) => if ch.path.len() > 0 {
            Some(ch)
        } else {
            None
        },
        ItemView::Spacer => None,
    }
}

/// The title of the page `ch` and the link to it: its path without the
/// extension.
pub open spec fn link_to(ch: ChapterView) -> (Seq<char>, Seq<char>) {
    (ch.name, with_ext(ch.path, ""@))
}

/// The title and link of the page before the first page of `items`, from
/// index `from` on, whose path is `current`, where `last` is the page before
/// `from`. There is none where no page from `from` on has the path
/// `current`, and none where no page stands before the one that has it.
pub open spec fn previous_from(
    items: Seq<ItemView>,
    current: Seq<char>,
    from: int,
    last: Option<ChapterView>,
) -> Option<(Seq<char>, Seq<char>)>
    decreases items.len() - from,
{
    if !(0 <= from < items.len()) {
        None
    } else {
        match page_of(items[from]) {
            Some(ch) => if ch.path == current {
                match last {
                    Some(prev) => Some(link_to(prev)),
                    None => None,
                }
            } else {
                previous_from(items, current, from + 1, Some(ch))
            },
            None => previous_from(items, current, from + 1, last),
        }
    }
}

/// The title and link of the page that stands in `items` before the first
/// page with the path `current`.
pub open spec fn previous_of(items: Seq<ItemView>, current: Seq<char>) -> Option<
    (Seq<char>, Seq<char>),
> {
    previous_from(items, current, 0, None)
}

/// The title and link of the page that stands in `items` after the last
/// page with the path `current`.
pub open spec fn next_of(items: Seq<ItemView>, current: Seq<char>) -> Option<
    (Seq<char>, Seq<char>),
> {
    previous_from(items.reverse(), current, 0, None)
}

/// The page of `item`, where `item` is a page with a path.
fn page<'a>(item: &'a BookItem) -> (r: Option<&'a crate::book::bookitem::Chapter>)
    ensures
        match r {
            Some(ch) => page_of(item@) == Some(ch@),
            None => page_of(item@) is None,
        },
{
    proof {
        reveal_strlit("");
    }
    match item {
        BookItem::Chapter(_, ch) => if ch.path.as_str().is_empty() {
            None
        } else {
            Some(ch)
        },
        BookItem::Affix(ch) => if ch.path.as_str().is_empty() {
            None
        } else {
            Some(ch)
        },
        BookItem::Spacer => None,
    }
}

/// The title and link of `found`, if there is one.
fn link(found: Option<&crate::book::bookitem::Chapter>) -> (r: Option<(String, String)>)
    ensures
        match r {
            Some((title, link)) => found matches Some(ch) && (title@, link@) == link_to(ch@),
            None => found is None,
        },
{
    match found {
        Some(ch) => Some((ch.name.clone(), with_extension(ch.path.as_str(), ""))),
        None => None,
    }
}

/// The title and link of the page before the one that is shown: the page
/// that stands in `items` before the first page with the path `current`.
pub fn previous(items: &[BookItem], current: &str) -> (r: Option<(String, String)>)
    ensures
        match r {
            Some((title, link)) => previous_of(item_views(items@), current@) == Some(
                (title@, link@),
            ),
            None => previous_of(item_views(items@), current@) is None,
        },
{
    let shown = current.to_owned();
    let n = items.len();
    let mut last: Option<&crate::book::bookitem::Chapter> = None;
    let mut i: usize = 0;
    proof {
        lemma_item_views(items@);
    }
    while i < n
        invariant
            i <= n,
            n == items@.len(),
            shown@ == current@,
            item_views(items@).len() == n,
            forall|k: int| 0 <= k < n ==> #[trigger] item_views(items@)[k] == item_view(items@[k]),
            previous_of(item_views(items@), current@) == previous_from(
                item_views(items@),
                current@,
                i as int,
                match last {
                    Some(ch) => Some(ch@),
                    None => None,
                },
            ),
        decreases n - i,
    {
        match page(&items[i]) {
            Some(ch) => {
                if ch.path == shown {
                    return link(last);
                }
                last = Some(ch);
            },
            None => {
            },
        }
        i += 1;
    }
    None
}

/// The title and link of the page after the one that is shown: the page
/// that stands in `items` after the last page with the path `current`.
pub fn next(items: &[BookItem], current: &str) -> (r: Option<(String, String)>)
    ensures
        match r {
            Some((title, link)) => next_of(item_views(items@), current@) == Some((title@, link@)),
            None => next_of(item_views(items@), current@) is None,
        },
{
    let shown = current.to_owned();
    let n = items.len();
    let mut last: Option<&crate::book::bookitem::Chapter> = None;
    let mut i: usize = 0;
    let ghost back = item_views(items@).reverse();
    proof {
        lemma_item_views(items@);
    }
    while i < n
        invariant
            i <= n,
            n == items@.len(),
            shown@ == current@,
            back == item_views(items@).reverse(),
            back.len() == n,
            forall|k: int| 0 <= k < n ==> #[trigger] back[k] == item_view(items@[n - 1 - k]),
            next_of(item_views(items@), current@) == previous_from(
                back,
                current@,
                i as int,
                match last {
                    Some(ch) => Some(ch@),
                    None => None,
                },
            ),
        decreases n - i,
    {
        match page(&items[n - 1 - i]) {
            Some(ch) => {
                if ch.path == shown {
                    return link(last);
                }
                last = Some(ch);
            },
            None => {
            },
        }
        i += 1;
    }
    None
}

} // verus!

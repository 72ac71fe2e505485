//! The table of contents as a nested list.

use crate::book::bookitem::{item_view, item_views, lemma_item_views, BookItem, Chapter, ItemView};
use crate::path::{with_ext, with_extension};
use vstd::prelude::*;
use vstd::string::StringExecFns;

verus! {

/// Renders the table of contents.
#[derive(Clone, Copy)]
pub struct RenderToc;

/// The anchor of a page in the table of contents: the link to its HTML
/// page, marked as active where `path` is the page that is shown, around
/// its name.
pub open spec fn anchor_of(name: Seq<char>, path: Seq<char>, current: Seq<char>) -> Seq<char> {
    "<a href=\""@ + with_ext(path, "html"@) + "\""@ + (if path == current {
        " class=\"active\""@
    } else {
        Seq::empty()
    }) + ">"@ + name + "</a>"@
}

/// The list entry of `item`: an empty entry for a separator, the anchor of
/// a page outside the chapters, and for a chapter its anchor followed by the
/// list of the pages below it, where it has any.
pub open spec fn entry_of(item: ItemView, current: Seq<char>) -> Seq<char>
    decreases item,
{
    match item {
        ItemView::Spacer => "<li class=\"spacer\"></li>"@,
        ItemView::Affix(ch) => "<li class=\"affix\">"@ + anchor_of(ch.name, ch.path, current)
            + "</li>"@,
        ItemView::Chapter(_, ch) => "<li class=\"item\">"@ + anchor_of(ch.name, ch.path, current)
            + (if ch.sub_items.len() > 0 {
            "<ol class=\"section\">"@ + entries_of(ch.sub_items, current) + "</ol>"@
        } else {
            Seq::empty()
        }) + "</li>"@,
    }
}

/// The list entries of `items`, one after the other.
pub open spec fn entries_of(items: Seq<ItemView>, current: Seq<char>) -> Seq<char>
    decreases items,
{
    if items.len() == 0 {
        Seq::empty()
    } else {
        entries_of(items.drop_last(), current) + entry_of(items.last(), current)
    }
}

/// The table of contents of `items`: their list entries in an ordered list.
pub open spec fn toc_of(items: Seq<ItemView>, current: Seq<char>) -> Seq<char> {
    "<ol class=\"chapter\">"@ + entries_of(items, current) + "</ol>"@
}

/// Appends the anchor of the page `ch` to `out`.
fn anchor(ch: &Chapter, current: &String, out: &mut String)
    ensures
        final(out)@ == old(out)@ + anchor_of(ch.name@, ch.path@, current@),
{
    let ghost before = out@;
    out.append("<a href=\"");
    out.append(with_extension(ch.path.as_str(), "html").as_str());
    out.append("\"");
    if ch.path == *current {
        out.append(" class=\"active\"");
    } else {
        assert(out@ + Seq::<char>::empty() =~= out@);
    }
    out.append(">");
    out.append(ch.name.as_str());
    out.append("</a>");
    assert(out@ =~= before + anchor_of(ch.name@, ch.path@, current@));
}

/// Appends the list entries of `items` to `out`.
fn items_to_li(items: &Vec<BookItem>, current: &String, out: &mut String)
    ensures
        final(out)@ == old(out)@ + entries_of(item_views(items@), current@),
    decreases *items, 0int,
{
    let ghost before = out@;
    let n = items.len();
    let mut i: usize = 0;
    proof {
        assert(items@.take(0) =~= Seq::<BookItem>::empty());
        assert(before + Seq::<char>::empty() =~= before);
    }
    while i < n
        invariant
            i <= n,
            n == items@.len(),
            out@ == before + entries_of(item_views(items@.take(i as int)), current@),
        decreases n - i,
    {
        let ghost so_far = out@;
        item_to_li(&items[i], current, out);
        proof {
            let head = items@.take(i as int);
            crate::book::bookitem::lemma_item_views_push(head, items@[i as int]);
            assert(items@.take(i + 1) =~= head.push(items@[i as int]));
            assert(item_views(head).push(item_view(items@[i as int])).drop_last() =~= item_views(
                head,
            ));
            assert(out@ =~= before + entries_of(item_views(items@.take(i + 1)), current@));
        }
        i += 1;
    }
    assert(items@.take(n as int) =~= items@);
}

/// Appends the list entry of `item` to `out`.
fn item_to_li(item: &BookItem, current: &String, out: &mut String)
    ensures
        final(out)@ == old(out)@ + entry_of(item@, current@),
    decreases *item, 1int,
{
    let ghost before = out@;
    match item {
        BookItem::Spacer => {
            out.append("<li class=\"spacer\"></li>");
        },
        BookItem::Affix(ch) => {
            out.append("<li class=\"affix\">");
            anchor(ch, current, out);
            out.append("</li>");
            assert(out@ =~= before + entry_of(item@, current@));
        },
        BookItem::Chapter(_, ch) => {
            out.append("<li class=\"item\">");
            anchor(ch, current, out);
            proof {
                lemma_item_views(ch.sub_items@);
            }
            if ch.sub_items.len() > 0 {
                out.append("<ol class=\"section\">");
                items_to_li(&ch.sub_items, current, out);
                out.append("</ol>");
            } else {
                assert(out@ + Seq::<char>::empty() =~= out@);
            }
            out.append("</li>");
            assert(out@ =~= before + entry_of(item@, current@));
        },
    }
}

impl RenderToc {
    /// The table of contents of `items` as HTML, the page with the path
    /// `current` marked as the one that is shown.
    pub fn call(&self, items: &Vec<BookItem>, current: &str) -> (out: String)
        ensures
            out@ == toc_of(item_views(items@), current@),
    {
        let shown = current.to_owned();
        let mut out = String::new();
        out.append("<ol class=\"chapter\">");
        items_to_li(items, &shown, &mut out);
        out.append("</ol>");
        assert(out@ =~= toc_of(item_views(items@), current@));
        out
    }
}

} // verus!

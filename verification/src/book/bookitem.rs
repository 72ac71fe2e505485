//! The items of a book, the tree they form, and its traversal in reading
//! order.

use crate::path::{join, joined, with_ext, with_extension};
use vstd::prelude::*;
use vstd::string::StringExecFns;

verus! {

/// One entry of a book.
#[derive(Debug, PartialEq, Eq)]
pub enum BookItem {
    /// A page of the book with its section label, which may be empty.
    Chapter(String, Chapter),
    /// A page before or after the numbered chapters.
    Affix(Chapter),
    /// A separator between groups of entries.
    Spacer,
}

/// A page: its title, where its text lies, and the pages below it.
#[derive(Debug, PartialEq, Eq)]
pub struct Chapter {
    pub name: String,
    pub path: String,
    pub sub_items: Vec<BookItem>,
}

/// What a `Chapter` stands for.
pub struct ChapterView {
    pub name: Seq<char>,
    pub path: Seq<char>,
    pub sub_items: Seq<ItemView>,
}

/// What a `BookItem` stands for.
pub enum ItemView {
    Chapter(Seq<char>, ChapterView),
    Affix(ChapterView),
    Spacer,
}

/// What `ch` stands for.
pub open spec fn chapter_view(ch: Chapter) -> ChapterView
    decreases ch,
{
    ChapterView { name: ch.name@, path: ch.path@, sub_items: item_views(ch.sub_items@) }
}

/// What `item` stands for.
pub open spec fn item_view(item: BookItem) -> ItemView
    decreases item,
{
    match item {
        BookItem::Chapter(label, ch) => ItemView::Chapter(label@, chapter_view(ch)),
        BookItem::Affix(ch) => ItemView::Affix(chapter_view(ch)),
        BookItem::Spacer => ItemView::Spacer,
    }
}

/// What the items of `items` stand for, in order.
pub open spec fn item_views(items: Seq<BookItem>) -> Seq<ItemView>
    decreases items,
{
    if items.len() == 0 {
        Seq::empty()
    } else {
        item_views(items.drop_last()).push(item_view(items.last()))
    }
}

impl View for Chapter {
    type V = ChapterView;

    open spec fn view(&self) -> ChapterView {
        chapter_view(*self)
    }
}

impl View for BookItem {
    type V = ItemView;

    open spec fn view(&self) -> ItemView {
        item_view(*self)
    }
}

/// `item_views` keeps the length and maps item by item.
pub proof fn lemma_item_views(items: Seq<BookItem>)
    ensures
        item_views(items).len() == items.len(),
        forall|i: int| 0 <= i < items.len() ==> #[trigger] item_views(items)[i] == item_view(items[i]),
    decreases items.len(),
{
    if items.len() > 0 {
        lemma_item_views(items.drop_last());
    }
}

/// The views of a sequence with one more item at its end.
pub proof fn lemma_item_views_push(items: Seq<BookItem>, item: BookItem)
    ensures
        item_views(items.push(item)) == item_views(items).push(item_view(item)),
{
    assert(items.push(item).drop_last() =~= items);
}

/// The views of two runs of items, one after the other.
pub proof fn lemma_item_views_concat(a: Seq<BookItem>, b: Seq<BookItem>)
    ensures
        item_views(a + b) == item_views(a) + item_views(b),
{
    lemma_item_views(a);
    lemma_item_views(b);
    lemma_item_views(a + b);
    assert(item_views(a + b) =~= item_views(a) + item_views(b));
}

impl Chapter {
    /// A page without pages below it.
    pub fn new(name: String, path: String) -> (ch: Chapter)
        ensures
            ch@ == (ChapterView { name: name@, path: path@, sub_items: Seq::empty() }),
            ch.name == name,
            ch.path == path,
            ch.sub_items@.len() == 0,
    {
        Chapter { name: name, path: path, sub_items: vec![] }
    }

    /// The link to the page: its path without the extension.
    pub fn link(&self) -> (link: String)
        ensures
            link@ == with_ext(self.path@, ""@),
    {
        with_extension(self.path.as_str(), "")
    }
}

impl Clone for Chapter {
    /// A copy that stands for the same page.
    fn clone(&self) -> (out: Chapter)
        ensures
            out@ == self@,
        decreases *self,
    {
        let mut sub_items: Vec<BookItem> = Vec::new();
        let mut i: usize = 0;
        while i < self.sub_items.len()
            invariant
                i <= self.sub_items@.len(),
                item_views(sub_items@) == item_views(self.sub_items@.take(i as int)),
            decreases self.sub_items@.len() - i,
        {
            let item = self.sub_items[i].clone();
            proof {
                lemma_item_views_push(sub_items@, item);
                lemma_item_views_push(self.sub_items@.take(i as int), self.sub_items@[i as int]);
                assert(self.sub_items@.take(i + 1) =~= self.sub_items@.take(i as int).push(
                    self.sub_items@[i as int],
                ));
            }
            sub_items.push(item);
            i += 1;
        }
        assert(self.sub_items@.take(i as int) =~= self.sub_items@);
        Chapter { name: self.name.clone(), path: self.path.clone(), sub_items }
    }
}

impl Clone for BookItem {
    /// A copy that stands for the same item.
    fn clone(&self) -> (out: BookItem)
        ensures
            out@ == self@,
        decreases *self,
    {
        match self {
            BookItem::Chapter(label, ch) => BookItem::Chapter(label.clone(), ch.clone()),
            BookItem::Affix(ch) => BookItem::Affix(ch.clone()),
            BookItem::Spacer => BookItem::Spacer,
        }
    }
}

/// `item` moved below the directory `dir` and the section `section`: the
/// path of every page in it is joined to `dir`, the label of every chapter
/// follows `section`.
pub open spec fn prefixed(item: ItemView, section: Seq<char>, dir: Seq<char>) -> ItemView
    decreases item,
{
    match item {
        ItemView::Chapter(label, ch) => ItemView::Chapter(
            section + label,
            ChapterView {
                name: ch.name,
                path: joined(dir, ch.path),
                sub_items: prefixed_all(ch.sub_items, section, dir),
            },
        ),
        ItemView::Affix(ch) => ItemView::Affix(
            ChapterView {
                name: ch.name,
                path: joined(dir, ch.path),
                sub_items: prefixed_all(ch.sub_items, section, dir),
            },
        ),
        ItemView::Spacer => ItemView::Spacer,
    }
}

/// Every item of `items` moved below `dir` and `section`.
pub open spec fn prefixed_all(items: Seq<ItemView>, section: Seq<char>, dir: Seq<char>) -> Seq<
    ItemView,
>
    decreases items,
{
    if items.len() == 0 {
        Seq::empty()
    } else {
        prefixed_all(items.drop_last(), section, dir).push(prefixed(items.last(), section, dir))
    }
}

/// `prefixed_all` keeps the length and maps item by item.
pub proof fn lemma_prefixed_all(items: Seq<ItemView>, section: Seq<char>, dir: Seq<char>)
    ensures
        prefixed_all(items, section, dir).len() == items.len(),
        forall|i: int|
            0 <= i < items.len() ==> #[trigger] prefixed_all(items, section, dir)[i] == prefixed(
                items[i],
                section,
                dir,
            ),
    decreases items.len(),
{
    if items.len() > 0 {
        lemma_prefixed_all(items.drop_last(), section, dir);
    }
}

/// Whether `item` is a chapter with nothing but chapters below it.
pub open spec fn chapter_tree(item: ItemView) -> bool
    decreases item,
{
    match item {
        ItemView::Chapter(_, ch) => chapters_only(ch.sub_items),
        _ => false,
    }
}

/// Whether every item of `items`, and every item below them, is a chapter.
pub open spec fn chapters_only(items: Seq<ItemView>) -> bool
    decreases items,
{
    forall|i: int| 0 <= i < items.len() ==> chapter_tree(#[trigger] items[i])
}

/// Whether `items` are the items of a book: separators and pages outside
/// the chapters stand among them only, not below any of them, and such a
/// page has no pages below it.
pub open spec fn well_formed(items: Seq<ItemView>) -> bool {
    forall|i: int|
        0 <= i < items.len() ==> match #[trigger] items[i] {
            ItemView::Chapter(_, ch) => chapters_only(ch.sub_items),
            ItemView::Affix(ch) => ch.sub_items.len() == 0,
            ItemView::Spacer => true,
        }
}

/// How many levels of pages lie below `item`.
pub open spec fn height_of(item: ItemView) -> nat
    decreases item,
{
    match item {
        ItemView::Chapter(_, ch) => if ch.sub_items.len() == 0 {
            0
        } else {
            1 + height(ch.sub_items)
        },
        ItemView::Affix(ch) => if ch.sub_items.len() == 0 {
            0
        } else {
            1 + height(ch.sub_items)
        },
        ItemView::Spacer => 0,
    }
}

/// The depth of the deepest item of the trees `items`, their roots standing
/// at the depth 0.
pub open spec fn height(items: Seq<ItemView>) -> nat
    decreases items,
{
    if items.len() == 0 {
        0
    } else if height(items.drop_last()) >= height_of(items.last()) {
        height(items.drop_last())
    } else {
        height_of(items.last())
    }
}

/// The deepest item of two runs of trees is the deeper of their deepest.
pub proof fn lemma_height_concat(a: Seq<ItemView>, b: Seq<ItemView>)
    ensures
        height(a + b) == if height(a) >= height(b) {
            height(a)
        } else {
            height(b)
        },
    decreases b.len(),
{
    if b.len() == 0 {
        assert(a + b =~= a);
    } else {
        lemma_height_concat(a, b.drop_last());
        assert((a + b).drop_last() =~= a + b.drop_last());
        assert((a + b).last() == b.last());
    }
}

/// Chapters stay chapters when they are moved below a page.
pub proof fn lemma_prefixed_keeps_chapters(items: Seq<ItemView>, section: Seq<char>, dir: Seq<char>)
    requires
        chapters_only(items),
    ensures
        chapters_only(prefixed_all(items, section, dir)),
    decreases items,
{
    lemma_prefixed_all(items, section, dir);
    assert forall|i: int| 0 <= i < items.len() implies chapter_tree(
        #[trigger] prefixed_all(items, section, dir)[i],
    ) by {
        assert(chapter_tree(items[i]));
        match items[i] {
            ItemView::Chapter(_, ch) => {
                lemma_prefixed_keeps_chapters(ch.sub_items, section, dir);
            },
            _ => {
            },
        }
    }
}

/// A chapter that is moved below a page keeps its name; its path is joined
/// to the path of the page, whatever directory the chapter was read from,
/// and its label follows the section.
pub proof fn lemma_prefixed_chapter(item: ItemView, section: Seq<char>, dir: Seq<char>)
    ensures
        item matches ItemView::Chapter(label, ch) ==> (prefixed(item, section, dir)
            matches ItemView::Chapter(moved_label, moved) && moved_label == section + label
            && moved.name == ch.name && moved.path == joined(dir, ch.path) && moved.sub_items
            == prefixed_all(ch.sub_items, section, dir)),
        item matches ItemView::Affix(ch) ==> (prefixed(item, section, dir) matches ItemView::Affix(
            moved,
        ) && moved.name == ch.name && moved.path == joined(dir, ch.path)),
        item is Spacer ==> prefixed(item, section, dir) is Spacer,
{
}

/// Moves every item of `items` below the page `pre`, as `BookItem::prepend`
/// does with one.
pub fn prepend_all(items: &mut Vec<BookItem>, section: &String, pre: &Chapter)
    ensures
        item_views(final(items)@) == prefixed_all(item_views(old(items)@), section@, pre.path@),
        final(items)@.len() == old(items)@.len(),
    decreases *old(items), 0int,
{
    let ghost before = items@;
    let n = items.len();
    let mut i: usize = 0;
    while i < n
        invariant
            i <= n,
            n == before.len(),
            items@.len() == n,
            before == old(items)@,
            forall|j: int| i <= j < n ==> items@[j] == before[j],
            forall|j: int|
                0 <= j < i ==> item_view(#[trigger] items@[j]) == prefixed(
                    item_view(before[j]),
                    section@,
                    pre.path@,
                ),
        decreases n - i,
    {
        items[i].prepend(section.clone(), pre);
        i += 1;
    }
    proof {
        lemma_item_views(before);
        lemma_item_views(items@);
        lemma_prefixed_all(item_views(before), section@, pre.path@);
        assert(item_views(items@) =~= prefixed_all(item_views(before), section@, pre.path@));
    }
}

impl Chapter {
    /// Moves the page and the pages below it under the page `pre`.
    fn rebase(&mut self, section: &String, pre: &Chapter)
        ensures
            final(self)@ == (ChapterView {
                name: old(self)@.name,
                path: joined(pre.path@, old(self)@.path),
                sub_items: prefixed_all(old(self)@.sub_items, section@, pre.path@),
            }),
        decreases *old(self), 1int,
    {
        self.path = join(pre.path.as_str(), self.path.as_str());
        prepend_all(&mut self.sub_items, section, pre);
    }
}

impl BookItem {
    /// Moves the item below the page `pre`: joins the path of every page in
    /// it to the path of `pre` and puts `section` before every label.
    pub fn prepend(&mut self, section: String, pre: &Chapter)
        ensures
            final(self)@ == prefixed(old(self)@, section@, pre.path@),
        decreases *old(self), 2int,
    {
        match self {
            BookItem::Chapter(idx, ch) => {
                let mut label = section.clone();
                label.append(idx.as_str());
                *idx = label;
                ch.rebase(&section, pre);
            },
            BookItem::Affix(ch) => {
                ch.rebase(&section, pre);
            },
            BookItem::Spacer => {
            },
        }
    }
}

/// The items directly below `item`.
pub open spec fn sub_items_of(item: BookItem) -> Seq<BookItem> {
    match item {
        BookItem::Chapter(_, ch) => ch.sub_items@,
        BookItem::Affix(ch) => ch.sub_items@,
        BookItem::Spacer => Seq::empty(),
    }
}

/// `item` followed by everything below it, in reading order.
pub open spec fn preorder_of(item: BookItem) -> Seq<BookItem>
    decreases item,
{
    match item {
        BookItem::Chapter(_, ch) => seq![item] + preorder(ch.sub_items@),
        BookItem::Affix(ch) => seq![item] + preorder(ch.sub_items@),
        BookItem::Spacer => seq![item],
    }
}

/// The items of the trees `items` in reading order: each item, then what
/// lies below it, then the item after it.
pub open spec fn preorder(items: Seq<BookItem>) -> Seq<BookItem>
    decreases items,
{
    if items.len() == 0 {
        Seq::empty()
    } else {
        preorder_of(items[0]) + preorder(items.drop_first())
    }
}

/// How many items the tree below and with `item` holds.
pub open spec fn count_of(item: BookItem) -> nat
    decreases item,
{
    match item {
        BookItem::Chapter(_, ch) => 1 + count(ch.sub_items@),
        BookItem::Affix(ch) => 1 + count(ch.sub_items@),
        BookItem::Spacer => 1,
    }
}

/// How many items the trees `items` hold.
pub open spec fn count(items: Seq<BookItem>) -> nat
    decreases items,
{
    if items.len() == 0 {
        0
    } else {
        count(items.drop_last()) + count_of(items.last())
    }
}

/// `items` from index `from` on; nothing where `from` is no position of
/// `items`.
pub open spec fn tail(items: Seq<BookItem>, from: int) -> Seq<BookItem> {
    if 0 <= from <= items.len() {
        items.subrange(from, items.len() as int)
    } else {
        Seq::empty()
    }
}

/// What is still to come from the saved positions `stack`, the last of them
/// first: for each, what follows the item at which it was left.
pub open spec fn pending(stack: Seq<(&[BookItem], usize)>) -> Seq<BookItem>
    decreases stack.len(),
{
    if stack.len() == 0 {
        Seq::empty()
    } else {
        preorder(tail(stack.last().0@, stack.last().1 + 1)) + pending(stack.drop_last())
    }
}

/// Reading order starts with the first tree: its root, then what lies below
/// the root, then the other trees.
pub proof fn lemma_preorder_unfold(items: Seq<BookItem>)
    requires
        items.len() > 0,
    ensures
        preorder(items) == seq![items[0]] + preorder(sub_items_of(items[0])) + preorder(
            items.drop_first(),
        ),
{
    let item = items[0];
    assert(preorder(items) == preorder_of(item) + preorder(items.drop_first()));
    match item {
        BookItem::Chapter(_, ch) => {
            assert(preorder_of(item) == seq![item] + preorder(ch.sub_items@));
        },
        BookItem::Affix(ch) => {
            assert(preorder_of(item) == seq![item] + preorder(ch.sub_items@));
        },
        BookItem::Spacer => {
            assert(preorder_of(item) == seq![item]);
            assert(preorder(Seq::<BookItem>::empty()) =~= Seq::<BookItem>::empty());
            assert(seq![item] + Seq::<BookItem>::empty() =~= seq![item]);
        },
    }
}

/// Reading order of two runs of trees, one after the other, is the reading
/// order of the first followed by that of the second.
pub proof fn lemma_preorder_concat(a: Seq<BookItem>, b: Seq<BookItem>)
    ensures
        preorder(a + b) == preorder(a) + preorder(b),
    decreases a.len(),
{
    if a.len() == 0 {
        assert(a + b =~= b);
        assert(preorder(a) + preorder(b) =~= preorder(b));
    } else {
        lemma_preorder_concat(a.drop_first(), b);
        assert((a + b).drop_first() =~= a.drop_first() + b);
        assert(preorder(a + b) =~= preorder(a) + preorder(b));
    }
}

/// A tree stands in the reading order with every item it holds.
pub proof fn lemma_preorder_of_len(item: BookItem)
    ensures
        preorder_of(item).len() == count_of(item),
    decreases item,
{
    match item {
        BookItem::Chapter(_, ch) => {
            lemma_preorder_len(ch.sub_items@);
        },
        BookItem::Affix(ch) => {
            lemma_preorder_len(ch.sub_items@);
        },
        BookItem::Spacer => {
        },
    }
}

/// Every item of the trees stands in the reading order once: the reading
/// order is as long as the trees have items.
pub proof fn lemma_preorder_len(items: Seq<BookItem>)
    ensures
        preorder(items).len() == count(items),
    decreases items,
{
    if items.len() > 0 {
        let last = items.last();
        let front = items.drop_last();
        lemma_preorder_len(front);
        lemma_preorder_of_len(last);
        lemma_preorder_concat(front, seq![last]);
        assert(front + seq![last] =~= items);
        assert(seq![last].drop_first() =~= Seq::<BookItem>::empty());
        assert(preorder(seq![last].drop_first()) =~= Seq::<BookItem>::empty());
        assert(seq![last][0] == last);
        assert(preorder(seq![last]) =~= preorder_of(last));
    }
}

/// The roots keep their order: root `i` stands in the reading order after
/// all that the roots before it hold, and what lies below it follows it
/// directly.
pub proof fn lemma_preorder_root(items: Seq<BookItem>, i: int)
    requires
        0 <= i < items.len(),
    ensures
        preorder(items) == preorder(items.take(i)) + seq![items[i]] + preorder(
            sub_items_of(items[i]),
        ) + preorder(items.skip(i + 1)),
        preorder(items.take(i)).len() == count(items.take(i)),
{
    lemma_preorder_concat(items.take(i), items.skip(i));
    assert(items.take(i) + items.skip(i) =~= items);
    lemma_preorder_unfold(items.skip(i));
    assert(items.skip(i).drop_first() =~= items.skip(i + 1));
    lemma_preorder_len(items.take(i));
    assert(preorder(items) =~= preorder(items.take(i)) + seq![items[i]] + preorder(
        sub_items_of(items[i]),
    ) + preorder(items.skip(i + 1)));
}

/// A walk through the trees of a book in reading order. It borrows the
/// trees and keeps, besides its place among the items it is walking, the
/// places at which it went down from the items above.
pub struct BookItems<'a> {
    pub items: &'a [BookItem],
    pub current_index: usize,
    pub stack: Vec<(&'a [BookItem], usize)>,
}

impl<'a> BookItems<'a> {
    /// The items that the walk has still to yield, in order.
    pub open spec fn remaining(&self) -> Seq<BookItem> {
        preorder(tail(self.items@, self.current_index as int)) + pending(self.stack@)
    }

    /// A walk that starts before the first of `items`.
    pub fn new(items: &'a [BookItem]) -> (walk: BookItems<'a>)
        ensures
            walk.remaining() == preorder(items@),
            walk.items@ == items@,
            walk.current_index == 0,
            walk.stack@.len() == 0,
    {
        let walk = BookItems { items: items, current_index: 0, stack: Vec::new() };
        assert(tail(items@, 0) =~= items@);
        assert(walk.remaining() =~= preorder(items@));
        walk
    }

    /// Yields the next item in reading order, or `None` when every item has
    /// been yielded.
    pub fn next(&mut self) -> (r: Option<&'a BookItem>)
        ensures
            match r {
                Some(item) => old(self).remaining().len() > 0 && *item == old(self).remaining()[0]
                    && final(self).remaining() == old(self).remaining().drop_first(),
                None => old(self).remaining().len() == 0 && final(self).remaining().len() == 0,
            },
    {
        loop
            invariant
                self.remaining() == old(self).remaining(),
            decreases self.stack@.len(),
        {
            if self.current_index >= self.items.len() {
                let ghost before = self.stack@;
                match self.stack.pop() {
                    None => {
                        assert(tail(self.items@, self.current_index as int) =~= Seq::<
                            BookItem,
                        >::empty());
                        return None;
                    },
                    Some((parent_items, parent_idx)) => {
                        assert(before.drop_last() =~= self.stack@);
                        assert(tail(self.items@, self.current_index as int) =~= Seq::<
                            BookItem,
                        >::empty());
                        assert(parent_items@.len() == parent_items.len());
                        self.items = parent_items;
                        self.current_index = if parent_idx < usize::MAX {
                            parent_idx + 1
                        } else {
                            parent_idx
                        };
                        assert(tail(self.items@, self.current_index as int) =~= tail(
                            parent_items@,
                            parent_idx + 1,
                        ));
                    },
                }
            } else {
                let items = self.items;
                let index = self.current_index;
                let cur = &items[index];
                proof {
                    lemma_preorder_unfold(tail(items@, index as int));
                    assert(tail(items@, index as int).drop_first() =~= tail(items@, index + 1));
                    assert(tail(items@, index as int)[0] == *cur);
                }
                match cur {
                    BookItem::Chapter(_, ch) | BookItem::Affix(ch) => {
                        let ghost before = self.stack@;
                        self.stack.push((items, index));
                        self.items = ch.sub_items.as_slice();
                        self.current_index = 0;
                        proof {
                            assert(self.stack@.drop_last() =~= before);
                            assert(tail(ch.sub_items@, 0) =~= ch.sub_items@);
                            assert(self.remaining() =~= old(self).remaining().drop_first());
                        }
                    },
                    BookItem::Spacer => {
                        self.current_index = index + 1;
                        proof {
                            assert(self.remaining() =~= old(self).remaining().drop_first());
                        }
                    },
                }
                return Some(cur);
            }
        }
    }

    /// Everything that the walk has still to yield, in order.
    pub fn collect(self) -> (out: Vec<&'a BookItem>)
        ensures
            out@.len() == self.remaining().len(),
            forall|i: int| 0 <= i < out@.len() ==> *#[trigger] out@[i] == self.remaining()[i],
    {
        let mut walk = self;
        let mut out: Vec<&'a BookItem> = Vec::new();
        loop
            invariant
                out@.len() + walk.remaining().len() == self.remaining().len(),
                forall|i: int| 0 <= i < out@.len() ==> *#[trigger] out@[i] == self.remaining()[i],
                forall|i: int|
                    0 <= i < walk.remaining().len() ==> #[trigger] walk.remaining()[i]
                        == self.remaining()[out@.len() + i],
            decreases walk.remaining().len(),
        {
            match walk.next() {
                Some(item) => {
                    out.push(item);
                },
                None => {
                    return out;
                },
            }
        }
    }
}

} // verus!

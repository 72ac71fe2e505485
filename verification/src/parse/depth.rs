//! How deep the tree of an outline is.
//!
//! In an outline in which no line is indented more than one level below the
//! line before it, and no chapter names a directory, every item stands as
//! deep in the tree as its line is indented.

use crate::book::bookitem::{height, height_of, lemma_height_concat, ItemView};
use crate::parse::summary::{
    adopt, book_of, gap, kind_of, lemma_compiled_lines_fit, lemma_increase_needs_chapter,
    lemma_level_items_advance, lemma_level_not_negative, lemma_line_item_kind, level_items,
    level_of, line_fits, line_item, TAB_WIDTH,
};
use crate::path::parent_of;
use crate::source::{document, is_directory, Listing};
use crate::text::split_lines;
use vstd::prelude::*;

verus! {

/// Whether line `i` makes an item.
pub open spec fn makes_item(lines: Seq<Seq<char>>, i: int) -> bool {
    !(kind_of(lines[i]) is Ignore)
}

/// The highest level among the lines `lo..hi` that make an item, and
/// `floor` where none of them lies above it.
pub open spec fn top_level(lines: Seq<Seq<char>>, lo: int, hi: int, floor: int) -> int
    decreases hi - lo,
{
    if hi <= lo {
        floor
    } else {
        let rest = top_level(lines, lo, hi - 1, floor);
        match level_of(lines[hi - 1], TAB_WIDTH as int) {
            Some(l) => if makes_item(lines, hi - 1) && l > rest {
                l
            } else {
                rest
            },
            None => rest,
        }
    }
}

/// How many of the lines `lo..hi` make an item.
pub open spec fn item_lines(lines: Seq<Seq<char>>, lo: int, hi: int) -> nat
    decreases hi - lo,
{
    if hi <= lo {
        0
    } else if makes_item(lines, hi - 1) {
        item_lines(lines, lo, hi - 1) + 1
    } else {
        item_lines(lines, lo, hi - 1)
    }
}

/// Whether no line of `lines` is indented more than one level below the
/// line before it.
pub open spec fn steps(lines: Seq<Seq<char>>) -> bool {
    forall|i: int|
        0 <= i && i + 1 < lines.len() ==> (level_of(#[trigger] lines[i], TAB_WIDTH as int)
            matches Some(a) ==> (level_of(lines[i + 1], TAB_WIDTH as int) matches Some(b) ==> b <= a
            + 1))
}

/// The larger of two numbers.
pub open spec fn larger(a: int, b: int) -> int {
    if a >= b {
        a
    } else {
        b
    }
}

/// The highest level of a run of lines is the higher of the highest levels
/// of its two parts; so with the number of lines that make an item, which
/// is the sum.
pub proof fn lemma_split(lines: Seq<Seq<char>>, lo: int, mid: int, hi: int, floor: int)
    requires
        lo <= mid <= hi,
    ensures
        top_level(lines, lo, hi, floor) == larger(
            top_level(lines, lo, mid, floor),
            top_level(lines, mid, hi, floor),
        ),
        item_lines(lines, lo, hi) == item_lines(lines, lo, mid) + item_lines(lines, mid, hi),
        top_level(lines, lo, hi, floor) >= floor,
    decreases hi - mid,
{
    lemma_floor(lines, lo, mid, floor);
    if mid < hi {
        lemma_split(lines, lo, mid, hi - 1, floor);
        lemma_floor(lines, mid, hi - 1, floor);
    }
}

/// The highest level is no lower than the floor, and is the floor where no
/// line of the run makes an item.
pub proof fn lemma_floor(lines: Seq<Seq<char>>, lo: int, hi: int, floor: int)
    ensures
        top_level(lines, lo, hi, floor) >= floor,
        item_lines(lines, lo, hi) == 0 ==> top_level(lines, lo, hi, floor) == floor,
    decreases hi - lo,
{
    if lo < hi {
        lemma_floor(lines, lo, hi - 1, floor);
    }
}

/// Where a line of the run makes an item and every line of the run stands
/// at the level `high` or above, the highest level is the same over the
/// floor `high` and over any floor below it.
pub proof fn lemma_raise_floor(lines: Seq<Seq<char>>, lo: int, hi: int, low: int, high: int)
    requires
        low <= high,
        item_lines(lines, lo, hi) > 0,
        forall|i: int|
            lo <= i < hi ==> (level_of(#[trigger] lines[i], TAB_WIDTH as int) matches Some(l) && l
                >= high),
    ensures
        top_level(lines, lo, hi, low) == top_level(lines, lo, hi, high),
    decreases hi - lo,
{
    if lo < hi {
        lemma_floor(lines, lo, hi - 1, low);
        lemma_floor(lines, lo, hi - 1, high);
        assert(level_of(lines[hi - 1], TAB_WIDTH as int) is Some);
        if item_lines(lines, lo, hi - 1) > 0 {
            lemma_raise_floor(lines, lo, hi - 1, low, high);
        }
    }
}

/// Replacing the last of `acc` by the same chapter with `below` added to
/// the pages below it makes the whole reach as deep as `acc` or, where
/// `below` is not empty, one deeper than `below`.
proof fn lemma_height_adopt(acc: Seq<ItemView>, below: Seq<ItemView>)
    requires
        acc.len() > 0,
        acc.last() is Chapter,
    ensures
        below.len() == 0 ==> height(acc.drop_last().push(adopt(acc.last(), below))) == height(acc),
        below.len() > 0 ==> height(acc.drop_last().push(adopt(acc.last(), below))) == larger(
            height(acc) as int,
            1 + height(below) as int,
        ),
{
    let last = acc.last();
    let grown = adopt(last, below);
    let rest = acc.drop_last().push(grown);
    let above = last->Chapter_1.sub_items;
    assert(rest.drop_last() =~= acc.drop_last());
    assert(rest.last() == grown);
    assert(height(rest) == larger(height(acc.drop_last()) as int, height_of(grown) as int));
    assert(height(acc) == larger(height(acc.drop_last()) as int, height_of(last) as int));
    lemma_height_concat(above, below);
    if below.len() == 0 {
        assert(above + below =~= above);
        assert(grown == last);
    } else {
        assert(grown->Chapter_1.sub_items == above + below);
        assert((above + below).len() > 0);
        assert(height_of(grown) == 1 + height(above + below));
        if above.len() == 0 {
            assert(height(above) == 0);
            assert(height_of(last) == 0);
        } else {
            assert(height_of(last) == 1 + height(above));
        }
        assert(height_of(grown) == larger(height_of(last) as int, 1 + height(below) as int));
    }
}

/// What is said of the items at a level: they end within the lines, reach
/// as deep as those before them or as the lines that make them are indented
/// above the level, and there are more of them than before only where a
/// line makes an item.
pub open spec fn as_deep_as_indented(
    lines: Seq<Seq<char>>,
    pos: int,
    depth: int,
    acc: Seq<ItemView>,
    items: Seq<ItemView>,
    next: int,
) -> bool {
    &&& pos <= next <= lines.len()
    &&& height(items) == larger(height(acc) as int, top_level(lines, pos, next, depth) - depth)
    &&& items.len() >= acc.len()
    &&& items.len() > acc.len() ==> item_lines(lines, pos, next) > 0
    &&& acc.len() == 0 && item_lines(lines, pos, next) > 0 ==> items.len() > 0
}

/// Whether the line at `pos`, if there is one with a level, stands no more
/// than one level above `depth`.
pub open spec fn within_a_step(lines: Seq<Seq<char>>, pos: int, depth: int) -> bool {
    pos < lines.len() ==> (level_of(lines[pos], TAB_WIDTH as int) matches Some(l) ==> l <= depth
        + 1)
}

/// The line after `pos` stands no more than one level above the line at
/// `pos`.
proof fn lemma_step(lines: Seq<Seq<char>>, pos: int, depth: int)
    requires
        steps(lines),
        0 <= pos < lines.len(),
        level_of(lines[pos], TAB_WIDTH as int) == Some(depth),
    ensures
        within_a_step(lines, pos + 1, depth),
{
    if pos + 1 < lines.len() {
        assert(level_of(#[trigger] lines[pos], TAB_WIDTH as int) matches Some(a) ==> (level_of(
            lines[pos + 1],
            TAB_WIDTH as int,
        ) matches Some(b) ==> b <= a + 1));
    }
}

/// Where the items at the level `l` compile, they end at a line below that
/// level, and every line they take up stands at it or above.
proof fn lemma_block(
    fs: Listing,
    root: Seq<char>,
    lines: Seq<Seq<char>>,
    pos: int,
    l: int,
    nested: bool,
)
    requires
        0 <= pos <= lines.len(),
        0 <= l,
        level_items(fs, root, lines, pos, l, nested, Seq::empty()) is Ok,
    ensures
        ({
            let next = level_items(fs, root, lines, pos, l, nested, Seq::empty())->Ok_0.1;
            &&& pos <= next <= lines.len()
            &&& within_a_step(lines, next, l - 1)
            &&& forall|i: int|
                pos <= i < next ==> (level_of(#[trigger] lines[i], TAB_WIDTH as int)
                    matches Some(li) && li >= l)
        }),
{
    lemma_compiled_lines_fit(fs, root, lines, pos, l, nested, Seq::empty());
    let next = level_items(fs, root, lines, pos, l, nested, Seq::empty())->Ok_0.1;
    assert forall|i: int| pos <= i < next implies (level_of(#[trigger] lines[i], TAB_WIDTH as int)
        matches Some(li) && li >= l) by {
        assert(line_fits(lines, i, l, nested));
    }
}

/// The case of `lemma_level_items_height` in which the line at `pos` opens
/// the pages below the last item.
proof fn lemma_height_below(
    fs: Listing,
    root: Seq<char>,
    lines: Seq<Seq<char>>,
    pos: int,
    depth: int,
    nested: bool,
    acc: Seq<ItemView>,
)
    requires
        0 <= pos < lines.len(),
        0 <= depth,
        steps(lines),
        forall|p: Seq<char>| !is_directory(fs, p),
        level_of(lines[pos], TAB_WIDTH as int) == Some(depth + 1),
        acc.len() > 0,
        acc.last() is Chapter,
    ensures
        level_items(fs, root, lines, pos, depth, nested, acc) matches Ok((items, next))
            ==> as_deep_as_indented(lines, pos, depth, acc, items, next),
    decreases lines.len() - pos + 1, gap(lines, pos, depth), 0int,
{
    let l = depth + 1;
    let empty = Seq::<ItemView>::empty();
    lemma_level_items_advance(fs, root, lines, pos, l, nested, empty);
    lemma_level_items_height(fs, root, lines, pos, l, nested, empty);
    match level_items(fs, root, lines, pos, l, nested, empty) {
        Err(e) => {
        },
        Ok((below, next)) => {
            let rest = acc.drop_last().push(adopt(acc.last(), below));
            lemma_block(fs, root, lines, pos, l, nested);
            lemma_height_adopt(acc, below);
            lemma_level_items_height(fs, root, lines, next, depth, nested, rest);
            match level_items(fs, root, lines, next, depth, nested, rest) {
                Err(e) => {
                },
                Ok((items, end)) => {
                    lemma_split(lines, pos, next, end, depth);
                    lemma_floor(lines, pos, next, depth);
                    lemma_floor(lines, pos, next, l);
                    if below.len() > 0 {
                        lemma_raise_floor(lines, pos, next, depth, l);
                    }
                    assert(height(empty) == 0);
                    assert(height(rest) == larger(
                        height(acc) as int,
                        top_level(lines, pos, next, depth) - depth,
                    ));
                    assert(as_deep_as_indented(lines, pos, depth, acc, items, end));
                },
            }
        },
    }
}

/// The case of `lemma_level_items_height` in which the line at `pos` stands
/// at the level.
proof fn lemma_height_here(
    fs: Listing,
    root: Seq<char>,
    lines: Seq<Seq<char>>,
    pos: int,
    depth: int,
    nested: bool,
    acc: Seq<ItemView>,
)
    requires
        0 <= pos < lines.len(),
        0 <= depth,
        steps(lines),
        forall|p: Seq<char>| !is_directory(fs, p),
        level_of(lines[pos], TAB_WIDTH as int) == Some(depth),
    ensures
        level_items(fs, root, lines, pos, depth, nested, acc) matches Ok((items, next))
            ==> as_deep_as_indented(lines, pos, depth, acc, items, next),
    decreases lines.len() - pos + 1, gap(lines, pos, depth), 0int,
{
    lemma_line_item_kind(fs, root, lines[pos]);
    lemma_step(lines, pos, depth);
    let rest = match line_item(fs, root, lines[pos]) {
        None => acc,
        Some(item) => acc.push(item),
    };
    if line_item(fs, root, lines[pos]) is Some {
        let item = line_item(fs, root, lines[pos])->0;
        assert(rest.drop_last() =~= acc);
        assert(rest.last() == item);
        assert(height_of(item) == 0);
        assert(height(rest) == height(acc));
    }
    lemma_level_items_height(fs, root, lines, pos + 1, depth, nested, rest);
    match level_items(fs, root, lines, pos + 1, depth, nested, rest) {
        Err(e) => {
        },
        Ok((items, end)) => {
            lemma_split(lines, pos, pos + 1, end, depth);
            assert(top_level(lines, pos, pos, depth) == depth);
            assert(item_lines(lines, pos, pos) == 0);
            assert(top_level(lines, pos, pos + 1, depth) == depth);
            assert(item_lines(lines, pos, pos + 1) == if makes_item(lines, pos) {
                1nat
            } else {
                0nat
            });
            if level_items(fs, root, lines, pos, depth, nested, acc) is Ok {
                assert(as_deep_as_indented(lines, pos, depth, acc, items, end));
            }
        },
    }
}

/// In an outline without chapters that name a directory and without lines
/// indented more than one level below the line before them, the items at a
/// level reach as deep below it as the lines that make them are indented
/// above it.
pub proof fn lemma_level_items_height(
    fs: Listing,
    root: Seq<char>,
    lines: Seq<Seq<char>>,
    pos: int,
    depth: int,
    nested: bool,
    acc: Seq<ItemView>,
)
    requires
        0 <= pos <= lines.len(),
        0 <= depth,
        steps(lines),
        forall|p: Seq<char>| !is_directory(fs, p),
        within_a_step(lines, pos, depth),
    ensures
        level_items(fs, root, lines, pos, depth, nested, acc) matches Ok((items, next))
            ==> as_deep_as_indented(lines, pos, depth, acc, items, next),
    decreases lines.len() - pos + 1, gap(lines, pos, depth), 1int,
{
    if pos < lines.len() {
        match level_of(lines[pos], TAB_WIDTH as int) {
            None => {
            },
            Some(l) => {
                if l < depth {
                    assert(top_level(lines, pos, pos, depth) == depth);
                    assert(item_lines(lines, pos, pos) == 0);
                } else if l > depth {
                    if acc.len() > 0 && acc.last() is Chapter {
                        lemma_height_below(fs, root, lines, pos, depth, nested, acc);
                    }
                } else {
                    lemma_height_here(fs, root, lines, pos, depth, nested, acc);
                }
            },
        }
    } else {
        assert(top_level(lines, pos, pos, depth) == depth);
        assert(item_lines(lines, pos, pos) == 0);
    }
}

/// The tree of an outline is as deep as its deepest item is indented: where
/// no line is indented more than one level below the line before it and no
/// chapter names a directory, the depth of the deepest item of the book is
/// the highest level among the lines that make an item.
pub proof fn lemma_depth_is_top_level(fs: Listing, path: Seq<char>)
    requires
        book_of(fs, path) is Ok,
        steps(split_lines(document(fs, path)->0)),
        forall|p: Seq<char>| !is_directory(fs, p),
    ensures
        height(book_of(fs, path)->Ok_0) == top_level(
            split_lines(document(fs, path)->0),
            0,
            split_lines(document(fs, path)->0).len() as int,
            0,
        ),
{
    let lines = split_lines(document(fs, path)->0);
    let root = parent_of(path);
    let empty = Seq::<ItemView>::empty();
    lemma_compiled_lines_fit(fs, root, lines, 0, 0, false, empty);
    let next = level_items(fs, root, lines, 0, 0, false, empty)->Ok_0.1;
    if next < lines.len() {
        lemma_level_not_negative(lines[next], TAB_WIDTH as int);
    }
    if 0 < lines.len() {
        lemma_level_not_negative(lines[0], TAB_WIDTH as int);
        if level_of(lines[0], TAB_WIDTH as int) matches Some(l) && l > 0 {
            lemma_increase_needs_chapter(fs, root, lines, 0, 0, false, empty);
        }
    }
    lemma_level_items_height(fs, root, lines, 0, 0, false, empty);
    lemma_floor(lines, 0, next, 0);
}

} // verus!

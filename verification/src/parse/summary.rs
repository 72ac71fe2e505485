//! The outline of a book: a text whose lines name the pages and whose
//! indentation says which page lies below which.
//!
//! An outline is compiled line by line. The indentation of a line gives its
//! level, the rest of the line says what it is: a separator, a chapter, a
//! page before or after the chapters, or nothing that counts. A chapter that
//! names a directory takes the outline of that directory as the pages below
//! it.

use crate::book::bookitem::{
    chapter_tree, chapters_only, item_view, item_views, lemma_item_views_concat,
    lemma_item_views_push, lemma_prefixed_all, lemma_prefixed_chapter,
    lemma_prefixed_keeps_chapters, prefixed_all, prepend_all, well_formed, BookItem, Chapter,
    ChapterView, ItemView,
};
use crate::path::{bare, join, joined, parent, parent_of, strip, with_ext, with_extension};
use crate::source::{document, is_directory, lemma_lookup_within_span, span, Listing, SourceTree};
use crate::text::{
    chars_of, find_char, find_pair, index_of, index_of_pair, lemma_find_char, lemma_find_pair,
    lines_of, split_lines, string_of, trim, trim_chars, views,
};
use vstd::arithmetic::div_mod::lemma_fundamental_div_mod_converse;
use vstd::prelude::*;
use vstd::slice::slice_subrange;

verus! {

/// Why an outline could not be compiled.
#[derive(Debug, PartialEq, Eq)]
pub enum OutlineError {
    /// The white space before a line is not a whole number of levels; the
    /// line is kept.
    IndentationError(String),
    /// A separator or a page outside the chapters stands below another page,
    /// or a line is indented below something that is no chapter.
    MalformedOutline,
    /// There is no outline at the path that is kept.
    OutlineUnavailable(String),
}

/// What an `OutlineError` stands for.
pub enum ErrorView {
    IndentationError(Seq<char>),
    MalformedOutline,
    OutlineUnavailable(Seq<char>),
}

impl View for OutlineError {
    type V = ErrorView;

    open spec fn view(&self) -> ErrorView {
        match self {
            OutlineError::IndentationError(line) => ErrorView::IndentationError(line@),
            OutlineError::MalformedOutline => ErrorView::MalformedOutline,
            OutlineError::OutlineUnavailable(path) => ErrorView::OutlineUnavailable(path@),
        }
    }
}

/// How many spaces make one level of an outline.
pub const TAB_WIDTH: usize = 4;

/// Where the indentation of `line` ends: the first index at or after `from`
/// that holds neither a space nor a tab.
pub open spec fn indent_end(line: Seq<char>, from: int) -> int
    decreases line.len() - from,
{
    if 0 <= from < line.len() && (line[from] == ' ' || line[from] == '\t') {
        indent_end(line, from + 1)
    } else {
        from
    }
}

/// How often `c` stands in `s[0..hi]`.
pub open spec fn count_in(s: Seq<char>, c: char, hi: int) -> int
    decreases hi,
{
    if hi <= 0 {
        0
    } else if s[hi - 1] == c {
        count_in(s, c, hi - 1) + 1
    } else {
        count_in(s, c, hi - 1)
    }
}

/// The level of `line` where `width` spaces make a level: one for each tab
/// of its indentation and one for each `width` spaces of it. A line whose
/// indentation holds spaces beyond a whole number of levels has none.
pub open spec fn level_of(line: Seq<char>, width: int) -> Option<int> {
    let end = indent_end(line, 0);
    let spaces = count_in(line, ' ', end);
    if spaces % width == 0 {
        Some(count_in(line, '\t', end) + spaces / width)
    } else {
        None
    }
}

/// The level of `line`, or the line itself as an error where its
/// indentation leaves spaces over.
pub fn level(line: &str, spaces_in_tab: usize) -> (r: Result<usize, OutlineError>)
    requires
        spaces_in_tab > 0,
    ensures
        match r {
            Ok(l) => level_of(line@, spaces_in_tab as int) == Some(l as int),
            Err(e) => level_of(line@, spaces_in_tab as int) is None && e@
                == ErrorView::IndentationError(line@),
        },
{
    let chars = chars_of(line);
    let n = chars.len();
    let mut i: usize = 0;
    let mut spaces: usize = 0;
    let mut level: usize = 0;
    let ghost mut runs: int = 0;
    while i < n && (chars[i] == ' ' || chars[i] == '\t')
        invariant
            i <= n,
            n == chars@.len(),
            chars@ == line@,
            spaces_in_tab > 0,
            indent_end(line@, 0) == indent_end(line@, i as int),
            count_in(line@, ' ', i as int) == runs * spaces_in_tab + spaces,
            spaces < spaces_in_tab,
            0 <= runs,
            level == count_in(line@, '\t', i as int) + runs,
            level + spaces <= i,
        decreases n - i,
    {
        if chars[i] == ' ' {
            spaces += 1;
        } else {
            level += 1;
        }
        if spaces >= spaces_in_tab {
            assert((runs + 1) * spaces_in_tab == runs * spaces_in_tab + spaces_in_tab)
                by (nonlinear_arith);
            level += 1;
            spaces = 0;
            proof {
                runs = runs + 1;
            }
        }
        i += 1;
    }
    proof {
        lemma_fundamental_div_mod_converse(
            count_in(line@, ' ', i as int),
            spaces_in_tab as int,
            runs,
            spaces as int,
        );
    }
    if spaces > 0 {
        Err(OutlineError::IndentationError(line.to_owned()))
    } else {
        Ok(level)
    }
}

/// The name and the path of the first link `[name](path)` of `line`: the
/// name runs from the first `[` to the first `](` after it, the path from
/// there to the first `)` after that.
pub open spec fn link_of(line: Seq<char>) -> Option<(Seq<char>, Seq<char>)> {
    let open = find_char(line, '[', 0);
    let mid = find_pair(line, ']', '(', open);
    let close = find_char(line, ')', mid + 1);
    if open < line.len() && mid < line.len() && close < line.len() {
        Some((line.subrange(open + 1, mid), line.subrange(mid + 2, close)))
    } else {
        None
    }
}

/// The first link of `chars`, if it holds one.
fn link_in(chars: &[char]) -> (r: Option<(String, String)>)
    ensures
        match r {
            Some((name, path)) => link_of(chars@) == Some((name@, path@)),
            None => link_of(chars@) is None,
        },
{
    let n = chars.len();
    proof {
        lemma_find_char(chars@, '[', 0);
    }
    let open = match index_of(chars, '[', 0) {
        Some(i) => i,
        None => {
            return None;
        },
    };
    proof {
        lemma_find_pair(chars@, ']', '(', open as int);
    }
    let mid = match index_of_pair(chars, ']', '(', open) {
        Some(i) => i,
        None => {
            return None;
        },
    };
    proof {
        lemma_find_char(chars@, ')', mid + 1);
    }
    let close = match index_of(chars, ')', mid + 1) {
        Some(i) => i,
        None => {
            return None;
        },
    };
    let name = string_of(slice_subrange(chars, open + 1, mid));
    let path = string_of(slice_subrange(chars, mid + 2, close));
    Some((name, path))
}

/// The name and the path of the first link of `line`, if it holds one.
pub fn read_link(line: &str) -> (r: Option<(String, String)>)
    ensures
        match r {
            Some((name, path)) => link_of(line@) == Some((name@, path@)),
            None => link_of(line@) is None,
        },
{
    let chars = chars_of(line);
    link_in(chars.as_slice())
}

/// What a line of an outline is.
#[derive(Debug, PartialEq, Eq)]
pub enum LineKind {
    /// A separator.
    Spacer,
    /// A chapter, by name and path.
    ChapterRef(String, String),
    /// A page outside the chapters, by name and path.
    AffixRef(String, String),
    /// Nothing that counts.
    Ignore,
}

/// What a `LineKind` stands for.
pub enum KindView {
    Spacer,
    ChapterRef(Seq<char>, Seq<char>),
    AffixRef(Seq<char>, Seq<char>),
    Ignore,
}

impl View for LineKind {
    type V = KindView;

    open spec fn view(&self) -> KindView {
        match self {
            LineKind::Spacer => KindView::Spacer,
            LineKind::ChapterRef(name, path) => KindView::ChapterRef(name@, path@),
            LineKind::AffixRef(name, path) => KindView::AffixRef(name@, path@),
            LineKind::Ignore => KindView::Ignore,
        }
    }
}

/// What `line` is, white space around it left aside. Two hyphens at its
/// start make a separator. A hyphen or an asterisk at its start makes a
/// chapter: the link that follows gives its name and path, and where no link
/// follows, what follows is its path. A line that starts with `#`, and any
/// other line without a link, counts for nothing; any other line with a
/// link is a page outside the chapters.
pub open spec fn kind_of(line: Seq<char>) -> KindView {
    let t = trim(line);
    if t.len() >= 2 && t[0] == '-' && t[1] == '-' {
        KindView::Spacer
    } else if t.len() == 0 {
        KindView::Ignore
    } else if t[0] == '-' || t[0] == '*' {
        let rest = trim(t.subrange(1, t.len() as int));
        match link_of(rest) {
            Some((name, path)) => KindView::ChapterRef(name, path),
            None => KindView::ChapterRef(Seq::empty(), rest),
        }
    } else if t[0] == '#' {
        KindView::Ignore
    } else {
        match link_of(t) {
            Some((name, path)) => KindView::AffixRef(name, path),
            None => KindView::Ignore,
        }
    }
}

/// Says what `line` is.
pub fn classify(line: &str) -> (kind: LineKind)
    ensures
        kind@ == kind_of(line@),
{
    let chars = chars_of(line);
    let t = trim_chars(chars.as_slice());
    let n = t.len();
    if n >= 2 && t[0] == '-' && t[1] == '-' {
        LineKind::Spacer
    } else if n == 0 {
        LineKind::Ignore
    } else if t[0] == '-' || t[0] == '*' {
        let rest = trim_chars(slice_subrange(t, 1, n));
        match link_in(rest) {
            Some((name, path)) => LineKind::ChapterRef(name, path),
            None => LineKind::ChapterRef(String::new(), string_of(rest)),
        }
    } else if t[0] == '#' {
        LineKind::Ignore
    } else {
        match link_in(t) {
            Some((name, path)) => LineKind::AffixRef(name, path),
            None => LineKind::Ignore,
        }
    }
}

/// The heading of the first line of `text`, from index `start` on, that
/// starts with `#`: what follows the `#` on that line. Empty where no line
/// starts with `#`.
pub open spec fn heading_from(text: Seq<char>, start: int) -> Seq<char>
    decreases text.len() - start,
{
    if 0 <= start < text.len() {
        let end = find_char(text, '\n', start);
        if text[start] == '#' {
            text.subrange(start + 1, end)
        } else if start <= end < text.len() {
            heading_from(text, end + 1)
        } else {
            Seq::empty()
        }
    } else {
        Seq::empty()
    }
}

/// The first heading of the document `text`.
pub open spec fn heading_of(text: Seq<char>) -> Seq<char> {
    heading_from(text, 0)
}

/// The first heading of the document `text`.
pub fn first_heading(text: &str) -> (heading: String)
    ensures
        heading@ == heading_of(text@),
{
    let chars = chars_of(text);
    let n = chars.len();
    let mut start: usize = 0;
    while start < n
        invariant
            start <= n,
            n == chars@.len(),
            chars@ == text@,
            heading_of(text@) == heading_from(text@, start as int),
        decreases n - start,
    {
        proof {
            lemma_find_char(text@, '\n', start as int);
        }
        let end = match index_of(chars.as_slice(), '\n', start) {
            Some(i) => i,
            None => n,
        };
        if chars[start] == '#' {
            return string_of(slice_subrange(chars.as_slice(), start + 1, end));
        }
        if end >= n {
            return String::new();
        }
        start = end + 1;
    }
    String::new()
}

/// The name of a page: `name`, or where `name` is empty the first heading
/// of the document at `doc`, if `fs` holds a document there.
pub open spec fn titled(fs: Listing, doc: Seq<char>, name: Seq<char>) -> Seq<char> {
    if name.len() == 0 {
        match document(fs, doc) {
            Some(text) => heading_of(text),
            None => name,
        }
    } else {
        name
    }
}

/// How much longer a path below `root` can get before it is longer than
/// every path of `fs`.
pub open spec fn room(fs: Listing, root: Seq<char>) -> nat {
    if span(fs) > bare(root).len() {
        (span(fs) - bare(root).len()) as nat
    } else {
        0
    }
}

/// 0 where the line at `pos` stands at the level `depth`, else 1.
pub open spec fn gap(lines: Seq<Seq<char>>, pos: int, depth: int) -> nat {
    if 0 <= pos < lines.len() && level_of(lines[pos], TAB_WIDTH as int) == Some(depth) {
        0
    } else {
        1
    }
}

/// `item`, a chapter, with `below` added to the pages below it.
pub open spec fn adopt(item: ItemView, below: Seq<ItemView>) -> ItemView {
    match item {
        ItemView::Chapter(label, ch) => ItemView::Chapter(
            label,
            ChapterView { name: ch.name, path: ch.path, sub_items: ch.sub_items + below },
        ),
        other => other,
    }
}

/// The item that `line` makes in an outline of the directory `root`, if it
/// makes one.
///
/// A separator and a page outside the chapters are taken as they stand. A
/// chapter whose path, seen from `root`, is a directory of `fs` gets the
/// index document of that directory as its path and, as the pages below it,
/// the outline of that directory with every path seen from the path of the
/// chapter. Where that directory has no outline, or one that does not
/// compile, or lies no deeper than `root`, the chapter has no pages below
/// it. Any other chapter gets the extension `md`. A chapter without a name is
/// named by the first heading of its document.
pub open spec fn line_item(fs: Listing, root: Seq<char>, line: Seq<char>) -> Option<ItemView>
    decreases room(fs, root), 0int, 0int,
{
    match kind_of(line) {
        KindView::Spacer => Some(ItemView::Spacer),
        KindView::Ignore => None,
        KindView::AffixRef(name, path) => Some(
            ItemView::Affix(ChapterView { name: name, path: path, sub_items: Seq::empty() }),
        ),
        KindView::ChapterRef(name, path) => {
            let full = joined(root, path);
            if is_directory(fs, full) {
                let below = if bare(full).len() > bare(root).len() {
                    proof {
                        lemma_lookup_within_span(fs, bare(full));
                    }
                    match document(fs, joined(full, "SUMMARY.md"@)) {
                        Some(text) => match level_items(
                            fs,
                            full,
                            split_lines(text),
                            0,
                            0,
                            true,
                            Seq::empty(),
                        ) {
                            Ok((items, _)) => prefixed_all(items, Seq::empty(), path),
                            Err(_) => Seq::empty(),
                        },
                        None => Seq::empty(),
                    }
                } else {
                    Seq::empty()
                };
                Some(
                    ItemView::Chapter(
                        Seq::empty(),
                        ChapterView {
                            name: titled(fs, joined(full, "index.md"@), name),
                            path: joined(path, "index.md"@),
                            sub_items: below,
                        },
                    ),
                )
            } else {
                Some(
                    ItemView::Chapter(
                        Seq::empty(),
                        ChapterView {
                            name: titled(fs, with_ext(full, "md"@), name),
                            path: with_ext(path, "md"@),
                            sub_items: Seq::empty(),
                        },
                    ),
                )
            }
        },
    }
}

/// The items that the lines from `pos` on make at the level `depth`, added
/// to `acc`, and the index of the line at which they end: the first line
/// from `pos` on that stands at a lower level, or the end of `lines`.
///
/// A line at the level `depth` adds the item it makes, if any; a separator
/// or a page outside the chapters is refused below the level 0, and at any
/// level where `nested` says that the outline is that of a chapter. A line
/// at a higher level opens the pages below the last item of `acc`, which
/// has to be a chapter: they are the items from that line on at its level.
/// A line whose indentation is no whole number of levels is an error.
///
/// The lines below a chapter start with a line at their own level, so they
/// end after it and within `lines`; the test on `next` only says so to the
/// definition (see `lemma_level_items_advance`).
pub open spec fn level_items(
    fs: Listing,
    root: Seq<char>,
    lines: Seq<Seq<char>>,
    pos: int,
    depth: int,
    nested: bool,
    acc: Seq<ItemView>,
) -> Result<(Seq<ItemView>, int), ErrorView>
    decreases room(fs, root), lines.len() - pos + 1, gap(lines, pos, depth),
{
    if !(0 <= pos < lines.len()) {
        Ok((acc, pos))
    } else {
        match level_of(lines[pos], TAB_WIDTH as int) {
            None => Err(ErrorView::IndentationError(lines[pos])),
            Some(l) => {
                if l < depth {
                    Ok((acc, pos))
                } else if l > depth {
                    if acc.len() > 0 && acc.last() is Chapter {
                        match level_items(fs, root, lines, pos, l, nested, Seq::empty()) {
                            Err(e) => Err(e),
                            Ok((below, next)) => {
                                if pos < next <= lines.len() {
                                    level_items(
                                        fs,
                                        root,
                                        lines,
                                        next,
                                        depth,
                                        nested,
                                        acc.drop_last().push(adopt(acc.last(), below)),
                                    )
                                } else {
                                    Err(ErrorView::MalformedOutline)
                                }
                            },
                        }
                    } else {
                        Err(ErrorView::MalformedOutline)
                    }
                } else {
                    match line_item(fs, root, lines[pos]) {
                        None => level_items(fs, root, lines, pos + 1, depth, nested, acc),
                        Some(item) => {
                            if (depth > 0 || nested) && !(item is Chapter) {
                                Err(ErrorView::MalformedOutline)
                            } else {
                                level_items(
                                    fs,
                                    root,
                                    lines,
                                    pos + 1,
                                    depth,
                                    nested,
                                    acc.push(item),
                                )
                            }
                        },
                    }
                }
            },
        }
    }
}

/// The items at a level end no earlier than they start and within the
/// lines, and after their first line where that line stands at the level.
pub proof fn lemma_level_items_advance(
    fs: Listing,
    root: Seq<char>,
    lines: Seq<Seq<char>>,
    pos: int,
    depth: int,
    nested: bool,
    acc: Seq<ItemView>,
)
    requires
        0 <= pos <= lines.len(),
    ensures
        level_items(fs, root, lines, pos, depth, nested, acc) matches Ok((_, next)) ==> pos <= next
            <= lines.len() && (gap(lines, pos, depth) == 0 ==> pos < next),
    decreases lines.len() - pos + 1, gap(lines, pos, depth),
{
    if pos < lines.len() {
        match level_of(lines[pos], TAB_WIDTH as int) {
            None => {
            },
            Some(l) => {
                if l < depth {
                } else if l > depth {
                    if acc.len() > 0 && acc.last() is Chapter {
                        lemma_level_items_advance(fs, root, lines, pos, l, nested, Seq::empty());
                        match level_items(fs, root, lines, pos, l, nested, Seq::empty()) {
                            Err(e) => {
                            },
                            Ok((below, next)) => {
                                lemma_level_items_advance(
                                    fs,
                                    root,
                                    lines,
                                    next,
                                    depth,
                                    nested,
                                    acc.drop_last().push(adopt(acc.last(), below)),
                                );
                            },
                        }
                    }
                } else {
                    match line_item(fs, root, lines[pos]) {
                        None => {
                            lemma_level_items_advance(fs, root, lines, pos + 1, depth, nested, acc);
                        },
                        Some(item) => {
                            lemma_level_items_advance(
                                fs,
                                root,
                                lines,
                                pos + 1,
                                depth,
                                nested,
                                acc.push(item),
                            );
                        },
                    }
                }
            },
        }
    }
}

/// A level is never negative.
pub proof fn lemma_level_not_negative(line: Seq<char>, width: int)
    requires
        width > 0,
    ensures
        level_of(line, width) matches Some(l) ==> l >= 0,
{
    lemma_count_in_bounds(line, ' ', indent_end(line, 0));
    lemma_count_in_bounds(line, '\t', indent_end(line, 0));
    let spaces = count_in(line, ' ', indent_end(line, 0));
    assert(spaces >= 0 && width > 0 ==> spaces / width >= 0) by (nonlinear_arith);
}

/// A character stands in `s[0..hi]` no more often than `hi`, and never a
/// negative number of times.
pub proof fn lemma_count_in_bounds(s: Seq<char>, c: char, hi: int)
    ensures
        0 <= count_in(s, c, hi),
        hi >= 0 ==> count_in(s, c, hi) <= hi,
    decreases hi,
{
    if hi > 0 {
        lemma_count_in_bounds(s, c, hi - 1);
    }
}

/// The item of a line is of the kind of the line: a separator for a
/// separator, a page outside the chapters for such a page, a chapter for a
/// chapter, and nothing for a line that does not count.
pub proof fn lemma_line_item_kind(fs: Listing, root: Seq<char>, line: Seq<char>)
    ensures
        kind_of(line) is Spacer <==> line_item(fs, root, line) == Some(ItemView::Spacer),
        kind_of(line) is AffixRef <==> (line_item(fs, root, line) matches Some(item) && item
            is Affix),
        kind_of(line) is ChapterRef <==> (line_item(fs, root, line) matches Some(item) && item
            is Chapter),
        kind_of(line) is Ignore <==> line_item(fs, root, line) is None,
        kind_of(line) matches KindView::AffixRef(name, path) ==> line_item(fs, root, line) == Some(
            ItemView::Affix(ChapterView { name: name, path: path, sub_items: Seq::empty() }),
        ),
{
}

/// Whether `line` is a separator or a page outside the chapters.
pub open spec fn root_only(line: Seq<char>) -> bool {
    kind_of(line) is Spacer || kind_of(line) is AffixRef
}

/// A separator or a page outside the chapters below the level 0 is refused,
/// whatever stands before it; so is one at any level of the outline of a
/// chapter.
pub proof fn lemma_root_only_below_root(
    fs: Listing,
    root: Seq<char>,
    lines: Seq<Seq<char>>,
    pos: int,
    depth: int,
    nested: bool,
    acc: Seq<ItemView>,
)
    requires
        0 <= pos < lines.len(),
        root_only(lines[pos]),
        level_of(lines[pos], TAB_WIDTH as int) matches Some(l) && depth <= l && (l > 0 || nested),
    ensures
        level_items(fs, root, lines, pos, depth, nested, acc) == Err::<
            (Seq<ItemView>, int),
            ErrorView,
        >(ErrorView::MalformedOutline),
    decreases level_of(lines[pos], TAB_WIDTH as int)->0 - depth,
{
    let l = level_of(lines[pos], TAB_WIDTH as int)->0;
    lemma_line_item_kind(fs, root, lines[pos]);
    if l > depth {
        lemma_root_only_below_root(fs, root, lines, pos, l, nested, Seq::empty());
    }
}

/// A line indented below something that is no chapter is refused: below a
/// separator, below a page outside the chapters, and where nothing stands
/// above it.
pub proof fn lemma_increase_needs_chapter(
    fs: Listing,
    root: Seq<char>,
    lines: Seq<Seq<char>>,
    pos: int,
    depth: int,
    nested: bool,
    acc: Seq<ItemView>,
)
    requires
        0 <= pos < lines.len(),
        level_of(lines[pos], TAB_WIDTH as int) matches Some(l) && depth < l,
        acc.len() == 0 || !(acc.last() is Chapter),
    ensures
        level_items(fs, root, lines, pos, depth, nested, acc) == Err::<
            (Seq<ItemView>, int),
            ErrorView,
        >(ErrorView::MalformedOutline),
{
}

/// Whether line `i` stands as an outline at `depth` allows: it has a level,
/// no lower than `depth`, and where it is a separator or a page outside the
/// chapters, it stands at the level 0 of an outline that is not that of a
/// chapter, and the line after it stands at the level 0 too.
pub open spec fn line_fits(lines: Seq<Seq<char>>, i: int, depth: int, nested: bool) -> bool {
    &&& level_of(lines[i], TAB_WIDTH as int) matches Some(l) && l >= depth
    &&& root_only(lines[i]) ==> {
        &&& level_of(lines[i], TAB_WIDTH as int) == Some(0int)
        &&& !nested
        &&& i + 1 < lines.len() ==> level_of(lines[i + 1], TAB_WIDTH as int) == Some(0int)
    }
}

/// Where the items at a level compile, every line that they take up fits,
/// and the line at which they end stands at a lower level.
pub proof fn lemma_compiled_lines_fit(
    fs: Listing,
    root: Seq<char>,
    lines: Seq<Seq<char>>,
    pos: int,
    depth: int,
    nested: bool,
    acc: Seq<ItemView>,
)
    requires
        0 <= pos <= lines.len(),
        0 <= depth,
    ensures
        level_items(fs, root, lines, pos, depth, nested, acc) matches Ok((_, next)) ==> {
            &&& pos <= next <= lines.len()
            &&& next < lines.len() ==> (level_of(lines[next], TAB_WIDTH as int) matches Some(l) && l
                < depth)
            &&& forall|i: int| pos <= i < next ==> line_fits(lines, i, depth, nested)
        },
    decreases lines.len() - pos + 1, gap(lines, pos, depth),
{
    lemma_level_items_advance(fs, root, lines, pos, depth, nested, acc);
    if pos < lines.len() {
        lemma_level_not_negative(lines[pos], TAB_WIDTH as int);
        match level_of(lines[pos], TAB_WIDTH as int) {
            None => {
            },
            Some(l) => {
                if l < depth {
                } else if l > depth {
                    if acc.len() > 0 && acc.last() is Chapter {
                        lemma_level_items_advance(fs, root, lines, pos, l, nested, Seq::empty());
                        lemma_compiled_lines_fit(fs, root, lines, pos, l, nested, Seq::empty());
                        match level_items(fs, root, lines, pos, l, nested, Seq::empty()) {
                            Err(e) => {
                            },
                            Ok((below, next)) => {
                                let rest = acc.drop_last().push(adopt(acc.last(), below));
                                lemma_compiled_lines_fit(fs, root, lines, next, depth, nested, rest);
                                if level_items(fs, root, lines, next, depth, nested, rest) is Ok {
                                    let end = level_items(
                                        fs,
                                        root,
                                        lines,
                                        next,
                                        depth,
                                        nested,
                                        rest,
                                    )->Ok_0.1;
                                    assert forall|i: int| pos <= i < end implies line_fits(
                                        lines,
                                        i,
                                        depth,
                                        nested,
                                    ) by {
                                        if i < next {
                                            assert(line_fits(lines, i, l, nested));
                                        }
                                    }
                                }
                            },
                        }
                    }
                } else {
                    let rest = match line_item(fs, root, lines[pos]) {
                        None => acc,
                        Some(item) => acc.push(item),
                    };
                    lemma_line_item_kind(fs, root, lines[pos]);
                    lemma_compiled_lines_fit(fs, root, lines, pos + 1, depth, nested, rest);
                    if level_items(fs, root, lines, pos, depth, nested, acc) is Ok {
                        if root_only(lines[pos]) && pos + 1 < lines.len() {
                            lemma_level_not_negative(lines[pos + 1], TAB_WIDTH as int);
                            if level_of(lines[pos + 1], TAB_WIDTH as int) matches Some(l2) && l2
                                > 0 {
                                lemma_increase_needs_chapter(
                                    fs,
                                    root,
                                    lines,
                                    pos + 1,
                                    depth,
                                    nested,
                                    rest,
                                );
                            }
                        }
                    }
                }
            },
        }
    }
}

/// In an outline that compiles, every line has a level, every separator
/// and every page outside the chapters stands at the level 0, and so does
/// the line after it: none stands below another page, and nothing is
/// indented below one.
pub proof fn lemma_compiled_outline_fits(fs: Listing, path: Seq<char>)
    requires
        book_of(fs, path) is Ok,
    ensures
        forall|i: int|
            0 <= i < split_lines(document(fs, path)->0).len() ==> line_fits(
                split_lines(document(fs, path)->0),
                i,
                0,
                false,
            ),
{
    let lines = split_lines(document(fs, path)->0);
    lemma_compiled_lines_fit(fs, parent_of(path), lines, 0, 0, false, Seq::empty());
    let next = level_items(fs, parent_of(path), lines, 0, 0, false, Seq::empty())->Ok_0.1;
    if next < lines.len() {
        lemma_level_not_negative(lines[next], TAB_WIDTH as int);
    }
}

/// The item of a line is an item of a book: a chapter has nothing but
/// chapters below it, a page outside the chapters has nothing below it.
pub proof fn lemma_line_item_shape(fs: Listing, root: Seq<char>, line: Seq<char>)
    ensures
        line_item(fs, root, line) matches Some(item) ==> well_formed(seq![item]),
    decreases room(fs, root), 0int, 0int,
{
    match kind_of(line) {
        KindView::ChapterRef(name, path) => {
            let full = joined(root, path);
            if is_directory(fs, full) && bare(full).len() > bare(root).len() {
                lemma_lookup_within_span(fs, bare(full));
                match document(fs, joined(full, "SUMMARY.md"@)) {
                    Some(text) => {
                        let lines = split_lines(text);
                        lemma_level_items_shape(fs, full, lines, 0, 0, true, Seq::empty());
                        match level_items(fs, full, lines, 0, 0, true, Seq::empty()) {
                            Ok((items, _)) => {
                                lemma_prefixed_keeps_chapters(items, Seq::empty(), path);
                            },
                            Err(_) => {
                            },
                        }
                    },
                    None => {
                    },
                }
            }
        },
        _ => {
        },
    }
}

/// The items at a level are items of a book where those before them are,
/// and nothing but chapters where they stand below the level 0 or in the
/// outline of a chapter.
pub proof fn lemma_level_items_shape(
    fs: Listing,
    root: Seq<char>,
    lines: Seq<Seq<char>>,
    pos: int,
    depth: int,
    nested: bool,
    acc: Seq<ItemView>,
)
    requires
        0 <= pos <= lines.len(),
        0 <= depth,
        well_formed(acc),
        depth > 0 || nested ==> chapters_only(acc),
    ensures
        level_items(fs, root, lines, pos, depth, nested, acc) matches Ok((items, _)) ==> {
            &&& well_formed(items)
            &&& depth > 0 || nested ==> chapters_only(items)
        },
    decreases room(fs, root), lines.len() - pos + 1, gap(lines, pos, depth),
{
    if pos < lines.len() {
        lemma_level_not_negative(lines[pos], TAB_WIDTH as int);
        match level_of(lines[pos], TAB_WIDTH as int) {
            None => {
            },
            Some(l) => {
                if l < depth {
                } else if l > depth {
                    if acc.len() > 0 && acc.last() is Chapter {
                        lemma_level_items_advance(fs, root, lines, pos, l, nested, Seq::empty());
                        lemma_level_items_shape(fs, root, lines, pos, l, nested, Seq::empty());
                        match level_items(fs, root, lines, pos, l, nested, Seq::empty()) {
                            Err(e) => {
                            },
                            Ok((below, next)) => {
                                let rest = acc.drop_last().push(adopt(acc.last(), below));
                                let above = acc.last()->Chapter_1.sub_items;
                                assert(chapters_only(above + below)) by {
                                    assert forall|j: int| 0 <= j < (above + below).len() implies chapter_tree(
                                        #[trigger] (above + below)[j],
                                    ) by {
                                        if j < above.len() {
                                            assert(chapter_tree(above[j]));
                                        } else {
                                            assert(chapter_tree(below[j - above.len()]));
                                        }
                                    }
                                }
                                assert(well_formed(rest)) by {
                                    assert forall|i: int| 0 <= i < rest.len() implies match #[trigger] rest[i] {
                                        ItemView::Chapter(_, ch) => chapters_only(ch.sub_items),
                                        ItemView::Affix(ch) => ch.sub_items.len() == 0,
                                        ItemView::Spacer => true,
                                    } by {
                                        if i < rest.len() - 1 {
                                            assert(rest[i] == acc[i]);
                                        } else {
                                            assert(acc[i] == acc.last());
                                        }
                                    }
                                }
                                if depth > 0 || nested {
                                    assert forall|i: int| 0 <= i < rest.len() implies chapter_tree(
                                        #[trigger] rest[i],
                                    ) by {
                                        if i < rest.len() - 1 {
                                            assert(rest[i] == acc[i]);
                                        } else {
                                            assert(chapter_tree(acc[i]));
                                        }
                                    }
                                }
                                lemma_level_items_shape(fs, root, lines, next, depth, nested, rest);
                            },
                        }
                    }
                } else {
                    lemma_line_item_shape(fs, root, lines[pos]);
                    match line_item(fs, root, lines[pos]) {
                        None => {
                            lemma_level_items_shape(fs, root, lines, pos + 1, depth, nested, acc);
                        },
                        Some(item) => {
                            if !((depth > 0 || nested) && !(item is Chapter)) {
                                let rest = acc.push(item);
                                assert(seq![item][0] == item);
                                assert(well_formed(rest)) by {
                                    assert forall|i: int| 0 <= i < rest.len() implies match #[trigger] rest[i] {
                                        ItemView::Chapter(_, ch) => chapters_only(ch.sub_items),
                                        ItemView::Affix(ch) => ch.sub_items.len() == 0,
                                        ItemView::Spacer => true,
                                    } by {
                                        if i < acc.len() {
                                            assert(rest[i] == acc[i]);
                                        }
                                    }
                                }
                                if depth > 0 || nested {
                                    assert forall|i: int| 0 <= i < rest.len() implies chapter_tree(
                                        #[trigger] rest[i],
                                    ) by {
                                        if i < acc.len() {
                                            assert(rest[i] == acc[i]);
                                        }
                                    }
                                }
                                lemma_level_items_shape(
                                    fs,
                                    root,
                                    lines,
                                    pos + 1,
                                    depth,
                                    nested,
                                    rest,
                                );
                            }
                        },
                    }
                }
            },
        }
    }
}

/// The items of an outline that compiles are the items of a book.
pub proof fn lemma_book_is_well_formed(fs: Listing, path: Seq<char>)
    ensures
        book_of(fs, path) matches Ok(items) ==> well_formed(items),
{
    match document(fs, path) {
        Some(text) => {
            lemma_level_items_shape(
                fs,
                parent_of(path),
                split_lines(text),
                0,
                0,
                false,
                Seq::empty(),
            );
        },
        None => {
        },
    }
}

/// The pages below a chapter that names a directory are the items of the
/// outline of that directory, each moved below the path that the chapter
/// was given: a chapter with the path `p` in that outline has the path `p`
/// joined to the path of the chapter, not to the directory that the outline
/// was read from.
pub proof fn lemma_nested_paths(fs: Listing, root: Seq<char>, line: Seq<char>)
    requires
        kind_of(line) is ChapterRef,
        is_directory(fs, joined(root, kind_of(line)->ChapterRef_1)),
    ensures
        ({
            let path = kind_of(line)->ChapterRef_1;
            let full = joined(root, path);
            let outline = document(fs, joined(full, "SUMMARY.md"@));
            &&& line_item(fs, root, line) matches Some(ItemView::Chapter(_, ch))
            &&& ch.path == joined(path, "index.md"@)
            &&& (bare(full).len() > bare(root).len() && outline is Some && level_items(
                fs,
                full,
                split_lines(outline->0),
                0,
                0,
                true,
                Seq::empty(),
            ) is Ok) ==> {
                let items = level_items(
                    fs,
                    full,
                    split_lines(outline->0),
                    0,
                    0,
                    true,
                    Seq::empty(),
                )->Ok_0.0;
                &&& ch.sub_items.len() == items.len()
                &&& forall|i: int|
                    0 <= i < items.len() ==> (#[trigger] items[i] matches ItemView::Chapter(_, sub)
                        && ch.sub_items[i] matches ItemView::Chapter(_, moved) && moved.name
                        == sub.name && moved.path == joined(path, sub.path))
            }
        }),
{
    let path = kind_of(line)->ChapterRef_1;
    let full = joined(root, path);
    let outline = document(fs, joined(full, "SUMMARY.md"@));
    if bare(full).len() > bare(root).len() && outline is Some {
        let lines = split_lines(outline->0);
        lemma_level_items_shape(fs, full, lines, 0, 0, true, Seq::empty());
        if level_items(fs, full, lines, 0, 0, true, Seq::empty()) is Ok {
            let items = level_items(fs, full, lines, 0, 0, true, Seq::empty())->Ok_0.0;
            lemma_prefixed_all(items, Seq::empty(), path);
            assert forall|i: int| 0 <= i < items.len() implies (#[trigger] items[i]
                matches ItemView::Chapter(_, sub) && prefixed_all(items, Seq::empty(), path)[i]
                matches ItemView::Chapter(_, moved) && moved.name == sub.name && moved.path
                == joined(path, sub.path)) by {
                assert(chapter_tree(items[i]));
                lemma_prefixed_chapter(items[i], Seq::empty(), path);
            }
        }
    }
}

/// Three spaces after an indentation of whole levels leave spaces over,
/// whatever follows them: such a line has no level at the width 4.
pub proof fn lemma_three_spaces_left_over(indent: Seq<char>, rest: Seq<char>)
    requires
        forall|i: int| 0 <= i < indent.len() ==> indent[i] == ' ' || indent[i] == '\t',
        count_in(indent, ' ', indent.len() as int) % 4 == 0,
        rest.len() == 0 || (rest[0] != ' ' && rest[0] != '\t'),
    ensures
        level_of(indent + seq![' ', ' ', ' '] + rest, TAB_WIDTH as int) is None,
{
    let head = indent + seq![' ', ' ', ' '];
    let line = head + rest;
    let n = indent.len() as int;
    lemma_indent_end(line, 0, n + 3);
    lemma_count_in_prefix(line, indent, ' ', n);
    assert(line[n] == ' ' && line[n + 1] == ' ' && line[n + 2] == ' ');
    assert(count_in(line, ' ', n + 3) == count_in(line, ' ', n) + 3) by {
        assert(count_in(line, ' ', n + 1) == count_in(line, ' ', n) + 1);
        assert(count_in(line, ' ', n + 2) == count_in(line, ' ', n + 1) + 1);
        assert(count_in(line, ' ', n + 3) == count_in(line, ' ', n + 2) + 1);
    }
}

/// Where `line[from..end]` holds spaces and tabs only and no space or tab
/// stands at `end`, the indentation seen from `from` ends at `end`.
pub proof fn lemma_indent_end(line: Seq<char>, from: int, end: int)
    requires
        0 <= from <= end <= line.len(),
        forall|i: int| from <= i < end ==> line[i] == ' ' || line[i] == '\t',
        end == line.len() || (line[end] != ' ' && line[end] != '\t'),
    ensures
        indent_end(line, from) == end,
    decreases end - from,
{
    if from < end {
        lemma_indent_end(line, from + 1, end);
    }
}

/// Counting in `s[0..hi]` sees only the first `hi` characters of `s`.
pub proof fn lemma_count_in_prefix(s: Seq<char>, t: Seq<char>, c: char, hi: int)
    requires
        0 <= hi <= s.len(),
        hi <= t.len(),
        forall|i: int| 0 <= i < hi ==> s[i] == t[i],
    ensures
        count_in(s, c, hi) == count_in(t, c, hi),
    decreases hi,
{
    if hi > 0 {
        lemma_count_in_prefix(s, t, c, hi - 1);
    }
}

/// The item that the line `l` makes in an outline of the directory `root`,
/// if it makes one.
pub fn parse_line(fs: &SourceTree, root: &str, l: &str) -> (r: Option<BookItem>)
    ensures
        match r {
            Some(item) => line_item(fs@, root@, l@) == Some(item@),
            None => line_item(fs@, root@, l@) is None,
        },
    decreases room(fs@, root@), 0int, 0int,
{
    match classify(l) {
        LineKind::Spacer => Some(BookItem::Spacer),
        LineKind::Ignore => None,
        LineKind::AffixRef(name, path) => Some(BookItem::Affix(Chapter::new(name, path))),
        LineKind::ChapterRef(name, path) => {
            let full_path = join(root, path.as_str());
            let mut chap = Chapter::new(name, path);
            let doc = if fs.is_dir(full_path.as_str()) {
                if strip(full_path.as_str()).as_str().unicode_len() > strip(
                    root,
                ).as_str().unicode_len() {
                    let outline = join(full_path.as_str(), "SUMMARY.md");
                    match fs.read(outline.as_str()) {
                        Some(text) => {
                            let chars = chars_of(text.as_str());
                            let lines = lines_of(chars.as_slice());
                            proof {
                                lemma_lookup_within_span(fs@, bare(full_path@));
                            }
                            match parse_level(
                                fs,
                                full_path.as_str(),
                                lines.as_slice(),
                                0,
                                0,
                                true,
                            ) {
                                Ok((mut items, _)) => {
                                    let section = String::new();
                                    prepend_all(&mut items, &section, &chap);
                                    chap.sub_items = items;
                                },
                                Err(_) => {
                                },
                            }
                        },
                        None => {
                        },
                    }
                }
                chap.path = join(chap.path.as_str(), "index.md");
                join(full_path.as_str(), "index.md")
            } else {
                chap.path = with_extension(chap.path.as_str(), "md");
                with_extension(full_path.as_str(), "md")
            };
            if chap.name.as_str().is_empty() {
                match fs.read(doc.as_str()) {
                    Some(text) => {
                        chap.name = first_heading(text.as_str());
                    },
                    None => {
                    },
                }
            }
            Some(BookItem::Chapter(String::new(), chap))
        },
    }
}

/// The items that the lines from `pos` on make at the level
/// `current_level`, and the index of the line at which they end.
pub fn parse_level(
    fs: &SourceTree,
    root: &str,
    lines: &[String],
    pos: usize,
    current_level: usize,
    nested: bool,
) -> (r: Result<(Vec<BookItem>, usize), OutlineError>)
    requires
        pos <= lines@.len(),
    ensures
        match r {
            Ok((items, next)) => level_items(
                fs@,
                root@,
                views(lines@),
                pos as int,
                current_level as int,
                nested,
                Seq::empty(),
            ) == Ok::<(Seq<ItemView>, int), ErrorView>((item_views(items@), next as int)),
            Err(e) => level_items(
                fs@,
                root@,
                views(lines@),
                pos as int,
                current_level as int,
                nested,
                Seq::empty(),
            ) == Err::<(Seq<ItemView>, int), ErrorView>(e@),
        },
    decreases room(fs@, root@), lines@.len() - pos + 1, gap(views(lines@), pos as int, current_level as int),
{
    let ghost all = views(lines@);
    let ghost goal = level_items(
        fs@,
        root@,
        all,
        pos as int,
        current_level as int,
        nested,
        Seq::empty(),
    );
    let n = lines.len();
    let mut items: Vec<BookItem> = Vec::new();
    let mut at: usize = pos;
    loop
        invariant
            pos <= at <= n,
            n == lines@.len(),
            all == views(lines@),
            goal == level_items(
                fs@,
                root@,
                all,
                pos as int,
                current_level as int,
                nested,
                Seq::empty(),
            ),
            goal == level_items(
                fs@,
                root@,
                all,
                at as int,
                current_level as int,
                nested,
                item_views(items@),
            ),
        decreases n - at,
    {
        if at >= n {
            return Ok((items, at));
        }
        let lvl = match level(lines[at].as_str(), TAB_WIDTH) {
            Ok(l) => l,
            Err(e) => {
                return Err(e);
            },
        };
        if lvl < current_level {
            return Ok((items, at));
        }
        if lvl > current_level {
            let ghost acc = items@;
            match items.pop() {
                Some(BookItem::Chapter(label, mut ch)) => {
                    let ghost last = acc.last();
                    proof {
                        lemma_item_views_push(acc.drop_last(), last);
                        assert(acc.drop_last().push(last) =~= acc);
                        assert(item_views(acc).drop_last() =~= item_views(acc.drop_last()));
                        lemma_level_items_advance(
                            fs@,
                            root@,
                            all,
                            at as int,
                            lvl as int,
                            nested,
                            Seq::empty(),
                        );
                    }
                    let (mut below, next) = match parse_level(fs, root, lines, at, lvl, nested) {
                        Ok(found) => found,
                        Err(e) => {
                            return Err(e);
                        },
                    };
                    let ghost found = below@;
                    proof {
                        lemma_item_views_concat(ch.sub_items@, found);
                    }
                    ch.sub_items.append(&mut below);
                    let item = BookItem::Chapter(label, ch);
                    proof {
                        lemma_item_views_push(items@, item);
                        assert(item_view(item) == adopt(item_view(last), item_views(found)));
                    }
                    items.push(item);
                    at = next;
                },
                _ => {
                    proof {
                        if acc.len() > 0 {
                            lemma_item_views_push(acc.drop_last(), acc.last());
                            assert(acc.drop_last().push(acc.last()) =~= acc);
                        }
                    }
                    return Err(OutlineError::MalformedOutline);
                },
            }
        } else {
            match parse_line(fs, root, lines[at].as_str()) {
                None => {
                },
                Some(item) => {
                    let page = match item {
                        BookItem::Chapter(_, _) => true,
                        _ => false,
                    };
                    if (current_level > 0 || nested) && !page {
                        return Err(OutlineError::MalformedOutline);
                    }
                    proof {
                        lemma_item_views_push(items@, item);
                    }
                    items.push(item);
                },
            }
            at += 1;
        }
    }
}

/// What the outline at `path` compiles to: the items of its lines at the
/// level 0, seen from the directory that holds it.
pub open spec fn book_of(fs: Listing, path: Seq<char>) -> Result<Seq<ItemView>, ErrorView> {
    match document(fs, path) {
        None => Err(ErrorView::OutlineUnavailable(path)),
        Some(text) => match level_items(
            fs,
            parent_of(path),
            split_lines(text),
            0,
            0,
            false,
            Seq::empty(),
        ) {
            Ok((items, _)) => Ok(items),
            Err(e) => Err(e),
        },
    }
}

/// Compiles the outline at `path` into the items of the book. It fails
/// where `fs` holds no document at `path`, where a line of the outline has
/// no level, and where the outline is malformed; an outline below a chapter
/// that fails leaves the chapter without pages below it.
pub fn construct_bookitems(fs: &SourceTree, path: &str) -> (r: Result<Vec<BookItem>, OutlineError>)
    ensures
        match r {
            Ok(items) => book_of(fs@, path@) == Ok::<Seq<ItemView>, ErrorView>(item_views(items@))
                && well_formed(item_views(items@)),
            Err(e) => book_of(fs@, path@) == Err::<Seq<ItemView>, ErrorView>(e@),
        },
{
    proof {
        lemma_book_is_well_formed(fs@, path@);
    }
    let text = match fs.read(path) {
        Some(text) => text,
        None => {
            return Err(OutlineError::OutlineUnavailable(path.to_owned()));
        },
    };
    let chars = chars_of(text.as_str());
    let lines = lines_of(chars.as_slice());
    let root = parent(path);
    match parse_level(fs, root.as_str(), lines.as_slice(), 0, 0, false) {
        Ok((items, _)) => Ok(items),
        Err(e) => Err(e),
    }
}

} // verus!

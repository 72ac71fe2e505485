//! What the HTML renderer does to the text of a page once the template has
//! been filled in.

use crate::text::{
    chars_of, contains, decimal, holds, is_space, is_whitespace, lines_of, push_chars,
    push_decimal, push_without, split_lines, string_of, swap_chars, swapped, trim, trim_chars,
    views, without_from,
};
use crate::path::{join, joined, with_ext, with_extension};
use crate::source::{document, is_directory, Listing, SourceTree};
use regex::Regex;
use vstd::prelude::*;
use vstd::slice::slice_subrange;
use vstd::string::StringExecFns;

verus! {

/// The renderer of a book as HTML pages.
#[derive(Default)]
pub struct HtmlHandlebars;

/// Where the text of the page with the path `path` lies below the source
/// directory `src`: in the document with that path and the extension `md`
/// where `fs` holds one, else in the index document of the directory with
/// that path where `fs` holds one, else at the path itself.
pub open spec fn source_of(fs: Listing, src: Seq<char>, path: Seq<char>) -> Seq<char> {
    let full = joined(src, path);
    if document(fs, with_ext(full, "md"@)) is Some {
        with_ext(full, "md"@)
    } else if is_directory(fs, full) {
        joined(full, "index.md"@)
    } else {
        full
    }
}

impl HtmlHandlebars {
    /// A renderer.
    pub fn new() -> (renderer: Self) {
        HtmlHandlebars
    }

    /// Where the text of the page with the path `path` lies below the
    /// source directory `src`.
    pub fn page_source(&self, fs: &SourceTree, src: &str, path: &str) -> (out: String)
        ensures
            out@ == source_of(fs@, src@, path@),
    {
        let full = join(src, path);
        let md = with_extension(full.as_str(), "md");
        if fs.is_file(md.as_str()) {
            md
        } else if fs.is_dir(full.as_str()) {
            join(full.as_str(), "index.md")
        } else {
            full
        }
    }
}

/// How many lines `s` has: as many as it has pieces between line feeds,
/// the last piece left aside where it is empty.
pub open spec fn line_count(s: Seq<char>) -> int {
    let pieces = split_lines(s);
    if pieces.len() > 0 && pieces.last().len() == 0 {
        pieces.len() - 1
    } else {
        pieces.len() as int
    }
}

/// Line `i` of `s`: the piece between two line feeds, without the carriage
/// return that stands directly before the line feed, if one does.
pub open spec fn source_line(s: Seq<char>, i: int) -> Seq<char> {
    let pieces = split_lines(s);
    if i + 1 < pieces.len() && pieces[i].len() > 0 && pieces[i].last() == '\r' {
        pieces[i].drop_last()
    } else {
        pieces[i]
    }
}

/// Whether `line` belongs to the head of a piece of source code: it is
/// blank or, white space before it left aside, starts with `#![`.
pub open spec fn is_header(line: Seq<char>) -> bool {
    let t = trim(line);
    t.len() == 0 || (t.len() >= 3 && t[0] == '#' && t[1] == '!' && t[2] == '[')
}

/// Where the head of `s` ends: the index of the first line from `from` on
/// that does not belong to it.
pub open spec fn header_end(s: Seq<char>, from: int) -> int
    decreases line_count(s) - from,
{
    if 0 <= from < line_count(s) && is_header(source_line(s, from)) {
        header_end(s, from + 1)
    } else {
        from
    }
}

/// The lines `lo..hi` of `s`, each followed by a line feed.
pub open spec fn fed(s: Seq<char>, lo: int, hi: int) -> Seq<char>
    decreases hi - lo,
{
    if hi <= lo {
        Seq::empty()
    } else {
        fed(s, lo, hi - 1) + source_line(s, hi - 1) + seq!['\n']
    }
}

/// The head of the source code `s` and the rest of it: the head is made of
/// the blank lines and the lines that start with `#![` before the first
/// line of another kind.
pub open spec fn partitioned(s: Seq<char>) -> (Seq<char>, Seq<char>) {
    let k = header_end(s, 0);
    (fed(s, 0, k), fed(s, k, line_count(s)))
}

/// Parts the source code `s` into its head, the crate attributes and blank
/// lines at its start, and the rest.
pub fn partition_source(s: &str) -> (r: (String, String))
    ensures
        (r.0@, r.1@) == partitioned(s@),
{
    let chars = chars_of(s);
    let pieces = lines_of(chars.as_slice());
    let total = pieces.len();
    assert(views(pieces@).len() == total);
    assert(total > 0);
    let count = if pieces[total - 1].as_str().is_empty() {
        total - 1
    } else {
        total
    };
    assert(views(pieces@)[total - 1] == pieces@[total - 1]@);
    let mut after_header = false;
    let mut before = String::new();
    let mut after = String::new();
    let mut i: usize = 0;
    while i < count
        invariant
            i <= count <= total,
            total == pieces@.len(),
            views(pieces@) == split_lines(s@),
            count == line_count(s@),
            !after_header ==> header_end(s@, 0) == header_end(s@, i as int),
            !after_header ==> before@ == fed(s@, 0, i as int) && after@.len() == 0,
            after_header ==> 0 <= header_end(s@, 0) <= i,
            after_header ==> before@ == fed(s@, 0, header_end(s@, 0)) && after@ == fed(
                s@,
                header_end(s@, 0),
                i as int,
            ),
        decreases count - i,
    {
        let piece = chars_of(pieces[i].as_str());
        assert(views(pieces@)[i as int] == pieces@[i as int]@);
        let n = piece.len();
        let line = if i + 1 < total && n > 0 && piece[n - 1] == '\r' {
            slice_subrange(piece.as_slice(), 0, n - 1)
        } else {
            piece.as_slice()
        };
        assert(line@ =~= source_line(s@, i as int));
        let t = trim_chars(line);
        let header = t.len() == 0 || (t.len() >= 3 && t[0] == '#' && t[1] == '!' && t[2] == '[');
        if !header || after_header {
            proof {
                if !after_header {
                    assert(fed(s@, i as int, i as int) =~= Seq::<char>::empty());
                    assert(after@ =~= fed(s@, i as int, i as int));
                }
            }
            after_header = true;
            let ghost so_far = after@;
            push_chars(&mut after, line);
            after.push('\n');
            assert(after@ =~= so_far + line@ + seq!['\n']);
        } else {
            let ghost so_far = before@;
            push_chars(&mut before, line);
            before.push('\n');
            assert(before@ =~= so_far + line@ + seq!['\n']);
        }
        i += 1;
    }
    proof {
        if !after_header {
            assert(after@ =~= fed(s@, count as int, count as int));
        }
    }
    (before, after)
}

/// The pieces of `text` that lie between the matches of the regular
/// expression `pattern`, in order: what `Regex::split` of the crate `regex`
/// yields. `None` where `pattern` is no regular expression.
pub uninterp spec fn pieces_between(pattern: Seq<char>, text: Seq<char>) -> Option<Seq<Seq<char>>>;

/// The matches of the regular expression `pattern` in `text`, in order, each
/// as its groups: what `Regex::captures_iter` of the crate `regex` yields.
/// Group 0 is the whole match; a group that took no part in the match is
/// `None`. `None` where `pattern` is no regular expression.
pub uninterp spec fn groups_matched(pattern: Seq<char>, text: Seq<char>) -> Option<
    Seq<Seq<Option<Seq<char>>>>,
>;

/// What the groups of the matches `found` stand for.
pub open spec fn groups_view(found: Seq<Vec<Option<String>>>) -> Seq<Seq<Option<Seq<char>>>> {
    Seq::new(
        found.len(),
        |i: int|
            Seq::new(
                found[i]@.len(),
                |j: int|
                    match found[i]@[j] {
                        Some(text) => Some(text@),
                        None => None,
                    },
            ),
    )
}

/// Compiles `pattern` with `Regex::new` and calls `Regex::split` on `text`:
/// the result is what that call yields, piece by piece, or `None` where
/// `Regex::new` refuses the pattern.
#[verifier::external_body]
fn split(pattern: &str, text: &str) -> (out: Option<Vec<String>>)
    ensures
        match out {
            Some(pieces) => pieces_between(pattern@, text@) == Some(views(pieces@)),
            None => pieces_between(pattern@, text@) is None,
        },
{
    match Regex::new(pattern) {
        Ok(re) => Some(re.split(text).map(|piece| piece.to_owned()).collect()),
        Err(_) => None,
    }
}

/// Compiles `pattern` with `Regex::new` and calls `Regex::captures_iter` on
/// `text`: the result is what that call yields, match by match and group by
/// group, or `None` where `Regex::new` refuses the pattern.
#[verifier::external_body]
fn captures(pattern: &str, text: &str) -> (out: Option<Vec<Vec<Option<String>>>>)
    ensures
        match out {
            Some(found) => groups_matched(pattern@, text@) == Some(groups_view(found@)),
            None => groups_matched(pattern@, text@) is None,
        },
{
    match Regex::new(pattern) {
        Ok(re) => Some(
            re.captures_iter(text).map(
                |c| c.iter().map(|g| g.map(|m| m.as_str().to_owned())).collect(),
            ).collect(),
        ),
        Err(_) => None,
    }
}

/// The pieces from index `from` on, each followed by the insert of the same
/// index, where there is one.
pub open spec fn woven(pieces: Seq<Seq<char>>, inserts: Seq<Seq<char>>, from: int) -> Seq<char>
    decreases pieces.len() - from,
{
    if !(0 <= from < pieces.len()) {
        Seq::empty()
    } else if from < inserts.len() {
        pieces[from] + inserts[from] + woven(pieces, inserts, from + 1)
    } else {
        pieces[from] + woven(pieces, inserts, from + 1)
    }
}

/// Puts `inserts` between `pieces`: the first piece, the first insert, the
/// second piece, and so on to the last piece.
pub fn weave(pieces: &Vec<String>, inserts: &Vec<String>) -> (out: String)
    ensures
        out@ == woven(views(pieces@), views(inserts@), 0),
{
    let mut out = String::new();
    let n = pieces.len();
    let mut i: usize = 0;
    while i < n
        invariant
            i <= n,
            n == pieces@.len(),
            woven(views(pieces@), views(inserts@), 0) == out@ + woven(
                views(pieces@),
                views(inserts@),
                i as int,
            ),
        decreases n - i,
    {
        let ghost so_far = out@;
        let ghost rest = woven(views(pieces@), views(inserts@), i + 1);
        out.append(pieces[i].as_str());
        if i < inserts.len() {
            out.append(inserts[i].as_str());
            assert(so_far + (pieces@[i as int]@ + inserts@[i as int]@ + rest) =~= out@ + rest);
        } else {
            assert(so_far + (pieces@[i as int]@ + rest) =~= out@ + rest);
        }
        i += 1;
    }
    assert(out@ + Seq::<char>::empty() =~= out@);
    out
}

/// Group `i` of a match: what it matched, or nothing where the match has no
/// such group or the group took no part in it.
pub open spec fn group(groups: Seq<Option<Seq<char>>>, i: int) -> Seq<char> {
    if 0 <= i < groups.len() && groups[i] is Some {
        groups[i]->0
    } else {
        Seq::empty()
    }
}

/// Group `i` of the match `groups`.
fn group_of(groups: &Vec<Option<String>>, i: usize) -> (out: Vec<char>)
    ensures
        out@ == group(groups_view(seq![*groups])[0], i as int),
{
    if i < groups.len() {
        match &groups[i] {
            Some(text) => chars_of(text.as_str()),
            None => Vec::new(),
        }
    } else {
        Vec::new()
    }
}

/// The opening tag of an anchor within the page `filename`: groups 1 and 3
/// are what stands before and after its `href`, group 2 is the name that
/// the `href` points to.
pub open spec fn anchor_fixed(groups: Seq<Option<Seq<char>>>, filename: Seq<char>) -> Seq<char> {
    "<a"@ + group(groups, 1) + "href=\""@ + filename + "#"@ + group(groups, 2) + "\""@ + group(
        groups,
        3,
    ) + ">"@
}

/// `html` with every anchor that points into its own page made to point
/// to `filename`: the pieces between such anchors with, after each, the
/// anchor fixed. Unchanged where the pattern for such anchors is refused.
pub open spec fn anchors_fixed(html: Seq<char>, filename: Seq<char>) -> Seq<char> {
    let pattern = "<a([^>]+)href=\"#([^\"]+)\"([^>]*)>"@;
    match (pieces_between(pattern, html), groups_matched(pattern, html)) {
        (Some(pieces), Some(found)) => woven(
            pieces,
            Seq::new(found.len(), |i: int| anchor_fixed(found[i], filename)),
            0,
        ),
        _ => html,
    }
}

/// Makes the anchors of `html` that point into their own page point to
/// `filename`: `href="#name"` becomes `href="filename#name"`.
pub fn fix_anchor_links(html: String, filename: &str) -> (out: String)
    ensures
        out@ == anchors_fixed(html@, filename@),
{
    let pattern = "<a([^>]+)href=\"#([^\"]+)\"([^>]*)>";
    let pieces = split(pattern, html.as_str());
    let found = captures(pattern, html.as_str());
    match (pieces, found) {
        (Some(pieces), Some(found)) => {
            let mut inserts: Vec<String> = Vec::new();
            let mut i: usize = 0;
            while i < found.len()
                invariant
                    i <= found@.len(),
                    inserts@.len() == i,
                    forall|k: int|
                        0 <= k < i ==> (#[trigger] inserts@[k])@ == anchor_fixed(
                            groups_view(found@)[k],
                            filename@,
                        ),
                decreases found@.len() - i,
            {
                let ghost groups = groups_view(found@)[i as int];
                assert(groups_view(seq![found@[i as int]])[0] =~= groups);
                let mut tag = String::new();
                tag.append("<a");
                push_chars(&mut tag, group_of(&found[i], 1).as_slice());
                tag.append("href=\"");
                tag.append(filename);
                tag.append("#");
                push_chars(&mut tag, group_of(&found[i], 2).as_slice());
                tag.append("\"");
                push_chars(&mut tag, group_of(&found[i], 3).as_slice());
                tag.append(">");
                assert(tag@ =~= anchor_fixed(groups, filename@));
                inserts.push(tag);
                i += 1;
            }
            assert(views(inserts@) =~= Seq::new(
                groups_view(found@).len(),
                |k: int| anchor_fixed(groups_view(found@)[k], filename@),
            ));
            weave(&pieces, &inserts)
        },
        _ => html,
    }
}

/// The opening tag of a piece of code with the names of its classes parted
/// by spaces: groups 1 and 3 are what stands before and after its `class`,
/// group 2 holds the names, parted by commas or spaces.
pub open spec fn code_fixed(groups: Seq<Option<Seq<char>>>) -> Seq<char> {
    "<code"@ + group(groups, 1) + "class=\""@ + swapped(group(groups, 2), ',', ' ') + "\""@
        + group(groups, 3) + ">"@
}

/// `html` with a space in place of every comma in the class names of its
/// pieces of code. Unchanged where the pattern for such tags is refused.
pub open spec fn code_blocks_fixed(html: Seq<char>) -> Seq<char> {
    let pattern = "<code([^>]+)class=\"([^\"]+)\"([^>]*)>"@;
    match (pieces_between(pattern, html), groups_matched(pattern, html)) {
        (Some(pieces), Some(found)) => woven(
            pieces,
            Seq::new(found.len(), |i: int| code_fixed(found[i])),
            0,
        ),
        _ => html,
    }
}

/// Parts the class names of the pieces of code in `html` by spaces where
/// commas part them: `class="rust,ignore"` becomes `class="rust ignore"`.
pub fn fix_code_blocks(html: String) -> (out: String)
    ensures
        out@ == code_blocks_fixed(html@),
{
    let pattern = "<code([^>]+)class=\"([^\"]+)\"([^>]*)>";
    let pieces = split(pattern, html.as_str());
    let found = captures(pattern, html.as_str());
    match (pieces, found) {
        (Some(pieces), Some(found)) => {
            let mut inserts: Vec<String> = Vec::new();
            let mut i: usize = 0;
            while i < found.len()
                invariant
                    i <= found@.len(),
                    inserts@.len() == i,
                    forall|k: int|
                        0 <= k < i ==> (#[trigger] inserts@[k])@ == code_fixed(
                            groups_view(found@)[k],
                        ),
                decreases found@.len() - i,
            {
                let ghost groups = groups_view(found@)[i as int];
                assert(groups_view(seq![found@[i as int]])[0] =~= groups);
                let classes = swap_chars(group_of(&found[i], 2).as_slice(), ',', ' ');
                let mut tag = String::new();
                tag.append("<code");
                push_chars(&mut tag, group_of(&found[i], 1).as_slice());
                tag.append("class=\"");
                push_chars(&mut tag, classes.as_slice());
                tag.append("\"");
                push_chars(&mut tag, group_of(&found[i], 3).as_slice());
                tag.append(">");
                assert(tag@ =~= code_fixed(groups));
                inserts.push(tag);
                i += 1;
            }
            assert(views(inserts@) =~= Seq::new(
                groups_view(found@).len(),
                |k: int| code_fixed(groups_view(found@)[k]),
            ));
            weave(&pieces, &inserts)
        },
        _ => html,
    }
}

/// A piece of code made ready for the playpen. Group 1 is the whole piece,
/// group 2 the names of its classes, group 3 the code. Code in Rust that is
/// not to be ignored is wrapped: as it stands where it holds `fn main`, else
/// with its head before a `main` function made around the rest of it. Any
/// other piece stays as it is.
pub open spec fn playpen_of(groups: Seq<Option<Seq<char>>>) -> Seq<char> {
    let text = group(groups, 1);
    let classes = group(groups, 2);
    let code = group(groups, 3);
    if holds(classes, "language-rust"@) && !holds(classes, "ignore"@) {
        if holds(text, "fn main"@) {
            "<pre class=\"playpen\">"@ + text + "</pre>"@
        } else {
            "<pre class=\"playpen\"><code class=\""@ + classes
                + "\"># #![allow(unused_variables)]\n"@ + partitioned(code).0 + "#fn main() {\n"@
                + partitioned(code).1 + "\n#}</code></pre>"@
        }
    } else {
        text
    }
}

/// `html` with every piece of code made ready for the playpen. Unchanged
/// where the pattern for pieces of code is refused.
pub open spec fn playpen_added(html: Seq<char>) -> Seq<char> {
    let pattern = "((?s)<code[^>]?class=\"([^\"]+)\".*?>(.*?)</code>)"@;
    match (pieces_between(pattern, html), groups_matched(pattern, html)) {
        (Some(pieces), Some(found)) => woven(
            pieces,
            Seq::new(found.len(), |i: int| playpen_of(found[i])),
            0,
        ),
        _ => html,
    }
}

/// What the playpen gets in place of the piece of code `groups`.
fn playpen_for(groups: &Vec<Option<String>>) -> (out: String)
    ensures
        out@ == playpen_of(groups_view(seq![*groups])[0]),
{
    let text = group_of(groups, 1);
    let classes = group_of(groups, 2);
    let code = group_of(groups, 3);
    let mut out = String::new();
    if contains(classes.as_slice(), chars_of("language-rust").as_slice()) && !contains(
        classes.as_slice(),
        chars_of("ignore").as_slice(),
    ) {
        if contains(text.as_slice(), chars_of("fn main").as_slice()) {
            out.append("<pre class=\"playpen\">");
            push_chars(&mut out, text.as_slice());
            out.append("</pre>");
        } else {
            let (attrs, body) = partition_source(string_of(code.as_slice()).as_str());
            out.append("<pre class=\"playpen\"><code class=\"");
            push_chars(&mut out, classes.as_slice());
            out.append("\"># #![allow(unused_variables)]\n");
            out.append(attrs.as_str());
            out.append("#fn main() {\n");
            out.append(body.as_str());
            out.append("\n#}</code></pre>");
        }
    } else {
        push_chars(&mut out, text.as_slice());
    }
    assert(out@ =~= playpen_of(groups_view(seq![*groups])[0]));
    out
}

/// Makes the pieces of Rust code in `html` ready for the playpen.
pub fn add_playpen_pre(html: String) -> (out: String)
    ensures
        out@ == playpen_added(html@),
{
    let pattern = "((?s)<code[^>]?class=\"([^\"]+)\".*?>(.*?)</code>)";
    let pieces = split(pattern, html.as_str());
    let found = captures(pattern, html.as_str());
    match (pieces, found) {
        (Some(pieces), Some(found)) => {
            let mut inserts: Vec<String> = Vec::new();
            let mut i: usize = 0;
            while i < found.len()
                invariant
                    i <= found@.len(),
                    inserts@.len() == i,
                    forall|k: int|
                        0 <= k < i ==> (#[trigger] inserts@[k])@ == playpen_of(
                            groups_view(found@)[k],
                        ),
                decreases found@.len() - i,
            {
                assert(groups_view(seq![found@[i as int]])[0] =~= groups_view(found@)[i as int]);
                inserts.push(playpen_for(&found[i]));
                i += 1;
            }
            assert(views(inserts@) =~= Seq::new(
                groups_view(found@).len(),
                |k: int| playpen_of(groups_view(found@)[k]),
            ));
            weave(&pieces, &inserts)
        },
        _ => html,
    }
}

/// Whether `c` is a letter or a number, as `char::is_alphanumeric` of the
/// standard library says.
pub uninterp spec fn alphanumeric(c: char) -> bool;

/// Calls `char::is_alphanumeric`.
#[verifier::external_body]
fn is_alphanumeric(c: char) -> (b: bool)
    ensures
        b == alphanumeric(c),
{
    c.is_alphanumeric()
}

/// `c` in lower case where it is one of the letters `A` to `Z`.
pub open spec fn lowered(c: char) -> char {
    if 'A' <= c && c <= 'Z' {
        ((c as u8) + 32) as char
    } else {
        c
    }
}

/// What `c` gives to the id of a header: a letter, a number, a hyphen or an
/// underscore gives itself, in lower case where it is a letter from `A` to
/// `Z`; white space below 128 gives a hyphen; anything else gives nothing.
pub open spec fn id_char(c: char) -> Option<char> {
    if alphanumeric(c) || c == '-' || c == '_' {
        Some(lowered(c))
    } else if is_space(c) && (c as u32) < 128 {
        Some('-')
    } else {
        None
    }
}

/// What the characters of `s` from index `from` on give to an id.
pub open spec fn id_chars(s: Seq<char>, from: int) -> Seq<char>
    decreases s.len() - from,
{
    if !(0 <= from < s.len()) {
        Seq::empty()
    } else {
        match id_char(s[from]) {
            Some(c) => seq![c] + id_chars(s, from + 1),
            None => id_chars(s, from + 1),
        }
    }
}

/// `s` without `needle`.
pub open spec fn without(s: Seq<char>, needle: Seq<char>) -> Seq<char> {
    without_from(s, needle, 0)
}

/// The text of a header without the tags and entities that say how to show
/// it: each is taken out in turn, in the order in which they stand here.
pub open spec fn plain(text: Seq<char>) -> Seq<char> {
    let s = without(text, "<em>"@);
    let s = without(s, "</em>"@);
    let s = without(s, "<code>"@);
    let s = without(s, "</code>"@);
    let s = without(s, "<strong>"@);
    let s = without(s, "</strong>"@);
    let s = without(s, "&lt;"@);
    let s = without(s, "&gt;"@);
    let s = without(s, "&amp;"@);
    let s = without(s, "&#39;"@);
    without(s, "&quot;"@)
}

/// The id that the text of a header gives.
pub open spec fn slug_of(text: Seq<char>) -> Seq<char> {
    id_chars(plain(text), 0)
}

/// `s` without `needle`.
fn remove(s: Vec<char>, needle: &str) -> (out: Vec<char>)
    ensures
        out@ == without(s@, needle@),
{
    let mut out: Vec<char> = Vec::new();
    push_without(&mut out, s.as_slice(), chars_of(needle).as_slice());
    assert(Seq::<char>::empty() + without(s@, needle@) =~= without(s@, needle@));
    out
}

/// The id that the text of a header gives.
pub fn slug(text: &str) -> (id: String)
    ensures
        id@ == slug_of(text@),
{
    let s = remove(chars_of(text), "<em>");
    let s = remove(s, "</em>");
    let s = remove(s, "<code>");
    let s = remove(s, "</code>");
    let s = remove(s, "<strong>");
    let s = remove(s, "</strong>");
    let s = remove(s, "&lt;");
    let s = remove(s, "&gt;");
    let s = remove(s, "&amp;");
    let s = remove(s, "&#39;");
    let s = remove(s, "&quot;");
    let mut id = String::new();
    let n = s.len();
    let mut i: usize = 0;
    while i < n
        invariant
            i <= n,
            n == s@.len(),
            s@ == plain(text@),
            id_chars(s@, 0) == id@ + id_chars(s@, i as int),
        decreases n - i,
    {
        let c = s[i];
        let ghost so_far = id@;
        let ghost rest = id_chars(s@, i + 1);
        if is_alphanumeric(c) || c == '-' || c == '_' {
            if 'A' <= c && c <= 'Z' {
                id.push(((c as u8) + 32) as char);
            } else {
                id.push(c);
            }
            assert(so_far + (seq![lowered(c)] + rest) =~= id@ + rest);
        } else if is_whitespace(c) && (c as u32) < 128 {
            id.push('-');
            assert(so_far + (seq!['-'] + rest) =~= id@ + rest);
        }
        i += 1;
    }
    assert(id@ + Seq::<char>::empty() =~= id@);
    id
}

/// How many of the first `upto` headers of `found` give the id that header
/// `i` gives. Group 2 of a header is its text.
pub open spec fn seen_before(found: Seq<Seq<Option<Seq<char>>>>, i: int, upto: int) -> nat
    decreases upto,
{
    if upto <= 0 {
        0
    } else if slug_of(group(found[upto - 1], 2)) == slug_of(group(found[i], 2)) {
        seen_before(found, i, upto - 1) + 1
    } else {
        seen_before(found, i, upto - 1)
    }
}

/// The id of header `i` of `found`: the id that its text gives, followed
/// by a hyphen and the number of headers before it that give the same id,
/// where there are any.
pub open spec fn header_id(found: Seq<Seq<Option<Seq<char>>>>, i: int) -> Seq<char> {
    let id = slug_of(group(found[i], 2));
    let count = seen_before(found, i, i);
    if count > 0 {
        id + "-"@ + decimal(count)
    } else {
        id
    }
}

/// Header `i` of `found` inside an anchor that carries its id and points to
/// that id within the page `filename`. Group 1 of a header is its level,
/// group 2 its text.
pub open spec fn header_linked(
    found: Seq<Seq<Option<Seq<char>>>>,
    i: int,
    filename: Seq<char>,
) -> Seq<char> {
    let level = group(found[i], 1);
    let text = group(found[i], 2);
    let id = header_id(found, i);
    "<a class=\"header\" href=\""@ + filename + "#"@ + id + "\" id=\""@ + id + "\"><h"@ + level
        + ">"@ + text + "</h"@ + level + "></a>"@
}

/// `html` with every header put inside an anchor that carries an id of its
/// own. Unchanged where the pattern for headers is refused.
pub open spec fn headers_linked(html: Seq<char>, filename: Seq<char>) -> Seq<char> {
    let pattern = "<h(\\d)>(.*?)</h\\d>"@;
    match (pieces_between(pattern, html), groups_matched(pattern, html)) {
        (Some(pieces), Some(found)) => woven(
            pieces,
            Seq::new(found.len(), |i: int| header_linked(found, i, filename)),
            0,
        ),
        _ => html,
    }
}

/// Puts every header of `html` inside an anchor with an id made from its
/// text, so that a link can point to it.
pub fn build_header_links(html: String, filename: &str) -> (out: String)
    ensures
        out@ == headers_linked(html@, filename@),
{
    let pattern = "<h(\\d)>(.*?)</h\\d>";
    let pieces = split(pattern, html.as_str());
    let found = captures(pattern, html.as_str());
    match (pieces, found) {
        (Some(pieces), Some(found)) => {
            let ghost all = groups_view(found@);
            let mut ids: Vec<String> = Vec::new();
            let mut inserts: Vec<String> = Vec::new();
            let mut i: usize = 0;
            while i < found.len()
                invariant
                    i <= found@.len(),
                    all == groups_view(found@),
                    inserts@.len() == i,
                    ids@.len() == i,
                    forall|k: int|
                        0 <= k < i ==> (#[trigger] ids@[k])@ == slug_of(group(all[k], 2)),
                    forall|k: int|
                        0 <= k < i ==> (#[trigger] inserts@[k])@ == header_linked(
                            all,
                            k,
                            filename@,
                        ),
                decreases found@.len() - i,
            {
                assert(groups_view(seq![found@[i as int]])[0] =~= all[i as int]);
                let level = group_of(&found[i], 1);
                let text = group_of(&found[i], 2);
                let base = slug(string_of(text.as_slice()).as_str());
                let mut count: usize = 0;
                let mut j: usize = 0;
                while j < i
                    invariant
                        j <= i,
                        i == ids@.len(),
                        i < found@.len(),
                        all == groups_view(found@),
                        base@ == slug_of(group(all[i as int], 2)),
                        forall|k: int|
                            0 <= k < i ==> (#[trigger] ids@[k])@ == slug_of(group(all[k], 2)),
                        count == seen_before(all, i as int, j as int),
                        count <= j,
                    decreases i - j,
                {
                    if ids[j] == base {
                        count += 1;
                    }
                    j += 1;
                }
                let mut id = String::new();
                id.append(base.as_str());
                if count > 0 {
                    id.append("-");
                    push_decimal(&mut id, count);
                }
                assert(id@ =~= header_id(all, i as int));
                let mut tag = String::new();
                tag.append("<a class=\"header\" href=\"");
                tag.append(filename);
                tag.append("#");
                tag.append(id.as_str());
                tag.append("\" id=\"");
                tag.append(id.as_str());
                tag.append("\"><h");
                push_chars(&mut tag, level.as_slice());
                tag.append(">");
                push_chars(&mut tag, text.as_slice());
                tag.append("</h");
                push_chars(&mut tag, level.as_slice());
                tag.append("></a>");
                assert(tag@ =~= header_linked(all, i as int, filename@));
                inserts.push(tag);
                ids.push(base);
                i += 1;
            }
            assert(views(inserts@) =~= Seq::new(
                all.len(),
                |k: int| header_linked(all, k, filename@),
            ));
            weave(&pieces, &inserts)
        },
        _ => html,
    }
}

} // verus!

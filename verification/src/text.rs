//! Character-level helpers: conversions between strings and character
//! vectors, white space, trimming and searching.

use vstd::prelude::*;
use vstd::slice::slice_subrange;

verus! {

/// `String::push` of the standard library: the string afterwards is the
/// string before with `c` appended as its last character.
pub assume_specification[ String::push ](s: &mut String, c: char)
    ensures
        final(s)@ == old(s)@.push(c),
;

/// The characters of `s`, in order.
pub fn chars_of(s: &str) -> (v: Vec<char>)
    ensures
        v@ == s@,
{
    let mut v: Vec<char> = Vec::new();
    let chars = s.chars();
    for c in it: chars
        invariant
            it.seq() == s@,
            v@ == it.history(),
    {
        v.push(c);
    }
    v
}

/// The string made of `chars`, in order.
pub fn string_of(chars: &[char]) -> (s: String)
    ensures
        s@ == chars@,
{
    let mut s = String::new();
    let mut i: usize = 0;
    while i < chars.len()
        invariant
            i <= chars.len(),
            s@ == chars@.take(i as int),
        decreases chars.len() - i,
    {
        s.push(chars[i]);
        i += 1;
    }
    s
}

/// Appends `chars` to `out`.
pub fn push_chars(out: &mut String, chars: &[char])
    ensures
        final(out)@ == old(out)@ + chars@,
{
    let ghost before = out@;
    let mut i: usize = 0;
    assert(before + chars@.take(0) =~= before);
    while i < chars.len()
        invariant
            i <= chars@.len(),
            out@ == before + chars@.take(i as int),
        decreases chars@.len() - i,
    {
        out.push(chars[i]);
        assert(before + chars@.take(i + 1) =~= (before + chars@.take(i as int)).push(
            chars@[i as int],
        ));
        i += 1;
    }
    assert(chars@.take(i as int) =~= chars@);
}

/// White space in the sense of the Unicode property `White_Space`.
pub open spec fn is_space(c: char) -> bool {
    ||| c == ' '
    ||| ('\t' <= c && c <= '\r')
    ||| c == '\u{85}'
    ||| c == '\u{a0}'
    ||| c == '\u{1680}'
    ||| ('\u{2000}' <= c && c <= '\u{200a}')
    ||| c == '\u{2028}'
    ||| c == '\u{2029}'
    ||| c == '\u{202f}'
    ||| c == '\u{205f}'
    ||| c == '\u{3000}'
}

/// Whether `c` is white space.
pub fn is_whitespace(c: char) -> (b: bool)
    ensures
        b == is_space(c),
{
    c == ' ' || ('\t' <= c && c <= '\r') || c == '\u{85}' || c == '\u{a0}' || c == '\u{1680}' || (
    '\u{2000}' <= c && c <= '\u{200a}') || c == '\u{2028}' || c == '\u{2029}' || c == '\u{202f}'
        || c == '\u{205f}' || c == '\u{3000}'
}

/// The first index at or after `from` whose character is not white space;
/// `from` itself where `from` is not an index of `s`.
pub open spec fn skip_space(s: Seq<char>, from: int) -> int
    decreases s.len() - from,
{
    if 0 <= from < s.len() && is_space(s[from]) {
        skip_space(s, from + 1)
    } else {
        from
    }
}

/// The end of `s[lo..hi]` once the white space at its end is dropped.
pub open spec fn drop_space(s: Seq<char>, lo: int, hi: int) -> int
    decreases hi - lo,
{
    if lo < hi <= s.len() && is_space(s[hi - 1]) {
        drop_space(s, lo, hi - 1)
    } else {
        hi
    }
}

/// `s` without the white space at its start and at its end.
pub open spec fn trim(s: Seq<char>) -> Seq<char> {
    let a = skip_space(s, 0);
    s.subrange(a, drop_space(s, a, s.len() as int))
}

/// The first index at or after `from` that holds `c`; `s.len()` where no
/// index from `from` on holds it (for `from` within `0..=s.len()`).
pub open spec fn find_char(s: Seq<char>, c: char, from: int) -> int
    decreases s.len() - from,
{
    if 0 <= from < s.len() && s[from] != c {
        find_char(s, c, from + 1)
    } else {
        from
    }
}

/// The first index `i` at or after `from` with `s[i] == a` and
/// `s[i + 1] == b`; `s.len()` where there is none.
pub open spec fn find_pair(s: Seq<char>, a: char, b: char, from: int) -> int
    decreases s.len() - from,
{
    if 0 <= from && from + 1 < s.len() {
        if s[from] == a && s[from + 1] == b {
            from
        } else {
            find_pair(s, a, b, from + 1)
        }
    } else if 0 <= from < s.len() {
        s.len() as int
    } else {
        from
    }
}

/// What `find_char` returns lies between `from` and the end, holds `c` when
/// it is an index, and nothing between `from` and it holds `c`.
pub proof fn lemma_find_char(s: Seq<char>, c: char, from: int)
    requires
        0 <= from <= s.len(),
    ensures
        from <= find_char(s, c, from) <= s.len(),
        find_char(s, c, from) < s.len() ==> s[find_char(s, c, from)] == c,
        forall|j: int| from <= j < find_char(s, c, from) ==> s[j] != c,
    decreases s.len() - from,
{
    if from < s.len() && s[from] != c {
        lemma_find_char(s, c, from + 1);
    }
}

/// What `find_pair` returns lies between `from` and the end, starts the pair
/// when it is an index, and no pair starts between `from` and it.
pub proof fn lemma_find_pair(s: Seq<char>, a: char, b: char, from: int)
    requires
        0 <= from <= s.len(),
    ensures
        from <= find_pair(s, a, b, from) <= s.len(),
        find_pair(s, a, b, from) < s.len() ==> {
            let i = find_pair(s, a, b, from);
            i + 1 < s.len() && s[i] == a && s[i + 1] == b
        },
        forall|j: int|
            from <= j < find_pair(s, a, b, from) && j + 1 < s.len() ==> !(s[j] == a && #[trigger] s[j + 1]
                == b),
    decreases s.len() - from,
{
    if from + 1 < s.len() && !(s[from] == a && s[from + 1] == b) {
        lemma_find_pair(s, a, b, from + 1);
    }
}

/// The lines of `s` from index `start` on: the pieces between line feeds,
/// the last of them running to the end of `s`.
pub open spec fn lines_from(s: Seq<char>, start: int) -> Seq<Seq<char>>
    decreases s.len() - start,
{
    if 0 <= start <= s.len() {
        let i = find_char(s, '\n', start);
        if start <= i < s.len() {
            seq![s.subrange(start, i)] + lines_from(s, i + 1)
        } else {
            seq![s.subrange(start, s.len() as int)]
        }
    } else {
        Seq::empty()
    }
}

/// The pieces of `s` between its line feeds: one more than it has line
/// feeds.
pub open spec fn split_lines(s: Seq<char>) -> Seq<Seq<char>> {
    lines_from(s, 0)
}

/// The views of the strings of `v`, in order.
pub open spec fn views(v: Seq<String>) -> Seq<Seq<char>> {
    Seq::new(v.len(), |i: int| v[i]@)
}

/// `chars` without the white space at both ends.
pub fn trim_chars<'a>(chars: &'a [char]) -> (out: &'a [char])
    ensures
        out@ == trim(chars@),
{
    let n = chars.len();
    let mut a: usize = 0;
    while a < n && is_whitespace(chars[a])
        invariant
            a <= n,
            n == chars@.len(),
            skip_space(chars@, 0) == skip_space(chars@, a as int),
        decreases n - a,
    {
        a += 1;
    }
    let mut b: usize = n;
    while a < b && is_whitespace(chars[b - 1])
        invariant
            a <= b <= n,
            n == chars@.len(),
            drop_space(chars@, a as int, n as int) == drop_space(chars@, a as int, b as int),
        decreases b - a,
    {
        b -= 1;
    }
    slice_subrange(chars, a, b)
}

/// The first index at or after `from` that holds `c`, if there is one.
pub fn index_of(chars: &[char], c: char, from: usize) -> (r: Option<usize>)
    requires
        from <= chars@.len(),
    ensures
        match r {
            Some(i) => i == find_char(chars@, c, from as int) && i < chars@.len(),
            None => find_char(chars@, c, from as int) == chars@.len(),
        },
{
    let n = chars.len();
    let mut i: usize = from;
    while i < n
        invariant
            from <= i <= n,
            n == chars@.len(),
            find_char(chars@, c, from as int) == find_char(chars@, c, i as int),
        decreases n - i,
    {
        if chars[i] == c {
            return Some(i);
        }
        i += 1;
    }
    None
}

/// The first index at or after `from` where `a` stands directly before `b`,
/// if there is one.
pub fn index_of_pair(chars: &[char], a: char, b: char, from: usize) -> (r: Option<usize>)
    requires
        from <= chars@.len(),
    ensures
        match r {
            Some(i) => i == find_pair(chars@, a, b, from as int) && i + 1 < chars@.len(),
            None => find_pair(chars@, a, b, from as int) == chars@.len(),
        },
{
    let n = chars.len();
    let mut i: usize = from;
    while i < n && i + 1 < n
        invariant
            from <= i <= n,
            n == chars@.len(),
            find_pair(chars@, a, b, from as int) == find_pair(chars@, a, b, i as int),
        decreases n - i,
    {
        if chars[i] == a && chars[i + 1] == b {
            return Some(i);
        }
        i += 1;
    }
    None
}

/// The lines of `text`.
pub fn lines_of(text: &[char]) -> (lines: Vec<String>)
    ensures
        views(lines@) == split_lines(text@),
{
    let n = text.len();
    let mut lines: Vec<String> = Vec::new();
    let mut start: usize = 0;
    loop
        invariant_except_break
            split_lines(text@) == views(lines@) + lines_from(text@, start as int),
        invariant
            start <= n,
            n == text@.len(),
        ensures
            views(lines@) == split_lines(text@),
        decreases n - start,
    {
        proof {
            lemma_find_char(text@, '\n', start as int);
        }
        match index_of(text, '\n', start) {
            Some(i) => {
                let ghost before = views(lines@);
                lines.push(string_of(slice_subrange(text, start, i)));
                assert(views(lines@) == before + seq![text@.subrange(start as int, i as int)]);
                start = i + 1;
            },
            None => {
                let ghost before = views(lines@);
                lines.push(string_of(slice_subrange(text, start, n)));
                assert(views(lines@) == before + seq![text@.subrange(start as int, n as int)]);
                break ;
            },
        }
    }
    lines
}

/// Whether `needle` stands in `s` at index `at`.
pub open spec fn stands_at(s: Seq<char>, needle: Seq<char>, at: int) -> bool {
    0 <= at && at + needle.len() <= s.len() && s.subrange(at, at + needle.len()) == needle
}

/// The first index at or after `from` at which `needle` stands in `s`; -1
/// where it stands at none.
pub open spec fn find_text(s: Seq<char>, needle: Seq<char>, from: int) -> int
    decreases s.len() + 1 - from,
{
    if from < 0 || from + needle.len() > s.len() {
        -1
    } else if stands_at(s, needle, from) {
        from
    } else {
        find_text(s, needle, from + 1)
    }
}

/// Whether `needle` stands somewhere in `s`.
pub open spec fn holds(s: Seq<char>, needle: Seq<char>) -> bool {
    find_text(s, needle, 0) >= 0
}

/// `s` from index `from` on without `needle`: wherever `needle` stands, seen
/// from the left, it is left out, and the search goes on behind it.
pub open spec fn without_from(s: Seq<char>, needle: Seq<char>, from: int) -> Seq<char>
    decreases s.len() - from,
{
    if !(0 <= from < s.len()) {
        Seq::empty()
    } else if needle.len() > 0 && stands_at(s, needle, from) {
        without_from(s, needle, from + needle.len())
    } else {
        seq![s[from]] + without_from(s, needle, from + 1)
    }
}

/// `s` with `to` in place of every `from`.
pub open spec fn swapped(s: Seq<char>, from: char, to: char) -> Seq<char> {
    Seq::new(s.len(), |i: int| if s[i] == from { to } else { s[i] })
}

/// `chars` with `to` in place of every `from`.
pub fn swap_chars(chars: &[char], from: char, to: char) -> (out: Vec<char>)
    ensures
        out@ == swapped(chars@, from, to),
{
    let mut out: Vec<char> = Vec::new();
    let mut i: usize = 0;
    while i < chars.len()
        invariant
            i <= chars@.len(),
            out@.len() == i,
            forall|k: int| 0 <= k < i ==> out@[k] == swapped(chars@, from, to)[k],
        decreases chars@.len() - i,
    {
        out.push(if chars[i] == from { to } else { chars[i] });
        i += 1;
    }
    assert(out@ =~= swapped(chars@, from, to));
    out
}

/// The decimal digits of `n`.
pub open spec fn decimal(n: nat) -> Seq<char>
    decreases n,
{
    if n < 10 {
        seq![digit(n)]
    } else {
        decimal(n / 10).push(digit(n % 10))
    }
}

/// The digit for `d`, a number below 10.
pub open spec fn digit(d: nat) -> char {
    if d == 0 {
        '0'
    } else if d == 1 {
        '1'
    } else if d == 2 {
        '2'
    } else if d == 3 {
        '3'
    } else if d == 4 {
        '4'
    } else if d == 5 {
        '5'
    } else if d == 6 {
        '6'
    } else if d == 7 {
        '7'
    } else if d == 8 {
        '8'
    } else {
        '9'
    }
}

/// Appends the decimal digits of `n` to `out`.
pub fn push_decimal(out: &mut String, n: usize)
    ensures
        final(out)@ == old(out)@ + decimal(n as nat),
    decreases n,
{
    let ghost before = out@;
    if n >= 10 {
        push_decimal(out, n / 10);
    }
    let d = n % 10;
    let c = if d == 0 {
        '0'
    } else if d == 1 {
        '1'
    } else if d == 2 {
        '2'
    } else if d == 3 {
        '3'
    } else if d == 4 {
        '4'
    } else if d == 5 {
        '5'
    } else if d == 6 {
        '6'
    } else if d == 7 {
        '7'
    } else if d == 8 {
        '8'
    } else {
        '9'
    };
    out.push(c);
    assert(out@ =~= before + decimal(n as nat));
}

/// Whether `needle` stands in `s` at index `at`.
pub fn matches_at(s: &[char], needle: &[char], at: usize) -> (b: bool)
    ensures
        b == stands_at(s@, needle@, at as int),
{
    let n = s.len();
    let m = needle.len();
    if at > n || m > n - at {
        return false;
    }
    let mut j: usize = 0;
    while j < m
        invariant
            j <= m,
            m == needle@.len(),
            n == s@.len(),
            at + m <= n,
            forall|k: int| 0 <= k < j ==> s@[at + k] == needle@[k],
        decreases m - j,
    {
        if s[at + j] != needle[j] {
            assert(s@.subrange(at as int, at + m)[j as int] != needle@[j as int]);
            return false;
        }
        j += 1;
    }
    assert(s@.subrange(at as int, at + m) =~= needle@);
    true
}

/// Whether `needle` stands somewhere in `s`.
pub fn contains(s: &[char], needle: &[char]) -> (b: bool)
    ensures
        b == holds(s@, needle@),
{
    let n = s.len();
    let m = needle.len();
    if m > n {
        return false;
    }
    let last = n - m;
    let mut i: usize = 0;
    while i < last
        invariant
            i <= last,
            last + m == n,
            n == s@.len(),
            m == needle@.len(),
            find_text(s@, needle@, 0) == find_text(s@, needle@, i as int),
        decreases last - i,
    {
        if matches_at(s, needle, i) {
            return true;
        }
        i += 1;
    }
    assert(find_text(s@, needle@, last + 1) == -1);
    matches_at(s, needle, last)
}

/// Appends `s` without `needle` to `out`.
pub fn push_without(out: &mut Vec<char>, s: &[char], needle: &[char])
    ensures
        final(out)@ == old(out)@ + without_from(s@, needle@, 0),
{
    let n = s.len();
    let m = needle.len();
    let ghost before = out@;
    let mut i: usize = 0;
    while i < n
        invariant
            i <= n,
            n == s@.len(),
            m == needle@.len(),
            before + without_from(s@, needle@, 0) == out@ + without_from(s@, needle@, i as int),
        decreases n - i,
    {
        if m > 0 && matches_at(s, needle, i) {
            i += m;
        } else {
            let ghost so_far = out@;
            out.push(s[i]);
            assert(so_far + (seq![s@[i as int]] + without_from(s@, needle@, i + 1)) =~= so_far.push(
                s@[i as int],
            ) + without_from(s@, needle@, i + 1));
            i += 1;
        }
    }
    assert(out@ + Seq::<char>::empty() =~= out@);
}

} // verus!

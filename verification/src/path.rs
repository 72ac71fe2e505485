//! Relative paths as text: segments separated by `/`.
//!
//! A path is compared and rewritten as a sequence of characters; nothing
//! here asks a file system. The file name of a path is its last segment,
//! slashes at the end of the path left aside.

use crate::text::{chars_of, find_char, index_of, lemma_find_char, string_of};
use vstd::prelude::*;
use vstd::slice::slice_subrange;
use vstd::string::StringExecFns;

verus! {

/// `rel` seen from `base`. A `rel` that starts at the root stands alone;
/// otherwise it follows `base`, after a `/` where `base` does not end in one
/// and is not empty.
pub open spec fn joined(base: Seq<char>, rel: Seq<char>) -> Seq<char> {
    if rel.len() > 0 && rel[0] == '/' {
        rel
    } else if base.len() > 0 && base.last() != '/' {
        base + seq!['/'] + rel
    } else {
        base + rel
    }
}

/// The end of `p[0..hi]` once the slashes at its end are dropped.
pub open spec fn drop_slashes(p: Seq<char>, hi: int) -> int
    decreases hi,
{
    if 0 < hi <= p.len() && p[hi - 1] == '/' {
        drop_slashes(p, hi - 1)
    } else {
        hi
    }
}

/// `p` without the slashes at its end.
pub open spec fn bare(p: Seq<char>) -> Seq<char> {
    p.subrange(0, drop_slashes(p, p.len() as int))
}

/// The start of the segment that ends at `hi`: the index after the last
/// slash before `hi`, or 0.
pub open spec fn segment_start(p: Seq<char>, hi: int) -> int
    decreases hi,
{
    if 0 < hi <= p.len() && p[hi - 1] != '/' {
        segment_start(p, hi - 1)
    } else {
        hi
    }
}

/// The index after the last dot of `p[lo..hi]`, or `lo` where it has none.
pub open spec fn after_last_dot(p: Seq<char>, lo: int, hi: int) -> int
    decreases hi - lo,
{
    if lo < hi <= p.len() && p[hi - 1] != '.' {
        after_last_dot(p, lo, hi - 1)
    } else {
        hi
    }
}

/// Where the file name of `p` ends.
pub open spec fn name_end(p: Seq<char>) -> int {
    drop_slashes(p, p.len() as int)
}

/// Where the file name of `p` starts.
pub open spec fn name_start(p: Seq<char>) -> int {
    segment_start(p, name_end(p))
}

/// The file name of `p`: its last segment.
pub open spec fn file_name_of(p: Seq<char>) -> Seq<char> {
    p.subrange(name_start(p), name_end(p))
}

/// Whether the last segment of `p` names a file or directory: it is not
/// empty and is neither `.` nor `..`.
pub open spec fn has_file_name(p: Seq<char>) -> bool {
    let name = file_name_of(p);
    name.len() > 0 && name != seq!['.'] && name != seq!['.', '.']
}

/// Where the stem of the file name of `p` ends: before its last dot, or at
/// the end of the name where it has no dot or only one, at its start.
pub open spec fn stem_end(p: Seq<char>) -> int {
    let k = after_last_dot(p, name_start(p), name_end(p));
    if k - 1 > name_start(p) {
        k - 1
    } else {
        name_end(p)
    }
}

/// The file name of `p` without its extension, where `p` has a file name.
pub open spec fn stem_of(p: Seq<char>) -> Option<Seq<char>> {
    if has_file_name(p) {
        Some(p.subrange(name_start(p), stem_end(p)))
    } else {
        None
    }
}

/// `p` with the extension of its file name replaced by `ext`, or taken away
/// where `ext` is empty. A `p` without a file name stays as it is.
pub open spec fn with_ext(p: Seq<char>, ext: Seq<char>) -> Seq<char> {
    if !has_file_name(p) {
        p
    } else if ext.len() == 0 {
        p.subrange(0, stem_end(p))
    } else {
        p.subrange(0, stem_end(p)) + seq!['.'] + ext
    }
}

/// The directory that holds the last segment of `p`: what stands before the
/// slashes in front of that segment, `/` where only they stand there, and
/// the empty path where `p` has one segment.
pub open spec fn parent_of(p: Seq<char>) -> Seq<char> {
    let s = name_start(p);
    let d = drop_slashes(p, s);
    if s == 0 {
        Seq::empty()
    } else if d == 0 {
        p.subrange(0, 1)
    } else {
        p.subrange(0, d)
    }
}

/// Whether `segment` names a file or directory: it is not empty and is
/// neither `.` nor `..`.
pub open spec fn names_something(segment: Seq<char>) -> bool {
    segment.len() > 0 && segment != seq!['.'] && segment != seq!['.', '.']
}

/// One `../` for each segment of `p`, from index `from` on, that names a
/// directory.
pub open spec fn up_from(p: Seq<char>, from: int) -> Seq<char>
    decreases p.len() - from,
{
    if !(0 <= from < p.len()) {
        Seq::empty()
    } else {
        let end = find_char(p, '/', from);
        let step = if names_something(p.subrange(from, end)) {
            seq!['.', '.', '/']
        } else {
            Seq::empty()
        };
        if from <= end < p.len() {
            step + up_from(p, end + 1)
        } else {
            step
        }
    }
}

/// The way from the directory of the page at `p` back to the directory
/// that `p` starts from: one `../` for each directory on the way to the
/// page.
pub open spec fn to_root_of(p: Seq<char>) -> Seq<char> {
    up_from(parent_of(p), 0)
}

/// A path that does not start at the root, joined to a directory that is
/// named without a slash at its end, is the directory, a slash and the path.
pub proof fn lemma_joined_relative(dir: Seq<char>, rel: Seq<char>)
    requires
        dir.len() > 0,
        dir.last() != '/',
        rel.len() == 0 || rel[0] != '/',
    ensures
        joined(dir, rel) == dir + seq!['/'] + rel,
{
}

/// The bounds computed by the scans above stay in order.
pub proof fn lemma_name_bounds(p: Seq<char>)
    ensures
        0 <= name_start(p) <= stem_end(p) <= name_end(p) <= p.len(),
        0 <= drop_slashes(p, name_start(p)) <= name_start(p),
{
    lemma_drop_slashes(p, p.len() as int);
    lemma_segment_start(p, name_end(p));
    lemma_after_last_dot(p, name_start(p), name_end(p));
    lemma_drop_slashes(p, name_start(p));
}

pub proof fn lemma_drop_slashes(p: Seq<char>, hi: int)
    requires
        0 <= hi <= p.len(),
    ensures
        0 <= drop_slashes(p, hi) <= hi,
        drop_slashes(p, hi) > 0 ==> p[drop_slashes(p, hi) - 1] != '/',
        forall|j: int| drop_slashes(p, hi) <= j < hi ==> p[j] == '/',
    decreases hi,
{
    if 0 < hi && p[hi - 1] == '/' {
        lemma_drop_slashes(p, hi - 1);
    }
}

pub proof fn lemma_segment_start(p: Seq<char>, hi: int)
    requires
        0 <= hi <= p.len(),
    ensures
        0 <= segment_start(p, hi) <= hi,
        segment_start(p, hi) > 0 ==> p[segment_start(p, hi) - 1] == '/',
        forall|j: int| segment_start(p, hi) <= j < hi ==> p[j] != '/',
    decreases hi,
{
    if 0 < hi && p[hi - 1] != '/' {
        lemma_segment_start(p, hi - 1);
    }
}

pub proof fn lemma_after_last_dot(p: Seq<char>, lo: int, hi: int)
    requires
        0 <= lo <= hi <= p.len(),
    ensures
        lo <= after_last_dot(p, lo, hi) <= hi,
        after_last_dot(p, lo, hi) > lo ==> p[after_last_dot(p, lo, hi) - 1] == '.',
        forall|j: int| after_last_dot(p, lo, hi) <= j < hi ==> p[j] != '.',
    decreases hi - lo,
{
    if lo < hi && p[hi - 1] != '.' {
        lemma_after_last_dot(p, lo, hi - 1);
    }
}

/// The end of `p[0..hi]` without the slashes at its end.
fn scan_slashes(p: &[char], hi: usize) -> (r: usize)
    requires
        hi <= p@.len(),
    ensures
        r == drop_slashes(p@, hi as int),
        r <= hi,
{
    let mut r: usize = hi;
    while r > 0 && p[r - 1] == '/'
        invariant
            r <= hi <= p@.len(),
            drop_slashes(p@, hi as int) == drop_slashes(p@, r as int),
        decreases r,
    {
        r -= 1;
    }
    r
}

/// The start of the segment of `p` that ends at `hi`.
fn scan_segment(p: &[char], hi: usize) -> (r: usize)
    requires
        hi <= p@.len(),
    ensures
        r == segment_start(p@, hi as int),
        r <= hi,
{
    let mut r: usize = hi;
    while r > 0 && p[r - 1] != '/'
        invariant
            r <= hi <= p@.len(),
            segment_start(p@, hi as int) == segment_start(p@, r as int),
        decreases r,
    {
        r -= 1;
    }
    r
}

/// The index after the last dot of `p[lo..hi]`, or `lo`.
fn scan_dot(p: &[char], lo: usize, hi: usize) -> (r: usize)
    requires
        lo <= hi <= p@.len(),
    ensures
        r == after_last_dot(p@, lo as int, hi as int),
        lo <= r <= hi,
{
    let mut r: usize = hi;
    while r > lo && p[r - 1] != '.'
        invariant
            lo <= r <= hi <= p@.len(),
            after_last_dot(p@, lo as int, hi as int) == after_last_dot(p@, lo as int, r as int),
        decreases r - lo,
    {
        r -= 1;
    }
    r
}

/// The bounds of the file name of `p` and of its stem, where it has a file
/// name.
fn name_parts(p: &[char]) -> (r: Option<(usize, usize)>)
    ensures
        match r {
            Some((start, stem)) => has_file_name(p@) && start == name_start(p@) && stem
                == stem_end(p@) && start <= stem <= p@.len(),
            None => !has_file_name(p@),
        },
{
    let end = scan_slashes(p, p.len());
    let start = scan_segment(p, end);
    proof {
        lemma_name_bounds(p@);
    }
    let ghost name = file_name_of(p@);
    if start == end {
        return None;
    }
    if end - start == 1 && p[start] == '.' {
        assert(name =~= seq!['.']);
        return None;
    }
    if end - start == 2 && p[start] == '.' && p[start + 1] == '.' {
        assert(name =~= seq!['.', '.']);
        return None;
    }
    assert(name != seq!['.']) by {
        if name == seq!['.'] {
            assert(name.len() == 1 && name[0] == '.');
        }
    }
    assert(name != seq!['.', '.']) by {
        if name == seq!['.', '.'] {
            assert(name.len() == 2 && name[0] == '.' && name[1] == '.');
        }
    }
    let k = scan_dot(p, start, end);
    let stem = if k > start + 1 {
        k - 1
    } else {
        end
    };
    Some((start, stem))
}

/// `p` without the slashes at its end.
pub fn strip(p: &str) -> (out: String)
    ensures
        out@ == bare(p@),
{
    let chars = chars_of(p);
    let end = scan_slashes(chars.as_slice(), chars.len());
    string_of(slice_subrange(chars.as_slice(), 0, end))
}

/// Joins `rel` to `base`.
pub fn join(base: &str, rel: &str) -> (out: String)
    ensures
        out@ == joined(base@, rel@),
{
    let b = chars_of(base);
    let r = chars_of(rel);
    if r.len() > 0 && r[0] == '/' {
        return rel.to_owned();
    }
    let mut out = base.to_owned();
    if b.len() > 0 && b[b.len() - 1] != '/' {
        out.push('/');
    }
    out.append(rel);
    out
}

/// Gives the file name of `p` the extension `ext`, or none where `ext` is
/// empty.
pub fn with_extension(p: &str, ext: &str) -> (out: String)
    ensures
        out@ == with_ext(p@, ext@),
{
    let chars = chars_of(p);
    match name_parts(chars.as_slice()) {
        None => p.to_owned(),
        Some((_, stem)) => {
            let mut out = string_of(slice_subrange(chars.as_slice(), 0, stem));
            if ext.unicode_len() > 0 {
                out.push('.');
                out.append(ext);
            }
            out
        },
    }
}

/// The file name of `p` without its extension, if `p` has a file name.
pub fn file_stem(p: &str) -> (out: Option<String>)
    ensures
        match out {
            Some(s) => stem_of(p@) == Some(s@),
            None => stem_of(p@) is None,
        },
{
    let chars = chars_of(p);
    match name_parts(chars.as_slice()) {
        None => None,
        Some((start, stem)) => Some(string_of(slice_subrange(chars.as_slice(), start, stem))),
    }
}

/// The way from the directory of the page at `p` back to where `p` starts
/// from.
pub fn path_to_root(p: &str) -> (out: String)
    ensures
        out@ == to_root_of(p@),
{
    let dir = parent(p);
    let chars = chars_of(dir.as_str());
    let n = chars.len();
    let mut out = String::new();
    let mut from: usize = 0;
    while from < n
        invariant
            from <= n,
            n == chars@.len(),
            chars@ == parent_of(p@),
            to_root_of(p@) == out@ + up_from(chars@, from as int),
        decreases n - from,
    {
        proof {
            lemma_find_char(chars@, '/', from as int);
        }
        let end = match index_of(chars.as_slice(), '/', from) {
            Some(i) => i,
            None => n,
        };
        let ghost segment = chars@.subrange(from as int, end as int);
        let ghost so_far = out@;
        let dots = end - from <= 2 && chars[from] == '.' && (end - from == 1 || chars[from + 1]
            == '.');
        proof {
            if end - from == 1 && chars[from as int] == '.' {
                assert(segment =~= seq!['.']);
            }
            if end - from == 2 && chars[from as int] == '.' && chars[from + 1] == '.' {
                assert(segment =~= seq!['.', '.']);
            }
            if segment == seq!['.'] {
                assert(segment.len() == 1 && segment[0] == '.');
            }
            if segment == seq!['.', '.'] {
                assert(segment.len() == 2 && segment[0] == '.' && segment[1] == '.');
            }
        }
        if end > from && !dots {
            out.push('.');
            out.push('.');
            out.push('/');
            assert(out@ =~= so_far + seq!['.', '.', '/']);
        } else {
            assert(out@ + Seq::<char>::empty() =~= out@);
        }
        if end >= n {
            assert(out@ + Seq::<char>::empty() =~= out@);
            return out;
        }
        assert(so_far + (out@.subrange(so_far.len() as int, out@.len() as int) + up_from(
            chars@,
            end + 1,
        )) =~= out@ + up_from(chars@, end + 1));
        from = end + 1;
    }
    assert(out@ + Seq::<char>::empty() =~= out@);
    out
}

/// The directory that holds the last segment of `p`.
pub fn parent(p: &str) -> (out: String)
    ensures
        out@ == parent_of(p@),
{
    let chars = chars_of(p);
    let end = scan_slashes(chars.as_slice(), chars.len());
    let s = scan_segment(chars.as_slice(), end);
    let d = scan_slashes(chars.as_slice(), s);
    if s == 0 {
        String::new()
    } else if d == 0 {
        string_of(slice_subrange(chars.as_slice(), 0, 1))
    } else {
        string_of(slice_subrange(chars.as_slice(), 0, d))
    }
}

} // verus!

//! Helpers on plain text.

use crate::text::chars_of;
use vstd::prelude::*;

verus! {

/// The upper case of `c` as `char::to_uppercase` of the standard library
/// gives it: one character or more.
pub uninterp spec fn uppercase_of(c: char) -> Seq<char>;

/// Calls `char::to_uppercase` and hands out the characters that it yields,
/// in order.
#[verifier::external_body]
fn uppercase(c: char) -> (out: Vec<char>)
    ensures
        out@ == uppercase_of(c),
{
    c.to_uppercase().collect()
}

/// `s` from index `from` on in camel case: every hyphen is left out, and
/// the character after a run of hyphens stands in upper case. `cap` says
/// whether a hyphen stands directly before `from`.
pub open spec fn camel_from(s: Seq<char>, from: int, cap: bool) -> Seq<char>
    decreases s.len() - from,
{
    if !(0 <= from < s.len()) {
        Seq::empty()
    } else if s[from] == '-' {
        camel_from(s, from + 1, true)
    } else if cap {
        uppercase_of(s[from]) + camel_from(s, from + 1, false)
    } else {
        seq![s[from]] + camel_from(s, from + 1, false)
    }
}

/// `input` in camel case: `font-size` becomes `fontSize`.
pub fn camel_case(input: &str) -> (res: String)
    ensures
        res@ == camel_from(input@, 0, false),
{
    let chars = chars_of(input);
    let n = chars.len();
    let mut res = String::new();
    let mut cap = false;
    let mut i: usize = 0;
    while i < n
        invariant
            i <= n,
            n == chars@.len(),
            chars@ == input@,
            camel_from(input@, 0, false) == res@ + camel_from(input@, i as int, cap),
        decreases n - i,
    {
        let c = chars[i];
        let ghost before = res@;
        if c == '-' {
            cap = true;
        } else if cap {
            let upper = uppercase(c);
            let mut j: usize = 0;
            while j < upper.len()
                invariant
                    j <= upper@.len(),
                    res@ == before + upper@.take(j as int),
                decreases upper@.len() - j,
            {
                res.push(upper[j]);
                assert(upper@.take(j + 1) =~= upper@.take(j as int).push(upper@[j as int]));
                j += 1;
            }
            assert(upper@.take(j as int) =~= upper@);
            assert(before + (upper@ + camel_from(input@, i + 1, false)) =~= (before + upper@)
                + camel_from(input@, i + 1, false));
            cap = false;
        } else {
            res.push(c);
            assert(before + (seq![c] + camel_from(input@, i + 1, false)) =~= before.push(c)
                + camel_from(input@, i + 1, false));
        }
        i += 1;
    }
    assert(res@ + Seq::<char>::empty() =~= res@);
    res
}

} // verus!

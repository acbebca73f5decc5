//! Bash-style brace expansion: `a{b,c}d` becomes `["abd", "acd"]` and `{1..3}`
//! becomes `["1", "2", "3"]`, with nested sets, numeric and alphabetic
//! sequences (with an optional step and zero-padding), backslash escaping and
//! the bash quirks.  Every step is stated over character sequences and
//! proved.

pub mod balanced;
pub mod escape;
pub mod expand;
pub mod laws;
pub mod number;
pub mod sequence;
pub mod text;

use crate::escape::{escape_braces, spec_escape_braces, spec_unescape_braces, unescape_braces};
use crate::expand::{expand_inner, spec_expand_inner};
use crate::text::views;
use vstd::prelude::*;

verus! {

/// The default cap on the number of generated results.
pub const EXPANSION_MAX: usize = 100_000;

/// The character sequences of a list of strings.
pub open spec fn strings(v: Seq<String>) -> Seq<Seq<char>> {
    Seq::new(v.len(), |i: int| v[i]@)
}

/// `pattern` with a leading `{}` escaped, since bash keeps a leading `{}`.
pub open spec fn protect_leading_braces(pattern: Seq<char>) -> Seq<char> {
    if pattern.len() >= 2 && pattern[0] == '{' && pattern[1] == '}' {
        seq!['\\', '{', '\\', '}'] + pattern.skip(2)
    } else {
        pattern
    }
}

/// The expansions of `pattern`, each set capped at `max` members: none for
/// the empty pattern.
pub open spec fn spec_expand(pattern: Seq<char>, max: nat) -> Seq<Seq<char>> {
    if pattern.len() == 0 {
        Seq::empty()
    } else {
        let r = spec_expand_inner(
            spec_escape_braces(protect_leading_braces(pattern)),
            max,
            true,
            0,
        );
        Seq::new(r.len(), |k: int| spec_unescape_braces(r[k]))
    }
}

/// `String::push`: afterwards the string holds its old characters followed
/// by `ch`.
pub assume_specification[ String::push ](string: &mut String, ch: char)
    ensures
        final(string)@ == old(string)@.push(ch),
;

/// The characters of `s`, in order.
fn chars_of(s: &str) -> (res: Vec<char>)
    ensures
        res@ == s@,
{
    let mut out: Vec<char> = Vec::new();
    for c in it: s.chars()
        invariant
            out@ == it.seq().take(it.index() as int),
    {
        out.push(c);
    }
    out
}

/// The string made of the characters of `v`.
fn string_of(v: &Vec<char>) -> (res: String)
    ensures
        res@ == v@,
{
    let mut out = String::new();
    let mut k: usize = 0;
    while k < v.len()
        invariant
            k <= v@.len(),
            out@ == v@.take(k as int),
        decreases v@.len() - k,
    {
        out.push(v[k]);
        k += 1;
        assert(out@ =~= v@.take(k as int));
    }
    assert(v@.take(k as int) =~= v@);
    out
}

/// Expand a brace pattern, capping the number of results of each set at
/// `max`.
pub fn expand_with_max(pattern: &str, max: usize) -> (res: Vec<String>)
    ensures
        strings(res@) == spec_expand(pattern@, max as nat),
        pattern@.len() == 0 ==> res@.len() == 0,
        res@.len() <= max || res@.len() == 1,
{
    if pattern.is_empty() {
        return Vec::new();
    }
    let chars = chars_of(pattern);
    let protected: Vec<char> = if chars.len() >= 2 && chars[0] == '{' && chars[1] == '}' {
        let mut p: Vec<char> = Vec::new();
        p.push('\\');
        p.push('{');
        p.push('\\');
        p.push('}');
        let mut k: usize = 2;
        while k < chars.len()
            invariant
                2 <= k <= chars@.len(),
                p@ == seq!['\\', '{', '\\', '}'] + chars@.subrange(2, k as int),
            decreases chars@.len() - k,
        {
            p.push(chars[k]);
            k += 1;
            assert(p@ =~= seq!['\\', '{', '\\', '}'] + chars@.subrange(2, k as int));
        }
        assert(chars@.subrange(2, k as int) =~= chars@.skip(2));
        p
    } else {
        chars
    };
    let expanded = expand_inner(&escape_braces(&protected), max, true, 0);
    let ghost r = views(expanded@);
    let mut out: Vec<String> = Vec::new();
    let mut k: usize = 0;
    while k < expanded.len()
        invariant
            r == views(expanded@),
            k <= expanded@.len(),
            strings(out@) == Seq::new(k as nat, |j: int| spec_unescape_braces(r[j])),
        decreases expanded@.len() - k,
    {
        assert(r[k as int] == expanded@[k as int]@);
        let s = string_of(&unescape_braces(&expanded[k]));
        let ghost before = strings(out@);
        out.push(s);
        assert(strings(out@) =~= before.push(spec_unescape_braces(r[k as int])));
        k += 1;
        assert(strings(out@) =~= Seq::new(k as nat, |j: int| spec_unescape_braces(r[j])));
    }
    out
}

/// Expand a brace pattern, returning every resulting string in order; the
/// number of results of each set is capped at `EXPANSION_MAX`.
pub fn expand(pattern: &str) -> (res: Vec<String>)
    ensures
        strings(res@) == spec_expand(pattern@, EXPANSION_MAX as nat),
{
    expand_with_max(pattern, EXPANSION_MAX)
}

} // verus!

//! Hiding backslash-escaped characters behind markers during expansion, and
//! bringing them back afterwards.

use crate::text::{free_of, matches_at, occurs_at};
use vstd::prelude::*;

verus! {

/// The marker that stands for an escaped backslash.
pub open spec fn esc_slash() -> Seq<char> {
    seq!['\u{0}', 'S', 'L', 'A', 'S', 'H', '\u{0}']
}

/// The marker that stands for an escaped `{`.
pub open spec fn esc_open() -> Seq<char> {
    seq!['\u{0}', 'O', 'P', 'E', 'N', '\u{0}']
}

/// The marker that stands for an escaped `}`.
pub open spec fn esc_close() -> Seq<char> {
    seq!['\u{0}', 'C', 'L', 'O', 'S', 'E', '\u{0}']
}

/// The marker that stands for an escaped `,`.
pub open spec fn esc_comma() -> Seq<char> {
    seq!['\u{0}', 'C', 'O', 'M', 'M', 'A', '\u{0}']
}

/// The marker that stands for an escaped `.`.
pub open spec fn esc_period() -> Seq<char> {
    seq!['\u{0}', 'P', 'E', 'R', 'I', 'O', 'D', '\u{0}']
}

/// Whether a backslash before `c` escapes it.
pub open spec fn is_escapable(c: char) -> bool {
    c == '\\' || c == '{' || c == '}' || c == ',' || c == '.'
}

/// The marker that stands for the escaped character `c`.
pub open spec fn marker(c: char) -> Seq<char> {
    if c == '\\' {
        esc_slash()
    } else if c == '{' {
        esc_open()
    } else if c == '}' {
        esc_close()
    } else if c == ',' {
        esc_comma()
    } else {
        esc_period()
    }
}

/// Whether `s` starts with an escape pair: a backslash and a character it
/// escapes.
pub open spec fn starts_escape(s: Seq<char>) -> bool {
    s.len() >= 2 && s[0] == '\\' && is_escapable(s[1])
}

/// Whether `s` starts with `m`.
pub open spec fn starts_with(s: Seq<char>, m: Seq<char>) -> bool {
    m.len() <= s.len() && s.take(m.len() as int) == m
}

/// `s` read from left to right, each escape pair (a backslash followed by
/// `\`, `{`, `}`, `,` or `.`) replaced by the marker of its character.
pub open spec fn spec_escape_braces(s: Seq<char>) -> Seq<char>
    decreases s.len(),
{
    if s.len() == 0 {
        Seq::empty()
    } else if starts_escape(s) {
        marker(s[1]) + spec_escape_braces(s.skip(2))
    } else {
        seq![s[0]] + spec_escape_braces(s.drop_first())
    }
}

/// `s` read from left to right, each marker replaced by the character it
/// stands for.
pub open spec fn spec_unescape_braces(s: Seq<char>) -> Seq<char>
    decreases s.len(),
{
    if s.len() == 0 {
        Seq::empty()
    } else if starts_with(s, esc_slash()) {
        seq!['\\'] + spec_unescape_braces(s.skip(esc_slash().len() as int))
    } else if starts_with(s, esc_open()) {
        seq!['{'] + spec_unescape_braces(s.skip(esc_open().len() as int))
    } else if starts_with(s, esc_close()) {
        seq!['}'] + spec_unescape_braces(s.skip(esc_close().len() as int))
    } else if starts_with(s, esc_comma()) {
        seq![','] + spec_unescape_braces(s.skip(esc_comma().len() as int))
    } else if starts_with(s, esc_period()) {
        seq!['.'] + spec_unescape_braces(s.skip(esc_period().len() as int))
    } else {
        seq![s[0]] + spec_unescape_braces(s.drop_first())
    }
}

/// `s` read from left to right, each escape pair replaced by its second
/// character: what an escaped pattern stands for.
pub open spec fn spec_unescaped_text(s: Seq<char>) -> Seq<char>
    decreases s.len(),
{
    if s.len() == 0 {
        Seq::empty()
    } else if starts_escape(s) {
        seq![s[1]] + spec_unescaped_text(s.skip(2))
    } else {
        seq![s[0]] + spec_unescaped_text(s.drop_first())
    }
}

/// A character other than NUL starts no marker.
proof fn lemma_unescape_plain_char(c: char, x: Seq<char>)
    requires
        c != '\u{0}',
    ensures
        spec_unescape_braces(seq![c] + x) == seq![c] + spec_unescape_braces(x),
{
    let s = seq![c] + x;
    assert(s[0] == c);
    assert(!starts_with(s, esc_slash())) by {
        if esc_slash().len() <= s.len() {
            assert(s.take(esc_slash().len() as int)[0] == s[0]);
        }
    }
    assert(!starts_with(s, esc_open())) by {
        if esc_open().len() <= s.len() {
            assert(s.take(esc_open().len() as int)[0] == s[0]);
        }
    }
    assert(!starts_with(s, esc_close())) by {
        if esc_close().len() <= s.len() {
            assert(s.take(esc_close().len() as int)[0] == s[0]);
        }
    }
    assert(!starts_with(s, esc_comma())) by {
        if esc_comma().len() <= s.len() {
            assert(s.take(esc_comma().len() as int)[0] == s[0]);
        }
    }
    assert(!starts_with(s, esc_period())) by {
        if esc_period().len() <= s.len() {
            assert(s.take(esc_period().len() as int)[0] == s[0]);
        }
    }
    assert(s.drop_first() =~= x);
}

/// A marker at the front is brought back to its character.
pub proof fn lemma_unescape_marker(c: char, x: Seq<char>)
    requires
        is_escapable(c),
    ensures
        spec_unescape_braces(marker(c) + x) == seq![c] + spec_unescape_braces(x),
{
    let m = marker(c);
    let s = m + x;
    assert(s.take(m.len() as int) =~= m);
    assert(s.skip(m.len() as int) =~= x);
    assert(s[1] == m[1] && s[2] == m[2]);
    if c != '\\' {
        assert(!starts_with(s, esc_slash())) by {
            if esc_slash().len() <= s.len() {
                assert(s.take(esc_slash().len() as int)[1] == s[1]);
            }
        }
    }
    if c != '\\' && c != '{' {
        assert(!starts_with(s, esc_open())) by {
            if esc_open().len() <= s.len() {
                assert(s.take(esc_open().len() as int)[1] == s[1]);
            }
        }
    }
    if c == ',' || c == '.' {
        assert(!starts_with(s, esc_close())) by {
            if esc_close().len() <= s.len() {
                assert(s.take(esc_close().len() as int)[1] == s[1]);
                assert(s.take(esc_close().len() as int)[2] == s[2]);
            }
        }
    }
    if c == '.' {
        assert(!starts_with(s, esc_comma())) by {
            if esc_comma().len() <= s.len() {
                assert(s.take(esc_comma().len() as int)[1] == s[1]);
            }
        }
    }
}

/// Escaping text without a backslash, ahead of more text, keeps it as it is.
pub proof fn lemma_escape_concat(a: Seq<char>, b: Seq<char>)
    requires
        free_of(a, '\\'),
    ensures
        spec_escape_braces(a + b) == a + spec_escape_braces(b),
    decreases a.len(),
{
    if a.len() == 0 {
        assert(a + b =~= b);
        assert(a + spec_escape_braces(b) =~= spec_escape_braces(b));
    } else {
        assert((a + b)[0] == a[0]);
        assert((a + b).drop_first() =~= a.drop_first() + b);
        assert(free_of(a.drop_first(), '\\')) by {
            assert forall|i: int| 0 <= i < a.drop_first().len() implies a.drop_first()[i]
                != '\\' by {
                assert(a.drop_first()[i] == a[i + 1]);
            }
        }
        lemma_escape_concat(a.drop_first(), b);
        assert(seq![a[0]] + (a.drop_first() + spec_escape_braces(b)) =~= a + spec_escape_braces(
            b,
        ));
    }
}

/// Unescaping text without NUL, ahead of more text, keeps it as it is.
pub proof fn lemma_unescape_concat(a: Seq<char>, b: Seq<char>)
    requires
        free_of(a, '\u{0}'),
    ensures
        spec_unescape_braces(a + b) == a + spec_unescape_braces(b),
    decreases a.len(),
{
    if a.len() == 0 {
        assert(a + b =~= b);
        assert(a + spec_unescape_braces(b) =~= spec_unescape_braces(b));
    } else {
        assert(a + b =~= seq![a[0]] + (a.drop_first() + b));
        lemma_unescape_plain_char(a[0], a.drop_first() + b);
        assert(free_of(a.drop_first(), '\u{0}')) by {
            assert forall|i: int| 0 <= i < a.drop_first().len() implies a.drop_first()[i]
                != '\u{0}' by {
                assert(a.drop_first()[i] == a[i + 1]);
            }
        }
        lemma_unescape_concat(a.drop_first(), b);
        assert(seq![a[0]] + (a.drop_first() + spec_unescape_braces(b)) =~= a
            + spec_unescape_braces(b));
    }
}

/// Text without a backslash has nothing to escape.
pub proof fn lemma_escape_without_backslash(s: Seq<char>)
    requires
        free_of(s, '\\'),
    ensures
        spec_escape_braces(s) == s,
{
    lemma_escape_concat(s, Seq::empty());
    assert(s + Seq::<char>::empty() =~= s);
}

/// Text without NUL holds no marker to bring back.
pub proof fn lemma_unescape_without_nul(s: Seq<char>)
    requires
        free_of(s, '\u{0}'),
    ensures
        spec_unescape_braces(s) == s,
{
    lemma_unescape_concat(s, Seq::empty());
    assert(s + Seq::<char>::empty() =~= s);
}

/// A single escape pair between text without backslash or NUL is hidden
/// behind its marker, and brought back as the escaped character.
pub proof fn lemma_escape_one(a: Seq<char>, c: char, b: Seq<char>)
    requires
        free_of(a, '\\'),
        free_of(b, '\\'),
        free_of(a, '\u{0}'),
        free_of(b, '\u{0}'),
        is_escapable(c),
    ensures
        spec_escape_braces(a + seq!['\\', c] + b) == a + marker(c) + b,
        spec_unescape_braces(a + marker(c) + b) == a + seq![c] + b,
{
    let pair = seq!['\\', c] + b;
    assert(a + seq!['\\', c] + b =~= a + pair);
    lemma_escape_concat(a, pair);
    assert(pair.skip(2) =~= b);
    lemma_escape_without_backslash(b);
    assert(spec_escape_braces(pair) == marker(c) + b);
    assert(a + (marker(c) + b) =~= a + marker(c) + b);
    assert(a + marker(c) + b =~= a + (marker(c) + b));
    lemma_unescape_concat(a, marker(c) + b);
    lemma_unescape_marker(c, b);
    lemma_unescape_without_nul(b);
    assert(a + (seq![c] + b) =~= a + seq![c] + b);
}

/// For text without NUL, unescaping the escaped text gives the text with each
/// escape pair replaced by its second character.
pub proof fn law_escape_round_trip(s: Seq<char>)
    requires
        free_of(s, '\u{0}'),
    ensures
        spec_unescape_braces(spec_escape_braces(s)) == spec_unescaped_text(s),
    decreases s.len(),
{
    if s.len() > 0 {
        if starts_escape(s) {
            assert(free_of(s.skip(2), '\u{0}')) by {
                assert forall|i: int| 0 <= i < s.skip(2).len() implies s.skip(2)[i] != '\u{0}' by {
                    assert(s.skip(2)[i] == s[i + 2]);
                }
            }
            law_escape_round_trip(s.skip(2));
            lemma_unescape_marker(s[1], spec_escape_braces(s.skip(2)));
        } else {
            assert(free_of(s.drop_first(), '\u{0}')) by {
                assert forall|i: int| 0 <= i < s.drop_first().len() implies s.drop_first()[i]
                    != '\u{0}' by {
                    assert(s.drop_first()[i] == s[i + 1]);
                }
            }
            law_escape_round_trip(s.drop_first());
            assert(s[0] != '\u{0}');
            lemma_unescape_plain_char(s[0], spec_escape_braces(s.drop_first()));
        }
    }
}

/// The marker that stands for the escaped character `c`.
fn marker_vec(c: char) -> (res: Vec<char>)
    requires
        is_escapable(c),
    ensures
        res@ == marker(c),
{
    let res = if c == '\\' {
        vec!['\u{0}', 'S', 'L', 'A', 'S', 'H', '\u{0}']
    } else if c == '{' {
        vec!['\u{0}', 'O', 'P', 'E', 'N', '\u{0}']
    } else if c == '}' {
        vec!['\u{0}', 'C', 'L', 'O', 'S', 'E', '\u{0}']
    } else if c == ',' {
        vec!['\u{0}', 'C', 'O', 'M', 'M', 'A', '\u{0}']
    } else {
        vec!['\u{0}', 'P', 'E', 'R', 'I', 'O', 'D', '\u{0}']
    };
    assert(res@ =~= marker(c));
    res
}

/// The marker that stands for an escaped `}`.
pub fn esc_close_vec() -> (res: Vec<char>)
    ensures
        res@ == esc_close(),
{
    marker_vec('}')
}

fn is_escapable_char(c: char) -> (res: bool)
    ensures
        res == is_escapable(c),
{
    c == '\\' || c == '{' || c == '}' || c == ',' || c == '.'
}

/// Hide the backslash-escaped characters of `s` behind markers, reading it
/// once from left to right.
pub fn escape_braces(s: &Vec<char>) -> (res: Vec<char>)
    ensures
        res@ == spec_escape_braces(s@),
{
    let mut out: Vec<char> = Vec::new();
    let mut i: usize = 0;
    assert(s@.skip(0) =~= s@);
    while i < s.len()
        invariant
            i <= s@.len(),
            out@ + spec_escape_braces(s@.skip(i as int)) == spec_escape_braces(s@),
        decreases s@.len() - i,
    {
        let ghost t = s@.skip(i as int);
        assert(t[0] == s@[i as int]);
        if s[i] == '\\' && i + 1 < s.len() && is_escapable_char(s[i + 1]) {
            assert(t[1] == s@[i + 1]);
            assert(t.skip(2) =~= s@.skip(i + 2));
            let m = marker_vec(s[i + 1]);
            let ghost before = out@;
            let mut k: usize = 0;
            while k < m.len()
                invariant
                    k <= m@.len(),
                    out@ == before + m@.take(k as int),
                decreases m@.len() - k,
            {
                out.push(m[k]);
                k += 1;
                assert(out@ =~= before + m@.take(k as int));
            }
            assert(m@.take(k as int) =~= m@);
            assert(before + (m@ + spec_escape_braces(s@.skip(i + 2))) =~= out@
                + spec_escape_braces(s@.skip(i + 2)));
            i = i + 2;
        } else {
            assert(!starts_escape(t));
            assert(t.drop_first() =~= s@.skip(i + 1));
            let ghost before = out@;
            out.push(s[i]);
            assert(before + (seq![t[0]] + spec_escape_braces(s@.skip(i + 1))) =~= out@
                + spec_escape_braces(s@.skip(i + 1)));
            i = i + 1;
        }
    }
    assert(s@.skip(i as int) =~= Seq::<char>::empty());
    assert(out@ + Seq::<char>::empty() =~= out@);
    out
}

proof fn lemma_starts_with_at(s: Seq<char>, m: Seq<char>, i: int)
    requires
        0 <= i <= s.len(),
    ensures
        starts_with(s.skip(i), m) == occurs_at(s, m, i),
{
    if i + m.len() <= s.len() {
        assert(s.skip(i).take(m.len() as int) =~= s.subrange(i, i + m.len()));
    }
}

/// Bring back the characters that the markers in `s` stand for, reading it
/// once from left to right.
pub fn unescape_braces(s: &Vec<char>) -> (res: Vec<char>)
    ensures
        res@ == spec_unescape_braces(s@),
{
    let slash = marker_vec('\\');
    let open = marker_vec('{');
    let close = marker_vec('}');
    let comma = marker_vec(',');
    let period = marker_vec('.');
    let mut out: Vec<char> = Vec::new();
    let mut i: usize = 0;
    assert(s@.skip(0) =~= s@);
    while i < s.len()
        invariant
            i <= s@.len(),
            slash@ == esc_slash(),
            open@ == esc_open(),
            close@ == esc_close(),
            comma@ == esc_comma(),
            period@ == esc_period(),
            out@ + spec_unescape_braces(s@.skip(i as int)) == spec_unescape_braces(s@),
        decreases s@.len() - i,
    {
        let ghost t = s@.skip(i as int);
        let ghost before = out@;
        proof {
            lemma_starts_with_at(s@, esc_slash(), i as int);
            lemma_starts_with_at(s@, esc_open(), i as int);
            lemma_starts_with_at(s@, esc_close(), i as int);
            lemma_starts_with_at(s@, esc_comma(), i as int);
            lemma_starts_with_at(s@, esc_period(), i as int);
        }
        let (c, width): (char, usize) = if matches_at(s, &slash, i) {
            ('\\', slash.len())
        } else if matches_at(s, &open, i) {
            ('{', open.len())
        } else if matches_at(s, &close, i) {
            ('}', close.len())
        } else if matches_at(s, &comma, i) {
            (',', comma.len())
        } else if matches_at(s, &period, i) {
            ('.', period.len())
        } else {
            (s[i], 1)
        };
        assert(t[0] == s@[i as int]);
        assert(t.skip(width as int) =~= s@.skip(i + width));
        assert(t.drop_first() =~= s@.skip(i + 1));
        assert(spec_unescape_braces(t) == seq![c] + spec_unescape_braces(s@.skip(i + width)));
        out.push(c);
        assert(before + (seq![c] + spec_unescape_braces(s@.skip(i + width))) =~= out@
            + spec_unescape_braces(s@.skip(i + width)));
        i = i + width;
    }
    assert(s@.skip(i as int) =~= Seq::<char>::empty());
    assert(out@ + Seq::<char>::empty() =~= out@);
    out
}

} // verus!

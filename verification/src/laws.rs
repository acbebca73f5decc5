//! What the library promises of whole patterns, proved over the model.

use crate::balanced::{
    law_balanced_outer_set,
    lemma_one_set_balanced,
    lemma_balanced_after_open,
    lemma_balanced_first_set,
    lemma_balanced_rebuilds,
    lemma_range_without_open,
    spec_balanced,
};
use crate::escape::{
    esc_close,
    esc_open,
    is_escapable,
    lemma_escape_one,
    lemma_escape_without_backslash,
    lemma_unescape_marker,
    marker,
    lemma_unescape_without_nul,
    spec_escape_braces,
    spec_unescape_braces,
};
use crate::expand::{
    cap,
    around,
    closes_later,
    comma,
    is_line_terminator,
    drop_empty,
    pairs,
    spec_combine,
    spec_embrace,
    spec_has_dangling_close,
    ends_with_dollar,
    lemma_drop_empty_members,
    lemma_expand_all_without_open,
    lemma_expand_inner_without_open,
    lemma_pairs_one_suffix,
    spec_comma_parts,
    spec_expand_inner,
};
use crate::number::{
    is_digit,
    is_letter,
    lemma_int_chars,
    lemma_pad_number_chars,
    spec_is_int,
    spec_is_single_letter,
};
use crate::sequence::{
    dots,
    lemma_comma_body_not_sequence,
    alpha_member,
    lemma_steps_in_range,
    seq_first,
    seq_last,
    seq_step,
    spec_is_alpha_sequence,
    spec_is_numeric_sequence,
    spec_sequence,
    members_in_range,
    step_size,
};
use crate::text::{
    free_of,
    join,
    lemma_free_concat,
    lemma_join_append,
    lemma_join_extend_last,
    lemma_join_free,
    lemma_join_split,
    lemma_split_join,
    lemma_split_nonempty,
    split_by,
};
use crate::{protect_leading_braces, spec_expand};
use vstd::prelude::*;

verus! {

/// Whether `s` lacks every character that brace expansion treats specially
/// outside a set: `{`, the backslash and NUL.
pub open spec fn is_plain(s: Seq<char>) -> bool {
    free_of(s, '{') && free_of(s, '\\') && free_of(s, '\u{0}')
}

/// A non-empty pattern without `{`, backslash or NUL expands to itself alone.
pub proof fn law_plain_pattern_unchanged(pattern: Seq<char>, max: nat)
    requires
        pattern.len() > 0,
        is_plain(pattern),
    ensures
        spec_expand(pattern, max) == seq![pattern],
{
    assert(pattern[0] != '{');
    assert(protect_leading_braces(pattern) == pattern);
    lemma_escape_without_backslash(pattern);
    lemma_expand_inner_without_open(pattern, max, true, 0);
    lemma_unescape_without_nul(pattern);
    assert(spec_expand(pattern, max) =~= seq![pattern]);
}

/// Whether `members` can be the members of a comma set written out plainly:
/// none holds a brace, a comma, a backslash or NUL.
pub open spec fn plain_members(members: Seq<Seq<char>>) -> bool {
    forall|k: int|
        0 <= k < members.len() ==> is_plain(#[trigger] members[k]) && free_of(members[k], '}')
            && free_of(members[k], ',')
}

/// The expansions of whatever follows a set: one empty suffix when nothing
/// follows.
pub open spec fn suffixes(rest: Seq<char>, max: nat, depth: int) -> Seq<Seq<char>> {
    if rest.len() == 0 {
        seq![Seq::<char>::empty()]
    } else {
        spec_expand_inner(rest, max, false, depth + 1)
    }
}

/// A comma set of plain members after text without `{` expands, at any depth
/// below the bound, into its members combined with the expansions of what
/// follows it.
proof fn lemma_expand_comma_set(
    pre: Seq<char>,
    members: Seq<Seq<char>>,
    rest: Seq<char>,
    max: nat,
    is_top: bool,
    depth: int,
)
    requires
        members.len() >= 2,
        plain_members(members),
        free_of(pre, '{') || spec_balanced(
            pre + seq!['{'] + join(members, comma()) + seq!['}'] + rest,
        ) == Some((pre, join(members, comma()), rest)),
        !ends_with_dollar(pre),
        0 <= depth < 256,
        pre.len() + join(members, comma()).len() + rest.len() + 2 <= usize::MAX,
    ensures
        spec_expand_inner(pre + seq!['{'] + join(members, comma()) + seq!['}'] + rest, max, is_top, depth)
            == spec_combine(pre, members, suffixes(rest, max, depth), max, !is_top),
{
    let body = join(members, comma());
    lemma_join_free(members, comma(), '{');
    lemma_join_free(members, comma(), '}');
    assert(body == members[0] + comma() + join(members.drop_first(), comma()));
    assert(body[members[0].len() as int] == ',');
    assert(!free_of(body, ','));
    assert(body.contains(','));
    if free_of(pre, '{') {
        lemma_balanced_first_set(pre, body, rest);
    }
    lemma_comma_body_not_sequence(body);
    lemma_range_without_open(body);
    assert forall|k: int| 0 <= k < members.len() implies free_of(#[trigger] members[k], comma()[0])
        by {
        assert(free_of(members[k], ','));
    }
    lemma_split_join(members, comma());
    assert(spec_comma_parts(body, depth + 1) == members);
    assert forall|k: int| 0 <= k < members.len() implies free_of(#[trigger] members[k], '{') by {
        assert(is_plain(members[k]));
    }
    lemma_expand_all_without_open(members, max, depth + 1);
}

/// Each expansion of a set combination holds no character that `pre`, the
/// items and the suffixes all lack.
proof fn lemma_pairs_free(pre: Seq<char>, items: Seq<Seq<char>>, post: Seq<Seq<char>>, c: char)
    requires
        free_of(pre, c),
        forall|k: int| 0 <= k < items.len() ==> free_of(#[trigger] items[k], c),
        forall|k: int| 0 <= k < post.len() ==> free_of(#[trigger] post[k], c),
    ensures
        forall|k: int|
            0 <= k < pairs(pre, items, post).len() ==> free_of(#[trigger] pairs(pre, items, post)[k], c),
    decreases items.len(),
{
    if items.len() > 0 {
        assert forall|k: int| 0 <= k < items.drop_last().len() implies free_of(
            #[trigger] items.drop_last()[k],
            c,
        ) by {
            assert(items.drop_last()[k] == items[k]);
        }
        lemma_pairs_free(pre, items.drop_last(), post, c);
        let d = pairs(pre, items.drop_last(), post);
        let row = around(pre, items.last(), post);
        assert forall|k: int| 0 <= k < pairs(pre, items, post).len() implies free_of(
            #[trigger] pairs(pre, items, post)[k],
            c,
        ) by {
            if k < d.len() {
                assert(pairs(pre, items, post)[k] == d[k]);
            } else {
                let j = k - d.len();
                assert(pairs(pre, items, post)[k] == row[j]);
                assert(free_of(items[items.len() - 1], c));
                lemma_free_concat(pre, items.last(), c);
                lemma_free_concat(pre + items.last(), post[j], c);
            }
        }
    }
}

/// The results of a combination capped and without empty members, once the
/// pattern had nothing to escape, come out as they are.
proof fn lemma_unescaped_results(es: Seq<Seq<char>>, max: nat)
    requires
        forall|k: int| 0 <= k < es.len() ==> free_of(#[trigger] es[k], '\u{0}'),
    ensures
        forall|k: int|
            0 <= k < cap(drop_empty(es), max).len() ==> spec_unescape_braces(
                #[trigger] cap(drop_empty(es), max)[k],
            ) == cap(drop_empty(es), max)[k],
{
    lemma_drop_empty_members(es, '\u{0}');
    let r = cap(drop_empty(es), max);
    assert forall|k: int| 0 <= k < r.len() implies spec_unescape_braces(#[trigger] r[k]) == r[k] by {
        assert(r[k] == drop_empty(es)[k]);
        lemma_unescape_without_nul(r[k]);
    }
}

/// Plain text around a pattern that has nothing to escape and no leading
/// `{}` goes through escaping and the leading-brace rule unchanged.
proof fn lemma_prepared(pattern: Seq<char>)
    requires
        free_of(pattern, '\\'),
        pattern.len() >= 2 ==> !(pattern[0] == '{' && pattern[1] == '}'),
    ensures
        spec_escape_braces(protect_leading_braces(pattern)) == pattern,
{
    lemma_escape_without_backslash(pattern);
}

/// A comma set of two or more members, with plain text before and after it,
/// expands to each member between that text, in order, the empty results
/// dropped and at most `max` of them.
#[verifier::rlimit(50)]
#[verifier::spinoff_prover]
pub proof fn law_comma_set(pre: Seq<char>, members: Seq<Seq<char>>, post: Seq<char>, max: nat)
    requires
        members.len() >= 2,
        plain_members(members),
        is_plain(pre),
        !ends_with_dollar(pre),
        is_plain(post),
        pre.len() + join(members, comma()).len() + post.len() + 2 <= usize::MAX,
    ensures
        spec_expand(pre + seq!['{'] + join(members, comma()) + seq!['}'] + post, max) == cap(
            drop_empty(Seq::new(members.len(), |i: int| pre + members[i] + post)),
            max,
        ),
{
    let body = join(members, comma());
    let pattern = pre + seq!['{'] + body + seq!['}'] + post;
    lemma_join_free(members, comma(), '\\');
    lemma_join_free(members, comma(), '}');
    lemma_free_concat(pre, seq!['{'], '\\');
    lemma_free_concat(pre + seq!['{'], body, '\\');
    lemma_free_concat(pre + seq!['{'] + body, seq!['}'], '\\');
    lemma_free_concat(pre + seq!['{'] + body + seq!['}'], post, '\\');
    assert(body == members[0] + comma() + join(members.drop_first(), comma()));
    if pre.len() == 0 {
        assert(pattern[1] == body[0]);
        assert(body[0] != '}');
    }
    lemma_prepared(pattern);
    lemma_expand_comma_set(pre, members, post, max, true, 0);
    lemma_expand_inner_without_open(post, max, false, 1);
    if post.len() == 0 {
        assert(post =~= Seq::<char>::empty());
    }
    assert(suffixes(post, max, 0) == seq![post]);
    lemma_pairs_one_suffix(pre, members, post);
    let all = Seq::new(members.len(), |i: int| pre + members[i] + post);
    let r = spec_expand_inner(pattern, max, true, 0);
    assert(r == cap(drop_empty(all), max));
    assert forall|k: int| 0 <= k < all.len() implies free_of(#[trigger] all[k], '\u{0}') by {
        assert(is_plain(members[k]));
        lemma_free_concat(pre, members[k], '\u{0}');
        lemma_free_concat(pre + members[k], post, '\u{0}');
    }
    lemma_unescaped_results(all, max);
    assert(spec_expand(pattern, max) =~= r);
}

/// Two comma sets combine as a cross product: for each member of the first,
/// in order, each expansion of the rest of the pattern, which is the second
/// set between its surrounding text and capped at `max`; the empty results
/// dropped and at most `max` of them.
#[verifier::rlimit(50)]
#[verifier::spinoff_prover]
pub proof fn law_two_sets(
    pre: Seq<char>,
    first: Seq<Seq<char>>,
    mid: Seq<char>,
    second: Seq<Seq<char>>,
    post: Seq<char>,
    max: nat,
)
    requires
        first.len() >= 2,
        second.len() >= 2,
        plain_members(first),
        plain_members(second),
        is_plain(pre),
        !ends_with_dollar(pre),
        is_plain(mid),
        !ends_with_dollar(mid),
        is_plain(post),
        pre.len() + join(first, comma()).len() + mid.len() + join(second, comma()).len()
            + post.len() + 4 <= usize::MAX,
    ensures
        spec_expand(
            pre + seq!['{'] + join(first, comma()) + seq!['}'] + mid + seq!['{'] + join(
                second,
                comma(),
            ) + seq!['}'] + post,
            max,
        ) == cap(
            drop_empty(
                pairs(
                    pre,
                    first,
                    cap(Seq::new(second.len(), |j: int| mid + second[j] + post), max),
                ),
            ),
            max,
        ),
{
    let b1 = join(first, comma());
    let b2 = join(second, comma());
    let rest = mid + seq!['{'] + b2 + seq!['}'] + post;
    let pattern = pre + seq!['{'] + b1 + seq!['}'] + rest;
    assert(pattern =~= pre + seq!['{'] + b1 + seq!['}'] + mid + seq!['{'] + b2 + seq!['}']
        + post);
    lemma_join_free(first, comma(), '\\');
    lemma_join_free(second, comma(), '\\');
    lemma_join_free(first, comma(), '}');
    lemma_free_concat(mid, seq!['{'], '\\');
    lemma_free_concat(mid + seq!['{'], b2, '\\');
    lemma_free_concat(mid + seq!['{'] + b2, seq!['}'], '\\');
    lemma_free_concat(mid + seq!['{'] + b2 + seq!['}'], post, '\\');
    lemma_free_concat(pre, seq!['{'], '\\');
    lemma_free_concat(pre + seq!['{'], b1, '\\');
    lemma_free_concat(pre + seq!['{'] + b1, seq!['}'], '\\');
    lemma_free_concat(pre + seq!['{'] + b1 + seq!['}'], rest, '\\');
    assert(b1 == first[0] + comma() + join(first.drop_first(), comma()));
    if pre.len() == 0 {
        assert(pattern[1] == b1[0]);
        assert(b1[0] != '}');
    }
    lemma_prepared(pattern);
    // The second set, one level down.
    lemma_expand_comma_set(mid, second, post, max, false, 1);
    lemma_expand_inner_without_open(post, max, false, 2);
    if post.len() == 0 {
        assert(post =~= Seq::<char>::empty());
    }
    assert(suffixes(post, max, 1) == seq![post]);
    lemma_pairs_one_suffix(mid, second, post);
    let q = cap(Seq::new(second.len(), |j: int| mid + second[j] + post), max);
    assert(spec_expand_inner(rest, max, false, 1) == q);
    // The first set, at the top.
    lemma_expand_comma_set(pre, first, rest, max, true, 0);
    assert(suffixes(rest, max, 0) == q);
    let all = pairs(pre, first, q);
    let r = spec_expand_inner(pattern, max, true, 0);
    assert(r == cap(drop_empty(all), max));
    // No result holds a NUL.
    assert forall|k: int| 0 <= k < first.len() implies free_of(#[trigger] first[k], '\u{0}') by {
        assert(is_plain(first[k]));
    }
    assert forall|k: int| 0 <= k < q.len() implies free_of(#[trigger] q[k], '\u{0}') by {
        assert(is_plain(second[k]));
        lemma_free_concat(mid, second[k], '\u{0}');
        lemma_free_concat(mid + second[k], post, '\u{0}');
    }
    lemma_pairs_free(pre, first, q, '\u{0}');
    lemma_unescaped_results(all, max);
    assert(spec_expand(pattern, max) =~= r);
}

/// Plain text around one set that is neither a comma set nor a sequence,
/// with no stray `}` after it that a comma could claim, expands to itself: the
/// set stays literal.  After a `$` this takes a cap of at least one.
#[verifier::rlimit(50)]
#[verifier::spinoff_prover]
pub proof fn law_literal_set(pre: Seq<char>, body: Seq<char>, post: Seq<char>, max: nat)
    requires
        is_plain(pre),
        is_plain(body),
        free_of(body, '}'),
        free_of(body, ','),
        !spec_is_numeric_sequence(body),
        !spec_is_alpha_sequence(body),
        is_plain(post),
        !spec_has_dangling_close(post),
        ends_with_dollar(pre) ==> max >= 1,
        pre.len() + body.len() + post.len() + 2 <= usize::MAX,
    ensures
        spec_expand(pre + seq!['{'] + body + seq!['}'] + post, max) == seq![
            pre + seq!['{'] + body + seq!['}'] + post,
        ],
{
    let pattern = pre + seq!['{'] + body + seq!['}'] + post;
    if pre.len() == 0 && body.len() == 0 {
        assert(pattern =~= seq!['{', '}'] + post);
        law_leading_empty_set(post, max);
    } else {
        lemma_free_concat(pre, seq!['{'], '\\');
        lemma_free_concat(pre + seq!['{'], body, '\\');
        lemma_free_concat(pre + seq!['{'] + body, seq!['}'], '\\');
        lemma_free_concat(pre + seq!['{'] + body + seq!['}'], post, '\\');
        lemma_free_concat(pre, seq!['{'], '\u{0}');
        lemma_free_concat(pre + seq!['{'], body, '\u{0}');
        lemma_free_concat(pre + seq!['{'] + body, seq!['}'], '\u{0}');
        lemma_free_concat(pre + seq!['{'] + body + seq!['}'], post, '\u{0}');
        lemma_escape_without_backslash(pattern);
        if pre.len() == 0 {
            assert(pattern[1] == body[0]);
        }
        assert(protect_leading_braces(pattern) == pattern);
        lemma_balanced_first_set(pre, body, post);
        lemma_expand_inner_without_open(post, max, false, 1);
        if post.len() == 0 {
            assert(post =~= Seq::<char>::empty());
        }
        assert(!body.contains(','));
        if ends_with_dollar(pre) {
            assert(pre + spec_embrace(body) + post =~= pattern);
            assert(around(pre, spec_embrace(body), seq![post])[0] == pre + spec_embrace(body) + post);
            assert(around(pre, spec_embrace(body), seq![post]) =~= seq![pattern]);
        }
        let r = spec_expand_inner(pattern, max, true, 0);
        assert(r == seq![pattern]);
        lemma_unescape_without_nul(pattern);
        assert(spec_expand(pattern, max) =~= seq![pattern]);
    }
}

/// A set right after `$` looks like a shell variable and stays literal, comma
/// set or not, when the cap allows a result at all.
#[verifier::rlimit(50)]
#[verifier::spinoff_prover]
pub proof fn law_dollar_set(pre: Seq<char>, body: Seq<char>, post: Seq<char>, max: nat)
    requires
        is_plain(pre),
        ends_with_dollar(pre),
        is_plain(body),
        free_of(body, '}'),
        is_plain(post),
        max >= 1,
        pre.len() + body.len() + post.len() + 2 <= usize::MAX,
    ensures
        spec_expand(pre + seq!['{'] + body + seq!['}'] + post, max) == seq![
            pre + seq!['{'] + body + seq!['}'] + post,
        ],
{
    let pattern = pre + seq!['{'] + body + seq!['}'] + post;
    lemma_free_concat(pre, seq!['{'], '\\');
    lemma_free_concat(pre + seq!['{'], body, '\\');
    lemma_free_concat(pre + seq!['{'] + body, seq!['}'], '\\');
    lemma_free_concat(pre + seq!['{'] + body + seq!['}'], post, '\\');
    lemma_free_concat(pre, seq!['{'], '\u{0}');
    lemma_free_concat(pre + seq!['{'], body, '\u{0}');
    lemma_free_concat(pre + seq!['{'] + body, seq!['}'], '\u{0}');
    lemma_free_concat(pre + seq!['{'] + body + seq!['}'], post, '\u{0}');
    assert(pattern[0] == pre[0]);
    lemma_prepared(pattern);
    lemma_balanced_first_set(pre, body, post);
    lemma_expand_inner_without_open(post, max, false, 1);
    if post.len() == 0 {
        assert(post =~= Seq::<char>::empty());
    }
    assert(pre + spec_embrace(body) + post =~= pattern);
    assert(around(pre, spec_embrace(body), seq![post])[0] == pre + spec_embrace(body) + post);
    assert(around(pre, spec_embrace(body), seq![post]) =~= seq![pattern]);
    let r = spec_expand_inner(pattern, max, true, 0);
    assert(r == seq![pattern]);
    lemma_unescape_without_nul(pattern);
    assert(spec_expand(pattern, max) =~= seq![pattern]);
}

/// A backslash before `\\`, `{`, `}`, `,` or `.` in plain text makes that
/// character literal: the pattern expands to the text with the backslash
/// removed.
pub proof fn law_escaped_char(pre: Seq<char>, c: char, post: Seq<char>, max: nat)
    requires
        is_plain(pre),
        is_plain(post),
        is_escapable(c),
    ensures
        spec_expand(pre + seq!['\\', c] + post, max) == seq![pre + seq![c] + post],
{
    let pattern = pre + seq!['\\', c] + post;
    assert(pattern[0] != '{') by {
        if pre.len() > 0 {
            assert(pattern[0] == pre[0]);
        }
    }
    assert(protect_leading_braces(pattern) == pattern);
    lemma_escape_one(pre, c, post);
    let marked = pre + marker(c) + post;
    assert(free_of(marker(c), '{'));
    lemma_free_concat(pre, marker(c), '{');
    lemma_free_concat(pre + marker(c), post, '{');
    lemma_expand_inner_without_open(marked, max, true, 0);
    assert(spec_expand(pattern, max) =~= seq![pre + seq![c] + post]);
}

/// A pattern that starts with `{}` keeps it, as bash does, and the plain
/// text after it stays as it is.
#[verifier::rlimit(50)]
#[verifier::spinoff_prover]
pub proof fn law_leading_empty_set(post: Seq<char>, max: nat)
    requires
        is_plain(post),
    ensures
        spec_expand(seq!['{', '}'] + post, max) == seq![seq!['{', '}'] + post],
{
    let pattern = seq!['{', '}'] + post;
    let t = seq!['\\', '{', '\\', '}'] + post;
    assert(pattern.skip(2) =~= post);
    assert(protect_leading_braces(pattern) == t);
    // Escaping: the two escaped braces become markers.
    let tail = seq!['\\', '}'] + post;
    assert(t.skip(2) =~= tail);
    assert(tail.skip(2) =~= post);
    lemma_escape_without_backslash(post);
    assert(spec_escape_braces(tail) == esc_close() + post);
    let marked = esc_open() + esc_close() + post;
    assert(spec_escape_braces(t) == esc_open() + (esc_close() + post));
    assert(esc_open() + (esc_close() + post) =~= marked);
    // Expansion: the markers hold no brace.
    assert(free_of(esc_open() + esc_close(), '{'));
    lemma_free_concat(esc_open() + esc_close(), post, '{');
    lemma_expand_inner_without_open(marked, max, true, 0);
    // Unescaping: the markers become the braces again.
    lemma_unescape_close_after_open(post);
    assert(spec_unescape_braces(marked) == pattern);
    assert(spec_expand(pattern, max) =~= seq![pattern]);
}

/// The markers of `{` and `}` in a row, then plain text, are brought back to
/// the braces.
proof fn lemma_unescape_close_after_open(post: Seq<char>)
    requires
        is_plain(post),
    ensures
        spec_unescape_braces(esc_open() + esc_close() + post) == seq!['{', '}'] + post,
{
    let rest = esc_close() + post;
    assert(esc_open() + esc_close() + post =~= marker('{') + rest);
    lemma_unescape_marker('{', rest);
    lemma_unescape_marker('}', post);
    lemma_unescape_without_nul(post);
    assert(seq!['{'] + (seq!['}'] + post) =~= seq!['{', '}'] + post);
}

/// An integer lacks every character that is not a digit or a minus sign.
proof fn lemma_int_free_of(s: Seq<char>, c: char)
    requires
        spec_is_int(s),
        !is_digit(c),
        c != '-',
    ensures
        free_of(s, c),
{
    lemma_int_chars(s);
}

/// A sequence set between plain text, whose members hold no NUL, expands to
/// each member between that text.
#[verifier::rlimit(50)]
#[verifier::spinoff_prover]
proof fn lemma_sequence_between(
    pre: Seq<char>,
    parts: Seq<Seq<char>>,
    post: Seq<char>,
    max: nat,
    is_alpha: bool,
)
    requires
        is_plain(pre),
        !ends_with_dollar(pre),
        is_plain(post),
        parts.len() >= 2,
        forall|k: int|
            0 <= k < parts.len() ==> free_of(#[trigger] parts[k], '{') && free_of(parts[k], '}')
                && free_of(parts[k], '\\') && free_of(parts[k], '.'),
        parts[0].len() > 0,
        parts[0][0] != '}',
        spec_is_alpha_sequence(join(parts, dots())) == is_alpha,
        spec_is_numeric_sequence(join(parts, dots())) || is_alpha,
        forall|k: int|
            0 <= k < spec_sequence(parts, is_alpha, max).len() ==> free_of(
                #[trigger] spec_sequence(parts, is_alpha, max)[k],
                '\u{0}',
            ),
        pre.len() + join(parts, dots()).len() + post.len() + 2 <= usize::MAX,
    ensures
        spec_expand(pre + seq!['{'] + join(parts, dots()) + seq!['}'] + post, max) == Seq::new(
            spec_sequence(parts, is_alpha, max).len(),
            |k: int| pre + spec_sequence(parts, is_alpha, max)[k] + post,
        ),
{
    let body = join(parts, dots());
    let pattern = pre + seq!['{'] + body + seq!['}'] + post;
    lemma_join_free(parts, dots(), '{');
    lemma_join_free(parts, dots(), '}');
    lemma_join_free(parts, dots(), '\\');
    lemma_free_concat(pre, seq!['{'], '\\');
    lemma_free_concat(pre + seq!['{'], body, '\\');
    lemma_free_concat(pre + seq!['{'] + body, seq!['}'], '\\');
    lemma_free_concat(pre + seq!['{'] + body + seq!['}'], post, '\\');
    assert(body == parts[0] + dots() + join(parts.drop_first(), dots()));
    assert(body[0] == parts[0][0]);
    if pre.len() == 0 {
        assert(pattern[1] == body[0]);
    } else {
        assert(pattern[0] == pre[0]);
    }
    lemma_prepared(pattern);
    lemma_balanced_first_set(pre, body, post);
    lemma_split_join(parts, dots());
    lemma_expand_inner_without_open(post, max, false, 1);
    if post.len() == 0 {
        assert(post =~= Seq::<char>::empty());
    }
    let items = spec_sequence(parts, is_alpha, max);
    lemma_pairs_one_suffix(pre, items, post);
    let all = Seq::new(items.len(), |k: int| pre + items[k] + post);
    assert(items.len() <= max);
    let r = spec_expand_inner(pattern, max, true, 0);
    assert(r == all);
    assert forall|k: int| 0 <= k < r.len() implies spec_unescape_braces(#[trigger] r[k]) == r[k] by {
        assert(free_of(items[k], '\u{0}'));
        lemma_free_concat(pre, items[k], '\u{0}');
        lemma_free_concat(pre + items[k], post, '\u{0}');
        lemma_unescape_without_nul(r[k]);
    }
    assert(spec_expand(pattern, max) =~= r);
}

/// A numeric sequence `{x..y}` or `{x..y..step}` between plain text expands
/// to each of its members between that text: the members run from `x`
/// towards `y` by the magnitude of the step, zero-padded to the longer
/// endpoint when a part is zero-padded, at most `max` of them.
#[verifier::rlimit(50)]
#[verifier::spinoff_prover]
pub proof fn law_numeric_sequence(pre: Seq<char>, parts: Seq<Seq<char>>, post: Seq<char>, max: nat)
    requires
        is_plain(pre),
        !ends_with_dollar(pre),
        is_plain(post),
        parts.len() == 2 || parts.len() == 3,
        forall|k: int| 0 <= k < parts.len() ==> spec_is_int(#[trigger] parts[k]),
        pre.len() + join(parts, dots()).len() + post.len() + 2 <= usize::MAX,
    ensures
        spec_expand(pre + seq!['{'] + join(parts, dots()) + seq!['}'] + post, max) == Seq::new(
            spec_sequence(parts, false, max).len(),
            |k: int| pre + spec_sequence(parts, false, max)[k] + post,
        ),
{
    let body = join(parts, dots());
    assert forall|k: int| 0 <= k < parts.len() implies free_of(#[trigger] parts[k], '{') && free_of(
        parts[k],
        '}',
    ) && free_of(parts[k], '\\') && free_of(parts[k], '.') by {
        lemma_int_free_of(parts[k], '{');
        lemma_int_free_of(parts[k], '}');
        lemma_int_free_of(parts[k], '\\');
        lemma_int_free_of(parts[k], '.');
    }
    lemma_int_chars(parts[0]);
    lemma_split_join(parts, dots());
    assert(spec_is_numeric_sequence(body));
    assert(!spec_is_alpha_sequence(body));
    let items = spec_sequence(parts, false, max);
    assert forall|k: int| 0 <= k < items.len() implies free_of(#[trigger] items[k], '\u{0}') by {
        let v = seq_first(parts) + k * seq_step(parts);
        lemma_pad_number_chars(v, crate::sequence::seq_width(parts), crate::sequence::seq_pad(parts));
    }
    lemma_sequence_between(pre, parts, post, max, false);
}

/// An alphabetic sequence `{a..b}` or `{a..b..step}` over ASCII letters,
/// between plain text, expands to each of its members between that text:
/// the characters from `a` towards `b` by the magnitude of the step, a
/// backslash giving an empty member, at most `max` of them.
#[verifier::rlimit(50)]
#[verifier::spinoff_prover]
pub proof fn law_alpha_sequence(
    pre: Seq<char>,
    a: char,
    b: char,
    step: Seq<Seq<char>>,
    post: Seq<char>,
    max: nat,
)
    requires
        is_plain(pre),
        !ends_with_dollar(pre),
        is_plain(post),
        ('a' <= a <= 'z') || ('A' <= a <= 'Z'),
        ('a' <= b <= 'z') || ('A' <= b <= 'Z'),
        step.len() <= 1,
        step.len() == 1 ==> spec_is_int(step[0]),
        pre.len() + join(seq![seq![a], seq![b]] + step, dots()).len() + post.len() + 2
            <= usize::MAX,
    ensures
        spec_expand(
            pre + seq!['{'] + join(seq![seq![a], seq![b]] + step, dots()) + seq!['}'] + post,
            max,
        ) == Seq::new(
            spec_sequence(seq![seq![a], seq![b]] + step, true, max).len(),
            |k: int| pre + spec_sequence(seq![seq![a], seq![b]] + step, true, max)[k] + post,
        ),
{
    let parts = seq![seq![a], seq![b]] + step;
    let body = join(parts, dots());
    assert(parts[0] == seq![a] && parts[1] == seq![b]);
    assert(spec_is_single_letter(parts[0]) && spec_is_single_letter(parts[1]));
    assert forall|k: int| 0 <= k < parts.len() implies free_of(#[trigger] parts[k], '{') && free_of(
        parts[k],
        '}',
    ) && free_of(parts[k], '\\') && free_of(parts[k], '.') by {
        if k == 2 {
            assert(parts[k] == step[0]);
            lemma_int_free_of(parts[k], '{');
            lemma_int_free_of(parts[k], '}');
            lemma_int_free_of(parts[k], '\\');
            lemma_int_free_of(parts[k], '.');
        }
    }
    lemma_split_join(parts, dots());
    assert(!spec_is_int(parts[0])) by {
        if spec_is_int(parts[0]) {
            lemma_int_chars(parts[0]);
        }
    }
    assert(!spec_is_numeric_sequence(body));
    if parts.len() == 3 {
        assert(parts[2] == step[0]);
    }
    assert(spec_is_alpha_sequence(body));
    let items = spec_sequence(parts, true, max);
    let d = step_size(parts);
    let x = seq_first(parts);
    let y = seq_last(parts);
    let dist = if y < x { x - y } else { y - x };
    assert(65 <= x <= 122 && 65 <= y <= 122) by {
        assert(crate::number::spec_parse_i64(parts[0]) is None);
        assert(crate::number::spec_parse_i64(parts[1]) is None);
    }
    assert forall|k: int| 0 <= k < items.len() implies free_of(#[trigger] items[k], '\u{0}') by {
        let v = x + k * seq_step(parts);
        lemma_steps_in_range(k, d, dist);
        assert(k * seq_step(parts) == (if y < x { 0 - k * d } else { k * d })) by (nonlinear_arith)
            requires
                seq_step(parts) == (if y < x { 0 - d } else { d }),
        ;
        assert(65 <= v <= 122);
        assert(items[k] == alpha_member(v));
        if items[k].len() > 0 {
            assert(items[k][0] == v as char);
            assert(items[k][0] != '\u{0}');
        }
    }
    lemma_sequence_between(pre, parts, post, max, true);
}

/// A part written with a leading zero (an optional `-`, then `0`, then at
/// least one more digit, such as `00`, `01` or `-05`) makes the numeric
/// sequence zero-padded: every member is at least as wide as the longer
/// endpoint.
#[verifier::rlimit(50)]
#[verifier::spinoff_prover]
pub proof fn law_zero_padded_sequence(parts: Seq<Seq<char>>, k: int, max: nat)
    requires
        parts.len() == 2 || parts.len() == 3,
        forall|j: int| 0 <= j < parts.len() ==> spec_is_int(#[trigger] parts[j]),
        0 <= k < parts.len(),
        crate::number::unsigned_part(parts[k]).len() >= 2,
        crate::number::unsigned_part(parts[k])[0] == '0',
    ensures
        forall|m: int|
            0 <= m < spec_sequence(parts, false, max).len() ==> (#[trigger] spec_sequence(
                parts,
                false,
                max,
            )[m]).len() >= parts[0].len() && spec_sequence(parts, false, max)[m].len()
                >= parts[1].len(),
{
    let b = crate::number::unsigned_part(parts[k]);
    assert(spec_is_int(parts[k]));
    assert(is_digit(b[1]));
    assert(crate::number::spec_is_padded(parts[k]));
    assert(crate::sequence::seq_pad(parts));
    let items = spec_sequence(parts, false, max);
    assert forall|m: int| 0 <= m < items.len() implies (#[trigger] items[m]).len() >= parts[0].len()
        && items[m].len() >= parts[1].len() by {
        let v = seq_first(parts) + m * seq_step(parts);
        crate::number::lemma_pad_number_width(v, crate::sequence::seq_width(parts));
    }
}

/// A comma that is not followed by another comma, with a `}` after it on the
/// same line, is a dangling close, whatever comes before that comma (a `{`
/// included).
pub proof fn law_dangling_close_any_comma(s: Seq<char>, i: int, j: int)
    requires
        0 <= i < j < s.len(),
        s[i] == ',',
        s[i + 1] != ',',
        s[j] == '}',
        forall|k: int| i < k < j ==> !is_line_terminator(#[trigger] s[k]),
    ensures
        spec_has_dangling_close(s),
{
    assert(closes_later(s, i));
}

/// A set with no expansion, then plain text, then a comma set: the first set
/// stays literal and the comma set still expands, each member between the
/// text around it, at most `max` of them.
#[verifier::rlimit(50)]
#[verifier::spinoff_prover]
pub proof fn law_literal_then_comma_set(
    pre: Seq<char>,
    body: Seq<char>,
    mid: Seq<char>,
    members: Seq<Seq<char>>,
    post: Seq<char>,
    max: nat,
)
    requires
        is_plain(pre),
        !ends_with_dollar(pre),
        is_plain(body),
        free_of(body, '}'),
        free_of(body, ','),
        !spec_is_numeric_sequence(body),
        !spec_is_alpha_sequence(body),
        pre.len() > 0 || body.len() > 0,
        is_plain(mid),
        free_of(mid, '}'),
        !ends_with_dollar(mid),
        members.len() >= 2,
        plain_members(members),
        forall|k: int|
            0 <= k < members.last().len() ==> !is_line_terminator(#[trigger] members.last()[k]),
        is_plain(post),
        free_of(post, '}'),
        pre.len() + body.len() + mid.len() + join(members, comma()).len() + post.len() + 16
            <= usize::MAX,
    ensures
        spec_expand(
            pre + seq!['{'] + body + seq!['}'] + mid + seq!['{'] + join(members, comma()) + seq![
                '}',
            ] + post,
            max,
        ) == cap(
            Seq::new(
                members.len(),
                |i: int| pre + seq!['{'] + body + seq!['}'] + mid + members[i] + post,
            ),
            max,
        ),
{
    let j = join(members, comma());
    let rest = mid + seq!['{'] + j + seq!['}'] + post;
    let pattern = pre + seq!['{'] + body + seq!['}'] + rest;
    assert(pattern =~= pre + seq!['{'] + body + seq!['}'] + mid + seq!['{'] + j + seq!['}']
        + post);
    // Nothing to escape, no leading `{}`.
    lemma_join_free(members, comma(), '\\');
    lemma_join_free(members, comma(), '{');
    lemma_join_free(members, comma(), '}');
    lemma_join_free(members, comma(), '\u{0}');
    lemma_free_concat(mid, seq!['{'], '\\');
    lemma_free_concat(mid + seq!['{'], j, '\\');
    lemma_free_concat(mid + seq!['{'] + j, seq!['}'], '\\');
    lemma_free_concat(mid + seq!['{'] + j + seq!['}'], post, '\\');
    lemma_free_concat(pre, seq!['{'], '\\');
    lemma_free_concat(pre + seq!['{'], body, '\\');
    lemma_free_concat(pre + seq!['{'] + body, seq!['}'], '\\');
    lemma_free_concat(pre + seq!['{'] + body + seq!['}'], rest, '\\');
    if pre.len() == 0 {
        assert(pattern[1] == body[0]);
    } else {
        assert(pattern[0] == pre[0]);
    }
    lemma_prepared(pattern);
    // The first set is literal and a comma in the second set dangles.
    lemma_balanced_first_set(pre, body, rest);
    assert(!body.contains(','));
    let dl = members.drop_last();
    assert(members =~= dl + seq![members.last()]);
    lemma_join_append(dl, seq![members.last()], comma());
    assert(join(seq![members.last()], comma()) == members.last());
    let c: int = (mid.len() + 1 + join(dl, comma()).len()) as int;
    let close: int = (mid.len() + 1 + j.len()) as int;
    assert(j == join(dl, comma()) + comma() + members.last());
    assert(rest[c] == ',');
    assert(rest[close] == '}');
    assert(free_of(members.last(), ',')) by {
        assert(plain_members(members));
        assert(members.last() == members[members.len() - 1]);
    }
    if members.last().len() > 0 {
        assert(rest[c + 1] == members.last()[0]);
    } else {
        assert(c + 1 == close);
    }
    assert forall|k: int| c < k < close implies !is_line_terminator(#[trigger] rest[k]) by {
        assert(rest[k] == members.last()[k - c - 1]);
    }
    law_dangling_close_any_comma(rest, c, close);
    // The rebuilt text: the first `}` is a marker, and the comma set is the
    // first balanced pair.
    let mid2 = body + esc_close() + mid;
    let rebuilt = pre + seq!['{'] + body + esc_close() + rest;
    assert(rebuilt =~= (pre + seq!['{'] + mid2) + seq!['{'] + j + seq!['}'] + post);
    assert(free_of(esc_close(), '{') && free_of(esc_close(), '}') && free_of(esc_close(), '$'));
    lemma_free_concat(body, esc_close(), '{');
    lemma_free_concat(body + esc_close(), mid, '{');
    lemma_free_concat(body, esc_close(), '}');
    lemma_free_concat(body + esc_close(), mid, '}');
    assert(rebuilt =~= pre + seq!['{'] + mid2 + seq!['{'] + j + seq!['}'] + post);
    lemma_balanced_after_open(pre, mid2, j, post);
    let pre2 = pre + seq!['{'] + mid2;
    assert(!ends_with_dollar(pre2)) by {
        if mid.len() > 0 {
            assert(pre2.last() == mid.last());
        } else {
            assert(pre2.last() == esc_close().last());
        }
    }
    lemma_expand_comma_set(pre2, members, post, max, true, 1);
    assert(pre2 + seq!['{'] + j + seq!['}'] + post =~= rebuilt);
    lemma_expand_inner_without_open(post, max, false, 2);
    if post.len() == 0 {
        assert(post =~= Seq::<char>::empty());
    }
    assert(suffixes(post, max, 1) == seq![post]);
    lemma_pairs_one_suffix(pre2, members, post);
    let all = Seq::new(members.len(), |i: int| pre2 + members[i] + post);
    assert forall|k: int| 0 <= k < all.len() implies (#[trigger] all[k]).len() > 0 by {
        assert(all[k][pre.len() as int] == '{');
    }
    lemma_drop_empty_all_nonempty(all);
    let r = spec_expand_inner(pattern, max, true, 0);
    assert(r == cap(all, max));
    // Unescaping brings the literal `}` back.
    let wanted = Seq::new(
        members.len(),
        |i: int| pre + seq!['{'] + body + seq!['}'] + mid + members[i] + post,
    );
    assert forall|k: int| 0 <= k < r.len() implies spec_unescape_braces(#[trigger] r[k])
        == cap(wanted, max)[k] by {
        let m = members[k];
        assert(r[k] == all[k]);
        let head = pre + seq!['{'] + body;
        let tail = mid + m + post;
        assert(all[k] =~= head + (esc_close() + tail));
        assert(is_plain(m));
        lemma_free_concat(pre, seq!['{'], '\u{0}');
        lemma_free_concat(pre + seq!['{'], body, '\u{0}');
        lemma_free_concat(mid, m, '\u{0}');
        lemma_free_concat(mid + m, post, '\u{0}');
        crate::escape::lemma_unescape_concat(head, esc_close() + tail);
        lemma_unescape_marker('}', tail);
        lemma_unescape_without_nul(tail);
        assert(head + (seq!['}'] + tail) =~= wanted[k]);
    }
    assert(spec_expand(pattern, max) =~= cap(wanted, max));
}

/// A comma set whose last member is itself a comma set expands to its other
/// members, in order, followed by the members of the inner set (capped at
/// `max`), the empty results dropped and at most `max` of them: nesting
/// flattens.
#[verifier::rlimit(50)]
#[verifier::spinoff_prover]
pub proof fn law_nested_set(first: Seq<Seq<char>>, inner: Seq<Seq<char>>, max: nat)
    requires
        first.len() >= 1,
        inner.len() >= 2,
        plain_members(first),
        plain_members(inner),
        join(first, comma()).len() + join(inner, comma()).len() + 8 <= usize::MAX,
    ensures
        spec_expand(set_of(first + seq![set_of(inner)]), max) == cap(
            drop_empty(first + cap(inner, max)),
            max,
        ),
{
    let e = Seq::<char>::empty();
    let si = set_of(inner);
    let ji = join(inner, comma());
    let jf = join(first, comma());
    let a = jf + comma();
    let members = first + seq![si];
    let body = join(members, comma());
    let pattern = set_of(members);
    // The body: the first members, a comma, then the inner set.
    lemma_join_append(first, seq![si], comma());
    assert(join(seq![si], comma()) == si);
    assert(body =~= a + seq!['{'] + ji + seq!['}']);
    lemma_join_append(first, seq![e], comma());
    assert(join(seq![e], comma()) == e);
    assert(join(first + seq![e], comma()) =~= a);
    lemma_join_free(first, comma(), '{');
    lemma_join_free(first, comma(), '}');
    lemma_join_free(first, comma(), '\\');
    lemma_join_free(first, comma(), '\u{0}');
    lemma_join_free(inner, comma(), '{');
    lemma_join_free(inner, comma(), '}');
    lemma_join_free(inner, comma(), '\\');
    lemma_free_concat(jf, comma(), '{');
    lemma_free_concat(jf, comma(), '}');
    lemma_free_concat(jf, comma(), '\\');
    // Nothing to escape, no leading `{}`.
    assert(free_of(pattern, '\\')) by {
        lemma_free_concat(a, seq!['{'], '\\');
        lemma_free_concat(a + seq!['{'], ji, '\\');
        lemma_free_concat(a + seq!['{'] + ji, seq!['}'], '\\');
        lemma_free_concat(seq!['{'], body, '\\');
        lemma_free_concat(seq!['{'] + body, seq!['}'], '\\');
    }
    assert(pattern[1] == a[0]);
    assert(a[0] != '}');
    lemma_prepared(pattern);
    // The outer set is the first balanced pair.
    lemma_one_set_balanced(a, ji);
    law_balanced_outer_set(e, body, e);
    assert(e + seq!['{'] + body + seq!['}'] + e =~= pattern);
    assert(body[a.len() - 1] == ',');
    assert(!free_of(body, ','));
    assert(body.contains(','));
    lemma_comma_body_not_sequence(body);
    // Its members: the first ones, then the inner set whole.
    lemma_balanced_first_set(a, ji, e);
    assert(a + seq!['{'] + ji + seq!['}'] + e =~= body);
    assert forall|k: int| 0 <= k < (first + seq![e]).len() implies free_of(
        #[trigger] (first + seq![e])[k],
        comma()[0],
    ) by {
        if k < first.len() {
            assert((first + seq![e])[k] == first[k]);
        }
    }
    lemma_split_join(first + seq![e], comma());
    let p = split_by(a, comma());
    assert(p == first + seq![e]);
    assert(p.last() + seq!['{'] + ji + seq!['}'] =~= si);
    assert(p.drop_last() =~= first);
    assert(spec_comma_parts(body, 1) == first.push(si));
    assert(first.push(si) =~= members);
    // Each member expands: the first ones to themselves, the inner set to its
    // members.
    assert forall|k: int| 0 <= k < first.len() implies free_of(#[trigger] first[k], '{') by {
        assert(is_plain(first[k]));
    }
    lemma_expand_all_without_open(first, max, 1);
    assert(members.drop_last() =~= first);
    lemma_expand_comma_set(e, inner, e, max, false, 1);
    assert(e + seq!['{'] + ji + seq!['}'] + e =~= si);
    lemma_pairs_one_suffix(e, inner, e);
    assert(Seq::new(inner.len(), |i: int| e + inner[i] + e) =~= inner);
    let ci = cap(inner, max);
    assert(spec_expand_inner(si, max, false, 1) == ci);
    let items = first + ci;
    assert(crate::expand::expand_all(members, max, 1) == items);
    lemma_pairs_one_suffix(e, items, e);
    assert(Seq::new(items.len(), |i: int| e + items[i] + e) =~= items);
    let r = spec_expand_inner(pattern, max, true, 0);
    assert(r == cap(drop_empty(items), max));
    // Nothing to bring back.
    assert forall|k: int| 0 <= k < items.len() implies free_of(#[trigger] items[k], '\u{0}') by {
        if k < first.len() {
            assert(items[k] == first[k]);
            assert(is_plain(first[k]));
        } else {
            assert(items[k] == ci[k - first.len()]);
            assert(ci[k - first.len()] == inner[k - first.len()]);
            assert(is_plain(inner[k - first.len()]));
        }
    }
    lemma_unescaped_results(items, max);
    assert(spec_expand(pattern, max) =~= r);
}

/// The members that a comma set is split into, joined again with commas, give
/// the set's body back; there is always at least one member.
#[verifier::rlimit(50)]
#[verifier::spinoff_prover]
pub proof fn law_comma_parts_rejoin(s: Seq<char>, depth: int)
    requires
        s.len() <= usize::MAX,
    ensures
        spec_comma_parts(s, depth).len() >= 1,
        join(spec_comma_parts(s, depth), comma()) == s,
    decreases 257 - depth,
{
    if s.len() == 0 {
        assert(s =~= Seq::<char>::empty());
    } else if depth > crate::expand::MAX_DEPTH || spec_balanced(s) is None {
        lemma_split_nonempty(s, comma());
        lemma_join_split(s, comma());
    } else {
        match spec_balanced(s) {
            Some((pre, body, post)) => {
                lemma_balanced_rebuilds(s);
                let p = split_by(pre, comma());
                lemma_split_nonempty(pre, comma());
                lemma_join_split(pre, comma());
                let set = seq!['{'] + body + seq!['}'];
                let last = p.last() + seq!['{'] + body + seq!['}'];
                assert(last =~= p.last() + set);
                lemma_join_extend_last(p, set, comma());
                assert(join(p.drop_last().push(last), comma()) == pre + set);
                if post.len() == 0 {
                    assert(spec_comma_parts(s, depth) == p.drop_last().push(last));
                    assert(s =~= pre + set);
                } else {
                    law_comma_parts_rejoin(post, depth + 1);
                    let q = spec_comma_parts(post, depth + 1);
                    let a = p.drop_last().push(last + q[0]);
                    assert(last + q[0] =~= p.last() + (set + q[0]));
                    lemma_join_extend_last(p, set + q[0], comma());
                    assert(join(a, comma()) == pre + (set + q[0]));
                    assert(spec_comma_parts(s, depth) == a + q.drop_first());
                    if q.len() == 1 {
                        assert(q.drop_first() =~= Seq::<Seq<char>>::empty());
                        assert(a + q.drop_first() =~= a);
                        assert(s =~= pre + (set + q[0]));
                    } else {
                        lemma_join_append(a, q.drop_first(), comma());
                        assert(join(q, comma()) == q[0] + comma() + join(q.drop_first(), comma()));
                        assert(s =~= pre + (set + q[0]) + comma() + join(q.drop_first(), comma()));
                    }
                }
            },
            None => {},
        }
    }
}

/// A list whose members are all non-empty keeps them all when the empty ones
/// are dropped.
proof fn lemma_drop_empty_all_nonempty(es: Seq<Seq<char>>)
    requires
        forall|k: int| 0 <= k < es.len() ==> (#[trigger] es[k]).len() > 0,
    ensures
        drop_empty(es) == es,
    decreases es.len(),
{
    if es.len() > 0 {
        assert forall|k: int| 0 <= k < es.drop_last().len() implies (
        #[trigger] es.drop_last()[k]).len() > 0 by {
            assert(es.drop_last()[k] == es[k]);
        }
        lemma_drop_empty_all_nonempty(es.drop_last());
        assert(es[es.len() - 1].len() > 0);
        assert(es.drop_last().push(es.last()) =~= es);
    }
}

/// Each item meets each suffix once.
proof fn lemma_pairs_len(pre: Seq<char>, items: Seq<Seq<char>>, post: Seq<Seq<char>>)
    ensures
        pairs(pre, items, post).len() == items.len() * post.len(),
    decreases items.len(),
{
    if items.len() > 0 {
        lemma_pairs_len(pre, items.drop_last(), post);
        assert((items.len() - 1) * post.len() + post.len() == items.len() * post.len())
            by (nonlinear_arith);
    }
}

/// Combining non-empty items gives non-empty results.
proof fn lemma_pairs_nonempty(pre: Seq<char>, items: Seq<Seq<char>>, post: Seq<Seq<char>>)
    requires
        forall|k: int| 0 <= k < items.len() ==> (#[trigger] items[k]).len() > 0,
    ensures
        forall|k: int|
            0 <= k < pairs(pre, items, post).len() ==> (#[trigger] pairs(pre, items, post)[k]).len()
                > 0,
    decreases items.len(),
{
    if items.len() > 0 {
        assert forall|k: int| 0 <= k < items.drop_last().len() implies (
        #[trigger] items.drop_last()[k]).len() > 0 by {
            assert(items.drop_last()[k] == items[k]);
        }
        lemma_pairs_nonempty(pre, items.drop_last(), post);
        let d = pairs(pre, items.drop_last(), post);
        assert(items[items.len() - 1].len() > 0);
        assert forall|k: int| 0 <= k < pairs(pre, items, post).len() implies (
        #[trigger] pairs(pre, items, post)[k]).len() > 0 by {
            if k < d.len() {
                assert(pairs(pre, items, post)[k] == d[k]);
            } else {
                let j = k - d.len();
                assert(pairs(pre, items, post)[k] == pre + items.last() + post[j]);
            }
        }
    }
}

/// A comma set written out: its members joined by commas, in braces.
pub open spec fn set_of(members: Seq<Seq<char>>) -> Seq<char> {
    seq!['{'] + join(members, comma()) + seq!['}']
}

/// Two comma sets of plain, non-empty members, small enough for the cap,
/// expand each to its members, and together to every member of the first
/// followed by every member of the second: a cross product, in order.
#[verifier::rlimit(50)]
#[verifier::spinoff_prover]
pub proof fn law_cross_product(first: Seq<Seq<char>>, second: Seq<Seq<char>>, max: nat)
    requires
        first.len() >= 2,
        second.len() >= 2,
        plain_members(first),
        plain_members(second),
        forall|k: int| 0 <= k < first.len() ==> (#[trigger] first[k]).len() > 0,
        forall|k: int| 0 <= k < second.len() ==> (#[trigger] second[k]).len() > 0,
        first.len() * second.len() <= max,
        join(first, comma()).len() + join(second, comma()).len() + 4 <= usize::MAX,
    ensures
        spec_expand(set_of(first), max) == first,
        spec_expand(set_of(second), max) == second,
        spec_expand(set_of(first) + set_of(second), max) == pairs(Seq::empty(), first, second),
{
    let e = Seq::<char>::empty();
    assert(first.len() <= max && second.len() <= max) by (nonlinear_arith)
        requires
            first.len() >= 2,
            second.len() >= 2,
            first.len() * second.len() <= max,
    ;
    law_comma_set(e, first, e, max);
    assert(e + seq!['{'] + join(first, comma()) + seq!['}'] + e =~= set_of(first));
    assert(Seq::new(first.len(), |i: int| e + first[i] + e) =~= first);
    lemma_drop_empty_all_nonempty(first);
    law_comma_set(e, second, e, max);
    assert(e + seq!['{'] + join(second, comma()) + seq!['}'] + e =~= set_of(second));
    assert(Seq::new(second.len(), |i: int| e + second[i] + e) =~= second);
    lemma_drop_empty_all_nonempty(second);
    law_two_sets(e, first, e, second, e, max);
    assert(e + seq!['{'] + join(first, comma()) + seq!['}'] + e + seq!['{'] + join(
        second,
        comma(),
    ) + seq!['}'] + e =~= set_of(first) + set_of(second));
    assert(Seq::new(second.len(), |j: int| e + second[j] + e) =~= second);
    lemma_pairs_nonempty(e, first, second);
    lemma_drop_empty_all_nonempty(pairs(e, first, second));
    lemma_pairs_len(e, first, second);
}

/// Whether the first balanced set of `s`, at `depth`, is a comma set that
/// the expansion splits on its commas.
pub open spec fn first_set_is_comma_set(s: Seq<char>, depth: int) -> bool {
    depth <= crate::expand::MAX_DEPTH && match spec_balanced(s) {
        Some((pre, body, post)) => !ends_with_dollar(pre) && !spec_is_numeric_sequence(body)
            && !spec_is_alpha_sequence(body) && body.contains(','),
        None => false,
    }
}

/// Dropping empty members never lengthens a list.
proof fn lemma_drop_empty_len(es: Seq<Seq<char>>)
    ensures
        drop_empty(es).len() <= es.len(),
    decreases es.len(),
{
    if es.len() > 0 {
        lemma_drop_empty_len(es.drop_last());
    }
}

/// The top-level flag matters only for a comma set, whose empty results it
/// drops: elsewhere the expansion is the same with or without it, and for a
/// comma set whose results the cap did not cut, the top-level expansion is
/// the other one without its empty members.
#[verifier::rlimit(50)]
#[verifier::spinoff_prover]
pub proof fn law_top_level_flag(s: Seq<char>, max: nat, depth: int)
    ensures
        !first_set_is_comma_set(s, depth) ==> spec_expand_inner(s, max, true, depth)
            == spec_expand_inner(s, max, false, depth),
        first_set_is_comma_set(s, depth) && spec_expand_inner(s, max, false, depth).len() < max
            ==> spec_expand_inner(s, max, true, depth) == drop_empty(
            spec_expand_inner(s, max, false, depth),
        ),
{
    if first_set_is_comma_set(s, depth) {
        match spec_balanced(s) {
            Some((pre, body, post_str)) => {
                let post = if post_str.len() == 0 {
                    seq![Seq::<char>::empty()]
                } else {
                    spec_expand_inner(post_str, max, false, depth + 1)
                };
                let parsed = spec_comma_parts(body, depth + 1);
                if parsed.len() == 1 {
                    let inner = spec_expand_inner(parsed[0], max, false, depth + 1);
                    let embraced = Seq::new(inner.len(), |k: int| spec_embrace(inner[k]));
                    if embraced.len() == 1 {
                        let r = around(pre, embraced[0], post);
                        assert forall|k: int| 0 <= k < r.len() implies (#[trigger] r[k]).len()
                            > 0 by {
                            assert(r[k] == pre + embraced[0] + post[k]);
                            assert(embraced[0] == spec_embrace(inner[0]));
                            assert(spec_embrace(inner[0])[0] == '{');
                            assert((pre + embraced[0] + post[k])[pre.len() as int] == '{');
                        }
                        lemma_drop_empty_all_nonempty(r);
                    } else {
                        let q = pairs(pre, crate::expand::expand_all(embraced, max, depth + 1), post);
                        lemma_drop_empty_len(q);
                    }
                } else {
                    let q = pairs(pre, crate::expand::expand_all(parsed, max, depth + 1), post);
                    lemma_drop_empty_len(q);
                }
            },
            None => {},
        }
    }
}

} // verus!

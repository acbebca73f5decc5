//! Brace expansion proper: splitting comma sets, recognising the bash quirks
//! and combining the pieces.

use crate::balanced::{balanced, index_of, spec_balanced};
use crate::escape::{esc_close, esc_close_vec};
use crate::sequence::{
    dots,
    dots_vec,
    is_alpha_sequence,
    is_numeric_sequence,
    sequence,
    spec_is_alpha_sequence,
    spec_is_numeric_sequence,
    spec_sequence,
};
use crate::balanced::lemma_range_without_open;
use crate::text::{free_of, lemma_split_nonempty, slice_of, split, split_by, views};
use vstd::prelude::*;

verus! {

/// A bound on brace-nesting recursion depth, so that deeply nested input
/// degrades to literal text instead of exhausting the stack.
pub const MAX_DEPTH: u32 = 256;

/// A single comma.
pub open spec fn comma() -> Seq<char> {
    seq![',']
}

/// The members of the comma set `s`: `s` split on the commas that are not
/// inside a nested `{ … }`.
pub open spec fn spec_comma_parts(s: Seq<char>, depth: int) -> Seq<Seq<char>>
    decreases 257 - depth,
{
    if s.len() == 0 {
        seq![Seq::<char>::empty()]
    } else if depth > MAX_DEPTH {
        split_by(s, comma())
    } else {
        match spec_balanced(s) {
            None => split_by(s, comma()),
            Some((pre, body, post)) => {
                let p = split_by(pre, comma());
                let last = p.last() + seq!['{'] + body + seq!['}'];
                if post.len() == 0 {
                    p.drop_last().push(last)
                } else {
                    let q = spec_comma_parts(post, depth + 1);
                    if q.len() > 0 {
                        p.drop_last().push(last + q[0]) + q.drop_first()
                    } else {
                        p.drop_last().push(last)
                    }
                }
            },
        }
    }
}

/// Whether `c` ends a line: line feed, carriage return, or the Unicode line
/// and paragraph separators.
pub open spec fn is_line_terminator(c: char) -> bool {
    c == '\n' || c == '\r' || c == '\u{2028}' || c == '\u{2029}'
}

/// Whether a `}` follows position `i` of `s` on the same line.
pub open spec fn closes_later(s: Seq<char>, i: int) -> bool {
    exists|j: int|
        i < j < s.len() && #[trigger] s[j] == '}' && forall|k: int|
            i < k < j ==> !is_line_terminator(#[trigger] s[k])
}

/// Whether `s` holds a comma that is not followed by another comma, with a
/// `}` after it on the same line (the pattern `,(?!,).*\}`, where `.` stops
/// at line ends).
pub open spec fn spec_has_dangling_close(s: Seq<char>) -> bool {
    exists|i: int|
        0 <= i && i + 1 < s.len() && #[trigger] s[i] == ',' && s[i + 1] != ',' && closes_later(
            s,
            i,
        )
}

fn comma_vec() -> (res: Vec<char>)
    ensures
        res@ == comma(),
{
    let res = vec![','];
    assert(res@ =~= comma());
    res
}

/// Append the characters of `b` to `a`.
fn extend(a: &mut Vec<char>, b: &Vec<char>)
    ensures
        final(a)@ == old(a)@ + b@,
{
    a.extend_from_slice(b.as_slice());
    assert(final(a)@ =~= old(a)@ + b@);
}

/// The members of the comma set `s`, with nested `{ … }` sets kept whole.
pub fn parse_comma_parts(s: &Vec<char>, depth: u32) -> (res: Vec<Vec<char>>)
    ensures
        views(res@) == spec_comma_parts(s@, depth as int),
    decreases 257 - depth,
{
    if s.len() == 0 {
        let res: Vec<Vec<char>> = vec![Vec::new()];
        assert(views(res@) =~= seq![Seq::<char>::empty()]);
        return res;
    }
    if depth > MAX_DEPTH {
        return split(s, &comma_vec());
    }
    match balanced(s) {
        None => split(s, &comma_vec()),
        Some((pre, body, post)) => {
            let mut p = split(&pre, &comma_vec());
            proof {
                lemma_split_nonempty(pre@, comma());
            }
            let ghost ps = views(p@);
            let mut last = match p.pop() {
                Some(l) => l,
                None => Vec::new(),
            };
            assert(views(p@) =~= ps.drop_last());
            last.push('{');
            extend(&mut last, &body);
            last.push('}');
            assert(last@ =~= ps.last() + seq!['{'] + body@ + seq!['}']);
            let mut post_parts = parse_comma_parts(&post, depth + 1);
            if post.len() > 0 && post_parts.len() > 0 {
                let ghost q = views(post_parts@);
                let first = post_parts.remove(0);
                assert(views(post_parts@) =~= q.drop_first());
                extend(&mut last, &first);
                let ghost before = views(p@);
                p.push(last);
                assert(views(p@) =~= before.push(last@));
                let ghost mid = views(p@);
                let ghost rest = views(post_parts@);
                p.append(&mut post_parts);
                assert(views(p@) =~= mid + rest);
            } else {
                let ghost before = views(p@);
                p.push(last);
                assert(views(p@) =~= before.push(last@));
            }
            p
        },
    }
}

fn is_line_terminator_char(c: char) -> (res: bool)
    ensures
        res == is_line_terminator(c),
{
    c == '\n' || c == '\r' || c == '\u{2028}' || c == '\u{2029}'
}

/// Whether `s` holds a comma that is not followed by another comma, with a
/// `}` after it on the same line.
pub fn has_dangling_close(s: &Vec<char>) -> (res: bool)
    ensures
        res == spec_has_dangling_close(s@),
{
    let mut i: usize = 0;
    while i < s.len()
        invariant
            i <= s@.len(),
            forall|m: int|
                0 <= m < i && m + 1 < s@.len() && #[trigger] s@[m] == ',' && s@[m + 1] != ','
                    ==> !closes_later(s@, m),
        decreases s@.len() - i,
    {
        if i + 1 < s.len() && s[i] == ',' && s[i + 1] != ',' {
            let mut k: usize = i + 1;
            while k < s.len() && !is_line_terminator_char(s[k])
                invariant
                    i + 1 < s@.len(),
                    s@[i as int] == ',' && s@[i + 1] != ',',
                    i + 1 <= k <= s@.len(),
                    forall|m: int| i < m < k ==> s@[m] != '}' && !is_line_terminator(s@[m]),
                decreases s@.len() - k,
            {
                if s[k] == '}' {
                    assert(closes_later(s@, i as int)) by {
                        assert(s@[k as int] == '}');
                    }
                    assert(s@[i as int] == ',');
                    return true;
                }
                k += 1;
            }
            assert(!closes_later(s@, i as int)) by {
                if closes_later(s@, i as int) {
                    let j = choose|j: int|
                        i < j < s@.len() && #[trigger] s@[j] == '}' && forall|m: int|
                            i < m < j ==> !is_line_terminator(#[trigger] s@[m]);
                    if j < k {
                        assert(s@[j] != '}');
                    } else {
                        assert(k < s@.len());
                        assert(is_line_terminator(s@[k as int]));
                        assert(i < k < j);
                    }
                }
            }
        }
        i += 1;
    }
    assert(!spec_has_dangling_close(s@)) by {
        if spec_has_dangling_close(s@) {
            let m = choose|m: int|
                0 <= m && m + 1 < s@.len() && #[trigger] s@[m] == ',' && s@[m + 1] != ','
                    && closes_later(s@, m);
            assert(m < i);
        }
    }
    false
}

/// `s` inside a pair of braces.
pub open spec fn spec_embrace(s: Seq<char>) -> Seq<char> {
    seq!['{'] + s + seq!['}']
}

/// Whether `pre` ends with `$`, which makes the set after it literal.
pub open spec fn ends_with_dollar(pre: Seq<char>) -> bool {
    pre.len() > 0 && pre.last() == '$'
}

/// `pre`, then `mid`, then each of `post` in turn.
pub open spec fn around(pre: Seq<char>, mid: Seq<char>, post: Seq<Seq<char>>) -> Seq<Seq<char>> {
    Seq::new(post.len(), |k: int| pre + mid + post[k])
}

/// Every item between `pre` and each of `post`: the items in order, and for
/// each item the members of `post` in order.
pub open spec fn pairs(pre: Seq<char>, items: Seq<Seq<char>>, post: Seq<Seq<char>>) -> Seq<
    Seq<char>,
>
    decreases items.len(),
{
    if items.len() == 0 {
        Seq::empty()
    } else {
        pairs(pre, items.drop_last(), post) + around(pre, items.last(), post)
    }
}

/// `es` without its empty members.
pub open spec fn drop_empty(es: Seq<Seq<char>>) -> Seq<Seq<char>>
    decreases es.len(),
{
    if es.len() == 0 {
        Seq::empty()
    } else if es.last().len() > 0 {
        drop_empty(es.drop_last()).push(es.last())
    } else {
        drop_empty(es.drop_last())
    }
}

/// `es` without its empty members unless `keep_empty`.
pub open spec fn kept(es: Seq<Seq<char>>, keep_empty: bool) -> Seq<Seq<char>> {
    if keep_empty {
        es
    } else {
        drop_empty(es)
    }
}

/// The first `max` members of `es`.
pub open spec fn cap(es: Seq<Seq<char>>, max: nat) -> Seq<Seq<char>> {
    if es.len() <= max {
        es
    } else {
        es.take(max as int)
    }
}

/// The expansions of `pre`, each item and each of `post`, without the empty
/// ones unless `keep_empty`, and at most `max` of them.
pub open spec fn spec_combine(
    pre: Seq<char>,
    items: Seq<Seq<char>>,
    post: Seq<Seq<char>>,
    max: nat,
    keep_empty: bool,
) -> Seq<Seq<char>> {
    cap(kept(pairs(pre, items, post), keep_empty), max)
}

/// The expansions of `s`, before escaped characters are brought back: `max`
/// caps the expansions of each set, `is_top` drops empty results of a comma
/// set at the top, and nesting beyond `MAX_DEPTH` is left literal.
pub open spec fn spec_expand_inner(s: Seq<char>, max: nat, is_top: bool, depth: int) -> Seq<
    Seq<char>,
>
    decreases 257 - depth, 0int,
{
    if depth > MAX_DEPTH {
        seq![s]
    } else {
        match spec_balanced(s) {
            None => seq![s],
            Some((pre, body, post_str)) => {
                let post = if post_str.len() == 0 {
                    seq![Seq::<char>::empty()]
                } else {
                    spec_expand_inner(post_str, max, false, depth + 1)
                };
                if ends_with_dollar(pre) {
                    cap(around(pre, spec_embrace(body), post), max)
                } else {
                    let is_alpha = spec_is_alpha_sequence(body);
                    let is_seq = spec_is_numeric_sequence(body) || is_alpha;
                    if !is_seq && !body.contains(',') {
                        if spec_has_dangling_close(post_str) {
                            spec_expand_inner(
                                pre + seq!['{'] + body + esc_close() + post_str,
                                max,
                                true,
                                depth + 1,
                            )
                        } else {
                            seq![s]
                        }
                    } else if is_seq {
                        spec_combine(
                            pre,
                            spec_sequence(split_by(body, dots()), is_alpha, max),
                            post,
                            max,
                            true,
                        )
                    } else {
                        let parsed = spec_comma_parts(body, depth + 1);
                        if parsed.len() == 1 {
                            let inner = spec_expand_inner(parsed[0], max, false, depth + 1);
                            let embraced = Seq::new(inner.len(), |k: int| spec_embrace(inner[k]));
                            if embraced.len() == 1 {
                                around(pre, embraced[0], post)
                            } else {
                                spec_combine(
                                    pre,
                                    expand_all(embraced, max, depth + 1),
                                    post,
                                    max,
                                    !is_top,
                                )
                            }
                        } else {
                            spec_combine(
                                pre,
                                expand_all(parsed, max, depth + 1),
                                post,
                                max,
                                !is_top,
                            )
                        }
                    }
                }
            },
        }
    }
}

/// The expansions of each of `parts` in turn, none of them at the top.
pub open spec fn expand_all(parts: Seq<Seq<char>>, max: nat, depth: int) -> Seq<Seq<char>>
    decreases 257 - depth, parts.len() as int,
{
    if parts.len() == 0 {
        Seq::empty()
    } else {
        expand_all(parts.drop_last(), max, depth) + spec_expand_inner(
            parts.last(),
            max,
            false,
            depth,
        )
    }
}

proof fn lemma_drop_empty_append(a: Seq<Seq<char>>, b: Seq<Seq<char>>)
    ensures
        drop_empty(a + b) == drop_empty(a) + drop_empty(b),
    decreases b.len(),
{
    if b.len() == 0 {
        assert(a + b =~= a);
        assert(drop_empty(a) + drop_empty(b) =~= drop_empty(a));
    } else {
        assert((a + b).drop_last() =~= a + b.drop_last());
        lemma_drop_empty_append(a, b.drop_last());
        if b.last().len() > 0 {
            assert(drop_empty(a) + drop_empty(b.drop_last()).push(b.last()) =~= (drop_empty(a)
                + drop_empty(b.drop_last())).push(b.last()));
        }
    }
}

proof fn lemma_kept_append(a: Seq<Seq<char>>, b: Seq<Seq<char>>, keep_empty: bool)
    ensures
        kept(a + b, keep_empty) == kept(a, keep_empty) + kept(b, keep_empty),
{
    if !keep_empty {
        lemma_drop_empty_append(a, b);
    }
}

proof fn lemma_cap_full(a: Seq<Seq<char>>, b: Seq<Seq<char>>, max: nat)
    requires
        a.len() >= max,
    ensures
        cap(a + b, max) == cap(a, max),
{
    assert((a + b).take(max as int) =~= a.take(max as int));
}

/// Text without `{` expands to itself.
pub proof fn lemma_expand_inner_without_open(s: Seq<char>, max: nat, is_top: bool, depth: int)
    requires
        free_of(s, '{'),
    ensures
        spec_expand_inner(s, max, is_top, depth) == seq![s],
{
    lemma_range_without_open(s);
}

/// Parts without `{` expand to themselves.
pub proof fn lemma_expand_all_without_open(parts: Seq<Seq<char>>, max: nat, depth: int)
    requires
        forall|k: int| 0 <= k < parts.len() ==> free_of(#[trigger] parts[k], '{'),
    ensures
        expand_all(parts, max, depth) == parts,
    decreases parts.len(),
{
    if parts.len() > 0 {
        lemma_expand_all_without_open(parts.drop_last(), max, depth);
        lemma_expand_inner_without_open(parts.last(), max, false, depth);
        assert(parts.drop_last() + seq![parts.last()] =~= parts);
    }
}

/// With a single suffix, each item appears once between `pre` and it.
pub proof fn lemma_pairs_one_suffix(pre: Seq<char>, items: Seq<Seq<char>>, post: Seq<char>)
    ensures
        pairs(pre, items, seq![post]) == Seq::new(items.len(), |i: int| pre + items[i] + post),
    decreases items.len(),
{
    if items.len() > 0 {
        lemma_pairs_one_suffix(pre, items.drop_last(), post);
        assert(around(pre, items.last(), seq![post]) =~= seq![pre + items.last() + post]);
        assert(pairs(pre, items, seq![post]) =~= Seq::new(
            items.len(),
            |i: int| pre + items[i] + post,
        ));
    } else {
        assert(pairs(pre, items, seq![post]) =~= Seq::new(
            items.len(),
            |i: int| pre + items[i] + post,
        ));
    }
}

/// Dropping the empty members keeps only members of the sequence it started
/// from.
pub proof fn lemma_drop_empty_members(es: Seq<Seq<char>>, c: char)
    requires
        forall|k: int| 0 <= k < es.len() ==> free_of(#[trigger] es[k], c),
    ensures
        forall|k: int|
            0 <= k < drop_empty(es).len() ==> free_of(#[trigger] drop_empty(es)[k], c),
    decreases es.len(),
{
    if es.len() > 0 {
        assert forall|k: int| 0 <= k < es.drop_last().len() implies free_of(
            #[trigger] es.drop_last()[k],
            c,
        ) by {
            assert(es.drop_last()[k] == es[k]);
        }
        lemma_drop_empty_members(es.drop_last(), c);
        assert(free_of(es[es.len() - 1], c));
        let d = drop_empty(es.drop_last());
        assert forall|k: int| 0 <= k < drop_empty(es).len() implies free_of(
            #[trigger] drop_empty(es)[k],
            c,
        ) by {
            if es.last().len() > 0 && k == d.len() {
                assert(drop_empty(es)[k] == es.last());
            } else {
                assert(drop_empty(es)[k] == d[k]);
            }
        }
    }
}

/// Join three character vectors.
fn join3(a: &Vec<char>, b: &Vec<char>, c: &Vec<char>) -> (res: Vec<char>)
    ensures
        res@ == a@ + b@ + c@,
{
    let mut res = slice_of(a, 0, a.len());
    assert(res@ =~= a@);
    extend(&mut res, b);
    extend(&mut res, c);
    res
}

/// `s` inside a pair of braces.
pub fn embrace(s: &Vec<char>) -> (res: Vec<char>)
    ensures
        res@ == spec_embrace(s@),
{
    let mut out: Vec<char> = Vec::new();
    out.push('{');
    extend(&mut out, s);
    out.push('}');
    assert(out@ =~= spec_embrace(s@));
    out
}

/// `pre`, then `mid`, then each of `post` in turn, at most `max` of them.
fn around_capped(pre: &Vec<char>, mid: &Vec<char>, post: &Vec<Vec<char>>, max: usize) -> (res: Vec<
    Vec<char>,
>)
    ensures
        views(res@) == cap(around(pre@, mid@, views(post@)), max as nat),
        res@.len() <= max,
{
    let mut out: Vec<Vec<char>> = Vec::new();
    let mut k: usize = 0;
    while k < post.len() && k < max
        invariant
            k <= post@.len(),
            k <= max,
            out@.len() == k,
            views(out@) == around(pre@, mid@, views(post@)).take(k as int),
        decreases post@.len() - k,
    {
        let e = join3(pre, mid, &post[k]);
        let ghost before = views(out@);
        out.push(e);
        assert(views(out@) =~= before.push(e@));
        k += 1;
        assert(views(out@) =~= around(pre@, mid@, views(post@)).take(k as int));
    }
    if post.len() <= max {
        assert(around(pre@, mid@, views(post@)).take(k as int) =~= around(
            pre@,
            mid@,
            views(post@),
        ));
    }
    out
}

/// The expansions of `pre`, each item and each of `post`, without the empty
/// ones unless `keep_empty`, and at most `max` of them.
fn combine(
    pre: &Vec<char>,
    items: &Vec<Vec<char>>,
    post: &Vec<Vec<char>>,
    max: usize,
    keep_empty: bool,
) -> (res: Vec<Vec<char>>)
    ensures
        views(res@) == spec_combine(pre@, views(items@), views(post@), max as nat, keep_empty),
        res@.len() <= max,
{
    let ghost iv = views(items@);
    let ghost pv = views(post@);
    let mut expansions: Vec<Vec<char>> = Vec::new();
    let mut a: usize = 0;
    assert(iv.take(0) =~= Seq::<Seq<char>>::empty());
    while a < items.len()
        invariant
            iv == views(items@),
            pv == views(post@),
            a <= items@.len(),
            views(expansions@) == cap(kept(pairs(pre@, iv.take(a as int), pv), keep_empty), max as nat),
        decreases items@.len() - a,
    {
        let ghost done = pairs(pre@, iv.take(a as int), pv);
        let ghost row = around(pre@, iv[a as int], pv);
        assert(iv.take(a + 1).drop_last() =~= iv.take(a as int));
        assert(pairs(pre@, iv.take(a + 1), pv) == done + row);
        let mut b: usize = 0;
        assert(around(pre@, iv[a as int], pv.take(0)) =~= Seq::<Seq<char>>::empty());
        assert(done + Seq::<Seq<char>>::empty() =~= done);
        while b < post.len() && expansions.len() < max
            invariant
                iv == views(items@),
                pv == views(post@),
                a < items@.len(),
                b <= post@.len(),
                done == pairs(pre@, iv.take(a as int), pv),
                row == around(pre@, iv[a as int], pv),
                views(expansions@) == cap(
                    kept(done + around(pre@, iv[a as int], pv.take(b as int)), keep_empty),
                    max as nat,
                ),
            decreases post@.len() - b,
        {
            let ghost prefix = done + around(pre@, iv[a as int], pv.take(b as int));
            let e = join3(pre, &items[a], &post[b]);
            let ghost before = views(expansions@);
            proof {
                lemma_kept_append(prefix, seq![e@], keep_empty);
                assert(around(pre@, iv[a as int], pv.take(b + 1)) =~= around(
                    pre@,
                    iv[a as int],
                    pv.take(b as int),
                ).push(e@));
                assert(prefix + seq![e@] =~= done + around(pre@, iv[a as int], pv.take(b + 1)));
                assert(drop_empty(Seq::<Seq<char>>::empty()) =~= Seq::<Seq<char>>::empty());
                assert(seq![e@].drop_last() =~= Seq::<Seq<char>>::empty());
                assert(seq![e@].last() == e@);
                assert(drop_empty(seq![e@]) == (if e@.len() > 0 {
                    seq![e@]
                } else {
                    Seq::<Seq<char>>::empty()
                }));
            }
            if keep_empty || e.len() > 0 {
                expansions.push(e);
                assert(views(expansions@) =~= before.push(e@));
                assert(views(expansions@) =~= kept(prefix, keep_empty) + seq![e@]);
            } else {
                assert(kept(prefix, keep_empty) + kept(seq![e@], keep_empty) =~= kept(
                    prefix,
                    keep_empty,
                ));
            }
            b += 1;
        }
        proof {
            let prefix = done + around(pre@, iv[a as int], pv.take(b as int));
            let rest = around(pre@, iv[a as int], pv.skip(b as int));
            assert(prefix + rest =~= done + row);
            if b < post.len() {
                lemma_kept_append(prefix, rest, keep_empty);
                lemma_cap_full(kept(prefix, keep_empty), kept(rest, keep_empty), max as nat);
            } else {
                assert(pv.take(b as int) =~= pv);
            }
        }
        a += 1;
    }
    assert(iv.take(a as int) =~= iv);
    assert(views(expansions@).len() == expansions@.len());
    expansions
}

/// A list that holds a copy of `s` alone.
fn single(s: &Vec<char>) -> (res: Vec<Vec<char>>)
    ensures
        views(res@) == seq![s@],
        res@.len() == 1,
{
    let mut res: Vec<Vec<char>> = Vec::new();
    let copy = slice_of(s, 0, s.len());
    assert(copy@ =~= s@);
    res.push(copy);
    assert(views(res@) =~= seq![s@]);
    res
}

/// Whether `s` holds `c`.
fn contains_char(s: &Vec<char>, c: char) -> (res: bool)
    ensures
        res == s@.contains(c),
{
    match index_of(s, c, 0) {
        Some(_) => true,
        None => false,
    }
}

/// The expansions of `s` before escaped characters are brought back.
pub fn expand_inner(s: &Vec<char>, max: usize, is_top: bool, depth: u32) -> (res: Vec<Vec<char>>)
    ensures
        views(res@) == spec_expand_inner(s@, max as nat, is_top, depth as int),
        res@.len() <= max || res@.len() == 1,
    decreases 257 - depth,
{
    if depth > MAX_DEPTH {
        return single(s);
    }
    let (pre, body, post_str) = match balanced(s) {
        Some(parts) => parts,
        None => {
            return single(s);
        },
    };
    let post: Vec<Vec<char>> = if post_str.len() == 0 {
        single(&Vec::new())
    } else {
        expand_inner(&post_str, max, false, depth + 1)
    };
    if pre.len() > 0 && pre[pre.len() - 1] == '$' {
        return around_capped(&pre, &embrace(&body), &post, max);
    }
    let is_numeric_seq = is_numeric_sequence(&body);
    let is_alpha_seq = is_alpha_sequence(&body);
    let is_sequence = is_numeric_seq || is_alpha_seq;
    let is_options = contains_char(&body, ',');
    if !is_sequence && !is_options {
        if has_dangling_close(&post_str) {
            let mut rebuilt = slice_of(&pre, 0, pre.len());
            rebuilt.push('{');
            extend(&mut rebuilt, &body);
            extend(&mut rebuilt, &esc_close_vec());
            extend(&mut rebuilt, &post_str);
            assert(rebuilt@ =~= pre@ + seq!['{'] + body@ + esc_close() + post_str@);
            return expand_inner(&rebuilt, max, true, depth + 1);
        }
        return single(s);
    }
    if is_sequence {
        let n = split(&body, &dots_vec());
        let big_n = sequence(&n, is_alpha_seq, max);
        return combine(&pre, &big_n, &post, max, true);
    }
    let parsed = parse_comma_parts(&body, depth + 1);
    let ghost pv = views(post@);
    assert(!ends_with_dollar(pre@));
    assert(!spec_is_numeric_sequence(body@) && !spec_is_alpha_sequence(body@));
    assert(body@.contains(','));
    assert(pv == (if post_str@.len() == 0 {
        seq![Seq::<char>::empty()]
    } else {
        spec_expand_inner(post_str@, max as nat, false, depth + 1)
    }));
    let n: Vec<Vec<char>> = if parsed.len() == 1 {
        assert(views(parsed@)[0] == parsed@[0]@);
        let inner = expand_inner(&parsed[0], max, false, depth + 1);
        let mut embraced: Vec<Vec<char>> = Vec::new();
        let mut k: usize = 0;
        while k < inner.len()
            invariant
                k <= inner@.len(),
                views(embraced@) == Seq::new(k as nat, |j: int| spec_embrace(inner@[j]@)),
            decreases inner@.len() - k,
        {
            let e = embrace(&inner[k]);
            let ghost before = views(embraced@);
            embraced.push(e);
            assert(views(embraced@) =~= before.push(e@));
            k += 1;
            assert(views(embraced@) =~= Seq::new(k as nat, |j: int| spec_embrace(inner@[j]@)));
        }
        let ghost ev = Seq::new(
            views(inner@).len(),
            |j: int| spec_embrace(views(inner@)[j]),
        );
        assert(views(embraced@) =~= ev);
        if embraced.len() == 1 {
            assert(embraced@[0]@ == ev[0]);
            let res = around_capped(&pre, &embraced[0], &post, post.len());
            assert(cap(around(pre@, embraced@[0]@, views(post@)), post@.len()) =~= around(
                pre@,
                embraced@[0]@,
                views(post@),
            ));
            return res;
        }
        embraced
    } else {
        parsed
    };
    let ghost nv = views(n@);
    let mut big_n: Vec<Vec<char>> = Vec::new();
    let mut k: usize = 0;
    assert(nv.take(0) =~= Seq::<Seq<char>>::empty());
    while k < n.len()
        invariant
            nv == views(n@),
            k <= n@.len(),
            depth <= MAX_DEPTH,
            views(big_n@) == expand_all(nv.take(k as int), max as nat, depth + 1),
        decreases n@.len() - k,
    {
        let mut part = expand_inner(&n[k], max, false, depth + 1);
        let ghost before = views(big_n@);
        let ghost pv = views(part@);
        big_n.append(&mut part);
        assert(views(big_n@) =~= before + pv);
        assert(nv.take(k + 1).drop_last() =~= nv.take(k as int));
        k += 1;
    }
    assert(nv.take(k as int) =~= nv);
    combine(&pre, &big_n, &post, max, !is_top)
}

} // verus!

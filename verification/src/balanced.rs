//! Finding the first balanced `{ … }` pair of a character sequence.

use crate::text::{free_of, slice_of};
use vstd::prelude::*;

verus! {

/// The outcome of matching braces from position `i` on, with the positions
/// of the still unmatched `{` in `begs`, and, among the pairs matched inside
/// another still open `{`, the one whose `{` comes first as `(left, right)`
/// when `right_set`.  A `}` with no open `{` is ignored; the first `}` that
/// closes the outermost open `{` gives that pair; when the input runs out
/// first, the innermost-first pair recorded is the answer, if any.
pub open spec fn scan(
    s: Seq<char>,
    i: int,
    begs: Seq<usize>,
    left: int,
    right: int,
    right_set: bool,
) -> Option<(int, int)>
    decreases s.len() - i,
{
    if i < 0 || i >= s.len() {
        if begs.len() > 0 && right_set {
            Some((left, right))
        } else {
            None
        }
    } else if s[i] == '{' {
        scan(s, i + 1, begs.push(i as usize), left, right, right_set)
    } else if s[i] == '}' && begs.len() > 0 {
        if begs.len() == 1 {
            Some((begs[0] as int, i))
        } else if (begs.last() as int) < left {
            scan(s, i + 1, begs.drop_last(), begs.last() as int, i, true)
        } else {
            scan(s, i + 1, begs.drop_last(), left, right, right_set)
        }
    } else {
        scan(s, i + 1, begs, left, right, right_set)
    }
}

/// The positions of the first balanced `{ … }` pair of `s`: the outermost
/// pair closed first, or, when the outermost `{` is never closed, the matched
/// pair that opens first.
pub open spec fn spec_range(s: Seq<char>) -> Option<(int, int)> {
    scan(s, 0, Seq::empty(), s.len() as int, 0, false)
}

/// `s` split around its first balanced pair into the text before the `{`, the
/// text between the braces and the text after the `}`.
pub open spec fn spec_balanced(s: Seq<char>) -> Option<(Seq<char>, Seq<char>, Seq<char>)> {
    match spec_range(s) {
        Some((l, r)) => Some((s.take(l), s.subrange(l + 1, r), s.skip(r + 1))),
        None => None,
    }
}

/// Whether `c` occurs in `s` between positions `from` (inclusive) and `to`
/// (exclusive).
pub open spec fn occurs_in(s: Seq<char>, c: char, from: int, to: int) -> bool {
    exists|k: int| from <= k < to && s[k] == c
}

/// The state of a scan that holds at position `i`: every open `{` lies before
/// `i`, in order, and a recorded pair is a `{` followed by a `}` before `i`.
pub open spec fn scan_state_wf(
    s: Seq<char>,
    i: int,
    begs: Seq<usize>,
    left: int,
    right: int,
    right_set: bool,
) -> bool {
    &&& 0 <= i <= s.len() <= usize::MAX
    &&& forall|k: int| 0 <= k < begs.len() ==> begs[k] < i && s[begs[k] as int] == '{'
    &&& right_set ==> 0 <= left < right < i && s[left] == '{' && s[right] == '}'
}

/// Every answer of a scan is a `{` followed by a `}`.
pub proof fn lemma_scan_wf(
    s: Seq<char>,
    i: int,
    begs: Seq<usize>,
    left: int,
    right: int,
    right_set: bool,
)
    requires
        scan_state_wf(s, i, begs, left, right, right_set),
    ensures
        scan(s, i, begs, left, right, right_set) matches Some((l, r)) ==> 0 <= l < r < s.len()
            && s[l] == '{' && s[r] == '}',
    decreases s.len() - i,
{
    if i < s.len() {
        if s[i] == '{' {
            lemma_scan_wf(s, i + 1, begs.push(i as usize), left, right, right_set);
        } else if s[i] == '}' && begs.len() > 0 {
            if begs.len() == 1 {
            } else if (begs.last() as int) < left {
                lemma_scan_wf(s, i + 1, begs.drop_last(), begs.last() as int, i, true);
            } else {
                lemma_scan_wf(s, i + 1, begs.drop_last(), left, right, right_set);
            }
        } else {
            lemma_scan_wf(s, i + 1, begs, left, right, right_set);
        }
    }
}

/// The first balanced pair, when there is one, is a `{` followed by a `}`.
pub proof fn lemma_range_wf(s: Seq<char>)
    requires
        s.len() <= usize::MAX,
    ensures
        spec_range(s) matches Some((l, r)) ==> 0 <= l < r < s.len() && s[l] == '{' && s[r]
            == '}',
{
    lemma_scan_wf(s, 0, Seq::empty(), s.len() as int, 0, false);
}

/// Positions that hold no brace do not change a scan.
proof fn lemma_scan_skip(
    s: Seq<char>,
    p: int,
    q: int,
    begs: Seq<usize>,
    left: int,
    right: int,
    right_set: bool,
)
    requires
        0 <= p <= q <= s.len(),
        !occurs_in(s, '{', p, q),
        !occurs_in(s, '}', p, q) || begs.len() == 0,
    ensures
        scan(s, p, begs, left, right, right_set) == scan(s, q, begs, left, right, right_set),
    decreases q - p,
{
    if p < q {
        assert(s[p] != '{');
        assert(s[p] != '}' || begs.len() == 0);
        lemma_scan_skip(s, p + 1, q, begs, left, right, right_set);
    }
}

/// With no `}` left, a scan that holds an open `{` ends with its recorded pair.
proof fn lemma_scan_no_close(
    s: Seq<char>,
    p: int,
    begs: Seq<usize>,
    left: int,
    right: int,
    right_set: bool,
)
    requires
        0 <= p <= s.len(),
        begs.len() > 0,
        !occurs_in(s, '}', p, s.len() as int),
    ensures
        scan(s, p, begs, left, right, right_set) == (if right_set {
            Some((left, right))
        } else {
            None::<(int, int)>
        }),
    decreases s.len() - p,
{
    if p < s.len() {
        assert(s[p] != '}');
        if s[p] == '{' {
            lemma_scan_no_close(s, p + 1, begs.push(p as usize), left, right, right_set);
        } else {
            lemma_scan_no_close(s, p + 1, begs, left, right, right_set);
        }
    }
}

/// How many more `{` than `}` the first `k` characters of `t` hold.
pub open spec fn brace_depth(t: Seq<char>, k: int) -> int
    decreases k,
{
    if k <= 0 {
        0
    } else {
        brace_depth(t, k - 1) + if t[k - 1] == '{' {
            1int
        } else if t[k - 1] == '}' {
            -1int
        } else {
            0int
        }
    }
}

/// Whether the braces of `t` are balanced: every `}` closes an earlier `{`
/// of `t`, and every `{` is closed.
pub open spec fn balanced_braces(t: Seq<char>) -> bool {
    &&& forall|k: int| 0 <= k <= t.len() ==> brace_depth(t, k) >= 0
    &&& brace_depth(t, t.len() as int) == 0
}

/// Text without braces around one brace-free set has balanced braces.
pub proof fn lemma_one_set_balanced(a: Seq<char>, b: Seq<char>)
    requires
        free_of(a, '{'),
        free_of(a, '}'),
        free_of(b, '{'),
        free_of(b, '}'),
    ensures
        balanced_braces(a + seq!['{'] + b + seq!['}']),
{
    let t = a + seq!['{'] + b + seq!['}'];
    assert forall|k: int| 0 <= k <= t.len() implies brace_depth(t, k) == (if k <= a.len() {
        0int
    } else if k <= a.len() + 1 + b.len() {
        1int
    } else {
        0int
    }) by {
        lemma_one_set_depth(a, b, k);
    }
}

proof fn lemma_one_set_depth(a: Seq<char>, b: Seq<char>, k: int)
    requires
        free_of(a, '{'),
        free_of(a, '}'),
        free_of(b, '{'),
        free_of(b, '}'),
        0 <= k <= a.len() + b.len() + 2,
    ensures
        brace_depth(a + seq!['{'] + b + seq!['}'], k) == (if k <= a.len() {
            0int
        } else if k <= a.len() + 1 + b.len() {
            1int
        } else {
            0int
        }),
    decreases k,
{
    let t = a + seq!['{'] + b + seq!['}'];
    if k > 0 {
        lemma_one_set_depth(a, b, k - 1);
        let i = k - 1;
        if i < a.len() {
            assert(t[i] == a[i]);
        } else if i == a.len() {
            assert(t[i] == '{');
        } else if i < a.len() + 1 + b.len() {
            assert(t[i] == b[i - a.len() - 1]);
        } else {
            assert(t[i] == '}');
        }
    }
}

/// Scanning a body with balanced braces from inside the `{` that opens it
/// ends at the `}` right after the body, which closes that `{`.
proof fn lemma_scan_balanced_body(
    s: Seq<char>,
    body: Seq<char>,
    a: int,
    i: int,
    begs: Seq<usize>,
    left: int,
    right: int,
    right_set: bool,
)
    requires
        0 <= a <= i <= a + body.len(),
        a + body.len() < s.len(),
        forall|k: int| 0 <= k < body.len() ==> s[a + k] == body[k],
        s[a + body.len()] == '}',
        balanced_braces(body),
        begs.len() == 1 + brace_depth(body, i - a),
    ensures
        scan(s, i, begs, left, right, right_set) == Some((begs[0] as int, a + body.len())),
    decreases a + body.len() - i,
{
    let n = body.len() as int;
    if i < a + n {
        let k = i - a;
        assert(s[i] == body[k]);
        assert(brace_depth(body, k + 1) >= 0);
        if s[i] == '{' {
            lemma_scan_balanced_body(s, body, a, i + 1, begs.push(i as usize), left, right, right_set);
        } else if s[i] == '}' {
            assert(begs.len() >= 2);
            let d = begs.drop_last();
            if (begs.last() as int) < left {
                lemma_scan_balanced_body(s, body, a, i + 1, d, begs.last() as int, i, true);
            } else {
                lemma_scan_balanced_body(s, body, a, i + 1, d, left, right, right_set);
            }
        } else {
            lemma_scan_balanced_body(s, body, a, i + 1, begs, left, right, right_set);
        }
    }
}

/// When the text before a set holds no `{` and the set's body has balanced
/// braces, the first balanced pair is that set's own pair, however deeply
/// the body nests: the text splits into the text before it, the body, and
/// the text after it.
pub proof fn law_balanced_outer_set(pre: Seq<char>, body: Seq<char>, post: Seq<char>)
    requires
        free_of(pre, '{'),
        balanced_braces(body),
        pre.len() + body.len() + post.len() + 2 <= usize::MAX,
    ensures
        spec_balanced(pre + seq!['{'] + body + seq!['}'] + post) == Some((pre, body, post)),
{
    let s = pre + seq!['{'] + body + seq!['}'] + post;
    let p = pre.len() as int;
    let q = p + 1 + body.len();
    assert(s[p] == '{');
    assert(s[q] == '}');
    assert forall|k: int| 0 <= k < p implies s[k] != '{' by {
        assert(s[k] == pre[k]);
    }
    assert forall|k: int| 0 <= k < body.len() implies s[p + 1 + k] == body[k] by {}
    lemma_scan_skip(s, 0, p, Seq::empty(), s.len() as int, 0, false);
    let begs = Seq::<usize>::empty().push(p as usize);
    assert(scan(s, p, Seq::empty(), s.len() as int, 0, false) == scan(
        s,
        p + 1,
        begs,
        s.len() as int,
        0,
        false,
    ));
    lemma_scan_balanced_body(s, body, p + 1, p + 1, begs, s.len() as int, 0, false);
    assert(spec_range(s) == Some((p, q)));
    assert(s.take(p) =~= pre);
    assert(s.subrange(p + 1, q) =~= body);
    assert(s.skip(q + 1) =~= post);
}

/// When a `{` that stays open comes first, and the next set holds no brace
/// and has no `}` after it, the first balanced pair is that next set.
pub proof fn lemma_balanced_after_open(
    pre: Seq<char>,
    mid: Seq<char>,
    body: Seq<char>,
    post: Seq<char>,
)
    requires
        free_of(pre, '{'),
        free_of(mid, '{'),
        free_of(mid, '}'),
        free_of(body, '{'),
        free_of(body, '}'),
        free_of(post, '}'),
        pre.len() + mid.len() + body.len() + post.len() + 3 <= usize::MAX,
    ensures
        spec_balanced(pre + seq!['{'] + mid + seq!['{'] + body + seq!['}'] + post) == Some(
            (pre + seq!['{'] + mid, body, post),
        ),
{
    let s = pre + seq!['{'] + mid + seq!['{'] + body + seq!['}'] + post;
    let p = pre.len() as int;
    let p2 = p + 1 + mid.len();
    let q = p2 + 1 + body.len();
    assert(s[p] == '{');
    assert(s[p2] == '{');
    assert(s[q] == '}');
    assert forall|k: int| 0 <= k < p implies s[k] != '{' by {
        assert(s[k] == pre[k]);
    }
    assert forall|k: int| p + 1 <= k < p2 implies s[k] != '{' && s[k] != '}' by {
        assert(s[k] == mid[k - p - 1]);
    }
    assert forall|k: int| p2 + 1 <= k < q implies s[k] != '{' && s[k] != '}' by {
        assert(s[k] == body[k - p2 - 1]);
    }
    assert forall|k: int| q + 1 <= k < s.len() implies s[k] != '}' by {
        assert(s[k] == post[k - q - 1]);
    }
    let b1 = Seq::<usize>::empty().push(p as usize);
    let b2 = b1.push(p2 as usize);
    lemma_scan_skip(s, 0, p, Seq::empty(), s.len() as int, 0, false);
    lemma_scan_skip(s, p + 1, p2, b1, s.len() as int, 0, false);
    lemma_scan_skip(s, p2 + 1, q, b2, s.len() as int, 0, false);
    assert(b2.drop_last() =~= b1);
    lemma_scan_no_close(s, q + 1, b1, p2, q, true);
    assert(scan(s, q, b2, s.len() as int, 0, false) == scan(s, q + 1, b1, p2, q, true));
    assert(spec_range(s) == Some((p2, q)));
    assert(s.take(p2) =~= pre + seq!['{'] + mid);
    assert(s.subrange(p2 + 1, q) =~= body);
    assert(s.skip(q + 1) =~= post);
}

/// The text before the first balanced pair, the pair around its body, and
/// the text after it make up the whole.
pub proof fn lemma_balanced_rebuilds(s: Seq<char>)
    requires
        s.len() <= usize::MAX,
    ensures
        spec_balanced(s) matches Some((pre, body, post)) ==> s == pre + seq!['{'] + body
            + seq!['}'] + post && post.len() < s.len(),
{
    lemma_range_wf(s);
    if let Some((l, r)) = spec_range(s) {
        assert(s =~= s.take(l) + seq!['{'] + s.subrange(l + 1, r) + seq!['}'] + s.skip(r + 1));
    }
}

/// A sequence without `{` has no balanced pair.
pub proof fn lemma_range_without_open(s: Seq<char>)
    requires
        free_of(s, '{'),
    ensures
        spec_range(s) is None,
        spec_balanced(s) is None,
{
    lemma_scan_skip(s, 0, s.len() as int, Seq::empty(), s.len() as int, 0, false);
}

/// When `pre` holds no `{` and `body` no brace, the first balanced pair of
/// `pre{body}post` is the one around `body`.
pub proof fn lemma_balanced_first_set(pre: Seq<char>, body: Seq<char>, post: Seq<char>)
    requires
        free_of(pre, '{'),
        free_of(body, '{'),
        free_of(body, '}'),
        pre.len() + body.len() + post.len() + 2 <= usize::MAX,
    ensures
        spec_balanced(pre + seq!['{'] + body + seq!['}'] + post) == Some((pre, body, post)),
{
    let s = pre + seq!['{'] + body + seq!['}'] + post;
    let p = pre.len() as int;
    let q = p + 1 + body.len();
    assert(s[p] == '{');
    assert(s[q] == '}');
    assert forall|k: int| 0 <= k < p implies s[k] != '{' by {
        assert(s[k] == pre[k]);
    }
    assert forall|k: int| p + 1 <= k < q implies s[k] != '{' && s[k] != '}' by {
        assert(s[k] == body[k - p - 1]);
    }
    lemma_scan_skip(s, 0, p, Seq::empty(), s.len() as int, 0, false);
    let begs = Seq::<usize>::empty().push(p as usize);
    lemma_scan_skip(s, p + 1, q, begs, s.len() as int, 0, false);
    assert(scan(s, p, Seq::empty(), s.len() as int, 0, false) == scan(
        s,
        p + 1,
        begs,
        s.len() as int,
        0,
        false,
    ));
    assert(scan(s, q, begs, s.len() as int, 0, false) == Some((p, q)));
    assert(spec_range(s) == Some((p, q)));
    assert(s.take(p) =~= pre);
    assert(s.subrange(p + 1, q) =~= body);
    assert(s.skip(q + 1) =~= post);
}

/// The first position at or after `from` that holds `c`, if any.
pub fn index_of(s: &Vec<char>, c: char, from: usize) -> (res: Option<usize>)
    ensures
        match res {
            Some(p) => from <= p < s.len() && s@[p as int] == c && !occurs_in(
                s@,
                c,
                from as int,
                p as int,
            ),
            None => !occurs_in(s@, c, from as int, s@.len() as int),
        },
{
    let mut k = from;
    while k < s.len()
        invariant
            from <= k,
            !occurs_in(s@, c, from as int, k as int),
        decreases s@.len() - k,
    {
        if s[k] == c {
            return Some(k);
        }
        k += 1;
    }
    None
}

/// The positions of the first balanced `{ … }` pair, found by walking from
/// brace to brace.
pub fn range(s: &Vec<char>) -> (res: Option<(usize, usize)>)
    ensures
        match res {
            Some((l, r)) => spec_range(s@) == Some((l as int, r as int)),
            None => spec_range(s@) is None,
        },
{
    let mut ai = index_of(s, '{', 0);
    let a0 = match ai {
        Some(a) => a,
        None => {
            proof {
                lemma_scan_skip(s@, 0, s@.len() as int, Seq::empty(), s@.len() as int, 0, false);
            }
            return None;
        },
    };
    let mut bi = index_of(s, '}', a0 + 1);
    proof {
        lemma_scan_skip(s@, 0, a0 as int, Seq::empty(), s@.len() as int, 0, false);
    }
    if bi.is_none() {
        proof {
            lemma_scan_no_close(s@, a0 + 1, seq![a0], s@.len() as int, 0, false);
        }
        return None;
    }
    let mut i: Option<usize> = Some(a0);
    let mut begs: Vec<usize> = Vec::new();
    let mut left: usize = s.len();
    let mut right: usize = 0;
    let mut right_set = false;
    let mut result: Option<(usize, usize)> = None;
    while i.is_some() && result.is_none()
        invariant
            result is None ==> match i {
                Some(cur) => {
                    &&& cur < s.len()
                    &&& spec_range(s@) == scan(
                        s@,
                        cur as int,
                        begs@,
                        left as int,
                        right as int,
                        right_set,
                    )
                    &&& (begs@.len() == 0 ==> ai == Some(cur))
                    &&& match ai {
                        Some(a) => cur <= a < s@.len() && s@[a as int] == '{' && !occurs_in(
                            s@,
                            '{',
                            cur as int,
                            a as int,
                        ),
                        None => !occurs_in(s@, '{', cur as int, s@.len() as int),
                    }
                    &&& match bi {
                        Some(b) => cur <= b < s@.len() && s@[b as int] == '}' && !occurs_in(
                            s@,
                            '}',
                            cur as int,
                            b as int,
                        ),
                        None => false,
                    }
                    &&& (ai == Some(cur) || bi == Some(cur))
                },
                None => {
                    &&& begs@.len() > 0
                    &&& spec_range(s@) == (if right_set {
                        Some((left as int, right as int))
                    } else {
                        None::<(int, int)>
                    })
                },
            },
            result matches Some((l, r)) ==> spec_range(s@) == Some((l as int, r as int))
                && begs@.len() == 0,
            left <= s@.len(),
        decreases s@.len() - match i {
            Some(cur) => cur as int,
            None => s@.len() as int,
        }, if result is None { 1int } else { 0int },
    {
        let cur = match i {
            Some(c) => c,
            None => 0,
        };
        if ai == Some(cur) {
            begs.push(cur);
            ai = index_of(s, '{', cur + 1);
        } else if begs.len() == 1 {
            let r = begs.pop();
            if let Some(r) = r {
                result = Some((r, cur));
            }
        } else {
            let beg = begs.pop();
            if let Some(beg) = beg {
                if beg < left {
                    left = beg;
                    right = cur;
                    right_set = true;
                }
            }
            bi = index_of(s, '}', cur + 1);
        }
        let next = match (ai, bi) {
            (Some(a), Some(b)) => if a < b {
                Some(a)
            } else {
                Some(b)
            },
            (None, Some(b)) => Some(b),
            (_, None) => None,
        };
        proof {
            if result is None {
                match next {
                    Some(n) => {
                        lemma_scan_skip(
                            s@,
                            cur + 1,
                            n as int,
                            begs@,
                            left as int,
                            right as int,
                            right_set,
                        );
                    },
                    None => {
                        lemma_scan_no_close(
                            s@,
                            cur + 1,
                            begs@,
                            left as int,
                            right as int,
                            right_set,
                        );
                    },
                }
            }
        }
        i = next;
    }
    if begs.len() > 0 && right_set {
        result = Some((left, right));
    }
    result
}

/// The first balanced `{ … }` pair of `s`, as the text before it, the text
/// between its braces and the text after it.
pub fn balanced(s: &Vec<char>) -> (res: Option<(Vec<char>, Vec<char>, Vec<char>)>)
    ensures
        match res {
            Some((pre, body, post)) => spec_balanced(s@) == Some((pre@, body@, post@)) && s@
                == pre@ + seq!['{'] + body@ + seq!['}'] + post@,
            None => spec_balanced(s@) is None,
        },
{
    let n = s.len();
    match range(s) {
        Some((start, end)) => {
            proof {
                lemma_range_wf(s@);
            }
            let pre = slice_of(s, 0, start);
            let body = slice_of(s, start + 1, end);
            let post = slice_of(s, end + 1, n);
            assert(s@ =~= pre@ + seq!['{'] + body@ + seq!['}'] + post@);
            assert(pre@ =~= s@.take(start as int));
            assert(post@ =~= s@.skip(end + 1));
            Some((pre, body, post))
        },
        None => None,
    }
}

} // verus!

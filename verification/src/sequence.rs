//! Numeric and alphabetic sequences: `{x..y}` and `{x..y..step}`.

use crate::number::{
    is_int,
    is_padded,
    is_single_letter,
    numeric,
    pad_number,
    spec_is_int,
    spec_is_padded,
    spec_is_single_letter,
    spec_numeric,
    spec_pad_number,
};
use crate::text::{free_of, lemma_split_pieces_free, split, split_by, views};
use vstd::prelude::*;

verus! {

/// The separator of sequence endpoints and step.
pub open spec fn dots() -> Seq<char> {
    seq!['.', '.']
}

/// Whether `body` is a numeric sequence: two or three integers joined by `..`.
pub open spec fn spec_is_numeric_sequence(body: Seq<char>) -> bool {
    let parts = split_by(body, dots());
    (parts.len() == 2 || parts.len() == 3) && forall|k: int|
        0 <= k < parts.len() ==> spec_is_int(#[trigger] parts[k])
}

/// Whether `body` is an alphabetic sequence: two single letters joined by
/// `..`, optionally followed by `..` and an integer step.
pub open spec fn spec_is_alpha_sequence(body: Seq<char>) -> bool {
    let parts = split_by(body, dots());
    if parts.len() == 2 {
        spec_is_single_letter(parts[0]) && spec_is_single_letter(parts[1])
    } else if parts.len() == 3 {
        spec_is_single_letter(parts[0]) && spec_is_single_letter(parts[1]) && spec_is_int(
            parts[2],
        )
    } else {
        false
    }
}

/// `|v|`, with `|i64::MIN|` saturated to `i64::MAX`.
pub open spec fn saturating_abs(v: i64) -> int {
    if v == i64::MIN {
        i64::MAX as int
    } else if v < 0 {
        0 - v
    } else {
        v as int
    }
}

/// The distance between consecutive members: the magnitude of the step, and
/// at least one.
pub open spec fn step_size(n: Seq<Seq<char>>) -> int {
    if n.len() == 3 {
        let a = saturating_abs(spec_numeric(n[2]));
        if a < 1 {
            1
        } else {
            a
        }
    } else {
        1
    }
}

/// The first member's value.
pub open spec fn seq_first(n: Seq<Seq<char>>) -> int {
    spec_numeric(n[0]) as int
}

/// The last endpoint's value.
pub open spec fn seq_last(n: Seq<Seq<char>>) -> int {
    spec_numeric(n[1]) as int
}

/// The signed step: negative when the sequence runs downwards.
pub open spec fn seq_step(n: Seq<Seq<char>>) -> int {
    if seq_last(n) < seq_first(n) {
        0 - step_size(n)
    } else {
        step_size(n)
    }
}

/// How many members lie between the endpoints.
pub open spec fn members_in_range(n: Seq<Seq<char>>) -> int {
    let dist = if seq_last(n) < seq_first(n) {
        seq_first(n) - seq_last(n)
    } else {
        seq_last(n) - seq_first(n)
    };
    dist / step_size(n) + 1
}

/// How many members a sequence capped at `max` yields.
pub open spec fn seq_count(n: Seq<Seq<char>>, max: nat) -> int {
    if max < members_in_range(n) {
        max as int
    } else {
        members_in_range(n)
    }
}

/// The width that padded members are widened to: the longer endpoint.
pub open spec fn seq_width(n: Seq<Seq<char>>) -> nat {
    if n[0].len() < n[1].len() {
        n[1].len()
    } else {
        n[0].len()
    }
}

/// Whether members are zero-padded: some part of the sequence is.
pub open spec fn seq_pad(n: Seq<Seq<char>>) -> bool {
    exists|k: int| 0 <= k < n.len() && spec_is_padded(#[trigger] n[k])
}

/// Whether `v` is the code of a character.
pub open spec fn is_char_code(v: int) -> bool {
    (0 <= v <= 0xD7FF) || (0xE000 <= v <= 0x10FFFF)
}

/// An alphabetic member: the character with code `v`, or nothing when there
/// is no such character or it is a backslash.
pub open spec fn alpha_member(v: int) -> Seq<char> {
    if is_char_code(v) && v != '\\' as int {
        seq![v as char]
    } else {
        Seq::empty()
    }
}

/// The member with value `v`.
pub open spec fn member(n: Seq<Seq<char>>, is_alpha: bool, v: int) -> Seq<char> {
    if is_alpha {
        alpha_member(v)
    } else {
        spec_pad_number(v, seq_width(n), seq_pad(n))
    }
}

/// The members of the sequence whose `..`-separated parts are `n`, at most
/// `max` of them: from the first endpoint towards the last by the step.
pub open spec fn spec_sequence(n: Seq<Seq<char>>, is_alpha: bool, max: nat) -> Seq<Seq<char>> {
    Seq::new(
        seq_count(n, max) as nat,
        |k: int| member(n, is_alpha, seq_first(n) + k * seq_step(n)),
    )
}

/// An integer holds no comma.
proof fn lemma_int_free_of_comma(p: Seq<char>)
    requires
        spec_is_int(p),
    ensures
        free_of(p, ','),
{
    let body = crate::number::unsigned_part(p);
    assert forall|i: int| 0 <= i < p.len() implies p[i] != ',' by {
        if p.len() > 0 && p[0] == '-' {
            if i > 0 {
                assert(p[i] == body[i - 1]);
                assert(crate::number::is_digit(body[i - 1]));
            }
        } else {
            assert(crate::number::is_digit(body[i]));
        }
    }
}

/// A body that holds a comma is neither a numeric nor an alphabetic sequence.
pub proof fn lemma_comma_body_not_sequence(body: Seq<char>)
    requires
        !free_of(body, ','),
    ensures
        !spec_is_numeric_sequence(body),
        !spec_is_alpha_sequence(body),
{
    let parts = split_by(body, dots());
    if spec_is_numeric_sequence(body) || spec_is_alpha_sequence(body) {
        assert forall|k: int| 0 <= k < parts.len() implies free_of(#[trigger] parts[k], ',') by {
            if spec_is_numeric_sequence(body) {
                lemma_int_free_of_comma(parts[k]);
            } else if k == 2 {
                lemma_int_free_of_comma(parts[k]);
            } else {
                assert(spec_is_single_letter(parts[k]));
            }
        }
        lemma_split_pieces_free(body, dots(), ',');
    }
}

/// `char::from_u32`: the character whose code is `i` when `i` is the code of
/// a character (not a surrogate, at most `0x10FFFF`), and `None` otherwise.
pub assume_specification[ core::char::from_u32 ](i: u32) -> (res: Option<char>)
    ensures
        res == (if is_char_code(i as int) {
            Some(i as char)
        } else {
            None
        }),
;

pub fn dots_vec() -> (res: Vec<char>)
    ensures
        res@ == dots(),
{
    vec!['.', '.']
}

/// Whether `body` is a numeric sequence: two or three integers joined by `..`.
pub fn is_numeric_sequence(body: &Vec<char>) -> (res: bool)
    ensures
        res == spec_is_numeric_sequence(body@),
{
    let parts = split(body, &dots_vec());
    if parts.len() != 2 && parts.len() != 3 {
        return false;
    }
    let mut k: usize = 0;
    while k < parts.len()
        invariant
            views(parts@) == split_by(body@, dots()),
            k <= parts@.len(),
            forall|j: int| 0 <= j < k ==> spec_is_int(#[trigger] views(parts@)[j]),
        decreases parts@.len() - k,
    {
        if !is_int(&parts[k]) {
            assert(views(parts@)[k as int] == parts@[k as int]@);
            return false;
        }
        k += 1;
    }
    true
}

/// Whether `body` is an alphabetic sequence: two single letters joined by
/// `..`, optionally followed by `..` and an integer step.
pub fn is_alpha_sequence(body: &Vec<char>) -> (res: bool)
    ensures
        res == spec_is_alpha_sequence(body@),
{
    let parts = split(body, &dots_vec());
    assert(parts@.len() == views(parts@).len());
    if parts.len() == 2 {
        is_single_letter(&parts[0]) && is_single_letter(&parts[1])
    } else if parts.len() == 3 {
        is_single_letter(&parts[0]) && is_single_letter(&parts[1]) && is_int(&parts[2])
    } else {
        false
    }
}

pub proof fn lemma_steps_in_range(k: int, d: int, dist: int)
    requires
        d > 0,
        k >= 0,
        dist >= 0,
    ensures
        (k * d <= dist) == (k <= dist / d),
{
    assert((k * d <= dist) == (k <= dist / d)) by (nonlinear_arith)
        requires
            d > 0,
            k >= 0,
            dist >= 0,
    ;
}

/// The member with value `i`.
fn render(i: i64, is_alpha: bool, width: usize, pad: bool) -> (res: Vec<char>)
    ensures
        res@ == (if is_alpha {
            alpha_member(i as int)
        } else {
            spec_pad_number(i as int, width as nat, pad)
        }),
{
    if is_alpha {
        let c = if 0 <= i && i <= 0xFFFF_FFFF {
            core::char::from_u32(i as u32)
        } else {
            None
        };
        match c {
            Some(c) => {
                if c == '\\' {
                    Vec::new()
                } else {
                    let mut v: Vec<char> = Vec::new();
                    v.push(c);
                    v
                }
            },
            None => Vec::new(),
        }
    } else {
        pad_number(i, width, pad)
    }
}

/// The members of the sequence whose `..`-separated parts are `n`, at most
/// `max` of them.
pub fn sequence(n: &Vec<Vec<char>>, is_alpha: bool, max: usize) -> (res: Vec<Vec<char>>)
    requires
        n@.len() >= 2,
    ensures
        views(res@) == spec_sequence(views(n@), is_alpha, max as nat),
{
    let ghost nv = views(n@);
    let x = numeric(&n[0]);
    let y = numeric(&n[1]);
    let w0 = n[0].len();
    let w1 = n[1].len();
    let width = if w0 < w1 {
        w1
    } else {
        w0
    };
    let mut incr: i64 = if n.len() == 3 {
        let a = numeric(&n[2]);
        let abs = if a == i64::MIN {
            i64::MAX
        } else if a < 0 {
            -a
        } else {
            a
        };
        if abs < 1 {
            1
        } else {
            abs
        }
    } else {
        1
    };
    assert(incr == step_size(nv));
    let reverse = y < x;
    if reverse {
        incr = -incr;
    }
    let mut pad = false;
    let mut j: usize = 0;
    while j < n.len()
        invariant
            j <= n@.len(),
            nv == views(n@),
            pad == exists|k: int| 0 <= k < j && spec_is_padded(#[trigger] nv[k]),
        decreases n@.len() - j,
    {
        if is_padded(&n[j]) {
            assert(spec_is_padded(nv[j as int]));
            pad = true;
        }
        j += 1;
    }
    assert(pad == seq_pad(nv));
    let ghost d = step_size(nv);
    let ghost dist = if reverse {
        x - y
    } else {
        y - x
    };
    let ghost count = seq_count(nv, max as nat);
    assert(dist / d >= 0) by (nonlinear_arith)
        requires
            d > 0,
            dist >= 0,
    ;
    let mut out: Vec<Vec<char>> = Vec::new();
    let mut i: i64 = x;
    assert(out@.len() * incr == 0) by (nonlinear_arith)
        requires
            out@.len() == 0,
    ;
    loop
        invariant_except_break
            i as int == x + out@.len() * incr,
        invariant
            nv == views(n@),
            d == step_size(nv),
            d > 0,
            incr == seq_step(nv),
            reverse == (y < x),
            x == seq_first(nv),
            y == seq_last(nv),
            dist == (if reverse { x - y } else { y - x }),
            count == seq_count(nv, max as nat),
            width as nat == seq_width(nv),
            pad == seq_pad(nv),
            out@.len() <= count,
            views(out@) == spec_sequence(nv, is_alpha, max as nat).take(out@.len() as int),
        ensures
            out@.len() == count,
            views(out@) == spec_sequence(nv, is_alpha, max as nat).take(out@.len() as int),
        decreases max - out@.len(),
    {
        let k = out.len();
        proof {
            lemma_steps_in_range(k as int, d, dist);
            assert(k * incr == (if reverse { 0 - k * d } else { k * d })) by (nonlinear_arith)
                requires
                    incr == (if reverse { 0 - d } else { d }),
            ;
        }
        let in_range = if reverse {
            i >= y
        } else {
            i <= y
        };
        if !in_range || out.len() >= max {
            break;
        }
        let ghost old_views = views(out@);
        let item = render(i, is_alpha, width, pad);
        out.push(item);
        proof {
            assert(views(out@) =~= old_views.push(item@));
            assert(views(out@) =~= spec_sequence(nv, is_alpha, max as nat).take(out@.len() as int));
        }
        match i.checked_add(incr) {
            Some(next) => {
                i = next;
                assert((k + 1) * incr == k * incr + incr) by (nonlinear_arith);
            },
            None => {
                proof {
                    lemma_steps_in_range(k + 1, d, dist);
                    assert((k + 1) * incr == k * incr + incr) by (nonlinear_arith);
                    assert((k + 1) * incr == (if reverse { 0 - (k + 1) * d } else { (k + 1) * d }))
                        by (nonlinear_arith)
                        requires
                            incr == (if reverse { 0 - d } else { d }),
                    ;
                }
                break;
            },
        }
    }
    assert(views(out@) =~= spec_sequence(nv, is_alpha, max as nat));
    out
}

} // verus!

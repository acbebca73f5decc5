//! Integers written in decimal: recognising them, reading them and writing
//! them, with optional zero-padding.

use vstd::prelude::*;

verus! {

/// Whether `c` is an ASCII decimal digit.
pub open spec fn is_digit(c: char) -> bool {
    '0' <= c <= '9'
}

/// Whether `c` is an ASCII letter.
pub open spec fn is_letter(c: char) -> bool {
    ('a' <= c <= 'z') || ('A' <= c <= 'Z')
}

/// Whether every character of `s` is a decimal digit.
pub open spec fn all_digits(s: Seq<char>) -> bool {
    forall|k: int| 0 <= k < s.len() ==> is_digit(#[trigger] s[k])
}

/// The value of the decimal digit `c`.
pub open spec fn digit_value(c: char) -> nat {
    (c as int - '0' as int) as nat
}

/// The value of the digit string `s`, most significant digit first.
pub open spec fn digits_value(s: Seq<char>) -> nat
    decreases s.len(),
{
    if s.len() == 0 {
        0
    } else {
        digits_value(s.drop_last()) * 10 + digit_value(s.last())
    }
}

/// `s` without a leading minus sign.
pub open spec fn unsigned_part(s: Seq<char>) -> Seq<char> {
    if s.len() > 0 && s[0] == '-' {
        s.drop_first()
    } else {
        s
    }
}

/// Whether `s` is an integer: an optional `-` followed by one or more digits.
pub open spec fn spec_is_int(s: Seq<char>) -> bool {
    unsigned_part(s).len() > 0 && all_digits(unsigned_part(s))
}

/// Whether `s` is zero-padded: an optional `-`, then `0`, then a digit.
pub open spec fn spec_is_padded(s: Seq<char>) -> bool {
    let body = unsigned_part(s);
    body.len() >= 2 && body[0] == '0' && is_digit(body[1])
}

/// Whether `s` is exactly one ASCII letter.
pub open spec fn spec_is_single_letter(s: Seq<char>) -> bool {
    s.len() == 1 && is_letter(s[0])
}

/// The `i64` that `s` denotes as Rust reads one: an optional `+` or `-`, then
/// one or more digits, with a value that fits.
pub open spec fn spec_parse_i64(s: Seq<char>) -> Option<i64> {
    let signed = s.len() > 0 && (s[0] == '-' || s[0] == '+');
    let digits = if signed {
        s.drop_first()
    } else {
        s
    };
    if digits.len() == 0 || !all_digits(digits) {
        None
    } else if s[0] == '-' {
        if digits_value(digits) <= 0x8000_0000_0000_0000 {
            Some((0 - digits_value(digits)) as i64)
        } else {
            None
        }
    } else if digits_value(digits) <= i64::MAX {
        Some(digits_value(digits) as i64)
    } else {
        None
    }
}

/// The numeric value of a sequence endpoint or step: the integer it denotes;
/// for an integer beyond `i64`, the nearest `i64`; otherwise the code of its
/// first character, or `0` when it is empty.
pub open spec fn spec_numeric(s: Seq<char>) -> i64 {
    match spec_parse_i64(s) {
        Some(n) => n,
        None => if spec_is_int(s) {
            if s[0] == '-' {
                i64::MIN
            } else {
                i64::MAX
            }
        } else if s.len() > 0 {
            s[0] as i64
        } else {
            0
        },
    }
}

/// The digit character of `d`, for `d < 10`.
pub open spec fn digit_char(d: nat) -> char {
    ('0' as int + d) as char
}

/// The decimal digits of `n`, without leading zeros.
pub open spec fn nat_digits(n: nat) -> Seq<char>
    decreases n,
{
    if n < 10 {
        seq![digit_char(n)]
    } else {
        nat_digits(n / 10).push(digit_char(n % 10))
    }
}

/// `n` written in decimal, with a leading `-` when it is negative.
pub open spec fn spec_decimal(n: int) -> Seq<char> {
    if n < 0 {
        seq!['-'] + nat_digits((0 - n) as nat)
    } else {
        nat_digits(n as nat)
    }
}

/// `n` written in decimal and, when `pad` holds, widened to `width` characters
/// with zeros inserted after the sign.
pub open spec fn spec_pad_number(n: int, width: nat, pad: bool) -> Seq<char> {
    let c = spec_decimal(n);
    if pad && width > c.len() {
        let zeros = Seq::new((width - c.len()) as nat, |k: int| '0');
        if n < 0 {
            seq!['-'] + zeros + c.drop_first()
        } else {
            zeros + c
        }
    } else {
        c
    }
}

/// The decimal digits of a number are digits.
pub proof fn lemma_nat_digits_are_digits(n: nat)
    ensures
        all_digits(nat_digits(n)),
    decreases n,
{
    if n >= 10 {
        lemma_nat_digits_are_digits(n / 10);
        let d = nat_digits(n / 10);
        assert forall|k: int| 0 <= k < nat_digits(n).len() implies is_digit(
            #[trigger] nat_digits(n)[k],
        ) by {
            if k < d.len() {
                assert(nat_digits(n)[k] == d[k]);
            }
        }
    }
}

/// A number written out, padded or not, consists of digits and at most a
/// leading minus sign.
pub proof fn lemma_pad_number_chars(n: int, width: nat, pad: bool)
    ensures
        forall|k: int|
            0 <= k < spec_pad_number(n, width, pad).len() ==> is_digit(
                #[trigger] spec_pad_number(n, width, pad)[k],
            ) || spec_pad_number(n, width, pad)[k] == '-',
{
    let m: nat = if n < 0 {
        (0 - n) as nat
    } else {
        n as nat
    };
    lemma_nat_digits_are_digits(m);
    let c = spec_decimal(n);
    assert forall|k: int| 0 <= k < c.len() implies is_digit(#[trigger] c[k]) || c[k] == '-' by {
        if n < 0 && k > 0 {
            assert(c[k] == nat_digits(m)[k - 1]);
        }
    }
    let r = spec_pad_number(n, width, pad);
    assert forall|k: int| 0 <= k < r.len() implies is_digit(#[trigger] r[k]) || r[k] == '-' by {
        if pad && width > c.len() {
            let z = (width - c.len()) as int;
            if n < 0 {
                if 1 <= k < 1 + z {
                    assert(r[k] == '0');
                } else if k >= 1 + z {
                    assert(r[k] == c[k - z]);
                }
            } else {
                if k < z {
                    assert(r[k] == '0');
                } else {
                    assert(r[k] == c[k - z]);
                }
            }
        }
    }
}

/// A padded number is at least as wide as asked for.
pub proof fn lemma_pad_number_width(n: int, width: nat)
    ensures
        spec_pad_number(n, width, true).len() >= width,
{
}

/// An integer consists of digits and at most a leading minus sign, and is
/// no single letter.
pub proof fn lemma_int_chars(s: Seq<char>)
    requires
        spec_is_int(s),
    ensures
        forall|k: int| 0 <= k < s.len() ==> is_digit(#[trigger] s[k]) || s[k] == '-',
        s.len() > 0,
        s[0] == '-' || is_digit(s[0]),
        !spec_is_single_letter(s),
{
    let body = unsigned_part(s);
    assert forall|k: int| 0 <= k < s.len() implies is_digit(#[trigger] s[k]) || s[k] == '-' by {
        if s.len() > 0 && s[0] == '-' {
            if k > 0 {
                assert(s[k] == body[k - 1]);
                assert(is_digit(body[k - 1]));
            }
        } else {
            assert(is_digit(body[k]));
        }
    }
    if s.len() == 1 {
        assert(s[0] != '-');
        assert(is_digit(body[0]));
    }
}

fn is_digit_char(c: char) -> (res: bool)
    ensures
        res == is_digit(c),
{
    '0' <= c && c <= '9'
}

/// Whether `s` is an integer: an optional `-` followed by one or more digits.
pub fn is_int(s: &Vec<char>) -> (res: bool)
    ensures
        res == spec_is_int(s@),
{
    let start: usize = if s.len() > 0 && s[0] == '-' {
        1
    } else {
        0
    };
    assert(unsigned_part(s@) =~= s@.skip(start as int));
    if start >= s.len() {
        return false;
    }
    let mut k = start;
    while k < s.len()
        invariant
            start <= k <= s@.len(),
            start <= 1,
            unsigned_part(s@) == s@.skip(start as int),
            forall|j: int| start <= j < k ==> is_digit(#[trigger] s@[j]),
        decreases s@.len() - k,
    {
        if !is_digit_char(s[k]) {
            assert(unsigned_part(s@)[k - start] == s@[k as int]);
            return false;
        }
        k += 1;
    }
    assert forall|j: int| 0 <= j < unsigned_part(s@).len() implies is_digit(
        #[trigger] unsigned_part(s@)[j],
    ) by {
        assert(unsigned_part(s@)[j] == s@[j + start]);
    }
    true
}

/// Whether `s` is zero-padded: an optional `-`, then `0`, then a digit.
pub fn is_padded(s: &Vec<char>) -> (res: bool)
    ensures
        res == spec_is_padded(s@),
{
    let start: usize = if s.len() > 0 && s[0] == '-' {
        1
    } else {
        0
    };
    assert(unsigned_part(s@) =~= s@.skip(start as int));
    s.len() >= start + 2 && s[start] == '0' && is_digit_char(s[start + 1])
}

/// Whether `s` is exactly one ASCII letter.
pub fn is_single_letter(s: &Vec<char>) -> (res: bool)
    ensures
        res == spec_is_single_letter(s@),
{
    s.len() == 1 && (('a' <= s[0] && s[0] <= 'z') || ('A' <= s[0] && s[0] <= 'Z'))
}

proof fn lemma_digits_value_push(s: Seq<char>, c: char)
    ensures
        digits_value(s.push(c)) == digits_value(s) * 10 + digit_value(c),
{
    assert(s.push(c).drop_last() =~= s);
}

proof fn lemma_digits_value_grows(s: Seq<char>, k: int)
    requires
        0 <= k <= s.len(),
    ensures
        digits_value(s.take(k)) <= digits_value(s),
    decreases s.len() - k,
{
    if k < s.len() {
        lemma_digits_value_grows(s, k + 1);
        assert(s.take(k + 1) =~= s.take(k).push(s[k]));
        lemma_digits_value_push(s.take(k), s[k]);
    } else {
        assert(s.take(k) =~= s);
    }
}

/// The `i64` that `s` denotes, read as Rust reads one.
pub fn parse_i64(s: &Vec<char>) -> (res: Option<i64>)
    ensures
        res == spec_parse_i64(s@),
{
    let signed = s.len() > 0 && (s[0] == '-' || s[0] == '+');
    let negative = s.len() > 0 && s[0] == '-';
    let start: usize = if signed {
        1
    } else {
        0
    };
    let ghost digits = if signed {
        s@.drop_first()
    } else {
        s@
    };
    assert(digits =~= s@.skip(start as int));
    if start >= s.len() {
        return None;
    }
    let limit: u128 = 0x8000_0000_0000_0000;
    let mut acc: u128 = 0;
    let mut big = false;
    let mut k = start;
    assert(digits.take(0) =~= Seq::<char>::empty());
    while k < s.len()
        invariant
            start <= k <= s@.len(),
            digits == s@.skip(start as int),
            digits == (if s@.len() > 0 && (s@[0] == '-' || s@[0] == '+') {
                s@.drop_first()
            } else {
                s@
            }),
            forall|j: int| start <= j < k ==> is_digit(#[trigger] s@[j]),
            !big ==> acc == digits_value(digits.take(k - start)) && acc <= limit,
            big ==> digits_value(digits.take(k - start)) > limit,
            limit == 0x8000_0000_0000_0000,
        decreases s@.len() - k,
    {
        let c = s[k];
        if !is_digit_char(c) {
            assert(digits[k - start] == c);
            assert(!is_digit(digits[k - start]));
            assert(!all_digits(digits));
            return None;
        }
        let ghost prefix = digits.take(k - start);
        assert(digits.take(k + 1 - start) =~= prefix.push(c));
        proof {
            lemma_digits_value_push(prefix, c);
        }
        if !big {
            let d = (c as u32 - '0' as u32) as u128;
            acc = acc * 10 + d;
            if acc > limit {
                big = true;
            }
        }
        k += 1;
    }
    assert(digits.take(s@.len() - start) =~= digits);
    assert(all_digits(digits)) by {
        assert forall|j: int| 0 <= j < digits.len() implies is_digit(#[trigger] digits[j]) by {
            assert(digits[j] == s@[j + start]);
        }
    }
    if big {
        return None;
    }
    if negative {
        if acc <= limit {
            Some((0 - (acc as i128)) as i64)
        } else {
            None
        }
    } else if acc <= 0x7FFF_FFFF_FFFF_FFFF {
        Some(acc as i64)
    } else {
        None
    }
}

/// The numeric value of a sequence endpoint or step: the integer it denotes;
/// for an integer beyond `i64`, the nearest `i64`; otherwise the code of its
/// first character, or `0` when it is empty.
pub fn numeric(s: &Vec<char>) -> (res: i64)
    ensures
        res == spec_numeric(s@),
{
    match parse_i64(s) {
        Some(n) => n,
        None => {
            if is_int(s) {
                if s[0] == '-' {
                    i64::MIN
                } else {
                    i64::MAX
                }
            } else if s.len() > 0 {
                s[0] as i64
            } else {
                0
            }
        },
    }
}

fn digit_to_char(d: u64) -> (c: char)
    requires
        d < 10,
    ensures
        c == digit_char(d as nat),
{
    ((d as u8) + 48u8) as char
}

/// Append the decimal digits of `m` to `out`.
fn push_digits(out: &mut Vec<char>, m: u64)
    ensures
        final(out)@ == old(out)@ + nat_digits(m as nat),
    decreases m,
{
    if m >= 10 {
        push_digits(out, m / 10);
    }
    out.push(digit_to_char(m % 10));
    proof {
        if m >= 10 {
            assert(old(out)@ + nat_digits((m / 10) as nat) + seq![digit_char((m % 10) as nat)]
                =~= old(out)@ + nat_digits(m as nat));
        } else {
            assert(old(out)@.push(digit_char((m % 10) as nat)) =~= old(out)@ + nat_digits(
                m as nat,
            ));
        }
    }
}

/// `n` written in decimal.
pub fn decimal(n: i64) -> (res: Vec<char>)
    ensures
        res@ == spec_decimal(n as int),
{
    let mut out: Vec<char> = Vec::new();
    if n < 0 {
        out.push('-');
        let m: u64 = (0 - (n as i128)) as u64;
        push_digits(&mut out, m);
    } else {
        push_digits(&mut out, n as u64);
        assert(out@ =~= nat_digits(n as nat));
    }
    out
}

/// `n` written in decimal and, when `pad` holds, widened to `width`
/// characters with zeros inserted after the sign.
pub fn pad_number(n: i64, width: usize, pad: bool) -> (res: Vec<char>)
    ensures
        res@ == spec_pad_number(n as int, width as nat, pad),
{
    let c = decimal(n);
    if pad && width > c.len() {
        let need = width - c.len();
        let mut out: Vec<char> = Vec::new();
        let start: usize = if n < 0 {
            1
        } else {
            0
        };
        if n < 0 {
            out.push('-');
        }
        let mut k: usize = 0;
        while k < need
            invariant
                out@.len() == start + k,
                k <= need,
                start == (if n < 0 { 1usize } else { 0usize }),
                n < 0 ==> out@[0] == '-',
                forall|j: int| start <= j < out@.len() ==> out@[j] == '0',
            decreases need - k,
        {
            out.push('0');
            k += 1;
        }
        let ghost zeros = Seq::new((width - c@.len()) as nat, |j: int| '0');
        let mut j: usize = start;
        let ghost mid = out@;
        assert(c@.len() >= start);
        assert(mid =~= (if n < 0 { seq!['-'] + zeros } else { zeros }));
        while j < c.len()
            invariant
                start <= j <= c@.len(),
                out@ == mid + c@.subrange(start as int, j as int),
                n < 0 ==> c@.len() >= 1,
            decreases c@.len() - j,
        {
            out.push(c[j]);
            j += 1;
            assert(out@ =~= mid + c@.subrange(start as int, j as int));
        }
        assert(c@.subrange(start as int, c@.len() as int) =~= (if n < 0 { c@.drop_first() } else { c@ }));
        out
    } else {
        c
    }
}

} // verus!

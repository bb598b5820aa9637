//! Decimal text of integers, times and weights.

use vstd::prelude::*;
use crate::types::Weight;

verus! {

/// The decimal digit of `d`.
pub open spec fn digit_char(d: nat) -> char {
    if d == 0 {
        '0'
    } else if d == 1 {
        '1'
    } else if d == 2 {
        '2'
    } else if d == 3 {
        '3'
    } else if d == 4 {
        '4'
    } else if d == 5 {
        '5'
    } else if d == 6 {
        '6'
    } else if d == 7 {
        '7'
    } else if d == 8 {
        '8'
    } else {
        '9'
    }
}

/// Decimal text of a natural number, without leading zeros.
pub open spec fn nat_text(n: nat) -> Seq<char>
    decreases n,
{
    if n < 10 {
        seq![digit_char(n)]
    } else {
        nat_text(n / 10).push(digit_char(n % 10))
    }
}

/// Decimal text of an integer, with a minus sign when negative.
pub open spec fn int_text(i: int) -> Seq<char> {
    if i < 0 {
        seq!['-'] + nat_text((-i) as nat)
    } else {
        nat_text(i as nat)
    }
}

/// The last `width` decimal digits of `f`, with leading zeros.
pub open spec fn frac_digits(f: nat, width: nat) -> Seq<char>
    decreases width,
{
    if width == 0 {
        seq![]
    } else {
        frac_digits(f / 10, (width - 1) as nat).push(digit_char(f % 10))
    }
}

/// A digit string without its trailing zeros.
pub open spec fn trim_zeros(s: Seq<char>) -> Seq<char>
    decreases s.len(),
{
    if s.len() > 0 && s.last() == '0' {
        trim_zeros(s.drop_last())
    } else {
        s
    }
}

/// Seconds of a millisecond count, with exactly three decimals.
pub open spec fn fixed3(ms: nat) -> Seq<char> {
    nat_text(ms / 1000) + seq!['.'] + frac_digits(ms % 1000, 3)
}

/// An integer part and a fraction of `width` digits, in the shortest form:
/// trailing zeros of the fraction dropped, and the point too when nothing is
/// left after it.
pub open spec fn short_decimal(whole: nat, frac: nat, width: nat) -> Seq<char> {
    let t = trim_zeros(frac_digits(frac, width));
    if t.len() == 0 {
        nat_text(whole)
    } else {
        nat_text(whole) + seq!['.'] + t
    }
}

/// Seconds of a millisecond count in the shortest decimal form.
pub open spec fn short_seconds(ms: nat) -> Seq<char> {
    short_decimal(ms / 1000, ms % 1000, 3)
}

/// `10^n`.
pub open spec fn pow10(n: nat) -> nat
    decreases n,
{
    if n == 0 {
        1
    } else {
        10 * pow10((n - 1) as nat)
    }
}

/// Decimal text of a weight in the shortest form; zero carries no sign.
pub open spec fn weight_text(w: Weight) -> Seq<char> {
    let p = pow10(w.scale as nat);
    let body = short_decimal(w.digits as nat / p, w.digits as nat % p, w.scale as nat);
    if w.negative && w.digits > 0 {
        seq!['-'] + body
    } else {
        body
    }
}

/// The one-character text of a digit.
fn digit_str(d: u128) -> (r: &'static str)
    requires
        d < 10,
    ensures
        r@ == seq![digit_char(d as nat)],
{
    proof {
        reveal_strlit("0");
        reveal_strlit("1");
        reveal_strlit("2");
        reveal_strlit("3");
        reveal_strlit("4");
        reveal_strlit("5");
        reveal_strlit("6");
        reveal_strlit("7");
        reveal_strlit("8");
        reveal_strlit("9");
    }
    if d == 0 {
        "0"
    } else if d == 1 {
        "1"
    } else if d == 2 {
        "2"
    } else if d == 3 {
        "3"
    } else if d == 4 {
        "4"
    } else if d == 5 {
        "5"
    } else if d == 6 {
        "6"
    } else if d == 7 {
        "7"
    } else if d == 8 {
        "8"
    } else {
        "9"
    }
}

/// Appends the decimal text of `n`.
pub fn push_nat(s: &mut String, n: u128)
    ensures
        final(s)@ == old(s)@ + nat_text(n as nat),
    decreases n,
{
    if n >= 10 {
        push_nat(s, n / 10);
    }
    s.append(digit_str(n % 10));
    assert(final(s)@ =~= old(s)@ + nat_text(n as nat));
}

/// Appends the decimal text of `i`.
pub fn push_int(s: &mut String, i: i64)
    ensures
        final(s)@ == old(s)@ + int_text(i as int),
{
    if i < 0 {
        proof {
            reveal_strlit("-");
        }
        s.append("-");
        let m: u128 = if i == i64::MIN {
            9223372036854775808u128
        } else {
            (-i) as u128
        };
        push_nat(s, m);
        assert(final(s)@ =~= old(s)@ + int_text(i as int));
    } else {
        push_nat(s, i as u128);
    }
}

/// Appends the last `width` digits of `f`, with leading zeros.
fn push_frac(s: &mut String, f: u128, width: u8)
    ensures
        final(s)@ == old(s)@ + frac_digits(f as nat, width as nat),
    decreases width,
{
    if width > 0 {
        push_frac(s, f / 10, width - 1);
        s.append(digit_str(f % 10));
        assert(final(s)@ =~= old(s)@ + frac_digits(f as nat, width as nat));
    } else {
        assert(final(s)@ =~= old(s)@ + frac_digits(f as nat, width as nat));
    }
}

proof fn lemma_digit_zero(d: nat)
    requires
        d < 10,
    ensures
        (digit_char(d) == '0') <==> d == 0,
{
}

proof fn lemma_trim_step(f: nat, width: nat)
    requires
        width > 0,
    ensures
        f % 10 == 0 ==> trim_zeros(frac_digits(f, width)) == trim_zeros(frac_digits(f / 10, (width - 1) as nat)),
        f % 10 != 0 ==> trim_zeros(frac_digits(f, width)) == frac_digits(f, width),
{
    lemma_digit_zero(f % 10);
    let s = frac_digits(f, width);
    assert(s.drop_last() =~= frac_digits(f / 10, (width - 1) as nat));
}

/// Appends an integer part and a fraction of `width` digits in the shortest
/// decimal form.
fn push_short_decimal(s: &mut String, whole: u128, frac: u128, width: u8)
    ensures
        final(s)@ == old(s)@ + short_decimal(whole as nat, frac as nat, width as nat),
{
    let mut f = frac;
    let mut w = width;
    while w > 0 && f % 10 == 0
        invariant
            trim_zeros(frac_digits(frac as nat, width as nat)) == trim_zeros(frac_digits(f as nat, w as nat)),
        decreases w,
    {
        proof {
            lemma_trim_step(f as nat, w as nat);
        }
        f = f / 10;
        w = w - 1;
    }
    proof {
        if w > 0 {
            lemma_trim_step(f as nat, w as nat);
        } else {
            assert(frac_digits(f as nat, 0) =~= seq![]);
        }
    }
    push_nat(s, whole);
    if w > 0 {
        proof {
            reveal_strlit(".");
        }
        s.append(".");
        push_frac(s, f, w);
        assert(final(s)@ =~= old(s)@ + short_decimal(whole as nat, frac as nat, width as nat));
    }
}

/// Appends the seconds of a millisecond count with three decimals.
pub fn push_fixed3(s: &mut String, ms: u128)
    ensures
        final(s)@ == old(s)@ + fixed3(ms as nat),
{
    push_nat(s, ms / 1000);
    proof {
        reveal_strlit(".");
    }
    s.append(".");
    push_frac(s, ms % 1000, 3);
    assert(final(s)@ =~= old(s)@ + fixed3(ms as nat));
}

/// Appends the seconds of a millisecond count in the shortest decimal form.
pub fn push_short_seconds(s: &mut String, ms: u128)
    ensures
        final(s)@ == old(s)@ + short_seconds(ms as nat),
{
    push_short_decimal(s, ms / 1000, ms % 1000, 3);
}

/// Powers of ten grow with the exponent.
pub proof fn lemma_pow10_mono(n: nat, m: nat)
    requires
        n <= m,
    ensures
        1 <= pow10(n) <= pow10(m),
    decreases m - n,
{
    if n < m {
        lemma_pow10_mono(n, (m - 1) as nat);
    } else {
        lemma_pow10_pos(n);
    }
}

proof fn lemma_pow10_pos(n: nat)
    ensures
        1 <= pow10(n),
    decreases n,
{
    if n > 0 {
        lemma_pow10_pos((n - 1) as nat);
    }
}

proof fn lemma_pow10_bound(n: nat)
    requires
        n <= 19,
    ensures
        1 <= pow10(n) <= 10_000_000_000_000_000_000,
{
    reveal_with_fuel(pow10, 20);
    assert(pow10(19) == 10_000_000_000_000_000_000nat);
    lemma_pow10_mono(n, 19);
}

/// From twenty places on, a power of ten exceeds every `u64`.
pub proof fn lemma_pow10_exceeds_u64(n: nat)
    requires
        n >= 20,
    ensures
        pow10(n) > u64::MAX,
{
    reveal_with_fuel(pow10, 21);
    assert(pow10(20) == 100_000_000_000_000_000_000nat);
    lemma_pow10_mono(20, n);
}

/// `10^n` up to the largest power of ten in `u64`.
fn pow10_exec(n: u8) -> (r: u64)
    requires
        n <= 19,
    ensures
        r as nat == pow10(n as nat),
{
    let mut r: u64 = 1;
    let mut i: u8 = 0;
    while i < n
        invariant
            0 <= i <= n <= 19,
            r as nat == pow10(i as nat),
        decreases n - i,
    {
        proof {
            lemma_pow10_bound(i as nat + 1);
        }
        r = r * 10;
        i = i + 1;
    }
    r
}

/// Appends the decimal text of a weight.
pub fn push_weight(s: &mut String, w: Weight)
    ensures
        final(s)@ == old(s)@ + weight_text(w),
{
    let whole: u128;
    let frac: u128;
    if w.scale <= 19 {
        let p = pow10_exec(w.scale);
        proof {
            lemma_pow10_bound(w.scale as nat);
        }
        whole = (w.digits / p) as u128;
        frac = (w.digits % p) as u128;
    } else {
        proof {
            lemma_pow10_exceeds_u64(w.scale as nat);
            vstd::arithmetic::div_mod::lemma_basic_div(w.digits as int, pow10(w.scale as nat) as int);
            vstd::arithmetic::div_mod::lemma_small_mod(w.digits as nat, pow10(w.scale as nat));
        }
        whole = 0;
        frac = w.digits as u128;
    }
    if w.negative && w.digits > 0 {
        proof {
            reveal_strlit("-");
        }
        s.append("-");
    }
    push_short_decimal(s, whole, frac, w.scale);
    assert(final(s)@ =~= old(s)@ + weight_text(w));
}

} // verus!

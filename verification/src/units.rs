//! Numbers and sizes written as text.

use vstd::prelude::*;
use vstd::string::StringExecFns;
use crate::names::push_char;

verus! {

/// The character of the decimal digit `d`.
pub open spec fn digit_char(d: nat) -> char
    recommends
        d < 10,
{
    (48 + d) as u8 as char
}

/// `n` written in decimal digits.
pub open spec fn decimal_chars(n: nat) -> Seq<char>
    decreases n,
{
    if n < 10 {
        seq![digit_char(n)]
    } else {
        decimal_chars(n / 10).push(digit_char(n % 10))
    }
}

/// Writes `n` in decimal digits.
pub fn decimal_text(n: u64) -> (r: String)
    ensures
        r@ == decimal_chars(n as nat),
{
    let mut digits: Vec<u8> = Vec::new();
    let mut rest = n;
    let ghost mut tail: Seq<char> = Seq::empty();
    while rest >= 10
        invariant
            decimal_chars(n as nat) == decimal_chars(rest as nat) + tail,
            digits.len() == tail.len(),
            forall|i: int|
                0 <= i < digits.len() ==> digits@[i] < 10 && tail[tail.len() - 1 - i] == digit_char(
                    digits@[i] as nat,
                ),
        decreases rest,
    {
        let d = (rest % 10) as u8;
        proof {
            let shorter = decimal_chars((rest / 10) as nat);
            assert(decimal_chars(rest as nat) == shorter.push(digit_char(d as nat)));
            assert(shorter.push(digit_char(d as nat)) + tail =~= shorter + (seq![
                digit_char(d as nat),
            ] + tail));
            tail = seq![digit_char(d as nat)] + tail;
        }
        digits.push(d);
        rest = rest / 10;
    }
    let mut text = String::new();
    push_char(&mut text, (48 + rest as u8) as char);
    assert(text@ =~= decimal_chars(rest as nat));
    let mut i = digits.len();
    while i > 0
        invariant
            i <= digits.len(),
            digits.len() == tail.len(),
            forall|j: int|
                0 <= j < digits.len() ==> digits@[j] < 10 && tail[tail.len() - 1 - j] == digit_char(
                    digits@[j] as nat,
                ),
            text@ == decimal_chars(rest as nat) + tail.subrange(0, digits.len() - i),
        decreases i,
    {
        i -= 1;
        push_char(&mut text, (48 + digits[i]) as char);
        assert(text@ =~= decimal_chars(rest as nat) + tail.subrange(0, digits.len() - i));
    }
    assert(tail.subrange(0, digits.len() as int) =~= tail);
    text
}

/// The least number that a double cannot hold exactly together with all
/// numbers below it: two to the power of 53.
pub const DOUBLE_EXACT: u64 = 0x20_0000_0000_0000;

/// The spacing of doubles around `n`: the power of two, from `p` on, by
/// which `n` has to be divided to get below two to the power of 53. `k`
/// counts the doublings.
pub open spec fn grain_from(n: nat, p: nat, k: nat) -> nat
    decreases 12 - k,
{
    if k < 12 && n / p >= DOUBLE_EXACT {
        grain_from(n, 2 * p, k + 1)
    } else {
        p
    }
}

/// The double nearest to `n`; of two equally near ones that with the even
/// significand.
pub open spec fn nearest_double(n: nat) -> nat {
    let p = grain_from(n, 1, 0);
    let m = n / p;
    let r = n % p;
    if 2 * r > p || (2 * r == p && m % 2 == 1) {
        (m + 1) * p
    } else {
        m * p
    }
}

/// The unit in which `v` is written: the number of times, from `i` on and
/// at most up to 6, that `v` can be divided by 1024 without getting below
/// 1024, together with the divisor reached from `d` on.
pub open spec fn unit_from(v: nat, d: nat, i: nat) -> (nat, nat)
    decreases 6 - i,
{
    if i < 6 && v / d >= 1024 {
        unit_from(v, d * 1024, i + 1)
    } else {
        (d, i)
    }
}

/// `v` tenths of `d`, rounded to the nearest whole number of tenths; of two
/// equally near ones the even one.
pub open spec fn rounded_tenths(v: nat, d: nat) -> nat {
    let q = v * 10 / d;
    let r = v * 10 % d;
    if 2 * r > d || (2 * r == d && q % 2 == 1) {
        q + 1
    } else {
        q
    }
}

/// The name of the unit with index `i`.
pub open spec fn unit_name(i: nat) -> Seq<char> {
    if i == 0 {
        "B"@
    } else if i == 1 {
        "KiB"@
    } else if i == 2 {
        "MiB"@
    } else if i == 3 {
        "GiB"@
    } else if i == 4 {
        "TiB"@
    } else if i == 5 {
        "PiB"@
    } else {
        "EiB"@
    }
}

/// `size` bytes written in the largest binary unit in which they are at
/// least one, with one decimal place.
pub open spec fn ieee_text(size: nat) -> Seq<char> {
    let v = nearest_double(size);
    let (d, i) = unit_from(v, 1, 0);
    let t = rounded_tenths(v, d);
    decimal_chars(t / 10) + "."@ + decimal_chars(t % 10) + unit_name(i)
}

/// The double nearest to `n`.
pub fn round_to_double(n: u64) -> (r: u128)
    ensures
        r == nearest_double(n as nat),
        r <= 0x1_0000_0000_0000_0000,
{
    let mut p: u64 = 1;
    let mut m: u64 = n;
    let mut k: u8 = 0;
    while k < 12 && m >= DOUBLE_EXACT
        invariant
            k <= 11,
            k == 0 ==> p == 1,
            k == 1 ==> p == 2,
            k == 2 ==> p == 4,
            k == 3 ==> p == 8,
            k == 4 ==> p == 0x10,
            k == 5 ==> p == 0x20,
            k == 6 ==> p == 0x40,
            k == 7 ==> p == 0x80,
            k == 8 ==> p == 0x100,
            k == 9 ==> p == 0x200,
            k == 10 ==> p == 0x400,
            k == 11 ==> p == 0x800,
            m == n / p,
            grain_from(n as nat, 1, 0) == grain_from(n as nat, p as nat, k as nat),
        decreases 12 - k,
    {
        proof {
            let ni = n as int;
            let pi = p as int;
            assert(ni / pi / 2 == ni / (2 * pi)) by {
                vstd::arithmetic::div_mod::lemma_div_denominator(ni, pi, 2);
                assert(pi * 2 == 2 * pi);
            }
            assert(pi * (ni / pi) <= ni) by {
                vstd::arithmetic::div_mod::lemma_fundamental_div_mod(ni, pi);
            }
            assert(pi * DOUBLE_EXACT <= ni) by (nonlinear_arith)
                requires
                    pi * (ni / pi) <= ni,
                    ni / pi >= DOUBLE_EXACT,
                    pi >= 1,
            ;
        }
        m = m / 2;
        p = p * 2;
        k += 1;
    }
    proof {
        if k == 11 {
            assert(m < DOUBLE_EXACT) by (nonlinear_arith)
                requires
                    m == n / 0x800,
                    n <= 0xffff_ffff_ffff_ffff,
            ;
        }
        assert(m * p <= n) by {
            vstd::arithmetic::div_mod::lemma_fundamental_div_mod(n as int, p as int);
            assert(p * (n / p) == (n / p) * p) by (nonlinear_arith);
        }
    }
    let r = n % p;
    if 2 * r > p || (2 * r == p && m % 2 == 1) {
        assert((m + 1) * p <= 0x1_0000_0000_0000_0000) by (nonlinear_arith)
            requires
                m + 1 <= 0x20_0000_0000_0000,
                1 <= p <= 0x800,
        ;
        (m as u128 + 1) * p as u128
    } else {
        assert(m * p <= 0xffff_ffff_ffff_ffff) by (nonlinear_arith)
            requires
                m * p <= n,
                n <= 0xffff_ffff_ffff_ffff,
        ;
        m as u128 * p as u128
    }
}

/// Writes `size` bytes in the largest binary unit, from B to EiB, in which
/// they are at least one, with one decimal place, as the nearest double of
/// `size` would be written.
pub fn bytes2ieee(size: u64) -> (r: String)
    ensures
        r@ == ieee_text(size as nat),
{
    let v = round_to_double(size);
    let mut d: u128 = 1;
    let mut i: u8 = 0;
    while i < 6 && v / d >= 1024
        invariant
            i <= 6,
            v <= 0x1_0000_0000_0000_0000,
            i == 0 ==> d == 1,
            i == 1 ==> d == 0x400,
            i == 2 ==> d == 0x10_0000,
            i == 3 ==> d == 0x4000_0000,
            i == 4 ==> d == 0x100_0000_0000,
            i == 5 ==> d == 0x4_0000_0000_0000,
            i == 6 ==> d == 0x1000_0000_0000_0000,
            unit_from(v as nat, 1, 0) == unit_from(v as nat, d as nat, i as nat),
        decreases 6 - i,
    {
        d = d * 1024;
        i += 1;
    }
    let q = v * 10 / d;
    let rem = v * 10 % d;
    let t = if 2 * rem > d || (2 * rem == d && q % 2 == 1) {
        q + 1
    } else {
        q
    };
    assert(t == rounded_tenths(v as nat, d as nat));
    assert(t / 10 <= 0xffff_ffff_ffff_ffff);
    let mut text = decimal_text((t / 10) as u64);
    text.append(".");
    let tenth = decimal_text((t % 10) as u64);
    text.append(tenth.as_str());
    let unit = if i == 0 {
        "B"
    } else if i == 1 {
        "KiB"
    } else if i == 2 {
        "MiB"
    } else if i == 3 {
        "GiB"
    } else if i == 4 {
        "TiB"
    } else if i == 5 {
        "PiB"
    } else {
        "EiB"
    };
    text.append(unit);
    text
}

} // verus!

//! Whole numbers next to fractions.

use vstd::arithmetic::div_mod;
use vstd::prelude::*;

use crate::text;

verus! {

/// The integer nearest to `a / b`; of two that are equally near, the even one.
pub open spec fn nearest(a: nat, b: nat) -> nat {
    let q = a / b;
    let r = a % b;
    if 2 * r < b || (2 * r == b && q % 2 == 0) {
        q
    } else {
        q + 1
    }
}

/// The integer nearest to `a / b`.
pub fn divide_nearest(a: u128, b: u128) -> (r: u128)
    requires
        0 < b <= 0x1_0000_0000_0000_0000,
        a <= 0x1000_0000_0000_0000_0000_0000_0000_0000,
    ensures
        r == nearest(a as nat, b as nat),
{
    let q: u128 = a / b;
    let r: u128 = a % b;
    assert(q <= a) by (nonlinear_arith)
        requires
            q == a / b,
            b >= 1,
    ;
    if 2 * r < b || (2 * r == b && q % 2 == 0) {
        q
    } else {
        q + 1
    }
}

// ── decimals ─────────────────────────────────────────────────────────────────

pub open spec fn pow10(n: nat) -> nat
    decreases n,
{
    if n == 0 {
        1
    } else {
        10 * pow10((n - 1) as nat)
    }
}

/// A number in 64 bits, or the largest of them.
pub open spec fn capped(n: nat) -> nat {
    if n <= u64::MAX {
        n
    } else {
        u64::MAX as nat
    }
}

/// The whole part of the decimal number with the digits `whole` before the point and
/// `fraction` behind it, times `mult`.
pub open spec fn decimal_product(whole: Seq<char>, fraction: Seq<char>, mult: nat) -> nat {
    text::digits_value(whole + fraction) * mult / pow10(fraction.len())
}

proof fn lemma_pow10_pos(n: nat)
    ensures
        pow10(n) > 0,
    decreases n,
{
    if n > 0 {
        lemma_pow10_pos((n - 1) as nat);
    }
}

/// The number that two runs of digits write together.
proof fn lemma_digits_joined(s: Seq<char>, t: Seq<char>)
    ensures
        text::digits_value(s + t) == text::digits_value(s) * pow10(t.len()) + text::digits_value(t),
    decreases t.len(),
{
    let v = text::digits_value(s);
    if t.len() == 0 {
        assert(s + t =~= s);
        assert(pow10(0) == 1);
        assert(v * 1 == v);
    } else {
        let front = t.drop_last();
        lemma_digits_joined(s, front);
        assert((s + t).drop_last() =~= s + front);
        assert((s + t).last() == t.last());
        assert(pow10(t.len()) == 10 * pow10(front.len()));
        let p = pow10(front.len());
        assert(v * (10 * p) == (v * p) * 10) by (nonlinear_arith);
    }
}

/// The whole part of a product, from that of the fraction behind the first digit.
proof fn lemma_one_digit(d: nat, rest: nat, mult: nat, p: nat)
    requires
        p > 0,
    ensures
        (d * p + rest) * mult / (10 * p) == (d * mult + rest * mult / p) / 10,
{
    let x = (rest * mult) as int;
    div_mod::lemma_hoist_over_denominator(x, (d * mult) as int, p);
    let y = x + (d * mult) * p;
    assert(y == (d * p + rest) * mult) by (nonlinear_arith)
        requires
            y == rest * mult + (d * mult) * p,
    ;
    assert(y >= 0) by (nonlinear_arith)
        requires
            y == (d * p + rest) * mult,
            d >= 0,
            p >= 0,
            rest >= 0,
            mult >= 0,
    ;
    div_mod::lemma_div_denominator(y, p as int, 10);
    assert(p * 10 == 10 * p);
}

/// The whole part of `0.fraction` times `mult`.
fn fraction_product(fraction: &Vec<char>, mult: u64) -> (r: u64)
    requires
        text::all_digits(fraction@),
        1 <= mult <= 0x100_0000_0000,
    ensures
        r == text::digits_value(fraction@) * mult / pow10(fraction@.len()) as int,
{
    let ghost n = fraction@.len();
    let mut carry: u64 = 0;
    let mut i: usize = fraction.len();
    proof {
        assert(fraction@.skip(n as int) =~= Seq::<char>::empty());
        assert(0 * mult / 1 == 0);
    }
    while i > 0
        invariant
            i <= n,
            n == fraction@.len(),
            text::all_digits(fraction@),
            1 <= mult <= 0x100_0000_0000,
            carry < mult,
            carry == text::digits_value(fraction@.skip(i as int)) * mult as nat / pow10(
                (n - i) as nat,
            ),
        decreases i,
    {
        let c: char = fraction[i - 1];
        proof {
            assert(text::is_digit(fraction@[i - 1]));
            text::lemma_char_code(c);
        }
        let d: u64 = (c as u32 - 48) as u64;
        proof {
            let tail = fraction@.skip(i as int);
            let p = pow10((n - i) as nat);
            lemma_pow10_pos((n - i) as nat);
            lemma_digits_joined(seq![c], tail);
            assert(seq![c] + tail =~= fraction@.skip(i - 1));
            assert(seq![c].drop_last() =~= Seq::<char>::empty());
            assert(text::digits_value(Seq::<char>::empty()) == 0);
            assert(text::digits_value(seq![c]) == d);
            assert(pow10((n - (i - 1)) as nat) == 10 * p);
            lemma_one_digit(d as nat, text::digits_value(tail), mult as nat, p);
            assert(d * mult <= 9 * mult) by (nonlinear_arith)
                requires
                    d <= 9,
            ;
        }
        carry = (d * mult + carry) / 10;
        i -= 1;
    }
    assert(fraction@.skip(0) =~= fraction@);
    carry
}

/// The whole part of a decimal number times `mult`, or the largest 64-bit number where that is
/// smaller.
pub fn multiply_decimal(whole: &Vec<char>, fraction: &Vec<char>, mult: u64) -> (r: u64)
    requires
        text::all_digits(whole@),
        text::all_digits(fraction@),
        1 <= mult <= 0x100_0000_0000,
    ensures
        r == capped(decimal_product(whole@, fraction@, mult as nat)),
{
    let ghost w = text::digits_value(whole@);
    let ghost f = text::digits_value(fraction@);
    let ghost p = pow10(fraction@.len());
    let part: u64 = fraction_product(fraction, mult);
    proof {
        lemma_pow10_pos(fraction@.len());
        lemma_digits_joined(whole@, fraction@);
        div_mod::lemma_hoist_over_denominator((f * mult) as int, (w * mult) as int, p);
        assert((w * p + f) * mult == f * mult + (w * mult) * p) by (nonlinear_arith);
        assert(decimal_product(whole@, fraction@, mult as nat) == w * mult + part);
    }
    let units: u64 = if whole.len() == 0 {
        0
    } else {
        match text::parse_digits(whole.as_slice(), 0) {
            Some(n) => n,
            None => {
                assert(whole@.skip(0) =~= whole@);
                assert(w * mult >= w) by (nonlinear_arith)
                    requires
                        mult >= 1,
                        w >= 0,
                ;
                return u64::MAX;
            },
        }
    };
    assert(whole@.skip(0) =~= whole@);
    assert(units == w);
    assert(units * mult <= 0xFFFF_FFFF_FFFF_FFFF * 0x100_0000_0000) by (nonlinear_arith)
        requires
            units <= 0xFFFF_FFFF_FFFF_FFFF,
            mult <= 0x100_0000_0000,
    ;
    let total: u128 = units as u128 * mult as u128 + part as u128;
    if total <= u64::MAX as u128 {
        total as u64
    } else {
        u64::MAX
    }
}

} // verus!

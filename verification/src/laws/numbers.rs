//! Numbers and the texts that write them.

use vstd::arithmetic::div_mod;
use vstd::arithmetic::power::pow;
use vstd::prelude::*;

use crate::rounding;
use crate::text;

verus! {

/// What decimal digits are worth: each counts as much more as there are digits behind it.
pub open spec fn worth(s: Seq<char>) -> int
    decreases s.len(),
{
    if s.len() == 0 {
        0
    } else {
        (s[0] as int - 48) * pow(10, (s.len() - 1) as nat) + worth(s.drop_first())
    }
}

/// All of `s` are among the ten digits.
pub open spec fn digits_only(s: Seq<char>) -> bool {
    forall|i: int| 0 <= i < s.len() ==> 48 <= (#[trigger] s[i]) as int <= 57
}

proof fn lemma_worth_last(s: Seq<char>)
    requires
        s.len() > 0,
    ensures
        worth(s) == worth(s.drop_last()) * 10 + (s[s.len() - 1] as int - 48),
    decreases s.len(),
{
    reveal(pow);
    let n = s.len();
    if n == 1 {
        assert(s.drop_first().len() == 0);
        assert(worth(s.drop_first()) == 0);
        assert(worth(s.drop_last()) == 0);
        assert(pow(10, 0) == 1);
    } else {
        let rest = s.drop_first();
        lemma_worth_last(rest);
        assert(rest.drop_last() =~= s.drop_last().drop_first());
        assert(rest[rest.len() - 1] == s[n - 1]);
        assert(s.drop_last()[0] == s[0]);
        let d = s[0] as int - 48;
        let p = pow(10, (n - 2) as nat);
        assert(pow(10, (n - 1) as nat) == 10 * p);
        assert(d * (10 * p) == (d * p) * 10) by (nonlinear_arith);
    }
}

/// The value of a run of digits is what its digits are worth.
pub proof fn lemma_value(s: Seq<char>)
    requires
        digits_only(s),
    ensures
        text::all_digits(s),
        text::digits_value(s) == worth(s),
    decreases s.len(),
{
    assert forall|i: int| 0 <= i < s.len() implies text::is_digit(#[trigger] s[i]) by {
        assert(48 <= s[i] as int <= 57);
    }
    if s.len() > 0 {
        assert(digits_only(s.drop_last())) by {
            assert forall|i: int| 0 <= i < s.len() - 1 implies 48 <= (
            #[trigger] s.drop_last()[i]) as int <= 57 by {
                assert(s.drop_last()[i] == s[i]);
            }
        }
        lemma_value(s.drop_last());
        lemma_worth_last(s);
        assert(48 <= s[s.len() - 1] as int <= 57);
    }
}

/// A number is written with digits that are worth it, and with no zero in front.
pub proof fn lemma_written(n: nat)
    ensures
        ({
            let t = text::decimal_text(n);
            &&& digits_only(t)
            &&& worth(t) == n
            &&& t.len() > 0
            &&& t.len() > 1 ==> t[0] != '0'
        }),
    decreases n,
{
    reveal(pow);
    let t = text::decimal_text(n);
    if n < 10 {
        assert(t[0] as int == 48 + n);
        assert(t.drop_first().len() == 0);
        assert(worth(t.drop_first()) == 0);
        assert(pow(10, 0) == 1);
    } else {
        let front = text::decimal_text(n / 10);
        lemma_written(n / 10);
        assert(t.drop_last() =~= front);
        lemma_worth_last(t);
        assert(t[t.len() - 1] as int == 48 + n % 10);
        assert(t[0] == front[0]);
        if front.len() == 1 {
            assert(worth(front.drop_first()) == 0);
            assert(worth(front) == front[0] as int - 48) by {
                assert(pow(10, 0) == 1);
            }
        }
        assert forall|i: int| 0 <= i < t.len() implies 48 <= (#[trigger] t[i]) as int <= 57 by {
            if i < front.len() {
                assert(t[i] == front[i]);
            }
        }
    }
}

/// A negative number has a minus sign in front of the digits of its size.
pub proof fn lemma_signed(n: int)
    ensures
        n >= 0 ==> text::signed_text(n) == text::decimal_text(n as nat),
        n < 0 ==> text::signed_text(n).len() > 0 && text::signed_text(n)[0] == '-'
            && text::signed_text(n).drop_first() == text::decimal_text((-n) as nat),
{
    if n < 0 {
        assert(text::signed_text(n).drop_first() =~= text::decimal_text((-n) as nat));
    }
}

/// Digits are read as what they are worth, with or without a sign in front; a minus sign counts
/// only where one may stand, and nothing else is a number.
pub proof fn lemma_read_number(digits: Seq<char>, signed: bool)
    requires
        digits_only(digits),
        digits.len() > 0,
    ensures
        text::decimal_value(digits, signed) == Some(worth(digits)),
        text::decimal_value(seq!['+'] + digits, signed) == Some(worth(digits)),
        text::decimal_value(seq!['-'] + digits, true) == Some(-worth(digits)),
        text::decimal_value(seq!['-'] + digits, false) is None,
{
    lemma_value(digits);
    assert(48 <= digits[0] as int <= 57);
    assert((seq!['+'] + digits).drop_first() =~= digits);
    let m = seq!['-'] + digits;
    assert(m.drop_first() =~= digits);
    assert(m[0] == '-');
    assert(!text::is_digit(m[0]));
}

/// What is no number is not read as one.
pub proof fn lemma_no_number(s: Seq<char>, signed: bool, i: int)
    ensures
        text::decimal_value(seq![], signed) is None,
        0 < i < s.len() && !(48 <= s[i] as int <= 57) ==> text::decimal_value(s, signed) is None,
        s.len() == 1 && !(48 <= s[0] as int <= 57) ==> text::decimal_value(s, signed) is None,
        s.len() > 0 && s[0] != '+' && s[0] != '-' && !(48 <= s[0] as int <= 57)
            ==> text::decimal_value(s, signed) is None,
{
    if 0 < i < s.len() && !(48 <= s[i] as int <= 57) {
        assert(!text::is_digit(s[i]));
        assert(s.drop_first()[i - 1] == s[i]);
    }
    if s.len() > 0 && s[0] != '+' && s[0] != '-' && !(48 <= s[0] as int <= 57) {
        assert(!text::is_digit(s[0]));
    }
    if s.len() == 1 && !(48 <= s[0] as int <= 57) {
        assert(!text::is_digit(s[0]));
        assert(s.drop_first().len() == 0);
    }
}

/// A capital ASCII letter becomes its small letter, and everything else stays.
pub proof fn lemma_small_letter(c: char)
    ensures
        65 <= c as int <= 90 ==> text::fold(c) as int == c as int + 32,
        !(65 <= c as int <= 90) ==> text::fold(c) == c,
{
}

// ── rounding ─────────────────────────────────────────────────────────────────

/// The nearest whole number is at most one half off, and even where two are as near.
pub proof fn lemma_nearest(a: nat, b: nat)
    requires
        b > 0,
    ensures
        2 * (a - b * rounding::nearest(a, b)) <= b,
        2 * (b * rounding::nearest(a, b) - a) <= b,
        2 * (a - b * rounding::nearest(a, b)) == b || 2 * (b * rounding::nearest(a, b) - a) == b
            ==> rounding::nearest(a, b) % 2 == 0,
{
    let q = a / b;
    div_mod::lemma_fundamental_div_mod(a as int, b as int);
    assert(b * (q + 1) == b * q + b) by (nonlinear_arith);
}

/// `10` to the power of `n`.
pub proof fn lemma_power(n: nat)
    ensures
        rounding::pow10(n) == pow(10, n),
        pow(10, n) > 0,
    decreases n,
{
    reveal(pow);
    if n > 0 {
        lemma_power((n - 1) as nat);
    }
}

/// What does not fit in 64 bits counts as the largest number that does.
pub proof fn lemma_capped(n: nat)
    ensures
        n < 0x1_0000_0000_0000_0000 ==> rounding::capped(n) == n,
        n >= 0x1_0000_0000_0000_0000 ==> rounding::capped(n) == 0xFFFF_FFFF_FFFF_FFFF,
{
}

/// A decimal number times a factor, without the part behind the point.
pub proof fn lemma_product(whole: Seq<char>, fraction: Seq<char>, factor: nat)
    requires
        digits_only(whole),
        digits_only(fraction),
    ensures
        ({
            let p = rounding::decimal_product(whole, fraction, factor);
            let scale = pow(10, fraction.len());
            &&& p * scale <= worth(whole + fraction) * factor
            &&& worth(whole + fraction) * factor < (p + 1) * scale
        }),
{
    let s = whole + fraction;
    assert(digits_only(s)) by {
        assert forall|i: int| 0 <= i < s.len() implies 48 <= (#[trigger] s[i]) as int <= 57 by {
            if i < whole.len() {
                assert(s[i] == whole[i]);
            } else {
                assert(s[i] == fraction[i - whole.len()]);
            }
        }
    }
    lemma_value(s);
    lemma_power(fraction.len());
    let v = (text::digits_value(s) * factor) as int;
    let scale = pow(10, fraction.len());
    let p = v / scale;
    div_mod::lemma_fundamental_div_mod(v, scale);
    div_mod::lemma_mod_bound(v, scale);
    assert(p * scale == scale * p) by (nonlinear_arith);
    assert((p + 1) * scale == scale * p + scale) by (nonlinear_arith);
    assert(p == rounding::decimal_product(whole, fraction, factor));
}

} // verus!

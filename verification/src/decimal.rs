//! Reading a decimal numeral of any length as the nearest binary64 number.

use crate::binary64;
use crate::binary64::{Binary, B52, B53};
use crate::text;
use crate::values;
use vstd::prelude::*;

verus! {

/// Ten to the power `k`.
pub open spec fn ten(k: nat) -> nat
    decreases k,
{
    if k == 0 {
        1
    } else {
        10 * ten((k - 1) as nat)
    }
}

/// Where the first decimal point stands, or the end of the text.
pub open spec fn point(s: Seq<char>) -> nat
    decreases s.len(),
{
    if s.len() == 0 || s[0] == '.' {
        0
    } else {
        1 + point(s.drop_first())
    }
}

/// The digits before the point.
pub open spec fn whole(s: Seq<char>) -> Seq<char> {
    s.take(point(s) as int)
}

/// The digits behind the point.
pub open spec fn fraction(s: Seq<char>) -> Seq<char> {
    if point(s) < s.len() {
        s.skip(point(s) as int + 1)
    } else {
        Seq::empty()
    }
}

/// Digits with at most one point among them, and at least one digit.
pub open spec fn is_numeral(s: Seq<char>) -> bool {
    &&& text::all_digits(whole(s))
    &&& text::all_digits(fraction(s))
    &&& whole(s).len() + fraction(s).len() > 0
}

/// The number of `10^-n` units that a numeral with `n` digits behind the point
/// stands for.
pub open spec fn units(s: Seq<char>) -> nat {
    text::digits_value(whole(s)) * ten(fraction(s).len()) + text::digits_value(fraction(s))
}

/// The binary64 number nearest to a numeral.
pub open spec fn nearest(s: Seq<char>) -> binary64::Dyadic {
    binary64::round(units(s), ten(fraction(s).len()), 0)
}

/// The number nearest to a numeral, times `2^shift`, rounded down and capped at
/// the greatest 64-bit integer. Such a product is exact in binary64.
pub open spec fn scaled_integer(s: Seq<char>, shift: int) -> u64 {
    let a = nearest(s);
    binary64::to_u64(binary64::Dyadic { m: a.m, e: a.e + shift })
}

proof fn lemma_ten_pos(k: nat)
    ensures
        ten(k) >= 1,
    decreases k,
{
    if k > 0 {
        lemma_ten_pos((k - 1) as nat);
    }
}

/// A number's first digit counts as many times over as there are digits behind
/// it allow.
proof fn lemma_first_digit(s: Seq<char>)
    requires
        s.len() > 0,
        text::all_digits(s),
    ensures
        text::digits_value(s) == (s[0] as u32 - '0' as u32) * ten((s.len() - 1) as nat)
            + text::digits_value(s.drop_first()),
    decreases s.len(),
{
    let v = (s[0] as u32 - '0' as u32);
    if s.len() == 1 {
        assert(s.drop_last() =~= Seq::empty());
        assert(s.drop_first() =~= Seq::empty());
        assert(text::is_digit(s[0]));
        assert(ten(0) == 1);
        assert(text::digits_value(s.drop_last()) == 0);
        assert(v * ten(0) == v) by (nonlinear_arith)
            requires
                ten(0) == 1,
        ;
    } else {
        let a = s.drop_last();
        assert(text::all_digits(a));
        lemma_first_digit(a);
        assert(a.drop_first() =~= s.drop_first().drop_last());
        assert(s.drop_first().last() == s.last());
        let n = (s.len() - 2) as nat;
        assert(ten((s.len() - 1) as nat) == 10 * ten(n));
        assert((v * ten(n)) * 10 == v * (10 * ten(n))) by (nonlinear_arith);
    }
}

proof fn lemma_digits_bounded(s: Seq<char>)
    requires
        text::all_digits(s),
    ensures
        text::digits_value(s) < ten(s.len()),
    decreases s.len(),
{
    if s.len() > 0 {
        assert(text::all_digits(s.drop_last()));
        lemma_digits_bounded(s.drop_last());
        assert(text::is_digit(s.last()));
    }
}

/// Doubles a fraction given by its digits, and returns the whole part that
/// comes out.
fn double(d: &mut Vec<char>) -> (carry: u8)
    requires
        text::all_digits(old(d)@),
    ensures
        final(d)@.len() == old(d)@.len(),
        text::all_digits(final(d)@),
        carry <= 1,
        2 * text::digits_value(old(d)@) == carry * ten(old(d)@.len()) + text::digits_value(
            final(d)@,
        ),
{
    let ghost before = d@;
    let ghost n = before.len();
    let mut carry: u8 = 0;
    let mut i: usize = d.len();
    assert(before.skip(n as int) =~= Seq::empty());
    assert(carry * ten(0) == 0);
    while i > 0
        invariant
            i <= n,
            n == before.len(),
            d@.len() == n,
            carry <= 1,
            text::all_digits(before),
            text::all_digits(d@),
            d@.take(i as int) == before.take(i as int),
            2 * text::digits_value(before.skip(i as int)) == carry * ten((n - i) as nat)
                + text::digits_value(d@.skip(i as int)),
        decreases i,
    {
        let ghost j = i - 1;
        let ghost rest = d@.skip(i as int);
        i -= 1;
        assert(d@[j] == d@.take(j + 1)[j]);
        assert(before[j] == before.take(j + 1)[j]);
        assert(text::is_digit(before[j]));
        let v: u8 = (d[i] as u32 - '0' as u32) as u8;
        let x: u8 = 2 * v + carry;
        let ghost c0 = carry;
        if x >= 10 {
            d[i] = text::digit_of(x - 10);
            carry = 1;
        } else {
            d[i] = text::digit_of(x);
            carry = 0;
        }
        proof {
            let p = ten((n - j - 1) as nat);
            assert(d@.take(j) =~= before.take(j));
            assert(before.skip(j).drop_first() =~= before.skip(j + 1));
            assert(d@.skip(j).drop_first() =~= rest);
            assert(text::all_digits(before.skip(j)));
            assert(text::all_digits(d@)) by {
                assert forall|k: int| 0 <= k < d@.len() implies text::is_digit(#[trigger] d@[k]) by {}
            }
            assert(text::all_digits(d@.skip(j)));
            lemma_first_digit(before.skip(j));
            lemma_first_digit(d@.skip(j));
            assert(ten((n - j) as nat) == 10 * p);
            let w = d@[j] as u32 - '0' as u32;
            assert(w + 10 * carry == 2 * v + c0);
            assert(2 * (v * p) + c0 * p == carry * (10 * p) + w * p) by (nonlinear_arith)
                requires
                    w + 10 * carry == 2 * v + c0,
            ;
        }
    }
    assert(before.skip(0) =~= before);
    assert(d@.skip(0) =~= d@);
    carry
}

/// Every positive ratio has an exponent that brings it between `2^52` and
/// `2^53`.
pub proof fn lemma_some_fit(num: nat, den: nat)
    requires
        num > 0,
        den > 0,
    ensures
        exists|k: int| binary64::fits(num, den, k),
{
    assert(den * binary64::two(0) == den) by (nonlinear_arith)
        requires
            binary64::two(0) == 1,
    ;
    assert(num * binary64::two(0) == num) by (nonlinear_arith)
        requires
            binary64::two(0) == 1,
    ;
    if B52 * den <= num {
        lemma_fit_above(num, den, 0);
    } else {
        lemma_fit_below(num, den, 0);
    }
}

proof fn lemma_fit_above(num: nat, den: nat, k: nat)
    requires
        den > 0,
        B52 * (den * binary64::two(k)) <= num,
    ensures
        exists|k: int| binary64::fits(num, den, k),
    decreases num - den * binary64::two(k),
{
    let t = binary64::two(k);
    binary64::lemma_two_pos(k);
    assert(den * t > 0) by (nonlinear_arith)
        requires
            den > 0,
            t > 0,
    ;
    assert(num * 1 == num);
    if num < B53 * (den * t) {
        assert(binary64::fits(num, den, k as int));
    } else {
        assert(binary64::two(k + 1) == 2 * t);
        assert(den * (2 * t) == 2 * (den * t)) by (nonlinear_arith);
        lemma_fit_above(num, den, k + 1);
    }
}

proof fn lemma_fit_below(num: nat, den: nat, k: nat)
    requires
        num > 0,
        num * binary64::two(k) < B53 * den,
    ensures
        exists|k: int| binary64::fits(num, den, k),
    decreases B53 * den - num * binary64::two(k),
{
    let t = binary64::two(k);
    binary64::lemma_two_pos(k);
    assert(num * t > 0) by (nonlinear_arith)
        requires
            num > 0,
            t > 0,
    ;
    assert(den * 1 == den);
    if B52 * den <= num * t {
        if k == 0 {
            assert(binary64::fits(num, den, 0)) by {
                assert(binary64::two(0) == 1);
                assert(num * 1 == num);
            }
        } else {
            assert(binary64::fits(num, den, -(k as int)));
        }
    } else {
        assert(binary64::two(k + 1) == 2 * t);
        assert(num * (2 * t) == 2 * (num * t)) by (nonlinear_arith);
        lemma_fit_below(num, den, k + 1);
    }
}

/// Widening a ratio changes nothing.
proof fn lemma_half_even_scale(n: nat, d: nat, c: nat)
    requires
        d > 0,
        c > 0,
    ensures
        binary64::half_even(n * c, d * c) == binary64::half_even(n, d),
{
    let q = n / d;
    let r = n % d;
    vstd::arithmetic::div_mod::lemma_fundamental_div_mod(n as int, d as int);
    assert(n * c == q * (d * c) + r * c) by (nonlinear_arith)
        requires
            n == d * q + r,
    ;
    assert(0 <= r * c < d * c) by (nonlinear_arith)
        requires
            0 <= r < d,
            c > 0,
    ;
    vstd::arithmetic::div_mod::lemma_fundamental_div_mod_converse(
        (n * c) as int,
        (d * c) as int,
        q as int,
        (r * c) as int,
    );
    assert(2 * (r * c) < d * c <==> 2 * r < d) by (nonlinear_arith)
        requires
            c > 0,
    ;
    assert(2 * (r * c) > d * c <==> 2 * r > d) by (nonlinear_arith)
        requires
            c > 0,
    ;
}

/// A remainder behind the last binary place counts as one unit of half a place.
proof fn lemma_sticky(q: nat, rem: nat, den: nat, p: nat)
    requires
        rem < den,
        p > 0,
    ensures
        binary64::half_even(2 * (q * den + rem), den * (4 * p)) == binary64::half_even(
            2 * q + (if rem > 0 {
                1nat
            } else {
                0nat
            }),
            4 * p,
        ),
{
    let st: nat = if rem > 0 {
        1
    } else {
        0
    };
    let a = (2 * q) / (4 * p);
    let b = (2 * q) % (4 * p);
    vstd::arithmetic::div_mod::lemma_fundamental_div_mod(2 * q as int, 4 * p as int);
    assert((4 * p) * a == 2 * (2 * (p * a))) by (nonlinear_arith);
    assert(b % 2 == 0 && b <= 4 * p - 2);
    assert(2 * q + st == a * (4 * p) + (b + st)) by (nonlinear_arith)
        requires
            2 * q == (4 * p) * a + b,
    ;
    vstd::arithmetic::div_mod::lemma_fundamental_div_mod_converse(
        (2 * q + st) as int,
        4 * p as int,
        a as int,
        (b + st) as int,
    );
    let r = b * den + 2 * rem;
    assert(2 * (q * den + rem) == a * (den * (4 * p)) + r) by (nonlinear_arith)
        requires
            2 * q == (4 * p) * a + b,
            r == b * den + 2 * rem,
    ;
    assert(0 <= r < den * (4 * p)) by (nonlinear_arith)
        requires
            r == b * den + 2 * rem,
            rem < den,
            0 <= b <= 4 * p - 2,
    ;
    vstd::arithmetic::div_mod::lemma_fundamental_div_mod_converse(
        (2 * (q * den + rem)) as int,
        (den * (4 * p)) as int,
        a as int,
        r as int,
    );
    if b >= 2 * p {
        assert(2 * r >= den * (4 * p)) by (nonlinear_arith)
            requires
                r == b * den + 2 * rem,
                b >= 2 * p,
        ;
        assert(2 * r > den * (4 * p) <==> 2 * (b + st) > 4 * p) by (nonlinear_arith)
            requires
                r == b * den + 2 * rem,
                b >= 2 * p,
                den > 0,
                st == (if rem > 0 {
                    1nat
                } else {
                    0nat
                }),
        ;
    } else {
        assert(2 * r < den * (4 * p)) by (nonlinear_arith)
            requires
                r == b * den + 2 * rem,
                b <= 2 * p - 2,
                rem < den,
        ;
    }
}

/// Rounding a ratio through the integer part `q` of it at `2^-s` and the fact
/// whether anything is left, where `q` has at least 54 bits.
proof fn lemma_round_through(num: nat, den: nat, q: nat, rem: nat, s: nat, n: nat)
    requires
        den > 0,
        rem < den,
        num * binary64::two(s) == q * den + rem,
        q >= B53,
        n == 2 * q + (if rem > 0 {
            1nat
        } else {
            0nat
        }),
    ensures
        binary64::round(num, den, 0) == binary64::round(n, 1, -(s as int) - 1),
{
    lemma_some_fit(n, 1);
    let k = choose|k: int| binary64::fits(n, 1, k);
    binary64::lemma_two_values();
    assert(k >= 2) by {
        if k < 2 {
            if k >= 0 {
                binary64::lemma_two_grows(k as nat, 1);
                assert(binary64::two(1) == 2 * binary64::two(0));
                assert(n * 1 < B53 * (1 * 2));
            } else {
                binary64::lemma_two_pos((-k) as nat);
                assert(n * binary64::down(k) >= n) by (nonlinear_arith)
                    requires
                        binary64::down(k) >= 1,
                ;
                assert(B53 * (1 * binary64::up(k)) == B53);
            }
        }
    }
    let t = binary64::two(k as nat);
    let p = binary64::two((k - 2) as nat);
    binary64::lemma_two_pos((k - 2) as nat);
    assert(t == 4 * p) by {
        assert(binary64::two((k - 1) as nat) == 2 * p);
    }
    let w = binary64::two(s + 1);
    assert(w == 2 * binary64::two(s));
    assert(num * w == 2 * (q * den + rem)) by (nonlinear_arith)
        requires
            w == 2 * binary64::two(s),
            num * binary64::two(s) == q * den + rem,
    ;
    assert(n * 1 == n && 1 * t == t);
    assert(B52 * t <= n < B53 * t);
    // The bounds hold of the ratio as well: they are even, and it lies within
    // one unit of `n`.
    assert(B52 * (den * t) <= num * w < B53 * (den * t)) by {
        assert(B52 * (4 * p) <= 2 * q) by (nonlinear_arith)
            requires
                B52 * (4 * p) <= n,
                n <= 2 * q + 1,
        ;
        assert(2 * q + 2 <= B53 * (4 * p)) by (nonlinear_arith)
            requires
                n < B53 * (4 * p),
                n >= 2 * q,
        ;
        assert(B52 * (den * t) <= 2 * (q * den + rem)) by (nonlinear_arith)
            requires
                B52 * t <= 2 * q,
        ;
        assert(2 * (q * den + rem) < B53 * (den * t)) by (nonlinear_arith)
            requires
                2 * q + 2 <= B53 * t,
                rem < den,
        ;
    }
    let kk = k - (s as int) - 1;
    let a = num * binary64::down(kk);
    let d = den * binary64::up(kk);
    if kk >= 0 {
        binary64::lemma_two_add(kk as nat, s + 1);
        binary64::lemma_two_pos(kk as nat);
        binary64::lemma_two_pos(s + 1);
        let u = binary64::two(kk as nat);
        assert(t == u * w);
        assert(a == num && d == den * u);
        assert(d * w == den * t) by (nonlinear_arith)
            requires
                d == den * u,
                t == u * w,
        ;
        assert(d > 0) by (nonlinear_arith)
            requires
                d == den * u,
                den > 0,
                u > 0,
        ;
        assert(B52 * d <= a < B53 * d) by (nonlinear_arith)
            requires
                B52 * (d * w) <= a * w,
                a * w < B53 * (d * w),
                w > 0,
        ;
        assert(binary64::fits(num, den, kk));
        lemma_half_even_scale(a, d, w);
    } else {
        let u = binary64::two((-kk) as nat);
        binary64::lemma_two_add(k as nat, (-kk) as nat);
        binary64::lemma_two_pos(k as nat);
        assert(w == t * u);
        assert(a == num * u && d == den);
        assert(a * t == num * w) by (nonlinear_arith)
            requires
                a == num * u,
                w == t * u,
        ;
        assert(B52 * d <= a < B53 * d) by (nonlinear_arith)
            requires
                B52 * (d * t) <= a * t,
                a * t < B53 * (d * t),
                t > 0,
        ;
        assert(binary64::fits(num, den, kk));
        lemma_half_even_scale(a, d, t);
    }
    assert(num > 0) by (nonlinear_arith)
        requires
            num * binary64::two(s) == q * den + rem,
            q > 0,
            den > 0,
            rem >= 0,
    ;
    binary64::lemma_round_at(num, den, 0, kk);
    binary64::lemma_round_at(n, 1, -(s as int) - 1, k);
    lemma_sticky(q, rem, den, p);
}

/// A ratio of at least `2^64` stays so when rounded.
proof fn lemma_large(num: nat, den: nat, shift: int)
    requires
        den > 0,
        num >= 0x1_0000_0000_0000_0000 * den,
        shift >= 0,
    ensures
        ({
            let a = binary64::round(num, den, 0);
            binary64::to_u64(binary64::Dyadic { m: a.m, e: a.e + shift }) == u64::MAX
        }),
{
    lemma_some_fit(num, den);
    let k = choose|k: int| binary64::fits(num, den, k);
    binary64::lemma_round_at(num, den, 0, k);
    binary64::lemma_two_values();
    binary64::lemma_two_add(53, 11);
    assert(k >= 12) by {
        if k < 12 {
            if k >= 0 {
                binary64::lemma_two_grows(k as nat, 11);
                let t = binary64::two(k as nat);
                let u = binary64::two(11);
                assert(num * 1 < B53 * (den * t));
                assert(B53 * (den * t) <= (B53 * u) * den) by (nonlinear_arith)
                    requires
                        t <= u,
                ;
            } else {
                let t = binary64::two((-k) as nat);
                binary64::lemma_two_pos((-k) as nat);
                assert(num * t >= num) by (nonlinear_arith)
                    requires
                        t >= 1,
                ;
                assert(num * t < B53 * (den * 1));
            }
        }
    }
    let n = num * binary64::down(k);
    let d = den * binary64::up(k);
    binary64::lemma_two_pos(k as nat);
    assert(d > 0) by (nonlinear_arith)
        requires
            d == den * binary64::up(k),
            den > 0,
            binary64::up(k) > 0,
    ;
    assert(n / d >= B52) by (nonlinear_arith)
        requires
            B52 * d <= n,
            d > 0,
    ;
    let m = binary64::half_even(n, d);
    assert(m >= B52);
    let e = (k + shift) as nat;
    binary64::lemma_two_grows(12, e);
    binary64::lemma_two_add(52, 12);
    assert(m * binary64::two(e) >= B52 * binary64::two(12)) by (nonlinear_arith)
        requires
            m >= B52,
            binary64::two(e) >= binary64::two(12),
    ;
}

/// A ratio below `2^-42` is nothing even `2^40` times over.
proof fn lemma_tiny(num: nat, den: nat, shift: int)
    requires
        den > 0,
        num * binary64::two(95) < B53 * den,
        shift <= 40,
    ensures
        ({
            let a = binary64::round(num, den, 0);
            binary64::to_u64(binary64::Dyadic { m: a.m, e: a.e + shift }) == 0
        }),
{
    if num == 0 {
        if shift >= 0 {
            assert(0 * binary64::two(shift as nat) == 0);
        } else {
            binary64::lemma_two_pos((-shift) as nat);
            assert(0nat / binary64::two((-shift) as nat) == 0) by (nonlinear_arith)
                requires
                    binary64::two((-shift) as nat) >= 1,
            ;
        }
    } else {
        lemma_some_fit(num, den);
        let k = choose|k: int| binary64::fits(num, den, k);
        binary64::lemma_round_at(num, den, 0, k);
        binary64::lemma_two_values();
        assert(k <= -95) by {
            if k > -95 {
                if k >= 0 {
                    binary64::lemma_two_pos(k as nat);
                    binary64::lemma_two_grows(53, 95);
                    let t = binary64::two(k as nat);
                    let u = binary64::two(95);
                    assert(B52 * (den * t) <= num * 1);
                    assert(num * u >= B53 * num) by (nonlinear_arith)
                        requires
                            u >= B53,
                    ;
                    assert(num >= den) by (nonlinear_arith)
                        requires
                            B52 * (den * t) <= num,
                            t >= 1,
                    ;
                } else {
                    let t = binary64::two((-k) as nat);
                    let u = binary64::two(95);
                    binary64::lemma_two_grows((-k) as nat, 95);
                    assert(B52 * (den * 1) <= num * t);
                    assert(num * u >= 2 * (num * t)) by (nonlinear_arith)
                        requires
                            u >= 2 * t,
                    ;
                }
            }
        }
        let n = num * binary64::down(k);
        let d = den * binary64::up(k);
        assert(d == den);
        assert(n / d < B53) by (nonlinear_arith)
            requires
                n < B53 * d,
                d > 0,
        ;
        let m = binary64::half_even(n, d);
        assert(m <= B53);
        let t = binary64::two((-(k + shift)) as nat);
        binary64::lemma_two_grows(55, (-(k + shift)) as nat);
        binary64::lemma_two_grows(53, 55);
        assert(m / t == 0) by (nonlinear_arith)
            requires
                m < t,
                m >= 0,
        ;
    }
}

/// Where the first decimal point stands, or the end of the text.
fn point_of(s: &[char]) -> (r: usize)
    ensures
        r == point(s@),
        r <= s@.len(),
{
    let mut i: usize = 0;
    assert(s@.skip(0) =~= s@);
    while i < s.len() && s[i] != '.'
        invariant
            i <= s.len(),
            point(s@) == i + point(s@.skip(i as int)),
        decreases s.len() - i,
    {
        assert(s@.skip(i as int).drop_first() =~= s@.skip(i + 1));
        i += 1;
    }
    i
}

fn digits_only(s: &[char]) -> (r: bool)
    ensures
        r == text::all_digits(s@),
{
    let mut i: usize = 0;
    while i < s.len()
        invariant
            i <= s.len(),
            forall|j: int| 0 <= j < i ==> text::is_digit(#[trigger] s@[j]),
        decreases s.len() - i,
    {
        if !text::digit(s[i]) {
            return false;
        }
        i += 1;
    }
    true
}

fn any_left(d: &Vec<char>) -> (r: bool)
    requires
        text::all_digits(d@),
    ensures
        r == (text::digits_value(d@) > 0),
{
    let mut i: usize = 0;
    assert(d@.take(0) =~= Seq::empty());
    while i < d.len()
        invariant
            i <= d.len(),
            text::all_digits(d@),
            text::digits_value(d@.take(i as int)) == 0,
        decreases d.len() - i,
    {
        assert(d@.take(i + 1).drop_last() =~= d@.take(i as int));
        assert(text::is_digit(d@[i as int]));
        if d[i] != '0' {
            proof {
                assert(text::digits_value(d@.take(i + 1)) > 0);
                text::lemma_digits_grow(d@, i + 1);
            }
            return true;
        }
        i += 1;
    }
    assert(d@.take(d@.len() as int) =~= d@);
    false
}

/// Reads a numeral, times `2^shift`, as a whole number.
pub fn read_scaled(s: &[char], shift: i32) -> (r: Option<u64>)
    requires
        0 <= shift <= 40,
    ensures
        r == (if is_numeral(s@) {
            Some(scaled_integer(s@, shift as int))
        } else {
            None
        }),
{
    let p = point_of(s);
    let head = text::slice_of(s, 0, p);
    assert(head@ =~= whole(s@));
    let mut digits: Vec<char> = if p < s.len() {
        text::slice_of(s, p + 1, s.len())
    } else {
        Vec::new()
    };
    assert(digits@ =~= fraction(s@));
    if !digits_only(head.as_slice()) || !digits_only(digits.as_slice()) || (head.len() == 0
        && digits.len() == 0) {
        return None;
    }
    let ghost num = units(s@);
    let ghost den = ten(fraction(s@).len());
    let ghost whole_value = text::digits_value(whole(s@));
    proof {
        lemma_ten_pos(fraction(s@).len());
    }
    let w: u64 = if head.len() == 0 {
        0
    } else {
        proof {
            if head@[0] == '+' {
                assert(text::is_digit(head@[0]));
            }
        }
        match text::read_number(head.as_slice(), u64::MAX) {
            Some(w) => w,
            None => {
                proof {
                    assert(num >= 0x1_0000_0000_0000_0000 * den) by (nonlinear_arith)
                        requires
                            num >= whole_value * den,
                            whole_value >= 0x1_0000_0000_0000_0000,
                    ;
                    lemma_large(num, den, shift as int);
                }
                return Some(u64::MAX);
            },
        }
    };
    assert(w == whole_value);
    let places: u32 = if w > 0 {
        53
    } else {
        95
    };
    let mut acc: u128 = w as u128;
    let mut i: u32 = 0;
    proof {
        binary64::lemma_two_values();
        assert(num * binary64::two(0) == num) by (nonlinear_arith)
            requires
                binary64::two(0) == 1,
        ;
        assert(w * binary64::two(0) == w) by (nonlinear_arith)
            requires
                binary64::two(0) == 1,
        ;
    }
    while i < places
        invariant
            i <= places,
            places == (if w > 0 {
                53
            } else {
                95int
            }),
            text::all_digits(digits@),
            digits@.len() == fraction(s@).len(),
            den == ten(digits@.len()),
            num * binary64::two(i as nat) == acc * den + text::digits_value(digits@),
            w * binary64::two(i as nat) <= acc < (w + 1) * binary64::two(i as nat),
            binary64::two(53) == B53,
        decreases places - i,
    {
        let ghost before = text::digits_value(digits@);
        let ghost t = binary64::two(i as nat);
        let ghost a = acc;
        proof {
            assert(binary64::two((i + 1) as nat) == 2 * t);
            binary64::lemma_two_grows((i + 1) as nat, places as nat);
            if w == 0 {
                binary64::lemma_two_add(53, 42);
                binary64::lemma_two_grows(42, 53);
                assert(binary64::two(95) <= B53 * B53) by (nonlinear_arith)
                    requires
                        binary64::two(95) == binary64::two(53) * binary64::two(42),
                        binary64::two(42) <= B53,
                        binary64::two(53) == B53,
                ;
                assert((w + 1) * t == t) by (nonlinear_arith)
                    requires
                        w == 0,
                ;
            } else {
                assert((w + 1) * t <= 0x1_0000_0000_0000_0000 * B53) by (nonlinear_arith)
                    requires
                        w + 1 <= 0x1_0000_0000_0000_0000,
                        t <= B53,
                ;
            }
        }
        let carry = double(&mut digits);
        acc = 2 * acc + carry as u128;
        i += 1;
        proof {
            assert(num * (2 * t) == acc * den + text::digits_value(digits@)) by (nonlinear_arith)
                requires
                    num * t == a * den + before,
                    2 * before == carry * den + text::digits_value(digits@),
                    acc == 2 * a + carry,
            ;
            assert(w * (2 * t) <= acc < (w + 1) * (2 * t)) by (nonlinear_arith)
                requires
                    w * t <= a,
                    a < (w + 1) * t,
                    acc == 2 * a + carry,
                    0 <= carry <= 1,
            ;
        }
    }
    let ghost rem = text::digits_value(digits@);
    proof {
        lemma_digits_bounded(digits@);
    }
    if acc < B53 {
        proof {
            if w > 0 {
                assert(w * B53 >= B53) by (nonlinear_arith)
                    requires
                        w >= 1,
                ;
            }
            assert(num * binary64::two(95) < B53 * den) by (nonlinear_arith)
                requires
                    num * binary64::two(95) == acc * den + rem,
                    acc + 1 <= B53,
                    rem < den,
            ;
            lemma_tiny(num, den, shift as int);
        }
        return Some(0);
    }
    let sticky: u128 = if any_left(&digits) {
        1
    } else {
        0
    };
    proof {
        if w > 0 {
            assert((w + 1) * B53 <= 0x1_0000_0000_0000_0000 * B53) by (nonlinear_arith)
                requires
                    w + 1 <= 0x1_0000_0000_0000_0000,
            ;
        } else {
            binary64::lemma_two_add(48, 47);
            binary64::lemma_two_grows(47, 53);
            binary64::lemma_two_grows(48, 53);
            assert(binary64::two(95) <= B53 * B53) by (nonlinear_arith)
                requires
                    binary64::two(95) == binary64::two(48) * binary64::two(47),
                    binary64::two(47) <= B53,
                    binary64::two(48) <= B53,
            ;
        }
        lemma_round_through(num, den, acc as nat, rem, places as nat, (2 * acc + sticky) as nat);
    }
    let r = binary64::rounded(2 * acc + sticky, 1, -(places as i32) - 1);
    let scaled = Binary { m: r.m, e: r.e + shift };
    Some(binary64::truncated(scaled))
}

/// A numeral is read to a billionth: times a power of two, what is read is the
/// digits by the power of ten that the point sets them back, rounded down, but for
/// that.
pub proof fn numerals_are_read_to_a_billionth(s: Seq<char>, shift: int)
    ensures
        ({
            let exact = (units(s) as real / ten(fraction(s).len()) as real) * values::scale(shift);
            let r = scaled_integer(s, shift);
            &&& 1000000000real * (r as real) <= 1000000001real * exact
            &&& r < u64::MAX ==> 1000000000real * (r as real + 1real) >= 999999999real * exact
        }),
{
    let n = units(s);
    let d = ten(fraction(s).len());
    lemma_ten_pos(fraction(s).len());
    values::lemma_round_value(n, d, 0);
    let a = nearest(s);
    let moved = binary64::Dyadic { m: a.m, e: a.e + shift };
    values::lemma_scales(a.e, shift);
    values::lemma_scales(0, 0);
    values::lemma_floor_value(moved);
    let x = n as real / d as real;
    let w = values::scale(shift);
    let v = values::value(a);
    let m = a.m as real;
    let u = values::scale(a.e);
    assert(x * 1real == x) by (nonlinear_arith);
    assert(m * (u * w) == (m * u) * w) by (nonlinear_arith);
    assert(values::value(moved) == v * w);
    let y = v * w;
    let exact = x * w;
    assert(1000000000real * y <= 1000000001real * exact && 1000000000real * y >= 999999999real
        * exact) by (nonlinear_arith)
        requires
            (999999999real / 1000000000real) * x <= v,
            v <= (1000000001real / 1000000000real) * x,
            y == v * w,
            exact == x * w,
            w > 0real,
    ;
}

} // verus!

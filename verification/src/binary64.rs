//! Double-precision arithmetic on non-negative numbers, on integers.
//!
//! A number is `m * 2^e`. Every operation gives the value with a 53-bit
//! significand nearest to the exact result, ties going to the even one, which
//! is what binary64 hardware does for results that are neither subnormal nor
//! infinite.

use vstd::prelude::*;

verus! {

/// `2^52`, the least significand of a normalised number.
pub const B52: u128 = 0x10_0000_0000_0000;

/// `2^53`, just above the greatest significand of a normalised number.
pub const B53: u128 = 0x20_0000_0000_0000;

/// Two to the power `k`.
pub open spec fn two(k: nat) -> nat
    decreases k,
{
    if k == 0 {
        1
    } else {
        2 * two((k - 1) as nat)
    }
}

/// The value `m * 2^e`.
pub struct Dyadic {
    pub m: nat,
    pub e: int,
}

/// The integer nearest to `n / d`, the even one of two equally near.
pub open spec fn half_even(n: nat, d: nat) -> nat {
    let q = n / d;
    let r = n % d;
    if 2 * r < d {
        q
    } else if 2 * r > d {
        q + 1
    } else {
        q + q % 2
    }
}

pub open spec fn up(k: int) -> nat {
    if k >= 0 {
        two(k as nat)
    } else {
        1
    }
}

pub open spec fn down(k: int) -> nat {
    if k >= 0 {
        1
    } else {
        two((-k) as nat)
    }
}

/// `num / den / 2^k` lies from `2^52` up to, not including, `2^53`.
pub open spec fn fits(num: nat, den: nat, k: int) -> bool {
    B52 * (den * up(k)) <= num * down(k) < B53 * (den * up(k))
}

/// The 53-bit number nearest to `num / den * 2^e`.
pub open spec fn round(num: nat, den: nat, e: int) -> Dyadic {
    if num == 0 {
        Dyadic { m: 0, e: 0 }
    } else {
        let k = choose|k: int| fits(num, den, k);
        Dyadic { m: half_even(num * down(k), den * up(k)), e: e + k }
    }
}

/// The number nearest to an integer.
pub open spec fn of_int(n: nat) -> Dyadic {
    round(n, 1, 0)
}

pub open spec fn low(a: Dyadic, b: Dyadic) -> int {
    if a.e <= b.e {
        a.e
    } else {
        b.e
    }
}

/// The significand `a` would have with the smaller exponent of the two.
pub open spec fn aligned(a: Dyadic, b: Dyadic) -> nat {
    a.m * two((a.e - low(a, b)) as nat)
}

pub open spec fn at_least(a: Dyadic, b: Dyadic) -> bool {
    aligned(a, b) >= aligned(b, a)
}

pub open spec fn product(a: Dyadic, b: Dyadic) -> Dyadic {
    round(a.m * b.m, 1, a.e + b.e)
}

pub open spec fn quotient(a: Dyadic, b: Dyadic) -> Dyadic {
    round(a.m, b.m, a.e - b.e)
}

pub open spec fn sum(a: Dyadic, b: Dyadic) -> Dyadic {
    round(aligned(a, b) + aligned(b, a), 1, low(a, b))
}

/// `a - b`, for `a` at least `b`.
pub open spec fn difference(a: Dyadic, b: Dyadic) -> Dyadic {
    round((aligned(a, b) - aligned(b, a)) as nat, 1, low(a, b))
}

/// The value rounded down to an integer.
pub open spec fn floor(a: Dyadic) -> nat {
    if a.e >= 0 {
        a.m * two(a.e as nat)
    } else {
        a.m / two((-a.e) as nat)
    }
}

/// The value rounded down to an integer, or the greatest 64-bit integer where
/// that is smaller.
pub open spec fn to_u64(a: Dyadic) -> u64 {
    if floor(a) <= u64::MAX {
        floor(a) as u64
    } else {
        u64::MAX
    }
}

/// The integer nearest to `a * scale`, the even one of two equally near.
pub open spec fn scaled(a: Dyadic, scale: nat) -> nat {
    half_even(a.m * scale * up(a.e), down(a.e))
}

// --- powers of two ----------------------------------------------------------------

pub proof fn lemma_two_pos(k: nat)
    ensures
        two(k) >= 1,
    decreases k,
{
    if k > 0 {
        lemma_two_pos((k - 1) as nat);
    }
}

pub proof fn lemma_two_add(a: nat, b: nat)
    ensures
        two(a + b) == two(a) * two(b),
    decreases b,
{
    if b > 0 {
        lemma_two_add(a, (b - 1) as nat);
        assert(two(a + b) == 2 * two((a + b - 1) as nat));
        assert(2 * (two(a) * two((b - 1) as nat)) == two(a) * (2 * two((b - 1) as nat)))
            by (nonlinear_arith);
    } else {
        assert(two(a) * two(0) == two(a)) by (nonlinear_arith)
            requires
                two(0) == 1,
        ;
    }
}

pub proof fn lemma_two_grows(a: nat, b: nat)
    requires
        a <= b,
    ensures
        two(a) <= two(b),
        a < b ==> 2 * two(a) <= two(b),
    decreases b - a,
{
    if a < b {
        lemma_two_grows(a, (b - 1) as nat);
        lemma_two_pos((b - 1) as nat);
    }
}

pub proof fn lemma_two_values()
    ensures
        two(0) == 1,
        two(10) == 1024,
        two(52) == B52,
        two(53) == B53,
        two(64) == 0x1_0000_0000_0000_0000,
        two(72) == 0x100_0000_0000_0000_0000,
        two(120) == 0x100_0000_0000_0000_0000_0000_0000_0000,
{
    reveal_with_fuel(two, 13);
    assert(two(12) == 4096 && two(4) == 16 && two(5) == 32);
    lemma_two_add(12, 12);
    assert(two(24) == 0x100_0000);
    lemma_two_add(24, 24);
    assert(two(48) == 0x1_0000_0000_0000);
    lemma_two_add(48, 4);
    lemma_two_add(48, 5);
    lemma_two_add(48, 12);
    assert(two(60) == 0x1000_0000_0000_0000);
    lemma_two_add(60, 4);
    lemma_two_add(60, 12);
    lemma_two_add(60, 60);
}

// --- rounding ---------------------------------------------------------------------

/// Only one exponent brings a ratio between `2^52` and `2^53`.
pub proof fn lemma_fits_once(num: nat, den: nat, j: int, k: int)
    requires
        fits(num, den, j),
        fits(num, den, k),
        den > 0,
    ensures
        j == k,
{
    if j < k {
        lemma_fits_below(num, den, j, k);
    } else if k < j {
        lemma_fits_below(num, den, k, j);
    }
}

proof fn lemma_fits_below(num: nat, den: nat, j: int, k: int)
    requires
        fits(num, den, j),
        den > 0,
        j < k,
    ensures
        !fits(num, den, k),
{
    if fits(num, den, k) {
        lemma_fits_clash(num, den, j, k);
    }
}

/// The bounds at a smaller exponent rule out those at a greater one.
proof fn lemma_fits_clash(num: nat, den: nat, j: int, k: int)
    requires
        B52 * (den * up(k)) <= num * down(k),
        den > 0,
        j < k,
    ensures
        B53 * (den * up(j)) <= num * down(j),
{
    if j >= 0 {
        lemma_two_grows(j as nat, k as nat);
        assert(B53 * (den * up(j)) <= num * down(j)) by (nonlinear_arith)
            requires
                B52 * (den * up(k)) <= num * down(k),
                down(k) == 1,
                down(j) == 1,
                2 * up(j) <= up(k),
                den > 0,
        ;
    } else if k >= 0 {
        lemma_two_pos((-j - 1) as nat);
        lemma_two_pos(k as nat);
        assert(down(j) >= 2);
        assert(B53 * (den * up(j)) <= num * down(j)) by (nonlinear_arith)
            requires
                B52 * (den * up(k)) <= num * down(k),
                down(k) == 1,
                up(j) == 1,
                up(k) >= 1,
                down(j) >= 2,
                den > 0,
        ;
    } else {
        lemma_two_grows((-k) as nat, (-j) as nat);
        assert(B53 * (den * up(j)) <= num * down(j)) by (nonlinear_arith)
            requires
                B52 * (den * up(k)) <= num * down(k),
                up(k) == 1,
                up(j) == 1,
                2 * down(k) <= down(j),
                den > 0,
        ;
    }
}

/// What rounding gives once the exponent is known.
pub proof fn lemma_round_at(num: nat, den: nat, e: int, k: int)
    requires
        num > 0,
        den > 0,
        fits(num, den, k),
    ensures
        round(num, den, e) == (Dyadic { m: half_even(num * down(k), den * up(k)), e: e + k }),
{
    let c = choose|c: int| fits(num, den, c);
    lemma_fits_once(num, den, c, k);
}

/// A ratio below `2^(52 + h)` has an exponent below `h`.
pub proof fn lemma_exponent_below(num: nat, den: nat, k: int, h: int)
    requires
        den > 0,
        fits(num, den, k),
        num * down(h) < B52 * (den * up(h)),
    ensures
        k < h,
{
    if h < k {
        lemma_fits_clash(num, den, h, k);
        assert(B52 * (den * up(h)) <= B53 * (den * up(h))) by (nonlinear_arith);
    }
}

/// A ratio of at least `2^(53 + h)` has an exponent above `h`.
pub proof fn lemma_exponent_above(num: nat, den: nat, k: int, h: int)
    requires
        den > 0,
        fits(num, den, k),
        num * down(h) >= B53 * (den * up(h)),
    ensures
        k > h,
{
    if k < h {
        assert(B52 * (den * up(h)) <= B53 * (den * up(h))) by (nonlinear_arith);
        lemma_fits_clash(num, den, k, h);
    }
}

/// An integer of at least `2^p` has an exponent above `p - 53`.
pub proof fn lemma_exponent_from(n: nat, k: int, p: nat)
    requires
        fits(n, 1, k),
        n >= two(p),
    ensures
        k > p - 53,
{
    lemma_two_values();
    let h = p - 53;
    if h >= 0 {
        lemma_two_add(53, h as nat);
        assert(1 * two(h as nat) == two(h as nat));
        assert(n * 1 == n);
    } else {
        lemma_two_add(p, (-h) as nat);
        assert(n * two((-h) as nat) >= two(p) * two((-h) as nat)) by (nonlinear_arith)
            requires
                n >= two(p),
        ;
    }
    lemma_exponent_above(n, 1, k, h);
}

/// An integer below `2^q` has an exponent below `q - 52`.
pub proof fn lemma_exponent_upto(n: nat, k: int, q: nat)
    requires
        fits(n, 1, k),
        n < two(q),
    ensures
        k < q - 52,
{
    lemma_two_values();
    let h = q - 52;
    if h >= 0 {
        lemma_two_add(52, h as nat);
        assert(1 * two(h as nat) == two(h as nat));
        assert(n * 1 == n);
    } else {
        lemma_two_add(q, (-h) as nat);
        lemma_two_pos((-h) as nat);
        assert(n * two((-h) as nat) < two(q) * two((-h) as nat)) by (nonlinear_arith)
            requires
                n < two(q),
                two((-h) as nat) > 0,
        ;
    }
    lemma_exponent_below(n, 1, k, h);
}

/// Rounding an integer below `2^64` goes no further than `2^64`.
pub proof fn lemma_of_int_bound(n: nat)
    requires
        n < 0x1_0000_0000_0000_0000,
    ensures
        floor(of_int(n)) <= 0x1_0000_0000_0000_0000,
{
    lemma_two_values();
    lemma_two_add(53, 11);
    if n == 0 {
        assert(0 * two(0) == 0);
    } else {
        crate::decimal::lemma_some_fit(n, 1);
        let k = choose|k: int| fits(n, 1, k);
        lemma_round_at(n, 1, 0, k);
        let d = 1 * up(k);
        let m = half_even(n * down(k), d);
        lemma_two_pos(k as nat);
        assert(d > 0 && d == up(k));
        assert((n * down(k)) / d < B53) by (nonlinear_arith)
            requires
                n * down(k) < B53 * d,
                d > 0,
        ;
        assert(m <= B53);
        lemma_two_add(52, 12);
        assert(n * 1 == n && 1 * two(12) == two(12));
        lemma_exponent_below(n, 1, k, 12);
        if k >= 0 {
            lemma_two_grows(k as nat, 11);
            assert(m * two(k as nat) <= B53 * two(11)) by (nonlinear_arith)
                requires
                    m <= B53,
                    two(k as nat) <= two(11),
            ;
        } else {
            let t = two((-k) as nat);
            lemma_two_pos((-k) as nat);
            assert(m / t <= m) by (nonlinear_arith)
                requires
                    t >= 1,
                    m >= 0,
            ;
        }
    }
}

/// A non-negative binary64 number.
#[derive(Clone, Copy, Debug)]
pub struct Binary {
    pub m: u64,
    pub e: i32,
}

impl View for Binary {
    type V = Dyadic;

    open spec fn view(&self) -> Dyadic {
        Dyadic { m: self.m as nat, e: self.e as int }
    }
}

/// The bits of a number in the binary64 format, for one that is normalised and
/// not subnormal, or zero.
pub open spec fn format_bits(a: Dyadic) -> nat {
    if a.m == 0 {
        0
    } else if a.m == B53 {
        ((a.e + 1076) * B52) as nat
    } else {
        ((a.e + 1075) * B52 + (a.m - B52)) as nat
    }
}

impl Binary {
    /// The bits of the number in the binary64 format.
    pub fn bits(self) -> (r: u64)
        requires
            self.m == 0 || B52 <= self.m <= B53,
            -1000 <= self.e <= 900,
        ensures
            r == format_bits(self@),
    {
        if self.m == 0 {
            return 0;
        }
        assert((self.e + 1076) * B52 <= 1976 * B52) by (nonlinear_arith)
            requires
                self.e <= 900,
        ;
        assert(0 <= (self.e + 1075) * B52 <= 1975 * B52) by (nonlinear_arith)
            requires
                -1000 <= self.e <= 900,
        ;
        if self.m == 0x20_0000_0000_0000 {
            assert((self.e + 1076) * B52 == (self.e + 1076) * 0x10_0000_0000_0000);
            (self.e + 1076) as u64 * 0x10_0000_0000_0000
        } else {
            (self.e + 1075) as u64 * 0x10_0000_0000_0000 + (self.m - 0x10_0000_0000_0000)
        }
    }

    /// A significand no longer than 53 bits and an exponent within reach.
    pub open spec fn small(self) -> bool {
        self.m <= B53 && -1000 <= self.e <= 1000
    }
}

pub fn nearest_integer(n: u128, d: u128) -> (r: u128)
    requires
        0 < d <= 0x4000_0000_0000_0000_0000_0000_0000_0000,
        n < 0x8000_0000_0000_0000_0000_0000_0000_0000,
    ensures
        r == half_even(n as nat, d as nat),
        r <= n / d + 1,
{
    let q = n / d;
    let rem = n % d;
    assert(q <= n) by (nonlinear_arith)
        requires
            q == n / d,
            d > 0,
            n >= 0,
    ;
    if 2 * rem < d {
        q
    } else if 2 * rem > d {
        q + 1
    } else {
        q + q % 2
    }
}

/// `m * 2^k`.
pub fn shift_up(m: u64, k: u32) -> (r: u128)
    requires
        m <= B53,
        k <= 64,
    ensures
        r == m * two(k as nat),
        r <= 0x20_0000_0000_0000_0000_0000_0000_0000,
{
    let mut r: u128 = m as u128;
    let mut i: u32 = 0;
    proof {
        lemma_two_values();
    }
    while i < k
        invariant
            i <= k <= 64,
            m <= B53,
            r == m * two(i as nat),
            two(64) == 0x1_0000_0000_0000_0000,
        decreases k - i,
    {
        proof {
            lemma_two_grows((i + 1) as nat, 64);
            assert(two((i + 1) as nat) == 2 * two(i as nat));
            assert(m * (2 * two(i as nat)) == 2 * (m * two(i as nat))) by (nonlinear_arith);
            assert(m * two((i + 1) as nat) <= B53 * two(64)) by (nonlinear_arith)
                requires
                    m <= B53,
                    two((i + 1) as nat) <= two(64),
            ;
        }
        r = r * 2;
        i += 1;
    }
    proof {
        lemma_two_grows(k as nat, 64);
        assert(m * two(k as nat) <= B53 * two(64)) by (nonlinear_arith)
            requires
                m <= B53,
                two(k as nat) <= two(64),
        ;
    }
    r
}

/// The 53-bit number nearest to `num / den * 2^e`.
pub fn rounded(num: u128, den: u128, e: i32) -> (r: Binary)
    requires
        0 < den <= 0x1_0000_0000_0000_0000,
        num <= 0x40_0000_0000_0000_0000_0000_0000_0000,
        -4000 <= e <= 4000,
    ensures
        r@ == round(num as nat, den as nat, e as int),
        r.m <= B53,
        num > 0 ==> r.m >= B52,
        num == 0 ==> r.m == 0 && r.e == 0,
        num > 0 ==> e - 120 <= r.e <= e + 72,
        num > 0 ==> fits(num as nat, den as nat, r.e - e),
{
    if num == 0 {
        return Binary { m: 0, e: 0 };
    }
    let mut n: u128 = num;
    let mut d: u128 = den;
    let mut k: i32 = 0;
    proof {
        lemma_two_values();
        assert(den * two(0) == den) by (nonlinear_arith)
            requires
                two(0) == 1,
        ;
    }
    while d * B53 <= n
        invariant
            n == num,
            0 < den <= d,
            num <= 0x40_0000_0000_0000_0000_0000_0000_0000,
            0 <= k <= 72,
            d == den * two(k as nat),
            d <= 0x4_0000_0000_0000_0000,
            k > 0 ==> d * B52 <= n,
            two(72) == 0x100_0000_0000_0000_0000,
        decreases n - d,
    {
        proof {
            assert(two((k + 1) as nat) == 2 * two(k as nat));
            assert(den * (2 * two(k as nat)) == 2 * (den * two(k as nat))) by (nonlinear_arith);
            if k + 1 > 72 {
                lemma_two_grows(72, k as nat);
                assert(den * two(k as nat) >= two(72)) by (nonlinear_arith)
                    requires
                        den >= 1,
                        two(k as nat) >= two(72),
                ;
            }
        }
        d = d * 2;
        k = k + 1;
    }
    proof {
        assert(num * two(0) == num) by (nonlinear_arith)
            requires
                two(0) == 1,
        ;
    }
    let mut kk: i32 = 0;
    while n < d * B52
        invariant
            0 <= kk <= 120,
            0 <= k,
            0 < num <= n,
            kk > 0 ==> k == 0,
            k > 0 ==> d * B52 <= n,
            n == num * two(kk as nat),
            n < d * B53,
            0 < d <= 0x4_0000_0000_0000_0000,
            two(120) == 0x100_0000_0000_0000_0000_0000_0000_0000,
        decreases d * B53 - n,
    {
        proof {
            assert(two((kk + 1) as nat) == 2 * two(kk as nat));
            assert(num * (2 * two(kk as nat)) == 2 * (num * two(kk as nat))) by (nonlinear_arith);
            if kk + 1 > 120 {
                lemma_two_grows(120, kk as nat);
                assert(num * two(kk as nat) >= two(120)) by (nonlinear_arith)
                    requires
                        num >= 1,
                        two(kk as nat) >= two(120),
                ;
            }
        }
        n = n * 2;
        kk = kk + 1;
    }
    let ghost shift = if kk > 0 {
        -(kk as int)
    } else {
        k as int
    };
    proof {
        assert(n == num * down(shift)) by {
            if shift >= 0 {
                assert(num * 1 == num);
            }
        }
        assert(d == den * up(shift));
        assert(fits(num as nat, den as nat, shift)) by (nonlinear_arith)
            requires
                d * B52 <= n,
                n < d * B53,
                n == num * down(shift),
                d == den * up(shift),
        ;
        lemma_round_at(num as nat, den as nat, e as int, shift);
        assert(B52 <= n / d < B53) by (nonlinear_arith)
            requires
                d > 0,
                d * B52 <= n,
                n < d * B53,
        ;
    }
    let m = nearest_integer(n, d);
    assert(m >= n / d);
    Binary { m: m as u64, e: e + k - kk }
}

pub fn from_u64(n: u64) -> (r: Binary)
    ensures
        r@ == of_int(n as nat),
        r.m <= B53,
        n > 0 ==> r.m >= B52,
        n == 0 ==> r.m == 0 && r.e == 0,
        n > 0 ==> fits(n as nat, 1, r.e as int),
        -52 <= r.e <= 11,
{
    let r = rounded(n as u128, 1, 0);
    proof {
        lemma_two_values();
        lemma_two_add(52, 12);
        assert(two(12) == 4096) by {
            reveal_with_fuel(two, 13);
        }
        if n > 0 {
            assert(1 * two(12) == two(12));
            assert(n * 1 == n);
            lemma_exponent_below(n as nat, 1, r.e as int, 12);
            assert(n * two(53) >= two(53)) by (nonlinear_arith)
                requires
                    n >= 1,
            ;
            lemma_exponent_above(n as nat, 1, r.e as int, -53);
        }
    }
    r
}

/// The value rounded down to an integer.
pub fn whole(a: Binary) -> (r: u128)
    requires
        a.m <= B53,
        -64 <= a.e <= 64,
    ensures
        r == floor(a@),
        r <= 0x20_0000_0000_0000_0000_0000_0000_0000,
{
    if a.e >= 0 {
        shift_up(a.m, a.e as u32)
    } else {
        let t = shift_up(1, (-a.e) as u32);
        proof {
            assert(1 * two((-a.e) as nat) == two((-a.e) as nat)) by (nonlinear_arith);
            lemma_two_pos((-a.e) as nat);
            assert(a.m as nat / t as nat <= a.m) by (nonlinear_arith)
                requires
                    t > 0,
                    a.m >= 0,
            ;
        }
        a.m as u128 / t
    }
}

/// Two to the power `k`.
pub fn power(k: u32) -> (r: u128)
    requires
        k <= 120,
    ensures
        r == two(k as nat),
        r <= 0x100_0000_0000_0000_0000_0000_0000_0000,
{
    let mut r: u128 = 1;
    let mut i: u32 = 0;
    proof {
        lemma_two_values();
        lemma_two_grows(k as nat, 120);
    }
    while i < k
        invariant
            i <= k <= 120,
            r == two(i as nat),
            two(120) == 0x100_0000_0000_0000_0000_0000_0000_0000,
        decreases k - i,
    {
        proof {
            lemma_two_grows((i + 1) as nat, 120);
        }
        r = r * 2;
        i += 1;
    }
    r
}

/// The integer nearest to `a * scale`, the even one of two equally near.
pub fn nearest_multiple(a: Binary, scale: u64) -> (r: u128)
    requires
        a.m <= B53,
        scale <= 0x4000_0000,
        -200 <= a.e <= 40,
    ensures
        r == scaled(a@, scale as nat),
        a.e <= 0 ==> r <= a.m * scale + 1,
{
    proof {
        lemma_two_values();
        assert(a.m * scale <= B53 * 0x4000_0000) by (nonlinear_arith)
            requires
                a.m <= B53,
                scale <= 0x4000_0000,
        ;
    }
    let n: u128 = a.m as u128 * scale as u128;
    if a.e >= 0 {
        let t = power(a.e as u32);
        proof {
            lemma_two_grows(a.e as nat, 40);
            assert(two(40) == 0x100_0000_0000) by {
                lemma_two_add(10, 10);
                assert(two(20) == 0x10_0000);
                lemma_two_add(20, 20);
            }
            assert(n * t <= B53 * 0x4000_0000 * 0x100_0000_0000) by (nonlinear_arith)
                requires
                    n <= B53 * 0x4000_0000,
                    t <= 0x100_0000_0000,
            ;
            assert(a.e == 0 ==> n * t == n) by {
                assert(n * 1 == n);
            }
        }
        nearest_integer(n * t, 1)
    } else if a.e < -120 {
        proof {
            let t = two((-a.e) as nat);
            lemma_two_grows(120, (-a.e) as nat);
            assert(n * 1 == n);
            assert(n as nat / t == 0 && n as nat % t == n) by (nonlinear_arith)
                requires
                    0 <= n < t,
            ;
        }
        0
    } else {
        let t = power((-a.e) as u32);
        proof {
            lemma_two_pos((-a.e) as nat);
            assert(n * 1 == n);
            assert(n as nat / t as nat <= n) by (nonlinear_arith)
                requires
                    t > 0,
                    n >= 0,
            ;
        }
        nearest_integer(n, t)
    }
}

pub fn times(a: Binary, b: Binary) -> (r: Binary)
    requires
        a.small(),
        b.small(),
    ensures
        r@ == product(a@, b@),
        r.m <= B53,
        a.m > 0 && b.m > 0 ==> r.m >= B52 && a.e + b.e - 120 <= r.e <= a.e + b.e + 72,
        a.m >= B52 && b.m >= B52 ==> a.e + b.e + 51 <= r.e <= a.e + b.e + 54,
        a.m == 0 || b.m == 0 ==> r.m == 0 && r.e == 0,
{
    proof {
        assert(a.m * b.m <= B53 * B53) by (nonlinear_arith)
            requires
                a.m <= B53,
                b.m <= B53,
        ;
        assert(a.m > 0 && b.m > 0 ==> a.m * b.m > 0) by (nonlinear_arith);
        assert(a.m == 0 || b.m == 0 ==> a.m * b.m == 0) by (nonlinear_arith);
    }
    let r = rounded(a.m as u128 * b.m as u128, 1, a.e + b.e);
    proof {
        if a.m >= B52 && b.m >= B52 {
            let n = (a.m * b.m) as nat;
            assert(n >= B52 * B52) by (nonlinear_arith)
                requires
                    n == a.m * b.m,
                    a.m >= B52,
                    b.m >= B52,
            ;
            lemma_two_values();
            lemma_two_add(52, 3);
            reveal_with_fuel(two, 4);
            assert(two(50) * 4 == two(52)) by {
                lemma_two_add(50, 2);
            }
            assert(n * 1 == n);
            assert(1 * two(50) == two(50) && 1 * two(55) == two(55));
            lemma_exponent_above(n, 1, r.e - (a.e + b.e), 50);
            lemma_exponent_below(n, 1, r.e - (a.e + b.e), 55);
        }
    }
    r
}

pub fn over(a: Binary, b: Binary) -> (r: Binary)
    requires
        a.small(),
        b.small(),
        b.m > 0,
    ensures
        r@ == quotient(a@, b@),
        r.m <= B53,
        a.m > 0 ==> r.m >= B52 && a.e - b.e - 120 <= r.e <= a.e - b.e + 72,
        a.m >= B52 && b.m >= B52 ==> a.e - b.e - 53 <= r.e <= a.e - b.e - 51,
        a.m == 0 ==> r.m == 0 && r.e == 0,
{
    let r = rounded(a.m as u128, b.m as u128, a.e - b.e);
    proof {
        if a.m >= B52 && b.m >= B52 {
            lemma_two_values();
            lemma_two_add(53, 1);
            reveal_with_fuel(two, 2);
            assert(two(50) * 4 == two(52)) by {
                lemma_two_add(50, 2);
                reveal_with_fuel(two, 3);
            }
            let n = a.m as nat;
            let d = b.m as nat;
            assert(d * 1 == d);
            assert(n * two(54) >= B53 * d) by (nonlinear_arith)
                requires
                    two(54) == 2 * B53,
                    n >= B52,
                    d <= B53,
                    2 * B52 == B53,
            ;
            lemma_exponent_above(n, d, r.e - (a.e - b.e), -54);
            assert(n * two(50) < B52 * d) by (nonlinear_arith)
                requires
                    4 * two(50) == B52,
                    n <= B53,
                    d >= B52,
                    2 * B52 == B53,
            ;
            lemma_exponent_below(n, d, r.e - (a.e - b.e), -50);
        }
    }
    r
}

/// Of two numbers with full significands, the greater has no exponent far below
/// that of the other.
pub proof fn lemma_exponents_follow(a: Binary, b: Binary)
    requires
        a.m <= B53,
        b.m >= B52,
        at_least(a@, b@),
    ensures
        a.e >= b.e - 1,
{
    if a.e < b.e - 1 {
        let t = two((b.e - a.e) as nat);
        lemma_two_values();
        lemma_two_grows(2, (b.e - a.e) as nat);
        reveal_with_fuel(two, 3);
        assert(a.m * two(0) == a.m) by (nonlinear_arith)
            requires
                two(0) == 1,
        ;
        assert(b.m * t >= B52 * 4) by (nonlinear_arith)
            requires
                b.m >= B52,
                t >= 4,
        ;
    }
}

/// A difference of two numbers stays within reach of them.
pub proof fn lemma_difference_reach(a: Binary, b: Binary, d: Binary)
    requires
        B52 <= a.m <= B53,
        B52 <= b.m <= B53,
        at_least(a@, b@),
        d.m > 0,
        fits(
            (aligned(a@, b@) - aligned(b@, a@)) as nat,
            1,
            d.e - low(a@, b@),
        ),
    ensures
        a.e - 53 <= d.e <= a.e,
        b.e - 53 <= d.e,
{
    lemma_two_values();
    let x = aligned(a@, b@);
    let y = aligned(b@, a@);
    let n = (x - y) as nat;
    let lo = low(a@, b@);
    let k = d.e - lo;
    let ta = two((a.e - lo) as nat);
    let tb = two((b.e - lo) as nat);
    if n == 0 {
        // Nothing fits zero.
        assert(0 * down(k) == 0);
        lemma_two_pos(k as nat);
        assert(B52 * (1 * up(k)) > 0);
    }
    assert(n >= 1);
    assert(two(0) == 1);
    lemma_exponent_from(n, k, 0);
    if b.e > a.e {
        // Then the one is at most twice the other, and they are next to equal.
        lemma_two_pos((b.e - lo - 1) as nat);
        assert(tb == 2 * two((b.e - lo - 1) as nat));
        assert(ta == 1);
        assert(y >= 2 * B52) by (nonlinear_arith)
            requires
                y == b.m * tb,
                b.m >= B52,
                tb >= 2,
        ;
        assert(x == a.m) by (nonlinear_arith)
            requires
                x == a.m * ta,
                ta == 1,
        ;
        assert(n == 0);
    } else {
        assert(tb == 1);
        assert(y == b.m) by (nonlinear_arith)
            requires
                y == b.m * tb,
                tb == 1,
        ;
        let g = (a.e - lo) as nat;
        lemma_two_add(53, g);
        lemma_two_pos(g);
        assert(x <= two(53 + g)) by (nonlinear_arith)
            requires
                x == a.m * ta,
                a.m <= B53,
                two(53 + g) == B53 * ta,
        ;
        assert(n < two(53 + g));
        lemma_exponent_upto(n, k, 53 + g);
        if g >= 2 {
            lemma_two_add(52, g);
            lemma_two_add(51, g);
            lemma_two_grows(53, 51 + g);
            assert(two(52 + g) == 2 * two(51 + g));
            assert(x >= two(52 + g)) by (nonlinear_arith)
                requires
                    x == a.m * ta,
                    a.m >= B52,
                    two(52 + g) == B52 * ta,
            ;
            assert(n >= two(51 + g));
            lemma_exponent_from(n, k, 51 + g);
        }
    }
}

/// One number can be brought to the exponent of the other within 128 bits.
pub open spec fn alignable(a: Binary, b: Binary) -> bool {
    &&& a.e - b.e <= 64 || a.m == 0
    &&& b.e - a.e <= 64 || b.m == 0
}

/// The significand `a` has with the exponent `e`.
fn align(a: Binary, e: i32) -> (r: u128)
    requires
        a.m <= B53,
        a.e >= e,
        -1000 <= e,
        a.e <= 1000,
        a.e - e <= 64 || a.m == 0,
    ensures
        r == a.m * two((a.e - e) as nat),
        r <= 0x20_0000_0000_0000_0000_0000_0000_0000,
{
    if a.m == 0 {
        assert(0 * two((a.e - e) as nat) == 0);
        0
    } else {
        shift_up(a.m, (a.e - e) as u32)
    }
}

pub fn plus(a: Binary, b: Binary) -> (r: Binary)
    requires
        a.small(),
        b.small(),
        alignable(a, b),
    ensures
        r@ == sum(a@, b@),
        r.m <= B53,
        r.m > 0 ==> r.m >= B52,
        r.m == 0 ==> r.e == 0,
        low(a@, b@) - 120 <= r.e <= low(a@, b@) + 72 || r.e == 0,
{
    let lo: i32 = if a.e <= b.e {
        a.e
    } else {
        b.e
    };
    let x = align(a, lo);
    let y = align(b, lo);
    rounded(x + y, 1, lo)
}

pub fn minus(a: Binary, b: Binary) -> (r: Binary)
    requires
        a.small(),
        b.small(),
        alignable(a, b),
        at_least(a@, b@),
    ensures
        r@ == difference(a@, b@),
        r.m <= B53,
        r.m > 0 ==> r.m >= B52,
        r.m == 0 ==> r.e == 0,
        low(a@, b@) - 120 <= r.e <= low(a@, b@) + 72 || r.e == 0,
        r.m > 0 ==> fits((aligned(a@, b@) - aligned(b@, a@)) as nat, 1, r.e - low(a@, b@)),
{
    let lo: i32 = if a.e <= b.e {
        a.e
    } else {
        b.e
    };
    let x = align(a, lo);
    let y = align(b, lo);
    rounded(x - y, 1, lo)
}

/// Whether `a` is at least `b`.
pub fn ge(a: Binary, b: Binary) -> (r: bool)
    requires
        a.small(),
        b.small(),
    ensures
        r == at_least(a@, b@),
{
    proof {
        lemma_two_values();
        assert(a.m * two(0) == a.m) by (nonlinear_arith)
            requires
                two(0) == 1,
        ;
        assert(b.m * two(0) == b.m) by (nonlinear_arith)
            requires
                two(0) == 1,
        ;
    }
    if a.e > b.e + 64 {
        proof {
            let t = two((a.e - b.e) as nat);
            lemma_two_grows(64, (a.e - b.e) as nat);
            assert(a.m > 0 ==> a.m * t >= t) by (nonlinear_arith);
            assert(a.m == 0 ==> a.m * t == 0) by (nonlinear_arith);
        }
        return a.m > 0 || b.m == 0;
    }
    if b.e > a.e + 64 {
        proof {
            let t = two((b.e - a.e) as nat);
            lemma_two_grows(64, (b.e - a.e) as nat);
            assert(b.m > 0 ==> b.m * t >= t) by (nonlinear_arith);
            assert(b.m == 0 ==> b.m * t == 0) by (nonlinear_arith);
        }
        return b.m == 0;
    }
    let lo: i32 = if a.e <= b.e {
        a.e
    } else {
        b.e
    };
    let x = shift_up(a.m, (a.e - lo) as u32);
    let y = shift_up(b.m, (b.e - lo) as u32);
    x >= y
}

/// The value rounded down, or the greatest 64-bit integer where that is
/// smaller.
pub fn truncated(a: Binary) -> (r: u64)
    requires
        a.small(),
    ensures
        r == to_u64(a@),
{
    proof {
        lemma_two_values();
    }
    if a.e >= 0 {
        if a.e > 64 {
            proof {
                let t = two(a.e as nat);
                lemma_two_grows(64, a.e as nat);
                assert(a.m > 0 ==> a.m * t >= t) by (nonlinear_arith);
                assert(a.m == 0 ==> a.m * t == 0) by (nonlinear_arith);
            }
            return if a.m == 0 {
                0
            } else {
                u64::MAX
            };
        }
        let x = shift_up(a.m, a.e as u32);
        if x > 0xffff_ffff_ffff_ffff {
            u64::MAX
        } else {
            x as u64
        }
    } else {
        if a.e < -60 {
            proof {
                let t = two((-a.e) as nat);
                lemma_two_grows(53, (-a.e) as nat);
                assert(a.m as nat / t == 0) by (nonlinear_arith)
                    requires
                        a.m < t,
                        t > 0,
                        a.m >= 0,
                ;
            }
            return 0;
        }
        let t = shift_up(1, (-a.e) as u32);
        proof {
            assert(1 * two((-a.e) as nat) == two((-a.e) as nat)) by (nonlinear_arith);
            lemma_two_pos((-a.e) as nat);
            assert(a.m as nat / t as nat <= a.m) by (nonlinear_arith)
                requires
                    t > 0,
                    a.m >= 0,
            ;
        }
        (a.m as u128 / t) as u64
    }
}

// --- rounding and bounds ----------------------------------------------------------

/// A value of at most `c / 2^s`.
pub open spec fn upto(a: Dyadic, c: nat, s: nat) -> bool {
    a.e <= 0 && a.m * two(s) <= c * two((-a.e) as nat)
}

proof fn lemma_half_even_upto(n: nat, d: nat, c: nat)
    requires
        d > 0,
        n <= c * d,
    ensures
        half_even(n, d) <= c,
{
    let q = n / d;
    let r = n % d;
    assert(n == q * d + r && r < d) by (nonlinear_arith)
        requires
            d > 0,
            q == n / d,
            r == n % d,
    ;
    assert(q <= c && (q == c ==> r == 0)) by (nonlinear_arith)
        requires
            n == q * d + r,
            r < d,
            n <= c * d,
            d > 0,
    ;
}

pub proof fn lemma_half_even_from(n: nat, d: nat, c: nat)
    requires
        d > 0,
        n >= c * d,
    ensures
        half_even(n, d) >= c,
{
    let q = n / d;
    assert(q >= c) by (nonlinear_arith)
        requires
            d > 0,
            q == n / d,
            n >= c * d,
    ;
}

proof fn lemma_cancel(a: nat, b: nat, t: nat)
    by (nonlinear_arith)
    requires
        a * t <= b * t,
        t > 0,
    ensures
        a <= b,
{
}

proof fn lemma_cancel_below(a: nat, b: nat, t: nat)
    by (nonlinear_arith)
    requires
        a * t < b * t,
    ensures
        a < b,
{
}

/// The exponents leave room for the bound.
proof fn lemma_room(num: nat, den: nat, e: int, c: nat, s: nat, k: int)
    requires
        den > 0,
        e <= 0,
        c < B52,
        fits(num, den, k),
        num * two(s) <= c * two((-e) as nat) * den,
    ensures
        s < -e - k,
{
    let t = two(s);
    let g = two((-e) as nat);
    let u = up(k);
    let d = down(k);
    lemma_two_pos(s);
    lemma_two_pos((-e) as nat);
    if k >= 0 {
        lemma_two_pos(k as nat);
    } else {
        lemma_two_pos((-k) as nat);
    }
    assert(B52 * (den * u) * t <= num * d * t) by (nonlinear_arith)
        requires
            B52 * (den * u) <= num * d,
    ;
    assert(num * d * t == (num * t) * d) by (nonlinear_arith);
    assert((num * t) * d <= (c * g * den) * d) by (nonlinear_arith)
        requires
            num * t <= c * g * den,
    ;
    assert((c * g * den) * d < B52 * g * den * d) by (nonlinear_arith)
        requires
            c < B52,
            g > 0,
            den > 0,
            d > 0,
    ;
    assert(B52 * (den * u) * t == (u * t) * (B52 * den)) by (nonlinear_arith);
    assert(B52 * g * den * d == (g * d) * (B52 * den)) by (nonlinear_arith);
    lemma_cancel_below(u * t, g * d, (B52 * den) as nat);
    if k >= 0 {
        lemma_two_add(k as nat, s);
        assert(g * 1 == g);
        if k + s >= -e {
            lemma_two_grows((-e) as nat, (k + s) as nat);
        }
    } else {
        lemma_two_add((-e) as nat, (-k) as nat);
        assert(1 * t == t);
        if s >= -e - k {
            lemma_two_grows((-e - k) as nat, s);
        }
    }
}

/// Rounding a value of at most `c / 2^s` does not take it past that.
pub proof fn lemma_round_upto(num: nat, den: nat, e: int, c: nat, s: nat)
    requires
        num > 0,
        den > 0,
        e <= 0,
        c < B52,
        num * two(s) <= c * two((-e) as nat) * den,
    ensures
        upto(round(num, den, e), c, s),
        round(num, den, e).m >= B52,
{
    crate::decimal::lemma_some_fit(num, den);
    let k = choose|k: int| fits(num, den, k);
    lemma_round_at(num, den, e, k);
    lemma_room(num, den, e, c, s, k);
    let t = two(s);
    let left = (-e - k - s) as nat;
    let n = num * down(k);
    let d = den * up(k);
    let most = c * two(left);
    lemma_two_pos(s);
    if k >= 0 {
        lemma_two_pos(k as nat);
    } else {
        lemma_two_pos((-k) as nat);
    }
    assert(d > 0) by (nonlinear_arith)
        requires
            den > 0,
            up(k) > 0,
            d == den * up(k),
    ;
    lemma_two_add(left, s);
    assert(n * t <= most * d * t) by {
        if k >= 0 {
            // 2^-e is 2^left * 2^s * 2^k.
            lemma_two_add((-e - k) as nat, k as nat);
            assert(num * 1 * t <= c * two(left) * (den * up(k)) * t) by (nonlinear_arith)
                requires
                    num * t <= c * two((-e) as nat) * den,
                    two((-e) as nat) == two((-e - k) as nat) * up(k),
                    two((-e - k) as nat) == two(left) * t,
            ;
        } else {
            // 2^left * 2^s is 2^-e * 2^-k.
            lemma_two_add((-e) as nat, (-k) as nat);
            assert(num * down(k) * t <= c * two(left) * (den * 1) * t) by (nonlinear_arith)
                requires
                    num * t <= c * two((-e) as nat) * den,
                    two((-e - k) as nat) == two((-e) as nat) * down(k),
                    two((-e - k) as nat) == two(left) * t,
                    down(k) > 0,
            ;
        }
    }
    lemma_cancel(n, most * d, t);
    lemma_half_even_upto(n, d, most);
    let m = half_even(n, d);
    assert(m * t <= c * two((-e - k) as nat)) by (nonlinear_arith)
        requires
            m <= c * two(left),
            two((-e - k) as nat) == two(left) * t,
    ;
    lemma_half_even_from(n, d, B52 as nat);
}

/// Rounding an integral bound's worth of value or more does not take it below
/// that bound.
pub proof fn lemma_round_from(num: nat, e: int, q: nat)
    requires
        e <= 0,
        0 < q <= B52,
        num >= q * two((-e) as nat),
    ensures
        floor(round(num, 1, e)) >= q,
{
    lemma_two_pos((-e) as nat);
    assert(num > 0) by (nonlinear_arith)
        requires
            num >= q * two((-e) as nat),
            q > 0,
            two((-e) as nat) >= 1,
    ;
    crate::decimal::lemma_some_fit(num, 1);
    let k = choose|k: int| fits(num, 1, k);
    lemma_round_at(num, 1, e, k);
    let n = num * down(k);
    let d = 1 * up(k);
    let m = half_even(n, d);
    if k >= 0 {
        lemma_two_pos(k as nat);
    }
    lemma_half_even_from(n, d, B52 as nat);
    if e + k >= 0 {
        lemma_two_pos((e + k) as nat);
        assert(m * two((e + k) as nat) >= q) by (nonlinear_arith)
            requires
                m >= B52,
                q <= B52,
                two((e + k) as nat) >= 1,
        ;
    } else {
        let g = two((-e - k) as nat);
        lemma_two_pos((-e - k) as nat);
        assert(d == up(k));
        assert(n >= (q * g) * d) by {
            if k >= 0 {
                assert(n == num) by (nonlinear_arith)
                    requires
                        n == num * down(k),
                        down(k) == 1,
                ;
                lemma_two_add((-e - k) as nat, k as nat);
                assert(q * two((-e) as nat) == (q * g) * up(k)) by (nonlinear_arith)
                    requires
                        two((-e) as nat) == g * up(k),
                ;
            } else {
                lemma_two_add((-e) as nat, (-k) as nat);
                lemma_two_pos((-k) as nat);
                assert(num * down(k) >= q * g) by (nonlinear_arith)
                    requires
                        num >= q * two((-e) as nat),
                        g == two((-e) as nat) * down(k),
                        down(k) >= 1,
                ;
                assert((q * g) * 1 == q * g);
            }
        }
        lemma_half_even_from(n, d, q * g);
        assert(m / g >= q) by (nonlinear_arith)
            requires
                m >= q * g,
                g >= 1,
        ;
    }
}

/// Integers of up to 53 bits are exact: the significand of `n` is `n` itself,
/// shifted.
pub proof fn lemma_exact(n: nat, k: nat)
    requires
        B52 <= n * two(k) < B53,
    ensures
        of_int(n) == (Dyadic { m: n * two(k), e: -(k as int) }),
{
    lemma_two_pos(k);
    assert(n > 0) by {
        if n == 0 {
            assert(0 * two(k) == 0);
        }
    }
    let j = -(k as int);
    if k == 0 {
        assert(n * down(j) == n * two(k));
    }
    assert(fits(n, 1, j)) by {
        assert(up(j) == 1);
        assert(down(j) == two(k));
    }
    lemma_round_at(n, 1, 0, j);
    assert(half_even(n * two(k), 1) == n * two(k)) by {
        assert((n * two(k)) % 1 == 0 && (n * two(k)) / 1 == n * two(k));
    }
}

// --- exact results ----------------------------------------------------------------

proof fn lemma_half_even_scaled(a: nat, b: nat, c: nat)
    requires
        b > 0,
        c > 0,
    ensures
        half_even(a * c, b * c) == half_even(a, b),
{
    let q = a / b;
    let r = a % b;
    assert(a == q * b + r && r < b) by (nonlinear_arith)
        requires
            b > 0,
            q == a / b,
            r == a % b,
    ;
    assert(a * c == q * (b * c) + r * c && r * c < b * c) by (nonlinear_arith)
        requires
            a == q * b + r,
            r < b,
            c > 0,
    ;
    vstd::arithmetic::div_mod::lemma_fundamental_div_mod_converse(
        (a * c) as int,
        (b * c) as int,
        q as int,
        (r * c) as int,
    );
    assert((2 * r < b) == (2 * (r * c) < b * c)) by (nonlinear_arith)
        requires
            c > 0,
    ;
    assert((2 * r > b) == (2 * (r * c) > b * c)) by (nonlinear_arith)
        requires
            c > 0,
    ;
}

/// Rounding goes by the value: a ratio shifted up, with the exponent shifted
/// down, rounds to the same number.
pub proof fn lemma_ratio_shift(n: nat, den: nat, t: nat, e: int)
    requires
        n > 0,
        den > 0,
    ensures
        round(n * two(t), den, e - t) == round(n, den, e),
{
    crate::decimal::lemma_some_fit(n, den);
    let k = choose|k: int| fits(n, den, k);
    let j = k + t;
    let w = two(t);
    lemma_two_pos(t);
    assert(n * w > 0) by (nonlinear_arith)
        requires
            n > 0,
            w > 0,
    ;
    lemma_two_values();
    if k >= 0 {
        lemma_two_add(k as nat, t);
        lemma_two_pos(k as nat);
        let u = up(k);
        assert(up(j) == u * w);
        assert(fits(n * w, den, j)) by (nonlinear_arith)
            requires
                B52 * (den * u) <= n * 1 < B53 * (den * u),
                up(j) == u * w,
                down(j) == 1,
                w > 0,
        ;
        assert(den * u > 0) by (nonlinear_arith)
            requires
                den > 0,
                u > 0,
        ;
        lemma_half_even_scaled(n, den * u, w);
        assert(n * w * down(j) == n * w && n * down(k) == n);
        assert(den * up(j) == den * u * w) by (nonlinear_arith)
            requires
                up(j) == u * w,
        ;
    } else if j <= 0 {
        lemma_two_add(t, (-j) as nat);
        let d = down(k);
        assert(down(j) == two((-j) as nat));
        assert(n * w * down(j) == n * d) by (nonlinear_arith)
            requires
                d == w * down(j),
        ;
        assert(up(j) == 1 && up(k) == 1);
    } else {
        lemma_two_add(j as nat, (-k) as nat);
        lemma_two_pos(j as nat);
        let u = up(j);
        let d = down(k);
        assert(w == u * d);
        assert(n * w == (n * d) * u) by (nonlinear_arith)
            requires
                w == u * d,
        ;
        assert(fits(n * w, den, j)) by (nonlinear_arith)
            requires
                B52 * (den * 1) <= n * d < B53 * (den * 1),
                n * w == (n * d) * u,
                u == up(j),
                down(j) == 1,
                u > 0,
        ;
        lemma_half_even_scaled(n * d, den, u);
        assert(n * w * down(j) == (n * d) * u && den * up(k) == den);
    }
    lemma_round_at(n, den, e, k);
    lemma_round_at(n * w, den, e - t, j);
}

pub proof fn lemma_round_shift(n: nat, t: nat, e: int)
    requires
        n > 0,
    ensures
        round(n * two(t), 1, e - t) == round(n, 1, e),
{
    lemma_ratio_shift(n, 1, t, e);
}

/// An integer of up to 53 bits, times a power of two, is exact.
pub proof fn lemma_round_exact(n: nat, e: int) -> (k: nat)
    requires
        n < B53,
    ensures
        n > 0 ==> round(n, 1, e) == (Dyadic { m: n * two(k), e: e - k }),
        n == 0 ==> k == 0,
{
    if n == 0 {
        0
    } else {
        crate::decimal::lemma_some_fit(n, 1);
        let j = choose|j: int| fits(n, 1, j);
        lemma_two_values();
        lemma_exponent_upto(n, j, 53);
        let k = (-j) as nat;
        lemma_round_at(n, 1, e, j);
        assert(up(j) == 1);
        assert(n * down(j) == n * two(k)) by {
            if j == 0 {
                assert(two(0) == 1);
            }
        }
        assert(half_even(n * two(k), 1) == n * two(k)) by {
            assert((n * two(k)) % 1 == 0 && (n * two(k)) / 1 == n * two(k));
        }
        k
    }
}

/// The number nearest to an integer of up to 53 bits is the integer.
pub proof fn lemma_int_exact(n: nat) -> (k: nat)
    requires
        n < B53,
    ensures
        of_int(n) == (Dyadic { m: n * two(k), e: -(k as int) }),
{
    let k = lemma_round_exact(n, 0);
    if n == 0 {
        assert(0 * two(0) == 0);
    }
    k
}

/// The difference of two integers of up to 53 bits is exact.
pub proof fn lemma_difference_exact(a: nat, b: nat)
    requires
        b <= a < B53,
    ensures
        at_least(of_int(a), of_int(b)),
        at_least(of_int(b), of_int(a)) == (a == b),
        difference(of_int(a), of_int(b)) == of_int((a - b) as nat),
{
    let i = lemma_int_exact(a);
    let j = lemma_int_exact(b);
    let l = if i >= j {
        i
    } else {
        j
    };
    let t = two(l);
    lemma_two_pos(l);
    assert(low(of_int(a), of_int(b)) == -(l as int));
    lemma_two_add(i, (l - i) as nat);
    lemma_two_add(j, (l - j) as nat);
    assert(a * two(i) * two((l - i) as nat) == a * t) by (nonlinear_arith)
        requires
            t == two(i) * two((l - i) as nat),
    ;
    assert(b * two(j) * two((l - j) as nat) == b * t) by (nonlinear_arith)
        requires
            t == two(j) * two((l - j) as nat),
    ;
    let d = (a - b) as nat;
    assert(a * t - b * t == d * t && a * t >= b * t && (b * t >= a * t) == (a == b))
        by (nonlinear_arith)
        requires
            d == a - b,
            a >= b,
            t > 0,
    ;
    if d > 0 {
        lemma_round_shift(d, l, 0);
    } else {
        assert(0 * t == 0);
    }
}

// --- order ------------------------------------------------------------------------

/// Two numbers compare as their significands do, once brought to an exponent
/// that neither is below.
pub proof fn lemma_at_least_from(a: Dyadic, b: Dyadic, z: int)
    requires
        z <= a.e,
        z <= b.e,
    ensures
        at_least(a, b) == (a.m * two((a.e - z) as nat) >= b.m * two((b.e - z) as nat)),
{
    let lo = low(a, b);
    let t = two((lo - z) as nat);
    lemma_two_pos((lo - z) as nat);
    lemma_two_add((a.e - lo) as nat, (lo - z) as nat);
    lemma_two_add((b.e - lo) as nat, (lo - z) as nat);
    let x = aligned(a, b);
    let y = aligned(b, a);
    assert(a.m * two((a.e - z) as nat) == x * t) by (nonlinear_arith)
        requires
            x == a.m * two((a.e - lo) as nat),
            two((a.e - z) as nat) == two((a.e - lo) as nat) * t,
    ;
    assert(b.m * two((b.e - z) as nat) == y * t) by (nonlinear_arith)
        requires
            y == b.m * two((b.e - lo) as nat),
            two((b.e - z) as nat) == two((b.e - lo) as nat) * t,
    ;
    assert((x >= y) == (x * t >= y * t)) by (nonlinear_arith)
        requires
            t > 0,
    ;
}

pub open spec fn lowest(a: Dyadic, b: Dyadic, c: Dyadic) -> int {
    if low(a, b) <= c.e {
        low(a, b)
    } else {
        c.e
    }
}

pub proof fn lemma_at_least_through(a: Dyadic, b: Dyadic, c: Dyadic)
    requires
        at_least(a, b),
        at_least(b, c),
    ensures
        at_least(a, c),
{
    let z = lowest(a, b, c);
    lemma_at_least_from(a, b, z);
    lemma_at_least_from(b, c, z);
    lemma_at_least_from(a, c, z);
}

proof fn lemma_half_even_grows(n: nat, m: nat, d: nat)
    requires
        d > 0,
        n <= m,
    ensures
        half_even(n, d) <= half_even(m, d),
{
    let q = n / d;
    let p = m / d;
    assert(q <= p) by (nonlinear_arith)
        requires
            d > 0,
            n <= m,
            q == n / d,
            p == m / d,
    ;
    if q == p {
        assert(n % d <= m % d) by (nonlinear_arith)
            requires
                d > 0,
                n <= m,
                n / d == m / d,
        ;
    }
}

/// Rounding keeps the order.
proof fn lemma_round_grows(n: nat, m: nat, den: nat, e: int)
    requires
        den > 0,
        n <= m,
    ensures
        at_least(round(m, den, e), round(n, den, e)),
{
    lemma_two_values();
    let a = round(m, den, e);
    let b = round(n, den, e);
    if n == 0 {
        assert(0 * two((b.e - low(a, b)) as nat) == 0);
    } else {
        crate::decimal::lemma_some_fit(n, den);
        crate::decimal::lemma_some_fit(m, den);
        let j = choose|j: int| fits(n, den, j);
        let k = choose|k: int| fits(m, den, k);
        lemma_round_at(n, den, e, j);
        lemma_round_at(m, den, e, k);
        if j >= 0 {
            lemma_two_pos(j as nat);
        } else {
            lemma_two_pos((-j) as nat);
        }
        if k >= 0 {
            lemma_two_pos(k as nat);
        } else {
            lemma_two_pos((-k) as nat);
        }
        assert(den * up(j) > 0 && den * up(k) > 0) by (nonlinear_arith)
            requires
                den > 0,
                up(j) > 0,
                up(k) > 0,
        ;
        if k < j {
            // Then the greater would not reach what the smaller does.
            lemma_fits_clash(n, den, k, j);
            assert(n * down(k) <= m * down(k)) by (nonlinear_arith)
                requires
                    n <= m,
            ;
        } else if k == j {
            assert(n * down(k) <= m * down(k)) by (nonlinear_arith)
                requires
                    n <= m,
            ;
            lemma_half_even_grows(n * down(k), m * down(k), den * up(k));
            assert(a.m * two(0) >= b.m * two(0)) by (nonlinear_arith)
                requires
                    a.m >= b.m,
            ;
        } else {
            lemma_half_even_from(m * down(k), den * up(k), B52 as nat);
            lemma_half_even_upto(n * down(j), den * up(j), B53 as nat);
            lemma_two_grows(0, (k - j) as nat);
            let t = two((k - j) as nat);
            assert(a.m * t >= b.m * 1) by (nonlinear_arith)
                requires
                    a.m >= B52,
                    b.m <= B53,
                    t >= 2,
                    2 * B52 == B53,
            ;
        }
    }
}

/// Rounding keeps the order of values given with different exponents.
proof fn lemma_round_ordered(n: nat, e: int, m: nat, f: int, den: nat, z: int)
    requires
        den > 0,
        z <= e,
        z <= f,
        n * two((e - z) as nat) <= m * two((f - z) as nat),
    ensures
        at_least(round(m, den, f), round(n, den, e)),
{
    let s = two((e - z) as nat);
    let t = two((f - z) as nat);
    lemma_two_pos((e - z) as nat);
    lemma_two_pos((f - z) as nat);
    lemma_round_grows(n * s, m * t, den, z);
    assert(n == 0 ==> n * s == 0) by (nonlinear_arith);
    assert(m == 0 ==> m * t == 0) by (nonlinear_arith);
    if n > 0 {
        lemma_ratio_shift(n, den, (e - z) as nat, e);
    }
    if m > 0 {
        lemma_ratio_shift(m, den, (f - z) as nat, f);
    }
}

/// The number nearest to an integer grows with it.
pub proof fn lemma_int_grows(n: nat, m: nat)
    requires
        n <= m,
    ensures
        at_least(of_int(m), of_int(n)),
{
    lemma_round_grows(n, m, 1, 0);
}

/// A quotient grows with what is divided.
pub proof fn lemma_quotient_grows(a: Dyadic, b: Dyadic, c: Dyadic)
    requires
        at_least(b, a),
        c.m > 0,
    ensures
        at_least(quotient(b, c), quotient(a, c)),
{
    let z = low(b, a);
    lemma_at_least_from(b, a, z);
    lemma_round_ordered(a.m, a.e - c.e, b.m, b.e - c.e, c.m, z - c.e);
}

/// A multiple of a number, divided by the number, is the factor.
pub proof fn lemma_quotient_of_multiple(m: nat, c: nat, e: int, k: nat)
    requires
        m > 0,
        B52 <= c * two(k) < B53,
    ensures
        round(c * m, m, e) == (Dyadic { m: c * two(k), e: e - k }),
{
    let t = two(k);
    let j = -(k as int);
    assert(c > 0) by (nonlinear_arith)
        requires
            c * t >= B52,
            c >= 0,
            t >= 0,
    ;
    assert(c * m > 0) by (nonlinear_arith)
        requires
            c > 0,
            m > 0,
    ;
    assert(down(j) == t && up(j) == 1) by {
        if k == 0 {
            assert(two(0) == 1);
        }
    }
    assert(c * m * t == c * t * m && B52 * (m * 1) <= c * t * m && c * t * m < B53 * (m * 1))
        by (nonlinear_arith)
        requires
            m > 0,
            B52 <= c * t,
            c * t < B53,
    ;
    lemma_round_at(c * m, m, e, j);
    let n = c * m * t;
    assert(n / m == c * t && n % m == 0) by (nonlinear_arith)
        requires
            n == c * t * m,
            m > 0,
    ;
}

/// A short number times a power of two, with its significand filled up.
pub proof fn lemma_round_short(c: nat, t: nat, e: int, k: nat)
    requires
        B52 <= c * two(k) < B53,
    ensures
        round(c * two(t), 1, e) == (Dyadic { m: c * two(k), e: e + t - k }),
{
    if c == 0 {
        assert(0 * two(k) == 0);
    }
    lemma_round_shift(c, t, e + t);
    lemma_quotient_of_multiple(1, c, e + t, k);
    assert(c * 1 == c);
}

/// The number nearest to an integer is within a thousandth of it, brought to any
/// exponent that neither is below.
pub proof fn lemma_int_near(n: nat, z: int)
    requires
        n > 0,
        z <= of_int(n).e,
        z <= 0,
    ensures
        1000 * (of_int(n).m * two((of_int(n).e - z) as nat)) <= 1001 * (n * two((-z) as nat)),
        1000 * (of_int(n).m * two((of_int(n).e - z) as nat)) >= 999 * (n * two((-z) as nat)),
{
    crate::decimal::lemma_some_fit(n, 1);
    let k = choose|k: int| fits(n, 1, k);
    lemma_round_at(n, 1, 0, k);
    let m = of_int(n).m;
    let w = two((-z) as nat);
    lemma_two_pos((-z) as nat);
    if k <= 0 {
        let d = two((-k) as nat);
        assert(down(k) == d && up(k) == 1);
        assert(m == n * d) by {
            assert((n * d) % 1 == 0 && (n * d) / 1 == n * d);
        }
        lemma_two_add((-k) as nat, (k - z) as nat);
        assert(m * two((k - z) as nat) == n * w) by (nonlinear_arith)
            requires
                m == n * d,
                w == d * two((k - z) as nat),
        ;
    } else {
        let u = two(k as nat);
        lemma_two_pos(k as nat);
        assert(down(k) == 1 && up(k) == u);
        assert(n * 1 == n && 1 * u == u);
        let q = n / u;
        let r = n % u;
        assert(n == q * u + r && 0 <= r < u) by (nonlinear_arith)
            requires
                q == n / u,
                r == n % u,
                u > 0,
        ;
        assert(m == q || m == q + 1);
        assert(1000 * (m * u) <= 1001 * n && 1000 * (m * u) >= 999 * n) by (nonlinear_arith)
            requires
                m == q || m == q + 1,
                n == q * u + r,
                0 <= r < u,
                0x10_0000_0000_0000 * u <= n,
        ;
        lemma_two_add(k as nat, (-z) as nat);
        assert(m * two((k - z) as nat) == (m * u) * w) by (nonlinear_arith)
            requires
                two((k - z) as nat) == u * w,
        ;
        assert(1000 * ((m * u) * w) <= 1001 * (n * w) && 1000 * ((m * u) * w) >= 999 * (n * w))
            by (nonlinear_arith)
            requires
                1000 * (m * u) <= 1001 * n,
                1000 * (m * u) >= 999 * n,
                w > 0,
        ;
    }
}

/// A product grows with its first factor.
pub proof fn lemma_product_grows(a: Dyadic, b: Dyadic, c: Dyadic)
    requires
        at_least(b, a),
    ensures
        at_least(product(b, c), product(a, c)),
{
    let z = low(b, a);
    lemma_at_least_from(b, a, z);
    let s = two((a.e - z) as nat);
    let t = two((b.e - z) as nat);
    assert((a.m * c.m) * s <= (b.m * c.m) * t) by (nonlinear_arith)
        requires
            a.m * s <= b.m * t,
    ;
    lemma_round_ordered(a.m * c.m, a.e + c.e, b.m * c.m, b.e + c.e, 1, z + c.e);
}

/// Two numbers brought to their lower exponent and from there to another.
proof fn lemma_aligned_from(a: Dyadic, b: Dyadic, z: int)
    requires
        z <= a.e,
        z <= b.e,
    ensures
        aligned(a, b) * two((low(a, b) - z) as nat) == a.m * two((a.e - z) as nat),
{
    let lo = low(a, b);
    lemma_two_add((a.e - lo) as nat, (lo - z) as nat);
    assert(a.m * two((a.e - lo) as nat) * two((lo - z) as nat) == a.m * two((a.e - z) as nat))
        by (nonlinear_arith)
        requires
            two((a.e - z) as nat) == two((a.e - lo) as nat) * two((lo - z) as nat),
    ;
}

/// A sum grows with its second term.
pub proof fn lemma_sum_grows(c: Dyadic, a: Dyadic, b: Dyadic)
    requires
        at_least(b, a),
    ensures
        at_least(sum(c, b), sum(c, a)),
{
    let z = lowest(a, b, c);
    lemma_at_least_from(b, a, z);
    lemma_aligned_from(c, a, z);
    lemma_aligned_from(a, c, z);
    lemma_aligned_from(c, b, z);
    lemma_aligned_from(b, c, z);
    let n = aligned(c, a) + aligned(a, c);
    let m = aligned(c, b) + aligned(b, c);
    let s = two((low(c, a) - z) as nat);
    let t = two((low(c, b) - z) as nat);
    assert(low(c, a) == low(a, c) && low(c, b) == low(b, c));
    assert(n * s == aligned(c, a) * s + aligned(a, c) * s) by (nonlinear_arith)
        requires
            n == aligned(c, a) + aligned(a, c),
    ;
    assert(m * t == aligned(c, b) * t + aligned(b, c) * t) by (nonlinear_arith)
        requires
            m == aligned(c, b) + aligned(b, c),
    ;
    lemma_round_ordered(n, low(c, a), m, low(c, b), 1, z);
}

/// A difference shrinks as what is taken away grows.
pub proof fn lemma_difference_shrinks(c: Dyadic, a: Dyadic, b: Dyadic)
    requires
        at_least(b, a),
        at_least(c, b),
    ensures
        at_least(difference(c, a), difference(c, b)),
{
    lemma_at_least_through(c, b, a);
    let z = lowest(a, b, c);
    lemma_at_least_from(b, a, z);
    lemma_aligned_from(c, a, z);
    lemma_aligned_from(a, c, z);
    lemma_aligned_from(c, b, z);
    lemma_aligned_from(b, c, z);
    let n = (aligned(c, b) - aligned(b, c)) as nat;
    let m = (aligned(c, a) - aligned(a, c)) as nat;
    let s = two((low(c, b) - z) as nat);
    let t = two((low(c, a) - z) as nat);
    assert(low(c, a) == low(a, c) && low(c, b) == low(b, c));
    assert(n * s == aligned(c, b) * s - aligned(b, c) * s) by (nonlinear_arith)
        requires
            n == aligned(c, b) - aligned(b, c),
    ;
    assert(m * t == aligned(c, a) * t - aligned(a, c) * t) by (nonlinear_arith)
        requires
            m == aligned(c, a) - aligned(a, c),
    ;
    lemma_round_ordered(n, low(c, b), m, low(c, a), 1, z);
}

/// What a number comes to when rounded down, by its significand at a lower
/// exponent.
proof fn lemma_floor_from(a: Dyadic, z: int)
    requires
        z <= a.e,
        z <= 0,
    ensures
        floor(a) == (a.m * two((a.e - z) as nat)) / two((-z) as nat),
{
    let d = two((-z) as nat);
    lemma_two_pos((-z) as nat);
    if a.e >= 0 {
        lemma_two_add(a.e as nat, (-z) as nat);
        let x = a.m * two(a.e as nat);
        assert(a.m * two((a.e - z) as nat) == x * d) by (nonlinear_arith)
            requires
                x == a.m * two(a.e as nat),
                two((a.e - z) as nat) == two(a.e as nat) * d,
        ;
        assert((x * d) / d == x) by (nonlinear_arith)
            requires
                d > 0,
        ;
    } else {
        let t = two((a.e - z) as nat);
        let g = two((-a.e) as nat);
        lemma_two_pos((a.e - z) as nat);
        lemma_two_pos((-a.e) as nat);
        lemma_two_add((-a.e) as nat, (a.e - z) as nat);
        vstd::arithmetic::div_mod::lemma_div_denominator((a.m * t) as int, t as int, g as int);
        assert((a.m * t) / t == a.m) by (nonlinear_arith)
            requires
                t > 0,
        ;
        assert(t * g == g * t) by (nonlinear_arith);
    }
}

/// Rounding down keeps the order.
pub proof fn lemma_floor_grows(a: Dyadic, b: Dyadic)
    requires
        at_least(b, a),
    ensures
        floor(a) <= floor(b),
        to_u64(a) <= to_u64(b),
{
    let z = if low(a, b) <= 0 {
        low(a, b)
    } else {
        0
    };
    lemma_at_least_from(b, a, z);
    lemma_floor_from(a, z);
    lemma_floor_from(b, z);
    let d = two((-z) as nat);
    lemma_two_pos((-z) as nat);
    let x = a.m * two((a.e - z) as nat);
    let y = b.m * two((b.e - z) as nat);
    assert(x / d <= y / d) by (nonlinear_arith)
        requires
            x <= y,
            d > 0,
    ;
}

} // verus!

//! What double-precision numbers are worth: the value of a number, and how far
//! arithmetic on them strays from arithmetic on values.

use crate::binary64;
use crate::binary64::Dyadic;
use vstd::prelude::*;

verus! {

/// Two to a power of either sign.
pub open spec fn scale(e: int) -> real {
    if e >= 0 {
        binary64::two(e as nat) as real
    } else {
        1real / binary64::two((-e) as nat) as real
    }
}

/// The value of a number.
pub open spec fn value(a: Dyadic) -> real {
    a.m as real * scale(a.e)
}

/// Between two multiples of a value.
pub open spec fn between(x: real, y: real, least: real, most: real) -> bool {
    least * y <= x <= most * y
}

/// A share of a value short of it by less than rounding takes away.
pub open spec fn short() -> real {
    999999999real / 1000000000real
}

/// A share of a value over it by more than rounding adds.
pub open spec fn over() -> real {
    1000000001real / 1000000000real
}

/// Within what rounding once takes away or adds.
pub open spec fn near(x: real, y: real) -> bool {
    between(x, y, short(), over())
}

proof fn lemma_scale_up(e: int)
    ensures
        scale(e) > 0real,
        scale(e + 1) == 2real * scale(e),
{
    if e >= 0 {
        binary64::lemma_two_pos(e as nat);
    } else {
        binary64::lemma_two_pos((-e) as nat);
        binary64::lemma_two_pos((-e - 1) as nat);
        let d = binary64::two((-e - 1) as nat) as real;
        assert(binary64::two((-e) as nat) as real == 2real * d);
        assert(1real / d == 2real * (1real / (2real * d)) && 1real / (2real * d) > 0real)
            by (nonlinear_arith)
            requires
                d >= 1real,
        ;
        if e == -1 {
            assert(binary64::two(0) == 1);
            assert(1real / d == d) by (nonlinear_arith)
                requires
                    d == 1real,
            ;
        }
    }
}

proof fn lemma_scale_add(a: int, b: nat)
    ensures
        scale(a + b) == scale(a) * scale(b as int),
        scale(a) > 0real,
    decreases b,
{
    lemma_scale_up(a);
    if b > 0 {
        let c = (b - 1) as nat;
        lemma_scale_add(a, c);
        lemma_scale_up(a + c);
        lemma_scale_up(c as int);
        let x = scale(a);
        let y = scale(c as int);
        assert(2real * (x * y) == x * (2real * y)) by (nonlinear_arith);
    } else {
        assert(binary64::two(0) == 1);
        let x = scale(a);
        assert(x * 1real == x) by (nonlinear_arith);
    }
}

/// Powers of two multiply as their exponents add.
pub proof fn lemma_scales(a: int, b: int)
    ensures
        scale(a + b) == scale(a) * scale(b),
        scale(a) > 0real,
        scale(b) > 0real,
        scale(0) == 1real,
{
    assert(binary64::two(0) == 1);
    lemma_scale_up(a);
    lemma_scale_up(b);
    if b >= 0 {
        lemma_scale_add(a, b as nat);
    } else {
        lemma_scale_add(a + b, (-b) as nat);
        lemma_scale_add(b, (-b) as nat);
        let x = scale(a);
        let y = scale(b);
        let z = scale(-b);
        let w = scale(a + b);
        assert(w == x * y) by (nonlinear_arith)
            requires
                x == w * z,
                y * z == 1real,
        ;
    }
}

/// The value of an aligned significand is the value.
proof fn lemma_value_from(a: Dyadic, z: int)
    requires
        z <= a.e,
    ensures
        (a.m * binary64::two((a.e - z) as nat)) as real * scale(z) == value(a),
{
    lemma_scales(a.e - z, z);
    let m = a.m as real;
    let t = binary64::two((a.e - z) as nat) as real;
    let w = scale(z);
    assert((a.m * binary64::two((a.e - z) as nat)) as real == m * t) by (nonlinear_arith)
        requires
            m == a.m as real,
            t == binary64::two((a.e - z) as nat) as real,
    ;
    assert((m * t) * w == m * (t * w)) by (nonlinear_arith);
}

/// Numbers compare as their values do.
pub proof fn lemma_at_least_value(a: Dyadic, b: Dyadic)
    ensures
        binary64::at_least(a, b) == (value(a) >= value(b)),
{
    let z = binary64::low(a, b);
    lemma_value_from(a, z);
    lemma_value_from(b, z);
    lemma_scales(z, 0);
    let x = binary64::aligned(a, b) as real;
    let y = binary64::aligned(b, a) as real;
    let w = scale(z);
    assert((x >= y) == (x * w >= y * w)) by (nonlinear_arith)
        requires
            w > 0real,
    ;
}

/// Rounding stays within one part of `2^52`.
pub proof fn lemma_round_value(num: nat, den: nat, e: int)
    requires
        den > 0,
    ensures
        near(value(binary64::round(num, den, e)), (num as real / den as real) * scale(e)),
{
    let n = num as real;
    let d = den as real;
    let w = scale(e);
    lemma_scales(e, 0);
    if num == 0 {
        assert(0real / d == 0real) by (nonlinear_arith)
            requires
                d > 0real,
        ;
        assert(0real * w == 0real) by (nonlinear_arith);
        assert(0real * scale(0) == 0real) by (nonlinear_arith);
    } else {
        crate::decimal::lemma_some_fit(num, den);
        let k = choose|k: int| binary64::fits(num, den, k);
        binary64::lemma_round_at(num, den, e, k);
        lemma_scales(e, k);
        lemma_scales(k, -k);
        let x = num * binary64::down(k);
        let y = den * binary64::up(k);
        let m = binary64::half_even(x, y);
        if k >= 0 {
            binary64::lemma_two_pos(k as nat);
        } else {
            binary64::lemma_two_pos((-k) as nat);
        }
        let u = binary64::up(k) as real;
        let v = binary64::down(k) as real;
        let s = scale(k);
        assert(u == s * v) by {
            if k < 0 {
                assert(1real == (1real / v) * v) by (nonlinear_arith)
                    requires
                        v > 0real,
                ;
            } else {
                assert(s * 1real == s) by (nonlinear_arith);
            }
        }
        let xr = x as real;
        let yr = y as real;
        assert(xr == n * v) by (nonlinear_arith)
            requires
                xr == x as real,
                x == num * binary64::down(k),
                n == num as real,
                v == binary64::down(k) as real,
        ;
        assert(yr == d * u) by (nonlinear_arith)
            requires
                yr == y as real,
                y == den * binary64::up(k),
                d == den as real,
                u == binary64::up(k) as real,
        ;
        assert(y > 0) by (nonlinear_arith)
            requires
                y == den * binary64::up(k),
                den > 0,
                binary64::up(k) > 0,
        ;
        let q = x / y;
        let r = x % y;
        assert(x == q * y + r && 0 <= r < y) by (nonlinear_arith)
            requires
                q == x / y,
                r == x % y,
                y > 0,
        ;
        assert(m == q || m == q + 1);
        assert(0x10_0000_0000_0000 * y <= x);
        let mr = m as real;
        assert(mr * yr <= xr + yr && mr * yr >= xr - yr) by {
            assert(m * y <= x + y && m * y >= x - y) by (nonlinear_arith)
                requires
                    m == q || m == q + 1,
                    x == q * y + r,
                    0 <= r < y,
            ;
            assert((m * y) as real == mr * yr) by (nonlinear_arith)
                requires
                    mr == m as real,
                    yr == y as real,
            ;
        }
        // What is meant, in the unit of the significand.
        let t = n / d;
        assert(t * d == n) by (nonlinear_arith)
            requires
                t == n / d,
                d > 0real,
        ;
        assert(t * v == xr / yr * u) by (nonlinear_arith)
            requires
                xr == n * v,
                yr == d * u,
                t * d == n,
                yr > 0real,
                u > 0real,
                d > 0real,
        ;
        // `t` is `z` units of `s`.
        let z = xr / yr;
        assert(z * yr == xr) by (nonlinear_arith)
            requires
                z == xr / yr,
                yr > 0real,
        ;
        assert(t == z * s) by (nonlinear_arith)
            requires
                t * v == z * u,
                u == s * v,
                v > 0real,
        ;
        let b = 4503599627370496real;
        assert(mr <= z + 1real && mr >= z - 1real && z >= b) by (nonlinear_arith)
            requires
                z * yr == xr,
                mr * yr <= xr + yr,
                mr * yr >= xr - yr,
                b * yr <= xr,
                yr > 0real,
        ;
        let c = w * s;
        let exact = (z * s) * w;
        let got = mr * c;
        assert(exact == z * c) by (nonlinear_arith)
            requires
                exact == (z * s) * w,
                c == w * s,
        ;
        assert(c > 0real) by (nonlinear_arith)
            requires
                c == w * s,
                w > 0real,
                s > 0real,
        ;
        lemma_real_times(z - 1real, mr, c);
        lemma_real_times(mr, z + 1real, c);
        lemma_real_times(1000000000real, z, c);
        assert((z - 1real) * c == z * c - c && (z + 1real) * c == z * c + c) by (nonlinear_arith);
        assert((999999999real / 1000000000real) * exact <= got && got <= (1000000001real
            / 1000000000real) * exact) by (nonlinear_arith)
            requires
                1000000000real * c <= exact,
                exact - c <= got <= exact + c,
        ;
    }
}

pub proof fn lemma_int_value(n: nat)
    ensures
        near(value(binary64::of_int(n)), n as real),
        value(binary64::of_int(n)) >= 0real,
        n > 0 ==> value(binary64::of_int(n)) > 0real,
{
    lemma_round_value(n, 1, 0);
    lemma_scales(0, 0);
    let x = n as real;
    assert((x / 1real) * 1real == x) by (nonlinear_arith);
    lemma_value_sign(binary64::of_int(n));
}

proof fn lemma_value_sign(a: Dyadic)
    ensures
        value(a) >= 0real,
        a.m > 0 ==> value(a) > 0real,
{
    lemma_scales(a.e, 0);
    let m = a.m as real;
    let w = scale(a.e);
    assert(m * w >= 0real && (m > 0real ==> m * w > 0real)) by (nonlinear_arith)
        requires
            m >= 0real,
            w > 0real,
    ;
}

pub proof fn lemma_product_value(a: Dyadic, b: Dyadic)
    ensures
        near(value(binary64::product(a, b)), value(a) * value(b)),
        value(binary64::product(a, b)) >= 0real,
{
    lemma_round_value(a.m * b.m, 1, a.e + b.e);
    lemma_value_sign(binary64::product(a, b));
    lemma_scales(a.e, b.e);
    let x = a.m as real;
    let y = b.m as real;
    let u = scale(a.e);
    let v = scale(b.e);
    let n = (a.m * b.m) as real;
    assert(n == x * y) by (nonlinear_arith)
        requires
            n == (a.m * b.m) as real,
            x == a.m as real,
            y == b.m as real,
    ;
    assert((n / 1real) * (u * v) == (x * u) * (y * v)) by (nonlinear_arith)
        requires
            n == x * y,
    ;
}

pub proof fn lemma_quotient_value(a: Dyadic, b: Dyadic)
    requires
        b.m > 0,
    ensures
        near(value(binary64::quotient(a, b)), value(a) / value(b)),
        value(binary64::quotient(a, b)) >= 0real,
        value(b) > 0real,
{
    lemma_round_value(a.m, b.m, a.e - b.e);
    lemma_value_sign(binary64::quotient(a, b));
    lemma_value_sign(b);
    lemma_scales(a.e - b.e, b.e);
    let x = a.m as real;
    let y = b.m as real;
    let u = scale(a.e);
    let v = scale(b.e);
    let w = scale(a.e - b.e);
    assert((x / y) * w == (x * u) / (y * v)) by (nonlinear_arith)
        requires
            u == w * v,
            y > 0real,
            v > 0real,
    ;
}

pub proof fn lemma_sum_value(a: Dyadic, b: Dyadic)
    ensures
        near(value(binary64::sum(a, b)), value(a) + value(b)),
        value(binary64::sum(a, b)) >= 0real,
{
    let z = binary64::low(a, b);
    lemma_round_value(binary64::aligned(a, b) + binary64::aligned(b, a), 1, z);
    lemma_value_sign(binary64::sum(a, b));
    lemma_value_from(a, z);
    lemma_value_from(b, z);
    let x = binary64::aligned(a, b) as real;
    let y = binary64::aligned(b, a) as real;
    let w = scale(z);
    let n = (binary64::aligned(a, b) + binary64::aligned(b, a)) as real;
    assert((n / 1real) * w == x * w + y * w) by (nonlinear_arith)
        requires
            n == x + y,
    ;
}

/// Rounding down takes away less than one.
pub proof fn lemma_floor_value(a: Dyadic)
    ensures
        binary64::floor(a) as real <= value(a) < binary64::floor(a) as real + 1real,
{
    lemma_scales(a.e, -a.e);
    if a.e >= 0 {
        let m = a.m as real;
        let t = binary64::two(a.e as nat) as real;
        assert((a.m * binary64::two(a.e as nat)) as real == m * t) by (nonlinear_arith)
            requires
                m == a.m as real,
                t == binary64::two(a.e as nat) as real,
        ;
    } else {
        let d = binary64::two((-a.e) as nat);
        binary64::lemma_two_pos((-a.e) as nat);
        let q = a.m / d;
        let r = a.m % d;
        assert(a.m == q * d + r && 0 <= r < d) by (nonlinear_arith)
            requires
                q == a.m / d,
                r == a.m % d,
                d > 0,
        ;
        let m = a.m as real;
        let dr = d as real;
        let qr = q as real;
        assert((q * d) as real == qr * dr) by (nonlinear_arith)
            requires
                qr == q as real,
                dr == d as real,
        ;
        assert(m * (1real / dr) >= qr && m * (1real / dr) < qr + 1real) by (nonlinear_arith)
            requires
                qr * dr <= m < qr * dr + dr,
                dr > 0real,
        ;
    }
}

proof fn lemma_real_times(a: real, b: real, c: real)
    requires
        a <= b,
        c >= 0real,
    ensures
        a * c <= b * c,
        c * a <= c * b,
{
    assert(a * c <= b * c && c * a <= c * b) by (nonlinear_arith)
        requires
            a <= b,
            c >= 0real,
    ;
}

/// What is between multiples of a value that is between multiples of another.
pub proof fn lemma_through(x: real, y: real, z: real, a: real, b: real, c: real, d: real)
    requires
        between(x, y, a, b),
        between(y, z, c, d),
        a >= 0real,
        b >= 0real,
    ensures
        between(x, z, a * c, b * d),
{
    lemma_real_times(c * z, y, a);
    lemma_real_times(y, d * z, b);
    assert(a * (c * z) == (a * c) * z && b * (d * z) == (b * d) * z) by (nonlinear_arith);
}

pub proof fn lemma_over(x: real, y: real, u: real, v: real, a: real, b: real, c: real, d: real)
    requires
        between(x, y, a, b),
        between(u, v, c, d),
        y >= 0real,
        v > 0real,
        a >= 0real,
        c > 0real,
        d > 0real,
    ensures
        u > 0real,
        between(x / u, y / v, a / d, b / c),
{
    assert(c * v > 0real && a * y >= 0real) by (nonlinear_arith)
        requires
            c > 0real,
            v > 0real,
            a >= 0real,
            y >= 0real,
    ;
    let p = x / u;
    let q = y / v;
    let m = a / d;
    let n = b / c;
    assert(p * u == x && q * v == y && m * d == a && n * c == b) by (nonlinear_arith)
        requires
            p == x / u,
            q == y / v,
            m == a / d,
            n == b / c,
            u > 0real,
            v > 0real,
            c > 0real,
            d > 0real,
    ;
    assert(q >= 0real && m >= 0real && p >= 0real) by (nonlinear_arith)
        requires
            q * v == y,
            y >= 0real,
            v > 0real,
            m * d == a,
            a >= 0real,
            d > 0real,
            p * u == x,
            x >= 0real,
            u > 0real,
    ;
    // (m * q) * u <= (m * q) * (d * v) == a * y <= x.
    let mq = m * q;
    assert(mq >= 0real) by (nonlinear_arith)
        requires
            mq == m * q,
            m >= 0real,
            q >= 0real,
    ;
    lemma_real_times(u, d * v, mq);
    assert(mq * (d * v) == (m * d) * (q * v)) by (nonlinear_arith)
        requires
            mq == m * q,
    ;
    lemma_real_cancel(mq, p, u);
    // p * (c * v) <= x <= b * y == (n * q) * (c * v).
    let nq = n * q;
    lemma_real_times(c * v, u, p);
    assert(nq * (c * v) == (n * c) * (q * v)) by (nonlinear_arith)
        requires
            nq == n * q,
    ;
    lemma_real_cancel(p, nq, c * v);
}

proof fn lemma_real_cancel(a: real, b: real, c: real)
    requires
        a * c <= b * c,
        c > 0real,
    ensures
        a <= b,
{
    assert(a <= b) by (nonlinear_arith)
        requires
            a * c <= b * c,
            c > 0real,
    ;
}

pub proof fn lemma_plus(x: real, y: real, u: real, v: real, a: real, b: real)
    requires
        between(x, y, a, b),
        between(u, v, a, b),
    ensures
        between(x + u, y + v, a, b),
{
    assert(a * (y + v) == a * y + a * v && b * (y + v) == b * y + b * v) by (nonlinear_arith);
}

/// Between narrower multiples is between wider ones.
pub proof fn lemma_wider(x: real, y: real, a: real, b: real, c: real, d: real)
    requires
        between(x, y, a, b),
        y >= 0real,
        c <= a,
        b <= d,
    ensures
        between(x, y, c, d),
{
    lemma_real_times(c, a, y);
    lemma_real_times(b, d, y);
}

pub proof fn lemma_difference_value(a: Dyadic, b: Dyadic)
    requires
        binary64::at_least(a, b),
    ensures
        near(value(binary64::difference(a, b)), value(a) - value(b)),
        value(binary64::difference(a, b)) >= 0real,
{
    let z = binary64::low(a, b);
    let m = (binary64::aligned(a, b) - binary64::aligned(b, a)) as nat;
    lemma_round_value(m, 1, z);
    lemma_value_sign(binary64::difference(a, b));
    lemma_value_from(a, z);
    lemma_value_from(b, z);
    let x = binary64::aligned(a, b) as real;
    let y = binary64::aligned(b, a) as real;
    let w = scale(z);
    let n = m as real;
    assert((n / 1real) * w == x * w - y * w) by (nonlinear_arith)
        requires
            n == x - y,
    ;
}

/// A number times an integer, rounded to the nearest integer, is off by no more
/// than a half.
pub proof fn lemma_scaled_value(a: Dyadic, k: nat)
    ensures
        2real * (binary64::scaled(a, k) as real) - 1real <= 2real * (value(a) * (k as real)),
        2real * (value(a) * (k as real)) <= 2real * (binary64::scaled(a, k) as real) + 1real,
{
    lemma_scales(a.e, 0);
    let n = a.m * k * binary64::up(a.e);
    let d = binary64::down(a.e);
    let m = a.m as real;
    let kr = k as real;
    let ur = binary64::up(a.e) as real;
    let dr = d as real;
    let w = scale(a.e);
    if a.e >= 0 {
        binary64::lemma_two_pos(a.e as nat);
    } else {
        binary64::lemma_two_pos((-a.e) as nat);
    }
    let x = value(a) * kr;
    assert(n as real == (m * kr) * ur) by (nonlinear_arith)
        requires
            n == a.m * k * binary64::up(a.e),
            m == a.m as real,
            kr == k as real,
            ur == binary64::up(a.e) as real,
    ;
    assert(w * dr == ur) by {
        if a.e >= 0 {
            assert(w * 1real == w) by (nonlinear_arith);
        } else {
            assert((1real / dr) * dr == 1real) by (nonlinear_arith)
                requires
                    dr > 0real,
            ;
        }
    }
    assert(x * dr == n as real) by (nonlinear_arith)
        requires
            x == (m * w) * kr,
            w * dr == ur,
            n as real == (m * kr) * ur,
    ;
    let q = n / d;
    let qr = q as real;
    assert(q * d <= n && n < q * d + d) by (nonlinear_arith)
        requires
            q == n / d,
            d > 0,
    ;
    assert((q * d) as real == qr * dr) by (nonlinear_arith)
        requires
            qr == q as real,
            dr == d as real,
    ;
    let r = n % d;
    let rr = r as real;
    assert(n == q * d + r) by (nonlinear_arith)
        requires
            q == n / d,
            r == n % d,
            d > 0,
    ;
    assert(x * dr == qr * dr + rr);
    let t = binary64::half_even(n, d);
    let tr = t as real;
    assert(t == q || t == q + 1);
    assert(t == q ==> 2 * r <= d);
    assert(t == q + 1 ==> 2 * r >= d);
    assert(2real * tr - 1real <= 2real * x && 2real * x <= 2real * tr + 1real)
        by (nonlinear_arith)
        requires
            x * dr == qr * dr + rr,
            tr == qr && 2real * rr <= dr || tr == qr + 1real && 2real * rr >= dr,
            0real <= rr,
            rr < dr,
            dr > 0real,
    ;
}

} // verus!

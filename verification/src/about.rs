//! What a rounded figure is, apart from its rounding.
//!
//! A published figure is a quotient of counts that went through a handful of
//! roundings. The laws of the library speak of the quotient, and this is what
//! they say of the double that stands for it: that it is the quotient to one part
//! in `2^48`.

use vstd::prelude::*;
use crate::big;
use crate::double;
use crate::double::Double;

verus! {

/// Whether `x` is `num / den` to within `k` parts in `2^53`.
pub open spec fn within(x: Double, num: nat, den: nat, k: nat) -> bool {
    &&& x is Finite
    &&& !x.is_negative()
    &&& (0x20_0000_0000_0000 - k) * (num * double::one_in_units()) <= 0x20_0000_0000_0000 * (
    x.magnitude() * den)
    &&& 0x20_0000_0000_0000 * (x.magnitude() * den) <= (0x20_0000_0000_0000 + k) * (num
        * double::one_in_units())
}

/// Whether `x` is `num / den` to one part in `2^48`.
pub open spec fn is_about(x: Double, num: nat, den: nat) -> bool {
    within(x, num, den, 32)
}

/// Whether a quotient is far from the ends of what doubles can hold.
pub open spec fn is_moderate(num: nat, den: nat) -> bool {
    &&& num > 0
    &&& den > 0
    &&& num <= den * big::two(200)
    &&& den <= num * big::two(200)
}

/// The powers of two that the ranges are stated with.
pub proof fn lemma_ranges()
    ensures
        big::two(200) > 0,
        big::two(256) == big::two(200) * 0x100_0000_0000_0000,
        double::one_in_units() >= big::two(200) * big::two(200) * 0x1000_0000_0000_0000_0000,
        double::one_in_units() > 0,
{
    big::lemma_two_small();
    big::lemma_two_add(200, 0);
    big::lemma_two_add(52, 4);
    reveal_with_fuel(big::two, 5);
    assert(big::two(4) == 16);
    big::lemma_two_add(200, 56);
    big::lemma_two_add(200, 200);
    big::lemma_two_add(63, 13);
    big::lemma_two_add(10, 3);
    big::lemma_two_add(400, 76);
    big::lemma_two_add(476, 598);
    big::lemma_two_add(598, 0);
    let (a, b) = (big::two(476), big::two(598));
    assert(a * b >= a) by (nonlinear_arith)
        requires
            b >= 1,
            a >= 0,
    ;
}

/// Fewer parts apart is at most more parts apart.
pub proof fn lemma_weaken(x: Double, num: nat, den: nat, k: nat, l: nat)
    requires
        within(x, num, den, k),
        k <= l,
    ensures
        within(x, num, den, l),
{
    let n = num * double::one_in_units();
    assert((0x20_0000_0000_0000 - l) * n <= (0x20_0000_0000_0000 - k) * n) by (nonlinear_arith)
        requires
            k <= l,
            n >= 0,
    ;
    assert((0x20_0000_0000_0000 + k) * n <= (0x20_0000_0000_0000 + l) * n) by (nonlinear_arith)
        requires
            k <= l,
            n >= 0,
    ;
}

/// A rounded result: `m * d` is about `n`.
proof fn lemma_rounded_once(n: nat, d: nat)
    requires
        d > 0,
        0x20_0000_0000_0000 * d <= n <= d * (double::one_in_units() * big::two(256)),
    ensures
        double::nearest(false, n, d) is Finite,
        !double::nearest(false, n, d).is_negative(),
        ({
            let m = double::nearest(false, n, d).magnitude();
            0x1f_ffff_ffff_ffff * n <= 0x20_0000_0000_0000 * (m * d) <= 0x20_0000_0000_0001 * n
        }),
{
    double::rounding_is_close(false, n, d);
}

/// The double of a count is about the count.
pub proof fn a_count_is_about_itself(n: nat)
    requires
        0 < n <= u128::MAX,
    ensures
        within(double::of(n), n, 1, 1),
{
    let u = double::one_in_units();
    lemma_ranges();
    let t = big::two(200);
    let c = big::two(256);
    big::lemma_two_small();
    big::lemma_two_add(63, 63);
    big::lemma_two_add(126, 2);
    big::lemma_two_add(128, 72);
    big::lemma_two_add(72, 0);
    reveal_with_fuel(big::two, 3);
    assert(big::two(2) == 4);
    assert(t > u128::MAX) by (nonlinear_arith)
        requires
            t == 0x1_0000_0000_0000_0000_0000_0000_0000_0000int * big::two(72),
            big::two(72) >= 1,
    ;
    assert(u >= 0x20_0000_0000_0000 && c >= t) by (nonlinear_arith)
        requires
            u >= t * t * 0x1000_0000_0000_0000_0000,
            t >= 1,
            c == t * 0x100_0000_0000_0000,
    ;
    assert(0x20_0000_0000_0000 * 1 <= n * u && n * u <= 1 * (u * c)) by (nonlinear_arith)
        requires
            1 <= n <= c,
            u >= 0x20_0000_0000_0000,
    ;
    lemma_rounded_once(n * u, 1);
}

proof fn lemma_four(a: int, b: int, c: int, d: int)
    ensures
        (a * b) * (c * d) == (a * c) * (b * d),
{
    assert((a * b) * (c * d) == (a * c) * (b * d)) by (nonlinear_arith);
}

/// Products of what is near are near.
proof fn lemma_products_near(p: int, a: int, k: int, q: int, b: int, l: int)
    requires
        0 <= a,
        0 <= b,
        0 <= p,
        0 <= q,
        0 <= k <= 30,
        0 <= l <= 30,
        (0x20_0000_0000_0000 - k) * a <= 0x20_0000_0000_0000 * p <= (0x20_0000_0000_0000 + k) * a,
        (0x20_0000_0000_0000 - l) * b <= 0x20_0000_0000_0000 * q <= (0x20_0000_0000_0000 + l) * b,
    ensures
        (0x20_0000_0000_0000 - (k + l)) * (a * b) <= 0x20_0000_0000_0000 * (p * q),
        0x20_0000_0000_0000 * (p * q) <= (0x20_0000_0000_0000 + (k + l) + 1) * (a * b),
{
    let e: int = 0x20_0000_0000_0000;
    let x = a * b;
    assert(x >= 0) by (nonlinear_arith)
        requires
            x == a * b,
            a >= 0,
            b >= 0,
    ;
    let y = p * q;
    // Both bounds, multiplied.
    assert((e * p) * (e * q) <= ((e + k) * a) * ((e + l) * b)) by (nonlinear_arith)
        requires
            0 <= e * p <= (e + k) * a,
            0 <= e * q <= (e + l) * b,
    ;
    assert(((e - k) * a) * ((e - l) * b) <= (e * p) * (e * q)) by (nonlinear_arith)
        requires
            0 <= (e - k) * a <= e * p,
            0 <= (e - l) * b <= e * q,
    ;
    assert((e * p) * (e * q) == e * (e * y)) by (nonlinear_arith)
        requires
            y == p * q,
    ;
    let (g, h) = ((e + k) * (e + l), (e - k) * (e - l));
    assert(g == e * e + (k + l) * e + k * l && h == e * e - (k + l) * e + k * l)
        by (nonlinear_arith)
        requires
            g == (e + k) * (e + l),
            h == (e - k) * (e - l),
    ;
    lemma_four(e + k, a, e + l, b);
    lemma_four(e - k, a, e - l, b);
    assert(0 <= k * l <= 900) by (nonlinear_arith)
        requires
            0 <= k <= 30,
            0 <= l <= 30,
    ;
    let s = k + l;
    let t = k * l;
    assert(g * x <= e * ((e + s + 1) * x)) by (nonlinear_arith)
        requires
            x >= 0,
            0 <= t <= 900,
            e == 0x20_0000_0000_0000,
            g == e * e + s * e + t,
    ;
    assert(e * ((e - s) * x) <= h * x) by (nonlinear_arith)
        requires
            x >= 0,
            t >= 0,
            h == e * e - s * e + t,
    ;
    assert(e * y <= (e + s + 1) * x) by (nonlinear_arith)
        requires
            e * (e * y) <= e * ((e + s + 1) * x),
            e > 0,
    ;
    assert((e - s) * x <= e * y) by (nonlinear_arith)
        requires
            e * ((e - s) * x) <= e * (e * y),
            e > 0,
    ;
}


/// What is near the same is near each other.
proof fn lemma_near_each_other(p: int, k: int, w: int, l: int, z: int)
    requires
        0 <= p,
        0 <= w,
        0 <= k <= 60,
        0 <= l <= 60,
        (0x20_0000_0000_0000 - k) * p <= 0x20_0000_0000_0000 * z <= (0x20_0000_0000_0000 + k) * p,
        (0x20_0000_0000_0000 - l) * w <= 0x20_0000_0000_0000 * z <= (0x20_0000_0000_0000 + l) * w,
    ensures
        (0x20_0000_0000_0000 - (k + l + 1)) * w <= 0x20_0000_0000_0000 * p,
        0x20_0000_0000_0000 * p <= (0x20_0000_0000_0000 + (k + l + 1)) * w,
{
    let e: int = 0x20_0000_0000_0000;
    assert((e - k) * p <= (e + l) * w);
    assert((e - l) * w <= (e + k) * p);
    assert(e * p <= (e + (k + l + 1)) * w) by (nonlinear_arith)
        requires
            (e - k) * p <= (e + l) * w,
            0 <= k <= 60,
            0 <= l <= 60,
            0 <= w,
            0 <= p,
            e == 0x20_0000_0000_0000,
    {
        assert((e - k) * (e * p) == e * ((e - k) * p));
        assert(e * ((e - k) * p) <= e * ((e + l) * w));
        assert(e * ((e + l) * w) <= (e - k) * ((e + (k + l + 1)) * w));
    }
    assert((e - (k + l + 1)) * w <= e * p) by (nonlinear_arith)
        requires
            (e - l) * w <= (e + k) * p,
            0 <= k <= 60,
            0 <= l <= 60,
            0 <= w,
            0 <= p,
            e == 0x20_0000_0000_0000,
    {
        assert((e + k) * (e * p) == e * ((e + k) * p));
        assert(e * ((e + k) * p) >= e * ((e - l) * w));
        assert(e * ((e - l) * w) >= (e + k) * ((e - (k + l + 1)) * w));
    }
}

/// Of what is near something near a third, how near the two are.
proof fn lemma_near_in_turn(p: int, k: int, q: int, l: int, r: int)
    requires
        0 <= p,
        0 <= q,
        0 <= r,
        0 <= k <= 30,
        0 <= l <= 30,
        (0x20_0000_0000_0000 - k) * q <= 0x20_0000_0000_0000 * p <= (0x20_0000_0000_0000 + k) * q,
        (0x20_0000_0000_0000 - l) * r <= 0x20_0000_0000_0000 * q <= (0x20_0000_0000_0000 + l) * r,
    ensures
        (0x20_0000_0000_0000 - (k + l + 1)) * r <= 0x20_0000_0000_0000 * p,
        0x20_0000_0000_0000 * p <= (0x20_0000_0000_0000 + (k + l + 1)) * r,
{
    let e: int = 0x20_0000_0000_0000;
    assert(e * p <= (e + (k + l + 1)) * r) by (nonlinear_arith)
        requires
            e * p <= (e + k) * q,
            e * q <= (e + l) * r,
            0 <= k <= 30,
            0 <= l <= 30,
            0 <= r,
            e == 0x20_0000_0000_0000,
    {
        assert(e * (e * p) <= e * ((e + k) * q));
        assert(e * ((e + k) * q) == (e + k) * (e * q));
        assert((e + k) * (e * q) <= (e + k) * ((e + l) * r));
        assert((e + k) * ((e + l) * r) <= e * ((e + (k + l + 1)) * r));
    }
    assert((e - (k + l + 1)) * r <= e * p) by (nonlinear_arith)
        requires
            e * p >= (e - k) * q,
            e * q >= (e - l) * r,
            0 <= k <= 30,
            0 <= l <= 30,
            0 <= r,
            e == 0x20_0000_0000_0000,
    {
        assert(e * (e * p) >= e * ((e - k) * q));
        assert(e * ((e - k) * q) == (e - k) * (e * q));
        assert((e - k) * (e * q) >= (e - k) * ((e - l) * r));
        assert((e - k) * ((e - l) * r) >= e * ((e - (k + l + 1)) * r));
    }
}


/// What a bound of a few parts comes to, roughly.
proof fn lemma_rough(p: int, a: int, k: int)
    requires
        0 <= a,
        0 <= k <= 60,
        (0x20_0000_0000_0000 - k) * a <= 0x20_0000_0000_0000 * p <= (0x20_0000_0000_0000 + k) * a,
    ensures
        a <= 2 * p,
        p <= 2 * a,
{
    let e: int = 0x20_0000_0000_0000;
    assert(a <= 2 * p) by (nonlinear_arith)
        requires
            (e - k) * a <= e * p,
            0 <= a,
            0 <= k <= 60,
            e == 0x20_0000_0000_0000,
    {
        assert(e * a <= 2 * ((e - k) * a));
    }
    assert(p <= 2 * a) by (nonlinear_arith)
        requires
            e * p <= (e + k) * a,
            0 <= a,
            0 <= k <= 60,
            e == 0x20_0000_0000_0000,
    {
        assert((e + k) * a <= 2 * (e * a));
    }
}

proof fn lemma_scaled_bounds(p: int, a: int, k: int, f: int)
    requires
        0 <= f,
        (0x20_0000_0000_0000 - k) * a <= 0x20_0000_0000_0000 * p <= (0x20_0000_0000_0000 + k) * a,
    ensures
        (0x20_0000_0000_0000 - k) * (a * f) <= 0x20_0000_0000_0000 * (p * f),
        0x20_0000_0000_0000 * (p * f) <= (0x20_0000_0000_0000 + k) * (a * f),
{
    let e: int = 0x20_0000_0000_0000;
    assert((e - k) * (a * f) <= e * (p * f)) by (nonlinear_arith)
        requires
            (e - k) * a <= e * p,
            0 <= f,
    ;
    assert(e * (p * f) <= (e + k) * (a * f)) by (nonlinear_arith)
        requires
            e * p <= (e + k) * a,
            0 <= f,
    ;
}

proof fn lemma_unscaled_bounds(p: int, a: int, k: int, f: int)
    requires
        0 < f,
        (0x20_0000_0000_0000 - k) * (a * f) <= 0x20_0000_0000_0000 * (p * f),
        0x20_0000_0000_0000 * (p * f) <= (0x20_0000_0000_0000 + k) * (a * f),
    ensures
        (0x20_0000_0000_0000 - k) * a <= 0x20_0000_0000_0000 * p <= (0x20_0000_0000_0000 + k) * a,
{
    let e: int = 0x20_0000_0000_0000;
    assert((e - k) * a <= e * p) by (nonlinear_arith)
        requires
            (e - k) * (a * f) <= e * (p * f),
            0 < f,
    ;
    assert(e * p <= (e + k) * a) by (nonlinear_arith)
        requires
            e * (p * f) <= (e + k) * (a * f),
            0 < f,
    ;
}

/// The product of two figures is about the product of what they are about.
pub proof fn a_product_is_about(
    x: Double,
    a: nat,
    b: nat,
    k: nat,
    y: Double,
    c: nat,
    d: nat,
    l: nat,
)
    requires
        within(x, a, b, k),
        within(y, c, d, l),
        b > 0,
        d > 0,
        k <= 14,
        l <= 14,
        a * c == 0 || is_moderate(a * c, b * d),
    ensures
        within(x.times(y), a * c, b * d, k + l + 3),
{
    if a * c == 0 {
        lemma_nothing_in_a_product(x, a, b, k, y, c, d, l);
    } else {
        lemma_something_in_a_product(x, a, b, k, y, c, d, l);
    }
}

/// What is about nothing is zero.
proof fn lemma_about_nothing(x: Double, b: nat, k: nat)
    requires
        within(x, 0, b, k),
        b > 0,
    ensures
        x.magnitude() == 0,
{
    let m = x.magnitude();
    assert((0x20_0000_0000_0000 + k) * (0 * double::one_in_units()) == 0) by (nonlinear_arith);
    assert(m == 0) by (nonlinear_arith)
        requires
            0x20_0000_0000_0000 * (m * b) <= 0,
            b > 0,
            m >= 0,
    ;
}

/// Zero is about nothing.
pub proof fn zero_is_about_nothing(x: Double, num: nat, den: nat, k: nat)
    requires
        x is Finite,
        !x.is_negative(),
        x.magnitude() == 0,
        num == 0,
    ensures
        within(x, num, den, k),
{
    assert((0x20_0000_0000_0000 - k) * (0 * double::one_in_units()) == 0) by (nonlinear_arith);
    assert((0x20_0000_0000_0000 + k) * (0 * double::one_in_units()) == 0) by (nonlinear_arith);
    assert(0x20_0000_0000_0000 * (0 * den) == 0) by (nonlinear_arith);
}

proof fn lemma_nothing_in_a_product(
    x: Double,
    a: nat,
    b: nat,
    k: nat,
    y: Double,
    c: nat,
    d: nat,
    l: nat,
)
    requires
        within(x, a, b, k),
        within(y, c, d, l),
        b > 0,
        d > 0,
        a * c == 0,
    ensures
        within(x.times(y), a * c, b * d, k + l + 3),
{
    assert(a == 0 || c == 0) by (nonlinear_arith)
        requires
            a * c == 0,
    ;
    if a == 0 {
        lemma_about_nothing(x, b, k);
    } else {
        lemma_about_nothing(y, d, l);
    }
    lemma_ranges();
    assert(x.magnitude() * y.magnitude() == 0) by (nonlinear_arith)
        requires
            x.magnitude() == 0 || y.magnitude() == 0,
    ;
    double::nothing_over_something(false, double::one_in_units());
    zero_is_about_nothing(x.times(y), a * c, b * d, k + l + 3);
}

proof fn lemma_something_in_a_product(
    x: Double,
    a: nat,
    b: nat,
    k: nat,
    y: Double,
    c: nat,
    d: nat,
    l: nat,
)
    requires
        within(x, a, b, k),
        within(y, c, d, l),
        b > 0,
        d > 0,
        k <= 14,
        l <= 14,
        is_moderate(a * c, b * d),
    ensures
        within(x.times(y), a * c, b * d, k + l + 3),
{
    lemma_ranges();
    let u = double::one_in_units() as int;
    let t = big::two(200) as int;
    let (m, n) = (x.magnitude() as int, y.magnitude() as int);
    let (p, q) = (m * b, n * d);
    let (f, g) = (a * u, c * u);
    assert(f >= 0 && g >= 0 && p >= 0 && q >= 0) by (nonlinear_arith)
        requires
            f == a * u,
            g == c * u,
            p == m * b,
            q == n * d,
            a >= 0,
            c >= 0,
            u > 0,
            m >= 0,
            n >= 0,
            b >= 0,
            d >= 0,
    ;
    lemma_products_near(p, f, k as int, q, g, l as int);
    let s = (k + l + 1) as int;
    assert((0x20_0000_0000_0000 - s) * (f * g) <= (0x20_0000_0000_0000 - (k + l)) * (f * g)) by {
        assert(f * g >= 0) by (nonlinear_arith)
            requires
                f >= 0,
                g >= 0,
        ;
        lemma_less(f * g, s, (k + l) as int);
    }
    // The product of the two magnitudes, times the two denominators.
    let mn = m * n;
    let bd = (b * d) as int;
    let ac = (a * c) as int;
    lemma_four(m, b as int, n, d as int);
    lemma_four(a as int, u, c as int, u);
    let uu = u * u;
    assert(p * q == mn * bd);
    assert(f * g == ac * uu);
    lemma_rough(mn * bd, ac * uu, s);
    assert(0x20_0000_0000_0000 * u <= mn && mn <= u * (u * big::two(256))) by {
        assert(uu <= mn * (4 * t)) by (nonlinear_arith)
            requires
                ac * uu <= 2 * (mn * bd),
                bd <= ac * t,
                ac > 0,
                bd > 0,
                mn >= 0,
                t > 0,
                uu >= 0,
        {
            assert(mn * bd <= mn * (ac * t));
            assert(mn * (ac * t) == ac * (mn * t));
            assert(ac * uu <= ac * (2 * (mn * t)));
        }
        assert(mn <= uu * (4 * t)) by (nonlinear_arith)
            requires
                mn * bd <= 2 * (ac * uu),
                ac <= bd * t,
                bd > 0,
                uu >= 0,
                t > 0,
        {
            assert(ac * uu <= (bd * t) * uu);
            assert((bd * t) * uu == bd * (t * uu));
            assert(mn * bd == bd * mn);
            assert(bd * mn <= bd * (2 * (t * uu)));
        }
        assert(0x20_0000_0000_0000 * u <= mn) by (nonlinear_arith)
            requires
                uu <= mn * (4 * t),
                uu == u * u,
                u >= t * t * 0x1000_0000_0000_0000_0000,
                t >= 1,
                mn >= 0,
        {
            assert(t * t * 0x1000_0000_0000_0000_0000 >= (4 * t) * 0x20_0000_0000_0000);
            assert(u * u >= u * ((4 * t) * 0x20_0000_0000_0000));
            assert((4 * t) * (0x20_0000_0000_0000 * u) <= (4 * t) * mn);
        }
        assert(mn <= u * (u * big::two(256))) by (nonlinear_arith)
            requires
                mn <= uu * (4 * t),
                uu == u * u,
                big::two(256) == t * 0x100_0000_0000_0000,
                u > 0,
                t > 0,
        {
            assert(uu * (4 * t) <= uu * (t * 0x100_0000_0000_0000));
            assert(u * (u * (t * 0x100_0000_0000_0000)) == uu * (t * 0x100_0000_0000_0000));
        }
    }
    assert(mn >= 0) by (nonlinear_arith)
        requires
            mn == m * n,
            m >= 0,
            n >= 0,
    ;
    lemma_rounded_once(mn as nat, u as nat);
    let z = x.times(y).magnitude() as int;
    lemma_scaled_bounds(z * u, mn, 1, bd);
    assert(mn * bd >= 0 && (z * u) * bd >= 0 && ac * uu >= 0) by (nonlinear_arith)
        requires
            mn >= 0,
            bd > 0,
            z >= 0,
            u > 0,
            ac > 0,
            uu == u * u,
    ;
    lemma_near_in_turn((z * u) * bd, 1, mn * bd, s, ac * uu);
    assert((z * u) * bd == (z * bd) * u && ac * uu == (ac * u) * u) by (nonlinear_arith)
        requires
            uu == u * u,
    ;
    lemma_unscaled_bounds(z * bd, ac * u, s + 2, u);
}

proof fn lemma_less(x: int, s: int, t: int)
    requires
        x >= 0,
        s >= t,
    ensures
        (0x20_0000_0000_0000 - s) * x <= (0x20_0000_0000_0000 - t) * x,
{
    assert((0x20_0000_0000_0000 - s) * x <= (0x20_0000_0000_0000 - t) * x) by (nonlinear_arith)
        requires
            x >= 0,
            s >= t,
    ;
}

/// The quotient of two figures is about the quotient of what they are about.
pub proof fn a_quotient_is_about(
    x: Double,
    a: nat,
    b: nat,
    k: nat,
    y: Double,
    c: nat,
    d: nat,
    l: nat,
)
    requires
        within(x, a, b, k),
        within(y, c, d, l),
        b > 0,
        d > 0,
        c > 0,
        k <= 25,
        l <= 25,
        a == 0 || is_moderate(a * d, b * c),
    ensures
        within(x.over(y), a * d, b * c, k + l + 4),
{
    if a == 0 {
        lemma_about_nothing(x, b, k);
        lemma_something(y, c, d, l);
        assert(0 * double::one_in_units() == 0 && 0 * d == 0) by (nonlinear_arith);
        double::nothing_over_something(false, y.magnitude());
        zero_is_about_nothing(x.over(y), a * d, b * c, k + l + 4);
    } else {
        lemma_something_over_something(x, a, b, k, y, c, d, l);
    }
}

/// What is about something is not zero.
pub proof fn lemma_something(x: Double, a: nat, b: nat, k: nat)
    requires
        within(x, a, b, k),
        a > 0,
        b > 0,
        k <= 60,
    ensures
        x.magnitude() > 0,
        Double::zero(false).lt(x),
{
    lemma_ranges();
    let m = x.magnitude();
    let f = a * double::one_in_units();
    assert(f > 0) by (nonlinear_arith)
        requires
            f == a * double::one_in_units(),
            a > 0,
            double::one_in_units() > 0,
    ;
    lemma_rough((m * b) as int, f as int, k as int);
    assert(m > 0) by (nonlinear_arith)
        requires
            f <= 2 * (m * b),
            f > 0,
            m >= 0,
    ;
    assert(Double::zero(false).magnitude() == 0) by {
        assert(0 * big::two(0) == 0) by (nonlinear_arith);
    }
}

proof fn lemma_something_over_something(
    x: Double,
    a: nat,
    b: nat,
    k: nat,
    y: Double,
    c: nat,
    d: nat,
    l: nat,
)
    requires
        within(x, a, b, k),
        within(y, c, d, l),
        b > 0,
        d > 0,
        a > 0,
        c > 0,
        k <= 25,
        l <= 25,
        is_moderate(a * d, b * c),
    ensures
        within(x.over(y), a * d, b * c, k + l + 4),
{
    lemma_ranges();
    let u = double::one_in_units() as int;
    let t = big::two(200) as int;
    let (m, n) = (x.magnitude() as int, y.magnitude() as int);
    let (p, q) = (m * b, n * d);
    let (f, g) = (a * u, c * u);
    assert(f > 0 && g > 0) by (nonlinear_arith)
        requires
            f == a * u,
            g == c * u,
            a > 0,
            c > 0,
            u > 0,
    ;
    lemma_rough(p, f, k as int);
    lemma_rough(q, g, l as int);
    assert(n > 0) by (nonlinear_arith)
        requires
            q == n * d,
            g <= 2 * q,
            g > 0,
            n >= 0,
            d > 0,
    ;
    let ad = (a * d) as int;
    let bc = (b * c) as int;
    let mu = m * u;
    assert(0x20_0000_0000_0000 * n <= mu && mu <= n * (u * big::two(256))) by {
        // `mu * b * d` is near `a * u * u * d`, and `n * d * b` near `c * u * b`.
        let bd = (b * d) as int;
        assert(bd > 0) by (nonlinear_arith)
            requires
                bd == b * d,
                b > 0,
                d > 0,
        ;
        let left = mu * bd;
        let right = n * bd;
        assert(left == p * (u * d) && right == q * b) by (nonlinear_arith)
            requires
                left == mu * bd,
                right == n * bd,
                mu == m * u,
                bd == b * d,
                p == m * b,
                q == n * d,
        ;
        let w = u * u * ad;
        let v = u * bc;
        assert(w <= 2 * left && left <= 2 * w) by (nonlinear_arith)
            requires
                left == p * (u * d),
                f <= 2 * p,
                p <= 2 * f,
                f == a * u,
                w == u * u * ad,
                ad == a * d,
                u > 0,
                d > 0,
        {
            assert(f * (u * d) == w);
            assert(f * (u * d) <= (2 * p) * (u * d));
            assert(p * (u * d) <= (2 * f) * (u * d));
        }
        assert(v <= 2 * right && right <= 2 * v) by (nonlinear_arith)
            requires
                right == q * b,
                g <= 2 * q,
                q <= 2 * g,
                g == c * u,
                v == u * bc,
                bc == b * c,
                b > 0,
        {
            assert(g * b == v);
            assert(g * b <= (2 * q) * b);
            assert(q * b <= (2 * g) * b);
        }
        assert(0x20_0000_0000_0000 * right <= left) by (nonlinear_arith)
            requires
                right <= 2 * v,
                w <= 2 * left,
                w == u * u * ad,
                v == u * bc,
                bc <= ad * t,
                u >= t * t * 0x1000_0000_0000_0000_0000,
                t >= 1,
                ad > 0,
        {
            assert(t * t * 0x1000_0000_0000_0000_0000 >= 4 * t * 0x20_0000_0000_0000);
            assert(u * ad >= (4 * t * 0x20_0000_0000_0000) * ad);
            assert((4 * t * 0x20_0000_0000_0000) * ad >= 4 * 0x20_0000_0000_0000 * bc);
            assert(u * (u * ad) >= u * (4 * 0x20_0000_0000_0000 * bc));
        }
        let top = u * big::two(256);
        assert(left <= top * right) by (nonlinear_arith)
            requires
                left <= 2 * w,
                v <= 2 * right,
                w == u * u * ad,
                v == u * bc,
                ad <= bc * t,
                top == u * big::two(256),
                big::two(256) == t * 0x100_0000_0000_0000,
                u > 0,
                t > 0,
                bc > 0,
        {
            assert(u * u * ad <= u * u * (bc * t));
            assert(u * u * (bc * t) == (u * t) * v);
            assert((u * t) * v <= (u * t) * (2 * right));
            assert(top * right == (u * t) * (0x100_0000_0000_0000 * right));
        }
        assert(0x20_0000_0000_0000 * n <= mu) by (nonlinear_arith)
            requires
                0x20_0000_0000_0000 * (n * bd) <= mu * bd,
                bd > 0,
        ;
        assert(mu <= n * top) by (nonlinear_arith)
            requires
                mu * bd <= top * (n * bd),
                bd > 0,
        ;
    }
    assert(mu >= 0) by (nonlinear_arith)
        requires
            mu == m * u,
            m >= 0,
            u > 0,
    ;
    lemma_rounded_once(mu as nat, n as nat);
    let z = x.over(y).magnitude() as int;
    // Everything times both denominators: on one side through the rounding and the
    // numerator, on the other through the divisor.
    let bd = b * d;
    let mid = (z * n) * bd;
    let one = mu * bd;
    let two = (ad * u) * u;
    let three = (z * bc) * u;
    lemma_scaled_bounds(z * n, mu, 1, bd as int);
    let ud = u * d;
    assert(ud >= 0 && bd > 0) by (nonlinear_arith)
        requires
            ud == u * d,
            u > 0,
            d > 0,
            b > 0,
            bd == b * d,
    ;
    lemma_scaled_bounds(p, f, k as int, ud);
    assert(p * ud == one && f * ud == two) by (nonlinear_arith)
        requires
            p == m * b,
            ud == u * d,
            one == mu * bd,
            mu == m * u,
            bd == b * d,
            f == a * u,
            two == (ad * u) * u,
            ad == a * d,
    ;
    let zb = z * b;
    assert(zb >= 0) by (nonlinear_arith)
        requires
            zb == z * b,
            z >= 0,
            b >= 0,
    ;
    lemma_scaled_bounds(q, g, l as int, zb);
    assert(q * zb == mid && g * zb == three) by (nonlinear_arith)
        requires
            q == n * d,
            zb == z * b,
            mid == (z * n) * bd,
            bd == b * d,
            g == c * u,
            three == (z * bc) * u,
            bc == b * c,
    ;
    assert(mid >= 0 && one >= 0 && two >= 0 && three >= 0) by (nonlinear_arith)
        requires
            mid == (z * n) * bd,
            one == mu * bd,
            two == (ad * u) * u,
            three == (z * bc) * u,
            z >= 0,
            n > 0,
            bd > 0,
            mu >= 0,
            ad > 0,
            u > 0,
            bc > 0,
    ;
    lemma_near_in_turn(mid, 1, one, k as int, two);
    lemma_near_each_other(three, l as int, two, (k + 2) as int, mid);
    lemma_unscaled_bounds(z * bc, ad * u, (k + l + 3) as int, u);
    lemma_weaken(x.over(y), a * d, b * c, (k + l + 3) as nat, (k + l + 4) as nat);
}


/// One quotient can be written in two ways.
pub proof fn the_same_ratio(x: Double, a: nat, b: nat, c: nat, d: nat, k: nat)
    requires
        within(x, a, b, k),
        a * d == b * c,
        b > 0,
        d > 0,
    ensures
        within(x, c, d, k),
{
    let u = double::one_in_units() as int;
    let m = x.magnitude() as int;
    lemma_scaled_bounds(m * b, a * u, k as int, d as int);
    assert((m * b) * d == (m * d) * b && (a * u) * d == (c * u) * b) by (nonlinear_arith)
        requires
            a * d == b * c,
    ;
    lemma_unscaled_bounds(m * d, c * u, k as int, b as int);
}

/// Counts of up to a hundred and ninety-two bits are far from the ends.
pub proof fn counts_are_moderate(a: nat, b: nat)
    requires
        0 < a <= 0x1_0000_0000_0000_0000_0000_0000_0000_0000_0000_0000_0000_0000,
        0 < b <= 0x1_0000_0000_0000_0000_0000_0000_0000_0000_0000_0000_0000_0000,
    ensures
        is_moderate(a, b),
{
    big::lemma_two_small();
    big::lemma_two_add(63, 1);
    big::lemma_two_add(64, 64);
    big::lemma_two_add(128, 64);
    big::lemma_two_add(192, 8);
    big::lemma_two_add(8, 0);
    let (x, y, z) = (big::two(64), big::two(128), big::two(192));
    assert(y == 0x1_0000_0000_0000_0000_0000_0000_0000_0000) by (nonlinear_arith)
        requires
            y == x * x,
            x == 0x1_0000_0000_0000_0000,
    ;
    assert(z == 0x1_0000_0000_0000_0000_0000_0000_0000_0000_0000_0000_0000_0000)
        by (nonlinear_arith)
        requires
            z == y * x,
            x == 0x1_0000_0000_0000_0000,
            y == 0x1_0000_0000_0000_0000_0000_0000_0000_0000,
    ;
    let t = big::two(200);
    assert(t >= z) by (nonlinear_arith)
        requires
            t == z * big::two(8),
            big::two(8) >= 1,
            z >= 0,
    ;
    assert(a <= b * t && b <= a * t) by (nonlinear_arith)
        requires
            0 < a <= z,
            0 < b <= z,
            t >= z,
    ;
}

/// A count as a double is about the count, also where there is nothing to count.
pub proof fn a_count(n: nat)
    requires
        n <= u128::MAX,
    ensures
        within(double::of(n), n, 1, 1),
{
    if n == 0 {
        assert(0 * double::one_in_units() == 0) by (nonlinear_arith);
        double::nothing_over_something(false, 1);
        zero_is_about_nothing(double::of(n), 0, 1, 1);
    } else {
        a_count_is_about_itself(n);
    }
}

/// A count over a count is about their quotient.
pub proof fn a_ratio_of_counts(a: nat, b: nat)
    requires
        a <= u128::MAX,
        0 < b <= u128::MAX,
    ensures
        within(double::of(a).over(double::of(b)), a, b, 6),
{
    a_count(a);
    a_count(b);
    if a > 0 {
        counts_are_moderate(a, b);
    }
    assert(a * 1 == a && 1 * b == b);
    a_quotient_is_about(double::of(a), a, 1, 1, double::of(b), b, 1, 1);
}

} // verus!

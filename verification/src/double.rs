//! Double-precision numbers.
//!
//! Every rate, share and mean that a record publishes is a double, and so is
//! every number that is read out of a text with a point in it. A finite double is
//! a whole number of units of `2^-1074`: an integer below `2^53`, doubled up to
//! 2045 times. Each operation gives the double that is nearest to the exact
//! result, the one with the even integer where two are equally near.

use vstd::prelude::*;
use crate::big;
use crate::big::Big;
use crate::text;

verus! {

/// A double-precision number.
#[derive(Clone, Copy, Debug, PartialEq, Eq, Structural)]
pub enum Double {
    /// What is no number.
    NaN,
    /// Beyond every finite number.
    Infinite {
        /// Whether it is below them.
        negative: bool,
    },
    /// A finite number.
    Finite {
        /// Whether it has a minus sign, which zero can have too.
        negative: bool,
        /// The integer that is doubled, below `2^53`.
        mantissa: u64,
        /// How often it is doubled.
        shift: u16,
    },
}

/// The exponent of the unit that every finite double is a multiple of, without
/// its minus sign.
pub const UNIT: u32 = 1074;

/// How often the integer of a double can be doubled.
pub const MAX_SHIFT: u16 = 2045;

/// The integer nearest to `a / b`, the even one where two are equally near.
pub open spec fn rounded(a: nat, b: nat) -> nat {
    let q = a / b;
    let r = a % b;
    if 2 * r > b || (2 * r == b && q % 2 == 1) {
        q + 1
    } else {
        q
    }
}

/// The least number of doublings from `k` on that brings `n / d` units below
/// `2^53`, as far as a double has them.
pub open spec fn fit(n: nat, d: nat, k: nat) -> nat
    decreases 2046 - k,
{
    if k > MAX_SHIFT || n < d * big::two(53 + k) {
        k
    } else {
        fit(n, d, k + 1)
    }
}

/// The double nearest to `n / d` units.
pub open spec fn nearest(negative: bool, n: nat, d: nat) -> Double {
    let k = fit(n, d, 0);
    if k > MAX_SHIFT {
        Double::Infinite { negative }
    } else {
        let q = rounded(n, d * big::two(k));
        if q < big::two(53) {
            Double::Finite { negative, mantissa: q as u64, shift: k as u16 }
        } else if k == MAX_SHIFT {
            Double::Infinite { negative }
        } else {
            Double::Finite { negative, mantissa: big::two(52) as u64, shift: (k + 1) as u16 }
        }
    }
}

/// The number of units in one.
pub open spec fn one_in_units() -> nat {
    big::two(UNIT as nat)
}

/// The double nearest to the natural number `n`.
pub open spec fn of(n: nat) -> Double {
    nearest(false, n * one_in_units(), 1)
}

/// The double nearest to `n / d`.
pub open spec fn quotient(n: nat, d: nat) -> Double {
    nearest(false, n * one_in_units(), d)
}

impl Double {
    /// Zero, with a minus sign where `negative` is set.
    pub open spec fn zero(negative: bool) -> Double {
        Double::Finite { negative, mantissa: 0, shift: 0 }
    }

    /// Whether the number has a minus sign.
    pub open spec fn is_negative(self) -> bool {
        match self {
            Double::NaN => false,
            Double::Infinite { negative } => negative,
            Double::Finite { negative, mantissa, shift } => negative,
        }
    }

    /// The magnitude of a finite number in units.
    pub open spec fn magnitude(self) -> nat {
        match self {
            Double::Finite { negative, mantissa, shift } => mantissa as nat * big::two(
                shift as nat,
            ),
            _ => 0,
        }
    }

    /// A finite number in units.
    pub open spec fn units(self) -> int {
        if self.is_negative() {
            -(self.magnitude() as int)
        } else {
            self.magnitude() as int
        }
    }

    /// The sum of two numbers.
    pub open spec fn plus(self, other: Double) -> Double {
        match (self, other) {
            (Double::Finite { .. }, Double::Finite { .. }) => {
                let s = self.units() + other.units();
                if s == 0 {
                    Double::zero(self.is_negative() && other.is_negative())
                } else if s < 0 {
                    nearest(true, (-s) as nat, 1)
                } else {
                    nearest(false, s as nat, 1)
                }
            },
            (Double::NaN, _) => Double::NaN,
            (_, Double::NaN) => Double::NaN,
            (Double::Infinite { negative: x }, Double::Infinite { negative: y }) => if x == y {
                self
            } else {
                Double::NaN
            },
            (Double::Infinite { .. }, _) => self,
            (_, _) => other,
        }
    }

    /// The number with the other sign.
    pub open spec fn negated(self) -> Double {
        match self {
            Double::NaN => Double::NaN,
            Double::Infinite { negative } => Double::Infinite { negative: !negative },
            Double::Finite { negative, mantissa, shift } => Double::Finite {
                negative: !negative,
                mantissa,
                shift,
            },
        }
    }

    /// The number without a sign.
    pub open spec fn unsigned(self) -> Double {
        if self.is_negative() {
            self.negated()
        } else {
            self
        }
    }

    /// The difference of two numbers.
    pub open spec fn less_by(self, other: Double) -> Double {
        self.plus(other.negated())
    }

    /// The product of two numbers.
    pub open spec fn times(self, other: Double) -> Double {
        let negative = self.is_negative() != other.is_negative();
        match (self, other) {
            (Double::Finite { .. }, Double::Finite { .. }) => nearest(
                negative,
                self.magnitude() * other.magnitude(),
                one_in_units(),
            ),
            (Double::NaN, _) => Double::NaN,
            (_, Double::NaN) => Double::NaN,
            (Double::Finite { .. }, _) => if self.magnitude() == 0 {
                Double::NaN
            } else {
                Double::Infinite { negative }
            },
            (_, Double::Finite { .. }) => if other.magnitude() == 0 {
                Double::NaN
            } else {
                Double::Infinite { negative }
            },
            (_, _) => Double::Infinite { negative },
        }
    }

    /// The quotient of two numbers.
    pub open spec fn over(self, other: Double) -> Double {
        let negative = self.is_negative() != other.is_negative();
        match (self, other) {
            (Double::Finite { .. }, Double::Finite { .. }) => if other.magnitude() == 0 {
                if self.magnitude() == 0 {
                    Double::NaN
                } else {
                    Double::Infinite { negative }
                }
            } else {
                nearest(negative, self.magnitude() * one_in_units(), other.magnitude())
            },
            (Double::NaN, _) => Double::NaN,
            (_, Double::NaN) => Double::NaN,
            (Double::Finite { .. }, _) => Double::zero(negative),
            (_, Double::Finite { .. }) => Double::Infinite { negative },
            (_, _) => Double::NaN,
        }
    }

    /// Whether the number is below `other`. What is no number is neither below
    /// nor above anything.
    pub open spec fn lt(self, other: Double) -> bool {
        match (self, other) {
            (Double::Finite { .. }, Double::Finite { .. }) => self.units() < other.units(),
            (Double::NaN, _) => false,
            (_, Double::NaN) => false,
            (Double::Infinite { negative: x }, Double::Infinite { negative: y }) => x && !y,
            (Double::Infinite { negative: x }, _) => x,
            (_, Double::Infinite { negative: y }) => !y,
        }
    }

    /// Whether the number is below `other` or the same.
    pub open spec fn le(self, other: Double) -> bool {
        self !is NaN && other !is NaN && !other.lt(self)
    }

    /// The larger of two numbers, and the other one where one is no number.
    pub open spec fn larger(self, other: Double) -> Double {
        if self is NaN || self.lt(other) {
            other
        } else {
            self
        }
    }

    /// Whether the number stands before `other`, where all have a place: minus
    /// zero before zero, and what is no number behind all others.
    pub open spec fn before(self, other: Double) -> bool {
        if self is NaN {
            false
        } else if other is NaN {
            true
        } else {
            self.lt(other) || (!other.lt(self) && self.is_negative() && !other.is_negative())
        }
    }

    /// The integer part of the magnitude of a finite number.
    pub open spec fn integer(self) -> nat {
        self.magnitude() / one_in_units()
    }

    /// The integer below a number, as far as sixty-four bits hold it; zero for
    /// what is no number.
    pub open spec fn floor(self) -> nat {
        match self {
            Double::NaN => 0,
            Double::Infinite { negative } => if negative {
                0
            } else {
                u64::MAX as nat
            },
            Double::Finite { negative, mantissa, shift } => {
                let n = self.integer();
                if negative {
                    0
                } else if n > u64::MAX {
                    u64::MAX as nat
                } else {
                    n
                }
            },
        }
    }

    /// The integer above a number, as far as sixty-four bits hold it; zero for
    /// what is no number.
    pub open spec fn ceiling(self) -> nat {
        match self {
            Double::Finite { negative, mantissa, shift } => if !negative && self.magnitude()
                % one_in_units() > 0 && self.floor() < u64::MAX {
                self.floor() + 1
            } else {
                self.floor()
            },
            _ => self.floor(),
        }
    }
}

// ---------------------------------------------------------------------------
// Rounding and arithmetic
// ---------------------------------------------------------------------------

proof fn lemma_fit_skip(n: nat, d: nat, k: nat, j: nat)
    requires
        k + j <= MAX_SHIFT + 1,
        j > 0 ==> n >= d * big::two((53 + k + j - 1) as nat),
    ensures
        fit(n, d, k) == fit(n, d, k + j),
    decreases j,
{
    if j > 0 {
        let a = big::two(53 + k);
        let b = big::two((j - 1) as nat);
        big::lemma_two_add(53 + k, (j - 1) as nat);
        big::lemma_two_add((j - 1) as nat, 1);
        assert((53 + k + j - 1) as nat == 53 + k + (j - 1) as nat);
        assert(d * (a * b) >= d * a) by (nonlinear_arith)
            requires
                b >= 1,
                a >= 0,
                d >= 0,
        ;
        assert(fit(n, d, k) == fit(n, d, k + 1));
        assert((53 + (k + 1) + (j - 1) - 1) as int == 53 + k + j - 1);
        lemma_fit_skip(n, d, k + 1, (j - 1) as nat);
    }
}

/// A division of multiples: what `p` times `n` leaves over `p` times `u` is `p` times
/// what `n` leaves over `u`.
proof fn lemma_divided(n: nat, u: nat, p: nat, q: nat, rest: nat)
    requires
        p > 0,
        u > 0,
        n * p == q * (u * p) + rest,
        rest < u * p,
    ensures
        q == n / u,
        rest == (n % u) * p,
{
    let r = n - q * u;
    assert(rest == r * p) by (nonlinear_arith)
        requires
            n * p == q * (u * p) + rest,
            r == n - q * u,
    ;
    assert(0 <= r < u) by (nonlinear_arith)
        requires
            0 <= r * p < u * p,
            p > 0,
    ;
    vstd::arithmetic::div_mod::lemma_fundamental_div_mod_converse(
        n as int,
        u as int,
        q as int,
        r,
    );
}

proof fn lemma_round_up(r: nat, u: nat, p: nat)
    requires
        p > 0,
    ensures
        (2 * (r * p) > u * p) == (2 * r > u),
        (2 * (r * p) == u * p) == (2 * r == u),
{
    assert(2 * (r * p) == (2 * r) * p) by (nonlinear_arith);
    let x = 2 * r;
    assert((x * p > u * p) == (x > u)) by (nonlinear_arith)
        requires
            p > 0,
    ;
    assert((x * p == u * p) == (x == u)) by (nonlinear_arith)
        requires
            p > 0,
    ;
}

/// The double nearest to `n / d` units.
fn nearest_of(negative: bool, n: &Big, d: &Big) -> (r: Double)
    requires
        d@ > 0,
    ensures
        r == nearest(negative, n@, d@),
{
    let mut top = d.shifted(53);
    let mut k: u16 = 0;
    let mut far = top.shifted(32);
    proof {
        big::lemma_two_small();
        assert(53 + 0 == 53nat);
        big::lemma_two_add(53, 32);
        let (x, a, b) = (d@, big::two(53), big::two(32));
        assert((x * a) * b == x * (a * b)) by (nonlinear_arith);
    }
    while k <= 2000 && !n.less(&far)
        invariant
            k <= 2032,
            top@ == d@ * big::two(53 + k as nat),
            far@ == d@ * big::two(85 + k as nat),
            fit(n@, d@, 0) == fit(n@, d@, k as nat),
        decreases 2048 - k,
    {
        proof {
            assert(d@ * big::two(85 + k as nat) >= d@ * big::two((53 + k + 32 - 1) as nat)) by {
                big::lemma_two_add((84 + k) as nat, 1);
                big::lemma_two_small();
                let x = big::two((84 + k) as nat);
                let y = d@;
                assert(y * (x * 2) >= y * x) by (nonlinear_arith);
            }
            lemma_fit_skip(n@, d@, k as nat, 32);
            big::lemma_two_add(85 + k as nat, 32);
            let (x, a, b) = (d@, big::two(85 + k as nat), big::two(32));
            assert((x * a) * b == x * (a * b)) by (nonlinear_arith);
        }
        let next = far.shifted(32);
        top = far;
        far = next;
        k = k + 32;
        proof {
            assert(85 + (k - 32) == 53 + k);
            assert(85 + (k - 32) + 32 == 85 + k);
        }
    }
    while !n.less(&top)
        invariant
            k <= MAX_SHIFT,
            top@ == d@ * big::two(53 + k as nat),
            fit(n@, d@, 0) == fit(n@, d@, k as nat),
        ensures
            k <= MAX_SHIFT,
            n@ < top@,
            top@ == d@ * big::two(53 + k as nat),
            fit(n@, d@, 0) == fit(n@, d@, k as nat),
        decreases MAX_SHIFT - k,
    {
        proof {
            assert(fit(n@, d@, k as nat) == fit(n@, d@, k as nat + 1));
        }
        if k == MAX_SHIFT {
            return Double::Infinite { negative };
        }
        proof {
            big::lemma_two_small();
            big::lemma_two_add(53 + k as nat, 1);
            let (x, a) = (d@, big::two(53 + k as nat));
            assert((x * a) * 2 == x * (a * 2)) by (nonlinear_arith);
        }
        top = top.times_plus(2, 0);
        k = k + 1;
    }
    assert(fit(n@, d@, 0) == k);
    let ghost u = d@ * big::two(k as nat);
    let ghost p = big::two(53);
    proof {
        big::lemma_two_add(53, k as nat);
        big::lemma_two_add(k as nat, 0);
        let (x, a) = (d@, big::two(k as nat));
        assert(x * (p * a) == (x * a) * p) by (nonlinear_arith);
        assert(x * a > 0) by (nonlinear_arith)
            requires
                x > 0,
                a > 0,
        ;
    }
    let mut q: u64 = 0;
    let mut rest = n.copy();
    let mut i: u32 = 0;
    assert(n@ * big::two(0) == n@) by (nonlinear_arith)
        requires
            big::two(0) == 1,
    ;
    while i < 53
        invariant
            i <= 53,
            n@ * big::two(i as nat) == q * top@ + rest@,
            rest@ < top@,
            q < big::two(i as nat),
        decreases 53 - i,
    {
        proof {
            big::lemma_two_small();
            big::lemma_two_add(i as nat, 1);
            big::lemma_two_add((i + 1) as nat, (52 - i) as nat);
            let (x, a, t, r) = (n@, big::two(i as nat), top@, rest@);
            assert(x * (a * 2) == (2 * q) * t + 2 * r) by (nonlinear_arith)
                requires
                    x * a == q * t + r,
            ;
            assert((2 * q + 1) * t == (2 * q) * t + t) by (nonlinear_arith);
            let b = big::two((52 - i) as nat);
            big::lemma_two_add((52 - i) as nat, 0);
            assert(2 * a <= big::two(53)) by (nonlinear_arith)
                requires
                    big::two(53) == (a * 2) * b,
                    b >= 1,
            ;
        }
        rest = rest.times_plus(2, 0);
        q = q * 2;
        if !rest.less(&top) {
            rest = rest.minus(&top);
            q = q + 1;
        }
        i = i + 1;
    }
    proof {
        big::lemma_two_small();
        lemma_divided(n@, u, p, q as nat, rest@);
        lemma_round_up(n@ % u, u, p);
    }
    let twice = rest.times_plus(2, 0);
    let above: bool = top.less(&twice);
    let half: bool = !above && !twice.less(&top);
    let m: u64 = if above || (half && q % 2 == 1) {
        q + 1
    } else {
        q
    };
    assert(m == rounded(n@, u));
    if m < 0x20_0000_0000_0000 {
        Double::Finite { negative, mantissa: m, shift: k }
    } else if k == MAX_SHIFT {
        Double::Infinite { negative }
    } else {
        Double::Finite { negative, mantissa: 0x10_0000_0000_0000, shift: k + 1 }
    }
}


fn one_units() -> (r: Big)
    ensures
        r@ == one_in_units(),
        r@ > 0,
{
    let r = Big::of(1).shifted(UNIT);
    proof {
        big::lemma_two_add(UNIT as nat, 0);
        assert(1 * one_in_units() == one_in_units()) by (nonlinear_arith);
    }
    r
}

proof fn lemma_product_is_zero(m: nat, k: nat)
    ensures
        (m * big::two(k) == 0) == (m == 0),
{
    big::lemma_two_add(k, 0);
    let t = big::two(k);
    assert((m * t == 0) == (m == 0)) by (nonlinear_arith)
        requires
            t > 0,
    ;
}

impl Double {
    /// The double nearest to `n`.
    pub fn of(n: u128) -> (r: Double)
        ensures
            r == of(n as nat),
    {
        Double::quotient(n, 1)
    }

    /// The double nearest to `n / d`.
    pub fn quotient(n: u128, d: u64) -> (r: Double)
        requires
            d > 0,
        ensures
            r == quotient(n as nat, d as nat),
    {
        let hi: u64 = (n / 0x1_0000_0000_0000_0000) as u64;
        let lo: u64 = (n % 0x1_0000_0000_0000_0000) as u64;
        let b = Big::of(hi).shifted(64).times_plus(1, lo);
        proof {
            big::lemma_two_small();
            big::lemma_two_add(63, 1);
            assert(hi * big::two(64) == hi * 0x1_0000_0000_0000_0000) by (nonlinear_arith)
                requires
                    big::two(64) == 0x1_0000_0000_0000_0000,
            ;
            assert(b@ == n);
        }
        nearest_of(false, &b.shifted(UNIT), &Big::of(d))
    }

    /// Zero.
    pub fn nothing() -> (r: Double)
        ensures
            r == Double::zero(false),
    {
        Double::Finite { negative: false, mantissa: 0, shift: 0 }
    }

    fn negative(&self) -> (r: bool)
        ensures
            r == self.is_negative(),
    {
        match *self {
            Double::NaN => false,
            Double::Infinite { negative } => negative,
            Double::Finite { negative, mantissa, shift } => negative,
        }
    }

    fn none(&self) -> (r: bool)
        ensures
            r == (self.magnitude() == 0),
    {
        match *self {
            Double::Finite { negative, mantissa, shift } => {
                proof {
                    lemma_product_is_zero(mantissa as nat, shift as nat);
                }
                mantissa == 0
            },
            _ => true,
        }
    }

    fn size(&self) -> (r: Big)
        ensures
            r@ == self.magnitude(),
    {
        match *self {
            Double::Finite { negative, mantissa, shift } => Big::of(mantissa).shifted(
                shift as u32,
            ),
            _ => Big::of(0),
        }
    }

    /// The sum of two numbers.
    pub fn add_to(self, other: Double) -> (r: Double)
        ensures
            r == self.plus(other),
    {
        match (self, other) {
            (Double::NaN, _) => Double::NaN,
            (_, Double::NaN) => Double::NaN,
            (Double::Infinite { negative: x }, Double::Infinite { negative: y }) => if x == y {
                self
            } else {
                Double::NaN
            },
            (Double::Infinite { negative: x }, _) => self,
            (_, Double::Infinite { negative: y }) => other,
            (
                Double::Finite { negative: x, mantissa: m, shift: k },
                Double::Finite { negative: y, mantissa: n, shift: l },
            ) => {
                let a = self.size();
                let b = other.size();
                let one = Big::of(1);
                if x == y {
                    if self.none() && other.none() {
                        return Double::Finite { negative: x, mantissa: 0, shift: 0 };
                    }
                    // The smaller shift is zero against the larger one, so that only
                    // one of the two is brought up.
                    let sum = if k >= l {
                        proof {
                            big::lemma_two_add((k - l) as nat, l as nat);
                            let (p, q, t) = (m as nat, n as nat, big::two(l as nat));
                            let d = big::two((k - l) as nat);
                            assert((p * d * 1 + q) * t == p * (d * t) + q * t) by (nonlinear_arith);
                        }
                        Big::of(m).shifted((k - l) as u32).times_plus(1, n).shifted(l as u32)
                    } else {
                        proof {
                            big::lemma_two_add((l - k) as nat, k as nat);
                            let (p, q, t) = (n as nat, m as nat, big::two(k as nat));
                            let d = big::two((l - k) as nat);
                            assert((p * d * 1 + q) * t == p * (d * t) + q * t) by (nonlinear_arith);
                        }
                        Big::of(n).shifted((l - k) as u32).times_plus(1, m).shifted(k as u32)
                    };
                    assert(sum@ == a@ + b@);
                    nearest_of(x, &sum, &one)
                } else if a.less(&b) {
                    nearest_of(y, &b.minus(&a), &one)
                } else if b.less(&a) {
                    nearest_of(x, &a.minus(&b), &one)
                } else {
                    Double::Finite { negative: false, mantissa: 0, shift: 0 }
                }
            },
        }
    }

    /// The number with the other sign.
    pub fn negate(self) -> (r: Double)
        ensures
            r == self.negated(),
    {
        match self {
            Double::NaN => Double::NaN,
            Double::Infinite { negative } => Double::Infinite { negative: !negative },
            Double::Finite { negative, mantissa, shift } => Double::Finite {
                negative: !negative,
                mantissa,
                shift,
            },
        }
    }

    /// The number without a sign.
    pub fn abs(self) -> (r: Double)
        ensures
            r == self.unsigned(),
    {
        if self.negative() {
            self.negate()
        } else {
            self
        }
    }

    /// The difference of two numbers.
    pub fn take(self, other: Double) -> (r: Double)
        ensures
            r == self.less_by(other),
    {
        self.add_to(other.negate())
    }

    /// The product of two numbers.
    pub fn multiply(self, other: Double) -> (r: Double)
        ensures
            r == self.times(other),
    {
        let negative = self.negative() != other.negative();
        match (self, other) {
            (Double::NaN, _) => Double::NaN,
            (_, Double::NaN) => Double::NaN,
            (
                Double::Finite { negative: x, mantissa: m, shift: k },
                Double::Finite { negative: y, mantissa: n, shift: l },
            ) => {
                let both = Big::of(m).times_plus(n, 0).shifted(k as u32).shifted(l as u32);
                proof {
                    let (p, q) = (m as nat, n as nat);
                    let (s, t) = (big::two(k as nat), big::two(l as nat));
                    assert(((p * q + 0) * s) * t == (p * s) * (q * t)) by (nonlinear_arith);
                }
                nearest_of(negative, &both, &one_units())
            },
            (Double::Finite { negative: x, mantissa: m, shift: k }, _) => if self.none() {
                Double::NaN
            } else {
                Double::Infinite { negative }
            },
            (_, Double::Finite { negative: y, mantissa: n, shift: l }) => if other.none() {
                Double::NaN
            } else {
                Double::Infinite { negative }
            },
            (_, _) => Double::Infinite { negative },
        }
    }

    /// The quotient of two numbers.
    pub fn divide(self, other: Double) -> (r: Double)
        ensures
            r == self.over(other),
    {
        let negative = self.negative() != other.negative();
        match (self, other) {
            (Double::NaN, _) => Double::NaN,
            (_, Double::NaN) => Double::NaN,
            (
                Double::Finite { negative: x, mantissa: m, shift: k },
                Double::Finite { negative: y, mantissa: n, shift: l },
            ) => {
                if other.none() {
                    if self.none() {
                        return Double::NaN;
                    }
                    return Double::Infinite { negative };
                }
                nearest_of(negative, &self.size().shifted(UNIT), &other.size())
            },
            (Double::Finite { negative: x, mantissa: m, shift: k }, _) => Double::Finite {
                negative,
                mantissa: 0,
                shift: 0,
            },
            (_, Double::Finite { negative: y, mantissa: n, shift: l }) => Double::Infinite {
                negative,
            },
            (_, _) => Double::NaN,
        }
    }

    /// Whether the number is below `other`.
    pub fn below(self, other: Double) -> (r: bool)
        ensures
            r == self.lt(other),
    {
        match (self, other) {
            (Double::NaN, _) => false,
            (_, Double::NaN) => false,
            (Double::Infinite { negative: x }, Double::Infinite { negative: y }) => x && !y,
            (Double::Infinite { negative: x }, _) => x,
            (_, Double::Infinite { negative: y }) => !y,
            (
                Double::Finite { negative: x, mantissa: m, shift: k },
                Double::Finite { negative: y, mantissa: n, shift: l },
            ) => {
                let a = self.size();
                let b = other.size();
                if x && y {
                    b.less(&a)
                } else if x {
                    !(self.none() && other.none())
                } else if y {
                    false
                } else {
                    a.less(&b)
                }
            },
        }
    }

    /// Whether the number is below `other` or the same.
    pub fn at_most(self, other: Double) -> (r: bool)
        ensures
            r == self.le(other),
    {
        match (self, other) {
            (Double::NaN, _) => false,
            (_, Double::NaN) => false,
            (_, _) => !other.below(self),
        }
    }

    /// The larger of two numbers.
    pub fn max_with(self, other: Double) -> (r: Double)
        ensures
            r == self.larger(other),
    {
        match self {
            Double::NaN => other,
            _ => if self.below(other) {
                other
            } else {
                self
            },
        }
    }

    /// Whether the number stands before `other`, where all have a place.
    pub fn precedes(self, other: Double) -> (r: bool)
        ensures
            r == self.before(other),
    {
        match (self, other) {
            (Double::NaN, _) => false,
            (_, Double::NaN) => true,
            (_, _) => self.below(other) || (!other.below(self) && self.negative()
                && !other.negative()),
        }
    }

    /// The integer below the number, as far as sixty-four bits hold it.
    pub fn whole(self) -> (r: u64)
        ensures
            r == self.floor(),
    {
        match self {
            Double::NaN => 0,
            Double::Infinite { negative } => if negative {
                0
            } else {
                u64::MAX
            },
            Double::Finite { negative, mantissa, shift } => {
                if negative {
                    return 0;
                }
                match self.size().lowered(UNIT).within(u64::MAX) {
                    Some(n) => n,
                    None => u64::MAX,
                }
            },
        }
    }

    /// The integer above the number, as far as sixty-four bits hold it.
    pub fn ceil(self) -> (r: u64)
        ensures
            r == self.ceiling(),
    {
        let n: u64 = self.whole();
        match self {
            Double::Finite { negative, mantissa, shift } => {
                if negative || n == u64::MAX {
                    return n;
                }
                let size = self.size();
                let floor = Big::of(n).shifted(UNIT);
                proof {
                    big::lemma_two_add(UNIT as nat, 0);
                    vstd::arithmetic::div_mod::lemma_fundamental_div_mod(
                        size@ as int,
                        one_in_units() as int,
                    );
                    let o = one_in_units();
                    assert(n * o == o * n) by (nonlinear_arith);
                }
                if floor.less(&size) {
                    n + 1
                } else {
                    n
                }
            },
            _ => n,
        }
    }
}


// ---------------------------------------------------------------------------
// Numbers as they are written
// ---------------------------------------------------------------------------

/// The last `digits` decimal digits of `n`.
pub open spec fn padded(n: nat, digits: nat) -> Seq<char>
    decreases digits,
{
    if digits == 0 {
        Seq::empty()
    } else {
        padded(n / 10, (digits - 1) as nat).push(text::digit_char(n % 10))
    }
}

/// `a / b` in decimal with `digits` digits after the point.
pub open spec fn fixed(a: nat, b: nat, digits: nat) -> Seq<char> {
    let scale = big::ten(digits);
    let q = rounded(a * scale, b);
    if digits == 0 {
        text::decimal(q)
    } else {
        text::decimal(q / scale) + seq!['.'] + padded(q % scale, digits)
    }
}

impl Double {
    /// The number with `digits` digits after the point.
    pub open spec fn fixed(self, digits: nat) -> Seq<char> {
        match self {
            Double::NaN => "NaN"@,
            Double::Infinite { negative } => if negative {
                "-inf"@
            } else {
                "inf"@
            },
            Double::Finite { negative, mantissa, shift } => if negative {
                seq!['-'] + fixed(self.magnitude(), one_in_units(), digits)
            } else {
                fixed(self.magnitude(), one_in_units(), digits)
            },
        }
    }
}

/// The most digits after the point that [`Double::to_fixed`] writes.
pub const FIXED_DIGITS: u32 = 3;

fn push_padded(out: &mut String, n: u64, digits: u32)
    ensures
        final(out)@ == old(out)@ + padded(n as nat, digits as nat),
    decreases digits,
{
    if digits == 0 {
        assert(out@ =~= old(out)@ + padded(n as nat, 0));
    } else {
        push_padded(out, n / 10, digits - 1);
        let d: u8 = (n % 10) as u8;
        out.push((48u8 + d) as char);
        assert(out@ =~= old(out)@ + padded(n as nat, digits as nat));
    }
}

fn power(digits: u32) -> (p: u64)
    requires
        digits <= FIXED_DIGITS,
    ensures
        p == big::ten(digits as nat),
        1 <= p <= 1000,
{
    proof {
        reveal_with_fuel(big::ten, 4);
    }
    if digits == 0 {
        1
    } else if digits == 1 {
        10
    } else if digits == 2 {
        100
    } else {
        1000
    }
}

fn push_big(out: &mut String, n: &Big)
    ensures
        final(out)@ == old(out)@ + text::decimal(n@),
    decreases n@,
{
    let (q, r): (Big, u64) = n.over(10);
    match n.within(9) {
        Some(d) => {
            out.push((48u8 + d as u8) as char);
        },
        None => {
            push_big(out, &q);
            out.push((48u8 + r as u8) as char);
        },
    }
    assert(out@ =~= old(out)@ + text::decimal(n@));
}

fn rounded_of(a: &Big, b: &Big) -> (r: Big)
    requires
        b@ > 0,
    ensures
        r@ == rounded(a@, b@),
{
    let (q, rest) = a.divided(b);
    let twice = rest.times_plus(2, 0);
    let above: bool = b.less(&twice);
    let half: bool = !above && !twice.less(b);
    if above || (half && q.over(2).1 == 1) {
        q.times_plus(1, 1)
    } else {
        q
    }
}

impl Double {
    /// The number with `digits` digits after the point.
    pub fn to_fixed(self, digits: u32) -> (s: String)
        requires
            digits <= FIXED_DIGITS,
        ensures
            s@ == self.fixed(digits as nat),
    {
        match self {
            Double::NaN => "NaN".to_owned(),
            Double::Infinite { negative } => if negative {
                "-inf".to_owned()
            } else {
                "inf".to_owned()
            },
            Double::Finite { negative, mantissa, shift } => {
                let scale: u64 = power(digits);
                let q = rounded_of(&self.size().times_plus(scale, 0), &one_units());
                let mut s = String::new();
                if negative {
                    s.push('-');
                }
                let ghost sign = s@;
                assert(sign =~= if negative {
                    seq!['-']
                } else {
                    Seq::empty()
                });
                let (w, p): (Big, u64) = q.over(scale);
                push_big(&mut s, &w);
                if digits == 0 {
                    proof {
                        assert(q@ / 1 == q@);
                    }
                } else {
                    s.push('.');
                    push_padded(&mut s, p, digits);
                }
                assert(s@ =~= sign + fixed(self.magnitude(), one_in_units(), digits as nat));
                assert(s@ =~= self.fixed(digits as nat));
                s
            },
        }
    }
}


/// The double nearest to `n * 10^k`, with a minus sign where `negative` is set.
pub open spec fn scaled(negative: bool, n: nat, k: int) -> Double {
    if k >= 0 {
        nearest(negative, n * big::ten(k as nat) * one_in_units(), 1)
    } else {
        nearest(negative, n * one_in_units(), big::ten((-k) as nat))
    }
}

/// What follows a leading sign of `s`.
pub open spec fn unsigned_part(s: Seq<char>) -> Seq<char> {
    if s.len() > 0 && (s[0] == '+' || s[0] == '-') {
        s.skip(1)
    } else {
        s
    }
}

/// What stands before an exponent marker, and the exponent.
pub open spec fn exponent_split(s: Seq<char>) -> Option<(Seq<char>, int)> {
    match text::split_once(text::ascii_lower(s), "e"@) {
        None => Some((s, 0)),
        Some((head, tail)) => {
            let digits = unsigned_part(tail);
            if digits.len() == 0 || !text::all_digits(digits, 10) {
                None
            } else if tail[0] == '-' {
                Some((s.take(head.len() as int), -(text::digits_value(digits, 10) as int)))
            } else {
                Some((s.take(head.len() as int), text::digits_value(digits, 10) as int))
            }
        },
    }
}

/// The whole and the fractional digits of a number without exponent.
pub open spec fn point_split(s: Seq<char>) -> (Seq<char>, Seq<char>) {
    match text::split_once(s, "."@) {
        Some((a, b)) => (a, b),
        None => (s, Seq::empty()),
    }
}

/// How far from its digits the point of a number may stand before the number is
/// infinite, or nothing.
pub const FAR: i128 = 400;

/// The double nearest to the number that `digits` write times `10^e`.
pub open spec fn of_digits(negative: bool, digits: Seq<char>, e: int) -> Double {
    let m = text::digits_value(digits, 10);
    if m == 0 || digits.len() + e < -FAR {
        Double::zero(negative)
    } else if e > FAR {
        Double::Infinite { negative }
    } else {
        scaled(negative, m, e)
    }
}

/// The number that `s` writes: an optional sign, and a word for infinity or for
/// no number, or any digits with at most one point among them and an optional
/// exponent.
pub open spec fn parse(s: Seq<char>) -> Option<Double> {
    let body = unsigned_part(s);
    let negative = s.len() > 0 && s[0] == '-';
    let word = text::ascii_lower(body);
    if word == "nan"@ {
        Some(Double::NaN)
    } else if word == "inf"@ || word == "infinity"@ {
        Some(Double::Infinite { negative })
    } else {
        match exponent_split(body) {
            None => None,
            Some((mantissa, e)) => {
                let (a, b) = point_split(mantissa);
                if (a + b).len() > 0 && text::all_digits(a + b, 10) {
                    Some(of_digits(negative, a + b, e - b.len()))
                } else {
                    None
                }
            },
        }
    }
}

/// Why `s` is no number.
pub open spec fn fault(s: Seq<char>) -> Seq<char> {
    if s.len() == 0 {
        "cannot parse float from empty string"@
    } else {
        "invalid float literal"@
    }
}

/// Why `s` is no number.
pub fn fault_of(s: &[char]) -> (r: &'static str)
    ensures
        r@ == fault(s@),
{
    if s.len() == 0 {
        "cannot parse float from empty string"
    } else {
        "invalid float literal"
    }
}

/// What an exponent is held to while it is read.
const FARTHEST: u128 = 10_000_000_000_000_000_000_000_000_000;

/// The number that the digits `s` write, or one that is about as far off.
fn far_number(s: &[char]) -> (r: u128)
    requires
        text::all_digits(s@, 10),
    ensures
        r <= FARTHEST * 10 + 9,
        r == text::digits_value(s@, 10) || (r > FARTHEST && text::digits_value(s@, 10)
            > FARTHEST),
{
    let mut acc: u128 = 0;
    let mut i: usize = 0;
    while i < s.len()
        invariant
            i <= s.len(),
            text::all_digits(s@, 10),
            acc <= FARTHEST * 10 + 9,
            acc == text::digits_value(s@.take(i as int), 10) || (acc > FARTHEST
                && text::digits_value(s@.take(i as int), 10) > FARTHEST),
        decreases s.len() - i,
    {
        let c: char = s[i];
        assert(text::digit(s@[i as int]) is Some && text::digit(s@[i as int])->0 < 10);
        assert(s@.take(i + 1).drop_last() =~= s@.take(i as int));
        let d: u128 = (c as u32 - '0' as u32) as u128;
        assert(text::digit(c) == Some(d as nat));
        if acc <= FARTHEST {
            acc = acc * 10 + d;
        }
        i = i + 1;
    }
    assert(s@.take(i as int) =~= s@);
    acc
}

fn big_of_digits(s: &[char]) -> (r: Big)
    requires
        text::all_digits(s@, 10),
    ensures
        r@ == text::digits_value(s@, 10),
{
    let mut r = Big::of(0);
    let mut i: usize = 0;
    while i < s.len()
        invariant
            i <= s.len(),
            text::all_digits(s@, 10),
            r@ == text::digits_value(s@.take(i as int), 10),
        decreases s.len() - i,
    {
        let c: char = s[i];
        assert(text::digit(s@[i as int]) is Some && text::digit(s@[i as int])->0 < 10);
        assert(s@.take(i + 1).drop_last() =~= s@.take(i as int));
        let d: u64 = (c as u32 - '0' as u32) as u64;
        assert(text::digit(c) == Some(d as nat));
        r = r.times_plus(10, d);
        i = i + 1;
    }
    assert(s@.take(i as int) =~= s@);
    r
}

fn scaled_of(negative: bool, n: &Big, k: i128) -> (r: Double)
    requires
        -0x100_0000_0000_0000_0000_0000_0000 < k,
    ensures
        r == scaled(negative, n@, k as int),
{
    if k >= 0 {
        nearest_of(negative, &n.raised(k as u128).shifted(UNIT), &Big::of(1))
    } else {
        let d = Big::of(1).raised((-k) as u128);
        proof {
            lemma_ten_is_positive((-k) as nat);
            let t = big::ten((-k) as nat);
            assert(1 * t == t) by (nonlinear_arith);
        }
        nearest_of(negative, &n.shifted(UNIT), &d)
    }
}

proof fn lemma_ten_is_positive(n: nat)
    ensures
        big::ten(n) > 0,
    decreases n,
{
    if n > 0 {
        lemma_ten_is_positive((n - 1) as nat);
    }
}

/// Whether an exponent that was read is `exact`, or as far off as it.
spec fn about(e: i128, exact: int) -> bool {
    &&& -(FARTHEST * 10 + 9) <= e <= FARTHEST * 10 + 9
    &&& e == exact || (e > FARTHEST && exact > FARTHEST) || (e < -(FARTHEST as int) && exact < -(
    FARTHEST as int))
}

fn exponent_of<'a>(body: &'a [char]) -> (r: Option<(&'a [char], i128)>)
    ensures
        match r {
            None => exponent_split(body@) is None,
            Some((mantissa, e)) => {
                &&& exponent_split(body@) matches Some((m, exact))
                &&& m == mantissa@
                &&& about(e, exact)
            },
        },
{
    let lower = text::lowered(body);
    match text::cut_once(lower.as_slice(), "e") {
        None => Some((body, 0)),
        Some((head, tail)) => {
            let n: usize = tail.len();
            let under: bool = n > 0 && tail[0] == '-';
            let digits: &[char] = if n > 0 && (tail[0] == '+' || tail[0] == '-') {
                vstd::slice::slice_subrange(tail, 1, n)
            } else {
                tail
            };
            assert(digits@ == unsigned_part(tail@));
            if digits.len() == 0 || !text::are_digits(digits) {
                return None;
            }
            proof {
                text::lemma_first_from(lower@, "e"@, 0);
            }
            let far: u128 = far_number(digits);
            let mantissa = vstd::slice::slice_subrange(body, 0, head.len());
            if under {
                Some((mantissa, -(far as i128)))
            } else {
                Some((mantissa, far as i128))
            }
        },
    }
}

fn joined_digits(a: &[char], b: &[char]) -> (all: Vec<char>)
    ensures
        all@ == a@ + b@,
{
    let mut all: Vec<char> = vstd::slice::slice_to_vec(a);
    let mut i: usize = 0;
    assert(all@ =~= a@ + b@.take(0));
    while i < b.len()
        invariant
            i <= b.len(),
            all@ == a@ + b@.take(i as int),
        decreases b.len() - i,
    {
        all.push(b[i]);
        assert(all@ =~= a@ + b@.take(i + 1));
        i = i + 1;
    }
    assert(b@.take(b@.len() as int) =~= b@);
    all
}

fn of_digits_of(negative: bool, digits: &[char], e: i128, Ghost(exact): Ghost<int>) -> (r: Double)
    requires
        text::all_digits(digits@, 10),
        -0x100_0000_0000_0000_0000_0000_0000 < e < 0x100_0000_0000_0000_0000_0000_0000,
        e == exact || (e > FAR && exact > FAR) || (digits@.len() + e < -FAR && digits@.len() + exact
            < -FAR),
    ensures
        r == of_digits(negative, digits@, exact),
{
    let m = big_of_digits(digits);
    if m.within(0).is_some() || (digits.len() as i128) + e < -FAR {
        return Double::Finite { negative, mantissa: 0, shift: 0 };
    }
    if e > FAR {
        return Double::Infinite { negative };
    }
    scaled_of(negative, &m, e)
}

fn read_digits(negative: bool, body: &[char]) -> (r: Option<Double>)
    ensures
        r == (match exponent_split(body@) {
            None => None,
            Some((mantissa, e)) => {
                let (a, b) = point_split(mantissa);
                if (a + b).len() > 0 && text::all_digits(a + b, 10) {
                    Some(of_digits(negative, a + b, e - b.len()))
                } else {
                    None
                }
            },
        }),
{
    let (mantissa, far): (&[char], i128) = match exponent_of(body) {
        Some(found) => found,
        None => {
            return None;
        },
    };
    let ghost exact = (exponent_split(body@)->0).1;
    let (a, b): (&[char], &[char]) = match text::cut_once(mantissa, ".") {
        Some(ab) => ab,
        None => (mantissa, vstd::slice::slice_subrange(mantissa, 0, 0)),
    };
    assert(b@.len() == 0 ==> b@ =~= Seq::empty());
    assert(point_split(mantissa@) == (a@, b@));
    let all = joined_digits(a, b);
    if all.len() == 0 || !text::are_digits(all.as_slice()) {
        return None;
    }
    assert(about(far, exact));
    Some(
        of_digits_of(
            negative,
            all.as_slice(),
            far - b.len() as i128,
            Ghost(exact - b@.len()),
        ),
    )
}

/// The number that `s` writes.
pub fn read(s: &[char]) -> (r: Option<Double>)
    ensures
        r == parse(s@),
{
    let len: usize = s.len();
    let negative: bool = len > 0 && s[0] == '-';
    let body: &[char] = if len > 0 && (s[0] == '+' || s[0] == '-') {
        vstd::slice::slice_subrange(s, 1, len)
    } else {
        s
    };
    assert(body@ == unsigned_part(s@));
    let lower = text::lowered(body);
    if text::spells(lower.as_slice(), "nan") {
        return Some(Double::NaN);
    }
    if text::spells(lower.as_slice(), "inf") || text::spells(lower.as_slice(), "infinity") {
        return Some(Double::Infinite { negative });
    }
    read_digits(negative, body)
}

/// `digits` times `10^k`, written without an exponent.
pub open spec fn placed(digits: Seq<char>, k: int) -> Seq<char> {
    let n = digits.len() + k;
    if k >= 0 {
        digits + zeros(k as nat)
    } else if n > 0 {
        digits.take(n) + "."@ + digits.skip(n)
    } else {
        "0."@ + zeros((-n) as nat) + digits
    }
}

/// As many zeros as `n`.
pub open spec fn zeros(n: nat) -> Seq<char> {
    Seq::new(n, |i: int| '0')
}

impl Double {
    /// The multiple of `10^k` nearest to the magnitude of a finite number.
    pub open spec fn multiple(self, k: int) -> nat {
        if k >= 0 {
            rounded(self.magnitude(), one_in_units() * big::ten(k as nat))
        } else {
            rounded(self.magnitude() * big::ten((-k) as nat), one_in_units())
        }
    }

    /// The greatest power of ten from `k` down a multiple of which reads back as
    /// the number.
    pub open spec fn place(self, k: int) -> int
        decreases k + UNIT,
    {
        if k <= -(UNIT as int) || scaled(self.is_negative(), self.multiple(k), k) == self {
            k
        } else {
            self.place(k - 1)
        }
    }

    /// The number as it is shown: the fewest digits that read back as it.
    pub open spec fn shown(self) -> Seq<char> {
        match self {
            Double::NaN => "NaN"@,
            Double::Infinite { negative } => if negative {
                "-inf"@
            } else {
                "inf"@
            },
            Double::Finite { negative, mantissa, shift } => {
                let sign = if negative {
                    "-"@
                } else {
                    ""@
                };
                if self.magnitude() == 0 {
                    sign + "0"@
                } else {
                    let k = self.place(308);
                    sign + placed(text::decimal(self.multiple(k)), k)
                }
            },
        }
    }

    fn multiple_of(self, k: i32) -> (r: Big)
        requires
            -2000 < k < 2000,
        ensures
            r@ == self.multiple(k as int),
    {
        if k >= 0 {
            let d = one_units().raised(k as u128);
            proof {
                lemma_ten_is_positive(k as nat);
                let (x, y) = (one_in_units(), big::ten(k as nat));
                assert(x * y > 0) by (nonlinear_arith)
                    requires
                        x > 0,
                        y > 0,
                ;
            }
            rounded_of(&self.size(), &d)
        } else {
            rounded_of(&self.size().raised((-k) as u128), &one_units())
        }
    }

    /// The number as it is shown.
    pub fn show(self) -> (s: String)
        ensures
            s@ == self.shown(),
    {
        match self {
            Double::NaN => "NaN".to_owned(),
            Double::Infinite { negative } => if negative {
                "-inf".to_owned()
            } else {
                "inf".to_owned()
            },
            Double::Finite { negative, mantissa, shift } => {
                let mut s = if negative {
                    "-".to_owned()
                } else {
                    "".to_owned()
                };
                if self.none() {
                    s.append("0");
                    return s;
                }
                let ghost sign = s@;
                let mut k: i32 = 308;
                let mut q = self.multiple_of(k);
                while k > -1074 && !scaled_of(negative, &q, k as i128).same(self)
                    invariant
                        -1074 <= k <= 308,
                        negative == self.is_negative(),
                        self.place(308) == self.place(k as int),
                        q@ == self.multiple(k as int),
                    decreases k + 1074,
                {
                    k = k - 1;
                    q = self.multiple_of(k);
                }
                let mut digits = String::new();
                push_big(&mut digits, &q);
                let v = text::chars_of(digits.as_str());
                assert(v@ =~= text::decimal(q@));
                let len: usize = v.len();
                if k >= 0 {
                    s.append(digits.as_str());
                    push_zeros(&mut s, k as u64);
                    assert(s@ =~= sign + placed(v@, k as int));
                } else if len as i128 + k as i128 > 0 {
                    let n: usize = len - (-k) as usize;
                    s.append(text::string_of(vstd::slice::slice_subrange(v.as_slice(), 0, n)).as_str());
                    s.append(".");
                    s.append(
                        text::string_of(vstd::slice::slice_subrange(v.as_slice(), n, len)).as_str(),
                    );
                    assert(v@.subrange(0, n as int) =~= v@.take(n as int));
                    assert(v@.subrange(n as int, len as int) =~= v@.skip(n as int));
                    assert(s@ =~= sign + placed(v@, k as int));
                } else {
                    s.append("0.");
                    push_zeros(&mut s, (-(len as i128 + k as i128)) as u64);
                    s.append(digits.as_str());
                    assert(s@ =~= sign + placed(v@, k as int));
                }
                s
            },
        }
    }

    fn same(self, other: Double) -> (r: bool)
        ensures
            r == (self == other),
    {
        match (self, other) {
            (Double::NaN, Double::NaN) => true,
            (Double::Infinite { negative: x }, Double::Infinite { negative: y }) => x == y,
            (
                Double::Finite { negative: x, mantissa: m, shift: k },
                Double::Finite { negative: y, mantissa: n, shift: l },
            ) => x == y && m == n && k == l,
            (_, _) => false,
        }
    }
}

fn push_zeros(s: &mut String, n: u64)
    ensures
        final(s)@ == old(s)@ + zeros(n as nat),
{
    let mut i: u64 = 0;
    assert(s@ =~= s@ + zeros(0));
    while i < n
        invariant
            i <= n,
            s@ == old(s)@ + zeros(i as nat),
        decreases n - i,
    {
        s.push('0');
        assert(s@ =~= old(s)@ + zeros((i + 1) as nat));
        i = i + 1;
    }
}


// ---------------------------------------------------------------------------
// Numbers as they are stored
// ---------------------------------------------------------------------------

impl Double {
    /// Whether the number is in the one form that no other number has: its integer
    /// is below `2^53`, and is doubled only where it is not below `2^52`.
    pub open spec fn wf(self) -> bool {
        match self {
            Double::Finite { negative, mantissa, shift } => {
                &&& mantissa < 0x20_0000_0000_0000
                &&& shift <= MAX_SHIFT
                &&& shift > 0 ==> mantissa >= 0x10_0000_0000_0000
            },
            _ => true,
        }
    }

    /// The number in sixty-four bits: a sign, eleven bits of exponent and
    /// fifty-two bits of fraction.
    pub open spec fn bits(self) -> int {
        match self {
            Double::NaN => 0x7ff8_0000_0000_0000,
            Double::Infinite { negative } => sign_bit(negative) + 0x7ff0_0000_0000_0000,
            Double::Finite { negative, mantissa, shift } => if mantissa < 0x10_0000_0000_0000 {
                sign_bit(negative) + mantissa
            } else {
                sign_bit(negative) + shift * 0x10_0000_0000_0000 + mantissa
            },
        }
    }

    /// The number that sixty-four bits hold.
    pub open spec fn from_bits(bits: u64) -> Double {
        let negative = bits >= 0x8000_0000_0000_0000;
        let rest = bits % 0x8000_0000_0000_0000;
        let exponent = rest / 0x10_0000_0000_0000;
        let fraction = rest % 0x10_0000_0000_0000;
        if exponent == 2047 {
            if fraction == 0 {
                Double::Infinite { negative }
            } else {
                Double::NaN
            }
        } else if exponent == 0 {
            Double::Finite { negative, mantissa: fraction, shift: 0 }
        } else {
            Double::Finite {
                negative,
                mantissa: (fraction + 0x10_0000_0000_0000) as u64,
                shift: (exponent - 1) as u16,
            }
        }
    }

    /// The number in sixty-four bits.
    pub fn to_bits(self) -> (r: u64)
        requires
            self.wf(),
        ensures
            r == self.bits(),
    {
        match self {
            Double::NaN => 0x7ff8_0000_0000_0000,
            Double::Infinite { negative } => if negative {
                0xfff0_0000_0000_0000
            } else {
                0x7ff0_0000_0000_0000
            },
            Double::Finite { negative, mantissa, shift } => {
                let rest: u64 = if mantissa < 0x10_0000_0000_0000 {
                    mantissa
                } else {
                    shift as u64 * 0x10_0000_0000_0000 + mantissa
                };
                if negative {
                    rest + 0x8000_0000_0000_0000
                } else {
                    rest
                }
            },
        }
    }

    /// The number that sixty-four bits hold.
    pub fn of_bits(bits: u64) -> (r: Double)
        ensures
            r == Double::from_bits(bits),
            r.wf(),
    {
        let negative: bool = bits >= 0x8000_0000_0000_0000;
        let rest: u64 = bits % 0x8000_0000_0000_0000;
        let exponent: u64 = rest / 0x10_0000_0000_0000;
        let fraction: u64 = rest % 0x10_0000_0000_0000;
        if exponent == 2047 {
            if fraction == 0 {
                Double::Infinite { negative }
            } else {
                Double::NaN
            }
        } else if exponent == 0 {
            Double::Finite { negative, mantissa: fraction, shift: 0 }
        } else {
            Double::Finite {
                negative,
                mantissa: fraction + 0x10_0000_0000_0000,
                shift: (exponent - 1) as u16,
            }
        }
    }
}

/// What the sign adds to the bits of a number.
pub open spec fn sign_bit(negative: bool) -> int {
    if negative {
        0x8000_0000_0000_0000
    } else {
        0
    }
}

// ---------------------------------------------------------------------------
// Laws
// ---------------------------------------------------------------------------

proof fn lemma_fit_is_least(n: nat, d: nat, k: nat)
    ensures
        fit(n, d, k) >= k,
        fit(n, d, k) > k ==> n >= d * big::two((53 + fit(n, d, k) - 1) as nat),
        fit(n, d, k) <= MAX_SHIFT ==> n < d * big::two(53 + fit(n, d, k)),
    decreases 2046 - k,
{
    if k <= MAX_SHIFT && n >= d * big::two(53 + k) {
        lemma_fit_is_least(n, d, k + 1);
        assert((53 + (k + 1) - 1) as nat == 53 + k);
    }
}

/// What is rounded to a double is in the one form that doubles have.
pub proof fn what_is_rounded_is_a_double(negative: bool, n: nat, d: nat)
    requires
        d > 0,
    ensures
        nearest(negative, n, d).wf(),
{
    let k = fit(n, d, 0);
    big::lemma_two_small();
    lemma_fit_is_least(n, d, 0);
    if 0 < k <= MAX_SHIFT {
        let u = d * big::two(k);
        big::lemma_two_add(52, k);
        big::lemma_two_add(k, 0);
        assert((53 + k - 1) as nat == 52 + k);
        let (x, t) = (d, big::two(k));
        assert(x * (0x10_0000_0000_0000 * t) == 0x10_0000_0000_0000 * (x * t)) by (nonlinear_arith);
        assert(x * t > 0) by (nonlinear_arith)
            requires
                x > 0,
                t > 0,
        ;
        assert(n / u >= 0x10_0000_0000_0000) by (nonlinear_arith)
            requires
                n >= 0x10_0000_0000_0000 * u,
                u > 0,
        ;
    }
}

/// A double is what its bits hold.
pub proof fn bits_hold_a_double(x: Double)
    requires
        x.wf(),
    ensures
        0 <= x.bits() <= u64::MAX,
        Double::from_bits(x.bits() as u64) == x,
{
}


proof fn lemma_fit_at_most(n: nat, d: nat, k: nat, j: nat)
    requires
        j <= k <= MAX_SHIFT,
        n < d * big::two(53 + k),
    ensures
        fit(n, d, j) <= k,
    decreases k - j,
{
    if j < k {
        lemma_fit_at_most(n, d, k, j + 1);
    }
}

/// A result that a double can hold is kept as it is.
pub proof fn an_exact_result_is_kept(negative: bool, n: nat, d: nat, m: nat, k: nat)
    requires
        d > 0,
        m < 0x20_0000_0000_0000,
        k <= MAX_SHIFT,
        n == d * (m * big::two(k)),
    ensures
        nearest(negative, n, d) is Finite,
        nearest(negative, n, d).is_negative() == negative,
        nearest(negative, n, d).magnitude() == m * big::two(k),
{
    big::lemma_two_small();
    big::lemma_two_add(53, k);
    big::lemma_two_add(k, 0);
    let t = big::two(k);
    assert(n < d * (0x20_0000_0000_0000 * t)) by (nonlinear_arith)
        requires
            n == d * (m * t),
            m < 0x20_0000_0000_0000,
            d > 0,
            t > 0,
    ;
    lemma_fit_at_most(n, d, k, 0);
    lemma_fit_is_least(n, d, 0);
    let j = fit(n, d, 0);
    let u = d * big::two(j);
    big::lemma_two_add((k - j) as nat, j);
    big::lemma_two_add(j, 0);
    big::lemma_two_add(53, j);
    assert((k - j) as nat + j == k);
    let (a, b) = (big::two((k - j) as nat), big::two(j));
    let q = m * a;
    assert(n == u * q) by (nonlinear_arith)
        requires
            n == d * (m * t),
            t == a * b,
            u == d * b,
            q == m * a,
    ;
    assert(u > 0) by (nonlinear_arith)
        requires
            u == d * b,
            d > 0,
            b > 0,
    ;
    assert(n == u * q + 0);
    assert(q * u == u * q) by (nonlinear_arith);
    vstd::arithmetic::div_mod::lemma_fundamental_div_mod_converse(
        n as int,
        u as int,
        q as int,
        0,
    );
    assert(rounded(n, u) == q);
    assert(d * (0x20_0000_0000_0000 * b) == 0x20_0000_0000_0000 * u) by (nonlinear_arith)
        requires
            u == d * b,
    ;
    assert(q < 0x20_0000_0000_0000) by (nonlinear_arith)
        requires
            u * q < 0x20_0000_0000_0000 * u,
            u > 0,
    ;
    assert(q * b == m * t) by (nonlinear_arith)
        requires
            q == m * a,
            t == a * b,
    ;
}

/// A whole number below `2^53` is its own double.
pub proof fn a_small_integer_is_a_double(n: nat)
    requires
        n < 0x20_0000_0000_0000,
    ensures
        of(n) is Finite,
        !of(n).is_negative(),
        of(n).magnitude() == n * one_in_units(),
        of(n).integer() == n,
        of(n).floor() == n,
{
    assert(n * one_in_units() == 1 * (n * one_in_units())) by (nonlinear_arith);
    an_exact_result_is_kept(false, n * one_in_units(), 1, n, UNIT as nat);
    big::lemma_two_add(UNIT as nat, 0);
    let o = one_in_units();
    assert((n * o) / o == n) by (nonlinear_arith)
        requires
            o > 0,
    ;
}


/// The integer of a double that stands for a whole number other than zero is
/// doubled at least twice.
pub proof fn a_double_of_an_integer_is_doubled(n: nat)
    requires
        n > 0,
    ensures
        of(n) matches Double::Finite { negative, mantissa, shift } ==> shift >= 2,
{
    let o = one_in_units();
    big::lemma_two_add(54, 1020);
    big::lemma_two_add(1020, 0);
    let (a, b) = (big::two(54), big::two(1020));
    assert(n * (a * b) >= 1 * a) by (nonlinear_arith)
        requires
            n >= 1,
            b >= 1,
            a >= 0,
    ;
    assert((53 + 0 + 2 - 1) as nat == 54);
    lemma_fit_skip(n * o, 1, 0, 2);
    lemma_fit_is_least(n * o, 1, 2);
}


/// The order in which all numbers have a place is one: no number stands before
/// itself, no two stand before each other, and a third keeps its place among them.
pub proof fn the_order_is_total(a: Double, b: Double, c: Double)
    ensures
        !a.before(a),
        a.before(b) ==> !b.before(a),
        a.before(b) && b.before(c) ==> a.before(c),
        !a.before(b) && !b.before(c) ==> !a.before(c),
{
}

proof fn lemma_rounded_grows(a: nat, b: nat, d: nat)
    requires
        a <= b,
        d > 0,
    ensures
        rounded(a, d) <= rounded(b, d),
{
    let (p, r) = (a / d, a % d);
    let (q, t) = (b / d, b % d);
    vstd::arithmetic::div_mod::lemma_fundamental_div_mod(a as int, d as int);
    vstd::arithmetic::div_mod::lemma_fundamental_div_mod(b as int, d as int);
    assert(p <= q) by (nonlinear_arith)
        requires
            d * p + r <= d * q + t,
            0 <= r,
            t < d,
            d > 0,
    ;
    if p == q {
        assert(r <= t) by (nonlinear_arith)
            requires
                d * p + r <= d * q + t,
                p == q,
        ;
    }
}

proof fn lemma_fit_grows(a: nat, b: nat, d: nat, k: nat)
    requires
        a <= b,
    ensures
        fit(a, d, k) <= fit(b, d, k),
    decreases 2046 - k,
{
    lemma_fit_is_least(b, d, k);
    if k <= MAX_SHIFT && a >= d * big::two(53 + k) {
        lemma_fit_grows(a, b, d, k + 1);
    }
}

/// What rounding at the least shift comes to.
proof fn lemma_at_fit(n: nat, d: nat)
    requires
        d > 0,
        fit(n, d, 0) <= MAX_SHIFT,
    ensures
        ({
            let k = fit(n, d, 0);
            let q = rounded(n, d * big::two(k));
            let x = nearest(false, n, d);
            &&& q <= 0x20_0000_0000_0000
            &&& k > 0 ==> q >= 0x10_0000_0000_0000
            &&& x is Finite ==> x.magnitude() == q * big::two(k) && !x.is_negative()
            &&& x is Infinite ==> k == MAX_SHIFT && q == 0x20_0000_0000_0000
            &&& x !is NaN
        }),
{
    let k = fit(n, d, 0);
    let s = big::two(k);
    let u = d * s;
    let q = rounded(n, u);
    big::lemma_two_small();
    lemma_fit_is_least(n, d, 0);
    big::lemma_two_add(k, 0);
    big::lemma_two_add(53, k);
    big::lemma_two_add(52, k);
    big::lemma_two_add(k, 1);
    assert(u > 0) by (nonlinear_arith)
        requires
            u == d * s,
            d > 0,
            s > 0,
    ;
    assert(d * (0x20_0000_0000_0000 * s) == 0x20_0000_0000_0000 * u) by (nonlinear_arith)
        requires
            u == d * s,
    ;
    assert(n / u < 0x20_0000_0000_0000) by (nonlinear_arith)
        requires
            n < 0x20_0000_0000_0000 * u,
            u > 0,
    ;
    if k > 0 {
        assert((53 + k - 1) as nat == 52 + k);
        assert(d * (0x10_0000_0000_0000 * s) == 0x10_0000_0000_0000 * u) by (nonlinear_arith)
            requires
                u == d * s,
        ;
        assert(n / u >= 0x10_0000_0000_0000) by (nonlinear_arith)
            requires
                n >= 0x10_0000_0000_0000 * u,
                u > 0,
        ;
    }
    assert(0x20_0000_0000_0000 * s == 0x10_0000_0000_0000 * (s * 2)) by (nonlinear_arith);
    if q == 0x20_0000_0000_0000 {
        assert(q * s == 0x10_0000_0000_0000 * (s * 2));
    }
}

/// Where one number of units is not above another, neither is the double that is
/// nearest to it.
pub proof fn rounding_keeps_the_order(a: nat, b: nat, d: nat)
    requires
        a <= b,
        d > 0,
    ensures
        nearest(false, a, d).le(nearest(false, b, d)),
{
    let (j, k) = (fit(a, d, 0), fit(b, d, 0));
    lemma_fit_grows(a, b, d, 0);
    if k <= MAX_SHIFT {
        lemma_at_fit(a, d);
        lemma_at_fit(b, d);
        let (s, t) = (big::two(j), big::two(k));
        big::lemma_two_add(j, 0);
        big::lemma_two_small();
        let p = rounded(a, d * s);
        let q = rounded(b, d * t);
        if j == k {
            assert(d * s > 0) by (nonlinear_arith)
                requires
                    d > 0,
                    s > 0,
            ;
            lemma_rounded_grows(a, b, d * s);
            assert(p * s <= q * s) by (nonlinear_arith)
                requires
                    p <= q,
                    s >= 0,
            ;
        } else {
            // The smaller of the two is below the least that the greater shift holds.
            big::lemma_two_add((k - j - 1) as nat, j + 1);
            big::lemma_two_add((k - j - 1) as nat, 0);
            big::lemma_two_add(j, 1);
            assert((k - j - 1) as nat + (j + 1) == k);
            let w = big::two((k - j - 1) as nat);
            assert(t == w * (s * 2));
            assert(p * s <= q * t) by (nonlinear_arith)
                requires
                    t == w * (s * 2),
                    w >= 1,
                    s >= 0,
                    0 <= p <= 0x20_0000_0000_0000,
                    q >= 0x10_0000_0000_0000,
            {
                assert(q * t >= 0x10_0000_0000_0000 * t);
                assert(t >= 2 * s);
                assert(0x10_0000_0000_0000 * t >= 0x20_0000_0000_0000 * s);
                assert(p * s <= 0x20_0000_0000_0000 * s);
            }
        }
    }
}

/// A whole number of sixty-four bits has a double, which is zero for zero alone.
pub proof fn an_integer_is_finite(n: nat)
    requires
        n <= u64::MAX,
    ensures
        of(n) is Finite,
        !of(n).is_negative(),
        n > 0 ==> of(n).magnitude() > 0,
{
    let o = one_in_units();
    big::lemma_two_small();
    big::lemma_two_add(63, 1);
    big::lemma_two_add(64, UNIT as nat);
    big::lemma_two_add(UNIT as nat, 0);
    assert(n * o < 0x1_0000_0000_0000_0000 * o) by (nonlinear_arith)
        requires
            n < 0x1_0000_0000_0000_0000,
            o > 0,
    ;
    assert(53 + 1085 == 64 + UNIT as nat);
    let top = big::two(53 + 1085);
    assert(1 * top == top) by (nonlinear_arith);
    lemma_fit_at_most(n * o, 1, 1085, 0);
    if n > 0 {
        a_double_of_an_integer_is_doubled(n);
        what_is_rounded_is_a_double(false, n * o, 1);
        if let Double::Finite { negative, mantissa, shift } = of(n) {
            lemma_product_is_zero(mantissa as nat, shift as nat);
        }
    }
}

proof fn lemma_no_share(negative: bool)
    ensures
        nearest(negative, 0, one_in_units()).ceiling() == 0,
{
    let o = one_in_units();
    big::lemma_two_add(UNIT as nat, 0);
    nothing_over_something(negative, o);
    assert(0nat / o == 0 && 0nat % o == 0) by (nonlinear_arith)
        requires
            o > 0,
    ;
}

/// A share of a count does not fall when the share grows.
pub proof fn a_product_does_not_fall(low: Double, high: Double, n: nat)
    requires
        n <= u64::MAX,
        n > 0,
        !low.is_negative(),
        low.le(high),
    ensures
        low.times(of(n)).ceiling() <= high.times(of(n)).ceiling(),
{
    an_integer_is_finite(n);
    let c = of(n);
    big::lemma_two_add(UNIT as nat, 0);
    let o = one_in_units();
    if low is Finite && high is Finite {
        let (a, b) = (low.magnitude(), high.magnitude());
        if high.is_negative() {
            assert(a == 0 && b == 0);
            let m = c.magnitude();
            assert(0 * m == 0) by (nonlinear_arith);
            lemma_no_share(true);
            lemma_no_share(false);
        } else {
            let m = c.magnitude();
            assert(a * m <= b * m) by (nonlinear_arith)
                requires
                    a <= b,
            ;
            rounding_keeps_the_order(a * m, b * m, o);
            let (x, y) = (low.times(c), high.times(c));
            if x is Finite && y is Finite {
                vstd::arithmetic::div_mod::lemma_fundamental_div_mod(
                    x.magnitude() as int,
                    o as int,
                );
                vstd::arithmetic::div_mod::lemma_fundamental_div_mod(
                    y.magnitude() as int,
                    o as int,
                );
                let (p, r) = (x.magnitude() / o, x.magnitude() % o);
                let (q, t) = (y.magnitude() / o, y.magnitude() % o);
                assert(p <= q) by (nonlinear_arith)
                    requires
                        o * p + r <= o * q + t,
                        0 <= r,
                        t < o,
                        o > 0,
                ;
                if p == q {
                    assert(r <= t) by (nonlinear_arith)
                        requires
                            o * p + r <= o * q + t,
                            p == q,
                    ;
                }
            }
        }
    }
}


/// A rounded result is within one part in `2^53` of the exact one, where it is
/// neither so small nor so large that a double runs out of places for it: from
/// `2^53` units on, and up to `2^256`.
pub proof fn rounding_is_close(negative: bool, n: nat, d: nat)
    requires
        d > 0,
        0x20_0000_0000_0000 * d <= n <= d * (one_in_units() * big::two(256)),
    ensures
        nearest(negative, n, d) is Finite,
        nearest(negative, n, d).is_negative() == negative,
        ({
            let m = nearest(negative, n, d).magnitude();
            0x1f_ffff_ffff_ffff * n <= 0x20_0000_0000_0000 * (m * d) <= 0x20_0000_0000_0001 * n
        }),
{
    let k = fit(n, d, 0);
    big::lemma_two_small();
    big::lemma_two_add(UNIT as nat, 256);
    big::lemma_two_add(1330, 0);
    big::lemma_two_add(1330, 723);
    big::lemma_two_add(723, 0);
    big::lemma_two_add(722, 1);
    big::lemma_two_add(722, 0);
    let (a, b) = (big::two(1330), big::two(723));
    assert(n < d * (a * b)) by (nonlinear_arith)
        requires
            n <= d * a,
            b >= 2,
            a > 0,
            d > 0,
    ;
    assert(53 + 2000 == 1330 + 723);
    lemma_fit_at_most(n, d, 2000, 0);
    assert(53 + 0 == 53nat);
    assert(d * 0x20_0000_0000_0000 == 0x20_0000_0000_0000 * d) by (nonlinear_arith);
    assert(k > 0) by {
        lemma_fit_is_least(n, d, 0);
        if k == 0 {
            assert(n < d * big::two(53));
        }
    }
    lemma_fit_is_least(n, d, 0);
    lemma_at_fit(n, d);
    let s = big::two(k);
    let u = d * s;
    let q = rounded(n, u);
    big::lemma_two_add(k, 0);
    big::lemma_two_add(52, k);
    assert((53 + k - 1) as nat == 52 + k);
    assert(u > 0) by (nonlinear_arith)
        requires
            u == d * s,
            d > 0,
            s > 0,
    ;
    assert(d * (0x10_0000_0000_0000 * s) == 0x10_0000_0000_0000 * u) by (nonlinear_arith)
        requires
            u == d * s,
    ;
    let (p, r) = (n / u, n % u);
    vstd::arithmetic::div_mod::lemma_fundamental_div_mod(n as int, u as int);
    assert((p + 1) * u == u * p + u) by (nonlinear_arith);
    assert(p * u == u * p) by (nonlinear_arith);
    assert(2 * (q * u) <= 2 * n + u && 2 * n <= 2 * (q * u) + u);
    assert((q * s) * d == q * u) by (nonlinear_arith)
        requires
            u == d * s,
    ;
    assert(nearest(negative, n, d).magnitude() == nearest(false, n, d).magnitude());
}

/// A whole number of up to 128 bits has a double, and one that is at most half of
/// it away.
pub proof fn an_integer_is_near_its_double(n: nat)
    requires
        0 < n <= u128::MAX,
    ensures
        of(n) is Finite,
        !of(n).is_negative(),
        n * one_in_units() <= 2 * of(n).magnitude(),
        of(n).magnitude() <= 2 * (n * one_in_units()),
{
    let o = one_in_units();
    big::lemma_two_small();
    big::lemma_two_add(53, 1021);
    big::lemma_two_add(1021, 0);
    big::lemma_two_add(63, 63);
    big::lemma_two_add(126, 130);
    big::lemma_two_add(126, 4);
    reveal_with_fuel(big::two, 5);
    assert(big::two(4) == 16);
    let c = big::two(256);
    let (x, y) = (big::two(126), big::two(130));
    assert(x == 0x4000_0000_0000_0000_0000_0000_0000_0000);
    assert(c > u128::MAX) by (nonlinear_arith)
        requires
            c == x * y,
            y == x * 16,
            x == 0x4000_0000_0000_0000_0000_0000_0000_0000int,
    ;
    let e = big::two(1021);
    assert(0x20_0000_0000_0000 <= o && o > 0) by (nonlinear_arith)
        requires
            o == 0x20_0000_0000_0000 * e,
            e >= 1,
    ;
    assert(0x20_0000_0000_0000 * 1 <= n * o) by (nonlinear_arith)
        requires
            n >= 1,
            o >= 0x20_0000_0000_0000,
    ;
    assert(n * o <= 1 * (o * c)) by (nonlinear_arith)
        requires
            0 <= n <= c,
            o >= 0,
    ;
    rounding_is_close(false, n * o, 1);
    let m = of(n).magnitude();
    assert(m * 1 == m) by (nonlinear_arith);
}


/// Nothing, over whatever number of units, is nothing.
pub proof fn nothing_over_something(negative: bool, d: nat)
    requires
        d > 0,
    ensures
        nearest(negative, 0, d) == Double::zero(negative),
        nearest(negative, 0, d).magnitude() == 0,
{
    big::lemma_two_small();
    assert(0 < d * big::two(53)) by (nonlinear_arith)
        requires
            d > 0,
            big::two(53) > 0,
    ;
    assert(53 + 0 == 53nat);
    assert(fit(0, d, 0) == 0);
    assert(big::two(0) == 1);
    assert(d * big::two(0) == d && 0 * big::two(0) == 0) by (nonlinear_arith)
        requires
            big::two(0) == 1,
    ;
    assert(rounded(0, d) == 0);
}

proof fn lemma_tens(n: nat, m: nat)
    ensures
        big::ten(n + m) == big::ten(n) * big::ten(m),
        big::ten(n) >= big::two(3 * n),
        big::ten(n) > 0,
    decreases n,
{
    if n == 0 {
        assert(1 * big::ten(m) == big::ten(m)) by (nonlinear_arith);
        assert(big::two(0) == 1);
    } else {
        let k = (n - 1) as nat;
        lemma_tens(k, m);
        assert((n + m - 1) as nat == k + m);
        let (x, y) = (big::ten(k), big::ten(m));
        assert((10 * x) * y == 10 * (x * y)) by (nonlinear_arith);
        big::lemma_two_small();
        big::lemma_two_add(3 * k, 3);
        assert(3 * n == 3 * k + 3);
    }
}

proof fn lemma_below_tens(digits: Seq<char>)
    requires
        text::all_digits(digits, 10),
    ensures
        text::digits_value(digits, 10) < big::ten(digits.len()),
    decreases digits.len(),
{
    if digits.len() > 0 {
        let t = digits.drop_last();
        assert forall|i: int| 0 <= i < t.len() implies #[trigger] text::digit(t[i]) is Some
            && text::digit(t[i])->0 < 10 by {
            assert(text::digit(digits[i]) is Some);
        }
        lemma_below_tens(t);
        assert(text::digit(digits[digits.len() - 1]) is Some);
    }
}

/// Numbers whose point stands far from their digits are what the nearest double
/// is: infinite, or nothing.
pub proof fn far_numbers_are_what_is_nearest(negative: bool, digits: Seq<char>, e: int)
    requires
        text::all_digits(digits, 10),
    ensures
        of_digits(negative, digits, e) == scaled(negative, text::digits_value(digits, 10), e),
{
    let m = text::digits_value(digits, 10);
    let o = one_in_units();
    big::lemma_two_add(UNIT as nat, 0);
    if m == 0 {
        if e >= 0 {
            let t = big::ten(e as nat);
            assert(0 * t * o == 0) by (nonlinear_arith);
            nothing_over_something(negative, 1);
        } else {
            lemma_tens((-e) as nat, 0);
            assert(0 * o == 0) by (nonlinear_arith);
            nothing_over_something(negative, big::ten((-e) as nat));
        }
    } else if digits.len() + e < -FAR {
        let l = digits.len();
        let far = (-e - l) as nat;
        lemma_below_tens(digits);
        lemma_tens(l, far);
        lemma_tens(far, 0);
        assert(l + far == (-e) as nat);
        big::lemma_two_add(UNIT as nat, (3 * far - UNIT) as nat);
        big::lemma_two_add((3 * far - UNIT) as nat, 0);
        big::lemma_two_add(1, (3 * far - UNIT - 1) as nat);
        big::lemma_two_add((3 * far - UNIT - 1) as nat, 0);
        assert(UNIT as nat + (3 * far - UNIT) as nat == 3 * far);
        assert(1 + (3 * far - UNIT - 1) as nat == (3 * far - UNIT) as nat);
        big::lemma_two_small();
        let (x, y, w) = (big::ten(l), big::ten(far), big::two((3 * far - UNIT) as nat));
        let d = x * y;
        assert(w >= 2);
        assert(2 * (m * o) < d) by (nonlinear_arith)
            requires
                m < x,
                y >= o * w,
                w >= 2,
                o > 0,
                d == x * y,
        {
            assert(x * y >= x * (o * w));
            assert(x * (o * w) >= x * (o * 2));
            assert(x * (o * 2) == 2 * (x * o));
            assert(m * o < x * o);
        }
        let n = m * o;
        assert(53 + 0 == 53nat);
        assert(n < d * big::two(53)) by (nonlinear_arith)
            requires
                2 * n < d,
                big::two(53) >= 1,
        ;
        assert(fit(n, d, 0) == 0);
        assert(big::two(0) == 1);
        assert(d * big::two(0) == d) by (nonlinear_arith)
            requires
                big::two(0) == 1,
        ;
        assert(n / d == 0 && n % d == n) by {
            vstd::arithmetic::div_mod::lemma_fundamental_div_mod_converse(
                n as int,
                d as int,
                0,
                n as int,
            );
        }
        assert(rounded(n, d) == 0);
    } else if e > FAR {
        let k = e as nat;
        lemma_tens(k, 0);
        big::lemma_two_add(3 * k, UNIT as nat);
        big::lemma_two_add((3 * k + UNIT - 2098) as nat, 2098);
        big::lemma_two_add((3 * k + UNIT - 2098) as nat, 0);
        assert((3 * k + UNIT - 2098) as nat + 2098 == 3 * k + UNIT as nat);
        let (x, y) = (big::ten(k), big::two(3 * k));
        let n = m * x * o;
        let (a, b) = (big::two((3 * k + UNIT - 2098) as nat), big::two(2098));
        assert(n >= 1 * b) by (nonlinear_arith)
            requires
                n == m * x * o,
                m >= 1,
                x >= y,
                y * o == a * b,
                a >= 1,
                b >= 0,
                o > 0,
                y >= 0,
        {
            assert(m * x >= x);
            assert(m * x * o >= x * o);
            assert(x * o >= y * o);
            assert(a * b >= b);
        }
        assert((53 + 0 + 2046 - 1) as nat == 2098);
        lemma_fit_skip(n, 1, 0, 2046);
    }
}

/// Counts whose sum is below `2^53` add up as doubles to the double of their sum.
pub proof fn small_counts_add_up_exactly(a: nat, b: nat)
    requires
        a + b < 0x20_0000_0000_0000,
    ensures
        of(a).plus(of(b)) == of(a + b),
{
    a_small_integer_is_a_double(a);
    a_small_integer_is_a_double(b);
    let o = one_in_units();
    big::lemma_two_add(UNIT as nat, 0);
    assert(a * o + b * o == (a + b) * o) by (nonlinear_arith);
    assert(((a + b) * o == 0) == (a + b == 0)) by (nonlinear_arith)
        requires
            o > 0,
            a + b >= 0,
    ;
    if a + b == 0 {
        nothing_over_something(false, 1);
    }
}


/// Whatever is counted, read or computed is in the one form that doubles have.
pub proof fn every_result_is_a_double(a: Double, b: Double, n: nat, d: nat, s: Seq<char>)
    requires
        a.wf(),
        b.wf(),
        d > 0,
    ensures
        of(n).wf(),
        quotient(n, d).wf(),
        a.plus(b).wf(),
        a.less_by(b).wf(),
        a.times(b).wf(),
        a.over(b).wf(),
        a.negated().wf(),
        a.unsigned().wf(),
        a.larger(b).wf(),
        parse(s) matches Some(x) ==> x.wf(),
{
    let o = one_in_units();
    big::lemma_two_add(UNIT as nat, 0);
    what_is_rounded_is_a_double(false, n * o, 1);
    what_is_rounded_is_a_double(false, n * o, d);
    lemma_sum_is_a_double(a, b);
    lemma_sum_is_a_double(a, b.negated());
    let negative = a.is_negative() != b.is_negative();
    what_is_rounded_is_a_double(negative, a.magnitude() * b.magnitude(), o);
    if b.magnitude() > 0 {
        what_is_rounded_is_a_double(negative, a.magnitude() * o, b.magnitude());
    }
    let body = unsigned_part(s);
    let minus = s.len() > 0 && s[0] == '-';
    if let Some((mantissa, e)) = exponent_split(body) {
        let (x, y) = point_split(mantissa);
        let m = text::digits_value(x + y, 10);
        let k = e - y.len();
        if k >= 0 {
            what_is_rounded_is_a_double(minus, m * big::ten(k as nat) * o, 1);
        } else {
            lemma_ten_is_positive((-k) as nat);
            what_is_rounded_is_a_double(minus, m * o, big::ten((-k) as nat));
        }
    }
}

proof fn lemma_sum_is_a_double(a: Double, b: Double)
    requires
        a.wf(),
        b.wf(),
    ensures
        a.plus(b).wf(),
{
    let sum = a.units() + b.units();
    if sum < 0 {
        what_is_rounded_is_a_double(true, (-sum) as nat, 1);
    } else {
        what_is_rounded_is_a_double(false, sum as nat, 1);
    }
}

proof fn lemma_rounded_scaled(a: nat, b: nat, t: nat)
    requires
        b > 0,
        t > 0,
    ensures
        rounded(a * t, b * t) == rounded(a, b),
{
    let (q, r) = (a / b, a % b);
    vstd::arithmetic::div_mod::lemma_fundamental_div_mod(a as int, b as int);
    let (d, n, m) = (b * t, a * t, r * t);
    assert(n == q * d + m && 0 <= m < d) by (nonlinear_arith)
        requires
            a == b * q + r,
            0 <= r < b,
            t > 0,
            d == b * t,
            n == a * t,
            m == r * t,
    ;
    vstd::arithmetic::div_mod::lemma_fundamental_div_mod_converse(
        n as int,
        d as int,
        q as int,
        m as int,
    );
    assert((2 * m > d) == (2 * r > b) && (2 * m == d) == (2 * r == b)) by (nonlinear_arith)
        requires
            d == b * t,
            m == r * t,
            t > 0,
    ;
}

/// A share between a half and one is held in fifty-three bits.
pub proof fn a_large_share_has_fifty_three_bits(a: nat, b: nat)
    requires
        0 < a < b <= 2 * a,
    ensures
        quotient(a, b) is Finite,
        !quotient(a, b).is_negative(),
        quotient(a, b).magnitude() == rounded(a * 0x20_0000_0000_0000, b) * big::two(1021),
{
    let n = a * one_in_units();
    big::lemma_two_small();
    big::lemma_two_add(53, 1021);
    big::lemma_two_add(1021, 0);
    big::lemma_two_add(1, 1073);
    big::lemma_two_add(1073, 0);
    let (t, h, o) = (big::two(1021), big::two(1073), one_in_units());
    assert(n < b * o) by (nonlinear_arith)
        requires
            n == a * o,
            a < b,
            o > 0,
    ;
    assert(53 + 1021 == UNIT as nat);
    lemma_fit_at_most(n, b, 1021, 0);
    lemma_fit_is_least(n, b, 0);
    let k = fit(n, b, 0);
    if k < 1021 {
        big::lemma_two_add(53 + k, (1020 - k) as nat);
        big::lemma_two_add((1020 - k) as nat, 0);
        let (x, y) = (big::two(53 + k), big::two((1020 - k) as nat));
        assert(53 + k + (1020 - k) as nat == 1073);
        assert(b * x <= b * h) by (nonlinear_arith)
            requires
                h == x * y,
                y >= 1,
                x >= 0,
                b >= 0,
        ;
        assert(b * h <= n) by (nonlinear_arith)
            requires
                n == a * o,
                o == 2 * h,
                b <= 2 * a,
                h >= 0,
        ;
    }
    assert(k == 1021);
    lemma_at_fit(n, b);
    assert(a * (0x20_0000_0000_0000 * t) == (a * 0x20_0000_0000_0000) * t) by (nonlinear_arith);
    lemma_rounded_scaled(a * 0x20_0000_0000_0000, b, t);
}

/// The shares that percentiles are taken at are not rounded up.
pub proof fn percentile_shares_are_not_rounded_up()
    ensures
        quotient(1, 2).magnitude() * 2 <= 1 * one_in_units(),
        quotient(99, 100).magnitude() * 100 <= 99 * one_in_units(),
        quotient(999, 1000).magnitude() * 1000 <= 999 * one_in_units(),
{
    a_large_share_has_fifty_three_bits(1, 2);
    a_large_share_has_fifty_three_bits(99, 100);
    a_large_share_has_fifty_three_bits(999, 1000);
    big::lemma_two_small();
    big::lemma_two_add(53, 1021);
    let t = big::two(1021);
    assert(rounded(1 * 0x20_0000_0000_0000, 2) == 0x10_0000_0000_0000);
    assert(rounded(99 * 0x20_0000_0000_0000, 100) == 8_917_127_262_193_582);
    assert(rounded(999 * 0x20_0000_0000_0000, 1000) == 8_998_192_055_486_251);
    assert(one_in_units() == 0x20_0000_0000_0000 * t);
}

proof fn lemma_no_split(s: Seq<char>, pat: Seq<char>, c: char)
    requires
        pat == seq![c],
        forall|i: int| 0 <= i < s.len() ==> s[i] != c,
    ensures
        text::split_once(s, pat) is None,
{
    text::lemma_first_from(s, pat, 0);
    match text::first(s, pat) {
        Some(j) => {
            assert(s.subrange(j, j + 1)[0] == c);
        },
        None => {},
    }
}

/// Whether every character is a decimal digit.
pub open spec fn is_digits(s: Seq<char>) -> bool {
    forall|i: int| 0 <= i < s.len() ==> '0' <= #[trigger] s[i] <= '9'
}

/// A number that is written with a point in it reads as the double nearest to what
/// its digits say: the digits without the point, over ten for each digit behind it.
pub proof fn a_number_reads_as_what_its_digits_say(a: Seq<char>, b: Seq<char>)
    requires
        is_digits(a),
        is_digits(b),
        a.len() > 0,
    ensures
        parse(a) == Some(of(text::digits_value(a, 10))),
        parse(a + seq!['.'] + b) == Some(
            quotient(text::digits_value(a + b, 10), big::ten(b.len())),
        ),
{
    lemma_reads(a, Seq::empty(), a, false);
    assert(a + Seq::<char>::empty() =~= a);
    let s = a + seq!['.'] + b;
    lemma_reads(a, b, s, true);
    let m = text::digits_value(a, 10);
    let n = text::digits_value(a + b, 10);
    let o = one_in_units();
    far_numbers_are_what_is_nearest(false, a, 0);
    far_numbers_are_what_is_nearest(false, a + b, -(b.len() as int));
    assert(big::ten(0) == 1);
    assert(m * 1 * o == m * o && n * 1 * o == n * o) by (nonlinear_arith);
    if b.len() == 0 {
        assert(quotient(n, 1) == of(n));
    }
}

proof fn lemma_reads(a: Seq<char>, b: Seq<char>, s: Seq<char>, point: bool)
    requires
        is_digits(a),
        is_digits(b),
        a.len() > 0,
        s == (if point {
            a + seq!['.'] + b
        } else {
            a
        }),
        !point ==> b.len() == 0,
    ensures
        parse(s) == Some(of_digits(false, a + b, -(b.len() as int))),
{
    reveal_strlit("nan");
    reveal_strlit("inf");
    reveal_strlit("infinity");
    reveal_strlit("e");
    reveal_strlit(".");
    assert("e"@ =~= seq!['e']);
    assert("."@ =~= seq!['.']);
    assert forall|i: int| 0 <= i < s.len() implies ('0' <= #[trigger] s[i] <= '9' || s[i] == '.')
        && (i < a.len() ==> s[i] == a[i]) by {
        if i < a.len() {
            assert(s[i] == a[i]);
        } else if i > a.len() {
            assert(s[i] == b[i - a.len() - 1]);
        }
    }
    assert(s[0] == a[0]);
    let lower = text::ascii_lower(s);
    assert(lower =~= s);
    assert(unsigned_part(s) == s);
    lemma_no_split(lower, "e"@, 'e');
    assert forall|i: int| 0 <= i < (a + b).len() implies #[trigger] text::digit((a + b)[i]) is Some
        && text::digit((a + b)[i])->0 < 10 by {
        if i < a.len() {
            assert((a + b)[i] == a[i]);
        } else {
            assert((a + b)[i] == b[i - a.len()]);
        }
    }
    if point {
        text::lemma_first_from(s, "."@, 0);
        let k = a.len() as int;
        assert(s.subrange(k, k + 1) =~= seq!['.']);
        assert(text::occurs(s, "."@, k));
        match text::first(s, "."@) {
            Some(j) => {
                assert(s.subrange(j, j + 1)[0] == '.');
                assert(j == k) by {
                    if j < k {
                        assert(s[j] == a[j]);
                    }
                }
            },
            None => {},
        }
        assert(s.take(k) =~= a);
        assert(s.skip(k + 1) =~= b);
    } else {
        lemma_no_split(s, "."@, '.');
        assert(a + Seq::<char>::empty() =~= a);
        assert(a + b =~= a);
    }
}

/// A whole number that was written in decimal reads as the double nearest to it.
pub proof fn a_decimal_reads_as_its_number(n: nat)
    ensures
        parse(text::decimal(n)) == Some(of(n)),
{
    text::a_decimal_is_a_word(n);
    text::decimal_reads_back(n);
    a_number_reads_as_what_its_digits_say(text::decimal(n), Seq::empty());
}

/// Rounding gives the nearest whole number: it is at most a half away, and where two
/// are equally near it is the even one.
pub proof fn the_nearest_whole_number_is_taken(a: nat, b: nat)
    requires
        b > 0,
    ensures
        2 * (rounded(a, b) * b) <= 2 * a + b,
        2 * a <= 2 * (rounded(a, b) * b) + b,
        2 * (rounded(a, b) * b) == 2 * a + b || 2 * a == 2 * (rounded(a, b) * b) + b ==> rounded(
            a,
            b,
        ) % 2 == 0,
{
    let (q, r) = (a / b, a % b);
    vstd::arithmetic::div_mod::lemma_fundamental_div_mod(a as int, b as int);
    let n = rounded(a, b);
    assert(q * b == b * q && (q + 1) * b == b * q + b) by (nonlinear_arith);
}

/// A finite double is the nearest of its kind: no further from the exact result than
/// half of the step to its neighbour.
pub proof fn a_result_is_within_half_a_step(negative: bool, n: nat, d: nat)
    requires
        d > 0,
        nearest(negative, n, d) is Finite,
        nearest(negative, n, d)->mantissa < 0x1f_ffff_ffff_ffff,
    ensures
        ({
            let x = nearest(negative, n, d);
            let step = d * big::two(x->shift as nat);
            &&& 2 * (x.magnitude() * d) <= 2 * n + step
            &&& 2 * n <= 2 * (x.magnitude() * d) + step
            &&& x.is_negative() == negative
        }),
{
    let k = fit(n, d, 0);
    big::lemma_two_small();
    big::lemma_two_add(k, 0);
    let t = big::two(k);
    let u = d * t;
    assert(u > 0) by (nonlinear_arith)
        requires
            u == d * t,
            d > 0,
            t > 0,
    ;
    let q = rounded(n, u);
    the_nearest_whole_number_is_taken(n, u);
    lemma_at_fit(n, d);
    let x = nearest(negative, n, d);
    if q < big::two(53) {
        assert((q * t) * d == q * u) by (nonlinear_arith)
            requires
                u == d * t,
        ;
    } else {
        big::lemma_two_add(1, k);
        let h: nat = 0x10_0000_0000_0000;
        assert((h * (2 * t)) * d == q * u) by (nonlinear_arith)
            requires
                u == d * t,
                q == 0x20_0000_0000_0000,
                h == 0x10_0000_0000_0000,
        ;
        assert(d * (2 * t) == 2 * u) by (nonlinear_arith)
            requires
                u == d * t,
        ;
    }
}

proof fn lemma_digits_join(a: Seq<char>, b: Seq<char>)
    ensures
        text::digits_value(a + b, 10) == text::digits_value(a, 10) * big::ten(b.len())
            + text::digits_value(b, 10),
    decreases b.len(),
{
    if b.len() == 0 {
        assert(a + b =~= a);
        assert(big::ten(0) == 1);
        let v = text::digits_value(a, 10);
        assert(v * 1 == v) by (nonlinear_arith);
    } else {
        let c = b.drop_last();
        lemma_digits_join(a, c);
        assert((a + b).drop_last() =~= a + c);
        assert((a + b).last() == b.last());
        let (v, t, w) = (text::digits_value(a, 10), big::ten(c.len()), text::digits_value(c, 10));
        assert((v * t + w) * 10 == v * (10 * t) + w * 10) by (nonlinear_arith);
    }
}

proof fn lemma_padded(n: nat, digits: nat)
    requires
        n < big::ten(digits),
    ensures
        padded(n, digits).len() == digits,
        is_digits(padded(n, digits)),
        text::digits_value(padded(n, digits), 10) == n,
    decreases digits,
{
    if digits == 0 {
        assert(big::ten(0) == 1);
    } else {
        let t = big::ten((digits - 1) as nat);
        assert(n / 10 < t) by (nonlinear_arith)
            requires
                n < 10 * t,
        ;
        lemma_padded(n / 10, (digits - 1) as nat);
        let p = padded(n / 10, (digits - 1) as nat);
        let s = p.push(text::digit_char(n % 10));
        assert(s.drop_last() =~= p);
        assert forall|i: int| 0 <= i < s.len() implies '0' <= #[trigger] s[i] <= '9' by {
            if i < p.len() {
                assert(s[i] == p[i]);
            }
        }
        assert(text::digit(text::digit_char(n % 10)) == Some(n % 10));
    }
}

/// A number that is written with digits after the point is the nearest that so many
/// digits can write: read back, it is at most half of the last digit away.
pub proof fn what_is_written_is_nearest(a: nat, b: nat, digits: nat) -> (parts: (
    Seq<char>,
    Seq<char>,
))
    requires
        b > 0,
        digits > 0,
    ensures
        fixed(a, b, digits) == parts.0 + seq!['.'] + parts.1,
        is_digits(parts.0) && parts.0.len() > 0,
        is_digits(parts.1) && parts.1.len() == digits,
        2 * (text::digits_value(parts.0 + parts.1, 10) * b) <= 2 * (a * big::ten(digits)) + b,
        2 * (a * big::ten(digits)) <= 2 * (text::digits_value(parts.0 + parts.1, 10) * b) + b,
{
    let scale = big::ten(digits);
    lemma_tens(digits, 0);
    let q = rounded(a * scale, b);
    the_nearest_whole_number_is_taken(a * scale, b);
    let (w, f) = (text::decimal(q / scale), padded(q % scale, digits));
    text::a_decimal_is_a_word(q / scale);
    text::decimal_reads_back(q / scale);
    lemma_padded(q % scale, digits);
    lemma_digits_join(w, f);
    vstd::arithmetic::div_mod::lemma_fundamental_div_mod(q as int, scale as int);
    let (x, y) = (q / scale, scale);
    assert(x * y == y * x) by (nonlinear_arith);
    (w, f)
}

/// A factor that numerator and denominator share does not change what is nearest.
pub proof fn a_common_factor_is_no_matter(n: nat, d: nat, t: nat)
    requires
        d > 0,
        t > 0,
    ensures
        nearest(false, n * t, d * t) == nearest(false, n, d),
{
    lemma_fit_scaled(n, d, t, 0);
    let k = fit(n, d, 0);
    big::lemma_two_add(k, 0);
    let s = big::two(k);
    assert((d * t) * s == (d * s) * t && d * s > 0) by (nonlinear_arith)
        requires
            d > 0,
            s > 0,
    ;
    lemma_rounded_scaled(n, d * s, t);
}

proof fn lemma_fit_scaled(n: nat, d: nat, t: nat, k: nat)
    requires
        d > 0,
        t > 0,
    ensures
        fit(n * t, d * t, k) == fit(n, d, k),
    decreases 2046 - k,
{
    if k <= MAX_SHIFT {
        let s = big::two(53 + k);
        assert((n * t < (d * t) * s) == (n < d * s)) by (nonlinear_arith)
            requires
                t > 0,
        {
            assert((d * t) * s == (d * s) * t);
            if n < d * s {
                assert(n * t < (d * s) * t);
            } else {
                assert(n * t >= (d * s) * t);
            }
        }
        lemma_fit_scaled(n, d, t, k + 1);
    }
}

} // verus!

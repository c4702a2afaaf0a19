//! Natural numbers of any size.
//!
//! What a double stands for is a whole number of the smallest unit that it
//! counts in, and that number has up to two thousand bits. The few operations
//! here are those that rounding to a double and writing one out take.

use vstd::prelude::*;

verus! {

/// A natural number, as its digits to the base `2^64`, the lowest first.
#[derive(Debug)]
pub struct Big {
    /// The digits.
    pub limbs: Vec<u64>,
}

/// `2` to the power `n`.
pub open spec fn two(n: nat) -> nat
    decreases n,
{
    if n == 0 {
        1
    } else {
        2 * two((n - 1) as nat)
    }
}

/// The base of the digits.
pub open spec fn base() -> int {
    0x1_0000_0000_0000_0000
}

/// The number that the digits `s` make with the number `t` in front of them.
pub open spec fn onto(s: Seq<u64>, t: int) -> int
    decreases s.len(),
{
    if s.len() == 0 {
        t
    } else {
        onto(s.drop_last(), s.last() as int + base() * t)
    }
}

/// The number that the digits `s` make.
pub open spec fn number(s: Seq<u64>) -> int {
    onto(s, 0)
}

impl View for Big {
    type V = nat;

    open spec fn view(&self) -> nat {
        number(self.limbs@) as nat
    }
}

/// The digit of `s` at `i`, which is zero behind the last.
spec fn limb(s: Seq<u64>, i: int) -> int {
    if 0 <= i < s.len() {
        s[i] as int
    } else {
        0
    }
}

/// The number that the digits of `s` from `i` on make.
spec fn from(s: Seq<u64>, i: int) -> int {
    if 0 <= i < s.len() {
        number(s.skip(i))
    } else {
        0
    }
}

proof fn lemma_onto_first(s: Seq<u64>, t: int)
    requires
        s.len() > 0,
    ensures
        onto(s, t) == s[0] + base() * onto(s.skip(1), t),
    decreases s.len(),
{
    let u = s.last() as int + base() * t;
    if s.len() == 1 {
        assert(s.drop_last() =~= Seq::<u64>::empty());
        assert(s.skip(1) =~= Seq::<u64>::empty());
        assert(onto(s.drop_last(), u) == u);
        assert(onto(s.skip(1), t) == t);
    } else {
        lemma_onto_first(s.drop_last(), u);
        assert(s.drop_last().skip(1) =~= s.skip(1).drop_last());
        assert(s.skip(1).last() == s.last());
    }
}

proof fn lemma_onto_push(s: Seq<u64>, x: u64, t: int)
    ensures
        onto(s.push(x), t) == onto(s, x as int + base() * t),
{
    assert(s.push(x).drop_last() =~= s);
}

proof fn lemma_onto_sign(s: Seq<u64>, t: int)
    ensures
        t >= 0 ==> onto(s, t) >= 0,
        t < 0 ==> onto(s, t) < 0,
    decreases s.len(),
{
    if s.len() > 0 {
        lemma_onto_sign(s.drop_last(), s.last() as int + base() * t);
    }
}

proof fn lemma_from(s: Seq<u64>, i: int)
    requires
        0 <= i,
    ensures
        from(s, i) == limb(s, i) + base() * from(s, i + 1),
        from(s, i) >= 0,
        i == 0 ==> from(s, i) == number(s),
{
    if i < s.len() {
        lemma_onto_first(s.skip(i), 0);
        lemma_onto_sign(s.skip(i), 0);
        assert(s.skip(i).skip(1) =~= s.skip(i + 1));
        if i + 1 == s.len() {
            assert(s.skip(i + 1) =~= Seq::<u64>::empty());
        }
    }
    if i == 0 {
        assert(s.skip(0) =~= s);
    }
}

proof fn lemma_order(a: Seq<u64>, b: Seq<u64>, i: int)
    requires
        0 <= i,
        from(a, i) < from(b, i),
    ensures
        number(a) < number(b),
    decreases i,
{
    if i == 0 {
        lemma_from(a, 0);
        lemma_from(b, 0);
    } else {
        lemma_from(a, i - 1);
        lemma_from(b, i - 1);
        lemma_order(a, b, i - 1);
    }
}

/// Powers of two multiply by adding their exponents.
pub proof fn lemma_two_add(a: nat, b: nat)
    ensures
        two(a + b) == two(a) * two(b),
        two(a) > 0,
    decreases a,
{
    if a == 0 {
        assert(two(a) * two(b) == two(b)) by (nonlinear_arith)
            requires
                two(a) == 1,
        ;
    } else {
        lemma_two_add((a - 1) as nat, b);
        let x = two((a - 1) as nat);
        let y = two(b);
        assert((2 * x) * y == 2 * (x * y)) by (nonlinear_arith);
        assert((a + b - 1) as nat == (a - 1) as nat + b);
    }
}

/// The powers of two that fit in a digit.
pub proof fn lemma_two_small()
    ensures
        two(1) == 2,
        two(3) == 8,
        two(10) == 1024,
        two(32) == 0x1_0000_0000,
        two(52) == 0x10_0000_0000_0000,
        two(53) == 0x20_0000_0000_0000,
        two(63) == 0x8000_0000_0000_0000,
{
    reveal_with_fuel(two, 11);
    lemma_two_add(10, 10);
    lemma_two_add(20, 10);
    lemma_two_add(30, 2);
    lemma_two_add(30, 10);
    lemma_two_add(40, 10);
    lemma_two_add(50, 2);
    lemma_two_add(50, 3);
    lemma_two_add(50, 10);
    lemma_two_add(60, 3);
}

impl Big {
    /// The number `n`.
    pub fn of(n: u64) -> (r: Big)
        ensures
            r@ == n,
    {
        let mut limbs: Vec<u64> = Vec::new();
        limbs.push(n);
        proof {
            lemma_onto_push(Seq::empty(), n, 0);
            assert(limbs@ =~= Seq::<u64>::empty().push(n));
        }
        Big { limbs }
    }

    /// The same number once more.
    pub fn copy(&self) -> (r: Big)
        ensures
            r@ == self@,
    {
        self.times_plus(1, 0)
    }

    /// `k` times the number, and `c` more.
    pub fn times_plus(&self, k: u64, c: u64) -> (r: Big)
        ensures
            r@ == self@ * k + c,
    {
        let ghost v = self.limbs@;
        let mut out: Vec<u64> = Vec::new();
        let mut carry: u64 = c;
        let mut i: usize = 0;
        proof {
            lemma_from(v, 0);
        }
        while i < self.limbs.len()
            invariant
                v == self.limbs@,
                i <= v.len(),
                from(v, 0) * k + c == onto(out@, from(v, i as int) * k + carry),
            decreases v.len() - i,
        {
            let l: u64 = self.limbs[i];
            assert(l * k <= 0xffff_ffff_ffff_ffff * 0xffff_ffff_ffff_ffff) by (nonlinear_arith)
                requires
                    l <= 0xffff_ffff_ffff_ffff,
                    k <= 0xffff_ffff_ffff_ffff,
            ;
            let x: u128 = l as u128 * k as u128 + carry as u128;
            let lo: u64 = (x % 0x1_0000_0000_0000_0000) as u64;
            let hi: u64 = (x / 0x1_0000_0000_0000_0000) as u64;
            proof {
                lemma_from(v, i as int);
                let n = from(v, i + 1);
                assert((l + base() * n) * k + carry == lo + base() * (n * k + hi))
                    by (nonlinear_arith)
                    requires
                        l * k + carry == lo + base() * hi,
                ;
                lemma_onto_push(out@, lo, n * k + hi);
            }
            out.push(lo);
            carry = hi;
            i = i + 1;
        }
        proof {
            assert(from(v, i as int) * k == 0) by (nonlinear_arith)
                requires
                    from(v, i as int) == 0,
            ;
            lemma_onto_push(out@, carry, 0);
            assert(from(v, 0) * k >= 0) by (nonlinear_arith)
                requires
                    from(v, 0) >= 0,
                    k >= 0,
            ;
        }
        out.push(carry);
        Big { limbs: out }
    }

    /// Whether the number is below `other`.
    pub fn less(&self, other: &Big) -> (r: bool)
        ensures
            r == (self@ < other@),
    {
        let ghost a = self.limbs@;
        let ghost b = other.limbs@;
        proof {
            lemma_from(a, 0);
            lemma_from(b, 0);
        }
        let mut i: usize = if self.limbs.len() < other.limbs.len() {
            other.limbs.len()
        } else {
            self.limbs.len()
        };
        while i > 0
            invariant
                a == self.limbs@,
                b == other.limbs@,
                number(a) >= 0,
                number(b) >= 0,
                from(a, i as int) == from(b, i as int),
            decreases i,
        {
            i = i - 1;
            let x: u64 = if i < self.limbs.len() {
                self.limbs[i]
            } else {
                0
            };
            let y: u64 = if i < other.limbs.len() {
                other.limbs[i]
            } else {
                0
            };
            proof {
                lemma_from(a, i as int);
                lemma_from(b, i as int);
                if x < y {
                    lemma_order(a, b, i as int);
                } else if y < x {
                    lemma_order(b, a, i as int);
                }
            }
            if x < y {
                return true;
            }
            if y < x {
                return false;
            }
        }
        false
    }

    /// What is left of the number without `other`.
    pub fn minus(&self, other: &Big) -> (r: Big)
        requires
            other@ <= self@,
        ensures
            r@ == self@ - other@,
    {
        let ghost a = self.limbs@;
        let ghost b = other.limbs@;
        proof {
            lemma_from(a, 0);
            lemma_from(b, 0);
        }
        let n: usize = if self.limbs.len() < other.limbs.len() {
            other.limbs.len()
        } else {
            self.limbs.len()
        };
        let mut out: Vec<u64> = Vec::new();
        let mut borrow: u64 = 0;
        let mut i: usize = 0;
        while i < n
            invariant
                a == self.limbs@,
                b == other.limbs@,
                i <= n,
                n >= a.len(),
                n >= b.len(),
                borrow <= 1,
                number(a) - number(b) == onto(
                    out@,
                    from(a, i as int) - from(b, i as int) - borrow,
                ),
            decreases n - i,
        {
            let x: u64 = if i < self.limbs.len() {
                self.limbs[i]
            } else {
                0
            };
            let y: u64 = if i < other.limbs.len() {
                other.limbs[i]
            } else {
                0
            };
            let took: u128 = y as u128 + borrow as u128;
            let (lo, next): (u64, u64) = if x as u128 >= took {
                ((x as u128 - took) as u64, 0)
            } else {
                ((x as u128 + 0x1_0000_0000_0000_0000 - took) as u64, 1)
            };
            proof {
                lemma_from(a, i as int);
                lemma_from(b, i as int);
                lemma_onto_push(out@, lo, from(a, i + 1) - from(b, i + 1) - next);
            }
            out.push(lo);
            borrow = next;
            i = i + 1;
        }
        proof {
            lemma_onto_sign(out@, -(borrow as int));
        }
        Big { limbs: out }
    }

    /// How often `d` goes into the number, and what is left.
    pub fn over(&self, d: u64) -> (r: (Big, u64))
        requires
            d > 0,
        ensures
            r.0@ == self@ / d as nat,
            r.1 == self@ % d as nat,
    {
        let ghost v = self.limbs@;
        let mut q: Vec<u64> = self.limbs.clone();
        let mut rest: u64 = 0;
        let mut i: usize = self.limbs.len();
        while i > 0
            invariant
                v == self.limbs@,
                q@.len() == v.len(),
                i <= v.len(),
                rest < d,
                from(v, i as int) == d * from(q@, i as int) + rest,
            decreases i,
        {
            let ghost was = q@;
            i = i - 1;
            let x: u128 = rest as u128 * 0x1_0000_0000_0000_0000 + self.limbs[i] as u128;
            assert(x / d as u128 <= 0xffff_ffff_ffff_ffff) by (nonlinear_arith)
                requires
                    x <= rest * 0x1_0000_0000_0000_0000 + 0xffff_ffff_ffff_ffff,
                    rest < d,
                    d > 0,
            ;
            let digit: u64 = (x / d as u128) as u64;
            let left: u64 = (x % d as u128) as u64;
            q.set(i, digit);
            proof {
                lemma_from(v, i as int);
                lemma_from(q@, i as int);
                if i + 1 < v.len() {
                    assert(q@.skip(i + 1) =~= was.skip(i + 1));
                }
                let n = from(was, i + 1);
                vstd::arithmetic::div_mod::lemma_fundamental_div_mod(x as int, d as int);
                assert(base() * (d * n + rest) + v[i as int] == d * (digit + base() * n) + left)
                    by (nonlinear_arith)
                    requires
                        rest * base() + v[i as int] == d * digit + left,
                ;
            }
            rest = left;
        }
        proof {
            lemma_from(v, 0);
            lemma_from(q@, 0);
            let n = number(q@);
            assert(number(v) == n * d + rest) by (nonlinear_arith)
                requires
                    number(v) == d * n + rest,
            ;
            vstd::arithmetic::div_mod::lemma_fundamental_div_mod_converse(
                number(v),
                d as int,
                n,
                rest as int,
            );
        }
        (Big { limbs: q }, rest)
    }

    /// `2^n` times the number.
    pub fn shifted(&self, n: u32) -> (r: Big)
        ensures
            r@ == self@ * two(n as nat),
    {
        let mut r: Big = self.copy();
        let mut done: u32 = 0;
        assert(self@ * two(0) == self@) by (nonlinear_arith)
            requires
                two(0) == 1,
        ;
        while done < n
            invariant
                done <= n,
                r@ == self@ * two(done as nat),
            decreases n - done,
        {
            let step: u32 = if n - done >= 32 {
                32
            } else {
                1
            };
            let k: u64 = if step == 32 {
                0x1_0000_0000
            } else {
                2
            };
            proof {
                lemma_two_small();
                lemma_two_add(done as nat, step as nat);
                let (x, y) = (self@, two(done as nat));
                assert((x * y) * k == x * (y * k)) by (nonlinear_arith);
            }
            r = r.times_plus(k, 0);
            done = done + step;
        }
        r
    }

    /// `10^n` times the number.
    pub fn raised(&self, n: u128) -> (r: Big)
        ensures
            r@ == self@ * ten(n as nat),
    {
        let mut r: Big = self.copy();
        let mut done: u128 = 0;
        assert(self@ * ten(0) == self@) by (nonlinear_arith)
            requires
                ten(0) == 1,
        ;
        while done < n
            invariant
                done <= n,
                r@ == self@ * ten(done as nat),
            decreases n - done,
        {
            proof {
                let (x, y) = (self@, ten(done as nat));
                assert((x * y) * 10 == x * (10 * y)) by (nonlinear_arith);
            }
            r = r.times_plus(10, 0);
            done = done + 1;
        }
        r
    }

    /// The whole part of the number over `2^n`.
    pub fn lowered(&self, n: u32) -> (r: Big)
        ensures
            r@ == self@ / two(n as nat),
    {
        let mut r: Big = self.copy();
        let mut done: u32 = 0;
        assert(two(0) == 1);
        while done < n
            invariant
                done <= n,
                r@ == self@ / two(done as nat),
            decreases n - done,
        {
            let step: u32 = if n - done >= 32 {
                32
            } else {
                1
            };
            let k: u64 = if step == 32 {
                0x1_0000_0000
            } else {
                2
            };
            proof {
                lemma_two_small();
                lemma_two_add(done as nat, step as nat);
                vstd::arithmetic::div_mod::lemma_div_denominator(
                    self@ as int,
                    two(done as nat) as int,
                    k as int,
                );
            }
            r = r.over(k).0;
            done = done + step;
        }
        r
    }

    /// How often `d` goes into the number, and what is left.
    pub fn divided(&self, d: &Big) -> (r: (Big, Big))
        requires
            d@ > 0,
        ensures
            r.0@ == self@ / d@,
            r.1@ == self@ % d@,
    {
        let mut tops: Vec<Big> = Vec::new();
        let mut top: Big = d.copy();
        assert(d@ * two(0) == d@) by (nonlinear_arith)
            requires
                two(0) == 1,
        ;
        while !self.less(&top)
            invariant
                d@ > 0,
                top@ > 0,
                top@ == d@ * two(tops@.len()),
                forall|j: int| 0 <= j < tops@.len() ==> (#[trigger] tops@[j])@ == d@ * two(j as nat),
            decreases
                    (if self@ < top@ {
                        0
                    } else {
                        self@ - top@ + 1
                    }),
        {
            proof {
                lemma_two_small();
                lemma_two_add(tops@.len(), 1);
                let (x, y) = (d@, two(tops@.len()));
                assert((x * y) * 2 == x * (y * 2)) by (nonlinear_arith);
            }
            let next = top.times_plus(2, 0);
            tops.push(top);
            top = next;
        }
        let mut q: Big = Big::of(0);
        let mut rest: Big = self.copy();
        let mut i: usize = tops.len();
        let ghost limit = d@ * two(i as nat);
        assert(0 * limit == 0) by (nonlinear_arith);
        while i > 0
            invariant
                i <= tops@.len(),
                forall|j: int| 0 <= j < tops@.len() ==> (#[trigger] tops@[j])@ == d@ * two(j as nat),
                self@ == q@ * (d@ * two(i as nat)) + rest@,
                rest@ < d@ * two(i as nat),
            decreases i,
        {
            i = i - 1;
            proof {
                lemma_two_small();
                lemma_two_add(i as nat, 1);
                let (x, y, n, r) = (d@, two(i as nat), q@, rest@);
                assert(x * (y * 2) == 2 * (x * y)) by (nonlinear_arith);
                let t = x * y;
                assert(n * (2 * t) == (n * 2) * t) by (nonlinear_arith);
                assert((n * 2 + 1) * t == (n * 2) * t + t) by (nonlinear_arith);
            }
            if rest.less(&tops[i]) {
                q = q.times_plus(2, 0);
            } else {
                rest = rest.minus(&tops[i]);
                q = q.times_plus(2, 1);
            }
        }
        proof {
            assert(d@ * two(0) == d@) by (nonlinear_arith)
                requires
                    two(0) == 1,
            ;
            vstd::arithmetic::div_mod::lemma_fundamental_div_mod_converse(
                self@ as int,
                d@ as int,
                q@ as int,
                rest@ as int,
            );
        }
        (q, rest)
    }

    /// The number, where it is at most `max`.
    pub fn within(&self, max: u64) -> (r: Option<u64>)
        ensures
            match r {
                Some(n) => n == self@ && n <= max,
                None => self@ > max,
            },
    {
        let ghost v = self.limbs@;
        proof {
            lemma_from(v, 0);
        }
        let top = Big::of(max);
        if top.less(self) {
            return None;
        }
        let low: u64 = if self.limbs.len() > 0 {
            self.limbs[0]
        } else {
            0
        };
        proof {
            lemma_from(v, 1);
            assert(from(v, 1) == 0) by (nonlinear_arith)
                requires
                    from(v, 1) >= 0,
                    limb(v, 0) + base() * from(v, 1) <= 0xffff_ffff_ffff_ffff,
                    limb(v, 0) >= 0,
            ;
        }
        Some(low)
    }
}

/// `10` to the power `n`.
pub open spec fn ten(n: nat) -> nat
    decreases n,
{
    if n == 0 {
        1
    } else {
        10 * ten((n - 1) as nat)
    }
}

} // verus!

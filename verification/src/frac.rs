//! Exact rational arithmetic for tallies and transfer values.
//!
//! A `Frac` is a non-negative rational kept in canonical (fully reduced)
//! form, so that equal values are structurally equal and fractions can be
//! used as ordered bucket keys.  Numerator and denominator are held as
//! `u64`; all intermediate products are computed in `u128`, which cannot
//! overflow for 64-bit operands.
//!
//! The 64-bit bound is a deliberate trade against arbitrary precision:
//! tallies are integers below the 32-bit valid-vote total, surplus values
//! are ratios of such integers, and the one place sums of fractions
//! accumulate (a round's exhausted value) adds the same transfer value
//! repeatedly, which reduction keeps small.  Where an exact value would
//! ever outgrow the bound, every operation reports it (`None`, or a
//! counting overflow error) rather than rounding or wrapping.

use vstd::prelude::*;

verus! {

/// Mathematical greatest common divisor on naturals.
pub open spec fn gcd(a: nat, b: nat) -> nat
    decreases b,
{
    if b == 0 {
        a
    } else {
        gcd(b, a % b)
    }
}

/// `d` divides `n`.
pub open spec fn divides(d: int, n: int) -> bool {
    exists|k: int| n == #[trigger] (d * k)
}

proof fn lemma_divides_mod(d: int, n: int)
    requires
        d > 0,
        divides(d, n),
    ensures
        n % d == 0,
{
    let k = choose|k: int| n == #[trigger] (d * k);
    vstd::arithmetic::div_mod::lemma_mod_multiples_basic(k, d);
    assert((d * k) % d == 0);
}

/// Every common divisor of `a` and `b` is a common divisor of `b` and `a % b`,
/// and vice versa; hence Euclid's algorithm computes the gcd.
proof fn lemma_divides_step(d: int, a: int, b: int)
    requires
        d > 0,
        b > 0,
        a >= 0,
    ensures
        (divides(d, a) && divides(d, b)) <==> (divides(d, b) && divides(d, a % b)),
{
    vstd::arithmetic::div_mod::lemma_fundamental_div_mod(a, b);
    let q = a / b;
    assert(a == b * q + a % b);
    if divides(d, a) && divides(d, b) {
        let ka = choose|k: int| a == #[trigger] (d * k);
        let kb = choose|k: int| b == #[trigger] (d * k);
        assert(a % b == a - b * q);
        assert(a - b * q == d * ka - (d * kb) * q);
        assert(d * ka - (d * kb) * q == d * (ka - kb * q)) by (nonlinear_arith);
        assert(a % b == d * (ka - kb * q));
    }
    if divides(d, b) && divides(d, a % b) {
        let kb = choose|k: int| b == #[trigger] (d * k);
        let km = choose|k: int| a % b == #[trigger] (d * k);
        assert(a == (d * kb) * q + d * km);
        assert((d * kb) * q + d * km == d * (kb * q + km)) by (nonlinear_arith);
    }
}

/// The gcd divides both arguments, and every common divisor divides the gcd.
pub proof fn lemma_gcd_properties(a: nat, b: nat)
    ensures
        divides(gcd(a, b) as int, a as int),
        divides(gcd(a, b) as int, b as int),
        forall|d: int| d > 0 && divides(d, a as int) && divides(d, b as int)
            ==> #[trigger] divides(d, gcd(a, b) as int),
        a > 0 || b > 0 ==> gcd(a, b) > 0,
    decreases b,
{
    if b == 0 {
        assert(divides(a as int, a as int)) by {
            assert(a as int == (a as int) * 1);
        }
        assert(divides(a as int, 0int)) by {
            assert(0int == (a as int) * 0);
        }
        assert forall|d: int| d > 0 && divides(d, a as int) && divides(d, 0int)
            implies #[trigger] divides(d, gcd(a, 0) as int) by {}
    } else {
        vstd::arithmetic::div_mod::lemma_mod_division_less_than_divisor(a as int, b as int);
        lemma_gcd_properties(b, (a % b) as nat);
        let g = gcd(b, (a % b) as nat) as int;
        assert(g > 0);
        lemma_divides_step(g, a as int, b as int);
        assert(divides(g, a as int));
        assert forall|d: int| d > 0 && divides(d, a as int) && divides(d, b as int)
            implies #[trigger] divides(d, gcd(a, b) as int) by {
            lemma_divides_step(d, a as int, b as int);
        }
    }
}

/// Euclid's algorithm.
pub fn gcd_exec(a: u64, b: u64) -> (g: u64)
    ensures
        g == gcd(a as nat, b as nat),
{
    let mut x = a;
    let mut y = b;
    while y != 0
        invariant
            gcd(x as nat, y as nat) == gcd(a as nat, b as nat),
        decreases y,
    {
        proof {
            vstd::arithmetic::div_mod::lemma_mod_division_less_than_divisor(
                x as int,
                y as int,
            );
            vstd::arithmetic::div_mod::lemma_mod_bound(x as int, y as int);
        }
        let r = x % y;
        x = y;
        y = r;
    }
    x
}

/// A non-negative rational in canonical form: `gcd(num, den) == 1`, `den >= 1`.
#[derive(Clone, Copy, Debug, PartialEq, Eq, Structural)]
pub struct Frac {
    pub num: u64,
    pub den: u64,
}

impl Frac {
    /// Canonical-form invariant.
    pub open spec fn wf(self) -> bool {
        self.den >= 1 && gcd(self.num as nat, self.den as nat) == 1
    }

    /// Value equality between this fraction and `n / d`.
    pub open spec fn is_ratio(self, n: int, d: int) -> bool {
        self.num * d == n * self.den
    }

    /// Value comparison: `self <= other`.
    pub open spec fn spec_le(self, other: Frac) -> bool {
        self.num * other.den <= other.num * self.den
    }

    /// Value comparison: `self < other`.
    pub open spec fn spec_lt(self, other: Frac) -> bool {
        self.num * other.den < other.num * self.den
    }

    pub open spec fn is_zero_spec(self) -> bool {
        self.num == 0
    }

    /// Reduce `n / d` to canonical form.
    pub fn new(n: u64, d: u64) -> (r: Frac)
        requires
            d >= 1,
        ensures
            r.wf(),
            r.is_ratio(n as int, d as int),
            r.num == 0 <==> n == 0,
            n <= d ==> r.num <= r.den,
    {
        let g = gcd_exec(n, d);
        proof {
            lemma_gcd_properties(n as nat, d as nat);
            lemma_divides_mod(g as int, n as int);
            lemma_divides_mod(g as int, d as int);
        }
        let rn = n / g;
        let rd = d / g;
        proof {
            lemma_quotients_coprime(n as nat, d as nat);
            vstd::arithmetic::div_mod::lemma_fundamental_div_mod(n as int, g as int);
            vstd::arithmetic::div_mod::lemma_fundamental_div_mod(d as int, g as int);
            assert(n as int == g * (n as int / g as int));
            assert(d as int == g * (d as int / g as int));
            assert((rn * d as int) == (n * rd as int)) by {
                assert(rn as int * (g as int * rd as int) == (g as int * rn as int) * rd as int)
                    by (nonlinear_arith);
            }
            assert(rd >= 1) by {
                lemma_divisor_le(g as int, d as int);
                vstd::arithmetic::div_mod::lemma_div_non_zero(d as int, g as int);
            }
            if n <= d {
                vstd::arithmetic::div_mod::lemma_div_is_ordered(n as int, d as int, g as int);
            }
            if rn == 0 {
                assert(n as int == g * 0);
            }
        }
        Frac { num: rn, den: rd }
    }

    /// The fraction `n / 1`.
    pub fn from_u64(n: u64) -> (r: Frac)
        ensures
            r.wf(),
            r.num == n,
            r.den == 1,
    {
        proof {
            lemma_gcd_one(n as nat);
        }
        Frac { num: n, den: 1 }
    }

    pub fn zero() -> (r: Frac)
        ensures
            r.wf(),
            r.num == 0,
            r.den == 1,
    {
        Frac::from_u64(0)
    }

    pub fn one() -> (r: Frac)
        ensures
            r.wf(),
            r.num == 1,
            r.den == 1,
    {
        Frac::from_u64(1)
    }

    pub fn is_zero(&self) -> (r: bool)
        ensures
            r == self.is_zero_spec(),
    {
        self.num == 0
    }

    /// Value comparison, by cross-multiplication in 128 bits.
    pub fn le(&self, other: &Frac) -> (r: bool)
        ensures
            r == self.spec_le(*other),
    {
        proof {
            lemma_u64_mul_fits(self.num as int, other.den as int);
            lemma_u64_mul_fits(other.num as int, self.den as int);
        }
        (self.num as u128) * (other.den as u128) <= (other.num as u128) * (self.den as u128)
    }

    pub fn lt(&self, other: &Frac) -> (r: bool)
        ensures
            r == self.spec_lt(*other),
    {
        proof {
            lemma_u64_mul_fits(self.num as int, other.den as int);
            lemma_u64_mul_fits(other.num as int, self.den as int);
        }
        (self.num as u128) * (other.den as u128) < (other.num as u128) * (self.den as u128)
    }

    /// Value equality, by cross-multiplication in 128 bits.
    pub fn eq_value(&self, other: &Frac) -> (r: bool)
        ensures
            r == (self.num * other.den == other.num * self.den),
    {
        proof {
            lemma_u64_mul_fits(self.num as int, other.den as int);
            lemma_u64_mul_fits(other.num as int, self.den as int);
        }
        (self.num as u128) * (other.den as u128) == (other.num as u128) * (self.den as u128)
    }

    /// `floor(self * w)`, for a fraction at most one.
    pub fn mul_floor(&self, w: u64) -> (r: u64)
        requires
            self.wf(),
            self.num <= self.den,
        ensures
            r == (self.num * w) as int / self.den as int,
            r <= w,
    {
        proof {
            lemma_u64_mul_fits(self.num as int, w as int);
        }
        let p = (self.num as u128) * (w as u128);
        let q = p / (self.den as u128);
        proof {
            let n = self.num as int;
            let d = self.den as int;
            let wi = w as int;
            assert(n * wi <= d * wi) by (nonlinear_arith)
                requires n <= d, wi >= 0;
            vstd::arithmetic::div_mod::lemma_div_is_ordered(n * wi, d * wi, d);
            vstd::arithmetic::div_mod::lemma_div_multiples_vanish(wi, d);
            assert((d * wi) / d == wi);
        }
        q as u64
    }

    /// This fraction equals `base + k * t`, stated by cross-multiplication.
    pub open spec fn carries(self, base: Frac, t: Frac, k: int) -> bool {
        self.num * (base.den * t.den) == (base.num * t.den + k * (t.num * base.den))
            * self.den
    }

    /// The exact sum cannot be carried: either the unreduced numerator
    /// exceeds the 128-bit intermediate, or the reduced sum has no 64-bit
    /// canonical form.
    pub open spec fn add_fails(self, other: Frac) -> bool {
        let sn = self.num * other.den + other.num * self.den;
        let sd = self.den * other.den;
        let g = gcd(sn as nat, sd as nat) as int;
        sn > u128::MAX || sn / g > u64::MAX || sd / g > u64::MAX
    }

    /// Exact sum in canonical form, or `None` exactly when the result does
    /// not fit in 64 bits (or its unreduced numerator overflows the 128-bit
    /// intermediate).
    pub fn add(&self, other: &Frac) -> (r: Option<Frac>)
        requires
            self.wf(),
            other.wf(),
        ensures
            match r {
                Some(s) => {
                    &&& s.wf()
                    &&& s.num * (self.den * other.den)
                        == (self.num * other.den + other.num * self.den) * s.den
                    &&& !self.add_fails(*other)
                },
                None => self.add_fails(*other),
            },
    {
        proof {
            lemma_u64_mul_fits(self.num as int, other.den as int);
            lemma_u64_mul_fits(other.num as int, self.den as int);
            lemma_u64_mul_fits(self.den as int, other.den as int);
        }
        let p1 = (self.num as u128) * (other.den as u128);
        let p2 = (other.num as u128) * (self.den as u128);
        let sn = match p1.checked_add(p2) {
            Some(s) => s,
            None => {
                return None;
            },
        };
        let sd = (self.den as u128) * (other.den as u128);
        let g = gcd_exec128(sn, sd);
        proof {
            lemma_gcd_properties(sn as nat, sd as nat);
            assert(sd > 0) by (nonlinear_arith)
                requires self.den >= 1, other.den >= 1,
                    sd == (self.den as u128) * (other.den as u128);
            lemma_divides_mod(g as int, sn as int);
            lemma_divides_mod(g as int, sd as int);
        }
        let rn = sn / g;
        let rd = sd / g;
        if rn <= u64::MAX as u128 && rd <= u64::MAX as u128 {
            proof {
                assert(!self.add_fails(*other));
            }
            proof {
                lemma_quotients_coprime(sn as nat, sd as nat);
                vstd::arithmetic::div_mod::lemma_fundamental_div_mod(sn as int, g as int);
                vstd::arithmetic::div_mod::lemma_fundamental_div_mod(sd as int, g as int);
                assert(rd >= 1) by {
                    lemma_divisor_le(g as int, sd as int);
                    vstd::arithmetic::div_mod::lemma_div_non_zero(sd as int, g as int);
                }
                assert(rn as int * sd as int == sn as int * rd as int) by {
                    assert(rn as int * (g as int * rd as int)
                        == (g as int * rn as int) * rd as int) by (nonlinear_arith);
                }
            }
            Some(Frac { num: rn as u64, den: rd as u64 })
        } else {
            None
        }
    }
}

/// Euclid's algorithm in 128 bits.
fn gcd_exec128(a: u128, b: u128) -> (g: u128)
    ensures
        g == gcd(a as nat, b as nat),
{
    let mut x = a;
    let mut y = b;
    while y != 0
        invariant
            gcd(x as nat, y as nat) == gcd(a as nat, b as nat),
        decreases y,
    {
        proof {
            vstd::arithmetic::div_mod::lemma_mod_division_less_than_divisor(
                x as int,
                y as int,
            );
            vstd::arithmetic::div_mod::lemma_mod_bound(x as int, y as int);
        }
        let r = x % y;
        x = y;
        y = r;
    }
    x
}

/// A positive divisor of a positive number is at most that number.
proof fn lemma_divisor_le(d: int, n: int)
    requires
        d > 0,
        n > 0,
        divides(d, n),
    ensures
        d <= n,
{
    let k = choose|k: int| n == #[trigger] (d * k);
    assert(k >= 1) by (nonlinear_arith)
        requires d > 0, d * k > 0;
    assert(d * k >= d) by (nonlinear_arith)
        requires d > 0, k >= 1;
}

/// The product of two 64-bit values fits in 128 bits.
proof fn lemma_u64_mul_fits(a: int, b: int)
    requires
        0 <= a <= u64::MAX,
        0 <= b <= u64::MAX,
    ensures
        0 <= a * b <= u128::MAX,
{
    vstd::arithmetic::mul::lemma_mul_upper_bound(a, u64::MAX as int, b, u64::MAX as int);
    vstd::arithmetic::mul::lemma_mul_nonnegative(a, b);
    assert((u64::MAX as int) * (u64::MAX as int) <= u128::MAX as int) by (nonlinear_arith);
}

proof fn lemma_gcd_one(n: nat)
    ensures
        gcd(n, 1) == 1,
{
    assert(n % 1 == 0) by {
        vstd::arithmetic::div_mod::lemma_mod_multiples_basic(n as int, 1);
        assert((n as int) * 1 == n as int);
    }
    assert(gcd(n, 1) == gcd(1, n % 1));
    assert(gcd(1, 0) == 1);
}

/// After dividing out the gcd, the quotients are coprime.
proof fn lemma_quotients_coprime(a: nat, b: nat)
    requires
        b > 0,
    ensures
        ({
            let g = gcd(a, b) as int;
            gcd((a as int / g) as nat, (b as int / g) as nat) == 1
        }),
{
    lemma_gcd_properties(a, b);
    let g = gcd(a, b) as int;
    assert(g > 0);
    lemma_divides_mod(g, a as int);
    lemma_divides_mod(g, b as int);
    vstd::arithmetic::div_mod::lemma_fundamental_div_mod(a as int, g);
    vstd::arithmetic::div_mod::lemma_fundamental_div_mod(b as int, g);
    let qa = a as int / g;
    let qb = b as int / g;
    assert(a as int == g * qa);
    assert(b as int == g * qb);
    assert(qa >= 0 && qb > 0) by {
        lemma_divisor_le(g, b as int);
        vstd::arithmetic::div_mod::lemma_div_non_zero(b as int, g);
        vstd::arithmetic::div_mod::lemma_div_pos_is_pos(a as int, g);
    }
    let h = gcd(qa as nat, qb as nat) as int;
    lemma_gcd_properties(qa as nat, qb as nat);
    assert(h > 0);
    if h != 1 {
        // g * h is a common divisor of a and b larger than g: contradiction.
        let ka = choose|k: int| qa == #[trigger] (h * k);
        let kb = choose|k: int| qb == #[trigger] (h * k);
        assert(a as int == (g * h) * ka) by (nonlinear_arith)
            requires a as int == g * qa, qa == h * ka;
        assert(b as int == (g * h) * kb) by (nonlinear_arith)
            requires b as int == g * qb, qb == h * kb;
        assert(divides(g * h, a as int));
        assert(divides(g * h, b as int));
        assert(g * h > 0) by (nonlinear_arith)
            requires g > 0, h > 0;
        assert(divides(g * h, g));
        let m = choose|k: int| g == #[trigger] ((g * h) * k);
        assert(g == g * (h * m)) by (nonlinear_arith)
            requires g == (g * h) * m;
        assert(h * m == 1) by (nonlinear_arith)
            requires g == g * (h * m), g > 0;
        assert(h > 1 && m >= 1 ==> h * m > 1) by (nonlinear_arith);
        assert(m >= 1) by (nonlinear_arith)
            requires h * m == 1, h > 0;
    }
}

} // verus!

verus! {

/// Chaining exact additions: if `b` carries `a` plus `k` copies of `t`,
/// and `c` is the exact sum of `b` and `t`, then `c` carries `a` plus
/// `k + 1` copies of `t`.
pub proof fn lemma_add_chain(a: Frac, b: Frac, c: Frac, t: Frac, k: int)
    requires
        a.den >= 1,
        b.den >= 1,
        c.den >= 1,
        t.den >= 1,
        k >= 0,
        b.num * (a.den * t.den) == (a.num * t.den + k * (t.num * a.den)) * b.den,
        c.num * (b.den * t.den) == (b.num * t.den + t.num * b.den) * c.den,
    ensures
        c.num * (a.den * t.den) == (a.num * t.den + (k + 1) * (t.num * a.den)) * c.den,
{
    let x = a.num * t.den + k * (t.num * a.den);
    let y = a.num * t.den + (k + 1) * (t.num * a.den);
    let p = b.den * t.den;
    assert(p >= 1) by (nonlinear_arith)
        requires
            b.den >= 1,
            t.den >= 1,
            p == b.den * t.den,
    ;
    // scale the sum identity by a.den * t.den
    assert((c.num * (b.den * t.den)) * (a.den * t.den) == ((b.num * t.den + t.num * b.den)
        * c.den) * (a.den * t.den)) by (nonlinear_arith)
        requires
            c.num * (b.den * t.den) == (b.num * t.den + t.num * b.den) * c.den,
    ;
    // ring rearrangement of both sides
    assert((c.num * (b.den * t.den)) * (a.den * t.den) == (c.num * (a.den * t.den)) * p)
        by (nonlinear_arith)
        requires
            p == b.den * t.den,
    ;
    assert(((b.num * t.den + t.num * b.den) * c.den) * (a.den * t.den) == (c.den * t.den)
        * (b.num * (a.den * t.den)) + (c.den * (t.num * a.den)) * p) by (nonlinear_arith)
        requires
            p == b.den * t.den,
    ;
    // substitute the chain hypothesis
    assert((c.den * t.den) * (b.num * (a.den * t.den)) == (c.den * t.den) * (x * b.den))
        by (nonlinear_arith)
        requires
            b.num * (a.den * t.den) == x * b.den,
    ;
    assert((c.den * t.den) * (x * b.den) + (c.den * (t.num * a.den)) * p == ((x + t.num
        * a.den) * c.den) * p) by (nonlinear_arith)
        requires
            p == b.den * t.den,
    ;
    assert(x + t.num * a.den == y) by (nonlinear_arith)
        requires
            x == a.num * t.den + k * (t.num * a.den),
            y == a.num * t.den + (k + 1) * (t.num * a.den),
    ;
    assert((c.num * (a.den * t.den)) * p == (y * c.den) * p);
    // divide the common positive factor out
    assert(c.num * (a.den * t.den) == y * c.den) by (nonlinear_arith)
        requires
            (c.num * (a.den * t.den)) * p == (y * c.den) * p,
            p >= 1,
    ;
}

} // verus!

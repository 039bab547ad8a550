use vstd::prelude::*;
use vstd::arithmetic::div_mod::{
    lemma_fundamental_div_mod, lemma_mod_multiples_basic, lemma_mod_self_0, lemma_small_mod,
    lemma_mod_add_multiples_vanish, lemma_truncate_middle, lemma_div_multiples_vanish,
    lemma_div_denominator, lemma_div_by_self, lemma_div_of0,
};
use vstd::arithmetic::mul::{
    lemma_mul_is_commutative, lemma_mul_is_associative, lemma_mul_strict_inequality,
    lemma_mul_strict_inequality_converse, lemma_mul_equality_converse,
};

verus! {

/// Exact fractional position around a ring, in the half-open interval
/// from zero (inclusive) to one full turn (exclusive), kept in lowest
/// terms so that equal positions are structurally equal.
#[derive(PartialEq, Eq, Structural, Clone, Copy, Debug)]
pub struct Angle {
    pub num: u64,
    pub den: u64,
}

/// Greatest common divisor, by Euclid's recurrence.
pub open spec fn gcd(a: nat, b: nat) -> nat
    decreases b,
{
    if b == 0 {
        a
    } else {
        gcd(b, a % b)
    }
}

/// An angle is well formed when it lies below one full turn and its
/// fraction is in lowest terms.
pub open spec fn angle_wf(a: Angle) -> bool {
    &&& a.den > 0
    &&& a.num < a.den
    &&& gcd(a.num as nat, a.den as nat) == 1
}

/// The angle obtained by bringing the fraction k / d into lowest terms.
pub open spec fn reduced_angle(k: nat, d: nat) -> Angle {
    Angle { num: (k / gcd(k, d)) as u64, den: (d / gcd(k, d)) as u64 }
}

/// The position of a grid angle as a step count on a ring divided into
/// d equal steps.
pub open spec fn step_of(a: Angle, d: nat) -> nat {
    (a.num as nat) * (d / (a.den as nat))
}

/// A well-formed angle that falls on the uniform grid with d steps.
pub open spec fn on_grid(a: Angle, d: nat) -> bool {
    &&& angle_wf(a)
    &&& d > 0
    &&& d % (a.den as nat) == 0
}

/// Exact order on angles, by cross multiplication.
pub open spec fn angle_lt(a: Angle, b: Angle) -> bool {
    (a.num as nat) * (b.den as nat) < (b.num as nat) * (a.den as nat)
}

/// The grid angle one step clockwise of a, wrapping at a full turn.
pub open spec fn spec_next(a: Angle, d: nat) -> Angle {
    reduced_angle((step_of(a, d) + 1) % d, d)
}

/// The grid angle one step counter-clockwise of a, wrapping at zero.
pub open spec fn spec_prev(a: Angle, d: nat) -> Angle {
    reduced_angle(((step_of(a, d) + d - 1) as nat) % d, d)
}

/// The first step of any ring reduces to the zero angle.
pub proof fn lemma_reduced_zero(d: nat)
    requires
        d > 0,
    ensures
        reduced_angle(0, d) == (Angle { num: 0, den: 1 }),
{
    assert(0nat % d == 0);
    assert(gcd(0, d) == gcd(d, 0));
    assert(gcd(d, 0) == d);
    lemma_div_of0(d as int);
    lemma_div_by_self(d as int);
}

/// The gcd is positive and divides both of its arguments.
pub proof fn lemma_gcd_divides(a: nat, b: nat)
    requires
        a > 0 || b > 0,
    ensures
        gcd(a, b) > 0,
        a % gcd(a, b) == 0,
        b % gcd(a, b) == 0,
    decreases b,
{
    if b == 0 {
        assert(gcd(a, b) == a);
        lemma_mod_self_0(a as int);
        lemma_mod_multiples_basic(0, a as int);
    } else {
        lemma_gcd_divides(b, a % b);
        let g = gcd(b, a % b);
        assert(gcd(a, b) == g);
        lemma_fundamental_div_mod(a as int, b as int);
        lemma_fundamental_div_mod(b as int, g as int);
        lemma_fundamental_div_mod((a % b) as int, g as int);
        let q = a as int / b as int;
        let b1 = b as int / g as int;
        let r1 = (a % b) as int / g as int;
        assert(a as int == (g as int) * (b1 * q + r1)) by (nonlinear_arith)
            requires
                a as int == (b as int) * q + ((a % b) as int),
                b as int == (g as int) * b1,
                (a % b) as int == (g as int) * r1,
        ;
        lemma_mod_multiples_basic(b1 * q + r1, g as int);
        assert((g as int) * (b1 * q + r1) == (b1 * q + r1) * (g as int)) by {
            lemma_mul_is_commutative(g as int, b1 * q + r1);
        }
    }
}

/// Scaling both arguments of the gcd scales the gcd.
pub proof fn lemma_gcd_scale(a: nat, b: nat, t: nat)
    requires
        t > 0,
    ensures
        gcd(a * t, b * t) == t * gcd(a, b),
    decreases b,
{
    if b == 0 {
        assert(b * t == 0);
        assert(gcd(a * t, 0) == a * t);
        lemma_mul_is_commutative(a as int, t as int);
    } else {
        assert(b * t > 0) by (nonlinear_arith)
            requires b > 0 && t > 0,
        ;
        lemma_truncate_middle(a as int, t as int, b as int);
        assert((t as int) * (a as int) == (a * t) as int) by {
            lemma_mul_is_commutative(t as int, a as int);
        }
        assert((t as int) * (b as int) == (b * t) as int) by {
            lemma_mul_is_commutative(t as int, b as int);
        }
        assert((a * t) % (b * t) == t * (a % b)) by {
            lemma_mul_is_commutative(t as int, (a % b) as int);
        }
        lemma_gcd_scale(b, a % b, t);
        assert(gcd(a * t, b * t) == gcd(b * t, (a * t) % (b * t)));
        assert(gcd(b * t, (a % b) * t) == t * gcd(b, a % b)) by {
            lemma_mul_is_commutative(t as int, (a % b) as int);
        }
    }
}

/// Reducing k / d after multiplying both parts by t gives the same
/// angle as reducing k / d itself.
pub proof fn lemma_reduced_scale(k: nat, d: nat, t: nat)
    requires
        d > 0,
        t > 0,
    ensures
        reduced_angle(k * t, d * t) == reduced_angle(k, d),
{
    let g = gcd(k, d);
    lemma_gcd_divides(k, d);
    lemma_gcd_scale(k, d, t);
    assert(gcd(k * t, d * t) == t * g);
    assert(t * g > 0) by (nonlinear_arith)
        requires t > 0 && g > 0,
    ;
    lemma_quotient_scale(k, g, t);
    lemma_quotient_scale(d, g, t);
}

/// Dividing x * t by g * t gives x / g.
proof fn lemma_quotient_scale(x: nat, g: nat, t: nat)
    requires
        g > 0,
        t > 0,
    ensures
        (x * t) / (t * g) == x / g,
{
    lemma_mul_is_commutative(x as int, t as int);
    lemma_div_denominator((x * t) as int, t as int, g as int);
    assert((x * t) as int / (t as int) == x as int) by {
        lemma_mul_is_commutative(t as int, x as int);
        lemma_div_multiples_vanish(x as int, t as int);
    }
    assert((x * t) as int / ((t as int) * (g as int)) == ((x * t) as int / (t as int)) / (g as int));
    assert((t * g) as int == (t as int) * (g as int));
}

/// Reducing a step fraction yields a well-formed angle on the grid
/// whose step count is recovered exactly.
pub proof fn lemma_reduced_props(k: nat, d: nat)
    requires
        d > 0,
        k < d,
        d <= u64::MAX,
    ensures
        angle_wf(reduced_angle(k, d)),
        on_grid(reduced_angle(k, d), d),
        step_of(reduced_angle(k, d), d) == k,
{
    let g = gcd(k, d);
    lemma_gcd_divides(k, d);
    lemma_fundamental_div_mod(k as int, g as int);
    lemma_fundamental_div_mod(d as int, g as int);
    let kq = k / g;
    let dq = d / g;
    assert(k == g * kq);
    assert(d == g * dq);
    assert(kq <= k && dq <= d) by (nonlinear_arith)
        requires g > 0 && k == g * kq && d == g * dq,
    ;
    let a = reduced_angle(k, d);
    assert(a.num as nat == kq && a.den as nat == dq);
    assert(dq > 0) by (nonlinear_arith)
        requires g > 0 && d == g * dq && d > 0,
    ;
    assert(kq < dq) by (nonlinear_arith)
        requires g > 0 && k == g * kq && d == g * dq && k < d,
    ;
    assert(gcd(kq * g, dq * g) == g * gcd(kq, dq)) by {
        lemma_gcd_scale(kq, dq, g);
    }
    assert(kq * g == k && dq * g == d) by {
        lemma_mul_is_commutative(kq as int, g as int);
        lemma_mul_is_commutative(dq as int, g as int);
    }
    assert(gcd(k, d) == g);
    assert(gcd(kq, dq) == 1) by (nonlinear_arith)
        requires g > 0 && g == g * gcd(kq, dq),
    ;
    assert(angle_wf(a));
    // dq divides d, so a is on the grid with d steps.
    assert(d % dq == 0) by {
        lemma_mod_multiples_basic(g as int, dq as int);
        lemma_mul_is_commutative(g as int, dq as int);
    }
    // d / dq == g, so the step count kq * g == k is recovered.
    assert(d / dq == g) by {
        lemma_div_multiples_vanish(g as int, dq as int);
        lemma_mul_is_commutative(g as int, dq as int);
    }
    assert(step_of(a, d) == kq * g);
}

/// A well-formed grid angle is exactly the reduction of its own step
/// fraction.
pub proof fn lemma_reduced_identity(a: Angle, d: nat)
    requires
        on_grid(a, d),
    ensures
        reduced_angle(step_of(a, d), d) == a,
{
    let den = a.den as nat;
    let num = a.num as nat;
    let t = d / den;
    lemma_fundamental_div_mod(d as int, den as int);
    assert(d == den * t);
    assert(t > 0) by (nonlinear_arith)
        requires d > 0 && d == den * t,
    ;
    lemma_reduced_scale(num, den, t);
    assert(reduced_angle(num * t, den * t) == reduced_angle(num, den));
    assert(step_of(a, d) == num * t);
    assert(den * t == d);
    // a is already in lowest terms, so reducing it changes nothing.
    assert(num / 1 == num && den / 1 == den) by {
        lemma_div_multiples_vanish(num as int, 1);
        lemma_div_multiples_vanish(den as int, 1);
    }
    assert(reduced_angle(num, den) == a);
}

/// The step count of a grid angle is below the step total.
pub proof fn lemma_step_bound(a: Angle, d: nat)
    requires
        on_grid(a, d),
    ensures
        step_of(a, d) < d,
{
    let den = a.den as nat;
    let num = a.num as nat;
    let t = d / den;
    lemma_fundamental_div_mod(d as int, den as int);
    assert(d == den * t);
    assert(t > 0) by (nonlinear_arith)
        requires d > 0 && d == den * t,
    ;
    assert(num * t < den * t) by {
        lemma_mul_strict_inequality(num as int, den as int, t as int);
        lemma_mul_is_commutative(num as int, t as int);
        lemma_mul_is_commutative(den as int, t as int);
    }
}

/// Reduction of distinct step fractions respects the step order.
pub proof fn lemma_reduced_order(k1: nat, k2: nat, d: nat)
    requires
        d > 0,
        k1 < k2,
        k2 < d,
        d <= u64::MAX,
    ensures
        angle_lt(reduced_angle(k1, d), reduced_angle(k2, d)),
{
    lemma_reduced_props(k1, d);
    lemma_reduced_props(k2, d);
    let a = reduced_angle(k1, d);
    let b = reduced_angle(k2, d);
    lemma_value_relation(a, d, k1);
    lemma_value_relation(b, d, k2);
    let an = a.num as nat;
    let ad = a.den as nat;
    let bn = b.num as nat;
    let bd = b.den as nat;
    assert(an * bd * d < bn * ad * d) by (nonlinear_arith)
        requires
            an * d == k1 * ad,
            bn * d == k2 * bd,
            k1 < k2,
            ad > 0,
            bd > 0,
            d > 0,
    ;
    lemma_mul_strict_inequality_converse((an * bd) as int, (bn * ad) as int, d as int);
}

/// A grid angle's numerator times the step total equals its step count
/// times its denominator.
pub proof fn lemma_value_relation(a: Angle, d: nat, k: nat)
    requires
        on_grid(a, d),
        step_of(a, d) == k,
    ensures
        (a.num as nat) * d == k * (a.den as nat),
{
    let den = a.den as nat;
    let num = a.num as nat;
    let t = d / den;
    lemma_fundamental_div_mod(d as int, den as int);
    assert(d == den * t);
    assert(num * d == (num * t) * den) by (nonlinear_arith)
        requires d == den * t,
    ;
}

impl Angle {
    /// The angle at fraction num / den, brought into lowest terms.
    pub fn new(num: u64, den: u64) -> (r: Angle)
        requires
            den > 0,
            num < den,
        ensures
            r == reduced_angle(num as nat, den as nat),
            angle_wf(r),
            on_grid(r, den as nat),
            step_of(r, den as nat) == num as nat,
    {
        proof {
            lemma_reduced_props(num as nat, den as nat);
            lemma_gcd_divides(num as nat, den as nat);
            lemma_fundamental_div_mod(num as int, gcd(num as nat, den as nat) as int);
            lemma_fundamental_div_mod(den as int, gcd(num as nat, den as nat) as int);
        }
        let g = gcd_u64(num, den);
        Angle { num: num / g, den: den / g }
    }

    /// The angle at step zero of any ring.
    pub fn zero() -> (r: Angle)
        ensures
            r == (Angle { num: 0, den: 1 }),
            angle_wf(r),
    {
        proof {
            assert(gcd(0, 1) == gcd(1, 0));
        }
        Angle { num: 0, den: 1 }
    }

    /// The step count of this angle on a ring with steps equal steps.
    pub fn step_on_ring(&self, steps: u64) -> (k: u64)
        requires
            on_grid(*self, steps as nat),
        ensures
            k as nat == step_of(*self, steps as nat),
            k < steps,
    {
        proof {
            lemma_step_bound(*self, steps as nat);
        }
        self.num * (steps / self.den)
    }

    /// The grid angle one step clockwise, wrapping at a full turn.
    pub fn next_on_ring(&self, steps: u64) -> (r: Angle)
        requires
            on_grid(*self, steps as nat),
        ensures
            r == spec_next(*self, steps as nat),
            on_grid(r, steps as nat),
    {
        let k = self.step_on_ring(steps);
        let k2 = if k + 1 == steps {
            0
        } else {
            k + 1
        };
        proof {
            if k + 1 == steps {
                lemma_mod_self_0(steps as int);
            } else {
                lemma_small_mod((k + 1) as nat, steps as nat);
            }
            lemma_reduced_props(k2 as nat, steps as nat);
        }
        Angle::new(k2, steps)
    }

    /// The grid angle one step counter-clockwise, wrapping at zero.
    pub fn prev_on_ring(&self, steps: u64) -> (r: Angle)
        requires
            on_grid(*self, steps as nat),
        ensures
            r == spec_prev(*self, steps as nat),
            on_grid(r, steps as nat),
    {
        let k = self.step_on_ring(steps);
        let k2 = if k == 0 {
            steps - 1
        } else {
            k - 1
        };
        proof {
            if k == 0 {
                lemma_small_mod((steps - 1) as nat, steps as nat);
            } else {
                lemma_mod_add_multiples_vanish((k - 1) as int, steps as int);
                lemma_small_mod((k - 1) as nat, steps as nat);
            }
            lemma_reduced_props(k2 as nat, steps as nat);
        }
        Angle::new(k2, steps)
    }
}

/// Euclid's algorithm.
fn gcd_u64(a: u64, b: u64) -> (g: u64)
    ensures
        g as nat == gcd(a as nat, b as nat),
{
    let mut x: u64 = a;
    let mut y: u64 = b;
    while y != 0
        invariant
            gcd(x as nat, y as nat) == gcd(a as nat, b as nat),
        decreases y,
    {
        let r = x % y;
        x = y;
        y = r;
    }
    x
}

/// Stepping clockwise and then counter-clockwise, or the other way
/// around, returns to the same grid angle.
pub proof fn lemma_angle_round_trip(a: Angle, d: nat)
    requires
        on_grid(a, d),
        d <= u64::MAX,
    ensures
        spec_prev(spec_next(a, d), d) == a,
        spec_next(spec_prev(a, d), d) == a,
{
    let k = step_of(a, d);
    lemma_step_bound(a, d);
    lemma_reduced_identity(a, d);
    // Forward then back.
    let kn = (k + 1) % d;
    if k + 1 == d {
        lemma_mod_self_0(d as int);
        assert(kn == 0);
    } else {
        lemma_small_mod((k + 1) as nat, d);
    }
    lemma_reduced_props(kn, d);
    let b = spec_next(a, d);
    assert(step_of(b, d) == kn);
    let kb = ((kn + d - 1) as nat) % d;
    if k + 1 == d {
        lemma_small_mod((d - 1) as nat, d);
        assert(kb == k);
    } else {
        lemma_mod_add_multiples_vanish(k as int, d as int);
        lemma_small_mod(k, d);
        assert(kb == k);
    }
    assert(spec_prev(b, d) == reduced_angle(k, d));
    // Back then forward.
    let kp = ((k + d - 1) as nat) % d;
    if k == 0 {
        lemma_small_mod((d - 1) as nat, d);
        assert(kp == d - 1);
    } else {
        lemma_mod_add_multiples_vanish((k - 1) as int, d as int);
        lemma_small_mod((k - 1) as nat, d);
        assert(kp == k - 1);
    }
    lemma_reduced_props(kp, d);
    let c = spec_prev(a, d);
    assert(step_of(c, d) == kp);
    let kc = (kp + 1) % d;
    if k == 0 {
        lemma_mod_self_0(d as int);
        assert(kc == 0);
    } else {
        lemma_small_mod(k, d);
        assert(kc == k);
    }
    assert(spec_next(c, d) == reduced_angle(k, d));
}

} // verus!

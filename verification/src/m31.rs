//! The base field `M31 = Z / (2^31 - 1)`.
use vstd::prelude::*;
use vstd::arithmetic::power::pow;

verus! {

/// The Mersenne prime `2^31 - 1`, the modulus of the base field.
pub const P: u32 = 2147483647;

/// Reduction of an integer into `[0, P)`.
pub open spec fn modp(x: int) -> int {
    x % (P as int)
}

/// An element of the base field, kept in canonical form `[0, P)`.
#[derive(Clone, Copy, Debug, PartialEq, Eq, Structural)]
pub struct M31 {
    pub(crate) v: u32,
}

/// The element whose value is `x`; meaningful for `0 <= x < P`.
pub closed spec fn m31_of(x: int) -> M31 {
    M31 { v: x as u32 }
}

pub broadcast proof fn lemma_m31_of_val(x: int)
    requires
        0 <= x < P,
    ensures
        #[trigger] m31_of(x).val() == x,
{
}

pub broadcast proof fn lemma_m31_val_ext(a: M31, b: M31)
    requires
        #[trigger] a.val() == #[trigger] b.val(),
    ensures
        a == b,
{
}

pub broadcast proof fn lemma_m31_of_modp(x: int)
    ensures
        #[trigger] m31_of(modp(x)).val() == modp(x),
        0 <= modp(x) < P,
{
    vstd::arithmetic::div_mod::lemma_mod_bound(x, P as int);
}

pub broadcast group group_m31 {
    lemma_m31_of_val,
    lemma_m31_of_modp,
    lemma_m31_val_ext,
}

impl M31 {
    #[verifier::type_invariant]
    spec fn canonical(self) -> bool {
        self.v < P
    }

    /// The integer value of the element.
    pub closed spec fn val(self) -> int {
        self.v as int
    }

    pub fn from_u32_unchecked(v: u32) -> (r: M31)
        requires
            v < P,
        ensures
            r.val() == v,
    {
        M31 { v }
    }

    /// Reduces any 32-bit value modulo `P`.
    pub fn reduce_u32(v: u32) -> (r: M31)
        ensures
            r.val() == modp(v as int),
    {
        M31 { v: v % P }
    }

    /// Reduces any 64-bit value modulo `P`.
    pub fn reduce_u64(v: u64) -> (r: M31)
        ensures
            r.val() == modp(v as int),
    {
        M31 { v: (v % (P as u64)) as u32 }
    }

    /// The raw value in `[0, P)`.
    pub fn value(&self) -> (r: u32)
        ensures
            r == self.val(),
            r < P,
    {
        proof { use_type_invariant(self); }
        self.v
    }

    pub fn zero() -> (r: M31)
        ensures
            r.val() == 0,
    {
        M31 { v: 0 }
    }

    pub fn one() -> (r: M31)
        ensures
            r.val() == 1,
    {
        M31 { v: 1 }
    }

    pub fn is_zero(&self) -> (r: bool)
        ensures
            r == (self.val() == 0),
    {
        self.v == 0
    }

    /// `self^exponent`, by square-and-multiply.
    pub fn pow(&self, exponent: u64) -> (r: M31)
        ensures
            r.val() == modp(pow(self.val(), exponent as nat)),
    {
        proof { use_type_invariant(self); }
        let mut acc = M31::one();
        let mut base = *self;
        let mut e = exponent;
        proof {
            reveal_with_fuel(pow, 2);
            vstd::arithmetic::div_mod::lemma_small_mod(self.val() as nat, P as nat);
        }
        while e > 0
            invariant
                0 <= acc.val() < P,
                0 <= base.val() < P,
                modp(acc.val() * pow(base.val(), e as nat)) == modp(pow(self.val(), exponent as nat)),
            decreases e,
        {
            let ghost e0 = e;
            let ghost b0 = base.val();
            let ghost a0 = acc.val();
            if e % 2 == 1 {
                acc = acc * base;
            }
            base = base * base;
            e = e / 2;
            proof {
                lemma_pow_step(a0, b0, e0 as nat);
                assert(acc.val() == if e0 % 2 == 1 { modp(a0 * b0) } else { a0 });
                lemma_pow_step_mod(a0, b0, e0 as nat, acc.val(), base.val());
            }
        }
        proof {
            assert(pow(base.val(), 0) == 1) by { reveal_with_fuel(pow, 1); }
            vstd::arithmetic::div_mod::lemma_small_mod(acc.val() as nat, P as nat);
        }
        acc
    }

    /// The multiplicative inverse of a nonzero element (zero for zero), by Euclidean descent:
    /// `P = q a + r` gives `a (-q inv(r)) = r inv(r) - P inv(r) = 1`.
    pub fn inverse(&self) -> (r: M31)
        ensures
            r.val() == inverse_spec(self.val()),
            0 <= r.val() < P,
            self.val() != 0 ==> modp(self.val() * r.val()) == 1,
    {
        proof {
            use_type_invariant(self);
            lemma_inverse_spec(self.val());
        }
        M31 { v: inverse_of(self.v) }
    }
}

/// One square-and-multiply step on the exponent, over the integers.
proof fn lemma_pow_step(a: int, b: int, e: nat)
    requires
        e > 0,
    ensures
        a * pow(b, e) == (if e % 2 == 1 { a * b } else { a }) * pow(b * b, e / 2),
    decreases e,
{
    vstd::arithmetic::power::lemma_pow_multiplies(b, 2, e / 2);
    vstd::arithmetic::power::lemma_square_is_pow2(b);
    assert(pow(b, 2) == b * b) by { reveal_with_fuel(pow, 3); }
    vstd::arithmetic::power::lemma_pow_adds(b, 1, (2 * (e / 2)) as nat);
    assert(pow(b, 1) == b) by { reveal_with_fuel(pow, 2); }
    if e % 2 == 1 {
        assert(e == 1 + 2 * (e / 2));
        assert(pow(b, e) == b * pow(b * b, e / 2));
        vstd::arithmetic::mul::lemma_mul_is_associative(a, b, pow(b * b, e / 2));
    } else {
        assert(e == 2 * (e / 2));
    }
}

/// The same step, once the accumulator and the base are reduced modulo `P`.
proof fn lemma_pow_step_mod(a: int, b: int, e: nat, a1: int, b1: int)
    requires
        e > 0,
        a1 == (if e % 2 == 1 { modp(a * b) } else { a }),
        b1 == modp(b * b),
    ensures
        modp(a1 * pow(b1, e / 2)) == modp(a * pow(b, e)),
{
    let p = P as int;
    let a_full = if e % 2 == 1 { a * b } else { a };
    lemma_pow_step(a, b, e);
    lemma_pow_mod_noop(b * b, e / 2);
    vstd::arithmetic::div_mod::lemma_mul_mod_noop(a_full, pow(b * b, e / 2), p);
    vstd::arithmetic::div_mod::lemma_mul_mod_noop(a1, pow(b1, e / 2), p);
    if e % 2 == 1 {
        vstd::arithmetic::div_mod::lemma_mod_twice(a * b, p);
    } else {
        vstd::arithmetic::div_mod::lemma_mod_twice(a, p);
    }
    vstd::arithmetic::div_mod::lemma_mod_twice(b * b, p);
}

/// `pow(x mod P, n) == pow(x, n)` modulo `P`.
pub proof fn lemma_pow_mod_noop(x: int, n: nat)
    ensures
        modp(pow(modp(x), n)) == modp(pow(x, n)),
    decreases n,
{
    let p = P as int;
    reveal_with_fuel(pow, 2);
    if n > 0 {
        lemma_pow_mod_noop(x, (n - 1) as nat);
        vstd::arithmetic::div_mod::lemma_mul_mod_noop(modp(x), pow(modp(x), (n - 1) as nat), p);
        vstd::arithmetic::div_mod::lemma_mul_mod_noop(x, pow(x, (n - 1) as nat), p);
        vstd::arithmetic::div_mod::lemma_mod_twice(x, p);
    }
}

impl std::ops::Add for M31 {
    type Output = M31;

    fn add(self, rhs: M31) -> (r: M31) {
        proof {
            use_type_invariant(&self);
            use_type_invariant(&rhs);
        }
        let s = self.v + rhs.v;
        if s >= P {
            M31 { v: s - P }
        } else {
            M31 { v: s }
        }
    }
}

impl vstd::std_specs::ops::AddSpecImpl for M31 {
    open spec fn obeys_add_spec() -> bool {
        true
    }

    open spec fn add_req(self, rhs: M31) -> bool {
        true
    }

    open spec fn add_spec(self, rhs: M31) -> M31 {
        m31_of(modp(self.val() + rhs.val()))
    }
}

impl std::ops::Sub for M31 {
    type Output = M31;

    fn sub(self, rhs: M31) -> (r: M31) {
        proof {
            use_type_invariant(&self);
            use_type_invariant(&rhs);
        }
        if self.v >= rhs.v {
            M31 { v: self.v - rhs.v }
        } else {
            M31 { v: self.v + (P - rhs.v) }
        }
    }
}

impl vstd::std_specs::ops::SubSpecImpl for M31 {
    open spec fn obeys_sub_spec() -> bool {
        true
    }

    open spec fn sub_req(self, rhs: M31) -> bool {
        true
    }

    open spec fn sub_spec(self, rhs: M31) -> M31 {
        m31_of(modp(self.val() - rhs.val()))
    }
}

impl std::ops::Neg for M31 {
    type Output = M31;

    fn neg(self) -> (r: M31) {
        proof {
            use_type_invariant(&self);
        }
        if self.v == 0 {
            M31 { v: 0 }
        } else {
            M31 { v: P - self.v }
        }
    }
}

impl vstd::std_specs::ops::NegSpecImpl for M31 {
    open spec fn obeys_neg_spec() -> bool {
        true
    }

    open spec fn neg_req(self) -> bool {
        true
    }

    open spec fn neg_spec(self) -> M31 {
        m31_of(modp(-self.val()))
    }
}

impl std::ops::Mul for M31 {
    type Output = M31;

    fn mul(self, rhs: M31) -> (r: M31) {
        proof {
            use_type_invariant(&self);
            use_type_invariant(&rhs);
        }
        let a = self.v as u64;
        let b = rhs.v as u64;
        assert(a * b < 0x1_0000_0000_0000_0000) by (nonlinear_arith)
            requires
                a < P,
                b < P,
        ;
        let prod: u64 = a * b;
        M31 { v: (prod % (P as u64)) as u32 }
    }
}

impl vstd::std_specs::ops::MulSpecImpl for M31 {
    open spec fn obeys_mul_spec() -> bool {
        true
    }

    open spec fn mul_req(self, rhs: M31) -> bool {
        true
    }

    open spec fn mul_spec(self, rhs: M31) -> M31 {
        m31_of(modp(self.val() * rhs.val()))
    }
}

impl From<u32> for M31 {
    fn from(v: u32) -> (r: M31) {
        M31 { v: v % P }
    }
}

impl vstd::std_specs::convert::FromSpecImpl<u32> for M31 {
    open spec fn obeys_from_spec() -> bool {
        true
    }

    open spec fn from_spec(v: u32) -> M31 {
        m31_of(modp(v as int))
    }
}

/// No integer in `[2, 46341]` divides `P`: `46341^2 > P`, so `P` is prime.
#[verifier::rlimit(100)]
proof fn lemma_no_small_factor(a: u64, b: u64)
    requires
        2 <= a <= 46341,
        b < 0x8000_0000,
    ensures
        a * b != 0x7fff_ffff,
{
    assert(a * b != 0x7fff_ffff) by (bit_vector)
        requires
            2 <= a <= 46341,
            b < 0x8000_0000,
    ;
}

/// `P` is prime: no `d` with `1 < d < P` divides it.
pub proof fn lemma_p_prime(d: int)
    requires
        1 < d < P,
    ensures
        P as int % d != 0,
{
    if P as int % d == 0 {
        let e = P as int / d;
        vstd::arithmetic::div_mod::lemma_fundamental_div_mod(P as int, d);
        assert(P as int == d * e);
        assert(e >= 1) by (nonlinear_arith)
            requires
                P as int == d * e,
                d > 1,
        ;
        assert(e < P as int) by (nonlinear_arith)
            requires
                P as int == d * e,
                d > 1,
        ;
        if d <= 46341 {
            assert(e >= 2) by (nonlinear_arith)
                requires
                    P as int == d * e,
                    d <= 46341,
                    e >= 1,
            ;
            lemma_no_small_factor(d as u64, e as u64);
        } else {
            assert(e <= 46341) by (nonlinear_arith)
                requires
                    P as int == d * e,
                    d > 46341,
                    e >= 1,
            ;
            assert(e >= 2) by (nonlinear_arith)
                requires
                    P as int == d * e,
                    d < P as int,
                    e >= 1,
            ;
            assert(e * d == d * e) by (nonlinear_arith);
            lemma_no_small_factor(e as u64, d as u64);
        }
    }
}

/// The inverse by Euclidean descent: `0` and `1` are their own, and for `1 < a < P`,
/// `inv(a) = -(P / a) inv(P % a)`.
pub open spec fn inverse_spec(a: int) -> int
    decreases a,
{
    if a <= 1 {
        a
    } else {
        proof {
            vstd::arithmetic::div_mod::lemma_mod_bound(P as int, a);
        }
        modp(-((P as int / a) * inverse_spec(P as int % a)))
    }
}

/// The descent gives the inverse: `a inv(a) = 1` modulo `P` for `0 < a < P`.
pub proof fn lemma_inverse_spec(a: int)
    requires
        0 <= a < P,
    ensures
        0 <= inverse_spec(a) < P,
        a != 0 ==> modp(a * inverse_spec(a)) == 1,
    decreases a,
{
    let p = P as int;
    if a <= 1 {
        if a == 1 {
            vstd::arithmetic::div_mod::lemma_small_mod(1, P as nat);
        }
    } else {
        let q = p / a;
        let r = p % a;
        vstd::arithmetic::div_mod::lemma_fundamental_div_mod(p, a);
        vstd::arithmetic::div_mod::lemma_mod_bound(p, a);
        lemma_p_prime(a);
        lemma_inverse_spec(r);
        let c = inverse_spec(r);
        let inv = modp(-(q * c));
        vstd::arithmetic::div_mod::lemma_mod_bound(-(q * c), p);
        // a inv = a (-q c) = (r - p) c modulo p.
        vstd::arithmetic::div_mod::lemma_mul_mod_noop_right(a, -(q * c), p);
        assert(a * (-(q * c)) == r * c + (-c) * p) by (nonlinear_arith)
            requires
                p == a * q + r,
        ;
        vstd::arithmetic::div_mod::lemma_mod_multiples_vanish(-c, r * c, p);
        assert(modp(a * inv) == modp(r * c));
    }
}

/// The inverse of `a`, by the descent of `inverse_spec`.
fn inverse_of(a: u32) -> (r: u32)
    requires
        a < P,
    ensures
        r == inverse_spec(a as int),
    decreases a,
{
    if a <= 1 {
        return a;
    }
    let q = P / a;
    let rem = P % a;
    proof {
        lemma_inverse_spec(rem as int);
    }
    let c = inverse_of(rem);
    assert((q as u64) * (c as u64) < 0x1_0000_0000_0000_0000) by (nonlinear_arith)
        requires
            q <= P,
            c < P,
    ;
    let t = ((q as u64) * (c as u64)) % (P as u64);
    proof {
        let x = q as int * c as int;
        vstd::arithmetic::div_mod::lemma_fundamental_div_mod(x, P as int);
        vstd::arithmetic::div_mod::lemma_mod_bound(x, P as int);
        if t != 0 {
            vstd::arithmetic::div_mod::lemma_fundamental_div_mod(-x, P as int);
            assert(-x == P as int * (-(x / (P as int)) - 1) + (P as int - t));
            vstd::arithmetic::div_mod::lemma_fundamental_div_mod_converse(-x, P as int, -(x / (P as int)) - 1, P as int - t);
        } else {
            assert(-x == P as int * (-(x / (P as int))) + 0);
            vstd::arithmetic::div_mod::lemma_fundamental_div_mod_converse(-x, P as int, -(x / (P as int)), 0);
        }
    }
    if t == 0 {
        0
    } else {
        P - (t as u32)
    }
}

} // verus!

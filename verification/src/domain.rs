//! Cosets of the circle group over `M31` and the canonic evaluation domains.
use vstd::prelude::*;
use crate::m31::M31;
use crate::qm31::QM31;
use crate::qm31_algebra::Q4;
use crate::circle::{
    CirclePoint, MPoint, QPoint, mp_mul, m31_circle_gen, m31_circle_point, mp_lift, qp_add, qp_conjugate,
    q_double_x_iter,
};

verus! {

/// The largest log size of a circle domain over `M31`.
pub const MAX_CIRCLE_DOMAIN_LOG_SIZE: u32 = 30;

/// The order of the circle group over `M31`, `2^31`.
pub open spec fn circle_order() -> int {
    0x8000_0000
}

pub open spec fn pow2(n: nat) -> nat {
    vstd::arithmetic::power2::pow2(n)
}

/// The log size of a canonic coset is outside `[1, MAX_CIRCLE_DOMAIN_LOG_SIZE]`.
#[derive(Clone, Copy, Debug, PartialEq, Eq, Structural)]
pub struct InvalidCanonicCosetLogSize {
    pub log_size: u32,
}

/// The coset `initial + <step>` of size `2^log_size`, described by indices
/// (the point of index `k` is `k * g` for the generator `g` of order `2^31`).
#[derive(Clone, Copy, Debug, PartialEq, Eq)]
pub struct Coset {
    pub(crate) initial_index: u32,
    pub(crate) step_size: u32,
    pub(crate) log_size: u32,
}

/// The index of the `i`-th point of a coset.
pub open spec fn coset_index(initial: int, step: int, i: int) -> int {
    (initial + step * i) % circle_order()
}

impl Coset {
    #[verifier::type_invariant]
    spec fn wf(self) -> bool {
        &&& self.initial_index < circle_order()
        &&& self.step_size < circle_order()
        &&& self.log_size <= MAX_CIRCLE_DOMAIN_LOG_SIZE
    }

    pub closed spec fn spec_initial(self) -> int {
        self.initial_index as int
    }

    pub closed spec fn spec_step(self) -> int {
        self.step_size as int
    }

    pub closed spec fn spec_log_size(self) -> nat {
        self.log_size as nat
    }

    /// The index of the step, reduced modulo the group order.
    pub fn step_size(&self) -> (r: u32)
        ensures
            r == self.spec_step(),
            r < circle_order(),
    {
        proof { use_type_invariant(self); }
        self.step_size
    }

    pub fn log_size(&self) -> (r: u32)
        ensures
            r == self.spec_log_size(),
            r <= MAX_CIRCLE_DOMAIN_LOG_SIZE,
    {
        proof { use_type_invariant(self); }
        self.log_size
    }

    pub fn size(&self) -> (r: usize)
        ensures
            r == pow2(self.spec_log_size()),
    {
        proof {
            use_type_invariant(self);
            vstd::arithmetic::power2::lemma_pow2_pos(self.log_size as nat);
            vstd::arithmetic::power2::lemma_pow2_strictly_increases(self.log_size as nat, 31);
            vstd::arithmetic::power2::lemma2_to64();
            vstd::bits::lemma_u64_shl_is_mul(1, self.log_size as u64);
        }
        (1u64 << self.log_size) as usize
    }

    /// The index of the `i`-th point.
    pub fn index_at(&self, i: usize) -> (r: u32)
        requires
            i < pow2(self.spec_log_size()),
        ensures
            r == coset_index(self.spec_initial(), self.spec_step(), i as int),
            r < circle_order(),
    {
        proof {
            use_type_invariant(self);
            vstd::arithmetic::power2::lemma_pow2_strictly_increases(self.log_size as nat, 31);
            vstd::arithmetic::power2::lemma2_to64();
            assert((self.step_size as int) * (i as int) < 0x8000_0000 * 0x8000_0000) by (nonlinear_arith)
                requires
                    self.step_size < 0x8000_0000,
                    i < 0x8000_0000,
            ;
        }
        let prod: u64 = (self.step_size as u64) * (i as u64);
        ((self.initial_index as u64 + prod) % 0x8000_0000) as u32
    }

    /// The `i`-th point.
    pub fn at(&self, i: usize) -> (r: CirclePoint<M31>)
        requires
            i < pow2(self.spec_log_size()),
        ensures
            r@ == mp_mul(m31_circle_gen(), coset_index(self.spec_initial(), self.spec_step(), i as int) as nat),
    {
        m31_circle_point(self.index_at(i))
    }

    /// The conjugate coset `-initial + <-step>`.
    pub fn conjugate(&self) -> (r: Coset)
        ensures
            r.spec_initial() == (circle_order() - self.spec_initial()) % circle_order(),
            r.spec_step() == (circle_order() - self.spec_step()) % circle_order(),
            r.spec_log_size() == self.spec_log_size(),
    {
        proof { use_type_invariant(self); }
        Coset {
            initial_index: ((0x8000_0000u64 - self.initial_index as u64) % 0x8000_0000) as u32,
            step_size: ((0x8000_0000u64 - self.step_size as u64) % 0x8000_0000) as u32,
            log_size: self.log_size,
        }
    }
}

/// A canonic coset `G_{2n} + <G_n>` of log size `n`, the trace domains of the circle STARK.
#[derive(Clone, Copy, Debug, PartialEq, Eq)]
pub struct CanonicCoset {
    pub(crate) coset: Coset,
}

/// A circle domain: a half coset together with its conjugate.
#[derive(Clone, Copy, Debug, PartialEq, Eq)]
pub struct CircleDomain {
    pub(crate) half_coset: Coset,
}

/// `2^k` for `k <= 31`, as an index.
pub open spec fn index_pow2(k: int) -> int {
    pow2(k as nat) as int % circle_order()
}

fn index_pow2_exec(k: u32) -> (r: u32)
    requires
        k <= 31,
    ensures
        r == index_pow2(k as int),
        r < circle_order(),
{
    proof {
        vstd::arithmetic::power2::lemma2_to64();
        vstd::arithmetic::power2::lemma_pow2_pos(k as nat);
        if k < 31 {
            vstd::arithmetic::power2::lemma_pow2_strictly_increases(k as nat, 31);
        }
        vstd::bits::lemma_u64_shl_is_mul(1, k as u64);
    }
    ((1u64 << k) % 0x8000_0000) as u32
}

impl CanonicCoset {
    /// The canonic coset of log size `log_size`.
    pub fn new(log_size: u32) -> (r: CanonicCoset)
        requires
            1 <= log_size <= MAX_CIRCLE_DOMAIN_LOG_SIZE,
        ensures
            r.spec_log_size() == log_size,
    {
        let initial_index = index_pow2_exec(30 - log_size);
        let step_size = index_pow2_exec(31 - log_size);
        CanonicCoset { coset: Coset { initial_index, step_size, log_size } }
    }

    /// The canonic coset of log size `log_size`, or the error when it is outside
    /// `[1, MAX_CIRCLE_DOMAIN_LOG_SIZE]`.
    pub fn try_new(log_size: u32) -> (r: Result<CanonicCoset, InvalidCanonicCosetLogSize>)
        ensures
            r is Ok <==> 1 <= log_size <= MAX_CIRCLE_DOMAIN_LOG_SIZE,
            r matches Ok(c) ==> c.spec_log_size() == log_size,
            r matches Err(e) ==> e.log_size == log_size,
    {
        if log_size == 0 || log_size > MAX_CIRCLE_DOMAIN_LOG_SIZE {
            Err(InvalidCanonicCosetLogSize { log_size })
        } else {
            Ok(CanonicCoset::new(log_size))
        }
    }

    pub closed spec fn spec_log_size(self) -> nat {
        self.coset.log_size as nat
    }

    pub open spec fn wf(self) -> bool {
        1 <= self.spec_log_size() <= MAX_CIRCLE_DOMAIN_LOG_SIZE
    }

    pub fn log_size(&self) -> (r: u32)
        ensures
            r == self.spec_log_size(),
    {
        self.coset.log_size
    }

    /// The generator of the subgroup the coset is a translate of.
    pub fn step(&self) -> (r: CirclePoint<M31>)
        requires
            self.wf(),
        ensures
            r@ == mp_mul(m31_circle_gen(), index_pow2(31 - self.spec_log_size()) as nat),
    {
        let s = index_pow2_exec(31 - self.coset.log_size);
        m31_circle_point(s)
    }

    /// The circle domain `G_{4n'} + <G_{n'}>` together with its conjugate, `n' = n / 2`.
    pub fn circle_domain(&self) -> (r: CircleDomain)
        requires
            self.wf(),
        ensures
            r.spec_log_size() == self.spec_log_size(),
            r.spec_half().spec_initial() == index_pow2(30 - self.spec_log_size()),
            r.spec_half().spec_step() == index_pow2(32 - self.spec_log_size()),
    {
        let log_size = self.coset.log_size;
        let initial_index = index_pow2_exec(30 - log_size);
        let step_size = index_pow2_exec(31 - (log_size - 1));
        CircleDomain { half_coset: Coset { initial_index, step_size, log_size: log_size - 1 } }
    }
}

/// The index of the `i`-th point of a circle domain: the half coset first, then its conjugate.
pub open spec fn domain_index(half: Coset, i: int) -> int {
    let half_size = pow2(half.spec_log_size()) as int;
    if i < half_size {
        coset_index(half.spec_initial(), half.spec_step(), i)
    } else {
        (circle_order() - coset_index(half.spec_initial(), half.spec_step(), i - half_size)) % circle_order()
    }
}

impl CircleDomain {
    pub closed spec fn spec_half(self) -> Coset {
        self.half_coset
    }

    pub closed spec fn spec_log_size(self) -> nat {
        (self.half_coset.log_size + 1) as nat
    }

    /// A circle domain is one larger than its half coset.
    pub proof fn lemma_half_log_size(self)
        ensures
            self.spec_log_size() == self.spec_half().spec_log_size() + 1,
    {
    }

    pub fn half_coset(&self) -> (r: Coset)
        ensures
            r == self.spec_half(),
    {
        self.half_coset
    }

    pub fn log_size(&self) -> (r: u32)
        ensures
            r == self.spec_log_size(),
    {
        proof { use_type_invariant(&self.half_coset); }
        self.half_coset.log_size + 1
    }

    pub fn size(&self) -> (r: usize)
        ensures
            r == pow2(self.spec_log_size()),
    {
        proof {
            use_type_invariant(&self.half_coset);
            vstd::arithmetic::power2::lemma_pow2_unfold(self.spec_log_size());
        }
        let h = self.half_coset.size();
        proof {
            vstd::arithmetic::power2::lemma_pow2_strictly_increases(self.half_coset.log_size as nat, 31);
            vstd::arithmetic::power2::lemma2_to64();
        }
        h * 2
    }

    /// The index of the `i`-th point.
    pub fn index_at(&self, i: usize) -> (r: u32)
        requires
            i < pow2(self.spec_log_size()),
        ensures
            r == domain_index(self.spec_half(), i as int),
    {
        proof { vstd::arithmetic::power2::lemma_pow2_unfold(self.spec_log_size()); }
        let half = self.half_coset.size();
        if i < half {
            self.half_coset.index_at(i)
        } else {
            let j = self.half_coset.index_at(i - half);
            ((0x8000_0000u64 - j as u64) % 0x8000_0000) as u32
        }
    }

    /// The `i`-th point.
    pub fn at(&self, i: usize) -> (r: CirclePoint<M31>)
        requires
            i < pow2(self.spec_log_size()),
        ensures
            r@ == mp_mul(m31_circle_gen(), domain_index(self.spec_half(), i as int) as nat),
    {
        m31_circle_point(self.index_at(i))
    }

    /// All points, in domain order.
    pub fn points(&self) -> (r: Vec<CirclePoint<M31>>)
        ensures
            r@.len() == pow2(self.spec_log_size()),
            forall|i: int|
                0 <= i < r@.len() ==> #[trigger] r@[i]@ == mp_mul(
                    m31_circle_gen(),
                    domain_index(self.spec_half(), i) as nat,
                ),
    {
        let n = self.size();
        let mut r: Vec<CirclePoint<M31>> = Vec::new();
        let mut i: usize = 0;
        while i < n
            invariant
                i <= n,
                n == pow2(self.spec_log_size()),
                r@.len() == i,
                forall|j: int|
                    0 <= j < i ==> #[trigger] r@[j]@ == mp_mul(
                        m31_circle_gen(),
                        domain_index(self.spec_half(), j) as nat,
                    ),
            decreases n - i,
        {
            r.push(self.at(i));
            i = i + 1;
        }
        r
    }
}

/// The value at `p` of the vanishing polynomial of a coset of log size `log_size`, given by
/// the indices of its initial point and step: `p` is shifted by `half_step - initial` onto the
/// canonic position and its abscissa doubled `log_size - 1` times.
pub open spec fn coset_vanishing_spec(initial: int, step: int, log_size: nat, p: QPoint) -> Q4 {
    let g = m31_circle_gen();
    let shifted = qp_add(
        qp_add(p, qp_conjugate(mp_lift(mp_mul(g, initial as nat)))),
        mp_lift(mp_mul(g, (step / 2) as nat)),
    );
    q_double_x_iter(shifted.0, if log_size == 0 { 0 } else { (log_size - 1) as nat })
}

/// The value at `p` of the vanishing polynomial of a circle domain with the given half coset:
/// the product of the vanishing polynomials of the half coset and of its conjugate.
pub open spec fn full_vanishing_spec(initial: int, step: int, log_size: nat, p: QPoint) -> Q4 {
    crate::qm31_algebra::q_mul(
        coset_vanishing_spec(initial, step, log_size, p),
        coset_vanishing_spec(
            (circle_order() - initial) % circle_order(),
            (circle_order() - step) % circle_order(),
            log_size,
            p,
        ),
    )
}

/// The vanishing polynomial of `coset`, evaluated at `p`.
pub fn coset_vanishing(coset: &Coset, p: CirclePoint<QM31>) -> (r: QM31)
    requires
        coset.spec_step() % 2 == 0,
    ensures
        r@ == coset_vanishing_spec(coset.spec_initial(), coset.spec_step(), coset.spec_log_size(), p@),
{
    let initial = m31_circle_point(coset.initial_index).into_ef();
    let half_step = m31_circle_point(coset.step_size / 2).into_ef();
    let shifted = p.add(&initial.conjugate()).add(&half_step);
    let ghost x0 = shifted.x@;
    let mut x = shifted.x;
    let mut i: u32 = 1;
    while i < coset.log_size
        invariant
            1 <= i,
            i <= coset.spec_log_size() || i == 1,
            x@ == q_double_x_iter(x0, (i - 1) as nat),
        decreases coset.spec_log_size() - i,
    {
        x = CirclePoint::<QM31>::double_x(x);
        i = i + 1;
    }
    x
}

/// The coset with the given initial index, step and log size, as a value to reason about.
pub proof fn lemma_coset_of(initial: u32, step: u32, log_size: u32) -> (c: Coset)
    ensures
        c.spec_initial() == initial,
        c.spec_step() == step,
        c.spec_log_size() == log_size,
{
    Coset { initial_index: initial, step_size: step, log_size }
}

} // verus!

//! Statistical zero-knowledge masking: the opening budgets, the per-column mask configuration,
//! the composition randomizer and the draws of random polynomials.
//!
//! A witness column `w` is masked as `w + v_H r` with `v_H` the vanishing polynomial of the
//! trace domain and `r` a random polynomial with `randomizer_dimension` free coefficients; the
//! committed composition `q` is masked as `q + t` with `t` an independent random secure
//! polynomial whose value the verifier opens and subtracts.
use vstd::prelude::*;
use rand::RngCore;
use rand::rngs::StdRng;
use crate::m31::{M31, P, modp, m31_of, group_m31, inverse_spec};
use crate::qm31::{QM31, SECURE_EXTENSION_DEGREE, group_qm31};
use crate::qm31_algebra::{Q4, q_add, q_sub, q_mul, q_zero, q_embed, q_red, q_add_raw, lemma_q_add_sub_cancel, lemma_red_canon};
use crate::circle::{CirclePoint, QPoint, MPoint, mp_lift, mp_mul, m31_circle_gen, mp_repeated_double, qp_repeated_double};
use crate::interpolation::interpolate;
use crate::poly::{CircleCoefficients, circle_eval, embed_seq, eval_mappings, fold_spec, lemma_fold_add, recombine_factors};
use crate::secure_poly::SecureCirclePoly;
use crate::domain::{
    pow2, CanonicCoset, CircleDomain, MAX_CIRCLE_DOMAIN_LOG_SIZE, index_pow2, coset_vanishing,
    coset_vanishing_spec, circle_order, full_vanishing_spec, domain_index, coset_index, Coset,
};
use crate::circle_group::{mp_pow, lemma_generator_facts, lemma_mp_pow_canon};
use crate::poly::is_power_of_two;

verus! {

broadcast use {group_m31, group_qm31};

// ---------------------------------------------------------------------------
// Opening budgets.
// ---------------------------------------------------------------------------

/// Required column-randomizer dimension `e n_F + n_D`: a secure out-of-domain opening charges
/// `e = 4` base field functionals, a query opening one.
pub fn required_column_randomizer_dimension(n_oods: usize, n_queries: usize) -> (r: usize)
    requires
        4 * n_oods + n_queries <= usize::MAX,
    ensures
        r == 4 * n_oods + n_queries,
{
    SECURE_EXTENSION_DEGREE * n_oods + n_queries
}

/// `ceil((e + 2^k - 1) points / e)` with `e = 4` and `points = n_oods_comp + n_queries`: the
/// composition randomizer must blind the `e` revealed coordinates and the `2^k - 1` split
/// directions at every revealed point.
pub open spec fn composition_randomizer_budget(n_oods_comp: int, n_queries: int, k: nat) -> int {
    let points = n_oods_comp + n_queries;
    ((3 + pow2(k)) * points + 3) / 4
}

/// The minimum dimension of the composition randomizer for a `2^composition_log_split`-way
/// split composition.
pub fn required_composition_randomizer_dimension(
    n_oods_comp: usize,
    n_queries: usize,
    composition_log_split: u32,
) -> (r: usize)
    requires
        composition_log_split < 64,
        pow2(composition_log_split as nat) <= usize::MAX,
        (3 + pow2(composition_log_split as nat)) * (n_oods_comp + n_queries) + 3 <= usize::MAX,
    ensures
        r == composition_randomizer_budget(n_oods_comp as int, n_queries as int, composition_log_split as nat),
{
    let ghost k = composition_log_split as nat;
    let ghost pts = n_oods_comp + n_queries;
    proof {
        vstd::arithmetic::power2::lemma_pow2_pos(k);
        vstd::arithmetic::power2::lemma_pow2_strictly_increases(k, 64);
        vstd::arithmetic::power2::lemma2_to64();
        vstd::bits::lemma_u64_shl_is_mul(1, composition_log_split as u64);
        assert(pts <= (3 + pow2(k)) * pts) by (nonlinear_arith)
            requires pts >= 0, pow2(k) >= 1;
        assert((3 + pow2(k)) * 0 == 0) by (nonlinear_arith);
    }
    let points = n_oods_comp + n_queries;
    let n_chunks: u64 = 1u64 << composition_log_split;
    proof {
        assert(n_chunks == pow2(k));
    }
    if points == 0 {
        proof {
            assert(composition_randomizer_budget(n_oods_comp as int, n_queries as int, k) == 0);
        }
        return 0;
    }
    proof {
        assert(pow2(k) <= (3 + pow2(k)) * pts) by (nonlinear_arith)
            requires pts >= 1, pow2(k) >= 1;
        assert((pow2(k) - 1) * pts <= (3 + pow2(k)) * pts) by (nonlinear_arith)
            requires pts >= 1, pow2(k) >= 1;
        assert(4 * pts + (pow2(k) - 1) * pts == (3 + pow2(k)) * pts) by (nonlinear_arith);
    }
    let split_freedoms = ((n_chunks as usize) - 1) * points;
    assert(split_freedoms == (pow2(k) - 1) * pts);
    let total = SECURE_EXTENSION_DEGREE * points + split_freedoms;
    assert(total == (3 + pow2(k)) * pts);
    (total + (SECURE_EXTENSION_DEGREE - 1)) / SECURE_EXTENSION_DEGREE
}

/// The composition randomizer's budget covers the revealed coordinates and the split
/// directions, `e h_t >= (e + 2^k - 1) points`, and for a split composition (`k >= 1`) it
/// exceeds the reconstruction threshold `points = n_oods_comp + n_queries`.
pub proof fn lemma_composition_budget_covers(n_oods_comp: nat, n_queries: nat, k: nat)
    ensures
        ({
            let points = n_oods_comp + n_queries;
            let budget = composition_randomizer_budget(n_oods_comp as int, n_queries as int, k);
            &&& 4 * budget >= (3 + pow2(k)) * points
            &&& (k >= 1 && points >= 1) ==> budget > points
        }),
{
    let points = (n_oods_comp + n_queries) as int;
    let x = (3 + pow2(k)) * points;
    vstd::arithmetic::power2::lemma_pow2_pos(k);
    assert(x >= 0) by (nonlinear_arith) requires x == (3 + pow2(k)) * points, points >= 0, pow2(k) >= 1;
    vstd::arithmetic::div_mod::lemma_fundamental_div_mod(x + 3, 4);
    if k >= 1 && points >= 1 {
        vstd::arithmetic::power2::lemma_pow2_unfold(k);
        vstd::arithmetic::power2::lemma_pow2_pos((k - 1) as nat);
        assert(x >= 5 * points) by (nonlinear_arith) requires x == (3 + pow2(k)) * points, pow2(k) >= 2, points >= 1;
    }
}

// ---------------------------------------------------------------------------
// Errors.
// ---------------------------------------------------------------------------

/// Errors raised while configuring or applying the masking.
#[derive(Clone, Copy, Debug, PartialEq, Eq, Structural)]
pub enum WitnessMaskError {
    EmptyLeakageBudget,
    EmptyRandomizerSpace,
    InsufficientRandomizerDimension { randomizer_dimension: usize, leakage_budget: usize },
    PublicLeakageBudgetExceeded { randomizer_dimension: usize, leakage_budget: usize, required: usize },
    RandomizerDimensionTooLarge,
    InvalidCanonicCosetLogSize { log_size: u32 },
    MaskedDomainNotLarger { trace_log_size: u32, masked_log_size: u32 },
    MaskedDomainTooSmall { trace_size: usize, randomizer_coeff_count: usize, masked_size: usize },
    MaskedDomainIntersectsTraceDomain,
    WitnessDegreeExceedsTraceDomain { witness_log_size: u32, trace_log_size: u32 },
    CompositionRandomizerDimensionTooLarge { dimension: usize, coeff_count: usize },
    CompositionRandomizerLogSizeMismatch { randomizer_log_size: u32, composition_log_size: u32 },
    CompositionRandomizerBudgetTooSmall { dimension: usize, required: usize },
    LookupNotBalanced,
}

/// Fails unless the lookup's claimed sum is zero: a nonzero claimed sum is a fixed linear
/// functional of the private multiplicities, and would leak them.
pub fn assert_lookup_balanced(claimed_sum: QM31) -> (r: Result<(), WitnessMaskError>)
    ensures
        r == (if claimed_sum@ == q_zero() {
            Ok::<(), WitnessMaskError>(())
        } else {
            Err(WitnessMaskError::LookupNotBalanced)
        }),
{
    if !claimed_sum.is_zero() {
        return Err(WitnessMaskError::LookupNotBalanced);
    }
    Ok(())
}

// ---------------------------------------------------------------------------
// Powers of two.
// ---------------------------------------------------------------------------

/// The smallest power of two that is at least `d` (`1` for `d <= 1`).
pub open spec fn next_pow2(d: nat) -> nat
    decreases d,
{
    if d <= 1 {
        1
    } else {
        2 * next_pow2(((d + 1) / 2) as nat)
    }
}

/// `next_pow2(d)` is a power of two in `[d, 2d)` (for `d >= 1`), and the only one.
pub proof fn lemma_next_pow2(d: nat)
    ensures
        exists|j: nat| j <= d && pow2(j) == next_pow2(d),
        d <= next_pow2(d),
        d >= 1 ==> next_pow2(d) < 2 * d,
        d <= 1 ==> next_pow2(d) == 1,
    decreases d,
{
    vstd::arithmetic::power2::lemma2_to64();
    if d <= 1 {
        assert(pow2(0) == 1);
    } else {
        let h = ((d + 1) / 2) as nat;
        lemma_next_pow2(h);
        let j = choose|j: nat| j <= h && pow2(j) == next_pow2(h);
        vstd::arithmetic::power2::lemma_pow2_unfold(j + 1);
        assert(pow2(j + 1) == next_pow2(d));
    }
}

/// Two powers of two in `[d, 2d)` coincide.
pub proof fn lemma_pow2_window_unique(i: nat, j: nat, d: nat)
    requires
        d <= pow2(i) < 2 * d,
        d <= pow2(j) < 2 * d,
    ensures
        pow2(i) == pow2(j),
{
    if i < j {
        vstd::arithmetic::power2::lemma_pow2_adds(i, (j - i) as nat);
        vstd::arithmetic::power2::lemma_pow2_pos((j - i - 1) as nat);
        vstd::arithmetic::power2::lemma_pow2_unfold((j - i) as nat);
        assert(pow2(j) == pow2(i) * pow2((j - i) as nat));
        assert(pow2(i) * pow2((j - i) as nat) >= pow2(i) * 2) by (nonlinear_arith)
            requires pow2((j - i) as nat) >= 2, pow2(i) >= 0;
    } else if j < i {
        vstd::arithmetic::power2::lemma_pow2_adds(j, (i - j) as nat);
        vstd::arithmetic::power2::lemma_pow2_pos((i - j - 1) as nat);
        vstd::arithmetic::power2::lemma_pow2_unfold((i - j) as nat);
        assert(pow2(i) == pow2(j) * pow2((i - j) as nat));
        assert(pow2(j) * pow2((i - j) as nat) >= pow2(j) * 2) by (nonlinear_arith)
            requires pow2((i - j) as nat) >= 2, pow2(j) >= 0;
    }
}

/// The smallest power of two that is at least `d`, or `None` when it does not fit in `usize`.
pub fn checked_next_power_of_two(d: usize) -> (r: Option<usize>)
    ensures
        r matches Some(p) ==> p == next_pow2(d as nat),
        r is None <==> next_pow2(d as nat) > usize::MAX,
{
    proof { lemma_next_pow2(d as nat); }
    let mut p: usize = 1;
    let ghost mut j: nat = 0;
    proof { vstd::arithmetic::power2::lemma2_to64(); }
    while p < d
        invariant
            p == pow2(j),
            p >= 1,
            d >= 1 ==> p < 2 * d,
            d <= next_pow2(d as nat),
            d >= 1 ==> next_pow2(d as nat) < 2 * d,
            exists|i: nat| i <= d && pow2(i) == next_pow2(d as nat),
            p <= next_pow2(d as nat),
        decreases 2 * d - p,
    {
        let ghost i = choose|i: nat| i <= d && pow2(i) == next_pow2(d as nat);
        if p > usize::MAX / 2 {
            proof {
                // `next_pow2(d)` is a power of two above `p`, hence at least `2p`.
                if i <= j {
                    if i < j {
                        vstd::arithmetic::power2::lemma_pow2_strictly_increases(i, j);
                    }
                    assert(false);
                }
                vstd::arithmetic::power2::lemma_pow2_adds(j, (i - j) as nat);
                vstd::arithmetic::power2::lemma_pow2_pos((i - j - 1) as nat);
                vstd::arithmetic::power2::lemma_pow2_unfold((i - j) as nat);
                assert(pow2(i) == pow2(j) * pow2((i - j) as nat));
                assert(pow2(j) * pow2((i - j) as nat) >= pow2(j) * 2) by (nonlinear_arith)
                    requires pow2((i - j) as nat) >= 2, pow2(j) >= 0;
            }
            return None;
        }
        proof {
            if i <= j {
                if i < j {
                    vstd::arithmetic::power2::lemma_pow2_strictly_increases(i, j);
                }
                assert(false);
            }
            vstd::arithmetic::power2::lemma_pow2_adds(j, (i - j) as nat);
            vstd::arithmetic::power2::lemma_pow2_pos((i - j - 1) as nat);
            vstd::arithmetic::power2::lemma_pow2_unfold((i - j) as nat);
            assert(pow2(i) == pow2(j) * pow2((i - j) as nat));
            assert(pow2(j) * pow2((i - j) as nat) >= pow2(j) * 2) by (nonlinear_arith)
                requires pow2((i - j) as nat) >= 2, pow2(j) >= 0;
            vstd::arithmetic::power2::lemma_pow2_unfold(j + 1);
        }
        p = p * 2;
        proof { j = j + 1; }
    }
    proof {
        if d >= 1 {
            let i = choose|i: nat| i <= d && pow2(i) == next_pow2(d as nat);
            lemma_pow2_window_unique(i, j, d as nat);
        }
    }
    Some(p)
}

// ---------------------------------------------------------------------------
// Per-column mask configuration.
// ---------------------------------------------------------------------------

/// Per-column parameters of the witness mask: the trace and masked domain log sizes, the
/// number of free randomizer coefficients and the declared bound on the number of
/// verifier-visible openings of the column.
#[derive(Clone, Copy, Debug, PartialEq, Eq, Structural)]
pub struct WitnessMaskConfig {
    trace_log_size: u32,
    masked_log_size: u32,
    randomizer_dimension: usize,
    leakage_budget: usize,
}

/// A valid log size of a canonic coset.
pub open spec fn canonic_log_size_ok(log_size: u32) -> bool {
    1 <= log_size <= MAX_CIRCLE_DOMAIN_LOG_SIZE
}

/// The outcome of validating mask parameters: the first failing check, in order.
pub open spec fn mask_config_check(
    trace_log_size: u32,
    masked_log_size: u32,
    randomizer_dimension: usize,
    leakage_budget: usize,
) -> Result<(), WitnessMaskError> {
    let coeff_count = next_pow2(randomizer_dimension as nat);
    if leakage_budget == 0 {
        Err(WitnessMaskError::EmptyLeakageBudget)
    } else if randomizer_dimension < leakage_budget {
        Err(WitnessMaskError::InsufficientRandomizerDimension { randomizer_dimension, leakage_budget })
    } else if !canonic_log_size_ok(trace_log_size) {
        Err(WitnessMaskError::InvalidCanonicCosetLogSize { log_size: trace_log_size })
    } else if !canonic_log_size_ok(masked_log_size) {
        Err(WitnessMaskError::InvalidCanonicCosetLogSize { log_size: masked_log_size })
    } else if coeff_count > usize::MAX {
        Err(WitnessMaskError::RandomizerDimensionTooLarge)
    } else if masked_log_size <= trace_log_size {
        Err(WitnessMaskError::MaskedDomainNotLarger { trace_log_size, masked_log_size })
    } else if pow2(trace_log_size as nat) + coeff_count > pow2(masked_log_size as nat) {
        Err(
            WitnessMaskError::MaskedDomainTooSmall {
                trace_size: pow2(trace_log_size as nat) as usize,
                randomizer_coeff_count: coeff_count as usize,
                masked_size: pow2(masked_log_size as nat) as usize,
            },
        )
    } else {
        Ok(())
    }
}

/// Every configuration that validation accepts leaves room for `v_H r`: the trace domain's
/// `2^trace_log_size` coefficients plus the randomizer's `next_pow2(randomizer_dimension)` fit in
/// the masked domain's `2^masked_log_size`; the masked domain is larger, both domains are
/// canonic, and the randomizer dimension covers a nonzero leakage budget.
pub proof fn lemma_validated_config_has_room(
    trace_log_size: u32,
    masked_log_size: u32,
    randomizer_dimension: usize,
    leakage_budget: usize,
)
    requires
        mask_config_check(trace_log_size, masked_log_size, randomizer_dimension, leakage_budget) is Ok,
    ensures
        pow2(trace_log_size as nat) + next_pow2(randomizer_dimension as nat) <= pow2(masked_log_size as nat),
        randomizer_dimension as nat <= next_pow2(randomizer_dimension as nat),
        1 <= trace_log_size < masked_log_size <= MAX_CIRCLE_DOMAIN_LOG_SIZE,
        1 <= leakage_budget <= randomizer_dimension,
{
    lemma_next_pow2(randomizer_dimension as nat);
}

/// The circle domain of the canonic coset of log size `log_size`, or the error naming it.
fn canonic_domain(log_size: u32) -> (r: Result<CircleDomain, WitnessMaskError>)
    ensures
        r is Ok <==> canonic_log_size_ok(log_size),
        r matches Err(e) ==> e == (WitnessMaskError::InvalidCanonicCosetLogSize { log_size }),
        r matches Ok(d) ==> {
            &&& d.spec_log_size() == log_size
            &&& d.spec_half().spec_initial() == index_pow2(30 - log_size)
            &&& d.spec_half().spec_step() == index_pow2(32 - log_size)
        },
{
    match CanonicCoset::try_new(log_size) {
        Ok(coset) => Ok(coset.circle_domain()),
        Err(_) => Err(WitnessMaskError::InvalidCanonicCosetLogSize { log_size }),
    }
}

impl WitnessMaskConfig {
    pub closed spec fn spec_trace_log_size(self) -> u32 {
        self.trace_log_size
    }

    pub closed spec fn spec_masked_log_size(self) -> u32 {
        self.masked_log_size
    }

    pub closed spec fn spec_randomizer_dimension(self) -> usize {
        self.randomizer_dimension
    }

    pub closed spec fn spec_leakage_budget(self) -> usize {
        self.leakage_budget
    }

    /// The configuration passes every check of `mask_config_check`.
    pub open spec fn is_valid(self) -> bool {
        mask_config_check(
            self.spec_trace_log_size(),
            self.spec_masked_log_size(),
            self.spec_randomizer_dimension(),
            self.spec_leakage_budget(),
        ) is Ok
    }

    /// A configuration whose randomizer dimension equals the leakage budget.
    pub fn new(trace_log_size: u32, masked_log_size: u32, leakage_budget: usize) -> (r: Result<
        WitnessMaskConfig,
        WitnessMaskError,
    >)
        ensures
            r == Self::spec_with_randomizer_dimension(
                trace_log_size,
                masked_log_size,
                leakage_budget,
                leakage_budget,
            ),
    {
        Self::with_randomizer_dimension(trace_log_size, masked_log_size, leakage_budget, leakage_budget)
    }

    /// The configuration with the given parameters when they pass `mask_config_check`, else
    /// its error.
    pub open spec fn spec_with_randomizer_dimension(
        trace_log_size: u32,
        masked_log_size: u32,
        randomizer_dimension: usize,
        leakage_budget: usize,
    ) -> Result<WitnessMaskConfig, WitnessMaskError> {
        match mask_config_check(trace_log_size, masked_log_size, randomizer_dimension, leakage_budget) {
            Ok(_) => Ok(
                WitnessMaskConfig::spec_make(
                    trace_log_size,
                    masked_log_size,
                    randomizer_dimension,
                    leakage_budget,
                ),
            ),
            Err(e) => Err(e),
        }
    }

    /// The configuration value holding the given parameters.
    pub closed spec fn spec_make(
        trace_log_size: u32,
        masked_log_size: u32,
        randomizer_dimension: usize,
        leakage_budget: usize,
    ) -> WitnessMaskConfig {
        WitnessMaskConfig { trace_log_size, masked_log_size, randomizer_dimension, leakage_budget }
    }

    /// The getters read back what `spec_make` stored.
    pub broadcast proof fn lemma_make_fields(t: u32, m: u32, d: usize, b: usize)
        ensures
            #![trigger WitnessMaskConfig::spec_make(t, m, d, b)]
            WitnessMaskConfig::spec_make(t, m, d, b).spec_trace_log_size() == t,
            WitnessMaskConfig::spec_make(t, m, d, b).spec_masked_log_size() == m,
            WitnessMaskConfig::spec_make(t, m, d, b).spec_randomizer_dimension() == d,
            WitnessMaskConfig::spec_make(t, m, d, b).spec_leakage_budget() == b,
    {
    }

    /// A configuration with an explicit randomizer dimension, which must cover the budget.
    pub fn with_randomizer_dimension(
        trace_log_size: u32,
        masked_log_size: u32,
        randomizer_dimension: usize,
        leakage_budget: usize,
    ) -> (r: Result<WitnessMaskConfig, WitnessMaskError>)
        ensures
            r == Self::spec_with_randomizer_dimension(
                trace_log_size,
                masked_log_size,
                randomizer_dimension,
                leakage_budget,
            ),
    {
        let config = WitnessMaskConfig { trace_log_size, masked_log_size, randomizer_dimension, leakage_budget };
        match config.validate() {
            Ok(()) => Ok(config),
            Err(e) => Err(e),
        }
    }

    pub fn trace_log_size(&self) -> (r: u32)
        ensures
            r == self.spec_trace_log_size(),
    {
        self.trace_log_size
    }

    pub fn masked_log_size(&self) -> (r: u32)
        ensures
            r == self.spec_masked_log_size(),
    {
        self.masked_log_size
    }

    pub fn randomizer_dimension(&self) -> (r: usize)
        ensures
            r == self.spec_randomizer_dimension(),
    {
        self.randomizer_dimension
    }

    pub fn leakage_budget(&self) -> (r: usize)
        ensures
            r == self.spec_leakage_budget(),
    {
        self.leakage_budget
    }

    /// Fails unless both the randomizer dimension and the declared budget cover `required`
    /// openings.
    pub fn check_leakage_budget(&self, required: usize) -> (r: Result<(), WitnessMaskError>)
        ensures
            r == (if self.spec_randomizer_dimension() < required || self.spec_leakage_budget() < required {
                Err(
                    WitnessMaskError::PublicLeakageBudgetExceeded {
                        randomizer_dimension: self.spec_randomizer_dimension(),
                        leakage_budget: self.spec_leakage_budget(),
                        required,
                    },
                )
            } else {
                Ok::<(), WitnessMaskError>(())
            }),
    {
        if self.randomizer_dimension < required || self.leakage_budget < required {
            return Err(
                WitnessMaskError::PublicLeakageBudgetExceeded {
                    randomizer_dimension: self.randomizer_dimension,
                    leakage_budget: self.leakage_budget,
                    required,
                },
            );
        }
        Ok(())
    }

    /// The number of coefficient slots of the randomizer: its dimension rounded up to a power
    /// of two.
    pub fn randomizer_coeff_count(&self) -> (r: Result<usize, WitnessMaskError>)
        ensures
            r == (if self.spec_randomizer_dimension() == 0 {
                Err(WitnessMaskError::EmptyRandomizerSpace)
            } else if next_pow2(self.spec_randomizer_dimension() as nat) > usize::MAX {
                Err(WitnessMaskError::RandomizerDimensionTooLarge)
            } else {
                Ok(next_pow2(self.spec_randomizer_dimension() as nat) as usize)
            }),
    {
        if self.randomizer_dimension == 0 {
            return Err(WitnessMaskError::EmptyRandomizerSpace);
        }
        match checked_next_power_of_two(self.randomizer_dimension) {
            Some(c) => Ok(c),
            None => Err(WitnessMaskError::RandomizerDimensionTooLarge),
        }
    }

    /// Checks the parameters: a nonzero budget covered by the randomizer, valid domains, a
    /// masked domain larger than the trace domain and wide enough for `v_H r`.
    pub fn validate(&self) -> (r: Result<(), WitnessMaskError>)
        ensures
            r == mask_config_check(
                self.spec_trace_log_size(),
                self.spec_masked_log_size(),
                self.spec_randomizer_dimension(),
                self.spec_leakage_budget(),
            ),
            r is Ok ==> pow2(self.spec_trace_log_size() as nat) + next_pow2(self.spec_randomizer_dimension() as nat)
                <= pow2(self.spec_masked_log_size() as nat),
    {
        proof {
            if mask_config_check(
                self.spec_trace_log_size(),
                self.spec_masked_log_size(),
                self.spec_randomizer_dimension(),
                self.spec_leakage_budget(),
            ) is Ok {
                lemma_validated_config_has_room(
                    self.spec_trace_log_size(),
                    self.spec_masked_log_size(),
                    self.spec_randomizer_dimension(),
                    self.spec_leakage_budget(),
                );
            }
        }
        if self.leakage_budget == 0 {
            return Err(WitnessMaskError::EmptyLeakageBudget);
        }
        if self.randomizer_dimension < self.leakage_budget {
            return Err(
                WitnessMaskError::InsufficientRandomizerDimension {
                    randomizer_dimension: self.randomizer_dimension,
                    leakage_budget: self.leakage_budget,
                },
            );
        }
        let trace_domain = match self.trace_domain() {
            Ok(d) => d,
            Err(e) => return Err(e),
        };
        let masked_domain = match self.masked_domain() {
            Ok(d) => d,
            Err(e) => return Err(e),
        };
        let randomizer_coeff_count = match self.randomizer_coeff_count() {
            Ok(c) => c,
            Err(e) => return Err(e),
        };
        if masked_domain.log_size() <= trace_domain.log_size() {
            return Err(
                WitnessMaskError::MaskedDomainNotLarger {
                    trace_log_size: trace_domain.log_size(),
                    masked_log_size: masked_domain.log_size(),
                },
            );
        }
        let trace_size = trace_domain.size();
        let masked_size = masked_domain.size();
        proof {
            vstd::arithmetic::power2::lemma_pow2_strictly_increases(self.masked_log_size as nat, 31);
            vstd::arithmetic::power2::lemma2_to64();
        }
        if trace_size > usize::MAX - randomizer_coeff_count || trace_size + randomizer_coeff_count > masked_size {
            return Err(
                WitnessMaskError::MaskedDomainTooSmall {
                    trace_size,
                    randomizer_coeff_count,
                    masked_size,
                },
            );
        }
        Ok(())
    }

    /// The trace domain: the circle domain of log size `trace_log_size`.
    pub fn trace_domain(&self) -> (r: Result<CircleDomain, WitnessMaskError>)
        ensures
            r is Ok <==> canonic_log_size_ok(self.spec_trace_log_size()),
            r matches Err(e) ==> e == (WitnessMaskError::InvalidCanonicCosetLogSize {
                log_size: self.spec_trace_log_size(),
            }),
            r matches Ok(d) ==> {
                &&& d.spec_log_size() == self.spec_trace_log_size()
                &&& d.spec_half().spec_initial() == index_pow2(30 - self.spec_trace_log_size())
                &&& d.spec_half().spec_step() == index_pow2(32 - self.spec_trace_log_size())
            },
    {
        canonic_domain(self.trace_log_size)
    }

    /// The masked domain: the circle domain of log size `masked_log_size`.
    pub fn masked_domain(&self) -> (r: Result<CircleDomain, WitnessMaskError>)
        ensures
            r is Ok <==> canonic_log_size_ok(self.spec_masked_log_size()),
            r matches Err(e) ==> e == (WitnessMaskError::InvalidCanonicCosetLogSize {
                log_size: self.spec_masked_log_size(),
            }),
            r matches Ok(d) ==> {
                &&& d.spec_log_size() == self.spec_masked_log_size()
                &&& d.spec_half().spec_initial() == index_pow2(30 - self.spec_masked_log_size())
                &&& d.spec_half().spec_step() == index_pow2(32 - self.spec_masked_log_size())
            },
    {
        canonic_domain(self.masked_log_size)
    }
}

/// Every configuration that construction returns passes validation, and holds the
/// parameters it was built from.
pub proof fn lemma_constructed_config_is_valid(t: u32, m: u32, d: usize, b: usize)
    ensures
        WitnessMaskConfig::spec_with_randomizer_dimension(t, m, d, b) matches Ok(c) ==> {
            &&& c.is_valid()
            &&& c.spec_trace_log_size() == t
            &&& c.spec_masked_log_size() == m
            &&& c.spec_randomizer_dimension() == d
            &&& c.spec_leakage_budget() == b
            &&& d >= b >= 1
            &&& t < m
        },
{
    WitnessMaskConfig::lemma_make_fields(t, m, d, b);
}

// ---------------------------------------------------------------------------
// Random draws.
// ---------------------------------------------------------------------------

#[verifier::external_type_specification]
#[verifier::external_body]
pub struct ExStdRng(StdRng);

/// The next 32 random bits of `rng` (`rand::RngCore::next_u32`). Nothing is stated of the
/// value: it is chance's, uniform over `u32` by rand's documentation.
#[verifier::external_body]
fn next_random_u32(rng: &mut StdRng) -> (r: u32) {
    rng.next_u32()
}

/// The most draws `sample_base_field` makes before it gives up.
pub const MAX_BASE_FIELD_DRAWS: u64 = 0xffff_ffff_ffff_ffff;

/// The base field element that 32 random bits give: their low 31 bits, unless these are `P`,
/// when the draw is rejected (`None`). Uniform bits give a uniform element.
pub fn base_field_from_bits(bits: u32) -> (r: Option<M31>)
    ensures
        r is Some <==> (bits & 0x7fff_ffff) < P,
        r matches Some(v) ==> v.val() == (bits & 0x7fff_ffff),
{
    let candidate = bits & 0x7fff_ffff;
    if candidate < P {
        Some(M31::from_u32_unchecked(candidate))
    } else {
        None
    }
}

/// A uniform base field element, by rejection: `base_field_from_bits` of fresh random bits until
/// a draw is accepted. A draw is rejected with probability `2^-31`; after `MAX_BASE_FIELD_DRAWS`
/// rejections in a row, which does not happen in practice, zero is returned.
pub fn sample_base_field(rng: &mut StdRng) -> (r: M31)
    ensures
        0 <= r.val() < P,
{
    let mut draws: u64 = 0;
    while draws < MAX_BASE_FIELD_DRAWS
        decreases MAX_BASE_FIELD_DRAWS - draws,
    {
        match base_field_from_bits(next_random_u32(rng)) {
            Some(v) => {
                return v;
            },
            None => {},
        }
        draws = draws + 1;
    }
    M31::zero()
}

/// `n` base field elements drawn one after the other.
fn draw_base_field_values(n: usize, rng: &mut StdRng) -> (r: Vec<M31>)
    ensures
        r@.len() == n,
{
    let mut out: Vec<M31> = Vec::new();
    let mut i: usize = 0;
    while i < n
        invariant
            i <= n,
            out@.len() == i,
        decreases n - i,
    {
        out.push(sample_base_field(rng));
        i = i + 1;
    }
    out
}

/// Equal powers of two have equal exponents.
pub proof fn lemma_pow2_injective(a: nat, b: nat)
    requires
        pow2(a) == pow2(b),
    ensures
        a == b,
{
    if a < b {
        vstd::arithmetic::power2::lemma_pow2_strictly_increases(a, b);
    }
    if b < a {
        vstd::arithmetic::power2::lemma_pow2_strictly_increases(b, a);
    }
}

/// `2^log_size` is a power of two in the sense of `is_power_of_two`.
proof fn lemma_pow2_is_power_of_two(log_size: nat)
    requires
        log_size < 64,
    ensures
        is_power_of_two(pow2(log_size)),
{
}

/// The smaller of two sizes.
pub open spec fn min_size(a: nat, b: nat) -> nat {
    if a < b { a } else { b }
}

/// The coefficients of a randomizer of `coeff_count` slots: the draws in the first `dimension`
/// slots, zeros after.
pub open spec fn randomizer_coeffs(coeff_count: nat, dimension: nat, draws: Seq<M31>) -> Seq<M31> {
    Seq::new(coeff_count, |i: int| if i < dimension { draws[i] } else { m31_of(0) })
}

/// Places the drawn values in a randomizer of `coeff_count` slots: the first `dimension` slots
/// hold the draws in order, the others zero.
pub fn randomizer_from_draws(coeff_count: usize, dimension: usize, draws: &Vec<M31>) -> (r: CircleCoefficients)
    requires
        is_power_of_two(coeff_count as nat),
        draws@.len() == min_size(dimension as nat, coeff_count as nat),
    ensures
        r.spec_coeffs() == randomizer_coeffs(coeff_count as nat, dimension as nat, draws@),
        pow2(r.spec_log_size()) == coeff_count,
{
    let ghost spec = randomizer_coeffs(coeff_count as nat, dimension as nat, draws@);
    let mut coeffs: Vec<M31> = Vec::new();
    let mut i: usize = 0;
    while i < coeff_count
        invariant
            i <= coeff_count,
            draws@.len() == min_size(dimension as nat, coeff_count as nat),
            spec == randomizer_coeffs(coeff_count as nat, dimension as nat, draws@),
            coeffs@ == spec.take(i as int),
        decreases coeff_count - i,
    {
        if i < dimension {
            coeffs.push(draws[i]);
        } else {
            let z = M31::zero();
            assert(z == m31_of(0)) by {
                assert(m31_of(0).val() == 0);
            }
            coeffs.push(z);
        }
        i = i + 1;
        assert(coeffs@ =~= spec.take(i as int));
    }
    assert(spec.take(coeff_count as int) =~= spec);
    CircleCoefficients::new(coeffs)
}

/// A randomizer polynomial: `dimension` random coefficients, then zeros, in `coeff_count`
/// slots; the draws are placed by `randomizer_from_draws`.
pub fn sample_randomizer(coeff_count: usize, dimension: usize, rng: &mut StdRng) -> (r: CircleCoefficients)
    requires
        is_power_of_two(coeff_count as nat),
    ensures
        r.spec_coeffs().len() == coeff_count,
        exists|draws: Seq<M31>|
            draws.len() == min_size(dimension as nat, coeff_count as nat) && r.spec_coeffs()
                == randomizer_coeffs(coeff_count as nat, dimension as nat, draws),
{
    let n = if dimension < coeff_count { dimension } else { coeff_count };
    let draws = draw_base_field_values(n, rng);
    randomizer_from_draws(coeff_count, dimension, &draws)
}

/// The number of random coefficients at the start of every chunk of the composition
/// randomizer: `ceil(dimension / 2^k)`, at most the chunk size `2^(log_size - k)`.
pub open spec fn randomizer_per_chunk(log_size: nat, k: nat, dimension: nat) -> nat {
    let n_chunks = pow2(k);
    let chunk_size = pow2((log_size - k) as nat);
    let per = ((dimension + n_chunks - 1) / n_chunks as int) as nat;
    if per < chunk_size { per } else { chunk_size }
}

/// The random coefficients fit in each chunk, every chunk gets at least one when the dimension
/// is positive, and together the `2^k` chunks hold at least `dimension` of them.
pub proof fn lemma_randomizer_per_chunk_covers(log_size: nat, k: nat, dimension: nat)
    requires
        k <= log_size,
        dimension <= pow2(log_size),
    ensures
        randomizer_per_chunk(log_size, k, dimension) <= pow2((log_size - k) as nat),
        dimension >= 1 ==> randomizer_per_chunk(log_size, k, dimension) >= 1,
        pow2(k) * randomizer_per_chunk(log_size, k, dimension) >= dimension,
{
    vstd::arithmetic::power2::lemma_pow2_pos((log_size - k) as nat);
    let c = pow2(k) as int;
    let d = dimension as int;
    vstd::arithmetic::power2::lemma_pow2_pos(k);
    vstd::arithmetic::power2::lemma_pow2_adds((log_size - k) as nat, k);
    let per = (d + c - 1) / c;
    vstd::arithmetic::div_mod::lemma_fundamental_div_mod(d + c - 1, c);
    vstd::arithmetic::div_mod::lemma_mod_bound(d + c - 1, c);
    assert(c * per >= d) by (nonlinear_arith)
        requires d + c - 1 == c * per + (d + c - 1) % c, 0 <= (d + c - 1) % c < c;
    if d >= 1 {
        assert(per >= 1) by (nonlinear_arith)
            requires d + c - 1 == c * per + (d + c - 1) % c, 0 <= (d + c - 1) % c < c, d >= 1, c >= 1;
    }
    assert(pow2(k) * pow2((log_size - k) as nat) == pow2((log_size - k) as nat) * pow2(k)) by (nonlinear_arith);
}

/// The coefficients of a polynomial of `count` slots cut into chunks of `chunk` slots, with
/// `per` draws at the start of every chunk, taken in order from position `base` of `draws`; the
/// other slots are zero.
pub open spec fn chunk_prefix_coeffs(count: nat, chunk: nat, per: nat, draws: Seq<M31>, base: int) -> Seq<M31> {
    Seq::new(
        count,
        |i: int|
            if i % (chunk as int) < per {
                draws[base + (i / (chunk as int)) * per + i % (chunk as int)]
            } else {
                m31_of(0)
            },
    )
}

/// The coefficients of coordinate polynomial `j` of a composition randomizer of log size
/// `log_size` split `2^k` ways, with `per` draws at the start of every chunk: the draws are taken
/// in order, coordinate after coordinate and chunk after chunk, and the other positions are zero.
pub open spec fn composition_randomizer_coeffs(log_size: nat, k: nat, per: nat, draws: Seq<M31>, j: int) -> Seq<M31> {
    chunk_prefix_coeffs(pow2(log_size), pow2((log_size - k) as nat), per, draws, j * (pow2(k) * per))
}

/// The number of draws a composition randomizer takes: `per` in each of the `2^k` chunks of each
/// of the four coordinate polynomials.
pub open spec fn composition_randomizer_draws(log_size: nat, k: nat, dimension: nat) -> nat {
    4 * (pow2(k) * randomizer_per_chunk(log_size, k, dimension))
}

/// The sizes of a composition randomizer: the coefficient count `2^log_size`, the number of
/// chunks `2^k`, the chunk size and the random coefficients per chunk.
fn composition_randomizer_layout(log_size: u32, composition_log_split: u32, dimension: usize) -> (r: (usize, usize, usize, usize))
    requires
        log_size < 64,
        pow2(log_size as nat) <= usize::MAX,
        composition_log_split <= log_size,
        dimension <= pow2(log_size as nat),
    ensures
        r.0 == pow2(log_size as nat),
        r.1 == pow2(composition_log_split as nat),
        r.2 == pow2((log_size - composition_log_split) as nat),
        r.3 == randomizer_per_chunk(log_size as nat, composition_log_split as nat, dimension as nat),
        r.1 * r.2 == r.0,
        r.1 >= 1,
        r.2 >= 1,
        r.3 <= r.2,
        r.1 * r.3 <= r.0,
{
    proof {
        vstd::arithmetic::power2::lemma2_to64();
        vstd::arithmetic::power2::lemma_pow2_pos(log_size as nat);
        vstd::bits::lemma_u64_shl_is_mul(1, log_size as u64);
    }
    let coeff_count: usize = (1u64 << log_size) as usize;
    let ghost k = composition_log_split as nat;
    let ghost n = log_size as nat;
    proof {
        vstd::arithmetic::power2::lemma_pow2_adds((n - k) as nat, k);
        vstd::arithmetic::power2::lemma_pow2_pos(k);
        vstd::arithmetic::power2::lemma_pow2_pos((n - k) as nat);
        if k < n {
            vstd::arithmetic::power2::lemma_pow2_strictly_increases(k, n);
        }
        assert(pow2((n - k) as nat) * pow2(k) == pow2(n));
        vstd::bits::lemma_u64_shl_is_mul(1, composition_log_split as u64);
        assert(pow2((n - k) as nat) <= pow2(n)) by (nonlinear_arith)
            requires pow2((n - k) as nat) * pow2(k) == pow2(n), pow2(k) >= 1, pow2((n - k) as nat) >= 1;
    }
    let n_chunks: usize = (1u64 << composition_log_split) as usize;
    let chunk_size: usize = coeff_count / n_chunks;
    proof {
        vstd::arithmetic::div_mod::lemma_div_multiples_vanish(pow2((n - k) as nat) as int, pow2(k) as int);
        assert(pow2((n - k) as nat) * pow2(k) == pow2(k) * pow2((n - k) as nat)) by (nonlinear_arith);
        assert(chunk_size == pow2((n - k) as nat));
    }
    let quotient = dimension / n_chunks;
    proof {
        vstd::arithmetic::div_mod::lemma_fundamental_div_mod(dimension as int, n_chunks as int);
        if dimension % n_chunks != 0 {
            assert(n_chunks >= 2);
            assert(quotient * 2 <= quotient * n_chunks) by (nonlinear_arith)
                requires n_chunks >= 2, quotient >= 0;
        }
    }
    let per_chunk_ceil = if dimension % n_chunks == 0 { quotient } else { quotient + 1 };
    let per_chunk = if per_chunk_ceil < chunk_size { per_chunk_ceil } else { chunk_size };
    proof {
        let d = dimension as int;
        let c = n_chunks as int;
        vstd::arithmetic::div_mod::lemma_fundamental_div_mod(d + c - 1, c);
        vstd::arithmetic::div_mod::lemma_mod_bound(d, c);
        vstd::arithmetic::div_mod::lemma_mod_bound(d + c - 1, c);
        assert((d + c - 1) / c == per_chunk_ceil) by (nonlinear_arith)
            requires
                c >= 1,
                d == c * (d / c) + d % c,
                d + c - 1 == c * ((d + c - 1) / c) + (d + c - 1) % c,
                0 <= d % c < c,
                0 <= (d + c - 1) % c < c,
                per_chunk_ceil == (if d % c == 0 { d / c } else { d / c + 1 }),
        ;
        assert(per_chunk == randomizer_per_chunk(n, k, dimension as nat));
        assert(n_chunks * per_chunk <= n_chunks * chunk_size) by (nonlinear_arith)
            requires per_chunk <= chunk_size, n_chunks >= 1;
    }
    (coeff_count, n_chunks, chunk_size, per_chunk)
}

/// Places the drawn values in a composition randomizer of log size `log_size` split
/// `2^composition_log_split` ways: in each coordinate polynomial, the first
/// `randomizer_per_chunk` positions of every chunk hold the next draws, the others zero. Fails
/// when the dimension exceeds the `2^log_size` coefficients.
pub fn composition_randomizer_from_draws(
    log_size: u32,
    composition_log_split: u32,
    dimension: usize,
    draws: &Vec<M31>,
) -> (r: Result<SecureCirclePoly, WitnessMaskError>)
    requires
        log_size < 64,
        pow2(log_size as nat) <= usize::MAX,
        dimension <= pow2(log_size as nat) ==> composition_log_split <= log_size,
        dimension <= pow2(log_size as nat) ==> draws@.len() == composition_randomizer_draws(
            log_size as nat,
            composition_log_split as nat,
            dimension as nat,
        ),
    ensures
        r is Err <==> dimension > pow2(log_size as nat),
        r matches Err(e) ==> e == (WitnessMaskError::CompositionRandomizerDimensionTooLarge {
            dimension,
            coeff_count: pow2(log_size as nat) as usize,
        }),
        r matches Ok(t) ==> forall|j: int| 0 <= j < 4 ==> {
            &&& (#[trigger] t.0[j]).spec_log_size() == log_size
            &&& t.0[j].spec_coeffs() == composition_randomizer_coeffs(
                log_size as nat,
                composition_log_split as nat,
                randomizer_per_chunk(log_size as nat, composition_log_split as nat, dimension as nat),
                draws@,
                j,
            )
        },
{
    proof {
        vstd::arithmetic::power2::lemma2_to64();
        vstd::bits::lemma_u64_shl_is_mul(1, log_size as u64);
    }
    let coeff_count: usize = (1u64 << log_size) as usize;
    if dimension > coeff_count {
        return Err(WitnessMaskError::CompositionRandomizerDimensionTooLarge { dimension, coeff_count });
    }
    let (coeff_count, n_chunks, chunk_size, per_chunk) = composition_randomizer_layout(
        log_size,
        composition_log_split,
        dimension,
    );
    let block = n_chunks * per_chunk;
    let total = draws.len();
    let ghost k = composition_log_split as nat;
    let ghost n = log_size as nat;
    proof {
        lemma_pow2_is_power_of_two(n);
        assert(draws@.len() == 4 * block);
    }
    let c0 = composition_coordinate_from_draws(coeff_count, n_chunks, chunk_size, per_chunk, draws, 0);
    let c1 = composition_coordinate_from_draws(coeff_count, n_chunks, chunk_size, per_chunk, draws, block);
    let c2 = composition_coordinate_from_draws(coeff_count, n_chunks, chunk_size, per_chunk, draws, 2 * block);
    let c3 = composition_coordinate_from_draws(coeff_count, n_chunks, chunk_size, per_chunk, draws, 3 * block);
    proof {
        lemma_pow2_injective(c0.spec_log_size(), n);
        lemma_pow2_injective(c1.spec_log_size(), n);
        lemma_pow2_injective(c2.spec_log_size(), n);
        lemma_pow2_injective(c3.spec_log_size(), n);
    }
    let t = SecureCirclePoly([c0, c1, c2, c3]);
    proof {
        let per = per_chunk as nat;
        assert(t.0[0] == c0 && t.0[1] == c1 && t.0[2] == c2 && t.0[3] == c3);
        assert(0 * (pow2(k) * per) == 0);
        assert(1 * (pow2(k) * per) == block);
        assert(2 * (pow2(k) * per) == 2 * block);
        assert(3 * (pow2(k) * per) == 3 * block);
    }
    Ok(t)
}

/// One coordinate polynomial of a composition randomizer: `per_chunk` draws at the start of each
/// of the `n_chunks` chunks, taken in order from position `base` of `draws`.
fn composition_coordinate_from_draws(
    coeff_count: usize,
    n_chunks: usize,
    chunk_size: usize,
    per_chunk: usize,
    draws: &Vec<M31>,
    base: usize,
) -> (r: CircleCoefficients)
    requires
        is_power_of_two(coeff_count as nat),
        n_chunks * chunk_size == coeff_count,
        chunk_size >= 1,
        per_chunk <= chunk_size,
        base + n_chunks * per_chunk <= draws@.len(),
    ensures
        pow2(r.spec_log_size()) == coeff_count,
        r.spec_coeffs() == chunk_prefix_coeffs(coeff_count as nat, chunk_size as nat, per_chunk as nat, draws@, base as int),
{
    let ghost spec = chunk_prefix_coeffs(coeff_count as nat, chunk_size as nat, per_chunk as nat, draws@, base as int);
    let total = draws.len();
    let mut coeffs: Vec<M31> = Vec::new();
    let mut i: usize = 0;
    while i < coeff_count
        invariant
            i <= coeff_count,
            n_chunks * chunk_size == coeff_count,
            chunk_size >= 1,
            per_chunk <= chunk_size,
            base + n_chunks * per_chunk <= draws@.len(),
            total == draws@.len(),
            spec == chunk_prefix_coeffs(coeff_count as nat, chunk_size as nat, per_chunk as nat, draws@, base as int),
            coeffs@ == spec.take(i as int),
        decreases coeff_count - i,
    {
        let offset = i % chunk_size;
        if offset < per_chunk {
            let chunk = i / chunk_size;
            proof {
                vstd::arithmetic::div_mod::lemma_fundamental_div_mod(i as int, chunk_size as int);
                assert(chunk < n_chunks) by (nonlinear_arith)
                    requires
                        i == chunk_size * chunk + offset,
                        i < n_chunks * chunk_size,
                        offset >= 0,
                        chunk >= 0,
                        chunk_size >= 1,
                ;
                assert(chunk * per_chunk + offset < n_chunks * per_chunk) by (nonlinear_arith)
                    requires
                        chunk < n_chunks,
                        offset < per_chunk,
                        chunk >= 0,
                ;
            }
            let idx = base + (chunk * per_chunk + offset);
            coeffs.push(draws[idx]);
        } else {
            let z = M31::zero();
            assert(z == m31_of(0)) by {
                assert(m31_of(0).val() == 0);
            }
            coeffs.push(z);
        }
        i = i + 1;
        assert(coeffs@ =~= spec.take(i as int));
    }
    assert(spec.take(coeff_count as int) =~= spec);
    CircleCoefficients::new(coeffs)
}

/// The `4 * block` draws of a composition randomizer, `block` for each coordinate polynomial.
fn draw_composition_values(block: usize, rng: &mut StdRng) -> (r: Vec<M31>)
    ensures
        r@.len() == 4 * block,
{
    let mut draws = draw_base_field_values(block, rng);
    let mut d1 = draw_base_field_values(block, rng);
    draws.append(&mut d1);
    let mut d2 = draw_base_field_values(block, rng);
    draws.append(&mut d2);
    let mut d3 = draw_base_field_values(block, rng);
    draws.append(&mut d3);
    draws
}

/// Draws a composition randomizer `t`: a secure polynomial of log size `log_size` whose four
/// coordinate polynomials hold random coefficients at the start of each of the `2^k` chunks
/// that `split_k` cuts, `randomizer_per_chunk` of them per chunk, and zeros elsewhere, so that
/// every chunk is masked. The draws are placed by `composition_randomizer_from_draws`; on the
/// error nothing is drawn.
pub fn sample_composition_randomizer(
    log_size: u32,
    composition_log_split: u32,
    dimension: usize,
    rng: &mut StdRng,
) -> (r: Result<SecureCirclePoly, WitnessMaskError>)
    requires
        log_size < 64,
        pow2(log_size as nat) <= usize::MAX,
        dimension <= pow2(log_size as nat) ==> composition_log_split <= log_size,
    ensures
        r is Err <==> dimension > pow2(log_size as nat),
        r matches Err(e) ==> e == (WitnessMaskError::CompositionRandomizerDimensionTooLarge {
            dimension,
            coeff_count: pow2(log_size as nat) as usize,
        }),
        r is Err ==> *final(rng) == *old(rng),
        r matches Ok(t) ==> exists|draws: Seq<M31>|
            draws.len() == composition_randomizer_draws(log_size as nat, composition_log_split as nat, dimension as nat)
                && forall|j: int| 0 <= j < 4 ==> {
                &&& (#[trigger] t.0[j]).spec_log_size() == log_size
                &&& t.0[j].spec_coeffs() == composition_randomizer_coeffs(
                    log_size as nat,
                    composition_log_split as nat,
                    randomizer_per_chunk(log_size as nat, composition_log_split as nat, dimension as nat),
                    draws,
                    j,
                )
            },
{
    proof {
        vstd::arithmetic::power2::lemma2_to64();
        vstd::bits::lemma_u64_shl_is_mul(1, log_size as u64);
    }
    let coeff_count: usize = (1u64 << log_size) as usize;
    if dimension > coeff_count {
        return Err(WitnessMaskError::CompositionRandomizerDimensionTooLarge { dimension, coeff_count });
    }
    let (_, n_chunks, _, per_chunk) = composition_randomizer_layout(log_size, composition_log_split, dimension);
    let draws = draw_composition_values(n_chunks * per_chunk, rng);
    let r = composition_randomizer_from_draws(log_size, composition_log_split, dimension, &draws);
    proof {
        let d = draws@;
        assert(r matches Ok(t) ==> forall|j: int| 0 <= j < 4 ==> {
            &&& (#[trigger] t.0[j]).spec_log_size() == log_size
            &&& t.0[j].spec_coeffs() == composition_randomizer_coeffs(
                log_size as nat,
                composition_log_split as nat,
                randomizer_per_chunk(log_size as nat, composition_log_split as nat, dimension as nat),
                d,
                j,
            )
        });
    }
    r
}

/// A salt column from its drawn coefficients.
pub fn salt_column_from_draws(log_size: u32, draws: &Vec<M31>) -> (r: CircleCoefficients)
    requires
        log_size < 64,
        draws@.len() == pow2(log_size as nat),
    ensures
        r.spec_log_size() == log_size,
        r.spec_coeffs() == draws@,
{
    let mut coeffs: Vec<M31> = Vec::new();
    let mut i: usize = 0;
    while i < draws.len()
        invariant
            i <= draws@.len(),
            coeffs@ == draws@.take(i as int),
        decreases draws@.len() - i,
    {
        coeffs.push(draws[i]);
        i = i + 1;
        assert(coeffs@ =~= draws@.take(i as int));
    }
    assert(draws@.take(draws@.len() as int) =~= draws@);
    proof {
        lemma_pow2_is_power_of_two(log_size as nat);
    }
    let r = CircleCoefficients::new(coeffs);
    proof {
        lemma_pow2_injective(r.spec_log_size(), log_size as nat);
    }
    r
}

/// A salt column: a polynomial of log size `log_size` whose every coefficient is random, placed
/// by `salt_column_from_draws`.
pub fn sample_salt_column(log_size: u32, rng: &mut StdRng) -> (r: CircleCoefficients)
    requires
        log_size < 64,
        pow2(log_size as nat) <= usize::MAX,
    ensures
        r.spec_log_size() == log_size,
        r.spec_coeffs().len() == pow2(log_size as nat),
        exists|draws: Seq<M31>| draws.len() == pow2(log_size as nat) && r.spec_coeffs() == draws,
{
    proof {
        vstd::arithmetic::power2::lemma2_to64();
        vstd::bits::lemma_u64_shl_is_mul(1, log_size as u64);
    }
    let n: usize = (1u64 << log_size) as usize;
    let draws = draw_base_field_values(n, rng);
    salt_column_from_draws(log_size, &draws)
}

// ---------------------------------------------------------------------------
// The composition mask.
// ---------------------------------------------------------------------------

/// The coefficients of `q + t`, coefficientwise, over the coefficients of `q`.
pub open spec fn coeffs_sum(q: Seq<M31>, t: Seq<M31>) -> Seq<int> {
    Seq::new(q.len(), |i: int| modp(q[i].val() + t[i].val()))
}

/// Returns the masked composition `q' = q + t`, added coordinate- and coefficientwise; both
/// must have the same log size.
pub fn add_composition_randomizer(composition: SecureCirclePoly, randomizer: &SecureCirclePoly) -> (r: Result<
    SecureCirclePoly,
    WitnessMaskError,
>)
    requires
        composition.0[0].spec_log_size() == randomizer.0[0].spec_log_size() ==> forall|j: int|
            0 <= j < 4 ==> (#[trigger] randomizer.0[j]).spec_log_size() >= composition.0[j].spec_log_size(),
    ensures
        r is Err <==> composition.0[0].spec_log_size() != randomizer.0[0].spec_log_size(),
        r matches Err(e) ==> e == (WitnessMaskError::CompositionRandomizerLogSizeMismatch {
            randomizer_log_size: randomizer.0[0].spec_log_size() as u32,
            composition_log_size: composition.0[0].spec_log_size() as u32,
        }),
        r matches Ok(s) ==> is_masked_sum(composition, *randomizer, s),
{
    let q_log = composition.log_size();
    let t_log = randomizer.log_size();
    if q_log != t_log {
        return Err(
            WitnessMaskError::CompositionRandomizerLogSizeMismatch {
                randomizer_log_size: t_log,
                composition_log_size: q_log,
            },
        );
    }
    let ghost q = composition.0;
    let parts = composition.into_coordinate_polys();
    let s0 = add_coefficients(&parts[0], &randomizer.0[0]);
    let s1 = add_coefficients(&parts[1], &randomizer.0[1]);
    let s2 = add_coefficients(&parts[2], &randomizer.0[2]);
    let s3 = add_coefficients(&parts[3], &randomizer.0[3]);
    let r = SecureCirclePoly([s0, s1, s2, s3]);
    assert(r.0[0] == s0 && r.0[1] == s1 && r.0[2] == s2 && r.0[3] == s3);
    assert(is_masked_sum(SecureCirclePoly(q), *randomizer, r));
    Ok(r)
}

/// The coefficientwise sum of `q` and the first coefficients of `t`.
fn add_coefficients(q: &CircleCoefficients, t: &CircleCoefficients) -> (r: CircleCoefficients)
    requires
        t.spec_log_size() >= q.spec_log_size(),
    ensures
        r.spec_log_size() == q.spec_log_size(),
        r.spec_coeffs().len() == q.spec_coeffs().len(),
        forall|i: int| 0 <= i < r.spec_coeffs().len() ==> (#[trigger] r.spec_coeffs()[i]).val()
            == coeffs_sum(q.spec_coeffs(), t.spec_coeffs())[i],
{
    let qc = q.coeffs();
    let tc = t.coeffs();
    let n = qc.len();
    let _ = q.log_size();
    let _ = t.log_size();
    proof {
        if t.spec_log_size() > q.spec_log_size() {
            vstd::arithmetic::power2::lemma_pow2_strictly_increases(q.spec_log_size(), t.spec_log_size());
        }
    }
    let mut coeffs: Vec<M31> = Vec::new();
    let mut i: usize = 0;
    while i < n
        invariant
            i <= n,
            n == qc@.len(),
            n <= tc@.len(),
            coeffs@.len() == i,
            forall|j: int| 0 <= j < i ==> (#[trigger] coeffs@[j]).val() == modp(qc@[j].val() + tc@[j].val()),
        decreases n - i,
    {
        coeffs.push(qc[i] + tc[i]);
        i = i + 1;
    }
    proof {
        lemma_pow2_is_power_of_two(q.spec_log_size());
    }
    let r = CircleCoefficients::new(coeffs);
    proof {
        lemma_pow2_injective(r.spec_log_size(), q.spec_log_size());
    }
    r
}

/// `s` is the coordinate- and coefficientwise sum of `q` and `t`, as
/// `add_composition_randomizer` returns it.
pub open spec fn is_masked_sum(q: SecureCirclePoly, t: SecureCirclePoly, s: SecureCirclePoly) -> bool {
    forall|j: int| 0 <= j < 4 ==> {
        &&& (#[trigger] s.0[j]).spec_log_size() == q.0[j].spec_log_size()
        &&& s.0[j].spec_coeffs().len() == q.0[j].spec_coeffs().len()
        &&& forall|i: int| 0 <= i < s.0[j].spec_coeffs().len() ==> (#[trigger] s.0[j].spec_coeffs()[i]).val()
            == coeffs_sum(q.0[j].spec_coeffs(), t.0[j].spec_coeffs())[i]
    }
}

/// Every coordinate polynomial has log size `n` and `2^n` coefficients.
pub open spec fn well_sized(c: [CircleCoefficients; 4], n: nat) -> bool {
    forall|j: int| 0 <= j < 4 ==> (#[trigger] c[j]).spec_log_size() == n && c[j].spec_coeffs().len() == pow2(n)
}

/// The masked composition's value is the composition's value plus the randomizer's, at every
/// point, so that the verifier recovers `q(z) = q'(z) - t(z)`.
pub proof fn lemma_masked_composition_eval(q: SecureCirclePoly, t: SecureCirclePoly, s: SecureCirclePoly, n: nat, z: QPoint)
    requires
        well_sized(q.0, n),
        well_sized(t.0, n),
        is_masked_sum(q, t, s),
    ensures
        s.spec_eval(z) == q_add(q.spec_eval(z), t.spec_eval(z)),
        q_sub(s.spec_eval(z), t.spec_eval(z)) == q.spec_eval(z),
{
    assert forall|j: int| 0 <= j < 4 implies #[trigger] circle_eval(s.0[j].spec_coeffs(), n, z) == q_add(
        circle_eval(q.0[j].spec_coeffs(), n, z),
        circle_eval(t.0[j].spec_coeffs(), n, z),
    ) by {
        let qc = q.0[j].spec_coeffs();
        let tc = t.0[j].spec_coeffs();
        let sc = s.0[j].spec_coeffs();
        assert forall|i: int| 0 <= i < sc.len() implies #[trigger] sc[i] == sum_coeffs(qc, tc)[i] by {
            assert(sum_coeffs(qc, tc)[i].val() == modp(qc[i].val() + tc[i].val()));
            assert(sc[i].val() == coeffs_sum(qc, tc)[i]);
        }
        assert(sc =~= sum_coeffs(qc, tc));
        lemma_sum_coeffs_eval(qc, tc, n, z);
    }
    crate::secure_poly::lemma_from_partial_add(
        q.0[0].spec_eval(z), q.0[1].spec_eval(z), q.0[2].spec_eval(z), q.0[3].spec_eval(z),
        t.0[0].spec_eval(z), t.0[1].spec_eval(z), t.0[2].spec_eval(z), t.0[3].spec_eval(z),
    );
    let qe = q.spec_eval(z);
    assert(qe == q_red(q_add_raw(q_add(q_add(q.0[0].spec_eval(z), crate::qm31_algebra::q_mul(q.0[1].spec_eval(z), crate::qm31_algebra::unit(1))), crate::qm31_algebra::q_mul(q.0[2].spec_eval(z), crate::qm31_algebra::unit(2))), crate::qm31_algebra::q_mul(q.0[3].spec_eval(z), crate::qm31_algebra::unit(3)))));
    lemma_red_canon(q_add_raw(q_add(q_add(q.0[0].spec_eval(z), crate::qm31_algebra::q_mul(q.0[1].spec_eval(z), crate::qm31_algebra::unit(1))), crate::qm31_algebra::q_mul(q.0[2].spec_eval(z), crate::qm31_algebra::unit(2))), crate::qm31_algebra::q_mul(q.0[3].spec_eval(z), crate::qm31_algebra::unit(3))));
    lemma_q_add_sub_cancel(qe, t.spec_eval(z));
}

/// The coefficients `q[i] + t[i]` as base field elements.
pub open spec fn sum_coeffs(q: Seq<M31>, t: Seq<M31>) -> Seq<M31> {
    Seq::new(q.len(), |i: int| crate::m31::m31_of(modp(q[i].val() + t[i].val())))
}

/// Evaluation is additive in the coefficients.
pub proof fn lemma_sum_coeffs_eval(q: Seq<M31>, t: Seq<M31>, n: nat, z: QPoint)
    requires
        q.len() == pow2(n),
        t.len() == pow2(n),
    ensures
        circle_eval(sum_coeffs(q, t), n, z) == q_add(circle_eval(q, n, z), circle_eval(t, n, z)),
{
    let a = embed_seq(q);
    let b = embed_seq(t);
    let f = eval_mappings(z, n);
    lemma_fold_add(a, b, f);
    assert forall|i: int| 0 <= i < q.len() implies #[trigger] embed_seq(sum_coeffs(q, t))[i] == q_add(a[i], b[i]) by {
        reveal(q_red);
        assert(modp(0int + 0int) == 0);
    }
    assert(embed_seq(sum_coeffs(q, t)) =~= Seq::new(a.len(), |j: int| q_add(a[j], b[j])));
}

// ---------------------------------------------------------------------------
// Vanishing on the trace domain.
// ---------------------------------------------------------------------------

/// The vanishing polynomial of a canonic trace domain `H` of log size at least two is zero at
/// every point of `H`, so that a masked column `w + v_H r` agrees with `w` on `H`.
pub proof fn lemma_trace_domain_vanishing_on_domain(trace_domain: CircleDomain, i: int)
    requires
        2 <= trace_domain.spec_log_size() <= MAX_CIRCLE_DOMAIN_LOG_SIZE,
        trace_domain.spec_half().spec_initial() == index_pow2(30 - trace_domain.spec_log_size()),
        trace_domain.spec_half().spec_step() == index_pow2(32 - trace_domain.spec_log_size()),
        0 <= i < pow2(trace_domain.spec_log_size()),
    ensures
        full_vanishing_spec(
            trace_domain.spec_half().spec_initial(),
            trace_domain.spec_half().spec_step(),
            trace_domain.spec_half().spec_log_size(),
            mp_lift(mp_mul(m31_circle_gen(), domain_index(trace_domain.spec_half(), i) as nat)),
        ) == q_zero(),
{
    let half = trace_domain.spec_half();
    trace_domain.lemma_half_log_size();
    let n = trace_domain.spec_log_size();
    assert(30 - n == 29 - half.spec_log_size());
    assert(32 - n == 31 - half.spec_log_size());
    vstd::arithmetic::power2::lemma_pow2_unfold(n);
    crate::circle_group::lemma_canonic_domain_vanishing(half, i);
}

/// On the canonic circle domain of log size `L`, a point doubled `e` times has abscissa zero
/// exactly when `e = L - 1`. So the recombination multiplier `(2^(mlb - 1 + i) p).x` vanishes on
/// the whole query domain of log size `mlb + log_blowup` at the fold level `i = log_blowup` and
/// nowhere on it at the other levels; in particular `(2^(mlb - 1) p).x` is nonzero on the query
/// domain for every blowup of at least one.
pub proof fn lemma_split_multiplier_zero_iff(domain: CircleDomain, i: int, e: nat)
    requires
        1 <= domain.spec_log_size() <= MAX_CIRCLE_DOMAIN_LOG_SIZE,
        domain.spec_half().spec_initial() == index_pow2(30 - domain.spec_log_size()),
        domain.spec_half().spec_step() == index_pow2(32 - domain.spec_log_size()),
        0 <= i < pow2(domain.spec_log_size()),
    ensures
        (mp_repeated_double(mp_mul(m31_circle_gen(), domain_index(domain.spec_half(), i) as nat), e).0 == 0)
            <==> (e == domain.spec_log_size() - 1),
{
    let half = domain.spec_half();
    domain.lemma_half_log_size();
    let n = domain.spec_log_size();
    assert(30 - n == 29 - half.spec_log_size());
    assert(32 - n == 31 - half.spec_log_size());
    vstd::arithmetic::power2::lemma_pow2_unfold(n);
    crate::circle_group::lemma_canonic_domain_doubling_abscissa(half, i, e);
}

/// At a point of the canonic query domain of log size `max_log_degree_bound + log_blowup`, the
/// recombination of `2^(log_blowup + 1)` chunk values has a zero last multiplier
/// `(2^(max_log_degree_bound - 1 + log_blowup) p).x`, so it depends on the first `2^log_blowup`
/// chunk values alone: two chunk sequences that agree there recombine to the same value.
pub proof fn lemma_recombination_ignores_upper_chunks(
    domain: CircleDomain,
    i: int,
    max_log_degree_bound: nat,
    log_blowup: nat,
    evals: Seq<Q4>,
    evals2: Seq<Q4>,
)
    requires
        max_log_degree_bound >= 1,
        log_blowup >= 1,
        domain.spec_log_size() == max_log_degree_bound + log_blowup,
        domain.spec_log_size() <= MAX_CIRCLE_DOMAIN_LOG_SIZE,
        domain.spec_half().spec_initial() == index_pow2(30 - domain.spec_log_size()),
        domain.spec_half().spec_step() == index_pow2(32 - domain.spec_log_size()),
        0 <= i < pow2(domain.spec_log_size()),
        evals.len() == pow2(log_blowup + 1),
        evals2.len() == pow2(log_blowup + 1),
        forall|j: int| 0 <= j < pow2(log_blowup) ==> evals[j] == evals2[j],
    ensures
        ({
            let z = mp_lift(mp_mul(m31_circle_gen(), domain_index(domain.spec_half(), i) as nat));
            let f = recombine_factors(z, max_log_degree_bound, log_blowup + 1);
            &&& f[0] == q_zero()
            &&& fold_spec(evals, f) == fold_spec(evals2, f)
        }),
{
    let pt = mp_mul(m31_circle_gen(), domain_index(domain.spec_half(), i) as nat);
    let z = mp_lift(pt);
    let k = log_blowup + 1;
    let f = recombine_factors(z, max_log_degree_bound, k);
    let e = (max_log_degree_bound - 1 + log_blowup) as nat;
    assert(f[0] == qp_repeated_double(z, e).0);
    crate::circle_group::lemma_lift_repeated_double(pt, e);
    lemma_split_multiplier_zero_iff(domain, i, e);
    assert(f[0] == q_zero());
    vstd::arithmetic::power2::lemma_pow2_unfold(k);
    let h = pow2(log_blowup) as int;
    assert(evals.len() / 2 == h);
    assert(evals.take(h) =~= evals2.take(h));
    let rest = f.drop_first();
    let left = fold_spec(evals.take(h), rest);
    assert(rest.len() >= 1);
    assert(left == q_add(
        fold_spec(evals.take(h).take((evals.take(h).len() / 2) as int), rest.drop_first()),
        q_mul(fold_spec(evals.take(h).skip((evals.take(h).len() / 2) as int), rest.drop_first()), rest[0]),
    ));
    crate::qm31_algebra::lemma_q_ops_canon(
        fold_spec(evals.take(h).take((evals.take(h).len() / 2) as int), rest.drop_first()),
        q_mul(fold_spec(evals.take(h).skip((evals.take(h).len() / 2) as int), rest.drop_first()), rest[0]),
    );
    lemma_red_canon(left);
    lemma_mul_zero_right(fold_spec(evals.skip(h), rest));
    lemma_mul_zero_right(fold_spec(evals2.skip(h), rest));
    assert(q_add(left, q_zero()) == left) by {
        assert(q_add_raw(left, q_zero()) == left);
    }
}

/// `x * 0 = 0`.
proof fn lemma_mul_zero_right(x: Q4)
    ensures
        q_mul(x, q_zero()) == q_zero(),
{
    reveal(crate::qm31_algebra::q_mul_raw);
    reveal(q_red);
    assert(modp(0) == 0) by {
        crate::qm31_algebra::lemma_modp_small(0);
    }
}

// ---------------------------------------------------------------------------
// Masking a witness column.
// ---------------------------------------------------------------------------

/// The `j`-th point of the canonic circle domain of log size `log_size`: the half coset
/// `2^(30 - log_size) + <2^(32 - log_size)>` first, then its conjugate.
pub open spec fn canonic_domain_point(log_size: nat, j: int) -> MPoint {
    let half = pow2((log_size - 1) as nat) as int;
    let initial = index_pow2(30 - log_size);
    let step = index_pow2(32 - log_size);
    let index = if j < half {
        coset_index(initial, step, j)
    } else {
        (circle_order() - coset_index(initial, step, j - half)) % circle_order()
    };
    mp_mul(m31_circle_gen(), index as nat)
}

/// Whether the vanishing polynomial of the canonic trace domain of log size `t` is zero at a
/// point of the canonic masked domain of log size `m`.
pub open spec fn masked_domain_meets_trace_domain(t: nat, m: nat) -> bool {
    exists|j: int|
        0 <= j < pow2(m) && #[trigger] full_vanishing_spec(
            index_pow2(30 - t),
            index_pow2(32 - t),
            (t - 1) as nat,
            mp_lift(canonic_domain_point(m, j)),
        ) == q_zero()
}

/// The step of a canonic half coset, `2^(32 - log_size)` as an index, is even.
proof fn lemma_canonic_step_even(log_size: nat)
    requires
        1 <= log_size <= 31,
    ensures
        index_pow2(32 - log_size) % 2 == 0,
{
    let k = (32 - log_size) as nat;
    vstd::arithmetic::power2::lemma_pow2_unfold(k);
    vstd::arithmetic::power2::lemma_pow2_pos((k - 1) as nat);
    let x = pow2((k - 1) as nat) as int;
    vstd::arithmetic::div_mod::lemma_fundamental_div_mod(2 * x, circle_order());
    vstd::arithmetic::div_mod::lemma_mod_bound(2 * x, circle_order());
    let q = (2 * x) / circle_order();
    assert((2 * x) % circle_order() == 2 * (x - 0x4000_0000 * q));
}

/// A multiple `(2^(30 - m) y) 2^(t - 2)` of the generator, `y` odd and `t < m`, has a nonzero
/// abscissa: its index is not `2^29` modulo `2^30`.
proof fn lemma_odd_index_abscissa_nonzero(idx: nat, y: nat, t: nat, m: nat)
    requires
        2 <= t < m <= 30,
        idx == pow2((30 - m) as nat) * y,
        y % 2 == 1,
    ensures
        mp_pow(m31_circle_gen(), idx * pow2((t - 2) as nat)).0 != 0,
        0 <= mp_pow(m31_circle_gen(), idx * pow2((t - 2) as nat)).0 < P,
{
    let g = m31_circle_gen();
    let s = ((30 - m) + (t - 2)) as nat;
    vstd::arithmetic::power2::lemma_pow2_adds((30 - m) as nat, (t - 2) as nat);
    assert(idx * pow2((t - 2) as nat) == pow2(s) * y) by (nonlinear_arith)
        requires
            idx == pow2((30 - m) as nat) * y,
            pow2((30 - m) as nat) * pow2((t - 2) as nat) == pow2(s),
    ;
    lemma_generator_facts();
    lemma_mp_pow_canon(g, idx * pow2((t - 2) as nat));
    if mp_pow(g, idx * pow2((t - 2) as nat)).0 == 0 {
        crate::circle_group::lemma_gen_pow_abscissa_zero(idx * pow2((t - 2) as nat));
        crate::circle_group::lemma_odd_multiple_residue(s, y);
    }
}

/// Two nonzero base field elements have a nonzero product.
proof fn lemma_no_zero_divisors(a: int, b: int)
    requires
        0 < a < P,
        0 < b < P,
    ensures
        modp(a * b) != 0,
{
    let i = inverse_spec(a);
    crate::m31::lemma_inverse_spec(a);
    if modp(a * b) == 0 {
        crate::circle_group::lemma_modp_mul(a * b, i);
        crate::circle_group::lemma_modp_mul(a * i, b);
        assert((a * b) * i == (a * i) * b) by (nonlinear_arith);
        crate::qm31_algebra::lemma_modp_small(b);
        assert(modp(0 * i) == 0);
    }
}

/// A point of the canonic masked domain of log size `m` is `(2^(30 - m) x) g` with `x` odd.
proof fn lemma_canonic_point_index(m: nat, j: int) -> (x: nat)
    requires
        1 <= m <= 30,
        0 <= j < pow2(m),
    ensures
        canonic_domain_point(m, j) == mp_mul(m31_circle_gen(), pow2((30 - m) as nat) * x),
        x % 2 == 1,
{
    vstd::arithmetic::power2::lemma2_to64();
    vstd::arithmetic::power2::lemma_pow2_strictly_increases((30 - m) as nat, 31);
    vstd::arithmetic::power2::lemma_pow2_strictly_increases((32 - m) as nat, 32);
    vstd::arithmetic::div_mod::lemma_mod_bound(pow2((30 - m) as nat) as int, circle_order());
    vstd::arithmetic::div_mod::lemma_mod_bound(pow2((32 - m) as nat) as int, circle_order());
    let half = crate::domain::lemma_coset_of(index_pow2(30 - m) as u32, index_pow2(32 - m) as u32, (m - 1) as u32);
    assert(half.spec_initial() == index_pow2(29 - half.spec_log_size()));
    assert(half.spec_step() == index_pow2(31 - half.spec_log_size()));
    vstd::arithmetic::power2::lemma_pow2_unfold(m);
    let x = crate::circle_group::lemma_canonic_domain_index(half, j);
    assert(domain_index(half, j) == pow2((30 - m) as nat) * x);
    x
}

/// The powers of two of the trace and masked domains, as multiples of `a = 2^(30 - m)`.
proof fn lemma_domain_powers(t: nat, m: nat)
    requires
        2 <= t < m <= 30,
    ensures
        pow2((30 - m) as nat) * pow2((m + 1) as nat) == 0x8000_0000,
        pow2((30 - m) as nat) * pow2(m) == 0x4000_0000,
        pow2((30 - m) as nat) * pow2((m - t) as nat) == pow2((30 - t) as nat),
        pow2((32 - t) as nat) == 4 * pow2((30 - t) as nat),
        pow2((m - t) as nat) % 2 == 0,
        pow2((m + 1) as nat) % 2 == 0,
        pow2(m) % 2 == 0,
        pow2((m - t) as nat) < pow2(m),
        0 < pow2((30 - t) as nat) < 0x4000_0000,
        index_pow2(30 - t) == pow2((30 - t) as nat),
        index_pow2(32 - t) == pow2((32 - t) as nat),
        pow2((32 - t) as nat) < 0x8000_0000,
{
    vstd::arithmetic::power2::lemma2_to64();
    vstd::arithmetic::power2::lemma_pow2_adds((30 - m) as nat, (m + 1) as nat);
    vstd::arithmetic::power2::lemma_pow2_adds((30 - m) as nat, m);
    vstd::arithmetic::power2::lemma_pow2_adds((30 - m) as nat, (m - t) as nat);
    vstd::arithmetic::power2::lemma_pow2_unfold((32 - t) as nat);
    vstd::arithmetic::power2::lemma_pow2_unfold((31 - t) as nat);
    vstd::arithmetic::power2::lemma_pow2_unfold((m - t) as nat);
    vstd::arithmetic::power2::lemma_pow2_unfold(m);
    vstd::arithmetic::power2::lemma_pow2_unfold((m + 1) as nat);
    vstd::arithmetic::power2::lemma_pow2_strictly_increases((m - t) as nat, m);
    vstd::arithmetic::power2::lemma_pow2_strictly_increases((30 - t) as nat, 30);
    vstd::arithmetic::power2::lemma_pow2_strictly_increases((32 - t) as nat, 31);
    vstd::arithmetic::power2::lemma_pow2_pos((30 - t) as nat);
    assert(((30 - m) + (m + 1)) as nat == 31);
    assert(((30 - m) + m) as nat == 30);
    assert(((30 - m) + (m - t)) as nat == (30 - t) as nat);
    vstd::arithmetic::div_mod::lemma_small_mod(pow2((30 - t) as nat), 0x8000_0000);
    vstd::arithmetic::div_mod::lemma_small_mod(pow2((32 - t) as nat), 0x8000_0000);
}

/// The coset-vanishing factor of the half coset of the canonic trace domain of log size `t` at
/// the point `(2^(30 - m) x) g` of the masked domain, `x` odd: a nonzero base field value.
#[verifier::rlimit(30)]
proof fn lemma_trace_factor_first(t: nat, m: nat, x: nat) -> (v: int)
    requires
        2 <= t < m <= 30,
        x % 2 == 1,
    ensures
        coset_vanishing_spec(
            index_pow2(30 - t),
            index_pow2(32 - t),
            (t - 1) as nat,
            mp_lift(mp_mul(m31_circle_gen(), pow2((30 - m) as nat) * x)),
        ) == q_embed(v),
        0 < v < P,
{
    let g = m31_circle_gen();
    lemma_domain_powers(t, m);
    let a = pow2((30 - m) as nat);
    let e = a * x;
    let i1 = pow2((30 - t) as nat);
    let s1 = pow2((32 - t) as nat);
    let b = pow2((m - t) as nat);
    let y1 = x + pow2((m + 1) as nat) + b;
    let idx1 = e + (0x8000_0000 - i1) as nat + s1 / 2;
    assert(idx1 == a * y1) by (nonlinear_arith)
        requires
            idx1 == e + (0x8000_0000 - i1) + s1 / 2,
            e == a * x,
            a * pow2((m + 1) as nat) == 0x8000_0000,
            a * b == i1,
            s1 == 4 * i1,
            y1 == x + pow2((m + 1) as nat) + b,
    ;
    crate::circle_group::lemma_shifted_point(e, i1, s1);
    crate::circle_group::lemma_lifted_doubled_abscissa(idx1, (t - 2) as nat);
    lemma_odd_index_abscissa_nonzero(idx1, y1, t, m);
    mp_pow(g, idx1 * pow2((t - 2) as nat)).0
}

/// The coset-vanishing factor of the conjugate half coset of the canonic trace domain of log
/// size `t` at the point `(2^(30 - m) x) g` of the masked domain, `x` odd: a nonzero base field
/// value.
#[verifier::rlimit(30)]
proof fn lemma_trace_factor_second(t: nat, m: nat, x: nat) -> (v: int)
    requires
        2 <= t < m <= 30,
        x % 2 == 1,
    ensures
        coset_vanishing_spec(
            (circle_order() - index_pow2(30 - t)) % circle_order(),
            (circle_order() - index_pow2(32 - t)) % circle_order(),
            (t - 1) as nat,
            mp_lift(mp_mul(m31_circle_gen(), pow2((30 - m) as nat) * x)),
        ) == q_embed(v),
        0 < v < P,
{
    let g = m31_circle_gen();
    lemma_domain_powers(t, m);
    let a = pow2((30 - m) as nat);
    let e = a * x;
    let i1 = pow2((30 - t) as nat);
    let s1 = pow2((32 - t) as nat);
    let b = pow2((m - t) as nat);
    let i2 = (0x8000_0000 - i1) as nat;
    let s2 = (0x8000_0000 - s1) as nat;
    vstd::arithmetic::div_mod::lemma_small_mod(i2, 0x8000_0000);
    vstd::arithmetic::div_mod::lemma_small_mod(s2, 0x8000_0000);
    let y2 = (x + pow2(m) - b) as nat;
    let idx2 = e + (0x8000_0000 - i2) as nat + s2 / 2;
    assert(idx2 == a * y2) by (nonlinear_arith)
        requires
            idx2 == e + i1 + (0x8000_0000 - s1) / 2,
            e == a * x,
            a * pow2(m) == 0x4000_0000,
            a * b == i1,
            s1 == 4 * i1,
            y2 == x + pow2(m) - b,
            b < pow2(m),
    ;
    crate::circle_group::lemma_shifted_point(e, i2, s2);
    crate::circle_group::lemma_lifted_doubled_abscissa(idx2, (t - 2) as nat);
    lemma_odd_index_abscissa_nonzero(idx2, y2, t, m);
    mp_pow(g, idx2 * pow2((t - 2) as nat)).0
}

/// For a canonic trace domain of log size `t >= 2` inside a larger canonic masked domain, the
/// vanishing polynomial of the trace domain is nonzero at every point of the masked domain.
pub proof fn lemma_masked_domain_avoids_trace_domain(t: nat, m: nat)
    requires
        2 <= t < m <= 30,
    ensures
        !masked_domain_meets_trace_domain(t, m),
{
    assert forall|j: int| 0 <= j < pow2(m) implies #[trigger] full_vanishing_spec(
        index_pow2(30 - t),
        index_pow2(32 - t),
        (t - 1) as nat,
        mp_lift(canonic_domain_point(m, j)),
    ) != q_zero() by {
        let x = lemma_canonic_point_index(m, j);
        let v1 = lemma_trace_factor_first(t, m, x);
        let v2 = lemma_trace_factor_second(t, m, x);
        crate::circle_group::lemma_embed_ops(v1, v2);
        lemma_no_zero_divisors(v1, v2);
    }
}

/// A secure field value that lies in the base field.
pub open spec fn in_base_field(q: Q4) -> bool {
    q == q_embed(q.0)
}

/// `x` doubled `n` times stays in the base field.
proof fn lemma_double_x_iter_embedded(v: int, n: nat)
    ensures
        in_base_field(crate::circle::q_double_x_iter(q_embed(v), n)),
    decreases n,
{
    if n > 0 {
        lemma_double_x_iter_embedded(v, (n - 1) as nat);
        let w = crate::circle::q_double_x_iter(q_embed(v), (n - 1) as nat).0;
        crate::circle_group::lemma_embed_ops(w, w);
        crate::circle_group::lemma_embed_ops(modp(w * w), modp(w * w));
        crate::circle_group::lemma_embed_ops(modp(modp(w * w) + modp(w * w)), 1);
    }
}

/// At a base field point, a polynomial with base field coefficients takes a base field value.
proof fn lemma_eval_in_base_field(c: Seq<M31>, n: nat, p: MPoint)
    requires
        c.len() == pow2(n),
    ensures
        in_base_field(circle_eval(c, n, mp_lift(p))),
    decreases n,
{
    let z = mp_lift(p);
    vstd::arithmetic::power2::lemma2_to64();
    if n > 0 {
        vstd::arithmetic::power2::lemma_pow2_unfold(n);
        crate::poly::lemma_eval_halves(c, n, z);
        let h = (c.len() / 2) as int;
        lemma_eval_in_base_field(c.take(h), (n - 1) as nat, p);
        lemma_eval_in_base_field(c.skip(h), (n - 1) as nat, p);
        let f = crate::poly::top_factor(z, n);
        if n >= 2 {
            lemma_double_x_iter_embedded(p.0, (n - 2) as nat);
        }
        assert(in_base_field(f));
        let l = circle_eval(c.take(h), (n - 1) as nat, z).0;
        let r = circle_eval(c.skip(h), (n - 1) as nat, z).0;
        crate::circle_group::lemma_embed_ops(r, f.0);
        crate::circle_group::lemma_embed_ops(l, modp(r * f.0));
    }
}

/// At a base field point, the vanishing polynomial of a circle domain takes a base field value.
proof fn lemma_vanishing_in_base_field(initial: int, step: int, log_size: nat, p: MPoint)
    ensures
        in_base_field(full_vanishing_spec(initial, step, log_size, mp_lift(p))),
{
    let g = m31_circle_gen();
    let z = mp_lift(p);
    let n = if log_size == 0 { 0nat } else { (log_size - 1) as nat };
    let i2 = (circle_order() - initial) % circle_order();
    let s2 = (circle_order() - step) % circle_order();
    let a1 = mp_mul(g, initial as nat);
    let b1 = mp_mul(g, (step / 2) as nat);
    let a2 = mp_mul(g, i2 as nat);
    let b2 = mp_mul(g, (s2 / 2) as nat);
    crate::circle_group::lemma_lift_conjugate(a1);
    crate::circle_group::lemma_lift_add(p, crate::circle::mp_conjugate(a1));
    crate::circle_group::lemma_lift_add(crate::circle::mp_add(p, crate::circle::mp_conjugate(a1)), b1);
    crate::circle_group::lemma_lift_conjugate(a2);
    crate::circle_group::lemma_lift_add(p, crate::circle::mp_conjugate(a2));
    crate::circle_group::lemma_lift_add(crate::circle::mp_add(p, crate::circle::mp_conjugate(a2)), b2);
    let x1 = crate::circle::mp_add(crate::circle::mp_add(p, crate::circle::mp_conjugate(a1)), b1).0;
    let x2 = crate::circle::mp_add(crate::circle::mp_add(p, crate::circle::mp_conjugate(a2)), b2).0;
    lemma_double_x_iter_embedded(x1, n);
    lemma_double_x_iter_embedded(x2, n);
    let v1 = coset_vanishing_spec(initial, step, log_size, z);
    let v2 = coset_vanishing_spec(i2, s2, log_size, z);
    crate::circle_group::lemma_embed_ops(v1.0, v2.0);
}

/// `c` is `w + v_H r` at every point of the canonic masked domain of log size `m`, with `v_H`
/// the vanishing polynomial of the canonic trace domain of log size `t` and `r` a randomizer with
/// drawn coefficients in its first `d` of `next_pow2(d)` slots and zeros after.
pub open spec fn masked_by_randomizer(w: CircleCoefficients, c: CircleCoefficients, t: nat, m: nat, d: nat) -> bool {
    exists|rp: CircleCoefficients|
        #![trigger rp.spec_coeffs()]
        {
            &&& exists|draws: Seq<M31>|
                draws.len() == min_size(d, next_pow2(d)) && rp.spec_coeffs() == #[trigger] randomizer_coeffs(
                    next_pow2(d),
                    d,
                    draws,
                )
            &&& forall|i: int|
                0 <= i < pow2(m) ==> #[trigger] c.spec_eval(mp_lift(canonic_domain_point(m, i))) == q_add(
                    w.spec_eval(mp_lift(canonic_domain_point(m, i))),
                    q_mul(
                        full_vanishing_spec(
                            index_pow2(30 - t),
                            index_pow2(32 - t),
                            (t - 1) as nat,
                            mp_lift(canonic_domain_point(m, i)),
                        ),
                        rp.spec_eval(mp_lift(canonic_domain_point(m, i))),
                    ),
                )
        }
}

/// The masked column's values on the masked domain: the witness plus `v_H` times the
/// randomizer, from the coefficientwise sum, the zero padding and the interpolated products.
proof fn lemma_masked_values(
    witness: CircleCoefficients,
    c: CircleCoefficients,
    delta: CircleCoefficients,
    randomizer: CircleCoefficients,
    masked: CircleDomain,
    wpad: Seq<M31>,
    delta_values: Seq<M31>,
    vanishing: Seq<M31>,
    t: nat,
    m: nat,
)
    requires
        1 <= t < m <= 30,
        crate::interpolation::canonic_domain(masked),
        masked.spec_log_size() == m,
        wpad == crate::poly::padded(witness.spec_coeffs(), pow2(m)),
        crate::poly::coeffs_canonical(witness.spec_coeffs()),
        witness.spec_log_size() <= t,
        witness.spec_coeffs().len() == pow2(witness.spec_log_size()),
        c.spec_coeffs().len() == pow2(m),
        c.spec_log_size() == m,
        delta.spec_coeffs().len() == pow2(m),
        randomizer.spec_coeffs().len() == pow2(randomizer.spec_log_size()),
        forall|k: int| 0 <= k < pow2(m) ==> #[trigger] c.spec_coeffs()[k].val() == modp(wpad[k].val() + delta.spec_coeffs()[k].val()),
        forall|k: int|
            0 <= k < pow2(m) ==> #[trigger] circle_eval(delta.spec_coeffs(), m, mp_lift(crate::interpolation::domain_points(masked)[k]))
                == q_embed(delta_values[k].val()),
        forall|k: int| 0 <= k < pow2(m) ==> #[trigger] crate::interpolation::domain_points(masked)[k] == canonic_domain_point(m, k),
        forall|k: int|
            0 <= k < pow2(m) ==> #[trigger] delta_values[k].val() == modp(
                vanishing[k].val() * randomizer.spec_eval(mp_lift(canonic_domain_point(m, k))).0,
            ),
        forall|k: int|
            0 <= k < pow2(m) ==> #[trigger] vanishing[k].val() == full_vanishing_spec(
                index_pow2(30 - t),
                index_pow2(32 - t),
                (t - 1) as nat,
                mp_lift(canonic_domain_point(m, k)),
            ).0,
    ensures
        forall|i: int|
            0 <= i < pow2(m) ==> #[trigger] c.spec_eval(mp_lift(canonic_domain_point(m, i))) == q_add(
                witness.spec_eval(mp_lift(canonic_domain_point(m, i))),
                q_mul(
                    full_vanishing_spec(index_pow2(30 - t), index_pow2(32 - t), (t - 1) as nat, mp_lift(canonic_domain_point(m, i))),
                    randomizer.spec_eval(mp_lift(canonic_domain_point(m, i))),
                ),
            ),
{
    assert forall|i: int| 0 <= i < pow2(m) implies #[trigger] c.spec_eval(mp_lift(canonic_domain_point(m, i))) == q_add(
        witness.spec_eval(mp_lift(canonic_domain_point(m, i))),
        q_mul(
            full_vanishing_spec(index_pow2(30 - t), index_pow2(32 - t), (t - 1) as nat, mp_lift(canonic_domain_point(m, i))),
            randomizer.spec_eval(mp_lift(canonic_domain_point(m, i))),
        ),
    ) by {
        let pt = canonic_domain_point(m, i);
        let z = mp_lift(pt);
        assert(crate::interpolation::domain_points(masked)[i] == pt);
        crate::poly::lemma_eval_sum(wpad, delta.spec_coeffs(), c.spec_coeffs(), m, z);
        crate::poly::lemma_eval_padded(witness.spec_coeffs(), witness.spec_log_size(), m, z);
        let vh = full_vanishing_spec(index_pow2(30 - t), index_pow2(32 - t), (t - 1) as nat, z);
        let rv = randomizer.spec_eval(z);
        lemma_vanishing_in_base_field(index_pow2(30 - t), index_pow2(32 - t), (t - 1) as nat, pt);
        lemma_eval_in_base_field(randomizer.spec_coeffs(), randomizer.spec_log_size(), pt);
        crate::circle_group::lemma_embed_ops(vh.0, rv.0);
        assert(delta_values[i].val() == modp(vh.0 * rv.0));
    }
}

/// Masks a witness column: returns `w + v_H r`, with `v_H` the vanishing polynomial of the trace
/// domain and `r` a fresh randomizer of `randomizer_dimension` random coefficients
/// (`sample_randomizer`). `v_H r` is formed pointwise on the masked domain and interpolated; the
/// witness, extended to the masked log size, is added coefficientwise. Fails when the
/// configuration does not validate, when the witness is larger than the trace domain, or when
/// `v_H` vanishes somewhere on the masked domain; nothing is drawn then. The leakage budget is
/// not checked here (`WitnessMaskConfig::check_leakage_budget`).
#[verifier::rlimit(40)]
pub fn mask_column(witness: &CircleCoefficients, config: WitnessMaskConfig, rng: &mut StdRng) -> (r: Result<
    CircleCoefficients,
    WitnessMaskError,
>)
    ensures
        ({
            let t = config.spec_trace_log_size();
            let m = config.spec_masked_log_size();
            let check = mask_config_check(t, m, config.spec_randomizer_dimension(), config.spec_leakage_budget());
            let fits = witness.spec_log_size() <= t;
            &&& check matches Err(e) ==> r == Err::<CircleCoefficients, WitnessMaskError>(e)
            &&& (check is Ok && !fits) ==> r == Err::<CircleCoefficients, WitnessMaskError>(
                WitnessMaskError::WitnessDegreeExceedsTraceDomain {
                    witness_log_size: witness.spec_log_size() as u32,
                    trace_log_size: t,
                },
            )
            &&& (check is Ok && fits && masked_domain_meets_trace_domain(t as nat, m as nat)) ==> r
                == Err::<CircleCoefficients, WitnessMaskError>(WitnessMaskError::MaskedDomainIntersectsTraceDomain)
            &&& (check is Ok && fits && !masked_domain_meets_trace_domain(t as nat, m as nat)) ==> (r matches Ok(c)
                && c.spec_log_size() == m && masked_by_randomizer(
                *witness,
                c,
                t as nat,
                m as nat,
                config.spec_randomizer_dimension() as nat,
            ))
            &&& (check is Ok && fits && t >= 2) ==> r is Ok
            &&& r is Err ==> *final(rng) == *old(rng)
        }),
{
    match config.validate() {
        Ok(()) => {},
        Err(e) => return Err(e),
    }
    let trace_log_size = config.trace_log_size();
    let witness_log_size = witness.log_size();
    if witness_log_size > trace_log_size {
        return Err(WitnessMaskError::WitnessDegreeExceedsTraceDomain { witness_log_size, trace_log_size });
    }
    let trace_domain = match config.trace_domain() {
        Ok(d) => d,
        Err(e) => return Err(e),
    };
    let masked_domain = match config.masked_domain() {
        Ok(d) => d,
        Err(e) => return Err(e),
    };
    let ghost t = trace_log_size as nat;
    let ghost m = config.spec_masked_log_size() as nat;
    proof {
        trace_domain.lemma_half_log_size();
        masked_domain.lemma_half_log_size();
        lemma_canonic_step_even(t);
        if t >= 2 {
            lemma_masked_domain_avoids_trace_domain(t, m);
        }
    }
    let points = masked_domain.points();
    let n = points.len();
    // v_H over the masked domain; it must not vanish there.
    let mut vanishing: Vec<M31> = Vec::new();
    let mut j: usize = 0;
    while j < n
        invariant
            j <= n,
            n == pow2(m),
            points@.len() == n,
            vanishing@.len() == j,
            t == config.spec_trace_log_size(),
            m == config.spec_masked_log_size(),
            *rng == *old(rng),
            mask_config_check(
                config.spec_trace_log_size(),
                config.spec_masked_log_size(),
                config.spec_randomizer_dimension(),
                config.spec_leakage_budget(),
            ) is Ok,
            witness.spec_log_size() <= t,
            t >= 2 ==> !masked_domain_meets_trace_domain(t, m),
            trace_domain.spec_half().spec_initial() == index_pow2(30 - t),
            trace_domain.spec_half().spec_step() == index_pow2(32 - t),
            trace_domain.spec_half().spec_log_size() == t - 1,
            trace_domain.spec_half().spec_step() % 2 == 0,
            forall|k: int| 0 <= k < n ==> #[trigger] points@[k]@ == canonic_domain_point(m, k),
            forall|k: int|
                0 <= k < j ==> #[trigger] vanishing@[k].val() == full_vanishing_spec(
                    index_pow2(30 - t),
                    index_pow2(32 - t),
                    (t - 1) as nat,
                    mp_lift(canonic_domain_point(m, k)),
                ).0,
            forall|k: int|
                0 <= k < j ==> #[trigger] full_vanishing_spec(
                    index_pow2(30 - t),
                    index_pow2(32 - t),
                    (t - 1) as nat,
                    mp_lift(canonic_domain_point(m, k)),
                ) != q_zero(),
        decreases n - j,
    {
        let p = points[j].into_ef();
        let v = full_trace_domain_vanishing(trace_domain, p);
        if v.is_zero() {
            proof {
                assert(full_vanishing_spec(
                    index_pow2(30 - t),
                    index_pow2(32 - t),
                    (t - 1) as nat,
                    mp_lift(canonic_domain_point(m, j as int)),
                ) == q_zero());
                assert(masked_domain_meets_trace_domain(t, m));
            }
            return Err(WitnessMaskError::MaskedDomainIntersectsTraceDomain);
        }
        vanishing.push(v.c0);
        j = j + 1;
    }
    let coeff_count = match config.randomizer_coeff_count() {
        Ok(c) => c,
        Err(e) => return Err(e),
    };
    proof {
        lemma_next_pow2(config.spec_randomizer_dimension() as nat);
        let e = choose|e: nat| e <= config.spec_randomizer_dimension() && pow2(e) == next_pow2(
            config.spec_randomizer_dimension() as nat,
        );
        if e >= 64 {
            vstd::arithmetic::power2::lemma2_to64_rest();
            if e > 64 {
                vstd::arithmetic::power2::lemma_pow2_strictly_increases(64, e);
            }
        }
        assert(is_power_of_two(coeff_count as nat));
    }
    let randomizer = sample_randomizer(coeff_count, config.randomizer_dimension(), rng);
    let _ = randomizer.log_size();
    // v_H r, pointwise on the masked domain.
    let mut delta_values: Vec<M31> = Vec::new();
    let mut j: usize = 0;
    while j < n
        invariant
            j <= n,
            points@.len() == n,
            vanishing@.len() == n,
            delta_values@.len() == j,
            forall|k: int| 0 <= k < n ==> #[trigger] points@[k]@ == canonic_domain_point(m, k),
            forall|k: int|
                0 <= k < j ==> #[trigger] delta_values@[k].val() == modp(
                    vanishing@[k].val() * randomizer.spec_eval(mp_lift(canonic_domain_point(m, k))).0,
                ),
        decreases n - j,
    {
        let r_value = randomizer.eval_at_point(points[j].into_ef());
        delta_values.push(vanishing[j] * r_value.c0);
        j = j + 1;
    }
    let delta = interpolate(&masked_domain, &delta_values);
    // The witness, extended with zero coefficients to the masked log size, plus v_H r.
    let w = witness.coeffs();
    let d = delta.coeffs();
    proof {
        vstd::arithmetic::power2::lemma_pow2_strictly_increases(m, 31);
        vstd::arithmetic::power2::lemma2_to64();
    }
    let ghost wpad = crate::poly::padded(w@, pow2(m));
    let mut coeffs: Vec<M31> = Vec::new();
    let mut i: usize = 0;
    while i < d.len()
        invariant
            i <= d@.len(),
            d@.len() == pow2(m),
            w@.len() <= d@.len(),
            wpad == crate::poly::padded(w@, pow2(m)),
            coeffs@.len() == i,
            forall|k: int| 0 <= k < i ==> #[trigger] coeffs@[k].val() == modp(wpad[k].val() + d@[k].val()),
            forall|k: int| 0 <= k < i && k < w@.len() ==> 0 <= (#[trigger] w@[k]).val() < P,
        decreases d@.len() - i,
    {
        let wi = if i < w.len() {
            let v = w[i];
            let _ = v.value();
            v
        } else {
            M31::zero()
        };
        proof {
            assert(m31_of(0).val() == 0);
        }
        coeffs.push(wi + d[i]);
        i = i + 1;
    }
    proof {
        assert(m < 64 && pow2(m) == coeffs@.len());
    }
    let c = CircleCoefficients::new(coeffs);
    proof {
        lemma_pow2_injective(c.spec_log_size(), m);
        let dim = config.spec_randomizer_dimension() as nat;
        assert forall|k: int| 0 <= k < pow2(m) implies #[trigger] crate::interpolation::domain_points(masked_domain)[k]
            == canonic_domain_point(m, k) by {
            assert(points@[k]@ == canonic_domain_point(m, k));
        }
        lemma_masked_values(*witness, c, delta, randomizer, masked_domain, wpad, delta_values@, vanishing@, t, m);
        assert(masked_by_randomizer(*witness, c, t, m, dim));
    }
    Ok(c)
}

/// The vanishing polynomial of the full trace domain `H`, the product of the vanishing
/// polynomials of its half coset and of the conjugate half coset, evaluated at `point`.
pub fn full_trace_domain_vanishing(trace_domain: CircleDomain, point: CirclePoint<QM31>) -> (r: QM31)
    requires
        trace_domain.spec_half().spec_step() % 2 == 0,
    ensures
        r@ == full_vanishing_spec(
            trace_domain.spec_half().spec_initial(),
            trace_domain.spec_half().spec_step(),
            trace_domain.spec_half().spec_log_size(),
            point@,
        ),
{
    let half = trace_domain.half_coset();
    let conj = half.conjugate();
    let _ = half.step_size();
    proof {
        let s = half.spec_step();
        assert(((circle_order() - s) % circle_order()) % 2 == 0);
    }
    coset_vanishing(&half, point) * coset_vanishing(&conj, point)
}

} // verus!

//! Entropy estimation in fixed point.
//!
//! A symbol that occurs `c` times out of `t` total occurrences is
//! estimated to need `log2(t) - log2(c)` bits.  The logarithm is
//! computed in fixed point with `FRAC_BITS` fractional bits: the
//! integer part is the floor base-2 logarithm and the fractional bits
//! are extracted one at a time by repeated squaring of the mantissa.
//! The whole computation is exact integer arithmetic, pinned by the
//! spec functions below, so cost estimates are identical on every
//! run and every machine.

use vstd::prelude::*;
use vstd::arithmetic::power2::*;
use vstd::arithmetic::div_mod::{
    lemma_div_by_multiple,
    lemma_div_is_ordered,
    lemma_multiply_divide_lt,
};
use crate::SCALE;

verus! {

/// Number of fractional bits in a fixed-point bit count; `SCALE == pow2(FRAC_BITS)`.
pub const FRAC_BITS: u64 = 16;

/// Upper bound (exclusive) on the arguments `log2_fix` accepts.
pub const LOG_ARG_MAX: u64 = 0x8000_0000_0000;

/// Floor of the base-2 logarithm.
pub open spec fn spec_floor_log2(x: nat) -> nat
    decreases x,
{
    if x < 2 {
        0
    } else {
        1 + spec_floor_log2(x / 2)
    }
}

/// The `k` fractional bits of `log2(m / SCALE)` for a mantissa
/// `m` in `[SCALE, 2*SCALE)`, extracted most significant first by
/// repeated squaring.
pub open spec fn spec_frac_bits(m: nat, k: nat) -> nat
    decreases k,
{
    if k == 0 {
        0
    } else {
        let m2 = m * m / (SCALE as nat);
        if m2 >= 2 * SCALE {
            pow2((k - 1) as nat) + spec_frac_bits(m2 / 2, (k - 1) as nat)
        } else {
            spec_frac_bits(m2, (k - 1) as nat)
        }
    }
}

/// Fixed-point base-2 logarithm: `floor(log2 x)` whole bits plus
/// `FRAC_BITS` fractional bits from the normalized mantissa.
pub open spec fn spec_log2_fix(x: nat) -> nat {
    let l = spec_floor_log2(x);
    l * (SCALE as nat) + spec_frac_bits(x * (SCALE as nat) / pow2(l), FRAC_BITS as nat)
}

/// `pow2(spec_floor_log2(x)) <= x < pow2(spec_floor_log2(x) + 1)` for `x >= 1`.
pub proof fn lemma_floor_log2_bounds(x: nat)
    requires
        x >= 1,
    ensures
        pow2(spec_floor_log2(x)) <= x,
        x < pow2(spec_floor_log2(x) + 1),
    decreases x,
{
    if x < 2 {
        lemma_pow2_unfold(1);
        lemma2_to64();
    } else {
        lemma_floor_log2_bounds(x / 2);
        let l = spec_floor_log2(x / 2);
        lemma_pow2_unfold(l + 1);
        lemma_pow2_unfold(l + 2);
        assert(pow2(l) <= x / 2);
        assert(x >= 2 * (x / 2));
        assert(x / 2 < pow2(l + 1));
        assert(x <= 2 * (x / 2) + 1);
    }
}

/// The fractional part is always below `pow2(k)`.
pub proof fn lemma_frac_bits_bound(m: nat, k: nat)
    ensures
        spec_frac_bits(m, k) < pow2(k),
    decreases k,
{
    if k == 0 {
        lemma2_to64();
    } else {
        let m2 = m * m / (SCALE as nat);
        lemma_pow2_unfold(k);
        if m2 >= 2 * SCALE {
            lemma_frac_bits_bound(m2 / 2, (k - 1) as nat);
        } else {
            lemma_frac_bits_bound(m2, (k - 1) as nat);
        }
    }
}

/// The floor base-2 logarithm of a 64-bit value is at most 63.
pub proof fn lemma_floor_log2_le(x: nat, k: nat)
    requires
        x >= 1,
        x < pow2(k + 1),
    ensures
        spec_floor_log2(x) <= k,
{
    lemma_floor_log2_bounds(x);
    let l = spec_floor_log2(x);
    if l > k {
        lemma_pow2_strictly_increases(k + 1, l + 1);
        assert(x < pow2(l + 1));
        if k + 1 < l {
            lemma_pow2_strictly_increases(k + 1, l);
        }
        assert(pow2(k + 1) <= pow2(l));
        assert(false);
    }
}

/// Executable floor base-2 logarithm.
pub fn floor_log2(x: u64) -> (r: u64)
    requires
        x >= 1,
    ensures
        r == spec_floor_log2(x as nat),
        r <= 63,
    decreases x,
{
    proof {
        lemma2_to64();
        lemma2_to64_rest();
        lemma_floor_log2_le(x as nat, 63);
    }
    if x < 2 {
        0
    } else {
        1 + floor_log2(x / 2)
    }
}

/// Executable power of two.
pub fn pow2_exec(k: u64) -> (r: u64)
    requires
        k <= 63,
    ensures
        r == pow2(k as nat),
    decreases k,
{
    proof {
        lemma2_to64();
        lemma2_to64_rest();
    }
    if k == 0 {
        1
    } else {
        let p = pow2_exec(k - 1);
        proof {
            if k - 1 < 63 {
                lemma_pow2_strictly_increases((k - 1) as nat, 63);
            }
            lemma_pow2_unfold(k as nat);
        }
        2 * p
    }
}

/// Executable extraction of the fractional bits, mirroring
/// `spec_frac_bits` step for step.
fn frac_bits(m: u64, k: u64) -> (r: u64)
    requires
        SCALE <= m < 2 * SCALE,
        k <= FRAC_BITS,
    ensures
        r == spec_frac_bits(m as nat, k as nat),
        r < pow2(k as nat),
    decreases k,
{
    proof {
        lemma2_to64();
    }
    if k == 0 {
        0
    } else {
        proof {
            assert(m * m >= SCALE * SCALE) by (nonlinear_arith)
                requires m >= SCALE;
            assert(m * m < (2 * SCALE) * (2 * SCALE)) by (nonlinear_arith)
                requires m < 2 * SCALE && m >= 0;
        }
        let m2 = m * m / SCALE;
        proof {
            lemma_div_is_ordered(SCALE * SCALE, (m * m) as int, SCALE as int);
            lemma_div_by_multiple(SCALE as int, SCALE as int);
            lemma_multiply_divide_lt((m * m) as int, SCALE as int, 4 * SCALE);
        }
        if m2 >= 2 * SCALE {
            let f = frac_bits(m2 / 2, k - 1);
            let p = pow2_exec(k - 1);
            proof {
                lemma_frac_bits_bound((m2 / 2) as nat, (k - 1) as nat);
                lemma_pow2_unfold(k as nat);
            }
            p + f
        } else {
            frac_bits(m2, k - 1)
        }
    }
}

/// Executable fixed-point base-2 logarithm, for `1 <= x < LOG_ARG_MAX`.
pub fn log2_fix(x: u64) -> (r: u64)
    requires
        1 <= x < LOG_ARG_MAX,
    ensures
        r == spec_log2_fix(x as nat),
        r < 47 * SCALE,
{
    let l = floor_log2(x);
    proof {
        lemma_floor_log2_bounds(x as nat);
        lemma2_to64();
        lemma2_to64_rest();
        lemma_floor_log2_le(x as nat, 46);
    }
    let p = pow2_exec(l);
    proof {
        lemma_pow2_pos(l as nat);
        assert(x * SCALE < 0x8000_0000_0000 * 0x10000) by (nonlinear_arith)
            requires x < 0x8000_0000_0000 && SCALE == 0x10000;
    }
    let m = (x * SCALE) / p;
    proof {
        // pow2(l) <= x < 2 * pow2(l), so the mantissa m = x * SCALE / pow2(l)
        // lies in [SCALE, 2 * SCALE).
        lemma_pow2_unfold((l + 1) as nat);
        assert(p * SCALE <= x * SCALE) by (nonlinear_arith)
            requires p <= x && SCALE >= 0;
        lemma_div_is_ordered((p * SCALE) as int, (x * SCALE) as int, p as int);
        lemma_div_by_multiple(SCALE as int, p as int);
        assert((SCALE * p) as int / (p as int) == SCALE as int);
        assert(p * SCALE == SCALE * p);
        assert(x * SCALE < p * (2 * SCALE)) by (nonlinear_arith)
            requires x < 2 * p && SCALE >= 0 && p >= 0;
        lemma_multiply_divide_lt((x * SCALE) as int, p as int, 2 * SCALE);
    }
    let f = frac_bits(m, FRAC_BITS);
    l * SCALE + f
}

/// Sum of a sequence of counters.
pub open spec fn spec_sum(s: Seq<u64>) -> int
    decreases s.len(),
{
    if s.len() == 0 {
        0
    } else {
        spec_sum(s.drop_last()) + s.last()
    }
}

/// The frequency universe of a counter array: its sum, or, if every
/// counter is zero, one occurrence per symbol.
pub open spec fn spec_total(s: Seq<u64>) -> int {
    if spec_sum(s) == 0 {
        s.len() as int
    } else {
        spec_sum(s)
    }
}

/// The estimated bit length (in fixed point) of symbol `i` of a
/// counter array: `log2(total) - log2(count)`, clamped at zero, with
/// a zero count treated as a single occurrence.
pub open spec fn spec_entropy_bit(s: Seq<u64>, i: int) -> int {
    let c: nat = if s[i] == 0 {
        1
    } else {
        s[i] as nat
    };
    let lt = spec_log2_fix(spec_total(s) as nat);
    let lc = spec_log2_fix(c);
    if lc > lt {
        0
    } else {
        lt - lc
    }
}

/// Recompute the estimated bit lengths of every symbol of one
/// alphabet from its occurrence counters.
pub fn calculate_entropy(counts: &Vec<u64>, bitlengths: &mut Vec<u64>)
    requires
        1 <= counts.len() <= 286,
        forall|i: int| 0 <= i < counts.len() ==> counts[i] <= 0x1_0000_0000,
        old(bitlengths).len() == counts.len(),
    ensures
        final(bitlengths).len() == counts.len(),
        forall|i: int|
            0 <= i < counts.len() ==> final(bitlengths)[i] == spec_entropy_bit(counts@, i),
        forall|i: int| 0 <= i < counts.len() ==> final(bitlengths)[i] < 47 * SCALE,
{
    let n = counts.len();
    let mut sum: u64 = 0;
    let mut i: usize = 0;
    while i < n
        invariant
            0 <= i <= n,
            n == counts.len() <= 286,
            forall|j: int| 0 <= j < n ==> counts[j] <= 0x1_0000_0000,
            sum == spec_sum(counts@.take(i as int)),
            sum <= i * 0x1_0000_0000,
        decreases n - i,
    {
        proof {
            assert(counts@.take(i as int + 1).drop_last() =~= counts@.take(i as int));
            assert(counts@.take(i as int + 1).last() == counts@[i as int]);
        }
        sum = sum + counts[i];
        i = i + 1;
    }
    proof {
        assert(counts@.take(n as int) =~= counts@);
    }
    let total: u64 = if sum == 0 {
        n as u64
    } else {
        sum
    };
    proof {
        assert(total == spec_total(counts@));
    }
    let lt = log2_fix(total);
    let mut i: usize = 0;
    while i < n
        invariant
            0 <= i <= n,
            n == counts.len() <= 286,
            forall|j: int| 0 <= j < n ==> counts[j] <= 0x1_0000_0000,
            bitlengths.len() == n,
            lt == spec_log2_fix(spec_total(counts@) as nat),
            lt < 47 * SCALE,
            forall|j: int| 0 <= j < i ==> bitlengths[j] == spec_entropy_bit(counts@, j),
            forall|j: int| 0 <= j < i ==> bitlengths[j] < 47 * SCALE,
        decreases n - i,
    {
        let c: u64 = if counts[i] == 0 {
            1
        } else {
            counts[i]
        };
        let lc = log2_fix(c);
        let b: u64 = if lc > lt {
            0
        } else {
            lt - lc
        };
        bitlengths.set(i, b);
        i = i + 1;
    }
}

} // verus!

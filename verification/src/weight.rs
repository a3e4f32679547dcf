//! Fixed-point logarithms and the inverse-document-frequency weight.
//!
//! Weights are unsigned fixed-point numbers with 32 fractional bits: the
//! integer `w` stands for the real number `w / 2^32`. The natural logarithm
//! is obtained from a binary logarithm whose fractional digits come from
//! repeated squaring of a normalized mantissa. Every step rounds down, so the
//! result is a deterministic, monotone lower approximation of the real
//! logarithm, and it can never be negative, infinite or unordered.

use vstd::arithmetic::div_mod::{
    lemma_div_is_ordered, lemma_div_is_ordered_by_denominator, lemma_div_multiples_vanish,
};
use vstd::arithmetic::mul::lemma_mul_upper_bound;
use vstd::arithmetic::power2::{
    lemma2_to64, lemma_pow2_pos, lemma_pow2_strictly_increases, lemma_pow2_unfold, pow2,
};
use vstd::prelude::*;

verus! {

/// The weight 1.0: two to the power of the number of fractional bits.
pub const ONE: u64 = 0x1_0000_0000;

/// The natural logarithm of two as a weight, rounded down.
pub const LN_2: u64 = 0xB172_17F7;

/// The bound below which every weight stays: two to the power of 38.
pub const WEIGHT_LIMIT: u64 = 0x40_0000_0000;

/// The bound below which the ratio of two machine integers stays as a
/// weight: two to the power of 96.
pub const RATIO_LIMIT: u128 = 0x1_0000_0000_0000_0000_0000_0000;

/// Number of binary digits computed after the point of the binary logarithm.
pub const FRACTION_BITS: u32 = 32;

/// Scale that lifts a weight to a mantissa with 63 fractional bits.
pub const MANTISSA_LIFT: u128 = 0x8000_0000;

/// The mantissa 1.0, with 63 fractional bits.
pub const MANTISSA_ONE: u128 = 0x8000_0000_0000_0000;

/// The mantissa 2.0, with 63 fractional bits.
pub const MANTISSA_TWO: u128 = 0x1_0000_0000_0000_0000;

/// How many times `v` is halved, rounding down, until it is below two.
pub open spec fn halvings(v: nat) -> nat
    decreases v,
{
    if v < MANTISSA_TWO {
        0
    } else {
        1 + halvings(v / 2)
    }
}

/// What is left of `v` after `halvings(v)` halvings.
pub open spec fn halved(v: nat) -> nat
    decreases v,
{
    if v < MANTISSA_TWO {
        v
    } else {
        halved(v / 2)
    }
}

/// The first `bits` binary digits after the point of the binary logarithm of
/// the mantissa `m`, read as one number. Squaring the mantissa doubles its
/// logarithm: the next digit is one exactly when the square reaches two.
pub open spec fn log2_fraction(m: nat, bits: nat) -> nat
    decreases bits,
{
    if bits == 0 {
        0
    } else {
        let square = m * m / (MANTISSA_ONE as nat);
        if square >= MANTISSA_TWO {
            pow2((bits - 1) as nat) + log2_fraction(square / 2, (bits - 1) as nat)
        } else {
            log2_fraction(square, (bits - 1) as nat)
        }
    }
}

/// The binary logarithm of the weight `x`, as a weight.
pub open spec fn log2_fixed(x: nat) -> nat {
    let v = x * (MANTISSA_LIFT as nat);
    halvings(v) * (ONE as nat) + log2_fraction(halved(v), FRACTION_BITS as nat)
}

/// The natural logarithm of the weight `x`, as a weight; zero for `x` up to
/// one, where the real logarithm is not positive.
pub open spec fn ln_fixed(x: nat) -> nat {
    if x <= ONE {
        0
    } else {
        log2_fixed(x) * (LN_2 as nat) / (ONE as nat)
    }
}

/// The document frequency that enters the weight: never below one.
pub open spec fn floored_frequency(containing: nat) -> nat {
    if containing == 0 {
        1
    } else {
        containing
    }
}

/// The inverse document frequency `ln(total / max(1, containing))` of a term
/// that occurs in `containing` of `total` documents, as a weight.
pub open spec fn idf_weight(total: nat, containing: nat) -> nat {
    ln_fixed(total * (ONE as nat) / floored_frequency(containing))
}

proof fn lemma_halving_ordered(a: nat, b: nat)
    requires
        a <= b,
    ensures
        halvings(a) < halvings(b) || (halvings(a) == halvings(b) && halved(a) <= halved(b)),
    decreases b,
{
    if b >= MANTISSA_TWO && a >= MANTISSA_TWO {
        lemma_halving_ordered(a / 2, b / 2);
    }
}

proof fn lemma_halving_bounds(v: nat)
    requires
        v < 0x8000_0000_0000_0000_0000_0000_0000_0000,
    ensures
        halvings(v) <= 63,
        halved(v) < MANTISSA_TWO,
    decreases v,
{
    if v >= MANTISSA_TWO {
        lemma_halving_bounds_step(v);
    }
}

proof fn lemma_halving_bounds_step(v: nat)
    requires
        MANTISSA_TWO <= v < 0x8000_0000_0000_0000_0000_0000_0000_0000,
    ensures
        halvings(v) <= 63,
        halved(v) < MANTISSA_TWO,
{
    // Sixty-three halvings bring any such value below two.
    reveal_with_fuel(halvings, 65);
    reveal_with_fuel(halved, 65);
}

proof fn lemma_fraction_below(m: nat, bits: nat)
    ensures
        log2_fraction(m, bits) < pow2(bits),
    decreases bits,
{
    lemma_pow2_pos(bits);
    if bits > 0 {
        let rest = (bits - 1) as nat;
        let square = m * m / (MANTISSA_ONE as nat);
        lemma_pow2_unfold(bits);
        lemma_fraction_below(square, rest);
        lemma_fraction_below(square / 2, rest);
    }
}

proof fn lemma_fraction_ordered(m1: nat, m2: nat, bits: nat)
    requires
        m1 <= m2,
    ensures
        log2_fraction(m1, bits) <= log2_fraction(m2, bits),
    decreases bits,
{
    if bits > 0 {
        let rest = (bits - 1) as nat;
        let square1 = m1 * m1 / (MANTISSA_ONE as nat);
        let square2 = m2 * m2 / (MANTISSA_ONE as nat);
        lemma_mul_upper_bound(m1 as int, m2 as int, m1 as int, m2 as int);
        lemma_div_is_ordered((m1 * m1) as int, (m2 * m2) as int, MANTISSA_ONE as int);
        if square1 >= MANTISSA_TWO {
            lemma_fraction_ordered(square1 / 2, square2 / 2, rest);
        } else if square2 >= MANTISSA_TWO {
            lemma_fraction_below(square1, rest);
        } else {
            lemma_fraction_ordered(square1, square2, rest);
        }
    }
}

proof fn lemma_log2_ordered(x1: nat, x2: nat)
    requires
        x1 <= x2,
    ensures
        log2_fixed(x1) <= log2_fixed(x2),
{
    let v1 = x1 * (MANTISSA_LIFT as nat);
    let v2 = x2 * (MANTISSA_LIFT as nat);
    lemma_halving_ordered(v1, v2);
    lemma2_to64();
    if halvings(v1) < halvings(v2) {
        lemma_fraction_below(halved(v1), FRACTION_BITS as nat);
        assert(halvings(v1) * (ONE as nat) + (ONE as nat) <= halvings(v2) * (ONE as nat))
            by (nonlinear_arith)
            requires
                halvings(v1) + 1 <= halvings(v2),
        ;
    } else {
        lemma_fraction_ordered(halved(v1), halved(v2), FRACTION_BITS as nat);
    }
}

proof fn lemma_ln_ordered(x1: nat, x2: nat)
    requires
        x1 <= x2,
    ensures
        ln_fixed(x1) <= ln_fixed(x2),
{
    if x1 > ONE {
        lemma_log2_ordered(x1, x2);
        let l1 = log2_fixed(x1);
        let l2 = log2_fixed(x2);
        assert(l1 * (LN_2 as nat) <= l2 * (LN_2 as nat)) by (nonlinear_arith)
            requires
                l1 <= l2,
        ;
        lemma_div_is_ordered((l1 * (LN_2 as nat)) as int, (l2 * (LN_2 as nat)) as int, ONE as int);
    }
}

/// The more documents hold a term, the smaller its weight: for a fixed
/// collection size the inverse document frequency never grows with the
/// document frequency.
pub proof fn lemma_idf_never_grows_with_frequency(total: nat, fewer: nat, more: nat)
    requires
        fewer <= more,
    ensures
        idf_weight(total, fewer) >= idf_weight(total, more),
{
    let scaled = total * (ONE as nat);
    lemma_div_is_ordered_by_denominator(
        scaled as int,
        floored_frequency(fewer) as int,
        floored_frequency(more) as int,
    );
    lemma_ln_ordered(scaled / floored_frequency(more), scaled / floored_frequency(fewer));
}

/// A term that every document holds weighs nothing, and so does any term
/// whose document frequency reaches the collection size.
pub proof fn lemma_idf_of_common_term_is_zero(total: nat, containing: nat)
    requires
        containing >= total,
    ensures
        idf_weight(total, containing) == 0,
{
    let scaled = total * (ONE as nat);
    let df = floored_frequency(containing);
    if total == 0 {
        assert(scaled / df == 0) by (nonlinear_arith)
            requires
                scaled == 0,
                df >= 1,
        ;
    } else {
        lemma_div_is_ordered_by_denominator(scaled as int, total as int, df as int);
        lemma_div_multiples_vanish(ONE as int, total as int);
        assert(scaled == total * (ONE as nat));
        assert((total * (ONE as nat)) as int == (total as int) * (ONE as int));
    }
}

/// Every weight the logarithm produces stays below 2^38.
proof fn lemma_ln_below(x: nat)
    requires
        x < RATIO_LIMIT,
    ensures
        ln_fixed(x) < WEIGHT_LIMIT,
{
    if x > ONE {
        let v = x * (MANTISSA_LIFT as nat);
        lemma_halving_bounds(v);
        lemma_fraction_below(halved(v), FRACTION_BITS as nat);
        lemma2_to64();
        let l = log2_fixed(x);
        assert(l < 64 * (ONE as nat)) by (nonlinear_arith)
            requires
                l == halvings(v) * (ONE as nat) + log2_fraction(halved(v), FRACTION_BITS as nat),
                halvings(v) <= 63,
                log2_fraction(halved(v), FRACTION_BITS as nat) < ONE,
        ;
        assert(l * (LN_2 as nat) / (ONE as nat) < WEIGHT_LIMIT) by (nonlinear_arith)
            requires
                l < 64 * 0x1_0000_0000,
                LN_2 == 0xB172_17F7,
                ONE == 0x1_0000_0000,
                WEIGHT_LIMIT == 0x40_0000_0000,
        ;
    }
}

/// The inverse document frequency over a collection that a machine can hold
/// stays below 2^38.
pub proof fn lemma_idf_below(total: nat, containing: nat)
    requires
        total <= u64::MAX,
    ensures
        idf_weight(total, containing) < WEIGHT_LIMIT,
{
    let scaled = total * (ONE as nat);
    let df = floored_frequency(containing);
    lemma_div_is_ordered_by_denominator(scaled as int, 1, df as int);
    lemma_ln_below(scaled / df);
}

/// Computes the natural logarithm of the weight `x`.
pub(crate) fn natural_log(x: u128) -> (w: u64)
    requires
        x < RATIO_LIMIT,
    ensures
        w == ln_fixed(x as nat),
        w < WEIGHT_LIMIT,
{
    proof {
        lemma_ln_below(x as nat);
    }
    if x <= ONE as u128 {
        return 0;
    }
    let lifted: u128 = x * MANTISSA_LIFT;
    proof {
        lemma_halving_bounds(lifted as nat);
    }
    let mut v: u128 = lifted;
    let mut whole: u64 = 0;
    while v >= MANTISSA_TWO
        invariant
            halvings(lifted as nat) == whole + halvings(v as nat),
            halved(lifted as nat) == halved(v as nat),
            halvings(lifted as nat) <= 63,
        decreases v,
    {
        v = v / 2;
        whole = whole + 1;
    }
    let mantissa: u128 = v;
    let mut m: u128 = mantissa;
    let mut digits: u64 = 0;
    let mut done: u32 = 0;
    proof {
        lemma2_to64();
    }
    while done < FRACTION_BITS
        invariant
            done <= FRACTION_BITS,
            m < MANTISSA_TWO,
            digits < pow2(done as nat),
            log2_fraction(mantissa as nat, FRACTION_BITS as nat) == digits * pow2(
                (FRACTION_BITS - done) as nat,
            ) + log2_fraction(m as nat, (FRACTION_BITS - done) as nat),
        decreases FRACTION_BITS - done,
    {
        proof {
            lemma_pow2_unfold((FRACTION_BITS - done) as nat);
            lemma_pow2_unfold((done + 1) as nat);
            lemma2_to64();
            assert(pow2(done as nat) <= pow2(31)) by {
                if done < 31 {
                    lemma_pow2_strictly_increases(done as nat, 31);
                }
            }
            assert(m * m < 0x1_0000_0000_0000_0000 * 0x1_0000_0000_0000_0000) by (nonlinear_arith)
                requires
                    m < 0x1_0000_0000_0000_0000,
            ;
        }
        let ghost rest = (FRACTION_BITS - done - 1) as nat;
        let ghost earlier = digits;
        let ghost root = m;
        let square: u128 = m * m / MANTISSA_ONE;
        if square >= MANTISSA_TWO {
            digits = 2 * digits + 1;
            m = square / 2;
        } else {
            digits = 2 * digits;
            m = square;
        }
        proof {
            let digit: nat = if square >= MANTISSA_TWO {
                1
            } else {
                0
            };
            assert(log2_fraction(root as nat, rest + 1) == digit * pow2(rest) + log2_fraction(
                m as nat,
                rest,
            ));
            assert(digits * pow2(rest) == earlier * (2 * pow2(rest)) + digit * pow2(rest))
                by (nonlinear_arith)
                requires
                    digits == 2 * earlier + digit,
            ;
        }
        done = done + 1;
    }
    let log2: u128 = (whole as u128) * (ONE as u128) + (digits as u128);
    proof {
        assert(pow2(0) == 1);
        assert(digits == log2_fraction(mantissa as nat, FRACTION_BITS as nat)) by (nonlinear_arith)
            requires
                done == FRACTION_BITS,
                pow2((FRACTION_BITS - done) as nat) == 1,
                log2_fraction(m as nat, (FRACTION_BITS - done) as nat) == 0,
                log2_fraction(mantissa as nat, FRACTION_BITS as nat) == digits * pow2(
                    (FRACTION_BITS - done) as nat,
                ) + log2_fraction(m as nat, (FRACTION_BITS - done) as nat),
        ;
    }
    let scaled: u128 = log2 * (LN_2 as u128);
    (scaled / (ONE as u128)) as u64
}

/// Computes the inverse document frequency of a term that occurs in
/// `containing` of `total` documents.
pub fn inverse_document_frequency(total: u64, containing: u64) -> (w: u64)
    ensures
        w == idf_weight(total as nat, containing as nat),
        w < WEIGHT_LIMIT,
{
    let df: u64 = if containing == 0 {
        1
    } else {
        containing
    };
    let scaled: u128 = (total as u128) * (ONE as u128);
    let ratio: u128 = scaled / (df as u128);
    proof {
        lemma_div_is_ordered_by_denominator(scaled as int, 1, df as int);
    }
    natural_log(ratio)
}

} // verus!

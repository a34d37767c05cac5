//! Edge weights: single-precision IEEE 754 numbers, held as their 32 bits.
//!
//! The library never computes with a weight; it only asks whether one is
//! finite and which of two is smaller.  Both questions are settled on the
//! bit pattern.  What a pattern stands for is stated exactly: its value as
//! an integer multiple of `2^-149`, the smallest step of the format.
use vstd::arithmetic::power2::*;
use vstd::prelude::*;

verus! {

/// The sign bit is set.
pub open spec fn sign_bit(bits: u32) -> bool {
    bits & 0x8000_0000u32 != 0
}

/// The eight exponent bits.
pub open spec fn exponent_field(bits: u32) -> nat {
    ((bits >> 23u32) & 0xffu32) as nat
}

/// The twenty-three fraction bits.
pub open spec fn fraction_field(bits: u32) -> nat {
    (bits & 0x7f_ffffu32) as nat
}

/// The pattern stands for a number: neither an infinity nor a NaN.
pub open spec fn is_finite(bits: u32) -> bool {
    exponent_field(bits) != 0xff
}

/// The absolute value that a finite pattern stands for, in units of
/// `2^-149`.
pub open spec fn magnitude(bits: u32) -> nat {
    if exponent_field(bits) == 0 {
        fraction_field(bits)
    } else {
        (0x80_0000 + fraction_field(bits)) * pow2((exponent_field(bits) - 1) as nat)
    }
}

/// The value that a finite pattern stands for, in units of `2^-149`.
/// Both zeros have the value 0.
pub open spec fn weight_value(bits: u32) -> int {
    if sign_bit(bits) {
        -(magnitude(bits) as int)
    } else {
        magnitude(bits) as int
    }
}

/// The pattern without its sign bit.
spec fn low_bits(bits: u32) -> int {
    (bits & 0x7fff_ffffu32) as int
}

/// An integer that orders patterns as their values do.
spec fn key_of(bits: u32) -> int {
    if sign_bit(bits) {
        -low_bits(bits)
    } else {
        low_bits(bits)
    }
}

/// The low bits are the exponent field followed by the fraction field.
proof fn lemma_fields(bits: u32)
    ensures
        low_bits(bits) == exponent_field(bits) * 0x80_0000 + fraction_field(bits),
        fraction_field(bits) < 0x80_0000,
        exponent_field(bits) <= 0xff,
        0 <= low_bits(bits) <= 0x7fff_ffff,
{
    assert(bits & 0x7fff_ffffu32 == ((bits >> 23u32) & 0xffu32) * 0x80_0000u32 + (bits
        & 0x7f_ffffu32)) by (bit_vector);
    assert(((bits >> 23u32) & 0xffu32) * 0x80_0000u32 + (bits & 0x7f_ffffu32) <= 0x7fff_ffffu32)
        by (bit_vector);
    assert(bits & 0x7f_ffffu32 < 0x80_0000u32) by (bit_vector);
    assert((bits >> 23u32) & 0xffu32 <= 0xffu32) by (bit_vector);
    assert(bits & 0x7fff_ffffu32 <= 0x7fff_ffffu32) by (bit_vector);
}

/// The magnitude as a function of the two fields.
spec fn scaled(exponent: nat, fraction: nat) -> nat {
    if exponent == 0 {
        fraction
    } else {
        (0x80_0000 + fraction) * pow2((exponent - 1) as nat)
    }
}

/// A number with the smaller exponent, or with the same exponent and the
/// smaller fraction, is the smaller number.
proof fn lemma_scaled_increases(e1: nat, f1: nat, e2: nat, f2: nat)
    requires
        f1 < 0x80_0000,
        f2 < 0x80_0000,
        e1 < e2 || (e1 == e2 && f1 < f2),
    ensures
        scaled(e1, f1) < scaled(e2, f2),
{
    lemma2_to64();
    if e1 == e2 {
        if e1 > 0 {
            let p = pow2((e1 - 1) as nat) as int;
            lemma_pow2_pos((e1 - 1) as nat);
            assert((0x80_0000 + f1) * p < (0x80_0000 + f2) * p) by (nonlinear_arith)
                requires
                    p > 0,
                    f1 < f2,
            ;
        }
    } else {
        let low_power = pow2(e1) as int;
        let high_power = pow2((e2 - 1) as nat) as int;
        lemma_pow2_pos(e1);
        // the first number lies below 2^23 * 2^e1
        assert(scaled(e1, f1) < 0x80_0000 * low_power) by {
            if e1 > 0 {
                let q = pow2((e1 - 1) as nat) as int;
                lemma_pow2_pos((e1 - 1) as nat);
                lemma_pow2_unfold(e1);
                assert((0x80_0000 + f1) * q < 0x80_0000 * (2 * q)) by (nonlinear_arith)
                    requires
                        q > 0,
                        f1 < 0x80_0000,
                ;
            }
        }
        // and the second one does not
        if e1 < e2 - 1 {
            lemma_pow2_strictly_increases(e1, (e2 - 1) as nat);
        }
        assert(0x80_0000 * low_power <= (0x80_0000 + f2) * high_power) by (nonlinear_arith)
            requires
                0 < low_power <= high_power,
                0 <= f2,
        ;
    }
}

/// Patterns are ordered by their keys as the numbers they stand for are
/// ordered by value.
proof fn lemma_key_orders_values(a: u32, b: u32)
    ensures
        key_of(a) < key_of(b) <==> weight_value(a) < weight_value(b),
        key_of(a) == key_of(b) <==> weight_value(a) == weight_value(b),
{
    lemma_fields(a);
    lemma_fields(b);
    lemma_fields(0u32);
    let ea = exponent_field(a);
    let fa = fraction_field(a);
    let eb = exponent_field(b);
    let fb = fraction_field(b);
    assert(magnitude(a) == scaled(ea, fa));
    assert(magnitude(b) == scaled(eb, fb));
    assert(scaled(0, 0) == 0);
    if low_bits(a) < low_bits(b) {
        lemma_scaled_increases(ea, fa, eb, fb);
    }
    if low_bits(b) < low_bits(a) {
        lemma_scaled_increases(eb, fb, ea, fa);
    }
    if low_bits(a) == low_bits(b) {
        assert(ea == eb && fa == fb);
    }
    if low_bits(a) > 0 {
        lemma_scaled_increases(0, 0, ea, fa);
    }
    if low_bits(b) > 0 {
        lemma_scaled_increases(0, 0, eb, fb);
    }
}

/// Tells whether the pattern stands for a number.
pub fn weight_is_finite(bits: u32) -> (finite: bool)
    ensures
        finite == is_finite(bits),
{
    (bits >> 23u32) & 0xffu32 != 0xffu32
}

/// The key of the pattern: its low bits, negated if the sign bit is set.
fn order_key(bits: u32) -> (key: i64)
    ensures
        key == key_of(bits),
{
    let low: u32 = bits & 0x7fff_ffffu32;
    proof {
        lemma_fields(bits);
    }
    if bits & 0x8000_0000u32 != 0 {
        -(low as i64)
    } else {
        low as i64
    }
}

/// Tells whether the first weight is the smaller number.
pub fn weight_less(a: u32, b: u32) -> (less: bool)
    ensures
        less == (weight_value(a) < weight_value(b)),
{
    proof {
        lemma_key_orders_values(a, b);
    }
    order_key(a) < order_key(b)
}

} // verus!

use crate::error::RenderError;
use vstd::arithmetic::power2::{
    lemma2_to64, lemma2_to64_rest, lemma_pow2_pos, lemma_pow2_strictly_increases, pow2,
};
use vstd::bits::lemma_u64_shl_is_mul;
use vstd::prelude::*;

verus! {

/// The biased exponent field of an IEEE 754 single-precision bit pattern.
pub open spec fn exponent_field(bits: u32) -> int {
    (bits as int / 0x80_0000) % 0x100
}

/// The fraction field of an IEEE 754 single-precision bit pattern.
pub open spec fn fraction_field(bits: u32) -> int {
    bits as int % 0x80_0000
}

/// The sign bit is set.
pub open spec fn is_negative(bits: u32) -> bool {
    bits >= 0x8000_0000
}

/// The bit pattern encodes a NaN.
pub open spec fn is_nan(bits: u32) -> bool {
    exponent_field(bits) == 0xFF && fraction_field(bits) != 0
}

/// The bit pattern encodes an infinity.
pub open spec fn is_infinite(bits: u32) -> bool {
    exponent_field(bits) == 0xFF && fraction_field(bits) == 0
}

/// The significand of a finite number as an integer: the magnitude of the
/// number is `significand * 2^scale`.
pub open spec fn significand(bits: u32) -> int {
    if exponent_field(bits) == 0 {
        fraction_field(bits)
    } else {
        fraction_field(bits) + 0x80_0000
    }
}

/// The power of two that the significand of a finite number is counted in.
pub open spec fn scale(bits: u32) -> int {
    if exponent_field(bits) == 0 {
        -149
    } else {
        exponent_field(bits) - 150
    }
}

/// The magnitude of a finite number in fixed-point units of `2^-32`, rounded
/// down.
pub open spec fn fixed_magnitude(bits: u32) -> int {
    let k = scale(bits) + 32;
    if k >= 0 {
        significand(bits) * pow2(k as nat)
    } else {
        significand(bits) / (pow2((-k) as nat) as int)
    }
}

/// The encoded number as a fixed-point number, or the reason why there is
/// none: the number is rounded towards zero to a multiple of `2^-32` and
/// must fit in 64 bits.
pub open spec fn fixed_of_bits(bits: u32) -> Result<int, RenderError> {
    if is_nan(bits) {
        Err(RenderError::NaNCoordinate)
    } else if is_infinite(bits) || fixed_magnitude(bits) > i64::MAX {
        Err(RenderError::OutOfRange)
    } else if is_negative(bits) {
        Ok(-fixed_magnitude(bits))
    } else {
        Ok(fixed_magnitude(bits))
    }
}

/// `2^k` for an exponent below 64.
fn power_of_two(k: u32) -> (p: u64)
    requires
        k < 64,
    ensures
        p == pow2(k as nat),
        p > 0,
{
    proof {
        lemma2_to64();
        lemma2_to64_rest();
        if k < 63 {
            lemma_pow2_strictly_increases(k as nat, 63);
        }
        lemma_pow2_pos(k as nat);
        lemma_u64_shl_is_mul(1, k as u64);
    }
    1u64 << (k as u64)
}

/// Converts an IEEE 754 single-precision bit pattern to a fixed-point
/// number with 32 fractional bits, rounding towards zero.
pub fn fixed_from_bits(bits: u32) -> (r: Result<i64, RenderError>)
    ensures
        match r {
            Ok(v) => fixed_of_bits(bits) == Ok::<int, RenderError>(v as int),
            Err(e) => fixed_of_bits(bits) == Err::<int, RenderError>(e),
        },
{
    let exponent: u32 = (bits / 0x80_0000) % 0x100;
    let fraction: u32 = bits % 0x80_0000;
    if exponent == 0xFF {
        if fraction != 0 {
            return Err(RenderError::NaNCoordinate);
        }
        return Err(RenderError::OutOfRange);
    }
    let sig: u64 = if exponent == 0 { fraction as u64 } else { fraction as u64 + 0x80_0000 };
    // The significand counts units of 2^(exponent - 150); one fixed-point
    // unit is 2^-32.
    let magnitude: u64 = if exponent >= 118 {
        let k: u32 = exponent - 118;
        if k > 39 {
            proof {
                lemma2_to64_rest();
                if k > 40 {
                    lemma_pow2_strictly_increases(40, k as nat);
                }
                assert(sig * pow2(k as nat) >= 0x80_0000 * 0x100_0000_0000) by (nonlinear_arith)
                    requires
                        sig >= 0x80_0000,
                        pow2(k as nat) >= 0x100_0000_0000,
                ;
            }
            return Err(RenderError::OutOfRange);
        }
        let p = power_of_two(k);
        proof {
            lemma2_to64_rest();
            if k < 39 {
                lemma_pow2_strictly_increases(k as nat, 39);
            }
            assert(sig * p <= 0xFF_FFFF * 0x80_0000_0000) by (nonlinear_arith)
                requires
                    sig <= 0xFF_FFFF,
                    p <= 0x80_0000_0000,
            ;
        }
        sig * p
    } else {
        let k: u32 = if exponent == 0 { 117 } else { 118 - exponent };
        if k >= 24 {
            proof {
                lemma2_to64();
                if k > 24 {
                    lemma_pow2_strictly_increases(24, k as nat);
                }
                assert(sig as int / (pow2(k as nat) as int) == 0) by (nonlinear_arith)
                    requires
                        0 <= sig < 0x100_0000,
                        pow2(k as nat) >= 0x100_0000,
                ;
            }
            0
        } else {
            sig / power_of_two(k)
        }
    };
    if bits >= 0x8000_0000 {
        Ok(-(magnitude as i64))
    } else {
        Ok(magnitude as i64)
    }
}

} // verus!

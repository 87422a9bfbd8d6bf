//! Conversions between integers and floating-point bit patterns.
//!
//! Integer to pattern rounds to nearest, ties to even. Pattern to integer
//! truncates toward zero and saturates at the limits of the integer type.

use crate::float::round::{
    bit_length,
    excess_bits,
    is_tie,
    lemma_bit_length_at_most,
    lemma_bit_length_bounds,
    lemma_normalized_unique,
    lemma_round_exact,
    lemma_round_nearest,
    lemma_round_scaled,
    lemma_round_ties_to_even,
    lemma_split_at_excess,
    representable,
    round_half_even,
    round_to_precision,
};
use crate::float::Format;
use crate::integer::{int_max, int_min, lemma_int_limits, magnitude_of, signed_value, Int};
use vstd::arithmetic::div_mod::{lemma_div_by_multiple, lemma_div_denominator};
use vstd::arithmetic::mul::{
    lemma_mul_inequality,
    lemma_mul_is_associative,
    lemma_mul_is_commutative,
    lemma_mul_strict_inequality,
    lemma_mul_unary_negation,
};
use vstd::arithmetic::power2::{
    lemma2_to64,
    lemma2_to64_rest,
    lemma_pow2_adds,
    lemma_pow2_pos,
    lemma_pow2_strictly_increases,
    lemma_pow2_unfold,
    pow2,
};
use vstd::bits::{
    lemma_u64_low_bits_mask_is_mod,
    lemma_u64_shl_is_mul,
    lemma_u64_shr_is_div,
    low_bits_mask,
};
use vstd::prelude::*;
use vstd::std_specs::bits::{axiom_u64_leading_zeros, u64_leading_zeros};

verus! {

/// Whether `rep` is the pattern of format `fmt` that the integer `v` converts
/// to: positive zero for zero, and otherwise the normal number with the sign
/// of `v` whose magnitude is that of `v` rounded to the format's precision.
pub open spec fn is_conversion_of(fmt: Format, rep: u64, v: int) -> bool {
    if v == 0 {
        rep == 0
    } else {
        &&& fmt.is_pattern(rep)
        &&& 0 < fmt.biased_exponent(rep) < fmt.max_exponent()
        &&& fmt.sign(rep) == (v < 0)
        &&& fmt.scaled_magnitude(rep) == round_to_precision(magnitude_of(v), fmt.precision())
            * pow2(fmt.unit_exponent())
    }
}

/// The count of leading zeros of a 64-bit number and its bit length add up to
/// 64.
pub proof fn lemma_leading_zeros(a: u64)
    ensures
        bit_length(a as nat) == 64 - u64_leading_zeros(a),
        0 <= u64_leading_zeros(a) <= 64,
    decreases a,
{
    reveal(u64_leading_zeros);
    axiom_u64_leading_zeros(a);
    if a != 0 {
        lemma_leading_zeros(a / 2);
    }
}

/// The window that the rounding step works on: the top `p + 2` bits of `a`,
/// where `k` is the number of bits of `a` beyond `p`, with every bit below the
/// window gathered into the lowest one.
spec fn rounding_window(a: u64, k: u64) -> u64 {
    if k == 1 {
        a << 1
    } else if k == 2 {
        a
    } else {
        (a >> ((k - 2) as u64)) | (if a << ((66 - k) as u64) != 0 {
            1u64
        } else {
            0u64
        })
    }
}

/// Adding one at the second bit of the window, after the lowest kept bit has
/// been copied into the lowest bit, rounds to nearest with ties to even.
proof fn lemma_window_rounds(a: u64, k: u64)
    by (bit_vector)
    requires
        1 <= k < 64,
        a <= 0x3fff_ffff_ffff_ffff || k >= 3,
    ensures
        ({
            let w = rounding_window(a, k);
            let w2 = w | (if w & 4 != 0 {
                1u64
            } else {
                0u64
            });
            let q = a >> k;
            let r = a & (((1u64 << k) - 1) as u64);
            let half = 1u64 << ((k - 1) as u64);
            &&& w2 < 0xffff_ffff_ffff_ffff
            &&& ((w2 + 1) as u64) >> 2 == if r < half || (r == half && q & 1 == 0) {
                q
            } else {
                (q + 1) as u64
            }
            &&& (q & 1 == 0) == (q % 2 == 0)
            &&& q < 0xffff_ffff_ffff_ffff
            &&& r < 1u64 << k
        }),
{
}

/// The window rounding of [`lemma_window_rounds`], stated over quotient and
/// remainder.
proof fn lemma_window_is_round_half_even(a: u64, k: u64)
    requires
        1 <= k < 64,
        a <= 0x3fff_ffff_ffff_ffff || k >= 3,
    ensures
        ({
            let w = rounding_window(a, k);
            let w2 = w | (if w & 4 != 0 {
                1u64
            } else {
                0u64
            });
            &&& w2 < 0xffff_ffff_ffff_ffff
            &&& ((w2 + 1) as u64) >> 2 == round_half_even(a as nat, k as nat)
        }),
{
    lemma_window_rounds(a, k);
    let d = pow2(k as nat);
    vstd::bits::lemma_u64_pow2_no_overflow(k as nat);
    vstd::bits::lemma_u64_pow2_no_overflow((k - 1) as nat);
    lemma_pow2_unfold(k as nat);
    lemma_u64_shr_is_div(a, k);
    lemma_u64_shl_is_mul(1, k);
    lemma_u64_shl_is_mul(1, (k - 1) as u64);
    lemma_u64_low_bits_mask_is_mod(a, k as nat);
    assert(((1u64 << k) - 1) as u64 == low_bits_mask(k as nat) as u64);
    let q = a >> k;
    let r = a & (((1u64 << k) - 1) as u64);
    let half = 1u64 << ((k - 1) as u64);
    assert(r == a as nat % d);
    assert(q == a as nat / d);
    assert(half == pow2((k - 1) as nat));
    assert(d == 2 * half);
    assert((r < half) == (2 * r < d));
    assert((r == half) == (2 * r == d));
    assert(round_half_even(a as nat, k as nat) == if r < half || (r == half && q & 1 == 0) {
        q as nat
    } else {
        (q + 1) as nat
    });
}

/// Converts the integer `i` to the pattern of format `fmt` nearest to it,
/// rounding ties to even.
pub fn int_to_float<I: Int>(i: I, fmt: Format) -> (rep: u64)
    ensures
        is_conversion_of(fmt, rep, i.value()),
{
    let negative = i.negative();
    let mut a = i.magnitude();
    if a == 0 {
        return 0;
    }
    let mant_dig = fmt.significand_bits() + 1;
    let exponent_bias = fmt.exponent_bias();
    let ghost a0 = a;
    let ghost p = fmt.precision();
    proof {
        i.lemma_value_in_range();
        fmt.lemma_layout();
        lemma_leading_zeros(a);
        lemma_bit_length_bounds(a as nat);
        lemma_int_limits();
        lemma_bit_length_at_most(a as nat, I::width());
    }

    // number of significant digits
    let sd = 64 - a.leading_zeros();

    // exponent
    let mut e = sd - 1;

    if I::bits() < mant_dig {
        proof {
            lemma_exact_fit(fmt, a0, negative);
        }
        return fmt.from_parts(negative, (e + exponent_bias) as u64, a << (mant_dig - e - 1));
    }
    a = if sd > mant_dig {
        let mant_dig_plus_one = mant_dig + 1;
        let mant_dig_plus_two = mant_dig + 2;
        let ghost k = (sd - mant_dig) as u64;
        proof {
            if k < 3 {
                lemma_pow2_strictly_increases(sd as nat, 62);
                lemma2_to64_rest();
            }
            lemma_window_is_round_half_even(a0, k);
            lemma_split_at_excess(a0 as nat, p);
        }
        a = if sd == mant_dig_plus_one {
            a << 1
        } else if sd == mant_dig_plus_two {
            a
        } else {
            (a >> (sd - mant_dig_plus_two)) | (if (a << ((64 + mant_dig_plus_two) - sd)) != 0 {
                1
            } else {
                0
            })
        };
        assert(a == rounding_window(a0, k));
        // or the lowest kept bit into the sticky bit
        a |= if (a & 4) != 0 {
            1
        } else {
            0
        };
        // round: this step may add a significant bit
        a += 1;
        // drop the guard and sticky bits
        a >>= 2;
        assert(a == round_half_even(a0 as nat, k as nat));
        // a is now rounded to mant_dig or mant_dig + 1 bits
        proof {
            lemma_pow2_unfold(p);
            lemma_u64_shl_is_mul(1, mant_dig as u64);
            lemma_u64_shl_is_mul(1, (mant_dig - 1) as u64);
            lemma_carry_bit(a, mant_dig);
        }
        if (a & (1 << mant_dig)) != 0 {
            a >>= 1;
            e += 1;
        }
        proof {
            lemma_rounded_fit(fmt, a0, a, e as nat, negative);
        }
        a
    } else {
        proof {
            lemma_exact_fit(fmt, a0, negative);
        }
        a << (mant_dig - sd)
    };
    fmt.from_parts(negative, (e + exponent_bias) as u64, a)
}

/// The test for a carry out of the top of a `p`-bit significand.
proof fn lemma_carry_bit(a: u64, p: u32)
    by (bit_vector)
    requires
        1 <= p < 64,
        a <= (1u64 << p),
    ensures
        (a & (1u64 << p)) != 0 <==> a == (1u64 << p),
        (1u64 << p) >> 1 == 1u64 << ((p - 1) as u32),
{
}

/// A magnitude of at most `p` bits, shifted up so that its leading bit is the
/// implicit one, packs to the pattern of exactly that magnitude.
proof fn lemma_exact_fit(fmt: Format, a: u64, negative: bool)
    requires
        a > 0,
        bit_length(a as nat) <= fmt.precision(),
    ensures
        ({
            let sd = bit_length(a as nat);
            let m = a << ((fmt.precision() - sd) as u32);
            let rep = fmt.pack(negative, (sd - 1 + fmt.bias()) as nat, m as nat) as u64;
            &&& fmt.pack(negative, (sd - 1 + fmt.bias()) as nat, m as nat) <= u64::MAX
            &&& is_conversion_of(fmt, rep, signed_value(negative, a as nat))
        }),
{
    let p = fmt.precision();
    let sd = bit_length(a as nat);
    let s = (p - sd) as nat;
    let e = (sd - 1 + fmt.bias()) as nat;
    fmt.lemma_layout();
    lemma_bit_length_bounds(a as nat);
    lemma_round_exact(a as nat, p);
    lemma_pow2_pos(s);
    // the shift is a multiplication
    assert(pow2(sd) * pow2(s) == pow2(p)) by {
        lemma_pow2_adds(sd, s);
    }
    assert(pow2((sd - 1) as nat) * pow2(s) == pow2((p - 1) as nat)) by {
        lemma_pow2_adds((sd - 1) as nat, s);
    }
    assert(a * pow2(s) < pow2(p)) by {
        lemma_mul_strict_inequality(a as int, pow2(sd) as int, pow2(s) as int);
    }
    assert(pow2((p - 1) as nat) <= a * pow2(s)) by {
        lemma_mul_inequality(pow2((sd - 1) as nat) as int, a as int, pow2(s) as int);
    }
    lemma_pow2_unfold(p);
    lemma_u64_shl_is_mul(a, s as u64);
    let m = a << (s as u32);
    assert(m == a * pow2(s));
    fmt.lemma_pack_normal(negative, e, m as nat);
    // the magnitude in units
    assert(m * pow2((e - 1) as nat) == a * pow2(fmt.unit_exponent())) by {
        lemma_pow2_adds(s, (e - 1) as nat);
        lemma_mul_is_associative(a as int, pow2(s) as int, pow2((e - 1) as nat) as int);
    }
}

/// A magnitude of more than `p` bits, once rounded to the significand `m` with
/// exponent `e`, packs to the pattern of the rounded magnitude.
proof fn lemma_rounded_fit(fmt: Format, a: u64, m: u64, e: nat, negative: bool)
    requires
        bit_length(a as nat) > fmt.precision(),
        ({
            let p = fmt.precision();
            let k = excess_bits(a as nat, p);
            let q = round_half_even(a as nat, k);
            if q == pow2(p) {
                m == pow2((p - 1) as nat) && e == bit_length(a as nat)
            } else {
                m == q && e == bit_length(a as nat) - 1
            }
        }),
    ensures
        fmt.pack(negative, e + fmt.bias(), m as nat) <= u64::MAX,
        is_conversion_of(
            fmt,
            fmt.pack(negative, e + fmt.bias(), m as nat) as u64,
            signed_value(negative, a as nat),
        ),
{
    let p = fmt.precision();
    let sd = bit_length(a as nat);
    let k = excess_bits(a as nat, p);
    let q = round_half_even(a as nat, k);
    let u = fmt.unit_exponent();
    let ee = (e + fmt.bias()) as nat;
    fmt.lemma_layout();
    lemma_leading_zeros(a);
    lemma_split_at_excess(a as nat, p);
    lemma_pow2_unfold(p);
    fmt.lemma_pack_normal(negative, ee, m as nat);
    assert(pow2(k) * pow2(u) == pow2(k + u)) by {
        lemma_pow2_adds(k, u);
    }
    assert(round_to_precision(a as nat, p) * pow2(u) == q * pow2(k + u)) by {
        lemma_mul_is_associative(q as int, pow2(k) as int, pow2(u) as int);
    }
    if q == pow2(p) {
        assert(pow2(k + u) == 2 * pow2((k + u - 1) as nat)) by {
            lemma_pow2_unfold(k + u);
        }
        assert(m * pow2((ee - 1) as nat) == q * pow2(k + u)) by {
            lemma_pow2_unfold((ee - 1) as nat);
            lemma_mul_is_associative(m as int, 2, pow2(k + u) as int);
        }
    }
}

/// `v` limited to the range from `lo` to `hi`.
pub open spec fn clamp(v: int, lo: int, hi: int) -> int {
    if v < lo {
        lo
    } else if v > hi {
        hi
    } else {
        v
    }
}

/// The value of the finite pattern `rep` with its fractional part dropped.
pub open spec fn truncated(fmt: Format, rep: u64) -> int {
    signed_value(fmt.sign(rep), fmt.scaled_magnitude(rep) / pow2(fmt.unit_exponent()))
}

/// The integer between `lo` and `hi` that the pattern `rep` converts to: the
/// value truncated toward zero where that lies in the range, and otherwise
/// the end of the range on the side of the value. An infinity converts to the
/// end on its side. For a NaN the result has no meaning.
pub open spec fn saturated_truncation(fmt: Format, rep: u64, lo: int, hi: int) -> int {
    if fmt.is_infinite(rep) {
        if fmt.sign(rep) {
            lo
        } else {
            hi
        }
    } else {
        clamp(truncated(fmt, rep), lo, hi)
    }
}

/// How the truncated magnitude of a pattern follows from its exponent field
/// `e` and its significand `m`: zero below the bias, and from the bias on `m`
/// shifted so that its leading bit has the weight `2^(e - bias)`.
pub proof fn lemma_truncated_magnitude(fmt: Format, rep: u64)
    ensures
        ({
            let e = fmt.biased_exponent(rep);
            let m = fmt.fraction(rep) + pow2(fmt.significand_width());
            let sw = fmt.significand_width();
            let t = fmt.scaled_magnitude(rep) / pow2(fmt.unit_exponent());
            &&& e < fmt.bias() ==> t == 0
            &&& e >= fmt.bias() ==> pow2((e - fmt.bias()) as nat) <= t < 2 * pow2(
                (e - fmt.bias()) as nat,
            )
            &&& fmt.bias() <= e < fmt.bias() + sw ==> t == m / pow2((sw + fmt.bias() - e) as nat)
            &&& e >= fmt.bias() + sw ==> t == m * pow2((e - fmt.bias() - sw) as nat)
        }),
{
    let e = fmt.biased_exponent(rep);
    let sw = fmt.significand_width();
    let d = pow2(sw);
    let f = fmt.fraction(rep);
    let m = f + d;
    let u = fmt.unit_exponent();
    let s = fmt.scaled_magnitude(rep);
    let t = s / pow2(u);
    fmt.lemma_layout();
    lemma_pow2_pos(sw);
    lemma_pow2_pos(u);
    assert(f < d) by {
        vstd::arithmetic::div_mod::lemma_mod_bound(rep as int, d as int);
    }
    if e < fmt.bias() {
        // the magnitude is below one unit of 2^u
        if e == 0 {
            assert(s == f);
            lemma_pow2_strictly_increases(sw, u);
        } else {
            assert(s == m * pow2((e - 1) as nat));
            assert(pow2(sw + 1) == 2 * d) by {
                lemma_pow2_unfold(sw + 1);
            }
            assert(pow2(sw + 1) * pow2((e - 1) as nat) == pow2(sw + e)) by {
                lemma_pow2_adds(sw + 1, (e - 1) as nat);
            }
            lemma_pow2_pos((e - 1) as nat);
            assert(s < pow2(sw + e)) by {
                lemma_mul_strict_inequality(
                    m as int,
                    pow2(sw + 1) as int,
                    pow2((e - 1) as nat) as int,
                );
            }
            if sw + e < u {
                lemma_pow2_strictly_increases(sw + e, u);
            }
        }
        vstd::arithmetic::div_mod::lemma_basic_div(s as int, pow2(u) as int);
    } else {
        let x = (e - fmt.bias()) as nat;
        let b = (fmt.bias() - 1) as nat;
        assert(s == m * pow2((e - 1) as nat));
        assert(pow2((e - 1) as nat) == pow2(x) * pow2(b)) by {
            lemma_pow2_adds(x, b);
        }
        assert(pow2(u) == pow2(sw) * pow2(b)) by {
            lemma_pow2_adds(sw, b);
        }
        lemma_pow2_pos(b);
        lemma_pow2_pos(x);
        // cancel the common factor 2^b
        let n = m * pow2(x);
        assert(s == n * pow2(b)) by {
            lemma_mul_is_associative(m as int, pow2(x) as int, pow2(b) as int);
        }
        assert(t == n / d) by {
            lemma_div_denominator(s as int, pow2(b) as int, d as int);
            lemma_mul_is_commutative(pow2(b) as int, d as int);
            lemma_div_by_multiple(n as int, pow2(b) as int);
        }
        if x < sw {
            let y = (sw - x) as nat;
            assert(d == pow2(x) * pow2(y)) by {
                lemma_pow2_adds(x, y);
            }
            lemma_pow2_pos(y);
            assert(n / d == m / pow2(y)) by {
                lemma_div_denominator(n as int, pow2(x) as int, pow2(y) as int);
                lemma_div_by_multiple(m as int, pow2(x) as int);
            }
            // d / 2^y <= m / 2^y < 2d / 2^y
            assert(d / pow2(y) == pow2(x)) by {
                lemma_mul_is_commutative(pow2(x) as int, pow2(y) as int);
                lemma_div_by_multiple(pow2(x) as int, pow2(y) as int);
            }
            assert(pow2(x) <= m / pow2(y)) by {
                vstd::arithmetic::div_mod::lemma_div_is_ordered(
                    d as int,
                    m as int,
                    pow2(y) as int,
                );
            }
            assert(m / pow2(y) < 2 * pow2(x)) by {
                assert(2 * d == (2 * pow2(x)) * pow2(y)) by {
                    lemma_mul_is_associative(2, pow2(x) as int, pow2(y) as int);
                }
                vstd::arithmetic::div_mod::lemma_div_by_multiple_is_strongly_ordered(
                    m as int,
                    (2 * d) as int,
                    (2 * pow2(x)) as int,
                    pow2(y) as int,
                );
                lemma_div_by_multiple((2 * pow2(x)) as int, pow2(y) as int);
            }
        } else {
            let y = (x - sw) as nat;
            assert(pow2(x) == pow2(y) * d) by {
                lemma_pow2_adds(y, sw);
            }
            lemma_pow2_pos(y);
            assert(n == (m * pow2(y)) * d) by {
                lemma_mul_is_associative(m as int, pow2(y) as int, d as int);
            }
            assert(n / d == m * pow2(y)) by {
                lemma_div_by_multiple((m * pow2(y)) as int, d as int);
            }
            assert(d * pow2(y) <= m * pow2(y)) by {
                lemma_mul_inequality(d as int, m as int, pow2(y) as int);
            }
            assert(m * pow2(y) < (2 * d) * pow2(y)) by {
                lemma_mul_strict_inequality(m as int, (2 * d) as int, pow2(y) as int);
            }
            assert((2 * d) * pow2(y) == 2 * pow2(x)) by {
                lemma_mul_is_associative(2, d as int, pow2(y) as int);
                lemma_mul_is_commutative(d as int, pow2(y) as int);
            }
            assert(d * pow2(y) == pow2(x)) by {
                lemma_mul_is_commutative(d as int, pow2(y) as int);
            }
        }
    }
}

/// The fields of a pattern as masks and shifts take them out.
proof fn lemma_unpack_bits(rep: u64)
    by (bit_vector)
    ensures
        rep < 0x1_0000_0000 ==> {
            &&& (rep & !0x8000_0000u64) >> 23u32 == (rep / 0x80_0000) % 0x100
            &&& ((rep & 0x8000_0000) != 0) == ((rep / 0x8000_0000) % 2 == 1)
            &&& ((rep & !0x8000_0000u64) & 0x007f_ffff) | 0x0080_0000 == rep % 0x80_0000
                + 0x80_0000
        },
        (rep & !0x8000_0000_0000_0000u64) >> 52u32 == (rep / 0x10_0000_0000_0000) % 0x800,
        ((rep & 0x8000_0000_0000_0000) != 0) == ((rep / 0x8000_0000_0000_0000) % 2 == 1),
        ((rep & !0x8000_0000_0000_0000u64) & 0x000f_ffff_ffff_ffff) | 0x0010_0000_0000_0000 == rep
            % 0x10_0000_0000_0000 + 0x10_0000_0000_0000,
{
}

/// Converts the pattern `rep` of format `fmt` to an integer, dropping the
/// fractional part. A value beyond the integer type's range, an infinity
/// included, gives the limit on its side; a negative value gives zero in an
/// unsigned type. For a NaN nothing is promised of the result.
pub fn float_to_int<I: Int>(rep: u64, fmt: Format) -> (r: I)
    requires
        fmt.is_pattern(rep),
    ensures
        !fmt.is_nan(rep) ==> r.value() == saturated_truncation(
            fmt,
            rep,
            int_min(I::width(), I::is_signed()),
            int_max(I::width(), I::is_signed()),
        ),
{
    let fixint_min = I::lowest();
    let fixint_max = I::highest();
    let fixint_bits = I::bits();
    let fixint_unsigned = !I::signed();

    let sign_bit = fmt.sign_mask();
    let significand_bits = fmt.significand_bits();
    let exponent_bias = fmt.exponent_bias();

    proof {
        fixint_min.lemma_value_in_range();
        lemma_int_limits();
        fmt.lemma_layout();
        lemma_unpack_bits(rep);
        lemma_truncated_magnitude(fmt, rep);
    }

    // Break the pattern into sign, exponent, significand
    let a_abs = rep & !sign_bit;
    let negative = (rep & sign_bit) != 0;
    let mut exponent = (a_abs >> significand_bits) as u32;
    let significand = (a_abs & fmt.significand_mask()) | fmt.implicit_bit();
    assert(exponent as nat == fmt.biased_exponent(rep));
    assert(negative == fmt.sign(rep));
    assert(significand as nat == fmt.fraction(rep) + pow2(fmt.significand_width()));

    // if < 1 or unsigned & negative
    if exponent < exponent_bias || (fixint_unsigned && negative) {
        return I::from_sign_magnitude(false, 0);
    }
    exponent -= exponent_bias;
    let ghost t = fmt.scaled_magnitude(rep) / pow2(fmt.unit_exponent());

    // If the value is infinity or too large for the integer type, saturate.
    let limit = if fixint_unsigned {
        fixint_bits
    } else {
        fixint_bits - 1
    };
    if exponent >= limit {
        proof {
            if exponent > limit {
                lemma_pow2_strictly_increases(limit as nat, exponent as nat);
            }
        }
        return if !negative {
            fixint_max
        } else {
            fixint_min
        };
    }
    // If 0 <= exponent < significand_bits, right shift to get the result.
    // Otherwise, shift left.
    proof {
        if exponent + 1 < limit {
            lemma_pow2_strictly_increases((exponent + 1) as nat, limit as nat);
        }
        lemma_pow2_unfold((exponent + 1) as nat);
    }
    let r = if exponent < significand_bits {
        proof {
            lemma_u64_shr_is_div(significand, (significand_bits - exponent) as u64);
        }
        significand >> (significand_bits - exponent)
    } else {
        proof {
            lemma_u64_shl_is_mul(significand, (exponent - significand_bits) as u64);
        }
        significand << (exponent - significand_bits)
    };
    assert(r as nat == t);
    I::from_sign_magnitude(negative, r)
}

/// Converts a signed 32-bit integer to the nearest single-precision pattern.
pub fn __floatsisf(i: i32) -> (r: u32)
    ensures
        is_conversion_of(Format::Binary32, r as u64, i as int),
{
    proof {
        Format::Binary32.lemma_layout();
    }
    int_to_float(i, Format::Binary32) as u32
}

/// Converts a signed 32-bit integer to the nearest double-precision pattern.
pub fn __floatsidf(i: i32) -> (r: u64)
    ensures
        is_conversion_of(Format::Binary64, r as u64, i as int),
{
    proof {
        Format::Binary64.lemma_layout();
    }
    int_to_float(i, Format::Binary64)
}

/// Converts a signed 64-bit integer to the nearest double-precision pattern.
pub fn __floatdidf(i: i64) -> (r: u64)
    ensures
        is_conversion_of(Format::Binary64, r as u64, i as int),
{
    proof {
        Format::Binary64.lemma_layout();
    }
    int_to_float(i, Format::Binary64)
}

/// Converts an unsigned 32-bit integer to the nearest single-precision pattern.
pub fn __floatunsisf(i: u32) -> (r: u32)
    ensures
        is_conversion_of(Format::Binary32, r as u64, i as int),
{
    proof {
        Format::Binary32.lemma_layout();
    }
    int_to_float(i, Format::Binary32) as u32
}

/// Converts an unsigned 32-bit integer to the nearest double-precision pattern.
pub fn __floatunsidf(i: u32) -> (r: u64)
    ensures
        is_conversion_of(Format::Binary64, r as u64, i as int),
{
    proof {
        Format::Binary64.lemma_layout();
    }
    int_to_float(i, Format::Binary64)
}

/// Converts an unsigned 64-bit integer to the nearest double-precision pattern.
pub fn __floatundidf(i: u64) -> (r: u64)
    ensures
        is_conversion_of(Format::Binary64, r as u64, i as int),
{
    proof {
        Format::Binary64.lemma_layout();
    }
    int_to_float(i, Format::Binary64)
}

/// Converts a single-precision pattern to a signed 32-bit integer, truncating toward zero
/// and saturating at the limits of the integer type.
pub fn __fixsfsi(f: u32) -> (r: i32)
    ensures
        !Format::Binary32.is_nan(f as u64) ==> r as int == saturated_truncation(
            Format::Binary32,
            f as u64,
            i32::MIN as int,
            i32::MAX as int,
        ),
{
    proof {
        Format::Binary32.lemma_layout();
        lemma_int_limits();
    }
    float_to_int(f as u64, Format::Binary32)
}

/// Converts a single-precision pattern to a signed 64-bit integer, truncating toward zero
/// and saturating at the limits of the integer type.
pub fn __fixsfdi(f: u32) -> (r: i64)
    ensures
        !Format::Binary32.is_nan(f as u64) ==> r as int == saturated_truncation(
            Format::Binary32,
            f as u64,
            i64::MIN as int,
            i64::MAX as int,
        ),
{
    proof {
        Format::Binary32.lemma_layout();
        lemma_int_limits();
    }
    float_to_int(f as u64, Format::Binary32)
}

/// Converts a double-precision pattern to a signed 32-bit integer, truncating toward zero
/// and saturating at the limits of the integer type.
pub fn __fixdfsi(f: u64) -> (r: i32)
    ensures
        !Format::Binary64.is_nan(f as u64) ==> r as int == saturated_truncation(
            Format::Binary64,
            f as u64,
            i32::MIN as int,
            i32::MAX as int,
        ),
{
    proof {
        Format::Binary64.lemma_layout();
        lemma_int_limits();
    }
    float_to_int(f, Format::Binary64)
}

/// Converts a double-precision pattern to a signed 64-bit integer, truncating toward zero
/// and saturating at the limits of the integer type.
pub fn __fixdfdi(f: u64) -> (r: i64)
    ensures
        !Format::Binary64.is_nan(f as u64) ==> r as int == saturated_truncation(
            Format::Binary64,
            f as u64,
            i64::MIN as int,
            i64::MAX as int,
        ),
{
    proof {
        Format::Binary64.lemma_layout();
        lemma_int_limits();
    }
    float_to_int(f, Format::Binary64)
}

/// Converts a single-precision pattern to an unsigned 32-bit integer, truncating toward zero
/// and saturating at the limits of the integer type.
pub fn __fixunssfsi(f: u32) -> (r: u32)
    ensures
        !Format::Binary32.is_nan(f as u64) ==> r as int == saturated_truncation(
            Format::Binary32,
            f as u64,
            u32::MIN as int,
            u32::MAX as int,
        ),
{
    proof {
        Format::Binary32.lemma_layout();
        lemma_int_limits();
    }
    float_to_int(f as u64, Format::Binary32)
}

/// Converts a single-precision pattern to an unsigned 64-bit integer, truncating toward zero
/// and saturating at the limits of the integer type.
pub fn __fixunssfdi(f: u32) -> (r: u64)
    ensures
        !Format::Binary32.is_nan(f as u64) ==> r as int == saturated_truncation(
            Format::Binary32,
            f as u64,
            u64::MIN as int,
            u64::MAX as int,
        ),
{
    proof {
        Format::Binary32.lemma_layout();
        lemma_int_limits();
    }
    float_to_int(f as u64, Format::Binary32)
}

/// Converts a double-precision pattern to an unsigned 32-bit integer, truncating toward zero
/// and saturating at the limits of the integer type.
pub fn __fixunsdfsi(f: u64) -> (r: u32)
    ensures
        !Format::Binary64.is_nan(f as u64) ==> r as int == saturated_truncation(
            Format::Binary64,
            f as u64,
            u32::MIN as int,
            u32::MAX as int,
        ),
{
    proof {
        Format::Binary64.lemma_layout();
        lemma_int_limits();
    }
    float_to_int(f, Format::Binary64)
}

/// Converts a double-precision pattern to an unsigned 64-bit integer, truncating toward zero
/// and saturating at the limits of the integer type.
pub fn __fixunsdfdi(f: u64) -> (r: u64)
    ensures
        !Format::Binary64.is_nan(f as u64) ==> r as int == saturated_truncation(
            Format::Binary64,
            f as u64,
            u64::MIN as int,
            u64::MAX as int,
        ),
{
    proof {
        Format::Binary64.lemma_layout();
        lemma_int_limits();
    }
    float_to_int(f, Format::Binary64)
}

/// The integer `v` rounded to `p` significant bits, ties to even.
pub open spec fn round_int(v: int, p: nat) -> int {
    signed_value(v < 0, round_to_precision(magnitude_of(v), p))
}

/// The significand and exponent field of the pattern that a non-zero integer
/// converts to: the rounded magnitude written with exactly `p` bits.
proof fn lemma_conversion_fields(fmt: Format, rep: u64, v: int)
    requires
        is_conversion_of(fmt, rep, v),
        v != 0,
    ensures
        ({
            let a = magnitude_of(v);
            let p = fmt.precision();
            let k = excess_bits(a, p);
            let q = round_half_even(a, k);
            let sd = bit_length(a);
            let m = fmt.significand(rep);
            let x = (fmt.biased_exponent(rep) - 1) as nat;
            let u = fmt.unit_exponent();
            &&& sd <= p ==> m == a * pow2((p - sd) as nat) && x + (p - sd) == u
            &&& sd > p && q < pow2(p) ==> m == q && x == k + u
            &&& sd > p && q == pow2(p) ==> m == pow2((p - 1) as nat) && x == k + u + 1
            &&& sd > p ==> q <= pow2(p)
        }),
{
    let a = magnitude_of(v);
    let p = fmt.precision();
    let k = excess_bits(a, p);
    let q = round_half_even(a, k);
    let sd = bit_length(a);
    let m = fmt.significand(rep);
    let x = (fmt.biased_exponent(rep) - 1) as nat;
    let u = fmt.unit_exponent();
    let d = pow2(fmt.significand_width());
    fmt.lemma_layout();
    lemma_pow2_unfold(p);
    assert(fmt.fraction(rep) < d) by {
        lemma_pow2_pos(fmt.significand_width());
        vstd::arithmetic::div_mod::lemma_mod_bound(rep as int, d as int);
    }
    assert(fmt.scaled_magnitude(rep) == m * pow2(x));
    lemma_bit_length_bounds(a);
    if sd <= p {
        let s = (p - sd) as nat;
        lemma_round_exact(a, p);
        lemma_pow2_pos(s);
        assert(pow2(sd) * pow2(s) == pow2(p)) by {
            lemma_pow2_adds(sd, s);
        }
        assert(pow2((sd - 1) as nat) * pow2(s) == pow2((p - 1) as nat)) by {
            lemma_pow2_adds((sd - 1) as nat, s);
        }
        assert(a * pow2(s) < pow2(p)) by {
            lemma_mul_strict_inequality(a as int, pow2(sd) as int, pow2(s) as int);
        }
        assert(pow2((p - 1) as nat) <= a * pow2(s)) by {
            lemma_mul_inequality(pow2((sd - 1) as nat) as int, a as int, pow2(s) as int);
        }
        // a * 2^u == (a * 2^s) * 2^(u - s) where that fits, else compare via s
        assert((a * pow2(s)) * pow2(u) == (m * pow2(x)) * pow2(s)) by {
            lemma_mul_is_associative(a as int, pow2(s) as int, pow2(u) as int);
            lemma_mul_is_associative(a as int, pow2(u) as int, pow2(s) as int);
            lemma_mul_is_commutative(pow2(s) as int, pow2(u) as int);
        }
        assert((m * pow2(x)) * pow2(s) == m * pow2(x + s)) by {
            lemma_mul_is_associative(m as int, pow2(x) as int, pow2(s) as int);
            lemma_pow2_adds(x, s);
        }
        lemma_normalized_unique(p, a * pow2(s), u, m, x + s);
    } else {
        lemma_split_at_excess(a, p);
        assert(round_to_precision(a, p) * pow2(u) == q * pow2(k + u)) by {
            lemma_mul_is_associative(q as int, pow2(k) as int, pow2(u) as int);
            lemma_pow2_adds(k, u);
        }
        if q < pow2(p) {
            lemma_normalized_unique(p, q, k + u, m, x);
        } else {
            let h = pow2((p - 1) as nat);
            assert(q * pow2(k + u) == h * pow2(k + u + 1)) by {
                lemma_pow2_unfold(k + u + 1);
                lemma_mul_is_associative(h as int, 2, pow2(k + u) as int);
            }
            lemma_pow2_pos((p - 1) as nat);
            lemma_normalized_unique(p, h, k + u + 1, m, x);
        }
    }
}

/// Converting an integer to a pattern and the pattern back gives the integer
/// rounded to the format's precision, limited to the range of the integer
/// type. Where the integer has no more significant bits than the format
/// keeps, that is the integer itself.
pub proof fn lemma_round_trip(fmt: Format, rep: u64, v: int, lo: int, hi: int)
    requires
        is_conversion_of(fmt, rep, v),
    ensures
        !fmt.is_nan(rep),
        !fmt.is_infinite(rep),
        truncated(fmt, rep) == round_int(v, fmt.precision()),
        saturated_truncation(fmt, rep, lo, hi) == clamp(round_int(v, fmt.precision()), lo, hi),
        lo <= round_int(v, fmt.precision()) <= hi ==> saturated_truncation(fmt, rep, lo, hi)
            == round_int(v, fmt.precision()),
        bit_length(magnitude_of(v)) <= fmt.precision() ==> round_int(v, fmt.precision()) == v,
        bit_length(magnitude_of(v)) <= fmt.precision() && lo <= v <= hi ==> saturated_truncation(
            fmt,
            rep,
            lo,
            hi,
        ) == v,
{
    let p = fmt.precision();
    let u = fmt.unit_exponent();
    fmt.lemma_layout();
    lemma_pow2_pos(u);
    if bit_length(magnitude_of(v)) <= p {
        lemma_round_exact(magnitude_of(v), p);
    }
    if v == 0 {
        assert(rep as nat / pow2(fmt.significand_width()) == 0);
        assert(rep as nat / pow2((fmt.width() - 1) as nat) == 0);
        assert(fmt.scaled_magnitude(rep) == 0);
        assert(0nat / pow2(u) == 0) by {
            vstd::arithmetic::div_mod::lemma_basic_div(0, pow2(u) as int);
        }
        assert(bit_length(0) == 0);
    } else {
        let r = round_to_precision(magnitude_of(v), p);
        assert((r * pow2(u)) / pow2(u) == r) by {
            lemma_div_by_multiple(r as int, pow2(u) as int);
        }
    }
}

/// Where the format keeps at least as many significant bits as the integer
/// type is wide, converting any integer of the type to a pattern and the
/// pattern back gives the integer.
pub proof fn lemma_round_trip_lossless(fmt: Format, rep: u64, v: int, width: nat, signed: bool)
    requires
        0 < width <= fmt.precision(),
        int_min(width, signed) <= v <= int_max(width, signed),
        is_conversion_of(fmt, rep, v),
    ensures
        saturated_truncation(fmt, rep, int_min(width, signed), int_max(width, signed)) == v,
{
    lemma_pow2_pos(width);
    lemma_pow2_unfold(width);
    lemma_bit_length_at_most(magnitude_of(v), width);
    lemma_round_trip(fmt, rep, v, int_min(width, signed), int_max(width, signed));
}

/// The value of the finite pattern `rep` in units of 2^-u, where u is the
/// format's unit exponent.
pub open spec fn scaled_value(fmt: Format, rep: u64) -> int {
    signed_value(fmt.sign(rep), fmt.scaled_magnitude(rep))
}

/// The distance between two integers.
pub open spec fn gap(x: int, y: int) -> nat {
    if x <= y {
        (y - x) as nat
    } else {
        (x - y) as nat
    }
}

/// The magnitude of a finite pattern has at most as many significant bits as
/// the format keeps.
proof fn lemma_pattern_representable(fmt: Format, rep: u64)
    ensures
        representable(fmt.scaled_magnitude(rep), fmt.precision()),
{
    let sw = fmt.significand_width();
    let e = fmt.biased_exponent(rep);
    let f = fmt.fraction(rep);
    fmt.lemma_layout();
    lemma2_to64();
    lemma_pow2_pos(sw);
    lemma_pow2_unfold(fmt.precision());
    assert(f < pow2(sw)) by {
        vstd::arithmetic::div_mod::lemma_mod_bound(rep as int, pow2(sw) as int);
    }
    if e == 0 {
        assert(fmt.scaled_magnitude(rep) == f * pow2(0));
    } else {
        assert(fmt.scaled_magnitude(rep) == (f + pow2(sw)) * pow2((e - 1) as nat));
    }
}

/// An integer converts to a pattern nearest to it: no finite pattern of the
/// format has a value that is nearer to the integer.
pub proof fn lemma_conversion_is_nearest(fmt: Format, rep: u64, v: int, other: u64)
    requires
        is_conversion_of(fmt, rep, v),
        fmt.is_finite(other),
    ensures
        gap(scaled_value(fmt, rep), v * pow2(fmt.unit_exponent())) <= gap(
            scaled_value(fmt, other),
            v * pow2(fmt.unit_exponent()),
        ),
{
    let p = fmt.precision();
    let u = fmt.unit_exponent();
    let a = magnitude_of(v);
    let big = a * pow2(u);
    fmt.lemma_layout();
    lemma_pow2_pos(u);
    lemma_round_trip(fmt, rep, v, 0, 0);
    assert(v * pow2(u) == signed_value(v < 0, big)) by {
        if v < 0 {
            lemma_mul_unary_negation(-v, pow2(u) as int);
        }
    }
    if v == 0 {
        assert(rep as nat / pow2(fmt.significand_width()) == 0);
        assert(rep as nat / pow2((fmt.width() - 1) as nat) == 0);
        assert(fmt.scaled_magnitude(rep) == 0);
    } else {
        let s = fmt.scaled_magnitude(other);
        lemma_round_scaled(a, p, u);
        lemma_pattern_representable(fmt, other);
        lemma_round_nearest(big, p, s);
        assert(representable(0, p)) by {
            lemma_pow2_pos(p);
            assert(0nat == 0nat * pow2(0));
        }
        lemma_round_nearest(big, p, 0);
    }
}

/// An integer converts to one pattern only.
pub proof fn lemma_conversion_unique(fmt: Format, r1: u64, r2: u64, v: int)
    requires
        is_conversion_of(fmt, r1, v),
        is_conversion_of(fmt, r2, v),
    ensures
        r1 == r2,
{
    if v != 0 {
        lemma_conversion_fields(fmt, r1, v);
        lemma_conversion_fields(fmt, r2, v);
        assert(fmt.significand(r1) == fmt.significand(r2));
        assert(fmt.biased_exponent(r1) == fmt.biased_exponent(r2));
        assert(fmt.fraction(r1) == fmt.fraction(r2));
        fmt.lemma_pack_of_fields(r1);
        fmt.lemma_pack_of_fields(r2);
    }
}

/// An integer that lies exactly halfway between two neighbouring numbers of
/// the format converts to the one whose last significand bit is zero.
pub proof fn lemma_tie_is_even(fmt: Format, rep: u64, v: int)
    requires
        is_conversion_of(fmt, rep, v),
        is_tie(magnitude_of(v), fmt.precision()),
    ensures
        fmt.fraction(rep) % 2 == 0,
{
    let a = magnitude_of(v);
    let p = fmt.precision();
    let k = excess_bits(a, p);
    fmt.lemma_layout();
    lemma2_to64();
    if k == 0 {
        assert(a % 1 == 0);
    } else {
        assert(bit_length(0) == 0);
        lemma_conversion_fields(fmt, rep, v);
        lemma_round_ties_to_even(a, p);
        lemma_split_at_excess(a, p);
    }
}

/// Saturation: an infinity, and any value beyond a limit of the integer
/// type, converts to that limit; a negative value converts to zero in an
/// unsigned type.
pub proof fn lemma_saturation(fmt: Format, rep: u64, lo: int, hi: int)
    requires
        lo <= 0 <= hi,
        !fmt.is_nan(rep),
    ensures
        lo <= saturated_truncation(fmt, rep, lo, hi) <= hi,
        fmt.is_infinite(rep) && !fmt.sign(rep) ==> saturated_truncation(fmt, rep, lo, hi) == hi,
        fmt.is_infinite(rep) && fmt.sign(rep) ==> saturated_truncation(fmt, rep, lo, hi) == lo,
        !fmt.sign(rep) && fmt.scaled_magnitude(rep) > hi * pow2(fmt.unit_exponent())
            ==> saturated_truncation(fmt, rep, lo, hi) == hi,
        fmt.sign(rep) && fmt.scaled_magnitude(rep) > (-lo) * pow2(fmt.unit_exponent())
            ==> saturated_truncation(fmt, rep, lo, hi) == lo,
        fmt.sign(rep) && lo == 0 ==> saturated_truncation(fmt, rep, lo, hi) == 0,
{
    let u = fmt.unit_exponent();
    let s = fmt.scaled_magnitude(rep);
    lemma_pow2_pos(u);
    if s > hi * pow2(u) {
        assert(s / pow2(u) >= hi) by {
            vstd::arithmetic::div_mod::lemma_div_is_ordered(
                hi * pow2(u),
                s as int,
                pow2(u) as int,
            );
            lemma_div_by_multiple(hi, pow2(u) as int);
        }
    }
    if s > (-lo) * pow2(u) {
        assert(s / pow2(u) >= -lo) by {
            vstd::arithmetic::div_mod::lemma_div_is_ordered(
                (-lo) * pow2(u),
                s as int,
                pow2(u) as int,
            );
            lemma_div_by_multiple(-lo, pow2(u) as int);
        }
    }
}

} // verus!

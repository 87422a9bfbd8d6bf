//! Width and sign descriptors of the fixed-width integer types, and the split
//! of a 64-bit integer into two 32-bit halves.

use vstd::arithmetic::div_mod::lemma_fundamental_div_mod_converse;
use vstd::arithmetic::power2::{lemma2_to64, lemma2_to64_rest, pow2};
use vstd::prelude::*;

verus! {

/// The least value of an integer type of the given width and signedness.
pub open spec fn int_min(width: nat, signed: bool) -> int {
    if signed {
        -(pow2((width - 1) as nat) as int)
    } else {
        0
    }
}

/// The greatest value of an integer type of the given width and signedness.
pub open spec fn int_max(width: nat, signed: bool) -> int {
    if signed {
        pow2((width - 1) as nat) - 1
    } else {
        pow2(width) - 1
    }
}

/// The integer with the given sign and magnitude.
pub open spec fn signed_value(negative: bool, magnitude: nat) -> int {
    if negative {
        -(magnitude as int)
    } else {
        magnitude as int
    }
}

/// The absolute value of an integer.
pub open spec fn magnitude_of(v: int) -> nat {
    if v < 0 {
        (-v) as nat
    } else {
        v as nat
    }
}

/// The number of values a 32-bit half can take.
pub open spec fn half_modulus() -> int {
    0x1_0000_0000
}

/// The limits of the four supported integer types, written out.
pub proof fn lemma_int_limits()
    ensures
        int_min(32, false) == 0,
        int_max(32, false) == 0xffff_ffff,
        int_min(32, true) == -0x8000_0000,
        int_max(32, true) == 0x7fff_ffff,
        int_min(64, false) == 0,
        int_max(64, false) == 0xffff_ffff_ffff_ffff,
        int_min(64, true) == -0x8000_0000_0000_0000,
        int_max(64, true) == 0x7fff_ffff_ffff_ffff,
{
    lemma2_to64();
    lemma2_to64_rest();
}

/// Basic operations on a fixed-width integer type.
///
/// An implementor describes its own width and signedness and converts between
/// its two's-complement values and a sign with a 64-bit magnitude.
pub trait Int: Sized + Copy {
    /// The width of the type in bits.
    spec fn width() -> nat;

    /// Whether the type has a sign bit.
    spec fn is_signed() -> bool;

    /// The mathematical value of `self`.
    spec fn value(self) -> int;

    /// The width is 32 or 64, and every value lies within the type's limits.
    proof fn lemma_value_in_range(self)
        ensures
            Self::width() == 32 || Self::width() == 64,
            int_min(Self::width(), Self::is_signed()) <= self.value() <= int_max(
                Self::width(),
                Self::is_signed(),
            ),
    ;

    /// Returns the width of the type in bits.
    fn bits() -> (r: u32)
        ensures
            r as nat == Self::width(),
            r == 32 || r == 64,
    ;

    /// Returns whether the type has a sign bit.
    fn signed() -> (r: bool)
        ensures
            r == Self::is_signed(),
    ;

    /// Returns the least value of the type.
    fn lowest() -> (r: Self)
        ensures
            r.value() == int_min(Self::width(), Self::is_signed()),
    ;

    /// Returns the greatest value of the type.
    fn highest() -> (r: Self)
        ensures
            r.value() == int_max(Self::width(), Self::is_signed()),
    ;

    /// Returns whether `self` is below zero.
    fn negative(self) -> (r: bool)
        ensures
            r == (self.value() < 0),
    ;

    /// Returns the absolute value of `self`.
    fn magnitude(self) -> (r: u64)
        ensures
            r as nat == magnitude_of(self.value()),
    ;

    /// Returns the value with the given sign and magnitude.
    fn from_sign_magnitude(negative: bool, magnitude: u64) -> (r: Self)
        requires
            int_min(Self::width(), Self::is_signed()) <= signed_value(negative, magnitude as nat)
                <= int_max(Self::width(), Self::is_signed()),
        ensures
            r.value() == signed_value(negative, magnitude as nat),
    ;
}

proof fn lemma_signed_32(i: i32, m: u64)
    by (bit_vector)
    ensures
        i >= 0 ==> (i as u32) == i,
        i < 0 ==> !(i as u32) < 0xffff_ffffu32 && !(i as u32) + 1 == -i,
        !i == -1 - i,
        m < 0x8000_0000 ==> (m as i32) == m,
        m == 0x8000_0000 ==> (m as i32) == -0x8000_0000,
{
}

proof fn lemma_signed_64(i: i64, m: u64)
    by (bit_vector)
    ensures
        i >= 0 ==> (i as u64) == i,
        i < 0 ==> !(i as u64) < 0xffff_ffff_ffff_ffffu64 && !(i as u64) + 1 == -i,
        !i == -1 - i,
        m < 0x8000_0000_0000_0000 ==> (m as i64) == m,
        m == 0x8000_0000_0000_0000 ==> (m as i64) == -0x8000_0000_0000_0000,
{
}

impl Int for u32 {
    open spec fn width() -> nat {
        32
    }

    open spec fn is_signed() -> bool {
        false
    }

    open spec fn value(self) -> int {
        self as int
    }

    proof fn lemma_value_in_range(self) {
        lemma_int_limits();
    }

    fn bits() -> (r: u32) {
        32
    }

    fn signed() -> (r: bool) {
        false
    }

    fn lowest() -> (r: u32) {
        0
    }

    fn highest() -> (r: u32) {
        proof {
            lemma_int_limits();
        }
        0xffff_ffff
    }

    fn negative(self) -> (r: bool) {
        false
    }

    fn magnitude(self) -> (r: u64) {
        self as u64
    }

    fn from_sign_magnitude(negative: bool, magnitude: u64) -> (r: u32) {
        proof {
            lemma_int_limits();
        }
        magnitude as u32
    }
}

impl Int for i32 {
    open spec fn width() -> nat {
        32
    }

    open spec fn is_signed() -> bool {
        true
    }

    open spec fn value(self) -> int {
        self as int
    }

    proof fn lemma_value_in_range(self) {
        lemma_int_limits();
    }

    fn bits() -> (r: u32) {
        32
    }

    fn signed() -> (r: bool) {
        true
    }

    fn lowest() -> (r: i32) {
        proof {
            lemma_int_limits();
        }
        -0x8000_0000
    }

    fn highest() -> (r: i32) {
        proof {
            lemma_int_limits();
        }
        0x7fff_ffff
    }

    fn negative(self) -> (r: bool) {
        self < 0
    }

    fn magnitude(self) -> (r: u64) {
        proof {
            lemma_signed_32(self, 0);
        }
        let mut a = self as u32;
        if self < 0 {
            a = !a + 1;
        }
        a as u64
    }

    fn from_sign_magnitude(negative: bool, magnitude: u64) -> (r: i32) {
        proof {
            lemma_int_limits();
            lemma_signed_32(magnitude as i32, magnitude);
        }
        let r = magnitude as i32;
        if negative {
            (!r).wrapping_add(1)
        } else {
            r
        }
    }
}

impl Int for u64 {
    open spec fn width() -> nat {
        64
    }

    open spec fn is_signed() -> bool {
        false
    }

    open spec fn value(self) -> int {
        self as int
    }

    proof fn lemma_value_in_range(self) {
        lemma_int_limits();
    }

    fn bits() -> (r: u32) {
        64
    }

    fn signed() -> (r: bool) {
        false
    }

    fn lowest() -> (r: u64) {
        0
    }

    fn highest() -> (r: u64) {
        proof {
            lemma_int_limits();
        }
        0xffff_ffff_ffff_ffff
    }

    fn negative(self) -> (r: bool) {
        false
    }

    fn magnitude(self) -> (r: u64) {
        self
    }

    fn from_sign_magnitude(negative: bool, magnitude: u64) -> (r: u64) {
        magnitude
    }
}

impl Int for i64 {
    open spec fn width() -> nat {
        64
    }

    open spec fn is_signed() -> bool {
        true
    }

    open spec fn value(self) -> int {
        self as int
    }

    proof fn lemma_value_in_range(self) {
        lemma_int_limits();
    }

    fn bits() -> (r: u32) {
        64
    }

    fn signed() -> (r: bool) {
        true
    }

    fn lowest() -> (r: i64) {
        proof {
            lemma_int_limits();
        }
        -0x8000_0000_0000_0000
    }

    fn highest() -> (r: i64) {
        proof {
            lemma_int_limits();
        }
        0x7fff_ffff_ffff_ffff
    }

    fn negative(self) -> (r: bool) {
        self < 0
    }

    fn magnitude(self) -> (r: u64) {
        proof {
            lemma_signed_64(self, 0);
        }
        let mut a = self as u64;
        if self < 0 {
            a = !a + 1;
        }
        a
    }

    fn from_sign_magnitude(negative: bool, magnitude: u64) -> (r: i64) {
        proof {
            lemma_int_limits();
            lemma_signed_64(magnitude as i64, magnitude);
        }
        let r = magnitude as i64;
        if negative {
            (!r).wrapping_add(1)
        } else {
            r
        }
    }
}

/// Conversion of a wide integer to and from its two halves.
///
/// The low half is always unsigned; the high half carries the sign of the
/// whole, so a half is never reinterpreted across signedness.
pub trait LargeInt: Sized {
    type LowHalf;

    type HighHalf;

    /// The low half of `self`: its value modulo 2^32.
    spec fn low_half(self) -> Self::LowHalf;

    /// The high half of `self`: its value divided by 2^32, rounded down.
    spec fn high_half(self) -> Self::HighHalf;

    /// The integer whose halves are `low` and `high`.
    spec fn joined(low: Self::LowHalf, high: Self::HighHalf) -> Self;

    /// Splitting an integer and joining the halves gives the integer back.
    proof fn lemma_join_of_split(x: Self)
        ensures
            Self::joined(x.low_half(), x.high_half()) == x,
    ;

    /// Joining two halves and splitting the result gives the halves back.
    proof fn lemma_split_of_join(low: Self::LowHalf, high: Self::HighHalf)
        ensures
            Self::joined(low, high).low_half() == low,
            Self::joined(low, high).high_half() == high,
    ;

    /// Returns the low half of `self`.
    fn low(self) -> (r: Self::LowHalf)
        ensures
            r == self.low_half(),
    ;

    /// Returns the high half of `self`.
    fn high(self) -> (r: Self::HighHalf)
        ensures
            r == self.high_half(),
    ;

    /// Returns the integer whose halves are `low` and `high`.
    fn from_parts(low: Self::LowHalf, high: Self::HighHalf) -> (r: Self)
        ensures
            r == Self::joined(low, high),
    ;
}

proof fn lemma_halves_unsigned(x: u64, low: u32, high: u32)
    by (bit_vector)
    ensures
        x as u32 == x % 0x1_0000_0000,
        (x >> 32) == x / 0x1_0000_0000,
        low as u64 | ((high as u64) << 32) == low + high * 0x1_0000_0000,
{
}

proof fn lemma_halves_signed(x: i64, low: u32, high: i32)
    by (bit_vector)
    ensures
        x == ((x >> 32) as i32) * 0x1_0000_0000 + (x as u32),
        low as i64 | ((high as i64) << 32) == low + high * 0x1_0000_0000,
{
}

impl LargeInt for u64 {
    type LowHalf = u32;

    type HighHalf = u32;

    open spec fn low_half(self) -> u32 {
        (self as int % half_modulus()) as u32
    }

    open spec fn high_half(self) -> u32 {
        (self as int / half_modulus()) as u32
    }

    open spec fn joined(low: u32, high: u32) -> u64 {
        (low + high * half_modulus()) as u64
    }

    proof fn lemma_join_of_split(x: u64) {
    }

    proof fn lemma_split_of_join(low: u32, high: u32) {
    }

    fn low(self) -> (r: u32) {
        proof {
            lemma_halves_unsigned(self, 0, 0);
        }
        self as u32
    }

    fn high(self) -> (r: u32) {
        proof {
            lemma_halves_unsigned(self, 0, 0);
        }
        (self >> 32) as u32
    }

    fn from_parts(low: u32, high: u32) -> (r: u64) {
        proof {
            lemma_halves_unsigned(0, low, high);
        }
        low as u64 | ((high as u64) << 32)
    }
}

impl LargeInt for i64 {
    type LowHalf = u32;

    type HighHalf = i32;

    open spec fn low_half(self) -> u32 {
        (self as int % half_modulus()) as u32
    }

    open spec fn high_half(self) -> i32 {
        (self as int / half_modulus()) as i32
    }

    open spec fn joined(low: u32, high: i32) -> i64 {
        (low + high * half_modulus()) as i64
    }

    proof fn lemma_join_of_split(x: i64) {
    }

    proof fn lemma_split_of_join(low: u32, high: i32) {
    }

    fn low(self) -> (r: u32) {
        proof {
            lemma_halves_signed(self, 0, 0);
            lemma_fundamental_div_mod_converse(
                self as int,
                half_modulus(),
                ((self >> 32) as i32) as int,
                (self as u32) as int,
            );
        }
        self as u32
    }

    fn high(self) -> (r: i32) {
        proof {
            lemma_halves_signed(self, 0, 0);
            lemma_fundamental_div_mod_converse(
                self as int,
                half_modulus(),
                ((self >> 32) as i32) as int,
                (self as u32) as int,
            );
        }
        (self >> 32) as i32
    }

    fn from_parts(low: u32, high: i32) -> (r: i64) {
        proof {
            lemma_halves_signed(0, low, high);
        }
        low as i64 | ((high as i64) << 32)
    }
}

} // verus!

//! IEEE-754 binary interchange formats, handled as bit patterns.
//!
//! A pattern is carried in a `u64`; a 32-bit pattern occupies the low half.
//! Every finite pattern stands for a whole multiple of the format's smallest
//! subnormal, 2^-u with u = [`Format::unit_exponent`], and that multiple,
//! [`Format::scaled_magnitude`], together with [`Format::sign`] is the model
//! that the contracts in this module speak of.

pub mod conv;
pub mod round;

use vstd::arithmetic::power2::{lemma2_to64, lemma2_to64_rest, pow2};
use vstd::prelude::*;

verus! {

/// A binary floating-point format.
#[derive(Clone, Copy, Debug, PartialEq, Eq)]
pub enum Format {
    /// Single precision: 1 sign bit, 8 exponent bits, 23 significand bits.
    Binary32,
    /// Double precision: 1 sign bit, 11 exponent bits, 52 significand bits.
    Binary64,
}

impl Format {
    /// The width of a pattern in bits.
    pub open spec fn width(self) -> nat {
        match self {
            Format::Binary32 => 32,
            Format::Binary64 => 64,
        }
    }

    /// The width of the stored significand field in bits.
    pub open spec fn significand_width(self) -> nat {
        match self {
            Format::Binary32 => 23,
            Format::Binary64 => 52,
        }
    }

    /// The width of the exponent field in bits.
    pub open spec fn exponent_width(self) -> nat {
        (self.width() - self.significand_width() - 1) as nat
    }

    /// The number of significant bits of a normal value, the implicit leading
    /// bit included.
    pub open spec fn precision(self) -> nat {
        self.significand_width() + 1
    }

    /// The exponent field of infinities and NaNs: all ones.
    pub open spec fn max_exponent(self) -> nat {
        (pow2(self.exponent_width()) - 1) as nat
    }

    /// The offset between the exponent field and the exponent it stands for.
    pub open spec fn bias(self) -> nat {
        self.max_exponent() / 2
    }

    /// The exponent u such that every finite value is a whole multiple of
    /// 2^-u.
    pub open spec fn unit_exponent(self) -> nat {
        (self.bias() + self.significand_width() - 1) as nat
    }

    /// Whether `rep` has no bit set above the format's width.
    pub open spec fn is_pattern(self, rep: u64) -> bool {
        (rep as nat) < pow2(self.width())
    }

    /// The sign bit of `rep`.
    pub open spec fn sign(self, rep: u64) -> bool {
        (rep as nat / pow2((self.width() - 1) as nat)) % 2 == 1
    }

    /// The exponent field of `rep`.
    pub open spec fn biased_exponent(self, rep: u64) -> nat {
        (rep as nat / pow2(self.significand_width())) % pow2(self.exponent_width())
    }

    /// The stored significand field of `rep`.
    pub open spec fn fraction(self, rep: u64) -> nat {
        rep as nat % pow2(self.significand_width())
    }

    /// Whether `rep` is a zero, a subnormal or a normal number.
    pub open spec fn is_finite(self, rep: u64) -> bool {
        self.biased_exponent(rep) < self.max_exponent()
    }

    /// Whether `rep` is an infinity.
    pub open spec fn is_infinite(self, rep: u64) -> bool {
        self.biased_exponent(rep) == self.max_exponent() && self.fraction(rep) == 0
    }

    /// Whether `rep` is a NaN.
    pub open spec fn is_nan(self, rep: u64) -> bool {
        self.biased_exponent(rep) == self.max_exponent() && self.fraction(rep) != 0
    }

    /// The significand of `rep` with the implicit leading bit of a normal
    /// number made explicit.
    pub open spec fn significand(self, rep: u64) -> nat {
        if self.biased_exponent(rep) == 0 {
            self.fraction(rep)
        } else {
            self.fraction(rep) + pow2(self.significand_width())
        }
    }

    /// The magnitude of the value of `rep` in units of 2^-u, where u is
    /// [`Format::unit_exponent`]. For a NaN or an infinity the result has no
    /// meaning.
    pub open spec fn scaled_magnitude(self, rep: u64) -> nat {
        let e = self.biased_exponent(rep);
        if e == 0 {
            self.significand(rep)
        } else {
            self.significand(rep) * pow2((e - 1) as nat)
        }
    }

    /// The pattern with the given sign, exponent field and significand field.
    /// Bits of `exponent` and `fraction` that do not fit their field are
    /// dropped.
    pub open spec fn pack(self, negative: bool, exponent: nat, fraction: nat) -> nat {
        (if negative {
            pow2((self.width() - 1) as nat)
        } else {
            0
        }) + (exponent % pow2(self.exponent_width())) * pow2(self.significand_width()) + fraction
            % pow2(self.significand_width())
    }

    /// The layout constants of both formats, written out.
    pub proof fn lemma_layout(self)
        ensures
            self.width() == self.significand_width() + self.exponent_width() + 1,
            self == Format::Binary32 ==> {
                &&& self.exponent_width() == 8
                &&& self.precision() == 24
                &&& self.max_exponent() == 255
                &&& self.bias() == 127
                &&& self.unit_exponent() == 149
                &&& pow2(23) == 0x80_0000
                &&& pow2(8) == 0x100
                &&& pow2(31) == 0x8000_0000
                &&& pow2(32) == 0x1_0000_0000
            },
            self == Format::Binary64 ==> {
                &&& self.exponent_width() == 11
                &&& self.precision() == 53
                &&& self.max_exponent() == 2047
                &&& self.bias() == 1023
                &&& self.unit_exponent() == 1074
                &&& pow2(52) == 0x10_0000_0000_0000
                &&& pow2(11) == 0x800
                &&& pow2(63) == 0x8000_0000_0000_0000
                &&& pow2(64) == 0x1_0000_0000_0000_0000
            },
    {
        lemma2_to64();
        lemma2_to64_rest();
    }

    /// Returns the width of a pattern in bits.
    pub fn bits(self) -> (r: u32)
        ensures
            r as nat == self.width(),
    {
        match self {
            Format::Binary32 => 32,
            Format::Binary64 => 64,
        }
    }

    /// Returns the width of the stored significand field in bits.
    pub fn significand_bits(self) -> (r: u32)
        ensures
            r as nat == self.significand_width(),
    {
        match self {
            Format::Binary32 => 23,
            Format::Binary64 => 52,
        }
    }

    /// Returns the width of the exponent field in bits.
    pub fn exponent_bits(self) -> (r: u32)
        ensures
            r as nat == self.exponent_width(),
    {
        self.bits() - self.significand_bits() - 1
    }

    /// Returns the exponent field of infinities and NaNs.
    pub fn exponent_max(self) -> (r: u32)
        ensures
            r as nat == self.max_exponent(),
    {
        proof {
            self.lemma_layout();
        }
        match self {
            Format::Binary32 => 0xff,
            Format::Binary64 => 0x7ff,
        }
    }

    /// Returns the exponent bias.
    pub fn exponent_bias(self) -> (r: u32)
        ensures
            r as nat == self.bias(),
    {
        self.exponent_max() / 2
    }

    /// Returns the mask of the sign bit.
    pub fn sign_mask(self) -> (r: u64)
        ensures
            r as nat == pow2((self.width() - 1) as nat),
    {
        proof {
            self.lemma_layout();
        }
        match self {
            Format::Binary32 => 0x8000_0000,
            Format::Binary64 => 0x8000_0000_0000_0000,
        }
    }

    /// Returns the mask of the stored significand field.
    pub fn significand_mask(self) -> (r: u64)
        ensures
            r as nat == pow2(self.significand_width()) - 1,
    {
        proof {
            self.lemma_layout();
        }
        match self {
            Format::Binary32 => 0x007f_ffff,
            Format::Binary64 => 0x000f_ffff_ffff_ffff,
        }
    }

    /// Returns the implicit leading bit of a normal significand.
    pub fn implicit_bit(self) -> (r: u64)
        ensures
            r as nat == pow2(self.significand_width()),
    {
        proof {
            self.lemma_layout();
        }
        match self {
            Format::Binary32 => 0x0080_0000,
            Format::Binary64 => 0x0010_0000_0000_0000,
        }
    }

    /// Returns the mask of the exponent field.
    pub fn exponent_mask(self) -> (r: u64)
        ensures
            r as nat == self.max_exponent() * pow2(self.significand_width()),
    {
        proof {
            self.lemma_layout();
        }
        match self {
            Format::Binary32 => 0x7f80_0000,
            Format::Binary64 => 0x7ff0_0000_0000_0000,
        }
    }

    /// The fields of a packed pattern are the fields it was packed from.
    pub proof fn lemma_pack_fields(self, negative: bool, exponent: nat, fraction: nat)
        requires
            exponent < pow2(self.exponent_width()),
            fraction < pow2(self.significand_width()),
        ensures
            self.pack(negative, exponent, fraction) < pow2(self.width()),
            self.is_pattern(self.pack(negative, exponent, fraction) as u64),
            self.sign(self.pack(negative, exponent, fraction) as u64) == negative,
            self.biased_exponent(self.pack(negative, exponent, fraction) as u64) == exponent,
            self.fraction(self.pack(negative, exponent, fraction) as u64) == fraction,
    {
        self.lemma_layout();
        let d = pow2(self.significand_width());
        let h = pow2((self.width() - 1) as nat);
        let s: nat = if negative {
            1
        } else {
            0
        };
        let rep = self.pack(negative, exponent, fraction);
        assert(exponent % pow2(self.exponent_width()) == exponent);
        assert(fraction % d == fraction);
        match self {
            Format::Binary32 => {
                assert(exponent * d == exponent * 0x80_0000);
                assert(rep == s * 0x8000_0000 + exponent * 0x80_0000 + fraction);
                assert(rep / 0x8000_0000 == s);
                assert(rep / 0x80_0000 == s * 0x100 + exponent);
            },
            Format::Binary64 => {
                assert(exponent * d == exponent * 0x10_0000_0000_0000);
                assert(rep == s * 0x8000_0000_0000_0000 + exponent * 0x10_0000_0000_0000
                    + fraction);
                assert(rep / 0x8000_0000_0000_0000 == s);
                assert(rep / 0x10_0000_0000_0000 == s * 0x800 + exponent);
            },
        }
    }

    /// Every pattern is the packing of its own fields.
    pub proof fn lemma_pack_of_fields(self, rep: u64)
        requires
            self.is_pattern(rep),
        ensures
            self.pack(self.sign(rep), self.biased_exponent(rep), self.fraction(rep)) == rep,
    {
        self.lemma_layout();
        let d = pow2(self.significand_width());
        let e = self.biased_exponent(rep);
        match self {
            Format::Binary32 => {
                assert(e * d == e * 0x80_0000);
                assert(e == (rep as nat / 0x80_0000) % 0x100);
                assert(rep as nat / 0x8000_0000 == (rep as nat / 0x80_0000) / 0x100);
            },
            Format::Binary64 => {
                assert(e * d == e * 0x10_0000_0000_0000);
                assert(e == (rep as nat / 0x10_0000_0000_0000) % 0x800);
                assert(rep as nat / 0x8000_0000_0000_0000 == (rep as nat / 0x10_0000_0000_0000)
                    / 0x800);
            },
        }
    }

    /// Packing a normal number: with an exponent field between the two
    /// reserved ones and a significand `m` that has its leading bit set, the
    /// packed pattern is a normal number of magnitude `m * 2^(exponent - 1)`
    /// units.
    pub proof fn lemma_pack_normal(self, negative: bool, exponent: nat, m: nat)
        requires
            0 < exponent < self.max_exponent(),
            pow2(self.significand_width()) <= m < 2 * pow2(self.significand_width()),
        ensures
            self.pack(negative, exponent, m) < pow2(self.width()),
            self.is_pattern(self.pack(negative, exponent, m) as u64),
            self.sign(self.pack(negative, exponent, m) as u64) == negative,
            self.biased_exponent(self.pack(negative, exponent, m) as u64) == exponent,
            self.significand(self.pack(negative, exponent, m) as u64) == m,
            self.scaled_magnitude(self.pack(negative, exponent, m) as u64) == m * pow2(
                (exponent - 1) as nat,
            ),
    {
        self.lemma_layout();
        let d = pow2(self.significand_width());
        let f = (m - d) as nat;
        assert(m % d == f) by {
            vstd::arithmetic::div_mod::lemma_fundamental_div_mod_converse(
                m as int,
                d as int,
                1,
                f as int,
            );
        }
        assert(f % d == f);
        assert(self.pack(negative, exponent, m) == self.pack(negative, exponent, f));
        self.lemma_pack_fields(negative, exponent, f);
    }

    /// Returns the pattern with the given sign, exponent field and
    /// significand field. Bits of `exponent` and `significand` that do not
    /// fit their field are dropped.
    pub fn from_parts(self, sign: bool, exponent: u64, significand: u64) -> (r: u64)
        ensures
            r as nat == self.pack(sign, exponent as nat, significand as nat),
    {
        let s: u64 = if sign {
            1
        } else {
            0
        };
        proof {
            self.lemma_layout();
            lemma_pack_bits(s, exponent, significand);
        }
        (s << (self.bits() - 1)) | ((exponent << self.significand_bits()) & self.exponent_mask())
            | (significand & self.significand_mask())
    }
}

proof fn lemma_pack_bits(s: u64, e: u64, m: u64)
    by (bit_vector)
    requires
        s <= 1,
    ensures
        (s << 31u32) | ((e << 23u32) & 0x7f80_0000) | (m & 0x007f_ffff) == s * 0x8000_0000 + (e
            % 0x100) * 0x80_0000 + m % 0x80_0000,
        (s << 63u32) | ((e << 52u32) & 0x7ff0_0000_0000_0000) | (m & 0x000f_ffff_ffff_ffff) == s
            * 0x8000_0000_0000_0000 + (e % 0x800) * 0x10_0000_0000_0000 + m % 0x10_0000_0000_0000,
{
}

} // verus!

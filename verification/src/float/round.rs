//! Rounding of natural numbers to a given number of significant bits.
//!
//! The rule is round-to-nearest, ties to even: a number that needs more than
//! `p` significant bits is replaced by the nearest number that needs at most
//! `p`, and of two equally near candidates the one whose last kept bit is zero
//! is taken.

use vstd::arithmetic::div_mod::{
    lemma_div_by_multiple,
    lemma_div_denominator,
    lemma_div_multiples_vanish,
    lemma_fundamental_div_mod,
    lemma_mod_multiples_basic,
    lemma_truncate_middle,
};
use vstd::arithmetic::mul::{
    lemma_mul_equality_converse,
    lemma_mul_inequality,
    lemma_mul_is_associative,
    lemma_mul_is_commutative,
    lemma_mul_is_distributive_add_other_way,
    lemma_mul_strict_inequality,
};
use vstd::arithmetic::power2::{
    lemma2_to64,
    lemma_pow2_adds,
    lemma_pow2_pos,
    lemma_pow2_strictly_increases,
    lemma_pow2_unfold,
    pow2,
};
use vstd::prelude::*;

verus! {

/// The number of significant bits of `a`: the least `n` with `a < 2^n`.
pub open spec fn bit_length(a: nat) -> nat
    decreases a,
{
    if a == 0 {
        0
    } else {
        1 + bit_length(a / 2)
    }
}

/// The number of low bits that `a` loses when it is cut to `p` significant
/// bits.
pub open spec fn excess_bits(a: nat, p: nat) -> nat {
    if bit_length(a) <= p {
        0
    } else {
        (bit_length(a) - p) as nat
    }
}

/// `a / 2^k` rounded to the nearest integer, a tie going to the even one.
pub open spec fn round_half_even(a: nat, k: nat) -> nat {
    let d = pow2(k);
    let q = a / d;
    let r = a % d;
    if 2 * r < d || (2 * r == d && q % 2 == 0) {
        q
    } else {
        q + 1
    }
}

/// `a` rounded to `p` significant bits.
pub open spec fn round_to_precision(a: nat, p: nat) -> nat {
    round_half_even(a, excess_bits(a, p)) * pow2(excess_bits(a, p))
}

/// Whether `w` can be written with at most `p` significant bits, that is as
/// `m * 2^e` with `m < 2^p`.
pub open spec fn representable(w: nat, p: nat) -> bool {
    exists|m: nat, e: nat| m < pow2(p) && w == #[trigger] (m * pow2(e))
}

/// Whether `a` lies exactly halfway between the two nearest numbers of `p`
/// significant bits.
pub open spec fn is_tie(a: nat, p: nat) -> bool {
    2 * (a % pow2(excess_bits(a, p))) == pow2(excess_bits(a, p))
}

/// The distance between two natural numbers.
pub open spec fn distance(x: nat, y: nat) -> nat {
    if x <= y {
        (y - x) as nat
    } else {
        (x - y) as nat
    }
}

/// A positive number lies between the two powers of two that its bit length
/// names.
pub proof fn lemma_bit_length_bounds(a: nat)
    requires
        a > 0,
    ensures
        bit_length(a) > 0,
        pow2((bit_length(a) - 1) as nat) <= a < pow2(bit_length(a)),
    decreases a,
{
    lemma2_to64();
    if a == 1 {
        assert(bit_length(1) == 1 + bit_length(0));
    } else {
        let h = a / 2;
        lemma_bit_length_bounds(h);
        lemma_pow2_unfold(bit_length(h));
        lemma_pow2_unfold(bit_length(a));
    }
}

/// The bit length is the only `n` with `2^(n-1) <= a < 2^n`.
pub proof fn lemma_bit_length_unique(a: nat, n: nat)
    requires
        n > 0,
        pow2((n - 1) as nat) <= a < pow2(n),
    ensures
        bit_length(a) == n,
{
    lemma_pow2_pos((n - 1) as nat);
    lemma_bit_length_bounds(a);
    let b = bit_length(a);
    if b < n {
        if b < n - 1 {
            lemma_pow2_strictly_increases(b, (n - 1) as nat);
        }
    } else if b > n {
        if n < b - 1 {
            lemma_pow2_strictly_increases(n, (b - 1) as nat);
        }
    }
}

/// A number below `2^n` has at most `n` significant bits.
pub proof fn lemma_bit_length_at_most(a: nat, n: nat)
    requires
        a < pow2(n),
    ensures
        bit_length(a) <= n,
{
    if a > 0 {
        lemma_bit_length_bounds(a);
        if bit_length(a) > n + 1 {
            lemma_pow2_strictly_increases(n, (bit_length(a) - 1) as nat);
        }
    }
}

/// A number that already fits in `p` significant bits is left as it is.
pub proof fn lemma_round_exact(a: nat, p: nat)
    requires
        bit_length(a) <= p,
    ensures
        round_to_precision(a, p) == a,
{
    lemma2_to64();
    assert(excess_bits(a, p) == 0);
    assert(pow2(0) == 1);
    assert(a / 1 == a && a % 1 == 0);
    assert(round_half_even(a, 0) == a);
}

/// The quotient and remainder of `a` by `2^k` where `k` is the number of
/// excess bits, with the bounds that the bit length gives.
pub proof fn lemma_split_at_excess(a: nat, p: nat)
    requires
        p > 0,
        bit_length(a) > p,
    ensures
        excess_bits(a, p) > 0,
        a == (a / pow2(excess_bits(a, p))) * pow2(excess_bits(a, p)) + a % pow2(excess_bits(a, p)),
        a % pow2(excess_bits(a, p)) < pow2(excess_bits(a, p)),
        pow2((p - 1) as nat) <= a / pow2(excess_bits(a, p)) < pow2(p),
        pow2((p - 1) as nat) <= round_half_even(a, excess_bits(a, p)) <= pow2(p),
{
    let k = excess_bits(a, p);
    let d = pow2(k);
    let q = a / d;
    lemma_pow2_pos(k);
    lemma_pow2_pos(p);
    lemma_bit_length_bounds(a);
    lemma_fundamental_div_mod(a as int, d as int);
    lemma_mul_is_commutative(d as int, q as int);
    assert(pow2((p - 1 + k) as nat) == pow2((p - 1) as nat) * d) by {
        lemma_pow2_adds((p - 1) as nat, k);
    }
    assert(pow2(p + k) == pow2(p) * d) by {
        lemma_pow2_adds(p, k);
    }
    assert(q < pow2(p)) by {
        if q >= pow2(p) {
            lemma_mul_inequality(pow2(p) as int, q as int, d as int);
        }
    }
    assert(pow2((p - 1) as nat) <= q) by {
        if q < pow2((p - 1) as nat) {
            lemma_mul_inequality((q + 1) as int, pow2((p - 1) as nat) as int, d as int);
            lemma_mul_is_distributive_add_other_way(d as int, q as int, 1);
        }
    }
}

/// The rounded number is within half of the dropped range of the number,
/// and sits on one of the two neighbouring multiples of `2^k`.
pub proof fn lemma_round_neighbours(a: nat, p: nat)
    requires
        p > 0,
        bit_length(a) > p,
    ensures
        ({
            let d = pow2(excess_bits(a, p));
            let q = a / d;
            let r = a % d;
            &&& round_to_precision(a, p) == q * d || round_to_precision(a, p) == (q + 1) * d
            &&& round_to_precision(a, p) == q * d ==> distance(round_to_precision(a, p), a) == r && 2
                * r <= d
            &&& round_to_precision(a, p) == (q + 1) * d ==> distance(round_to_precision(a, p), a)
                == d - r && 2 * r >= d
            &&& q * d <= a < (q + 1) * d
        }),
{
    let k = excess_bits(a, p);
    let d = pow2(k);
    let q = a / d;
    let r = a % d;
    lemma_split_at_excess(a, p);
    lemma_pow2_pos(k);
    lemma_mul_is_distributive_add_other_way(d as int, q as int, 1);
    assert((q + 1) * d == q * d + d);
    assert(a == q * d + r);
    if round_half_even(a, k) == q {
        assert(round_to_precision(a, p) == q * d);
        assert(2 * r <= d);
    } else {
        assert(round_half_even(a, k) == q + 1);
        assert(round_to_precision(a, p) == (q + 1) * d);
        assert(2 * r >= d);
    }
}

/// Rounding never moves a number by more than half of `2^k`, where `k` is the
/// number of bits dropped.
pub proof fn lemma_round_error_bound(a: nat, p: nat)
    requires
        p > 0,
    ensures
        2 * distance(round_to_precision(a, p), a) <= pow2(excess_bits(a, p)),
{
    if bit_length(a) <= p {
        lemma_round_exact(a, p);
    } else {
        lemma_round_neighbours(a, p);
    }
}

/// The rounded number has at most `p` significant bits.
pub proof fn lemma_round_representable(a: nat, p: nat)
    requires
        p > 0,
    ensures
        representable(round_to_precision(a, p), p),
{
    lemma2_to64();
    if bit_length(a) <= p {
        lemma_round_exact(a, p);
        if a == 0 {
            lemma_pow2_pos(p);
            assert(0nat == 0nat * pow2(0));
        } else {
            lemma_bit_length_bounds(a);
            if bit_length(a) < p {
                lemma_pow2_strictly_increases(bit_length(a), p);
            }
            assert(a == a * pow2(0));
        }
    } else {
        let k = excess_bits(a, p);
        let m = round_half_even(a, k);
        lemma_split_at_excess(a, p);
        if m < pow2(p) {
            assert(round_to_precision(a, p) == m * pow2(k));
        } else {
            let h = pow2((p - 1) as nat);
            lemma_pow2_unfold(p);
            lemma_pow2_unfold(k + 1);
            lemma_pow2_pos((p - 1) as nat);
            assert(h < pow2(p));
            assert(m * pow2(k) == h * pow2(k + 1)) by {
                lemma_mul_is_associative(h as int, 2, pow2(k) as int);
                lemma_mul_is_commutative(h as int, 2);
            }
            assert(round_to_precision(a, p) == h * pow2(k + 1));
        }
    }
}

/// No number of at most `p` significant bits lies strictly between the two
/// neighbouring multiples of `2^k` around `a`.
proof fn lemma_no_representable_between(a: nat, p: nat, m: nat, e: nat)
    requires
        p > 0,
        bit_length(a) > p,
        m < pow2(p),
    ensures
        ({
            let d = pow2(excess_bits(a, p));
            let q = a / d;
            m * pow2(e) <= q * d || m * pow2(e) >= (q + 1) * d
        }),
{
    let k = excess_bits(a, p);
    let d = pow2(k);
    let q = a / d;
    let w = m * pow2(e);
    lemma_split_at_excess(a, p);
    lemma_pow2_pos(k);
    lemma_pow2_pos(e);
    if e >= k {
        // w is a multiple of d
        let t = m * pow2((e - k) as nat);
        assert(w == t * d) by {
            lemma_pow2_adds((e - k) as nat, k);
            lemma_mul_is_associative(m as int, pow2((e - k) as nat) as int, d as int);
        }
        if t <= q {
            lemma_mul_inequality(t as int, q as int, d as int);
        } else {
            lemma_mul_inequality((q + 1) as int, t as int, d as int);
        }
    } else {
        // w is below 2^(p + k - 1), which is at most q * d
        let h = pow2((p - 1) as nat);
        assert(pow2(e) * 2 <= d) by {
            lemma_pow2_unfold(e + 1);
            if e + 1 < k {
                lemma_pow2_strictly_increases(e + 1, k);
            }
        }
        assert(pow2(p) == 2 * h) by {
            lemma_pow2_unfold(p);
        }
        assert(w <= (2 * h) * pow2(e)) by {
            lemma_mul_inequality(m as int, (2 * h) as int, pow2(e) as int);
        }
        assert((2 * h) * pow2(e) == h * (pow2(e) * 2)) by {
            lemma_mul_is_associative(h as int, 2, pow2(e) as int);
            lemma_mul_is_commutative(h as int, 2);
            lemma_mul_is_commutative(pow2(e) as int, 2);
        }
        assert(h * (pow2(e) * 2) <= h * d) by {
            lemma_mul_inequality((pow2(e) * 2) as int, d as int, h as int);
            lemma_mul_is_commutative(h as int, (pow2(e) * 2) as int);
            lemma_mul_is_commutative(h as int, d as int);
        }
        assert(h * d <= q * d) by {
            lemma_mul_inequality(h as int, q as int, d as int);
        }
    }
}

/// The rounded number is at least as near to `a` as any other number of at
/// most `p` significant bits.
pub proof fn lemma_round_nearest(a: nat, p: nat, w: nat)
    requires
        p > 0,
        representable(w, p),
    ensures
        distance(round_to_precision(a, p), a) <= distance(w, a),
{
    if bit_length(a) <= p {
        lemma_round_exact(a, p);
    } else {
        let (m, e) = choose|m: nat, e: nat| m < pow2(p) && w == #[trigger] (m * pow2(e));
        let d = pow2(excess_bits(a, p));
        let q = a / d;
        let r = a % d;
        let x = round_to_precision(a, p);
        lemma_round_neighbours(a, p);
        lemma_no_representable_between(a, p, m, e);
        lemma_split_at_excess(a, p);
        lemma_mul_is_distributive_add_other_way(d as int, q as int, 1);
        assert((q + 1) * d == q * d + d);
        if w <= q * d {
            assert(distance(w, a) >= r);
        } else {
            assert(distance(w, a) >= d - r);
        }
        if x == q * d {
            assert(distance(x, a) == r);
        } else {
            assert(distance(x, a) == d - r);
        }
    }
}

/// On a tie the multiple of `2^k` that is chosen is the even one.
pub proof fn lemma_round_ties_to_even(a: nat, p: nat)
    requires
        is_tie(a, p),
    ensures
        round_half_even(a, excess_bits(a, p)) % 2 == 0,
{
    let d = pow2(excess_bits(a, p));
    let q = a / d;
    let r = a % d;
    lemma_pow2_pos(excess_bits(a, p));
    assert(2 * r == d);
    if q % 2 == 0 {
        assert(round_half_even(a, excess_bits(a, p)) == q);
    } else {
        assert(round_half_even(a, excess_bits(a, p)) == q + 1);
        assert((q + 1) % 2 == 0);
    }
}

/// Where two numbers of at most `p` significant bits are equally near to `a`,
/// `a` is a tie.
pub proof fn lemma_two_nearest_is_tie(a: nat, p: nat, w: nat)
    requires
        p > 0,
        representable(w, p),
        w != round_to_precision(a, p),
        distance(w, a) == distance(round_to_precision(a, p), a),
    ensures
        is_tie(a, p),
{
    if bit_length(a) <= p {
        lemma_round_exact(a, p);
    } else {
        let (m, e) = choose|m: nat, e: nat| m < pow2(p) && w == #[trigger] (m * pow2(e));
        let d = pow2(excess_bits(a, p));
        let q = a / d;
        let r = a % d;
        let x = round_to_precision(a, p);
        lemma_round_neighbours(a, p);
        lemma_no_representable_between(a, p, m, e);
        lemma_split_at_excess(a, p);
        lemma_mul_is_distributive_add_other_way(d as int, q as int, 1);
        assert((q + 1) * d == q * d + d);
        if w <= q * d {
            assert(distance(w, a) >= r);
        } else {
            assert(distance(w, a) >= d - r);
        }
        if x == q * d {
            assert(distance(x, a) == r);
        } else {
            assert(distance(x, a) == d - r);
        }
    }
}

/// Two significands of exactly `p` bits cannot give the same number under
/// different exponents.
proof fn lemma_exponents_agree(p: nat, s1: nat, x: nat, s2: nat, y: nat)
    requires
        p > 0,
        pow2((p - 1) as nat) <= s1 < pow2(p),
        pow2((p - 1) as nat) <= s2 < pow2(p),
        s1 * pow2(x) == s2 * pow2(y),
    ensures
        x <= y,
{
    lemma_pow2_unfold(p);
    lemma_pow2_pos(y);
    if x > y {
        let z = (x - y) as nat;
        assert(pow2(x) == pow2(z) * pow2(y)) by {
            lemma_pow2_adds(z, y);
        }
        assert(s1 * pow2(x) == (s1 * pow2(z)) * pow2(y)) by {
            lemma_mul_is_associative(s1 as int, pow2(z) as int, pow2(y) as int);
        }
        assert(s1 * pow2(z) == s2) by {
            lemma_mul_is_commutative((s1 * pow2(z)) as int, pow2(y) as int);
            lemma_mul_is_commutative(s2 as int, pow2(y) as int);
            lemma_mul_equality_converse(pow2(y) as int, (s1 * pow2(z)) as int, s2 as int);
        }
        assert(pow2(z) >= 2) by {
            lemma_pow2_unfold(z);
            lemma_pow2_pos((z - 1) as nat);
        }
        assert(s1 * pow2(z) >= s1 * 2) by {
            lemma_mul_inequality(2, pow2(z) as int, s1 as int);
            lemma_mul_is_commutative(s1 as int, pow2(z) as int);
        }
    }
}

/// A number has only one writing as `s * 2^x` with a significand `s` of
/// exactly `p` bits.
pub proof fn lemma_normalized_unique(p: nat, s1: nat, x: nat, s2: nat, y: nat)
    requires
        p > 0,
        pow2((p - 1) as nat) <= s1 < pow2(p),
        pow2((p - 1) as nat) <= s2 < pow2(p),
        s1 * pow2(x) == s2 * pow2(y),
    ensures
        s1 == s2,
        x == y,
{
    lemma_exponents_agree(p, s1, x, s2, y);
    lemma_exponents_agree(p, s2, y, s1, x);
    lemma_pow2_pos(x);
    lemma_mul_is_commutative(s1 as int, pow2(x) as int);
    lemma_mul_is_commutative(s2 as int, pow2(x) as int);
    lemma_mul_equality_converse(pow2(x) as int, s1 as int, s2 as int);
}

/// Multiplying by a power of two adds to the bit length.
pub proof fn lemma_bit_length_scaled(a: nat, u: nat)
    requires
        a > 0,
    ensures
        bit_length(a * pow2(u)) == bit_length(a) + u,
{
    let sd = bit_length(a);
    lemma_bit_length_bounds(a);
    lemma_pow2_pos(u);
    assert(pow2((sd - 1) as nat) * pow2(u) == pow2((sd - 1 + u) as nat)) by {
        lemma_pow2_adds((sd - 1) as nat, u);
    }
    assert(pow2(sd) * pow2(u) == pow2(sd + u)) by {
        lemma_pow2_adds(sd, u);
    }
    assert(pow2((sd - 1) as nat) * pow2(u) <= a * pow2(u)) by {
        lemma_mul_inequality(pow2((sd - 1) as nat) as int, a as int, pow2(u) as int);
    }
    assert(a * pow2(u) < pow2(sd) * pow2(u)) by {
        lemma_mul_strict_inequality(a as int, pow2(sd) as int, pow2(u) as int);
    }
    lemma_bit_length_unique(a * pow2(u), sd + u);
}

/// Rounding commutes with multiplying by a power of two.
pub proof fn lemma_round_scaled(a: nat, p: nat, u: nat)
    requires
        p > 0,
    ensures
        round_to_precision(a * pow2(u), p) == round_to_precision(a, p) * pow2(u),
{
    let big = a * pow2(u);
    lemma_pow2_pos(u);
    if a == 0 {
        assert(big == 0) by {
            lemma_mul_is_commutative(a as int, pow2(u) as int);
        }
        assert(bit_length(0) == 0);
        lemma_round_exact(0, p);
        assert(0 * pow2(u) == 0);
    } else {
        let sd = bit_length(a);
        lemma_bit_length_scaled(a, u);
        if sd > p {
            let k = excess_bits(a, p);
            let d = pow2(k);
            let dd = pow2(k + u);
            lemma_pow2_pos(k);
            assert(dd == pow2(u) * d) by {
                lemma_pow2_adds(u, k);
            }
            assert(excess_bits(big, p) == k + u);
            assert(big == pow2(u) * a) by {
                lemma_mul_is_commutative(a as int, pow2(u) as int);
            }
            assert(big / dd == a / d) by {
                lemma_div_denominator(big as int, pow2(u) as int, d as int);
                lemma_div_multiples_vanish(a as int, pow2(u) as int);
            }
            assert(big % dd == pow2(u) * (a % d)) by {
                lemma_truncate_middle(a as int, pow2(u) as int, d as int);
            }
            let r = a % d;
            assert(2 * (pow2(u) * r) == pow2(u) * (2 * r)) by {
                lemma_mul_is_associative(2, pow2(u) as int, r as int);
                lemma_mul_is_associative(pow2(u) as int, 2, r as int);
            }
            assert((2 * r < d) == (pow2(u) * (2 * r) < pow2(u) * d)) by {
                if 2 * r < d {
                    lemma_mul_strict_inequality((2 * r) as int, d as int, pow2(u) as int);
                } else {
                    lemma_mul_inequality(d as int, (2 * r) as int, pow2(u) as int);
                }
                lemma_mul_is_commutative(pow2(u) as int, (2 * r) as int);
                lemma_mul_is_commutative(pow2(u) as int, d as int);
            }
            assert((2 * r == d) == (pow2(u) * (2 * r) == pow2(u) * d)) by {
                if 2 * r != d {
                    if 2 * r < d {
                        lemma_mul_strict_inequality((2 * r) as int, d as int, pow2(u) as int);
                    } else {
                        lemma_mul_strict_inequality(d as int, (2 * r) as int, pow2(u) as int);
                    }
                    lemma_mul_is_commutative(pow2(u) as int, (2 * r) as int);
                    lemma_mul_is_commutative(pow2(u) as int, d as int);
                }
            }
            assert(round_half_even(big, k + u) == round_half_even(a, k));
            assert(round_half_even(a, k) * dd == (round_half_even(a, k) * d) * pow2(u)) by {
                lemma_mul_is_associative(round_half_even(a, k) as int, d as int, pow2(u) as int);
                lemma_mul_is_commutative(d as int, pow2(u) as int);
            }
        } else {
            lemma_round_exact(a, p);
            if sd + u > p {
                // the bits that are dropped are all zero
                let k = (sd + u - p) as nat;
                let d = pow2(k);
                let rest = pow2((u - k) as nat);
                lemma_pow2_pos(k);
                assert(pow2(u) == rest * d) by {
                    lemma_pow2_adds((u - k) as nat, k);
                }
                assert(big == (a * rest) * d) by {
                    lemma_mul_is_associative(a as int, rest as int, d as int);
                }
                assert(big / d == a * rest) by {
                    lemma_div_by_multiple((a * rest) as int, d as int);
                }
                assert(big % d == 0) by {
                    lemma_mod_multiples_basic((a * rest) as int, d as int);
                }
                assert(excess_bits(big, p) == k);
                assert(round_half_even(big, k) == a * rest);
            } else {
                lemma_round_exact(big, p);
            }
        }
    }
}

} // verus!

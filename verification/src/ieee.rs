//! Order and finiteness of floating-point numbers, decided on their bits in the
//! IEEE 754 binary formats.
use vstd::arithmetic::div_mod::{lemma_fundamental_div_mod, lemma_fundamental_div_mod_converse};
use vstd::arithmetic::power2::{lemma2_to64, lemma_pow2_pos, lemma_pow2_unfold, pow2};
use vstd::prelude::*;

verus! {

/// The magnitude of a number as a multiple of the smallest positive one. `u` is the
/// number without its sign: an exponent above `p` values of the fraction. Infinity
/// comes after every number, as the next power of two.
pub open spec fn magnitude(u: nat, p: nat) -> nat {
    let exponent = u / p;
    let fraction = u % p;
    if exponent == 0 {
        fraction
    } else {
        (p + fraction) * pow2((exponent - 1) as nat)
    }
}

/// A single-precision number as a multiple of the smallest positive one.
pub open spec fn single_value(bits: u32) -> int {
    if bits < 0x8000_0000 {
        magnitude(bits as nat, 0x80_0000) as int
    } else {
        -magnitude((bits - 0x8000_0000) as nat, 0x80_0000)
    }
}

/// Whether the bits are those of no number, single precision.
pub open spec fn single_is_nan(bits: u32) -> bool {
    bits as int % 0x8000_0000 > 0x7f80_0000
}

/// Whether the bits are those of a finite number, single precision.
pub open spec fn single_is_finite(bits: u32) -> bool {
    (bits as int % 0x8000_0000) < 0x7f80_0000
}

/// Whether `a` is less than `b`, single precision.
pub open spec fn single_lt(a: u32, b: u32) -> bool {
    !single_is_nan(a) && !single_is_nan(b) && single_value(a) < single_value(b)
}

/// A double-precision number as a multiple of the smallest positive one.
pub open spec fn double_value(bits: u64) -> int {
    if bits < 0x8000_0000_0000_0000 {
        magnitude(bits as nat, 0x10_0000_0000_0000) as int
    } else {
        -magnitude((bits - 0x8000_0000_0000_0000) as nat, 0x10_0000_0000_0000)
    }
}

/// Whether the bits are those of no number, double precision.
pub open spec fn double_is_nan(bits: u64) -> bool {
    bits as int % 0x8000_0000_0000_0000 > 0x7ff0_0000_0000_0000
}

/// Whether the bits are those of a finite number, double precision.
pub open spec fn double_is_finite(bits: u64) -> bool {
    (bits as int % 0x8000_0000_0000_0000) < 0x7ff0_0000_0000_0000
}

/// Whether `a` is less than `b`, double precision.
pub open spec fn double_lt(a: u64, b: u64) -> bool {
    !double_is_nan(a) && !double_is_nan(b) && double_value(a) < double_value(b)
}

proof fn lemma_next_is_larger(u: nat, p: nat)
    requires
        p > 0,
    ensures
        magnitude(u, p) < magnitude(u + 1, p),
{
    let e = u / p;
    let m = u % p;
    lemma_fundamental_div_mod(u as int, p as int);
    if m + 1 < p {
        lemma_fundamental_div_mod_converse(
            u as int + 1,
            p as int,
            e as int,
            m as int + 1,
        );
        if e > 0 {
            let k = pow2((e - 1) as nat);
            lemma_pow2_pos((e - 1) as nat);
            assert((p + m) * k < (p + (m + 1)) * k) by (nonlinear_arith)
                requires
                    k > 0,
            ;
        }
    } else {
        assert(u + 1 == p * (e + 1)) by (nonlinear_arith)
            requires
                u == p * e + m,
                m + 1 == p,
        ;
        assert(u + 1 == (e + 1) * p) by (nonlinear_arith)
            requires
                u + 1 == p * (e + 1),
        ;
        lemma_fundamental_div_mod_converse(
            u as int + 1,
            p as int,
            e as int + 1,
            0,
        );
        if e == 0 {
            lemma2_to64();
        } else {
            let k = pow2((e - 1) as nat);
            lemma_pow2_pos((e - 1) as nat);
            lemma_pow2_unfold(e);
            assert((p + m) * k < p * (2 * k)) by (nonlinear_arith)
                requires
                    m < p,
                    k > 0,
            ;
        }
    }
}

proof fn lemma_larger_bits(u: nat, v: nat, p: nat)
    requires
        p > 0,
        u <= v,
    ensures
        u < v ==> magnitude(u, p) < magnitude(v, p),
    decreases v - u,
{
    if u < v {
        lemma_larger_bits(u, (v - 1) as nat, p);
        lemma_next_is_larger((v - 1) as nat, p);
    }
}

/// Magnitudes have the order of their bits.
pub proof fn law_magnitudes_have_the_order_of_their_bits(u: nat, v: nat, p: nat)
    requires
        p > 0,
    ensures
        magnitude(u, p) < magnitude(v, p) <==> u < v,
        magnitude(0, p) == 0,
{
    assert(0nat / p == 0 && 0nat % p == 0) by (nonlinear_arith)
        requires
            p > 0,
    ;
    if u <= v {
        lemma_larger_bits(u, v, p);
    } else {
        lemma_larger_bits(v, u, p);
    }
}

/// Whether `a` is less than `b`, both single-precision numbers given by their bits.
pub fn single_less(a: u32, b: u32) -> (r: bool)
    ensures
        r == single_lt(a, b),
{
    let u: u32 = a % 0x8000_0000;
    let v: u32 = b % 0x8000_0000;
    proof {
        law_magnitudes_have_the_order_of_their_bits(u as nat, v as nat, 0x80_0000);
        law_magnitudes_have_the_order_of_their_bits(v as nat, u as nat, 0x80_0000);
        law_magnitudes_have_the_order_of_their_bits(0, u as nat, 0x80_0000);
        law_magnitudes_have_the_order_of_their_bits(0, v as nat, 0x80_0000);
    }
    if u > 0x7f80_0000 || v > 0x7f80_0000 {
        false
    } else if a < 0x8000_0000 {
        b < 0x8000_0000 && u < v
    } else if b < 0x8000_0000 {
        u > 0 || v > 0
    } else {
        v < u
    }
}

/// Whether a single-precision number is finite.
pub fn single_finite(bits: u32) -> (r: bool)
    ensures
        r == single_is_finite(bits),
{
    bits % 0x8000_0000 < 0x7f80_0000
}

/// Whether `a` is less than `b`, both double-precision numbers given by their bits.
pub fn double_less(a: u64, b: u64) -> (r: bool)
    ensures
        r == double_lt(a, b),
{
    let u: u64 = a % 0x8000_0000_0000_0000;
    let v: u64 = b % 0x8000_0000_0000_0000;
    proof {
        law_magnitudes_have_the_order_of_their_bits(u as nat, v as nat, 0x10_0000_0000_0000);
        law_magnitudes_have_the_order_of_their_bits(v as nat, u as nat, 0x10_0000_0000_0000);
        law_magnitudes_have_the_order_of_their_bits(0, u as nat, 0x10_0000_0000_0000);
        law_magnitudes_have_the_order_of_their_bits(0, v as nat, 0x10_0000_0000_0000);
    }
    if u > 0x7ff0_0000_0000_0000 || v > 0x7ff0_0000_0000_0000 {
        false
    } else if a < 0x8000_0000_0000_0000 {
        b < 0x8000_0000_0000_0000 && u < v
    } else if b < 0x8000_0000_0000_0000 {
        u > 0 || v > 0
    } else {
        v < u
    }
}

/// Whether a double-precision number is finite.
pub fn double_finite(bits: u64) -> (r: bool)
    ensures
        r == double_is_finite(bits),
{
    bits % 0x8000_0000_0000_0000 < 0x7ff0_0000_0000_0000
}

/// A single-precision number by the fields of its bits: with the exponent field at its largest
/// it is infinite or no number; with the field at zero it counts the smallest positive
/// numbers; otherwise each step of the field doubles it. The top bit is its sign.
pub proof fn law_single_value_by_its_fields(bits: u32)
    ensures
        ({
            let (e, f) = (bits as int / 0x80_0000 % 0x100, bits as int % 0x80_0000);
            let size = if bits < 0x8000_0000 {
                single_value(bits)
            } else {
                -single_value(bits)
            };
            &&& single_is_finite(bits) <==> e < 0x100 - 1
            &&& single_is_nan(bits) <==> e == 0x100 - 1 && f > 0
            &&& e == 0 ==> size == f
            &&& e > 0 ==> size == (0x80_0000 + f) * pow2((e - 1) as nat)
        }),
{
}

/// Numbers are ordered as their bits are, below zero the other way round; zero has two
/// signs and one place, and what is no number has none.
pub proof fn law_single_order_is_that_of_the_bits(a: u32, b: u32)
    ensures
        ({
            let (u, v) = (a as int % 0x8000_0000, b as int % 0x8000_0000);
            let (i, j) = (
                if a < 0x8000_0000 {
                    u
                } else {
                    -u
                },
                if b < 0x8000_0000 {
                    v
                } else {
                    -v
                },
            );
            single_lt(a, b) <==> u <= 0x7f80_0000 && v <= 0x7f80_0000 && i < j
        }),
{
    let (u, v) = ((a as int % 0x8000_0000) as nat, (b as int % 0x8000_0000) as nat);
    law_magnitudes_have_the_order_of_their_bits(u, v, 0x80_0000);
    law_magnitudes_have_the_order_of_their_bits(v, u, 0x80_0000);
    law_magnitudes_have_the_order_of_their_bits(0, u, 0x80_0000);
    law_magnitudes_have_the_order_of_their_bits(0, v, 0x80_0000);
}

/// A double-precision number by the fields of its bits: with the exponent field at its largest
/// it is infinite or no number; with the field at zero it counts the smallest positive
/// numbers; otherwise each step of the field doubles it. The top bit is its sign.
pub proof fn law_double_value_by_its_fields(bits: u64)
    ensures
        ({
            let (e, f) = (bits as int / 0x10_0000_0000_0000 % 0x800, bits as int % 0x10_0000_0000_0000);
            let size = if bits < 0x8000_0000_0000_0000 {
                double_value(bits)
            } else {
                -double_value(bits)
            };
            &&& double_is_finite(bits) <==> e < 0x800 - 1
            &&& double_is_nan(bits) <==> e == 0x800 - 1 && f > 0
            &&& e == 0 ==> size == f
            &&& e > 0 ==> size == (0x10_0000_0000_0000 + f) * pow2((e - 1) as nat)
        }),
{
}

/// Numbers are ordered as their bits are, below zero the other way round; zero has two
/// signs and one place, and what is no number has none.
pub proof fn law_double_order_is_that_of_the_bits(a: u64, b: u64)
    ensures
        ({
            let (u, v) = (a as int % 0x8000_0000_0000_0000, b as int % 0x8000_0000_0000_0000);
            let (i, j) = (
                if a < 0x8000_0000_0000_0000 {
                    u
                } else {
                    -u
                },
                if b < 0x8000_0000_0000_0000 {
                    v
                } else {
                    -v
                },
            );
            double_lt(a, b) <==> u <= 0x7ff0_0000_0000_0000 && v <= 0x7ff0_0000_0000_0000 && i < j
        }),
{
    let (u, v) = ((a as int % 0x8000_0000_0000_0000) as nat, (b as int % 0x8000_0000_0000_0000) as nat);
    law_magnitudes_have_the_order_of_their_bits(u, v, 0x10_0000_0000_0000);
    law_magnitudes_have_the_order_of_their_bits(v, u, 0x10_0000_0000_0000);
    law_magnitudes_have_the_order_of_their_bits(0, u, 0x10_0000_0000_0000);
    law_magnitudes_have_the_order_of_their_bits(0, v, 0x10_0000_0000_0000);
}

} // verus!

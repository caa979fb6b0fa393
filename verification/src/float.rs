//! Decisions about binary floating-point numbers of 64 bits, taken on their
//! bit patterns: one sign bit, eleven bits of exponent, fifty-two bits of
//! fraction. Nothing here computes with floating-point numbers; a caller that
//! holds one hands in its bits.

use vstd::prelude::*;
use vstd::arithmetic::div_mod::{lemma_fundamental_div_mod, lemma_small_mod};
use vstd::arithmetic::mul::{lemma_mul_inequality, lemma_mul_is_commutative};
use vstd::arithmetic::power2::{
    lemma2_to64, lemma2_to64_rest, lemma_pow2_pos, lemma_pow2_strictly_increases, pow2,
};
use vstd::bits::{lemma_u64_shl_is_mul, lemma_u64_shr_is_div};
use vstd::string::StringExecFns;
use crate::number::{decimal_text, push_decimal};
use crate::text::push_char;

verus! {

/// Whether the sign bit is set.
pub open spec fn is_negative(bits: u64) -> bool {
    bits >= 0x8000_0000_0000_0000
}

/// The eleven bits of the exponent.
pub open spec fn exponent_field(bits: u64) -> nat {
    (bits as nat / 0x10_0000_0000_0000) % 2048
}

/// The fifty-two bits of the fraction.
pub open spec fn fraction_field(bits: u64) -> nat {
    bits as nat % 0x10_0000_0000_0000
}

/// The bits of a number: neither an infinity nor a NaN.
pub open spec fn is_finite_bits(bits: u64) -> bool {
    exponent_field(bits) != 2047
}

pub open spec fn is_nan_bits(bits: u64) -> bool {
    exponent_field(bits) == 2047 && fraction_field(bits) != 0
}

pub open spec fn is_infinite_bits(bits: u64) -> bool {
    exponent_field(bits) == 2047 && fraction_field(bits) == 0
}

/// The digits of the number as an integer: the fraction, with a leading one
/// before it unless the exponent field is zero.
pub open spec fn significand(bits: u64) -> nat {
    if exponent_field(bits) == 0 {
        fraction_field(bits)
    } else {
        0x10_0000_0000_0000 + fraction_field(bits)
    }
}

/// The magnitude of a number is its significand times two to the power of
/// the exponent field less 1075 (and of -1074 where the field is zero). This
/// is the magnitude where it is a whole number, and `None` for every other
/// number, for the infinities and for NaN.
pub open spec fn whole_magnitude(bits: u64) -> Option<nat> {
    let e = exponent_field(bits);
    let m = significand(bits);
    if e == 2047 {
        None
    } else if e >= 1075 {
        Some(m * pow2((e - 1075) as nat))
    } else {
        let d = pow2(
            (1075 - (if e == 0 {
                1
            } else {
                e
            })) as nat,
        );
        if m % d == 0 {
            Some(m / d)
        } else {
            None
        }
    }
}

/// What a whole number gives as a signed integer of 64 bits: itself where it
/// fits, and the greatest such integer where it is two to the power of 63,
/// the one number that is rounded to when that integer is made a float.
pub open spec fn as_i64_spec(bits: u64) -> Option<i64> {
    match whole_magnitude(bits) {
        Some(m) => if is_negative(bits) {
            if m <= 0x8000_0000_0000_0000 {
                Some((-(m as int)) as i64)
            } else {
                None
            }
        } else {
            if m < 0x8000_0000_0000_0000 {
                Some(m as i64)
            } else if m == 0x8000_0000_0000_0000 {
                Some(i64::MAX)
            } else {
                None
            }
        },
        None => None,
    }
}

/// The text of a float in a JSON document: `null` for what is no number, the
/// digits of a whole number below ten to the power of fifteen, with its sign,
/// and for every other number the text that the caller hands in: the shortest
/// decimal text that is read as this float.
pub open spec fn float_text(bits: u64, shortest: Seq<char>) -> Seq<char> {
    if !is_finite_bits(bits) {
        seq!['n', 'u', 'l', 'l']
    } else {
        match whole_magnitude(bits) {
            Some(m) => if m < 1_000_000_000_000_000 {
                if is_negative(bits) {
                    seq!['-'] + decimal_text(m)
                } else {
                    decimal_text(m)
                }
            } else {
                shortest
            },
            None => shortest,
        }
    }
}

fn exponent(bits: u64) -> (e: u64)
    ensures
        e == exponent_field(bits),
        e < 2048,
{
    assert((bits >> 52) & 0x7ff == (bits / 0x10_0000_0000_0000) % 2048) by (bit_vector);
    (bits >> 52) & 0x7ff
}

fn fraction(bits: u64) -> (f: u64)
    ensures
        f == fraction_field(bits),
        f < 0x10_0000_0000_0000,
{
    assert(bits & 0xf_ffff_ffff_ffff == bits % 0x10_0000_0000_0000) by (bit_vector);
    bits & 0xf_ffff_ffff_ffff
}

/// Whether the bits are those of a NaN.
pub fn is_nan(bits: u64) -> (r: bool)
    ensures
        r == is_nan_bits(bits),
{
    exponent(bits) == 2047 && fraction(bits) != 0
}

/// Whether the bits are those of one of the two infinities.
pub fn is_infinite(bits: u64) -> (r: bool)
    ensures
        r == is_infinite_bits(bits),
{
    exponent(bits) == 2047 && fraction(bits) == 0
}

/// Whether the bits are those of a number.
pub fn is_finite(bits: u64) -> (r: bool)
    ensures
        r == is_finite_bits(bits),
{
    exponent(bits) != 2047
}

proof fn lemma_divides(m: nat, d: nat, q: nat)
    requires
        0 < d,
        q == m / d,
    ensures
        q * d <= m,
        q * d == m <==> m % d == 0,
{
    lemma_fundamental_div_mod(m as int, d as int);
    lemma_mul_is_commutative(q as int, d as int);
}

/// The magnitude of a whole number that is less than two to the power of 64.
pub fn whole_magnitude_u64(bits: u64) -> (r: Option<u64>)
    ensures
        r == match whole_magnitude(bits) {
            Some(m) => if m <= u64::MAX {
                Some(m as u64)
            } else {
                None::<u64>
            },
            None => None::<u64>,
        },
{
    let e = exponent(bits);
    let f = fraction(bits);
    proof {
        lemma2_to64();
        lemma2_to64_rest();
    }
    if e == 2047 {
        return None;
    }
    if e == 0 {
        proof {
            lemma_pow2_strictly_increases(52, 1074);
            lemma_small_mod(f as nat, pow2(1074));
            if f == 0 {
                assert(0nat / pow2(1074) == 0) by (nonlinear_arith)
                    requires
                        pow2(1074) > 0,
                ;
            }
        }
        return if f == 0 {
            Some(0)
        } else {
            None
        };
    }
    let m: u64 = 0x10_0000_0000_0000 + f;
    if e < 1023 {
        proof {
            let sh = (1075 - e) as nat;
            if sh > 53 {
                lemma_pow2_strictly_increases(53, sh);
            }
            lemma_small_mod(m as nat, pow2(sh));
        }
        return None;
    }
    if e < 1075 {
        let sh = 1075 - e;
        let q = m >> sh;
        proof {
            let d = pow2(sh as nat);
            lemma_pow2_pos(sh as nat);
            lemma_u64_shr_is_div(m, sh);
            lemma_divides(m as nat, d, q as nat);
            lemma_u64_shl_is_mul(q, sh);
        }
        if (q << sh) == m {
            Some(q)
        } else {
            None
        }
    } else {
        let k = e - 1075;
        if k <= 11 {
            proof {
                if k < 11 {
                    lemma_pow2_strictly_increases(k as nat, 11);
                }
                lemma_mul_inequality(pow2(k as nat) as int, 0x800, m as int);
                lemma_mul_is_commutative(pow2(k as nat) as int, m as int);
                lemma_u64_shl_is_mul(m, k);
            }
            Some(m << k)
        } else {
            proof {
                if k > 12 {
                    lemma_pow2_strictly_increases(12, k as nat);
                }
                lemma_mul_inequality(0x1000, pow2(k as nat) as int, m as int);
                lemma_mul_is_commutative(pow2(k as nat) as int, m as int);
            }
            None
        }
    }
}

/// Whether the bits are those of a whole number.
pub fn is_whole(bits: u64) -> (r: bool)
    ensures
        r == whole_magnitude(bits) is Some,
{
    let e = exponent(bits);
    if e >= 1075 {
        e != 2047
    } else {
        proof {
            let m = significand(bits);
            let d = pow2(
                (1075 - (if e == 0 {
                    1
                } else {
                    e as int
                })) as nat,
            );
            lemma_pow2_pos(
                (1075 - (if e == 0 {
                    1
                } else {
                    e as int
                })) as nat,
            );
            assert(m / d <= m) by (nonlinear_arith)
                requires
                    d > 0,
            ;
        }
        whole_magnitude_u64(bits).is_some()
    }
}

/// The float as a signed integer of 64 bits.
pub fn as_i64(bits: u64) -> (r: Option<i64>)
    ensures
        r == as_i64_spec(bits),
{
    let negative = bits >= 0x8000_0000_0000_0000;
    match whole_magnitude_u64(bits) {
        Some(m) => {
            if m < 0x8000_0000_0000_0000 {
                if negative {
                    Some(-(m as i64))
                } else {
                    Some(m as i64)
                }
            } else if m == 0x8000_0000_0000_0000 {
                if negative {
                    Some(i64::MIN)
                } else {
                    Some(i64::MAX)
                }
            } else {
                None
            }
        },
        None => None,
    }
}

/// The text of a float in a JSON document. `shortest` is the shortest decimal
/// text that is read as this float; it is used where the float is a number
/// but no whole number below ten to the power of fifteen.
pub fn json_text(bits: u64, shortest: &str) -> (r: String)
    ensures
        r@ == float_text(bits, shortest@),
{
    if !is_finite(bits) {
        let mut out = String::new();
        push_char(&mut out, 'n');
        push_char(&mut out, 'u');
        push_char(&mut out, 'l');
        push_char(&mut out, 'l');
        assert(out@ =~= seq!['n', 'u', 'l', 'l']);
        return out;
    }
    match whole_magnitude_u64(bits) {
        Some(m) => {
            if m < 1_000_000_000_000_000 {
                let mut out = String::new();
                if bits >= 0x8000_0000_0000_0000 {
                    push_char(&mut out, '-');
                }
                push_decimal(&mut out, m);
                assert(out@ =~= float_text(bits, shortest@));
                out
            } else {
                String::from_str(shortest)
            }
        },
        None => String::from_str(shortest),
    }
}

} // verus!

//! Fixed-point numbers. The search adds and orders integers: a number is an
//! `i64` that counts millionths. Callers that hold IEEE 754 doubles hand over
//! their bit patterns (`f64::to_bits`), which are decoded here with integer
//! arithmetic alone, rounding to the nearest millionth.
use vstd::prelude::*;
use vstd::arithmetic::div_mod::lemma_basic_div;
use vstd::arithmetic::div_mod::lemma_small_mod;
use vstd::arithmetic::power2::pow2;
use vstd::arithmetic::power2::lemma2_to64;
use vstd::arithmetic::power2::lemma_pow2_adds;
use vstd::arithmetic::power2::lemma_pow2_pos;
use vstd::arithmetic::power2::lemma_pow2_strictly_increases;
use vstd::arithmetic::power2::lemma_pow2_unfold;

verus! {

/// How many units make one.
pub const UNITS_PER_ONE: i64 = 1_000_000;

/// How many units make one hundredth.
pub const UNITS_PER_HUNDREDTH: i64 = 10_000;

/// Why a double cannot be taken as a number of the search.
#[derive(Clone, Copy, Debug, PartialEq, Eq, Structural)]
pub enum InvalidInput {
    /// It is a NaN or an infinity, which have no place in an order or a sum.
    NotFinite,
    /// Its count of millionths does not fit in an `i64`.
    OutOfRange,
}

/// `n / d` rounded to the nearest integer; a tie goes to the even neighbour.
/// It is meant for `n >= 0` and `d > 0`.
pub open spec fn round_half_even(n: int, d: int) -> int {
    let q = n / d;
    let r = n % d;
    if 2 * r > d || (2 * r == d && q % 2 == 1) {
        q + 1
    } else {
        q
    }
}

/// The sign bit of a double.
pub open spec fn is_negative(bits: u64) -> bool {
    bits >= 0x8000_0000_0000_0000
}

/// The eleven exponent bits of a double.
pub open spec fn exponent_field(bits: u64) -> int {
    ((bits as int) / 0x10_0000_0000_0000) % 0x800
}

/// The fifty-two fraction bits of a double.
pub open spec fn fraction_field(bits: u64) -> int {
    (bits as int) % 0x10_0000_0000_0000
}

/// Neither a NaN nor an infinity.
pub open spec fn is_finite(bits: u64) -> bool {
    exponent_field(bits) != 0x7ff
}

/// The integer significand of a finite double: the fraction bits, with the
/// hidden leading one unless the double is subnormal.
pub open spec fn significand(bits: u64) -> int {
    if exponent_field(bits) == 0 {
        fraction_field(bits)
    } else {
        0x10_0000_0000_0000 + fraction_field(bits)
    }
}

/// The power of two by which the significand is scaled: the magnitude of a
/// finite double is `significand * 2^binary_exponent`.
pub open spec fn binary_exponent(bits: u64) -> int {
    if exponent_field(bits) == 0 {
        -1074
    } else {
        exponent_field(bits) - 1075
    }
}

/// The magnitude of a finite double in millionths, rounded to the nearest
/// integer, a tie to the even one.
pub open spec fn magnitude_in_units(bits: u64) -> int {
    let e = binary_exponent(bits);
    if e >= 0 {
        significand(bits) * UNITS_PER_ONE * pow2(e as nat)
    } else {
        round_half_even(significand(bits) * UNITS_PER_ONE, pow2((-e) as nat) as int)
    }
}

/// The number that a double stands for, or why it stands for none.
pub open spec fn decoded(bits: u64) -> Result<i64, InvalidInput> {
    if !is_finite(bits) {
        Err(InvalidInput::NotFinite)
    } else if magnitude_in_units(bits) > i64::MAX {
        Err(InvalidInput::OutOfRange)
    } else if is_negative(bits) {
        Ok((-magnitude_in_units(bits)) as i64)
    } else {
        Ok(magnitude_in_units(bits) as i64)
    }
}

/// A number rounded to hundredths: the count of hundredths nearest to `x`
/// millionths, a tie to the even count, the sign kept.
pub open spec fn hundredths_of(x: int) -> int {
    if x >= 0 {
        round_half_even(x, UNITS_PER_HUNDREDTH as int)
    } else {
        -round_half_even(-x, UNITS_PER_HUNDREDTH as int)
    }
}

/// Rounding goes to a nearest integer: the rounded quotient, times the
/// divisor, lies within half a divisor of the dividend.
pub proof fn lemma_round_half_even_is_nearest(n: int, d: int)
    requires
        n >= 0,
        d > 0,
    ensures
        -d <= 2 * (round_half_even(n, d) * d - n) <= d,
{
    let q = n / d;
    let r = n % d;
    assert(q * d + r == n && 0 <= r < d) by (nonlinear_arith)
        requires
            q == n / d,
            r == n % d,
            d > 0,
    ;
    assert((q + 1) * d == q * d + d) by (nonlinear_arith);
}

/// A number lies within half a hundredth of its count of hundredths.
pub proof fn lemma_hundredths_is_nearest(x: int)
    ensures
        -UNITS_PER_HUNDREDTH <= 2 * (hundredths_of(x) * UNITS_PER_HUNDREDTH - x)
            <= UNITS_PER_HUNDREDTH,
{
    if x >= 0 {
        lemma_round_half_even_is_nearest(x, UNITS_PER_HUNDREDTH as int);
    } else {
        lemma_round_half_even_is_nearest(-x, UNITS_PER_HUNDREDTH as int);
    }
}

proof fn lemma_pow2_74_75()
    ensures
        pow2(74) == 0x400_0000_0000_0000_0000,
        pow2(75) == 0x800_0000_0000_0000_0000,
{
    lemma2_to64();
    lemma_pow2_adds(64, 10);
    lemma_pow2_adds(64, 11);
}

/// `n / d` rounded to the nearest integer, a tie to the even neighbour.
fn rounded_quotient(n: u128, d: u128) -> (rounded: u128)
    requires
        d > 0,
        n <= 0x200_0000_0000_0000_0000,
        d <= 0x400_0000_0000_0000_0000,
    ensures
        rounded == round_half_even(n as int, d as int),
        rounded <= n,
{
    let q: u128 = n / d;
    let r: u128 = n % d;
    assert(q * d + r == n && q <= n) by (nonlinear_arith)
        requires
            q == n / d,
            r == n % d,
            d > 0,
            n >= 0,
    ;
    if 2 * r > d || (2 * r == d && q % 2 == 1) {
        assert(q + 1 <= n) by (nonlinear_arith)
            requires
                q * d + r == n,
                2 * r >= d,
                d > 0,
                q >= 0,
                r < d,
        ;
        q + 1
    } else {
        q
    }
}

/// Decodes the bit pattern of an IEEE 754 double into a number of the search.
pub fn number_from_bits(bits: u64) -> (number: Result<i64, InvalidInput>)
    ensures
        number == decoded(bits),
{
    let field: u64 = (bits / 0x10_0000_0000_0000) % 0x800;
    let fraction: u64 = bits % 0x10_0000_0000_0000;
    let negative: bool = bits >= 0x8000_0000_0000_0000;
    if field == 0x7ff {
        return Err(InvalidInput::NotFinite);
    }
    // The magnitude of the double is `whole * 2^(field - 1075)`, or
    // `whole * 2^-1074` for a subnormal.
    let whole: u64 = if field == 0 {
        fraction
    } else {
        0x10_0000_0000_0000 + fraction
    };
    if field >= 1075 {
        // At least 2^52 whole ones: far more millionths than an `i64` holds.
        proof {
            let e = (field - 1075) as nat;
            lemma_pow2_pos(e);
            assert(whole * UNITS_PER_ONE * pow2(e) > i64::MAX) by (nonlinear_arith)
                requires
                    whole >= 0x10_0000_0000_0000,
                    UNITS_PER_ONE == 1_000_000,
                    pow2(e) >= 1,
            ;
        }
        return Err(InvalidInput::OutOfRange);
    }
    let shift: u64 = if field == 0 {
        1074
    } else {
        1075 - field
    };
    let scaled: u128 = (whole as u128) * (UNITS_PER_ONE as u128);
    if shift >= 75 {
        // Less than 2^73 divided by at least 2^75: under half a millionth.
        proof {
            lemma_pow2_74_75();
            if shift > 75 {
                lemma_pow2_strictly_increases(75, shift as nat);
            }
            let n = scaled as int;
            let d = pow2(shift as nat) as int;
            lemma_small_mod(n as nat, d as nat);
            lemma_basic_div(n, d);
        }
        return Ok(0);
    }
    let mut divisor: u128 = 1;
    let mut doubled: u64 = 0;
    proof {
        lemma2_to64();
        lemma_pow2_74_75();
    }
    while doubled < shift
        invariant
            doubled <= shift < 75,
            divisor == pow2(doubled as nat),
            pow2(74) == 0x400_0000_0000_0000_0000,
        decreases shift - doubled,
    {
        proof {
            lemma_pow2_unfold((doubled + 1) as nat);
            if doubled + 1 < 74 {
                lemma_pow2_strictly_increases((doubled + 1) as nat, 74);
            }
        }
        divisor = divisor * 2;
        doubled += 1;
    }
    proof {
        lemma_pow2_pos(shift as nat);
        if shift < 74 {
            lemma_pow2_strictly_increases(shift as nat, 74);
        }
    }
    let magnitude: u128 = rounded_quotient(scaled, divisor);
    if magnitude > 0x7fff_ffff_ffff_ffff {
        return Err(InvalidInput::OutOfRange);
    }
    let value: i64 = magnitude as i64;
    if negative {
        Ok(-value)
    } else {
        Ok(value)
    }
}

/// Rounds a number to hundredths.
pub fn to_hundredths(x: i64) -> (hundredths: i64)
    ensures
        hundredths == hundredths_of(x as int),
{
    let magnitude: u128 = if x >= 0 {
        x as u128
    } else {
        (-(x as i128)) as u128
    };
    let rounded: u128 = rounded_quotient(magnitude, UNITS_PER_HUNDREDTH as u128);
    if x >= 0 {
        rounded as i64
    } else {
        -(rounded as i64)
    }
}

/// The numbers that a sequence of doubles stands for, or why the first of them
/// that stands for none does so.
pub open spec fn decoded_all(bits: Seq<u64>) -> Result<Seq<i64>, InvalidInput>
    decreases bits.len(),
{
    if bits.len() == 0 {
        Ok(Seq::empty())
    } else {
        match decoded_all(bits.drop_last()) {
            Err(reason) => Err(reason),
            Ok(front) => match decoded(bits.last()) {
                Err(reason) => Err(reason),
                Ok(number) => Ok(front.push(number)),
            },
        }
    }
}

/// Decodes the bit patterns of IEEE 754 doubles into numbers of the search.
/// The first double that stands for no number is the error.
pub fn numbers_from_bits(bits: &[u64]) -> (numbers: Result<Vec<i64>, InvalidInput>)
    ensures
        match numbers {
            Ok(decoded) => decoded_all(bits@) == Ok::<Seq<i64>, InvalidInput>(decoded@),
            Err(reason) => decoded_all(bits@) == Err::<Seq<i64>, InvalidInput>(reason),
        },
{
    let mut numbers: Vec<i64> = Vec::with_capacity(bits.len());
    let mut k: usize = 0;
    while k < bits.len()
        invariant
            k <= bits.len(),
            decoded_all(bits@.take(k as int)) == Ok::<Seq<i64>, InvalidInput>(numbers@),
        decreases bits.len() - k,
    {
        let ghost longer = bits@.take(k + 1);
        assert(longer.drop_last() =~= bits@.take(k as int));
        match number_from_bits(bits[k]) {
            Ok(number) => {
                numbers.push(number);
            },
            Err(reason) => {
                proof {
                    lemma_decoding_stays_failed(bits@, k + 1);
                }
                return Err(reason);
            },
        }
        k += 1;
    }
    assert(bits@.take(bits.len() as int) =~= bits@);
    Ok(numbers)
}

/// Where the first `upto` doubles cannot be decoded, the whole sequence cannot,
/// for the same reason.
proof fn lemma_decoding_stays_failed(bits: Seq<u64>, upto: int)
    requires
        0 <= upto <= bits.len(),
        decoded_all(bits.take(upto)) is Err,
    ensures
        decoded_all(bits) == decoded_all(bits.take(upto)),
    decreases bits.len() - upto,
{
    if upto < bits.len() {
        assert(bits.take(upto + 1).drop_last() =~= bits.take(upto));
        lemma_decoding_stays_failed(bits, upto + 1);
    } else {
        assert(bits.take(upto) =~= bits);
    }
}

} // verus!

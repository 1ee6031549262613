//! Double-precision numbers by their IEEE 754 bit patterns.

use vstd::arithmetic::div_mod::{
    lemma_fundamental_div_mod, lemma_fundamental_div_mod_converse, lemma_mod_multiples_basic,
};
use vstd::arithmetic::mul::{lemma_mul_inequality, lemma_mul_is_associative};
use vstd::arithmetic::power2::{
    lemma2_to64, lemma2_to64_rest, lemma_pow2_adds, lemma_pow2_pos, lemma_pow2_strictly_increases,
    lemma_pow2_unfold, pow2,
};
use vstd::prelude::*;

use crate::cast::TryCastFrom;

verus! {

/// Two to the power of 52: the weight of the implicit leading bit of a significand.
pub const LEADING_BIT: u64 = 0x10_0000_0000_0000;

/// Two to the power of 63: the weight of the sign bit.
pub const SIGN_BIT: u64 = 0x8000_0000_0000_0000;

/// A double-precision number, as its bit pattern: one bit of sign, eleven of biased exponent and
/// fifty-two of fraction.
#[derive(Clone, Copy, Debug)]
pub struct Double {
    pub bits: u64,
}

impl Double {
    /// Whether the sign bit is set.
    pub open spec fn negative(self) -> bool {
        self.bits >= SIGN_BIT
    }

    /// The biased exponent.
    pub open spec fn exponent(self) -> nat {
        (self.bits as nat / LEADING_BIT as nat) % 2048
    }

    /// The fraction bits.
    pub open spec fn fraction(self) -> nat {
        self.bits as nat % LEADING_BIT as nat
    }

    /// Whether this is a number: neither an infinity nor a NaN.
    pub open spec fn is_finite(self) -> bool {
        self.exponent() < 2047
    }

    /// The significand, as a whole number.
    pub open spec fn significand(self) -> nat {
        if self.exponent() == 0 {
            self.fraction()
        } else {
            self.fraction() + LEADING_BIT as nat
        }
    }

    /// The power of two by which the significand is scaled: a finite magnitude is
    /// `significand * 2^scale`.
    pub open spec fn scale(self) -> int {
        if self.exponent() == 0 {
            -1074
        } else {
            self.exponent() - 1075
        }
    }

    /// The magnitude of a finite number, rounded down to a whole number.
    pub open spec fn whole(self) -> nat {
        if self.scale() >= 0 {
            self.significand() * pow2(self.scale() as nat)
        } else {
            self.significand() / pow2((-self.scale()) as nat)
        }
    }

    /// Whether this is a finite number without a fractional part.
    pub open spec fn is_whole(self) -> bool {
        &&& self.is_finite()
        &&& self.scale() < 0 ==> self.significand() % pow2((-self.scale()) as nat) == 0
    }

    /// A finite number, rounded towards zero.
    pub open spec fn truncated(self) -> int {
        if self.negative() {
            -(self.whole() as int)
        } else {
            self.whole() as int
        }
    }
}

/// A power of two.
fn power_of_two(exponent: u32) -> (power: u128)
    requires
        exponent < 64,
    ensures
        power == pow2(exponent as nat),
{
    let mut power: u128 = 1;
    let mut i: u32 = 0;
    proof {
        lemma2_to64();
    }
    while i < exponent
        invariant
            i <= exponent < 64,
            power == pow2(i as nat),
        decreases exponent - i,
    {
        proof {
            lemma_pow2_unfold((i + 1) as nat);
            lemma2_to64();
            lemma_pow2_strictly_increases((i + 1) as nat, 64);
        }
        power = power * 2;
        i = i + 1;
    }
    power
}

impl Double {
    /// The whole part of the magnitude, and whether nothing is left beside it; `None` for what is
    /// not a number, and for what is above two to the power of 64.
    fn magnitude(self) -> (parts: Option<(u128, bool)>)
        ensures
            match parts {
                Some((whole, exact)) => {
                    &&& self.is_finite()
                    &&& whole == self.whole()
                    &&& exact == self.is_whole()
                    &&& whole <= 0x1_0000_0000_0000_0000
                },
                None => !self.is_finite() || self.whole() > 0x1_0000_0000_0000_0000,
            },
    {
        let exponent: u64 = (self.bits / LEADING_BIT) % 2048;
        let fraction: u64 = self.bits % LEADING_BIT;
        if exponent == 2047 {
            return None;
        }
        let significand: u64 = if exponent == 0 { fraction } else { fraction + LEADING_BIT };
        proof {
            lemma2_to64();
        }
        if exponent < 1075 {
            let shift: u64 = if exponent == 0 { 1074 } else { 1075 - exponent };
            assert(shift == -self.scale());
            if shift > 52 {
                proof {
                    lemma2_to64_rest();
                    if shift > 53 {
                        lemma_pow2_strictly_increases(53, shift as nat);
                    }
                    lemma_pow2_pos(shift as nat);
                    lemma_fundamental_div_mod_converse(
                        significand as int,
                        pow2(shift as nat) as int,
                        0,
                        significand as int,
                    );
                }
                return Some((0, significand == 0));
            }
            let power: u128 = power_of_two(shift as u32);
            proof {
                lemma_pow2_pos(shift as nat);
                lemma_fundamental_div_mod(significand as int, power as int);
            }
            let whole: u128 = significand as u128 / power;
            let exact: bool = significand as u128 % power == 0;
            assert(whole <= significand) by (nonlinear_arith)
                requires
                    whole == significand as u128 / power,
                    power > 0,
            ;
            return Some((whole, exact));
        }
        let shift: u64 = exponent - 1075;
        assert(shift == self.scale());
        if shift > 12 {
            proof {
                lemma_pow2_strictly_increases(12, shift as nat);
                lemma_pow2_unfold(13);
                if shift > 13 {
                    lemma_pow2_strictly_increases(13, shift as nat);
                }
                assert(pow2(13) == 8192);
                lemma_mul_inequality(
                    LEADING_BIT as int,
                    significand as int,
                    pow2(shift as nat) as int,
                );
                assert(LEADING_BIT * pow2(shift as nat) >= LEADING_BIT * 8192) by (nonlinear_arith)
                    requires
                        pow2(shift as nat) >= 8192,
                ;
            }
            return None;
        }
        let power: u128 = power_of_two(shift as u32);
        proof {
            if shift < 12 {
                lemma_pow2_strictly_increases(shift as nat, 12);
            }
            assert(significand * power <= 0x20_0000_0000_0000 * 4096) by (nonlinear_arith)
                requires
                    significand <= 0x20_0000_0000_0000,
                    power <= 4096,
            ;
        }
        let whole: u128 = significand as u128 * power;
        if whole > 0x1_0000_0000_0000_0000 {
            None
        } else {
            Some((whole, true))
        }
    }
}

impl Double {
    /// The number without its fractional part, as [`magnitude`](Self::magnitude) has it; what is
    /// not a number stays as it is.
    pub fn trunc(self) -> (rounded: Double)
        ensures
            self.is_finite() ==> {
                &&& rounded.is_whole()
                &&& rounded.negative() == self.negative()
                &&& rounded.whole() == self.whole()
            },
            !self.is_finite() ==> rounded == self,
    {
        let exponent: u64 = (self.bits / LEADING_BIT) % 2048;
        let fraction: u64 = self.bits % LEADING_BIT;
        if exponent >= 1075 {
            return self;
        }
        proof {
            lemma2_to64();
            lemma2_to64_rest();
        }
        if exponent < 1023 {
            let zero: u64 = if self.bits >= SIGN_BIT { SIGN_BIT } else { 0 };
            let rounded = Double { bits: zero };
            proof {
                let shift = (-self.scale()) as nat;
                lemma_pow2_pos(1074);
                lemma_fundamental_div_mod_converse(0, pow2(1074) as int, 0, 0);
                lemma_pow2_pos(shift);
                if shift > 53 {
                    lemma_pow2_strictly_increases(53, shift);
                }
                lemma_fundamental_div_mod_converse(
                    self.significand() as int,
                    pow2(shift) as int,
                    0,
                    self.significand() as int,
                );
            }
            return rounded;
        }
        let shift: u32 = (1075 - exponent) as u32;
        let power: u128 = power_of_two(shift);
        proof {
            lemma_pow2_pos(shift as nat);
            lemma_fundamental_div_mod(fraction as int, power as int);
        }
        let rest: u64 = (fraction as u128 % power) as u64;
        let rounded = Double { bits: self.bits - rest };
        proof {
            let unit = power as int;
            let quotient = fraction as int / unit;
            let high = pow2((52 - shift) as nat) as int;
            lemma_pow2_adds(shift as nat, (52 - shift) as nat);
            assert(LEADING_BIT == unit * high);
            assert(0 <= quotient) by (nonlinear_arith)
                requires
                    quotient == fraction as int / unit,
                    unit > 0,
            ;
            assert(fraction - rest >= 0) by (nonlinear_arith)
                requires
                    fraction == unit * quotient + rest,
                    unit > 0,
                    quotient >= 0,
            ;
            assert(rounded.bits / LEADING_BIT == self.bits / LEADING_BIT);
            assert(rounded.fraction() == fraction - rest);
            assert(self.significand() == unit * (quotient + high) + rest) by (nonlinear_arith)
                requires
                    self.significand() == fraction + LEADING_BIT,
                    fraction == unit * quotient + rest,
                    LEADING_BIT == unit * high,
            ;
            assert(rounded.significand() == unit * (quotient + high) + 0);
            assert(unit * (quotient + high) == (quotient + high) * unit) by (nonlinear_arith);
            lemma_fundamental_div_mod_converse(
                self.significand() as int,
                unit,
                quotient + high,
                rest as int,
            );
            lemma_fundamental_div_mod_converse(
                rounded.significand() as int,
                unit,
                quotient + high,
                0,
            );
        }
        rounded
    }
}

impl TryCastFrom<Double> for i64 {
    /// Whole numbers from `-2^63` to `2^63` are cast, the last of them to `i64::MAX`.
    open spec fn casts(from: Double, to: Option<i64>) -> bool {
        match to {
            Some(to) => {
                &&& from.is_whole()
                &&& to == from.truncated() || (to == i64::MAX && from.truncated() == i64::MAX + 1)
            },
            None => !from.is_whole() || from.truncated() < i64::MIN || from.truncated() > i64::MAX
                + 1,
        }
    }

    fn try_cast_from(from: Double) -> (to: Option<i64>) {
        match from.magnitude() {
            Some((whole, true)) => {
                if from.bits >= SIGN_BIT {
                    if whole > 0x8000_0000_0000_0000 {
                        None
                    } else {
                        Some((0 - whole as i128) as i64)
                    }
                } else if whole == 0x8000_0000_0000_0000 {
                    Some(i64::MAX)
                } else if whole > 0x8000_0000_0000_0000 {
                    None
                } else {
                    Some(whole as i64)
                }
            },
            _ => None,
        }
    }
}

impl TryCastFrom<Double> for u64 {
    /// Whole numbers from zero to `2^64` are cast, the last of them to `u64::MAX`.
    open spec fn casts(from: Double, to: Option<u64>) -> bool {
        match to {
            Some(to) => {
                &&& from.is_whole()
                &&& to == from.truncated() || (to == u64::MAX && from.truncated() == u64::MAX + 1)
            },
            None => !from.is_whole() || from.truncated() < 0 || from.truncated() > u64::MAX + 1,
        }
    }

    fn try_cast_from(from: Double) -> (to: Option<u64>) {
        match from.magnitude() {
            Some((whole, true)) => {
                if from.bits >= SIGN_BIT {
                    if whole > 0 {
                        None
                    } else {
                        Some(0)
                    }
                } else if whole == 0x1_0000_0000_0000_0000 {
                    Some(u64::MAX)
                } else {
                    Some(whole as u64)
                }
            },
            _ => None,
        }
    }
}

/// A whole double-precision number that reaches `2^top` is a multiple of `2^(top - 52)`.
proof fn lemma_multiple(number: Double, top: nat)
    requires
        number.is_whole(),
        top > 52,
        pow2(top) <= number.whole(),
    ensures
        number.whole() % pow2((top - 52) as nat) == 0,
{
    let significand = number.significand() as int;
    let drop = (top - 52) as nat;
    lemma2_to64();
    lemma2_to64_rest();
    assert(significand < pow2(53));
    if number.scale() >= 0 {
        let scale = number.scale() as nat;
        let unit = pow2(scale) as int;
        lemma_pow2_pos(scale);
        if scale < drop {
            lemma_pow2_adds(53, scale);
            assert(significand * unit < pow2(53) * unit) by (nonlinear_arith)
                requires
                    significand < pow2(53),
                    unit > 0,
            ;
            if 53 + scale < top {
                lemma_pow2_strictly_increases(53 + scale, top);
            }
        } else {
            let high = pow2((scale - drop) as nat) as int;
            let low = pow2(drop) as int;
            lemma_pow2_adds((scale - drop) as nat, drop);
            lemma_mul_is_associative(significand, high, low);
            lemma_pow2_pos(drop);
            lemma_mod_multiples_basic(significand * high, low);
        }
    } else {
        let unit = pow2((-number.scale()) as nat) as int;
        lemma_pow2_pos((-number.scale()) as nat);
        assert(significand / unit <= significand) by (nonlinear_arith)
            requires
                significand >= 0,
                unit > 0,
        ;
        if top > 53 {
            lemma_pow2_strictly_increases(53, top);
        }
    }
}

/// The double-precision number of a sign and a whole magnitude, if there is one.
fn exact(negative: bool, magnitude: u64) -> (number: Option<Double>)
    ensures
        match number {
            Some(number) => {
                &&& number.is_whole()
                &&& number.whole() == magnitude
                &&& number.negative() == negative
            },
            None => forall|number: Double| #[trigger]
                number.is_whole() ==> number.whole() != magnitude,
        },
{
    let sign: u64 = if negative { SIGN_BIT } else { 0 };
    proof {
        lemma2_to64();
        lemma2_to64_rest();
    }
    if magnitude == 0 {
        let number = Double { bits: sign };
        proof {
            lemma_pow2_pos(1074);
            lemma_fundamental_div_mod_converse(0, pow2(1074) as int, 0, 0);
        }
        return Some(number);
    }
    let mut top: u32 = 63;
    let mut power: u64 = SIGN_BIT;
    while power > magnitude
        invariant
            top < 64,
            power == pow2(top as nat),
            0 < magnitude < 2 * power,
        decreases top,
    {
        proof {
            if top > 0 {
                lemma_pow2_unfold(top as nat);
            } else {
                lemma2_to64();
            }
        }
        power = power / 2;
        top = top - 1;
    }
    if top <= 52 {
        let shift: u32 = 52 - top;
        let unit: u128 = power_of_two(shift);
        proof {
            lemma_pow2_adds(top as nat, shift as nat);
            lemma_pow2_pos(shift as nat);
            lemma_mul_inequality(power as int, magnitude as int, unit as int);
            assert(power * unit == LEADING_BIT);
            assert(magnitude * unit < 2 * LEADING_BIT) by (nonlinear_arith)
                requires
                    magnitude < 2 * power,
                    unit > 0,
                    power * unit == LEADING_BIT,
            ;
        }
        let significand: u64 = (magnitude as u128 * unit) as u64;
        let exponent: u64 = top as u64 + 1023;
        let number = Double { bits: sign + exponent * LEADING_BIT + (significand - LEADING_BIT) };
        proof {
            lemma_bits(number, negative, exponent, (significand - LEADING_BIT) as u64);
            lemma_fundamental_div_mod_converse(
                significand as int,
                unit as int,
                magnitude as int,
                0,
            );
            assert(number.significand() == significand);
            assert(number.scale() == -shift);
            if shift == 0 {
                assert(magnitude * unit == magnitude && number.whole() == significand)
                    by (nonlinear_arith)
                    requires
                        unit == 1,
                        number.whole() == significand * unit,
                ;
            }
        }
        Some(number)
    } else {
        let drop: u32 = top - 52;
        let unit: u128 = power_of_two(drop);
        proof {
            lemma_pow2_adds(52, drop as nat);
            lemma_pow2_pos(drop as nat);
            lemma_fundamental_div_mod(magnitude as int, unit as int);
        }
        if magnitude as u128 % unit != 0 {
            proof {
                assert forall|number: Double| #[trigger]
                    number.is_whole() implies number.whole() != magnitude by {
                    if number.whole() == magnitude {
                        lemma_multiple(number, top as nat);
                    }
                }
            }
            return None;
        }
        let significand: u64 = (magnitude as u128 / unit) as u64;
        let exponent: u64 = top as u64 + 1023;
        proof {
            let quotient = magnitude as int / unit as int;
            assert(LEADING_BIT <= quotient < 2 * LEADING_BIT) by (nonlinear_arith)
                requires
                    magnitude == unit * quotient,
                    LEADING_BIT * unit <= magnitude < 2 * (LEADING_BIT * unit),
                    unit > 0,
            ;
        }
        let number = Double { bits: sign + exponent * LEADING_BIT + (significand - LEADING_BIT) };
        proof {
            lemma_bits(number, negative, exponent, (significand - LEADING_BIT) as u64);
            assert(significand * unit == magnitude) by (nonlinear_arith)
                requires
                    magnitude == unit * significand,
            ;
            assert(number.significand() == significand);
            assert(number.scale() == drop);
            assert(number.whole() == significand * pow2(drop as nat));
        }
        Some(number)
    }
}

/// The parts of a bit pattern that was put together from them.
proof fn lemma_bits(number: Double, negative: bool, exponent: u64, fraction: u64)
    requires
        0 < exponent < 2047,
        fraction < LEADING_BIT,
        number.bits == (if negative {
            SIGN_BIT
        } else {
            0
        }) + exponent * LEADING_BIT + fraction,
    ensures
        number.negative() == negative,
        number.exponent() == exponent,
        number.fraction() == fraction,
{
}

impl TryCastFrom<i64> for Double {
    /// Numbers with a double-precision number of the same value are cast to it, and `i64::MAX`
    /// to its successor `2^63`.
    open spec fn casts(from: i64, to: Option<Double>) -> bool {
        match to {
            Some(to) => {
                &&& to.is_whole()
                &&& to.negative() == (from < 0)
                &&& to.truncated() == if from == i64::MAX {
                    i64::MAX + 1
                } else {
                    from as int
                }
            },
            None => from != i64::MAX && forall|number: Double| #[trigger]
                number.is_whole() ==> number.truncated() != from,
        }
    }

    fn try_cast_from(from: i64) -> (to: Option<Double>) {
        if from == i64::MAX {
            let number = Double { bits: 0x43e0_0000_0000_0000 };
            proof {
                lemma_bits(number, false, 1086, 0);
                lemma2_to64();
                assert(number.whole() == LEADING_BIT * pow2(11));
            }
            Some(number)
        } else if from < 0 {
            exact(true, (0 - from as i128) as u64)
        } else {
            exact(false, from as u64)
        }
    }
}

impl TryCastFrom<u64> for Double {
    /// Numbers with a double-precision number of the same value are cast to it, and `u64::MAX`
    /// to its successor `2^64`.
    open spec fn casts(from: u64, to: Option<Double>) -> bool {
        match to {
            Some(to) => {
                &&& to.is_whole()
                &&& !to.negative()
                &&& to.truncated() == if from == u64::MAX {
                    u64::MAX + 1
                } else {
                    from as int
                }
            },
            None => from != u64::MAX && forall|number: Double| #[trigger]
                number.is_whole() ==> number.truncated() != from,
        }
    }

    fn try_cast_from(from: u64) -> (to: Option<Double>) {
        if from == u64::MAX {
            let number = Double { bits: 0x43f0_0000_0000_0000 };
            proof {
                lemma_bits(number, false, 1087, 0);
                lemma2_to64();
                assert(number.whole() == LEADING_BIT * pow2(12));
            }
            Some(number)
        } else {
            exact(false, from)
        }
    }
}

/// No double-precision number is one below `2^63` or one below `2^64`.
proof fn lemma_gaps(number: Double)
    requires
        number.is_whole(),
    ensures
        number.truncated() != i64::MAX,
        number.truncated() != u64::MAX,
{
    lemma2_to64();
    lemma2_to64_rest();
    if number.truncated() == i64::MAX {
        lemma_multiple(number, 62);
        assert(number.whole() == 0x7fff_ffff_ffff_ffff);
        assert((62 - 52) as nat == 10);
        assert(0x7fff_ffff_ffff_ffffnat % 1024 == 1023);
    }
    if number.truncated() == u64::MAX {
        lemma_multiple(number, 63);
        assert(number.whole() == 0xffff_ffff_ffff_ffff);
        assert((63 - 52) as nat == 11);
        assert(0xffff_ffff_ffff_ffffnat % 2048 == 2047);
    }
}

/// An `i64` that can be cast to a double-precision number is cast back to itself.
pub proof fn law_i64_is_cast_back(from: i64, double: Double, back: Option<i64>)
    requires
        <Double as TryCastFrom<i64>>::casts(from, Some(double)),
        <i64 as TryCastFrom<Double>>::casts(double, back),
    ensures
        back == Some(from),
{
}

/// A `u64` that can be cast to a double-precision number is cast back to itself.
pub proof fn law_u64_is_cast_back(from: u64, double: Double, back: Option<u64>)
    requires
        <Double as TryCastFrom<u64>>::casts(from, Some(double)),
        <u64 as TryCastFrom<Double>>::casts(double, back),
    ensures
        back == Some(from),
{
}

/// A double-precision number that can be cast to an `i64` is cast back to the same number. Only
/// the sign of a zero is lost.
pub proof fn law_double_is_cast_back_from_i64(from: Double, to: i64, back: Option<Double>)
    requires
        <i64 as TryCastFrom<Double>>::casts(from, Some(to)),
        <Double as TryCastFrom<i64>>::casts(to, back),
    ensures
        back matches Some(back) && back.is_whole() && back.truncated() == from.truncated(),
{
    lemma_gaps(from);
    assert(from.is_whole());
}

/// A double-precision number that can be cast to a `u64` is cast back to the same number. Only
/// the sign of a zero is lost.
pub proof fn law_double_is_cast_back_from_u64(from: Double, to: u64, back: Option<Double>)
    requires
        <u64 as TryCastFrom<Double>>::casts(from, Some(to)),
        <Double as TryCastFrom<u64>>::casts(to, back),
    ensures
        back matches Some(back) && back.is_whole() && back.truncated() == from.truncated(),
{
    lemma_gaps(from);
    assert(from.is_whole());
}

/// A double-precision number by its sign, its biased exponent and its fraction.
pub open spec fn double_of(negative: bool, exponent: nat, fraction: nat) -> Double {
    Double {
        bits: (exponent * 0x10_0000_0000_0000 + fraction + if negative {
            0x8000_0000_0000_0000nat
        } else {
            0
        }) as u64,
    }
}

/// The parts of a bit pattern.
pub proof fn law_parts_of_a_double(negative: bool, exponent: nat, fraction: nat)
    requires
        exponent < 2048,
        fraction < 0x10_0000_0000_0000,
    ensures
        double_of(negative, exponent, fraction).negative() == negative,
        double_of(negative, exponent, fraction).exponent() == exponent,
        double_of(negative, exponent, fraction).fraction() == fraction,
        double_of(negative, exponent, fraction).is_finite() == (exponent < 2047),
{
    let bits = exponent * 0x10_0000_0000_0000 + fraction + if negative {
        0x8000_0000_0000_0000nat
    } else {
        0
    };
    assert(exponent * 0x10_0000_0000_0000 <= 2047 * 0x10_0000_0000_0000) by (nonlinear_arith)
        requires
            exponent < 2048,
    ;
    assert(bits <= u64::MAX);
    assert(bits % 0x10_0000_0000_0000 == fraction);
    assert(bits / 0x10_0000_0000_0000 == exponent + if negative {
        2048int
    } else {
        0
    });
}

/// The magnitude of a finite number is its significand, with a leading bit unless the exponent is
/// zero, times two to the power of the exponent (at least one) less 1075. Rounded towards zero it
/// is the greatest whole number that is not greater; and the number is whole if they are equal.
pub proof fn law_numbers_are_rounded_towards_zero(negative: bool, exponent: nat, fraction: nat)
    requires
        exponent < 2047,
        fraction < 0x10_0000_0000_0000,
    ensures
        ({
            let number = double_of(negative, exponent, fraction);
            let magnitude = if negative {
                -number.truncated()
            } else {
                number.truncated()
            };
            let scaled = if exponent == 0 {
                fraction * pow2(1)
            } else {
                (0x10_0000_0000_0000nat + fraction) * pow2(exponent)
            };
            &&& magnitude >= 0
            &&& magnitude * pow2(1075) <= scaled < (magnitude + 1) * pow2(1075)
            &&& number.is_whole() <==> magnitude * pow2(1075) == scaled
        }),
{
    let number = double_of(negative, exponent, fraction);
    law_parts_of_a_double(negative, exponent, fraction);
    let significand = number.significand() as int;
    let whole = number.whole() as int;
    let power = if exponent == 0 {
        1nat
    } else {
        exponent
    };
    let scaled = significand * pow2(power);
    let all = pow2(1075) as int;
    lemma_pow2_pos(1075);
    lemma_pow2_pos(power);
    if number.scale() >= 0 {
        let scale = number.scale() as nat;
        lemma_pow2_adds(scale, 1075);
        lemma_mul_is_associative(significand, pow2(scale) as int, all);
        assert(whole * all == scaled);
        assert((whole + 1) * all == whole * all + all) by (nonlinear_arith);
    } else {
        let shift = (-number.scale()) as nat;
        let unit = pow2(shift) as int;
        lemma_pow2_pos(shift);
        lemma_pow2_adds(shift, power);
        lemma_fundamental_div_mod(significand, unit);
        assert(unit * pow2(power) == all);
        let rest = significand % unit;
        vstd::arithmetic::div_mod::lemma_mod_bound(significand, unit);
        assert(whole * all <= scaled < (whole + 1) * all && (whole * all == scaled <==> rest == 0))
            by (nonlinear_arith)
            requires
                significand == unit * whole + rest,
                0 <= rest < unit,
                scaled == significand * pow2(power),
                all == unit * pow2(power),
                pow2(power) > 0,
        ;
    }
}

/// Every double-precision number has such parts.
pub proof fn law_doubles_have_parts(number: Double)
    ensures
        number == double_of(number.negative(), number.exponent(), number.fraction()),
        number.exponent() < 2048,
        number.fraction() < 0x10_0000_0000_0000,
{
    let bits = number.bits as int;
    assert(bits == (bits / 0x10_0000_0000_0000) * 0x10_0000_0000_0000 + bits
        % 0x10_0000_0000_0000);
}

/// Every whole number that fits is cast, to the `i64` or the `u64` that is equal to it, or to the
/// greatest one if it is one more. Nothing else is.
pub proof fn law_whole_numbers_are_cast(from: Double, signed: Option<i64>, unsigned: Option<u64>)
    requires
        <i64 as TryCastFrom<Double>>::casts(from, signed),
        <u64 as TryCastFrom<Double>>::casts(from, unsigned),
    ensures
        signed is Some <==> from.is_whole() && -0x8000_0000_0000_0000 <= from.truncated()
            <= 0x8000_0000_0000_0000,
        signed matches Some(to) ==> to == from.truncated() || (to == 0x7fff_ffff_ffff_ffff
            && from.truncated() == 0x8000_0000_0000_0000),
        unsigned is Some <==> from.is_whole() && 0 <= from.truncated() <= 0x1_0000_0000_0000_0000,
        unsigned matches Some(to) ==> to == from.truncated() || (to == 0xffff_ffff_ffff_ffff
            && from.truncated() == 0x1_0000_0000_0000_0000),
{
}

/// Every integer that a double-precision number is equal to is cast to such a number.
pub proof fn law_integers_are_cast(
    number: Double,
    signed: i64,
    from_signed: Option<Double>,
    unsigned: u64,
    from_unsigned: Option<Double>,
)
    requires
        number.is_whole(),
        number.truncated() == signed || number.truncated() == unsigned,
        <Double as TryCastFrom<i64>>::casts(signed, from_signed),
        <Double as TryCastFrom<u64>>::casts(unsigned, from_unsigned),
    ensures
        number.truncated() == signed ==> (from_signed matches Some(to) && to.is_whole()
            && to.truncated() == signed),
        number.truncated() == unsigned ==> (from_unsigned matches Some(to) && to.is_whole()
            && to.truncated() == unsigned),
{
    lemma_gaps(number);
}

} // verus!

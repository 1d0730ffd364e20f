//! Finite double-precision numbers, read exactly.
//!
//! A [`Number`] holds the bit pattern of a finite IEEE 754 double. Every finite
//! double is an integer multiple of the smallest subnormal, two to the power of
//! minus 1074; [`Number::units`] is that integer, so that ordering, floors and
//! truncations are stated as plain integer arithmetic.

use vstd::arithmetic::div_mod::{
    lemma_fundamental_div_mod, lemma_fundamental_div_mod_converse,
};
use vstd::arithmetic::power2::{
    lemma2_to64, lemma2_to64_rest, lemma_pow2_adds, lemma_pow2_pos, lemma_pow2_strictly_increases, pow2,
};
use vstd::prelude::*;

verus! {

/// The sign bit of the encoding: two to the 63.
pub const SIGN: u64 = 0x8000_0000_0000_0000;

/// One step of the exponent field: two to the 52.
pub const HIDDEN: u64 = 0x10_0000_0000_0000;

/// The exponent field of infinities and of not-a-number patterns.
pub const EXPONENT_LIMIT: u64 = 0x7ff;

/// A finite double-precision number.
#[derive(Clone, Copy, Debug)]
pub struct Number {
    bits: u64,
}

/// The number one, in units of two to the power of minus 1074.
pub open spec fn one() -> int {
    pow2(1074) as int
}

/// The magnitude, in units, that the low 63 bits of an encoding stand for.
pub open spec fn magnitude_units(magnitude: int) -> int {
    let exponent = magnitude / (HIDDEN as int);
    let fraction = magnitude % (HIDDEN as int);
    if exponent == 0 {
        fraction
    } else {
        (HIDDEN + fraction) * pow2((exponent - 1) as nat)
    }
}

/// The value, in units, that an encoding stands for.
pub open spec fn units_of(bits: u64) -> int {
    if bits < SIGN {
        magnitude_units(bits as int)
    } else {
        -magnitude_units(bits - SIGN)
    }
}

/// The absolute value of an integer.
pub open spec fn abs(x: int) -> int {
    if x < 0 {
        -x
    } else {
        x
    }
}

impl Number {
    /// The encoding.
    pub closed spec fn bits(self) -> u64 {
        self.bits
    }

    /// The exact value, in units of two to the power of minus 1074.
    pub open spec fn units(self) -> int {
        units_of(self.bits())
    }

    /// The exponent field is below that of infinities and not-a-number patterns.
    #[verifier::type_invariant]
    pub open spec fn finite(self) -> bool {
        (self.bits() % SIGN) / HIDDEN < EXPONENT_LIMIT
    }

    /// The value is a whole number.
    pub open spec fn whole(self) -> bool {
        self.units() % one() == 0
    }

    /// The number with the given encoding, unless the encoding is that of an
    /// infinity or of a not-a-number pattern.
    pub fn from_bits(bits: u64) -> (r: Option<Number>)
        ensures
            r is Some <==> (bits % SIGN) / HIDDEN < EXPONENT_LIMIT,
            r matches Some(n) ==> n.bits() == bits,
    {
        if (bits % SIGN) / HIDDEN < EXPONENT_LIMIT {
            Some(Number { bits })
        } else {
            None
        }
    }

    /// The encoding of the number.
    pub fn to_bits(self) -> (bits: u64)
        ensures
            bits == self.bits(),
    {
        self.bits
    }

    /// Positive zero.
    pub fn zero() -> (n: Number)
        ensures
            n.bits() == 0,
            n.units() == 0,
    {
        Number { bits: 0 }
    }

    /// One.
    pub fn one() -> (n: Number)
        ensures
            n == counted(1),
            n.units() == one(),
    {
        let n = Number::from_count(1u128);
        assert(nearest_double(1) == 1);
        assert(1 * one() == one());
        n
    }

    /// Minus one.
    pub fn minus_one() -> (n: Number)
        ensures
            n.units() == -one(),
    {
        let bits = SIGN + 1023 * HIDDEN;
        proof {
            assert((bits - SIGN) / (HIDDEN as int) == 1023 && (bits - SIGN) % (HIDDEN as int) == 0);
            assert((bits % SIGN) / HIDDEN == 1023);
            lemma_pow2_adds(52, 1022);
            lemma2_to64();
            lemma2_to64_rest();
        }
        Number { bits }
    }

    /// A rank that orders numbers as their values do; both zeros have rank zero.
    pub closed spec fn rank(self) -> int {
        if self.bits < SIGN {
            self.bits as int
        } else {
            SIGN - self.bits
        }
    }

    fn order_key(self) -> (k: i64)
        ensures
            k == self.rank(),
    {
        if self.bits < SIGN {
            self.bits as i64
        } else {
            -((self.bits - SIGN) as i64)
        }
    }

    /// A rank that orders numbers as their values do and puts a zero with a sign
    /// before one without.
    pub closed spec fn total(self) -> int {
        if self.bits < SIGN {
            self.bits as int
        } else {
            SIGN - 1 - self.bits
        }
    }

    /// The rank that orders numbers and the two zeros.
    pub fn total_key(self) -> (k: i64)
        ensures
            k == self.total(),
    {
        if self.bits < SIGN {
            self.bits as i64
        } else {
            -((self.bits - SIGN) as i64) - 1
        }
    }

    /// Whether this number is below `other`.
    pub fn lt(self, other: Number) -> (b: bool)
        ensures
            b == (self.units() < other.units()),
    {
        proof {
            lemma_rank_orders(self, other);
        }
        self.order_key() < other.order_key()
    }

    /// Whether the two numbers have the same value.
    pub fn same(self, other: Number) -> (b: bool)
        ensures
            b == (self.units() == other.units()),
    {
        proof {
            lemma_rank_orders(self, other);
            lemma_rank_orders(other, self);
        }
        self.order_key() == other.order_key()
    }

    /// Whether the number is zero.
    pub fn is_zero(self) -> (b: bool)
        ensures
            b == (self.units() == 0),
    {
        self.same(Number::zero())
    }

    /// Whether the number is below zero.
    pub fn is_negative(self) -> (b: bool)
        ensures
            b == (self.units() < 0),
    {
        self.lt(Number::zero())
    }

    /// Whether the number is above zero.
    pub fn is_positive(self) -> (b: bool)
        ensures
            b == (self.units() > 0),
    {
        Number::zero().lt(self)
    }

    /// The double nearest to `count`; of two equally near ones, the one with an
    /// even significand. Counts below two to the 53 are exact.
    pub fn from_count(count: u128) -> (n: Number)
        ensures
            n == counted(count as nat),
            n.units() == nearest_double(count as nat) * one(),
            n.bits() < SIGN,
    {
        let n = Number::from_count_by_parts(count);
        proof {
            lemma_counted(count as nat, n);
        }
        n
    }

    fn from_count_by_parts(count: u128) -> (n: Number)
        ensures
            n.units() == nearest_double(count as nat) * one(),
            n.bits() < SIGN,
    {
        if count == 0 {
            assert(0 * one() == 0);
            return Number::zero();
        }
        let l = leading_power(count);
        if l <= 52 {
            let power = power_of_two(l);
            let scale = power_of_two(52 - l);
            proof {
                lemma_exact_encoding(count as nat, l as nat);
                lemma2_to64();
                lemma2_to64_rest();
                lemma_pow2_adds(l as nat, 1);
                if l < 52 {
                    lemma_pow2_strictly_increases((l + 1) as nat, 53);
                }
            }
            let bits = (1023 + l) * HIDDEN + (count as u64 - power) * scale;
            Number { bits }
        } else {
            proof {
                lemma_lead(count as nat, l as nat);
                lemma_lead_bounds(count as nat);
                lemma2_to64();
                lemma2_to64_rest();
                if l > 53 {
                    lemma_pow2_strictly_increases(53, l as nat);
                }
                lemma_pow2_strictly_increases(52, l as nat);
            }
            let (rounded, _) = round_to_53(count);
            let bits = (1023 + l) * HIDDEN + (rounded - HIDDEN);
            proof {
                lemma_quotient_units(bits, (1023 + l) as int, rounded as int);
                lemma_pow2_adds((l - 52) as nat, 1074);
                let d = pow2((l - 52) as nat) as int;
                assert(rounded * (d * one()) == (rounded * d) * one()) by (nonlinear_arith);
            }
            Number { bits }
        }
    }

    /// The magnitude of the number without its fractional part, where a `u128`
    /// holds it.
    pub fn whole_part(self) -> (r: Option<u128>)
        ensures
            match r {
                Some(t) => t == abs(self.units()) / one(),
                None => abs(self.units()) / one() > u128::MAX,
            },
    {
        let magnitude = self.bits % SIGN;
        let exponent = magnitude / HIDDEN;
        let significand = HIDDEN + magnitude % HIDDEN;
        proof {
            lemma_abs_units(self);
            lemma_pow2_pos(1074);
        }
        if exponent < 1023 {
            proof {
                lemma_below_one(magnitude as int);
                lemma_fundamental_div_mod_converse(abs(self.units()), one(), 0, abs(self.units()));
            }
            Some(0)
        } else if exponent <= 1075 {
            proof {
                lemma_mid_range(exponent as int, significand as int);
            }
            Some((significand / power_of_two(1075 - exponent)) as u128)
        } else {
            proof {
                lemma_high_range(exponent as int, significand as int);
                lemma2_to64();
                lemma2_to64_rest();
                lemma_pow2_adds(12, 63);
                lemma_pow2_adds(12, 64);
            }
            if exponent <= 1150 {
                let scale = wide_power_of_two(exponent - 1075);
                proof {
                    if exponent < 1150 {
                        lemma_pow2_strictly_increases((exponent - 1075) as nat, 75);
                    }
                    assert(significand * scale <= 0x1f_ffff_ffff_ffff * 0x800_0000_0000_0000_0000)
                        by (nonlinear_arith)
                        requires
                            0 <= significand <= 0x1f_ffff_ffff_ffff,
                            0 <= scale <= 0x800_0000_0000_0000_0000,
                    ;
                }
                Some(significand as u128 * scale)
            } else {
                proof {
                    let p = pow2((exponent - 1075) as nat) as int;
                    if exponent > 1151 {
                        lemma_pow2_strictly_increases(76, (exponent - 1075) as nat);
                    }
                    assert(significand * p >= HIDDEN * 0x1000_0000_0000_0000_0000) by (nonlinear_arith)
                        requires
                            significand >= HIDDEN,
                            p >= 0x1000_0000_0000_0000_0000,
                    ;
                }
                None
            }
        }
    }

    /// The value as a position from one to `limit`, where its whole part is one.
    pub fn position(self, limit: usize) -> (r: Option<usize>)
        ensures
            match r {
                Some(p) => p == self.units() / one() && 1 <= p <= limit,
                None => !(1 <= self.units() / one() <= limit),
            },
    {
        proof {
            lemma_pow2_pos(1074);
            lemma_floor_by_magnitude(self.units());
        }
        if self.is_negative() {
            return None;
        }
        match self.whole_part() {
            Some(t) => if 1 <= t && t <= limit as u128 {
                Some(t as usize)
            } else {
                None
            },
            None => None,
        }
    }

    /// The fractional part of the magnitude, as a numerator over a power of two.
    pub fn fraction(self) -> (r: (u64, u64))
        ensures
            r.0 < 2 * HIDDEN,
            r.1 <= 1074,
            abs(self.units()) % one() == r.0 * pow2((1074 - r.1) as nat),
    {
        let magnitude = self.bits % SIGN;
        let exponent = magnitude / HIDDEN;
        let significand = HIDDEN + magnitude % HIDDEN;
        proof {
            lemma_abs_units(self);
            lemma_pow2_pos(1074);
            lemma2_to64();
        }
        if exponent < 1023 {
            proof {
                lemma_below_one(magnitude as int);
                lemma_fundamental_div_mod_converse(abs(self.units()), one(), 0, abs(self.units()));
            }
            if exponent == 0 {
                assert(pow2((1074 - 1074) as nat) == 1);
                assert(magnitude * 1 == magnitude);
                (magnitude, 1074)
            } else {
                (significand, 1075 - exponent)
            }
        } else if exponent <= 1075 {
            proof {
                lemma_mid_range(exponent as int, significand as int);
                lemma_pow2_pos((1075 - exponent) as nat);
                lemma_fundamental_div_mod(significand as int, pow2((1075 - exponent) as nat) as int);
            }
            (significand % power_of_two(1075 - exponent), 1075 - exponent)
        } else {
            proof {
                lemma_high_range(exponent as int, significand as int);
                assert(0 * pow2(1074) == 0);
            }
            (0, 0)
        }
    }

    /// Whether the value is a whole number.
    pub fn is_whole(self) -> (b: bool)
        ensures
            b == self.whole(),
    {
        let magnitude = self.bits % SIGN;
        let exponent = magnitude / HIDDEN;
        let significand = HIDDEN + magnitude % HIDDEN;
        proof {
            lemma_abs_units(self);
            lemma_pow2_pos(1074);
            lemma_whole_by_magnitude(self.units());
        }
        if exponent < 1023 {
            proof {
                lemma_below_one(magnitude as int);
                lemma_fundamental_div_mod_converse(abs(self.units()), one(), 0, abs(self.units()));
                if magnitude > 0 {
                    lemma_magnitude_increases(0, magnitude as int);
                }
            }
            magnitude == 0
        } else if exponent <= 1075 {
            proof {
                lemma_mid_range(exponent as int, significand as int);
            }
            significand % power_of_two(1075 - exponent) == 0
        } else {
            proof {
                lemma_high_range(exponent as int, significand as int);
            }
            true
        }
    }

    /// The largest whole number at or below the value, or the nearest `i64`
    /// where it is out of that type's range.
    pub fn floored(self) -> (r: i64)
        ensures
            r == clamp_i64(self.units() / one()),
    {
        let part = self.whole_part();
        let whole = self.is_whole();
        let negative = self.is_negative();
        proof {
            lemma_pow2_pos(1074);
            lemma_floor_by_magnitude(self.units());
        }
        match part {
            None => if negative {
                i64::MIN
            } else {
                i64::MAX
            },
            Some(t) => if !negative {
                if t <= 0x7fff_ffff_ffff_ffff {
                    t as i64
                } else {
                    i64::MAX
                }
            } else if whole {
                if t <= 0x7fff_ffff_ffff_ffff {
                    -(t as i64)
                } else {
                    i64::MIN
                }
            } else if t < 0x7fff_ffff_ffff_ffff {
                -(t as i64) - 1
            } else {
                i64::MIN
            },
        }
    }

    /// The largest whole number at or below the value, as a number. A whole
    /// number is handed back as it is, with the sign of a zero kept.
    pub fn floor(self) -> (n: Number)
        ensures
            n.units() == (self.units() / one()) * one(),
            self.whole() ==> n == self,
            !self.whole() && n.units() == 0 ==> n.bits() == 0,
    {
        proof {
            use_type_invariant(&self);
        }
        if self.is_whole() {
            proof {
                lemma_pow2_pos(1074);
                lemma_fundamental_div_mod(self.units(), one());
                assert((self.units() / one()) * one() == one() * (self.units() / one()))
                    by (nonlinear_arith);
            }
            return self;
        }
        let magnitude = self.bits % SIGN;
        let exponent = magnitude / HIDDEN;
        let significand = HIDDEN + magnitude % HIDDEN;
        let negative = self.is_negative();
        proof {
            lemma_abs_units(self);
            lemma_pow2_pos(1074);
            lemma_floor_by_magnitude(self.units());
            if magnitude > 0 {
                lemma_magnitude_increases(0, magnitude as int);
            }
            lemma_fundamental_div_mod_converse(0, one(), 0, 0);
            assert(magnitude_units(0) == 0);
            assert(magnitude > 0);
        }
        if exponent < 1023 {
            proof {
                lemma_below_one(magnitude as int);
                lemma_fundamental_div_mod_converse(abs(self.units()), one(), 0, abs(self.units()));
                assert(0 * one() == 0);
                assert((-1) * one() == -one());
            }
            if negative {
                Number::minus_one()
            } else {
                Number::zero()
            }
        } else {
            proof {
                if exponent > 1075 {
                    lemma_high_range(exponent as int, significand as int);
                }
                lemma_mid_range(exponent as int, significand as int);
                lemma_pow2_pos(0);
                lemma2_to64();
                assert(exponent < 1075) by {
                    if exponent == 1075 {
                        assert(significand as int % 1 == 0);
                    }
                }
                lemma_pow2_adds((1075 - exponent) as nat, (exponent - 1) as nat);
                lemma2_to64_rest();
                if exponent > 1023 {
                    lemma_pow2_strictly_increases((1075 - exponent) as nat, 52);
                }
                lemma_fundamental_div_mod(significand as int, pow2((1075 - exponent) as nat) as int);
            }
            let step = power_of_two(1075 - exponent);
            let rest = significand % step;
            let ghost k = pow2((exponent - 1) as nat) as int;
            let ghost d = step as int;
            let ghost q = significand as int / d;
            proof {
                assert(HIDDEN <= d * q) by {
                    lemma_pow2_adds((exponent - 1023) as nat, (1075 - exponent) as nat);
                    let w = pow2((exponent - 1023) as nat) as int;
                    assert(w * d == HIDDEN);
                    assert(w <= q) by (nonlinear_arith)
                        requires
                            w * d <= d * q + rest,
                            0 <= rest < d,
                    ;
                    assert(w * d <= d * q) by (nonlinear_arith)
                        requires
                            w <= q,
                            d > 0,
                    ;
                }
                assert(d * q + d <= 2 * HIDDEN) by {
                    lemma_pow2_adds((exponent - 1022) as nat, (1075 - exponent) as nat);
                    let w = pow2((exponent - 1022) as nat) as int;
                    assert(w * d == 2 * HIDDEN);
                    assert(q < w) by (nonlinear_arith)
                        requires
                            d * q + rest < w * d,
                            0 <= rest,
                            d > 0,
                    ;
                    assert(d * q + d <= w * d) by (nonlinear_arith)
                        requires
                            q + 1 <= w,
                            d > 0,
                    ;
                }
                assert((d * q) * k == q * (d * k)) by (nonlinear_arith);
                assert((d * q + d) * k == (q + 1) * (d * k)) by (nonlinear_arith);
                assert(-((q + 1) * one()) == (-q - 1) * one()) by (nonlinear_arith);
                assert(q >= 1) by (nonlinear_arith)
                    requires
                        d * q >= 1,
                        d > 0,
                ;
                assert(q * one() > 0) by (nonlinear_arith)
                    requires
                        q >= 1,
                        one() > 0,
                ;
                assert((q + 1) * one() > 0) by (nonlinear_arith)
                    requires
                        q >= 1,
                        one() > 0,
                ;
            }
            if negative {
                let low = magnitude - rest + step;
                proof {
                    lemma_quotient_units(low, exponent as int, d * q + d);
                }
                Number { bits: SIGN + low }
            } else {
                let low = magnitude - rest;
                proof {
                    lemma_quotient_units(low, exponent as int, d * q);
                }
                Number { bits: low }
            }
        }
    }
}

/// An integer brought into the range of `i64`.
pub open spec fn clamp_i64(x: int) -> int {
    if x < i64::MIN {
        i64::MIN as int
    } else if x > i64::MAX {
        i64::MAX as int
    } else {
        x
    }
}

/// The exponent of the largest power of two at or below `x`.
pub open spec fn lead(x: nat) -> nat
    decreases x,
{
    if x < 2 {
        0
    } else {
        1 + lead(x / 2)
    }
}

/// The multiple of `step` nearest to `x`; of two equally near ones, the even multiple.
pub open spec fn round_even(x: int, step: int) -> int {
    let quotient = x / step;
    let rest = x % step;
    if 2 * rest > step || (2 * rest == step && quotient % 2 == 1) {
        (quotient + 1) * step
    } else {
        quotient * step
    }
}

/// The whole number nearest to `x` that has at most 53 significant bits.
pub open spec fn nearest_double(x: nat) -> int {
    if x < 0x20_0000_0000_0000 {
        x as int
    } else {
        round_even(x as int, pow2((lead(x) - 52) as nat) as int)
    }
}

/// The number that a count is: its nearest double.
pub open spec fn counted(count: nat) -> Number {
    choose|n: Number|
        #![trigger n.bits()]
        n.bits() < SIGN && n.units() == nearest_double(count) * one()
}

/// Only one number without a sign has a given value.
proof fn lemma_counted(count: nat, n: Number)
    requires
        n.bits() < SIGN,
        n.units() == nearest_double(count) * one(),
    ensures
        counted(count) == n,
{
    let m = counted(count);
    assert(m.bits() < SIGN && m.units() == nearest_double(count) * one());
    lemma_rank_orders(m, n);
    lemma_same_bits(m, n);
}

/// The encoding of a count below two to the 53 whose leading power of two is `l`.
pub open spec fn exact_encoding(count: nat, l: nat) -> int {
    (1023 + l) * HIDDEN + (count - pow2(l)) * pow2((52 - l) as nat)
}

/// The encoding of a count stands for the count.
proof fn lemma_exact_encoding(count: nat, l: nat)
    requires
        l <= 52,
        pow2(l) <= count < 2 * pow2(l),
    ensures
        0 <= (count - pow2(l)) * pow2((52 - l) as nat) < HIDDEN,
        0 <= exact_encoding(count, l) < SIGN,
        units_of(exact_encoding(count, l) as u64) == count * one(),
        (exact_encoding(count, l) as u64 % SIGN) / HIDDEN < EXPONENT_LIMIT,
{
    let p = pow2(l) as int;
    let q = pow2((52 - l) as nat) as int;
    lemma_pow2_adds(l, (52 - l) as nat);
    lemma_pow2_pos((52 - l) as nat);
    lemma2_to64();
    lemma2_to64_rest();
    assert(p * q == HIDDEN);
    let fraction = (count - p) * q;
    assert(0 <= fraction < HIDDEN) by (nonlinear_arith)
        requires
            fraction == (count - p) * q,
            0 <= count - p < p,
            q > 0,
            p * q == HIDDEN,
    ;
    let bits = exact_encoding(count, l) as u64;
    assert(bits == (1023 + l) * HIDDEN + fraction);
    assert(bits as int / (HIDDEN as int) == 1023 + l && bits as int % (HIDDEN as int) == fraction);
    assert(bits % SIGN == bits);
    let k = pow2((1022 + l) as nat) as int;
    assert(HIDDEN + fraction == count * q) by (nonlinear_arith)
        requires
            fraction == (count - p) * q,
            p * q == HIDDEN,
    ;
    lemma_pow2_adds((52 - l) as nat, (1022 + l) as nat);
    assert(q * k == one());
    assert((count * q) * k == count * (q * k)) by (nonlinear_arith);
}

/// A count of up to two to the 53 is a number with its value.
pub proof fn lemma_counted_exactly(count: nat)
    requires
        count <= 0x20_0000_0000_0000,
    ensures
        counted(count).units() == count * one(),
        counted(count).bits() < SIGN,
{
    lemma2_to64();
    lemma2_to64_rest();
    let l = lead(count);
    if count == 0 {
        assert(0 * one() == 0);
        lemma_counted(count, Number { bits: 0 });
    } else {
        lemma_lead_bounds(count);
        if l <= 52 {
            lemma_pow2_adds(l, 1);
            if l < 52 {
                lemma_pow2_strictly_increases(l + 1, 53);
            }
            lemma_exact_encoding(count, l);
            lemma_counted(count, Number { bits: exact_encoding(count, l) as u64 });
        } else {
            if l > 53 {
                lemma_pow2_strictly_increases(53, l);
            }
            let bits = (1076 * HIDDEN) as u64;
            assert(bits as int / (HIDDEN as int) == 1076 && bits as int % (HIDDEN as int) == 0);
            lemma_pow2_adds(1, 1074);
            assert(HIDDEN * (2 * one()) == (2 * HIDDEN) * one()) by (nonlinear_arith);
            lemma_counted(count, Number { bits });
        }
    }
}

/// The leading power of two bounds a positive count from both sides.
pub proof fn lemma_lead_bounds(x: nat)
    requires
        x > 0,
    ensures
        pow2(lead(x)) <= x < 2 * pow2(lead(x)),
    decreases x,
{
    lemma2_to64();
    if x >= 2 {
        lemma_lead_bounds(x / 2);
        lemma_pow2_adds(lead(x / 2), 1);
    }
}

/// A power of two moves the leading power of two.
proof fn lemma_lead_scaled(x: nat, k: nat)
    requires
        x > 0,
    ensures
        lead(x * pow2(k)) == lead(x) + k,
{
    lemma_lead_bounds(x);
    lemma_pow2_pos(k);
    lemma_pow2_adds(lead(x), k);
    let (p, q) = (pow2(lead(x)) as int, pow2(k) as int);
    assert(p * q <= x * q < (2 * p) * q) by (nonlinear_arith)
        requires
            p <= x < 2 * p,
            q > 0,
    ;
    assert((2 * p) * q == 2 * (p * q)) by (nonlinear_arith);
    lemma_lead(x * pow2(k), lead(x) + k);
}

/// Rounding to the nearest double commutes with multiplying by a power of two.
pub proof fn lemma_nearest_scaled(x: nat, k: nat)
    ensures
        nearest_double(x * pow2(k)) == nearest_double(x) * pow2(k),
{
    lemma_pow2_pos(k);
    let q = pow2(k) as int;
    lemma2_to64();
    lemma2_to64_rest();
    if x == 0 {
        assert(0 * q == 0);
    } else {
        lemma_lead_bounds(x);
        lemma_lead_scaled(x, k);
        if x < 0x20_0000_0000_0000 {
            if x * q >= 0x20_0000_0000_0000 {
                let l = lead(x);
                if l > 53 {
                    lemma_pow2_strictly_increases(53, l);
                }
                assert(l <= 52);
                lemma_lead_bounds(x * pow2(k));
                if l + k < 52 {
                    lemma_pow2_strictly_increases((l + k) as nat, 52);
                }
                let s = (l + k - 52) as nat;
                let step = pow2(s) as int;
                lemma_pow2_pos(s);
                lemma_pow2_adds(s, (52 - l) as nat);
                let e = pow2((52 - l) as nat) as int;
                assert(q == step * e);
                assert(x * (step * e) == (x * e) * step) by (nonlinear_arith);
                lemma_fundamental_div_mod_converse(x * q, step, x * e, 0);
            }
        } else {
            lemma_scaling_grows(x, k);
            let l = lead(x);
            if l < 53 {
                if l < 52 {
                    lemma_pow2_strictly_increases(l, 52);
                }
                assert(false);
            }
            let s = (l - 52) as nat;
            let step = pow2(s) as int;
            lemma_pow2_pos(s);
            lemma_pow2_adds(s, k);
            lemma_scaled_division(x as int, step, q);
            let (a, r) = (x as int / step, x as int % step);
            assert((2 * r > step) == (2 * (r * q) > step * q)) by (nonlinear_arith)
                requires
                    q > 0,
            ;
            assert((2 * r == step) == (2 * (r * q) == step * q)) by (nonlinear_arith)
                requires
                    q > 0,
            ;
            assert(a * (step * q) == (a * step) * q) by (nonlinear_arith);
            assert((a + 1) * (step * q) == ((a + 1) * step) * q) by (nonlinear_arith);
        }
    }
}

proof fn lemma_scaling_grows(x: nat, k: nat)
    ensures
        x * pow2(k) >= x,
{
    lemma_pow2_pos(k);
    assert(x * pow2(k) >= x) by (nonlinear_arith)
        requires
            pow2(k) >= 1,
    ;
}

/// The power of two that bounds `x` from below is unique.
proof fn lemma_lead(x: nat, l: nat)
    requires
        pow2(l) <= x < 2 * pow2(l),
    ensures
        lead(x) == l,
    decreases l,
{
    lemma2_to64();
    if l > 0 {
        let h = (l - 1) as nat;
        lemma_pow2_adds(h, 1);
        lemma_pow2_pos(h);
        assert(pow2(l) == 2 * pow2(h));
        lemma_lead(x / 2, h);
    }
}

/// An encoding whose significand has been rounded up to the next power of two
/// stands for that power.
proof fn lemma_quotient_units(bits: u64, exponent: int, rounded: int)
    requires
        1 <= exponent < 2046,
        HIDDEN <= rounded <= 2 * HIDDEN,
        bits == exponent * HIDDEN + (rounded - HIDDEN),
    ensures
        bits < SIGN,
        units_of(bits) == rounded * pow2((exponent - 1) as nat),
        (bits % SIGN) / HIDDEN < EXPONENT_LIMIT,
{
    let h = HIDDEN as int;
    assert(bits < SIGN && bits % SIGN == bits);
    if rounded < 2 * h {
        assert(bits as int / h == exponent && bits as int % h == rounded - h);
    } else {
        assert(bits as int / h == exponent + 1 && bits as int % h == 0);
        lemma_pow2_adds((exponent - 1) as nat, 1);
        lemma2_to64();
        let k = pow2((exponent - 1) as nat) as int;
        assert(h * (k * 2) == (2 * h) * k) by (nonlinear_arith);
    }
}

/// The exponent of the largest power of two at or below a positive count.
fn leading_power(count: u128) -> (l: u64)
    requires
        count > 0,
    ensures
        l < 128,
        pow2(l as nat) <= count < 2 * pow2(l as nat),
{
    let mut l: u64 = 0;
    let mut left: u128 = count;
    proof {
        lemma2_to64();
    }
    while left > 1
        invariant
            1 <= left <= count,
            left * pow2(l as nat) <= count < (left + 1) * pow2(l as nat),
            l < 128,
        decreases left,
    {
        proof {
            let p = pow2(l as nat) as int;
            let m = left as int / 2;
            lemma_pow2_pos(l as nat);
            lemma_pow2_adds(l as nat, 1);
            lemma2_to64();
            assert(m * (2 * p) <= left * p) by (nonlinear_arith)
                requires
                    2 * m <= left,
                    p > 0,
            ;
            assert((left + 1) * p <= (m + 1) * (2 * p)) by (nonlinear_arith)
                requires
                    left + 1 <= 2 * (m + 1),
                    p > 0,
            ;
            assert(1 * (2 * p) <= m * (2 * p)) by (nonlinear_arith)
                requires
                    m >= 1,
                    p > 0,
            ;
            if l == 127 {
                lemma_pow2_adds(64, 64);
                lemma2_to64_rest();
                assert(pow2(128) == 0x1_0000_0000_0000_0000int * 0x1_0000_0000_0000_0000int);
                assert(false);
            }
        }
        left = left / 2;
        l = l + 1;
    }
    l
}

/// Two to the power `e`.
fn power_of_two(e: u64) -> (p: u64)
    requires
        e < 64,
    ensures
        p == pow2(e as nat),
        p >= 1,
{
    proof {
        lemma_pow2_pos(e as nat);
        lemma2_to64();
        lemma2_to64_rest();
        if e < 63 {
            lemma_pow2_strictly_increases(e as nat, 63);
        }
        vstd::bits::lemma_u64_shl_is_mul(1u64, e);
    }
    1u64 << e
}

/// Two to the power `e`, in the wider type.
pub(crate) fn wide_power_of_two(e: u64) -> (p: u128)
    requires
        e < 128,
    ensures
        p == pow2(e as nat),
        p >= 1,
{
    let mut p: u128 = 1;
    let mut i: u64 = 0;
    proof {
        lemma2_to64();
    }
    while i < e
        invariant
            i <= e < 128,
            p == pow2(i as nat),
            p >= 1,
        decreases e - i,
    {
        proof {
            lemma_pow2_adds(i as nat, 1);
            lemma2_to64();
            lemma2_to64_rest();
            lemma_pow2_adds(63, 64);
            if i + 1 < 127 {
                lemma_pow2_strictly_increases((i + 1) as nat, 127);
            }
        }
        p = p * 2;
        i = i + 1;
    }
    p
}

/// The significand of 53 bits and the power of two that a count of 53 bits or
/// more is rounded to.
pub(crate) fn round_to_53(count: u128) -> (r: (u64, u64))
    requires
        count >= HIDDEN,
    ensures
        HIDDEN <= r.0 <= 2 * HIDDEN,
        r.1 == lead(count as nat) - 52,
        0 <= r.1 < 76,
        r.0 * pow2(r.1 as nat) == round_even(count as int, pow2(r.1 as nat) as int),
{
    let l = leading_power(count);
    proof {
        lemma_lead(count as nat, l as nat);
        lemma2_to64();
        lemma2_to64_rest();
        if l < 52 {
            lemma_pow2_adds(l as nat, 1);
            if l < 51 {
                lemma_pow2_strictly_increases((l + 1) as nat, 52);
            }
            assert(false);
        }
        lemma_pow2_adds(52, (l - 52) as nat);
    }
    let step = wide_power_of_two(l - 52);
    let ghost d = step as int;
    proof {
        lemma_fundamental_div_mod(count as int, d);
        let q = count as int / d;
        assert(HIDDEN <= q < 2 * HIDDEN) by (nonlinear_arith)
            requires
                count == d * q + count as int % d,
                0 <= count as int % d < d,
                HIDDEN * d <= count < 2 * (HIDDEN * d),
                d > 0,
        ;
    }
    let quotient = (count / step) as u64;
    let rest = count % step;
    let up = rest > step - rest || (rest == step - rest && quotient % 2 == 1);
    let rounded = if up {
        quotient + 1
    } else {
        quotient
    };
    (rounded, l - 52)
}

/// The magnitude of a number is that of the low part of its encoding.
proof fn lemma_abs_units(n: Number)
    ensures
        abs(n.units()) == magnitude_units((n.bits() % SIGN) as int),
{
    let m = (n.bits() % SIGN) as int;
    if m > 0 {
        lemma_magnitude_increases(0, m);
    }
    assert(magnitude_units(0) == 0);
}

/// An exponent field below 1023 stands for a magnitude below one.
proof fn lemma_below_one(magnitude: int)
    requires
        0 <= magnitude,
        magnitude / (HIDDEN as int) < 1023,
    ensures
        0 <= magnitude_units(magnitude) < one(),
{
    let top = 1023 * HIDDEN as int;
    assert(magnitude < top);
    lemma_magnitude_increases(magnitude, top);
    assert(top / (HIDDEN as int) == 1023 && top % (HIDDEN as int) == 0);
    lemma_pow2_adds(52, 1022);
    lemma2_to64();
    lemma2_to64_rest();
}

/// Scaling dividend and divisor scales the remainder and keeps the quotient.
pub proof fn lemma_scaled_division(m: int, d: int, k: int)
    requires
        m >= 0,
        d > 0,
        k > 0,
    ensures
        (m * k) / (d * k) == m / d,
        (m * k) % (d * k) == (m % d) * k,
{
    let q = m / d;
    let r = m % d;
    lemma_fundamental_div_mod(m, d);
    assert(m == d * q + r);
    assert(m * k == q * (d * k) + r * k) by (nonlinear_arith)
        requires
            m == d * q + r,
    ;
    assert(0 <= r * k < d * k) by (nonlinear_arith)
        requires
            0 <= r < d,
            k > 0,
    ;
    lemma_fundamental_div_mod_converse(m * k, d * k, q, r * k);
}

/// Magnitudes with exponent fields from 1023 to 1075 divided by one.
proof fn lemma_mid_range(exponent: int, significand: int)
    requires
        1023 <= exponent <= 1075,
        significand >= 0,
    ensures
        ({
            let units = significand * pow2((exponent - 1) as nat);
            let step = pow2((1075 - exponent) as nat) as int;
            &&& units / one() == significand / step
            &&& (units % one() == 0) == (significand % step == 0)
            &&& units % one() == (significand % step) * pow2((exponent - 1) as nat)
        }),
{
    let k = pow2((exponent - 1) as nat) as int;
    let d = pow2((1075 - exponent) as nat) as int;
    lemma_pow2_pos((exponent - 1) as nat);
    lemma_pow2_pos((1075 - exponent) as nat);
    lemma_pow2_adds((1075 - exponent) as nat, (exponent - 1) as nat);
    lemma_scaled_division(significand, d, k);
    let r = significand % d;
    assert((r * k == 0) == (r == 0)) by (nonlinear_arith)
        requires
            k > 0,
    ;
}

/// Magnitudes with exponent fields above 1075 are whole multiples of one.
proof fn lemma_high_range(exponent: int, significand: int)
    requires
        1075 < exponent,
        significand >= 0,
    ensures
        ({
            let units = significand * pow2((exponent - 1) as nat);
            &&& units / one() == significand * pow2((exponent - 1075) as nat)
            &&& units % one() == 0
            &&& units == (significand * pow2((exponent - 1075) as nat)) * one()
        }),
{
    let d = pow2((exponent - 1075) as nat) as int;
    lemma_pow2_pos(1074);
    lemma_pow2_adds((exponent - 1075) as nat, 1074);
    let q = significand * d;
    assert(significand * (d * one()) == q * one()) by (nonlinear_arith)
        requires
            q == significand * d,
    ;
    lemma_fundamental_div_mod_converse(q * one(), one(), q, 0);
}

/// A value is whole exactly where its magnitude is.
proof fn lemma_whole_by_magnitude(x: int)
    ensures
        (x % one() == 0) == (abs(x) % one() == 0),
{
    lemma_pow2_pos(1074);
    lemma_floor_by_magnitude(x);
}

/// The floor of a value from the quotient and remainder of its magnitude.
proof fn lemma_floor_by_magnitude(x: int)
    ensures
        x >= 0 ==> x / one() == abs(x) / one(),
        x < 0 && abs(x) % one() == 0 ==> x / one() == -(abs(x) / one()),
        x < 0 && abs(x) % one() != 0 ==> x / one() == -(abs(x) / one()) - 1,
        (x % one() == 0) == (abs(x) % one() == 0),
        abs(x) / one() >= 0,
{
    let d = one();
    lemma_pow2_pos(1074);
    lemma_fundamental_div_mod(abs(x), d);
    let q = abs(x) / d;
    let r = abs(x) % d;
    assert(q >= 0) by (nonlinear_arith)
        requires
            d > 0,
            d * q + r >= 0,
            0 <= r < d,
    ;
    if x < 0 {
        if r == 0 {
            assert(x == (-q) * d + 0) by (nonlinear_arith)
                requires
                    -x == d * q,
            ;
            lemma_fundamental_div_mod_converse(x, d, -q, 0);
        } else {
            assert(x == (-q - 1) * d + (d - r)) by (nonlinear_arith)
                requires
                    -x == d * q + r,
            ;
            lemma_fundamental_div_mod_converse(x, d, -q - 1, d - r);
        }
    }
}

impl PartialEq for Number {
    /// Numbers are equal where their values are: the two zeros are.
    fn eq(&self, other: &Number) -> (b: bool) {
        self.same(*other)
    }
}

impl vstd::std_specs::cmp::PartialEqSpecImpl for Number {
    open spec fn obeys_eq_spec() -> bool {
        true
    }

    open spec fn eq_spec(&self, other: &Number) -> bool {
        self.units() == other.units()
    }
}

/// A larger low part of the encoding stands for a larger magnitude.
pub proof fn lemma_magnitude_increases(a: int, b: int)
    requires
        0 <= a < b,
    ensures
        0 <= magnitude_units(a) < magnitude_units(b),
{
    let h = HIDDEN as int;
    let ea = a / h;
    let eb = b / h;
    let fa = a % h;
    let fb = b % h;
    assert(a == ea * h + fa && b == eb * h + fb && 0 <= fa < h && 0 <= fb < h && 0 <= ea <= eb);
    if ea == eb {
        assert(fa < fb);
        if ea > 0 {
            let p = pow2((ea - 1) as nat) as int;
            lemma_pow2_pos((ea - 1) as nat);
            assert(0 <= (h + fa) * p < (h + fb) * p) by (nonlinear_arith)
                requires
                    p > 0,
                    0 <= h + fa < h + fb,
            ;
        }
    } else {
        let q = pow2((eb - 1) as nat) as int;
        lemma_pow2_pos((eb - 1) as nat);
        assert(h * q <= (h + fb) * q) by (nonlinear_arith)
            requires
                q > 0,
                fb >= 0,
        ;
        if ea == 0 {
            assert(h <= h * q) by (nonlinear_arith)
                requires
                    q >= 1,
                    h > 0,
            ;
        } else {
            let p = pow2((ea - 1) as nat) as int;
            lemma_pow2_pos((ea - 1) as nat);
            lemma_pow2_adds((ea - 1) as nat, 1);
            lemma2_to64();
            assert(pow2(ea as nat) == p * 2);
            if ea < eb - 1 {
                lemma_pow2_strictly_increases(ea as nat, (eb - 1) as nat);
            }
            assert(p * 2 <= q);
            assert(0 <= (h + fa) * p < h * q) by (nonlinear_arith)
                requires
                    p > 0,
                    p * 2 <= q,
                    0 <= fa < h,
            ;
        }
    }
}

/// The total order of numbers follows their values; of two numbers with the same
/// value, the zero with a sign comes before the one without. No two numbers
/// share a rank.
pub proof fn lemma_total_orders(a: Number, b: Number)
    ensures
        a.units() < b.units() ==> a.total() < b.total(),
        a.units() == b.units() && a.total() < b.total() ==> a.bits() == SIGN && b.bits() == 0,
        (a.total() == b.total()) == (a == b),
{
    lemma_rank_orders(a, b);
    lemma_rank_orders(b, a);
    lemma_same_bits(a, b);
}

/// A number of at least one has a whole part of at least one.
pub proof fn lemma_one_or_more(n: Number)
    requires
        n.units() >= one(),
    ensures
        n.units() / one() >= 1,
        n.units() / one() == abs(n.units()) / one(),
{
    lemma_pow2_pos(1074);
    lemma_fundamental_div_mod(n.units(), one());
    let q = n.units() / one();
    assert(q >= 1) by (nonlinear_arith)
        requires
            one() > 0,
            one() * q + n.units() % one() >= one(),
            n.units() % one() < one(),
    ;
}

/// A number that is not negative has a whole part that is not.
pub proof fn lemma_zero_or_more(n: Number)
    requires
        n.units() >= 0,
    ensures
        n.units() / one() >= 0,
        n.units() / one() == abs(n.units()) / one(),
{
    lemma_pow2_pos(1074);
    lemma_floor_by_magnitude(n.units());
}

/// A number is determined by its encoding.
pub proof fn lemma_same_bits(a: Number, b: Number)
    ensures
        (a == b) == (a.bits() == b.bits()),
{
}

/// Ranks order numbers as values do.
pub proof fn lemma_rank_orders(a: Number, b: Number)
    ensures
        (a.rank() < b.rank()) == (a.units() < b.units()),
        (a.rank() == b.rank()) == (a.units() == b.units()),
{
    let ma = if a.bits() < SIGN { a.bits() as int } else { a.bits() - SIGN };
    let mb = if b.bits() < SIGN { b.bits() as int } else { b.bits() - SIGN };
    assert(magnitude_units(0) == 0);
    if ma > 0 {
        lemma_magnitude_increases(0, ma);
    }
    if mb > 0 {
        lemma_magnitude_increases(0, mb);
    }
    if ma < mb {
        lemma_magnitude_increases(ma, mb);
    }
    if mb < ma {
        lemma_magnitude_increases(mb, ma);
    }
}

/// A whole number of ones divides into that many, and leaves nothing.
pub proof fn lemma_whole_ones(q: int)
    ensures
        (q * one()) / one() == q,
        (q * one()) % one() == 0,
        one() > 0,
{
    lemma_pow2_pos(1074);
    lemma_fundamental_div_mod_converse(q * one(), one(), q, 0);
}

/// The value `y` is `q` steps of two to the `e`, with 53 significant bits, and it is
/// nearest to `x`: no more than half a step away, and at half a step `q` is even.
pub open spec fn rounds_to(x: nat, y: int, q: int, e: nat) -> bool {
    &&& y == q * pow2(e)
    &&& 0x10_0000_0000_0000 <= q <= 0x20_0000_0000_0000
    &&& -pow2(e) <= 2 * (y - x) <= pow2(e)
    &&& (2 * (y - x) == pow2(e) || 2 * (x - y) == pow2(e)) ==> q % 2 == 0
}

/// The law of the nearest double: a whole number of up to 53 bits is kept; a larger one
/// is rounded to the nearest whole number with 53 significant bits, and so is at most one
/// part in two to the 53 away.
pub proof fn law_nearest_double_is_nearest(x: nat)
    ensures
        x < 0x20_0000_0000_0000 ==> nearest_double(x) == x,
        x >= 0x20_0000_0000_0000 ==> exists|q: int, e: nat| rounds_to(x, nearest_double(x), q, e),
        abs(nearest_double(x) - x) * 0x20_0000_0000_0000 <= x,
        nearest_double(x) >= 0,
{
    if x < 0x20_0000_0000_0000 {
        assert(abs(0) * 0x20_0000_0000_0000 == 0);
    } else {
        lemma2_to64();
        lemma2_to64_rest();
        lemma_lead_bounds(x);
        let l = lead(x);
        if l < 53 {
            lemma_pow2_strictly_increases(l, 53);
            if l < 52 {
                lemma_pow2_strictly_increases(l, 52);
            }
        }
        assert(l >= 53);
        let e = (l - 52) as nat;
        let step = pow2(e) as int;
        lemma_pow2_pos(e);
        lemma_pow2_adds(52, e);
        lemma_pow2_adds(53, e);
        assert(pow2(l) == 0x10_0000_0000_0000 * step);
        let d = x as int / step;
        let rest = x as int % step;
        vstd::arithmetic::div_mod::lemma_fundamental_div_mod(x as int, step);
        assert(step * d == d * step) by (nonlinear_arith);
        assert(0 <= rest < step);
        assert((d + 1) * step == d * step + step) by (nonlinear_arith);
        let y = nearest_double(x);
        let q = if 2 * rest > step || (2 * rest == step && d % 2 == 1) {
            d + 1
        } else {
            d
        };
        assert(y == q * step);
        assert(d >= 0x10_0000_0000_0000) by (nonlinear_arith)
            requires
                x == d * step + rest,
                rest < step,
                x >= 0x10_0000_0000_0000 * step,
                step > 0,
        ;
        assert(d < 0x20_0000_0000_0000) by (nonlinear_arith)
            requires
                x == d * step + rest,
                rest >= 0,
                x < 0x20_0000_0000_0000 * step,
                step > 0,
        ;
        assert(rounds_to(x, y, q, e));
        assert(abs(y - x) * 2 <= step);
        assert(y >= 0) by (nonlinear_arith)
            requires
                y == q * step,
                q >= 0,
                step > 0,
        ;
    }
}

/// The value `u`, in units, lies between the whole number `k` and the next.
pub open spec fn from_whole(u: int, k: int) -> bool {
    k * one() <= u < (k + 1) * one()
}

/// The whole number that a value lies at or above is its quotient by one.
pub proof fn lemma_from_whole(u: int, k: int)
    ensures
        from_whole(u, k) <==> u / one() == k,
        u < one() <==> u / one() < 1,
        u < 0 <==> u / one() < 0,
{
    lemma_whole_ones(k);
    let o = one();
    let q = u / o;
    vstd::arithmetic::div_mod::lemma_fundamental_div_mod(u, o);
    assert(0 <= u % o < o);
    assert(o * q == q * o) by (nonlinear_arith);
    assert((k + 1) * o == k * o + o) by (nonlinear_arith);
    if q < k {
        assert(q * o + o <= k * o) by (nonlinear_arith)
            requires
                q + 1 <= k,
                o > 0,
        ;
    } else if q > k {
        assert(q * o >= k * o + o) by (nonlinear_arith)
            requires
                q >= k + 1,
                o > 0,
        ;
    }
    if q >= 1 {
        assert(q * o >= o) by (nonlinear_arith)
            requires
                q >= 1,
                o > 0,
        ;
    } else {
        assert(q * o <= 0) by (nonlinear_arith)
            requires
                q <= 0,
                o > 0,
        ;
        if q < 0 {
            assert(q * o <= -o) by (nonlinear_arith)
                requires
                    q <= -1,
                    o > 0,
            ;
        } else {
            assert(q * o == 0) by (nonlinear_arith)
                requires
                    q == 0,
            ;
        }
    }
}

} // verus!

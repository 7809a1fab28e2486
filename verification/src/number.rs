//! JavaScript numbers, without floating-point arithmetic.
use vstd::arithmetic::div_mod;
use vstd::arithmetic::mul;
use vstd::arithmetic::power2;
use vstd::bits;
use vstd::prelude::*;

verus! {

/// The weight of the implicit leading bit of a normal number's significand.
pub const HIDDEN_BIT: u64 = 0x10_0000_0000_0000;

/// The bit that holds the sign.
pub const SIGN_BIT: u64 = 0x8000_0000_0000_0000;

/// The exponent that marks infinities and not-a-numbers.
pub const SPECIAL_EXPONENT: u64 = 2047;

/// A JavaScript number: a binary64 floating-point value, kept as its bit pattern.
///
/// Every finite number is a whole multiple of the smallest positive one, 2^-1074, so its
/// exact value is described by an integer, [`Number::units`], and all statements about
/// numbers are statements about integers.
#[derive(Clone, Copy, Debug, PartialEq, Eq, Structural)]
pub struct Number {
    pub bits: u64,
}

/// The number one, counted in multiples of 2^-1074.
pub open spec fn one() -> int {
    power2::pow2(1074) as int
}

/// How many times `n` has to be halved before it fits in 53 bits.
pub open spec fn excess_bits(n: nat) -> nat
    decreases n,
{
    if n < 0x20_0000_0000_0000 {
        0
    } else {
        1 + excess_bits(n / 2)
    }
}

/// The integer that the binary64 number nearest to `n` stands for; of two equally near, the
/// one with the even significand.
pub open spec fn nearest(n: nat) -> nat {
    let step = power2::pow2(excess_bits(n));
    let quotient = n / step;
    let remainder = n % step;
    if 2 * remainder > step || (2 * remainder == step && quotient % 2 == 1) {
        (quotient + 1) * step
    } else {
        quotient * step
    }
}

/// The residue of `t` modulo 2^32 that lies in the range of an `i32`.
pub open spec fn wrapped_int_32(t: int) -> int {
    let r = t % 0x1_0000_0000;
    if r >= 0x8000_0000 {
        r - 0x1_0000_0000
    } else {
        r
    }
}

impl Number {
    /// The sign bit is set; it is for negative zero too.
    pub open spec fn negative(self) -> bool {
        self.bits >= SIGN_BIT
    }

    /// The biased exponent.
    pub open spec fn exponent(self) -> int {
        (self.bits as int / 0x10_0000_0000_0000) % 2048
    }

    /// The significand without its implicit leading bit.
    pub open spec fn fraction(self) -> int {
        self.bits as int % 0x10_0000_0000_0000
    }

    /// The number is not-a-number.
    pub open spec fn nan(self) -> bool {
        self.exponent() == 2047 && self.fraction() != 0
    }

    /// The number is an infinity of either sign.
    pub open spec fn infinite(self) -> bool {
        self.exponent() == 2047 && self.fraction() == 0
    }

    /// The number is neither infinite nor not-a-number.
    pub open spec fn finite(self) -> bool {
        self.exponent() != 2047
    }

    /// The absolute value of a finite number, in multiples of 2^-1074.
    pub open spec fn magnitude(self) -> int {
        if self.exponent() == 0 {
            self.fraction()
        } else {
            (0x10_0000_0000_0000 + self.fraction()) * power2::pow2(
                (self.exponent() - 1) as nat,
            )
        }
    }

    /// The value of a finite number, in multiples of 2^-1074.
    pub open spec fn units(self) -> int {
        if self.negative() {
            -self.magnitude()
        } else {
            self.magnitude()
        }
    }

    /// The number is the integer `n` (for zero, of either sign).
    pub open spec fn is_integer(self, n: int) -> bool {
        self.finite() && self.units() == n * one()
    }

    /// The number has no fractional part.
    pub open spec fn whole(self) -> bool {
        self.finite() && self.magnitude() % one() == 0
    }

    /// The integer part of a finite number, towards zero.
    pub open spec fn truncated(self) -> int {
        if self.negative() {
            -(self.magnitude() / one())
        } else {
            self.magnitude() / one()
        }
    }

    /// The `ToInt32` operation of ECMAScript.
    pub open spec fn int_32(self) -> int {
        if self.finite() {
            wrapped_int_32(self.truncated())
        } else {
            0
        }
    }

    /// The number that an integer converts to.
    pub open spec fn converts(self, n: int) -> bool {
        &&& self.negative() == (n < 0)
        &&& n >= 0 ==> self.is_integer(nearest(n as nat) as int)
        &&& n < 0 ==> self.is_integer(-(nearest((-n) as nat) as int))
    }

    /// The number of the opposite sign.
    pub open spec fn negation(self) -> Number {
        if self.negative() {
            Number { bits: (self.bits - SIGN_BIT) as u64 }
        } else {
            Number { bits: (self.bits + SIGN_BIT) as u64 }
        }
    }

    /// The number is less than what the integer `n` converts to.
    pub open spec fn below_integer(self, n: nat) -> bool {
        !self.nan() && (if self.infinite() {
            self.negative()
        } else {
            self.units() < nearest(n) * one()
        })
    }

    /// The number is greater than what the integer `n` converts to.
    pub open spec fn above_integer(self, n: nat) -> bool {
        !self.nan() && (if self.infinite() {
            !self.negative()
        } else {
            self.units() > nearest(n) * one()
        })
    }

    /// The `<` operator: the order of the values, with not-a-number outside it.
    pub open spec fn below(self, other: Number) -> bool {
        if self.nan() || other.nan() {
            false
        } else if self.infinite() {
            self.negative() && !(other.infinite() && other.negative())
        } else if other.infinite() {
            !other.negative()
        } else {
            self.units() < other.units()
        }
    }
}

/// A magnitude with a small exponent is less than one.
proof fn lemma_fractional(x: Number)
    requires
        x.exponent() < 1023,
    ensures
        0 <= x.magnitude() < one(),
{
    let e = x.exponent();
    power2::lemma_pow2_pos(1074);
    if e == 0 {
        assert(power2::pow2(52) == 0x10_0000_0000_0000) by {
            power2::lemma2_to64_rest();
        }
        power2::lemma_pow2_strictly_increases(52, 1074);
    } else {
        let m = 0x10_0000_0000_0000 + x.fraction();
        let p = power2::pow2((e - 1) as nat) as int;
        power2::lemma_pow2_pos((e - 1) as nat);
        assert(power2::pow2(53) == 0x20_0000_0000_0000) by {
            power2::lemma2_to64_rest();
        }
        power2::lemma_pow2_adds(53, (e - 1) as nat);
        assert(0 <= m * p < 0x20_0000_0000_0000 * p) by (nonlinear_arith)
            requires
                0 <= m < 0x20_0000_0000_0000,
                p > 0,
        ;
        if e + 52 < 1074 {
            power2::lemma_pow2_strictly_increases((e + 52) as nat, 1074);
        }
        assert((53 + (e - 1) as nat) as nat == (e + 52) as nat);
    }
}

/// The integer part of a magnitude between 1 and 2^52, and when it is all of it.
proof fn lemma_mixed(x: Number)
    requires
        1023 <= x.exponent() < 1075,
    ensures
        ({
            let m = 0x10_0000_0000_0000 + x.fraction();
            let d = power2::pow2((1075 - x.exponent()) as nat) as int;
            &&& d > 0
            &&& x.magnitude() / one() == m / d
            &&& x.magnitude() % one() == 0 <==> m % d == 0
            &&& m % d == 0 ==> x.magnitude() == (m / d) * one()
        }),
{
    let e = x.exponent();
    let m = 0x10_0000_0000_0000 + x.fraction();
    let p = power2::pow2((e - 1) as nat) as int;
    let d = power2::pow2((1075 - e) as nat) as int;
    power2::lemma_pow2_pos((e - 1) as nat);
    power2::lemma_pow2_pos((1075 - e) as nat);
    power2::lemma_pow2_adds((e - 1) as nat, (1075 - e) as nat);
    assert(((e - 1) as nat + (1075 - e) as nat) as nat == 1074);
    assert(one() == p * d);
    assert(x.magnitude() == p * m) by {
        mul::lemma_mul_is_commutative(p, m);
    }
    div_mod::lemma_div_multiples_vanish_quotient(p, m, d);
    div_mod::lemma_fundamental_div_mod(m, d);
    let q = m / d;
    if m % d == 0 {
        assert(p * m == q * (p * d)) by (nonlinear_arith)
            requires
                m == d * q,
        ;
        assert(p * d > 0) by (nonlinear_arith)
            requires
                p > 0,
                d > 0,
        ;
        div_mod::lemma_mod_multiples_basic(q, p * d);
    }
    if x.magnitude() % one() == 0 {
        assert(p * d > 0) by (nonlinear_arith)
            requires
                p > 0,
                d > 0,
        ;
        div_mod::lemma_fundamental_div_mod(p * m, p * d);
        assert(p * m == p * (d * q)) by (nonlinear_arith)
            requires
                p * m == (p * d) * q,
        ;
        mul::lemma_mul_equality_converse(p, m, d * q);
    }
}

/// A magnitude of at least 2^52 is whole.
proof fn lemma_large(x: Number)
    requires
        1075 <= x.exponent() < 2047,
    ensures
        ({
            let m = 0x10_0000_0000_0000 + x.fraction();
            let k = power2::pow2((x.exponent() - 1075) as nat) as int;
            &&& k > 0
            &&& x.magnitude() == (m * k) * one()
            &&& x.magnitude() / one() == m * k
            &&& x.magnitude() % one() == 0
        }),
{
    let e = x.exponent();
    let m = 0x10_0000_0000_0000 + x.fraction();
    let k = power2::pow2((e - 1075) as nat) as int;
    power2::lemma_pow2_pos((e - 1075) as nat);
    power2::lemma_pow2_pos(1074);
    power2::lemma_pow2_adds((e - 1075) as nat, 1074);
    assert(((e - 1075) as nat + 1074) as nat == (e - 1) as nat);
    mul::lemma_mul_is_associative(m, k, one());
    div_mod::lemma_div_by_multiple(m * k, one());
    div_mod::lemma_mod_multiples_basic(m * k, one());
}

/// A whole magnitude is the integer that its integer part is, and no other.
pub proof fn lemma_whole_is_integer(x: Number, n: int)
    requires
        x.finite(),
    ensures
        x.whole() ==> x.is_integer(x.truncated()),
        x.is_integer(n) ==> x.whole() && x.truncated() == n,
{
    let o = one();
    power2::lemma_pow2_pos(1074);
    let g = x.magnitude();
    div_mod::lemma_fundamental_div_mod(g, o);
    let q = g / o;
    mul::lemma_mul_is_commutative(o, q);
    mul::lemma_mul_unary_negation(q, o);
    if x.is_integer(n) {
        let k = if x.negative() { -n } else { n };
        mul::lemma_mul_unary_negation(n, o);
        assert(g == k * o);
        mul::lemma_mul_is_commutative(k, o);
        div_mod::lemma_div_multiples_vanish(k, o);
        div_mod::lemma_mod_multiples_basic(k, o);
    }
}

/// The exponent and the fraction are what the bits below the sign hold.
proof fn lemma_fields(x: Number)
    ensures
        x.bits as int % 0x8000_0000_0000_0000 == x.exponent() * 0x10_0000_0000_0000 + x.fraction(),
        0 <= x.exponent() < 2048,
        0 <= x.fraction() < 0x10_0000_0000_0000,
{
    let high = x.bits as int / 0x10_0000_0000_0000;
    assert(x.bits as int == (high / 2048) * 0x8000_0000_0000_0000 + x.exponent()
        * 0x10_0000_0000_0000 + x.fraction());
}

/// A significand of 53 bits is worth less at one exponent than any at a higher exponent.
proof fn lemma_scaled_order(m1: int, e1: nat, m2: int, e2: nat)
    requires
        0 <= m1 < 0x20_0000_0000_0000,
        0x10_0000_0000_0000 <= m2,
        e1 < e2,
    ensures
        0 <= m1 * power2::pow2(e1) < m2 * power2::pow2(e2),
{
    let p1 = power2::pow2(e1) as int;
    let p2 = power2::pow2(e2) as int;
    power2::lemma_pow2_pos(e1);
    power2::lemma_pow2_unfold((e1 + 1) as nat);
    if e1 + 1 < e2 {
        power2::lemma_pow2_strictly_increases((e1 + 1) as nat, e2);
    }
    assert(p2 >= 2 * p1);
    assert(0 <= m1 * p1 < m2 * p2) by (nonlinear_arith)
        requires
            0 <= m1 < 0x20_0000_0000_0000,
            0x10_0000_0000_0000 <= m2,
            p1 > 0,
            p2 >= 2 * p1,
    ;
}

/// The order of the magnitudes of finite numbers is that of their bit patterns.
proof fn lemma_magnitude_order(a: Number, b: Number)
    requires
        a.finite(),
        b.finite(),
        a.bits as int % 0x8000_0000_0000_0000 < b.bits as int % 0x8000_0000_0000_0000,
    ensures
        0 <= a.magnitude() < b.magnitude(),
{
    let (e1, f1) = (a.exponent(), a.fraction());
    let (e2, f2) = (b.exponent(), b.fraction());
    lemma_fields(a);
    lemma_fields(b);
    assert(e1 < e2 || (e1 == e2 && f1 < f2));
    let m1 = 0x10_0000_0000_0000 + f1;
    let m2 = 0x10_0000_0000_0000 + f2;
    if e2 > 0 {
        if e1 == 0 {
            let p2 = power2::pow2((e2 - 1) as nat) as int;
            power2::lemma_pow2_pos((e2 - 1) as nat);
            assert(f1 < m2 * p2) by (nonlinear_arith)
                requires
                    0 <= f1 < 0x10_0000_0000_0000 <= m2,
                    p2 > 0,
            ;
        } else if e1 == e2 {
            let p = power2::pow2((e1 - 1) as nat) as int;
            power2::lemma_pow2_pos((e1 - 1) as nat);
            assert(0 <= m1 * p < m2 * p) by (nonlinear_arith)
                requires
                    0 <= m1 < m2,
                    p > 0,
            ;
        } else {
            lemma_scaled_order(m1, (e1 - 1) as nat, m2, (e2 - 1) as nat);
        }
    }
}

impl Number {
    /// The canonical not-a-number.
    pub fn not_a_number() -> (r: Number)
        ensures
            r.nan(),
            r.bits == 0x7ff8_0000_0000_0000,
    {
        Number { bits: 0x7ff8_0000_0000_0000 }
    }

    fn exponent_field(self) -> (r: u64)
        ensures
            r == self.exponent(),
            r < 2048,
    {
        (self.bits / HIDDEN_BIT) % 2048
    }

    fn fraction_field(self) -> (r: u64)
        ensures
            r == self.fraction(),
            r < HIDDEN_BIT,
    {
        self.bits % HIDDEN_BIT
    }

    /// Whether the sign bit is set.
    pub fn is_negative(self) -> (r: bool)
        ensures
            r == self.negative(),
    {
        self.bits >= SIGN_BIT
    }

    /// Whether the number is not-a-number.
    pub fn is_nan(self) -> (r: bool)
        ensures
            r == self.nan(),
    {
        self.exponent_field() == SPECIAL_EXPONENT && self.fraction_field() != 0
    }

    /// Whether the number is an infinity.
    pub fn is_infinite(self) -> (r: bool)
        ensures
            r == self.infinite(),
    {
        self.exponent_field() == SPECIAL_EXPONENT && self.fraction_field() == 0
    }

    /// The number of the opposite sign.
    pub fn negated(self) -> (r: Number)
        ensures
            r == self.negation(),
            r.negative() == !self.negative(),
            r.exponent() == self.exponent(),
            r.fraction() == self.fraction(),
            r.units() == -self.units(),
    {
        if self.bits >= SIGN_BIT {
            Number { bits: self.bits - SIGN_BIT }
        } else {
            Number { bits: self.bits + SIGN_BIT }
        }
    }

    /// The `<` operator.
    pub fn is_below(self, other: Number) -> (r: bool)
        ensures
            r == self.below(other),
    {
        if self.is_nan() || other.is_nan() {
            return false;
        }
        let a: u64 = self.bits % SIGN_BIT;
        let b: u64 = other.bits % SIGN_BIT;
        proof {
            if self.finite() && other.finite() {
                if a < b {
                    lemma_magnitude_order(self, other);
                } else if b < a {
                    lemma_magnitude_order(other, self);
                } else {
                    assert(self.exponent() == other.exponent());
                    assert(self.fraction() == other.fraction());
                }
                let zero = Number { bits: 0 };
                if a > 0 {
                    lemma_magnitude_order(zero, self);
                } else {
                    assert(self.magnitude() == 0);
                }
                if b > 0 {
                    lemma_magnitude_order(zero, other);
                } else {
                    assert(other.magnitude() == 0);
                }
            }
        }
        if a == 0 && b == 0 {
            false
        } else if self.is_negative() {
            !other.is_negative() || b < a
        } else {
            !other.is_negative() && a < b
        }
    }

    /// Whether the number has no fractional part.
    pub fn is_whole(self) -> (r: bool)
        ensures
            r == self.whole(),
    {
        let e: u64 = self.exponent_field();
        let f: u64 = self.fraction_field();
        proof {
            power2::lemma_pow2_pos(1074);
        }
        if e == SPECIAL_EXPONENT {
            false
        } else if e < 1023 {
            proof {
                lemma_fractional(self);
                div_mod::lemma_small_mod(self.magnitude() as nat, one() as nat);
                let zero = Number { bits: 0 };
                if e > 0 || f > 0 {
                    lemma_magnitude_order(zero, self);
                }
            }
            e == 0 && f == 0
        } else if e < 1075 {
            let m: u64 = HIDDEN_BIT + f;
            let q: u64 = m >> (1075 - e);
            proof {
                lemma_mixed(self);
                bits::lemma_u64_shr_is_div(m, (1075 - e) as u64);
            }
            assert(q * power2::pow2((1075 - e) as nat) <= m) by {
                div_mod::lemma_fundamental_div_mod(m as int, power2::pow2((1075 - e) as nat) as int);
                mul::lemma_mul_is_commutative(q as int, power2::pow2((1075 - e) as nat) as int);
            }
            proof {
                bits::lemma_u64_shl_is_mul(q, (1075 - e) as u64);
                div_mod::lemma_fundamental_div_mod(m as int, power2::pow2((1075 - e) as nat) as int);
                mul::lemma_mul_is_commutative(q as int, power2::pow2((1075 - e) as nat) as int);
            }
            (q << (1075 - e)) == m
        } else {
            proof {
                lemma_large(self);
            }
            true
        }
    }
}

/// Multiplying by a power of two of at least 2^32 leaves no low 32 bits.
proof fn lemma_low_bits_vanish(m: int, j: nat)
    requires
        j >= 32,
    ensures
        (m * power2::pow2(j)) % 0x1_0000_0000 == 0,
{
    power2::lemma_pow2_adds((j - 32) as nat, 32);
    assert(power2::pow2(32) == 0x1_0000_0000) by {
        power2::lemma2_to64();
    }
    let k = power2::pow2((j - 32) as nat) as int;
    assert(((j - 32) as nat + 32) as nat == j);
    mul::lemma_mul_is_associative(m, k, 0x1_0000_0000);
    div_mod::lemma_mod_multiples_basic(m * k, 0x1_0000_0000);
}

impl Number {
    /// The `ToInt32` operation of ECMAScript: the integer part, modulo 2^32, as a signed number.
    pub fn to_int_32(self) -> (r: i32)
        ensures
            r == self.int_32(),
    {
        let e: u64 = self.exponent_field();
        let f: u64 = self.fraction_field();
        if e == SPECIAL_EXPONENT {
            return 0;
        }
        let low: u64 = if e < 1023 {
            proof {
                power2::lemma_pow2_pos(1074);
                lemma_fractional(self);
                div_mod::lemma_basic_div(self.magnitude(), one());
            }
            0
        } else if e < 1075 {
            let m: u64 = HIDDEN_BIT + f;
            proof {
                lemma_mixed(self);
                bits::lemma_u64_shr_is_div(m, (1075 - e) as u64);
            }
            (m >> (1075 - e)) % 0x1_0000_0000
        } else if e < 1107 {
            let m: u64 = HIDDEN_BIT + f;
            let l: u64 = m % 0x1_0000_0000;
            let j: u64 = e - 1075;
            proof {
                lemma_large(self);
                let k = power2::pow2(j as nat) as int;
                power2::lemma_pow2_pos(j as nat);
                assert(k <= 0x8000_0000) by {
                    power2::lemma2_to64();
                    if j < 31 {
                        power2::lemma_pow2_strictly_increases(j as nat, 31);
                    }
                }
                assert(0 <= l * k <= 0x8000_0000 * 0x1_0000_0000) by (nonlinear_arith)
                    requires
                        0 <= l < 0x1_0000_0000,
                        0 < k <= 0x8000_0000,
                ;
                bits::lemma_u64_shl_is_mul(l, j);
                div_mod::lemma_mul_mod_noop_left(m as int, k, 0x1_0000_0000);
            }
            (l << j) % 0x1_0000_0000
        } else {
            proof {
                lemma_large(self);
                lemma_low_bits_vanish(0x10_0000_0000_0000 + f, (e - 1075) as nat);
            }
            0
        };
        assert(low == (self.magnitude() / one()) % 0x1_0000_0000);
        let residue: u64 = if self.is_negative() && low != 0 {
            0x1_0000_0000 - low
        } else {
            low
        };
        assert(residue == self.truncated() % 0x1_0000_0000);
        if residue >= 0x8000_0000 {
            (residue as i64 - 0x1_0000_0000) as i32
        } else {
            residue as i32
        }
    }

    /// The number as an integer, if it is one of less than 2^53 in absolute value.
    pub fn to_integer(self) -> (r: Option<i64>)
        ensures
            match r {
                Some(n) => self.is_integer(n as int) && -0x20_0000_0000_0000 < n
                    < 0x20_0000_0000_0000,
                None => forall|n: int|
                    -0x20_0000_0000_0000 < n < 0x20_0000_0000_0000 ==> !#[trigger] self.is_integer(
                        n,
                    ),
            },
    {
        if !self.is_whole() {
            proof {
                if self.finite() {
                    assert forall|n: int| !#[trigger] self.is_integer(n) by {
                        lemma_whole_is_integer(self, n);
                    }
                }
            }
            return None;
        }
        let e: u64 = self.exponent_field();
        let f: u64 = self.fraction_field();
        proof {
            lemma_whole_is_integer(self, 0);
            power2::lemma_pow2_pos(1074);
        }
        let magnitude: u64 = if e < 1023 {
            proof {
                lemma_fractional(self);
                div_mod::lemma_basic_div(self.magnitude(), one());
            }
            0
        } else if e < 1076 {
            let m: u64 = HIDDEN_BIT + f;
            proof {
                if e < 1075 {
                    lemma_mixed(self);
                } else {
                    lemma_large(self);
                    power2::lemma2_to64();
                }
                bits::lemma_u64_shr_is_div(m, (1075 - e) as u64);
                let d = power2::pow2((1075 - e) as nat) as int;
                power2::lemma_pow2_pos((1075 - e) as nat);
                div_mod::lemma_div_nonincreasing(m as int, d);
                div_mod::lemma_div_basics(m as int);
            }
            m >> (1075 - e)
        } else {
            proof {
                lemma_large(self);
                power2::lemma_pow2_unfold((e - 1075) as nat);
                power2::lemma_pow2_pos((e - 1076) as nat);
                let m = 0x10_0000_0000_0000 + self.fraction();
                let k = power2::pow2((e - 1075) as nat) as int;
                assert(m * k >= 0x20_0000_0000_0000) by (nonlinear_arith)
                    requires
                        m >= 0x10_0000_0000_0000,
                        k >= 2,
                ;
                assert forall|n: int|
                    -0x20_0000_0000_0000 < n < 0x20_0000_0000_0000 implies !#[trigger] self.is_integer(
                    n,
                ) by {
                    lemma_whole_is_integer(self, n);
                }
            }
            return None;
        };
        if self.is_negative() {
            Some(-(magnitude as i64))
        } else {
            Some(magnitude as i64)
        }
    }
}

/// The fields of a normal number that is put together from its exponent and significand.
proof fn lemma_assembled(x: Number, exponent: int, significand: int)
    requires
        0 < exponent < 2047,
        0x10_0000_0000_0000 <= significand < 0x20_0000_0000_0000,
        x.bits == exponent * 0x10_0000_0000_0000 + (significand - 0x10_0000_0000_0000),
    ensures
        !x.negative(),
        x.finite(),
        x.units() == significand * power2::pow2((exponent - 1) as nat),
{
    assert(x.exponent() == exponent);
    assert(x.fraction() == significand - 0x10_0000_0000_0000);
}

impl Number {
    /// The number nearest to an unsigned integer, as the `as` operator converts it.
    pub fn from_u64(n: u64) -> (r: Number)
        ensures
            r.converts(n as int),
    {
        if n == 0 {
            let r = Number { bits: 0 };
            proof {
                power2::lemma2_to64();
                assert(r.exponent() == 0 && r.fraction() == 0);
                assert(nearest(0) == 0) by {
                    assert(excess_bits(0) == 0);
                    assert(0nat / 1nat == 0 && 0nat % 1nat == 0);
                }
            }
            return r;
        }
        let mut quotient: u64 = n;
        let mut shift: u64 = 0;
        proof {
            power2::lemma2_to64();
            div_mod::lemma_div_basics(n as int);
        }
        while quotient >= 0x20_0000_0000_0000
            invariant
                n > 0,
                shift <= 11,
                quotient == n as nat / power2::pow2(shift as nat),
                shift + excess_bits(quotient as nat) == excess_bits(n as nat),
                shift > 0 ==> quotient >= 0x10_0000_0000_0000,
            decreases quotient,
        {
            proof {
                let p = power2::pow2(shift as nat) as int;
                power2::lemma_pow2_pos(shift as nat);
                power2::lemma_pow2_unfold((shift + 1) as nat);
                div_mod::lemma_div_denominator(n as int, p, 2);
                mul::lemma_mul_is_commutative(p, 2);
                if shift == 11 {
                    assert(p == 2048) by {
                        power2::lemma2_to64();
                    }
                    assert(n / 2048 < 0x20_0000_0000_0000);
                }
            }
            quotient = quotient / 2;
            shift = shift + 1;
        }
        let ghost step = power2::pow2(shift as nat) as int;
        let ghost rounded_down = quotient;
        proof {
            power2::lemma_pow2_pos(shift as nat);
            div_mod::lemma_fundamental_div_mod(n as int, step);
            mul::lemma_mul_is_commutative(step, quotient as int);
            assert(1 <= step <= 2048) by {
                power2::lemma2_to64();
                if shift < 11 {
                    power2::lemma_pow2_strictly_increases(shift as nat, 11);
                }
            }
            bits::lemma_u64_shl_is_mul(quotient, shift);
            bits::lemma_u64_shl_is_mul(1, shift);
            div_mod::lemma_mod_bound(n as int, step);
        }
        let remainder: u64 = n - (quotient << shift);
        let whole_step: u64 = 1u64 << shift;
        if 2 * remainder > whole_step || (2 * remainder == whole_step && quotient % 2 == 1) {
            quotient = quotient + 1;
        }
        assert(nearest(n as nat) == quotient * step);
        let mut exponent: u64 = 1075 + shift;
        if quotient == 0x20_0000_0000_0000 {
            let r = Number { bits: (exponent + 1) * HIDDEN_BIT };
            proof {
                lemma_assembled(r, exponent + 1, 0x10_0000_0000_0000);
                power2::lemma_pow2_unfold(exponent as nat);
                power2::lemma_pow2_adds(shift as nat, 1074);
                assert((shift as nat + 1074) as nat == (exponent - 1) as nat);
                mul::lemma_mul_is_associative(0x20_0000_0000_0000, step, one());
            }
            return r;
        }
        let ghost start = quotient;
        proof {
            power2::lemma_pow2_adds(shift as nat, 1074);
            assert((shift as nat + 1074) as nat == (exponent - 1) as nat);
            mul::lemma_mul_is_associative(quotient as int, step, one());
            if shift == 0 {
                div_mod::lemma_div_basics(n as int);
            }
        }
        while quotient < HIDDEN_BIT
            invariant
                0 < quotient < 0x20_0000_0000_0000,
                1022 < exponent <= 1086,
                start > 0,
                exponent <= 1075 || quotient >= HIDDEN_BIT,
                exponent <= 1075 ==> quotient == start * power2::pow2((1075 - exponent) as nat),
                quotient * power2::pow2((exponent - 1) as nat) == start * step * one(),
            decreases exponent,
        {
            proof {
                let k = (1075 - exponent) as nat;
                let p = power2::pow2(k) as int;
                power2::lemma_pow2_pos(k);
                if exponent == 1023 {
                    assert(p == 0x10_0000_0000_0000) by {
                        power2::lemma2_to64_rest();
                    }
                    assert(start * p >= p) by (nonlinear_arith)
                        requires
                            start > 0,
                            p > 0,
                    ;
                }
                power2::lemma_pow2_unfold((k + 1) as nat);
                power2::lemma_pow2_unfold((exponent - 1) as nat);
                assert((1075 - (exponent - 1)) as nat == k + 1);
                let h = power2::pow2((exponent - 2) as nat) as int;
                assert(quotient * (2 * h) == (2 * quotient) * h) by (nonlinear_arith);
                assert(start * (2 * p) == 2 * (start * p)) by (nonlinear_arith);
            }
            quotient = quotient * 2;
            exponent = exponent - 1;
        }
        let r = Number { bits: exponent * HIDDEN_BIT + (quotient - HIDDEN_BIT) };
        proof {
            lemma_assembled(r, exponent as int, quotient as int);
        }
        r
    }

    /// The number nearest to a signed integer, as the `as` operator converts it.
    pub fn from_i64(n: i64) -> (r: Number)
        ensures
            r.converts(n as int),
    {
        if n >= 0 {
            Number::from_u64(n as u64)
        } else {
            let m: u64 = (-(n + 1)) as u64 + 1;
            let r = Number::from_u64(m).negated();
            proof {
                mul::lemma_mul_unary_negation(nearest(m as nat) as int, one());
            }
            r
        }
    }
}

/// Integers of up to 53 bits convert without rounding.
pub proof fn lemma_nearest_exact(n: nat)
    requires
        n < 0x20_0000_0000_0000,
    ensures
        nearest(n) == n,
{
    power2::lemma2_to64();
    assert(excess_bits(n) == 0);
    div_mod::lemma_div_basics(n as int);
    assert(n % 1 == 0);
}

/// What is left of an integer beyond 53 bits after the halving still takes 53 bits.
proof fn lemma_halved(n: nat)
    requires
        n >= 0x20_0000_0000_0000,
    ensures
        excess_bits(n) >= 1,
        n / power2::pow2(excess_bits(n)) >= 0x10_0000_0000_0000,
    decreases n,
{
    let k = excess_bits(n / 2);
    power2::lemma_pow2_pos(k);
    power2::lemma_pow2_unfold((k + 1) as nat);
    div_mod::lemma_div_denominator(n as int, 2, power2::pow2(k) as int);
    if n / 2 >= 0x20_0000_0000_0000 {
        lemma_halved(n / 2);
    } else {
        power2::lemma2_to64();
        div_mod::lemma_div_basics((n / 2) as int);
    }
}

/// No integer of up to 53 bits lies between an integer above it and what that converts to.
pub proof fn lemma_nearest_not_below(n: nat, a: nat)
    requires
        a <= n,
        a < 0x20_0000_0000_0000,
    ensures
        a <= nearest(n),
{
    if n < 0x20_0000_0000_0000 {
        lemma_nearest_exact(n);
    } else {
        let k = excess_bits(n);
        let step = power2::pow2(k) as int;
        let quotient = n as int / step;
        lemma_halved(n);
        power2::lemma2_to64();
        if k > 1 {
            power2::lemma_pow2_strictly_increases(1, k);
        }
        assert(quotient * step >= 0x20_0000_0000_0000 && (quotient + 1) * step
            >= 0x20_0000_0000_0000) by (nonlinear_arith)
            requires
                quotient >= 0x10_0000_0000_0000,
                step >= 2,
        ;
    }
}

/// An integer of up to 31 bits, as a number: it is whole, wraps to itself, and compares with other
/// integers as integers do.
pub proof fn lemma_small_integer(x: Number, n: int)
    requires
        x.is_integer(n),
        0 <= n < 0x8000_0000,
    ensures
        x.whole(),
        x.truncated() == n,
        x.int_32() == n,
        !x.nan(),
        !x.infinite(),
        !x.below_integer(0),
        forall|bound: nat| n <= bound ==> !#[trigger] x.above_integer(bound),
        forall|bound: nat|
            n < bound < 0x20_0000_0000_0000 ==> #[trigger] x.below_integer(bound),
{
    lemma_whole_is_integer(x, n);
    lemma_nearest_exact(0);
    power2::lemma_pow2_pos(1074);
    let o = one();
    assert(0 <= n * o) by (nonlinear_arith)
        requires
            0 <= n,
            o > 0,
    ;
    assert(n % 0x1_0000_0000 == n) by {
        div_mod::lemma_small_mod(n as nat, 0x1_0000_0000);
    }
    assert forall|bound: nat| n <= bound implies !#[trigger] x.above_integer(bound) by {
        lemma_nearest_not_below(bound, n as nat);
        let m = nearest(bound) as int;
        assert(n * o <= m * o) by (nonlinear_arith)
            requires
                n <= m,
                o > 0,
        ;
    }
    assert forall|bound: nat|
        n < bound < 0x20_0000_0000_0000 implies #[trigger] x.below_integer(bound) by {
        lemma_nearest_exact(bound);
        assert(n * o < bound * o) by (nonlinear_arith)
            requires
                n < bound,
                o > 0,
        ;
    }
}

impl Number {
    /// Whether the number is less than an integer, once that is converted.
    pub fn is_below_integer(self, n: u64) -> (r: bool)
        ensures
            r == self.below_integer(n as nat),
    {
        self.is_below(Number::from_u64(n))
    }

    /// Whether the number is greater than an integer, once that is converted.
    pub fn is_above_integer(self, n: u64) -> (r: bool)
        ensures
            r == self.above_integer(n as nat),
    {
        Number::from_u64(n).is_below(self)
    }
}

/// Numbers that are integers are in the order of the integers.
pub proof fn lemma_integer_order(x: Number, a: int, y: Number, b: int)
    requires
        x.is_integer(a),
        y.is_integer(b),
    ensures
        x.below(y) == (a < b),
        y.below(x) == (b < a),
{
    power2::lemma_pow2_pos(1074);
    let o = one();
    assert((a < b ==> a * o < b * o) && (b < a ==> b * o < a * o)) by (nonlinear_arith)
        requires
            o > 0,
    ;
}

/// Up to the first exponent above the lowest, the bits below the sign count the multiples of
/// 2^-1074.
pub proof fn law_small_magnitudes(x: Number)
    requires
        x.bits as int % 0x8000_0000_0000_0000 < 0x20_0000_0000_0000,
    ensures
        x.finite(),
        x.magnitude() == x.bits as int % 0x8000_0000_0000_0000,
{
    lemma_fields(x);
    power2::lemma2_to64();
    assert(x.exponent() == 0 || x.exponent() == 1);
    mul::lemma_mul_basics(0x10_0000_0000_0000 + x.fraction());
}

/// The next higher exponent doubles a number, and keeps its sign.
pub proof fn law_exponent_doubles(x: Number, y: Number)
    requires
        x.bits as int % 0x8000_0000_0000_0000 >= 0x10_0000_0000_0000,
        y.bits as int == x.bits as int + 0x10_0000_0000_0000,
        y.bits as int % 0x8000_0000_0000_0000 < 0x7ff0_0000_0000_0000,
        x.bits as int % 0x8000_0000_0000_0000 < 0x7ff0_0000_0000_0000,
    ensures
        x.finite(),
        y.finite(),
        y.units() == 2 * x.units(),
        y.magnitude() == 2 * x.magnitude(),
{
    lemma_fields(x);
    lemma_fields(y);
    assert(y.fraction() == x.fraction() && y.exponent() == x.exponent() + 1);
    let m = 0x10_0000_0000_0000 + x.fraction();
    let e = x.exponent();
    let p = power2::pow2((e - 1) as nat) as int;
    power2::lemma_pow2_unfold(e as nat);
    assert(m * (2 * p) == 2 * (m * p)) by (nonlinear_arith);
    assert(x.negative() == y.negative());
}

/// The highest exponent holds the infinities and not-a-number, and no other does.
pub proof fn law_special_numbers(x: Number)
    ensures
        x.infinite() <==> x.bits as int % 0x8000_0000_0000_0000 == 0x7ff0_0000_0000_0000,
        x.nan() <==> x.bits as int % 0x8000_0000_0000_0000 > 0x7ff0_0000_0000_0000,
        x.finite() <==> x.bits as int % 0x8000_0000_0000_0000 < 0x7ff0_0000_0000_0000,
        x.negative() <==> x.bits as int / 0x8000_0000_0000_0000 == 1,
        x.units() == (if x.negative() {
            -x.magnitude()
        } else {
            x.magnitude()
        }),
{
    lemma_fields(x);
}

/// A number is whole where it is some integer, and then its integer part is that integer.
pub proof fn law_whole(x: Number)
    ensures
        x.whole() <==> exists|n: int| #[trigger] x.is_integer(n),
        forall|n: int| #[trigger] x.is_integer(n) ==> x.truncated() == n,
{
    if x.finite() {
        lemma_whole_is_integer(x, x.truncated());
        assert forall|n: int| #[trigger] x.is_integer(n) implies x.whole() && x.truncated() == n by {
            lemma_whole_is_integer(x, n);
        }
    }
}

/// The integer part of a finite number is the next integer towards zero.
pub proof fn law_truncated(x: Number)
    requires
        x.finite(),
    ensures
        !x.negative() ==> x.truncated() >= 0 && x.truncated() * one() <= x.units() < (x.truncated()
            + 1) * one(),
        x.negative() ==> x.truncated() <= 0 && (x.truncated() - 1) * one() < x.units()
            <= x.truncated() * one(),
{
    let o = one();
    let g = x.magnitude();
    power2::lemma_pow2_pos(1074);
    lemma_fields(x);
    if x.exponent() > 0 {
        let m = 0x10_0000_0000_0000 + x.fraction();
        let p = power2::pow2((x.exponent() - 1) as nat) as int;
        power2::lemma_pow2_pos((x.exponent() - 1) as nat);
        assert(m * p >= 0) by (nonlinear_arith)
            requires
                m >= 0,
                p > 0,
        ;
    }
    assert(g >= 0);
    let q = g / o;
    div_mod::lemma_fundamental_div_mod(g, o);
    div_mod::lemma_mod_bound(g, o);
    div_mod::lemma_div_pos_is_pos(g, o);
    mul::lemma_mul_is_commutative(o, q);
    assert((q + 1) * o == q * o + o && (-q - 1) * o == -(q * o) - o && (-q) * o == -(q * o))
        by (nonlinear_arith);
}

/// `ToInt32` is the one integer in the range of 32 bits with a sign that differs from the integer
/// part by a multiple of 2^32; it is zero for what is not finite.
pub proof fn law_int_32(x: Number)
    ensures
        -0x8000_0000 <= x.int_32() < 0x8000_0000,
        x.finite() ==> (x.int_32() - x.truncated()) % 0x1_0000_0000 == 0,
        !x.finite() ==> x.int_32() == 0,
        x.finite() && -0x8000_0000 <= x.truncated() < 0x8000_0000 ==> x.int_32() == x.truncated(),
{
}

/// The order of numbers: not-a-number is outside it, the infinities are at its ends, and finite
/// numbers are in the order of their values.
pub proof fn law_order(x: Number, y: Number)
    ensures
        x.below(y) ==> !x.nan() && !y.nan() && !y.below(x),
        x.finite() && y.finite() ==> (x.below(y) <==> x.units() < y.units()),
        x.finite() && y.infinite() ==> (x.below(y) <==> !y.negative()),
        x.infinite() && y.finite() ==> (x.below(y) <==> x.negative()),
        x.infinite() && y.infinite() ==> (x.below(y) <==> x.negative() && !y.negative()),
{
}

/// A number is compared with an integer of up to 53 bits by its value, with any other by the
/// number that this converts to.
pub proof fn law_integer_bounds(x: Number, n: nat, y: Number)
    requires
        y.converts(n as int),
    ensures
        x.below_integer(n) <==> x.below(y),
        x.above_integer(n) <==> y.below(x),
        x.finite() && n < 0x20_0000_0000_0000 ==> (x.below_integer(n) <==> x.units() < n * one()),
        x.finite() && n < 0x20_0000_0000_0000 ==> (x.above_integer(n) <==> x.units() > n * one()),
{
    if n < 0x20_0000_0000_0000 {
        lemma_nearest_exact(n);
    }
}

/// An integer of up to 53 bits converts to the number that it is; zero to the one without a sign.
pub proof fn law_conversion_exact(x: Number, n: int)
    requires
        x.converts(n),
        -0x20_0000_0000_0000 < n < 0x20_0000_0000_0000,
    ensures
        x.is_integer(n),
        x.negative() <==> n < 0,
{
    if n < 0 {
        lemma_nearest_exact((-n) as nat);
    } else {
        lemma_nearest_exact(n as nat);
    }
}

proof fn lemma_excess(n: nat)
    ensures
        n < 0x20_0000_0000_0000 * power2::pow2(excess_bits(n)),
    decreases n,
{
    power2::lemma2_to64();
    if n >= 0x20_0000_0000_0000 {
        let k = excess_bits(n / 2);
        lemma_excess(n / 2);
        power2::lemma_pow2_unfold((k + 1) as nat);
    }
}

/// Any other integer converts to the nearest of the multiples of a power of two that have 53
/// bits, and halfway between two to the even one.
pub proof fn law_nearest(n: nat) -> (k: nat)
    ensures
        n < 0x20_0000_0000_0000 * power2::pow2(k),
        k > 0 ==> n >= 0x10_0000_0000_0000 * power2::pow2(k),
        nearest(n) as int % power2::pow2(k) as int == 0,
        -(power2::pow2(k) as int) <= 2 * (nearest(n) - n) <= power2::pow2(k),
        2 * (nearest(n) - n) == power2::pow2(k) || 2 * (n - nearest(n)) == power2::pow2(k) ==> (
        nearest(n) as int / power2::pow2(k) as int) % 2 == 0,
{
    let k = excess_bits(n);
    let step = power2::pow2(k) as int;
    let q = n as int / step;
    let r = n as int % step;
    power2::lemma_pow2_pos(k);
    lemma_excess(n);
    div_mod::lemma_fundamental_div_mod(n as int, step);
    div_mod::lemma_mod_bound(n as int, step);
    mul::lemma_mul_is_commutative(step, q);
    if k > 0 {
        lemma_halved(n);
        assert(q * step >= 0x10_0000_0000_0000 * step) by (nonlinear_arith)
            requires
                q >= 0x10_0000_0000_0000,
                step > 0,
        ;
    }
    assert((q + 1) * step == q * step + step) by (nonlinear_arith);
    div_mod::lemma_mod_multiples_basic(q, step);
    div_mod::lemma_mod_multiples_basic(q + 1, step);
    div_mod::lemma_div_by_multiple(q, step);
    div_mod::lemma_div_by_multiple(q + 1, step);
    k
}

/// The negation of a number differs from it in the sign bit alone, and has the opposite value.
pub proof fn law_negation(x: Number)
    ensures
        x.negation().bits != x.bits,
        x.negation().bits as int % 0x8000_0000_0000_0000 == x.bits as int % 0x8000_0000_0000_0000,
        x.negation().negation() == x,
        x.finite() ==> x.negation().finite() && x.negation().units() == -x.units(),
{
    let y = x.negation();
    lemma_fields(x);
    lemma_fields(y);
    assert(y.exponent() == x.exponent() && y.fraction() == x.fraction());
}

/// Only one number is what an integer converts to: to say that a literal stands for the integer
/// leaves nothing open.
pub proof fn law_conversion_unique(a: Number, b: Number, n: int)
    requires
        a.converts(n),
        b.converts(n),
    ensures
        a == b,
{
    let x = a.bits as int % 0x8000_0000_0000_0000;
    let y = b.bits as int % 0x8000_0000_0000_0000;
    if x < y {
        lemma_magnitude_order(a, b);
    } else if y < x {
        lemma_magnitude_order(b, a);
    }
}

/// The all-zero bit pattern is the integer zero.
pub proof fn lemma_zero()
    ensures
        (Number { bits: 0 }).whole(),
        (Number { bits: 0 }).int_32() == 0,
{
    let zero = Number { bits: 0 };
    power2::lemma_pow2_pos(1074);
    assert(zero.exponent() == 0 && zero.fraction() == 0);
    div_mod::lemma_small_mod(0, one() as nat);
    div_mod::lemma_basic_div(0, one());
}

} // verus!

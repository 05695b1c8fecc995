use vstd::prelude::*;
use vstd::arithmetic::mul::{
    lemma_mul_basics, lemma_mul_is_commutative, lemma_mul_unary_negation,
};
use crate::big_uint::BigUint;
use crate::digits::{
    pow_base, lemma_order_range, lemma_order_swap, lemma_pow_base_pos, lemma_seq_order, lemma_value_lower_bound, seq_order,
    sign_of_diff,
};

verus! {

/// The sign of a `BigInt`; the negative sign orders below the positive one.
#[derive(Debug, PartialEq, Eq, Clone, Copy, Structural)]
pub enum Sign {
    Positive,
    Negative,
}

impl Default for Sign {
    fn default() -> (r: Self)
        ensures
            r == Sign::Positive,
    {
        Sign::Positive
    }
}

impl Sign {
    /// 1 for the positive sign, -1 for the negative one.
    pub open spec fn factor(self) -> int {
        match self {
            Sign::Positive => 1,
            Sign::Negative => -1,
        }
    }

    /// The other sign.
    pub open spec fn flip(self) -> Sign {
        match self {
            Sign::Positive => Sign::Negative,
            Sign::Negative => Sign::Positive,
        }
    }

    /// The sign of a product or a quotient of numbers with signs `self` and `other`.
    pub open spec fn times(self, other: Sign) -> Sign {
        if self == other {
            Sign::Positive
        } else {
            Sign::Negative
        }
    }
}

/// An arbitrary-precision integer: a sign and a magnitude.
#[derive(Debug, PartialEq, Eq, Clone, Default)]
pub struct BigInt {
    pub sign: Sign,
    pub value: BigUint,
}

impl View for BigInt {
    type V = int;

    open spec fn view(&self) -> int {
        self.sign.factor() * self.value@
    }
}

/// -1, 0 or 1: the order of the signs (negative below positive), and for equal signs the
/// order of the magnitudes' digits (see `seq_order`).
pub open spec fn sign_then_magnitude(a: BigInt, b: BigInt) -> int {
    if a.sign != b.sign {
        if a.sign == Sign::Negative {
            -1
        } else {
            1
        }
    } else {
        seq_order(a.value.value@, b.value.value@)
    }
}

/// The sign of the sum of `a` and `b`: the common sign when the signs agree, otherwise that of
/// the magnitude whose digits order above (see `seq_order`), or positive when they are equal.
pub open spec fn sum_sign(a: BigInt, b: BigInt) -> Sign {
    if a.sign == b.sign {
        a.sign
    } else if seq_order(a.value.value@, b.value.value@) == 1 {
        a.sign
    } else if seq_order(a.value.value@, b.value.value@) == -1 {
        b.sign
    } else {
        Sign::Positive
    }
}

/// `a - b` as `BigUint::sub` computes it when the digits of `a` order above those of `b`:
/// the difference, or, when `a` is not normalized and denotes less, the difference plus
/// `pow_base` of the length of `a`.
pub open spec fn digits_diff(a: BigUint, b: BigUint) -> nat {
    if a@ >= b@ {
        (a@ - b@) as nat
    } else {
        (a@ + pow_base(a.value@.len()) - b@) as nat
    }
}

/// The magnitude of the sum of `a` and `b`: the sum of the magnitudes when the signs agree,
/// otherwise the difference of the larger by the order of digits and the smaller, or zero.
pub open spec fn magnitude_sum(a: BigInt, b: BigInt) -> nat {
    if a.sign == b.sign {
        a.value@ + b.value@
    } else if seq_order(a.value.value@, b.value.value@) == 1 {
        digits_diff(a.value, b.value)
    } else if seq_order(a.value.value@, b.value.value@) == -1 {
        digits_diff(b.value, a.value)
    } else {
        0
    }
}

/// The negation of `b` as `neg` gives it: the sign flips unless the magnitude has no digit.
pub open spec fn negated(b: BigInt) -> BigInt {
    BigInt {
        sign: if b.value.value@.len() == 0 {
            b.sign
        } else {
            b.sign.flip()
        },
        value: b.value,
    }
}

/// On well-formed numbers that are not both negative, comparing orders them as their values
/// are ordered. (Two negative numbers are ordered as their magnitudes are: -5 comes above -3.)
pub proof fn law_order_of_values(a: BigInt, b: BigInt)
    requires
        a.wf(),
        b.wf(),
        !(a.sign == Sign::Negative && b.sign == Sign::Negative),
    ensures
        sign_then_magnitude(a, b) == sign_of_diff(a@, b@),
{
    lemma_seq_order(a.value.value@, b.value.value@);
    if a.sign == Sign::Negative {
        lemma_value_lower_bound(a.value.value@);
        lemma_pow_base_pos((a.value.value@.len() - 1) as nat);
    }
    if b.sign == Sign::Negative {
        lemma_value_lower_bound(b.value.value@);
        lemma_pow_base_pos((b.value.value@.len() - 1) as nat);
    }
}

impl BigInt {
    /// The representation invariant: a normalized magnitude, and zero is positive.
    pub open spec fn wf(&self) -> bool {
        &&& self.value.wf()
        &&& (self.value.value@.len() == 0 ==> self.sign == Sign::Positive)
    }

    /// Zero: positive, with no digit.
    pub fn zero() -> (r: BigInt)
        ensures
            r@ == 0,
            r.wf(),
            r.sign == Sign::Positive,
            r.value.value@.len() == 0,
    {
        BigInt { sign: Sign::Positive, value: BigUint::zero() }
    }

    /// Normalizes the magnitude and makes zero positive.
    fn normalize(&mut self)
        ensures
            final(self)@ == old(self)@,
            final(self).wf(),
            final(self).value.value@.len() > 0 ==> final(self).sign == old(self).sign,
    {
        self.value.normalize();
        if self.value.is_zero() {
            self.sign = Sign::Positive;
        }
    }

    /// True when the magnitude has no digit.
    pub fn is_zero(&self) -> (r: bool)
        ensures
            r == (self.value.value@.len() == 0),
            self.wf() ==> (r == (self@ == 0)),
    {
        self.value.is_zero()
    }

    /// The integer with the given sign and magnitude.
    pub fn new(sign: Sign, value: BigUint) -> (r: BigInt)
        ensures
            r.sign == sign,
            r.value == value,
    {
        BigInt { sign, value }
    }

    /// `n`, positive, with the single digit `n`.
    pub fn from_u64(n: u64) -> (r: Self)
        ensures
            r@ == n,
            r.sign == Sign::Positive,
            r.value.value@ == seq![n],
            n != 0 ==> r.wf(),
    {
        let mut value = Vec::new();
        value.push(n);
        proof {
            crate::digits::lemma_value_single(n);
            assert(value@ =~= seq![n]);
        }
        BigInt { sign: Sign::Positive, value: BigUint { value } }
    }

    /// The absolute value: the same magnitude, positive.
    pub fn abs(self) -> (r: BigInt)
        ensures
            r.sign == Sign::Positive,
            r.value == self.value,
            r@ == self.value@,
    {
        match self.sign {
            Sign::Positive => self,
            Sign::Negative => BigInt { sign: Sign::Positive, value: self.value },
        }
    }

    /// `n`, negative when `n` is, with the single digit `|n|`.
    pub fn from_i64(n: i64) -> (r: Self)
        requires
            n > i64::MIN,
        ensures
            r@ == n,
            r.sign == (if n < 0 {
                Sign::Negative
            } else {
                Sign::Positive
            }),
            r.value.value@ == seq![(if n < 0 { -(n as int) } else { n as int }) as u64],
            n != 0 ==> r.wf(),
    {
        let sign = if n < 0 {
            Sign::Negative
        } else {
            Sign::Positive
        };
        let magnitude: u64 = if n < 0 {
            (-n) as u64
        } else {
            n as u64
        };
        let mut value = Vec::new();
        value.push(magnitude);
        proof {
            crate::digits::lemma_value_single(magnitude);
            assert(value@ =~= seq![magnitude]);
        }
        BigInt { sign, value: BigUint { value } }
    }

    /// The sum. When the signs agree the magnitudes are added under that sign (so two
    /// negative zeros give a negative zero); otherwise the smaller magnitude, by the order of
    /// digits, is taken from the larger (see `magnitude_sum`), under the sign of the larger, or
    /// the result is zero when they are equal. On normalized magnitudes this is the sum.
    pub fn add(&self, other: &Self) -> (r: BigInt)
        ensures
            r.sign == sum_sign(*self, *other),
            r.value@ == magnitude_sum(*self, *other),
            self.value.wf() && other.value.wf() ==> r@ == self@ + other@,
            self.value.wf() && other.value.wf() ==> r.value.wf(),
            self.wf() && other.wf() ==> r.wf(),
    {
        proof {
            lemma_factor_mul(self.sign, self.value@ as int);
            lemma_factor_mul(other.sign, other.value@ as int);
        }
        proof {
            lemma_order_swap(self.value.value@, other.value.value@);
        }
        if self.sign == other.sign {
            let value = self.value.add(&other.value);
            proof {
                lemma_factor_mul(self.sign, value@ as int);
            }
            proof {
                if self.wf() && self.sign == Sign::Negative && value.value@.len() == 0 {
                    assert(self.value.value@.len() > 0);
                    crate::digits::lemma_value_lower_bound(self.value.value@);
                    crate::digits::lemma_pow_base_pos((self.value.value@.len() - 1) as nat);
                }
            }
            BigInt { sign: self.sign, value }
        } else {
            let c = self.value.compare(&other.value);
            if c == 0 {
                BigInt::zero()
            } else if c > 0 {
                let value = self.value.sub(&other.value);
                proof {
                    lemma_factor_mul(self.sign, value@ as int);
                    if value.value@.len() == 0 {
                        assert(value@ == 0);
                    }
                }
                BigInt { sign: self.sign, value }
            } else {
                let value = other.value.sub(&self.value);
                proof {
                    lemma_factor_mul(other.sign, value@ as int);
                    if value.value@.len() == 0 {
                        assert(value@ == 0);
                    }
                }
                BigInt { sign: other.sign, value }
            }
        }
    }

    /// The negation: the sign flips unless the magnitude has no digit.
    pub fn neg(self) -> (r: BigInt)
        ensures
            r@ == -self@,
            r.value == self.value,
            r.sign == (if self.value.value@.len() == 0 {
                self.sign
            } else {
                self.sign.flip()
            }),
            self.wf() ==> r.wf(),
    {
        if self.value.is_zero() {
            return self;
        }
        let sign = if self.sign == Sign::Positive {
            Sign::Negative
        } else {
            Sign::Positive
        };
        BigInt { sign, value: self.value }
    }

    /// The difference `self - other`: the sum of `self` and the negation of `other`.
    pub fn sub(&self, other: &Self) -> (r: BigInt)
        ensures
            r.sign == sum_sign(*self, negated(*other)),
            r.value@ == magnitude_sum(*self, negated(*other)),
            self.value.wf() && other.value.wf() ==> r@ == self@ - other@,
            self.value.wf() && other.value.wf() ==> r.value.wf(),
            self.wf() && other.wf() ==> r.wf(),
    {
        let negated = BigInt { sign: other.sign, value: other.value.duplicate() }.neg();
        self.add(&negated)
    }

    /// Orders by sign first (negative below positive), then by the order of the magnitudes,
    /// whatever the sign. Two negative numbers are thus ordered as their magnitudes are.
    pub fn cmp(&self, other: &Self) -> (r: core::cmp::Ordering)
        ensures
            (r == core::cmp::Ordering::Less) == (sign_then_magnitude(*self, *other) == -1),
            (r == core::cmp::Ordering::Equal) == (sign_then_magnitude(*self, *other) == 0),
            (r == core::cmp::Ordering::Greater) == (sign_then_magnitude(*self, *other) == 1),
    {
        proof {
            lemma_order_range(self.value.value@, other.value.value@);
        }
        if self.sign != other.sign {
            return if self.sign == Sign::Negative {
                core::cmp::Ordering::Less
            } else {
                core::cmp::Ordering::Greater
            };
        }
        self.value.cmp(&other.value)
    }

    /// The product, normalized.
    pub fn mul(&self, other: &Self) -> (r: BigInt)
        requires
            self.value.value@.len() + other.value.value@.len() <= usize::MAX,
        ensures
            r@ == self@ * other@,
            r.wf(),
    {
        if self.is_zero() || other.is_zero() {
            proof {
                lemma_mul_basics(self@);
                lemma_mul_basics(other@);
                lemma_mul_basics(self.sign.factor());
                lemma_mul_basics(other.sign.factor());
            }
            return BigInt::zero();
        }
        let value = self.value.mul(&other.value);
        let sign = if self.sign == other.sign {
            Sign::Positive
        } else {
            Sign::Negative
        };
        let mut result = BigInt { sign, value };
        proof {
            lemma_sign_product(self.sign, other.sign, self.value@, other.value@);
        }
        result.normalize();
        result
    }

    /// The quotient of the magnitudes, rounded down, with the sign of the product of the
    /// signs (not made positive when the quotient is zero).
    pub fn div(&self, d: &Self) -> (r: BigInt)
        requires
            d.value@ > 0,
            self.value.value@.len() + d.value.value@.len() <= usize::MAX,
        ensures
            r.sign == self.sign.times(d.sign),
            r.value@ == self.value@ / d.value@,
            r.value.wf(),
            r.value.value@.len() <= self.value.value@.len(),
    {
        let sign = if self.sign == d.sign {
            Sign::Positive
        } else {
            Sign::Negative
        };
        let value = self.value.div(&d.value);
        BigInt { sign, value }
    }

    /// Division truncated toward zero: the quotient of the magnitudes with the sign of the
    /// product of the signs, and the remainder of the magnitudes with the sign of `self`.
    pub fn div_mod(&self, d: &Self) -> (r: (BigInt, BigInt))
        requires
            self.value.wf(),
            d.value@ > 0,
            self.value.value@.len() + d.value.value@.len() <= usize::MAX,
        ensures
            r.0.sign == self.sign.times(d.sign),
            r.0.value@ == self.value@ / d.value@,
            r.0.value.wf(),
            r.1.sign == self.sign,
            r.1.value@ == self.value@ % d.value@,
            r.1.value.wf(),
    {
        let q = self.div(d);
        let m = q.value.mul(&d.value);
        let rem = self.value.sub(&m);
        proof {
            let a = self.value@ as int;
            let b = d.value@ as int;
            vstd::arithmetic::div_mod::lemma_fundamental_div_mod(a, b);
            lemma_mul_is_commutative(b, a / b);
            vstd::arithmetic::div_mod::lemma_mod_pos_bound(a, b);
        }
        (q, BigInt { sign: self.sign, value: rem })
    }
}

/// Multiplying by a sign's factor keeps or negates.
pub proof fn lemma_factor_mul(s: Sign, x: int)
    ensures
        s.factor() * x == (if s == Sign::Positive {
            x
        } else {
            -x
        }),
{
    lemma_mul_basics(x);
    lemma_mul_unary_negation(1, x);
}

/// The value of a product of signed magnitudes.
pub proof fn lemma_sign_product(s: Sign, t: Sign, a: nat, b: nat)
    ensures
        s.times(t).factor() * (a * b) == (s.factor() * a) * (t.factor() * b),
{
    lemma_factor_mul(s, a as int);
    lemma_factor_mul(t, b as int);
    lemma_factor_mul(s.times(t), (a * b) as int);
    vstd::arithmetic::mul::lemma_mul_unary_negation(a as int, b as int);
    vstd::arithmetic::mul::lemma_mul_unary_negation(a as int, -(b as int));
    vstd::arithmetic::mul::lemma_mul_unary_negation(-(a as int), b as int);
}

impl BigUint {
    /// The positive integer with this magnitude.
    pub fn to_big_int(self) -> (r: BigInt)
        ensures
            r.sign == Sign::Positive,
            r.value == self,
            r@ == self@,
    {
        BigInt { sign: Sign::Positive, value: self }
    }
}

// The operators forward to the methods above and repeat their contracts.
impl vstd::std_specs::ops::AddSpecImpl for &BigInt {
    open spec fn obeys_add_spec() -> bool {
        false
    }

    open spec fn add_req(self, rhs: &BigInt) -> bool {
        true
    }

    open spec fn add_spec(self, rhs: &BigInt) -> BigInt {
        arbitrary()
    }
}

impl core::ops::Add for &BigInt {
    type Output = BigInt;

    fn add(self, other: Self) -> (r: BigInt)
        ensures
            r.sign == sum_sign(*self, *other),
            r.value@ == magnitude_sum(*self, *other),
            self.value.wf() && other.value.wf() ==> r@ == self@ + other@,
            self.wf() && other.wf() ==> r.wf(),
    {
        BigInt::add(self, other)
    }
}

impl vstd::std_specs::ops::SubSpecImpl for BigInt {
    open spec fn obeys_sub_spec() -> bool {
        false
    }

    open spec fn sub_req(self, rhs: BigInt) -> bool {
        true
    }

    open spec fn sub_spec(self, rhs: BigInt) -> BigInt {
        arbitrary()
    }
}

impl core::ops::Sub for BigInt {
    type Output = BigInt;

    fn sub(self, other: Self) -> (r: BigInt)
        ensures
            r.sign == sum_sign(self, negated(other)),
            r.value@ == magnitude_sum(self, negated(other)),
            self.value.wf() && other.value.wf() ==> r@ == self@ - other@,
            self.wf() && other.wf() ==> r.wf(),
    {
        BigInt::sub(&self, &other)
    }
}

impl vstd::std_specs::ops::NegSpecImpl for BigInt {
    open spec fn obeys_neg_spec() -> bool {
        false
    }

    open spec fn neg_req(self) -> bool {
        true
    }

    open spec fn neg_spec(self) -> BigInt {
        arbitrary()
    }
}

impl core::ops::Neg for BigInt {
    type Output = BigInt;

    fn neg(self) -> (r: BigInt)
        ensures
            r@ == -self@,
            r.value == self.value,
    {
        BigInt::neg(self)
    }
}

impl vstd::std_specs::ops::MulSpecImpl for &BigInt {
    open spec fn obeys_mul_spec() -> bool {
        false
    }

    open spec fn mul_req(self, rhs: &BigInt) -> bool {
        self.value.value@.len() + rhs.value.value@.len() <= usize::MAX
    }

    open spec fn mul_spec(self, rhs: &BigInt) -> BigInt {
        arbitrary()
    }
}

impl core::ops::Mul for &BigInt {
    type Output = BigInt;

    fn mul(self, other: Self) -> (r: BigInt)
        ensures
            r@ == self@ * other@,
            r.wf(),
    {
        BigInt::mul(self, other)
    }
}

impl vstd::std_specs::ops::DivSpecImpl for &BigInt {
    open spec fn obeys_div_spec() -> bool {
        false
    }

    open spec fn div_req(self, rhs: &BigInt) -> bool {
        rhs.value@ > 0 && self.value.value@.len() + rhs.value.value@.len() <= usize::MAX
    }

    open spec fn div_spec(self, rhs: &BigInt) -> BigInt {
        arbitrary()
    }
}

impl core::ops::Div for &BigInt {
    type Output = BigInt;

    fn div(self, d: Self) -> (r: BigInt)
        ensures
            r.sign == self.sign.times(d.sign),
            r.value@ == self.value@ / d.value@,
    {
        BigInt::div(self, d)
    }
}

} // verus!

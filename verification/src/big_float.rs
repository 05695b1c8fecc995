use vstd::prelude::*;
use vstd::arithmetic::power::{pow, lemma_pow_positive};
use vstd::arithmetic::power2::{pow2, lemma_pow2_pos, lemma_pow2_unfold};
use vstd::arithmetic::div_mod::{
    lemma_div_denominator, lemma_mod_breakdown, lemma_fundamental_div_mod,
    lemma_fundamental_div_mod_converse, lemma_mod_pos_bound,
};
use vstd::arithmetic::mul::{lemma_mul_is_associative, lemma_mul_is_commutative, lemma_mul_strictly_positive};
use crate::big_int::{BigInt, Sign};
use crate::big_uint::BigUint;
use crate::digits::{
    base, pow_base, lemma_value_bound, lemma_value_lower_bound, lemma_pow_base_pow2, lemma_pow_base_pos,
    lemma_pow_base_succ, lemma_pow_base_adds, lemma_normalized_len_bound,
};

verus! {

/// `x` when it is not negative, zero otherwise.
pub open spec fn nonneg(x: int) -> nat {
    if x >= 0 {
        x as nat
    } else {
        0
    }
}

/// The number `s * 2^two * 5^five / 2^t` is the fraction `scaled_num / scaled_den`.
pub open spec fn scaled_num(s: nat, two: int, five: int, t: int) -> nat {
    s * (pow(5, nonneg(five)) as nat) * pow2(nonneg(two - t))
}

/// See `scaled_num`.
pub open spec fn scaled_den(two: int, five: int, t: int) -> nat {
    (pow(5, nonneg(-five)) as nat) * pow2(nonneg(t - two))
}

/// `s * 2^two * 5^five / 2^t`, rounded down.
pub open spec fn scaled_floor(s: nat, two: int, five: int, t: int) -> nat {
    scaled_num(s, two, five, t) / scaled_den(two, five, t)
}

/// True when `s * 2^two * 5^five` is a whole multiple of `2^t`.
pub open spec fn scaled_exact(s: nat, two: int, five: int, t: int) -> bool {
    scaled_num(s, two, five, t) % scaled_den(two, five, t) == 0
}

pub proof fn lemma_scaled_den_pos(two: int, five: int, t: int)
    ensures
        scaled_den(two, five, t) > 0,
{
    lemma_pow_positive(5, nonneg(-five));
    lemma_pow2_pos(nonneg(t - two));
    lemma_mul_strictly_positive(pow(5, nonneg(-five)), pow2(nonneg(t - two)) as int);
}

proof fn lemma_zero_sum(d: int, x: int, y: int)
    requires
        d > 0,
        0 <= x,
        0 <= y,
    ensures
        (d * x + y == 0) == (x == 0 && y == 0),
{
    if x > 0 {
        lemma_mul_strictly_positive(d, x);
    }
}

/// One more power of two in the divisor halves the rounded-down quotient, and leaves it
/// exact only when it was exact and even.
pub proof fn lemma_scaled_halve(s: nat, two: int, five: int, t: int)
    ensures
        scaled_floor(s, two, five, t + 1) == scaled_floor(s, two, five, t) / 2,
        scaled_exact(s, two, five, t + 1) == (scaled_exact(s, two, five, t) && scaled_floor(
            s,
            two,
            five,
            t,
        ) % 2 == 0),
{
    lemma_scaled_den_pos(two, five, t);
    lemma_scaled_den_pos(two, five, t + 1);
    let n = scaled_num(s, two, five, t);
    let d = scaled_den(two, five, t);
    let a = s * (pow(5, nonneg(five)) as nat);
    let p5 = pow(5, nonneg(-five)) as nat;
    if t >= two {
        assert(nonneg(two - (t + 1)) == nonneg(two - t));
        assert(nonneg(t + 1 - two) == nonneg(t - two) + 1);
        lemma_pow2_unfold(nonneg(t + 1 - two));
        assert(scaled_den(two, five, t + 1) == d * 2) by {
            lemma_mul_is_associative(p5 as int, 2, pow2(nonneg(t - two)) as int);
            lemma_mul_is_commutative(2, pow2(nonneg(t - two)) as int);
            lemma_mul_is_associative(p5 as int, pow2(nonneg(t - two)) as int, 2);
        }
        lemma_div_denominator(n as int, d as int, 2);
        lemma_mod_breakdown(n as int, d as int, 2);
        lemma_mod_pos_bound(n as int, d as int);
        lemma_mod_pos_bound((n / d) as int, 2);
        lemma_zero_sum(d as int, (n / d) as int % 2, n as int % d as int);
    } else {
        assert(nonneg(t + 1 - two) == nonneg(t - two));
        assert(nonneg(two - t) == nonneg(two - (t + 1)) + 1);
        let m = scaled_num(s, two, five, t + 1);
        lemma_pow2_unfold(nonneg(two - t));
        assert(n == 2 * m) by {
            lemma_mul_is_associative(a as int, 2, pow2(nonneg(two - (t + 1))) as int);
            lemma_mul_is_commutative(a as int, 2);
            lemma_mul_is_associative(2, a as int, pow2(nonneg(two - (t + 1))) as int);
        }
        lemma_fundamental_div_mod(m as int, d as int);
        lemma_mod_pos_bound(m as int, d as int);
        let q = m / d;
        let r = m % d;
        assert(n == q * (d * 2) + 2 * r) by (nonlinear_arith)
            requires
                m == d * q + r,
                n == 2 * m,
        ;
        lemma_fundamental_div_mod_converse(n as int, (d * 2) as int, q as int, (2 * r) as int);
        lemma_div_denominator(n as int, d as int, 2);
        lemma_mod_breakdown(n as int, d as int, 2);
        lemma_mod_pos_bound(n as int, d as int);
        lemma_mod_pos_bound((n / d) as int, 2);
        lemma_zero_sum(d as int, (n / d) as int % 2, n as int % d as int);
    }
}

/// `s / 2^j` and `s % 2^j` after one more halving.
proof fn lemma_shift_step(s: nat, j: nat)
    ensures
        s / pow2(j + 1) == (s / pow2(j)) / 2,
        (s % pow2(j + 1) == 0) == (s % pow2(j) == 0 && (s / pow2(j)) % 2 == 0),
{
    lemma_pow2_pos(j);
    lemma_pow2_unfold(j + 1);
    lemma_mul_is_commutative(2, pow2(j) as int);
    lemma_div_denominator(s as int, pow2(j) as int, 2);
    lemma_mod_breakdown(s as int, pow2(j) as int, 2);
    lemma_mod_pos_bound(s as int, pow2(j) as int);
    lemma_mod_pos_bound((s / pow2(j)) as int, 2);
    lemma_zero_sum(pow2(j) as int, (s / pow2(j)) as int % 2, s as int % pow2(j) as int);
}

/// A number of `n` digits is below `2^(64 * n)`.
proof fn lemma_digits_below_pow2(x: &BigUint)
    ensures
        x@ < pow2(64 * x.value@.len()),
{
    lemma_value_bound(x.value@);
    lemma_pow_base_pow2(x.value@.len());
}

/// A floating-point number: `significand * BASE^exp`, where `non_zero_reminder` records
/// that digits were dropped from the significand to get there.
#[derive(Debug, PartialEq, Eq, Clone, Default)]
pub struct BigFloat<const BASE: u32> {
    pub significand: BigInt,
    pub exp: i64,
    pub non_zero_reminder: bool,
}

impl<const BASE: u32> BigFloat<BASE> {
    /// Zero: a positive zero significand, exponent zero, nothing dropped.
    pub fn zero() -> (r: BigFloat<BASE>)
        ensures
            r.significand.sign == Sign::Positive,
            r.significand.value.value@.len() == 0,
            r.exp == 0,
            !r.non_zero_reminder,
    {
        BigFloat { significand: BigInt::zero(), exp: 0, non_zero_reminder: false }
    }

    /// Doubles the significand, one exponent step down each time, until it is at least
    /// `min_significand`. A zero significand is left as it is.
    fn increase_significand_to(&mut self, min_significand: &BigUint)
        requires
            old(self).significand.value.wf(),
            min_significand.wf(),
            min_significand.value@.len() + 1 <= usize::MAX,
            old(self).exp - 64 * min_significand.value@.len() >= i64::MIN,
        ensures
            final(self).significand.sign == old(self).significand.sign,
            final(self).non_zero_reminder == old(self).non_zero_reminder,
            final(self).significand.value.wf(),
            final(self).exp <= old(self).exp,
            old(self).exp - final(self).exp <= 64 * min_significand.value@.len(),
            final(self).significand.value@ == old(self).significand.value@ * pow2(
                (old(self).exp - final(self).exp) as nat,
            ),
            old(self).significand.value@ == 0 ==> final(self).exp == old(self).exp,
            old(self).significand.value@ != 0 ==> final(self).significand.value@
                >= min_significand@,
            final(self).exp < old(self).exp ==> final(self).significand.value@ < 2
                * min_significand@,
            final(self).significand.value.value@.len() <= vstd::math::max(
                old(self).significand.value.value@.len() as int,
                (min_significand.value@.len() + 1) as int,
            ),
    {
        proof {
            vstd::arithmetic::power2::lemma2_to64();
        }
        if self.significand.is_zero() {
            return;
        }
        let ghost s0 = old(self).significand.value@;
        let ghost e0 = old(self).exp as int;
        proof {
            lemma_digits_below_pow2(min_significand);
            vstd::arithmetic::mul::lemma_mul_basics(s0 as int);
        }
        loop
            invariant
                self.significand.sign == old(self).significand.sign,
                self.non_zero_reminder == old(self).non_zero_reminder,
                self.significand.value.wf(),
                s0 == old(self).significand.value@,
                s0 >= 1,
                e0 == old(self).exp,
                min_significand.wf(),
                min_significand.value@.len() + 1 <= usize::MAX,
                old(self).exp - 64 * min_significand.value@.len() >= i64::MIN,
                min_significand@ < pow2(64 * min_significand.value@.len()),
                self.exp <= e0,
                e0 - self.exp <= 64 * min_significand.value@.len(),
                self.significand.value@ == s0 * pow2((e0 - self.exp) as nat),
                self.exp < e0 ==> self.significand.value@ < 2 * min_significand@,
                self.significand.value.value@.len() <= vstd::math::max(
                    old(self).significand.value.value@.len() as int,
                    (min_significand.value@.len() + 1) as int,
                ),
            decreases 64 * min_significand.value@.len() - (e0 - self.exp),
        {
            if self.significand.value.compare(min_significand) >= 0 {
                return;
            }
            let ghost k = (e0 - self.exp) as nat;
            proof {
                vstd::arithmetic::power2::lemma2_to64();
                lemma_pow2_pos(k);
                vstd::arithmetic::mul::lemma_mul_inequality(1, s0 as int, pow2(k) as int);
                if k >= 64 * min_significand.value@.len() {
                    vstd::arithmetic::power2::lemma_pow2_strictly_increases(
                        64 * min_significand.value@.len(),
                        k,
                    );
                    vstd::arithmetic::power2::lemma_pow2_strictly_increases(0, 0);
                }
                assert(k < 64 * min_significand.value@.len()) by {
                    if k >= 64 * min_significand.value@.len() {
                        if k > 64 * min_significand.value@.len() {
                            vstd::arithmetic::power2::lemma_pow2_strictly_increases(
                                64 * min_significand.value@.len(),
                                k,
                            );
                        }
                    }
                }
                lemma_value_bound(min_significand.value@);
                lemma_normalized_len_bound(self.significand.value.value@, min_significand.value@.len());
            }
            let doubled = self.significand.value.shl(1);
            self.significand.value = doubled;
            self.exp = self.exp - 1;
            proof {
                vstd::arithmetic::power2::lemma_pow2_adds(k, 1);
                lemma_mul_is_associative(s0 as int, pow2(k) as int, pow2(1) as int);
            }
        }
    }

    /// Raises the significand to at least `2^precision` by doubling (see
    /// `increase_significand_to`).
    fn increase_significand(&mut self, precision: u64)
        requires
            old(self).significand.value.wf(),
            precision / 64 + 3 <= usize::MAX,
            old(self).exp - 64 * (precision / 64 + 1) >= i64::MIN,
        ensures
            final(self).significand.sign == old(self).significand.sign,
            final(self).non_zero_reminder == old(self).non_zero_reminder,
            final(self).significand.value.wf(),
            final(self).exp <= old(self).exp,
            old(self).exp - final(self).exp <= 64 * (precision / 64 + 1),
            final(self).significand.value@ == old(self).significand.value@ * pow2(
                (old(self).exp - final(self).exp) as nat,
            ),
            old(self).significand.value@ == 0 ==> final(self).exp == old(self).exp,
            old(self).significand.value@ != 0 ==> final(self).significand.value@ >= pow2(
                precision as nat,
            ),
            final(self).exp < old(self).exp ==> final(self).significand.value@ < 2 * pow2(
                precision as nat,
            ),
            final(self).significand.value.value@.len() <= vstd::math::max(
                old(self).significand.value.value@.len() as int,
                (precision / 64 + 2) as int,
            ),
    {
        if self.significand.is_zero() {
            proof {
                vstd::arithmetic::power2::lemma2_to64();
                vstd::arithmetic::mul::lemma_mul_basics(old(self).significand.value@ as int);
            }
            return;
        }
        let min_significand = BigUint::one().shl(precision);
        proof {
            vstd::arithmetic::mul::lemma_mul_basics(pow2(precision as nat) as int);
            let n = (precision / 64 + 1) as nat;
            vstd::arithmetic::power2::lemma_pow2_strictly_increases(precision as nat, 64 * n);
            lemma_pow_base_pow2(n);
            lemma_normalized_len_bound(min_significand.value@, n);
        }
        self.increase_significand_to(&min_significand);
    }

    /// Halves the significand, one exponent step up each time, until it is below
    /// `2^precision`, and records in `non_zero_reminder` whether a dropped bit was one.
    fn decrease_significand(&mut self, precision: u64)
        requires
            old(self).significand.value.wf(),
            precision / 64 + 3 <= usize::MAX,
            old(self).exp + 64 * old(self).significand.value.value@.len() <= i64::MAX,
        ensures
            final(self).significand.sign == old(self).significand.sign,
            final(self).significand.value.wf(),
            final(self).exp >= old(self).exp,
            final(self).exp - old(self).exp <= 64 * old(self).significand.value.value@.len(),
            final(self).significand.value@ == old(self).significand.value@ / pow2(
                (final(self).exp - old(self).exp) as nat,
            ),
            final(self).non_zero_reminder == (old(self).non_zero_reminder
                || old(self).significand.value@ % pow2((final(self).exp - old(self).exp) as nat)
                != 0),
            old(self).significand.value@ == 0 ==> final(self).exp == old(self).exp,
            old(self).significand.value@ != 0 ==> final(self).significand.value@ < pow2(
                precision as nat,
            ),
            final(self).exp > old(self).exp ==> old(self).significand.value@ / pow2(
                (final(self).exp - old(self).exp - 1) as nat,
            ) >= pow2(precision as nat),
            final(self).significand.value.value@.len() <= old(self).significand.value.value@.len(),
    {
        proof {
            lemma_pow2_pos(0);
            vstd::arithmetic::power2::lemma2_to64();
        }
        if self.significand.is_zero() {
            return;
        }
        let max_significand = BigUint::one().shl(precision);
        proof {
            vstd::arithmetic::mul::lemma_mul_basics(pow2(precision as nat) as int);
        }
        let ghost s0 = old(self).significand.value@;
        let ghost e0 = old(self).exp as int;
        let ghost n0 = old(self).significand.value.value@.len();
        proof {
            lemma_digits_below_pow2(&old(self).significand.value);
            lemma_pow2_pos(precision as nat);
            vstd::arithmetic::div_mod::lemma_div_basics(s0 as int);
            lemma_mod_pos_bound(s0 as int, 1);
        }
        while self.significand.value.compare(&max_significand) >= 0
            invariant
                self.significand.sign == old(self).significand.sign,
                self.significand.value.wf(),
                max_significand.wf(),
                max_significand@ == pow2(precision as nat),
                max_significand@ >= 1,
                s0 == old(self).significand.value@,
                s0 < pow2(64 * n0),
                e0 == old(self).exp,
                n0 == old(self).significand.value.value@.len(),
                old(self).exp + 64 * n0 <= i64::MAX,
                self.exp >= e0,
                self.exp - e0 <= 64 * n0,
                self.significand.value@ == s0 / pow2((self.exp - e0) as nat),
                self.non_zero_reminder == (old(self).non_zero_reminder || s0 % pow2(
                    (self.exp - e0) as nat,
                ) != 0),
                self.exp > e0 ==> s0 / pow2((self.exp - e0 - 1) as nat) >= max_significand@,
                self.significand.value.value@.len() <= n0,
            decreases self.significand.value@,
        {
            let ghost j = (self.exp - e0) as nat;
            proof {
                lemma_pow2_pos(j);
                vstd::arithmetic::power2::lemma2_to64();
                if j >= 64 * n0 {
                    if j > 64 * n0 {
                        vstd::arithmetic::power2::lemma_pow2_strictly_increases(64 * n0, j);
                    }
                    vstd::arithmetic::div_mod::lemma_basic_div(s0 as int, pow2(j) as int);
                }
                lemma_shift_step(s0, j);
            }
            let last_bit = self.significand.value.get_last_bit();
            if last_bit == 1 {
                self.non_zero_reminder = true;
            }
            let halved = self.significand.value.halve();
            self.significand.value = halved;
            self.exp = self.exp + 1;
        }
    }
}

/// `|x|`.
pub open spec fn abs_int(x: int) -> nat {
    if x >= 0 {
        x as nat
    } else {
        (-x) as nat
    }
}

/// With the divisor a power of two no larger than the multiplier, the number is whole.
proof fn lemma_scaled_whole(s: nat, two: int, five: int, t: int)
    requires
        t <= two,
        five >= 0,
    ensures
        scaled_floor(s, two, five, t) == s * (pow(5, five as nat) as nat) * pow2((two - t) as nat),
        scaled_exact(s, two, five, t),
{
    vstd::arithmetic::power::lemma_pow0(5);
    vstd::arithmetic::power2::lemma2_to64();
    let n = scaled_num(s, two, five, t);
    assert(nonneg(-five) == 0);
    assert(nonneg(t - two) == 0);
    assert(pow2(0) == 1);
    assert(scaled_den(two, five, t) == 1);
    vstd::arithmetic::div_mod::lemma_div_basics(n as int);
    lemma_mod_pos_bound(n as int, 1);
}

/// For a negative power of ten, the divisor is the matching power of five.
proof fn lemma_scaled_fraction(s: nat, e: int, t: int)
    requires
        t <= e,
        e < 0,
    ensures
        scaled_num(s, e, e, t) == s * pow2((e - t) as nat),
        scaled_den(e, e, t) == pow(5, (-e) as nat),
{
    vstd::arithmetic::power::lemma_pow0(5);
    vstd::arithmetic::power2::lemma2_to64();
    assert(nonneg(e) == 0);
    assert(nonneg(t - e) == 0);
    assert(nonneg(-e) == -e);
    assert(pow2(0) == 1);
    lemma_pow_positive(5, (-e) as nat);
    vstd::arithmetic::mul::lemma_mul_basics(s as int);
    vstd::arithmetic::mul::lemma_mul_basics(pow(5, (-e) as nat));
}

/// Dividing by `2^j` more: the rounded-down quotient is divided by `2^j`, and it stays exact
/// only when it was exact and the quotient was a multiple of `2^j`.
proof fn lemma_scaled_shift(s: nat, two: int, five: int, t: int, j: nat)
    ensures
        scaled_floor(s, two, five, t + j) == scaled_floor(s, two, five, t) / pow2(j),
        scaled_exact(s, two, five, t + j) == (scaled_exact(s, two, five, t) && scaled_floor(
            s,
            two,
            five,
            t,
        ) % pow2(j) == 0),
    decreases j,
{
    if j == 0 {
        vstd::arithmetic::power2::lemma2_to64();
        let f = scaled_floor(s, two, five, t);
        vstd::arithmetic::div_mod::lemma_div_basics(f as int);
        lemma_mod_pos_bound(f as int, 1);
    } else {
        let i = (j - 1) as nat;
        lemma_scaled_shift(s, two, five, t, i);
        lemma_scaled_halve(s, two, five, t + i);
        lemma_shift_step(scaled_floor(s, two, five, t), i);
        assert(t + i + 1 == t + j);
    }
}

/// `5^e` has at most `e + 1` digits.
proof fn lemma_pow5_digits(e: nat)
    ensures
        pow(5, e) <= pow_base(e),
        pow(5, e) < pow_base(e + 1),
    decreases e,
{
    vstd::arithmetic::power::lemma_pow0(5);
    if e > 0 {
        lemma_pow5_digits((e - 1) as nat);
        vstd::arithmetic::power::lemma_pow_adds(5, (e - 1) as nat, 1);
        vstd::arithmetic::power::lemma_pow1(5);
        lemma_pow_base_succ((e - 1) as nat);
        vstd::arithmetic::mul::lemma_mul_inequality(pow(5, (e - 1) as nat), pow_base((e - 1) as nat) as int, 5);
        vstd::arithmetic::mul::lemma_mul_inequality(5, base() as int, pow_base((e - 1) as nat) as int);
        lemma_mul_is_commutative(5, pow_base((e - 1) as nat) as int);
        lemma_mul_is_commutative(base() as int, pow_base((e - 1) as nat) as int);
    }
    lemma_pow_base_succ(e);
    lemma_pow_base_pos(e);
}

/// A positive multiplier keeps the sign and multiplies the magnitude.
proof fn lemma_scale_by_positive(x: BigInt, y: BigInt, r: BigInt)
    requires
        r@ == x@ * y@,
        r.wf(),
        y.sign == Sign::Positive,
        y.value@ > 0,
        x.value@ > 0,
    ensures
        r.sign == x.sign,
        r.value@ == x.value@ * y.value@,
        r.value@ > 0,
{
    lemma_mul_strictly_positive(x.value@ as int, y.value@ as int);
    crate::big_int::lemma_factor_mul(x.sign, x.value@ as int);
    crate::big_int::lemma_factor_mul(y.sign, y.value@ as int);
    crate::big_int::lemma_factor_mul(r.sign, r.value@ as int);
    vstd::arithmetic::mul::lemma_mul_unary_negation(x.value@ as int, y.value@ as int);
}

impl BigFloat<10> {
    /// The number `significand * 10^exp` as `q * 2^e` with `q` below `2^precision`
    /// and at least half of it: `q` is the number divided by `2^e` and rounded toward zero,
    /// and `non_zero_reminder` is set when the division was not exact (or it was already set).
    /// A zero significand gives zero.
    pub fn to_bin(self, precision: u8) -> (r: BigFloat<2>)
        requires
            self.significand.value.wf(),
            self.significand.value.value@.len() + 2 * abs_int(self.exp as int) + 8 <= usize::MAX,
            64 * (self.significand.value.value@.len() + 2 * abs_int(self.exp as int) + 8)
                <= i64::MAX,
        ensures
            self.significand.value@ == 0 ==> {
                &&& r.significand.sign == Sign::Positive
                &&& r.significand.value.value@.len() == 0
                &&& r.exp == 0
                &&& !r.non_zero_reminder
            },
            self.significand.value@ != 0 ==> {
                &&& r.significand.sign == self.significand.sign
                &&& r.significand.value.wf()
                &&& r.significand.value@ == scaled_floor(
                    self.significand.value@,
                    self.exp as int,
                    self.exp as int,
                    r.exp as int,
                )
                &&& r.non_zero_reminder == (self.non_zero_reminder || !scaled_exact(
                    self.significand.value@,
                    self.exp as int,
                    self.exp as int,
                    r.exp as int,
                ))
                &&& r.significand.value@ < pow2(precision as nat)
                &&& abs_int(r.exp as int) <= 64 * (self.significand.value.value@.len() + 2
                    * abs_int(self.exp as int) + 8)
                &&& pow2(precision as nat) <= scaled_floor(
                    self.significand.value@,
                    self.exp as int,
                    self.exp as int,
                    r.exp - 1,
                )
            },
    {
        if self.significand.is_zero() {
            return BigFloat::zero();
        }
        let ghost s = self.significand.value@;
        let ghost e = self.exp as int;
        let ghost len = self.significand.value.value@.len();
        let p = precision as u64;
        proof {
            lemma_pow2_pos(p as nat);
            lemma_value_lower_bound(self.significand.value.value@);
            lemma_pow_base_pos((len - 1) as nat);
            lemma_value_bound(self.significand.value.value@);
        }
        if self.exp == 0 {
            let mut result: BigFloat<2> = BigFloat {
                significand: self.significand,
                exp: self.exp,
                non_zero_reminder: self.non_zero_reminder,
            };
            result.increase_significand(p);
            let ghost t1 = result.exp as int;
            let ghost x1 = result.significand.value@;
            proof {
                lemma_scaled_whole(s, e, e, t1);
                vstd::arithmetic::power::lemma_pow0(5);
                vstd::arithmetic::mul::lemma_mul_basics(s as int);
            }
            result.decrease_significand(p);
            proof {
                self.finish_proof(p, t1, x1, result);
            }
            return result;
        }
        let five = BigUint::from_u64(5);
        if self.exp > 0 {
            let ghost en = e as nat;
            proof {
                lemma_pow5_digits(en);
                vstd::arithmetic::power::lemma_pow1(5);
                vstd::arithmetic::mul::lemma_mul_basics(en as int);
            }
            let p5 = five.pow_u64(self.exp as u64);
            proof {
                vstd::arithmetic::power::lemma_pow_positive(5, en);
                lemma_normalized_len_bound(p5.value@, en + 1);
            }
            let p5i = p5.to_big_int();
            let new_sign = self.significand.mul(&p5i);
            proof {
                lemma_scale_by_positive(self.significand, p5i, new_sign);
                let a = pow_base(len) as int;
                let b = pow_base(en + 1) as int;
                let f = pow(5, en);
                assert(s * f < a * b) by (nonlinear_arith)
                    requires
                        0 <= s < a,
                        0 < f < b,
                ;
                lemma_pow_base_adds(len, en + 1);
                lemma_normalized_len_bound(new_sign.value.value@, len + en + 1);
            }
            let mut result: BigFloat<2> = BigFloat {
                significand: new_sign,
                exp: self.exp,
                non_zero_reminder: self.non_zero_reminder,
            };
            result.increase_significand(p);
            let ghost t1 = result.exp as int;
            let ghost x1 = result.significand.value@;
            proof {
                lemma_scaled_whole(s, e, e, t1);
            }
            result.decrease_significand(p);
            proof {
                self.finish_proof(p, t1, x1, result);
            }
            return result;
        }
        let ghost an = (-e) as nat;
        proof {
            lemma_pow5_digits(an);
            vstd::arithmetic::power::lemma_pow1(5);
            vstd::arithmetic::mul::lemma_mul_basics(an as int);
        }
        let p5 = five.pow_u64((0 - self.exp) as u64);
        proof {
            vstd::arithmetic::power::lemma_pow_positive(5, an);
            lemma_normalized_len_bound(p5.value@, an + 1);
        }
        let flag = self.non_zero_reminder;
        let mut bf10 = self;
        let min_significand = BigUint::one().shl(p);
        proof {
            vstd::arithmetic::mul::lemma_mul_basics(pow2(p as nat) as int);
        }
        let target = p5.mul(&min_significand);
        bf10.increase_significand_to(&target);
        let ghost t1 = bf10.exp as int;
        let ghost k = (e - t1) as nat;
        let ghost x1 = bf10.significand.value@;
        proof {
            lemma_value_bound(bf10.significand.value.value@);
        }
        let p5i = p5.to_big_int();
        let (q, rem) = bf10.significand.div_mod(&p5i);
        proof {
            lemma_scaled_fraction(s, e, t1);
            lemma_mul_is_commutative(pow(5, an), pow2(p as nat) as int);
            vstd::arithmetic::div_mod::lemma_div_is_ordered(
                (pow(5, an) * pow2(p as nat)) as int,
                x1 as int,
                pow(5, an),
            );
            vstd::arithmetic::div_mod::lemma_div_multiples_vanish(pow2(p as nat) as int, pow(5, an));
            vstd::arithmetic::div_mod::lemma_div_is_ordered_by_denominator(x1 as int, 1, pow(5, an));
            vstd::arithmetic::div_mod::lemma_div_basics(x1 as int);
            lemma_normalized_len_bound(q.value.value@, bf10.significand.value.value@.len());
        }
        let mut result: BigFloat<2> = BigFloat {
            significand: q,
            exp: bf10.exp,
            non_zero_reminder: flag || !rem.is_zero(),
        };
        let ghost x2 = result.significand.value@;
        result.decrease_significand(p);
        proof {
            self.finish_proof(p, t1, x2, result);
        }
        result
    }

    /// The last step of `to_bin`: from a significand that equals the scaled number at
    /// exponent `t1` and is at least `2^p`, halving gives the stated result.
    proof fn finish_proof(&self, p: u64, t1: int, x1: nat, result: BigFloat<2>)
        requires
            x1 == scaled_floor(self.significand.value@, self.exp as int, self.exp as int, t1),
            x1 >= pow2(p as nat),
            result.exp >= t1,
            result.significand.value@ == x1 / pow2((result.exp - t1) as nat),
            result.significand.value@ < pow2(p as nat),
            result.exp > t1 ==> x1 / pow2((result.exp - t1 - 1) as nat) >= pow2(p as nat),
        ensures
            result.significand.value@ == scaled_floor(
                self.significand.value@,
                self.exp as int,
                self.exp as int,
                result.exp as int,
            ),
            pow2(p as nat) <= scaled_floor(
                self.significand.value@,
                self.exp as int,
                self.exp as int,
                result.exp - 1,
            ),
            x1 % pow2((result.exp - t1) as nat) == 0 ==> scaled_exact(
                self.significand.value@,
                self.exp as int,
                self.exp as int,
                result.exp as int,
            ) == scaled_exact(self.significand.value@, self.exp as int, self.exp as int, t1),
            !scaled_exact(self.significand.value@, self.exp as int, self.exp as int, result.exp as int)
                == (!scaled_exact(self.significand.value@, self.exp as int, self.exp as int, t1)
                || x1 % pow2((result.exp - t1) as nat) != 0),
    {
        let s = self.significand.value@;
        let e = self.exp as int;
        let j = (result.exp - t1) as nat;
        lemma_scaled_shift(s, e, e, t1, j);
        assert(t1 + j == result.exp);
        if j == 0 {
            vstd::arithmetic::power2::lemma2_to64();
            vstd::arithmetic::div_mod::lemma_div_basics(x1 as int);
        } else {
            lemma_scaled_shift(s, e, e, t1, (j - 1) as nat);
            assert(t1 + (j - 1) == result.exp - 1);
        }
    }
}

/// The exponent `t` at which the number `s * 2^two * 5^five` has its 54 most significant
/// bits above `2^t`: `2^53 <= s * 2^two * 5^five / 2^t < 2^54` (rounded down).
pub open spec fn top_exp(s: nat, two: int, five: int) -> int {
    choose|t: int| pow2(53) <= #[trigger] scaled_floor(s, two, five, t) < pow2(54)
}

/// The IEEE 754 binary64 bit pattern of `±s * 2^two * 5^five`, where `dropped` says that the
/// number was already rounded toward zero before: a sign bit; for a normal result, the 53-bit significand
/// rounded to nearest with ties to even (its guard bit, and a sticky bit from the bits below
/// and `dropped`); for a subnormal result, the multiple of `2^-1074` rounded toward zero; zero
/// below that, and infinity above the largest exponent.
pub open spec fn f64_bits_of(negative: bool, s: nat, two: int, five: int, dropped: bool) -> int {
    let sign: int = if negative {
        pow2(63) as int
    } else {
        0
    };
    if s == 0 {
        sign
    } else {
        let t = top_exp(s, two, five);
        let e = t + 53;
        if e > 1023 {
            sign + 2047 * pow2(52)
        } else if e >= -1022 {
            let m = scaled_floor(s, two, five, t + 1);
            let guard = scaled_floor(s, two, five, t) % 2 == 1;
            let sticky = dropped || !scaled_exact(s, two, five, t);
            let rounded = if guard && (sticky || m % 2 == 1) {
                m + 1
            } else {
                m
            };
            sign + (e + 1023) * pow2(52) + (rounded - pow2(52))
        } else if e >= -1074 {
            sign + scaled_floor(s, two, five, -1074)
        } else {
            sign
        }
    }
}

/// A number and its negation differ only in the sign bit.
pub proof fn law_negation_flips_sign_bit(s: nat, two: int, five: int, dropped: bool)
    ensures
        f64_bits_of(true, s, two, five, dropped) == f64_bits_of(false, s, two, five, dropped)
            + pow2(63),
{
}

/// Dividing both numbers by the same positive factor keeps the quotient and exactness.
proof fn lemma_cancel(n: nat, d: nat, k: nat)
    requires
        d > 0,
        k > 0,
    ensures
        (k * n) / (k * d) == n / d,
        ((k * n) % (k * d) == 0) == (n % d == 0),
{
    lemma_fundamental_div_mod(n as int, d as int);
    lemma_mod_pos_bound(n as int, d as int);
    let q = n / d;
    let r = n % d;
    assert(k * n == q * (k * d) + k * r && 0 <= k * r < k * d) by (nonlinear_arith)
        requires
            n == d * q + r,
            0 <= r < d,
            k > 0,
    ;
    lemma_fundamental_div_mod_converse((k * n) as int, (k * d) as int, q as int, (k * r) as int);
    lemma_zero_sum(k as int, r as int, 0);
}

/// Twice the significand with one power of two less is the same number.
proof fn lemma_scaled_double(s: nat, two: int, five: int, t: int)
    ensures
        scaled_floor(2 * s, two - 1, five, t) == scaled_floor(s, two, five, t),
        scaled_exact(2 * s, two - 1, five, t) == scaled_exact(s, two, five, t),
{
    lemma_scaled_den_pos(two, five, t);
    let p5 = pow(5, nonneg(five)) as nat;
    let q5 = pow(5, nonneg(-five)) as nat;
    if t <= two - 1 {
        lemma_pow2_unfold(nonneg(two - t));
        assert(nonneg(two - t) == nonneg(two - 1 - t) + 1);
        assert(scaled_num(2 * s, two - 1, five, t) == scaled_num(s, two, five, t)) by {
            lemma_mul_is_associative(2, s as int, p5 as int);
            lemma_mul_is_associative((2 * s) as int, p5 as int, pow2(nonneg(two - 1 - t)) as int);
            lemma_mul_is_associative(s as int, p5 as int, pow2(nonneg(two - t)) as int);
            lemma_mul_is_associative(2, (s * p5) as int, pow2(nonneg(two - 1 - t)) as int);
            lemma_mul_is_associative((s * p5) as int, 2, pow2(nonneg(two - 1 - t)) as int);
            lemma_mul_is_commutative(2, (s * p5) as int);
        }
    } else {
        assert(nonneg(two - 1 - t) == 0 && nonneg(two - t) == 0);
        assert(nonneg(t - two + 1) == nonneg(t - two) + 1);
        lemma_pow2_unfold(nonneg(t - two + 1));
        vstd::arithmetic::power2::lemma2_to64();
        let n = scaled_num(s, two, five, t);
        let d = scaled_den(two, five, t);
        assert(scaled_num(2 * s, two - 1, five, t) == 2 * n) by {
            lemma_mul_is_associative(2, s as int, p5 as int);
            vstd::arithmetic::mul::lemma_mul_basics((2 * s * p5) as int);
            vstd::arithmetic::mul::lemma_mul_basics((s * p5) as int);
        }
        assert(scaled_den(two - 1, five, t) == 2 * d) by {
            lemma_mul_is_associative(q5 as int, 2, pow2(nonneg(t - two)) as int);
            lemma_mul_is_commutative(q5 as int, 2);
            lemma_mul_is_associative(2, q5 as int, pow2(nonneg(t - two)) as int);
        }
        lemma_cancel(n, d, 2);
    }
}

/// Five times the significand with one power of five less is the same number.
proof fn lemma_scaled_times_five(s: nat, two: int, five: int, t: int)
    ensures
        scaled_floor(5 * s, two, five - 1, t) == scaled_floor(s, two, five, t),
        scaled_exact(5 * s, two, five - 1, t) == scaled_exact(s, two, five, t),
{
    lemma_scaled_den_pos(two, five, t);
    let p2 = pow2(nonneg(two - t));
    let d2 = pow2(nonneg(t - two));
    if five >= 1 {
        vstd::arithmetic::power::lemma_pow_adds(5, nonneg(five - 1), 1);
        vstd::arithmetic::power::lemma_pow1(5);
        assert(nonneg(five) == nonneg(five - 1) + 1);
        assert(nonneg(1 - five) == 0 && nonneg(-five) == 0);
        assert(scaled_num(5 * s, two, five - 1, t) == scaled_num(s, two, five, t)) by {
            lemma_mul_is_associative(5, s as int, pow(5, nonneg(five - 1)));
            lemma_mul_is_associative(s as int, 5, pow(5, nonneg(five - 1)));
            lemma_mul_is_commutative(5, s as int);
            lemma_mul_is_commutative(pow(5, nonneg(five - 1)), 5);
            lemma_pow_positive(5, nonneg(five - 1));
        }
    } else {
        vstd::arithmetic::power::lemma_pow_adds(5, nonneg(-five), 1);
        vstd::arithmetic::power::lemma_pow1(5);
        vstd::arithmetic::power::lemma_pow0(5);
        assert(nonneg(1 - five) == nonneg(-five) + 1);
        assert(nonneg(five - 1) == 0 && nonneg(five) == 0);
        lemma_pow_positive(5, nonneg(-five));
        let n = scaled_num(s, two, five, t);
        let d = scaled_den(two, five, t);
        assert(scaled_num(5 * s, two, five - 1, t) == 5 * n) by {
            lemma_mul_is_associative(5, s as int, 1);
            lemma_mul_is_associative(5, s as int, p2 as int);
            vstd::arithmetic::mul::lemma_mul_basics(s as int);
            vstd::arithmetic::mul::lemma_mul_basics((5 * s) as int);
        }
        assert(scaled_den(two, five - 1, t) == 5 * d) by {
            lemma_mul_is_commutative(pow(5, nonneg(-five)), 5);
            lemma_mul_is_associative(5, pow(5, nonneg(-five)), d2 as int);
        }
        lemma_cancel(n, d, 5);
    }
}

/// Some number of halvings brings a number of at least `2^53` below `2^54`, and not below `2^53`.
proof fn lemma_exists_shift(x: nat)
    requires
        x >= pow2(53),
    ensures
        exists|j: nat| pow2(53) <= #[trigger] (x / pow2(j)) < pow2(54),
    decreases x,
{
    vstd::arithmetic::power2::lemma2_to64();
    vstd::arithmetic::power2::lemma2_to64_rest();
    if x < pow2(54) {
        vstd::arithmetic::div_mod::lemma_div_basics(x as int);
        assert(pow2(53) <= x / pow2(0) < pow2(54));
    } else {
        let h = x / 2;
        assert(h >= pow2(53)) by {
            vstd::arithmetic::div_mod::lemma_div_is_ordered(pow2(54) as int, x as int, 2);
        }
        lemma_exists_shift(h);
        let j = choose|j: nat| pow2(53) <= #[trigger] (h / pow2(j)) < pow2(54);
        lemma_pow2_pos(j);
        vstd::arithmetic::div_mod::lemma_div_denominator(x as int, 2, pow2(j) as int);
        vstd::arithmetic::power2::lemma_pow2_adds(1, j);
        assert(pow2(53) <= x / pow2(j + 1) < pow2(54));
    }
}

/// A nonzero number has 54 bits above some power of two.
proof fn lemma_top_exp_exists(s: nat, two: int, five: int)
    requires
        s >= 1,
    ensures
        pow2(53) <= scaled_floor(s, two, five, top_exp(s, two, five)) < pow2(54),
{
    vstd::arithmetic::power2::lemma2_to64();
    let k = nonneg(-five);
    let t0 = two - 53 - 3 * k;
    lemma_scaled_den_pos(two, five, t0);
    lemma_pow_positive(5, nonneg(five));
    lemma_pow_positive(5, k);
    assert(pow(5, k) <= pow2(3 * k)) by {
        lemma_pow5_below_pow8(k);
    }
    vstd::arithmetic::power2::lemma_pow2_adds(53, 3 * k);
    assert(nonneg(two - t0) == 53 + 3 * k);
    assert(nonneg(t0 - two) == 0);
    let n = scaled_num(s, two, five, t0);
    let d = scaled_den(two, five, t0);
    assert(d == pow(5, k)) by {
        vstd::arithmetic::mul::lemma_mul_basics(pow(5, k));
    }
    assert(n >= pow2(53) * d) by {
        let a = s * (pow(5, nonneg(five)) as nat);
        assert(a >= 1) by {
            vstd::arithmetic::mul::lemma_mul_inequality(1, s as int, pow(5, nonneg(five)));
        }
        vstd::arithmetic::mul::lemma_mul_inequality(1, a as int, pow2(53 + 3 * k) as int);
        vstd::arithmetic::mul::lemma_mul_inequality(pow(5, k), pow2(3 * k) as int, pow2(53) as int);
        lemma_mul_is_commutative(pow2(53) as int, pow2(3 * k) as int);
        lemma_mul_is_commutative(pow2(53) as int, d as int);
    }
    assert(n / d >= pow2(53)) by {
        vstd::arithmetic::div_mod::lemma_div_is_ordered((pow2(53) * d) as int, n as int, d as int);
        vstd::arithmetic::div_mod::lemma_div_multiples_vanish(pow2(53) as int, d as int);
    }
    lemma_exists_shift(n / d);
    let j = choose|j: nat| pow2(53) <= #[trigger] ((n / d) / pow2(j)) < pow2(54);
    lemma_scaled_shift(s, two, five, t0, j);
    assert(pow2(53) <= scaled_floor(s, two, five, t0 + j) < pow2(54));
}

/// `5^k <= 8^k`.
proof fn lemma_pow5_below_pow8(k: nat)
    ensures
        pow(5, k) <= pow2(3 * k),
    decreases k,
{
    vstd::arithmetic::power::lemma_pow0(5);
    vstd::arithmetic::power2::lemma2_to64();
    if k > 0 {
        lemma_pow5_below_pow8((k - 1) as nat);
        vstd::arithmetic::power::lemma_pow_adds(5, (k - 1) as nat, 1);
        vstd::arithmetic::power::lemma_pow1(5);
        vstd::arithmetic::power2::lemma_pow2_adds(3 * (k - 1) as nat, 3);
        assert(3 * (k - 1) as nat + 3 == 3 * k);
        lemma_pow_positive(5, (k - 1) as nat);
        vstd::arithmetic::mul::lemma_mul_inequality(pow(5, (k - 1) as nat), pow2(3 * (k - 1) as nat) as int, 5);
        vstd::arithmetic::mul::lemma_mul_inequality(5, 8, pow2(3 * (k - 1) as nat) as int);
        lemma_mul_is_commutative(5, pow2(3 * (k - 1) as nat) as int);
        lemma_mul_is_commutative(8, pow2(3 * (k - 1) as nat) as int);
    }
}

/// Ten times the significand with one power of ten less is the same decimal number, so
/// `to_bin` (whose result its contract fixes through `scaled_floor` and `scaled_exact`) and
/// the binary64 bit pattern give the same for both.
pub proof fn law_decimal_value_only(s: nat, e: int, dropped: bool, negative: bool, t: int)
    ensures
        scaled_floor(10 * s, e - 1, e - 1, t) == scaled_floor(s, e, e, t),
        scaled_exact(10 * s, e - 1, e - 1, t) == scaled_exact(s, e, e, t),
        f64_bits_of(negative, 10 * s, e - 1, e - 1, dropped) == f64_bits_of(negative, s, e, e, dropped),
{
    assert forall|u: int| scaled_floor(10 * s, e - 1, e - 1, u) == scaled_floor(s, e, e, u)
        && scaled_exact(10 * s, e - 1, e - 1, u) == scaled_exact(s, e, e, u) by {
        lemma_scaled_double(5 * s, e, e - 1, u);
        lemma_scaled_times_five(s, e, e, u);
        assert(2 * (5 * s) == 10 * s);
    }
    if s != 0 {
        lemma_top_exp_exists(s, e, e);
        lemma_top_exp_exists(10 * s, e - 1, e - 1);
        lemma_top_exp_unique(s, e, e, top_exp(s, e, e), top_exp(10 * s, e - 1, e - 1));
        let t = top_exp(s, e, e);
        assert(scaled_floor(10 * s, e - 1, e - 1, t + 1) == scaled_floor(s, e, e, t + 1));
        assert(scaled_floor(10 * s, e - 1, e - 1, -1074) == scaled_floor(s, e, e, -1074));
        assert(scaled_exact(10 * s, e - 1, e - 1, t) == scaled_exact(s, e, e, t));
    }
}

/// At most one exponent puts 54 bits of the number above it.
proof fn lemma_top_exp_unique(s: nat, two: int, five: int, t1: int, t2: int)
    requires
        pow2(53) <= scaled_floor(s, two, five, t1) < pow2(54),
        pow2(53) <= scaled_floor(s, two, five, t2) < pow2(54),
    ensures
        t1 == t2,
{
    vstd::arithmetic::power2::lemma2_to64();
    if t1 < t2 {
        lemma_top_exp_order(s, two, five, t1, t2);
    } else if t2 < t1 {
        lemma_top_exp_order(s, two, five, t2, t1);
    }
}

proof fn lemma_top_exp_order(s: nat, two: int, five: int, t1: int, t2: int)
    requires
        t1 < t2,
        scaled_floor(s, two, five, t1) < pow2(54),
    ensures
        scaled_floor(s, two, five, t2) < pow2(53),
{
    vstd::arithmetic::power2::lemma2_to64();
    vstd::arithmetic::power2::lemma2_to64_rest();
    let d = (t2 - t1) as nat;
    let x = scaled_floor(s, two, five, t1);
    lemma_scaled_shift(s, two, five, t1, d);
    assert(t1 + d == t2);
    vstd::arithmetic::power2::lemma_pow2_strictly_increases(0, d);
    if d > 1 {
        vstd::arithmetic::power2::lemma_pow2_strictly_increases(1, d);
    }
    vstd::arithmetic::div_mod::lemma_div_is_ordered_by_denominator(x as int, 2, pow2(d) as int);
    let q = x / 2;
    let r = x % 2;
    vstd::arithmetic::div_mod::lemma_fundamental_div_mod(x as int, 2);
    lemma_mod_pos_bound(x as int, 2);
    assert(q < 0x20_0000_0000_0000) by (nonlinear_arith)
        requires
            x < 0x40_0000_0000_0000,
            x == 2 * q + r,
            0 <= r < 2,
    ;
}

/// Fields of a binary64 bit pattern at disjoint positions add up.
proof fn lemma_f64_fields(sign: u64, exp_bits: u64, frac: u64)
    by (bit_vector)
    requires
        sign == 0 || sign == 0x8000_0000_0000_0000u64,
        exp_bits < 2048,
        frac < 0x10_0000_0000_0000u64,
    ensures
        sign | exp_bits << 52 | frac == sign + exp_bits * 0x10_0000_0000_0000u64 + frac,
        sign | exp_bits << 52 == sign + exp_bits * 0x10_0000_0000_0000u64,
        sign | frac == sign + frac,
{
}

impl BigFloat<2> {
    /// The IEEE 754 binary64 bit pattern of `significand * 2^exp` (see `f64_bits_of`).
    pub fn get_f64_bits(self) -> (r: u64)
        requires
            self.significand.value.wf(),
            self.exp - 128 >= i64::MIN,
            self.exp + 64 * (self.significand.value.value@.len() + 2) <= i64::MAX,
        ensures
            r == f64_bits_of(
                self.significand.sign == Sign::Negative,
                self.significand.value@,
                self.exp as int,
                0,
                self.non_zero_reminder,
            ),
    {
        proof {
            vstd::arithmetic::power2::lemma2_to64();
            vstd::arithmetic::power2::lemma2_to64_rest();
        }
        let mut bits: u64 = 0;
        if self.significand.sign == Sign::Negative {
            bits = 0x8000_0000_0000_0000u64;
        }
        if self.significand.is_zero() {
            return bits;
        }
        let ghost s = self.significand.value@;
        let ghost two = self.exp as int;
        let ghost flag = self.non_zero_reminder;
        proof {
            lemma_value_lower_bound(self.significand.value.value@);
            lemma_pow_base_pos((self.significand.value.value@.len() - 1) as nat);
        }
        let mut value = self;
        value.increase_significand(53);
        let ghost t0 = value.exp as int;
        let ghost x0 = value.significand.value@;
        proof {
            lemma_scaled_whole(s, two, 0, t0);
            vstd::arithmetic::power::lemma_pow0(5);
            vstd::arithmetic::mul::lemma_mul_basics(s as int);
        }
        value.decrease_significand(54);
        let ghost t = value.exp as int;
        let ghost x = value.significand.value@;
        proof {
            let j = (t - t0) as nat;
            lemma_scaled_shift(s, two, 0, t0, j);
            assert(t0 + j == t);
            if j > 0 {
                vstd::arithmetic::power2::lemma_pow2_unfold(j);
                lemma_pow2_pos((j - 1) as nat);
                vstd::arithmetic::div_mod::lemma_div_denominator(x0 as int, pow2((j - 1) as nat) as int, 2);
                lemma_mul_is_commutative(2, pow2((j - 1) as nat) as int);
                vstd::arithmetic::div_mod::lemma_div_is_ordered(
                    pow2(54) as int,
                    (x0 / pow2((j - 1) as nat)) as int,
                    2,
                );
            } else {
                vstd::arithmetic::div_mod::lemma_div_basics(x0 as int);
            }
            assert(pow2(53) <= scaled_floor(s, two, 0, t) < pow2(54));
            lemma_top_exp_unique(s, two, 0, t, top_exp(s, two, 0));
            lemma_value_bound(value.significand.value.value@);
            lemma_pow_base_pow2(1);
            lemma_normalized_len_bound(value.significand.value.value@, 1);
            crate::digits::lemma_value_single(value.significand.value.value@[0]);
            assert(value.significand.value.value@ =~= seq![value.significand.value.value@[0]]);
        }
        let mut f64_exp: i64 = value.exp + 53;
        if -1022 <= f64_exp && f64_exp <= 1023 {
            let digit = value.significand.value.value[0];
            let mut last_bit = value.significand.value.get_last_bit();
            let mut frac: u64 = digit >> 1;
            let ghost m = x / 2;
            let ghost up = x % 2 == 1 && (value.non_zero_reminder || m % 2 == 1);
            proof {
                vstd::bits::lemma_u64_shr_is_div(digit, 1);
                lemma_scaled_halve(s, two, 0, t);
                assert(digit == x);
                assert(frac == m);
                vstd::arithmetic::div_mod::lemma_fundamental_div_mod(x as int, 2);
                lemma_mod_pos_bound(x as int, 2);
                assert(0x10_0000_0000_0000 <= m < 0x20_0000_0000_0000) by (nonlinear_arith)
                    requires
                        0x20_0000_0000_0000 <= x < 0x40_0000_0000_0000,
                        x == 2 * m + x % 2,
                        0 <= x % 2 < 2,
                ;
            }
            if last_bit == 1 && !value.non_zero_reminder {
                assert(frac & 1 == frac % 2) by (bit_vector);
                last_bit = frac & 1;
            }
            assert((last_bit == 1) == up);
            let ghost e = f64_exp as int;
            if last_bit == 1 {
                frac = frac + 1;
                if frac == 0x20_0000_0000_0000u64 {
                    assert(0x20_0000_0000_0000u64 >> 1 == 0x10_0000_0000_0000u64) by (bit_vector);
                    frac = frac >> 1;
                    f64_exp = f64_exp + 1;
                }
            }
            assert(0x10_0000_0000_0000u64 <= frac < 0x20_0000_0000_0000u64);
            assert(e == top_exp(s, two, 0) + 53);
            let exp_bits = (f64_exp + 1023) as u64;
            assert(0x10_0000_0000_0000u64 <= frac < 0x20_0000_0000_0000u64 ==> frac & 0xf_ffff_ffff_ffffu64
                == frac - 0x10_0000_0000_0000u64) by (bit_vector);
            let frac_bits = frac & 0xf_ffff_ffff_ffffu64;
            proof {
                lemma_f64_fields(bits, exp_bits, frac_bits);
            }
            bits = bits | exp_bits << 52;
            bits = bits | frac_bits;
            bits
        } else if -1074 <= f64_exp && f64_exp <= -1023 {
            let exp_dif = (-1021 - f64_exp) as u64;
            let frac_bits = value.significand.value.value[0] >> exp_dif;
            proof {
                vstd::bits::lemma_u64_shr_is_div(value.significand.value.value@[0], exp_dif);
                lemma_scaled_shift(s, two, 0, t, exp_dif as nat);
                assert(t + exp_dif == -1074);
                vstd::arithmetic::power2::lemma_pow2_adds(52, 2);
                vstd::arithmetic::power2::lemma_pow2_strictly_increases(1, exp_dif as nat);
                vstd::arithmetic::div_mod::lemma_div_is_ordered_by_denominator(x as int, 4, pow2(exp_dif as nat) as int);
                if exp_dif > 2 {
                    vstd::arithmetic::power2::lemma_pow2_strictly_increases(2, exp_dif as nat);
                }
                assert(x / 4 < 0x10_0000_0000_0000) by {
                    vstd::arithmetic::div_mod::lemma_fundamental_div_mod(x as int, 4);
                    lemma_mod_pos_bound(x as int, 4);
                }
                lemma_f64_fields(bits, 0, frac_bits);
            }
            bits = bits | frac_bits;
            bits
        } else if f64_exp > 1023 {
            proof {
                lemma_f64_fields(bits, 2047, 0);
            }
            bits = bits | 0x7ff0_0000_0000_0000u64;
            proof {
                assert(2047u64 << 52 == 0x7ff0_0000_0000_0000u64) by (bit_vector);
                assert(bits | 0u64 == bits) by (bit_vector);
            }
            bits
        } else {
            bits
        }
    }
}

/// A number truncated to 54 bits, with the truncation recorded, has the bit pattern of the
/// number itself.
proof fn lemma_bits_of_truncated(negative: bool, s: nat, e: int, dropped: bool, q: nat, t: int)
    requires
        s != 0,
        q == scaled_floor(s, e, e, t),
        q < pow2(54),
        pow2(54) <= scaled_floor(s, e, e, t - 1),
    ensures
        f64_bits_of(negative, q, t, 0, dropped || !scaled_exact(s, e, e, t)) == f64_bits_of(
            negative,
            s,
            e,
            e,
            dropped,
        ),
{
    vstd::arithmetic::power2::lemma2_to64();
    vstd::arithmetic::power2::lemma2_to64_rest();
    lemma_scaled_halve(s, e, e, t - 1);
    assert(t - 1 + 1 == t);
    assert(q >= pow2(53)) by {
        vstd::arithmetic::div_mod::lemma_div_is_ordered(pow2(54) as int, scaled_floor(s, e, e, t - 1) as int, 2);
    }
    assert(q != 0);
    lemma_scaled_whole(q, t, 0, t);
    vstd::arithmetic::power::lemma_pow0(5);
    vstd::arithmetic::mul::lemma_mul_basics(q as int);
    lemma_top_exp_unique(q, t, 0, t, top_exp(q, t, 0));
    lemma_top_exp_unique(s, e, e, t, top_exp(s, e, e));
    lemma_scaled_halve(q, t, 0, t);
    lemma_scaled_halve(s, e, e, t);
    let f = t + 53;
    if f < -1022 && f >= -1074 {
        let d = (-1074 - t) as nat;
        lemma_scaled_shift(q, t, 0, t, d);
        lemma_scaled_shift(s, e, e, t, d);
        assert(t + d == -1074);
    }
}

/// The IEEE 754 binary64 bit pattern nearest to the number (see `f64_bits_of`): the number in
/// binary with 54 bits, then rounded to 53. Zero gives positive zero.
pub fn bigfloat_to_f64_bits(bf_10: BigFloat<10>) -> (r: u64)
    requires
        bf_10.significand.value.wf(),
        bf_10.significand.value.value@.len() + 2 * abs_int(bf_10.exp as int) + 8 <= usize::MAX,
        64 * (bf_10.significand.value.value@.len() + 2 * abs_int(bf_10.exp as int) + 12)
            <= i64::MAX,
    ensures
        bf_10.significand.value@ == 0 ==> r == 0,
        bf_10.significand.value@ != 0 ==> r == f64_bits_of(
            bf_10.significand.sign == Sign::Negative,
            bf_10.significand.value@,
            bf_10.exp as int,
            bf_10.exp as int,
            bf_10.non_zero_reminder,
        ),
{
    let ghost x = bf_10;
    let bf_2 = bf_10.to_bin(54);
    proof {
        vstd::arithmetic::power2::lemma2_to64();
        vstd::arithmetic::power2::lemma2_to64_rest();
        if bf_2.significand.value.value@.len() > 0 {
            crate::digits::lemma_pow_base_pow2(1);
            crate::digits::lemma_normalized_len_bound(bf_2.significand.value.value@, 1);
        }
        if x.significand.value@ != 0 {
            lemma_bits_of_truncated(
                x.significand.sign == Sign::Negative,
                x.significand.value@,
                x.exp as int,
                x.non_zero_reminder,
                bf_2.significand.value@,
                bf_2.exp as int,
            );
        }
    }
    bf_2.get_f64_bits()
}

} // verus!

use vstd::prelude::*;
use vstd::arithmetic::mul::*;
use vstd::arithmetic::div_mod::*;
use vstd::arithmetic::power::pow;
use vstd::arithmetic::power2::{pow2, lemma_pow2_adds, lemma_pow2_pos};
use vstd::bits::{lemma_u64_shl_is_mul, lemma_u64_pow2_no_overflow};
use crate::digits::{
    base, digit_at, digits_value, is_normalized, lemma_normalized_unique, lemma_low_value_full, lemma_low_value_step, lemma_normalized_len_bound, lemma_pow_base_pow2,
    lemma_low_value_bound, lemma_pow_base_adds, lemma_pow_base_pos, lemma_pow_base_succ,
    lemma_value_update, lemma_order_range, lemma_seq_order, lemma_value_bound,
    lemma_value_drop_zero, lemma_value_first, lemma_value_lower_bound, lemma_value_zeros, lemma_value_push, lemma_value_single,
    low_value, pow_base, seq_order, sign_of_diff, top_order,
};

verus! {

/// An arbitrary-precision natural number: little-endian 64-bit digits.
/// The value is normalized when it has no most significant zero digit.
#[derive(Debug, PartialEq, Eq, Clone, Default)]
pub struct BigUint {
    pub value: Vec<u64>,
}

impl View for BigUint {
    type V = nat;

    open spec fn view(&self) -> nat {
        digits_value(self.value@)
    }
}

/// `(a * b) * (p * q) == (a * p) * (b * q)`.
pub proof fn lemma_mul_products_rearrange(a: int, b: int, p: int, q: int)
    ensures
        (a * b) * (p * q) == (a * p) * (b * q),
{
    lemma_mul_is_associative(a * b, p, q);
    lemma_mul_is_associative(a, b, p);
    lemma_mul_is_commutative(b, p);
    lemma_mul_is_associative(a, p, b);
    lemma_mul_is_associative(a * p, b, q);
}

/// The product of two 64-bit digits fits the bound that `add_to_vec` takes.
pub proof fn lemma_u64_product_bound(a: u64, b: u64)
    ensures
        a as nat * b as nat <= 0xFFFF_FFFF_FFFF_FFFE_0000_0000_0000_0001,
{
    lemma_mul_inequality(a as int, 0xFFFF_FFFF_FFFF_FFFF, b as int);
    lemma_mul_inequality(b as int, 0xFFFF_FFFF_FFFF_FFFF, 0xFFFF_FFFF_FFFF_FFFF);
    lemma_mul_is_commutative(b as int, 0xFFFF_FFFF_FFFF_FFFF);
}

/// Adds `add` at digit position `index`, carrying into the more significant digits.
fn add_to_vec(vec: Vec<u64>, index: usize, add: u128) -> (r: Vec<u64>)
    requires
        index < vec@.len(),
        add <= 0xFFFF_FFFF_FFFF_FFFE_0000_0000_0000_0001,
        digits_value(vec@) + add * pow_base(index as nat) < pow_base(vec@.len()),
    ensures
        r@.len() == vec@.len(),
        digits_value(r@) == digits_value(vec@) + add * pow_base(index as nat),
    decreases vec@.len() - index,
{
    let mut vec = vec;
    let len = vec.len();
    let sum: u128 = vec[index] as u128 + add;
    let lo = (sum % 0x1_0000_0000_0000_0000u128) as u64;
    let carry: u128 = sum / 0x1_0000_0000_0000_0000u128;
    let ghost old_vec = vec@;
    proof {
        assert(sum == lo + carry * base());
        lemma_value_update(old_vec, index as int, lo);
        lemma_digit_step(lo as nat, carry as nat, sum as nat, index as nat);
        lemma_mul_is_distributive_add_other_way(pow_base(index as nat) as int, old_vec[index as int] as int, add as int);
    }
    vec.set(index, lo);
    proof {
        assert(vec@ == old_vec.update(index as int, lo));
        if index + 1 == vec@.len() && carry > 0 {
            lemma_mul_inequality(1, carry as int, pow_base((index + 1) as nat) as int);
        }
    }
    if carry > 0 {
        vec = add_to_vec(vec, index + 1, carry);
    }
    proof {
        lemma_mul_basics(pow_base((index + 1) as nat) as int);
    }
    vec
}

/// `lo + hi * base()` digits at position `i` contribute `sum * pow_base(i)`.
pub proof fn lemma_digit_step(lo: nat, hi: nat, sum: nat, i: nat)
    requires
        sum == lo + hi * base(),
    ensures
        lo * pow_base(i) + hi * pow_base(i + 1) == sum * pow_base(i),
{
    lemma_pow_base_succ(i);
    lemma_mul_is_associative(hi as int, base() as int, pow_base(i) as int);
    lemma_mul_is_distributive_add_other_way(pow_base(i) as int, lo as int, (hi * base()) as int);
}

/// `a - b`, or zero when `b` is not below `a`.
pub open spec fn monus(a: nat, b: nat) -> nat {
    if a > b {
        (a - b) as nat
    } else {
        0
    }
}

/// Subtracting what was added gives the number back.
pub proof fn law_sub_undoes_add(a: nat, b: nat)
    ensures
        monus(a + b, b) == a,
{
}

/// Dividing by a factor of a product gives the other factor.
pub proof fn law_div_undoes_mul(a: nat, b: nat)
    requires
        b > 0,
    ensures
        (a * b) / b == a,
{
    lemma_div_by_multiple(a as int, b as int);
}

/// A normalized number is held in one way only: two normalized numbers of the same value have
/// the same digits, so that `==` on them is equality of their values.
pub proof fn law_normalized_is_canonical(a: BigUint, b: BigUint)
    requires
        a.wf(),
        b.wf(),
        a@ == b@,
    ensures
        a.value@ == b.value@,
{
    lemma_normalized_unique(a.value@, b.value@);
}

impl BigUint {
    /// The representation invariant: no most significant zero digit.
    pub open spec fn wf(&self) -> bool {
        is_normalized(self.value@)
    }

    /// Zero, with no digit.
    pub fn zero() -> (r: BigUint)
        ensures
            r.value@.len() == 0,
            r@ == 0,
            r.wf(),
    {
        BigUint { value: Vec::new() }
    }

    /// One, as the single digit 1.
    pub fn one() -> (r: BigUint)
        ensures
            r.value@ == seq![1u64],
            r@ == 1,
            r.wf(),
    {
        let mut value = Vec::new();
        value.push(1u64);
        proof {
            lemma_value_single(1u64);
            assert(value@ =~= seq![1u64]);
        }
        BigUint { value }
    }

    /// `n` in normalized form: no digit for zero, one digit otherwise.
    pub fn from_u64(n: u64) -> (r: BigUint)
        ensures
            r@ == n,
            r.wf(),
            r.value@ == (if n == 0 { Seq::<u64>::empty() } else { seq![n] }),
    {
        let mut value = Vec::new();
        if n != 0 {
            value.push(n);
        }
        proof {
            lemma_value_single(n);
            if n != 0 {
                assert(value@ =~= seq![n]);
            } else {
                assert(value@ =~= Seq::<u64>::empty());
            }
        }
        BigUint { value }
    }

    /// Removes the most significant zero digits.
    pub fn normalize(&mut self)
        ensures
            final(self)@ == old(self)@,
            final(self).wf(),
            final(self).value@.len() <= old(self).value@.len(),
            final(self).value@ == old(self).value@.take(final(self).value@.len() as int),
            forall|i: int|
                final(self).value@.len() <= i < old(self).value@.len() ==> old(self).value@[i]
                    == 0,
    {
        loop
            invariant
                self.value@.len() <= old(self).value@.len(),
                self.value@ == old(self).value@.take(self.value@.len() as int),
                digits_value(self.value@) == digits_value(old(self).value@),
                forall|i: int|
                    self.value@.len() <= i < old(self).value@.len() ==> old(self).value@[i] == 0,
            ensures
                self.value@.len() <= old(self).value@.len(),
                self.value@ == old(self).value@.take(self.value@.len() as int),
                digits_value(self.value@) == digits_value(old(self).value@),
                forall|i: int|
                    self.value@.len() <= i < old(self).value@.len() ==> old(self).value@[i] == 0,
                is_normalized(self.value@),
            decreases self.value@.len(),
        {
            let n = self.value.len();
            if n == 0 {
                break;
            }
            if self.value[n - 1] != 0 {
                break;
            }
            proof {
                lemma_value_drop_zero(self.value@);
            }
            self.value.pop();
            proof {
                assert(self.value@ =~= old(self).value@.take(self.value@.len() as int));
            }
        }
    }

    /// True when the number has no digit.
    pub fn is_zero(&self) -> (r: bool)
        ensures
            r == (self.value@.len() == 0),
            self.wf() ==> (r == (self@ == 0)),
    {
        proof {
            if self.value@.len() > 0 && self.wf() {
                lemma_value_lower_bound(self.value@);
                lemma_pow_base_pos((self.value@.len() - 1) as nat);
            }
        }
        self.len() == 0
    }

    /// The number of digits.
    pub fn len(&self) -> (r: usize)
        ensures
            r == self.value@.len(),
    {
        self.value.len()
    }

    /// Compares by number of digits, then by the most significant differing digit:
    /// -1, 0 or 1 (see `seq_order`); on normalized numbers this is the order of values.
    pub fn compare(&self, other: &Self) -> (r: i8)
        ensures
            -1 <= r <= 1,
            r == seq_order(self.value@, other.value@),
            self.wf() && other.wf() ==> r == sign_of_diff(self@ as int, other@ as int),
    {
        proof {
            lemma_order_range(self.value@, other.value@);
            if self.wf() && other.wf() {
                lemma_seq_order(self.value@, other.value@);
            }
        }
        let n = self.value.len();
        let m = other.value.len();
        if n < m {
            return -1;
        }
        if n > m {
            return 1;
        }
        let mut i = n;
        proof {
            assert(self.value@.take(n as int) =~= self.value@);
            assert(other.value@.take(n as int) =~= other.value@);
        }
        while i > 0
            invariant
                i <= n,
                seq_order(self.value@, other.value@) == top_order(self.value@, other.value@),
                self.wf() && other.wf() ==> seq_order(self.value@, other.value@) == sign_of_diff(
                    self@ as int,
                    other@ as int,
                ),
                n == self.value@.len(),
                n == other.value@.len(),
                top_order(self.value@, other.value@) == top_order(
                    self.value@.take(i as int),
                    other.value@.take(i as int),
                ),
            decreases i,
        {
            let a = self.value[i - 1];
            let b = other.value[i - 1];
            proof {
                let s = self.value@.take(i as int);
                let t = other.value@.take(i as int);
                assert(s.drop_last() =~= self.value@.take(i - 1));
                assert(t.drop_last() =~= other.value@.take(i - 1));
            }
            if a != b {
                if a < b {
                    return -1;
                } else {
                    return 1;
                }
            }
            i = i - 1;
        }
        proof {
            assert(self.value@.take(0).len() == 0);
        }
        0
    }

    /// The sum.
    pub fn add(&self, other: &Self) -> (r: BigUint)
        ensures
            r@ == self@ + other@,
            r.value@.len() == (if self@ + other@ >= pow_base(
                vstd::math::max(self.value@.len() as int, other.value@.len() as int) as nat,
            ) {
                vstd::math::max(self.value@.len() as int, other.value@.len() as int) + 1
            } else {
                vstd::math::max(self.value@.len() as int, other.value@.len() as int)
            }),
            self.wf() && other.wf() ==> r.wf(),
    {
        let (long, short) = if other.value.len() > self.value.len() {
            (other, self)
        } else {
            (self, other)
        };
        let n = long.value.len();
        let m = short.value.len();
        let mut value: Vec<u64> = Vec::new();
        let mut carry: u64 = 0;
        let mut i: usize = 0;
        while i < n
            invariant
                i <= n,
                n == long.value@.len(),
                m == short.value@.len(),
                m <= n,
                value@.len() == i,
                carry <= 1,
                digits_value(value@) + carry * pow_base(i as nat) == low_value(long.value@, i as nat)
                    + low_value(short.value@, i as nat),
            decreases n - i,
        {
            let x = long.value[i];
            let y = if i < m {
                short.value[i]
            } else {
                0
            };
            assert(y == digit_at(short.value@, i as int));
            let next: u128 = x as u128 + y as u128 + carry as u128;
            let lo = (next % 0x1_0000_0000_0000_0000u128) as u64;
            let hi = (next / 0x1_0000_0000_0000_0000u128) as u64;
            proof {
                assert(next == lo + hi * base());
                lemma_digit_step(lo as nat, hi as nat, next as nat, i as nat);
                lemma_value_push(value@, lo);
                lemma_low_value_step(long.value@, i as nat);
                lemma_low_value_step(short.value@, i as nat);
                lemma_mul_is_distributive_add_other_way(pow_base(i as nat) as int, x as int + y as int, carry as int);
                lemma_mul_is_distributive_add_other_way(pow_base(i as nat) as int, x as int, y as int);
            }
            value.push(lo);
            carry = hi;
            i = i + 1;
        }
        proof {
            lemma_low_value_full(long.value@, n as nat);
            lemma_low_value_full(short.value@, n as nat);
            lemma_value_bound(value@);
        }
        let ghost pre = value@;
        if carry != 0 {
            value.push(carry);
            proof {
                lemma_value_push(pre, carry);
            }
        }
        proof {
            lemma_mul_basics(pow_base(n as nat) as int);
            if long.wf() && carry == 0 && n > 0 {
                lemma_value_lower_bound(long.value@);
                if value@.last() == 0 {
                    lemma_value_drop_zero(value@);
                    lemma_value_bound(value@.drop_last());
                }
            }
        }
        BigUint { value }
    }

    /// Three-way comparison: by number of digits, then by the most significant differing digit;
    /// on normalized numbers this is the order of their values.
    pub fn cmp(&self, other: &Self) -> (r: core::cmp::Ordering)
        ensures
            (r == core::cmp::Ordering::Less) == (seq_order(self.value@, other.value@) == -1),
            (r == core::cmp::Ordering::Equal) == (seq_order(self.value@, other.value@) == 0),
            (r == core::cmp::Ordering::Greater) == (seq_order(self.value@, other.value@) == 1),
            self.wf() && other.wf() ==> (r == core::cmp::Ordering::Less) == (self@ < other@),
            self.wf() && other.wf() ==> (r == core::cmp::Ordering::Equal) == (self@ == other@),
            self.wf() && other.wf() ==> (r == core::cmp::Ordering::Greater) == (self@ > other@),
    {
        let c = self.compare(other);
        if c < 0 {
            core::cmp::Ordering::Less
        } else if c == 0 {
            core::cmp::Ordering::Equal
        } else {
            core::cmp::Ordering::Greater
        }
    }

    /// The difference, or zero when `self` does not compare above `other`. When `self`
    /// compares above `other` by its digits but denotes less (possible only for numbers that
    /// are not normalized), the difference wraps around `pow_base` of the length of `self`.
    pub fn sub(&self, other: &Self) -> (r: BigUint)
        ensures
            r.wf(),
            r.value@.len() <= self.value@.len(),
            seq_order(self.value@, other.value@) != 1 ==> r@ == 0,
            seq_order(self.value@, other.value@) == 1 ==> r@ == (if self@ >= other@ {
                self@ - other@
            } else {
                self@ + pow_base(self.value@.len()) - other@
            }),
            self.wf() && other.wf() ==> r@ == monus(self@, other@),
    {
        proof {
            if self.wf() && other.wf() {
                lemma_seq_order(self.value@, other.value@);
            }
        }
        let c = self.compare(other);
        if c <= 0 {
            return BigUint::zero();
        }
        let n = self.value.len();
        let m = other.value.len();
        let mut value: Vec<u64> = Vec::new();
        let mut borrow: u64 = 0;
        let mut i: usize = 0;
        while i < n
            invariant
                i <= n,
                n == self.value@.len(),
                m == other.value@.len(),
                m <= n,
                value@.len() == i,
                borrow <= 1,
                digits_value(value@) + low_value(other.value@, i as nat) == low_value(
                    self.value@,
                    i as nat,
                ) + borrow * pow_base(i as nat),
            decreases n - i,
        {
            let x = self.value[i];
            let y = if i < m {
                other.value[i]
            } else {
                0
            };
            assert(y == digit_at(other.value@, i as int));
            let t: u128 = y as u128 + borrow as u128;
            let d: u64;
            let nb: u64;
            if x as u128 >= t {
                d = (x as u128 - t) as u64;
                nb = 0;
            } else {
                d = (x as u128 + 0x1_0000_0000_0000_0000u128 - t) as u64;
                nb = 1;
            }
            proof {
                assert(x + nb * base() == d + t);
                lemma_digit_step(x as nat, nb as nat, (d + t) as nat, i as nat);
                lemma_value_push(value@, d);
                lemma_low_value_step(self.value@, i as nat);
                lemma_low_value_step(other.value@, i as nat);
                lemma_mul_is_distributive_add_other_way(pow_base(i as nat) as int, d as int, t as int);
                lemma_mul_is_distributive_add_other_way(pow_base(i as nat) as int, y as int, borrow as int);
            }
            value.push(d);
            borrow = nb;
            i = i + 1;
        }
        proof {
            lemma_low_value_full(self.value@, n as nat);
            lemma_low_value_full(other.value@, n as nat);
            lemma_value_bound(value@);
            lemma_mul_basics(pow_base(n as nat) as int);
        }
        let mut res = BigUint { value };
        res.normalize();
        res
    }

    /// The product, normalized.
    pub fn mul(&self, other: &Self) -> (r: BigUint)
        requires
            self.value@.len() + other.value@.len() <= usize::MAX,
        ensures
            r@ == self@ * other@,
            r.wf(),
            r.value@.len() <= self.value@.len() + other.value@.len(),
    {
        if self.is_zero() || other.is_zero() {
            proof {
                lemma_mul_basics(self@ as int);
                lemma_mul_basics(other@ as int);
            }
            return BigUint::zero();
        }
        let la = self.value.len();
        let lb = other.value.len();
        let total = la + lb;
        let mut value: Vec<u64> = Vec::new();
        while value.len() < total
            invariant
                value@.len() <= total,
                forall|i: int| 0 <= i < value@.len() ==> value@[i] == 0,
                digits_value(value@) == 0,
            decreases total - value@.len(),
        {
            proof {
                lemma_value_push(value@, 0);
                lemma_mul_basics(pow_base(value@.len()) as int);
            }
            value.push(0);
        }
        let ghost va = self@;
        let ghost vb = other@;
        proof {
            lemma_value_bound(self.value@);
            lemma_value_bound(other.value@);
            lemma_pow_base_adds(la as nat, lb as nat);
            assert(low_value(self.value@, 0) == 0) by {
                assert(self.value@.take(0) =~= Seq::<u64>::empty());
            }
            lemma_mul_basics(vb as int);
        }
        let mut j: usize = 0;
        while j < la
            invariant
                j <= la,
                la == self.value@.len(),
                lb == other.value@.len(),
                total == la + lb,
                value@.len() == total,
                va == self@,
                vb == other@,
                va < pow_base(la as nat),
                vb < pow_base(lb as nat),
                pow_base(total as nat) == pow_base(la as nat) * pow_base(lb as nat),
                digits_value(value@) == low_value(self.value@, j as nat) * vb,
            decreases la - j,
        {
            let aj = self.value[j];
            let ghost lj = low_value(self.value@, j as nat);
            let ghost pj = pow_base(j as nat);
            proof {
                assert(low_value(other.value@, 0) == 0) by {
                    assert(other.value@.take(0) =~= Seq::<u64>::empty());
                }
                lemma_mul_basics(aj as int * pj as int);
                lemma_low_value_step(self.value@, j as nat);
                lemma_low_value_bound(self.value@, (j + 1) as nat);
                lemma_low_value_full(other.value@, lb as nat);
            }
            let mut k: usize = 0;
            while k < lb
                invariant
                    k <= lb,
                    j < la,
                    la == self.value@.len(),
                    lb == other.value@.len(),
                    total == la + lb,
                    value@.len() == total,
                    aj == self.value@[j as int],
                    va == self@,
                    vb == other@,
                    va < pow_base(la as nat),
                    vb < pow_base(lb as nat),
                    pow_base(total as nat) == pow_base(la as nat) * pow_base(lb as nat),
                    lj == low_value(self.value@, j as nat),
                    pj == pow_base(j as nat),
                    lj + aj * pj == low_value(self.value@, (j + 1) as nat),
                    lj + aj * pj <= va,
                    vb == low_value(other.value@, lb as nat),
                    digits_value(value@) == lj * vb + (aj * pj) * low_value(other.value@, k as nat),
                decreases lb - k,
            {
                let bk = other.value[k];
                let ghost lk = low_value(other.value@, k as nat);
                proof {
                    lemma_u64_product_bound(aj, bk);
                }
                let prod: u128 = aj as u128 * bk as u128;
                proof {
                    let pk = pow_base(k as nat);
                    lemma_low_value_step(other.value@, k as nat);
                    assert(digit_at(other.value@, k as int) == bk);
                    lemma_low_value_bound(other.value@, (k + 1) as nat);
                    lemma_low_value_full(other.value@, lb as nat);
                    lemma_pow_base_adds(j as nat, k as nat);
                    lemma_mul_products_rearrange(aj as int, bk as int, pj as int, pk as int);
                    lemma_mul_is_distributive_add((aj * pj) as int, lk as int, (bk * pk) as int);
                    lemma_mul_inequality(low_value(other.value@, (k + 1) as nat) as int, vb as int, (aj * pj) as int);
                    lemma_mul_is_commutative(low_value(other.value@, (k + 1) as nat) as int, (aj * pj) as int);
                    lemma_mul_is_commutative(vb as int, (aj * pj) as int);
                    lemma_mul_is_distributive_add_other_way(vb as int, lj as int, (aj * pj) as int);
                    lemma_mul_inequality((lj + aj * pj) as int, va as int, vb as int);
                    lemma_mul_inequality(vb as int, pow_base(lb as nat) as int, va as int);
                    lemma_mul_is_commutative(vb as int, va as int);
                    lemma_mul_is_commutative(pow_base(lb as nat) as int, va as int);
                    lemma_pow_base_pos(lb as nat);
                    lemma_mul_strict_inequality(va as int, pow_base(la as nat) as int, pow_base(lb as nat) as int);
                }
                value = add_to_vec(value, j + k, prod);
                k = k + 1;
            }
            proof {
                lemma_mul_is_distributive_add_other_way(vb as int, lj as int, (aj * pj) as int);
                lemma_mul_is_commutative(vb as int, (aj * pj) as int);
            }
            j = j + 1;
        }
        proof {
            lemma_low_value_full(self.value@, la as nat);
        }
        let mut result = BigUint { value };
        result.normalize();
        proof {
            lemma_mul_inequality(va as int, pow_base(la as nat) as int, vb as int);
            lemma_mul_is_commutative(pow_base(la as nat) as int, vb as int);
            lemma_pow_base_pos(la as nat);
            lemma_mul_strict_inequality(vb as int, pow_base(lb as nat) as int, pow_base(la as nat) as int);
            lemma_mul_is_commutative(pow_base(la as nat) as int, pow_base(lb as nat) as int);
            lemma_pow_base_adds(la as nat, lb as nat);
            lemma_normalized_len_bound(result.value@, total as nat);
        }
        result
    }

    /// A copy with the same digits.
    pub fn duplicate(&self) -> (r: BigUint)
        ensures
            r.value@ == self.value@,
            r@ == self@,
    {
        let mut value: Vec<u64> = Vec::new();
        let n = self.value.len();
        let mut i: usize = 0;
        while i < n
            invariant
                i <= n,
                n == self.value@.len(),
                value@ == self.value@.take(i as int),
            decreases n - i,
        {
            value.push(self.value[i]);
            i = i + 1;
            proof {
                assert(value@ =~= self.value@.take(i as int));
            }
        }
        proof {
            assert(value@ =~= self.value@);
        }
        BigUint { value }
    }

    /// `digit * pow_base(index)`: `index` zero digits, then `digit`.
    pub fn from_digit_at(index: usize, digit: u64) -> (r: BigUint)
        requires
            index < usize::MAX,
        ensures
            r@ == digit * pow_base(index as nat),
            r.value@.len() == index + 1,
            digit != 0 ==> r.wf(),
    {
        let mut value: Vec<u64> = Vec::new();
        while value.len() < index
            invariant
                value@.len() <= index,
                forall|i: int| 0 <= i < value@.len() ==> value@[i] == 0,
            decreases index - value@.len(),
        {
            value.push(0);
        }
        proof {
            lemma_value_zeros(value@);
            lemma_value_push(value@, digit);
        }
        value.push(digit);
        BigUint { value }
    }

    /// Half the number, rounded down, normalized.
    pub fn halve(&self) -> (r: BigUint)
        ensures
            r@ == self@ / 2,
            r.value@.len() <= self.value@.len(),
            r.wf(),
    {
        let n = self.value.len();
        let mut value: Vec<u64> = Vec::new();
        while value.len() < n
            invariant
                value@.len() <= n,
            decreases n - value@.len(),
        {
            value.push(0);
        }
        let mut rem: u64 = 0;
        let mut i = n;
        proof {
            assert(self.value@.skip(n as int).len() == 0);
            assert(value@.skip(n as int).len() == 0);
        }
        while i > 0
            invariant
                i <= n,
                n == self.value@.len(),
                value@.len() == n,
                rem <= 1,
                digits_value(self.value@.skip(i as int)) == 2 * digits_value(value@.skip(i as int))
                    + rem,
            decreases i,
        {
            let d = self.value[i - 1];
            let nd: u64 = d / 2 + rem * 0x8000_0000_0000_0000u64;
            let ghost old_value = value@;
            value.set(i - 1, nd);
            proof {
                let s = self.value@.skip(i - 1);
                let t = value@.skip(i - 1);
                lemma_value_first(s);
                lemma_value_first(t);
                assert(s.drop_first() =~= self.value@.skip(i as int));
                assert(t.drop_first() =~= old_value.skip(i as int));
                assert(d == 2 * (d / 2) + d % 2);
                assert(2 * nd + d % 2 == d + rem * base());
                lemma_mul_is_distributive_add_other_way(base() as int, 2 * digits_value(old_value.skip(i as int)) as int, rem as int);
                lemma_mul_is_associative(2, digits_value(old_value.skip(i as int)) as int, base() as int);
            }
            rem = d % 2;
            i = i - 1;
        }
        proof {
            assert(self.value@.skip(0) =~= self.value@);
            assert(value@.skip(0) =~= value@);
        }
        let mut res = BigUint { value };
        res.normalize();
        res
    }

    /// The least significant bit: `self@ % 2`.
    pub fn get_last_bit(&self) -> (r: u64)
        ensures
            r == self@ % 2,
    {
        if self.value.len() == 0 {
            0
        } else {
            proof {
                lemma_value_first(self.value@);
                assert((self.value@[0] + digits_value(self.value@.drop_first()) * base()) % 2
                    == self.value@[0] % 2) by {
                    lemma_mul_is_associative(digits_value(self.value@.drop_first()) as int, 0x8000_0000_0000_0000, 2);
                    lemma_mod_multiples_vanish(
                        (digits_value(self.value@.drop_first()) * 0x8000_0000_0000_0000) as int,
                        self.value@[0] as int,
                        2,
                    );
                }
            }
            self.value[0] % 2
        }
    }

    /// Quotient and remainder of normalized numbers by long division. Each step subtracts a
    /// multiple of `b` estimated from the most significant digits, corrected once, and halved
    /// further while it still exceeds the running remainder.
    fn div_mod(&self, b: &Self) -> (r: (BigUint, BigUint))
        requires
            self.wf(),
            b.wf(),
            b@ > 0,
            self.value@.len() + b.value@.len() <= usize::MAX,
        ensures
            r.0@ * b@ + r.1@ == self@,
            r.1@ < b@,
            r.0.wf(),
            r.1.wf(),
    {
        proof {
            lemma_mul_basics(b@ as int);
        }
        let c = self.compare(b);
        if c < 0 {
            return (BigUint::zero(), self.duplicate());
        }
        if c == 0 {
            return (BigUint::one(), BigUint::zero());
        }
        let mut a = self.duplicate();
        let mut result = BigUint::zero();
        loop
            invariant
                a.wf(),
                result.wf(),
                b.wf(),
                b@ > 0,
                a.value@.len() <= self.value@.len(),
                self.value@.len() + b.value@.len() <= usize::MAX,
                result@ * b@ + a@ == self@,
            decreases a@,
        {
            if a.compare(b) < 0 {
                return (result, a);
            }
            proof {
                lemma_seq_order(a.value@, b.value@);
                lemma_value_lower_bound(b.value@);
            }
            let a_high_digit = a.len() - 1;
            let b_high_digit = b.len() - 1;
            let a_high = a.value[a_high_digit];
            let b_high = b.value[b_high_digit];
            let mut q: BigUint;
            let mut m: BigUint;
            if b_high <= a_high {
                let q_index = a_high_digit - b_high_digit;
                let q_digit = a_high / b_high;
                proof {
                    lemma_div_pos_is_pos(a_high as int, b_high as int);
                    lemma_div_basics(a_high as int);
                    lemma_div_is_ordered(b_high as int, a_high as int, b_high as int);
                    lemma_div_by_self(b_high as int);
                }
                q = BigUint::from_digit_at(q_index, q_digit);
                m = b.mul(&q);
                if q_digit > 1 && a.compare(&m) < 0 {
                    q = BigUint::from_digit_at(q_index, q_digit - 1);
                    m = b.mul(&q);
                }
                proof {
                    lemma_pow_base_pos(q_index as nat);
                    if q_digit > 1 {
                        lemma_mul_inequality(1, (q_digit - 1) as int, pow_base(q_index as nat) as int);
                    }
                    lemma_mul_inequality(1, q_digit as int, pow_base(q_index as nat) as int);
                }
            } else {
                proof {
                    assert(a.value@.len() != b.value@.len());
                }
                let a_high_2: u128 = a_high as u128 * 0x1_0000_0000_0000_0000u128
                    + a.value[a_high_digit - 1] as u128;
                let q_index = a_high_digit - b_high_digit - 1;
                proof {
                    lemma_mul_inequality(a_high as int + 1, b_high as int, base() as int);
                    lemma_mul_is_distributive_add_other_way(base() as int, a_high as int, 1);
                    lemma_mul_is_commutative(b_high as int, base() as int);
                    lemma_multiply_divide_lt(a_high_2 as int, b_high as int, base() as int);
                    assert(a_high != 0);
                    lemma_mul_inequality(1, a_high as int, base() as int);
                    lemma_div_is_ordered(base() as int, a_high_2 as int, b_high as int);
                    lemma_div_is_ordered(b_high as int, base() as int, b_high as int);
                    lemma_div_by_self(b_high as int);
                }
                let q_digit = (a_high_2 / b_high as u128) as u64;
                q = BigUint::from_digit_at(q_index, q_digit);
                m = b.mul(&q);
                if q_digit > 1 && a.compare(&m) < 0 {
                    q = BigUint::from_digit_at(q_index, q_digit - 1);
                    m = b.mul(&q);
                }
                proof {
                    lemma_pow_base_pos(q_index as nat);
                    if q_digit > 1 {
                        lemma_mul_inequality(1, (q_digit - 1) as int, pow_base(q_index as nat) as int);
                    }
                    lemma_mul_inequality(1, q_digit as int, pow_base(q_index as nat) as int);
                }
            }
            while a.compare(&m) < 0
                invariant
                    a.wf(),
                    b.wf(),
                    m.wf(),
                    b@ > 0,
                    a@ >= b@,
                    q@ >= 1,
                    m@ == b@ * q@,
                    q.wf(),
                    q.value@.len() <= a.value@.len(),
                    a.value@.len() <= self.value@.len(),
                    self.value@.len() + b.value@.len() <= usize::MAX,
                decreases q@,
            {
                proof {
                    lemma_mul_basics(b@ as int);
                }
                q = q.halve();
                m = b.mul(&q);
            }
            proof {
                lemma_mul_inequality(1, q@ as int, b@ as int);
                lemma_mul_is_commutative(q@ as int, b@ as int);
                lemma_mul_is_distributive_add_other_way(b@ as int, result@ as int, q@ as int);
                lemma_mul_is_commutative(b@ as int, (result@ + q@) as int);
                lemma_mul_is_commutative(b@ as int, result@ as int);
            }
            a = a.sub(&m);
            result = result.add(&q);
        }
    }

    /// The quotient, rounded down. Both numbers are normalized first, so the result is the
    /// same for every digit sequence that denotes `self@` and `other@`.
    pub fn div(&self, other: &Self) -> (r: BigUint)
        requires
            other@ > 0,
            self.value@.len() + other.value@.len() <= usize::MAX,
        ensures
            r@ == self@ / other@,
            r.wf(),
            r.value@.len() <= self.value@.len(),
    {
        let mut a = self.duplicate();
        a.normalize();
        let mut b = other.duplicate();
        b.normalize();
        let (q, rem) = a.div_mod(&b);
        proof {
            lemma_fundamental_div_mod_converse(self@ as int, other@ as int, q@ as int, rem@ as int);
            lemma_div_is_ordered_by_denominator(self@ as int, 1, other@ as int);
            lemma_div_by_multiple(self@ as int, 1);
            lemma_value_bound(self.value@);
            lemma_normalized_len_bound(q.value@, self.value@.len());
        }
        q
    }

    /// Shifted left by `bits`: `self@ * 2^bits`, normalized.
    pub fn shl(&self, bits: u64) -> (r: BigUint)
        requires
            self.value@.len() + bits / 64 + 1 <= usize::MAX,
        ensures
            r@ == self@ * pow2(bits as nat),
            r.wf(),
            r.value@.len() <= self.value@.len() + bits / 64 + 1,
    {
        let k = bits / 64;
        let s = bits % 64;
        proof {
            lemma_u64_pow2_no_overflow(s as nat);
            lemma_u64_shl_is_mul(1, s);
            lemma_pow2_pos(s as nat);
        }
        let d: u64 = 1u64 << s;
        let p = BigUint::from_digit_at(k as usize, d);
        proof {
            lemma_pow_base_pow2(k as nat);
            lemma_pow2_adds(64 * k as nat, s as nat);
            assert(64 * k + s == bits);
            lemma_mul_is_commutative(d as int, pow_base(k as nat) as int);
        }
        self.mul(&p)
    }

    /// `self@` raised to the power `e`.
    pub fn pow_u64(&self, e: u64) -> (r: BigUint)
        requires
            1 + e * self.value@.len() <= usize::MAX,
        ensures
            r@ == pow(self@ as int, e as nat),
            r.wf(),
    {
        let mut result = BigUint::one();
        let mut i: u64 = 0;
        proof {
            vstd::arithmetic::power::lemma_pow0(self@ as int);
        }
        while i < e
            invariant
                i <= e,
                1 + e * self.value@.len() <= usize::MAX,
                result.wf(),
                result@ == pow(self@ as int, i as nat),
                result.value@.len() <= 1 + i * self.value@.len(),
            decreases e - i,
        {
            proof {
                lemma_mul_inequality((i + 1) as int, e as int, self.value@.len() as int);
                lemma_mul_is_distributive_add_other_way(self.value@.len() as int, i as int, 1);
            }
            result = result.mul(self);
            proof {
                vstd::arithmetic::power::lemma_pow_adds(self@ as int, i as nat, 1);
                vstd::arithmetic::power::lemma_pow1(self@ as int);
            }
            i = i + 1;
        }
        result
    }
}

// The operators forward to the methods above; their results are stated by the methods'
// contracts, which each operator repeats in its own `ensures`.
impl vstd::std_specs::ops::AddSpecImpl for &BigUint {
    open spec fn obeys_add_spec() -> bool {
        false
    }

    open spec fn add_req(self, rhs: &BigUint) -> bool {
        true
    }

    open spec fn add_spec(self, rhs: &BigUint) -> BigUint {
        arbitrary()
    }
}

impl core::ops::Add for &BigUint {
    type Output = BigUint;

    fn add(self, other: Self) -> (r: BigUint)
        ensures
            r@ == self@ + other@,
            self.wf() && other.wf() ==> r.wf(),
    {
        BigUint::add(self, other)
    }
}

impl vstd::std_specs::ops::SubSpecImpl for &BigUint {
    open spec fn obeys_sub_spec() -> bool {
        false
    }

    open spec fn sub_req(self, rhs: &BigUint) -> bool {
        true
    }

    open spec fn sub_spec(self, rhs: &BigUint) -> BigUint {
        arbitrary()
    }
}

impl core::ops::Sub for &BigUint {
    type Output = BigUint;

    fn sub(self, other: Self) -> (r: BigUint)
        ensures
            r.wf(),
            self.wf() && other.wf() ==> r@ == monus(self@, other@),
    {
        BigUint::sub(self, other)
    }
}

impl vstd::std_specs::ops::MulSpecImpl for &BigUint {
    open spec fn obeys_mul_spec() -> bool {
        false
    }

    open spec fn mul_req(self, rhs: &BigUint) -> bool {
        self.value@.len() + rhs.value@.len() <= usize::MAX
    }

    open spec fn mul_spec(self, rhs: &BigUint) -> BigUint {
        arbitrary()
    }
}

impl core::ops::Mul for &BigUint {
    type Output = BigUint;

    fn mul(self, other: Self) -> (r: BigUint)
        ensures
            r@ == self@ * other@,
            r.wf(),
    {
        BigUint::mul(self, other)
    }
}

impl vstd::std_specs::ops::DivSpecImpl for &BigUint {
    open spec fn obeys_div_spec() -> bool {
        false
    }

    open spec fn div_req(self, rhs: &BigUint) -> bool {
        rhs@ > 0 && self.value@.len() + rhs.value@.len() <= usize::MAX
    }

    open spec fn div_spec(self, rhs: &BigUint) -> BigUint {
        arbitrary()
    }
}

impl core::ops::Div for &BigUint {
    type Output = BigUint;

    fn div(self, other: Self) -> (r: BigUint)
        ensures
            r@ == self@ / other@,
            r.wf(),
    {
        BigUint::div(self, other)
    }
}

} // verus!

use vstd::prelude::*;
use vstd::arithmetic::mul::*;
use vstd::arithmetic::power2::{pow2, lemma2_to64, lemma_pow2_adds};

verus! {

/// The radix of the little-endian digit sequences that hold a big natural number.
pub open spec fn base() -> nat {
    0x1_0000_0000_0000_0000
}

/// `base()` raised to the power `n`.
pub open spec fn pow_base(n: nat) -> nat
    decreases n,
{
    if n == 0 {
        1
    } else {
        base() * pow_base((n - 1) as nat)
    }
}

/// The number that a little-endian sequence of 64-bit digits denotes.
pub open spec fn digits_value(s: Seq<u64>) -> nat
    decreases s.len(),
{
    if s.len() == 0 {
        0
    } else {
        digits_value(s.drop_last()) + s.last() as nat * pow_base((s.len() - 1) as nat)
    }
}

/// A digit sequence without a most significant zero digit (the empty sequence denotes zero).
pub open spec fn is_normalized(s: Seq<u64>) -> bool {
    s.len() == 0 || s.last() != 0
}

/// The digit at position `i`, or zero past the end of the sequence.
pub open spec fn digit_at(s: Seq<u64>, i: int) -> u64 {
    if 0 <= i < s.len() {
        s[i]
    } else {
        0
    }
}

/// The value of the `n` least significant digits of `s` (all of `s` when `n` exceeds its length).
pub open spec fn low_value(s: Seq<u64>, n: nat) -> nat {
    if n <= s.len() {
        digits_value(s.take(n as int))
    } else {
        digits_value(s)
    }
}

/// Orders two digit sequences of the same length by their most significant differing digit:
/// -1, 0 or 1.
pub open spec fn top_order(s: Seq<u64>, t: Seq<u64>) -> int
    decreases s.len(),
{
    if s.len() == 0 || t.len() == 0 {
        0
    } else if s.last() != t.last() {
        if s.last() < t.last() {
            -1
        } else {
            1
        }
    } else {
        top_order(s.drop_last(), t.drop_last())
    }
}

/// Orders two digit sequences first by length, then by their most significant differing
/// digit: -1, 0 or 1.
pub open spec fn seq_order(s: Seq<u64>, t: Seq<u64>) -> int {
    if s.len() < t.len() {
        -1
    } else if s.len() > t.len() {
        1
    } else {
        top_order(s, t)
    }
}

/// -1, 0 or 1 as `a` is below, equal to or above `b`.
pub open spec fn sign_of_diff(a: int, b: int) -> int {
    if a < b {
        -1
    } else if a == b {
        0
    } else {
        1
    }
}

pub proof fn lemma_pow_base_pos(n: nat)
    ensures
        pow_base(n) >= 1,
    decreases n,
{
    if n > 0 {
        lemma_pow_base_pos((n - 1) as nat);
        lemma_mul_increases(pow_base((n - 1) as nat) as int, base() as int);
        lemma_mul_is_commutative(pow_base((n - 1) as nat) as int, base() as int);
    }
}

pub proof fn lemma_pow_base_succ(n: nat)
    ensures
        pow_base(n + 1) == base() * pow_base(n),
        pow_base(n + 1) > pow_base(n),
{
    lemma_pow_base_pos(n);
    assert(pow_base(n + 1) == base() * pow_base(n));
    lemma_mul_strict_inequality(1, base() as int, pow_base(n) as int);
    lemma_mul_is_commutative(base() as int, pow_base(n) as int);
}

pub proof fn lemma_pow_base_adds(a: nat, b: nat)
    ensures
        pow_base(a + b) == pow_base(a) * pow_base(b),
    decreases a,
{
    if a == 0 {
        assert(pow_base(0) == 1);
    } else {
        lemma_pow_base_adds((a - 1) as nat, b);
        assert(pow_base(a + b) == base() * pow_base((a - 1 + b) as nat));
        lemma_mul_is_associative(base() as int, pow_base((a - 1) as nat) as int, pow_base(b) as int);
    }
}

pub proof fn lemma_pow_base_mono(a: nat, b: nat)
    requires
        a <= b,
    ensures
        pow_base(a) <= pow_base(b),
    decreases b - a,
{
    if a < b {
        lemma_pow_base_mono(a, (b - 1) as nat);
        lemma_pow_base_succ((b - 1) as nat);
    }
}

/// The value of a sequence with one more most significant digit.
pub proof fn lemma_value_push(s: Seq<u64>, d: u64)
    ensures
        digits_value(s.push(d)) == digits_value(s) + d as nat * pow_base(s.len()),
{
    assert(s.push(d).drop_last() =~= s);
}

/// A sequence of `n` digits denotes a number below `pow_base(n)`.
pub proof fn lemma_value_bound(s: Seq<u64>)
    ensures
        digits_value(s) < pow_base(s.len()),
    decreases s.len(),
{
    if s.len() > 0 {
        let n = (s.len() - 1) as nat;
        lemma_value_bound(s.drop_last());
        lemma_pow_base_succ(n);
        // value < pow_base(n) + last * pow_base(n) <= base * pow_base(n)
        lemma_mul_inequality(s.last() as int, (base() - 1) as int, pow_base(n) as int);
        lemma_mul_is_distributive_sub_other_way(pow_base(n) as int, base() as int, 1);
        lemma_mul_is_commutative(pow_base(n) as int, base() as int);
    }
}

/// A normalized sequence of `n > 0` digits denotes at least `pow_base(n - 1)`.
pub proof fn lemma_value_lower_bound(s: Seq<u64>)
    requires
        is_normalized(s),
        s.len() > 0,
    ensures
        digits_value(s) >= pow_base((s.len() - 1) as nat),
{
    let n = (s.len() - 1) as nat;
    lemma_mul_inequality(1, s.last() as int, pow_base(n) as int);
}

/// A sequence with a most significant zero digit denotes the same number without it.
pub proof fn lemma_value_drop_zero(s: Seq<u64>)
    requires
        s.len() > 0,
        s.last() == 0,
    ensures
        digits_value(s) == digits_value(s.drop_last()),
{
}

/// Splitting off the least significant `i` digits.
pub proof fn lemma_value_split(s: Seq<u64>, i: int)
    requires
        0 <= i <= s.len(),
    ensures
        digits_value(s) == digits_value(s.take(i)) + digits_value(s.skip(i)) * pow_base(i as nat),
    decreases s.len(),
{
    if i == s.len() {
        assert(s.take(i) =~= s);
        assert(s.skip(i).len() == 0);
        assert(digits_value(s.skip(i)) == 0);
        lemma_mul_basics(pow_base(i as nat) as int);
    } else {
        let t = s.drop_last();
        let n = (s.len() - 1) as nat;
        let k = (s.len() - 1 - i) as nat;
        lemma_value_split(t, i);
        assert(t.take(i) =~= s.take(i));
        let hs = s.skip(i);
        assert(hs.drop_last() =~= t.skip(i));
        assert(hs.last() == s.last());
        assert(hs.len() == k + 1);
        assert(digits_value(hs) == digits_value(t.skip(i)) + s.last() as nat * pow_base(k));
        lemma_pow_base_adds(k, i as nat);
        assert(n == k + i as nat);
        lemma_mul_is_distributive_add_other_way(pow_base(i as nat) as int,
            digits_value(t.skip(i)) as int, s.last() as int * pow_base(k) as int);
        lemma_mul_is_associative(s.last() as int, pow_base(k) as int, pow_base(i as nat) as int);
        assert(digits_value(hs) * pow_base(i as nat) == digits_value(t.skip(i)) * pow_base(i as nat)
            + s.last() as nat * pow_base(n));
        assert(digits_value(s) == digits_value(t) + s.last() as nat * pow_base(n));
    }
}

/// A one-digit sequence denotes its digit.
pub proof fn lemma_value_single(d: u64)
    ensures
        digits_value(seq![d]) == d as nat,
{
    let s = seq![d];
    assert(s.len() == 1);
    assert(s.last() == d);
    assert(s.drop_last() =~= Seq::<u64>::empty());
    assert(digits_value(s.drop_last()) == 0);
    assert(pow_base(0) == 1);
    lemma_mul_basics(d as int);
    assert(digits_value(s) == digits_value(s.drop_last()) + s.last() as nat * pow_base(0));
}

/// The value of the `i + 1` least significant digits.
pub proof fn lemma_low_value_step(s: Seq<u64>, i: nat)
    ensures
        low_value(s, i + 1) == low_value(s, i) + digit_at(s, i as int) as nat * pow_base(i),
{
    if i < s.len() {
        assert(s.take((i + 1) as int) =~= s.take(i as int).push(s[i as int]));
        lemma_value_push(s.take(i as int), s[i as int]);
    } else if i == s.len() {
        assert(s.take(i as int) =~= s);
    }
}

pub proof fn lemma_low_value_full(s: Seq<u64>, n: nat)
    requires
        n >= s.len(),
    ensures
        low_value(s, n) == digits_value(s),
{
    if n == s.len() {
        assert(s.take(n as int) =~= s);
    }
}

pub proof fn lemma_low_value_bound(s: Seq<u64>, n: nat)
    ensures
        low_value(s, n) < pow_base(n),
        low_value(s, n) <= digits_value(s),
{
    if n <= s.len() {
        lemma_value_bound(s.take(n as int));
        lemma_value_split(s, n as int);
        lemma_mul_nonnegative(digits_value(s.skip(n as int)) as int, pow_base(n) as int);
    } else {
        lemma_value_bound(s);
        lemma_pow_base_mono(s.len(), n);
    }
}

/// The value of a sequence with one digit replaced.
pub proof fn lemma_value_update(s: Seq<u64>, i: int, d: u64)
    requires
        0 <= i < s.len(),
    ensures
        digits_value(s.update(i, d)) + s[i] as nat * pow_base(i as nat)
            == digits_value(s) + d as nat * pow_base(i as nat),
{
    let u = s.update(i, d);
    lemma_value_split(s, i);
    lemma_value_split(u, i);
    assert(u.take(i) =~= s.take(i));
    let hs = s.skip(i);
    let hu = u.skip(i);
    assert(hs.drop_first() =~= hu.drop_first());
    lemma_value_split(hs, 1);
    lemma_value_split(hu, 1);
    assert(hs.take(1) =~= seq![s[i]]);
    assert(hu.take(1) =~= seq![d]);
    assert(hs.skip(1) =~= hs.drop_first());
    assert(hu.skip(1) =~= hu.drop_first());
    lemma_value_single(s[i]);
    lemma_value_single(d);
    let r = digits_value(hs.drop_first()) * pow_base(1);
    lemma_mul_is_distributive_add_other_way(pow_base(i as nat) as int, s[i] as int, r as int);
    lemma_mul_is_distributive_add_other_way(pow_base(i as nat) as int, d as int, r as int);
}

/// Two digit sequences of the same length and value are equal.
pub proof fn lemma_digits_unique(s: Seq<u64>, t: Seq<u64>)
    requires
        s.len() == t.len(),
        digits_value(s) == digits_value(t),
    ensures
        s == t,
    decreases s.len(),
{
    if s.len() > 0 {
        let n = (s.len() - 1) as nat;
        lemma_value_bound(s.drop_last());
        lemma_value_bound(t.drop_last());
        let a = digits_value(s.drop_last());
        let b = digits_value(t.drop_last());
        let p = pow_base(n);
        // a + sl * p == b + tl * p with a, b < p forces sl == tl
        if s.last() < t.last() {
            lemma_mul_inequality(s.last() as int + 1, t.last() as int, p as int);
            lemma_mul_is_distributive_add_other_way(p as int, s.last() as int, 1);
        } else if s.last() > t.last() {
            lemma_mul_inequality(t.last() as int + 1, s.last() as int, p as int);
            lemma_mul_is_distributive_add_other_way(p as int, t.last() as int, 1);
        }
        assert(s.last() == t.last());
        lemma_digits_unique(s.drop_last(), t.drop_last());
        assert(s =~= t.drop_last().push(t.last()));
        assert(t =~= t.drop_last().push(t.last()));
    }
}

/// Two normalized digit sequences of the same value are equal.
pub proof fn lemma_normalized_unique(s: Seq<u64>, t: Seq<u64>)
    requires
        is_normalized(s),
        is_normalized(t),
        digits_value(s) == digits_value(t),
    ensures
        s == t,
{
    if s.len() < t.len() {
        lemma_value_bound(s);
        lemma_value_lower_bound(t);
        lemma_pow_base_mono(s.len(), (t.len() - 1) as nat);
    } else if s.len() > t.len() {
        lemma_value_bound(t);
        lemma_value_lower_bound(s);
        lemma_pow_base_mono(t.len(), (s.len() - 1) as nat);
    } else {
        lemma_digits_unique(s, t);
    }
}

/// On sequences of the same length, `top_order` is the order of their values.
pub proof fn lemma_top_order(s: Seq<u64>, t: Seq<u64>)
    requires
        s.len() == t.len(),
    ensures
        top_order(s, t) == sign_of_diff(digits_value(s) as int, digits_value(t) as int),
    decreases s.len(),
{
    if s.len() > 0 {
        let n = (s.len() - 1) as nat;
        lemma_value_bound(s.drop_last());
        lemma_value_bound(t.drop_last());
        let p = pow_base(n);
        if s.last() < t.last() {
            lemma_mul_inequality(s.last() as int + 1, t.last() as int, p as int);
            lemma_mul_is_distributive_add_other_way(p as int, s.last() as int, 1);
        } else if s.last() > t.last() {
            lemma_mul_inequality(t.last() as int + 1, s.last() as int, p as int);
            lemma_mul_is_distributive_add_other_way(p as int, t.last() as int, 1);
        } else {
            lemma_top_order(s.drop_last(), t.drop_last());
        }
    }
}

/// On normalized sequences, `seq_order` is the order of their values.
pub proof fn lemma_seq_order(s: Seq<u64>, t: Seq<u64>)
    requires
        is_normalized(s),
        is_normalized(t),
    ensures
        seq_order(s, t) == sign_of_diff(digits_value(s) as int, digits_value(t) as int),
{
    if s.len() < t.len() {
        lemma_value_bound(s);
        lemma_value_lower_bound(t);
        lemma_pow_base_mono(s.len(), (t.len() - 1) as nat);
    } else if s.len() > t.len() {
        lemma_value_bound(t);
        lemma_value_lower_bound(s);
        lemma_pow_base_mono(t.len(), (s.len() - 1) as nat);
    } else {
        lemma_top_order(s, t);
    }
}

/// Both orders take the values -1, 0 and 1 only.
pub proof fn lemma_order_range(s: Seq<u64>, t: Seq<u64>)
    ensures
        -1 <= top_order(s, t) <= 1,
        -1 <= seq_order(s, t) <= 1,
    decreases s.len(),
{
    if s.len() > 0 && t.len() > 0 && s.last() == t.last() {
        lemma_order_range(s.drop_last(), t.drop_last());
    }
}

/// Swapping the two sequences reverses both orders.
pub proof fn lemma_order_swap(s: Seq<u64>, t: Seq<u64>)
    ensures
        top_order(t, s) == -top_order(s, t),
        seq_order(t, s) == -seq_order(s, t),
    decreases s.len(),
{
    if s.len() > 0 && t.len() > 0 && s.last() == t.last() {
        lemma_order_swap(s.drop_last(), t.drop_last());
    }
}

/// Splitting off the least significant digit.
pub proof fn lemma_value_first(s: Seq<u64>)
    requires
        s.len() > 0,
    ensures
        digits_value(s) == s[0] + digits_value(s.drop_first()) * base(),
{
    lemma_value_split(s, 1);
    assert(s.take(1) =~= seq![s[0]]);
    assert(s.skip(1) =~= s.drop_first());
    lemma_value_single(s[0]);
    assert(pow_base(1) == base() * pow_base(0));
}

/// A sequence of zero digits denotes zero.
pub proof fn lemma_value_zeros(s: Seq<u64>)
    requires
        forall|i: int| 0 <= i < s.len() ==> s[i] == 0,
    ensures
        digits_value(s) == 0,
    decreases s.len(),
{
    if s.len() > 0 {
        lemma_value_zeros(s.drop_last());
        lemma_mul_basics(pow_base((s.len() - 1) as nat) as int);
    }
}

/// `pow_base(k)` is the power of two with exponent `64 * k`.
pub proof fn lemma_pow_base_pow2(k: nat)
    ensures
        pow_base(k) == pow2(64 * k),
    decreases k,
{
    if k == 0 {
        lemma2_to64();
    } else {
        lemma_pow_base_pow2((k - 1) as nat);
        lemma2_to64();
        lemma_pow2_adds(64, 64 * (k - 1) as nat);
        assert(64 + 64 * (k - 1) as nat == 64 * k);
    }
}

/// A normalized sequence whose value is below `pow_base(n)` has at most `n` digits.
pub proof fn lemma_normalized_len_bound(s: Seq<u64>, n: nat)
    requires
        is_normalized(s),
        digits_value(s) < pow_base(n),
    ensures
        s.len() <= n,
{
    if s.len() > n {
        lemma_value_lower_bound(s);
        lemma_pow_base_mono(n, (s.len() - 1) as nat);
    }
}

} // verus!

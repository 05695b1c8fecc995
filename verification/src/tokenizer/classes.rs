use vstd::prelude::*;
use core::ops::RangeInclusive;
use crate::range_map::{is_char_code, key_before};

verus! {

/// The characters (by code point) that end a number, an identifier or a comment line
/// without being part of it.
pub open spec fn is_white_space(k: int) -> bool {
    k == ' ' as int || k == '\n' as int || k == '\t' as int || k == '\r' as int
}

/// The one-character operators.
pub open spec fn is_operator_char(k: int) -> bool {
    k == '{' as int || k == '}' as int || k == '[' as int || k == ']' as int || k == ':' as int
        || k == ',' as int || k == '=' as int || k == ';' as int || k == '(' as int || k == ')' as int
}

/// The operators and the dot.
pub open spec fn is_operator_char_with_dot(k: int) -> bool {
    is_operator_char(k) || k == '.' as int
}

/// The characters that may directly follow a number.
pub open spec fn is_terminal_for_number(k: int) -> bool {
    is_white_space(k) || is_operator_char(k) || k == '"' as int || k == '/' as int
}

/// An ASCII decimal digit.
pub open spec fn is_digit(k: int) -> bool {
    '0' as int <= k <= '9' as int
}

/// The characters that may start an identifier.
pub open spec fn is_id_start(k: int) -> bool {
    ('a' as int <= k <= 'z' as int) || ('A' as int <= k <= 'Z' as int) || k == '_' as int || k
        == '$' as int
}

/// The characters that may continue an identifier.
pub open spec fn is_id_char(k: int) -> bool {
    is_id_start(k) || is_digit(k)
}

/// True when the code point `k` lies in one of the ranges.
pub open spec fn in_ranges(ranges: Seq<RangeInclusive<char>>, k: int) -> bool {
    exists|i: int|
        0 <= i < ranges.len() && #[trigger] ranges[i]@.start as int <= k && k <= ranges[i]@.end as int
}

/// A range that a range map can hold: it starts after a character and is not empty.
pub open spec fn good_range(r: RangeInclusive<char>) -> bool {
    &&& r@.start != '\0'
    &&& is_char_code(r@.start as int - 1)
    &&& r@.start <= r@.end
}

/// Every range of the list can go into a range map.
pub open spec fn good_ranges(ranges: Seq<RangeInclusive<char>>) -> bool {
    forall|i: int| 0 <= i < ranges.len() ==> good_range(#[trigger] ranges[i])
}

/// The range of the single character `c`.
pub fn one(c: char) -> (r: RangeInclusive<char>)
    ensures
        r@.start == c,
        r@.end == c,
{
    RangeInclusive::new(c, c)
}

/// The ranges of the single characters of `chars`.
pub fn set(chars: &[char]) -> (r: Vec<RangeInclusive<char>>)
    ensures
        r@.len() == chars@.len(),
        forall|i: int| 0 <= i < chars@.len() ==> #[trigger] r@[i]@.start == chars@[i] && r@[i]@.end
            == chars@[i],
{
    let mut result: Vec<RangeInclusive<char>> = Vec::new();
    let n = chars.len();
    let mut i: usize = 0;
    while i < n
        invariant
            i <= n,
            n == chars@.len(),
            result@.len() == i,
            forall|j: int| 0 <= j < i ==> #[trigger] result@[j]@.start == chars@[j] && result@[j]@.end
                == chars@[j],
        decreases n - i,
    {
        result.push(one(chars[i]));
        i = i + 1;
    }
    result
}

/// Ranges of single characters cover exactly those characters.
pub proof fn lemma_set_ranges(r: Seq<RangeInclusive<char>>, chars: Seq<char>)
    requires
        r.len() == chars.len(),
        forall|i: int| 0 <= i < chars.len() ==> #[trigger] r[i]@.start == chars[i] && r[i]@.end
            == chars[i],
    ensures
        forall|k: int| in_ranges(r, k) == (exists|i: int| 0 <= i < chars.len() && chars[i] as int == k),
{
    assert forall|k: int| in_ranges(r, k) == (exists|i: int| 0 <= i < chars.len() && chars[i] as int == k) by {
        if in_ranges(r, k) {
            let i = choose|i: int|
                0 <= i < r.len() && #[trigger] r[i]@.start as int <= k && k <= r[i]@.end as int;
            assert(chars[i] as int == k);
        }
        if exists|i: int| 0 <= i < chars.len() && chars[i] as int == k {
            let i = choose|i: int| 0 <= i < chars.len() && chars[i] as int == k;
            assert(r[i]@.start as int <= k && k <= r[i]@.end as int);
        }
    }
}

/// The characters that may start an identifier: letters, `_` and `$`.
pub fn id_start() -> (r: Vec<RangeInclusive<char>>)
    ensures
        good_ranges(r@),
        forall|k: int| in_ranges(r@, k) == is_id_start(k),
{
    let mut r = Vec::new();
    r.push(RangeInclusive::new('a', 'z'));
    r.push(RangeInclusive::new('A', 'Z'));
    r.push(one('_'));
    r.push(one('$'));
    proof {
        assert forall|k: int| in_ranges(r@, k) == is_id_start(k) by {
            if is_id_start(k) {
                if 'a' as int <= k <= 'z' as int {
                    assert(r@[0]@.start as int <= k && k <= r@[0]@.end as int);
                } else if 'A' as int <= k <= 'Z' as int {
                    assert(r@[1]@.start as int <= k && k <= r@[1]@.end as int);
                } else if k == '_' as int {
                    assert(r@[2]@.start as int <= k && k <= r@[2]@.end as int);
                } else {
                    assert(r@[3]@.start as int <= k && k <= r@[3]@.end as int);
                }
            }
        }
    }
    r
}

/// The characters that may continue an identifier: letters, digits, `_` and `$`.
pub fn id_char() -> (r: Vec<RangeInclusive<char>>)
    ensures
        good_ranges(r@),
        forall|k: int| in_ranges(r@, k) == is_id_char(k),
{
    let mut r = Vec::new();
    r.push(RangeInclusive::new('a', 'z'));
    r.push(RangeInclusive::new('A', 'Z'));
    r.push(one('_'));
    r.push(one('$'));
    r.push(RangeInclusive::new('0', '9'));
    proof {
        assert forall|k: int| in_ranges(r@, k) == is_id_char(k) by {
            if is_id_char(k) {
                if 'a' as int <= k <= 'z' as int {
                    assert(r@[0]@.start as int <= k && k <= r@[0]@.end as int);
                } else if 'A' as int <= k <= 'Z' as int {
                    assert(r@[1]@.start as int <= k && k <= r@[1]@.end as int);
                } else if k == '_' as int {
                    assert(r@[2]@.start as int <= k && k <= r@[2]@.end as int);
                } else if k == '$' as int {
                    assert(r@[3]@.start as int <= k && k <= r@[3]@.end as int);
                } else {
                    assert(r@[4]@.start as int <= k && k <= r@[4]@.end as int);
                }
            }
        }
    }
    r
}

/// The operator characters and the dot.
pub fn operator_chars_with_dot() -> (r: Vec<RangeInclusive<char>>)
    ensures
        good_ranges(r@),
        forall|k: int| in_ranges(r@, k) == is_operator_char_with_dot(k),
{
    let chars = vec!['{', '}', '[', ']', ':', ',', '=', ';', '(', ')', '.'];
    let r = set(chars.as_slice());
    proof {
        lemma_set_ranges(r@, chars@);
        assert forall|k: int| (exists|i: int| 0 <= i < chars@.len() && chars@[i] as int == k) == is_operator_char_with_dot(k) by {
            if is_operator_char_with_dot(k) {
                if k == '{' as int { assert(chars@[0] as int == k); }
                else if k == '}' as int { assert(chars@[1] as int == k); }
                else if k == '[' as int { assert(chars@[2] as int == k); }
                else if k == ']' as int { assert(chars@[3] as int == k); }
                else if k == ':' as int { assert(chars@[4] as int == k); }
                else if k == ',' as int { assert(chars@[5] as int == k); }
                else if k == '=' as int { assert(chars@[6] as int == k); }
                else if k == ';' as int { assert(chars@[7] as int == k); }
                else if k == '(' as int { assert(chars@[8] as int == k); }
                else if k == ')' as int { assert(chars@[9] as int == k); }
                else { assert(chars@[10] as int == k); }
            }
        }
    }
    r
}

/// The characters that may follow a number: white space, operators, `"` and `/`.
pub fn terminal_for_number() -> (r: Vec<RangeInclusive<char>>)
    ensures
        good_ranges(r@),
        forall|k: int| in_ranges(r@, k) == is_terminal_for_number(k),
{
    let chars = vec![' ', '\n', '\t', '\r', '{', '}', '[', ']', ':', ',', '=', ';', '(', ')', '"', '/'];
    let r = set(chars.as_slice());
    proof {
        lemma_set_ranges(r@, chars@);
        assert forall|k: int| (exists|i: int| 0 <= i < chars@.len() && chars@[i] as int == k) == is_terminal_for_number(k) by {
            if is_terminal_for_number(k) {
                if k == ' ' as int { assert(chars@[0] as int == k); }
                else if k == '\n' as int { assert(chars@[1] as int == k); }
                else if k == '\t' as int { assert(chars@[2] as int == k); }
                else if k == '\r' as int { assert(chars@[3] as int == k); }
                else if k == '{' as int { assert(chars@[4] as int == k); }
                else if k == '}' as int { assert(chars@[5] as int == k); }
                else if k == '[' as int { assert(chars@[6] as int == k); }
                else if k == ']' as int { assert(chars@[7] as int == k); }
                else if k == ':' as int { assert(chars@[8] as int == k); }
                else if k == ',' as int { assert(chars@[9] as int == k); }
                else if k == '=' as int { assert(chars@[10] as int == k); }
                else if k == ';' as int { assert(chars@[11] as int == k); }
                else if k == '(' as int { assert(chars@[12] as int == k); }
                else if k == ')' as int { assert(chars@[13] as int == k); }
                else if k == '"' as int { assert(chars@[14] as int == k); }
                else { assert(chars@[15] as int == k); }
            }
        }
    }
    r
}

/// The number that an ASCII digit stands for.
pub fn digit_to_number(c: char) -> (r: u64)
    requires
        is_digit(c as int),
    ensures
        r == c as int - '0' as int,
{
    (c as u32 - '0' as u32) as u64
}

} // verus!

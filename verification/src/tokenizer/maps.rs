use vstd::prelude::*;
use core::ops::RangeInclusive;
use crate::range_map::{
    RangeMap, State, SameValue, Union, Entry, lookup, combine, compatible_opt, lookup_all,
    mergeable, is_char_code, key_before, from_range, from_one, merge, merge_list,
};
use crate::tokenizer::classes::{
    good_range, good_ranges, in_ranges, id_start, id_char, operator_chars_with_dot,
    terminal_for_number, is_operator_char_with_dot, is_id_start, is_id_char, is_digit,
    is_white_space, is_terminal_for_number,
};

verus! {

/// What a character does in a tokenizer state: the transitions that the maps hold.
#[derive(Debug, PartialEq, Eq, Clone, Copy, Structural)]
pub enum Action {
    Unexpected,
    StartOperator,
    StartInt,
    StartString,
    StartZero,
    StartMinus,
    StartId,
    StartNewLine,
    Skip,
    StartComment,
    EndId,
    ContinueId,
    AppendChar,
    EndString,
    StartEscape,
    EscapeError,
    EscapeSelf,
    Escape(char),
    StartUnicode,
    HexError,
    Hex(u32),
    InvalidNumber,
    ZeroFrac,
    ZeroExp,
    ZeroBigInt,
    ZeroEnd,
    IntDigit,
    IntFrac,
    IntExp,
    IntBigInt,
    IntEnd,
    MinusZero,
    MinusInt,
    FracBeginDigit,
    FracDigit,
    FracExp,
    FracEnd,
    ExpDigit,
    ExpPlus,
    ExpMinus,
    ExpEnd,
    BigIntEnd,
    NewLineEnd,
    NewLineSkip,
    StartSingleLineComment,
    StartMultiLineComment,
    StaySingleLineComment,
    EndSingleLineComment,
    StayMultiLineComment,
    MultiLineCommentAsterisk,
    EndMultiLineComment,
    OperatorEnd,
    OperatorNext,
}

impl SameValue for Action {
    fn same(&self, other: &Self) -> (r: bool) {
        *self == *other
    }
}

/// The value that a range map of optional values gives at `k`, if any.
pub open spec fn map_value<A>(m: RangeMap<char, State<A>>, k: int) -> Option<A> {
    match lookup(m.list@, k) {
        Some(s) => s.value,
        None => None,
    }
}

/// The value of an optional state, if any.
pub open spec fn state_value<A>(o: Option<State<A>>) -> Option<A> {
    match o {
        Some(s) => s.value,
        None => None,
    }
}

/// Two optional states merge when they do not hold different values.
proof fn lemma_compatible<A: SameValue>(x: Option<State<A>>, y: Option<State<A>>)
    requires
        !(state_value(x) is Some && state_value(y) is Some && state_value(x) != state_value(y)),
    ensures
        compatible_opt(x, y),
        state_value(combine(x, y)) == (if state_value(x) is Some {
            state_value(x)
        } else {
            state_value(y)
        }),
{
}

/// The map that `from_range` builds holds `a` exactly on its range.
proof fn lemma_range_value<A>(m: RangeMap<char, State<A>>, lo: char, hi: char, a: A)
    requires
        m.list@ == seq![
            Entry { key: key_before(lo), value: State { value: None::<A> } },
            Entry { key: hi, value: State { value: Some(a) } },
        ],
        lo != '\0',
        is_char_code(lo as int - 1),
        lo <= hi,
    ensures
        m.wf(),
        forall|k: int| #[trigger] map_value(m, k) == (if lo as int <= k <= hi as int {
            Some(a)
        } else {
            None
        }),
{
    assert(key_before(lo) as int == lo as int - 1);
    assert forall|k: int| #[trigger] map_value(m, k) == (if lo as int <= k <= hi as int {
        Some(a)
    } else {
        None
    }) by {
        reveal_with_fuel(lookup, 3);
        assert(m.list@.drop_first() =~= seq![Entry { key: hi, value: State { value: Some(a) } }]);
        assert(m.list@.drop_first().drop_first().len() == 0);
    }
}

/// A map of `value` on the characters in `ranges`, and of nothing elsewhere.
pub fn create_range_map(list: Vec<RangeInclusive<char>>, value: Action) -> (r: RangeMap<
    char,
    State<Action>,
>)
    requires
        good_ranges(list@),
    ensures
        r.wf(),
        forall|k: int| #[trigger] map_value(r, k) == (if in_ranges(list@, k) {
            Some(value)
        } else {
            None
        }),
{
    let mut result: RangeMap<char, State<Action>> = RangeMap { list: Vec::new() };
    let n = list.len();
    let mut i: usize = 0;
    while i < n
        invariant
            i <= n,
            n == list@.len(),
            good_ranges(list@),
            result.wf(),
            forall|k: int| #[trigger] map_value(result, k) == (if in_ranges(list@.take(i as int), k) {
                Some(value)
            } else {
                None
            }),
        decreases n - i,
    {
        let start = *list[i].start();
        let end = *list[i].end();
        let piece = from_range(RangeInclusive::new(start, end), value);
        proof {
            assert(good_range(list@[i as int]));
            lemma_range_value(piece, start, end, value);
            assert forall|k: int| #[trigger]
                compatible_opt(lookup(piece.list@, k), lookup(result.list@, k)) by {
                assert(map_value(piece, k) == state_value(lookup(piece.list@, k)));
                assert(map_value(result, k) == state_value(lookup(result.list@, k)));
                lemma_compatible(lookup(piece.list@, k), lookup(result.list@, k));
            }
            assert(mergeable(piece.list@, result.list@));
        }
        let ghost before = result;
        result = merge(piece, result);
        proof {
            assert forall|k: int| #[trigger] map_value(result, k) == (if in_ranges(
                list@.take(i + 1),
                k,
            ) {
                Some(value)
            } else {
                None
            }) by {
                assert(map_value(piece, k) == state_value(lookup(piece.list@, k)));
                assert(map_value(before, k) == state_value(lookup(before.list@, k)));
                assert(map_value(result, k) == state_value(lookup(result.list@, k)));
                lemma_compatible(lookup(piece.list@, k), lookup(before.list@, k));
                let t = list@.take(i + 1);
                if in_ranges(t, k) {
                    let j = choose|j: int|
                        0 <= j < t.len() && #[trigger] t[j]@.start as int <= k && k <= t[j]@.end as int;
                    if j < i {
                        assert(list@.take(i as int)[j] == t[j]);
                    }
                }
                if in_ranges(list@.take(i as int), k) {
                    let j = choose|j: int|
                        0 <= j < i && #[trigger] list@.take(i as int)[j]@.start as int <= k && k
                            <= list@.take(i as int)[j]@.end as int;
                    assert(t[j] == list@.take(i as int)[j]);
                }
                if start as int <= k <= end as int {
                    assert(t[i as int] == list@[i as int]);
                }
            }
        }
        i = i + 1;
    }
    proof {
        assert(list@.take(n as int) =~= list@);
    }
    result
}

/// The lookup of merging a list of maps, when each map holds, where it holds anything, the
/// value of `f`, and some map holds a value wherever `f` has one.
proof fn lemma_merge_list_value(maps: Seq<RangeMap<char, State<Action>>>, f: spec_fn(int) -> Option<Action>)
    requires
        forall|i: int, k: int|
            0 <= i < maps.len() && (#[trigger] map_value(maps[i], k)) is Some ==> map_value(maps[i], k)
                == f(k),
        forall|k: int|
            (#[trigger] f(k)) is Some ==> exists|i: int|
                0 <= i < maps.len() && (#[trigger] map_value(maps[i], k)) is Some,
    ensures
        forall|i: int, k: int|
            0 <= i < maps.len() ==> #[trigger] compatible_opt(
                lookup(maps[i].list@, k),
                lookup_all(maps, i, k),
            ),
        forall|k: int| #[trigger] state_value(lookup_all(maps, maps.len() as int, k)) == f(k),
{
    assert forall|i: int, k: int|
        0 <= i <= maps.len() implies #[trigger] state_value(lookup_all(maps, i, k)) == (if exists|j: int|
        0 <= j < i && (#[trigger] map_value(maps[j], k)) is Some {
        f(k)
    } else {
        None
    }) by {
        lemma_merge_prefix(maps, f, i, k);
    }
    assert forall|i: int, k: int|
        0 <= i < maps.len() implies #[trigger] compatible_opt(
        lookup(maps[i].list@, k),
        lookup_all(maps, i, k),
    ) by {
        lemma_merge_prefix(maps, f, i, k);
        assert(map_value(maps[i], k) == state_value(lookup(maps[i].list@, k)));
        lemma_compatible(lookup(maps[i].list@, k), lookup_all(maps, i, k));
    }
    assert forall|k: int| #[trigger] state_value(lookup_all(maps, maps.len() as int, k)) == f(k) by {
        lemma_merge_prefix(maps, f, maps.len() as int, k);
        if f(k) is Some {
            let j = choose|j: int| 0 <= j < maps.len() && (#[trigger] map_value(maps[j], k)) is Some;
        }
    }
}

proof fn lemma_merge_prefix(
    maps: Seq<RangeMap<char, State<Action>>>,
    f: spec_fn(int) -> Option<Action>,
    i: int,
    k: int,
)
    requires
        0 <= i <= maps.len(),
        forall|i: int, k: int|
            0 <= i < maps.len() && (#[trigger] map_value(maps[i], k)) is Some ==> map_value(maps[i], k)
                == f(k),
    ensures
        state_value(lookup_all(maps, i, k)) == (if exists|j: int|
            0 <= j < i && (#[trigger] map_value(maps[j], k)) is Some {
            f(k)
        } else {
            None
        }),
    decreases i,
{
    if i > 0 {
        lemma_merge_prefix(maps, f, i - 1, k);
        assert(map_value(maps[i - 1], k) == state_value(lookup(maps[i - 1].list@, k)));
        lemma_compatible(lookup(maps[i - 1].list@, k), lookup_all(maps, i - 1, k));
        assert(lookup_all(maps, i, k) == combine(
            lookup(maps[i - 1].list@, k),
            lookup_all(maps, i - 1, k),
        ));
        if exists|j: int| 0 <= j < i - 1 && (#[trigger] map_value(maps[j], k)) is Some {
            let j = choose|j: int| 0 <= j < i - 1 && (#[trigger] map_value(maps[j], k)) is Some;
            assert(0 <= j < i && map_value(maps[j], k) is Some);
        }
        if exists|j: int| 0 <= j < i && (#[trigger] map_value(maps[j], k)) is Some {
            let j = choose|j: int| 0 <= j < i && (#[trigger] map_value(maps[j], k)) is Some;
            if j < i - 1 {
                assert(exists|j: int| 0 <= j < i - 1 && (#[trigger] map_value(maps[j], k)) is Some);
            }
        }
    }
}

/// The map that `from_one` builds holds `a` exactly at `c`.
proof fn lemma_one_value<A>(m: RangeMap<char, State<A>>, c: char, a: A)
    requires
        m.list@ == (if is_char_code(c as int - 1) {
            seq![
                Entry { key: key_before(c), value: State { value: None::<A> } },
                Entry { key: c, value: State { value: Some(a) } },
            ]
        } else {
            seq![Entry { key: c, value: State { value: Some(a) } }]
        }),
        c != '\0',
        is_char_code(c as int - 1),
    ensures
        m.wf(),
        forall|k: int| #[trigger] map_value(m, k) == (if k == c as int {
            Some(a)
        } else {
            None
        }),
{
    lemma_range_value(m, c, c, a);
}

/// The transitions of one tokenizer state: the action of each character that the range map
/// holds one for, and `def` for the others.
pub struct TransitionMap {
    pub def: Action,
    pub rm: RangeMap<char, State<Action>>,
}

/// The action that a map gives to the character with code point `k`.
pub open spec fn map_action(m: TransitionMap, k: int) -> Action {
    match map_value(m.rm, k) {
        Some(a) => a,
        None => m.def,
    }
}

/// A map that gives `choice(k)` where it has a value, `def` elsewhere.
pub open spec fn map_is(m: TransitionMap, def: Action, choice: spec_fn(int) -> Option<Action>) -> bool {
    &&& m.def == def
    &&& m.rm.wf()
    &&& forall|k: int| #[trigger] map_value(m.rm, k) == choice(k)
}

/// Merges the maps and states what the result holds, from what each of them holds.
fn merge_all(maps: Vec<RangeMap<char, State<Action>>>, Ghost(f): Ghost<spec_fn(int) -> Option<Action>>) -> (r: RangeMap<char, State<Action>>)
    requires
        forall|i: int| 0 <= i < maps@.len() ==> (#[trigger] maps@[i]).wf(),
        forall|i: int, k: int|
            0 <= i < maps@.len() && (#[trigger] map_value(maps@[i], k)) is Some ==> map_value(maps@[i], k)
                == f(k),
        forall|k: int|
            (#[trigger] f(k)) is Some ==> exists|i: int|
                0 <= i < maps@.len() && (#[trigger] map_value(maps@[i], k)) is Some,
    ensures
        r.wf(),
        forall|k: int| #[trigger] map_value(r, k) == f(k),
{
    proof {
        lemma_merge_list_value(maps@, f);
    }
    let ghost ms = maps@;
    let r = merge_list(maps);
    proof {
        assert forall|k: int| #[trigger] map_value(r, k) == f(k) by {
            assert(state_value(lookup_all(ms, ms.len() as int, k)) == f(k));
        }
    }
    r
}

/// In the initial state: operators, numbers, strings, identifiers, new lines, white space and
/// comments start; anything else is unexpected.
pub open spec fn initial_choice(k: int) -> Option<Action> {
    if is_operator_char_with_dot(k) {
        Some(Action::StartOperator)
    } else if '1' as int <= k <= '9' as int {
        Some(Action::StartInt)
    } else if k == '"' as int {
        Some(Action::StartString)
    } else if k == '0' as int {
        Some(Action::StartZero)
    } else if k == '-' as int {
        Some(Action::StartMinus)
    } else if is_id_start(k) {
        Some(Action::StartId)
    } else if k == '\n' as int {
        Some(Action::StartNewLine)
    } else if k == ' ' as int || k == '\t' as int || k == '\r' as int {
        Some(Action::Skip)
    } else if k == '/' as int {
        Some(Action::StartComment)
    } else {
        None
    }
}

/// The transitions of the initial state (see `initial_choice`).
pub fn create_initial_transitions() -> (r: TransitionMap)
    ensures
        map_is(r, Action::Unexpected, |k: int| initial_choice(k)),
{
    let m0 = create_range_map(operator_chars_with_dot(), Action::StartOperator);
    let m1 = from_range(RangeInclusive::new('1', '9'), Action::StartInt);
    let m2 = from_one('"', Action::StartString);
    let m3 = from_one('0', Action::StartZero);
    let m4 = from_one('-', Action::StartMinus);
    let m5 = create_range_map(id_start(), Action::StartId);
    let m6 = from_one('\n', Action::StartNewLine);
    let blanks = vec![' ', '\t', '\r'];
    let blank_ranges = crate::tokenizer::classes::set(blanks.as_slice());
    proof {
        crate::tokenizer::classes::lemma_set_ranges(blank_ranges@, blanks@);
        assert forall|k: int| in_ranges(blank_ranges@, k) == (k == ' ' as int || k == '\t' as int
            || k == '\r' as int) by {
            if k == ' ' as int {
                assert(blanks@[0] as int == k);
            } else if k == '\t' as int {
                assert(blanks@[1] as int == k);
            } else if k == '\r' as int {
                assert(blanks@[2] as int == k);
            }
        }
    }
    let m7 = create_range_map(blank_ranges, Action::Skip);
    let m8 = from_one('/', Action::StartComment);
    proof {
        lemma_range_value(m1, '1', '9', Action::StartInt);
        lemma_one_value(m2, '"', Action::StartString);
        lemma_one_value(m3, '0', Action::StartZero);
        lemma_one_value(m4, '-', Action::StartMinus);
        lemma_one_value(m6, '\n', Action::StartNewLine);
        lemma_one_value(m8, '/', Action::StartComment);
    }
    let maps = vec![m0, m1, m2, m3, m4, m5, m6, m7, m8];
    let ghost f = |k: int| initial_choice(k);
    proof {
        assert forall|i: int, k: int|
            0 <= i < maps@.len() && (#[trigger] map_value(maps@[i], k)) is Some implies map_value(
            maps@[i],
            k,
        ) == f(k) by {
            assert(maps@[0] == m0 && maps@[1] == m1 && maps@[2] == m2 && maps@[3] == m3);
            assert(maps@[4] == m4 && maps@[5] == m5 && maps@[6] == m6 && maps@[7] == m7);
            assert(maps@[8] == m8);
            if i == 0 {
                assert(is_operator_char_with_dot(k));
            } else if i == 1 {
                assert('1' as int <= k <= '9' as int);
            } else if i == 5 {
                assert(is_id_start(k));
            } else if i == 7 {
                assert(k == ' ' as int || k == '\t' as int || k == '\r' as int);
            }
        }
        assert forall|k: int| (#[trigger] f(k)) is Some implies exists|i: int|
            0 <= i < maps@.len() && (#[trigger] map_value(maps@[i], k)) is Some by {
            assert(maps@[0] == m0 && maps@[1] == m1 && maps@[2] == m2 && maps@[3] == m3);
            assert(maps@[4] == m4 && maps@[5] == m5 && maps@[6] == m6 && maps@[7] == m7);
            assert(maps@[8] == m8);
            if is_operator_char_with_dot(k) {
                assert(map_value(maps@[0], k) is Some);
            } else if '1' as int <= k <= '9' as int {
                assert(map_value(maps@[1], k) is Some);
            } else if k == '"' as int {
                assert(map_value(maps@[2], k) is Some);
            } else if k == '0' as int {
                assert(map_value(maps@[3], k) is Some);
            } else if k == '-' as int {
                assert(map_value(maps@[4], k) is Some);
            } else if is_id_start(k) {
                assert(map_value(maps@[5], k) is Some);
            } else if k == '\n' as int {
                assert(map_value(maps@[6], k) is Some);
            } else if k == ' ' as int || k == '\t' as int || k == '\r' as int {
                assert(map_value(maps@[7], k) is Some);
            } else {
                assert(map_value(maps@[8], k) is Some);
            }
        }
    }
    let rm = merge_all(maps, Ghost(f));
    TransitionMap { def: Action::Unexpected, rm }
}

/// In an identifier: identifier characters continue it; anything else ends it.
pub open spec fn id_choice(k: int) -> Option<Action> {
    if is_id_char(k) {
        Some(Action::ContinueId)
    } else {
        None
    }
}

/// The transitions of that state (see `id_choice`).
pub fn create_id_transitions() -> (r: TransitionMap)
    ensures
        map_is(r, Action::EndId, |k: int| id_choice(k)),
{
    let m0 = create_range_map(id_char(), Action::ContinueId);
    TransitionMap { def: Action::EndId, rm: m0 }
}

/// In a string: a quote ends it, a backslash starts an escape; anything else is part of it.
pub open spec fn string_choice(k: int) -> Option<Action> {
    if k == '"' as int {
        Some(Action::EndString)
    } else if k == '\\' as int {
        Some(Action::StartEscape)
    } else {
        None
    }
}

/// The transitions of that state (see `string_choice`).
pub fn create_string_transactions() -> (r: TransitionMap)
    ensures
        map_is(r, Action::AppendChar, |k: int| string_choice(k)),
{
    let m0 = from_one('"', Action::EndString);
    let m1 = from_one('\\', Action::StartEscape);
    proof {
        lemma_one_value(m0, '"', Action::EndString);
        lemma_one_value(m1, '\\', Action::StartEscape);
    }
    proof {
        assert forall|k: int| #[trigger] compatible_opt(lookup(m0.list@, k), lookup(m1.list@, k)) by {
            assert(map_value(m0, k) == state_value(lookup(m0.list@, k)));
            assert(map_value(m1, k) == state_value(lookup(m1.list@, k)));
            lemma_compatible(lookup(m0.list@, k), lookup(m1.list@, k));
        }
    }
    let ghost (a, b) = (m0, m1);
    let rm = merge(m0, m1);
    proof {
        assert forall|k: int| #[trigger] map_value(rm, k) == string_choice(k) by {
            assert(map_value(a, k) == state_value(lookup(a.list@, k)));
            assert(map_value(b, k) == state_value(lookup(b.list@, k)));
            lemma_compatible(lookup(a.list@, k), lookup(b.list@, k));
        }
    }
    TransitionMap { def: Action::AppendChar, rm }
}

/// After a backslash in a string: the escapes of JSON; anything else is unexpected.
pub open spec fn escape_char_choice(k: int) -> Option<Action> {
    if k == '"' as int || k == '\\' as int || k == '/' as int {
        Some(Action::EscapeSelf)
    } else if k == 'b' as int {
        Some(Action::Escape('\u{8}'))
    } else if k == 'f' as int {
        Some(Action::Escape('\u{c}'))
    } else if k == 'n' as int {
        Some(Action::Escape('\n'))
    } else if k == 'r' as int {
        Some(Action::Escape('\r'))
    } else if k == 't' as int {
        Some(Action::Escape('\t'))
    } else if k == 'u' as int {
        Some(Action::StartUnicode)
    } else {
        None
    }
}

/// The transitions of that state (see `escape_char_choice`).
pub fn create_escape_char_transactions() -> (r: TransitionMap)
    ensures
        map_is(r, Action::EscapeError, |k: int| escape_char_choice(k)),
{
    let chars0 = vec!['"', '\\', '/'];
    let ranges0 = crate::tokenizer::classes::set(chars0.as_slice());
    proof {
        crate::tokenizer::classes::lemma_set_ranges(ranges0@, chars0@);
        assert forall|k: int| in_ranges(ranges0@, k) == (k == '"' as int || k == '\\' as int || k == '/' as int) by {
            if k == '"' as int {
                assert(chars0@[0] as int == k);
            } else if k == '\\' as int {
                assert(chars0@[1] as int == k);
            } else if k == '/' as int {
                assert(chars0@[2] as int == k);
            }
        }
    }
    let m0 = create_range_map(ranges0, Action::EscapeSelf);
    let m1 = from_one('b', Action::Escape('\u{8}'));
    let m2 = from_one('f', Action::Escape('\u{c}'));
    let m3 = from_one('n', Action::Escape('\n'));
    let m4 = from_one('r', Action::Escape('\r'));
    let m5 = from_one('t', Action::Escape('\t'));
    let m6 = from_one('u', Action::StartUnicode);
    proof {
        lemma_one_value(m1, 'b', Action::Escape('\u{8}'));
        lemma_one_value(m2, 'f', Action::Escape('\u{c}'));
        lemma_one_value(m3, 'n', Action::Escape('\n'));
        lemma_one_value(m4, 'r', Action::Escape('\r'));
        lemma_one_value(m5, 't', Action::Escape('\t'));
        lemma_one_value(m6, 'u', Action::StartUnicode);
    }
    let maps = vec![m0, m1, m2, m3, m4, m5, m6];
    let ghost f = |k: int| escape_char_choice(k);
    proof {
        assert forall|i: int, k: int|
            0 <= i < maps@.len() && (#[trigger] map_value(maps@[i], k)) is Some implies map_value(
            maps@[i],
            k,
        ) == f(k) by {
            assert(maps@[0] == m0 && maps@[1] == m1 && maps@[2] == m2 && maps@[3] == m3 && maps@[4] == m4 && maps@[5] == m5 && maps@[6] == m6);
            if i == 0 {
                assert(k == '"' as int || k == '\\' as int || k == '/' as int);
            } else if i == 1 {
                assert(k == 'b' as int);
            } else if i == 2 {
                assert(k == 'f' as int);
            } else if i == 3 {
                assert(k == 'n' as int);
            } else if i == 4 {
                assert(k == 'r' as int);
            } else if i == 5 {
                assert(k == 't' as int);
            } else if i == 6 {
                assert(k == 'u' as int);
            }
        }
        assert forall|k: int| (#[trigger] f(k)) is Some implies exists|i: int|
            0 <= i < maps@.len() && (#[trigger] map_value(maps@[i], k)) is Some by {
            assert(maps@[0] == m0 && maps@[1] == m1 && maps@[2] == m2 && maps@[3] == m3 && maps@[4] == m4 && maps@[5] == m5 && maps@[6] == m6);
            if k == '"' as int || k == '\\' as int || k == '/' as int {
                assert(map_value(maps@[0], k) is Some);
            } else if k == 'b' as int {
                assert(map_value(maps@[1], k) is Some);
            } else if k == 'f' as int {
                assert(map_value(maps@[2], k) is Some);
            } else if k == 'n' as int {
                assert(map_value(maps@[3], k) is Some);
            } else if k == 'r' as int {
                assert(map_value(maps@[4], k) is Some);
            } else if k == 't' as int {
                assert(map_value(maps@[5], k) is Some);
            } else {
                assert(map_value(maps@[6], k) is Some);
            }
        }
    }
    let rm = merge_all(maps, Ghost(f));
    TransitionMap { def: Action::EscapeError, rm }
}

/// In a `\\u` escape: hexadecimal digits, each with the code point that its value is counted from; anything else is an invalid escape.
pub open spec fn unicode_char_choice(k: int) -> Option<Action> {
    if '0' as int <= k <= '9' as int {
        Some(Action::Hex(0x30))
    } else if 'a' as int <= k <= 'f' as int {
        Some(Action::Hex(0x57))
    } else if 'A' as int <= k <= 'F' as int {
        Some(Action::Hex(0x37))
    } else {
        None
    }
}

/// The transitions of that state (see `unicode_char_choice`).
pub fn create_unicode_char_transactions() -> (r: TransitionMap)
    ensures
        map_is(r, Action::HexError, |k: int| unicode_char_choice(k)),
{
    let m0 = from_range(RangeInclusive::new('0', '9'), Action::Hex(0x30));
    let m1 = from_range(RangeInclusive::new('a', 'f'), Action::Hex(0x57));
    let m2 = from_range(RangeInclusive::new('A', 'F'), Action::Hex(0x37));
    proof {
        lemma_range_value(m0, '0', '9', Action::Hex(0x30));
        lemma_range_value(m1, 'a', 'f', Action::Hex(0x57));
        lemma_range_value(m2, 'A', 'F', Action::Hex(0x37));
    }
    let maps = vec![m0, m1, m2];
    let ghost f = |k: int| unicode_char_choice(k);
    proof {
        assert forall|i: int, k: int|
            0 <= i < maps@.len() && (#[trigger] map_value(maps@[i], k)) is Some implies map_value(
            maps@[i],
            k,
        ) == f(k) by {
            assert(maps@[0] == m0 && maps@[1] == m1 && maps@[2] == m2);
            if i == 0 {
                assert('0' as int <= k <= '9' as int);
            } else if i == 1 {
                assert('a' as int <= k <= 'f' as int);
            } else if i == 2 {
                assert('A' as int <= k <= 'F' as int);
            }
        }
        assert forall|k: int| (#[trigger] f(k)) is Some implies exists|i: int|
            0 <= i < maps@.len() && (#[trigger] map_value(maps@[i], k)) is Some by {
            assert(maps@[0] == m0 && maps@[1] == m1 && maps@[2] == m2);
            if '0' as int <= k <= '9' as int {
                assert(map_value(maps@[0], k) is Some);
            } else if 'a' as int <= k <= 'f' as int {
                assert(map_value(maps@[1], k) is Some);
            } else {
                assert(map_value(maps@[2], k) is Some);
            }
        }
    }
    let rm = merge_all(maps, Ghost(f));
    TransitionMap { def: Action::HexError, rm }
}

/// After a leading zero: a fraction, an exponent, a big integer or the end of the number; anything else makes it invalid.
pub open spec fn zero_choice(k: int) -> Option<Action> {
    if k == '.' as int {
        Some(Action::ZeroFrac)
    } else if k == 'e' as int || k == 'E' as int {
        Some(Action::ZeroExp)
    } else if k == 'n' as int {
        Some(Action::ZeroBigInt)
    } else if is_terminal_for_number(k) {
        Some(Action::ZeroEnd)
    } else {
        None
    }
}

/// The transitions of that state (see `zero_choice`).
pub fn create_zero_transactions() -> (r: TransitionMap)
    ensures
        map_is(r, Action::InvalidNumber, |k: int| zero_choice(k)),
{
    let m0 = from_one('.', Action::ZeroFrac);
    let chars1 = vec!['e', 'E'];
    let ranges1 = crate::tokenizer::classes::set(chars1.as_slice());
    proof {
        crate::tokenizer::classes::lemma_set_ranges(ranges1@, chars1@);
        assert forall|k: int| in_ranges(ranges1@, k) == (k == 'e' as int || k == 'E' as int) by {
            if k == 'e' as int {
                assert(chars1@[0] as int == k);
            } else if k == 'E' as int {
                assert(chars1@[1] as int == k);
            }
        }
    }
    let m1 = create_range_map(ranges1, Action::ZeroExp);
    let m2 = from_one('n', Action::ZeroBigInt);
    let m3 = create_range_map(terminal_for_number(), Action::ZeroEnd);
    proof {
        lemma_one_value(m0, '.', Action::ZeroFrac);
        lemma_one_value(m2, 'n', Action::ZeroBigInt);
    }
    let maps = vec![m0, m1, m2, m3];
    let ghost f = |k: int| zero_choice(k);
    proof {
        assert forall|i: int, k: int|
            0 <= i < maps@.len() && (#[trigger] map_value(maps@[i], k)) is Some implies map_value(
            maps@[i],
            k,
        ) == f(k) by {
            assert(maps@[0] == m0 && maps@[1] == m1 && maps@[2] == m2 && maps@[3] == m3);
            if i == 0 {
                assert(k == '.' as int);
            } else if i == 1 {
                assert(k == 'e' as int || k == 'E' as int);
            } else if i == 2 {
                assert(k == 'n' as int);
            } else if i == 3 {
                assert(is_terminal_for_number(k));
            }
        }
        assert forall|k: int| (#[trigger] f(k)) is Some implies exists|i: int|
            0 <= i < maps@.len() && (#[trigger] map_value(maps@[i], k)) is Some by {
            assert(maps@[0] == m0 && maps@[1] == m1 && maps@[2] == m2 && maps@[3] == m3);
            if k == '.' as int {
                assert(map_value(maps@[0], k) is Some);
            } else if k == 'e' as int || k == 'E' as int {
                assert(map_value(maps@[1], k) is Some);
            } else if k == 'n' as int {
                assert(map_value(maps@[2], k) is Some);
            } else {
                assert(map_value(maps@[3], k) is Some);
            }
        }
    }
    let rm = merge_all(maps, Ghost(f));
    TransitionMap { def: Action::InvalidNumber, rm }
}

/// In the integer part: digits, a fraction, an exponent, a big integer or the end of the number; anything else makes it invalid.
pub open spec fn int_choice(k: int) -> Option<Action> {
    if is_digit(k) {
        Some(Action::IntDigit)
    } else if k == '.' as int {
        Some(Action::IntFrac)
    } else if k == 'e' as int || k == 'E' as int {
        Some(Action::IntExp)
    } else if k == 'n' as int {
        Some(Action::IntBigInt)
    } else if is_terminal_for_number(k) {
        Some(Action::IntEnd)
    } else {
        None
    }
}

/// The transitions of that state (see `int_choice`).
pub fn create_int_transactions() -> (r: TransitionMap)
    ensures
        map_is(r, Action::InvalidNumber, |k: int| int_choice(k)),
{
    let m0 = from_range(RangeInclusive::new('0', '9'), Action::IntDigit);
    let m1 = from_one('.', Action::IntFrac);
    let chars2 = vec!['e', 'E'];
    let ranges2 = crate::tokenizer::classes::set(chars2.as_slice());
    proof {
        crate::tokenizer::classes::lemma_set_ranges(ranges2@, chars2@);
        assert forall|k: int| in_ranges(ranges2@, k) == (k == 'e' as int || k == 'E' as int) by {
            if k == 'e' as int {
                assert(chars2@[0] as int == k);
            } else if k == 'E' as int {
                assert(chars2@[1] as int == k);
            }
        }
    }
    let m2 = create_range_map(ranges2, Action::IntExp);
    let m3 = from_one('n', Action::IntBigInt);
    let m4 = create_range_map(terminal_for_number(), Action::IntEnd);
    proof {
        lemma_range_value(m0, '0', '9', Action::IntDigit);
        lemma_one_value(m1, '.', Action::IntFrac);
        lemma_one_value(m3, 'n', Action::IntBigInt);
    }
    let maps = vec![m0, m1, m2, m3, m4];
    let ghost f = |k: int| int_choice(k);
    proof {
        assert forall|i: int, k: int|
            0 <= i < maps@.len() && (#[trigger] map_value(maps@[i], k)) is Some implies map_value(
            maps@[i],
            k,
        ) == f(k) by {
            assert(maps@[0] == m0 && maps@[1] == m1 && maps@[2] == m2 && maps@[3] == m3 && maps@[4] == m4);
            if i == 0 {
                assert(is_digit(k));
            } else if i == 1 {
                assert(k == '.' as int);
            } else if i == 2 {
                assert(k == 'e' as int || k == 'E' as int);
            } else if i == 3 {
                assert(k == 'n' as int);
            } else if i == 4 {
                assert(is_terminal_for_number(k));
            }
        }
        assert forall|k: int| (#[trigger] f(k)) is Some implies exists|i: int|
            0 <= i < maps@.len() && (#[trigger] map_value(maps@[i], k)) is Some by {
            assert(maps@[0] == m0 && maps@[1] == m1 && maps@[2] == m2 && maps@[3] == m3 && maps@[4] == m4);
            if is_digit(k) {
                assert(map_value(maps@[0], k) is Some);
            } else if k == '.' as int {
                assert(map_value(maps@[1], k) is Some);
            } else if k == 'e' as int || k == 'E' as int {
                assert(map_value(maps@[2], k) is Some);
            } else if k == 'n' as int {
                assert(map_value(maps@[3], k) is Some);
            } else {
                assert(map_value(maps@[4], k) is Some);
            }
        }
    }
    let rm = merge_all(maps, Ghost(f));
    TransitionMap { def: Action::InvalidNumber, rm }
}

/// After a minus sign: a zero or another digit; anything else makes the number invalid.
pub open spec fn minus_choice(k: int) -> Option<Action> {
    if k == '0' as int {
        Some(Action::MinusZero)
    } else if '1' as int <= k <= '9' as int {
        Some(Action::MinusInt)
    } else {
        None
    }
}

/// The transitions of that state (see `minus_choice`).
pub fn create_minus_transactions() -> (r: TransitionMap)
    ensures
        map_is(r, Action::InvalidNumber, |k: int| minus_choice(k)),
{
    let m0 = from_one('0', Action::MinusZero);
    let m1 = from_range(RangeInclusive::new('1', '9'), Action::MinusInt);
    proof {
        lemma_one_value(m0, '0', Action::MinusZero);
        lemma_range_value(m1, '1', '9', Action::MinusInt);
    }
    proof {
        assert forall|k: int| #[trigger] compatible_opt(lookup(m0.list@, k), lookup(m1.list@, k)) by {
            assert(map_value(m0, k) == state_value(lookup(m0.list@, k)));
            assert(map_value(m1, k) == state_value(lookup(m1.list@, k)));
            lemma_compatible(lookup(m0.list@, k), lookup(m1.list@, k));
        }
    }
    let ghost (a, b) = (m0, m1);
    let rm = merge(m0, m1);
    proof {
        assert forall|k: int| #[trigger] map_value(rm, k) == minus_choice(k) by {
            assert(map_value(a, k) == state_value(lookup(a.list@, k)));
            assert(map_value(b, k) == state_value(lookup(b.list@, k)));
            lemma_compatible(lookup(a.list@, k), lookup(b.list@, k));
        }
    }
    TransitionMap { def: Action::InvalidNumber, rm }
}

/// After the dot of a number: a digit; anything else makes it invalid.
pub open spec fn frac_begin_choice(k: int) -> Option<Action> {
    if is_digit(k) {
        Some(Action::FracBeginDigit)
    } else {
        None
    }
}

/// The transitions of that state (see `frac_begin_choice`).
pub fn create_frac_begin_transactions() -> (r: TransitionMap)
    ensures
        map_is(r, Action::InvalidNumber, |k: int| frac_begin_choice(k)),
{
    let m0 = from_range(RangeInclusive::new('0', '9'), Action::FracBeginDigit);
    proof {
        lemma_range_value(m0, '0', '9', Action::FracBeginDigit);
    }
    TransitionMap { def: Action::InvalidNumber, rm: m0 }
}

/// In the fraction: digits, an exponent or the end of the number; anything else makes it invalid.
pub open spec fn frac_choice(k: int) -> Option<Action> {
    if is_digit(k) {
        Some(Action::FracDigit)
    } else if k == 'e' as int || k == 'E' as int {
        Some(Action::FracExp)
    } else if is_terminal_for_number(k) {
        Some(Action::FracEnd)
    } else {
        None
    }
}

/// The transitions of that state (see `frac_choice`).
pub fn create_frac_transactions() -> (r: TransitionMap)
    ensures
        map_is(r, Action::InvalidNumber, |k: int| frac_choice(k)),
{
    let m0 = from_range(RangeInclusive::new('0', '9'), Action::FracDigit);
    let chars1 = vec!['e', 'E'];
    let ranges1 = crate::tokenizer::classes::set(chars1.as_slice());
    proof {
        crate::tokenizer::classes::lemma_set_ranges(ranges1@, chars1@);
        assert forall|k: int| in_ranges(ranges1@, k) == (k == 'e' as int || k == 'E' as int) by {
            if k == 'e' as int {
                assert(chars1@[0] as int == k);
            } else if k == 'E' as int {
                assert(chars1@[1] as int == k);
            }
        }
    }
    let m1 = create_range_map(ranges1, Action::FracExp);
    let m2 = create_range_map(terminal_for_number(), Action::FracEnd);
    proof {
        lemma_range_value(m0, '0', '9', Action::FracDigit);
    }
    let maps = vec![m0, m1, m2];
    let ghost f = |k: int| frac_choice(k);
    proof {
        assert forall|i: int, k: int|
            0 <= i < maps@.len() && (#[trigger] map_value(maps@[i], k)) is Some implies map_value(
            maps@[i],
            k,
        ) == f(k) by {
            assert(maps@[0] == m0 && maps@[1] == m1 && maps@[2] == m2);
            if i == 0 {
                assert(is_digit(k));
            } else if i == 1 {
                assert(k == 'e' as int || k == 'E' as int);
            } else if i == 2 {
                assert(is_terminal_for_number(k));
            }
        }
        assert forall|k: int| (#[trigger] f(k)) is Some implies exists|i: int|
            0 <= i < maps@.len() && (#[trigger] map_value(maps@[i], k)) is Some by {
            assert(maps@[0] == m0 && maps@[1] == m1 && maps@[2] == m2);
            if is_digit(k) {
                assert(map_value(maps@[0], k) is Some);
            } else if k == 'e' as int || k == 'E' as int {
                assert(map_value(maps@[1], k) is Some);
            } else {
                assert(map_value(maps@[2], k) is Some);
            }
        }
    }
    let rm = merge_all(maps, Ghost(f));
    TransitionMap { def: Action::InvalidNumber, rm }
}

/// After the `e` of an exponent: a digit, a sign or the end of the number; anything else makes it invalid.
pub open spec fn exp_begin_choice(k: int) -> Option<Action> {
    if is_digit(k) {
        Some(Action::ExpDigit)
    } else if k == '+' as int {
        Some(Action::ExpPlus)
    } else if k == '-' as int {
        Some(Action::ExpMinus)
    } else if is_terminal_for_number(k) {
        Some(Action::ExpEnd)
    } else {
        None
    }
}

/// The transitions of that state (see `exp_begin_choice`).
pub fn create_exp_begin_transactions() -> (r: TransitionMap)
    ensures
        map_is(r, Action::InvalidNumber, |k: int| exp_begin_choice(k)),
{
    let m0 = from_range(RangeInclusive::new('0', '9'), Action::ExpDigit);
    let m1 = from_one('+', Action::ExpPlus);
    let m2 = from_one('-', Action::ExpMinus);
    let m3 = create_range_map(terminal_for_number(), Action::ExpEnd);
    proof {
        lemma_range_value(m0, '0', '9', Action::ExpDigit);
        lemma_one_value(m1, '+', Action::ExpPlus);
        lemma_one_value(m2, '-', Action::ExpMinus);
    }
    let maps = vec![m0, m1, m2, m3];
    let ghost f = |k: int| exp_begin_choice(k);
    proof {
        assert forall|i: int, k: int|
            0 <= i < maps@.len() && (#[trigger] map_value(maps@[i], k)) is Some implies map_value(
            maps@[i],
            k,
        ) == f(k) by {
            assert(maps@[0] == m0 && maps@[1] == m1 && maps@[2] == m2 && maps@[3] == m3);
            if i == 0 {
                assert(is_digit(k));
            } else if i == 1 {
                assert(k == '+' as int);
            } else if i == 2 {
                assert(k == '-' as int);
            } else if i == 3 {
                assert(is_terminal_for_number(k));
            }
        }
        assert forall|k: int| (#[trigger] f(k)) is Some implies exists|i: int|
            0 <= i < maps@.len() && (#[trigger] map_value(maps@[i], k)) is Some by {
            assert(maps@[0] == m0 && maps@[1] == m1 && maps@[2] == m2 && maps@[3] == m3);
            if is_digit(k) {
                assert(map_value(maps@[0], k) is Some);
            } else if k == '+' as int {
                assert(map_value(maps@[1], k) is Some);
            } else if k == '-' as int {
                assert(map_value(maps@[2], k) is Some);
            } else {
                assert(map_value(maps@[3], k) is Some);
            }
        }
    }
    let rm = merge_all(maps, Ghost(f));
    TransitionMap { def: Action::InvalidNumber, rm }
}

/// In the exponent: digits or the end of the number; anything else makes it invalid.
pub open spec fn exp_choice(k: int) -> Option<Action> {
    if is_digit(k) {
        Some(Action::ExpDigit)
    } else if is_terminal_for_number(k) {
        Some(Action::ExpEnd)
    } else {
        None
    }
}

/// The transitions of that state (see `exp_choice`).
pub fn create_exp_transactions() -> (r: TransitionMap)
    ensures
        map_is(r, Action::InvalidNumber, |k: int| exp_choice(k)),
{
    let m0 = from_range(RangeInclusive::new('0', '9'), Action::ExpDigit);
    let terminal = terminal_for_number();
    let m1 = create_range_map(terminal, Action::ExpEnd);
    proof {
        lemma_range_value(m0, '0', '9', Action::ExpDigit);
    }
    proof {
        assert forall|k: int| #[trigger] compatible_opt(lookup(m0.list@, k), lookup(m1.list@, k)) by {
            assert(in_ranges(terminal@, k) == is_terminal_for_number(k));
            assert(map_value(m0, k) == state_value(lookup(m0.list@, k)));
            assert(map_value(m1, k) == state_value(lookup(m1.list@, k)));
            lemma_compatible(lookup(m0.list@, k), lookup(m1.list@, k));
        }
    }
    let ghost (a, b) = (m0, m1);
    let rm = merge(m0, m1);
    proof {
        assert forall|k: int| #[trigger] map_value(rm, k) == exp_choice(k) by {
            assert(map_value(a, k) == state_value(lookup(a.list@, k)));
            assert(map_value(b, k) == state_value(lookup(b.list@, k)));
            lemma_compatible(lookup(a.list@, k), lookup(b.list@, k));
        }
    }
    TransitionMap { def: Action::InvalidNumber, rm }
}

/// After the `n` of a big integer: its end; anything else makes it invalid.
pub open spec fn big_int_choice(k: int) -> Option<Action> {
    if is_terminal_for_number(k) {
        Some(Action::BigIntEnd)
    } else {
        None
    }
}

/// The transitions of that state (see `big_int_choice`).
pub fn create_big_int_transactions() -> (r: TransitionMap)
    ensures
        map_is(r, Action::InvalidNumber, |k: int| big_int_choice(k)),
{
    let m0 = create_range_map(terminal_for_number(), Action::BigIntEnd);
    TransitionMap { def: Action::InvalidNumber, rm: m0 }
}

/// After a new line: white space is skipped; anything else ends the new line.
pub open spec fn new_line_choice(k: int) -> Option<Action> {
    if is_white_space(k) {
        Some(Action::NewLineSkip)
    } else {
        None
    }
}

/// The transitions of that state (see `new_line_choice`).
pub fn create_new_line_transactions() -> (r: TransitionMap)
    ensures
        map_is(r, Action::NewLineEnd, |k: int| new_line_choice(k)),
{
    let chars0 = vec![' ', '\n', '\t', '\r'];
    let ranges0 = crate::tokenizer::classes::set(chars0.as_slice());
    proof {
        crate::tokenizer::classes::lemma_set_ranges(ranges0@, chars0@);
        assert forall|k: int| in_ranges(ranges0@, k) == (is_white_space(k)) by {
            if k == ' ' as int {
                assert(chars0@[0] as int == k);
            } else if k == '\n' as int {
                assert(chars0@[1] as int == k);
            } else if k == '\t' as int {
                assert(chars0@[2] as int == k);
            } else if k == '\r' as int {
                assert(chars0@[3] as int == k);
            }
        }
    }
    let m0 = create_range_map(ranges0, Action::NewLineSkip);
    TransitionMap { def: Action::NewLineEnd, rm: m0 }
}

/// After a slash: a second slash or an asterisk starts a comment; anything else is unexpected.
pub open spec fn comment_start_choice(k: int) -> Option<Action> {
    if k == '/' as int {
        Some(Action::StartSingleLineComment)
    } else if k == '*' as int {
        Some(Action::StartMultiLineComment)
    } else {
        None
    }
}

/// The transitions of that state (see `comment_start_choice`).
pub fn create_comment_start_transactions() -> (r: TransitionMap)
    ensures
        map_is(r, Action::Unexpected, |k: int| comment_start_choice(k)),
{
    let m0 = from_one('/', Action::StartSingleLineComment);
    let m1 = from_one('*', Action::StartMultiLineComment);
    proof {
        lemma_one_value(m0, '/', Action::StartSingleLineComment);
        lemma_one_value(m1, '*', Action::StartMultiLineComment);
    }
    proof {
        assert forall|k: int| #[trigger] compatible_opt(lookup(m0.list@, k), lookup(m1.list@, k)) by {
            assert(map_value(m0, k) == state_value(lookup(m0.list@, k)));
            assert(map_value(m1, k) == state_value(lookup(m1.list@, k)));
            lemma_compatible(lookup(m0.list@, k), lookup(m1.list@, k));
        }
    }
    let ghost (a, b) = (m0, m1);
    let rm = merge(m0, m1);
    proof {
        assert forall|k: int| #[trigger] map_value(rm, k) == comment_start_choice(k) by {
            assert(map_value(a, k) == state_value(lookup(a.list@, k)));
            assert(map_value(b, k) == state_value(lookup(b.list@, k)));
            lemma_compatible(lookup(a.list@, k), lookup(b.list@, k));
        }
    }
    TransitionMap { def: Action::Unexpected, rm }
}

/// In a line comment: white space ends it; anything else is part of it.
pub open spec fn singleline_comment_choice(k: int) -> Option<Action> {
    if is_white_space(k) {
        Some(Action::EndSingleLineComment)
    } else {
        None
    }
}

/// The transitions of that state (see `singleline_comment_choice`).
pub fn create_singleline_comment_transactions() -> (r: TransitionMap)
    ensures
        map_is(r, Action::StaySingleLineComment, |k: int| singleline_comment_choice(k)),
{
    let chars0 = vec![' ', '\n', '\t', '\r'];
    let ranges0 = crate::tokenizer::classes::set(chars0.as_slice());
    proof {
        crate::tokenizer::classes::lemma_set_ranges(ranges0@, chars0@);
        assert forall|k: int| in_ranges(ranges0@, k) == (is_white_space(k)) by {
            if k == ' ' as int {
                assert(chars0@[0] as int == k);
            } else if k == '\n' as int {
                assert(chars0@[1] as int == k);
            } else if k == '\t' as int {
                assert(chars0@[2] as int == k);
            } else if k == '\r' as int {
                assert(chars0@[3] as int == k);
            }
        }
    }
    let m0 = create_range_map(ranges0, Action::EndSingleLineComment);
    TransitionMap { def: Action::StaySingleLineComment, rm: m0 }
}

/// In a block comment: an asterisk may start its end; anything else is part of it.
pub open spec fn multiline_comment_choice(k: int) -> Option<Action> {
    if k == '*' as int {
        Some(Action::MultiLineCommentAsterisk)
    } else {
        None
    }
}

/// The transitions of that state (see `multiline_comment_choice`).
pub fn create_multiline_comment_transactions() -> (r: TransitionMap)
    ensures
        map_is(r, Action::StayMultiLineComment, |k: int| multiline_comment_choice(k)),
{
    let m0 = from_one('*', Action::MultiLineCommentAsterisk);
    proof {
        lemma_one_value(m0, '*', Action::MultiLineCommentAsterisk);
    }
    TransitionMap { def: Action::StayMultiLineComment, rm: m0 }
}

/// After an asterisk in a block comment: a slash ends it, another asterisk may still; anything else is part of it.
pub open spec fn multiline_comment_asterix_choice(k: int) -> Option<Action> {
    if k == '/' as int {
        Some(Action::EndMultiLineComment)
    } else if k == '*' as int {
        Some(Action::MultiLineCommentAsterisk)
    } else {
        None
    }
}

/// The transitions of that state (see `multiline_comment_asterix_choice`).
pub fn create_multiline_comment_asterix_transactions() -> (r: TransitionMap)
    ensures
        map_is(r, Action::StayMultiLineComment, |k: int| multiline_comment_asterix_choice(k)),
{
    let m0 = from_one('/', Action::EndMultiLineComment);
    let m1 = from_one('*', Action::MultiLineCommentAsterisk);
    proof {
        lemma_one_value(m0, '/', Action::EndMultiLineComment);
        lemma_one_value(m1, '*', Action::MultiLineCommentAsterisk);
    }
    proof {
        assert forall|k: int| #[trigger] compatible_opt(lookup(m0.list@, k), lookup(m1.list@, k)) by {
            assert(map_value(m0, k) == state_value(lookup(m0.list@, k)));
            assert(map_value(m1, k) == state_value(lookup(m1.list@, k)));
            lemma_compatible(lookup(m0.list@, k), lookup(m1.list@, k));
        }
    }
    let ghost (a, b) = (m0, m1);
    let rm = merge(m0, m1);
    proof {
        assert forall|k: int| #[trigger] map_value(rm, k) == multiline_comment_asterix_choice(k) by {
            assert(map_value(a, k) == state_value(lookup(a.list@, k)));
            assert(map_value(b, k) == state_value(lookup(b.list@, k)));
            lemma_compatible(lookup(a.list@, k), lookup(b.list@, k));
        }
    }
    TransitionMap { def: Action::StayMultiLineComment, rm }
}

/// In an operator: operator characters may continue it; anything else ends it.
pub open spec fn operator_choice(k: int) -> Option<Action> {
    if is_operator_char_with_dot(k) {
        Some(Action::OperatorNext)
    } else {
        None
    }
}

/// The transitions of that state (see `operator_choice`).
pub fn create_operator_transactions() -> (r: TransitionMap)
    ensures
        map_is(r, Action::OperatorEnd, |k: int| operator_choice(k)),
{
    let m0 = create_range_map(operator_chars_with_dot(), Action::OperatorNext);
    TransitionMap { def: Action::OperatorEnd, rm: m0 }
}

/// The transitions of every tokenizer state.
pub struct TransitionMaps {
    pub initial: TransitionMap,
    pub id: TransitionMap,
    pub string: TransitionMap,
    pub escape_char: TransitionMap,
    pub unicode_char: TransitionMap,
    pub zero: TransitionMap,
    pub int: TransitionMap,
    pub minus: TransitionMap,
    pub frac_begin: TransitionMap,
    pub frac: TransitionMap,
    pub exp_begin: TransitionMap,
    pub exp: TransitionMap,
    pub big_int: TransitionMap,
    pub new_line: TransitionMap,
    pub comment_start: TransitionMap,
    pub singleline_comment: TransitionMap,
    pub multiline_comment: TransitionMap,
    pub multiline_comment_asterix: TransitionMap,
    pub operator: TransitionMap,
}

impl TransitionMaps {
    /// Each map gives the actions that its state's choice and default say.
    pub open spec fn wf(&self) -> bool {
        &&& map_is(self.initial, Action::Unexpected, |k: int| initial_choice(k))
        &&& map_is(self.id, Action::EndId, |k: int| id_choice(k))
        &&& map_is(self.string, Action::AppendChar, |k: int| string_choice(k))
        &&& map_is(self.escape_char, Action::EscapeError, |k: int| escape_char_choice(k))
        &&& map_is(self.unicode_char, Action::HexError, |k: int| unicode_char_choice(k))
        &&& map_is(self.zero, Action::InvalidNumber, |k: int| zero_choice(k))
        &&& map_is(self.int, Action::InvalidNumber, |k: int| int_choice(k))
        &&& map_is(self.minus, Action::InvalidNumber, |k: int| minus_choice(k))
        &&& map_is(self.frac_begin, Action::InvalidNumber, |k: int| frac_begin_choice(k))
        &&& map_is(self.frac, Action::InvalidNumber, |k: int| frac_choice(k))
        &&& map_is(self.exp_begin, Action::InvalidNumber, |k: int| exp_begin_choice(k))
        &&& map_is(self.exp, Action::InvalidNumber, |k: int| exp_choice(k))
        &&& map_is(self.big_int, Action::InvalidNumber, |k: int| big_int_choice(k))
        &&& map_is(self.new_line, Action::NewLineEnd, |k: int| new_line_choice(k))
        &&& map_is(self.comment_start, Action::Unexpected, |k: int| comment_start_choice(k))
        &&& map_is(self.singleline_comment, Action::StaySingleLineComment, |k: int| singleline_comment_choice(k))
        &&& map_is(self.multiline_comment, Action::StayMultiLineComment, |k: int| multiline_comment_choice(k))
        &&& map_is(self.multiline_comment_asterix, Action::StayMultiLineComment, |k: int| multiline_comment_asterix_choice(k))
        &&& map_is(self.operator, Action::OperatorEnd, |k: int| operator_choice(k))
    }
}

/// The transitions of every tokenizer state.
pub fn create_transition_maps() -> (r: TransitionMaps)
    ensures
        r.wf(),
{
    TransitionMaps {
        initial: create_initial_transitions(),
        id: create_id_transitions(),
        string: create_string_transactions(),
        escape_char: create_escape_char_transactions(),
        unicode_char: create_unicode_char_transactions(),
        zero: create_zero_transactions(),
        int: create_int_transactions(),
        minus: create_minus_transactions(),
        frac_begin: create_frac_begin_transactions(),
        frac: create_frac_transactions(),
        exp_begin: create_exp_begin_transactions(),
        exp: create_exp_transactions(),
        big_int: create_big_int_transactions(),
        new_line: create_new_line_transactions(),
        comment_start: create_comment_start_transactions(),
        singleline_comment: create_singleline_comment_transactions(),
        multiline_comment: create_multiline_comment_transactions(),
        multiline_comment_asterix: create_multiline_comment_asterix_transactions(),
        operator: create_operator_transactions(),
    }
}

/// The action of `c` in the map: the map's value there, or its default.
pub fn next_action(tm: &TransitionMap, c: char) -> (r: Action)
    requires
        tm.rm.wf(),
    ensures
        r == map_action(*tm, c as int),
{
    let entry = tm.rm.get(c);
    match entry.value {
        Some(a) => a,
        None => tm.def,
    }
}

} // verus!

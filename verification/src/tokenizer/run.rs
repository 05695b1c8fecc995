use vstd::prelude::*;
use crate::tokenizer::maps::create_transition_maps;
use crate::tokenizer::state::{JsonToken, TokenizerState, push_step, end_tokens};
use crate::big_int::Sign;

verus! {

/// The pieces one after the other.
pub open spec fn concat(pieces: Seq<Seq<JsonToken>>) -> Seq<JsonToken>
    decreases pieces.len(),
{
    if pieces.len() == 0 {
        Seq::empty()
    } else {
        concat(pieces.drop_last()) + pieces.last()
    }
}

/// `states[i]` is the state before the character `chars[i]`, and `pieces[i]` the tokens that
/// reading it completes, starting from the initial state.
pub open spec fn is_trace(
    chars: Seq<char>,
    states: Seq<TokenizerState>,
    pieces: Seq<Seq<JsonToken>>,
) -> bool {
    &&& states.len() == chars.len() + 1
    &&& pieces.len() == chars.len()
    &&& states[0] == TokenizerState::Initial
    &&& forall|i: int|
        0 <= i < chars.len() ==> #[trigger] push_step(states[i], chars[i], pieces[i], states[i + 1])
}

/// The tokens and the state that reading `chars` from the initial state gives.
pub open spec fn run(chars: Seq<char>, tokens: Seq<JsonToken>, state: TokenizerState) -> bool {
    exists|states: Seq<TokenizerState>, pieces: Seq<Seq<JsonToken>>|
        #[trigger] is_trace(chars, states, pieces) && states.last() == state && tokens == concat(
            pieces,
        )
}

/// The tokens of `chars`: those of reading every character, then those that the last state
/// still holds.
pub open spec fn tokenizes(chars: Seq<char>, tokens: Seq<JsonToken>) -> bool {
    exists|read: Seq<JsonToken>, last: TokenizerState, rest: Seq<JsonToken>|
        #![trigger run(chars, read, last), end_tokens(last, rest)]
        run(chars, read, last) && end_tokens(last, rest) && tokens == read + rest
}

/// Reading `chars` keeps the digits and exponents of numbers within the machine integers.
pub open spec fn fits_machine(chars: Seq<char>) -> bool {
    &&& forall|i: int, tokens: Seq<JsonToken>, state: TokenizerState|
        0 <= i < chars.len() && #[trigger] run(chars.take(i), tokens, state) ==> state.can_push(
            chars[i],
        )
    &&& forall|tokens: Seq<JsonToken>, state: TokenizerState| #[trigger]
        run(chars, tokens, state) ==> state.can_end()
}

/// Inside a string literal without quotes or backslashes, the state after each character is
/// the string read so far, and no token has been completed.
proof fn lemma_plain_string_prefix(
    s: Seq<char>,
    chars: Seq<char>,
    states: Seq<TokenizerState>,
    pieces: Seq<Seq<JsonToken>>,
    i: int,
)
    requires
        forall|j: int| 0 <= j < s.len() ==> s[j] != '"' && s[j] != '\\',
        chars == seq!['"'] + s + seq!['"'],
        is_trace(chars, states, pieces),
        0 <= i <= s.len(),
    ensures
        states[i + 1] matches TokenizerState::ParseString(t) && t@ == s.take(i),
        concat(pieces.take(i + 1)).len() == 0,
    decreases i,
{
    if i == 0 {
        assert(chars[0] == '"');
        assert(push_step(states[0], chars[0], pieces[0], states[1]));
        assert(pieces.take(1).drop_last() =~= Seq::<Seq<JsonToken>>::empty());
        assert(pieces.take(1).last() == pieces[0]);
        assert(pieces[0].len() == 0);
        assert(concat(pieces.take(1)) =~= concat(Seq::<Seq<JsonToken>>::empty()) + pieces[0]);
        assert(s.take(0) =~= Seq::<char>::empty());
    } else {
        lemma_plain_string_prefix(s, chars, states, pieces, i - 1);
        assert(chars[i] == s[i - 1]);
        assert(push_step(states[i], chars[i], pieces[i], states[i + 1]));
        assert(s.take(i - 1).push(s[i - 1]) =~= s.take(i));
        assert(pieces.take(i + 1).drop_last() =~= pieces.take(i));
        assert(pieces.take(i + 1).last() == pieces[i]);
        assert(pieces[i].len() == 0);
        assert(concat(pieces.take(i + 1)) =~= concat(pieces.take(i)) + pieces[i]);
    }
}

/// A string literal without quotes or backslashes gives one string token with exactly its
/// characters.
pub proof fn law_plain_string(s: Seq<char>, tokens: Seq<JsonToken>)
    requires
        forall|j: int| 0 <= j < s.len() ==> s[j] != '"' && s[j] != '\\',
        tokenizes(seq!['"'] + s + seq!['"'], tokens),
    ensures
        tokens.len() == 1,
        tokens[0] matches JsonToken::String(t) && t@ == s,
{
    let chars = seq!['"'] + s + seq!['"'];
    let (read, last, rest) = choose|read: Seq<JsonToken>, last: TokenizerState, rest: Seq<JsonToken>|
        #![trigger run(chars, read, last), end_tokens(last, rest)]
        run(chars, read, last) && end_tokens(last, rest) && tokens == read + rest;
    let (states, pieces) = choose|states: Seq<TokenizerState>, pieces: Seq<Seq<JsonToken>>|
        #[trigger] is_trace(chars, states, pieces) && states.last() == last && read == concat(pieces);
    let n = s.len() as int;
    lemma_plain_string_prefix(s, chars, states, pieces, n);
    assert(chars[n + 1] == '"');
    assert(push_step(states[n + 1], chars[n + 1], pieces[n + 1], states[n + 2]));
    assert(s.take(n) =~= s);
    assert(pieces.take(n + 2) =~= pieces);
    assert(pieces.take(n + 2).drop_last() =~= pieces.take(n + 1));
}

/// How a character of a string is written inside its literal: `"` and `\` after a backslash,
/// any other character as itself.
pub open spec fn escaped_char(c: char) -> Seq<char> {
    if c == '"' || c == '\\' {
        seq!['\\', c]
    } else {
        seq![c]
    }
}

/// The inside of a string literal for `s`, with each `"` and `\` escaped by a backslash.
pub open spec fn escape_quotes(s: Seq<char>) -> Seq<char>
    decreases s.len(),
{
    if s.len() == 0 {
        Seq::empty()
    } else {
        escape_quotes(s.drop_last()) + escaped_char(s.last())
    }
}

proof fn lemma_escape_take(s: Seq<char>, i: int)
    requires
        0 <= i < s.len(),
    ensures
        escape_quotes(s.take(i + 1)) == escape_quotes(s.take(i)) + escaped_char(s[i]),
{
    assert(s.take(i + 1).drop_last() =~= s.take(i));
    assert(s.take(i + 1).last() == s[i]);
}

/// The escaped text of a prefix of `s` is a prefix of the escaped text of `s`.
proof fn lemma_escape_prefix(s: Seq<char>, i: int)
    requires
        0 <= i <= s.len(),
    ensures
        escape_quotes(s.take(i)).len() <= escape_quotes(s).len(),
        escape_quotes(s).take(escape_quotes(s.take(i)).len() as int) == escape_quotes(s.take(i)),
    decreases s.len() - i,
{
    if i == s.len() {
        assert(s.take(i) =~= s);
        assert(escape_quotes(s).take(escape_quotes(s).len() as int) =~= escape_quotes(s));
    } else {
        lemma_escape_prefix(s, i + 1);
        lemma_escape_take(s, i);
        let a = escape_quotes(s.take(i));
        let b = escape_quotes(s.take(i + 1));
        assert(escape_quotes(s).take(a.len() as int) =~= b.take(a.len() as int));
        assert(b.take(a.len() as int) =~= a);
    }
}

proof fn lemma_concat_take(pieces: Seq<Seq<JsonToken>>, q: int)
    requires
        0 <= q < pieces.len(),
    ensures
        concat(pieces.take(q + 1)) == concat(pieces.take(q)) + pieces[q],
{
    assert(pieces.take(q + 1).drop_last() =~= pieces.take(q));
    assert(pieces.take(q + 1).last() == pieces[q]);
}

/// Inside a string literal with escaped quotes and backslashes, after the escaped text of the
/// first `i` characters the state is the string of those characters, and no token has been
/// completed.
proof fn lemma_escaped_string_prefix(
    s: Seq<char>,
    chars: Seq<char>,
    states: Seq<TokenizerState>,
    pieces: Seq<Seq<JsonToken>>,
    i: int,
)
    requires
        chars == seq!['"'] + escape_quotes(s) + seq!['"'],
        is_trace(chars, states, pieces),
        0 <= i <= s.len(),
    ensures
        states[1 + escape_quotes(s.take(i)).len() as int] matches TokenizerState::ParseString(t) && t@
            == s.take(i),
        concat(pieces.take(1 + escape_quotes(s.take(i)).len() as int)).len() == 0,
    decreases i,
{
    let e = escape_quotes(s);
    assert forall|j: int| 0 <= j < e.len() implies chars[1 + j] == e[j] by {}
    if i == 0 {
        assert(s.take(0) =~= Seq::<char>::empty());
        assert(escape_quotes(s.take(0)).len() == 0);
        assert(chars[0] == '"');
        assert(push_step(states[0], chars[0], pieces[0], states[1]));
        assert(pieces[0].len() == 0);
        lemma_concat_take(pieces, 0);
        assert(pieces.take(0) =~= Seq::<Seq<JsonToken>>::empty());
    } else {
        lemma_escaped_string_prefix(s, chars, states, pieces, i - 1);
        lemma_escape_take(s, i - 1);
        lemma_escape_prefix(s, i);
        let a = escape_quotes(s.take(i - 1));
        let b = escape_quotes(s.take(i));
        let p = 1 + a.len() as int;
        let c = s[i - 1];
        assert(s.take(i - 1).push(c) =~= s.take(i));
        assert forall|j: int| 0 <= j < b.len() implies chars[1 + j] == b[j] by {
            assert(e.take(b.len() as int)[j] == e[j]);
        }
        assert(b == a + escaped_char(c));
        assert(chars[p] == b[a.len() as int]);
        assert(b[a.len() as int] == escaped_char(c)[0]);
        assert(push_step(states[p], chars[p], pieces[p], states[p + 1]));
        lemma_concat_take(pieces, p);
        if c == '"' || c == '\\' {
            assert(chars[p + 1] == b[a.len() as int + 1]);
            assert(b[a.len() as int + 1] == escaped_char(c)[1]);
            assert(chars[p] == '\\');
            assert(chars[p + 1] == c);
            let q = p + 1;
            assert(q < chars.len());
            assert(push_step(states[q], chars[q], pieces[q], states[q + 1]));
            lemma_concat_take(pieces, q);
        } else {
            assert(chars[p] == c);
        }
    }
}

/// A string literal decodes the escapes of quotes and backslashes: the literal of any text,
/// with each `"` written as `\"` and each `\` as `\\`, gives one string token with exactly
/// that text.
pub proof fn law_escaped_string(s: Seq<char>, tokens: Seq<JsonToken>)
    requires
        tokenizes(seq!['"'] + escape_quotes(s) + seq!['"'], tokens),
    ensures
        tokens.len() == 1,
        tokens[0] matches JsonToken::String(t) && t@ == s,
{
    let chars = seq!['"'] + escape_quotes(s) + seq!['"'];
    let (read, last, rest) = choose|read: Seq<JsonToken>, last: TokenizerState, rest: Seq<JsonToken>|
        #![trigger run(chars, read, last), end_tokens(last, rest)]
        run(chars, read, last) && end_tokens(last, rest) && tokens == read + rest;
    let (states, pieces) = choose|states: Seq<TokenizerState>, pieces: Seq<Seq<JsonToken>>|
        #[trigger] is_trace(chars, states, pieces) && states.last() == last && read == concat(pieces);
    let n = s.len() as int;
    lemma_escaped_string_prefix(s, chars, states, pieces, n);
    assert(s.take(n) =~= s);
    let p = 1 + escape_quotes(s).len() as int;
    assert(chars[p] == '"');
    assert(push_step(states[p], chars[p], pieces[p], states[p + 1]));
    lemma_concat_take(pieces, p);
    assert(pieces.take(p + 1) =~= pieces);
}

/// The number that the decimal digits `ds` write.
pub open spec fn decimal_value(ds: Seq<char>) -> nat
    decreases ds.len(),
{
    if ds.len() == 0 {
        0
    } else {
        decimal_value(ds.drop_last()) * 10 + (ds.last() as int - '0' as int) as nat
    }
}

/// The sign character that a literal starts with: `-` for a negative one, none otherwise.
pub open spec fn sign_prefix(negative: bool) -> Seq<char> {
    if negative {
        seq!['-']
    } else {
        Seq::empty()
    }
}

/// The sign that a literal with or without a leading minus has.
pub open spec fn literal_sign(negative: bool) -> Sign {
    if negative {
        Sign::Negative
    } else {
        Sign::Positive
    }
}

/// Decimal digits, at least one, without a leading zero unless the zero is alone: the integer
/// part of a number literal.
pub open spec fn is_integer_part(is: Seq<char>) -> bool {
    &&& is.len() >= 1
    &&& forall|i: int| 0 <= i < is.len() ==> '0' <= #[trigger] is[i] && is[i] <= '9'
    &&& is.len() > 1 ==> is[0] != '0'
}

/// While reading the integer part `is` of a literal, after its first `j` digits the state
/// holds the number they write with the literal's sign (a lone zero has its own state), and
/// no token has been completed.
proof fn lemma_integer_part_prefix(
    negative: bool,
    is: Seq<char>,
    ds: Seq<char>,
    chars: Seq<char>,
    states: Seq<TokenizerState>,
    pieces: Seq<Seq<JsonToken>>,
    j: int,
)
    requires
        is_integer_part(is),
        chars == sign_prefix(negative) + is + seq!['.'] + ds,
        is_trace(chars, states, pieces),
        1 <= j <= is.len(),
    ensures
        is[0] == '0' ==> states[sign_prefix(negative).len() + 1int] == TokenizerState::ParseZero(
            literal_sign(negative),
        ),
        is[0] != '0' ==> (states[sign_prefix(negative).len() + j] matches TokenizerState::ParseInt(b)
            && crate::tokenizer::state::big_int_is(
            b,
            literal_sign(negative),
            decimal_value(is.take(j)),
        )),
        concat(pieces.take(sign_prefix(negative).len() + j)).len() == 0,
    decreases j,
{
    let p = sign_prefix(negative).len() as int;
    assert(chars.len() == p + is.len() + 1 + ds.len());
    assert(forall|i: int| 0 <= i < is.len() ==> chars[p + i] == is[i]);
    assert(is.take(j).drop_last() =~= is.take(j - 1));
    assert(is.take(j).last() == is[j - 1]);
    let q = p + j - 1;
    assert(push_step(states[q], chars[q], pieces[q], states[q + 1]));
    lemma_concat_take(pieces, q);
    assert(crate::tokenizer::classes::is_digit(is[j - 1] as int));
    if j == 1 {
        assert(is.take(0) =~= Seq::<char>::empty());
        assert(decimal_value(is.take(0)) == 0);
        assert(decimal_value(is.take(1)) == (is[0] as int - '0' as int));
        if negative {
            let i0: int = 0;
            assert(chars[i0] == '-');
            assert(push_step(states[i0], chars[i0], pieces[i0], states[i0 + 1]));
            assert(states[1] == TokenizerState::ParseMinus);
            lemma_concat_take(pieces, 0);
        }
        assert(pieces.take(0) =~= Seq::<Seq<JsonToken>>::empty());
        assert(states[0] == TokenizerState::Initial);
    } else {
        lemma_integer_part_prefix(negative, is, ds, chars, states, pieces, j - 1);
        assert(is[0] != '0');
    }
}

/// While reading the fraction digits `ds` of a literal with integer part `is`, after `j` of
/// them the state holds the number that `is` and those digits write, with the literal's sign,
/// scaled by ten to the minus `j`, and no token has been completed.
proof fn lemma_fraction_prefix(
    negative: bool,
    is: Seq<char>,
    ds: Seq<char>,
    chars: Seq<char>,
    states: Seq<TokenizerState>,
    pieces: Seq<Seq<JsonToken>>,
    j: int,
)
    requires
        is_integer_part(is),
        forall|i: int| 0 <= i < ds.len() ==> '0' <= #[trigger] ds[i] && ds[i] <= '9',
        chars == sign_prefix(negative) + is + seq!['.'] + ds,
        is_trace(chars, states, pieces),
        0 <= j <= ds.len(),
    ensures
        j == 0 ==> (states[sign_prefix(negative).len() + is.len() + 1int] matches
            TokenizerState::ParseFracBegin(b) && b.sign == literal_sign(negative) && b.value@
            == decimal_value(is) && b.value.wf()),
        j > 0 ==> (states[sign_prefix(negative).len() + is.len() + 1 + j] matches
            TokenizerState::ParseFrac(f) && f.b.sign == literal_sign(negative) && f.b.value@
            == decimal_value(is + ds.take(j)) && f.b.value.wf() && f.fe == -j),
        concat(pieces.take(sign_prefix(negative).len() + is.len() + 1 + j)).len() == 0,
    decreases j,
{
    let p = sign_prefix(negative).len() as int;
    let m = is.len() as int;
    assert(chars.len() == p + m + 1 + ds.len());
    assert(forall|i: int| 0 <= i < ds.len() ==> chars[p + m + 1 + i] == ds[i]);
    if j == 0 {
        lemma_integer_part_prefix(negative, is, ds, chars, states, pieces, m);
        assert(is.take(m) =~= is);
        let q = p + m;
        assert(chars[q] == '.');
        assert(push_step(states[q], chars[q], pieces[q], states[q + 1]));
        lemma_concat_take(pieces, q);
        if is[0] == '0' {
            assert(m == 1);
            assert(is.drop_last() =~= Seq::<char>::empty());
            assert(is.last() == is[0]);
            assert(decimal_value(is.drop_last()) == 0);
            assert(decimal_value(is) == 0);
            let b = states[q + 1]->ParseFracBegin_0;
            assert(b.value@ == 0) by {
                assert(b.value.value@ =~= Seq::<u64>::empty());
            }
        }
    } else {
        lemma_fraction_prefix(negative, is, ds, chars, states, pieces, j - 1);
        let q = p + m + j;
        assert(chars[q] == ds[j - 1]);
        assert(push_step(states[q], chars[q], pieces[q], states[q + 1]));
        lemma_concat_take(pieces, q);
        assert(crate::tokenizer::classes::is_digit(ds[j - 1] as int));
        assert((is + ds.take(j)).drop_last() =~= is + ds.take(j - 1));
        assert((is + ds.take(j)).last() == ds[j - 1]);
        if j == 1 {
            assert(is + ds.take(0) =~= is);
        }
    }
}

/// A decimal literal with a fraction reads as the number it writes: for any sign, integer part
/// `is` and fraction digits `ds`, it gives one number token whose significand has the
/// literal's sign (negative exactly when the literal starts with a minus) and the magnitude
/// that the digits of `is` and `ds` write together, and whose exponent is minus the number of
/// fraction digits (`-0.5` is -5 times ten to the -1, `12.34` is 1234 times ten to the -2).
pub proof fn law_fraction_literal(negative: bool, is: Seq<char>, ds: Seq<char>, tokens: Seq<JsonToken>)
    requires
        is_integer_part(is),
        ds.len() > 0,
        forall|i: int| 0 <= i < ds.len() ==> '0' <= #[trigger] ds[i] && ds[i] <= '9',
        tokenizes(sign_prefix(negative) + is + seq!['.'] + ds, tokens),
    ensures
        tokens.len() == 1,
        tokens[0] matches JsonToken::Number(f) && f.significand.sign == literal_sign(negative)
            && f.significand.value@ == decimal_value(is + ds) && f.exp == -ds.len()
            && !f.non_zero_reminder,
        tokens[0] matches JsonToken::Number(f) && f.significand@ == (if negative {
            -(decimal_value(is + ds) as int)
        } else {
            decimal_value(is + ds) as int
        }),
{
    let chars = sign_prefix(negative) + is + seq!['.'] + ds;
    let (read, last, rest) = choose|read: Seq<JsonToken>, last: TokenizerState, rest: Seq<JsonToken>|
        #![trigger run(chars, read, last), end_tokens(last, rest)]
        run(chars, read, last) && end_tokens(last, rest) && tokens == read + rest;
    let (states, pieces) = choose|states: Seq<TokenizerState>, pieces: Seq<Seq<JsonToken>>|
        #[trigger] is_trace(chars, states, pieces) && states.last() == last && read == concat(pieces);
    let n = ds.len() as int;
    lemma_fraction_prefix(negative, is, ds, chars, states, pieces, n);
    assert(ds.take(n) =~= ds);
    let total = sign_prefix(negative).len() + is.len() + 1int + n;
    assert(chars.len() == total);
    assert(pieces.take(total) =~= pieces);
    assert(states.last() == states[total]);
}

/// The tokens of the input, or nothing when a number in it would go past the machine
/// integers.
pub fn try_tokenize(input: String) -> (r: Option<Vec<JsonToken>>)
    ensures
        r matches Some(tokens) ==> tokenizes(input@, tokens@),
        r is None ==> !fits_machine(input@),
{
    let chars = crate::parser::path::chars_of(input.as_str());
    let maps = create_transition_maps();
    let mut state = TokenizerState::Initial;
    let mut tokens: Vec<JsonToken> = Vec::new();
    let n = chars.len();
    let mut i: usize = 0;
    let ghost mut states: Seq<TokenizerState> = seq![TokenizerState::Initial];
    let ghost mut pieces: Seq<Seq<JsonToken>> = Seq::empty();
    proof {
        assert(chars@.take(0) =~= Seq::<char>::empty());
        assert(tokens@ =~= concat(pieces));
    }
    while i < n
        invariant
            i <= n,
            n == chars@.len(),
            chars@ == input@,
            maps.wf(),
            state.wf(),
            is_trace(chars@.take(i as int), states, pieces),
            states.last() == state,
            tokens@ == concat(pieces),
        decreases n - i,
    {
        let c = chars[i];
        proof {
            assert(run(chars@.take(i as int), tokens@, state));
            assert(chars@[i as int] == c);
        }
        if !state.fits_push(c) {
            return None;
        }
        let ghost previous = state;
        let ghost before = tokens@;
        let mut added = state.push_mut(c, &maps);
        let ghost added_view = added@;
        tokens.append(&mut added);
        proof {
            let old_states = states;
            let old_pieces = pieces;
            states = states.push(state);
            pieces = pieces.push(added_view);
            let prefix = chars@.take(i + 1);
            assert(pieces.drop_last() =~= old_pieces);
            assert(tokens@ =~= concat(pieces));
            assert forall|j: int| 0 <= j < prefix.len() implies #[trigger] push_step(
                states[j],
                prefix[j],
                pieces[j],
                states[j + 1],
            ) by {
                if j < i {
                    assert(states[j] == old_states[j]);
                    assert(states[j + 1] == old_states[j + 1]);
                    assert(pieces[j] == old_pieces[j]);
                    assert(prefix[j] == chars@.take(i as int)[j]);
                    assert(push_step(old_states[j], chars@.take(i as int)[j], old_pieces[j], old_states[j + 1]));
                } else {
                    assert(states[j] == previous);
                }
            }
        }
        i = i + 1;
    }
    proof {
        assert(chars@.take(n as int) =~= input@);
        assert(run(input@, tokens@, state));
    }
    if !state.fits_end() {
        return None;
    }
    let ghost read = tokens@;
    let ghost last = state;
    let mut rest = state.end();
    let ghost rest_view = rest@;
    tokens.append(&mut rest);
    proof {
        assert(tokens@ =~= read + rest_view);
        assert(end_tokens(last, rest_view));
    }
    Some(tokens)
}

/// The tokens of the input.
pub fn tokenize(input: String) -> (r: Vec<JsonToken>)
    requires
        fits_machine(input@),
    ensures
        tokenizes(input@, r@),
{
    try_tokenize(input).unwrap()
}

} // verus!

use vstd::prelude::*;
use vstd::string::*;
use crate::big_float::BigFloat;
use crate::big_int::{BigInt, Sign};
use crate::big_uint::BigUint;
use crate::digits::pow_base;
use crate::tokenizer::classes::{is_digit, is_terminal_for_number, digit_to_number};
use crate::tokenizer::maps::{
    Action, TransitionMaps, next_action, initial_choice, id_choice, string_choice,
    escape_char_choice, unicode_char_choice, zero_choice, int_choice, minus_choice,
    frac_begin_choice, frac_choice, exp_begin_choice, exp_choice, big_int_choice,
    new_line_choice, comment_start_choice, singleline_comment_choice, multiline_comment_choice,
    multiline_comment_asterix_choice, operator_choice,
};

verus! {

/// What a tokenizer reports instead of a token it could not read.
#[derive(Debug, PartialEq, Eq, Clone, Copy, Structural)]
pub enum ErrorType {
    UnexpectedCharacter,
    InvalidToken,
    InvalidNumber,
    InvalidHex,
    MissingQuotes,
    CommentClosingExpected,
}

/// A token of JSON and of its JavaScript-like extensions. A number is held exactly, as its
/// decimal significand and exponent.
#[derive(Debug, PartialEq)]
pub enum JsonToken {
    String(String),
    Number(BigFloat<10>),
    ObjectBegin,
    ObjectEnd,
    ArrayBegin,
    ArrayEnd,
    Colon,
    Comma,
    Equals,
    Dot,
    ErrorToken(ErrorType),
    BigInt(BigInt),
    Id(String),
    NewLine,
    Semicolon,
    OpeningParenthesis,
    ClosingParenthesis,
}

/// Inside a `\u` escape: the string so far, the code unit read so far and the number of
/// hexadecimal digits read.
pub struct ParseUnicodeCharState {
    pub s: String,
    pub unicode: u32,
    pub index: u8,
}

/// Inside the fraction of a number: the digits so far as an integer `b`, and the exponent
/// `fe` (minus the number of fraction digits) that scales it.
pub struct FloatState {
    pub b: BigInt,
    pub fe: i64,
}

/// Inside the exponent of a number: the significand `b` and its scale `fe`, the sign `es`
/// and the digits `e` of the written exponent.
pub struct ExpState {
    pub b: BigInt,
    pub fe: i64,
    pub es: Sign,
    pub e: i64,
}

/// Where the tokenizer stands between two characters, with what it has read of the current
/// token.
pub enum TokenizerState {
    Initial,
    ParseId(String),
    ParseString(String),
    ParseEscapeChar(String),
    ParseUnicodeChar(ParseUnicodeCharState),
    ParseMinus,
    ParseZero(Sign),
    ParseInt(BigInt),
    ParseFracBegin(BigInt),
    ParseFrac(FloatState),
    ParseExpBegin(ExpState),
    ParseExpSign(ExpState),
    ParseExp(ExpState),
    ParseBigInt(BigInt),
    ParseNewLine,
    ParseCommentStart,
    ParseSinglelineComment,
    ParseMultilineComment,
    ParseMultilineCommentAsterix,
    ParseOperator(String),
}

impl Default for TokenizerState {
    fn default() -> (r: Self)
        ensures
            r == TokenizerState::Initial,
    {
        TokenizerState::Initial
    }
}

/// `String::push` (std): appends `c` at the end of `s`.
#[verifier::external_body]
pub(crate) fn push_char(s: &mut String, c: char)
    ensures
        final(s)@ == old(s)@.push(c),
{
    s.push(c);
}

/// The one-character string of `c`.
fn char_string(c: char) -> (r: String)
    ensures
        r@ == seq![c],
{
    let mut s = String::new();
    push_char(&mut s, c);
    proof {
        assert(Seq::<char>::empty().push(c) =~= seq![c]);
    }
    s
}

/// The value of a decimal digit.
pub open spec fn digit_value(c: char) -> nat {
    (c as int - '0' as int) as nat
}

impl BigUint {
    /// Appends a decimal digit: ten times the number, plus the digit.
    pub fn add_digit(self, c: char) -> (r: BigUint)
        requires
            is_digit(c as int),
            self.wf(),
            self.value@.len() + 2 <= usize::MAX,
        ensures
            r@ == self@ * 10 + digit_value(c),
            r.wf(),
            r.value@.len() <= self.value@.len() + 1,
    {
        let ten = BigUint::from_u64(10);
        let d = BigUint::from_u64(digit_to_number(c));
        let product = self.mul(&ten);
        proof {
            crate::digits::lemma_value_bound(product.value@);
        }
        let r = product.add(&d);
        proof {
            let n = self.value@.len();
            crate::digits::lemma_value_bound(self.value@);
            crate::digits::lemma_pow_base_succ(n);
            assert(self@ * 10 + digit_value(c) < pow_base(n + 1)) by (nonlinear_arith)
                requires
                    self@ < pow_base(n),
                    digit_value(c) <= 9,
                    pow_base(n + 1) == crate::digits::base() * pow_base(n),
                    crate::digits::base() == 0x1_0000_0000_0000_0000,
            ;
            crate::digits::lemma_normalized_len_bound(r.value@, n + 1);
        }
        r
    }
}

/// `b` is the number with sign `sign` and the digits `digits`, normalized.
pub open spec fn big_int_is(b: BigInt, sign: Sign, magnitude: nat) -> bool {
    &&& b.sign == sign
    &&& b.value@ == magnitude
    &&& b.value.wf()
}

/// The token of a number: significand `b` times ten to the power `exp`, nothing dropped.
pub open spec fn number_token_is(t: JsonToken, b: BigInt, exp: int) -> bool {
    t matches JsonToken::Number(f) && f.significand == b && f.exp == exp && !f.non_zero_reminder
}

impl BigInt {
    /// The number made of one digit, with sign `sign`.
    fn from_digit(sign: Sign, c: char) -> (r: BigInt)
        requires
            is_digit(c as int),
        ensures
            big_int_is(r, sign, digit_value(c)),
    {
        BigInt { sign, value: BigUint::from_u64(digit_to_number(c)) }
    }

    /// Appends a decimal digit to the magnitude; the sign stays.
    fn add_digit(self, c: char) -> (r: BigInt)
        requires
            is_digit(c as int),
            self.value.wf(),
            self.value.value@.len() + 2 <= usize::MAX,
        ensures
            big_int_is(r, self.sign, self.value@ * 10 + digit_value(c)),
            r.value.value@.len() <= self.value.value@.len() + 1,
    {
        let sign = self.sign;
        BigInt { sign, value: self.value.add_digit(c) }
    }

    /// The state of a fraction that starts after these digits.
    fn into_float_state(self) -> (r: FloatState)
        ensures
            r.b == self,
            r.fe == 0,
    {
        FloatState { b: self, fe: 0 }
    }

    /// The state of an exponent that starts after these digits.
    fn into_exp_state(self) -> (r: ExpState)
        ensures
            r.b == self,
            r.fe == 0,
            r.es == Sign::Positive,
            r.e == 0,
    {
        ExpState { b: self, fe: 0, es: Sign::Positive, e: 0 }
    }

    /// The number token of these digits.
    fn into_token(self) -> (r: JsonToken)
        ensures
            number_token_is(r, self, 0),
    {
        JsonToken::Number(BigFloat { significand: self, exp: 0, non_zero_reminder: false })
    }

    /// The big-integer token of these digits.
    fn into_big_int_token(self) -> (r: JsonToken)
        ensures
            r == JsonToken::BigInt(self),
    {
        JsonToken::BigInt(self)
    }
}

/// The digits of a number that starts with the digit `c`, with sign `sign`.
fn start_number(sign: Sign, c: char) -> (r: BigInt)
    requires
        is_digit(c as int),
    ensures
        big_int_is(r, sign, digit_value(c)),
{
    BigInt::from_digit(sign, c)
}

impl FloatState {
    /// Appends a fraction digit: the digits grow by one and the scale goes down by one.
    fn add_digit(self, c: char) -> (r: FloatState)
        requires
            is_digit(c as int),
            self.b.value.wf(),
            self.b.value.value@.len() + 2 <= usize::MAX,
            self.fe > i64::MIN,
        ensures
            big_int_is(r.b, self.b.sign, self.b.value@ * 10 + digit_value(c)),
            r.b.value.value@.len() <= self.b.value.value@.len() + 1,
            r.fe == self.fe - 1,
    {
        let b = self.b.add_digit(c);
        FloatState { b, fe: self.fe - 1 }
    }

    /// The state of an exponent that starts after this fraction.
    fn into_exp_state(self) -> (r: ExpState)
        ensures
            r.b == self.b,
            r.fe == self.fe,
            r.es == Sign::Positive,
            r.e == 0,
    {
        ExpState { b: self.b, fe: self.fe, es: Sign::Positive, e: 0 }
    }

    /// The number token of this fraction.
    fn into_token(self) -> (r: JsonToken)
        ensures
            number_token_is(r, self.b, self.fe as int),
    {
        JsonToken::Number(BigFloat { significand: self.b, exp: self.fe, non_zero_reminder: false })
    }
}

impl ExpState {
    /// Appends a digit to the written exponent.
    fn add_digit(self, c: char) -> (r: ExpState)
        requires
            is_digit(c as int),
            self.e * 10 + 9 <= i64::MAX,
            self.e >= 0,
        ensures
            r.b == self.b,
            r.fe == self.fe,
            r.es == self.es,
            r.e == self.e * 10 + digit_value(c),
    {
        let e = self.e * 10 + digit_to_number(c) as i64;
        ExpState { b: self.b, fe: self.fe, es: self.es, e }
    }

    /// The number token: the significand scaled by `fe` plus the signed written exponent.
    fn into_token(self) -> (r: JsonToken)
        requires
            self.e >= 0,
            self.fe - self.e >= i64::MIN,
            self.fe + self.e <= i64::MAX,
        ensures
            number_token_is(r, self.b, self.fe + self.es.factor() * self.e),
    {
        let exp = self.fe + match self.es {
            Sign::Positive => self.e,
            Sign::Negative => -self.e,
        };
        JsonToken::Number(BigFloat { significand: self.b, exp, non_zero_reminder: false })
    }
}

/// The token of a one-character operator.
pub open spec fn operator_token(s: Seq<char>) -> Option<JsonToken> {
    if s.len() != 1 {
        None
    } else if s[0] == '{' {
        Some(JsonToken::ObjectBegin)
    } else if s[0] == '}' {
        Some(JsonToken::ObjectEnd)
    } else if s[0] == '[' {
        Some(JsonToken::ArrayBegin)
    } else if s[0] == ']' {
        Some(JsonToken::ArrayEnd)
    } else if s[0] == ':' {
        Some(JsonToken::Colon)
    } else if s[0] == ',' {
        Some(JsonToken::Comma)
    } else if s[0] == '=' {
        Some(JsonToken::Equals)
    } else if s[0] == '.' {
        Some(JsonToken::Dot)
    } else if s[0] == ';' {
        Some(JsonToken::Semicolon)
    } else if s[0] == '(' {
        Some(JsonToken::OpeningParenthesis)
    } else if s[0] == ')' {
        Some(JsonToken::ClosingParenthesis)
    } else {
        None
    }
}

/// The token of an operator string, if it is one.
fn operator_to_token(s: String) -> (r: Option<JsonToken>)
    ensures
        r == operator_token(s@),
{
    let text = s.as_str();
    if text.unicode_len() != 1 {
        return None;
    }
    match text.get_char(0) {
        '{' => Some(JsonToken::ObjectBegin),
        '}' => Some(JsonToken::ObjectEnd),
        '[' => Some(JsonToken::ArrayBegin),
        ']' => Some(JsonToken::ArrayEnd),
        ':' => Some(JsonToken::Colon),
        ',' => Some(JsonToken::Comma),
        '=' => Some(JsonToken::Equals),
        '.' => Some(JsonToken::Dot),
        ';' => Some(JsonToken::Semicolon),
        '(' => Some(JsonToken::OpeningParenthesis),
        ')' => Some(JsonToken::ClosingParenthesis),
        _ => None,
    }
}

/// The action of `c` in a state: the state's choice, or its default.
pub open spec fn or_default(choice: Option<Action>, def: Action) -> Action {
    match choice {
        Some(a) => a,
        None => def,
    }
}

/// What the initial state does with `c`.
pub open spec fn initial_step(c: char, tokens: Seq<JsonToken>, next: TokenizerState) -> bool {
    match or_default(initial_choice(c as int), Action::Unexpected) {
        Action::StartOperator => tokens.len() == 0 && (next matches TokenizerState::ParseOperator(s)
            && s@ == seq![c]),
        Action::StartInt => tokens.len() == 0 && (next matches TokenizerState::ParseInt(b)
            && big_int_is(b, Sign::Positive, digit_value(c))),
        Action::StartString => tokens.len() == 0 && (next matches TokenizerState::ParseString(s)
            && s@.len() == 0),
        Action::StartZero => tokens.len() == 0 && next == TokenizerState::ParseZero(Sign::Positive),
        Action::StartMinus => tokens.len() == 0 && next == TokenizerState::ParseMinus,
        Action::StartId => tokens.len() == 0 && (next matches TokenizerState::ParseId(s) && s@
            == seq![c]),
        Action::StartNewLine => tokens.len() == 0 && next == TokenizerState::ParseNewLine,
        Action::Skip => tokens.len() == 0 && next == TokenizerState::Initial,
        Action::StartComment => tokens.len() == 0 && next == TokenizerState::ParseCommentStart,
        _ => tokens =~= seq![JsonToken::ErrorToken(ErrorType::UnexpectedCharacter)] && next
            == TokenizerState::Initial,
    }
}

/// What a string state with the text `s` does with `c`.
pub open spec fn string_step(s: Seq<char>, c: char, tokens: Seq<JsonToken>, next: TokenizerState) -> bool {
    match or_default(string_choice(c as int), Action::AppendChar) {
        Action::EndString => tokens.len() == 1 && (tokens[0] matches JsonToken::String(t) && t@ == s
            && next == TokenizerState::Initial),
        Action::StartEscape => tokens.len() == 0 && (next matches TokenizerState::ParseEscapeChar(t)
            && t@ == s),
        _ => tokens.len() == 0 && (next matches TokenizerState::ParseString(t) && t@ == s.push(c)),
    }
}

/// `first` followed by what the initial state does with `c`.
pub open spec fn then_initial(first: JsonToken, c: char, tokens: Seq<JsonToken>, next: TokenizerState) -> bool {
    tokens.len() >= 1 && tokens[0] == first && initial_step(c, tokens.drop_first(), next)
}

/// What a number state does with `c` when the number ends there: the token, then the
/// character is read again from the initial state.
pub open spec fn invalid_number(c: char, tokens: Seq<JsonToken>, next: TokenizerState) -> bool {
    then_initial(JsonToken::ErrorToken(ErrorType::InvalidNumber), c, tokens, next)
}

/// A number token with significand `b` and exponent `exp`, then `c` read again from the
/// initial state.
pub open spec fn number_then_initial(b: BigInt, exp: int, c: char, tokens: Seq<JsonToken>, next: TokenizerState) -> bool {
    tokens.len() >= 1 && number_token_is(tokens[0], b, exp) && initial_step(c, tokens.drop_first(), next)
}

/// The zero with sign `sign`, as the digits of a number.
pub open spec fn zero_is(b: BigInt, sign: Sign) -> bool {
    b.sign == sign && b.value.value@.len() == 0
}

/// The exponent state after the digits `e` of an exponent.
pub open spec fn exp_after_digit(old: ExpState, c: char, next: TokenizerState) -> bool {
    next matches TokenizerState::ParseExp(n) && n.b == old.b && n.fe == old.fe && n.es == old.es
        && n.e == old.e * 10 + digit_value(c)
}

/// The value of `sign` times `e` added to the scale `fe`: the exponent of a number.
pub open spec fn exp_value(s: ExpState) -> int {
    s.fe + s.es.factor() * s.e
}

/// The hexadecimal digit value of `c` counted from the code point `base`.
pub open spec fn unicode_after(st: ParseUnicodeCharState, i: u32) -> u32 {
    st.unicode | (i << (((3 - st.index) * 4) as u32))
}

/// What a tokenizer state does with the character `c`: the tokens it completes and the state
/// that follows.
pub open spec fn push_step(state: TokenizerState, c: char, tokens: Seq<JsonToken>, next: TokenizerState) -> bool {
    let k = c as int;
    match state {
        TokenizerState::Initial => initial_step(c, tokens, next),
        TokenizerState::ParseId(s) => match or_default(id_choice(k), Action::EndId) {
            Action::ContinueId => tokens.len() == 0 && (next matches TokenizerState::ParseId(t)
                && t@ == s@.push(c)),
            _ => then_initial(JsonToken::Id(s), c, tokens, next),
        },
        TokenizerState::ParseString(s) => string_step(s@, c, tokens, next),
        TokenizerState::ParseEscapeChar(s) => match or_default(
            escape_char_choice(k),
            Action::EscapeError,
        ) {
            Action::EscapeSelf => tokens.len() == 0 && (next matches TokenizerState::ParseString(t)
                && t@ == s@.push(c)),
            Action::Escape(x) => tokens.len() == 0 && (next matches TokenizerState::ParseString(t)
                && t@ == s@.push(x)),
            Action::StartUnicode => tokens.len() == 0 && (next matches TokenizerState::ParseUnicodeChar(u)
                && u.s@ == s@ && u.unicode == 0 && u.index == 0),
            _ => tokens.len() >= 1 && tokens[0] == JsonToken::ErrorToken(ErrorType::UnexpectedCharacter)
                && string_step(s@, c, tokens.drop_first(), next),
        },
        TokenizerState::ParseUnicodeChar(st) => match or_default(
            unicode_char_choice(k),
            Action::HexError,
        ) {
            Action::Hex(base) => {
                let u = unicode_after(st, (k - base) as u32);
                if st.index == 3 {
                    if crate::range_map::is_char_code(u as int) {
                        tokens.len() == 0 && (next matches TokenizerState::ParseString(t) && t@
                            == st.s@.push(u as char))
                    } else {
                        tokens =~= seq![JsonToken::ErrorToken(ErrorType::InvalidHex)] && next
                            == TokenizerState::Initial
                    }
                } else {
                    tokens.len() == 0 && (next matches TokenizerState::ParseUnicodeChar(n) && n.s
                        == st.s && n.unicode == u && n.index == st.index + 1)
                }
            },
            _ => tokens.len() >= 1 && tokens[0] == JsonToken::ErrorToken(ErrorType::InvalidHex)
                && string_step(st.s@, c, tokens.drop_first(), next),
        },
        TokenizerState::ParseMinus => match or_default(minus_choice(k), Action::InvalidNumber) {
            Action::MinusZero => tokens.len() == 0 && next == TokenizerState::ParseZero(Sign::Negative),
            Action::MinusInt => tokens.len() == 0 && (next matches TokenizerState::ParseInt(b)
                && big_int_is(b, Sign::Negative, digit_value(c))),
            _ => invalid_number(c, tokens, next),
        },
        TokenizerState::ParseZero(sign) => match or_default(zero_choice(k), Action::InvalidNumber) {
            Action::ZeroFrac => tokens.len() == 0 && (next matches TokenizerState::ParseFracBegin(b)
                && zero_is(b, sign)),
            Action::ZeroExp => tokens.len() == 0 && (next matches TokenizerState::ParseExpBegin(s)
                && zero_is(s.b, sign) && s.fe == 0 && s.es == Sign::Positive && s.e == 0),
            Action::ZeroBigInt => tokens.len() == 0 && (next matches TokenizerState::ParseBigInt(b)
                && zero_is(b, sign)),
            Action::ZeroEnd => tokens.len() >= 1 && (tokens[0] matches JsonToken::Number(f) && zero_is(
                f.significand,
                Sign::Positive,
            ) && f.exp == 0 && !f.non_zero_reminder && initial_step(c, tokens.drop_first(), next)),
            _ => invalid_number(c, tokens, next),
        },
        TokenizerState::ParseInt(b) => match or_default(int_choice(k), Action::InvalidNumber) {
            Action::IntDigit => tokens.len() == 0 && (next matches TokenizerState::ParseInt(n)
                && big_int_is(n, b.sign, b.value@ * 10 + digit_value(c))),
            Action::IntFrac => tokens.len() == 0 && next == TokenizerState::ParseFracBegin(b),
            Action::IntExp => tokens.len() == 0 && (next matches TokenizerState::ParseExpBegin(s)
                && s.b == b && s.fe == 0 && s.es == Sign::Positive && s.e == 0),
            Action::IntBigInt => tokens.len() == 0 && next == TokenizerState::ParseBigInt(b),
            Action::IntEnd => number_then_initial(b, 0, c, tokens, next),
            _ => invalid_number(c, tokens, next),
        },
        TokenizerState::ParseFracBegin(b) => match or_default(
            frac_begin_choice(k),
            Action::InvalidNumber,
        ) {
            Action::FracBeginDigit => tokens.len() == 0 && (next matches TokenizerState::ParseFrac(s)
                && big_int_is(s.b, b.sign, b.value@ * 10 + digit_value(c)) && s.fe == -1),
            _ => invalid_number(c, tokens, next),
        },
        TokenizerState::ParseFrac(f) => match or_default(frac_choice(k), Action::InvalidNumber) {
            Action::FracDigit => tokens.len() == 0 && (next matches TokenizerState::ParseFrac(s)
                && big_int_is(s.b, f.b.sign, f.b.value@ * 10 + digit_value(c)) && s.fe == f.fe - 1),
            Action::FracExp => tokens.len() == 0 && (next matches TokenizerState::ParseExpBegin(s)
                && s.b == f.b && s.fe == f.fe && s.es == Sign::Positive && s.e == 0),
            Action::FracEnd => number_then_initial(f.b, f.fe as int, c, tokens, next),
            _ => invalid_number(c, tokens, next),
        },
        TokenizerState::ParseExpBegin(s) => match or_default(
            exp_begin_choice(k),
            Action::InvalidNumber,
        ) {
            Action::ExpDigit => tokens.len() == 0 && exp_after_digit(s, c, next),
            Action::ExpPlus => tokens.len() == 0 && next == TokenizerState::ParseExpSign(s),
            Action::ExpMinus => tokens.len() == 0 && (next matches TokenizerState::ParseExpSign(n)
                && n.b == s.b && n.fe == s.fe && n.es == Sign::Negative && n.e == s.e),
            Action::ExpEnd => number_then_initial(s.b, exp_value(s), c, tokens, next),
            _ => invalid_number(c, tokens, next),
        },
        TokenizerState::ParseExpSign(s) | TokenizerState::ParseExp(s) => match or_default(
            exp_choice(k),
            Action::InvalidNumber,
        ) {
            Action::ExpDigit => tokens.len() == 0 && exp_after_digit(s, c, next),
            Action::ExpEnd => number_then_initial(s.b, exp_value(s), c, tokens, next),
            _ => invalid_number(c, tokens, next),
        },
        TokenizerState::ParseBigInt(b) => match or_default(big_int_choice(k), Action::InvalidNumber) {
            Action::BigIntEnd => number_then_initial(b, 0, c, tokens, next),
            _ => invalid_number(c, tokens, next),
        },
        TokenizerState::ParseNewLine => match or_default(new_line_choice(k), Action::NewLineEnd) {
            Action::NewLineSkip => tokens.len() == 0 && next == TokenizerState::ParseNewLine,
            _ => then_initial(JsonToken::NewLine, c, tokens, next),
        },
        TokenizerState::ParseCommentStart => match or_default(
            comment_start_choice(k),
            Action::Unexpected,
        ) {
            Action::StartSingleLineComment => tokens.len() == 0 && next
                == TokenizerState::ParseSinglelineComment,
            Action::StartMultiLineComment => tokens.len() == 0 && next
                == TokenizerState::ParseMultilineComment,
            _ => tokens =~= seq![JsonToken::ErrorToken(ErrorType::UnexpectedCharacter)] && next
                == TokenizerState::Initial,
        },
        TokenizerState::ParseSinglelineComment => match or_default(
            singleline_comment_choice(k),
            Action::StaySingleLineComment,
        ) {
            Action::EndSingleLineComment => tokens.len() == 0 && next == TokenizerState::ParseNewLine,
            _ => tokens.len() == 0 && next == TokenizerState::ParseSinglelineComment,
        },
        TokenizerState::ParseMultilineComment => match or_default(
            multiline_comment_choice(k),
            Action::StayMultiLineComment,
        ) {
            Action::MultiLineCommentAsterisk => tokens.len() == 0 && next
                == TokenizerState::ParseMultilineCommentAsterix,
            _ => tokens.len() == 0 && next == TokenizerState::ParseMultilineComment,
        },
        TokenizerState::ParseMultilineCommentAsterix => match or_default(
            multiline_comment_asterix_choice(k),
            Action::StayMultiLineComment,
        ) {
            Action::EndMultiLineComment => tokens.len() == 0 && next == TokenizerState::Initial,
            Action::MultiLineCommentAsterisk => tokens.len() == 0 && next
                == TokenizerState::ParseMultilineCommentAsterix,
            _ => tokens.len() == 0 && next == TokenizerState::ParseMultilineComment,
        },
        TokenizerState::ParseOperator(s) => match or_default(operator_choice(k), Action::OperatorEnd) {
            Action::OperatorNext => if operator_token(s@.push(c)) is Some {
                tokens.len() == 0 && (next matches TokenizerState::ParseOperator(t) && t@ == s@.push(c))
            } else {
                then_initial(operator_token(s@)->0, c, tokens, next)
            },
            _ => then_initial(operator_token(s@)->0, c, tokens, next),
        },
    }
}

/// The tokens that the state still holds when the input ends.
pub open spec fn end_tokens(state: TokenizerState, tokens: Seq<JsonToken>) -> bool {
    match state {
        TokenizerState::Initial | TokenizerState::ParseNewLine
        | TokenizerState::ParseSinglelineComment => tokens.len() == 0,
        TokenizerState::ParseId(s) => tokens =~= seq![JsonToken::Id(s)],
        TokenizerState::ParseString(_) | TokenizerState::ParseEscapeChar(_)
        | TokenizerState::ParseUnicodeChar(_) => tokens =~= seq![
            JsonToken::ErrorToken(ErrorType::MissingQuotes),
        ],
        TokenizerState::ParseCommentStart => tokens =~= seq![
            JsonToken::ErrorToken(ErrorType::UnexpectedCharacter),
        ],
        TokenizerState::ParseMultilineComment | TokenizerState::ParseMultilineCommentAsterix => tokens
            =~= seq![JsonToken::ErrorToken(ErrorType::CommentClosingExpected)],
        TokenizerState::ParseZero(_) => tokens.len() == 1 && (tokens[0] matches JsonToken::Number(f)
            && zero_is(f.significand, Sign::Positive) && f.exp == 0 && !f.non_zero_reminder),
        TokenizerState::ParseInt(b) => tokens.len() == 1 && number_token_is(tokens[0], b, 0),
        TokenizerState::ParseFrac(f) => tokens.len() == 1 && number_token_is(tokens[0], f.b, f.fe as int),
        TokenizerState::ParseExp(s) => tokens.len() == 1 && number_token_is(tokens[0], s.b, exp_value(s)),
        TokenizerState::ParseBigInt(b) => tokens =~= seq![JsonToken::BigInt(b)],
        TokenizerState::ParseMinus | TokenizerState::ParseFracBegin(_)
        | TokenizerState::ParseExpBegin(_) | TokenizerState::ParseExpSign(_) => tokens =~= seq![
            JsonToken::ErrorToken(ErrorType::InvalidNumber),
        ],
        TokenizerState::ParseOperator(s) => tokens =~= seq![operator_token(s@)->0],
    }
}

impl TokenizerState {
    /// The invariant of the payloads: normalized digits, a fraction scale not above zero, an
    /// exponent not below zero, at most three hexadecimal digits read, one operator.
    pub open spec fn wf(&self) -> bool {
        match *self {
            TokenizerState::ParseUnicodeChar(st) => st.index <= 3,
            TokenizerState::ParseInt(b) | TokenizerState::ParseFracBegin(b)
            | TokenizerState::ParseBigInt(b) => b.value.wf(),
            TokenizerState::ParseFrac(f) => f.b.value.wf() && f.fe <= 0,
            TokenizerState::ParseExpBegin(s) | TokenizerState::ParseExpSign(s)
            | TokenizerState::ParseExp(s) => s.b.value.wf() && s.fe <= 0 && s.e >= 0,
            TokenizerState::ParseOperator(s) => operator_token(s@) is Some,
            _ => true,
        }
    }

    /// The machine limits of one more character: the digits of a number and its exponent
    /// still fit their integers.
    pub open spec fn can_push(&self, c: char) -> bool {
        match *self {
            TokenizerState::ParseInt(b) | TokenizerState::ParseFracBegin(b) => is_digit(c as int)
                ==> b.value.value@.len() + 2 <= usize::MAX,
            TokenizerState::ParseFrac(f) => is_digit(c as int) ==> f.b.value.value@.len() + 2
                <= usize::MAX && f.fe > i64::MIN,
            TokenizerState::ParseExpBegin(s) | TokenizerState::ParseExpSign(s)
            | TokenizerState::ParseExp(s) => (is_digit(c as int) ==> s.e * 10 + 9 <= i64::MAX) && (
            is_terminal_for_number(c as int) ==> s.fe - s.e >= i64::MIN),
            _ => true,
        }
    }

    /// Whether the machine limits of one more character hold (see `can_push`).
    pub fn fits_push(&self, c: char) -> (r: bool)
        ensures
            r == self.can_push(c),
    {
        let digit = '0' <= c && c <= '9';
        let terminal = c == ' ' || c == '\n' || c == '\t' || c == '\r' || c == '{' || c == '}'
            || c == '[' || c == ']' || c == ':' || c == ',' || c == '=' || c == ';' || c == '('
            || c == ')' || c == '"' || c == '/';
        match self {
            TokenizerState::ParseInt(b) | TokenizerState::ParseFracBegin(b) => !digit
                || b.value.value.len() < usize::MAX - 1,
            TokenizerState::ParseFrac(f) => !digit || (f.b.value.value.len() < usize::MAX - 1
                && f.fe > i64::MIN),
            TokenizerState::ParseExpBegin(s) | TokenizerState::ParseExpSign(s)
            | TokenizerState::ParseExp(s) => (!digit || s.e <= (i64::MAX - 9) / 10) && (!terminal
                || s.fe as i128 - s.e as i128 >= i64::MIN as i128),
            _ => true,
        }
    }

    /// Whether the machine limits of the end of the input hold (see `can_end`).
    pub fn fits_end(&self) -> (r: bool)
        ensures
            r == self.can_end(),
    {
        match self {
            TokenizerState::ParseExp(s) => s.fe as i128 - s.e as i128 >= i64::MIN as i128,
            _ => true,
        }
    }

    /// The machine limits of the end of the input: an exponent still fits its integer.
    pub open spec fn can_end(&self) -> bool {
        match *self {
            TokenizerState::ParseExp(s) => s.fe - s.e >= i64::MIN,
            _ => true,
        }
    }
}

/// `c` appended to the string of a string state.
fn continue_string_state(s: String, c: char) -> (r: (Vec<JsonToken>, TokenizerState))
    ensures
        r.0@.len() == 0,
        r.1 matches TokenizerState::ParseString(t) && t@ == s@.push(c),
{
    let mut s = s;
    push_char(&mut s, c);
    (Vec::new(), TokenizerState::ParseString(s))
}

/// What the initial state does with `c`.
fn push_initial(c: char, maps: &TransitionMaps) -> (r: (Vec<JsonToken>, TokenizerState))
    requires
        maps.wf(),
    ensures
        initial_step(c, r.0@, r.1),
        r.1.wf(),
{
    let a = next_action(&maps.initial, c);
    match a {
        Action::StartOperator => (Vec::new(), TokenizerState::ParseOperator(char_string(c))),
        Action::StartInt => (Vec::new(), TokenizerState::ParseInt(start_number(Sign::Positive, c))),
        Action::StartString => (Vec::new(), TokenizerState::ParseString(String::new())),
        Action::StartZero => (Vec::new(), TokenizerState::ParseZero(Sign::Positive)),
        Action::StartMinus => (Vec::new(), TokenizerState::ParseMinus),
        Action::StartId => (Vec::new(), TokenizerState::ParseId(char_string(c))),
        Action::StartNewLine => (Vec::new(), TokenizerState::ParseNewLine),
        Action::Skip => (Vec::new(), TokenizerState::Initial),
        Action::StartComment => (Vec::new(), TokenizerState::ParseCommentStart),
        _ => (vec![JsonToken::ErrorToken(ErrorType::UnexpectedCharacter)], TokenizerState::Initial),
    }
}

/// What a string state with the text `s` does with `c`.
fn push_string(s: String, c: char, maps: &TransitionMaps) -> (r: (Vec<JsonToken>, TokenizerState))
    requires
        maps.wf(),
    ensures
        string_step(s@, c, r.0@, r.1),
        r.1.wf(),
{
    let a = next_action(&maps.string, c);
    match a {
        Action::EndString => (vec![JsonToken::String(s)], TokenizerState::Initial),
        Action::StartEscape => (Vec::new(), TokenizerState::ParseEscapeChar(s)),
        _ => continue_string_state(s, c),
    }
}

/// The tokens of `vec`, then what the initial state does with `c`.
fn transfer_state(vec: Vec<JsonToken>, c: char, maps: &TransitionMaps) -> (r: (Vec<JsonToken>, TokenizerState))
    requires
        maps.wf(),
    ensures
        r.0@.len() >= vec@.len(),
        r.0@.take(vec@.len() as int) == vec@,
        initial_step(c, r.0@.skip(vec@.len() as int), r.1),
        r.1.wf(),
{
    let mut vec = vec;
    let (next_tokens, state) = push_initial(c, maps);
    let ghost before = vec@;
    let ghost added = next_tokens@;
    let mut next_tokens = next_tokens;
    vec.append(&mut next_tokens);
    proof {
        assert(vec@ =~= before + added);
        assert(vec@.take(before.len() as int) =~= before);
        assert(vec@.skip(before.len() as int) =~= added);
    }
    (vec, state)
}

/// The error token, then what a string state with the text `s` does with `c`.
fn error_then_string(error: ErrorType, s: String, c: char, maps: &TransitionMaps) -> (r: (Vec<JsonToken>, TokenizerState))
    requires
        maps.wf(),
    ensures
        r.0@.len() >= 1,
        r.0@[0] == JsonToken::ErrorToken(error),
        string_step(s@, c, r.0@.drop_first(), r.1),
        r.1.wf(),
{
    let ghost text = s@;
    let (tokens, state) = push_string(s, c, maps);
    let ghost added = tokens@;
    let mut result = vec![JsonToken::ErrorToken(error)];
    let mut tokens = tokens;
    result.append(&mut tokens);
    proof {
        assert(result@.drop_first() =~= added);
    }
    (result, state)
}

impl ParseUnicodeCharState {
    /// Adds the hexadecimal digit `i` at its place; after the fourth digit, the code point
    /// goes into the string, or an invalid escape is reported.
    fn push(self, i: u32) -> (r: (Vec<JsonToken>, TokenizerState))
        requires
            self.index <= 3,
            i < 16,
        ensures
            self.index == 3 ==> (if crate::range_map::is_char_code(unicode_after(self, i) as int) {
                r.0@.len() == 0 && (r.1 matches TokenizerState::ParseString(t) && t@ == self.s@.push(
                    unicode_after(self, i) as char,
                ))
            } else {
                r.0@ =~= seq![JsonToken::ErrorToken(ErrorType::InvalidHex)] && r.1
                    == TokenizerState::Initial
            }),
            self.index < 3 ==> r.0@.len() == 0 && (r.1 matches TokenizerState::ParseUnicodeChar(n)
                && n.s == self.s && n.unicode == unicode_after(self, i) && n.index == self.index + 1),
            r.1.wf(),
    {
        let shift: u32 = ((3 - self.index) as u32) * 4;
        let new_unicode = self.unicode | (i << shift);
        assert(new_unicode == unicode_after(self, i));
        if self.index == 3 {
            match char::from_u32(new_unicode) {
                Some(c) => continue_string_state(self.s, c),
                None => (vec![JsonToken::ErrorToken(ErrorType::InvalidHex)], TokenizerState::Initial),
            }
        } else {
            let mut next = self;
            next.unicode = new_unicode;
            next.index = next.index + 1;
            (Vec::new(), TokenizerState::ParseUnicodeChar(next))
        }
    }
}

/// The tokens of `first`, then what the initial state does with `c`.
fn emit_then_initial(first: JsonToken, c: char, maps: &TransitionMaps) -> (r: (Vec<JsonToken>, TokenizerState))
    requires
        maps.wf(),
    ensures
        r.0@.len() >= 1,
        r.0@[0] == first,
        initial_step(c, r.0@.drop_first(), r.1),
        r.1.wf(),
{
    let ghost f = first;
    let r = transfer_state(vec![first], c, maps);
    proof {
        assert(r.0@.take(1)[0] == f);
        assert(r.0@.skip(1) =~= r.0@.drop_first());
    }
    r
}

/// The invalid-number error, then what the initial state does with `c`.
fn tokenize_invalid_number(c: char, maps: &TransitionMaps) -> (r: (Vec<JsonToken>, TokenizerState))
    requires
        maps.wf(),
    ensures
        invalid_number(c, r.0@, r.1),
        r.1.wf(),
{
    emit_then_initial(JsonToken::ErrorToken(ErrorType::InvalidNumber), c, maps)
}

impl TokenizerState {
    /// Reads the character `c`: the tokens it completes, and the state that follows.
    pub fn push(self, c: char, maps: &TransitionMaps) -> (r: (Vec<JsonToken>, TokenizerState))
        requires
            maps.wf(),
            self.wf(),
            self.can_push(c),
        ensures
            push_step(self, c, r.0@, r.1),
            r.1.wf(),
    {
        match self {
            TokenizerState::Initial => push_initial(c, maps),
            TokenizerState::ParseId(s) => {
                match next_action(&maps.id, c) {
                    Action::ContinueId => {
                        let mut s = s;
                        push_char(&mut s, c);
                        (Vec::new(), TokenizerState::ParseId(s))
                    },
                    _ => emit_then_initial(JsonToken::Id(s), c, maps),
                }
            },
            TokenizerState::ParseString(s) => push_string(s, c, maps),
            TokenizerState::ParseEscapeChar(s) => {
                match next_action(&maps.escape_char, c) {
                    Action::EscapeSelf => continue_string_state(s, c),
                    Action::Escape(x) => continue_string_state(s, x),
                    Action::StartUnicode => (
                        Vec::new(),
                        TokenizerState::ParseUnicodeChar(ParseUnicodeCharState { s, unicode: 0, index: 0 }),
                    ),
                    _ => error_then_string(ErrorType::UnexpectedCharacter, s, c, maps),
                }
            },
            TokenizerState::ParseUnicodeChar(st) => {
                match next_action(&maps.unicode_char, c) {
                    Action::Hex(base) => {
                        let i = c as u32 - base;
                        st.push(i)
                    },
                    _ => error_then_string(ErrorType::InvalidHex, st.s, c, maps),
                }
            },
            TokenizerState::ParseMinus => {
                match next_action(&maps.minus, c) {
                    Action::MinusZero => (Vec::new(), TokenizerState::ParseZero(Sign::Negative)),
                    Action::MinusInt => (
                        Vec::new(),
                        TokenizerState::ParseInt(start_number(Sign::Negative, c)),
                    ),
                    _ => tokenize_invalid_number(c, maps),
                }
            },
            TokenizerState::ParseZero(sign) => {
                match next_action(&maps.zero, c) {
                    Action::ZeroFrac => (
                        Vec::new(),
                        TokenizerState::ParseFracBegin(BigInt { sign, value: BigUint::zero() }),
                    ),
                    Action::ZeroExp => (
                        Vec::new(),
                        TokenizerState::ParseExpBegin(
                            ExpState {
                                b: BigInt { sign, value: BigUint::zero() },
                                fe: 0,
                                es: Sign::Positive,
                                e: 0,
                            },
                        ),
                    ),
                    Action::ZeroBigInt => (
                        Vec::new(),
                        TokenizerState::ParseBigInt(BigInt { sign, value: BigUint::zero() }),
                    ),
                    Action::ZeroEnd => emit_then_initial(JsonToken::Number(BigFloat::zero()), c, maps),
                    _ => tokenize_invalid_number(c, maps),
                }
            },
            TokenizerState::ParseInt(b) => {
                match next_action(&maps.int, c) {
                    Action::IntDigit => (Vec::new(), TokenizerState::ParseInt(b.add_digit(c))),
                    Action::IntFrac => (Vec::new(), TokenizerState::ParseFracBegin(b)),
                    Action::IntExp => (Vec::new(), TokenizerState::ParseExpBegin(b.into_exp_state())),
                    Action::IntBigInt => (Vec::new(), TokenizerState::ParseBigInt(b)),
                    Action::IntEnd => emit_then_initial(b.into_token(), c, maps),
                    _ => tokenize_invalid_number(c, maps),
                }
            },
            TokenizerState::ParseFracBegin(b) => {
                match next_action(&maps.frac_begin, c) {
                    Action::FracBeginDigit => (
                        Vec::new(),
                        TokenizerState::ParseFrac(b.into_float_state().add_digit(c)),
                    ),
                    _ => tokenize_invalid_number(c, maps),
                }
            },
            TokenizerState::ParseFrac(f) => {
                match next_action(&maps.frac, c) {
                    Action::FracDigit => (Vec::new(), TokenizerState::ParseFrac(f.add_digit(c))),
                    Action::FracExp => (Vec::new(), TokenizerState::ParseExpBegin(f.into_exp_state())),
                    Action::FracEnd => emit_then_initial(f.into_token(), c, maps),
                    _ => tokenize_invalid_number(c, maps),
                }
            },
            TokenizerState::ParseExpBegin(s) => {
                match next_action(&maps.exp_begin, c) {
                    Action::ExpDigit => (Vec::new(), TokenizerState::ParseExp(s.add_digit(c))),
                    Action::ExpPlus => (Vec::new(), TokenizerState::ParseExpSign(s)),
                    Action::ExpMinus => {
                        let mut s = s;
                        s.es = Sign::Negative;
                        (Vec::new(), TokenizerState::ParseExpSign(s))
                    },
                    Action::ExpEnd => emit_then_initial(s.into_token(), c, maps),
                    _ => tokenize_invalid_number(c, maps),
                }
            },
            TokenizerState::ParseExpSign(s) | TokenizerState::ParseExp(s) => {
                match next_action(&maps.exp, c) {
                    Action::ExpDigit => (Vec::new(), TokenizerState::ParseExp(s.add_digit(c))),
                    Action::ExpEnd => emit_then_initial(s.into_token(), c, maps),
                    _ => tokenize_invalid_number(c, maps),
                }
            },
            TokenizerState::ParseBigInt(b) => {
                match next_action(&maps.big_int, c) {
                    Action::BigIntEnd => emit_then_initial(b.into_token(), c, maps),
                    _ => tokenize_invalid_number(c, maps),
                }
            },
            TokenizerState::ParseNewLine => {
                match next_action(&maps.new_line, c) {
                    Action::NewLineSkip => (Vec::new(), TokenizerState::ParseNewLine),
                    _ => emit_then_initial(JsonToken::NewLine, c, maps),
                }
            },
            TokenizerState::ParseCommentStart => {
                match next_action(&maps.comment_start, c) {
                    Action::StartSingleLineComment => (Vec::new(), TokenizerState::ParseSinglelineComment),
                    Action::StartMultiLineComment => (Vec::new(), TokenizerState::ParseMultilineComment),
                    _ => (
                        vec![JsonToken::ErrorToken(ErrorType::UnexpectedCharacter)],
                        TokenizerState::Initial,
                    ),
                }
            },
            TokenizerState::ParseSinglelineComment => {
                match next_action(&maps.singleline_comment, c) {
                    Action::EndSingleLineComment => (Vec::new(), TokenizerState::ParseNewLine),
                    _ => (Vec::new(), TokenizerState::ParseSinglelineComment),
                }
            },
            TokenizerState::ParseMultilineComment => {
                match next_action(&maps.multiline_comment, c) {
                    Action::MultiLineCommentAsterisk => (
                        Vec::new(),
                        TokenizerState::ParseMultilineCommentAsterix,
                    ),
                    _ => (Vec::new(), TokenizerState::ParseMultilineComment),
                }
            },
            TokenizerState::ParseMultilineCommentAsterix => {
                match next_action(&maps.multiline_comment_asterix, c) {
                    Action::EndMultiLineComment => (Vec::new(), TokenizerState::Initial),
                    Action::MultiLineCommentAsterisk => (
                        Vec::new(),
                        TokenizerState::ParseMultilineCommentAsterix,
                    ),
                    _ => (Vec::new(), TokenizerState::ParseMultilineComment),
                }
            },
            TokenizerState::ParseOperator(s) => {
                match next_action(&maps.operator, c) {
                    Action::OperatorNext => {
                        let mut next_string = s.clone();
                        push_char(&mut next_string, c);
                        match operator_to_token(next_string) {
                            Some(_) => {
                                let mut next_string = s.clone();
                                push_char(&mut next_string, c);
                                (Vec::new(), TokenizerState::ParseOperator(next_string))
                            },
                            None => {
                                let token = operator_to_token(s).unwrap();
                                emit_then_initial(token, c, maps)
                            },
                        }
                    },
                    _ => {
                        let token = operator_to_token(s).unwrap();
                        emit_then_initial(token, c, maps)
                    },
                }
            },
        }
    }

    /// Reads the character `c` in place: the state moves on and the completed tokens are
    /// returned.
    pub fn push_mut(&mut self, c: char, maps: &TransitionMaps) -> (r: Vec<JsonToken>)
        requires
            maps.wf(),
            old(self).wf(),
            old(self).can_push(c),
        ensures
            push_step(*old(self), c, r@, *final(self)),
            final(self).wf(),
    {
        let mut state = TokenizerState::Initial;
        core::mem::swap(self, &mut state);
        let (tokens, next) = state.push(c, maps);
        *self = next;
        tokens
    }

    /// The tokens that the state still holds when the input ends.
    pub fn end(self) -> (r: Vec<JsonToken>)
        requires
            self.wf(),
            self.can_end(),
        ensures
            end_tokens(self, r@),
    {
        match self {
            TokenizerState::Initial | TokenizerState::ParseNewLine
            | TokenizerState::ParseSinglelineComment => Vec::new(),
            TokenizerState::ParseId(s) => vec![JsonToken::Id(s)],
            TokenizerState::ParseString(_) | TokenizerState::ParseEscapeChar(_)
            | TokenizerState::ParseUnicodeChar(_) => vec![JsonToken::ErrorToken(ErrorType::MissingQuotes)],
            TokenizerState::ParseCommentStart => vec![JsonToken::ErrorToken(ErrorType::UnexpectedCharacter)],
            TokenizerState::ParseMultilineComment | TokenizerState::ParseMultilineCommentAsterix => vec![JsonToken::ErrorToken(ErrorType::CommentClosingExpected)],
            TokenizerState::ParseZero(_) => vec![JsonToken::Number(BigFloat::zero())],
            TokenizerState::ParseInt(s) => vec![s.into_token()],
            TokenizerState::ParseFrac(s) => vec![s.into_token()],
            TokenizerState::ParseExp(s) => vec![s.into_token()],
            TokenizerState::ParseBigInt(s) => vec![s.into_big_int_token()],
            TokenizerState::ParseMinus | TokenizerState::ParseFracBegin(_)
            | TokenizerState::ParseExpBegin(_) | TokenizerState::ParseExpSign(_) => vec![JsonToken::ErrorToken(ErrorType::InvalidNumber)],
            TokenizerState::ParseOperator(s) => vec![operator_to_token(s).unwrap()],
        }
    }
}

} // verus!

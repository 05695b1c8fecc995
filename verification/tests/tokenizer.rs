use nanvm_lib::big_float::{bigfloat_to_f64_bits, BigFloat};
use nanvm_lib::big_int::{BigInt, Sign};
use nanvm_lib::big_uint::BigUint;
use nanvm_lib::tokenizer::maps::create_transition_maps;
use nanvm_lib::tokenizer::run::tokenize as tokenize_tokens;
use nanvm_lib::tokenizer::state::{ErrorType, JsonToken, TokenizerState};

/// A token as the tests compare it: numbers by the `f64` they convert to.
#[derive(Debug, PartialEq)]
enum T {
    Tok(JsonToken),
    Num(f64),
}

fn to_f64(f: BigFloat<10>) -> f64 {
    f64::from_bits(bigfloat_to_f64_bits(f))
}

fn tokenize_raw(input: &str) -> Vec<JsonToken> {
    tokenize_tokens(String::from(input))
}

fn tokenize_by_pushes(input: &str) -> Vec<JsonToken> {
    let maps = create_transition_maps();
    let mut state = TokenizerState::default();
    let mut tokens = Vec::new();
    for c in input.chars() {
        tokens.extend(state.push_mut(c, &maps));
    }
    tokens.extend(std::mem::take(&mut state).end());
    tokens
}

fn tokenize(input: &str) -> Vec<T> {
    tokenize_raw(input)
        .into_iter()
        .map(|t| match t {
            JsonToken::Number(f) => T::Num(to_f64(f)),
            t => T::Tok(t),
        })
        .collect()
}

fn tok(t: JsonToken) -> T {
    T::Tok(t)
}

fn id(s: &str) -> T {
    T::Tok(JsonToken::Id(String::from(s)))
}

fn string(s: &str) -> T {
    T::Tok(JsonToken::String(String::from(s)))
}

fn err(e: ErrorType) -> T {
    T::Tok(JsonToken::ErrorToken(e))
}

fn big(sign: Sign, value: Vec<u64>) -> T {
    T::Tok(JsonToken::BigInt(BigInt { sign, value: BigUint { value } }))
}

#[test]
fn test_empty() {
    assert_eq!(tokenize("").len(), 0);
}

#[test]
fn test_ops() {
    assert_eq!(tokenize("{")[0], tok(JsonToken::ObjectBegin));
    assert_eq!(tokenize("}"), vec![tok(JsonToken::ObjectEnd)]);
    assert_eq!(tokenize("["), vec![tok(JsonToken::ArrayBegin)]);
    assert_eq!(tokenize("]"), vec![tok(JsonToken::ArrayEnd)]);
    assert_eq!(tokenize(":"), vec![tok(JsonToken::Colon)]);
    assert_eq!(tokenize(","), vec![tok(JsonToken::Comma)]);
    assert_eq!(tokenize("="), vec![tok(JsonToken::Equals)]);
    assert_eq!(tokenize("."), vec![tok(JsonToken::Dot)]);
    assert_eq!(tokenize(";"), vec![tok(JsonToken::Semicolon)]);
    assert_eq!(
        tokenize("()"),
        vec![tok(JsonToken::OpeningParenthesis), tok(JsonToken::ClosingParenthesis)]
    );
    assert_eq!(
        tokenize("[{ :, }]"),
        vec![
            tok(JsonToken::ArrayBegin),
            tok(JsonToken::ObjectBegin),
            tok(JsonToken::Colon),
            tok(JsonToken::Comma),
            tok(JsonToken::ObjectEnd),
            tok(JsonToken::ArrayEnd)
        ]
    );
}

#[test]
fn test_id() {
    assert_eq!(tokenize("true"), vec![id("true")]);
    assert_eq!(tokenize("false"), vec![id("false")]);
    assert_eq!(tokenize("null"), vec![id("null")]);
    assert_eq!(tokenize("tru tru"), vec![id("tru"), id("tru")]);
    assert_eq!(tokenize("ABCxyz_0123456789$"), vec![id("ABCxyz_0123456789$")]);
    assert_eq!(tokenize("_"), vec![id("_")]);
    assert_eq!(tokenize("$"), vec![id("$")]);
}

#[test]
fn test_whitespace() {
    assert_eq!(tokenize(" \t\n\r"), vec![]);
}

#[test]
fn test_string() {
    assert_eq!(tokenize("\"\""), vec![string("")]);
    assert_eq!(tokenize("\"value\""), vec![string("value")]);
    assert_eq!(tokenize("\"value1\" \"value2\""), vec![string("value1"), string("value2")]);
    assert_eq!(tokenize("\"value"), vec![err(ErrorType::MissingQuotes)]);
}

#[test]
fn test_escaped_characters() {
    assert_eq!(tokenize("\"\\b\\f\\n\\r\\t\""), vec![string("\u{8}\u{c}\n\r\t")]);
    assert_eq!(
        tokenize("\"\\x\""),
        vec![err(ErrorType::UnexpectedCharacter), string("x")]
    );
    assert_eq!(tokenize("\"\\"), vec![err(ErrorType::MissingQuotes)]);
}

#[test]
fn test_unicode() {
    assert_eq!(tokenize("\"\\u1234\""), vec![string("ሴ")]);
    assert_eq!(tokenize("\"\\uaBcDEeFf\""), vec![string("ꯍEeFf")]);
    assert_eq!(tokenize("\"\\uEeFg\""), vec![err(ErrorType::InvalidHex), string("g")]);
    assert_eq!(tokenize("\"\\uEeF"), vec![err(ErrorType::MissingQuotes)]);
}

#[test]
fn mod_test_integer() {
    assert_eq!(tokenize("0"), vec![T::Num(0.0)]);
    assert_eq!(tokenize("-0"), vec![T::Num(0.0)]);
    assert_eq!(tokenize("0abc"), vec![err(ErrorType::InvalidNumber), id("abc")]);
    assert_eq!(tokenize("0. 2"), vec![err(ErrorType::InvalidNumber), T::Num(2.0)]);
    assert_eq!(tokenize("1234567890"), vec![T::Num(1234567890.0)]);
    assert_eq!(tokenize("-1234567890"), vec![T::Num(-1234567890.0)]);
    assert_eq!(
        tokenize("[0,1]"),
        vec![
            tok(JsonToken::ArrayBegin),
            T::Num(0.0),
            tok(JsonToken::Comma),
            T::Num(1.0),
            tok(JsonToken::ArrayEnd)
        ]
    );
    assert_eq!(
        tokenize("001"),
        vec![err(ErrorType::InvalidNumber), err(ErrorType::InvalidNumber), T::Num(1.0)]
    );
    assert_eq!(tokenize("-"), vec![err(ErrorType::InvalidNumber)]);
    assert_eq!(
        tokenize("-{}"),
        vec![err(ErrorType::InvalidNumber), tok(JsonToken::ObjectBegin), tok(JsonToken::ObjectEnd)]
    );
    assert_eq!(tokenize("9007199254740991"), vec![T::Num(9007199254740991.0)]);
    assert_eq!(tokenize("9007199254740992"), vec![T::Num(9007199254740992.0)]);
    assert_eq!(tokenize("9007199254740993"), vec![T::Num(9007199254740993.0)]);
}

#[test]
fn test_big_float() {
    let expected = to_f64(BigFloat {
        significand: BigInt { sign: Sign::Positive, value: BigUint { value: vec![0, 0, 1] } },
        exp: 0,
        non_zero_reminder: false,
    });
    assert_eq!(tokenize("340282366920938463463374607431768211456"), vec![T::Num(expected)]);
}

#[test]
fn mod_test_float() {
    assert_eq!(tokenize("0.01"), vec![T::Num(0.01)]);
    assert_eq!(
        tokenize("[-12.34]"),
        vec![tok(JsonToken::ArrayBegin), T::Num(-12.34), tok(JsonToken::ArrayEnd)]
    );
}

#[test]
fn test_infinity() {
    assert_eq!(tokenize("1e1000"), vec![T::Num(f64::INFINITY)]);
    assert_eq!(tokenize("-1e+1000"), vec![T::Num(f64::NEG_INFINITY)]);
}

#[test]
fn test_exp() {
    assert_eq!(tokenize("1e2"), vec![T::Num(1e2)]);
    assert_eq!(tokenize("1E+2"), vec![T::Num(1e2)]);
    assert_eq!(tokenize("0e-2"), vec![T::Num(0.0)]);
    assert_eq!(tokenize("1e-2"), vec![T::Num(1e-2)]);
    assert_eq!(tokenize("1.2e+2"), vec![T::Num(1.2e+2)]);
    assert_eq!(tokenize("12e0000"), vec![T::Num(12.0)]);
    assert_eq!(tokenize("1e"), vec![err(ErrorType::InvalidNumber)]);
    assert_eq!(tokenize("1e+"), vec![err(ErrorType::InvalidNumber)]);
    assert_eq!(tokenize("1e-"), vec![err(ErrorType::InvalidNumber)]);
}

#[test]
fn test_big_int() {
    assert_eq!(tokenize("0n"), vec![big(Sign::Positive, vec![])]);
    assert_eq!(tokenize("-0n"), vec![big(Sign::Negative, vec![])]);
    assert_eq!(tokenize("1234567890n"), vec![big(Sign::Positive, vec![1234567890])]);
    assert_eq!(tokenize("-1234567890n"), vec![big(Sign::Negative, vec![1234567890])]);
    assert_eq!(tokenize("123.456n"), vec![err(ErrorType::InvalidNumber), id("n")]);
    assert_eq!(tokenize("123e456n"), vec![err(ErrorType::InvalidNumber), id("n")]);
    assert_eq!(tokenize("1234567890na"), vec![err(ErrorType::InvalidNumber), id("a")]);
    assert_eq!(tokenize("1234567890nn"), vec![err(ErrorType::InvalidNumber), id("n")]);
}

#[test]
fn test_errors() {
    assert_eq!(tokenize("ᄑ"), vec![err(ErrorType::UnexpectedCharacter)]);
}

#[test]
fn mod_test_djs() {
    assert_eq!(
        tokenize("module.exports = "),
        vec![id("module"), tok(JsonToken::Dot), id("exports"), tok(JsonToken::Equals)]
    );
}

#[test]
fn test_singleline_comments() {
    assert_eq!(
        tokenize("{//abc\n2\n}"),
        vec![
            tok(JsonToken::ObjectBegin),
            tok(JsonToken::NewLine),
            T::Num(2.0),
            tok(JsonToken::NewLine),
            tok(JsonToken::ObjectEnd)
        ]
    );
    assert_eq!(tokenize("0//abc/*"), vec![T::Num(0.0)]);
    assert_eq!(tokenize("0//"), vec![T::Num(0.0)]);
    assert_eq!(tokenize("0/"), vec![T::Num(0.0), err(ErrorType::UnexpectedCharacter)]);
    assert_eq!(tokenize("0/a"), vec![T::Num(0.0), err(ErrorType::UnexpectedCharacter)]);
}

#[test]
fn test_multiline_comments() {
    assert_eq!(
        tokenize("{/*abc\ndef*/2}"),
        vec![tok(JsonToken::ObjectBegin), T::Num(2.0), tok(JsonToken::ObjectEnd)]
    );
    assert_eq!(
        tokenize("{/*/* /**/2}"),
        vec![tok(JsonToken::ObjectBegin), T::Num(2.0), tok(JsonToken::ObjectEnd)]
    );
    assert_eq!(
        tokenize("{/*"),
        vec![tok(JsonToken::ObjectBegin), err(ErrorType::CommentClosingExpected)]
    );
    assert_eq!(
        tokenize("{/**"),
        vec![tok(JsonToken::ObjectBegin), err(ErrorType::CommentClosingExpected)]
    );
}

#[test]
fn numbers_are_held_exactly() {
    let tokens = tokenize_raw("-12.34e5");
    assert_eq!(tokens.len(), 1);
    match &tokens[0] {
        JsonToken::Number(f) => {
            assert_eq!(f.significand, BigInt::from_i64(-1234));
            assert_eq!(f.exp, 3);
            assert!(!f.non_zero_reminder);
        }
        t => panic!("not a number: {:?}", t),
    }
}

#[test]
fn big_int_followed_by_a_separator_becomes_a_number() {
    assert_eq!(tokenize("12n,"), vec![T::Num(12.0), tok(JsonToken::Comma)]);
}

#[test]
fn operators_and_exponent_signs() {
    assert_eq!(tokenize("5e-1 "), vec![T::Num(0.5)]);
    assert_eq!(tokenize("1e "), vec![T::Num(1.0)]);
    assert_eq!(tokenize("\\"), vec![err(ErrorType::UnexpectedCharacter)]);
}

#[test]
fn tokenize_matches_pushing_each_character() {
    for input in ["{\"a\": [1, 2.5e-3, -0n]}", "x = 0. 1e+", "\"\\u12", "/* a */ b // c\n"] {
        assert_eq!(tokenize_raw(input), tokenize_by_pushes(input));
    }
}

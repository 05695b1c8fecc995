use nanvm_lib::serializer::WriteJson;
use nanvm_lib::parser::shared::{DataType, ParseError, ParsingStatus};

#[test]
fn data_type_to_djs() {
    assert_eq!(DataType::Json.to_djs(), DataType::Djs);
    assert_eq!(DataType::Djs.to_djs(), DataType::Djs);
    assert_eq!(DataType::Cjs.to_djs(), DataType::Cjs);
    assert_eq!(DataType::Mjs.to_djs(), DataType::Mjs);
}

#[test]
fn data_type_flags() {
    assert!(!DataType::Json.is_djs());
    assert!(DataType::Djs.is_djs() && DataType::Cjs.is_djs() && DataType::Mjs.is_djs());
    assert!(DataType::Json.is_cjs_compatible() && DataType::Djs.is_cjs_compatible());
    assert!(DataType::Cjs.is_cjs_compatible() && !DataType::Mjs.is_cjs_compatible());
    assert!(DataType::Json.is_mjs_compatible() && DataType::Djs.is_mjs_compatible());
    assert!(DataType::Mjs.is_mjs_compatible() && !DataType::Cjs.is_mjs_compatible());
    assert_eq!(DataType::default(), DataType::Json);
}

#[test]
fn parse_error_text() {
    assert_eq!(ParseError::UnexpectedToken.to_string(), "UnexpectedToken");
    assert_eq!(ParseError::CircularDependency.to_string(), "CircularDependency");
    assert_eq!(ParseError::NewLineExpected.to_string(), "NewLineExpected");
    assert_eq!(ParsingStatus::default(), ParsingStatus::Initial);
}

#[test]
fn write_js_string_escapes() {
    let units: Vec<u16> = vec!['a' as u16, '\\' as u16, 'b' as u16, '"' as u16, 31];
    let mut s = String::new();
    s.write_js_string(&units);
    assert_eq!(s, r#""a\\b\"\u001F""#);

    let mut s = String::new();
    s.write_js_string(&[8, 12, 10, 13, 9, 0x41, 0x263A]);
    assert_eq!(s, r#""\b\f\n\r\tA\u263A""#);

    let mut s = String::from("x");
    s.write_js_escape(0xABCD);
    s.write_u4_hex(0x1F);
    assert_eq!(s, r"x\uABCDF");
}

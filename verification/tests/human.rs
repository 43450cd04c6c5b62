use valuable_value::human::de::{read_value, DecodeError, Parsed};
use valuable_value::human::lex::{read_float, read_int, read_number, read_spaces, FloatLiteral, Number};
use valuable_value::human::ser::{finite_floats, to_vec, EncodeError};
use valuable_value::human::strings::{read_byte_string, read_string};
use valuable_value::parser_helper::{Error, Reason};
use valuable_value::value::Value;
use valuable_value::value::Value::{Array, Bool, Float, Int, Mapping, Nil};

fn error(position: usize, why: DecodeError) -> Error<DecodeError> {
    Error { position, reason: Reason::Other(why) }
}

fn ints(ns: &[i64]) -> Parsed {
    Parsed::Array(ns.iter().map(|n| Parsed::Int(*n)).collect())
}

/// Parses a whole value and turns its decimal float literals into floats.
fn decode(text: &[u8]) -> Result<Value, Error<DecodeError>> {
    let (parsed, _) = read_value(text, 0)?;
    let bits: Vec<u64> = parsed
        .float_texts()
        .iter()
        .map(|t| std::str::from_utf8(t).unwrap().parse::<f64>().unwrap().to_bits())
        .collect();
    Ok(parsed.to_value(&bits).unwrap())
}

/// Encodes a value, with the shortest decimal text of each finite float.
fn encode(v: &Value, indent: usize) -> String {
    let texts: Vec<Vec<u8>> = finite_floats(v)
        .iter()
        .map(|b| {
            let x = f64::from_bits(*b);
            let mut t = format!("{}", x);
            if !t.contains('.') && !t.contains('e') {
                t.push_str(".0");
            }
            t.into_bytes()
        })
        .collect();
    String::from_utf8(to_vec(v, indent, &texts).unwrap()).unwrap()
}

#[test]
fn spaces_and_comments() {
    assert_eq!(read_spaces(b" \t\r\n x", 0), Ok(((), 5)));
    assert_eq!(read_spaces(b"# a comment\n  nil", 0), Ok(((), 14)));
    assert_eq!(read_spaces(b"#no newline", 0), Ok(((), 11)));
    assert_eq!(read_spaces(b"x", 0), Ok(((), 0)));
    assert_eq!(read_spaces(b"  #\xFF\n", 0), Err(error(2, DecodeError::CommentUtf8)));
}

#[test]
fn int_literals() {
    assert_eq!(read_int(b"0", 0), Ok((0, 1)));
    assert_eq!(read_int(b"-17,", 0), Ok((-17, 3)));
    assert_eq!(read_int(b"+1_000__", 0), Ok((1000, 8)));
    assert_eq!(read_int(b"0x7f", 0), Ok((127, 4)));
    assert_eq!(read_int(b"0XfF_", 0), Ok((255, 5)));
    assert_eq!(read_int(b"0b1_01", 0), Ok((5, 6)));
    assert_eq!(read_int(b"0B11", 0), Ok((3, 4)));
    assert_eq!(read_int(b"0012", 0), Ok((12, 4)));
    assert_eq!(read_int(b"9223372036854775807", 0), Ok((i64::MAX, 19)));
    assert_eq!(read_int(b"-9223372036854775808", 0), Ok((i64::MIN, 20)));
    assert_eq!(read_int(b"9223372036854775808", 0), Err(error(19, DecodeError::OutOfBoundsI64)));
    assert_eq!(read_int(b"-9223372036854775809", 0), Err(error(20, DecodeError::OutOfBoundsI64)));
    assert_eq!(read_int(b"0x8000000000000000", 0), Err(error(18, DecodeError::OutOfBoundsI64)));
    assert_eq!(read_int(b"-", 0), Err(error(1, DecodeError::Eoi)));
    assert_eq!(read_int(b"-x", 0), Err(error(1, DecodeError::IntDigits)));
    assert_eq!(read_int(b"_1", 0), Err(error(0, DecodeError::ExpectedInt)));
    assert_eq!(read_int(b"0x_1", 0), Err(error(2, DecodeError::IntDigits)));
    assert_eq!(read_int(b"0b2", 0), Err(error(2, DecodeError::IntDigits)));
    // A sign before a prefix leaves the prefix unread.
    assert_eq!(read_int(b"-0x10", 0), Ok((0, 2)));
}

#[test]
fn de_floats() {
    let (f, end) = read_float(b"00_6____.2_7E2_", 0).unwrap();
    assert_eq!(end, 15);
    assert_eq!(f, FloatLiteral::Decimal(b"006.27E2".to_vec()));
    assert_eq!(std::str::from_utf8(b"006.27E2").unwrap().parse::<f64>().unwrap(), 6.27e2f64);

    let f = valuable_value::human::api::VVDeserializer::new(b"00_6____.2_7E2_").deserialize_f64().unwrap();
    assert_eq!(f, FloatLiteral::Decimal(b"006.27E2".to_vec()));

    assert_eq!(read_int(b"0", 0), Ok((0, 1)));
    assert_eq!(valuable_value::human::api::VVDeserializer::new(b"0").deserialize_i16().unwrap(), 0);
    for text in [&b"0."[..], b".0", b"0.0E", b"_0.0", b"0._"] {
        assert!(read_float(text, 0).is_err());
        assert!(valuable_value::human::api::VVDeserializer::new(text).deserialize_f64().is_err());
    }
}

#[test]
fn float_literals() {
    assert_eq!(read_float(b"Inf", 0), Ok((FloatLiteral::Inf, 3)));
    assert_eq!(read_float(b"+Inf", 0), Ok((FloatLiteral::Inf, 4)));
    assert_eq!(read_float(b"-Inf", 0), Ok((FloatLiteral::NegInf, 4)));
    assert_eq!(read_float(b"NaN", 0), Ok((FloatLiteral::NaN, 3)));
    assert_eq!(read_float(b"-NaN", 0), Err(error(1, DecodeError::ExpectedFloat)));
    assert_eq!(read_float(b"-1.5e-3]", 0), Ok((FloatLiteral::Decimal(b"-1.5e-3".to_vec()), 7)));
    assert_eq!(read_float(b"1.5", 0), Ok((FloatLiteral::Decimal(b"1.5".to_vec()), 3)));
    assert_eq!(read_float(b"0.", 0), Err(error(2, DecodeError::Eoi)));
    assert_eq!(read_float(b"0.x", 0), Err(error(2, DecodeError::FloatTrailingDigits)));
    assert_eq!(read_float(b"0x", 0), Err(error(1, DecodeError::FloatPoint)));
    assert_eq!(read_float(b".0", 0), Err(error(0, DecodeError::ExpectedFloat)));
    assert_eq!(read_float(b"+.0", 0), Err(error(1, DecodeError::FloatLeadingDigits)));
    assert_eq!(read_float(b"0.0E", 0), Err(error(4, DecodeError::Eoi)));
    assert_eq!(read_float(b"0.0E+ ", 0), Err(error(5, DecodeError::FloatExponentDigit)));
    assert_eq!(read_float(b"Ink", 0), Err(error(0, DecodeError::ExpectedFloat)));
}

#[test]
fn number_literals() {
    assert_eq!(read_number(b"12", 0), Ok((Number::I(12), 2)));
    assert_eq!(read_number(b"12.5", 0), Ok((Number::F(FloatLiteral::Decimal(b"12.5".to_vec())), 4)));
    assert_eq!(read_number(b"-1_2.5_", 0), Ok((Number::F(FloatLiteral::Decimal(b"-12.5".to_vec())), 7)));
    assert_eq!(read_number(b"0x10", 0), Ok((Number::I(16), 4)));
    assert_eq!(read_number(b"-Inf", 0), Ok((Number::F(FloatLiteral::NegInf), 4)));
    assert_eq!(read_number(b"NaN", 0), Ok((Number::F(FloatLiteral::NaN), 3)));
    assert_eq!(read_number(b"1.", 0), Err(error(2, DecodeError::Eoi)));
    assert_eq!(read_number(b"+", 0), Err(error(1, DecodeError::Eoi)));
    assert_eq!(read_number(b"+a", 0), Err(error(1, DecodeError::IntDigits)));
}

#[test]
fn string_literals() {
    assert_eq!(read_string(b"\"A\"", 0), Ok((b"A".to_vec(), 3)));
    assert_eq!(read_string(b"\"\\{41}\"", 0), Ok((b"A".to_vec(), 7)));
    assert_eq!(read_string(b"@@\"A\"@@", 0), Ok((b"A".to_vec(), 7)));
    assert_eq!(read_string(b"@\"a\"b\"@", 0), Ok((b"a\"b".to_vec(), 7)));
    assert_eq!(read_string(b"\"\\0\\n\\r\\t\\\\\\\"\"", 0), Ok((vec![0, 10, 13, 9, 0x5c, 0x22], 14)));
    assert_eq!(read_string("\"ä€😀\"".as_bytes(), 0), Ok(("ä€😀".as_bytes().to_vec(), 11)));
    assert_eq!(read_string(b"\"\\{e4}\\{20AC}\\{1F600}\"", 0), Ok(("ä€😀".as_bytes().to_vec(), 22)));
    assert_eq!(read_string(b"\"abc", 0), Err(error(4, DecodeError::Eoi)));
    assert_eq!(read_string(b"\"\\x\"", 0), Err(error(3, DecodeError::Utf8StringEscape)));
    assert_eq!(read_string(b"\"\\{}\"", 0), Err(error(3, DecodeError::UnicodeDigits)));
    assert_eq!(read_string(b"\"\\{1234567}\"", 0), Err(error(10, DecodeError::UnicodeDigits)));
    assert_eq!(read_string(b"\"\\{D800}\"", 0), Err(error(7, DecodeError::UnicodeScalar)));
    assert_eq!(read_string(b"\"\\{41\"", 0), Err(error(5, DecodeError::UnicodeClosing)));
    assert_eq!(read_string(b"\"\xFF\"", 0), Err(error(2, DecodeError::Utf8StringUtf8)));
    assert_eq!(read_string(b"\"\xC0\x80\"", 0), Err(error(3, DecodeError::Utf8StringUtf8)));
    assert_eq!(read_string(b"x", 0), Err(error(0, DecodeError::ExpectedUtf8String)));
    assert_eq!(read_string(b"@\"\xFF\"@", 0), Err(error(5, DecodeError::Utf8StringUtf8)));
    assert_eq!(read_string(b"@\"abc\"", 0), Err(error(6, DecodeError::Eoi)));
    let mut many = vec![b'@'; 256];
    many.push(b'"');
    assert_eq!(read_string(&many, 0), Err(error(0, DecodeError::Utf8StringRawAts)));
}

#[test]
fn byte_string_literals() {
    assert_eq!(read_byte_string(b"@[231, 0, 42]", 0), Ok((vec![231, 0, 42], 13)));
    assert_eq!(read_byte_string(b"@[ 0x10 ,0b11, ]", 0), Ok((vec![16, 3], 16)));
    assert_eq!(read_byte_string(b"@[]", 0), Ok((vec![], 3)));
    assert_eq!(read_byte_string(b"@xe7_00_2a]", 0), Ok((vec![231, 0, 42], 10)));
    assert_eq!(read_byte_string(b"@x", 0), Ok((vec![], 2)));
    assert_eq!(read_byte_string(b"@b1110_0111__0000_0000__0010_1010", 0), Ok((vec![231, 0, 42], 33)));
    assert_eq!(read_byte_string(b"@xabc", 0), Err(error(5, DecodeError::ByteStringHexOdd)));
    assert_eq!(read_byte_string(b"@b1010", 0), Err(error(6, DecodeError::ByteStringBinaryNumber)));
    assert_eq!(read_byte_string(b"@[256]", 0), Err(error(5, DecodeError::ByteOutOfBounds)));
    assert_eq!(read_byte_string(b"@[-1]", 0), Err(error(4, DecodeError::ByteOutOfBounds)));
    assert_eq!(read_byte_string(b"@[99999999999999999999]", 0), Err(error(22, DecodeError::ByteOutOfBounds)));
    assert_eq!(read_byte_string(b"@[1 2]", 0), Err(error(4, DecodeError::ExpectedComma)));
    assert_eq!(read_byte_string(b"@q", 0), Err(error(2, DecodeError::ExpectedBytes)));
    assert_eq!(read_byte_string(b"[1]", 0), Err(error(0, DecodeError::ExpectedBytes)));
}

#[test]
fn de_arrays() {
    assert!(read_value(b"[231, 0, 42]", 0).unwrap().0 == ints(&[231, 0, 42]));
    assert!(read_value(b"@[231, 0, 42]", 0).unwrap().0 == ints(&[231, 0, 42]));
    assert!(read_value(b"@xe7_00_2a]", 0).unwrap().0 == ints(&[231, 0, 42]));
    assert!(read_value(b"@b1110_0111__0000_0000__0010_1010", 0).unwrap().0 == ints(&[231, 0, 42]));
    assert!(read_value(b"\"A\"", 0).unwrap().0 == ints(&[0x41]));
    assert!(read_value(b"\"\\{41}\"", 0).unwrap().0 == ints(&[0x41]));
    assert!(read_value(b"@@\"A\"@@", 0).unwrap().0 == ints(&[0x41]));
}

#[test]
fn byte_string_is_an_array_of_ints() {
    assert_eq!(decode(b"@x41_42"), Ok(Array(vec![Int(0x41), Int(0x42)])));
}

#[test]
fn maps() {
    assert_eq!(decode(b"{nil: nil}"), Ok(Mapping(vec![(Nil, Nil)])));
    assert_eq!(decode(b"@{nil}"), Ok(Mapping(vec![(Nil, Nil)])));
    assert_eq!(decode(b"{2: true, 1: false,}"), Ok(Mapping(vec![(Int(1), Bool(false)), (Int(2), Bool(true))])));
    assert_eq!(decode(b"{1: 1, 1: 2}"), Ok(Mapping(vec![(Int(1), Int(2))])));
    assert_eq!(decode(b"@{ 3 , 1, 3 }"), Ok(Mapping(vec![(Int(1), Nil), (Int(3), Nil)])));
    assert_eq!(decode(b"{}"), Ok(Mapping(vec![])));
    assert_eq!(decode(b"@{}"), Ok(Mapping(vec![])));
}

#[test]
fn values_with_whitespace() {
    assert_eq!(decode(b" # one\n [ 1 , [ ] , # two\n true , nil , ] "), Ok(Array(vec![Int(1), Array(vec![]), Bool(true), Nil])));
    assert_eq!(decode(b"[1.5, -0.0, Inf, -Inf, NaN]"), Ok(Array(vec![
        Float(1.5f64.to_bits()),
        Float((-0.0f64).to_bits()),
        Float(f64::INFINITY.to_bits()),
        Float(f64::NEG_INFINITY.to_bits()),
        Float(u64::MAX),
    ])));
    assert_eq!(decode(b"{1.5: 2.5}"), Ok(Mapping(vec![(Float(1.5f64.to_bits()), Float(2.5f64.to_bits()))])));
}

#[test]
fn collection_errors() {
    assert_eq!(decode(b"[,]"), Err(error(2, DecodeError::EmptyCollectionComma)));
    assert_eq!(decode(b"{ , }"), Err(error(4, DecodeError::EmptyCollectionComma)));
    assert_eq!(decode(b"[,1]"), Err(error(1, DecodeError::Syntax)));
    assert_eq!(decode(b"[1 2]"), Err(error(3, DecodeError::ExpectedComma)));
    assert_eq!(decode(b"[1,,2]"), Err(error(3, DecodeError::Syntax)));
    assert_eq!(decode(b"[1"), Err(error(2, DecodeError::Eoi)));
    assert_eq!(decode(b"{1 2}"), Err(error(3, DecodeError::ExpectedColon)));
    assert_eq!(decode(b"{1: 2 3: 4}"), Err(error(6, DecodeError::ExpectedComma)));
    assert_eq!(decode(b""), Err(error(0, DecodeError::Eoi)));
    assert_eq!(decode(b"nix"), Err(error(0, DecodeError::ExpectedNil)));
    assert_eq!(decode(b"tru"), Err(error(0, DecodeError::ExpectedBool)));
    assert_eq!(decode(b"?"), Err(error(0, DecodeError::Syntax)));
    assert_eq!(decode(b"@"), Err(error(0, DecodeError::Eoi)));
    assert_eq!(decode(b"@?"), Err(error(0, DecodeError::Syntax)));
}

#[test]
fn float_table_must_fit() {
    let (parsed, _) = read_value(b"[1.5, 2.5]", 0).unwrap();
    assert_eq!(parsed.float_texts(), vec![b"1.5".to_vec(), b"2.5".to_vec()]);
    assert_eq!(parsed.to_value(&[1]), None);
    assert_eq!(parsed.to_value(&[1, 2, 3]), None);
    assert_eq!(parsed.to_value(&[1, 2]), Some(Array(vec![Float(1), Float(2)])));
}

#[test]
fn arrays_on_one_line_and_on_many() {
    let v = Array(vec![Int(1), Int(2), Int(3)]);
    assert_eq!(encode(&v, 0), "[1, 2, 3]");
    assert_eq!(encode(&v, 2), "[\n  1,\n  2,\n  3,\n]");
    assert_eq!(encode(&Array(vec![]), 2), "[]");
    assert_eq!(encode(&Array(vec![Int(-5)]), 2), "[-5]");
    let nested = Array(vec![Int(1), Array(vec![Int(2), Int(3)]), Array(vec![Array(vec![Nil, Nil])])]);
    assert_eq!(encode(&nested, 0), "[1, [2, 3], [[nil, nil]]]");
    assert_eq!(encode(&nested, 1), "[\n 1,\n [\n  2,\n  3,\n ],\n [[\n  nil,\n  nil,\n ]],\n]");
}

#[test]
fn maps_on_one_line_and_on_many() {
    let v = Mapping(vec![(Int(1), Bool(true)), (Int(2), Nil)]);
    assert_eq!(encode(&v, 0), "{1:true, 2:nil}");
    assert_eq!(encode(&v, 3), "{\n   1: true,\n   2: nil,\n}");
    assert_eq!(encode(&Mapping(vec![]), 3), "{}");
    assert_eq!(encode(&Mapping(vec![(Nil, Int(7))]), 0), "{nil:7}");
    assert_eq!(encode(&Mapping(vec![(Nil, Int(7))]), 4), "{nil: 7}");
}

#[test]
fn scalars_as_text() {
    assert_eq!(encode(&Nil, 0), "nil");
    assert_eq!(encode(&Bool(true), 0), "true");
    assert_eq!(encode(&Bool(false), 0), "false");
    assert_eq!(encode(&Int(i64::MIN), 0), "-9223372036854775808");
    assert_eq!(encode(&Int(0), 0), "0");
    assert_eq!(encode(&Float(f64::NAN.to_bits()), 0), "NaN");
    assert_eq!(encode(&Float(0x7FF0_0000_0000_0001), 0), "NaN");
    assert_eq!(encode(&Float(f64::INFINITY.to_bits()), 0), "Inf");
    assert_eq!(encode(&Float(f64::NEG_INFINITY.to_bits()), 0), "-Inf");
    assert_eq!(encode(&Float(1.0f64.to_bits()), 0), "1.0");
    assert_eq!(encode(&Float((-2.5f64).to_bits()), 0), "-2.5");
}

#[test]
fn float_texts_must_fit() {
    let v = Array(vec![Float(1.5f64.to_bits()), Float(f64::NAN.to_bits())]);
    assert_eq!(finite_floats(&v), vec![1.5f64.to_bits()]);
    assert_eq!(to_vec(&v, 0, &[]), Err(EncodeError::FloatTexts));
    assert_eq!(to_vec(&v, 0, &[b"1.5".to_vec()]), Ok(b"[1.5, NaN]".to_vec()));
}

#[test]
fn text_round_trips() {
    let values = vec![
        Nil,
        Int(-42),
        Float(0.1f64.to_bits()),
        Array(vec![Int(1), Mapping(vec![(Nil, Float(2.5f64.to_bits())), (Bool(false), Array(vec![]))])]),
        Mapping(vec![(Array(vec![Int(3), Int(4)]), Nil), (Mapping(vec![]), Mapping(vec![(Int(1), Int(2)), (Int(3), Int(4))]))]),
    ];
    for v in values {
        assert!(v.is_wf());
        for indent in 0..5 {
            let text = encode(&v, indent);
            assert_eq!(decode(text.as_bytes()), Ok(v.clone()));
        }
    }
}

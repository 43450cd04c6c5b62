use valuable_value::de::Encoding;
use valuable_value::helper::GenericSyntaxHelper;
use valuable_value::human::api::{EnumHead, MapHead, OptionHead, SeqHead, VVDeserializer};
use valuable_value::human::de::DecodeError;
use valuable_value::human::lex::{FloatLiteral, Number};
use valuable_value::human::ser::{EncodeError, VVSerializer};
use valuable_value::parser_helper::{Error, Reason};
use valuable_value::human::ser::{all_float_literals, is_float_literal};
use valuable_value::ser::{to_string, to_vec, Format};
use valuable_value::value::Value;

type Failure = Error<DecodeError>;

fn error(position: usize, why: DecodeError) -> Failure {
    Error { position, reason: Reason::Other(why) }
}

fn read_option(input: &[u8]) -> Result<Option<()>, Failure> {
    let mut d = VVDeserializer::new(input);
    match d.deserialize_option()? {
        OptionHead::Absent => Ok(None),
        OptionHead::Present => {
            d.deserialize_unit()?;
            d.end_variant()?;
            Ok(Some(()))
        }
        OptionHead::PresentNil => Ok(Some(())),
    }
}

/// Reads a struct of one field `x` that is nil.
fn read_x(d: &mut VVDeserializer) -> Result<(), Failure> {
    match d.deserialize_map()? {
        MapHead::Entries => {
            assert_eq!(d.next_item(true, b'}'), Ok(true));
            assert_eq!(d.deserialize_string()?, "x");
            d.colon()?;
            d.deserialize_unit()?;
            assert_eq!(d.next_item(false, b'}'), Ok(false));
            Ok(())
        }
        MapHead::Keys => {
            assert_eq!(d.next_item(true, b'}'), Ok(true));
            assert_eq!(d.deserialize_string()?, "x");
            assert_eq!(d.next_item(false, b'}'), Ok(false));
            Ok(())
        }
    }
}

#[derive(PartialEq, Eq, Debug)]
enum NilEnum {
    A,
    B(()),
    C(u8, i16),
    D { x: () },
}

fn read_enum(input: &[u8]) -> Result<NilEnum, Failure> {
    let mut d = VVDeserializer::new(input);
    match d.deserialize_enum("NilEnum")? {
        EnumHead::Unit(name) => {
            assert_eq!(name, "A");
            Ok(NilEnum::A)
        }
        EnumHead::DataNil(name) => {
            assert_eq!(name, "B");
            Ok(NilEnum::B(()))
        }
        EnumHead::Data(name) => {
            let v = match name.as_str() {
                "B" => {
                    d.deserialize_unit()?;
                    NilEnum::B(())
                }
                "C" => match d.deserialize_seq()? {
                    SeqHead::Bytes(b) => {
                        assert_eq!(b.len(), 2);
                        NilEnum::C(b[0], b[1] as i16)
                    }
                    SeqHead::Open => {
                        assert_eq!(d.next_item(true, b']'), Ok(true));
                        let a = d.deserialize_u8()?;
                        assert_eq!(d.next_item(false, b']'), Ok(true));
                        let b = d.deserialize_i16()?;
                        assert_eq!(d.next_item(false, b']'), Ok(false));
                        NilEnum::C(a, b)
                    }
                },
                "D" => {
                    read_x(&mut d)?;
                    NilEnum::D { x: () }
                }
                other => panic!("no variant {}", other),
            };
            d.end_variant()?;
            Ok(v)
        }
    }
}

#[test]
fn utf8_strings() {
    let v = VVDeserializer::new(b"\"A\"").deserialize_string().unwrap();
    assert_eq!(&v, "A");

    let v = VVDeserializer::new(b"[0x41]").deserialize_string().unwrap();
    assert_eq!(&v, "A");

    let v = VVDeserializer::new(b"@x41").deserialize_string().unwrap();
    assert_eq!(&v, "A");
}

#[test]
fn string_from_byte_string() {
    assert_eq!(VVDeserializer::new(b"@x41_42").deserialize_string(), Ok("AB".to_string()));
    assert_eq!(VVDeserializer::new(b"@xff").deserialize_string(), Err(error(4, DecodeError::Utf8StringUtf8)));
    assert_eq!(VVDeserializer::new(b" [65, 0x100]").deserialize_bytes(), Err(error(6, DecodeError::OutOfBoundsU8)));
    assert_eq!(VVDeserializer::new(b"\"\xC3\xA4\"").deserialize_bytes(), Ok(vec![0xC3, 0xA4]));
    assert_eq!(VVDeserializer::new(b"nil").deserialize_bytes(), Err(error(0, DecodeError::ExpectedBytes)));
    assert_eq!(VVDeserializer::new(b"nil").deserialize_string(), Err(error(0, DecodeError::ExpectedUtf8String)));
}

#[test]
fn chars() {
    let v = VVDeserializer::new(b"\"A\"").deserialize_char().unwrap();
    assert_eq!(v, 'A');

    let v = VVDeserializer::new(b"[0x41]").deserialize_char().unwrap();
    assert_eq!(v, 'A');

    let v = VVDeserializer::new(b"@x41").deserialize_char().unwrap();
    assert_eq!(v, 'A');

    assert_eq!(VVDeserializer::new("\"😀\"".as_bytes()).deserialize_char(), Ok('😀'));
    assert_eq!(VVDeserializer::new("\"€\"".as_bytes()).deserialize_char(), Ok('€'));
    assert_eq!(VVDeserializer::new("\"ä\"".as_bytes()).deserialize_char(), Ok('ä'));
    assert_eq!(VVDeserializer::new(b"\"AB\"").deserialize_char(), Err(error(4, DecodeError::CharLength)));
    assert_eq!(VVDeserializer::new(b"\"\"").deserialize_char(), Err(error(2, DecodeError::CharLength)));
}

#[test]
fn de_option() {
    assert_eq!(read_option(b"\"None\"").unwrap(), None);
    assert_eq!(read_option(b"[0x4e, 0x6f, 0x6e, 0x65]").unwrap(), None);
    assert_eq!(read_option(b"@[0x4e, 0x6f, 0x6e, 0x65]").unwrap(), None);
    assert_eq!(read_option(b"{\"Some\": nil}").unwrap(), Some(()));
    assert_eq!(read_option(b"@{\"Some\"}").unwrap(), Some(()));
    assert_eq!(read_option(b"{[0x53, 0x6f, 0x6d, 0x65]: nil}").unwrap(), Some(()));
    assert_eq!(read_option(b"@{[0x53, 0x6f, 0x6d, 0x65]}").unwrap(), Some(()));
    assert_eq!(read_option(b" \"Nope\""), Err(error(1, DecodeError::ExpectedOption)));
    assert_eq!(read_option(b"{\"None\": nil}"), Err(error(0, DecodeError::ExpectedOption)));
    assert_eq!(read_option(b"nil"), Err(error(0, DecodeError::ExpectedOption)));
    assert_eq!(read_option(b"{\"Some\": nil ]"), Err(error(13, DecodeError::MapClosing)));
    assert_eq!(read_option(b"{\"Some\" nil}"), Err(error(8, DecodeError::ExpectedColon)));
}

#[test]
fn de_structs() {
    assert_eq!(read_x(&mut VVDeserializer::new(b"{\"x\": nil}")), Ok(()));
    assert_eq!(read_x(&mut VVDeserializer::new(b"@{\"x\"}")), Ok(()));
    assert_eq!(read_x(&mut VVDeserializer::new(b"{[0x78]: nil}")), Ok(()));
    assert_eq!(read_x(&mut VVDeserializer::new(b"@{[0x78]}")), Ok(()));
    assert_eq!(read_x(&mut VVDeserializer::new(b"{@[0x78]: nil}")), Ok(()));
    assert_eq!(read_x(&mut VVDeserializer::new(b"@{@[0x78]}")), Ok(()));
}

#[test]
fn de_enums() {
    assert_eq!(read_enum(b"\"A\"").unwrap(), NilEnum::A);
    assert_eq!(read_enum(b"[0x41]").unwrap(), NilEnum::A);
    assert_eq!(read_enum(b"@x41").unwrap(), NilEnum::A);
    assert_eq!(read_enum(b"{\"B\": nil}").unwrap(), NilEnum::B(()));
    assert_eq!(read_enum(b"@{\"B\"}").unwrap(), NilEnum::B(()));
    assert_eq!(read_enum(b"{[0x42]: nil}").unwrap(), NilEnum::B(()));
    assert_eq!(read_enum(b"@{[0x42]}").unwrap(), NilEnum::B(()));
    assert_eq!(read_enum(b"{@x42: nil}").unwrap(), NilEnum::B(()));
    assert_eq!(read_enum(b"@{@x42}").unwrap(), NilEnum::B(()));
    assert_eq!(read_enum(b"{\"C\": [0, 0]}").unwrap(), NilEnum::C(0, 0));
    assert_eq!(read_enum(b"{[0x43]: [0, 0]}").unwrap(), NilEnum::C(0, 0));
    assert_eq!(read_enum(b"{@x43: [0, 0]}").unwrap(), NilEnum::C(0, 0));
    assert_eq!(read_enum(b"{\"C\": @[0, 0]}").unwrap(), NilEnum::C(0, 0));
    assert_eq!(read_enum(b"{\"C\": \"\\0\\0\"}").unwrap(), NilEnum::C(0, 0));
    assert_eq!(read_enum(b"{\"D\": {\"x\": nil}}").unwrap(), NilEnum::D { x: () });
    assert_eq!(read_enum(b"{\"D\": @{\"x\"}}").unwrap(), NilEnum::D { x: () });
    assert_eq!(read_enum(b"{\"D\": {[0x78]: nil}}").unwrap(), NilEnum::D { x: () });
    assert_eq!(read_enum(b"{\"D\": @{[0x78]}}").unwrap(), NilEnum::D { x: () });
    assert_eq!(read_enum(b"{\"D\": {@[0x78]: nil}}").unwrap(), NilEnum::D { x: () });
    assert_eq!(read_enum(b"{\"D\": @{@[0x78]}}").unwrap(), NilEnum::D { x: () });
    assert_eq!(read_enum(b"{[0x44]: {\"x\": nil}}").unwrap(), NilEnum::D { x: () });
    assert_eq!(read_enum(b"{@x44: {\"x\": nil}}").unwrap(), NilEnum::D { x: () });
    assert_eq!(read_enum(b"7"), Err(error(0, DecodeError::ExpectedEnum("NilEnum".to_string()))));
}

#[test]
fn scalars_kind_by_kind() {
    let mut d = VVDeserializer::new(b" nil true false -12 1.5 Inf");
    assert_eq!(d.parse_nil(), Ok(()));
    assert_eq!(d.parse_bool(), Ok(true));
    assert_eq!(d.deserialize_bool(), Ok(false));
    assert_eq!(d.deserialize_i8(), Ok(-12));
    assert_eq!(d.deserialize_f64(), Ok(FloatLiteral::Decimal(b"1.5".to_vec())));
    assert_eq!(d.deserialize_f64(), Ok(FloatLiteral::Inf));
    assert_eq!(d.position(), 27);
    assert_eq!(VVDeserializer::new(b" 300").deserialize_u8(), Err(error(1, DecodeError::OutOfBoundsU8)));
    assert_eq!(VVDeserializer::new(b"-1").deserialize_u64(), Err(error(0, DecodeError::OutOfBoundsU64)));
    assert_eq!(VVDeserializer::new(b"40000").deserialize_i16(), Err(error(0, DecodeError::OutOfBoundsI16)));
    assert_eq!(VVDeserializer::new(b"40000").deserialize_u16(), Ok(40000));
    assert_eq!(VVDeserializer::new(b"0x1_0000_0000").deserialize_u32(), Err(error(0, DecodeError::OutOfBoundsU32)));
    assert_eq!(VVDeserializer::new(b"0x1_0000_0000").deserialize_i32(), Err(error(0, DecodeError::OutOfBoundsI32)));
    assert_eq!(VVDeserializer::new(b"0x1_0000_0000").deserialize_i64(), Ok(1 << 32));
    assert_eq!(VVDeserializer::new(b"x").deserialize_i64(), Err(error(0, DecodeError::ExpectedInt)));
    assert_eq!(VVDeserializer::new(b"nul").deserialize_unit(), Err(error(0, DecodeError::ExpectedNil)));
    assert_eq!(VVDeserializer::new(b"yes").parse_bool(), Err(error(0, DecodeError::ExpectedBool)));
    assert_eq!(VVDeserializer::new(b"[").deserialize_map(), Err(error(0, DecodeError::ExpectedMap)));
    assert_eq!(VVDeserializer::new(b"{").deserialize_seq(), Err(error(0, DecodeError::ExpectedArray)));
}

#[test]
fn helper_skips_or_refuses_whitespace() {
    let mut h = GenericSyntaxHelper::new(b" # c\n 12 0x1F 2.5", Encoding::HumanReadable);
    assert_eq!(h.peek_spaces(), Ok(b'1'));
    assert_eq!(h.position(), 6);
    assert_eq!(h.parse_int(), Ok(12));
    assert_eq!(h.spaces(), Ok(()));
    assert_eq!(h.parse_number(), Ok(Number::I(31)));
    assert_eq!(h.spaces(), Ok(()));
    assert_eq!(h.parse_float(), Ok(FloatLiteral::Decimal(b"2.5".to_vec())));
    assert_eq!(h.peek_spaces(), Err(Error { position: 17, reason: Reason::UnexpectedEndOfInput }));

    let mut c = GenericSyntaxHelper::new(b" 1", Encoding::Compact);
    assert_eq!(c.spaces(), Err(error(0, DecodeError::Whitespace)));
    assert_eq!(c.position(), 0);
    let mut c = GenericSyntaxHelper::new(b"#", Encoding::Canonic);
    assert_eq!(c.peek_spaces(), Err(error(0, DecodeError::Whitespace)));
    let mut c = GenericSyntaxHelper::new(b"1", Encoding::Canonic);
    assert_eq!(c.spaces(), Ok(()));
    let mut y = GenericSyntaxHelper::new(b"  x", Encoding::Hybrid);
    assert_eq!(y.spaces(), Ok(()));
    assert_eq!(y.position(), 2);

    let mut k = GenericSyntaxHelper::new(b"# one\n# two", Encoding::HumanReadable);
    assert_eq!(k.comment(), Ok(()));
    assert_eq!(k.position(), 6);
    assert_eq!(k.comment(), Ok(()));
    assert_eq!(k.position(), 11);
    let mut k = GenericSyntaxHelper::new(b"#\xFF\n", Encoding::HumanReadable);
    assert_eq!(k.comment(), Err(error(0, DecodeError::CommentUtf8)));
    assert_eq!(k.position(), 0);
}

#[test]
fn text_serializer_writes_kind_by_kind() {
    let mut s = VVSerializer::new(Vec::new(), 0);
    s.serialize_unit();
    s.serialize_bool(false);
    s.serialize_i16(-7);
    s.serialize_u32(70000);
    assert_eq!(s.serialize_u64(u64::MAX), Err(EncodeError::OutOfBoundsInt));
    assert_eq!(s.serialize_f64(f64::NEG_INFINITY.to_bits(), b""), Ok(()));
    assert_eq!(s.serialize_f64(0.5f64.to_bits(), b"0.5"), Ok(()));
    assert_eq!(s.serialize_f64(0.5f64.to_bits(), b"1/2"), Err(EncodeError::FloatTexts));
    assert_eq!(s.serialize_f64(0.5f64.to_bits(), b"0.5 "), Err(EncodeError::FloatTexts));
    s.serialize_char('ä');
    s.serialize_str("a\"b\\c\n\0\r\t\u{1}\u{1f}\u{7f}€");
    s.serialize_bytes(&[1, 2]);
    s.serialize_none();
    s.serialize_newtype_variant("B");
    s.serialize_unit();
    s.end_variant();
    assert_eq!(s.serialize_value(&Value::Array(vec![Value::Int(1), Value::Int(2)]), &[]), Ok(()));
    assert_eq!(s.serialize_value(&Value::Float(0), &[]), Err(EncodeError::FloatTexts));
    let text = String::from_utf8(s.into_vec()).unwrap();
    assert_eq!(
        text,
        "nilfalse-770000-Inf0.5\"ä\"\"a\\\"b\\\\c\\n\\0\\r\\t\\{01}\\{1F}\\{7F}€\"@[1, 2]\"None\"{\"B\":nil}[1, 2]"
    );
    let mut s = VVSerializer::new(b"x".to_vec(), 2);
    s.serialize_bytes(&[1, 2]);
    s.serialize_newtype_variant("B");
    assert_eq!(String::from_utf8(s.into_vec()).unwrap(), "x@[\n  1,\n  2,\n]{\"B\": ");
}

#[test]
fn written_strings_are_read_back() {
    for text in ["", "plain", "a\"b\\c\n\0\r\t\u{1}\u{1f}\u{7f}€😀"] {
        let mut s = VVSerializer::new(Vec::new(), 0);
        s.serialize_str(text);
        let bytes = s.into_vec();
        assert_eq!(VVDeserializer::new(&bytes).deserialize_string(), Ok(text.to_string()));
    }
}

#[test]
fn formats_chosen_at_run_time() {
    let v = Value::Array(vec![Value::Int(1), Value::Float(1.5f64.to_bits())]);
    assert_eq!(to_vec(&v, Format::Canonic, &[]).unwrap(), vec![0xA2, 0x61, 0x40, 0x3F, 0xF8, 0, 0, 0, 0, 0, 0]);
    assert_eq!(to_vec(&v, Format::HumanReadable(0), &[b"1.5".to_vec()]).unwrap(), b"[1, 1.5]".to_vec());
    assert!(to_vec(&v, Format::HumanReadable(0), &[]).is_err());
    assert_eq!(to_string(&v, 1, &[b"1.5".to_vec()]).unwrap(), "[\n 1,\n 1.5,\n]");
    assert!(to_string(&v, 1, &[vec![0xFF]]).is_err());
}

/// Writes the ints as an array, item by item.
fn stream_ints(s: &mut VVSerializer, items: &[i64], len: Option<usize>) {
    let apart = s.begin_collection(b'[', len);
    for (i, n) in items.iter().enumerate() {
        s.begin_item(apart, i == 0);
        s.serialize_i64(*n);
        s.end_item(apart);
    }
    s.end_collection(b']', apart);
}

#[test]
fn collections_written_item_by_item() {
    for indent in [0usize, 1, 2, 4] {
        for items in [vec![], vec![7], vec![1, 2, 3]] {
            let mut s = VVSerializer::new(Vec::new(), indent);
            stream_ints(&mut s, &items, Some(items.len()));
            let whole = Value::Array(items.iter().map(|n| Value::Int(*n)).collect());
            assert_eq!(s.into_vec(), valuable_value::human::ser::to_vec(&whole, indent, &[]).unwrap());
        }
    }
    let mut s = VVSerializer::new(Vec::new(), 2);
    let apart = s.begin_collection(b'{', Some(2));
    s.begin_item(apart, true);
    s.serialize_str("a");
    s.serialize_colon();
    stream_ints(&mut s, &[1, 2], None);
    s.end_item(apart);
    s.begin_item(apart, false);
    s.serialize_str("b");
    s.serialize_colon();
    stream_ints(&mut s, &[3], Some(1));
    s.end_item(apart);
    s.end_collection(b'}', apart);
    assert_eq!(
        String::from_utf8(s.into_vec()).unwrap(),
        "{\n  \"a\": [\n    1,\n    2,\n  ],\n  \"b\": [3],\n}"
    );
    let mut s = VVSerializer::new(Vec::new(), 0);
    let apart = s.begin_collection(b'{', None);
    s.begin_item(apart, true);
    s.serialize_i8(1);
    s.serialize_colon();
    s.serialize_unit();
    s.end_item(apart);
    s.begin_item(apart, false);
    s.serialize_i8(2);
    s.serialize_colon();
    s.serialize_value(&Value::Array(vec![Value::Nil, Value::Nil]), &[]).unwrap();
    s.end_item(apart);
    s.end_collection(b'}', apart);
    assert_eq!(String::from_utf8(s.into_vec()).unwrap(), "{1:nil, 2:[nil, nil]}");
    let mut s = VVSerializer::new(Vec::new(), 1);
    let apart = s.begin_collection(b'[', Some(2));
    s.begin_item(apart, true);
    s.serialize_value(&Value::Array(vec![Value::Nil, Value::Nil]), &[]).unwrap();
    s.end_item(apart);
    s.end_collection(b']', apart);
    assert_eq!(String::from_utf8(s.into_vec()).unwrap(), "[\n [\n  nil,\n  nil,\n ],\n]");
}

#[test]
fn float_texts_must_be_decimal_float_literals() {
    for text in [&b"1.5"[..], b"-0.0", b"+12.25", b"6.02E23", b"1.0e-7", b"1.5e+3", b"007.50"] {
        assert!(is_float_literal(text));
    }
    for text in [&b""[..], b"1", b"1.", b".5", b"1_0.5", b"1.5_", b"Inf", b"NaN", b"-Inf", b"1.5e", b"1.5 ", b" 1.5", b"1.5,", b"0x1.8", b"1.5.5", b"1.5e3x"] {
        assert!(!is_float_literal(text));
    }
    assert!(all_float_literals(&[]));
    assert!(all_float_literals(&[b"1.5".to_vec(), b"2.0".to_vec()]));
    assert!(!all_float_literals(&[b"1.5".to_vec(), b"2".to_vec()]));
    let v = Value::Array(vec![Value::Float(1.5f64.to_bits()), Value::Float(f64::NAN.to_bits())]);
    assert_eq!(valuable_value::human::ser::to_vec(&v, 0, &[b"1.5".to_vec()]).unwrap(), b"[1.5, NaN]".to_vec());
    assert_eq!(valuable_value::human::ser::to_vec(&v, 0, &[b"true".to_vec()]), Err(EncodeError::FloatTexts));
    assert_eq!(valuable_value::human::ser::to_vec(&v, 0, &[b"1.5, 7".to_vec()]), Err(EncodeError::FloatTexts));
    assert_eq!(valuable_value::human::ser::to_vec(&v, 0, &[]), Err(EncodeError::FloatTexts));
    assert_eq!(valuable_value::human::ser::to_vec(&v, 0, &[b"1.5".to_vec(), b"1.5".to_vec()]), Err(EncodeError::FloatTexts));
}

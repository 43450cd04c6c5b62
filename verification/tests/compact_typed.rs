use valuable_value::compact::de::{
    CanonicityError, DecodeError, EnumHead, MapHead, OptionHead, SeqHead, VVDeserializer,
};
use valuable_value::compact::ser::{EncodeError, VVSerializer};
use valuable_value::parser_helper::{Error, Reason};
use valuable_value::value::Value;

type Failure = Error<DecodeError>;

fn error(position: usize, why: DecodeError) -> Failure {
    Error { position, reason: Reason::Other(why) }
}

/// Reads a sequence of ints that fit an `i32`, from an array or from a byte string.
fn read_i32s(d: &mut VVDeserializer) -> Result<Vec<i32>, Failure> {
    match d.deserialize_seq()? {
        SeqHead::Bytes(b) => Ok(b.into_iter().map(|x| x as i32).collect()),
        SeqHead::Items(n) => {
            let mut v = Vec::new();
            for _ in 0..n {
                v.push(d.deserialize_i32()?);
            }
            Ok(v)
        }
    }
}

#[derive(PartialEq, Eq, Debug, Clone, Copy)]
enum Wanted {
    Bool,
    Unit,
}

#[derive(PartialEq, Eq, Debug)]
enum Got {
    Bool(bool),
    Unit,
}

fn read_wanted(d: &mut VVDeserializer, w: Wanted) -> Result<Got, Failure> {
    match w {
        Wanted::Bool => Ok(Got::Bool(d.parse_bool()?)),
        Wanted::Unit => {
            d.deserialize_unit()?;
            Ok(Got::Unit)
        }
    }
}

/// What stands for a value that a set leaves out: nil, if nil is wanted.
fn nil_for(d: &VVDeserializer, w: Wanted) -> Result<Got, Failure> {
    match w {
        Wanted::Unit => Ok(Got::Unit),
        Wanted::Bool => Err(error(d.position(), DecodeError::InvalidSet)),
    }
}

fn read_option(input: &[u8], w: Wanted) -> Result<Option<Got>, Failure> {
    let mut d = VVDeserializer::new(input);
    match d.deserialize_option()? {
        OptionHead::Absent => Ok(None),
        OptionHead::Present => Ok(Some(read_wanted(&mut d, w)?)),
        OptionHead::PresentNil => Ok(Some(nil_for(&d, w)?)),
    }
}

/// Reads a struct of one field `foo`.
fn read_struct(input: &[u8], w: Wanted) -> Result<Got, Failure> {
    let mut d = VVDeserializer::new(input);
    match d.deserialize_map()? {
        MapHead::Entries(n) => {
            assert_eq!(n, 1);
            assert_eq!(d.deserialize_string()?, "foo");
            read_wanted(&mut d, w)
        }
        MapHead::Keys(n) => {
            assert_eq!(n, 1);
            assert_eq!(d.deserialize_string()?, "foo");
            nil_for(&d, w)
        }
    }
}

#[derive(PartialEq, Eq, Debug)]
enum NilEnum {
    A,
    B(()),
    C(u8, i16),
    D { x: () },
}

fn read_x(d: &mut VVDeserializer) -> Result<(), Failure> {
    match d.deserialize_map()? {
        MapHead::Entries(n) => {
            assert_eq!(n, 1);
            assert_eq!(d.deserialize_string()?, "x");
            d.deserialize_unit()
        }
        MapHead::Keys(n) => {
            assert_eq!(n, 1);
            assert_eq!(d.deserialize_string()?, "x");
            Ok(())
        }
    }
}

fn read_enum(input: &[u8]) -> Result<NilEnum, Failure> {
    let mut d = VVDeserializer::new(input);
    match d.deserialize_enum("NilEnum")? {
        EnumHead::Unit(name) => {
            assert_eq!(name, "A");
            Ok(NilEnum::A)
        }
        EnumHead::DataNil(name) => {
            assert_eq!(name, "B");
            Ok(NilEnum::B(()))
        }
        EnumHead::Data(name) => match name.as_str() {
            "B" => {
                d.deserialize_unit()?;
                Ok(NilEnum::B(()))
            }
            "C" => match d.deserialize_seq()? {
                SeqHead::Bytes(b) => {
                    assert_eq!(b.len(), 2);
                    Ok(NilEnum::C(b[0], b[1] as i16))
                }
                SeqHead::Items(n) => {
                    assert_eq!(n, 2);
                    let a = d.deserialize_u8()?;
                    let b = d.deserialize_i16()?;
                    Ok(NilEnum::C(a, b))
                }
            },
            "D" => {
                read_x(&mut d)?;
                Ok(NilEnum::D { x: () })
            }
            other => panic!("no variant {}", other),
        },
    }
}

#[test]
fn vec_as_string() {
    let v = read_i32s(&mut VVDeserializer::new(&[0b100_00011, 231, 0, 42])).unwrap();
    assert_eq!(v, vec![231, 0, 42]);
}

#[test]
fn string_as_array() {
    let v = VVDeserializer::new(&[
        0b101_00011,
        0b011_11100,
        'f' as u8,
        0b011_11100,
        'o' as u8,
        0b011_11100,
        'o' as u8,
    ])
    .deserialize_string()
    .unwrap();
    assert_eq!(&v, "foo");
}

#[test]
fn map_as_set() {
    let mut d = VVDeserializer::new(&[0b110_00001, 0]);
    assert_eq!(d.deserialize_map(), Ok(MapHead::Keys(1)));
    assert_eq!(d.deserialize_unit(), Ok(()));
    assert_eq!(d.position(), 2);
}

#[test]
fn option() {
    let v = read_option(&[0b100_00100, 'N' as u8, 'o' as u8, 'n' as u8, 'e' as u8], Wanted::Bool).unwrap();
    assert_eq!(v, None);

    let v = read_option(&[0b101_00100, 0b011_11100, 'N' as u8, 0b011_11100, 'o' as u8, 0b011_11100, 'n' as u8, 0b011_11100, 'e' as u8], Wanted::Bool).unwrap();
    assert_eq!(v, None);

    let v = read_option(&[0b111_00001, 0b100_00100, 'S' as u8, 'o' as u8, 'm' as u8, 'e' as u8, 0b001_00001], Wanted::Bool).unwrap();
    assert_eq!(v, Some(Got::Bool(true)));

    let v = read_option(&[0b111_00001, 0b101_00100, 0b011_11100, 'S' as u8, 0b011_11100, 'o' as u8, 0b011_11100, 'm' as u8, 0b011_11100, 'e' as u8, 0b001_00001], Wanted::Bool).unwrap();
    assert_eq!(v, Some(Got::Bool(true)));

    let v = read_option(&[0b111_00001, 0b100_00100, 'S' as u8, 'o' as u8, 'm' as u8, 'e' as u8, 0b000_00000], Wanted::Unit).unwrap();
    assert_eq!(v, Some(Got::Unit));

    let v = read_option(&[0b111_00001, 0b101_00100, 0b011_11100, 'S' as u8, 0b011_11100, 'o' as u8, 0b011_11100, 'm' as u8, 0b011_11100, 'e' as u8, 0b000_00000], Wanted::Unit).unwrap();
    assert_eq!(v, Some(Got::Unit));

    let v = read_option(&[0b110_00001, 0b100_00100, 'S' as u8, 'o' as u8, 'm' as u8, 'e' as u8], Wanted::Unit).unwrap();
    assert_eq!(v, Some(Got::Unit));

    let v = read_option(&[0b110_00001, 0b101_00100, 0b011_11100, 'S' as u8, 0b011_11100, 'o' as u8, 0b011_11100, 'm' as u8, 0b011_11100, 'e' as u8], Wanted::Unit).unwrap();
    assert_eq!(v, Some(Got::Unit));
}

#[test]
fn option_errors() {
    assert_eq!(read_option(&[0b100_00011, 'N' as u8, 'o' as u8, 'n' as u8], Wanted::Unit), Err(error(0, DecodeError::ExpectedOption)));
    assert_eq!(read_option(&[0b111_00010, 0b100_00100, 'S' as u8, 'o' as u8, 'm' as u8, 'e' as u8], Wanted::Unit), Err(error(0, DecodeError::ExpectedOption)));
    assert_eq!(read_option(&[0b111_00001, 0b100_00100, 'N' as u8, 'o' as u8, 'n' as u8, 'e' as u8], Wanted::Unit), Err(error(0, DecodeError::ExpectedOption)));
    assert_eq!(read_option(&[0b001_00001], Wanted::Bool), Err(error(0, DecodeError::ExpectedOption)));
    assert_eq!(read_option(&[], Wanted::Bool), Err(error(0, DecodeError::Eoi)));
    assert_eq!(read_option(&[0b110_00001, 0b100_00100, 'S' as u8, 'o' as u8, 'm' as u8, 'e' as u8], Wanted::Bool), Err(error(6, DecodeError::InvalidSet)));
    assert_eq!(read_option(&[0b100_00010, 0xFF, 0xFE], Wanted::Bool), Err(error(3, DecodeError::Utf8)));
    let mut d = VVDeserializer::canonic(&[0b110_00001, 0b101_00000]);
    assert_eq!(d.deserialize_option(), Err(error(0, DecodeError::Canonicity(CanonicityError::SetTag))));
}

#[test]
fn structs() {
    let v = {
        let mut d = VVDeserializer::new(&[0b111_00001, 0b100_00011, 'f' as u8, 'o' as u8, 'o' as u8, 0b011_00001]);
        assert_eq!(d.deserialize_map(), Ok(MapHead::Entries(1)));
        assert_eq!(d.deserialize_string().unwrap(), "foo");
        d.deserialize_u8().unwrap()
    };
    assert_eq!(v, 1);

    let v = {
        let mut d = VVDeserializer::new(&[0b111_00001, 0b101_00011, 0b011_11100, 'f' as u8, 0b011_11100, 'o' as u8, 0b011_11100, 'o' as u8, 0b011_00001]);
        assert_eq!(d.deserialize_map(), Ok(MapHead::Entries(1)));
        assert_eq!(d.deserialize_string().unwrap(), "foo");
        d.deserialize_u8().unwrap()
    };
    assert_eq!(v, 1);

    let v = read_struct(&[0b111_00001, 0b100_00011, 'f' as u8, 'o' as u8, 'o' as u8, 0], Wanted::Unit).unwrap();
    assert_eq!(v, Got::Unit);

    let v = read_struct(&[0b111_00001, 0b101_00011, 0b011_11100, 'f' as u8, 0b011_11100, 'o' as u8, 0b011_11100, 'o' as u8, 0], Wanted::Unit).unwrap();
    assert_eq!(v, Got::Unit);

    let v = read_struct(&[0b110_00001, 0b100_00011, 'f' as u8, 'o' as u8, 'o' as u8], Wanted::Unit).unwrap();
    assert_eq!(v, Got::Unit);

    let v = read_struct(&[0b110_00001, 0b101_00011, 0b011_11100, 'f' as u8, 0b011_11100, 'o' as u8, 0b011_11100, 'o' as u8], Wanted::Unit).unwrap();
    assert_eq!(v, Got::Unit);
}

#[test]
fn enums() {
    let v = read_enum(&[0b100_00001, 'A' as u8]).unwrap();
    assert_eq!(v, NilEnum::A);

    let v = read_enum(&[0b101_00001, 0b011_11100, 'A' as u8]).unwrap();
    assert_eq!(v, NilEnum::A);

    let v = read_enum(&[0b111_00001, 0b100_00001, 'B' as u8, 0]).unwrap();
    assert_eq!(v, NilEnum::B(()));

    let v = read_enum(&[0b110_00001, 0b100_00001, 'B' as u8]).unwrap();
    assert_eq!(v, NilEnum::B(()));

    let v = read_enum(&[0b111_00001, 0b101_00001, 0b011_11100, 'B' as u8, 0]).unwrap();
    assert_eq!(v, NilEnum::B(()));

    let v = read_enum(&[0b110_00001, 0b101_00001, 0b011_11100, 'B' as u8]).unwrap();
    assert_eq!(v, NilEnum::B(()));

    let v = read_enum(&[0b111_00001, 0b100_00001, 'C' as u8, 0b101_00010, 0b011_00000, 0b011_00000]).unwrap();
    assert_eq!(v, NilEnum::C(0, 0));

    let v = read_enum(&[0b111_00001, 0b101_00001, 0b011_11100, 'C' as u8, 0b101_00010, 0b011_00000, 0b011_00000]).unwrap();
    assert_eq!(v, NilEnum::C(0, 0));

    let v = read_enum(&[0b111_00001, 0b100_00001, 'C' as u8, 0b100_00010, 0, 0]).unwrap();
    assert_eq!(v, NilEnum::C(0, 0));

    let v = read_enum(&[0b111_00001, 0b101_00001, 0b011_11100, 'C' as u8, 0b100_00010, 0, 0]).unwrap();
    assert_eq!(v, NilEnum::C(0, 0));

    let v = read_enum(&[0b111_00001, 0b100_00001, 'D' as u8, 0b111_00001, 0b100_00001, 'x' as u8, 0]).unwrap();
    assert_eq!(v, NilEnum::D { x: () });

    let v = read_enum(&[0b111_00001, 0b101_00001, 0b011_11100, 'D' as u8, 0b111_00001, 0b100_00001, 'x' as u8, 0]).unwrap();
    assert_eq!(v, NilEnum::D { x: () });

    let v = read_enum(&[0b111_00001, 0b100_00001, 'D' as u8, 0b110_00001, 0b100_00001, 'x' as u8]).unwrap();
    assert_eq!(v, NilEnum::D { x: () });

    let v = read_enum(&[0b111_00001, 0b100_00001, 'D' as u8, 0b111_00001, 0b101_00001, 0b011_11100, 'x' as u8, 0]).unwrap();
    assert_eq!(v, NilEnum::D { x: () });

    let v = read_enum(&[0b111_00001, 0b100_00001, 'D' as u8, 0b110_00001, 0b101_00001, 0b011_11100, 'x' as u8]).unwrap();
    assert_eq!(v, NilEnum::D { x: () });
}

#[test]
fn enum_errors() {
    assert_eq!(read_enum(&[0b011_00001]), Err(error(0, DecodeError::ExpectedEnum("NilEnum".to_string()))));
    assert_eq!(read_enum(&[0b111_00010, 0b100_00001, 'B' as u8]), Err(error(0, DecodeError::ExpectedEnumVariant)));
    assert_eq!(read_enum(&[]), Err(error(0, DecodeError::Eoi)));
}

#[test]
fn narrow_ints_are_bounded() {
    let wide = [0x7D, 0x01, 0x00];
    assert_eq!(VVDeserializer::new(&wide).deserialize_i16(), Ok(256));
    assert_eq!(VVDeserializer::new(&wide).deserialize_u8(), Err(error(0, DecodeError::OutOfBoundsU8)));
    assert_eq!(VVDeserializer::new(&wide).deserialize_i8(), Err(error(0, DecodeError::OutOfBoundsI8)));
    let minus = [0x7C, 0xFF];
    assert_eq!(VVDeserializer::new(&minus).deserialize_i8(), Ok(-1));
    assert_eq!(VVDeserializer::new(&minus).deserialize_u16(), Err(error(0, DecodeError::OutOfBoundsU16)));
    assert_eq!(VVDeserializer::new(&minus).deserialize_u32(), Err(error(0, DecodeError::OutOfBoundsU32)));
    assert_eq!(VVDeserializer::new(&minus).deserialize_u64(), Err(error(0, DecodeError::OutOfBoundsU64)));
    let big = [0x7F, 0, 0, 0, 1, 0, 0, 0, 0];
    assert_eq!(VVDeserializer::new(&big).deserialize_i32(), Err(error(0, DecodeError::OutOfBoundsI32)));
    assert_eq!(VVDeserializer::new(&big).deserialize_i16(), Err(error(0, DecodeError::OutOfBoundsI16)));
    assert_eq!(VVDeserializer::new(&big).deserialize_i64(), Ok(1 << 32));
    assert_eq!(VVDeserializer::new(&big).deserialize_u64(), Ok(1 << 32));
    assert_eq!(VVDeserializer::new(&[0x20]).deserialize_i64(), Err(error(0, DecodeError::ExpectedInt)));
    let mut two = VVDeserializer::new(&[0x00, 0x7D, 0x01, 0x00]);
    assert_eq!(two.parse_nil(), Ok(()));
    assert_eq!(two.deserialize_u8(), Err(error(1, DecodeError::OutOfBoundsU8)));
    assert_eq!(two.position(), 1);
}

#[test]
fn chars_are_scalar_values() {
    assert_eq!(VVDeserializer::new(&[0x7C, 0x41]).deserialize_char(), Ok('A'));
    assert_eq!(VVDeserializer::new(&[0x7E, 0x00, 0x01, 0xF6, 0x00]).deserialize_char(), Ok('😀'));
    assert_eq!(VVDeserializer::new(&[0x7E, 0x00, 0x00, 0xD8, 0x00]).deserialize_char(), Err(error(0, DecodeError::OutOfBoundsChar)));
    assert_eq!(VVDeserializer::new(&[0x7C, 0xFF]).deserialize_char(), Err(error(0, DecodeError::OutOfBoundsChar)));
}

#[test]
fn bytes_and_strings() {
    assert_eq!(VVDeserializer::new(&[0x82, 1, 2]).deserialize_bytes(), Ok(vec![1, 2]));
    assert_eq!(VVDeserializer::new(&[0xA2, 0x61, 0x7D, 0x00, 0xFF]).deserialize_bytes(), Ok(vec![1, 255]));
    assert_eq!(VVDeserializer::new(&[0xA2, 0x61, 0x7C, 0xFF]).deserialize_bytes(), Err(error(2, DecodeError::OutOfBoundsU8)));
    assert_eq!(VVDeserializer::new(&[0xA2, 0x61, 0x7D, 0x01, 0x00]).deserialize_bytes(), Err(error(2, DecodeError::OutOfBoundsU8)));
    assert_eq!(VVDeserializer::new(&[0xA1, 0x00]).deserialize_bytes(), Err(error(1, DecodeError::ExpectedInt)));
    assert_eq!(VVDeserializer::new(&[0x00]).deserialize_bytes(), Err(error(0, DecodeError::ExpectedBytes)));
    assert_eq!(VVDeserializer::new(&[0x82, 0xC3, 0xA4]).deserialize_string(), Ok("ä".to_string()));
    assert_eq!(VVDeserializer::new(&[0x81, 0xFF]).deserialize_string(), Err(error(2, DecodeError::Utf8)));
    assert_eq!(VVDeserializer::canonic(&[0x81, 0x41]).deserialize_string(), Err(error(0, DecodeError::Canonicity(CanonicityError::ByteString))));
    assert_eq!(VVDeserializer::canonic(&[0xA1, 0x7C, 0x41]).deserialize_string(), Ok("A".to_string()));
}

#[test]
fn heads_and_scalars() {
    let mut d = VVDeserializer::new(&[0xA2, 0x21, 0x40, 0, 0, 0, 0, 0, 0, 0, 1]);
    assert_eq!(d.deserialize_seq(), Ok(SeqHead::Items(2)));
    assert_eq!(d.parse_bool(), Ok(true));
    assert_eq!(d.parse_float(), Ok(1));
    assert_eq!(d.position(), 11);
    assert_eq!(d.parse_value(), Err(error(11, DecodeError::Eoi)));
    assert_eq!(VVDeserializer::new(&[0x00]).deserialize_seq(), Err(error(0, DecodeError::ExpectedArray)));
    assert_eq!(VVDeserializer::new(&[0x00]).deserialize_map(), Err(error(0, DecodeError::ExpectedMap)));
    assert_eq!(VVDeserializer::new(&[0x1F]).parse_nil(), Ok(()));
    assert_eq!(VVDeserializer::canonic(&[0x1F]).parse_nil(), Err(error(0, DecodeError::Canonicity(CanonicityError::NilArgument))));
    assert_eq!(VVDeserializer::new(&[0x20]).parse_nil(), Err(error(0, DecodeError::ExpectedNil)));
    assert_eq!(VVDeserializer::new(&[0xE2, 0x62, 0x00, 0x61, 0x00]).parse_value(), Ok(Value::Mapping(vec![(Value::Int(1), Value::Nil), (Value::Int(2), Value::Nil)])));
}

#[test]
fn serializer_writes_kind_by_kind() {
    let mut s = VVSerializer::new();
    s.serialize_unit();
    s.serialize_bool(true);
    s.serialize_i8(-1);
    s.serialize_u16(300);
    s.serialize_f64(1.0f64.to_bits());
    s.serialize_char('A');
    assert_eq!(s.serialize_u64(u64::MAX), Err(EncodeError::OutOfBoundsInt));
    assert_eq!(s.serialize_u64(5), Ok(()));
    assert_eq!(s.serialize_str("hi"), Ok(()));
    assert_eq!(s.serialize_bytes(&[9]), Ok(()));
    s.serialize_none();
    s.serialize_some();
    assert_eq!(s.serialize_unit_variant("A"), Ok(()));
    assert_eq!(s.serialize_newtype_variant("B"), Ok(()));
    assert_eq!(s.serialize_seq(None), Err(EncodeError::UnknownLength));
    assert_eq!(s.serialize_seq(Some(2)), Ok(()));
    assert_eq!(s.serialize_map(None), Err(EncodeError::UnknownLength));
    assert_eq!(s.serialize_map(Some(300)), Ok(()));
    assert_eq!(s.serialize_count(70000, 0xA0), Ok(()));
    assert_eq!(s.serialize_value(&Value::Array(vec![Value::Nil])), Ok(()));
    let expected: Vec<u8> = vec![
        0x00, 0x21, 0x7C, 0xFF, 0x7D, 0x01, 0x2C, 0x40, 0x3F, 0xF0, 0, 0, 0, 0, 0, 0, 0x7C, 0x41,
        0x65, 0x82, b'h', b'i', 0x81, 9, 0x84, b'N', b'o', b'n', b'e', 0xE1, 0x84, b'S', b'o',
        b'm', b'e', 0x81, b'A', 0xE1, 0x81, b'B', 0xA2, 0xFD, 0x01, 0x2C, 0xBE, 0x00, 0x01, 0x11,
        0x70, 0xA1, 0x00,
    ];
    assert_eq!(s.into_vec(), expected);
}

#[test]
fn canonic_maps_are_looked_through_key_by_key() {
    let descending = [0xE2, 0x61, 0x00, 0x60, 0x00];
    let mut d = VVDeserializer::canonic(&descending);
    assert_eq!(d.deserialize_map(), Err(error(3, DecodeError::Canonicity(CanonicityError::KeyOrder))));
    assert_eq!(d.position(), 0);
    assert_eq!(d.parse_value(), Err(error(3, DecodeError::Canonicity(CanonicityError::KeyOrder))));
    let mut d = VVDeserializer::new(&descending);
    assert_eq!(d.deserialize_map(), Ok(MapHead::Entries(2)));
    assert_eq!(d.position(), 1);

    let equal = [0xE2, 0x61, 0x00, 0x61, 0x00];
    assert_eq!(VVDeserializer::canonic(&equal).deserialize_map(), Err(error(3, DecodeError::Canonicity(CanonicityError::KeyOrder))));
    assert_eq!(VVDeserializer::new(&equal).deserialize_map(), Ok(MapHead::Entries(2)));

    let ascending = [0xE2, 0x60, 0x00, 0x61, 0x00];
    let mut d = VVDeserializer::canonic(&ascending);
    assert_eq!(d.deserialize_map(), Ok(MapHead::Entries(2)));
    assert_eq!(d.deserialize_u8(), Ok(0));
    assert_eq!(d.deserialize_unit(), Ok(()));
    assert_eq!(d.deserialize_u8(), Ok(1));
    assert_eq!(d.deserialize_unit(), Ok(()));
    assert_eq!(d.position(), 5);

    let nested = [0xE1, 0x60, 0xA1, 0xE2, 0x61, 0x00, 0x60, 0x00];
    assert_eq!(VVDeserializer::canonic(&nested).deserialize_map(), Err(error(6, DecodeError::Canonicity(CanonicityError::KeyOrder))));
    let wide_value = [0xE1, 0x60, 0x7C, 0x05];
    assert_eq!(VVDeserializer::canonic(&wide_value).deserialize_map(), Err(error(3, DecodeError::Canonicity(CanonicityError::IntTooWide))));
    let short = [0xE2, 0x60, 0x00];
    assert_eq!(VVDeserializer::canonic(&short).deserialize_map(), Err(error(3, DecodeError::Eoi)));
    assert_eq!(VVDeserializer::new(&short).deserialize_map(), Ok(MapHead::Entries(2)));
}

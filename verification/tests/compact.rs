use valuable_value::compact::de::{read_value, CanonicityError, DecodeError};
use valuable_value::compact::ser::to_vec;
use valuable_value::parser_helper::{Error, Reason};
use valuable_value::value::Value;
use valuable_value::value::Value::{Array, Bool, Float, Int, Mapping, Nil};

fn canonic_error(position: usize, why: CanonicityError) -> Error<DecodeError> {
    Error { position, reason: Reason::Other(DecodeError::Canonicity(why)) }
}

fn error(position: usize, why: DecodeError) -> Error<DecodeError> {
    Error { position, reason: Reason::Other(why) }
}

#[test]
fn nil_is_one_zero_byte() {
    assert_eq!(to_vec(&Nil), Ok(vec![0x00]));
    assert_eq!(read_value(&[0x00], 0, true), Ok((Nil, 1)));
    assert_eq!(read_value(&[0x1F], 0, false), Ok((Nil, 1)));
    assert_eq!(read_value(&[0x1F], 0, true), Err(canonic_error(0, CanonicityError::NilArgument)));
}

#[test]
fn minus_one_in_one_byte() {
    assert_eq!(to_vec(&Int(-1)), Ok(vec![0x7C, 0xFF]));
    let wide = [0x7F, 0xFF, 0xFF, 0xFF, 0xFF, 0xFF, 0xFF, 0xFF, 0xFF];
    assert_eq!(read_value(&wide, 0, true), Err(canonic_error(1, CanonicityError::IntTooWide)));
    assert_eq!(read_value(&wide, 0, false), Ok((Int(-1), 9)));
}

#[test]
fn nan_is_all_ones() {
    let canonic = vec![0x40, 0xFF, 0xFF, 0xFF, 0xFF, 0xFF, 0xFF, 0xFF, 0xFF];
    assert_eq!(to_vec(&Float(f64::NAN.to_bits())), Ok(canonic.clone()));
    assert_eq!(to_vec(&Float(0x7FF0_0000_0000_0001)), Ok(canonic.clone()));
    assert_eq!(read_value(&canonic, 0, true), Ok((Float(u64::MAX), 9)));
    let other = [0x40, 0x7F, 0xF8, 0, 0, 0, 0, 0, 0];
    assert_eq!(read_value(&other, 0, true), Err(canonic_error(1, CanonicityError::NaN)));
    assert_eq!(read_value(&other, 0, false), Ok((Float(u64::MAX), 9)));
}

#[test]
fn ints_in_every_width() {
    let cases: Vec<(i64, Vec<u8>)> = vec![
        (0, vec![0x60]),
        (27, vec![0x7B]),
        (28, vec![0x7C, 28]),
        (127, vec![0x7C, 0x7F]),
        (-128, vec![0x7C, 0x80]),
        (128, vec![0x7D, 0x00, 0x80]),
        (-129, vec![0x7D, 0xFF, 0x7F]),
        (32767, vec![0x7D, 0x7F, 0xFF]),
        (32768, vec![0x7E, 0x00, 0x00, 0x80, 0x00]),
        (-2147483648, vec![0x7E, 0x80, 0x00, 0x00, 0x00]),
        (2147483648, vec![0x7F, 0, 0, 0, 0, 0x80, 0, 0, 0]),
        (i64::MAX, vec![0x7F, 0x7F, 0xFF, 0xFF, 0xFF, 0xFF, 0xFF, 0xFF, 0xFF]),
        (i64::MIN, vec![0x7F, 0x80, 0, 0, 0, 0, 0, 0, 0]),
    ];
    for (n, bytes) in cases {
        assert_eq!(to_vec(&Int(n)), Ok(bytes.clone()));
        assert_eq!(read_value(&bytes, 0, true), Ok((Int(n), bytes.len())));
        assert_eq!(read_value(&bytes, 0, false), Ok((Int(n), bytes.len())));
    }
}

#[test]
fn floats() {
    let bytes = [0x40, 0x80, 0, 0, 0, 0, 0, 0, 0];
    let (v, end) = read_value(&bytes, 0, false).unwrap();
    assert_eq!(end, 9);
    match v {
        Float(bits) => {
            let x = f64::from_bits(bits);
            assert_eq!(x, -0.0f64);
            assert!(x.is_sign_negative());
        }
        _ => panic!("not a float"),
    }
    let bits = valuable_value::compact::de::VVDeserializer::new(&bytes).parse_float().unwrap();
    assert_eq!(f64::from_bits(bits), -0.0f64);
    assert!(f64::from_bits(bits).is_sign_negative());
    assert_eq!(read_value(&[0x40, 1, 2, 3], 0, false), Err(error(1, DecodeError::Eoi)));
    assert_eq!(read_value(&[0x41, 0, 0, 0, 0, 0, 0, 0, 0], 0, false), Err(error(0, DecodeError::ExpectedFloat)));
}

#[test]
fn arrays() {
    let d = [0b101_11111, 255, 255, 255, 255, 255, 255, 255, 255, 0, 0, 0, 0, 0];
    assert_eq!(read_value(&d, 0, false).unwrap_err().reason, Reason::Other(DecodeError::OutOfBoundsArray));
    assert_eq!(read_value(&d, 0, false).unwrap_err().position, 9);

    let mut typed = valuable_value::compact::de::VVDeserializer::new(&d);
    assert_eq!(typed.deserialize_seq().unwrap_err().reason, Reason::Other(DecodeError::OutOfBoundsArray));

    let d = [0b101_11111, 126, 255, 255, 255, 255, 255, 255, 255, 0, 0, 0, 0, 0];
    assert_eq!(read_value(&d, 0, false).unwrap_err().reason, Reason::Other(DecodeError::Eoi));
    let mut typed = valuable_value::compact::de::VVDeserializer::new(&d);
    assert_eq!(
        typed.deserialize_seq(),
        Ok(valuable_value::compact::de::SeqHead::Items(0x7EFF_FFFF_FFFF_FFFF))
    );
    for _ in 0..5 {
        assert_eq!(typed.deserialize_unit(), Ok(()));
    }
    assert_eq!(typed.deserialize_unit().unwrap_err().reason, Reason::Other(DecodeError::Eoi));
}

#[test]
fn arrays_round_trip() {
    let v = Array(vec![Int(1), Array(vec![]), Bool(true), Nil]);
    let bytes = to_vec(&v).unwrap();
    assert_eq!(bytes, vec![0xA4, 0x61, 0xA0, 0x21, 0x00]);
    assert_eq!(read_value(&bytes, 0, true), Ok((v.clone(), 5)));
    let long = Array((0..300).map(|i| Int(i % 7)).collect());
    let bytes = to_vec(&long).unwrap();
    assert_eq!(&bytes[..3], &[0xBD, 0x01, 0x2C]);
    assert_eq!(read_value(&bytes, 0, true), Ok((long, 303)));
}

#[test]
fn counts_must_be_minimal_in_canonic_mode() {
    let wide = [0xBC, 0x01, 0x00];
    assert_eq!(read_value(&wide, 0, false), Ok((Array(vec![Nil]), 3)));
    assert_eq!(read_value(&wide, 0, true), Err(canonic_error(1, CanonicityError::CountTooWide)));
}

#[test]
fn byte_strings_are_arrays_of_ints() {
    let bytes = [0b100_00011, 231, 0, 42];
    assert_eq!(read_value(&bytes, 0, false), Ok((Array(vec![Int(231), Int(0), Int(42)]), 4)));
    assert_eq!(read_value(&bytes, 0, true), Err(canonic_error(0, CanonicityError::ByteString)));
    assert_eq!(read_value(&[0b100_00011, 1, 2], 0, false), Err(error(1, DecodeError::Eoi)));
}

#[test]
fn sets_are_maps_to_nil() {
    let bytes = [0b110_00010, 0x62, 0x61];
    assert_eq!(read_value(&bytes, 0, false), Ok((Mapping(vec![(Int(1), Nil), (Int(2), Nil)]), 3)));
    assert_eq!(read_value(&bytes, 0, true), Err(canonic_error(0, CanonicityError::SetTag)));
}

#[test]
fn map_keys_must_ascend_in_canonic_mode() {
    let ordered = [0xE2, 0x61, 0x00, 0x62, 0x21];
    let v = Mapping(vec![(Int(1), Nil), (Int(2), Bool(true))]);
    assert_eq!(to_vec(&v), Ok(ordered.to_vec()));
    assert_eq!(read_value(&ordered, 0, true), Ok((v.clone(), 5)));
    let unordered = [0xE2, 0x62, 0x21, 0x61, 0x00];
    assert_eq!(read_value(&unordered, 0, true), Err(canonic_error(3, CanonicityError::KeyOrder)));
    assert_eq!(read_value(&unordered, 0, false), Ok((v.clone(), 5)));
    let twice = [0xE2, 0x61, 0x00, 0x61, 0x21];
    assert_eq!(read_value(&twice, 0, true), Err(canonic_error(3, CanonicityError::KeyOrder)));
    assert_eq!(read_value(&twice, 0, false), Ok((Mapping(vec![(Int(1), Bool(true))]), 5)));
}

#[test]
fn bools_take_two_arguments() {
    assert_eq!(to_vec(&Bool(false)), Ok(vec![0x20]));
    assert_eq!(to_vec(&Bool(true)), Ok(vec![0x21]));
    assert_eq!(read_value(&[0x20], 0, true), Ok((Bool(false), 1)));
    assert_eq!(read_value(&[0x21], 0, true), Ok((Bool(true), 1)));
    assert_eq!(read_value(&[0x22], 0, false), Err(error(0, DecodeError::ExpectedBool)));
    assert_eq!(read_value(&[], 0, false), Err(error(0, DecodeError::Eoi)));
}

#[test]
fn decoding_inverts_canonic_encoding() {
    let values: Vec<Value> = vec![
        Nil,
        Bool(true),
        Float(1.5f64.to_bits()),
        Float((-0.0f64).to_bits()),
        Int(-300),
        Array(vec![Int(1), Mapping(vec![(Nil, Int(2)), (Bool(false), Array(vec![]))])]),
        Mapping(vec![(Array(vec![Int(3)]), Nil), (Mapping(vec![]), Nil)]),
    ];
    for v in values {
        assert!(v.is_wf());
        let bytes = to_vec(&v).unwrap();
        assert_eq!(read_value(&bytes, 0, true), Ok((v.clone(), bytes.len())));
        assert_eq!(read_value(&bytes, 0, false), Ok((v.clone(), bytes.len())));
        let mut longer = bytes.clone();
        longer.push(0xFF);
        assert_eq!(read_value(&longer, 0, true), Ok((v.clone(), bytes.len())));
    }
}

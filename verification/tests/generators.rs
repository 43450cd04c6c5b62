use valuable_value::compact::de::read_value;
use valuable_value::compact::ser::to_vec;
use valuable_value::compact::test_value as compact;
use valuable_value::human::de::read_value as read_text;
use valuable_value::human::test_value as human;
use valuable_value::test_type;
use valuable_value::test_value::{Base, Bool, Int, Nil, Space, Space_, Spaces, TestValue};
use valuable_value::value::Value;

fn encoded(t: &compact::TestValue) -> Vec<u8> {
    let mut out = vec![0xAA];
    t.encode(&mut out);
    assert_eq!(out[0], 0xAA);
    out[1..].to_vec()
}

fn compact_int(n: i64, bytes: u8) -> compact::TestValue {
    compact::TestValue::Int(compact::Int { n, bytes })
}

#[test]
fn compact_ints_in_chosen_widths() {
    assert_eq!(encoded(&compact_int(5, 0)), vec![0x65]);
    assert_eq!(encoded(&compact_int(5, 1)), vec![0x7C, 5]);
    assert_eq!(encoded(&compact_int(5, 3)), vec![0x7D, 0, 5]);
    assert_eq!(encoded(&compact_int(5, 6)), vec![0x7E, 0, 0, 0, 5]);
    assert_eq!(encoded(&compact_int(5, 200)), vec![0x7F, 0, 0, 0, 0, 0, 0, 0, 5]);
    assert_eq!(encoded(&compact_int(-2, 2)), vec![0x7D, 0xFF, 0xFE]);
    assert_eq!(encoded(&compact_int(300, 0)), vec![0x7D, 0x01, 0x2C]);
    assert!(compact_int(5, 0).canonic());
    assert!(!compact_int(5, 1).canonic());
    assert!(compact_int(300, 2).canonic());
    assert!(compact_int(300, 3).canonic());
    assert!(!compact_int(300, 4).canonic());
    assert!(compact_int(i64::MIN, 0).canonic());
    assert!(compact::Int { n: 28, bytes: 1 }.canonic());
    let mut out = Vec::new();
    compact::Int { n: -1, bytes: 0 }.encode(&mut out);
    assert_eq!(out, vec![0x7C, 0xFF]);
    assert_eq!(compact::Int { n: -1, bytes: 0 }.to_value(), Value::Int(-1));
}

#[test]
fn compact_counts_in_chosen_widths() {
    let mut out = Vec::new();
    compact::encode_count(3, 0, 0xA0, &mut out);
    compact::encode_count(3, 1, 0xA0, &mut out);
    compact::encode_count(3, 2, 0x80, &mut out);
    compact::encode_count(3, 4, 0xC0, &mut out);
    compact::encode_count(3, 8, 0xE0, &mut out);
    compact::encode_count(300, 0, 0xE0, &mut out);
    assert_eq!(out, vec![0xA3, 0xBC, 3, 0x9D, 0, 3, 0xDE, 0, 0, 0, 3, 0xFF, 0, 0, 0, 0, 0, 0, 0, 3, 0xFD, 0x01, 0x2C]);
    assert!(compact::canonic_width(3, 0));
    assert!(!compact::canonic_width(3, 1));
    assert!(compact::canonic_width(300, 3));
    assert!(!compact::canonic_width(300, 4));
}

#[test]
fn every_chosen_encoding_decodes_to_the_value() {
    let leaf = |n: i64, w: u8| compact_int(n, w);
    let values = vec![
        compact::TestValue::Nil,
        compact::TestValue::Bool(true),
        leaf(-70000, 8),
        compact::TestValue::Float(0x7FF8_0000_0000_0001),
        compact::TestValue::Float(1.5f64.to_bits()),
        compact::TestValue::ByteString(compact::ByteString { elements: vec![1, 2, 255], count_width: 2 }),
        compact::TestValue::Array(compact::Array { elements: vec![leaf(1, 1), compact::TestValue::Nil], count_width: 4 }),
        compact::TestValue::SetOf(compact::SetOf { elements: vec![leaf(3, 0), leaf(1, 2), leaf(3, 1)], count_width: 0 }),
        compact::TestValue::MapOf(compact::MapOf {
            elements: vec![(leaf(2, 0), leaf(0, 0)), (leaf(1, 0), leaf(1, 0)), (leaf(2, 4), leaf(9, 0))],
            count_width: 1,
        }),
        compact::TestValue::MapOf(compact::MapOf {
            elements: vec![
                (leaf(1, 0), compact::TestValue::Array(compact::Array { elements: vec![], count_width: 0 })),
                (leaf(2, 0), compact::TestValue::Nil),
            ],
            count_width: 0,
        }),
    ];
    for t in values {
        let bytes = encoded(&t);
        let v = t.to_value();
        assert!(v.is_wf());
        assert_eq!(read_value(&bytes, 0, false), Ok((v.clone(), bytes.len())));
        if t.canonic() {
            assert_eq!(read_value(&bytes, 0, true), Ok((v.clone(), bytes.len())));
            assert_eq!(to_vec(&v), Ok(bytes.clone()));
        } else {
            assert!(read_value(&bytes, 0, true).is_err());
            assert_ne!(to_vec(&v), Ok(bytes.clone()));
        }
    }
}

#[test]
fn compact_collections_expose_their_parts() {
    let b = compact::ByteString { elements: vec![7, 8], count_width: 0 };
    assert!(!b.canonic());
    assert_eq!(b.to_value(), Value::Array(vec![Value::Int(7), Value::Int(8)]));
    let mut out = Vec::new();
    b.encode(&mut out);
    assert_eq!(out, vec![0x82, 7, 8]);
    let a = compact::Array { elements: vec![compact_int(1, 0)], count_width: 1 };
    assert_eq!(a.to_value(), Value::Array(vec![Value::Int(1)]));
    let mut out = Vec::new();
    a.encode(&mut out);
    assert_eq!(out, vec![0xBC, 1, 0x61]);
}

fn spaces(pieces: Vec<Space_>) -> Spaces {
    Spaces(pieces.into_iter().map(|p| Space::new(p).unwrap()).collect())
}

#[test]
fn whitespace_pieces() {
    assert!(Space::new(Space_::Comment("a\nb".to_string())).is_none());
    assert!(Space_::Comment("ab".to_string()).is_valid());
    let s = spaces(vec![Space_::Tab, Space_::LF, Space_::CR, Space_::Space, Space_::Comment("hi".to_string())]);
    let mut out = Vec::new();
    s.encode(&mut out);
    assert_eq!(out, b"\t\n\r #hi\n");
    assert!(s.human());
    assert!(!s.canonic());
    assert!(!s.compact());
    let none = spaces(vec![]);
    assert!(none.canonic() && none.compact() && none.human());
    let mut out = Vec::new();
    Space_::Comment("x".to_string()).encode(&mut out);
    assert_eq!(out, b"#x\n");
}

#[test]
fn nil_and_bool_in_both_encodings() {
    let mut out = Vec::new();
    Nil::Human.encode(&mut out);
    Nil::Compact.encode(&mut out);
    Bool::Human(true).encode(&mut out);
    Bool::Human(false).encode(&mut out);
    Bool::Compact(true).encode(&mut out);
    Bool::Compact(false).encode(&mut out);
    assert_eq!(out, b"nil\x00truefalse\x21\x20");
    assert!(Nil::Compact.canonic() && Nil::Compact.compact() && !Nil::Compact.human());
    assert!(!Nil::Human.canonic() && !Nil::Human.compact() && Nil::Human.human());
    assert!(Bool::Compact(true).canonic() && Bool::Compact(true).compact() && !Bool::Compact(true).human());
    assert!(!Bool::Human(true).canonic() && !Bool::Human(true).compact() && Bool::Human(true).human());
    assert_eq!(Nil::Human.to_value(), Value::Nil);
    assert_eq!(Bool::Human(true).to_value(), Value::Bool(true));
    assert_eq!(Bool::Compact(false).to_value(), Value::Bool(false));
}

/// An int in a human-readable form; `underscores[i]` underscores follow the digit at place
/// `i`.
fn human_int(n: i64, explicit_sign: bool, base: Base, underscores: Vec<u8>, leading_zeros: u8) -> Int {
    let underscores = underscores.into_iter().enumerate().collect();
    Int::Human { n, explicit_sign, base, underscores, leading_zeros }
}

fn hex(places: Vec<usize>) -> Base {
    Base::Hex(places.into_iter().collect())
}

fn text(i: &Int) -> String {
    let mut out = Vec::new();
    i.encode(&mut out);
    String::from_utf8(out).unwrap()
}

#[test]
fn human_ints_in_every_form() {
    assert_eq!(text(&human_int(255, false, Base::Decimal, vec![], 0)), "255");
    assert_eq!(text(&human_int(255, true, Base::Decimal, vec![], 2)), "+00255");
    assert_eq!(text(&human_int(255, true, hex(vec![]), vec![], 0)), "0xff");
    assert_eq!(text(&human_int(255, false, hex(vec![1, 7]), vec![0, 2], 1)), "0x0F__f");
    assert_eq!(text(&human_int(5, false, Base::Binary, vec![1, 0, 3], 0)), "0b1_01___");
    assert_eq!(text(&human_int(-255, true, hex(vec![0]), vec![], 1)), "-0255");
    assert_eq!(text(&human_int(i64::MIN, false, Base::Binary, vec![], 0)), "-9223372036854775808");
    assert_eq!(text(&human_int(0, false, Base::Decimal, vec![3], 0)), "0___");
    let i = human_int(7, false, Base::Decimal, vec![], 0);
    assert!(i.human() && !i.compact() && !i.canonic());
    assert_eq!(i.to_value(), Value::Int(7));
    let c = Int::Compact { n: 7, bytes: 1 };
    assert!(c.compact() && !c.human() && !c.canonic());
    assert!(Int::Compact { n: 7, bytes: 0 }.canonic());
    assert!(Int::Compact { n: -129, bytes: 3 }.canonic());
    let mut out = Vec::new();
    c.encode(&mut out);
    assert_eq!(out, vec![0x7C, 7]);
}

#[test]
fn test_values_are_accepted_where_they_say() {
    let values = vec![
        TestValue::Nil(spaces(vec![]), Nil::Compact),
        TestValue::Nil(spaces(vec![Space_::Space, Space_::Comment("c".to_string())]), Nil::Human),
        TestValue::Bool(spaces(vec![]), Bool::Compact(true)),
        TestValue::Bool(spaces(vec![Space_::LF]), Bool::Human(false)),
        TestValue::Int(spaces(vec![]), Int::Compact { n: -5, bytes: 4 }),
        TestValue::Int(spaces(vec![]), Int::Compact { n: -5, bytes: 1 }),
        TestValue::Int(spaces(vec![Space_::Tab]), human_int(-5, false, Base::Decimal, vec![2], 3)),
        TestValue::Int(spaces(vec![]), human_int(500, false, hex(vec![0, 1, 2]), vec![0, 1], 0)),
        TestValue::Int(spaces(vec![]), human_int(6, true, Base::Binary, vec![], 9)),
    ];
    for t in values {
        let mut bytes = Vec::new();
        t.encode(&mut bytes);
        let v = t.to_value();
        if t.compact() {
            assert_eq!(read_value(&bytes, 0, false), Ok((v.clone(), bytes.len())));
        }
        if t.canonic() {
            assert!(t.compact());
            assert_eq!(read_value(&bytes, 0, true), Ok((v.clone(), bytes.len())));
        } else if t.compact() {
            assert!(read_value(&bytes, 0, true).is_err());
        }
        if t.human() {
            let (parsed, end) = read_text(&bytes, 0).unwrap();
            assert_eq!(end, bytes.len());
            assert_eq!(parsed.to_value(&[]), Some(v.clone()));
        }
    }
}

#[test]
fn test_type_has_one_field_of_each_kind() {
    let t = test_type::new();
    assert_eq!(t.a_char, '@');
    assert_eq!(t.a_string, "@@");
    assert_eq!(t.bytes2, test_type::Bytes(vec![0, 1]));
    assert_eq!(t.an_option, Some(0));
    assert_eq!(t.sequence2, vec![0, 1]);
    assert_eq!(t.map0.len(), 0);
    assert_eq!(t.map1.into_iter().collect::<Vec<(u8, u8)>>(), vec![(0, 0)]);
    assert_eq!(t.map2.into_iter().collect::<Vec<(u8, u8)>>(), vec![(0, 0), (1, 1)]);
    assert_eq!(t.enum_e, test_type::TestEnum::E { foo: 0, bar: 0 });
    assert_eq!(t.nested, test_type::Nested { foo: test_type::BiggerStruct { foo: 0, bar: 0 }, bar: (0, 0) });
    assert_eq!(test_type::new(), test_type::new());
}

fn blank() -> Spaces {
    spaces(vec![])
}

fn written_int(n: i64, text: &str) -> human::TestValue {
    human::TestValue::Int(blank(), human::Int { n, text: text.as_bytes().to_vec() })
}

fn read_back(t: &human::TestValue) -> (Value, String) {
    let mut out = Vec::new();
    t.encode(&mut out);
    let (parsed, end) = read_text(&out, 0).unwrap();
    assert_eq!(end, out.len());
    let bits: Vec<u64> = parsed
        .float_texts()
        .iter()
        .map(|t| {
            let text: String = String::from_utf8(t.clone()).unwrap().replace('_', "");
            text.parse::<f64>().unwrap().to_bits()
        })
        .collect();
    (parsed.to_value(&bits).unwrap(), String::from_utf8(out).unwrap())
}

#[test]
fn human_texts_are_read_as_their_values() {
    let some = spaces(vec![Space_::Space, Space_::Comment("note".to_string()), Space_::Tab]);
    let leaves = vec![
        human::TestValue::Nil(spaces(vec![Space_::LF])),
        human::TestValue::Bool(blank(), true),
        human::TestValue::Bool(spaces(vec![Space_::CR]), false),
        written_int(-17, "-1_7"),
        written_int(255, "0xF_f"),
        human::TestValue::Float(blank(), human::Float { bits: (-2.5e3f64).to_bits(), text: b"-2_5.0_0E2".to_vec() }),
        human::TestValue::Float(blank(), human::Float { bits: 0x7FF8_0000_0000_0001, text: b"NaN".to_vec() }),
        human::TestValue::ByteString(blank(), human::ByteString { bytes: vec![1, 255], text: b"@x01_fF".to_vec() }),
        human::TestValue::ByteString(blank(), human::ByteString { bytes: vec![5], text: b"@[ 0b101 ]".to_vec() }),
        human::TestValue::Utf8String(blank(), human::Utf8String { string: "a\\n".to_string(), text: b"@@\"a\\n\"@@".to_vec() }),
        human::TestValue::Utf8String(some, human::Utf8String { string: "\u{e4}\n".to_string(), text: b"\"\\{e4}\\n\"".to_vec() }),
    ];
    for t in &leaves {
        let (v, _) = read_back(t);
        assert_eq!(v, t.to_value());
    }
    let item = |n: i64| (spaces(vec![Space_::Space]), written_int(n, &n.to_string()), blank());
    let array = human::TestValue::Array(
        blank(),
        human::Array { values: vec![item(3), item(1), item(3)], trailing_comma: Some(spaces(vec![Space_::LF])) },
    );
    let (v, text) = read_back(&array);
    assert_eq!(text, "[ 3, 1, 3,\n]");
    assert_eq!(v, Value::Array(vec![Value::Int(3), Value::Int(1), Value::Int(3)]));
    assert_eq!(v, array.to_value());

    let set = human::TestValue::SetOf(
        spaces(vec![Space_::Tab]),
        human::SetOf { values: vec![item(3), item(1), item(3)], trailing_comma: None },
    );
    let (v, text) = read_back(&set);
    assert_eq!(text, "\t@{ 3, 1, 3}");
    assert_eq!(v, Value::Mapping(vec![(Value::Int(1), Value::Nil), (Value::Int(3), Value::Nil)]));
    assert_eq!(v, set.to_value());

    let entry = |k: i64, x: i64| {
        (blank(), written_int(k, &k.to_string()), spaces(vec![Space_::Space]), blank(), written_int(x, &x.to_string()), blank())
    };
    let map = human::TestValue::MapOf(
        blank(),
        human::MapOf { values: vec![entry(2, 0), entry(1, 1), entry(2, 9)], trailing_comma: Some(blank()) },
    );
    let (v, text) = read_back(&map);
    assert_eq!(text, "{2 :0,1 :1,2 :9,}");
    assert_eq!(v, Value::Mapping(vec![(Value::Int(1), Value::Int(1)), (Value::Int(2), Value::Int(9))]));
    assert_eq!(v, map.to_value());

    let nested = human::TestValue::Array(
        blank(),
        human::Array { values: vec![(blank(), map, blank()), (blank(), set, blank())], trailing_comma: None },
    );
    let (v, text) = read_back(&nested);
    assert_eq!(text, "[{2 :0,1 :1,2 :9,},\t@{ 3, 1, 3}]");
    assert_eq!(v, nested.to_value());

    let empty = human::TestValue::Array(blank(), human::Array { values: vec![], trailing_comma: Some(blank()) });
    assert_eq!(read_back(&empty), (Value::Array(vec![]), "[]".to_string()));
    let empty = human::TestValue::MapOf(blank(), human::MapOf { values: vec![], trailing_comma: None });
    assert_eq!(read_back(&empty), (Value::Mapping(vec![]), "{}".to_string()));
}

#[test]
fn human_leaves_hand_out_their_parts() {
    let i = human::Int { n: 4, text: b"+4".to_vec() };
    let f = human::Float { bits: 7, text: b"Inf".to_vec() };
    let b = human::ByteString { bytes: vec![1], text: b"@[1]".to_vec() };
    let s = human::Utf8String { string: "x".to_string(), text: b"\"x\"".to_vec() };
    let mut out = vec![b'>'];
    i.encode(&mut out);
    f.encode(&mut out);
    b.encode(&mut out);
    s.encode(&mut out);
    assert_eq!(out, b">+4Inf@[1]\"x\"");
    assert_eq!(i.to_value(), 4);
    assert_eq!(f.to_value(), 7);
    assert_eq!(b.to_value(), &vec![1]);
    assert_eq!(s.to_value(), "x");
    assert_eq!(human::bytes_value(&[1, 2]), Value::Array(vec![Value::Int(1), Value::Int(2)]));
    let a = human::Array { values: vec![(blank(), written_int(1, "1"), blank())], trailing_comma: None };
    let mut out = Vec::new();
    a.encode(&mut out);
    assert_eq!(out, b"[1]");
    assert_eq!(a.to_value(), Value::Array(vec![Value::Int(1)]));
}

#[test]
fn compact_sets_and_maps_expose_their_parts() {
    let s = compact::SetOf { elements: vec![compact_int(2, 0), compact_int(1, 0)], count_width: 0 };
    assert!(!s.canonic());
    assert_eq!(s.to_value(), Value::Mapping(vec![(Value::Int(1), Value::Nil), (Value::Int(2), Value::Nil)]));
    let mut out = Vec::new();
    s.encode(&mut out);
    assert_eq!(out, vec![0xC2, 0x62, 0x61]);
    let m = compact::MapOf { elements: vec![(compact_int(1, 0), compact::TestValue::Nil), (compact_int(2, 0), compact::TestValue::Bool(true))], count_width: 0 };
    assert!(m.canonic());
    assert_eq!(m.to_value(), Value::Mapping(vec![(Value::Int(1), Value::Nil), (Value::Int(2), Value::Bool(true))]));
    let mut out = Vec::new();
    m.encode(&mut out);
    assert_eq!(out, vec![0xE2, 0x61, 0x00, 0x62, 0x21]);
    let unordered = compact::MapOf { elements: vec![(compact_int(2, 0), compact::TestValue::Nil), (compact_int(1, 0), compact::TestValue::Nil)], count_width: 0 };
    assert!(!unordered.canonic());
    let a = compact::Array { elements: vec![compact_int(1, 1)], count_width: 0 };
    assert!(!a.canonic());
    assert!(compact::Array { elements: vec![compact_int(1, 0)], count_width: 0 }.canonic());
}

#[test]
fn human_ints_at_the_edges_are_read() {
    let pieces = vec![Space_::Comment("caf\u{e9} # twice".to_string()), Space_::CR, Space_::Tab];
    let values = vec![
        TestValue::Int(spaces(pieces), human_int(i64::MIN, true, hex(vec![0]), vec![1, 2, 3], 255)),
        TestValue::Int(spaces(vec![]), human_int(i64::MAX, false, hex(vec![0, 2, 4, 300]), vec![0, 0, 9], 0)),
        TestValue::Int(spaces(vec![]), human_int(i64::MAX, true, Base::Binary, vec![200], 7)),
        TestValue::Int(spaces(vec![]), human_int(0, true, Base::Decimal, vec![], 0)),
        TestValue::Int(spaces(vec![]), human_int(0, false, hex(vec![]), vec![4], 1)),
    ];
    for t in values {
        assert!(t.human() && !t.compact() && !t.canonic());
        let mut bytes = Vec::new();
        t.encode(&mut bytes);
        bytes.push(b',');
        let (parsed, end) = read_text(&bytes, 0).unwrap();
        assert_eq!(end, bytes.len() - 1);
        assert_eq!(parsed.to_value(&[]), Some(t.to_value()));
    }
}

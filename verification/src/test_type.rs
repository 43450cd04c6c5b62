//! A type of every kind of field that the codecs know, for testing adapters.
use std::collections::BTreeMap;
use vstd::prelude::*;

verus! {

/// Bytes, to be written as a byte string.
#[derive(Debug, PartialEq, Eq)]
pub struct Bytes(pub Vec<u8>);

#[derive(Debug, PartialEq, Eq)]
pub struct UnitStruct;

#[derive(Debug, PartialEq, Eq)]
pub struct EmptyStruct {}

#[derive(Debug, PartialEq, Eq)]
pub struct SmallStruct {
    pub foo: u8,
}

#[derive(Debug, PartialEq, Eq)]
pub struct BiggerStruct {
    pub foo: u8,
    pub bar: i8,
}

#[derive(Debug, PartialEq, Eq)]
pub struct Nested {
    pub foo: BiggerStruct,
    pub bar: (u8, u8),
}

#[derive(Debug, PartialEq, Eq)]
pub struct NewTypeStruct(pub u8);

#[derive(Debug, PartialEq, Eq)]
pub enum TestEnum {
    A,
    B(u8),
    C(u8, u8),
    D { field: i8 },
    E { foo: i8, bar: u8 },
    Z(),
    Y {},
}

/// One field of each kind. The maps are held by their entries, in the order of their keys.
#[derive(Debug, PartialEq, Eq)]
pub struct TestType {
    pub a_bool: bool,
    pub a_u8: u8,
    pub a_u16: u16,
    pub a_u32: u32,
    pub a_u64: u64,
    pub a_i8: i8,
    pub a_i16: i16,
    pub a_i32: i32,
    pub a_i64: i64,
    pub a_char: char,
    pub a_string: String,
    pub bytes0: Bytes,
    pub bytes1: Bytes,
    pub bytes2: Bytes,
    pub an_option: Option<u8>,
    pub unit: (),
    pub unit_struct: UnitStruct,
    pub empty_struct: EmptyStruct,
    pub small_struct: SmallStruct,
    pub bigger_struct: BiggerStruct,
    pub new_type_struct: NewTypeStruct,
    pub sequence0: Vec<i16>,
    pub sequence1: Vec<i16>,
    pub sequence2: Vec<i16>,
    pub map0: BTreeMap<u8, u8>,
    pub map1: BTreeMap<u8, u8>,
    pub map2: BTreeMap<u8, u8>,
    pub enum_a: TestEnum,
    pub enum_b: TestEnum,
    pub enum_c: TestEnum,
    pub enum_d: TestEnum,
    pub enum_e: TestEnum,
    pub enum_z: TestEnum,
    pub enum_y: TestEnum,
    pub tuple0: (),
    pub tuple2: (u8, u8),
    pub nested: Nested,
}

/// A value of the test type: zeros, `@` and `@@`, and collections of no, one and two items.
pub fn new() -> (t: TestType)
    ensures
        !t.a_bool,
        t.a_u8 == 0 && t.a_u16 == 0 && t.a_u32 == 0 && t.a_u64 == 0,
        t.a_i8 == 0 && t.a_i16 == 0 && t.a_i32 == 0 && t.a_i64 == 0,
        t.a_char == '@',
        t.a_string@ == "@@"@,
        t.bytes0.0@ == Seq::<u8>::empty(),
        t.bytes1.0@ == seq![0u8],
        t.bytes2.0@ == seq![0u8, 1u8],
        t.an_option == Some(0u8),
        t.small_struct.foo == 0,
        t.bigger_struct.foo == 0 && t.bigger_struct.bar == 0,
        t.new_type_struct.0 == 0,
        t.sequence0@ == Seq::<i16>::empty(),
        t.sequence1@ == seq![0i16],
        t.sequence2@ == seq![0i16, 1i16],
        t.map0@ == Map::<u8, u8>::empty(),
        t.map1@ == Map::<u8, u8>::empty().insert(0u8, 0u8),
        t.map2@ == Map::<u8, u8>::empty().insert(0u8, 0u8).insert(1u8, 1u8),
        t.enum_a == TestEnum::A,
        t.enum_b == TestEnum::B(0),
        t.enum_c == TestEnum::C(0, 0),
        t.enum_d == (TestEnum::D { field: 0 }),
        t.enum_e == (TestEnum::E { foo: 0, bar: 0 }),
        t.enum_z == TestEnum::Z(),
        t.enum_y == (TestEnum::Y {  }),
        t.tuple2 == (0u8, 0u8),
        t.nested.foo.foo == 0 && t.nested.foo.bar == 0 && t.nested.bar == (0u8, 0u8),
{
    let mut bytes1: Vec<u8> = Vec::new();
    bytes1.push(0);
    let mut bytes2: Vec<u8> = Vec::new();
    bytes2.push(0);
    bytes2.push(1);
    let mut sequence1: Vec<i16> = Vec::new();
    sequence1.push(0);
    let mut sequence2: Vec<i16> = Vec::new();
    sequence2.push(0);
    sequence2.push(1);
    let mut map1: BTreeMap<u8, u8> = BTreeMap::new();
    map1.insert(0, 0);
    let mut map2: BTreeMap<u8, u8> = BTreeMap::new();
    map2.insert(0, 0);
    map2.insert(1, 1);
    let t = TestType {
        a_bool: false,
        a_u8: 0,
        a_u16: 0,
        a_u32: 0,
        a_u64: 0,
        a_i8: 0,
        a_i16: 0,
        a_i32: 0,
        a_i64: 0,
        a_char: '@',
        a_string: "@@".to_owned(),
        bytes0: Bytes(Vec::new()),
        bytes1: Bytes(bytes1),
        bytes2: Bytes(bytes2),
        an_option: Some(0),
        unit: (),
        unit_struct: UnitStruct,
        empty_struct: EmptyStruct {  },
        small_struct: SmallStruct { foo: 0 },
        bigger_struct: BiggerStruct { foo: 0, bar: 0 },
        new_type_struct: NewTypeStruct(0),
        sequence0: Vec::new(),
        sequence1,
        sequence2,
        map0: BTreeMap::new(),
        map1,
        map2,
        enum_a: TestEnum::A,
        enum_b: TestEnum::B(0),
        enum_c: TestEnum::C(0, 0),
        enum_d: TestEnum::D { field: 0 },
        enum_e: TestEnum::E { foo: 0, bar: 0 },
        enum_z: TestEnum::Z(),
        enum_y: TestEnum::Y {  },
        tuple0: (),
        tuple2: (0, 0),
        nested: Nested { foo: BiggerStruct { foo: 0, bar: 0 }, bar: (0, 0) },
    };
    assert(t.bytes0.0@ =~= Seq::<u8>::empty());
    assert(t.bytes1.0@ =~= seq![0u8]);
    assert(t.bytes2.0@ =~= seq![0u8, 1u8]);
    assert(t.sequence0@ =~= Seq::<i16>::empty());
    assert(t.sequence1@ =~= seq![0i16]);
    assert(t.sequence2@ =~= seq![0i16, 1i16]);
    t
}

} // verus!

//! Schema identity of wire types.

use pm::blend::{schema_hash_str, PodSchema};
use pm::params::{ParamRequest, ParamSet, PARAM_SAVE};

#[test]
fn schema_hash_is_stable_and_discriminating() {
    let a = schema_hash_str("Truck|body:Body|steer:f32");
    let b = schema_hash_str("Truck|body:Body|steer:f32|heat:f32");
    assert_ne!(a, b, "a new field changes the schema identity");
    assert_eq!(a, schema_hash_str("Truck|body:Body|steer:f32"));
}

#[test]
fn the_hash_is_fnv_1a() {
    assert_eq!(schema_hash_str(""), 0xcbf2_9ce4_8422_2325);
    assert_eq!(schema_hash_str("a"), 0xaf63_dc4c_8601_ec8c);
    assert_eq!(schema_hash_str("foobar"), 0x8594_4171_f739_67e8);
}

#[test]
fn numbers_hash_their_type_name() {
    assert_eq!(u8::SCHEMA_HASH, schema_hash_str("u8"));
    assert_eq!(u16::SCHEMA_HASH, schema_hash_str("u16"));
    assert_eq!(u32::SCHEMA_HASH, schema_hash_str("u32"));
    assert_eq!(u64::SCHEMA_HASH, schema_hash_str("u64"));
    assert_eq!(i8::SCHEMA_HASH, schema_hash_str("i8"));
    assert_eq!(i16::SCHEMA_HASH, schema_hash_str("i16"));
    assert_eq!(i32::SCHEMA_HASH, schema_hash_str("i32"));
    assert_eq!(i64::SCHEMA_HASH, schema_hash_str("i64"));
    assert_eq!(ParamSet::SCHEMA_HASH, schema_hash_str("ParamSet|idx:u32|value:f32"));
}

struct Bare;

impl PodSchema for Bare {}

#[test]
fn an_unhashed_type_has_identity_zero() {
    assert_eq!(Bare::SCHEMA_HASH, 0);
}

#[test]
fn the_sentinel_index_saves() {
    let set = ParamSet { idx: 3, value: 0.5f32.to_bits() };
    assert_eq!(set.request(), ParamRequest::Assign { idx: 3, value: 0.5f32.to_bits() });
    let save = ParamSet { idx: PARAM_SAVE, value: 0 };
    assert_eq!(save.request(), ParamRequest::Save);
}

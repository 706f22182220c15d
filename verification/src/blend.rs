//! Schema identity of wire types.
//!
//! Every type registered on the wire carries a hash of its field
//! descriptors, and the handshake compares it per channel alongside name and
//! size: same-size drift in meaning fails the connect loudly instead of
//! silently misparsing.

use vstd::prelude::*;

use crate::text::utf8;

verus! {

/// FNV-1a over the bytes, 64 bits wide.
pub open spec fn fnv64(bytes: Seq<u8>) -> u64
    decreases bytes.len(),
{
    if bytes.len() == 0 {
        0xcbf2_9ce4_8422_2325
    } else {
        (fnv64(bytes.drop_last()) ^ (bytes.last() as u64)).wrapping_mul(0x0000_0100_0000_01b3)
    }
}

/// The hash of a schema descriptor: a type's name and its fields' names,
/// types, wire forms and blend tags. Two builds agree on it if they agree
/// on everything that gives the bytes meaning.
pub fn schema_hash_str(s: &str) -> (r: u64)
    ensures
        r == fnv64(utf8(s@)),
{
    let bytes: &[u8] = s.as_bytes();
    let mut h: u64 = 0xcbf2_9ce4_8422_2325;
    let mut i: usize = 0;
    assert(bytes@.take(0) =~= Seq::<u8>::empty());
    while i < bytes.len()
        invariant
            i <= bytes@.len(),
            h == fnv64(bytes@.take(i as int)),
        decreases bytes@.len() - i,
    {
        proof {
            let next = bytes@.take(i + 1);
            assert(next.drop_last() =~= bytes@.take(i as int));
        }
        h = (h ^ (bytes[i] as u64)).wrapping_mul(0x0000_0100_0000_01b3);
        i += 1;
    }
    assert(bytes@.take(i as int) =~= bytes@);
    h
}

/// The schema identity of a wire type. Zero means unhashed: name and size
/// only.
pub trait PodSchema {
    const SCHEMA_HASH: u64 = 0;
}

/// A bare number hashes its type's name.
impl PodSchema for u8 {
    const SCHEMA_HASH: u64 = 0x08c4_8207_b567_53d8;
}

/// A bare number hashes its type's name.
impl PodSchema for u16 {
    const SCHEMA_HASH: u64 = 0x4d24_d319_3e7e_f3bf;
}

/// A bare number hashes its type's name.
impl PodSchema for u32 {
    const SCHEMA_HASH: u64 = 0x4d2b_df19_3e85_26d1;
}

/// A bare number hashes its type's name.
impl PodSchema for u64 {
    const SCHEMA_HASH: u64 = 0x4d35_d319_3e8d_66f2;
}

/// A bare number hashes its type's name.
impl PodSchema for i8 {
    const SCHEMA_HASH: u64 = 0x08b7_0a07_b55b_fd94;
}

/// A bare number hashes its type's name.
impl PodSchema for i16 {
    const SCHEMA_HASH: u64 = 0x2aeb_bf19_2b3b_86fb;
}

/// A bare number hashes its type's name.
impl PodSchema for i32 {
    const SCHEMA_HASH: u64 = 0x2af2_b319_2b41_9145;
}

/// A bare number hashes its type's name.
impl PodSchema for i64 {
    const SCHEMA_HASH: u64 = 0x2ae1_af19_2b33_1746;
}

/// One byte more: `x` is the hash so far with the byte mixed in, and `r` what
/// is left of its product once `over` multiples of the range are off.
pub proof fn fnv64_step(s: Seq<u8>, k: int, h: u64, x: u64, over: int, r: u64)
    requires
        0 <= k < s.len(),
        fnv64(s.take(k)) == h,
        h ^ (s[k] as u64) == x,
        x * 0x0000_0100_0000_01b3 == over * 0x1_0000_0000_0000_0000 + r,
    ensures
        fnv64(s.take(k + 1)) == r,
{
    assert(s.take(k + 1).drop_last() =~= s.take(k));
}

/// Text of ASCII characters is its own bytes.
pub proof fn ascii_bytes(t: Seq<char>, s: Seq<u8>)
    requires
        t.len() == s.len(),
        forall|i: int| 0 <= i < t.len() ==> (#[trigger] t[i]) as int == s[i] && s[i] < 128,
    ensures
        utf8(t) == s,
{
    assert forall|i: int| 0 <= i < t.len() implies '\0' <= #[trigger] t[i] <= '\u{7f}' by {
        assert(t[i] as int == s[i]);
    }
    assert(vstd::utf8::is_ascii_chars(t));
    vstd::utf8::is_ascii_chars_encode_utf8(t);
    assert(utf8(t) =~= s);
}

proof fn u8_hash()
    ensures
        0x08c4_8207_b567_53d8u64 == fnv64(utf8("u8"@)),
{
    assert({
        &&& 0xcbf2_9ce4_8422_2325u64 ^ 117u64 == 0xcbf2_9ce4_8422_2350
        &&& 0xaf63_e84c_8602_00f0u64 ^ 56u64 == 0xaf63_e84c_8602_00c8
    }) by (bit_vector);
    reveal_strlit("u8");
    let s = seq![117u8, 56u8];
    ascii_bytes("u8"@, s);
    assert(s.take(0) =~= Seq::<u8>::empty());
    fnv64_step(s, 0, 0xcbf29ce484222325, 0xcbf29ce484222350, 0x00cbf29ce5de, 0xaf63e84c860200f0);
    fnv64_step(s, 1, 0xaf63e84c860200f0, 0xaf63e84c860200c8, 0x00af63e84db0, 0x08c48207b56753d8);
    assert(s.take(2) =~= s);
}

proof fn u16_hash()
    ensures
        0x4d24_d319_3e7e_f3bfu64 == fnv64(utf8("u16"@)),
{
    assert({
        &&& 0xcbf2_9ce4_8422_2325u64 ^ 117u64 == 0xcbf2_9ce4_8422_2350
        &&& 0xaf63_e84c_8602_00f0u64 ^ 49u64 == 0xaf63_e84c_8602_00c1
        &&& 0x08c4_7b07_b567_47f3u64 ^ 54u64 == 0x08c4_7b07_b567_47c5
    }) by (bit_vector);
    reveal_strlit("u16");
    let s = seq![117u8, 49u8, 54u8];
    ascii_bytes("u16"@, s);
    assert(s.take(0) =~= Seq::<u8>::empty());
    fnv64_step(s, 0, 0xcbf29ce484222325, 0xcbf29ce484222350, 0x00cbf29ce5de, 0xaf63e84c860200f0);
    fnv64_step(s, 1, 0xaf63e84c860200f0, 0xaf63e84c860200c1, 0x00af63e84db0, 0x08c47b07b56747f3);
    fnv64_step(s, 2, 0x08c47b07b56747f3, 0x08c47b07b56747c5, 0x0008c47b07c4, 0x4d24d3193e7ef3bf);
    assert(s.take(3) =~= s);
}

proof fn u32_hash()
    ensures
        0x4d2b_df19_3e85_26d1u64 == fnv64(utf8("u32"@)),
{
    assert({
        &&& 0xcbf2_9ce4_8422_2325u64 ^ 117u64 == 0xcbf2_9ce4_8422_2350
        &&& 0xaf63_e84c_8602_00f0u64 ^ 51u64 == 0xaf63_e84c_8602_00c3
        &&& 0x08c4_7d07_b567_4b59u64 ^ 50u64 == 0x08c4_7d07_b567_4b6b
    }) by (bit_vector);
    reveal_strlit("u32");
    let s = seq![117u8, 51u8, 50u8];
    ascii_bytes("u32"@, s);
    assert(s.take(0) =~= Seq::<u8>::empty());
    fnv64_step(s, 0, 0xcbf29ce484222325, 0xcbf29ce484222350, 0x00cbf29ce5de, 0xaf63e84c860200f0);
    fnv64_step(s, 1, 0xaf63e84c860200f0, 0xaf63e84c860200c3, 0x00af63e84db0, 0x08c47d07b5674b59);
    fnv64_step(s, 2, 0x08c47d07b5674b59, 0x08c47d07b5674b6b, 0x0008c47d07c4, 0x4d2bdf193e8526d1);
    assert(s.take(3) =~= s);
}

proof fn u64_hash()
    ensures
        0x4d35_d319_3e8d_66f2u64 == fnv64(utf8("u64"@)),
{
    assert({
        &&& 0xcbf2_9ce4_8422_2325u64 ^ 117u64 == 0xcbf2_9ce4_8422_2350
        &&& 0xaf63_e84c_8602_00f0u64 ^ 54u64 == 0xaf63_e84c_8602_00c6
        &&& 0x08c4_8007_b567_5072u64 ^ 52u64 == 0x08c4_8007_b567_5046
    }) by (bit_vector);
    reveal_strlit("u64");
    let s = seq![117u8, 54u8, 52u8];
    ascii_bytes("u64"@, s);
    assert(s.take(0) =~= Seq::<u8>::empty());
    fnv64_step(s, 0, 0xcbf29ce484222325, 0xcbf29ce484222350, 0x00cbf29ce5de, 0xaf63e84c860200f0);
    fnv64_step(s, 1, 0xaf63e84c860200f0, 0xaf63e84c860200c6, 0x00af63e84db0, 0x08c48007b5675072);
    fnv64_step(s, 2, 0x08c48007b5675072, 0x08c48007b5675046, 0x0008c48007c4, 0x4d35d3193e8d66f2);
    assert(s.take(3) =~= s);
}

proof fn i8_hash()
    ensures
        0x08b7_0a07_b55b_fd94u64 == fnv64(utf8("i8"@)),
{
    assert({
        &&& 0xcbf2_9ce4_8422_2325u64 ^ 105u64 == 0xcbf2_9ce4_8422_234c
        &&& 0xaf63_e44c_8601_fa24u64 ^ 56u64 == 0xaf63_e44c_8601_fa1c
    }) by (bit_vector);
    reveal_strlit("i8");
    let s = seq![105u8, 56u8];
    ascii_bytes("i8"@, s);
    assert(s.take(0) =~= Seq::<u8>::empty());
    fnv64_step(s, 0, 0xcbf29ce484222325, 0xcbf29ce48422234c, 0x00cbf29ce5de, 0xaf63e44c8601fa24);
    fnv64_step(s, 1, 0xaf63e44c8601fa24, 0xaf63e44c8601fa1c, 0x00af63e44db0, 0x08b70a07b55bfd94);
    assert(s.take(2) =~= s);
}

proof fn i16_hash()
    ensures
        0x2aeb_bf19_2b3b_86fbu64 == fnv64(utf8("i16"@)),
{
    assert({
        &&& 0xcbf2_9ce4_8422_2325u64 ^ 105u64 == 0xcbf2_9ce4_8422_234c
        &&& 0xaf63_e44c_8601_fa24u64 ^ 49u64 == 0xaf63_e44c_8601_fa15
        &&& 0x08b7_0307_b55b_f1afu64 ^ 54u64 == 0x08b7_0307_b55b_f199
    }) by (bit_vector);
    reveal_strlit("i16");
    let s = seq![105u8, 49u8, 54u8];
    ascii_bytes("i16"@, s);
    assert(s.take(0) =~= Seq::<u8>::empty());
    fnv64_step(s, 0, 0xcbf29ce484222325, 0xcbf29ce48422234c, 0x00cbf29ce5de, 0xaf63e44c8601fa24);
    fnv64_step(s, 1, 0xaf63e44c8601fa24, 0xaf63e44c8601fa15, 0x00af63e44db0, 0x08b70307b55bf1af);
    fnv64_step(s, 2, 0x08b70307b55bf1af, 0x08b70307b55bf199, 0x0008b70307c4, 0x2aebbf192b3b86fb);
    assert(s.take(3) =~= s);
}

proof fn i32_hash()
    ensures
        0x2af2_b319_2b41_9145u64 == fnv64(utf8("i32"@)),
{
    assert({
        &&& 0xcbf2_9ce4_8422_2325u64 ^ 105u64 == 0xcbf2_9ce4_8422_234c
        &&& 0xaf63_e44c_8601_fa24u64 ^ 51u64 == 0xaf63_e44c_8601_fa17
        &&& 0x08b7_0507_b55b_f515u64 ^ 50u64 == 0x08b7_0507_b55b_f527
    }) by (bit_vector);
    reveal_strlit("i32");
    let s = seq![105u8, 51u8, 50u8];
    ascii_bytes("i32"@, s);
    assert(s.take(0) =~= Seq::<u8>::empty());
    fnv64_step(s, 0, 0xcbf29ce484222325, 0xcbf29ce48422234c, 0x00cbf29ce5de, 0xaf63e44c8601fa24);
    fnv64_step(s, 1, 0xaf63e44c8601fa24, 0xaf63e44c8601fa17, 0x00af63e44db0, 0x08b70507b55bf515);
    fnv64_step(s, 2, 0x08b70507b55bf515, 0x08b70507b55bf527, 0x0008b70507c4, 0x2af2b3192b419145);
    assert(s.take(3) =~= s);
}

proof fn i64_hash()
    ensures
        0x2ae1_af19_2b33_1746u64 == fnv64(utf8("i64"@)),
{
    assert({
        &&& 0xcbf2_9ce4_8422_2325u64 ^ 105u64 == 0xcbf2_9ce4_8422_234c
        &&& 0xaf63_e44c_8601_fa24u64 ^ 54u64 == 0xaf63_e44c_8601_fa12
        &&& 0x08b7_0007_b55b_ec96u64 ^ 52u64 == 0x08b7_0007_b55b_eca2
    }) by (bit_vector);
    reveal_strlit("i64");
    let s = seq![105u8, 54u8, 52u8];
    ascii_bytes("i64"@, s);
    assert(s.take(0) =~= Seq::<u8>::empty());
    fnv64_step(s, 0, 0xcbf29ce484222325, 0xcbf29ce48422234c, 0x00cbf29ce5de, 0xaf63e44c8601fa24);
    fnv64_step(s, 1, 0xaf63e44c8601fa24, 0xaf63e44c8601fa12, 0x00af63e44db0, 0x08b70007b55bec96);
    fnv64_step(s, 2, 0x08b70007b55bec96, 0x08b70007b55beca2, 0x0008b70007c4, 0x2ae1af192b331746);
    assert(s.take(3) =~= s);
}

/// A bare number's schema identity is the hash of its type's name.
pub proof fn numbers_hash_their_names()
    ensures
        <u8 as PodSchema>::SCHEMA_HASH == fnv64(utf8("u8"@)),
        <u16 as PodSchema>::SCHEMA_HASH == fnv64(utf8("u16"@)),
        <u32 as PodSchema>::SCHEMA_HASH == fnv64(utf8("u32"@)),
        <u64 as PodSchema>::SCHEMA_HASH == fnv64(utf8("u64"@)),
        <i8 as PodSchema>::SCHEMA_HASH == fnv64(utf8("i8"@)),
        <i16 as PodSchema>::SCHEMA_HASH == fnv64(utf8("i16"@)),
        <i32 as PodSchema>::SCHEMA_HASH == fnv64(utf8("i32"@)),
        <i64 as PodSchema>::SCHEMA_HASH == fnv64(utf8("i64"@)),
{
    u8_hash();
    u16_hash();
    u32_hash();
    u64_hash();
    i8_hash();
    i16_hash();
    i32_hash();
    i64_hash();
}

} // verus!

//! Live-tuned parameters: the one wire event of the system.

use vstd::prelude::*;

use crate::blend::{ascii_bytes, fnv64, fnv64_step, PodSchema};
use crate::text::utf8;

verus! {

/// A client asks the server to set parameter `idx` to `value`, an `f32` bit
/// pattern. The server clamps, and the replicated set carries the applied
/// truth back to everyone.
#[derive(Clone, Copy, PartialEq, Eq, Debug, Structural)]
pub struct ParamSet {
    pub idx: u32,
    pub value: u32,
}

/// The descriptor `ParamSet|idx:u32|value:f32` hashed.
impl PodSchema for ParamSet {
    const SCHEMA_HASH: u64 = 0xcc60_7afb_a339_706d;
}

/// The parameter set's schema identity is the hash of its descriptor.
pub proof fn param_sets_hash_their_descriptor()
    ensures
        <ParamSet as PodSchema>::SCHEMA_HASH == fnv64(utf8("ParamSet|idx:u32|value:f32"@)),
{
    assert({
        &&& 0xcbf2_9ce4_8422_2325u64 ^ 80u64 == 0xcbf2_9ce4_8422_2375
        &&& 0xaf64_0d4c_8602_3fcfu64 ^ 97u64 == 0xaf64_0d4c_8602_3fae
        &&& 0x0942_4707_b5d2_34aau64 ^ 114u64 == 0x0942_4707_b5d2_34d8
        &&& 0x8dd3_8a19_f42f_cb08u64 ^ 97u64 == 0x8dd3_8a19_f42f_cb69
        &&& 0x2e3f_1319_ed36_a36bu64 ^ 109u64 == 0x2e3f_1319_ed36_a306
        &&& 0xcbd0_7b0e_13d7_0332u64 ^ 83u64 == 0xcbd0_7b0e_13d7_0361
        &&& 0x2a44_79eb_b65a_bdd3u64 ^ 101u64 == 0x2a44_79eb_b65a_bdb6
        &&& 0x2d18_e186_dc30_5c42u64 ^ 116u64 == 0x2d18_e186_dc30_5c36
        &&& 0xd1a3_6e28_262c_afc2u64 ^ 124u64 == 0xd1a3_6e28_262c_afbe
        &&& 0x6563_ec38_ddee_9fdau64 ^ 105u64 == 0x6563_ec38_ddee_9fb3
        &&& 0x376a_17a1_1c79_5d29u64 ^ 100u64 == 0x376a_17a1_1c79_5d4d
        &&& 0xa2a3_73c3_6239_89d7u64 ^ 120u64 == 0xa2a3_73c3_6239_89af
        &&& 0x9547_63ff_e7c4_f45du64 ^ 58u64 == 0x9547_63ff_e7c4_f467
        &&& 0x6d43_52d6_d3ab_4b05u64 ^ 117u64 == 0x6d43_52d6_d3ab_4b70
        &&& 0x54b1_3309_ac11_2f50u64 ^ 51u64 == 0x54b1_3309_ac11_2f63
        &&& 0xfa49_1c6f_6133_8539u64 ^ 50u64 == 0xfa49_1c6f_6133_850b
        &&& 0x7dc0_5c42_2a8b_11b1u64 ^ 124u64 == 0x7dc0_5c42_2a8b_11cd
        &&& 0x38ee_916e_4a4f_3f57u64 ^ 118u64 == 0x38ee_916e_4a4f_3f21
        &&& 0x0ca0_3f68_44a8_4513u64 ^ 97u64 == 0x0ca0_3f68_44a8_4572
        &&& 0x1c91_302c_a9ee_00b6u64 ^ 108u64 == 0x1c91_302c_a9ee_00da
        &&& 0x78b5_b5e4_bf6b_726eu64 ^ 117u64 == 0x78b5_b5e4_bf6b_721b
        &&& 0x8836_2eb1_4392_e3e1u64 ^ 101u64 == 0x8836_2eb1_4392_e384
        &&& 0x06f4_db35_d298_994cu64 ^ 58u64 == 0x06f4_db35_d298_9976
        &&& 0x6aa9_f274_d94c_c382u64 ^ 102u64 == 0x6aa9_f274_d94c_c3e4
        &&& 0x8b8a_e08d_3d70_dc6cu64 ^ 51u64 == 0x8b8a_e08d_3d70_dc5f
        &&& 0x8dd7_eeff_66c6_756du64 ^ 50u64 == 0x8dd7_eeff_66c6_755f
    }) by (bit_vector);
    reveal_strlit("ParamSet|idx:u32|value:f32");
    let s = seq![
        80u8, 97u8, 114u8, 97u8, 109u8, 83u8, 101u8, 116u8, 124u8,
        105u8, 100u8, 120u8, 58u8, 117u8, 51u8, 50u8, 124u8, 118u8,
        97u8, 108u8, 117u8, 101u8, 58u8, 102u8, 51u8, 50u8,
    ];
    ascii_bytes("ParamSet|idx:u32|value:f32"@, s);
    assert(s.take(0) =~= Seq::<u8>::empty());
    fnv64_step(s, 0, 0xcbf29ce484222325, 0xcbf29ce484222375, 0x00cbf29ce5de, 0xaf640d4c86023fcf);
    fnv64_step(s, 1, 0xaf640d4c86023fcf, 0xaf640d4c86023fae, 0x00af640d4db0, 0x09424707b5d234aa);
    fnv64_step(s, 2, 0x09424707b5d234aa, 0x09424707b5d234d8, 0x0009424707c5, 0x8dd38a19f42fcb08);
    fnv64_step(s, 3, 0x8dd38a19f42fcb08, 0x8dd38a19f42fcb69, 0x008dd38a1ae5, 0x2e3f1319ed36a36b);
    fnv64_step(s, 4, 0x2e3f1319ed36a36b, 0x2e3f1319ed36a306, 0x002e3f131a3b, 0xcbd07b0e13d70332);
    fnv64_step(s, 5, 0xcbd07b0e13d70332, 0xcbd07b0e13d70361, 0x00cbd07b0f6e, 0x2a4479ebb65abdd3);
    fnv64_step(s, 6, 0x2a4479ebb65abdd3, 0x2a4479ebb65abdb6, 0x002a4479ebfe, 0x2d18e186dc305c42);
    fnv64_step(s, 7, 0x2d18e186dc305c42, 0x2d18e186dc305c36, 0x002d18e18728, 0xd1a36e28262cafc2);
    fnv64_step(s, 8, 0xd1a36e28262cafc2, 0xd1a36e28262cafbe, 0x00d1a36e298a, 0x6563ec38ddee9fda);
    fnv64_step(s, 9, 0x6563ec38ddee9fda, 0x6563ec38ddee9fb3, 0x006563ec398a, 0x376a17a11c795d29);
    fnv64_step(s, 10, 0x376a17a11c795d29, 0x376a17a11c795d4d, 0x00376a17a17a, 0xa2a373c3623989d7);
    fnv64_step(s, 11, 0xa2a373c3623989d7, 0xa2a373c3623989af, 0x00a2a373c476, 0x954763ffe7c4f45d);
    fnv64_step(s, 12, 0x954763ffe7c4f45d, 0x954763ffe7c4f467, 0x0095476400e5, 0x6d4352d6d3ab4b05);
    fnv64_step(s, 13, 0x6d4352d6d3ab4b05, 0x6d4352d6d3ab4b70, 0x006d4352d78d, 0x54b13309ac112f50);
    fnv64_step(s, 14, 0x54b13309ac112f50, 0x54b13309ac112f63, 0x0054b1330a3b, 0xfa491c6f61338539);
    fnv64_step(s, 15, 0xfa491c6f61338539, 0xfa491c6f6133850b, 0x00fa491c710a, 0x7dc05c422a8b11b1);
    fnv64_step(s, 16, 0x7dc05c422a8b11b1, 0x7dc05c422a8b11cd, 0x007dc05c4300, 0x38ee916e4a4f3f57);
    fnv64_step(s, 17, 0x38ee916e4a4f3f57, 0x38ee916e4a4f3f21, 0x0038ee916eab, 0x0ca03f6844a84513);
    fnv64_step(s, 18, 0x0ca03f6844a84513, 0x0ca03f6844a84572, 0x000ca03f685a, 0x1c91302ca9ee00b6);
    fnv64_step(s, 19, 0x1c91302ca9ee00b6, 0x1c91302ca9ee00da, 0x001c91302cda, 0x78b5b5e4bf6b726e);
    fnv64_step(s, 20, 0x78b5b5e4bf6b726e, 0x78b5b5e4bf6b721b, 0x0078b5b5e58c, 0x88362eb14392e3e1);
    fnv64_step(s, 21, 0x88362eb14392e3e1, 0x88362eb14392e384, 0x0088362eb22b, 0x06f4db35d298994c);
    fnv64_step(s, 22, 0x06f4db35d298994c, 0x06f4db35d2989976, 0x0006f4db35de, 0x6aa9f274d94cc382);
    fnv64_step(s, 23, 0x6aa9f274d94cc382, 0x6aa9f274d94cc3e4, 0x006aa9f2758e, 0x8b8ae08d3d70dc6c);
    fnv64_step(s, 24, 0x8b8ae08d3d70dc6c, 0x8b8ae08d3d70dc5f, 0x008b8ae08e2a, 0x8dd7eeff66c6756d);
    fnv64_step(s, 25, 0x8dd7eeff66c6756d, 0x8dd7eeff66c6755f, 0x008dd7ef0057, 0xcc607afba339706d);
    assert(s.take(26) =~= s);
}

/// [`ParamSet::idx`] sentinel: save the set to disk now.
pub const PARAM_SAVE: u32 = 0xffff_ffff;

/// What a request asks of the process that owns the values.
#[derive(Clone, Copy, PartialEq, Eq, Debug, Structural)]
pub enum ParamRequest {
    Save,
    Assign { idx: u32, value: u32 },
}

impl ParamSet {
    /// What this request asks for: the sentinel index saves, any other
    /// names the parameter to set.
    pub fn request(&self) -> (r: ParamRequest)
        ensures
            r == if self.idx == PARAM_SAVE {
                ParamRequest::Save
            } else {
                ParamRequest::Assign { idx: self.idx, value: self.value }
            },
    {
        if self.idx == PARAM_SAVE {
            ParamRequest::Save
        } else {
            ParamRequest::Assign { idx: self.idx, value: self.value }
        }
    }
}

} // verus!

//! Checking a proof of a Matrix join in the browser: guards against a
//! degenerate Groth16 verifying key, then hands the proof to the SP1
//! Groth16 verifier.
use vstd::prelude::*;

verus! {

/// The size of an uncompressed BN254 G2 element.
pub const G2_SIZE: usize = 128;

/// Whether two `G2_SIZE`-byte windows of `bytes`, the second starting at
/// least `G2_SIZE` bytes after the first, hold the same bytes.
pub open spec fn has_duplicate_g2(bytes: Seq<u8>) -> bool {
    exists|i: int, j: int|
        0 <= i && i + G2_SIZE <= j && j + G2_SIZE <= bytes.len() && #[trigger] bytes.subrange(
            i,
            i + G2_SIZE,
        ) == #[trigger] bytes.subrange(j, j + G2_SIZE)
}

/// Whether the windows at `i` and `j` hold the same bytes.
fn windows_equal(bytes: &[u8], i: usize, j: usize) -> (r: bool)
    requires
        i + G2_SIZE <= bytes@.len(),
        j + G2_SIZE <= bytes@.len(),
    ensures
        r == (bytes@.subrange(i as int, i + G2_SIZE) == bytes@.subrange(j as int, j + G2_SIZE)),
{
    let n = bytes.len();
    let mut k: usize = 0;
    while k < G2_SIZE
        invariant
            k <= G2_SIZE,
            n == bytes@.len(),
            i + G2_SIZE <= bytes@.len(),
            j + G2_SIZE <= bytes@.len(),
            forall|t: int| 0 <= t < k ==> bytes@.subrange(i as int, i + G2_SIZE)[t] == #[trigger] bytes@.subrange(j as int, j + G2_SIZE)[t],
        decreases G2_SIZE - k,
    {
        if bytes[i + k] != bytes[j + k] {
            assert(bytes@.subrange(i as int, i + G2_SIZE)[k as int] != bytes@.subrange(
                j as int,
                j + G2_SIZE,
            )[k as int]);
            return false;
        }
        k = k + 1;
    }
    assert(bytes@.subrange(i as int, i + G2_SIZE) =~= bytes@.subrange(j as int, j + G2_SIZE));
    true
}

/// Detects if any two 128-byte chunks (G2 elements) in the VK are identical.
/// This catches `vk_gamma_2 == vk_delta_2` regardless of the underlying
/// serialization struct layout.
pub fn has_duplicate_g2_elements(vk_bytes: &[u8]) -> (r: bool)
    ensures
        r == has_duplicate_g2(vk_bytes@),
{
    if vk_bytes.len() < G2_SIZE * 2 {
        return false;
    }
    let n = vk_bytes.len();
    // Scan for identical G2-sized elements.
    let mut i: usize = 0;
    while i <= n - G2_SIZE
        invariant
            n == vk_bytes@.len(),
            n >= 2 * G2_SIZE,
            i <= n - G2_SIZE + 1,
            forall|a: int, b: int|
                0 <= a < i && a + G2_SIZE <= b && b + G2_SIZE <= n ==> #[trigger] vk_bytes@.subrange(
                    a,
                    a + G2_SIZE,
                ) != #[trigger] vk_bytes@.subrange(b, b + G2_SIZE),
        decreases n - i,
    {
        let mut j: usize = i + G2_SIZE;
        while j <= n - G2_SIZE
            invariant
                n == vk_bytes@.len(),
                i + G2_SIZE <= j <= n,
                forall|b: int|
                    i + G2_SIZE <= b < j ==> vk_bytes@.subrange(i as int, i + G2_SIZE)
                        != #[trigger] vk_bytes@.subrange(b, b + G2_SIZE),
            decreases n - j,
        {
            if windows_equal(vk_bytes, i, j) {
                return true;  // Vulnerability found (Phase 2 skipped)
            }
            j = j + 1;
        }
        i = i + 1;
    }
    false
}

/// Whether the SP1 Groth16 verifier accepts `proof` for the public inputs,
/// the program key hash and the verifying key (a deterministic check).
pub uninterp spec fn groth16_accepts(
    proof: Seq<u8>,
    public_inputs: Seq<u8>,
    vkey_hash: Seq<char>,
    groth16_vk: Seq<u8>,
) -> bool;

/// Whether slicing off the first two bytes of `s` is well defined (the
/// verifier does so to strip a `0x` prefix).
pub open spec fn vkey_hash_sliceable(s: &str) -> bool {
    vstd::utf8::encode_utf8(s@).len() < 2 || vstd::utf8::is_char_boundary(vstd::utf8::encode_utf8(s@), 2)
}

/// The length under which the verifier refuses a proof before reading it:
/// the 4-byte key hash prefix, the exit code, the key root and the nonce.
pub const MIN_PROOF_LEN: usize = 100;

/// `sp1_verifier::Groth16Verifier::verify`: checks an SP1 Groth16 proof.
/// The contract claims that the result is `Ok` exactly when the verifier
/// accepts, a function of the four arguments, and that a proof shorter than
/// 100 bytes is refused before anything else is read. Inputs on which its
/// `0x`-prefix slicing of the key hash would panic (reached only with a
/// proof of at least 100 bytes) are excluded.
#[verifier::external_body]
fn groth16_verify(proof: &[u8], public_inputs: &[u8], vkey_hash: &str, groth16_vk: &[u8]) -> (r: bool)
    requires
        proof@.len() >= MIN_PROOF_LEN ==> vkey_hash_sliceable(vkey_hash),
    ensures
        r == groth16_accepts(proof@, public_inputs@, vkey_hash@, groth16_vk@),
        proof@.len() < MIN_PROOF_LEN ==> !r,
{
    sp1_verifier::Groth16Verifier::verify(proof, public_inputs, vkey_hash, groth16_vk).is_ok()
}

/// The Groth16 verifying key of this SP1 version: the 492 bytes of
/// `vk-artifacts/groth16_vk.bin` that `sp1_verifier` includes.
pub open spec fn groth16_vk_spec() -> Seq<u8> {
    seq![
        0xe1, 0xc7, 0xd7, 0x28, 0xa5, 0xfd, 0x96, 0x1f, 0xc1, 0x79, 0xec, 0x5e,
        0xab, 0x93, 0x8f, 0x56, 0x4d, 0xeb, 0xa5, 0xb2, 0x71, 0xe1, 0xc9, 0x0c,
        0x2c, 0x29, 0xa7, 0x96, 0x48, 0x41, 0x8f, 0xc1, 0x82, 0xe7, 0x8e, 0x21,
        0x6b, 0x27, 0xcb, 0x2b, 0x30, 0xab, 0xd2, 0x2d, 0x17, 0xfb, 0x65, 0xb7,
        0x47, 0xad, 0x80, 0x50, 0xd1, 0x8e, 0x54, 0x34, 0x98, 0x52, 0x2d, 0x01,
        0xa2, 0xc3, 0xfe, 0x79, 0xdc, 0x3c, 0x93, 0x39, 0x84, 0x92, 0x25, 0x98,
        0x0c, 0x7d, 0x3f, 0x82, 0x4f, 0x80, 0xd1, 0x9e, 0x2a, 0x9c, 0x25, 0x54,
        0xb6, 0xab, 0x21, 0x60, 0xfa, 0x96, 0x35, 0x52, 0x8f, 0x69, 0x3f, 0xc0,
        0x0d, 0x96, 0x45, 0x38, 0xda, 0x26, 0x53, 0xf2, 0xe6, 0x24, 0x99, 0x57,
        0x1e, 0x6c, 0x78, 0xaf, 0xb8, 0x90, 0x9d, 0x3e, 0xa8, 0x10, 0x7f, 0x30,
        0x6b, 0xd6, 0x92, 0x82, 0x53, 0x68, 0x0a, 0x3a, 0x99, 0x8e, 0x93, 0x93,
        0x92, 0x0d, 0x48, 0x3a, 0x72, 0x60, 0xbf, 0xb7, 0x31, 0xfb, 0x5d, 0x25,
        0xf1, 0xaa, 0x49, 0x33, 0x35, 0xa9, 0xe7, 0x12, 0x97, 0xe4, 0x85, 0xb7,
        0xae, 0xf3, 0x12, 0xc2, 0x18, 0x00, 0xde, 0xef, 0x12, 0x1f, 0x1e, 0x76,
        0x42, 0x6a, 0x00, 0x66, 0x5e, 0x5c, 0x44, 0x79, 0x67, 0x43, 0x22, 0xd4,
        0xf7, 0x5e, 0xda, 0xdd, 0x46, 0xde, 0xbd, 0x5c, 0xd9, 0x92, 0xf6, 0xed,
        0xd7, 0xe0, 0x0b, 0x2c, 0xa4, 0xf6, 0x26, 0x68, 0x13, 0x50, 0x17, 0xed,
        0x8a, 0x68, 0x89, 0x4e, 0x10, 0x4a, 0xc2, 0x6d, 0xfd, 0x9b, 0xf3, 0x76,
        0x63, 0x4b, 0x42, 0xaf, 0x9e, 0x5a, 0xe5, 0x0e, 0x91, 0xb7, 0xe9, 0x27,
        0x61, 0x71, 0xbb, 0x0e, 0xfd, 0x64, 0x7f, 0xc6, 0x3e, 0x38, 0xbb, 0xfb,
        0xa3, 0x07, 0x6f, 0x20, 0xda, 0xca, 0x8c, 0xd5, 0x2b, 0xcc, 0x72, 0x84,
        0xd9, 0xb1, 0xc6, 0xeb, 0x17, 0x23, 0x61, 0x65, 0x33, 0xdd, 0x6a, 0xe5,
        0x35, 0x02, 0xc9, 0xc5, 0x06, 0xa8, 0x1f, 0x23, 0xf5, 0x43, 0xd6, 0x87,
        0x50, 0xb5, 0x13, 0x3e, 0xbf, 0xbe, 0x1f, 0x47, 0x46, 0xb3, 0xb0, 0x11,
        0x00, 0x00, 0x00, 0x06, 0xac, 0xd6, 0xbf, 0x7f, 0x16, 0x4a, 0xf0, 0xb6,
        0xb0, 0xbb, 0xbe, 0x0f, 0xdc, 0xb0, 0x6e, 0xe0, 0xc1, 0xba, 0x07, 0xf8,
        0xe6, 0xeb, 0x2f, 0x9f, 0x39, 0x43, 0xa9, 0x0c, 0xb1, 0xd4, 0x02, 0x90,
        0x8f, 0x54, 0x60, 0xf3, 0xb7, 0x22, 0x17, 0x05, 0x43, 0x5e, 0x74, 0x5d,
        0xa2, 0x1e, 0x27, 0x65, 0x36, 0x37, 0x9c, 0x01, 0x13, 0xc1, 0x3c, 0x42,
        0x55, 0xe7, 0xae, 0x10, 0x1f, 0x1e, 0x90, 0xbf, 0x8b, 0x0a, 0xe6, 0xe4,
        0x91, 0xbc, 0x04, 0xc5, 0x44, 0xda, 0x9e, 0x8c, 0xd4, 0x85, 0x7d, 0x20,
        0x1b, 0x4c, 0xfa, 0x02, 0x22, 0xdb, 0xe9, 0x6a, 0xac, 0x97, 0xf0, 0x44,
        0xfd, 0xf1, 0xc9, 0x22, 0xc9, 0x7c, 0x87, 0x5a, 0x6e, 0xbd, 0x09, 0x99,
        0xb0, 0x6e, 0x72, 0x67, 0xff, 0x3d, 0x8a, 0x6b, 0xf8, 0x59, 0xbb, 0x96,
        0x35, 0xab, 0xae, 0x07, 0xcb, 0x6b, 0x35, 0x34, 0xba, 0x40, 0x9a, 0x83,
        0x98, 0x07, 0x20, 0x4d, 0xdc, 0xd2, 0x75, 0x06, 0xba, 0x72, 0xe1, 0x7b,
        0x55, 0x22, 0x7b, 0x0b, 0xf3, 0x10, 0x13, 0x6e, 0xcb, 0x40, 0xc7, 0x4a,
        0xcd, 0x52, 0xf3, 0xcc, 0xfb, 0xcb, 0xa9, 0xf7, 0x80, 0x8c, 0x7b, 0x7c,
        0x98, 0xd7, 0x8c, 0x07, 0xa2, 0xc4, 0xbe, 0x5f, 0x6b, 0xe7, 0x08, 0x2b,
        0xa4, 0x10, 0x21, 0x61, 0x1f, 0x9a, 0x2d, 0xfc, 0x01, 0x6f, 0x8b, 0xbb,
        0x37, 0xd3, 0x6b, 0xee, 0x00, 0x00, 0x00, 0x00, 0x00, 0x00, 0x00, 0x00,
    ]
}

/// `sp1_verifier::GROTH16_VK_BYTES`: the Groth16 verifying key of this SP1
/// version, the bytes of the file the crate includes.
#[verifier::external_body]
fn groth16_vk_bytes() -> (r: &'static [u8])
    ensures
        r@ == groth16_vk_spec(),
{
    &sp1_verifier::GROTH16_VK_BYTES
}

/// Verifies a join proof against the verifying key `vk_bytes`: an empty
/// proof and a key with two identical G2 elements are refused outright.
pub fn verify_matrix_join_with_key(
    proof_bytes: &[u8],
    public_inputs: &[u8],
    expected_vkey_hash: &str,
    vk_bytes: &[u8],
) -> (r: bool)
    requires
        proof_bytes@.len() >= MIN_PROOF_LEN ==> vkey_hash_sliceable(expected_vkey_hash),
    ensures
        r == (proof_bytes@.len() > 0 && !has_duplicate_g2(vk_bytes@) && groth16_accepts(
            proof_bytes@,
            public_inputs@,
            expected_vkey_hash@,
            vk_bytes@,
        )),
{
    if proof_bytes.len() == 0 {
        return false;
    }
    // In Groth16, if vk_gamma_2 == vk_delta_2, the verification equations
    // cancel out and a proof can be forged for any public input.
    if has_duplicate_g2_elements(vk_bytes) {
        return false;  // ALERT: VULNERABLE VK DETECTED
    }
    groth16_verify(proof_bytes, public_inputs, expected_vkey_hash, vk_bytes)
}

/// Verifies a join proof against the SP1 Groth16 verifying key.
pub fn verify_matrix_join(proof_bytes: &[u8], public_inputs: &[u8], expected_vkey_hash: &str) -> (r: bool)
    requires
        proof_bytes@.len() >= MIN_PROOF_LEN ==> vkey_hash_sliceable(expected_vkey_hash),
    ensures
        r == (proof_bytes@.len() > 0 && !has_duplicate_g2(groth16_vk_spec()) && groth16_accepts(
            proof_bytes@,
            public_inputs@,
            expected_vkey_hash@,
            groth16_vk_spec(),
        )),
{
    let vk = groth16_vk_bytes();
    verify_matrix_join_with_key(proof_bytes, public_inputs, expected_vkey_hash, vk)
}

} // verus!

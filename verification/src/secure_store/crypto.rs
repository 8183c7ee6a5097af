//! AES-256-GCM payloads (`nonce(12B) ‖ ciphertext ‖ tag(16B)`) and the Argon2id
//! password derivation, behind thin wrappers around the `aes-gcm`, `argon2` and
//! `rand` crates.

use vstd::prelude::*;

use aes_gcm::aead::{Aead, KeyInit, Payload};
use aes_gcm::{Aes256Gcm, Nonce};
use argon2::{Algorithm, Argon2, Params, Version};
use rand::RngCore;

use crate::text::owned;

verus! {

/// AES-GCM nonce length in bytes.
pub const NONCE_LEN: usize = 12;

/// AES-GCM authentication tag length in bytes.
pub const GCM_TAG_LEN: usize = 16;

/// Shortest possible payload: nonce plus authentication tag.
pub const MIN_CIPHERTEXT_LEN: usize = 28;

/// Longest plaintext and associated data `aes-gcm` encrypts (its `P_MAX` and
/// `A_MAX`, 2^36 bytes); longer input is refused.
pub const AES_GCM_MAX_BYTES: u64 = 0x10_0000_0000;

/// Longest plaintext for which the AEAD correctness fact below is relied on.
pub const AEAD_TRUSTED_PLAIN_LIMIT: u64 = 0x1_0000_0000;

/// What `Aes256Gcm::encrypt` returns for (key, nonce, aad, plaintext).
pub uninterp spec fn aes_gcm_seal(key: Seq<u8>, nonce: Seq<u8>, aad: Seq<u8>, plain: Seq<u8>) -> Seq<u8>;

/// What `Aes256Gcm::decrypt` returns for (key, nonce, aad, ciphertext): the
/// plaintext when authentication passes, `None` otherwise.
pub uninterp spec fn aes_gcm_open(key: Seq<u8>, nonce: Seq<u8>, aad: Seq<u8>, data: Seq<u8>) -> Option<Seq<u8>>;

/// What Argon2id (version 0x13, 32-byte output) derives from
/// (password bytes, salt, memory cost, time cost, parallelism), `None` when
/// the crate rejects the parameters or inputs.
pub uninterp spec fn argon2id_derive(password: Seq<u8>, salt: Seq<u8>, m_cost: u32, t_cost: u32, p_cost: u32) -> Option<Seq<u8>>;

/// `Aes256Gcm::encrypt` with an explicit nonce and associated data.
///
/// Trusted: it succeeds exactly when neither the plaintext nor the
/// associated data is longer than `AES_GCM_MAX_BYTES` (a 32-byte key is always
/// accepted; the crate checks `P_MAX` and `A_MAX` and nothing else), and on
/// success the bytes are the crate's ciphertext for these inputs,
/// `GCM_TAG_LEN` bytes longer than the plaintext (tag appended).
#[verifier::external_body]
fn aes_gcm_encrypt(key: &[u8; 32], nonce: &[u8; 12], aad: &[u8], plain: &[u8]) -> (r: Result<Vec<u8>, String>)
    ensures
        r is Ok <==> (plain@.len() <= AES_GCM_MAX_BYTES && aad@.len() <= AES_GCM_MAX_BYTES),
        r matches Ok(c) ==> c@ == aes_gcm_seal(key@, nonce@, aad@, plain@) && c@.len() == plain@.len() + 16,
{
    let cipher = Aes256Gcm::new_from_slice(key).map_err(|e| e.to_string())?;
    cipher
        .encrypt(Nonce::from_slice(nonce), Payload { msg: plain, aad })
        .map_err(|_| "加密失败".to_string())
}

/// `Aes256Gcm::decrypt` with an explicit nonce and associated data.
///
/// Trusted: succeeds exactly when the crate's authentication passes and then
/// returns the crate's plaintext; and (AEAD correctness, as documented for the
/// construction) data produced by `aes_gcm_encrypt` under the same key, nonce
/// and associated data (at most `AES_GCM_MAX_BYTES`, the crate's `A_MAX`)
/// opens to the original plaintext. Nothing is stated about
/// which wrong keys or tampered inputs fail to authenticate.
#[verifier::external_body]
fn aes_gcm_decrypt(key: &[u8; 32], nonce: &[u8; 12], aad: &[u8], data: &[u8]) -> (r: Result<Vec<u8>, String>)
    ensures
        r is Ok <==> aes_gcm_open(key@, nonce@, aad@, data@) is Some,
        r matches Ok(p) ==> aes_gcm_open(key@, nonce@, aad@, data@) == Some(p@),
        forall|p: Seq<u8>|
            p.len() < AEAD_TRUSTED_PLAIN_LIMIT && aad@.len() <= AES_GCM_MAX_BYTES && data@ == aes_gcm_seal(
                key@,
                nonce@,
                aad@,
                p,
            ) ==> r is Ok && r->Ok_0@ == p,
{
    let cipher = Aes256Gcm::new_from_slice(key).map_err(|e| e.to_string())?;
    cipher
        .decrypt(Nonce::from_slice(nonce), Payload { msg: data, aad })
        .map_err(|_| "解密失败（密钥不匹配或数据损坏）".to_string())
}

/// `Argon2::hash_password_into` (Argon2id, version 0x13, 32-byte output).
///
/// Trusted: succeeds exactly when the crate accepts the parameters and inputs,
/// and then the key is the crate's derivation for these arguments. The crate
/// accepts a memory cost of at least 8 and of at least 8 blocks per lane, at
/// least one iteration and one lane, a salt of 8 to 2^32 - 1 bytes and a
/// password of at most 2^32 - 1 bytes (the 32-byte output is always valid). The
/// parallelism stays within the crate's documented bound (below 2^24; its
/// parameter check multiplies it by 8 in `u32`), and the memory cost within
/// 256 MiB, so that the block table it allocates can be had.
#[verifier::external_body]
pub(crate) fn derive_key_argon2id(password: &str, salt: &[u8], m_cost: u32, t_cost: u32, p_cost: u32) -> (r: Result<[u8; 32], String>)
    requires
        p_cost <= 0xFF_FFFF,
        m_cost <= 0x4_0000,
    ensures
        r is Ok <==> argon2id_derive(vstd::utf8::encode_utf8(password@), salt@, m_cost, t_cost, p_cost) is Some,
        r matches Ok(k) ==> argon2id_derive(vstd::utf8::encode_utf8(password@), salt@, m_cost, t_cost, p_cost) == Some(k@),
        8 <= m_cost && p_cost * 8 <= m_cost && 1 <= t_cost && 1 <= p_cost && 8 <= salt@.len() <= 0xFFFF_FFFF
            && vstd::utf8::encode_utf8(password@).len() <= 0xFFFF_FFFF ==> r is Ok,
{
    let params = Params::new(m_cost, t_cost, p_cost, Some(32)).map_err(|e| format!("KDF 参数非法: {e}"))?;
    let argon = Argon2::new(Algorithm::Argon2id, Version::V0x13, params);
    let mut key = [0u8; 32];
    argon.hash_password_into(password.as_bytes(), salt, &mut key).map_err(|e| format!("密钥派生失败: {e}"))?;
    Ok(key)
}

/// Fresh random nonce from `rand::rngs::OsRng` (nothing is stated about the bytes).
#[verifier::external_body]
pub(crate) fn random_nonce() -> (r: [u8; 12]) {
    let mut nonce = [0u8; 12];
    rand::rngs::OsRng.fill_bytes(&mut nonce);
    nonce
}

/// Fresh random salt from `rand::rngs::OsRng` (nothing is stated about the bytes).
#[verifier::external_body]
pub(crate) fn random_salt() -> (r: [u8; 16]) {
    let mut salt = [0u8; 16];
    rand::rngs::OsRng.fill_bytes(&mut salt);
    salt
}

/// Fresh random 32-byte key from `rand::rngs::OsRng` (nothing is stated about the bytes).
#[verifier::external_body]
pub(crate) fn random_key() -> (r: [u8; 32]) {
    let mut key = [0u8; 32];
    rand::rngs::OsRng.fill_bytes(&mut key);
    key
}

/// The payload format: nonce followed by the sealed bytes.
pub open spec fn payload_of(key: Seq<u8>, nonce: Seq<u8>, aad: Seq<u8>, plain: Seq<u8>) -> Seq<u8> {
    nonce + aes_gcm_seal(key, nonce, aad, plain)
}

/// What a payload opens to (its first 12 bytes are the nonce).
pub open spec fn open_payload(key: Seq<u8>, aad: Seq<u8>, data: Seq<u8>) -> Option<Seq<u8>> {
    if data.len() < MIN_CIPHERTEXT_LEN {
        None
    } else {
        aes_gcm_open(key, data.subrange(0, 12), aad, data.subrange(12, data.len() as int))
    }
}

/// Encrypts with a caller-chosen nonce and returns the bare ciphertext (no nonce).
pub fn encrypt_with_aad_nonce(key: &[u8; 32], plain: &[u8], aad: &[u8], nonce: &[u8; 12]) -> (r: Result<Vec<u8>, String>)
    ensures
        r is Ok <==> (plain@.len() <= AES_GCM_MAX_BYTES && aad@.len() <= AES_GCM_MAX_BYTES),
        r matches Ok(c) ==> c@ == aes_gcm_seal(key@, nonce@, aad@, plain@) && c@.len() == plain@.len() + 16,
{
    aes_gcm_encrypt(key, nonce, aad, plain)
}

/// Decrypts a bare ciphertext (no nonce); shorter than a tag is rejected first.
pub fn decrypt_with_aad_nonce(key: &[u8; 32], data: &[u8], aad: &[u8], nonce: &[u8; 12]) -> (r: Result<Vec<u8>, String>)
    ensures
        r is Ok <==> (data@.len() >= GCM_TAG_LEN && aes_gcm_open(key@, nonce@, aad@, data@) is Some),
        r matches Ok(p) ==> aes_gcm_open(key@, nonce@, aad@, data@) == Some(p@),
        forall|p: Seq<u8>|
            p.len() < AEAD_TRUSTED_PLAIN_LIMIT && aad@.len() <= AES_GCM_MAX_BYTES && data@ == aes_gcm_seal(
                key@,
                nonce@,
                aad@,
                p,
            ) && data@.len() == p.len() + 16 ==> (r matches Ok(v) && v@ == p),
{
    if data.len() < GCM_TAG_LEN {
        return Err(owned("密文长度不足"));
    }
    aes_gcm_decrypt(key, nonce, aad, data)
}

/// Encrypts with a fresh random nonce: `nonce(12B) ‖ ciphertext`.
pub fn encrypt_with_aad(key: &[u8; 32], plain: &[u8], aad: &[u8]) -> (r: Result<Vec<u8>, String>)
    ensures
        r is Ok <==> (plain@.len() <= AES_GCM_MAX_BYTES && aad@.len() <= AES_GCM_MAX_BYTES),
        r matches Ok(out) ==> out@.len() == plain@.len() + MIN_CIPHERTEXT_LEN && out@ == payload_of(
            key@,
            out@.subrange(0, 12),
            aad@,
            plain@,
        ),
{
    let nonce = random_nonce();
    let ct = encrypt_with_aad_nonce(key, plain, aad, &nonce)?;
    let mut out: Vec<u8> = Vec::new();
    let mut i: usize = 0;
    while i < NONCE_LEN
        invariant
            i <= 12,
            out@ =~= nonce@.subrange(0, i as int),
        decreases 12 - i,
    {
        out.push(nonce[i]);
        i = i + 1;
    }
    let mut j: usize = 0;
    while j < ct.len()
        invariant
            j <= ct@.len(),
            out@ =~= nonce@ + ct@.subrange(0, j as int),
        decreases ct@.len() - j,
    {
        out.push(ct[j]);
        j = j + 1;
    }
    assert(out@.subrange(0, 12) =~= nonce@);
    assert(ct@.subrange(0, ct@.len() as int) =~= ct@);
    Ok(out)
}

/// Decrypts a `nonce ‖ ciphertext` payload with associated data.
pub fn decrypt_with_aad(key: &[u8; 32], data: &[u8], aad: &[u8]) -> (r: Result<Vec<u8>, String>)
    ensures
        r is Ok <==> open_payload(key@, aad@, data@) is Some,
        r matches Ok(p) ==> open_payload(key@, aad@, data@) == Some(p@),
        forall|p: Seq<u8>|
            p.len() < AEAD_TRUSTED_PLAIN_LIMIT && aad@.len() <= AES_GCM_MAX_BYTES && data@.len() == p.len()
                + MIN_CIPHERTEXT_LEN && data@ == payload_of(key@, data@.subrange(0, 12), aad@, p) ==> (r matches Ok(
                v) && v@ == p),
{
    if data.len() < MIN_CIPHERTEXT_LEN {
        return Err(owned("密文长度不足"));
    }
    let mut nonce = [0u8; 12];
    let mut i: usize = 0;
    while i < NONCE_LEN
        invariant
            i <= 12,
            data@.len() >= 28,
            forall|k: int| 0 <= k < i ==> nonce@[k] == data@[k],
        decreases 12 - i,
    {
        nonce[i] = data[i];
        i = i + 1;
    }
    assert(nonce@ =~= data@.subrange(0, 12));
    let rest = vstd::slice::slice_subrange(data, NONCE_LEN, data.len());
    proof {
        assert forall|p: Seq<u8>|
            p.len() < AEAD_TRUSTED_PLAIN_LIMIT && data@.len() == p.len() + MIN_CIPHERTEXT_LEN
                && data@ == payload_of(key@, data@.subrange(0, 12), aad@, p) implies rest@
                == aes_gcm_seal(key@, nonce@, aad@, p) by {
            assert(rest@ =~= data@.subrange(12, data@.len() as int));
        }
    }
    decrypt_with_aad_nonce(key, rest, aad, &nonce)
}

/// Encrypts without associated data (`nonce ‖ ciphertext`).
pub fn encrypt_payload(key: &[u8; 32], plain: &[u8]) -> (r: Result<Vec<u8>, String>)
    ensures
        r is Ok <==> plain@.len() <= AES_GCM_MAX_BYTES,
        r matches Err(m) ==> m@ == "凭证加密失败"@,
        r matches Ok(out) ==> out@.len() == plain@.len() + MIN_CIPHERTEXT_LEN && out@ == payload_of(
            key@,
            out@.subrange(0, 12),
            Seq::empty(),
            plain@,
        ),
{
    let empty: [u8; 0] = [];
    assert(empty@ =~= Seq::<u8>::empty());
    match encrypt_with_aad(key, plain, &empty) {
        Ok(out) => Ok(out),
        Err(_) => Err(owned("凭证加密失败")),
    }
}

/// Decrypts a payload without associated data; too-short data is rejected first.
pub fn decrypt_payload(key: &[u8; 32], data: &[u8]) -> (r: Result<Vec<u8>, String>)
    ensures
        r is Ok <==> open_payload(key@, Seq::empty(), data@) is Some,
        r matches Ok(p) ==> open_payload(key@, Seq::empty(), data@) == Some(p@),
        forall|p: Seq<u8>|
            p.len() < AEAD_TRUSTED_PLAIN_LIMIT && data@.len() == p.len() + MIN_CIPHERTEXT_LEN
                && data@ == payload_of(key@, data@.subrange(0, 12), Seq::empty(), p) ==> (r matches Ok(
                v) && v@ == p),
{
    if data.len() < MIN_CIPHERTEXT_LEN {
        return Err(owned("凭证文件损坏（密文长度不足）"));
    }
    let empty: [u8; 0] = [];
    assert(empty@ =~= Seq::<u8>::empty());
    match decrypt_with_aad(key, data, &empty) {
        Ok(p) => Ok(p),
        Err(_) => Err(owned("凭证解密失败（主密钥不匹配或数据损坏）")),
    }
}

/// Whether `key` authenticates the payload (without associated data).
pub fn authenticates(key: &[u8; 32], data: &[u8]) -> (r: bool)
    ensures
        r == open_payload(key@, Seq::empty(), data@) is Some,
{
    decrypt_payload(key, data).is_ok()
}

/// Whether `key` and `aad` together authenticate the payload.
pub fn authenticates_with_aad(key: &[u8; 32], data: &[u8], aad: &[u8]) -> (r: bool)
    ensures
        r == open_payload(key@, aad@, data@) is Some,
{
    decrypt_with_aad(key, data, aad).is_ok()
}

/// A payload produced by `encrypt_with_aad` opens with the same key and
/// associated data to the original plaintext.
pub proof fn payload_roundtrip(key: Seq<u8>, nonce: Seq<u8>, aad: Seq<u8>, plain: Seq<u8>, data: Seq<u8>)
    requires
        nonce.len() == 12,
        plain.len() < AEAD_TRUSTED_PLAIN_LIMIT,
        data == payload_of(key, nonce, aad, plain),
        data.len() == plain.len() + MIN_CIPHERTEXT_LEN,
    ensures
        data.subrange(0, 12) == nonce,
        data == payload_of(key, data.subrange(0, 12), aad, plain),
{
    assert(data.subrange(0, 12) =~= nonce);
}

} // verus!

use aes_gcm::aead::{Aead, KeyInit, Payload};
use aes_gcm::{Aes256Gcm, Nonce};
use argon2::{Algorithm, Argon2, Params, Version};
use covekit::data_transfer::package::{check_package_size, file_digest, MAX_FILE_BYTES};
use covekit::data_transfer::package::{
    open_package, seal_package, seal_package_with, validate_password, PackageError, PackageHeader, CONTAINER_VERSION,
    HEADER_LEN, KDF_ARGON2ID, MAX_PLAINTEXT_BYTES,
};

const PW: &str = "transfer-pw-1";

fn manifest_with(host: &str) -> Vec<u8> {
    format!(
        "{{\"packageId\":\"pkg-1\",\"sourceSpaceName\":\"源空间\",\"datasets\":[{{\"name\":\"ssh.profiles\",\"records\":[{{\"host\":\"{host}\"}}]}}]}}"
    )
    .into_bytes()
}

fn open_err(raw: &[u8]) -> String {
    open_package(PW, raw).unwrap_err().message()
}

fn manifest_plain_len(raw: &[u8]) -> u64 {
    u64::from_le_bytes([raw[48], raw[49], raw[50], raw[51], raw[52], raw[53], raw[54], raw[55]])
}

#[test]
fn seal_open_roundtrip_and_no_plaintext_leak() {
    let manifest = manifest_with("srv-秘密主机.example.com");
    let raw = seal_package(PW, &manifest).unwrap_or_default();
    assert_eq!(raw.len() as u64, HEADER_LEN as u64 + manifest_plain_len(&raw));
    assert!(raw.len() > HEADER_LEN);
    let head = &raw[..HEADER_LEN];
    assert_eq!(u16::from_le_bytes([head[8], head[9]]), CONTAINER_VERSION);
    assert_eq!(head[10], KDF_ARGON2ID);
    let head_text = String::from_utf8_lossy(head);
    assert!(!head_text.contains("ssh.profiles"));
    assert!(!head_text.contains("源"));
    let opened = open_package(PW, &raw).unwrap_or_else(|e| panic!("解包失败: {}", e.message()));
    assert_eq!(opened, manifest);
    assert!(!String::from_utf8_lossy(&raw).contains("秘密主机"));
}

#[test]
fn wrong_password_rejected() {
    let raw = seal_package(PW, &manifest_with("h1")).unwrap_or_default();
    assert!(open_package("transfer-pw-2", &raw).is_err());
    assert!(seal_package("", &manifest_with("h1")).is_err());
    assert!(seal_package("short", &manifest_with("h1")).is_err());
}

#[test]
fn salt_and_nonce_randomized() {
    let manifest = manifest_with("h1");
    let a = seal_package(PW, &manifest).unwrap_or_default();
    let b = seal_package(PW, &manifest).unwrap_or_default();
    assert_ne!(a[20..36], b[20..36]);
    assert_ne!(a[36..48], b[36..48]);
    assert_ne!(a[HEADER_LEN..], b[HEADER_LEN..]);
}

#[test]
fn tampered_header_and_ciphertext_rejected() {
    let raw = seal_package(PW, &manifest_with("h1")).unwrap_or_default();
    let mut tampered = raw.clone();
    tampered[15] = tampered[15].wrapping_add(1);
    assert!(open_package(PW, &tampered).is_err());
    let mut tampered_salt = raw.clone();
    tampered_salt[20] ^= 0xFF;
    assert!(open_package(PW, &tampered_salt).is_err());
    let mut tampered_nonce = raw.clone();
    tampered_nonce[36] ^= 0xFF;
    assert!(open_package(PW, &tampered_nonce).is_err());
    let mut tampered_ct = raw.clone();
    let last = tampered_ct.len() - 1;
    tampered_ct[last] ^= 0xFF;
    assert!(open_package(PW, &tampered_ct).is_err());
    assert!(open_package(PW, &raw[..raw.len() - 1]).is_err());
    assert!(open_package(PW, &raw[..10]).is_err());
}

#[test]
fn bad_magic_and_version_rejected() {
    let raw = seal_package(PW, &manifest_with("h1")).unwrap_or_default();
    let mut bad_magic = raw.clone();
    bad_magic[0] = b'X';
    let err = open_err(&bad_magic);
    assert!(err.contains("魔数"), "实际错误: {err}");
    let mut bad_version = raw.clone();
    bad_version[8] = 9;
    let err = open_err(&bad_version);
    assert!(err.contains("容器版本"), "实际错误: {err}");
    let mut bad_kdf = raw.clone();
    bad_kdf[10] = 7;
    let err = open_err(&bad_kdf);
    assert!(err.contains("KDF 算法标识"), "实际错误: {err}");
}

#[test]
fn kdf_params_out_of_whitelist_rejected_before_derive() {
    let raw = seal_package(PW, &manifest_with("h1")).unwrap_or_default();
    let mut huge_m = raw.clone();
    huge_m[11..15].copy_from_slice(&(4u32 * 1024 * 1024).to_le_bytes());
    let err = open_err(&huge_m);
    assert!(err.contains("内存成本"), "实际错误: {err}");
    let mut zero_t = raw.clone();
    zero_t[15..19].copy_from_slice(&0u32.to_le_bytes());
    assert!(open_package(PW, &zero_t).is_err());
    let mut zero_p = raw.clone();
    zero_p[19] = 0;
    assert!(open_package(PW, &zero_p).is_err());
    let mut huge_plain = raw.clone();
    huge_plain[48..56].copy_from_slice(&(MAX_PLAINTEXT_BYTES + 16 + 1).to_le_bytes());
    let err = open_err(&huge_plain);
    assert!(err.contains("明文长度"), "实际错误: {err}");
}

#[test]
fn header_encoding_round_trips_and_errors_are_exact() {
    let sealed = seal_package_with(PW, b"body", [1u8; 16], [2u8; 12]).unwrap();
    let header = PackageHeader::parse(&sealed).unwrap();
    assert_eq!(header.salt, [1u8; 16]);
    assert_eq!(header.nonce, [2u8; 12]);
    assert_eq!(header.cipher_len, 4 + 16);
    assert_eq!(header.encode(), sealed[..HEADER_LEN].to_vec());
    assert_eq!(open_package(PW, &sealed).unwrap(), b"body".to_vec());
    assert_eq!(PackageHeader::parse(&sealed[..5]), Err(PackageError::HeaderTooShort));
    assert_eq!(
        open_package(PW, &sealed[..sealed.len() - 1]),
        Err(PackageError::CiphertextLengthMismatch { actual: 19, declared: 20 })
    );
    assert_eq!(validate_password("1234567"), Err(PackageError::PasswordTooShort));
    assert_eq!(validate_password("12345678"), Ok(()));
    assert_eq!(PackageError::UnsupportedVersion(9).message(), "不支持的数据包容器版本 9（当前支持 1）");
}

#[test]
fn package_size_limit_is_checked_before_reading() {
    assert_eq!(MAX_FILE_BYTES, MAX_PLAINTEXT_BYTES + HEADER_LEN as u64 + 16);
    assert!(check_package_size(MAX_FILE_BYTES).is_ok());
    assert_eq!(
        check_package_size(MAX_FILE_BYTES + 1).unwrap_err(),
        format!("数据包文件过大（{} 字节，上限 {}）", MAX_FILE_BYTES + 1, MAX_FILE_BYTES)
    );
}

#[test]
fn file_digest_is_lowercase_hex_sha256() {
    assert_eq!(file_digest(b"abc"), "ba7816bf8f01cfea414140de5dae2223b00361a396177a9cb410ff61f20015ad");
}

#[test]
fn packages_with_other_whitelisted_settings_open() {
    let header = PackageHeader {
        version: CONTAINER_VERSION,
        kdf_algo: KDF_ARGON2ID,
        m_cost: 8192,
        t_cost: 1,
        p_cost: 2,
        salt: [5u8; 16],
        nonce: [6u8; 12],
        cipher_len: 5 + 16,
    };
    let head = header.encode();
    let params = Params::new(8192, 1, 2, Some(32)).unwrap();
    let mut key = [0u8; 32];
    Argon2::new(Algorithm::Argon2id, Version::V0x13, params).hash_password_into(PW.as_bytes(), &[5u8; 16], &mut key).unwrap();
    let cipher = Aes256Gcm::new_from_slice(&key).unwrap();
    let ct = cipher.encrypt(Nonce::from_slice(&[6u8; 12]), Payload { msg: b"hello", aad: &head }).unwrap();
    let mut raw = head.clone();
    raw.extend_from_slice(&ct);
    assert_eq!(open_package(PW, &raw).unwrap(), b"hello".to_vec());
    assert_eq!(open_package("wrong-password", &raw), Err(PackageError::DecryptFailed));
}

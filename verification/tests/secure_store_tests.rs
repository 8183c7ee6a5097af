use covekit::secure_store::crypto::{
    authenticates, decrypt_payload, decrypt_with_aad, decrypt_with_aad_nonce, encrypt_payload, encrypt_with_aad,
    encrypt_with_aad_nonce, MIN_CIPHERTEXT_LEN,
};
use covekit::secure_store::key::{
    credentials_key_spec, describe_readback, fallback_key_from_bytes, key_persisted, keyring_service,
    keyring_store_for, resolve_decision, vault_key_spec, KeyResolution, KeySource, PromotionLedger,
    KEYRING_SERVICE,
};
use covekit::secure_store::status::{inspect_domain, needs_resolution, ProtectionAvailability, ProtectionBackend};

fn base64(bytes: &[u8]) -> String {
    const TABLE: &[u8; 64] = b"ABCDEFGHIJKLMNOPQRSTUVWXYZabcdefghijklmnopqrstuvwxyz0123456789+/";
    let mut out = String::new();
    for chunk in bytes.chunks(3) {
        let b = [chunk[0], *chunk.get(1).unwrap_or(&0), *chunk.get(2).unwrap_or(&0)];
        let n = ((b[0] as u32) << 16) | ((b[1] as u32) << 8) | (b[2] as u32);
        out.push(TABLE[(n >> 18) as usize & 63] as char);
        out.push(TABLE[(n >> 12) as usize & 63] as char);
        out.push(if chunk.len() > 1 { TABLE[(n >> 6) as usize & 63] as char } else { '=' });
        out.push(if chunk.len() > 2 { TABLE[n as usize & 63] as char } else { '=' });
    }
    out
}


#[test]
fn encrypt_decrypt_roundtrip() {
    let key = [7u8; 32];
    let plain = b"{\"conn-1\":\"s3cret\"}";
    let ct = encrypt_payload(&key, plain).unwrap_or_default();
    assert_eq!(decrypt_payload(&key, &ct).unwrap_or_default(), plain);
    assert!(decrypt_payload(&[8u8; 32], &ct).is_err());
    assert!(decrypt_payload(&key, b"short").is_err());
    assert!(!authenticates(&[8u8; 32], &ct));
    assert!(authenticates(&key, &ct));
}

#[test]
fn nonce_uniqueness() {
    let key = [7u8; 32];
    let plain = b"same plaintext";
    let a = encrypt_payload(&key, plain).unwrap_or_default();
    let b = encrypt_payload(&key, plain).unwrap_or_default();
    assert_ne!(a, b);
    assert_eq!(decrypt_payload(&key, &a).unwrap_or_default(), plain);
    assert_eq!(decrypt_payload(&key, &b).unwrap_or_default(), plain);
}

#[test]
fn corrupted_ciphertext_errors_no_panic() {
    let key = [7u8; 32];
    assert!(decrypt_payload(&key, b"short").is_err());
    assert!(decrypt_payload(&key, &[0u8; MIN_CIPHERTEXT_LEN - 1]).is_err());
    let mut ct = encrypt_payload(&key, b"hello vault").unwrap_or_default();
    let last = ct.len() - 1;
    ct[last] ^= 0xFF;
    assert!(decrypt_payload(&key, &ct).is_err());
    let mut ct2 = encrypt_payload(&key, b"hello vault").unwrap_or_default();
    ct2[0] ^= 0xFF;
    assert!(decrypt_payload(&key, &ct2).is_err());
}

#[test]
fn aad_binds_the_ciphertext() {
    let key = [9u8; 32];
    let ct = encrypt_with_aad(&key, b"manifest", b"header-a").unwrap_or_default();
    assert_eq!(decrypt_with_aad(&key, &ct, b"header-a").unwrap_or_default(), b"manifest");
    assert!(decrypt_with_aad(&key, &ct, b"header-b").is_err());
    assert_eq!(ct.len(), 12 + 8 + 16);
}

#[test]
fn key_readback_note_never_leaks_key_material() {
    let key = [0xABu8; 32];
    let note = describe_readback("vault", &Ok(Some(key)));
    let hex: String = key.iter().map(|b| format!("{b:02x}")).collect();
    assert!(!note.contains(&hex), "文案泄露了十六进制密钥: {note}");
    assert!(!note.contains(&hex.to_uppercase()), "文案泄露了大写十六进制密钥");
    assert!(!note.contains(&base64(&key)), "文案泄露了 base64 密钥");
    assert!(!note.contains(&format!("{key:?}")), "文案泄露了原始字节数组");
    assert!(note.contains("长度正确"), "文案应只说明长度/存在性: {note}");
    let missing = describe_readback("vault", &Ok(None));
    assert!(missing.contains("找不到"));
    let failed = describe_readback("vault", &Err("密钥库读取失败: 拒绝访问".into()));
    assert!(failed.contains("拒绝访问"));
}

#[test]
fn mod_readback_note_never_leaks_key_material() {
    let key = [0xABu8; 32];
    let note = describe_readback("vault", &Ok(Some(key)));
    let hex: String = key.iter().map(|b| format!("{b:02x}")).collect();
    assert!(!note.contains(&hex), "文案泄露了十六进制密钥: {note}");
    assert!(!note.contains(&hex.to_uppercase()), "文案泄露了大写十六进制密钥");
    assert!(!note.contains(&base64(&key)), "文案泄露了 base64 密钥");
    assert!(!note.contains(&format!("{key:?}")), "文案泄露了原始字节数组");
    assert!(note.contains("长度正确"), "文案应只说明长度/存在性: {note}");
    let missing = describe_readback("vault", &Ok(None));
    assert!(missing.contains("找不到"));
    let failed = describe_readback("vault", &Err("密钥库读取失败: 拒绝访问".into()));
    assert!(failed.contains("拒绝访问"));
}

#[test]
fn keyring_service_is_scoped_per_space() {
    const SPACE_A: &str = "3f2b6c1e-5a44-4d7e-9b01-8c2d6f0a1b23";
    const SPACE_B: &str = "7c1d0a94-2b6f-4e83-8f52-1a9de4c7b305";
    assert_eq!(keyring_service(SPACE_A), format!("{KEYRING_SERVICE}.{SPACE_A}"));
    assert_ne!(keyring_service(SPACE_A), keyring_service(SPACE_B));
    assert_ne!(keyring_service(SPACE_A), KEYRING_SERVICE);
    assert_eq!(vault_key_spec().account, "vault-master-key");
    assert_eq!(credentials_key_spec().account, "credentials-master-key");
    assert_eq!(keyring_store_for(SPACE_B).service(), format!("{KEYRING_SERVICE}.{SPACE_B}"));
}

#[test]
fn existing_ciphertext_decides_between_candidates() {
    let spec = credentials_key_spec();
    let keyring_key = [1u8; 32];
    let fallback_key = [2u8; 32];
    let ct = encrypt_payload(&fallback_key, b"{}").unwrap();
    let decision = resolve_decision(&spec, &Ok(Some(keyring_key)), &Ok(Some(fallback_key)), &vec![ct.clone()], &[], true);
    match decision {
        KeyResolution::UseFallback { key, promote, .. } => {
            assert_eq!(key, fallback_key);
            assert!(promote);
        }
        other => panic!("expected the fallback key, got {other:?}"),
    }
    let keyring_ct = encrypt_payload(&keyring_key, b"{}").unwrap();
    let decision = resolve_decision(&spec, &Ok(Some(keyring_key)), &Ok(Some(fallback_key)), &vec![keyring_ct], &[], true);
    assert!(matches!(decision, KeyResolution::UseKeyring { key, .. } if key == keyring_key));
}

#[test]
fn lost_key_never_regenerates() {
    let spec = vault_key_spec();
    let ct = encrypt_payload(&[3u8; 32], b"{}").unwrap();
    let decision = resolve_decision(&spec, &Ok(None), &Ok(None), &vec![ct], &[], true);
    match decision {
        KeyResolution::Locked(message) => assert!(message.contains("无法解锁"), "{message}"),
        other => panic!("expected a locked state, got {other:?}"),
    }
}

#[test]
fn mismatched_candidates_lock_and_name_both() {
    let spec = vault_key_spec();
    let ct = encrypt_payload(&[3u8; 32], b"{}").unwrap();
    let decision =
        resolve_decision(&spec, &Ok(Some([1u8; 32])), &Ok(Some([2u8; 32])), &vec![Vec::new(), ct], &[], false);
    match decision {
        KeyResolution::Locked(message) => assert!(message.contains("系统密钥库与本地密钥文件"), "{message}"),
        other => panic!("expected a locked state, got {other:?}"),
    }
}

#[test]
fn nothing_present_creates_and_corrupt_fallback_is_reported() {
    let spec = vault_key_spec();
    let decision = resolve_decision(&spec, &Ok(None), &Ok(None), &Vec::new(), &[], true);
    assert!(matches!(decision, KeyResolution::Create { ref notes } if notes.is_empty()));
    let corrupt = fallback_key_from_bytes("/k/vault-master.key", Some(b"short".to_vec()));
    let message = corrupt.clone().unwrap_err();
    assert!(message.contains("降级主密钥文件损坏"), "{message}");
    let decision = resolve_decision(&spec, &Ok(None), &corrupt, &Vec::new(), &[], true);
    assert!(matches!(decision, KeyResolution::FallbackCorrupt(m) if m == message));
    let failing = resolve_decision(&spec, &Err("拒绝访问".into()), &Ok(None), &Vec::new(), &[], true);
    match failing {
        KeyResolution::Create { notes } => assert_eq!(notes, vec!["[vault] 拒绝访问，已尝试本地密钥文件".to_string()]),
        other => panic!("expected creation, got {other:?}"),
    }
}

#[test]
fn fallback_file_bytes_decode_to_a_key() {
    assert_eq!(fallback_key_from_bytes("/k", None), Ok(None));
    assert_eq!(fallback_key_from_bytes("/k", Some(vec![5u8; 32])), Ok(Some([5u8; 32])));
}

#[test]
fn persistence_needs_a_matching_readback() {
    let key = [4u8; 32];
    assert!(key_persisted(&key, &Ok(()), &Ok(Some(key))));
    assert!(!key_persisted(&key, &Ok(()), &Ok(Some([5u8; 32]))));
    assert!(!key_persisted(&key, &Ok(()), &Ok(None)));
    assert!(!key_persisted(&key, &Err("x".into()), &Ok(Some(key))));
}

#[test]
fn promotion_attempted_only_once_per_account() {
    let mut ledger = PromotionLedger::new();
    assert!(!ledger.mark_attempt("test-promote-once-account"));
    assert!(ledger.mark_attempt("test-promote-once-account"), "同一进程不应反复重写系统密钥库");
    assert!(!ledger.mark_attempt("other"));
    ledger.reset();
    assert!(!ledger.mark_attempt("test-promote-once-account"));
}

#[test]
fn status_reports_uninitialized_keyring_fallback_and_locked() {
    assert!(!needs_resolution(false, false, false));
    let fresh = inspect_domain("vault", true, false, false, false, None);
    assert_eq!(fresh.availability, ProtectionAvailability::Uninitialized);
    let keyring = inspect_domain("vault", true, true, false, true, Some(Ok((KeySource::Keyring, Vec::new()))));
    assert_eq!(keyring.backend, ProtectionBackend::SystemKeyring);
    assert_eq!(keyring.availability, ProtectionAvailability::Available);
    let fallback = inspect_domain(
        "vault",
        true,
        false,
        true,
        true,
        Some(Ok((KeySource::FallbackFile, vec!["写入降级密钥文件".to_string()]))),
    );
    assert_eq!(fallback.backend, ProtectionBackend::FileFallback);
    assert_eq!(fallback.fallback_reason, Some("写入降级密钥文件".to_string()));
    let locked = inspect_domain("vault", true, true, true, true, Some(Err("无法解锁（vault）".to_string())));
    assert_eq!(locked.availability, ProtectionAvailability::Locked);
    assert!(locked.fallback_reason.unwrap().contains("无法解锁"));
}

#[test]
fn aad_and_explicit_nonce_bind_ciphertext() {
    let key = [9u8; 32];
    let ct = encrypt_with_aad(&key, b"manifest", b"header-a").unwrap_or_default();
    assert_eq!(decrypt_with_aad(&key, &ct, b"header-a").unwrap_or_default(), b"manifest");
    assert!(decrypt_with_aad(&key, &ct, b"header-b").is_err());

    let nonce = [3u8; 12];
    let raw = encrypt_with_aad_nonce(&key, b"body", b"hdr", &nonce).unwrap_or_default();
    assert_eq!(decrypt_with_aad_nonce(&key, &raw, b"hdr", &nonce).unwrap_or_default(), b"body");
    assert!(decrypt_with_aad_nonce(&key, &raw, b"other", &nonce).is_err());
    assert!(decrypt_with_aad_nonce(&key, &raw, b"hdr", &[4u8; 12]).is_err());
    assert!(decrypt_with_aad_nonce(&key, b"short", b"hdr", &nonce).is_err());
}

#[test]
fn read_only_resolution_refuses_instead_of_creating() {
    let spec = vault_key_spec();
    let decision = resolve_decision(&spec, &Ok(None), &Ok(None), &Vec::new(), &[], false);
    match decision {
        KeyResolution::Uninitialized(m) => assert_eq!(m, "[vault] 主密钥尚未生成（只读解析不写系统密钥库）"),
        other => panic!("expected a refusal, got {other:?}"),
    }
}

#[test]
fn second_resolution_finds_the_created_key() {
    let spec = vault_key_spec();
    let first = resolve_decision(&spec, &Ok(None), &Ok(None), &vec![], &[], true);
    assert!(matches!(first, KeyResolution::Create { .. }));
    let key = [9u8; 32];
    match resolve_decision(&spec, &Ok(Some(key)), &Ok(None), &vec![], &[], true) {
        KeyResolution::UseKeyring { key: k, .. } => assert_eq!(k, key),
        _ => panic!("应使用系统密钥库中的新密钥"),
    }
    match resolve_decision(&spec, &Ok(None), &Ok(Some(key)), &vec![], &[], true) {
        KeyResolution::UseFallback { key: k, .. } => assert_eq!(k, key),
        _ => panic!("应使用降级文件中的新密钥"),
    }
}

#[test]
fn read_only_resolution_agrees_where_ciphertext_exists() {
    let spec = credentials_key_spec();
    let fallback_key = [2u8; 32];
    let ct = encrypt_payload(&fallback_key, b"{}").unwrap();
    for allow in [false, true] {
        match resolve_decision(&spec, &Ok(Some([1u8; 32])), &Ok(Some(fallback_key)), &vec![ct.clone()], &[], allow) {
            KeyResolution::UseFallback { key, promote, .. } => {
                assert_eq!(key, fallback_key);
                assert_eq!(promote, allow);
            }
            _ => panic!("应使用能解开密文的降级密钥"),
        }
    }
}

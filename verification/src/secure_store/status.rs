//! Protection status of a credential domain: where the master key actually
//! lives and whether the ciphertext can be opened, reported from observations
//! only (a status query never creates or registers a key).

use vstd::prelude::*;

use crate::secure_store::key::KeySource;
use crate::text::owned;

verus! {

/// Actual protection backend of the master key.
#[derive(Clone, Copy, Debug, PartialEq, Eq)]
pub enum ProtectionBackend {
    /// System keyring (Windows credential manager / macOS keychain).
    SystemKeyring,
    /// Local fallback key file.
    FileFallback,
    /// No usable system keyring backend; no system-level protection claimed.
    Unavailable,
}

/// Availability of the domain.
#[derive(Clone, Copy, Debug, PartialEq, Eq)]
pub enum ProtectionAvailability {
    /// Credentials can be read and written.
    Available,
    /// Ciphertext exists but no candidate key opens it.
    Locked,
    /// Nothing written yet; the key is created on first save.
    Uninitialized,
}

/// Protection state of one data domain (`vault` / `credentials`).
#[derive(Debug, PartialEq, Eq)]
pub struct DomainProtection {
    /// Domain name.
    pub domain: String,
    /// Where the master key actually comes from.
    pub backend: ProtectionBackend,
    /// Availability.
    pub availability: ProtectionAvailability,
    /// User-facing reason on fallback / locked paths (never secret).
    pub fallback_reason: Option<String>,
    /// The keyring holds a key for the domain.
    pub keyring_has_key: bool,
    /// The fallback key file exists.
    pub fallback_file_exists: bool,
    /// Ciphertext (main file or backup) exists.
    pub ciphertext_exists: bool,
}

/// Full protection status (settings page).
#[derive(Debug, PartialEq, Eq)]
pub struct ProtectionStatus {
    /// The platform has a native keyring backend compiled in.
    pub native_backend: bool,
    /// Per-domain states.
    pub domains: Vec<DomainProtection>,
}

/// Explanation used when the platform has no native keyring backend.
pub open spec fn unavailable_text() -> Seq<char> {
    "当前平台未编译系统密钥库后端（keyring mock 不算系统保护）：主密钥只能保存在本地密钥文件，请勿与密文一起复制到不可信设备"@
}

/// Explanation used when the platform has no native keyring backend.
pub fn unavailable_reason() -> (r: String)
    ensures
        r@ == unavailable_text(),
{
    owned("当前平台未编译系统密钥库后端（keyring mock 不算系统保护）：主密钥只能保存在本地密钥文件，请勿与密文一起复制到不可信设备")
}

/// Nothing exists yet for the domain: no ciphertext, no keyring key, no fallback file.
pub open spec fn uninitialized(keyring_has_key: bool, fallback_file_exists: bool, ciphertext_exists: bool) -> bool {
    !ciphertext_exists && !keyring_has_key && !fallback_file_exists
}

/// Whether the key has to be resolved (read-only) to report the status.
pub fn needs_resolution(keyring_has_key: bool, fallback_file_exists: bool, ciphertext_exists: bool) -> (r: bool)
    ensures
        r == !uninitialized(keyring_has_key, fallback_file_exists, ciphertext_exists),
{
    ciphertext_exists || keyring_has_key || fallback_file_exists
}

/// Reason text of a resolved fallback key: the last note, or a default.
pub open spec fn fallback_text(notes: Seq<String>) -> Seq<char> {
    if notes.len() > 0 {
        notes.last()@
    } else {
        "主密钥来自本地降级密钥文件"@
    }
}

/// Status of one domain from observations and (unless uninitialized) the
/// read-only resolution outcome: source and notes, or the locked message.
pub fn inspect_domain(
    domain: &str,
    native: bool,
    keyring_has_key: bool,
    fallback_file_exists: bool,
    ciphertext_exists: bool,
    resolution: Option<Result<(KeySource, Vec<String>), String>>,
) -> (r: DomainProtection)
    requires
        !uninitialized(keyring_has_key, fallback_file_exists, ciphertext_exists) ==> resolution is Some,
    ensures
        r.domain@ == domain@,
        r.keyring_has_key == keyring_has_key,
        r.fallback_file_exists == fallback_file_exists,
        r.ciphertext_exists == ciphertext_exists,
        uninitialized(keyring_has_key, fallback_file_exists, ciphertext_exists) ==> {
            &&& r.availability == ProtectionAvailability::Uninitialized
            &&& r.backend == (if native { ProtectionBackend::SystemKeyring } else { ProtectionBackend::Unavailable })
            &&& r.fallback_reason matches Some(t) && t@ == (if native {
                "尚未初始化：首次保存凭证时生成主密钥并存入系统密钥库"@
            } else {
                unavailable_text()
            })
        },
        !uninitialized(keyring_has_key, fallback_file_exists, ciphertext_exists) ==> match resolution.unwrap() {
            Err(e) => r.backend == ProtectionBackend::Unavailable && r.availability
                == ProtectionAvailability::Locked && (r.fallback_reason matches Some(t) && t@ == e@),
            Ok((source, notes)) => r.availability == ProtectionAvailability::Available && if !native {
                r.backend == ProtectionBackend::Unavailable && (r.fallback_reason matches Some(t) && t@
                    == unavailable_text())
            } else if source == KeySource::FallbackFile {
                r.backend == ProtectionBackend::FileFallback && (r.fallback_reason matches Some(t) && t@
                    == fallback_text(notes@))
            } else {
                r.backend == ProtectionBackend::SystemKeyring && r.fallback_reason is None
            },
        },
{
    if !needs_resolution(keyring_has_key, fallback_file_exists, ciphertext_exists) {
        let reason = if native {
            owned("尚未初始化：首次保存凭证时生成主密钥并存入系统密钥库")
        } else {
            unavailable_reason()
        };
        return DomainProtection {
            domain: owned(domain),
            backend: if native { ProtectionBackend::SystemKeyring } else { ProtectionBackend::Unavailable },
            availability: ProtectionAvailability::Uninitialized,
            fallback_reason: Some(reason),
            keyring_has_key,
            fallback_file_exists,
            ciphertext_exists,
        };
    }
    let (backend, availability, fallback_reason) = match resolution {
        Some(Ok((source, notes))) => {
            if !native {
                (ProtectionBackend::Unavailable, ProtectionAvailability::Available, Some(unavailable_reason()))
            } else {
                match source {
                    KeySource::FallbackFile => {
                        let reason = if notes.len() > 0 {
                            notes[notes.len() - 1].clone()
                        } else {
                            owned("主密钥来自本地降级密钥文件")
                        };
                        (ProtectionBackend::FileFallback, ProtectionAvailability::Available, Some(reason))
                    },
                    _ => (ProtectionBackend::SystemKeyring, ProtectionAvailability::Available, None),
                }
            }
        },
        Some(Err(error)) => (ProtectionBackend::Unavailable, ProtectionAvailability::Locked, Some(error)),
        None => (ProtectionBackend::Unavailable, ProtectionAvailability::Locked, None),
    };
    DomainProtection {
        domain: owned(domain),
        backend,
        availability,
        fallback_reason,
        keyring_has_key,
        fallback_file_exists,
        ciphertext_exists,
    }
}

} // verus!

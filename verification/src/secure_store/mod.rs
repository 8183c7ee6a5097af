//! Secure-store primitives shared by the vault and the credential namespaces:
//! AES-256-GCM payloads, master-key resolution and protection status.

pub mod crypto;
pub mod key;
pub mod status;
pub mod recovery;

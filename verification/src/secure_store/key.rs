//! Master-key source: system keyring → local fallback key file → first creation.
//!
//! Rules: with existing ciphertext the ciphertext decides (a candidate key is
//! taken only if it authenticates some of it), a key that would orphan existing
//! ciphertext is never created, and diagnostics never carry key bytes.
//! The I/O (keyring, files, randomness) is done by the caller; this module
//! decides what to do with what it read.

use vstd::prelude::*;

use crate::secure_store::crypto::{authenticates_with_aad, open_payload, random_key};
use crate::text::owned;

verus! {

/// Keyring service prefix; each space gets `<prefix>.<space uid>`.
pub const KEYRING_SERVICE: &'static str = "com.patchy23.patchybox";

/// One master-key domain: keyring account plus local fallback key file.
#[derive(Clone, Copy, Debug, PartialEq, Eq)]
pub struct KeySpec {
    /// Keyring account of the domain.
    pub account: &'static str,
    /// Fallback key file name (inside the domain's data directory).
    pub fallback_file: &'static str,
    /// Log prefix (never secret).
    pub scope: &'static str,
}

/// Vault master-key domain.
pub fn vault_key_spec() -> (r: KeySpec)
    ensures
        r.account@ == "vault-master-key"@,
        r.fallback_file@ == "vault-master.key"@,
        r.scope@ == "vault"@,
{
    KeySpec { account: "vault-master-key", fallback_file: "vault-master.key", scope: "vault" }
}

/// Credential-namespace master-key domain.
pub fn credentials_key_spec() -> (r: KeySpec)
    ensures
        r.account@ == "credentials-master-key"@,
        r.fallback_file@ == "credentials-master.key"@,
        r.scope@ == "credentials"@,
{
    KeySpec {
        account: "credentials-master-key",
        fallback_file: "credentials-master.key",
        scope: "credentials",
    }
}

/// Keyring service name of a space: `<prefix>.<space uid>`.
pub fn keyring_service(space_id: &str) -> (r: String)
    ensures
        r@ == KEYRING_SERVICE@ + "."@ + space_id@,
{
    let mut out = owned(KEYRING_SERVICE);
    out.append(".");
    out.append(space_id);
    out
}

/// Keyring access bound to one service (the keyring calls live with the caller).
pub struct ScopedKeyringStore {
    /// Service name; fixed after construction.
    service: String,
}

impl ScopedKeyringStore {
    /// Binds a service name; no key material is touched.
    pub fn new(service: String) -> (r: ScopedKeyringStore)
        ensures
            r.service_name() == service@,
    {
        ScopedKeyringStore { service }
    }

    /// The bound service name.
    pub closed spec fn service_name(&self) -> Seq<char> {
        self.service@
    }

    /// The bound service name.
    pub fn service(&self) -> (r: &str)
        ensures
            r@ == self.service_name(),
    {
        self.service.as_str()
    }
}

/// Keyring access of a space's own service.
pub fn keyring_store_for(space_id: &str) -> (r: ScopedKeyringStore)
    ensures
        r.service_name() == KEYRING_SERVICE@ + "."@ + space_id@,
{
    ScopedKeyringStore::new(keyring_service(space_id))
}

/// Where the resolved key came from.
#[derive(Clone, Copy, Debug, PartialEq, Eq)]
pub enum KeySource {
    /// System keyring.
    Keyring,
    /// Local fallback key file.
    FallbackFile,
    /// Created in this resolution.
    CreatedNow,
}

/// Note about a keyring read-back after a write; only presence and length.
pub open spec fn readback_note(scope: Seq<char>, result: Result<Option<[u8; 32]>, String>) -> Seq<char> {
    match result {
        Ok(Some(_)) => "["@ + scope + "] 回读到的主密钥与写入值不一致（长度正确）"@,
        Ok(None) => "["@ + scope + "] 回读时找不到刚写入的记录"@,
        Err(e) => "["@ + scope + "] 回读失败："@ + e@,
    }
}

/// Describes a keyring read-back without any key bytes.
pub fn describe_readback(scope: &str, result: &Result<Option<[u8; 32]>, String>) -> (r: String)
    ensures
        r@ == readback_note(scope@, *result),
{
    let mut out = owned("[");
    out.append(scope);
    match result {
        Ok(Some(_)) => out.append("] 回读到的主密钥与写入值不一致（长度正确）"),
        Ok(None) => out.append("] 回读时找不到刚写入的记录"),
        Err(e) => {
            out.append("] 回读失败：");
            out.append(e.as_str());
        },
    }
    out
}

/// The read-back note is the same for every key value: it never depends on key material.
pub proof fn readback_note_hides_key(scope: Seq<char>, k1: [u8; 32], k2: [u8; 32])
    ensures
        readback_note(scope, Ok(Some(k1))) == readback_note(scope, Ok(Some(k2))),
{
}

/// Message of the locked state for each combination of present candidates.
pub open spec fn locked_base(scope: Seq<char>, has_keyring: bool, has_fallback: bool) -> Seq<char> {
    if has_keyring && has_fallback {
        "无法解锁（"@ + scope + "）：系统密钥库与本地密钥文件中的主密钥都无法解密现有密文（可能密文损坏或被替换）。未生成新密钥，文件均保持原样；可用「凭证管理 → 导入」恢复备份"@
    } else if has_keyring {
        "无法解锁（"@ + scope + "）：系统密钥库中的主密钥无法解密现有密文。未生成新密钥，文件保持原样；可用「凭证管理 → 导入」恢复备份，或确认后删除密文重新初始化"@
    } else if has_fallback {
        "无法解锁（"@ + scope + "）：本地密钥文件中的主密钥无法解密现有密文。未生成新密钥，文件保持原样；可用「凭证管理 → 导入」恢复备份"@
    } else {
        "无法解锁（"@ + scope + "）：系统密钥库与本地都没有主密钥，而密文仍在（可能换机 / 重装 / 密钥被清空）。未生成新密钥；可用「凭证管理 → 导入」恢复备份，或确认后删除密文重新初始化"@
    }
}

/// The notes, each preceded by the full-width separator `；`.
pub open spec fn joined_notes(notes: Seq<String>) -> Seq<char>
    decreases notes.len(),
{
    if notes.len() == 0 {
        Seq::empty()
    } else {
        joined_notes(notes.drop_last()) + "；"@ + notes.last()@
    }
}

/// Locked-state message: names the candidates that were tried, then the notes.
pub fn locked_message(spec: &KeySpec, has_keyring: bool, has_fallback: bool, notes: &Vec<String>) -> (r: String)
    ensures
        r@ == locked_base(spec.scope@, has_keyring, has_fallback) + joined_notes(notes@),
{
    let mut message = owned("无法解锁（");
    message.append(spec.scope);
    if has_keyring && has_fallback {
        message.append("）：系统密钥库与本地密钥文件中的主密钥都无法解密现有密文（可能密文损坏或被替换）。未生成新密钥，文件均保持原样；可用「凭证管理 → 导入」恢复备份");
    } else if has_keyring {
        message.append("）：系统密钥库中的主密钥无法解密现有密文。未生成新密钥，文件保持原样；可用「凭证管理 → 导入」恢复备份，或确认后删除密文重新初始化");
    } else if has_fallback {
        message.append("）：本地密钥文件中的主密钥无法解密现有密文。未生成新密钥，文件保持原样；可用「凭证管理 → 导入」恢复备份");
    } else {
        message.append("）：系统密钥库与本地都没有主密钥，而密文仍在（可能换机 / 重装 / 密钥被清空）。未生成新密钥；可用「凭证管理 → 导入」恢复备份，或确认后删除密文重新初始化");
    }
    let ghost base = message@;
    let mut i: usize = 0;
    while i < notes.len()
        invariant
            i <= notes@.len(),
            message@ == base + joined_notes(notes@.subrange(0, i as int)),
        decreases notes@.len() - i,
    {
        message.append("；");
        message.append(notes[i].as_str());
        proof {
            let sub = notes@.subrange(0, i + 1);
            assert(sub.drop_last() =~= notes@.subrange(0, i as int));
        }
        i = i + 1;
    }
    assert(notes@.subrange(0, notes@.len() as int) =~= notes@);
    message
}

/// Fallback key file contents: absent, a 32-byte key, or damaged (any other length).
pub open spec fn fallback_key_of(path: Seq<char>, bytes: Option<Seq<u8>>) -> Result<Option<Seq<u8>>, Seq<char>> {
    match bytes {
        None => Ok(None),
        Some(b) => if b.len() == 32 {
            Ok(Some(b))
        } else {
            Err("降级主密钥文件损坏（长度不是 32 字节，文件保持原样）："@ + path)
        },
    }
}

/// Interprets the bytes read from the fallback key file (`None` = file absent).
pub fn fallback_key_from_bytes(path: &str, bytes: Option<Vec<u8>>) -> (r: Result<Option<[u8; 32]>, String>)
    ensures
        match (r, fallback_key_of(path@, match bytes { Some(b) => Some(b@), None => None })) {
            (Ok(Some(k)), Ok(Some(b))) => k@ == b,
            (Ok(None), Ok(None)) => true,
            (Err(e), Err(m)) => e@ == m,
            _ => false,
        },
{
    match bytes {
        None => Ok(None),
        Some(b) => {
            if b.len() != 32 {
                let mut message = owned("降级主密钥文件损坏（长度不是 32 字节，文件保持原样）：");
                message.append(path);
                return Err(message);
            }
            let mut key = [0u8; 32];
            let mut i: usize = 0;
            while i < 32
                invariant
                    i <= 32,
                    b@.len() == 32,
                    forall|k: int| 0 <= k < i ==> key@[k] == b@[k],
                decreases 32 - i,
            {
                key[i] = b[i];
                i = i + 1;
            }
            assert(key@ =~= b@);
            Ok(Some(key))
        },
    }
}

/// Some evidence file is non-empty.
pub open spec fn has_ciphertext(evidence: Seq<Vec<u8>>) -> bool {
    exists|i: int| 0 <= i < evidence.len() && evidence[i]@.len() > 0
}

/// `key` (with `aad`) authenticates at least one evidence file.
pub open spec fn authenticates_any(key: Seq<u8>, evidence: Seq<Vec<u8>>, aad: Seq<u8>) -> bool {
    exists|i: int| 0 <= i < evidence.len() && open_payload(key, aad, evidence[i]@) is Some
}

/// What to do with a read keyring entry and fallback file.
#[derive(Debug)]
pub enum KeyResolution {
    /// Use the keyring key.
    UseKeyring { key: [u8; 32], notes: Vec<String> },
    /// Use the fallback key; `promote` asks to register it in the keyring
    /// (keyring write with read-back check; the fallback file stays).
    UseFallback { key: [u8; 32], notes: Vec<String>, promote: bool },
    /// Ciphertext exists and no candidate opens it: refuse, create nothing.
    Locked(String),
    /// No ciphertext, no keyring key, and the fallback file is damaged.
    FallbackCorrupt(String),
    /// Nothing exists yet: create a new key.
    Create { notes: Vec<String> },
    /// Nothing exists yet and the resolution is read-only: refuse, write nothing.
    Uninitialized(String),
}

/// Refusal of a read-only resolution when no key exists yet.
pub open spec fn uninitialized_message(scope: Seq<char>) -> Seq<char> {
    "["@ + scope + "] 主密钥尚未生成（只读解析不写系统密钥库）"@
}

/// Diagnostic notes gathered from failed reads (keyring error first, then fallback error).
pub open spec fn read_notes(scope: Seq<char>, keyring: Result<Option<[u8; 32]>, String>, fallback: Result<Option<[u8; 32]>, String>) -> Seq<Seq<char>> {
    let first: Seq<Seq<char>> = match keyring {
        Err(e) => seq!["["@ + scope + "] "@ + e@ + "，已尝试本地密钥文件"@],
        Ok(_) => Seq::empty(),
    };
    match fallback {
        Err(e) => first.push(e@),
        Ok(_) => first,
    }
}

/// The candidate key of a read result (`None` on error or absence).
pub open spec fn candidate(read: Result<Option<[u8; 32]>, String>) -> Option<[u8; 32]> {
    match read {
        Ok(Some(k)) => Some(k),
        _ => None,
    }
}

/// Views of a list of notes.
pub open spec fn note_views(notes: Seq<String>) -> Seq<Seq<char>> {
    notes.map_values(|n: String| n@)
}

/// What `resolve_decision` decides from the keyring read, the fallback
/// read and the ciphertext evidence; `may_write` is false for a read-only
/// resolution, which never writes the keyring (no promotion, no creation).
pub open spec fn decided(
    scope: Seq<char>,
    keyring: Result<Option<[u8; 32]>, String>,
    fallback: Result<Option<[u8; 32]>, String>,
    evidence: Seq<Vec<u8>>,
    aad: Seq<u8>,
    may_write: bool,
    r: KeyResolution,
) -> bool {
    let notes = read_notes(scope, keyring, fallback);
    let kk = candidate(keyring);
    let fk = candidate(fallback);
    if has_ciphertext(evidence) {
        if kk is Some && authenticates_any(kk.unwrap()@, evidence, aad) {
            r matches KeyResolution::UseKeyring { key, notes: n } && key == kk.unwrap() && note_views(n@) == notes
        } else if fk is Some && authenticates_any(fk.unwrap()@, evidence, aad) {
            r matches KeyResolution::UseFallback { key, notes: n, promote } && key == fk.unwrap() && note_views(n@)
                == notes && promote == may_write
        } else {
            r matches KeyResolution::Locked(m) && exists|ns: Seq<String>|
                note_views(ns) == notes && m@ == locked_base(scope, kk is Some, fk is Some) + joined_notes(ns)
        }
    } else if kk is Some {
        r matches KeyResolution::UseKeyring { key, notes: n } && key == kk.unwrap() && note_views(n@) == notes
    } else if fk is Some {
        r matches KeyResolution::UseFallback { key, notes: n, promote } && key == fk.unwrap() && note_views(n@)
            == notes && promote == may_write
    } else if fallback is Err {
        r matches KeyResolution::FallbackCorrupt(m) && m@ == fallback->Err_0@
    } else if !may_write {
        r matches KeyResolution::Uninitialized(m) && m@ == uninitialized_message(scope)
    } else {
        r matches KeyResolution::Create { notes: n } && note_views(n@) == notes
    }
}

/// Decides the master key from what was read. With ciphertext present the
/// ciphertext decides and a new key is never created; without ciphertext the
/// order is keyring, then fallback file, then creation. With
/// `allow_promotion` false the resolution is read-only: it never asks for a
/// keyring write, so where a key would be created it refuses instead.
pub fn resolve_decision(
    spec: &KeySpec,
    keyring: &Result<Option<[u8; 32]>, String>,
    fallback: &Result<Option<[u8; 32]>, String>,
    evidence: &Vec<Vec<u8>>,
    aad: &[u8],
    allow_promotion: bool,
) -> (r: KeyResolution)
    ensures
        decided(spec.scope@, *keyring, *fallback, evidence@, aad@, allow_promotion, r),
{
    let mut notes: Vec<String> = Vec::new();
    if let Err(e) = keyring {
        let mut note = owned("[");
        note.append(spec.scope);
        note.append("] ");
        note.append(e.as_str());
        note.append("，已尝试本地密钥文件");
        notes.push(note);
    }
    if let Err(e) = fallback {
        notes.push(e.clone());
    }
    assert(note_views(notes@) =~= read_notes(spec.scope@, *keyring, *fallback));
    let keyring_key: Option<[u8; 32]> = match keyring {
        Ok(Some(k)) => Some(*k),
        _ => None,
    };
    let fallback_key: Option<[u8; 32]> = match fallback {
        Ok(Some(k)) => Some(*k),
        _ => None,
    };
    let mut any_ciphertext = false;
    let mut i: usize = 0;
    while i < evidence.len()
        invariant
            i <= evidence@.len(),
            any_ciphertext == exists|j: int| 0 <= j < i && evidence@[j]@.len() > 0,
        decreases evidence@.len() - i,
    {
        if evidence[i].len() > 0 {
            any_ciphertext = true;
        }
        i = i + 1;
    }
    if any_ciphertext {
        if let Some(key) = keyring_key {
            if authenticates_any_exec(&key, evidence, aad) {
                return KeyResolution::UseKeyring { key, notes };
            }
        }
        if let Some(key) = fallback_key {
            if authenticates_any_exec(&key, evidence, aad) {
                return KeyResolution::UseFallback { key, notes, promote: allow_promotion };
            }
        }
        let message = locked_message(spec, keyring_key.is_some(), fallback_key.is_some(), &notes);
        return KeyResolution::Locked(message);
    }
    if let Some(key) = keyring_key {
        return KeyResolution::UseKeyring { key, notes };
    }
    if let Some(key) = fallback_key {
        return KeyResolution::UseFallback { key, notes, promote: allow_promotion };
    }
    if let Err(e) = fallback {
        return KeyResolution::FallbackCorrupt(e.clone());
    }
    if !allow_promotion {
        let mut m = owned("[");
        m.append(spec.scope);
        m.append("] 主密钥尚未生成（只读解析不写系统密钥库）");
        return KeyResolution::Uninitialized(m);
    }
    KeyResolution::Create { notes }
}

/// Whether `key` authenticates any of the evidence files.
fn authenticates_any_exec(key: &[u8; 32], evidence: &Vec<Vec<u8>>, aad: &[u8]) -> (r: bool)
    ensures
        r == authenticates_any(key@, evidence@, aad@),
{
    let mut i: usize = 0;
    while i < evidence.len()
        invariant
            i <= evidence@.len(),
            forall|j: int| 0 <= j < i ==> open_payload(key@, aad@, evidence@[j]@) is None,
        decreases evidence@.len() - i,
    {
        if authenticates_with_aad(key, evidence[i].as_slice(), aad) {
            return true;
        }
        i = i + 1;
    }
    false
}

/// Whether a freshly written key was persisted: the write succeeded and the
/// read-back returned the same key.
pub fn key_persisted(key: &[u8; 32], write: &Result<(), String>, readback: &Result<Option<[u8; 32]>, String>) -> (r: bool)
    ensures
        r == (write is Ok && (readback matches Ok(Some(k)) && k@ == key@)),
{
    match write {
        Ok(()) => match readback {
            Ok(Some(k)) => bytes_eq_32(k, key),
            _ => false,
        },
        Err(_) => false,
    }
}

/// Byte-wise equality of two 32-byte keys.
fn bytes_eq_32(a: &[u8; 32], b: &[u8; 32]) -> (r: bool)
    ensures
        r == (a@ == b@),
{
    let mut i: usize = 0;
    while i < 32
        invariant
            i <= 32,
            forall|k: int| 0 <= k < i ==> a@[k] == b@[k],
        decreases 32 - i,
    {
        if a[i] != b[i] {
            return false;
        }
        i = i + 1;
    }
    assert(a@ =~= b@);
    true
}

/// Note left by registering a verified fallback key in the keyring.
pub open spec fn promotion_note(scope: Seq<char>, key: Seq<u8>, write: Result<(), String>, readback: Result<Option<[u8; 32]>, String>) -> Seq<char> {
    match write {
        Ok(_) => if readback matches Ok(Some(k)) && k@ == key {
            "已将本地降级密钥登记到系统密钥库，未删除本地密钥文件"@
        } else {
            readback_note(scope, readback)
        },
        Err(e) => "["@ + scope + "] 降级密钥登记失败："@ + e@,
    }
}

/// Describes the outcome of registering a fallback key in the keyring.
pub fn describe_promotion(scope: &str, key: &[u8; 32], write: &Result<(), String>, readback: &Result<Option<[u8; 32]>, String>) -> (r: String)
    ensures
        r@ == promotion_note(scope@, key@, *write, *readback),
{
    match write {
        Ok(()) => {
            if key_persisted(key, write, readback) {
                owned("已将本地降级密钥登记到系统密钥库，未删除本地密钥文件")
            } else {
                describe_readback(scope, readback)
            }
        },
        Err(e) => {
            let mut out = owned("[");
            out.append(scope);
            out.append("] 降级密钥登记失败：");
            out.append(e.as_str());
            out
        },
    }
}

/// Note used when the fallback key was already offered to the keyring in this process.
pub fn promotion_already_attempted_note() -> (r: String)
    ensures
        r@ == "本地降级密钥仍在使用（本次进程已尝试登记过系统密钥库）"@,
{
    owned("本地降级密钥仍在使用（本次进程已尝试登记过系统密钥库）")
}

/// Accounts whose fallback key was already offered to the keyring in this process
/// (each account is tried once per process).
pub struct PromotionLedger {
    /// Accounts already tried.
    attempted: Vec<String>,
}

impl PromotionLedger {
    /// Set of accounts tried so far.
    pub closed spec fn tried(&self) -> Set<Seq<char>> {
        self.attempted@.map_values(|a: String| a@).to_set()
    }

    /// Empty ledger.
    pub fn new() -> (r: PromotionLedger)
        ensures
            r.tried() == Set::<Seq<char>>::empty(),
    {
        let r = PromotionLedger { attempted: Vec::new() };
        assert(r.tried() =~= Set::<Seq<char>>::empty());
        r
    }

    /// Records an attempt for `account`; returns whether it had been tried already.
    pub fn mark_attempt(&mut self, account: &str) -> (already: bool)
        ensures
            already == old(self).tried().contains(account@),
            final(self).tried() == old(self).tried().insert(account@),
    {
        let ghost views = self.attempted@.map_values(|a: String| a@);
        let mut i: usize = 0;
        while i < self.attempted.len()
            invariant
                i <= self.attempted@.len(),
                views == self.attempted@.map_values(|a: String| a@),
                forall|j: int| 0 <= j < i ==> self.attempted@[j]@ != account@,
            decreases self.attempted@.len() - i,
        {
            if crate::text::str_eq(self.attempted[i].as_str(), account) {
                proof {
                    assert(views[i as int] == account@);
                    assert(self.tried().contains(account@));
                    assert(self.tried().insert(account@) =~= self.tried());
                }
                return true;
            }
            i = i + 1;
        }
        proof {
            assert(!self.tried().contains(account@)) by {
                if self.tried().contains(account@) {
                    let j = choose|j: int| 0 <= j < views.len() && views[j] == account@;
                    assert(self.attempted@[j]@ == account@);
                }
            }
        }
        let ghost before = self.attempted@;
        self.attempted.push(owned(account));
        proof {
            let after = self.attempted@.map_values(|a: String| a@);
            assert(after =~= views.push(account@));
            assert(after.to_set() =~= views.to_set().insert(account@)) by {
                assert forall|x: Seq<char>| after.to_set().contains(x) <==> views.to_set().insert(account@).contains(x) by {
                    if after.to_set().contains(x) {
                        let j = choose|j: int| 0 <= j < after.len() && after[j] == x;
                        if j < views.len() {
                            assert(views[j] == x);
                        }
                    }
                    if views.to_set().contains(x) {
                        let j = choose|j: int| 0 <= j < views.len() && views[j] == x;
                        assert(after[j] == x);
                    }
                    if x == account@ {
                        assert(after[views.len() as int] == x);
                    }
                }
            }
        }
        false
    }

    /// Forgets every attempt (test isolation).
    pub fn reset(&mut self)
        ensures
            final(self).tried() == Set::<Seq<char>>::empty(),
    {
        self.attempted = Vec::new();
        assert(self.tried() =~= Set::<Seq<char>>::empty());
    }
}

/// A resolved master key: the key, where it came from, and diagnostic
/// notes (never secret).
pub struct ResolvedKey {
    /// The master key.
    pub key: [u8; 32],
    /// Where it came from.
    pub source: KeySource,
    /// Diagnostic notes.
    pub notes: Vec<String>,
}

/// What follows a resolution decision.
pub enum ResolvePlan {
    /// Resolved (or refused) without further keyring work.
    Ready(Result<ResolvedKey, String>),
    /// Register the verified fallback key in the keyring (write, then read
    /// back), then finish with `finish_promotion`.
    Promote { key: [u8; 32], notes: Vec<String> },
    /// A fresh key: store it in the keyring (write, then read back), then
    /// finish with `finish_creation`.
    Create { key: [u8; 32], notes: Vec<String> },
}

/// Turns a decision into the next step. A fallback key is offered to the
/// keyring at most once per account and process (the ledger remembers);
/// creation draws a fresh random key.
pub fn plan_resolution(spec: &KeySpec, decision: KeyResolution, ledger: &mut PromotionLedger) -> (r: ResolvePlan)
    ensures
        match decision {
            KeyResolution::UseKeyring { key, notes } => r matches ResolvePlan::Ready(Ok(rk)) && rk.key == key
                && rk.source == KeySource::Keyring && rk.notes@ == notes@ && final(ledger).tried() == old(ledger).tried(),
            KeyResolution::UseFallback { key, notes, promote } => if !promote {
                r matches ResolvePlan::Ready(Ok(rk)) && rk.key == key && rk.source == KeySource::FallbackFile
                    && rk.notes@ == notes@ && final(ledger).tried() == old(ledger).tried()
            } else {
                &&& final(ledger).tried() == old(ledger).tried().insert(spec.account@)
                &&& old(ledger).tried().contains(spec.account@) ==> (r matches ResolvePlan::Ready(Ok(rk)) && rk.key
                    == key && rk.source == KeySource::FallbackFile && note_views(rk.notes@) == note_views(notes@).push(
                    "本地降级密钥仍在使用（本次进程已尝试登记过系统密钥库）"@,
                ))
                &&& !old(ledger).tried().contains(spec.account@) ==> (r matches ResolvePlan::Promote { key: k, notes: n }
                    && k == key && n@ == notes@)
            },
            KeyResolution::Locked(m) => r matches ResolvePlan::Ready(Err(e)) && e@ == m@ && final(ledger).tried()
                == old(ledger).tried(),
            KeyResolution::FallbackCorrupt(m) => r matches ResolvePlan::Ready(Err(e)) && e@ == m@ && final(ledger).tried()
                == old(ledger).tried(),
            KeyResolution::Create { notes } => r matches ResolvePlan::Create { key: _, notes: n } && n@ == notes@
                && final(ledger).tried() == old(ledger).tried(),
            KeyResolution::Uninitialized(m) => r matches ResolvePlan::Ready(Err(e)) && e@ == m@ && final(ledger).tried()
                == old(ledger).tried(),
        },
{
    match decision {
        KeyResolution::UseKeyring { key, notes } => ResolvePlan::Ready(
            Ok(ResolvedKey { key, source: KeySource::Keyring, notes }),
        ),
        KeyResolution::UseFallback { key, notes, promote } => {
            if !promote {
                return ResolvePlan::Ready(Ok(ResolvedKey { key, source: KeySource::FallbackFile, notes }));
            }
            let already = ledger.mark_attempt(spec.account);
            if already {
                let mut notes = notes;
                let ghost before = notes@;
                notes.push(promotion_already_attempted_note());
                assert(note_views(notes@) =~= note_views(before).push(
                    "本地降级密钥仍在使用（本次进程已尝试登记过系统密钥库）"@,
                ));
                ResolvePlan::Ready(Ok(ResolvedKey { key, source: KeySource::FallbackFile, notes }))
            } else {
                ResolvePlan::Promote { key, notes }
            }
        },
        KeyResolution::Locked(m) => ResolvePlan::Ready(Err(m)),
        KeyResolution::FallbackCorrupt(m) => ResolvePlan::Ready(Err(m)),
        KeyResolution::Create { notes } => ResolvePlan::Create { key: random_key(), notes },
        KeyResolution::Uninitialized(m) => ResolvePlan::Ready(Err(m)),
    }
}

/// Finishes a promotion: the fallback key stays the key (the fallback
/// file is kept either way); the outcome of the keyring write and
/// read-back is noted.
pub fn finish_promotion(
    spec: &KeySpec,
    key: [u8; 32],
    notes: Vec<String>,
    write: &Result<(), String>,
    readback: &Result<Option<[u8; 32]>, String>,
) -> (r: ResolvedKey)
    ensures
        r.key == key,
        r.source == KeySource::FallbackFile,
        note_views(r.notes@) == note_views(notes@).push(promotion_note(spec.scope@, key@, *write, *readback)),
{
    let mut notes = notes;
    let ghost before = notes@;
    notes.push(describe_promotion(spec.scope, &key, write, readback));
    assert(note_views(notes@) =~= note_views(before).push(promotion_note(spec.scope@, key@, *write, *readback)));
    ResolvedKey { key, source: KeySource::FallbackFile, notes }
}

/// Finishes a creation: the new key is the key; the second result says
/// whether it must also be written to the fallback file, which is when
/// the keyring did not keep it (write failed or read-back differs).
pub fn finish_creation(
    key: [u8; 32],
    notes: Vec<String>,
    write: &Result<(), String>,
    readback: &Result<Option<[u8; 32]>, String>,
) -> (r: (ResolvedKey, bool))
    ensures
        r.0.key == key,
        r.0.source == KeySource::CreatedNow,
        r.0.notes@ == notes@,
        r.1 == !(write is Ok && (readback matches Ok(Some(k)) && k@ == key@)),
{
    let persisted = key_persisted(&key, write, readback);
    (ResolvedKey { key, source: KeySource::CreatedNow, notes }, !persisted)
}

/// A read-only resolution never leads to a keyring write: it never decides
/// to create a key and never asks to promote the fallback key.
pub proof fn read_only_resolution_never_writes(
    scope: Seq<char>,
    keyring: Result<Option<[u8; 32]>, String>,
    fallback: Result<Option<[u8; 32]>, String>,
    evidence: Seq<Vec<u8>>,
    aad: Seq<u8>,
    r: KeyResolution,
)
    requires
        decided(scope, keyring, fallback, evidence, aad, false, r),
    ensures
        !(r is Create),
        r matches KeyResolution::UseFallback { promote, .. } ==> !promote,
{
}

/// A key created when nothing existed is the key of the next resolution:
/// when the keyring kept it, the next call (still without ciphertext) uses
/// it from the keyring; when the keyring did not keep it and it went to the
/// fallback file, the next call uses it from the file.
pub proof fn created_key_is_found_again(
    scope: Seq<char>,
    key: [u8; 32],
    keyring: Result<Option<[u8; 32]>, String>,
    fallback: Result<Option<[u8; 32]>, String>,
    evidence: Seq<Vec<u8>>,
    aad: Seq<u8>,
    may_write: bool,
    r: KeyResolution,
)
    requires
        !has_ciphertext(evidence),
        keyring == Ok::<Option<[u8; 32]>, String>(Some(key)) || (candidate(keyring) is None
            && fallback == Ok::<Option<[u8; 32]>, String>(Some(key))),
        decided(scope, keyring, fallback, evidence, aad, may_write, r),
    ensures
        keyring == Ok::<Option<[u8; 32]>, String>(Some(key)) ==> (r matches KeyResolution::UseKeyring { key: k, .. }
            && k == key),
        keyring != Ok::<Option<[u8; 32]>, String>(Some(key)) ==> (r matches KeyResolution::UseFallback { key: k, .. }
            && k == key),
{
}

/// Two resolutions in a row, without ciphertext: when the first found
/// nothing and created `key`, the second finds that same key. After the
/// creation the keyring reads back the key when it kept it (write accepted
/// and read-back equal); otherwise the keyring reads as before and the key
/// is in the fallback file.
pub proof fn second_resolution_finds_created_key(
    scope: Seq<char>,
    first_keyring: Result<Option<[u8; 32]>, String>,
    first_fallback: Result<Option<[u8; 32]>, String>,
    evidence: Seq<Vec<u8>>,
    aad: Seq<u8>,
    first: KeyResolution,
    key: [u8; 32],
    write: Result<(), String>,
    readback: Result<Option<[u8; 32]>, String>,
    next_keyring: Result<Option<[u8; 32]>, String>,
    next_fallback: Result<Option<[u8; 32]>, String>,
    second: KeyResolution,
)
    requires
        !has_ciphertext(evidence),
        decided(scope, first_keyring, first_fallback, evidence, aad, true, first),
        first is Create,
        (write is Ok && (readback matches Ok(Some(k)) && k@ == key@)) ==> next_keyring == Ok::<
            Option<[u8; 32]>,
            String,
        >(Some(key)),
        !(write is Ok && (readback matches Ok(Some(k)) && k@ == key@)) ==> next_keyring == first_keyring
            && next_fallback == Ok::<Option<[u8; 32]>, String>(Some(key)),
        decided(scope, next_keyring, next_fallback, evidence, aad, true, second),
    ensures
        (second matches KeyResolution::UseKeyring { key: k, .. } && k == key) || (
        second matches KeyResolution::UseFallback { key: k, .. } && k == key),
{
}

/// The key a decision uses and whether it comes from the keyring.
pub open spec fn decided_key(r: KeyResolution) -> Option<([u8; 32], bool)> {
    match r {
        KeyResolution::UseKeyring { key, .. } => Some((key, true)),
        KeyResolution::UseFallback { key, .. } => Some((key, false)),
        _ => None,
    }
}

/// Where ciphertext exists, the read-only resolution decides as the
/// writing one does: the same key from the same source, or a refusal
/// alike (only the request to register the fallback key differs).
pub proof fn read_only_agrees_where_ciphertext_exists(
    scope: Seq<char>,
    keyring: Result<Option<[u8; 32]>, String>,
    fallback: Result<Option<[u8; 32]>, String>,
    evidence: Seq<Vec<u8>>,
    aad: Seq<u8>,
    read_only: KeyResolution,
    writing: KeyResolution,
)
    requires
        has_ciphertext(evidence),
        decided(scope, keyring, fallback, evidence, aad, false, read_only),
        decided(scope, keyring, fallback, evidence, aad, true, writing),
    ensures
        decided_key(read_only) == decided_key(writing),
        read_only is Locked <==> writing is Locked,
        !(read_only is Create) && !(writing is Create),
{
}

/// Where ciphertext exists, it decides: a key is used only if it opens some
/// of the ciphertext, and it is the keyring's or the fallback file's; when
/// neither candidate opens any, the resolution is locked (nothing is used,
/// nothing is created).
pub proof fn ciphertext_decides_the_key(
    scope: Seq<char>,
    keyring: Result<Option<[u8; 32]>, String>,
    fallback: Result<Option<[u8; 32]>, String>,
    evidence: Seq<Vec<u8>>,
    aad: Seq<u8>,
    may_write: bool,
    r: KeyResolution,
)
    requires
        has_ciphertext(evidence),
        decided(scope, keyring, fallback, evidence, aad, may_write, r),
    ensures
        r matches KeyResolution::UseKeyring { key, .. } ==> candidate(keyring) == Some(key) && authenticates_any(
            key@,
            evidence,
            aad,
        ),
        r matches KeyResolution::UseFallback { key, .. } ==> candidate(fallback) == Some(key) && authenticates_any(
            key@,
            evidence,
            aad,
        ),
        !(candidate(keyring) matches Some(k) && authenticates_any(k@, evidence, aad)) && !(candidate(fallback) matches Some(
            k,
        ) && authenticates_any(k@, evidence, aad)) ==> r is Locked,
        r is UseKeyring || r is UseFallback || r is Locked,
{
}

} // verus!




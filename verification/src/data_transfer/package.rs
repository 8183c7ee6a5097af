//! Data package container `.pbdata` v1: clear header, password-derived key,
//! AES-256-GCM with the header bytes as associated data.
//!
//! Layout: `magic(8B "PBDATA1\0") ‖ version(u16 LE) ‖ kdfAlgo(u8) ‖ mCost(u32 LE)
//! ‖ tCost(u32 LE) ‖ pCost(u8) ‖ salt(16B) ‖ nonce(12B) ‖ cipherLen(u64 LE) ‖ ciphertext`.
//! Every number in the header is checked against a whitelist before it is used.

use vstd::prelude::*;
use vstd::bytes::*;

use crate::secure_store::crypto::{
    aes_gcm_open, aes_gcm_seal, argon2id_derive, decrypt_with_aad_nonce, derive_key_argon2id,
    encrypt_with_aad_nonce, random_nonce, random_salt, AEAD_TRUSTED_PLAIN_LIMIT,
};
use crate::data_transfer::manifest::{dataset_digest, hex_spec, sha256_of};
use crate::text::{concat2, concat3, decimal, decimal_spec, owned};

verus! {

/// Container version accepted by this build.
pub const CONTAINER_VERSION: u16 = 1;
/// KDF identifier of Argon2id.
pub const KDF_ARGON2ID: u8 = 1;
/// Header length in bytes.
pub const HEADER_LEN: usize = 56;
/// Plaintext limit (32 MiB).
pub const MAX_PLAINTEXT_BYTES: u64 = 33554432;
/// Largest package file read: the largest plaintext, the header and the 16-byte GCM tag.
pub const MAX_FILE_BYTES: u64 = MAX_PLAINTEXT_BYTES + 72;
/// Whitelist: lowest memory cost (KiB).
pub const MIN_M_COST_KIB: u32 = 8192;
/// Whitelist: highest memory cost (KiB).
pub const MAX_M_COST_KIB: u32 = 262144;
/// Whitelist: highest iteration count.
pub const MAX_T_COST: u32 = 10;
/// Whitelist: highest parallelism.
pub const MAX_P_COST: u8 = 4;
/// Shortest accepted export password (characters).
pub const MIN_PASSWORD_LEN: usize = 8;
/// Memory cost used for export (argon2's default, 19 MiB).
pub const EXPORT_M_COST: u32 = 19456;
/// Iteration count used for export (argon2's default).
pub const EXPORT_T_COST: u32 = 2;
/// Parallelism used for export (argon2's default).
pub const EXPORT_P_COST: u8 = 1;

/// The clear header; its encoding is also the associated data of the ciphertext.
#[derive(Clone, Copy, Debug, PartialEq, Eq)]
pub struct PackageHeader {
    /// Container version.
    pub version: u16,
    /// KDF identifier (1 = Argon2id).
    pub kdf_algo: u8,
    /// Argon2id memory cost (KiB).
    pub m_cost: u32,
    /// Argon2id iterations.
    pub t_cost: u32,
    /// Argon2id parallelism.
    pub p_cost: u8,
    /// Argon2id salt.
    pub salt: [u8; 16],
    /// AES-GCM nonce of the ciphertext.
    pub nonce: [u8; 12],
    /// Ciphertext length (tag included, nonce excluded).
    pub cipher_len: u64,
}

/// Why a package was refused or could not be produced.
#[derive(Debug, PartialEq, Eq)]
pub enum PackageError {
    /// Fewer than `HEADER_LEN` bytes.
    HeaderTooShort,
    /// The magic bytes do not match.
    BadMagic,
    /// Unknown container version.
    UnsupportedVersion(u16),
    /// Unknown KDF identifier.
    UnsupportedKdf(u8),
    /// Memory cost outside the whitelist.
    MemoryCostOutOfRange(u32),
    /// Iteration count outside the whitelist.
    IterationsOutOfRange(u32),
    /// Parallelism outside the whitelist.
    ParallelismOutOfRange(u8),
    /// Declared ciphertext length above the limit.
    DeclaredLengthTooLarge,
    /// Actual ciphertext length differs from the declared one.
    CiphertextLengthMismatch { actual: u64, declared: u64 },
    /// The password could not be turned into a key.
    KeyDerivation(String),
    /// Wrong password, damaged file or altered header.
    DecryptFailed,
    /// Export password shorter than `MIN_PASSWORD_LEN`.
    PasswordTooShort,
    /// Plaintext above `MAX_PLAINTEXT_BYTES`.
    PlaintextTooLarge,
    /// The cipher refused to encrypt.
    Encryption(String),
}

/// The magic bytes `PBDATA1\0`.
pub open spec fn magic() -> Seq<u8> {
    seq![0x50u8, 0x42u8, 0x44u8, 0x41u8, 0x54u8, 0x41u8, 0x31u8, 0x00u8]
}

/// Byte encoding of a header.
pub open spec fn header_bytes(h: PackageHeader) -> Seq<u8> {
    magic() + spec_u16_to_le_bytes(h.version) + seq![h.kdf_algo] + spec_u32_to_le_bytes(h.m_cost)
        + spec_u32_to_le_bytes(h.t_cost) + seq![h.p_cost] + h.salt@ + h.nonce@
        + spec_u64_to_le_bytes(h.cipher_len)
}

/// A header whose fields pass the whitelist.
pub open spec fn header_valid(h: PackageHeader) -> bool {
    &&& h.version == CONTAINER_VERSION
    &&& h.kdf_algo == KDF_ARGON2ID
    &&& MIN_M_COST_KIB <= h.m_cost <= MAX_M_COST_KIB
    &&& 1 <= h.t_cost <= MAX_T_COST
    &&& 1 <= h.p_cost <= MAX_P_COST
    &&& h.cipher_len <= MAX_PLAINTEXT_BYTES + 16
}

/// Decoded version field.
pub open spec fn field_version(b: Seq<u8>) -> u16 {
    spec_u16_from_le_bytes(b.subrange(8, 10))
}

/// Decoded memory cost field.
pub open spec fn field_m_cost(b: Seq<u8>) -> u32 {
    spec_u32_from_le_bytes(b.subrange(11, 15))
}

/// Decoded iteration field.
pub open spec fn field_t_cost(b: Seq<u8>) -> u32 {
    spec_u32_from_le_bytes(b.subrange(15, 19))
}

/// Decoded ciphertext length field.
pub open spec fn field_cipher_len(b: Seq<u8>) -> u64 {
    spec_u64_from_le_bytes(b.subrange(48, 56))
}

/// The first rule that the header bytes break, in checking order (`None` = accepted).
pub open spec fn header_check(b: Seq<u8>) -> Option<PackageError> {
    if b.len() < HEADER_LEN {
        Some(PackageError::HeaderTooShort)
    } else if b.subrange(0, 8) != magic() {
        Some(PackageError::BadMagic)
    } else if field_version(b) != CONTAINER_VERSION {
        Some(PackageError::UnsupportedVersion(field_version(b)))
    } else if b[10] != KDF_ARGON2ID {
        Some(PackageError::UnsupportedKdf(b[10]))
    } else if !(MIN_M_COST_KIB <= field_m_cost(b) <= MAX_M_COST_KIB) {
        Some(PackageError::MemoryCostOutOfRange(field_m_cost(b)))
    } else if !(1 <= field_t_cost(b) <= MAX_T_COST) {
        Some(PackageError::IterationsOutOfRange(field_t_cost(b)))
    } else if !(1 <= b[19] <= MAX_P_COST) {
        Some(PackageError::ParallelismOutOfRange(b[19]))
    } else if field_cipher_len(b) > MAX_PLAINTEXT_BYTES + 16 {
        Some(PackageError::DeclaredLengthTooLarge)
    } else {
        None
    }
}

/// Appends all bytes of `src` to `out`.
pub(crate) fn append_bytes(out: &mut Vec<u8>, src: &[u8])
    ensures
        final(out)@ == old(out)@ + src@,
{
    let mut i: usize = 0;
    while i < src.len()
        invariant
            i <= src@.len(),
            out@ == old(out)@ + src@.subrange(0, i as int),
        decreases src@.len() - i,
    {
        out.push(src[i]);
        i = i + 1;
        assert(src@.subrange(0, i as int) =~= src@.subrange(0, i - 1) + seq![src@[i - 1]]);
        assert(out@ =~= old(out)@ + src@.subrange(0, i as int));
    }
    assert(src@.subrange(0, src@.len() as int) =~= src@);
}

/// Copies `n` bytes starting at `from` into a fixed-size array.
fn copy_array_16(b: &[u8], from: usize) -> (r: [u8; 16])
    requires
        from + 16 <= b@.len(),
    ensures
        r@ == b@.subrange(from as int, from + 16),
{
    let mut out = [0u8; 16];
    let mut i: usize = 0;
    while i < 16
        invariant
            i <= 16,
            from + 16 <= b.len(),
            forall|k: int| 0 <= k < i ==> out@[k] == b@[from + k],
        decreases 16 - i,
    {
        out[i] = b[from + i];
        i = i + 1;
    }
    assert(out@ =~= b@.subrange(from as int, from + 16));
    out
}

/// Copies 12 bytes starting at `from` into a fixed-size array.
fn copy_array_12(b: &[u8], from: usize) -> (r: [u8; 12])
    requires
        from + 12 <= b@.len(),
    ensures
        r@ == b@.subrange(from as int, from + 12),
{
    let mut out = [0u8; 12];
    let mut i: usize = 0;
    while i < 12
        invariant
            i <= 12,
            from + 12 <= b.len(),
            forall|k: int| 0 <= k < i ==> out@[k] == b@[from + k],
        decreases 12 - i,
    {
        out[i] = b[from + i];
        i = i + 1;
    }
    assert(out@ =~= b@.subrange(from as int, from + 12));
    out
}

/// The slices of a header encoding, field by field.
pub proof fn lemma_header_layout(h: PackageHeader)
    ensures
        header_bytes(h).len() == HEADER_LEN,
        header_bytes(h).subrange(0, 8) == magic(),
        header_bytes(h).subrange(8, 10) == spec_u16_to_le_bytes(h.version),
        header_bytes(h)[10] == h.kdf_algo,
        header_bytes(h).subrange(11, 15) == spec_u32_to_le_bytes(h.m_cost),
        header_bytes(h).subrange(15, 19) == spec_u32_to_le_bytes(h.t_cost),
        header_bytes(h)[19] == h.p_cost,
        header_bytes(h).subrange(20, 36) == h.salt@,
        header_bytes(h).subrange(36, 48) == h.nonce@,
        header_bytes(h).subrange(48, 56) == spec_u64_to_le_bytes(h.cipher_len),
{
    lemma_auto_spec_u16_to_from_le_bytes();
    lemma_auto_spec_u32_to_from_le_bytes();
    lemma_auto_spec_u64_to_from_le_bytes();
    let b = header_bytes(h);
    let v = spec_u16_to_le_bytes(h.version);
    let m = spec_u32_to_le_bytes(h.m_cost);
    let t = spec_u32_to_le_bytes(h.t_cost);
    let c = spec_u64_to_le_bytes(h.cipher_len);
    assert(b.subrange(0, 8) =~= magic());
    assert(b.subrange(8, 10) =~= v);
    assert(b.subrange(11, 15) =~= m);
    assert(b.subrange(15, 19) =~= t);
    assert(b.subrange(20, 36) =~= h.salt@);
    assert(b.subrange(36, 48) =~= h.nonce@);
    assert(b.subrange(48, 56) =~= c);
}

/// Two headers with the same encoding are the same header.
pub proof fn lemma_header_bytes_injective(h1: PackageHeader, h2: PackageHeader)
    requires
        header_bytes(h1) == header_bytes(h2),
    ensures
        h1 == h2,
{
    broadcast use vstd::array::group_array_axioms;
    lemma_header_layout(h1);
    lemma_header_layout(h2);
    lemma_auto_spec_u16_to_from_le_bytes();
    lemma_auto_spec_u32_to_from_le_bytes();
    lemma_auto_spec_u64_to_from_le_bytes();
    assert(spec_u16_from_le_bytes(spec_u16_to_le_bytes(h1.version)) == h1.version);
    assert(spec_u32_from_le_bytes(spec_u32_to_le_bytes(h1.m_cost)) == h1.m_cost);
    assert(spec_u32_from_le_bytes(spec_u32_to_le_bytes(h1.t_cost)) == h1.t_cost);
    assert(spec_u64_from_le_bytes(spec_u64_to_le_bytes(h1.cipher_len)) == h1.cipher_len);
    assert(h1.salt@ == h2.salt@);
    assert(h1.nonce@ == h2.nonce@);
    assert(h1.salt == h2.salt);
    assert(h1.nonce == h2.nonce);
}

/// The encoding of a whitelisted header is accepted and decodes to its own fields.
pub proof fn lemma_valid_header_accepted(h: PackageHeader)
    requires
        header_valid(h),
    ensures
        header_check(header_bytes(h)) is None,
        field_version(header_bytes(h)) == h.version,
        field_m_cost(header_bytes(h)) == h.m_cost,
        field_t_cost(header_bytes(h)) == h.t_cost,
        field_cipher_len(header_bytes(h)) == h.cipher_len,
{
    lemma_header_layout(h);
    lemma_auto_spec_u16_to_from_le_bytes();
    lemma_auto_spec_u32_to_from_le_bytes();
    lemma_auto_spec_u64_to_from_le_bytes();
    assert(spec_u16_from_le_bytes(spec_u16_to_le_bytes(h.version)) == h.version);
    assert(spec_u32_from_le_bytes(spec_u32_to_le_bytes(h.m_cost)) == h.m_cost);
    assert(spec_u32_from_le_bytes(spec_u32_to_le_bytes(h.t_cost)) == h.t_cost);
    assert(spec_u64_from_le_bytes(spec_u64_to_le_bytes(h.cipher_len)) == h.cipher_len);
}

impl PackageHeader {
    /// Encodes the header into its fixed 56-byte form.
    pub fn encode(&self) -> (r: Vec<u8>)
        ensures
            r@ == header_bytes(*self),
            r@.len() == HEADER_LEN,
    {
        let mut out: Vec<u8> = Vec::new();
        out.push(0x50u8);
        out.push(0x42u8);
        out.push(0x44u8);
        out.push(0x41u8);
        out.push(0x54u8);
        out.push(0x41u8);
        out.push(0x31u8);
        out.push(0x00u8);
        assert(out@ =~= magic());
        let v = u16_to_le_bytes(self.version);
        append_bytes(&mut out, v.as_slice());
        out.push(self.kdf_algo);
        let m = u32_to_le_bytes(self.m_cost);
        append_bytes(&mut out, m.as_slice());
        let t = u32_to_le_bytes(self.t_cost);
        append_bytes(&mut out, t.as_slice());
        out.push(self.p_cost);
        append_bytes(&mut out, self.salt.as_slice());
        append_bytes(&mut out, self.nonce.as_slice());
        let c = u64_to_le_bytes(self.cipher_len);
        append_bytes(&mut out, c.as_slice());
        proof {
            lemma_header_layout(*self);
        }
        assert(out@ =~= header_bytes(*self));
        out
    }

    /// Parses and whitelists a header; any rule broken gives the first such error.
    pub fn parse(bytes: &[u8]) -> (r: Result<PackageHeader, PackageError>)
        ensures
            r is Ok <==> header_check(bytes@) is None,
            r matches Err(e) ==> header_check(bytes@) == Some(e),
            r matches Ok(h) ==> header_bytes(h) == bytes@.subrange(0, HEADER_LEN as int)
                && header_valid(h),
    {
        if bytes.len() < HEADER_LEN {
            return Err(PackageError::HeaderTooShort);
        }
        let magic_ok = bytes[0] == 0x50u8 && bytes[1] == 0x42u8 && bytes[2] == 0x44u8 && bytes[3]
            == 0x41u8 && bytes[4] == 0x54u8 && bytes[5] == 0x41u8 && bytes[6] == 0x31u8 && bytes[7]
            == 0x00u8;
        if !magic_ok {
            assert(bytes@.subrange(0, 8) != magic()) by {
                if bytes@.subrange(0, 8) == magic() {
                    assert(bytes@.subrange(0, 8)[0] == bytes@[0]);
                    assert(bytes@.subrange(0, 8)[1] == bytes@[1]);
                    assert(bytes@.subrange(0, 8)[2] == bytes@[2]);
                    assert(bytes@.subrange(0, 8)[3] == bytes@[3]);
                    assert(bytes@.subrange(0, 8)[4] == bytes@[4]);
                    assert(bytes@.subrange(0, 8)[5] == bytes@[5]);
                    assert(bytes@.subrange(0, 8)[6] == bytes@[6]);
                    assert(bytes@.subrange(0, 8)[7] == bytes@[7]);
                }
            }
            return Err(PackageError::BadMagic);
        }
        assert(bytes@.subrange(0, 8) =~= magic());
        let version = u16_from_le_bytes(vstd::slice::slice_subrange(bytes, 8, 10));
        if version != CONTAINER_VERSION {
            return Err(PackageError::UnsupportedVersion(version));
        }
        let kdf_algo = bytes[10];
        if kdf_algo != KDF_ARGON2ID {
            return Err(PackageError::UnsupportedKdf(kdf_algo));
        }
        let m_cost = u32_from_le_bytes(vstd::slice::slice_subrange(bytes, 11, 15));
        let t_cost = u32_from_le_bytes(vstd::slice::slice_subrange(bytes, 15, 19));
        let p_cost = bytes[19];
        if !(MIN_M_COST_KIB <= m_cost && m_cost <= MAX_M_COST_KIB) {
            return Err(PackageError::MemoryCostOutOfRange(m_cost));
        }
        if !(1 <= t_cost && t_cost <= MAX_T_COST) {
            return Err(PackageError::IterationsOutOfRange(t_cost));
        }
        if !(1 <= p_cost && p_cost <= MAX_P_COST) {
            return Err(PackageError::ParallelismOutOfRange(p_cost));
        }
        let cipher_len = u64_from_le_bytes(vstd::slice::slice_subrange(bytes, 48, 56));
        if cipher_len > MAX_PLAINTEXT_BYTES + 16 {
            return Err(PackageError::DeclaredLengthTooLarge);
        }
        let salt = copy_array_16(bytes, 20);
        let nonce = copy_array_12(bytes, 36);
        let h = PackageHeader { version, kdf_algo, m_cost, t_cost, p_cost, salt, nonce, cipher_len };
        proof {
            lemma_header_layout(h);
            lemma_auto_spec_u16_to_from_le_bytes();
            lemma_auto_spec_u32_to_from_le_bytes();
            lemma_auto_spec_u64_to_from_le_bytes();
            let b = bytes@.subrange(0, HEADER_LEN as int);
            let e = header_bytes(h);
            assert(bytes@.subrange(8, 10).len() == 2);
            assert(spec_u16_to_le_bytes(spec_u16_from_le_bytes(bytes@.subrange(8, 10))) == bytes@.subrange(8, 10));
            assert(spec_u32_to_le_bytes(spec_u32_from_le_bytes(bytes@.subrange(11, 15))) == bytes@.subrange(11, 15));
            assert(spec_u32_to_le_bytes(spec_u32_from_le_bytes(bytes@.subrange(15, 19))) == bytes@.subrange(15, 19));
            assert(spec_u64_to_le_bytes(spec_u64_from_le_bytes(bytes@.subrange(48, 56))) == bytes@.subrange(48, 56));
            assert forall|k: int| 0 <= k < 56 implies e[k] == b[k] by {
                if k < 8 {
                    assert(e.subrange(0, 8)[k] == e[k]);
                    assert(bytes@.subrange(0, 8)[k] == b[k]);
                } else if k < 10 {
                    assert(e.subrange(8, 10)[k - 8] == e[k]);
                    assert(bytes@.subrange(8, 10)[k - 8] == b[k]);
                } else if k == 10 {
                } else if k < 15 {
                    assert(e.subrange(11, 15)[k - 11] == e[k]);
                    assert(bytes@.subrange(11, 15)[k - 11] == b[k]);
                } else if k < 19 {
                    assert(e.subrange(15, 19)[k - 15] == e[k]);
                    assert(bytes@.subrange(15, 19)[k - 15] == b[k]);
                } else if k == 19 {
                } else if k < 36 {
                    assert(e.subrange(20, 36)[k - 20] == e[k]);
                } else if k < 48 {
                    assert(e.subrange(36, 48)[k - 36] == e[k]);
                } else {
                    assert(e.subrange(48, 56)[k - 48] == e[k]);
                    assert(bytes@.subrange(48, 56)[k - 48] == b[k]);
                }
            }
            assert(e =~= b);
        }
        Ok(h)
    }
}

impl PackageError {
    /// The message shown to the user.
    pub fn message(&self) -> (r: String)
        ensures
            r@ == package_error_message(*self),
    {
        match self {
            PackageError::HeaderTooShort => owned("数据包损坏（头部不足 56 字节）"),
            PackageError::BadMagic => owned("这不是 patchyBox 数据包（魔数不匹配）"),
            PackageError::UnsupportedVersion(v) => {
                let n = decimal(*v as u64);
                concat3("不支持的数据包容器版本 ", n.as_str(), "（当前支持 1）")
            },
            PackageError::UnsupportedKdf(a) => {
                let n = decimal(*a as u64);
                concat2("不支持的数据包 KDF 算法标识 ", n.as_str())
            },
            PackageError::MemoryCostOutOfRange(m) => {
                let n = decimal(*m as u64);
                concat3("数据包 KDF 内存成本 ", n.as_str(), " KiB 超出白名单（8192..=262144）")
            },
            PackageError::IterationsOutOfRange(t) => {
                let n = decimal(*t as u64);
                concat3("数据包 KDF 迭代次数 ", n.as_str(), " 超出白名单（1..=10）")
            },
            PackageError::ParallelismOutOfRange(p) => {
                let n = decimal(*p as u64);
                concat3("数据包 KDF 并行度 ", n.as_str(), " 超出白名单（1..=4）")
            },
            PackageError::DeclaredLengthTooLarge => owned("数据包声明的明文长度超过上限（33554432 字节）"),
            PackageError::CiphertextLengthMismatch { actual, declared } => {
                let a = decimal(*actual);
                let d = decimal(*declared);
                let head = concat3("数据包损坏（密文长度 ", a.as_str(), " 与头部声明 ");
                concat3(head.as_str(), d.as_str(), " 不一致）")
            },
            PackageError::KeyDerivation(e) => concat2("数据包口令派生失败: ", e.as_str()),
            PackageError::DecryptFailed => owned("数据包解密失败（口令错误、文件损坏或头部被改动）"),
            PackageError::PasswordTooShort => owned("导出密码至少需要 8 位"),
            PackageError::PlaintextTooLarge => owned("数据包明文超过上限（33554432 字节），请缩小导出范围"),
            PackageError::Encryption(e) => owned(e.as_str()),
        }
    }
}

/// Message text of each error.
pub open spec fn package_error_message(e: PackageError) -> Seq<char> {
    match e {
        PackageError::HeaderTooShort => "数据包损坏（头部不足 56 字节）"@,
        PackageError::BadMagic => "这不是 patchyBox 数据包（魔数不匹配）"@,
        PackageError::UnsupportedVersion(v) => "不支持的数据包容器版本 "@ + decimal_spec(v as nat) + "（当前支持 1）"@,
        PackageError::UnsupportedKdf(a) => "不支持的数据包 KDF 算法标识 "@ + decimal_spec(a as nat),
        PackageError::MemoryCostOutOfRange(m) => "数据包 KDF 内存成本 "@ + decimal_spec(m as nat) + " KiB 超出白名单（8192..=262144）"@,
        PackageError::IterationsOutOfRange(t) => "数据包 KDF 迭代次数 "@ + decimal_spec(t as nat) + " 超出白名单（1..=10）"@,
        PackageError::ParallelismOutOfRange(p) => "数据包 KDF 并行度 "@ + decimal_spec(p as nat) + " 超出白名单（1..=4）"@,
        PackageError::DeclaredLengthTooLarge => "数据包声明的明文长度超过上限（33554432 字节）"@,
        PackageError::CiphertextLengthMismatch { actual, declared } => "数据包损坏（密文长度 "@
            + decimal_spec(actual as nat) + " 与头部声明 "@ + decimal_spec(declared as nat) + " 不一致）"@,
        PackageError::KeyDerivation(e) => "数据包口令派生失败: "@ + e@,
        PackageError::DecryptFailed => "数据包解密失败（口令错误、文件损坏或头部被改动）"@,
        PackageError::PasswordTooShort => "导出密码至少需要 8 位"@,
        PackageError::PlaintextTooLarge => "数据包明文超过上限（33554432 字节），请缩小导出范围"@,
        PackageError::Encryption(e) => e@,
    }
}

/// Export password rule: at least `MIN_PASSWORD_LEN` characters.
pub fn validate_password(password: &str) -> (r: Result<(), PackageError>)
    ensures
        r is Ok <==> password@.len() >= MIN_PASSWORD_LEN,
        r matches Err(e) ==> e == PackageError::PasswordTooShort,
{
    if password.unicode_len() < MIN_PASSWORD_LEN {
        return Err(PackageError::PasswordTooShort);
    }
    Ok(())
}

/// The header an export writes for a plaintext of `plain_len` bytes.
pub open spec fn export_header(salt: [u8; 16], nonce: [u8; 12], plain_len: nat) -> PackageHeader {
    PackageHeader {
        version: CONTAINER_VERSION,
        kdf_algo: KDF_ARGON2ID,
        m_cost: EXPORT_M_COST,
        t_cost: EXPORT_T_COST,
        p_cost: EXPORT_P_COST,
        salt,
        nonce,
        cipher_len: (plain_len + 16) as u64,
    }
}

/// The key an export derives from the password and salt.
pub open spec fn export_key(password: Seq<char>, salt: Seq<u8>) -> Option<Seq<u8>> {
    argon2id_derive(vstd::utf8::encode_utf8(password), salt, EXPORT_M_COST, EXPORT_T_COST, EXPORT_P_COST as u32)
}

/// The complete package bytes of an export.
pub open spec fn sealed_bytes(password: Seq<char>, plain: Seq<u8>, salt: [u8; 16], nonce: [u8; 12]) -> Seq<u8> {
    let h = export_header(salt, nonce, plain.len());
    header_bytes(h) + aes_gcm_seal(export_key(password, salt@).unwrap(), nonce@, header_bytes(h), plain)
}

/// Seals `plain` with a caller-chosen salt and nonce.
pub fn seal_package_with(password: &str, plain: &[u8], salt: [u8; 16], nonce: [u8; 12]) -> (r: Result<Vec<u8>, PackageError>)
    ensures
        password@.len() < MIN_PASSWORD_LEN ==> r == Err::<Vec<u8>, PackageError>(PackageError::PasswordTooShort),
        password@.len() >= MIN_PASSWORD_LEN && plain@.len() > MAX_PLAINTEXT_BYTES ==> r == Err::<Vec<u8>, PackageError>(PackageError::PlaintextTooLarge),
        password@.len() >= MIN_PASSWORD_LEN && plain@.len() <= MAX_PLAINTEXT_BYTES && export_key(password@, salt@) is None
            ==> r matches Err(PackageError::KeyDerivation(_)),
        r matches Err(PackageError::Encryption(_)) ==> password@.len() >= MIN_PASSWORD_LEN
            && plain@.len() <= MAX_PLAINTEXT_BYTES && export_key(password@, salt@) is Some,
        r is Ok || r matches Err(PackageError::Encryption(_)) || r matches Err(PackageError::KeyDerivation(_))
            || r == Err::<Vec<u8>, PackageError>(PackageError::PasswordTooShort)
            || r == Err::<Vec<u8>, PackageError>(PackageError::PlaintextTooLarge),
        r matches Ok(out) ==> out@ == sealed_bytes(password@, plain@, salt, nonce)
            && export_key(password@, salt@) is Some && plain@.len() <= MAX_PLAINTEXT_BYTES,
        password@.len() >= MIN_PASSWORD_LEN && plain@.len() <= MAX_PLAINTEXT_BYTES && export_key(password@, salt@) is Some
            ==> r is Ok,
        password@.len() >= MIN_PASSWORD_LEN && plain@.len() <= MAX_PLAINTEXT_BYTES && vstd::utf8::encode_utf8(
            password@,
        ).len() <= 0xFFFF_FFFF ==> r is Ok,
{
    validate_password(password)?;
    if plain.len() as u64 > MAX_PLAINTEXT_BYTES {
        return Err(PackageError::PlaintextTooLarge);
    }
    let key = match derive_key_argon2id(password, salt.as_slice(), EXPORT_M_COST, EXPORT_T_COST, EXPORT_P_COST as u32) {
        Ok(k) => k,
        Err(e) => return Err(PackageError::KeyDerivation(e)),
    };
    let header = PackageHeader {
        version: CONTAINER_VERSION,
        kdf_algo: KDF_ARGON2ID,
        m_cost: EXPORT_M_COST,
        t_cost: EXPORT_T_COST,
        p_cost: EXPORT_P_COST,
        salt,
        nonce,
        cipher_len: plain.len() as u64 + 16,
    };
    assert(header == export_header(salt, nonce, plain@.len()));
    let head = header.encode();
    let ciphertext = match encrypt_with_aad_nonce(&key, plain, head.as_slice(), &nonce) {
        Ok(c) => c,
        Err(e) => return Err(PackageError::Encryption(e)),
    };
    let mut out = head;
    append_bytes(&mut out, ciphertext.as_slice());
    Ok(out)
}

/// Seals `plain` under `password` with a fresh random salt and nonce.
pub fn seal_package(password: &str, plain: &[u8]) -> (r: Result<Vec<u8>, PackageError>)
    ensures
        password@.len() < MIN_PASSWORD_LEN ==> r == Err::<Vec<u8>, PackageError>(PackageError::PasswordTooShort),
        password@.len() >= MIN_PASSWORD_LEN && plain@.len() > MAX_PLAINTEXT_BYTES ==> r == Err::<Vec<u8>, PackageError>(PackageError::PlaintextTooLarge),
        r matches Ok(out) ==> exists|salt: [u8; 16], nonce: [u8; 12]|
            out@ == sealed_bytes(password@, plain@, salt, nonce) && export_key(password@, salt@) is Some,
        password@.len() >= MIN_PASSWORD_LEN && plain@.len() <= MAX_PLAINTEXT_BYTES && vstd::utf8::encode_utf8(
            password@,
        ).len() <= 0xFFFF_FFFF ==> r is Ok,
        r matches Err(PackageError::KeyDerivation(_)) ==> password@.len() >= MIN_PASSWORD_LEN && plain@.len()
            <= MAX_PLAINTEXT_BYTES && vstd::utf8::encode_utf8(password@).len() > 0xFFFF_FFFF,
        r is Ok || r matches Err(PackageError::KeyDerivation(_)) || r == Err::<Vec<u8>, PackageError>(
            PackageError::PasswordTooShort,
        ) || r == Err::<Vec<u8>, PackageError>(PackageError::PlaintextTooLarge),
{
    let salt = random_salt();
    let nonce = random_nonce();
    seal_package_with(password, plain, salt, nonce)
}

/// What opening `raw` under `password` yields when every check passes.
pub open spec fn opened_plaintext(password: Seq<char>, raw: Seq<u8>) -> Option<Seq<u8>> {
    let head = raw.subrange(0, HEADER_LEN as int);
    let salt = raw.subrange(20, 36);
    let nonce = raw.subrange(36, 48);
    let key = argon2id_derive(vstd::utf8::encode_utf8(password), salt, field_m_cost(raw), field_t_cost(raw), raw[19] as u32);
    if key is Some {
        aes_gcm_open(key.unwrap(), nonce, head, raw.subrange(HEADER_LEN as int, raw.len() as int))
    } else {
        None
    }
}

/// A sealed package opens under the same password to the sealed plaintext:
/// its header is accepted, declares the right length, and its ciphertext is
/// the seal of that plaintext under the header's own salt, nonce and bytes.
pub proof fn lemma_sealed_package_parses(password: Seq<char>, plain: Seq<u8>, salt: [u8; 16], nonce: [u8; 12])
    requires
        plain.len() <= MAX_PLAINTEXT_BYTES,
        export_key(password, salt@) is Some,
        aes_gcm_seal(export_key(password, salt@).unwrap(), nonce@,
            header_bytes(export_header(salt, nonce, plain.len())), plain).len() == plain.len() + 16,
    ensures
        ({
            let raw = sealed_bytes(password, plain, salt, nonce);
            let h = export_header(salt, nonce, plain.len());
            &&& header_check(raw) is None
            &&& raw.subrange(0, HEADER_LEN as int) == header_bytes(h)
            &&& raw.subrange(20, 36) == salt@
            &&& raw.subrange(36, 48) == nonce@
            &&& field_m_cost(raw) == EXPORT_M_COST
            &&& field_t_cost(raw) == EXPORT_T_COST
            &&& raw[19] == EXPORT_P_COST
            &&& field_cipher_len(raw) == plain.len() + 16
            &&& raw.len() == HEADER_LEN + plain.len() + 16
            &&& raw.subrange(HEADER_LEN as int, raw.len() as int) == aes_gcm_seal(
                export_key(password, salt@).unwrap(), nonce@, header_bytes(h), plain)
        }),
{
    let h = export_header(salt, nonce, plain.len());
    let raw = sealed_bytes(password, plain, salt, nonce);
    let hb = header_bytes(h);
    let ct = aes_gcm_seal(export_key(password, salt@).unwrap(), nonce@, hb, plain);
    lemma_valid_header_accepted(h);
    lemma_header_layout(h);
    assert(raw.subrange(0, 56) =~= hb);
    assert(raw.subrange(56, raw.len() as int) =~= ct);
    assert(raw.subrange(0, 8) =~= hb.subrange(0, 8));
    assert(raw.subrange(8, 10) =~= hb.subrange(8, 10));
    assert(raw.subrange(11, 15) =~= hb.subrange(11, 15));
    assert(raw.subrange(15, 19) =~= hb.subrange(15, 19));
    assert(raw.subrange(20, 36) =~= hb.subrange(20, 36));
    assert(raw.subrange(36, 48) =~= hb.subrange(36, 48));
    assert(raw.subrange(48, 56) =~= hb.subrange(48, 56));
    assert(raw[10] == hb[10]);
    assert(raw[19] == hb[19]);
}

/// `raw` is what an export sealed: `plain` under `password` with `salt`
/// and `nonce`.
pub open spec fn sealed_by_export(password: Seq<char>, raw: Seq<u8>, plain: Seq<u8>, salt: [u8; 16], nonce: [u8; 12]) -> bool {
    &&& plain.len() <= MAX_PLAINTEXT_BYTES
    &&& export_key(password, salt@) is Some
    &&& raw == sealed_bytes(password, plain, salt, nonce)
    &&& aes_gcm_seal(export_key(password, salt@).unwrap(), nonce@, header_bytes(export_header(salt, nonce, plain.len())), plain).len()
        == plain.len() + 16
}

/// What an export sealed passes every header check, declares its length,
/// carries the export settings, salt and nonce, and its ciphertext is the
/// seal of the plaintext under the header bytes.
proof fn lemma_export_seal_shape(password: Seq<char>, raw: Seq<u8>)
    ensures
        forall|plain: Seq<u8>, salt: [u8; 16], nonce: [u8; 12]|
            #[trigger] sealed_by_export(password, raw, plain, salt, nonce) ==> {
                &&& header_check(raw) is None
                &&& raw.len() >= HEADER_LEN
                &&& raw.len() - HEADER_LEN == field_cipher_len(raw)
                &&& raw.subrange(20, 36) == salt@
                &&& raw.subrange(36, 48) == nonce@
                &&& field_m_cost(raw) == EXPORT_M_COST
                &&& field_t_cost(raw) == EXPORT_T_COST
                &&& raw[19] == EXPORT_P_COST
                &&& raw.subrange(HEADER_LEN as int, raw.len() as int) == aes_gcm_seal(
                    export_key(password, salt@).unwrap(),
                    nonce@,
                    raw.subrange(0, HEADER_LEN as int),
                    plain,
                )
                &&& raw.subrange(HEADER_LEN as int, raw.len() as int).len() == plain.len() + 16
                &&& plain.len() < AEAD_TRUSTED_PLAIN_LIMIT
            },
{
    assert forall|plain: Seq<u8>, salt: [u8; 16], nonce: [u8; 12]|
        #[trigger] sealed_by_export(password, raw, plain, salt, nonce) implies {
            &&& header_check(raw) is None
            &&& raw.len() >= HEADER_LEN
            &&& raw.len() - HEADER_LEN == field_cipher_len(raw)
            &&& raw.subrange(20, 36) == salt@
            &&& raw.subrange(36, 48) == nonce@
            &&& field_m_cost(raw) == EXPORT_M_COST
            &&& field_t_cost(raw) == EXPORT_T_COST
            &&& raw[19] == EXPORT_P_COST
            &&& raw.subrange(HEADER_LEN as int, raw.len() as int) == aes_gcm_seal(
                export_key(password, salt@).unwrap(),
                nonce@,
                raw.subrange(0, HEADER_LEN as int),
                plain,
            )
            &&& raw.subrange(HEADER_LEN as int, raw.len() as int).len() == plain.len() + 16
            &&& plain.len() < AEAD_TRUSTED_PLAIN_LIMIT
        } by {
        lemma_sealed_package_parses(password, plain, salt, nonce);
    }
}

/// Opens a package: header whitelist, declared length, key derivation from
/// the settings the header declares, decryption.
pub fn open_package(password: &str, raw: &[u8]) -> (r: Result<Vec<u8>, PackageError>)
    ensures
        raw@.len() < HEADER_LEN ==> r == Err::<Vec<u8>, PackageError>(PackageError::HeaderTooShort),
        header_check(raw@) matches Some(e) ==> r == Err::<Vec<u8>, PackageError>(e),
        header_check(raw@) is None && raw@.len() - HEADER_LEN != field_cipher_len(raw@) ==> r
            == Err::<Vec<u8>, PackageError>(PackageError::CiphertextLengthMismatch {
                actual: (raw@.len() - HEADER_LEN) as u64,
                declared: field_cipher_len(raw@),
            }),
        r matches Ok(p) ==> header_check(raw@) is None && raw@.len() - HEADER_LEN == field_cipher_len(raw@)
            && opened_plaintext(password@, raw@) == Some(p@),
        header_check(raw@) is None && raw@.len() - HEADER_LEN == field_cipher_len(raw@) && field_cipher_len(raw@) >= 16
            && opened_plaintext(password@, raw@) is Some ==> (r matches Ok(q) && opened_plaintext(password@, raw@) == Some(
            q@,
        )),
        r matches Err(PackageError::KeyDerivation(_)) ==> argon2id_derive(
            vstd::utf8::encode_utf8(password@),
            raw@.subrange(20, 36),
            field_m_cost(raw@),
            field_t_cost(raw@),
            raw@[19] as u32,
        ) is None,
        r matches Err(PackageError::DecryptFailed) ==> opened_plaintext(password@, raw@) is None
            || field_cipher_len(raw@) < 16,
        forall|plain: Seq<u8>, salt: [u8; 16], nonce: [u8; 12]|
            #[trigger] sealed_by_export(password@, raw@, plain, salt, nonce) ==> r is Ok && r->Ok_0@ == plain,
{
    proof {
        lemma_export_seal_shape(password@, raw@);
    }
    let header = match PackageHeader::parse(raw) {
        Ok(h) => h,
        Err(e) => return Err(e),
    };
    let head = vstd::slice::slice_subrange(raw, 0, HEADER_LEN);
    let ciphertext = vstd::slice::slice_subrange(raw, HEADER_LEN, raw.len());
    let actual = ciphertext.len() as u64;
    proof {
        lemma_header_layout(header);
        lemma_auto_spec_u32_to_from_le_bytes();
        lemma_auto_spec_u64_to_from_le_bytes();
        assert(raw@.subrange(48, 56) =~= header_bytes(header).subrange(48, 56));
        assert(raw@.subrange(11, 15) =~= header_bytes(header).subrange(11, 15));
        assert(raw@.subrange(15, 19) =~= header_bytes(header).subrange(15, 19));
        assert(raw@.subrange(20, 36) =~= header_bytes(header).subrange(20, 36));
        assert(raw@.subrange(36, 48) =~= header_bytes(header).subrange(36, 48));
        assert(raw@[19] == header_bytes(header)[19]);
        assert(head@ =~= raw@.subrange(0, 56));
        assert(ciphertext@ =~= raw@.subrange(56, raw@.len() as int));
    }
    if actual != header.cipher_len {
        return Err(PackageError::CiphertextLengthMismatch { actual, declared: header.cipher_len });
    }
    let key = match derive_key_argon2id(password, header.salt.as_slice(), header.m_cost, header.t_cost, header.p_cost as u32) {
        Ok(k) => k,
        Err(e) => return Err(PackageError::KeyDerivation(e)),
    };
    match decrypt_with_aad_nonce(&key, ciphertext, head, &header.nonce) {
        Ok(plain) => {
            proof {
                assert forall|p: Seq<u8>, salt: [u8; 16], nonce: [u8; 12]|
                    #[trigger] sealed_by_export(password@, raw@, p, salt, nonce) implies plain@ == p by {
                    assert(header.salt@ == salt@);
                    assert(header.nonce@ == nonce@);
                    assert(key@ == export_key(password@, salt@).unwrap());
                }
            }
            Ok(plain)
        },
        Err(_) => {
            proof {
                assert forall|p: Seq<u8>, salt: [u8; 16], nonce: [u8; 12]|
                    #[trigger] sealed_by_export(password@, raw@, p, salt, nonce) implies false by {
                    assert(header.salt@ == salt@);
                    assert(header.nonce@ == nonce@);
                    assert(key@ == export_key(password@, salt@).unwrap());
                }
            }
            Err(PackageError::DecryptFailed)
        },
    }
}

/// The refusal of a package file too large to read, from its size on disk.
pub fn check_package_size(len: u64) -> (r: Result<(), String>)
    ensures
        if len <= MAX_FILE_BYTES {
            r is Ok
        } else {
            r matches Err(m) && m@ == "数据包文件过大（"@ + decimal_spec(len as nat) + " 字节，上限 "@ + decimal_spec(
                MAX_FILE_BYTES as nat,
            ) + "）"@
        },
{
    if len <= MAX_FILE_BYTES {
        return Ok(());
    }
    let size = decimal(len);
    let limit = decimal(MAX_FILE_BYTES);
    let mut m = concat3("数据包文件过大（", size.as_str(), " 字节，上限 ");
    m.append(limit.as_str());
    m.append("）");
    proof {
        reveal_strlit("数据包文件过大（");
        reveal_strlit(" 字节，上限 ");
        reveal_strlit("）");
    }
    Err(m)
}

/// Digest of the raw package bytes an inspection is bound to (lowercase hex SHA-256).
pub fn file_digest(raw: &[u8]) -> (r: String)
    ensures
        r@ == hex_spec(sha256_of(raw@)),
{
    dataset_digest(raw)
}

} // verus!

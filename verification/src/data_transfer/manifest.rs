//! The logical manifest inside a package and its self-consistency check:
//! block names unique and non-empty, schema versions non-zero, record
//! counts matching the carried records, device-local blocks never carrying
//! records, digests matching, per-record size and nesting limits, and a
//! total record limit.
//!
//! Records are held as their serialized bytes and their JSON shape; the
//! digest is the lowercase hex SHA-256 of the serialized record array.

use vstd::prelude::*;

use sha2::{Digest, Sha256};

use crate::data_transfer::json_shape::{depth, json_depth, size, JsonShape};
use crate::data_transfer::types::{DatasetDescriptor, DependencyEdge, TransportPolicy};
use crate::text::{decimal, decimal_spec, owned, str_eq, trim, trim_spec};

verus! {

/// Records per package, at most.
pub const MAX_RECORDS_PER_PACKAGE: usize = 50000;

/// Serialized bytes of one record, at most.
pub const MAX_RECORD_BYTES: usize = 2097152;

/// Nesting depth of one record, at most.
pub const MAX_JSON_DEPTH: usize = 64;

/// One carried record: its serialized bytes and its shape.
#[derive(Debug)]
pub struct RecordBody {
    /// Serialized record.
    pub bytes: Vec<u8>,
    /// Nesting shape of the record.
    pub shape: JsonShape,
}

/// The record body of a block as carried.
#[derive(Debug)]
pub enum CarriedRecords {
    /// A JSON array: its serialization (what the digest covers) and its records.
    Array { serialized: Vec<u8>, items: Vec<RecordBody> },
    /// Anything but an array.
    NotArray,
}

/// One dataset block of a package.
#[derive(Debug)]
pub struct DatasetBlock {
    /// Dataset name (`<owner>.<collection>`).
    pub name: String,
    /// Schema version of the dataset (0 is invalid).
    pub schema_version: u32,
    /// Transport policy.
    pub policy: TransportPolicy,
    /// Declared record count.
    pub record_count: usize,
    /// Declared digest of the record body (lowercase hex).
    pub sha256: String,
    /// Record body; `None` when only declared.
    pub records: Option<CarriedRecords>,
}

/// The logical manifest of a package.
#[derive(Debug)]
pub struct PackageManifest {
    /// Package id.
    pub package_id: String,
    /// Source space id (untrusted, shown only).
    pub source_space_id: String,
    /// Source space name (untrusted, shown only).
    pub source_space_name: String,
    /// Export time (RFC 3339, shown only).
    pub created_at: String,
    /// Exporting application version (shown only).
    pub app_version: String,
    /// Exporting platform (shown only).
    pub platform: String,
    /// Dataset blocks.
    pub datasets: Vec<DatasetBlock>,
    /// Dependency edges.
    pub dependencies: Vec<DependencyEdge>,
    /// Explicitly excluded items.
    pub excluded: Vec<String>,
}

/// The SHA-256 digest the `sha2` crate computes for `data`.
pub uninterp spec fn sha256_of(data: Seq<u8>) -> Seq<u8>;

/// SHA-256 of `data` through `sha2::Sha256::digest`; trusted to return the
/// crate's digest of exactly these bytes.
#[verifier::external_body]
fn sha256(data: &[u8]) -> (r: [u8; 32])
    ensures
        r@ == sha256_of(data@),
{
    let digest = Sha256::digest(data);
    let mut out = [0u8; 32];
    out.copy_from_slice(digest.as_slice());
    out
}

/// Lowercase hex digit of a value below 16.
pub open spec fn hex_digit(n: u8) -> char {
    if n < 10 {
        (48 + n) as char
    } else {
        (87 + n) as char
    }
}

/// Lowercase hex of bytes: two digits per byte, high nibble first.
pub open spec fn hex_spec(b: Seq<u8>) -> Seq<char>
    decreases b.len(),
{
    if b.len() == 0 {
        Seq::empty()
    } else {
        hex_spec(b.drop_last()) + seq![hex_digit(b.last() / 16), hex_digit(b.last() % 16)]
    }
}

/// Lowercase hex through `hex::encode`; trusted to produce two lowercase
/// digits per byte, high nibble first (its table is `0123456789abcdef`).
#[verifier::external_body]
fn hex_lower(data: &[u8]) -> (r: String)
    ensures
        r@ == hex_spec(data@),
{
    hex::encode(data)
}

/// Digest of a serialized record body: lowercase hex SHA-256.
pub fn dataset_digest(serialized: &[u8]) -> (r: String)
    ensures
        r@ == hex_spec(sha256_of(serialized@)),
{
    let d = sha256(serialized);
    hex_lower(&d)
}

/// First record, from `k`, over the size or nesting limit, as its refusal.
pub open spec fn record_error(name: Seq<char>, items: Seq<RecordBody>, k: int) -> Option<Seq<char>>
    decreases items.len() - k,
{
    if k < 0 || k >= items.len() {
        None
    } else if items[k].bytes@.len() > MAX_RECORD_BYTES {
        Some("数据集 "@ + name + " 存在超过单条上限（2097152 字节）的记录"@)
    } else if depth(items[k].shape) > MAX_JSON_DEPTH {
        Some("数据集 "@ + name + " 存在嵌套深度超过 64 的记录"@)
    } else {
        record_error(name, items, k + 1)
    }
}

/// The refusal of block `i`, given that the blocks before it passed.
pub open spec fn block_error(bs: Seq<DatasetBlock>, i: int) -> Option<Seq<char>> {
    let b = bs[i];
    let name = b.name@;
    if trim_spec(name).len() == 0 {
        Some("数据包清单存在没有名称的数据集块"@)
    } else if exists|j: int| 0 <= j < i && #[trigger] bs[j].name@ == name {
        Some("数据包清单存在重名的数据集块："@ + name)
    } else if b.schema_version == 0 {
        Some("数据集 "@ + name + " 的 schemaVersion 非法（0）"@)
    } else if b.records is Some && b.policy == TransportPolicy::DeviceLocal {
        Some("数据集 "@ + name + " 声明为 device-local 却携带了记录（本机事实不随包搬移）"@)
    } else if b.records is None && b.policy != TransportPolicy::DeviceLocal && b.policy != TransportPolicy::Secret
        && b.record_count > 0 {
        Some("数据集 "@ + name + " 声明有 "@ + decimal_spec(b.record_count as nat) + " 条记录但记录体缺失"@)
    } else {
        match b.records {
            None => None,
            Some(CarriedRecords::NotArray) => Some("数据集 "@ + name + " 的记录体不是数组"@),
            Some(CarriedRecords::Array { serialized, items }) => if items@.len() != b.record_count {
                Some(
                    "数据集 "@ + name + " 的记录数与声明不一致（声明 "@ + decimal_spec(b.record_count as nat) + "，实际 "@
                        + decimal_spec(items@.len()) + "）"@,
                )
            } else if hex_spec(sha256_of(serialized@)) != b.sha256@ {
                Some("数据集 "@ + name + " 的 sha256 与记录体不符（包可能被改动或生成端有缺陷）"@)
            } else {
                record_error(name, items@, 0)
            },
        }
    }
}

/// The first refusal among blocks from `i`.
pub open spec fn blocks_error(bs: Seq<DatasetBlock>, i: int) -> Option<Seq<char>>
    decreases bs.len() - i,
{
    if i < 0 || i >= bs.len() {
        None
    } else {
        match block_error(bs, i) {
            Some(m) => Some(m),
            None => blocks_error(bs, i + 1),
        }
    }
}

/// Sum of the declared record counts.
pub open spec fn declared_total(bs: Seq<DatasetBlock>) -> int
    decreases bs.len(),
{
    if bs.len() == 0 {
        0
    } else {
        declared_total(bs.drop_last()) + bs.last().record_count
    }
}

/// `n`, capped at `usize::MAX` (the count saturates).
pub open spec fn saturated(n: int) -> int {
    if n <= usize::MAX {
        n
    } else {
        usize::MAX as int
    }
}

/// The refusal of a manifest, if any (the first problem found, in the order
/// the blocks come).
pub open spec fn manifest_error(m: PackageManifest) -> Option<Seq<char>> {
    if m.datasets@.len() == 0 {
        Some("数据包清单没有任何数据集"@)
    } else if trim_spec(m.package_id@).len() == 0 {
        Some("数据包清单缺少 packageId"@)
    } else {
        match blocks_error(m.datasets@, 0) {
            Some(e) => Some(e),
            None => if declared_total(m.datasets@) > MAX_RECORDS_PER_PACKAGE {
                Some("记录总数 "@ + decimal_spec(saturated(declared_total(m.datasets@)) as nat) + " 超过单包上限 50000"@)
            } else {
                None
            },
        }
    }
}

/// The records a block carries as an array (none otherwise).
pub open spec fn carried_items(b: DatasetBlock) -> Seq<RecordBody> {
    match b.records {
        Some(CarriedRecords::Array { serialized, items }) => items@,
        _ => Seq::empty(),
    }
}

/// Every record shape fits in memory (its value count fits in `usize`).
pub open spec fn shapes_fit(bs: Seq<DatasetBlock>) -> bool {
    forall|i: int, k: int|
        0 <= i < bs.len() && 0 <= k < carried_items(bs[i]).len() ==> size(#[trigger] carried_items(bs[i])[k].shape)
            <= usize::MAX
}

/// Appends `s` to `out`.
fn push_str(out: &mut String, s: &str)
    ensures
        final(out)@ == old(out)@ + s@,
{
    out.append(s);
}

/// `"数据集 " + name + tail`.
fn dataset_message(name: &str, tail: &str) -> (r: String)
    ensures
        r@ == "数据集 "@ + name@ + tail@,
{
    let mut m = owned("数据集 ");
    push_str(&mut m, name);
    push_str(&mut m, tail);
    m
}

/// Checks the records of a block against the size and nesting limits.
fn check_records(name: &str, items: &Vec<RecordBody>) -> (r: Result<(), String>)
    requires
        forall|k: int| 0 <= k < items@.len() ==> size(#[trigger] items@[k].shape) <= usize::MAX,
    ensures
        match record_error(name@, items@, 0) {
            Some(m) => r is Err && r->Err_0@ == m,
            None => r is Ok,
        },
{
    let mut k: usize = 0;
    while k < items.len()
        invariant
            k <= items@.len(),
            forall|q: int| 0 <= q < items@.len() ==> size(#[trigger] items@[q].shape) <= usize::MAX,
            record_error(name@, items@, 0) == record_error(name@, items@, k as int),
        decreases items@.len() - k,
    {
        if items[k].bytes.len() > MAX_RECORD_BYTES {
            return Err(dataset_message(name, " 存在超过单条上限（2097152 字节）的记录"));
        }
        if json_depth(&items[k].shape) > MAX_JSON_DEPTH {
            return Err(dataset_message(name, " 存在嵌套深度超过 64 的记录"));
        }
        k = k + 1;
    }
    Ok(())
}

/// Checks one block (the blocks before it passed; `names` are theirs).
fn check_block(bs: &Vec<DatasetBlock>, i: usize, names: &Vec<String>) -> (r: Result<(), String>)
    requires
        i < bs@.len(),
        names@.len() == i,
        forall|j: int| 0 <= j < i ==> (#[trigger] names@[j])@ == bs@[j].name@,
        shapes_fit(bs@),
    ensures
        match block_error(bs@, i as int) {
            Some(m) => r is Err && r->Err_0@ == m,
            None => r is Ok,
        },
{
    let b = &bs[i];
    let name = b.name.as_str();
    if trim(name).unicode_len() == 0 {
        return Err(owned("数据包清单存在没有名称的数据集块"));
    }
    let mut j: usize = 0;
    while j < names.len()
        invariant
            j <= names@.len(),
            names@.len() == i,
            i < bs@.len(),
            forall|q: int| 0 <= q < i ==> (#[trigger] names@[q])@ == bs@[q].name@,
            forall|q: int| 0 <= q < j ==> (#[trigger] bs@[q]).name@ != name@,
            name@ == bs@[i as int].name@,
            trim_spec(name@).len() > 0,
        decreases names@.len() - j,
    {
        if str_eq(names[j].as_str(), name) {
            assert(bs@[j as int].name@ == name@);
            assert(exists|q: int| 0 <= q < i && #[trigger] bs@[q].name@ == name@);
            let mut m = owned("数据包清单存在重名的数据集块：");
            push_str(&mut m, name);
            return Err(m);
        }
        j = j + 1;
    }
    if b.schema_version == 0 {
        return Err(dataset_message(name, " 的 schemaVersion 非法（0）"));
    }
    let device_local = match b.policy {
        TransportPolicy::DeviceLocal => true,
        _ => false,
    };
    let secret = match b.policy {
        TransportPolicy::Secret => true,
        _ => false,
    };
    match &b.records {
        None => {
            if !device_local && !secret && b.record_count > 0 {
                let count = decimal(b.record_count as u64);
                let mut m = dataset_message(name, " 声明有 ");
                push_str(&mut m, count.as_str());
                push_str(&mut m, " 条记录但记录体缺失");
                return Err(m);
            }
            Ok(())
        },
        Some(records) => {
            if device_local {
                return Err(dataset_message(name, " 声明为 device-local 却携带了记录（本机事实不随包搬移）"));
            }
            match records {
                CarriedRecords::NotArray => Err(dataset_message(name, " 的记录体不是数组")),
                CarriedRecords::Array { serialized, items } => {
                    if items.len() != b.record_count {
                        let declared = decimal(b.record_count as u64);
                        let actual = decimal(items.len() as u64);
                        let mut m = dataset_message(name, " 的记录数与声明不一致（声明 ");
                        push_str(&mut m, declared.as_str());
                        push_str(&mut m, "，实际 ");
                        push_str(&mut m, actual.as_str());
                        push_str(&mut m, "）");
                        return Err(m);
                    }
                    let digest = dataset_digest(serialized.as_slice());
                    if !str_eq(digest.as_str(), b.sha256.as_str()) {
                        return Err(dataset_message(name, " 的 sha256 与记录体不符（包可能被改动或生成端有缺陷）"));
                    }
                    proof {
                        assert(carried_items(bs@[i as int]) == items@);
                        assert forall|k: int| 0 <= k < items@.len() implies size(#[trigger] items@[k].shape) <= usize::MAX by {
                            assert(size(carried_items(bs@[i as int])[k].shape) <= usize::MAX);
                        }
                    }
                    check_records(name, items)
                },
            }
        },
    }
}

/// Checks the manifest's self-consistency (before export and after
/// decryption on import): the first problem is reported.
///
/// The digest of a carried block is checked over the bytes in its
/// `CarriedRecords::Array { serialized, .. }`, not over a re-serialization of
/// `items`: the caller must put there the serialized JSON array of the
/// block's records exactly as the digest was taken (on export, the bytes the
/// package will hold; on import, the block's record array serialized the same
/// way), and `items` must be those records, one `RecordBody` each.
pub fn validate_manifest(manifest: &PackageManifest) -> (r: Result<(), String>)
    requires
        shapes_fit(manifest.datasets@),
    ensures
        match manifest_error(*manifest) {
            Some(m) => r is Err && r->Err_0@ == m,
            None => r is Ok,
        },
{
    if manifest.datasets.len() == 0 {
        return Err(owned("数据包清单没有任何数据集"));
    }
    if trim(manifest.package_id.as_str()).unicode_len() == 0 {
        return Err(owned("数据包清单缺少 packageId"));
    }
    let bs = &manifest.datasets;
    let mut names: Vec<String> = Vec::new();
    let mut total: usize = 0;
    let mut i: usize = 0;
    while i < bs.len()
        invariant
            i <= bs@.len(),
            bs@ == manifest.datasets@,
            manifest.datasets@.len() > 0,
            trim_spec(manifest.package_id@).len() > 0,
            shapes_fit(bs@),
            names@.len() == i,
            forall|j: int| 0 <= j < i ==> (#[trigger] names@[j])@ == bs@[j].name@,
            blocks_error(bs@, 0) == blocks_error(bs@, i as int),
            total as int == saturated(declared_total(bs@.subrange(0, i as int))),
            declared_total(bs@.subrange(0, i as int)) >= 0,
        decreases bs@.len() - i,
    {
        match check_block(bs, i, &names) {
            Err(m) => return Err(m),
            Ok(()) => {},
        }
        proof {
            let sub = bs@.subrange(0, i + 1);
            assert(sub.drop_last() =~= bs@.subrange(0, i as int));
            assert(sub.last() == bs@[i as int]);
        }
        total = total.saturating_add(bs[i].record_count);
        names.push(bs[i].name.clone());
        i = i + 1;
    }
    assert(bs@.subrange(0, bs@.len() as int) =~= bs@);
    assert(blocks_error(bs@, i as int) is None);
    if total > MAX_RECORDS_PER_PACKAGE {
        let n = decimal(total as u64);
        let mut m = owned("记录总数 ");
        push_str(&mut m, n.as_str());
        push_str(&mut m, " 超过单包上限 50000");
        return Err(m);
    }
    Ok(())
}

/// A block that carries records: count and digest computed from them.
pub fn block_carrying(descriptor: &DatasetDescriptor, serialized: Vec<u8>, items: Vec<RecordBody>) -> (r: DatasetBlock)
    ensures
        r.name@ == descriptor.name@,
        r.schema_version == descriptor.schema_version,
        r.policy == descriptor.policy,
        r.record_count == items@.len(),
        r.sha256@ == hex_spec(sha256_of(serialized@)),
        r.records == Some(CarriedRecords::Array { serialized, items }),
{
    let record_count = items.len();
    let sha256 = dataset_digest(serialized.as_slice());
    DatasetBlock {
        name: descriptor.name.clone(),
        schema_version: descriptor.schema_version,
        policy: descriptor.policy,
        record_count,
        sha256,
        records: Some(CarriedRecords::Array { serialized, items }),
    }
}

/// A block that only declares its count (credentials not carried, device-local datasets).
pub fn block_declared(descriptor: &DatasetDescriptor, record_count: usize) -> (r: DatasetBlock)
    ensures
        r.name@ == descriptor.name@,
        r.schema_version == descriptor.schema_version,
        r.policy == descriptor.policy,
        r.record_count == record_count,
        r.sha256@.len() == 0,
        r.records is None,
{
    DatasetBlock {
        name: descriptor.name.clone(),
        schema_version: descriptor.schema_version,
        policy: descriptor.policy,
        record_count,
        sha256: String::new(),
        records: None,
    }
}

/// A fresh random id through `uuid::Uuid::new_v4`, formatted the way its
/// `Display` writes it (hyphenated lowercase hex, 36 characters). Nothing
/// is stated about which id comes out.
#[verifier::external_body]
pub(crate) fn new_uuid_string() -> (r: String)
    ensures
        r@.len() == 36,
{
    uuid::Uuid::new_v4().to_string()
}

/// The current UTC time through `chrono::Utc::now().to_rfc3339()`; nothing
/// is stated about the value, which depends on the clock.
#[verifier::external_body]
fn now_rfc3339() -> (r: String) {
    chrono::Utc::now().to_rfc3339()
}

impl PackageManifest {
    /// A new manifest skeleton: a fresh package id and the export time, the
    /// given source space, application version and platform; no blocks,
    /// edges or exclusions yet.
    pub fn new(source_space_id: &str, source_space_name: &str, app_version: &str, platform: &str) -> (r: PackageManifest)
        ensures
            r.package_id@.len() == 36,
            r.source_space_id@ == source_space_id@,
            r.source_space_name@ == source_space_name@,
            r.app_version@ == app_version@,
            r.platform@ == platform@,
            r.datasets@.len() == 0,
            r.dependencies@.len() == 0,
            r.excluded@.len() == 0,
    {
        PackageManifest {
            package_id: new_uuid_string(),
            source_space_id: owned(source_space_id),
            source_space_name: owned(source_space_name),
            created_at: now_rfc3339(),
            app_version: owned(app_version),
            platform: owned(platform),
            datasets: Vec::new(),
            dependencies: Vec::new(),
            excluded: Vec::new(),
        }
    }
}

} // verus!

//! Storage paths: the effective root, scope-name validation, and the
//! partition directories, all taken from the fixed storage location.
//! Directory creation and probing are done by the caller around these.

use vstd::prelude::*;

use crate::context::{
    cache_spec, data_spec, join_path, join_spec, plain_component, vault_spec, ContextRuntime, StorageLocation,
};
use crate::text::{concat2, contains_char, contains_seq, contains_str, owned, str_eq, trim, trim_spec};

verus! {

/// Settings key of the storage root (in the `app` object of `settings.json`).
pub const KEY_STORAGE_ROOT: &'static str = "storageRoot";

/// Prefix of staging directories (new imports, storage migration).
pub const STAGING_PREFIX: &'static str = ".covekit-staging-";

/// The effective root given the platform's verdict on the trimmed
/// configured root: that root when it is non-empty and absolute, otherwise
/// the default root.
pub open spec fn root_choice(configured: Seq<char>, default_root: Seq<char>, absolute: bool) -> Seq<char> {
    let t = trim_spec(configured);
    if t.len() > 0 && absolute {
        t
    } else {
        default_root
    }
}

/// `std::path::Path::is_absolute`: whether the path is absolute by the rule
/// of the platform the program runs on (on Unix, a leading root; on
/// Windows, a prefix followed by a root).
///
/// Trusted: only that an absolute path is not empty; which rule applies is
/// the platform's, so nothing more is stated.
#[verifier::external_body]
fn path_is_absolute(p: &str) -> (r: bool)
    ensures
        r ==> p@.len() > 0,
{
    std::path::Path::new(p).is_absolute()
}

/// Effective storage root for a known verdict on the trimmed configured
/// root: it when non-empty and absolute, otherwise the default root.
pub fn resolve_root_with(configured: &str, default_root: &str, absolute: bool) -> (r: String)
    ensures
        r@ == root_choice(configured@, default_root@, absolute),
{
    let trimmed = trim(configured);
    if trimmed.unicode_len() > 0 && absolute {
        owned(trimmed)
    } else {
        owned(default_root)
    }
}

/// Effective storage root: the trimmed configured root when the platform
/// judges it absolute; an empty or relative one falls back to the default.
pub fn resolve_root(configured: &str, default_root: &str) -> (r: String)
    ensures
        exists|absolute: bool| r@ == #[trigger] root_choice(configured@, default_root@, absolute),
        trim_spec(configured@).len() == 0 ==> r@ == default_root@,
{
    let trimmed = trim(configured);
    let absolute = path_is_absolute(trimmed);
    let r = resolve_root_with(configured, default_root, absolute);
    assert(r@ == root_choice(configured@, default_root@, absolute));
    r
}

/// A single directory name: not empty, no separator, no `..`, not `.`.
pub open spec fn valid_scope_spec(scope: Seq<char>) -> bool {
    &&& scope.len() > 0
    &&& !scope.contains('/')
    &&& !scope.contains('\\')
    &&& !contains_seq(scope, ".."@)
    &&& scope != "."@
}

/// Whether `scope` is a single directory name (no path traversal).
pub fn valid_scope(scope: &str) -> (r: bool)
    ensures
        r == valid_scope_spec(scope@),
{
    if scope.unicode_len() == 0 {
        return false;
    }
    if contains_char(scope, '/') || contains_char(scope, '\\') {
        return false;
    }
    if contains_str(scope, "..") {
        return false;
    }
    !str_eq(scope, ".")
}

/// The partition a name denotes, taken from the location's own fields.
pub open spec fn partition_spec(location: StorageLocation, name: Seq<char>) -> Option<Seq<char>> {
    if name == "data"@ {
        Some(location.data@)
    } else if name == "vault"@ {
        Some(location.vault@)
    } else if name == "logs"@ {
        Some(location.logs@)
    } else if name == "cache"@ {
        Some(location.cache@)
    } else {
        None
    }
}

/// Partition name to partition directory (no second join: the fields of the location).
pub fn partition_path(location: &StorageLocation, name: &str) -> (r: Option<String>)
    ensures
        match r {
            Some(p) => partition_spec(*location, name@) == Some(p@),
            None => partition_spec(*location, name@) is None,
        },
{
    if str_eq(name, "data") {
        Some(location.data.clone())
    } else if str_eq(name, "vault") {
        Some(location.vault.clone())
    } else if str_eq(name, "logs") {
        Some(location.logs.clone())
    } else if str_eq(name, "cache") {
        Some(location.cache.clone())
    } else {
        None
    }
}

/// Directory of a named partition: one of the four, or a directory of that
/// name under the space root.
pub open spec fn partition_dir_spec(location: StorageLocation, name: Seq<char>) -> Seq<char> {
    match partition_spec(location, name) {
        Some(p) => p,
        None => join_spec(location.root@, name),
    }
}

/// Directory of a named partition (the caller creates it); an invalid name is refused.
pub fn partition_dir(location: &StorageLocation, name: &str) -> (r: Result<String, String>)
    ensures
        valid_scope_spec(name@) ==> r is Ok && r->Ok_0@ == partition_dir_spec(*location, name@),
        !valid_scope_spec(name@) ==> r is Err && r->Err_0@ == "分区名非法: "@ + name@,
{
    if !valid_scope(name) {
        return Err(concat2("分区名非法: ", name));
    }
    match partition_path(location, name) {
        Some(p) => Ok(p),
        None => Ok(join_path(location.root.as_str(), name)),
    }
}

/// Directory of `scope` inside a partition (the caller creates it).
pub fn scoped_dir(location: &StorageLocation, partition: &str, scope: &str) -> (r: Result<String, String>)
    ensures
        !valid_scope_spec(scope@) ==> r is Err && r->Err_0@ == "作用域名非法: "@ + scope@,
        valid_scope_spec(scope@) && !valid_scope_spec(partition@) ==> r is Err && r->Err_0@ == "分区名非法: "@
            + partition@,
        valid_scope_spec(scope@) && valid_scope_spec(partition@) ==> r is Ok && r->Ok_0@ == join_spec(
            partition_dir_spec(*location, partition@),
            scope@,
        ),
{
    if !valid_scope(scope) {
        return Err(concat2("作用域名非法: ", scope));
    }
    match partition_dir(location, partition) {
        Ok(dir) => Ok(join_path(dir.as_str(), scope)),
        Err(e) => Err(e),
    }
}

/// Path of an item in the data partition (no fallback to an older layout).
pub fn data_path(location: &StorageLocation, name: &str) -> (r: Result<String, String>)
    ensures
        valid_scope_spec(name@) ==> r is Ok && r->Ok_0@ == join_spec(location.data@, name@),
        !valid_scope_spec(name@) ==> r is Err && r->Err_0@ == "文件名非法: "@ + name@,
{
    if !valid_scope(name) {
        return Err(concat2("文件名非法: ", name));
    }
    Ok(join_path(location.data.as_str(), name))
}

/// The storage location of this run; before the context is fixed there is
/// none, and guessing one would write to the wrong place.
pub fn current_location(runtime: &ContextRuntime) -> (r: Result<&StorageLocation, String>)
    ensures
        match r {
            Ok(loc) => runtime.fixed() matches Some(ctx) && ctx.loc() == *loc,
            Err(e) => runtime.fixed() is None && e@ == "数据上下文未初始化，存储位置不可得"@,
        },
{
    match runtime.location() {
        Some(loc) => Ok(loc),
        None => Err(owned("数据上下文未初始化，存储位置不可得")),
    }
}

/// The device-level storage root: the fixed context's, or (before the
/// context is fixed) the root resolved from the configuration.
pub fn storage_root(runtime: &ContextRuntime, configured: &str, default_root: &str) -> (r: String)
    ensures
        match runtime.fixed() {
            Some(ctx) => r@ == ctx.loc().device_root@,
            None => exists|absolute: bool| r@ == #[trigger] root_choice(configured@, default_root@, absolute),
        },
{
    match runtime.root() {
        Some(root) => owned(root),
        None => resolve_root(configured, default_root),
    }
}

/// Directories granted to the asset protocol: only the playable cache
/// directory `<cache>/tts`.
pub fn asset_scope_dirs(location: &StorageLocation) -> (r: Vec<String>)
    ensures
        r@.len() == 1,
        r@[0]@ == join_spec(location.cache@, "tts"@),
{
    let mut dirs: Vec<String> = Vec::new();
    dirs.push(join_path(location.cache.as_str(), "tts"));
    dirs
}

/// The asset directory of a space lies inside its cache partition and
/// outside its data and credential partitions.
pub proof fn asset_scope_stays_inside_cache(device_root: Seq<char>, space_id: Seq<char>)
    requires
        plain_component(space_id),
    ensures
        cache_spec(device_root, space_id).is_prefix_of(join_spec(cache_spec(device_root, space_id), "tts"@)),
        !data_spec(device_root, space_id).is_prefix_of(join_spec(cache_spec(device_root, space_id), "tts"@)),
        !vault_spec(device_root, space_id).is_prefix_of(join_spec(cache_spec(device_root, space_id), "tts"@)),
{
    reveal_strlit("spaces");
    reveal_strlit("cache");
    reveal_strlit("data");
    reveal_strlit("vault");
    reveal_strlit("tts");
    reveal_strlit("/");
    let sep = if device_root.len() == 0 || device_root.last() == '/' {
        device_root
    } else {
        device_root + "/"@
    };
    let sp = join_spec(device_root, "spaces"@);
    let ca = join_spec(device_root, "cache"@);
    assert(sp.len() == sep.len() + 6);
    assert(ca.len() == sep.len() + 5);
    let root = join_spec(sp, space_id);
    let cache = join_spec(ca, space_id);
    assert(sp.last() == 's');
    assert(ca.last() == 'e');
    assert(root.len() == sep.len() + 7 + space_id.len());
    assert(cache.len() == sep.len() + 6 + space_id.len());
    assert(root.last() == space_id.last());
    assert(cache.last() == space_id.last());
    let asset = join_spec(cache, "tts"@);
    assert(asset == cache + "/"@ + "tts"@);
    assert(asset.len() == sep.len() + 10 + space_id.len());
    assert(data_spec(device_root, space_id).len() == sep.len() + 12 + space_id.len());
    assert(vault_spec(device_root, space_id).len() == sep.len() + 13 + space_id.len());
    assert(cache.is_prefix_of(asset)) by {
        assert(asset.subrange(0, cache.len() as int) =~= cache);
    }
}

} // verus!

//! Local credentials stored per namespace: the namespace whitelist and the
//! file each namespace is kept in (the encryption goes through the secure
//! store).

use vstd::prelude::*;

use crate::context::{join_path, join_spec};
use crate::text::concat2;

verus! {

/// Credentials directory (inside the data partition).
pub const CREDENTIALS_DIR: &'static str = "credentials";

/// Characters a namespace may hold: ASCII letters and digits, `_` and `-`.
pub open spec fn namespace_char(c: char) -> bool {
    ('a' <= c && c <= 'z') || ('A' <= c && c <= 'Z') || ('0' <= c && c <= '9') || c == '_' || c == '-'
}

/// A namespace: 1 to 32 allowed characters (no path traversal possible).
pub open spec fn valid_namespace_spec(namespace: Seq<char>) -> bool {
    0 < namespace.len() <= 32 && forall|i: int| 0 <= i < namespace.len() ==> namespace_char(#[trigger] namespace[i])
}

/// Whether `namespace` is an allowed namespace.
pub fn valid_namespace(namespace: &str) -> (r: bool)
    ensures
        r == valid_namespace_spec(namespace@),
{
    let n = namespace.unicode_len();
    if n == 0 || n > 32 {
        return false;
    }
    let mut i: usize = 0;
    while i < n
        invariant
            n == namespace@.len(),
            i <= n,
            forall|k: int| 0 <= k < i ==> namespace_char(#[trigger] namespace@[k]),
        decreases n - i,
    {
        let c = namespace.get_char(i);
        let ok = ('a' <= c && c <= 'z') || ('A' <= c && c <= 'Z') || ('0' <= c && c <= '9') || c == '_' || c == '-';
        if !ok {
            assert(!namespace_char(namespace@[i as int]));
            return false;
        }
        i = i + 1;
    }
    true
}

/// The encrypted file of a namespace: `<dir>/credentials/<namespace>.enc`.
pub fn secrets_file_at(dir: &str, namespace: &str) -> (r: Result<String, String>)
    ensures
        valid_namespace_spec(namespace@) ==> r is Ok && r->Ok_0@ == join_spec(
            join_spec(dir@, CREDENTIALS_DIR@),
            namespace@ + ".enc"@,
        ),
        !valid_namespace_spec(namespace@) ==> r is Err && r->Err_0@ == "凭证命名空间非法："@ + namespace@,
{
    if !valid_namespace(namespace) {
        return Err(concat2("凭证命名空间非法：", namespace));
    }
    let base = join_path(dir, CREDENTIALS_DIR);
    let name = concat2(namespace, ".enc");
    Ok(join_path(base.as_str(), name.as_str()))
}

/// The file name of a valid namespace is a single path component: it
/// holds no separator, so the file stays inside the credentials directory.
pub proof fn namespace_file_is_one_component(namespace: Seq<char>)
    requires
        valid_namespace_spec(namespace),
    ensures
        !(namespace + ".enc"@).contains('/'),
        !(namespace + ".enc"@).contains('\\'),
        (namespace + ".enc"@)[0] != '.',
{
    reveal_strlit(".enc");
    let name = namespace + ".enc"@;
    assert forall|i: int| 0 <= i < name.len() implies name[i] != '/' && name[i] != '\\' by {
        if i < namespace.len() {
            assert(namespace_char(namespace[i]));
        }
    }
    assert(namespace_char(namespace[0]));
}

} // verus!

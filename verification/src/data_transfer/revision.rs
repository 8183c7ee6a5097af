//! The storage revision of a space: one digest over its tracked store files,
//! so that an import planned against one state of the space is refused when
//! the space changed before it is committed. Reading the files is done by the
//! caller; the framing of what is digested is decided here.

use vstd::prelude::*;
use vstd::bytes::*;

use crate::data_transfer::manifest::{dataset_digest, hex_spec, sha256_of};
use crate::data_transfer::package::append_bytes;

verus! {

/// One tracked store file as read for the revision.
#[derive(Debug)]
pub struct RevisionInput {
    /// Path relative to the space root, as UTF-8 bytes.
    pub name: Vec<u8>,
    /// The write-ahead log next to a database file, when there is one.
    pub wal: Option<Vec<u8>>,
    /// The contents, or `None` when the file does not exist.
    pub content: Option<Vec<u8>>,
}

/// The position after the last `/` of a path.
pub open spec fn base_start(name: Seq<u8>) -> int
    decreases name.len(),
{
    if name.len() == 0 {
        0
    } else if name.last() == 0x2fu8 {
        name.len() as int
    } else {
        base_start(name.drop_last())
    }
}

/// A database file: its file name ends in `.db` after at least one other
/// character (a bare `.db` is a hidden name, not an extension).
pub open spec fn db_name(name: Seq<u8>) -> bool {
    let base = name.subrange(base_start(name), name.len() as int);
    &&& base.len() > 3
    &&& base[base.len() - 3] == 0x2eu8
    &&& base[base.len() - 2] == 0x64u8
    &&& base[base.len() - 1] == 0x62u8
}

/// The bytes digested for a file that does not exist.
pub open spec fn absent_marker() -> Seq<u8> {
    seq![0x3cu8, 0x61u8, 0x62u8, 0x73u8, 0x65u8, 0x6eu8, 0x74u8, 0x3eu8]
}

/// The bytes digested for the files, in order: each file's name, then the
/// log of a database file when there is one, then its length (eight bytes,
/// little-endian) and contents, or the absence marker.
pub open spec fn revision_bytes(files: Seq<RevisionInput>) -> Seq<u8>
    decreases files.len(),
{
    if files.len() == 0 {
        Seq::empty()
    } else {
        let f = files.last();
        revision_bytes(files.drop_last()) + f.name@ + (if db_name(f.name@) && f.wal is Some {
            f.wal->0@
        } else {
            Seq::empty()
        }) + match f.content {
            Some(b) => spec_u64_to_le_bytes(b@.len() as u64) + b@,
            None => absent_marker(),
        }
    }
}

/// `base_start` is after every `/`, just after the last one.
proof fn lemma_base_start(name: Seq<u8>)
    ensures
        0 <= base_start(name) <= name.len(),
        base_start(name) > 0 ==> name[base_start(name) - 1] == 0x2fu8,
        forall|k: int| base_start(name) <= k < name.len() ==> name[k] != 0x2fu8,
    decreases name.len(),
{
    if name.len() > 0 && name.last() != 0x2fu8 {
        lemma_base_start(name.drop_last());
        assert forall|k: int| base_start(name) <= k < name.len() implies name[k] != 0x2fu8 by {
            if k < name.len() - 1 {
                assert(name.drop_last()[k] == name[k]);
            }
        }
        if base_start(name) > 0 {
            assert(name.drop_last()[base_start(name) - 1] == name[base_start(name) - 1]);
        }
    }
}

/// Whether a tracked file is a database file (whose log is digested too).
pub fn is_db_file(name: &[u8]) -> (r: bool)
    ensures
        r == db_name(name@),
{
    let n = name.len();
    let mut start: usize = n;
    while start > 0 && name[start - 1] != 0x2f
        invariant
            start <= n,
            n == name@.len(),
            forall|k: int| start <= k < n ==> name@[k] != 0x2fu8,
        decreases start,
    {
        start = start - 1;
    }
    proof {
        lemma_base_start(name@);
        let b = base_start(name@);
        if b < start {
            assert(name@[start - 1] == 0x2fu8);
        } else if b > start {
            assert(name@[b - 1] == 0x2fu8);
            if start > 0 {
                assert(name@[start - 1] != 0x2fu8 || start == 0);
            }
        }
        assert(b == start);
    }
    n - start > 3 && name[n - 3] == 0x2e && name[n - 2] == 0x64 && name[n - 1] == 0x62
}

/// The storage revision: lowercase hex SHA-256 of the revision bytes of the files.
pub fn storage_revision(files: &Vec<RevisionInput>) -> (r: String)
    ensures
        r@ == hex_spec(sha256_of(revision_bytes(files@))),
{
    let mut stream: Vec<u8> = Vec::new();
    let mut i: usize = 0;
    while i < files.len()
        invariant
            i <= files@.len(),
            stream@ == revision_bytes(files@.subrange(0, i as int)),
        decreases files@.len() - i,
    {
        let f = &files[i];
        proof {
            assert(files@.subrange(0, i + 1).drop_last() =~= files@.subrange(0, i as int));
            assert(files@.subrange(0, i + 1).last() == files@[i as int]);
        }
        let ghost before = stream@;
        append_bytes(&mut stream, f.name.as_slice());
        let db = is_db_file(f.name.as_slice());
        match &f.wal {
            Some(w) => {
                if db {
                    append_bytes(&mut stream, w.as_slice());
                }
            },
            None => {},
        }
        let ghost mid = stream@;
        match &f.content {
            Some(b) => {
                let len = u64_to_le_bytes(b.len() as u64);
                append_bytes(&mut stream, len.as_slice());
                append_bytes(&mut stream, b.as_slice());
            },
            None => {
                let marker: [u8; 8] = [0x3c, 0x61, 0x62, 0x73, 0x65, 0x6e, 0x74, 0x3e];
                append_bytes(&mut stream, marker.as_slice());
                proof {
                    assert(marker@ =~= absent_marker());
                }
            },
        }
        proof {
            assert(stream@ =~= revision_bytes(files@.subrange(0, i + 1)));
        }
        i = i + 1;
    }
    assert(files@.subrange(0, files@.len() as int) =~= files@);
    dataset_digest(stream.as_slice())
}

} // verus!

//! In-memory model of a source directory tree.
//!
//! The walk engines are verified against this model: a directory is a
//! list of named entries, an entry is either a subdirectory or a file
//! with byte content. A file additionally carries whether it can be
//! read, which is how a source-side read error enters the model.

use vstd::prelude::*;

verus! {

/// A file of the source tree: its bytes, and whether reading it succeeds.
pub struct FsFile {
    pub content: Vec<u8>,
    pub readable: bool,
}

pub enum FsData {
    Dir(FsDir),
    File(FsFile),
}

/// One directory entry: a name and what it is.
pub struct FsEntry {
    pub name: String,
    pub data: FsData,
}

/// A directory: its entries, in listing order.
pub struct FsDir {
    pub entries: Vec<FsEntry>,
}

/// Number of entries in the whole tree, the root directory included;
/// used as a termination measure by the queue-driven walk.
pub open spec fn dir_size(d: FsDir) -> nat
    decreases d,
{
    1 + entries_size(d.entries@)
}

pub open spec fn entries_size(s: Seq<FsEntry>) -> nat
    decreases s,
{
    if s.len() == 0 {
        0
    } else {
        entry_size(s[0]) + entries_size(s.drop_first())
    }
}

pub open spec fn entry_size(e: FsEntry) -> nat
    decreases e,
{
    match e.data {
        FsData::Dir(sub) => dir_size(sub),
        FsData::File(_) => 1,
    }
}

/// Does the tree hold at least one file that cannot be read?
pub open spec fn dir_has_unreadable(d: FsDir) -> bool
    decreases d,
{
    entries_have_unreadable(d.entries@)
}

pub open spec fn entries_have_unreadable(s: Seq<FsEntry>) -> bool
    decreases s,
{
    if s.len() == 0 {
        false
    } else {
        entry_has_unreadable(s[0]) || entries_have_unreadable(s.drop_first())
    }
}

pub open spec fn entry_has_unreadable(e: FsEntry) -> bool
    decreases e,
{
    match e.data {
        FsData::Dir(sub) => dir_has_unreadable(sub),
        FsData::File(f) => !f.readable,
    }
}

/// First entry carrying the given name, if any.
pub open spec fn entry_named(s: Seq<FsEntry>, name: Seq<char>) -> Option<FsEntry>
    decreases s,
{
    if s.len() == 0 {
        None
    } else if s[0].name@ == name {
        Some(s[0])
    } else {
        entry_named(s.drop_first(), name)
    }
}

/// The subdirectory reached by following `path` from `d`, if it exists.
pub open spec fn dir_at(d: FsDir, path: Seq<Seq<char>>) -> Option<FsDir>
    decreases path.len(),
{
    if path.len() == 0 {
        Some(d)
    } else {
        match entry_named(d.entries@, path[0]) {
            Some(e) => match e.data {
                FsData::Dir(sub) => dir_at(sub, path.drop_first()),
                FsData::File(_) => None,
            },
            None => None,
        }
    }
}

/// The file reached by following `path` from `d`, if it exists.
pub open spec fn file_at(d: FsDir, path: Seq<Seq<char>>) -> Option<FsFile>
    decreases path.len(),
{
    if path.len() == 0 {
        None
    } else {
        match entry_named(d.entries@, path[0]) {
            Some(e) => match e.data {
                FsData::Dir(sub) => if path.len() > 1 {
                    file_at(sub, path.drop_first())
                } else {
                    None
                },
                FsData::File(f) => if path.len() == 1 {
                    Some(f)
                } else {
                    None
                },
            },
            None => None,
        }
    }
}

/// Concatenation keeps every element of both halves.
pub proof fn lemma_add_contains<A>(a: Seq<A>, b: Seq<A>, x: A)
    ensures
        a.contains(x) ==> (a + b).contains(x),
        b.contains(x) ==> (a + b).contains(x),
{
    if a.contains(x) {
        let i = choose|i: int| 0 <= i < a.len() && a[i] == x;
        assert((a + b)[i] == x);
    }
    if b.contains(x) {
        let i = choose|i: int| 0 <= i < b.len() && b[i] == x;
        assert((a + b)[a.len() + i] == x);
    }
}

} // verus!

//! What has been observed of a directory: the entries directly inside it.

use vstd::prelude::*;
use crate::text::str_eq;

verus! {

/// What an entry of a directory is, after following links.
#[derive(Clone, Copy, Debug, PartialEq, Eq, Structural)]
pub enum EntryKind {
    /// A regular file.
    File,
    /// A directory.
    Dir,
    /// Anything else: a link that leads nowhere, a socket, a device.
    Other,
}

/// One entry of a directory.
#[derive(Debug)]
pub struct DirEntry {
    /// The entry's file name, without any directory part.
    pub name: String,
    /// What the entry is.
    pub kind: EntryKind,
}

/// Some entry of the listing bears the given name.
pub open spec fn has_child(entries: Seq<DirEntry>, name: Seq<char>) -> bool {
    exists|i: int| 0 <= i < entries.len() && (#[trigger] entries[i]).name@ == name
}

/// A directory that has been listed: its path and the entries found in it.
#[derive(Debug)]
pub struct DirRecord {
    pub path: String,
    pub entries: Vec<DirEntry>,
}

/// The entries recorded for `path`: those of the first record that bears
/// exactly this path, if there is one.
pub open spec fn lookup(records: Seq<DirRecord>, path: Seq<char>) -> Option<Seq<DirEntry>>
    decreases records.len(),
{
    if records.len() == 0 {
        None
    } else if records[0].path@ == path {
        Some(records[0].entries@)
    } else {
        lookup(records.drop_first(), path)
    }
}

/// The entries recorded for `path`, if it has been listed.
pub fn find_record<'a>(records: &'a Vec<DirRecord>, path: &str) -> (r: Option<&'a Vec<DirEntry>>)
    ensures
        match r {
            Some(entries) => lookup(records@, path@) == Some(entries@),
            None => lookup(records@, path@) is None,
        },
{
    let mut i: usize = 0;
    assert(records@.skip(0) =~= records@);
    while i < records.len()
        invariant
            i <= records.len(),
            lookup(records@, path@) == lookup(records@.skip(i as int), path@),
        decreases records.len() - i,
    {
        assert(records@.skip(i as int).drop_first() =~= records@.skip(i + 1));
        if str_eq(records[i].path.as_str(), path) {
            return Some(&records[i].entries);
        }
        i += 1;
    }
    None
}

} // verus!

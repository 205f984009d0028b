//! One configuration source: a table of entries bound to a level.

use vstd::prelude::*;
use crate::level::ConfigLevel;
use crate::model::{SourceModel, defines, table_remove, table_set, table_wf};
use crate::name::is_normal;
use crate::table::EntryTable;

verus! {

/// A source of configuration entries. It remembers the path of the file it
/// was read from, if any, the level it was added at, and whether it was
/// added with force.
#[derive(Debug)]
pub struct Source {
    path: Option<String>,
    level: ConfigLevel,
    force: bool,
    entries: EntryTable,
}

/// The view of an optional path.
pub open spec fn path_of(path: Option<String>) -> Option<Seq<char>> {
    match path {
        Some(p) => Some(p@),
        None => None,
    }
}

impl View for Source {
    type V = SourceModel;

    closed spec fn view(&self) -> SourceModel {
        SourceModel {
            path: path_of(self.path),
            level: self.level,
            force: self.force,
            entries: self.entries@,
        }
    }
}

/// Whether two optional paths are the same.
pub fn same_path(a: &Option<String>, b: &Option<String>) -> (r: bool)
    ensures
        r == (path_of(*a) == path_of(*b)),
{
    match a {
        Some(x) => match b {
            Some(y) => *x == *y,
            None => false,
        },
        None => b.is_none(),
    }
}

impl Source {
    /// The names of a source's table are in normal form. This holds of
    /// every source at all times.
    #[verifier::type_invariant]
    pub open spec fn wf(&self) -> bool {
        table_wf(self@.entries)
    }

    /// A source with the given entries. Without a path it is an in-memory
    /// source.
    pub fn new(path: Option<String>, level: ConfigLevel, force: bool, entries: EntryTable) -> (source:
        Source)
        ensures
            source@ == (SourceModel { path: path_of(path), level, force, entries: entries@ }),
    {
        proof {
            use_type_invariant(&entries);
        }
        Source { path, level, force, entries }
    }

    /// The path of the backing file; none for an in-memory source.
    pub fn path(&self) -> (path: &Option<String>)
        ensures
            self@.path == path_of(*path),
    {
        &self.path
    }

    /// The level of the source.
    pub fn level(&self) -> (level: ConfigLevel)
        ensures
            level == self@.level,
    {
        self.level
    }

    /// Whether the source was added with force.
    pub fn force(&self) -> (force: bool)
        ensures
            force == self@.force,
    {
        self.force
    }

    /// The entries of the source.
    pub fn entries(&self) -> (entries: &EntryTable)
        ensures
            entries@ == self@.entries,
    {
        &self.entries
    }

    /// Whether the source has this level and this path.
    pub fn is_from(&self, path: &Option<String>, level: ConfigLevel) -> (r: bool)
        ensures
            r == (self@.level == level && self@.path == path_of(*path)),
    {
        self.level.same(level) && same_path(&self.path, path)
    }

    /// Writes `value` under `key` in the source's table.
    pub(crate) fn put(&mut self, key: Vec<u8>, value: Vec<u8>)
        requires
            is_normal(key@),
        ensures
            final(self)@ == (SourceModel {
                entries: table_set(old(self)@.entries, key@, value@),
                ..old(self)@
            }),
    {
        let mut entries = EntryTable::new();
        core::mem::swap(&mut entries, &mut self.entries);
        entries.put(key, value);
        proof {
            use_type_invariant(&entries);
        }
        self.entries = entries;
    }

    /// Removes every entry whose name is exactly `key` from the source's
    /// table and tells whether there was one.
    pub(crate) fn erase(&mut self, key: &[u8]) -> (removed: bool)
        ensures
            final(self)@ == (SourceModel {
                entries: table_remove(old(self)@.entries, key@),
                ..old(self)@
            }),
            removed == defines(old(self)@.entries, key@),
    {
        let mut entries = EntryTable::new();
        core::mem::swap(&mut entries, &mut self.entries);
        let removed = entries.erase(key);
        proof {
            use_type_invariant(&entries);
        }
        self.entries = entries;
        removed
    }
}

impl Clone for Source {
    /// A copy of the source.
    fn clone(&self) -> (copy: Source)
        ensures
            copy@ == self@,
    {
        let path: Option<String> = match &self.path {
            Some(p) => Some(p.clone()),
            None => None,
        };
        let entries = self.entries.clone();
        proof {
            use_type_invariant(&entries);
        }
        Source { path, level: self.level, force: self.force, entries }
    }
}

} // verus!

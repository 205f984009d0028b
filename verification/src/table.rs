//! The entry table of one source.
//!
//! A table holds (name, value) pairs in the order in which they were
//! written. A name may occur more than once; the last entry of a name is
//! the one that counts. Names are kept in normal form.

use vstd::prelude::*;
use crate::model::{EntryModel, defines, last_index, last_index_is, last_index_meaning, last_index_none, table_remove, table_set, table_wf};
use crate::name::{copy_bytes, is_normal, normalize, normalize_is_normal, normalized, same_bytes};

verus! {

/// A stored entry.
#[derive(Debug)]
struct Entry {
    name: Vec<u8>,
    value: Vec<u8>,
}

/// The entries of one source, in the order in which they were written.
#[derive(Debug)]
pub struct EntryTable {
    items: Vec<Entry>,
}

/// What a run of stored entries stands for.
spec fn models(items: Seq<Entry>) -> Seq<EntryModel> {
    Seq::new(items.len(), |i: int| EntryModel { name: items[i].name@, value: items[i].value@ })
}

impl View for EntryTable {
    type V = Seq<EntryModel>;

    closed spec fn view(&self) -> Seq<EntryModel> {
        models(self.items@)
    }
}

impl EntryTable {
    /// Every name of a table is in normal form. This holds of every table
    /// at all times.
    #[verifier::type_invariant]
    pub open spec fn wf(&self) -> bool {
        table_wf(self@)
    }

    /// A table without entries.
    pub fn new() -> (table: EntryTable)
        ensures
            table@ == Seq::<EntryModel>::empty(),
    {
        let items: Vec<Entry> = Vec::new();
        assert(models(items@) =~= Seq::<EntryModel>::empty());
        EntryTable { items }
    }

    /// The number of entries.
    pub fn len(&self) -> (n: usize)
        ensures
            n == self@.len(),
    {
        self.items.len()
    }

    /// The name of the entry at position `i`.
    pub fn name_at(&self, i: usize) -> (name: &[u8])
        requires
            i < self@.len(),
        ensures
            name@ == self@[i as int].name,
    {
        self.items[i].name.as_slice()
    }

    /// The value of the entry at position `i`.
    pub fn value_at(&self, i: usize) -> (value: &[u8])
        requires
            i < self@.len(),
        ensures
            value@ == self@[i as int].value,
    {
        self.items[i].value.as_slice()
    }

    /// Appends an entry. The name is stored in normal form.
    pub fn push(&mut self, name: &[u8], value: &[u8])
        ensures
            final(self)@ == old(self)@.push(
                EntryModel { name: normalize(name@), value: value@ },
            ),
    {
        proof {
            use_type_invariant(&*self);
            normalize_is_normal(name@);
        }
        let entry = Entry { name: normalized(name), value: copy_bytes(value) };
        let mut items: Vec<Entry> = Vec::new();
        core::mem::swap(&mut items, &mut self.items);
        items.push(entry);
        assert(models(items@) =~= old(self)@.push(
            EntryModel { name: normalize(name@), value: value@ },
        ));
        self.items = items;
    }

    /// The position of the last entry whose name is exactly `key`, if there
    /// is one.
    pub fn last_position(&self, key: &[u8]) -> (r: Option<usize>)
        ensures
            match r {
                Some(i) => last_index(self@, key@) == Some(i as int),
                None => last_index(self@, key@) is None,
            },
    {
        let mut i: usize = self.items.len();
        while i > 0
            invariant
                i <= self.items@.len(),
                self@.len() == self.items@.len(),
                forall|k: int| i <= k < self@.len() ==> (#[trigger] self@[k]).name != key@,
            decreases i,
        {
            i -= 1;
            if same_bytes(self.items[i].name.as_slice(), key) {
                proof {
                    last_index_is(self@, key@, i as int);
                }
                return Some(i);
            }
        }
        proof {
            last_index_none(self@, key@);
        }
        None
    }

    /// Writes `value` under `key`: the last entry of that name takes the
    /// value; without such an entry, a new one is appended.
    pub(crate) fn put(&mut self, key: Vec<u8>, value: Vec<u8>)
        requires
            is_normal(key@),
        ensures
            final(self)@ == table_set(old(self)@, key@, value@),
    {
        proof {
            use_type_invariant(&*self);
            last_index_meaning(self@, key@);
        }
        let found = self.last_position(key.as_slice());
        let mut items: Vec<Entry> = Vec::new();
        core::mem::swap(&mut items, &mut self.items);
        match found {
            Some(i) => {
                assert(models(items@).len() == items@.len());
                items[i] = Entry { name: key, value };
                assert(models(items@) =~= old(self)@.update(
                    i as int,
                    EntryModel { name: key@, value: value@ },
                ));
            },
            None => {
                items.push(Entry { name: key, value });
                assert(models(items@) =~= old(self)@.push(
                    EntryModel { name: key@, value: value@ },
                ));
            },
        }
        self.items = items;
    }

    /// Removes every entry whose name is exactly `key` and tells whether
    /// there was one.
    pub(crate) fn erase(&mut self, key: &[u8]) -> (removed: bool)
        ensures
            final(self)@ == table_remove(old(self)@, key@),
            removed == defines(old(self)@, key@),
    {
        proof {
            use_type_invariant(&*self);
        }
        let ghost before = self@;
        let ghost keep = |e: EntryModel| e.name != key@;
        let mut items: Vec<Entry> = Vec::new();
        core::mem::swap(&mut items, &mut self.items);
        let mut removed: bool = false;
        let mut i: usize = 0;
        let ghost mut seen: int = 0;
        proof {
            reveal(Seq::filter);
            assert(before.subrange(0, 0) =~= Seq::<EntryModel>::empty());
            assert(models(items@) =~= before.subrange(0, 0).filter(keep) + before.subrange(
                0,
                before.len() as int,
            ));
        }
        while i < items.len()
            invariant
                0 <= seen <= before.len(),
                keep == |e: EntryModel| e.name != key@,
                table_wf(models(items@)),
                i == before.subrange(0, seen).filter(keep).len(),
                models(items@) == before.subrange(0, seen).filter(keep) + before.subrange(
                    seen,
                    before.len() as int,
                ),
                removed <==> exists|k: int| 0 <= k < seen && (#[trigger] before[k]).name == key@,
            decreases before.len() - seen,
        {
            let ghost kept = before.subrange(0, seen).filter(keep);
            let ghost current = models(items@);
            proof {
                reveal(Seq::filter);
                assert(current.len() == items@.len());
                assert(seen < before.len());
                assert(current[i as int] == before[seen]);
                assert(before.subrange(0, seen + 1).drop_last() =~= before.subrange(0, seen));
                assert(before.subrange(0, seen + 1).last() == before[seen]);
            }
            if same_bytes(items[i].name.as_slice(), key) {
                items.remove(i);
                removed = true;
                proof {
                    let now = models(items@);
                    assert(now =~= current.remove(i as int));
                    assert forall|k: int| 0 <= k < now.len() implies is_normal(
                        (#[trigger] now[k]).name,
                    ) by {
                        if k < i {
                            assert(now[k] == current[k]);
                        } else {
                            assert(now[k] == current[k + 1]);
                        }
                    }
                    assert(now =~= kept + before.subrange(seen + 1, before.len() as int));
                    seen = seen + 1;
                }
            } else {
                i += 1;
                proof {
                    assert(current =~= kept.push(before[seen]) + before.subrange(
                        seen + 1,
                        before.len() as int,
                    ));
                    seen = seen + 1;
                }
            }
        }
        proof {
            assert(models(items@).len() == items@.len());
            assert(seen == before.len());
            assert(before.subrange(0, seen) =~= before);
            assert(models(items@) =~= before.filter(keep));
        }
        self.items = items;
        removed
    }
}

impl Clone for EntryTable {
    /// A copy of the table.
    fn clone(&self) -> (copy: EntryTable)
        ensures
            copy@ == self@,
    {
        proof {
            use_type_invariant(self);
        }
        let mut items: Vec<Entry> = Vec::new();
        let mut i: usize = 0;
        while i < self.items.len()
            invariant
                i <= self.items@.len(),
                items@.len() == i,
                forall|k: int|
                    0 <= k < i ==> (#[trigger] items@[k]).name@ == self.items@[k].name@
                        && items@[k].value@ == self.items@[k].value@,
            decreases self.items@.len() - i,
        {
            items.push(
                Entry {
                    name: copy_bytes(self.items[i].name.as_slice()),
                    value: copy_bytes(self.items[i].value.as_slice()),
                },
            );
            i += 1;
        }
        assert(models(items@) =~= self@);
        EntryTable { items }
    }
}

} // verus!

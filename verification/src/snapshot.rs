//! Snapshots: the resolved state of a store, fixed at one instant.
//!
//! A snapshot keeps, of every name that the store defines, the one entry
//! that the name resolved to when the snapshot was taken. It owns its
//! entries, so later writes to the store do not show in it.

use vstd::prelude::*;
use crate::config::{Config, ConfigEntries, ConfigEntry, pattern_of};
use crate::error::Error;
use crate::model::{EntryModel, ResolvedModel, SourceModel, defines, first_definer, last_index, last_index_meaning, resolve_in_first_definer, resolve_of_undefined, listing, lookup, read_bool, read_bytes, read_i32, read_i64, read_text, resolve, selected, store_wf, table_wf};
use crate::name::key_of;

verus! {

/// Whether entry `e` of source `s` is the entry that its name resolves to:
/// it is the last of its name in its source, and no source before `s`
/// defines the name.
pub open spec fn is_winner(store: Seq<SourceModel>, s: int, e: int) -> bool {
    &&& last_index(store[s].entries, store[s].entries[e].name) == Some(e)
    &&& first_definer(store, s, store[s].entries[e].name)
}

/// Of the first `upto` entries of source `s`, those that their names
/// resolve to, in their order.
pub open spec fn winners(store: Seq<SourceModel>, s: int, upto: int) -> Seq<EntryModel>
    decreases upto,
{
    if upto <= 0 {
        Seq::empty()
    } else if is_winner(store, s, upto - 1) {
        winners(store, s, upto - 1).push(store[s].entries[upto - 1])
    } else {
        winners(store, s, upto - 1)
    }
}

/// Source `s` of the store, reduced to the entries that their names resolve
/// to.
pub open spec fn frozen_source(store: Seq<SourceModel>, s: int) -> SourceModel {
    SourceModel { entries: winners(store, s, store[s].entries.len() as int), ..store[s] }
}

/// The resolved state of a store: every source reduced to the entries that
/// their names resolve to.
pub open spec fn frozen(store: Seq<SourceModel>) -> Seq<SourceModel> {
    Seq::new(store.len(), |s: int| frozen_source(store, s))
}

/// Whether no name occurs twice in the whole store.
pub open spec fn names_distinct(store: Seq<SourceModel>) -> bool {
    forall|s1: int, e1: int, s2: int, e2: int|
        0 <= s1 < store.len() && 0 <= e1 < store[s1].entries.len() && 0 <= s2 < store.len() && 0
            <= e2 < store[s2].entries.len() && #[trigger] store[s1].entries[e1].name
            == #[trigger] store[s2].entries[e2].name ==> s1 == s2 && e1 == e2
}

/// The position of the first source that defines `name`, or the number of
/// sources if none does.
proof fn least_definer(store: Seq<SourceModel>, name: Seq<u8>, upto: int) -> (s: int)
    requires
        0 <= upto <= store.len(),
    ensures
        0 <= s <= upto,
        first_definer(store, s, name),
        s < upto ==> defines(store[s].entries, name),
    decreases upto,
{
    if upto == 0 {
        0
    } else {
        let s = least_definer(store, name, upto - 1);
        if s < upto - 1 {
            s
        } else if defines(store[upto - 1].entries, name) {
            upto - 1
        } else {
            upto
        }
    }
}

/// What the reduced table of a source holds of one name: the entry that the
/// name resolves to, once, if that entry lies in this source and among the
/// entries looked at; else nothing.
pub proof fn winners_of_name(store: Seq<SourceModel>, s: int, upto: int, name: Seq<u8>)
    requires
        0 <= s < store.len(),
        0 <= upto <= store[s].entries.len(),
    ensures
        winners(store, s, upto).len() <= upto,
        forall|j1: int, j2: int|
            0 <= j1 < winners(store, s, upto).len() && 0 <= j2 < winners(store, s, upto).len() && (
            #[trigger] winners(store, s, upto)[j1]).name == name && (#[trigger] winners(
                store,
                s,
                upto,
            )[j2]).name == name ==> j1 == j2,
        match last_index(store[s].entries, name) {
            Some(e) => if e < upto && first_definer(store, s, name) {
                &&& last_index(winners(store, s, upto), name) matches Some(j)
                &&& winners(store, s, upto)[j] == store[s].entries[e]
            } else {
                !defines(winners(store, s, upto), name)
            },
            None => !defines(winners(store, s, upto), name),
        },
    decreases upto,
{
    let entries = store[s].entries;
    let w = winners(store, s, upto);
    last_index_meaning(entries, name);
    if upto > 0 {
        let before = winners(store, s, upto - 1);
        let x = entries[upto - 1];
        winners_of_name(store, s, upto - 1, name);
        last_index_meaning(before, name);
        if is_winner(store, s, upto - 1) {
            assert(w == before.push(x));
            assert(w.drop_last() =~= before);
            assert(w.last() == x);
            if x.name == name {
                assert(last_index(entries, name) == Some(upto - 1));
                assert(!defines(before, name));
                assert forall|j1: int, j2: int|
                    0 <= j1 < w.len() && 0 <= j2 < w.len() && (#[trigger] w[j1]).name == name && (
                    #[trigger] w[j2]).name == name implies j1 == j2 by {
                    if j1 < before.len() {
                        assert(before[j1].name == name);
                    }
                    if j2 < before.len() {
                        assert(before[j2].name == name);
                    }
                }
            } else {
                assert forall|j1: int, j2: int|
                    0 <= j1 < w.len() && 0 <= j2 < w.len() && (#[trigger] w[j1]).name == name && (
                    #[trigger] w[j2]).name == name implies j1 == j2 by {
                    assert(w[j1] == before[j1]);
                    assert(w[j2] == before[j2]);
                }
                match last_index(before, name) {
                    Some(j) => {
                        assert(w[j] == before[j]);
                    },
                    None => {
                        assert forall|k: int| 0 <= k < w.len() implies (#[trigger] w[k]).name
                            != name by {
                            if k < before.len() {
                                assert(w[k] == before[k]);
                            }
                        }
                    },
                }
            }
        } else {
            assert(w == before);
        }
    }
}

/// In the resolved state every name resolves to what it resolves to in the
/// store itself.
pub proof fn frozen_agrees(store: Seq<SourceModel>, name: Seq<u8>)
    ensures
        resolve(frozen(store), name) == resolve(store, name),
{
    let cold = frozen(store);
    let s = least_definer(store, name, store.len() as int);
    assert forall|k: int| 0 <= k < s implies !defines(#[trigger] cold[k].entries, name) by {
        winners_of_name(store, k, store[k].entries.len() as int, name);
        last_index_meaning(store[k].entries, name);
    }
    if s < store.len() {
        let n = store[s].entries.len() as int;
        winners_of_name(store, s, n, name);
        last_index_meaning(store[s].entries, name);
        last_index_meaning(cold[s].entries, name);
        resolve_in_first_definer(store, name, s);
        resolve_in_first_definer(cold, name, s);
    } else {
        resolve_of_undefined(store, name);
        resolve_of_undefined(cold, name);
    }
}

/// The resolved state of a well-formed store is well formed, and no name
/// occurs twice in it.
pub proof fn frozen_is_resolved(store: Seq<SourceModel>)
    requires
        store_wf(store),
    ensures
        store_wf(frozen(store)),
        names_distinct(frozen(store)),
{
    let cold = frozen(store);
    assert forall|i: int, j: int| 0 <= i < j < cold.len() implies (#[trigger] cold[i]).level.rank()
        >= (#[trigger] cold[j]).level.rank() by {
        assert(cold[i].level == store[i].level);
        assert(cold[j].level == store[j].level);
    }
    assert forall|i: int| 0 <= i < cold.len() implies table_wf(#[trigger] cold[i].entries) by {
        winners_are_entries(store, i, store[i].entries.len() as int);
        assert forall|j: int| 0 <= j < cold[i].entries.len() implies crate::name::is_normal(
            (#[trigger] cold[i].entries[j]).name,
        ) by {
            let e = choose|e: int|
                0 <= e < store[i].entries.len() && store[i].entries[e] == cold[i].entries[j];
            assert(crate::name::is_normal(store[i].entries[e].name));
        }
    }
    assert forall|s1: int, e1: int, s2: int, e2: int|
        0 <= s1 < cold.len() && 0 <= e1 < cold[s1].entries.len() && 0 <= s2 < cold.len() && 0 <= e2
            < cold[s2].entries.len() && #[trigger] cold[s1].entries[e1].name
            == #[trigger] cold[s2].entries[e2].name implies s1 == s2 && e1 == e2 by {
        let name = cold[s1].entries[e1].name;
        winners_of_name(store, s1, store[s1].entries.len() as int, name);
        winners_of_name(store, s2, store[s2].entries.len() as int, name);
        last_index_meaning(store[s1].entries, name);
        last_index_meaning(store[s2].entries, name);
        assert(defines(cold[s1].entries, name));
        assert(defines(cold[s2].entries, name));
        assert(defines(store[s1].entries, name));
        assert(defines(store[s2].entries, name));
    }
}

/// Every entry of the reduced table of a source is an entry of the source.
proof fn winners_are_entries(store: Seq<SourceModel>, s: int, upto: int)
    requires
        0 <= s < store.len(),
        0 <= upto <= store[s].entries.len(),
    ensures
        forall|j: int|
            0 <= j < winners(store, s, upto).len() ==> exists|e: int|
                0 <= e < upto && store[s].entries[e] == #[trigger] winners(store, s, upto)[j],
    decreases upto,
{
    if upto > 0 {
        winners_are_entries(store, s, upto - 1);
        let before = winners(store, s, upto - 1);
        let w = winners(store, s, upto);
        assert forall|j: int| 0 <= j < w.len() implies exists|e: int|
            0 <= e < upto && store[s].entries[e] == #[trigger] w[j] by {
            if j < before.len() {
                assert(w[j] == before[j]);
                let e = choose|e: int| 0 <= e < upto - 1 && store[s].entries[e] == before[j];
                assert(0 <= e < upto && store[s].entries[e] == w[j]);
            } else {
                assert(store[s].entries[upto - 1] == w[j]);
            }
        }
    }
}

/// The resolved state of a store at the instant the snapshot was taken.
/// It can be read like a store and cannot be written.
#[derive(Debug)]
pub struct Snapshot {
    store: Config,
}

impl View for Snapshot {
    type V = Seq<SourceModel>;

    closed spec fn view(&self) -> Seq<SourceModel> {
        self.store@
    }
}

impl Snapshot {
    /// A snapshot is a well-formed store in which no name occurs twice.
    /// This holds of every snapshot at all times.
    #[verifier::type_invariant]
    pub open spec fn wf(&self) -> bool {
        store_wf(self@) && names_distinct(self@)
    }

    /// Makes a snapshot of a store that holds resolved entries only.
    pub(crate) fn seal(store: Config) -> (snap: Snapshot)
        requires
            names_distinct(store@),
        ensures
            snap@ == store@,
    {
        proof {
            use_type_invariant(&store);
        }
        Snapshot { store }
    }

    /// Looks a variable up and returns its entry.
    pub fn get_entry(&self, name: &str) -> (r: Result<ConfigEntry<'_>, Error>)
        ensures
            match r {
                Ok(e) => lookup(self@, key_of(name)) == Ok::<ResolvedModel, Error>(e@),
                Err(e) => lookup(self@, key_of(name)) == Err::<ResolvedModel, Error>(e),
            },
    {
        self.store.get_entry(name)
    }

    /// The value of a variable as bytes.
    pub fn get_bytes(&self, name: &str) -> (r: Result<&[u8], Error>)
        ensures
            match r {
                Ok(v) => read_bytes(self@, key_of(name)) == Ok::<Seq<u8>, Error>(v@),
                Err(e) => read_bytes(self@, key_of(name)) == Err::<Seq<u8>, Error>(e),
            },
    {
        self.store.get_bytes(name)
    }

    /// The value of a variable as text.
    pub fn get_str(&self, name: &str) -> (r: Result<&str, Error>)
        ensures
            match r {
                Ok(v) => read_text(self@, key_of(name)) == Ok::<Seq<char>, Error>(v@),
                Err(e) => read_text(self@, key_of(name)) == Err::<Seq<char>, Error>(e),
            },
    {
        self.store.get_str(name)
    }

    /// The value of a variable as a boolean.
    pub fn get_bool(&self, name: &str) -> (r: Result<bool, Error>)
        ensures
            r == read_bool(self@, key_of(name)),
    {
        self.store.get_bool(name)
    }

    /// The value of a variable as a 32-bit integer.
    pub fn get_i32(&self, name: &str) -> (r: Result<i32, Error>)
        ensures
            r == read_i32(self@, key_of(name)),
    {
        self.store.get_i32(name)
    }

    /// The value of a variable as a 64-bit integer.
    pub fn get_i64(&self, name: &str) -> (r: Result<i64, Error>)
        ensures
            r == read_i64(self@, key_of(name)),
    {
        self.store.get_i64(name)
    }

    /// A pass over the entries of the snapshot, in the order of the store
    /// it was taken from, optionally restricted to the names that match a
    /// pattern.
    pub fn entries(&self, glob: Option<&str>) -> (r: Result<ConfigEntries<'_>, Error>)
        ensures
            r matches Ok(pass) && pass.pattern() == pattern_of(glob) && pass.remaining()
                == selected(listing(self@), pattern_of(glob)),
    {
        self.store.entries(glob)
    }
}

impl Clone for Snapshot {
    /// A copy of the snapshot.
    fn clone(&self) -> (copy: Snapshot)
        ensures
            copy@ == self@,
    {
        let store = self.store.clone();
        proof {
            use_type_invariant(self);
            use_type_invariant(&store);
        }
        Snapshot { store }
    }
}

} // verus!

//! The mathematical model of a configuration store.
//!
//! A store is a sequence of sources, the most authoritative first. A source
//! is a level and a table of entries in the order in which they were
//! written. The functions of this module say what a store means: which
//! entry a name resolves to, what a write changes, and what a listing shows.

use vstd::prelude::*;
use crate::error::Error;
use crate::glob::glob_accepts;
use crate::level::ConfigLevel;
use crate::name::is_normal;
use crate::value::{bool_reading, i32_reading, i64_reading, text_reading};

verus! {

/// One entry of a table: a name and the bytes of its value.
pub struct EntryModel {
    pub name: Seq<u8>,
    pub value: Seq<u8>,
}

/// One source: where it came from, its level, whether it was added with
/// force, and its entries in the order in which they were written.
pub struct SourceModel {
    pub path: Option<Seq<char>>,
    pub level: ConfigLevel,
    pub force: bool,
    pub entries: Seq<EntryModel>,
}

/// An entry as a lookup or a listing shows it: name, value, and the level
/// of the source that holds it.
pub struct ResolvedModel {
    pub name: Seq<u8>,
    pub value: Seq<u8>,
    pub level: ConfigLevel,
}

/// Whether every name of a table is in normal form.
pub open spec fn table_wf(entries: Seq<EntryModel>) -> bool {
    forall|i: int| 0 <= i < entries.len() ==> is_normal(#[trigger] entries[i].name)
}

/// Whether a table holds an entry named `name`.
pub open spec fn defines(entries: Seq<EntryModel>, name: Seq<u8>) -> bool {
    exists|i: int| 0 <= i < entries.len() && #[trigger] entries[i].name == name
}

/// The position of the last entry named `name`, if the table holds one.
pub open spec fn last_index(entries: Seq<EntryModel>, name: Seq<u8>) -> Option<int>
    decreases entries.len(),
{
    if entries.len() == 0 {
        None
    } else if entries.last().name == name {
        Some(entries.len() - 1)
    } else {
        last_index(entries.drop_last(), name)
    }
}

/// The table after writing `value` under `name`: the last entry of that name
/// takes the value; without such an entry, a new one is appended.
pub open spec fn table_set(entries: Seq<EntryModel>, name: Seq<u8>, value: Seq<u8>) -> Seq<
    EntryModel,
> {
    match last_index(entries, name) {
        Some(i) => entries.update(i, EntryModel { name, value }),
        None => entries.push(EntryModel { name, value }),
    }
}

/// The table without its entries named `name`; the others keep their order.
pub open spec fn table_remove(entries: Seq<EntryModel>, name: Seq<u8>) -> Seq<EntryModel> {
    entries.filter(|e: EntryModel| e.name != name)
}

/// Whether the sources stand in order of authority: none is followed by one
/// of a higher level.
pub open spec fn ordered(store: Seq<SourceModel>) -> bool {
    forall|i: int, j: int|
        0 <= i < j < store.len() ==> (#[trigger] store[i]).level.rank() >= (
        #[trigger] store[j]).level.rank()
}

/// Whether a store is well formed: its sources are in order of authority and
/// all names are in normal form.
pub open spec fn store_wf(store: Seq<SourceModel>) -> bool {
    &&& ordered(store)
    &&& forall|i: int| 0 <= i < store.len() ==> table_wf(#[trigger] store[i].entries)
}

/// The entry that `name` resolves to: in the first source that defines the
/// name, the last entry of that name.
pub open spec fn resolve(store: Seq<SourceModel>, name: Seq<u8>) -> Option<ResolvedModel>
    decreases store.len(),
{
    if store.len() == 0 {
        None
    } else {
        match last_index(store[0].entries, name) {
            Some(i) => Some(
                ResolvedModel { name, value: store[0].entries[i].value, level: store[0].level },
            ),
            None => resolve(store.drop_first(), name),
        }
    }
}

/// Whether no source before position `s` defines `name`.
pub open spec fn first_definer(store: Seq<SourceModel>, s: int, name: Seq<u8>) -> bool {
    forall|k: int| 0 <= k < s ==> !defines(#[trigger] store[k].entries, name)
}

/// What a lookup of `name` yields: the entry it resolves to, or `NotFound`.
pub open spec fn lookup(store: Seq<SourceModel>, name: Seq<u8>) -> Result<ResolvedModel, Error> {
    match resolve(store, name) {
        Some(e) => Ok(e),
        None => Err(Error::NotFound),
    }
}

/// What a read of the raw bytes of `name` yields.
pub open spec fn read_bytes(store: Seq<SourceModel>, name: Seq<u8>) -> Result<Seq<u8>, Error> {
    match resolve(store, name) {
        Some(e) => Ok(e.value),
        None => Err(Error::NotFound),
    }
}

/// What a read of `name` as a boolean yields.
pub open spec fn read_bool(store: Seq<SourceModel>, name: Seq<u8>) -> Result<bool, Error> {
    match resolve(store, name) {
        Some(e) => bool_reading(e.value),
        None => Err(Error::NotFound),
    }
}

/// What a read of `name` as a 32-bit integer yields.
pub open spec fn read_i32(store: Seq<SourceModel>, name: Seq<u8>) -> Result<i32, Error> {
    match resolve(store, name) {
        Some(e) => i32_reading(e.value),
        None => Err(Error::NotFound),
    }
}

/// What a read of `name` as a 64-bit integer yields.
pub open spec fn read_i64(store: Seq<SourceModel>, name: Seq<u8>) -> Result<i64, Error> {
    match resolve(store, name) {
        Some(e) => i64_reading(e.value),
        None => Err(Error::NotFound),
    }
}

/// What a read of `name` as text yields.
pub open spec fn read_text(store: Seq<SourceModel>, name: Seq<u8>) -> Result<Seq<char>, Error> {
    match resolve(store, name) {
        Some(e) => text_reading(e.value),
        None => Err(Error::NotFound),
    }
}

/// Whether the store holds a source of that level that came from that path.
pub open spec fn has_source(store: Seq<SourceModel>, path: Option<Seq<char>>, level: ConfigLevel) -> bool {
    exists|i: int| 0 <= i < store.len() && (#[trigger] store[i]).level == level && store[i].path == path
}

/// Where a new source of level `level` goes: behind the sources of a higher
/// level and before all others, so that it takes precedence over the
/// sources of its own level that are already there.
pub open spec fn insert_position(store: Seq<SourceModel>, level: ConfigLevel) -> int
    decreases store.len(),
{
    if store.len() == 0 || store[0].level.rank() <= level.rank() {
        0
    } else {
        1 + insert_position(store.drop_first(), level)
    }
}

/// The store after adding a source.
pub open spec fn with_source(store: Seq<SourceModel>, source: SourceModel) -> Seq<SourceModel> {
    store.insert(insert_position(store, source.level), source)
}

/// The sources of exactly one level, in their order.
pub open spec fn at_level(store: Seq<SourceModel>, level: ConfigLevel) -> Seq<SourceModel> {
    store.filter(|s: SourceModel| s.level == level)
}

/// The store after writing `value` under `name`: the write lands in the
/// first source. A store without sources is left as it is.
pub open spec fn store_set(store: Seq<SourceModel>, name: Seq<u8>, value: Seq<u8>) -> Seq<
    SourceModel,
> {
    if store.len() == 0 {
        store
    } else {
        store.update(
            0,
            SourceModel { entries: table_set(store[0].entries, name, value), ..store[0] },
        )
    }
}

/// The store after removing `name` from its first source.
pub open spec fn store_remove(store: Seq<SourceModel>, name: Seq<u8>) -> Seq<SourceModel> {
    if store.len() == 0 {
        store
    } else {
        store.update(0, SourceModel { entries: table_remove(store[0].entries, name), ..store[0] })
    }
}

/// The entries of one source as a listing shows them.
pub open spec fn source_listing(source: SourceModel) -> Seq<ResolvedModel> {
    Seq::new(
        source.entries.len(),
        |i: int|
            ResolvedModel {
                name: source.entries[i].name,
                value: source.entries[i].value,
                level: source.level,
            },
    )
}

/// The entries of the sources from position `from` on, source by source and
/// within a source in the order in which they were written.
pub open spec fn listing_from(store: Seq<SourceModel>, from: int) -> Seq<ResolvedModel>
    decreases store.len() - from,
{
    if from < 0 || from >= store.len() {
        Seq::empty()
    } else {
        source_listing(store[from]) + listing_from(store, from + 1)
    }
}

/// All entries of a store, the most authoritative source first.
pub open spec fn listing(store: Seq<SourceModel>) -> Seq<ResolvedModel> {
    listing_from(store, 0)
}

/// The entries of a listing whose names pass the pattern, in their order.
pub open spec fn selected(items: Seq<ResolvedModel>, pattern: Option<Seq<u8>>) -> Seq<ResolvedModel> {
    items.filter(|e: ResolvedModel| glob_accepts(pattern, e.name))
}

/// Filtering a sequence of one element keeps the element if it passes and
/// nothing if it does not.
pub proof fn filter_of_one<A>(x: A, pred: spec_fn(A) -> bool)
    ensures
        seq![x].filter(pred) == if pred(x) {
            seq![x]
        } else {
            Seq::<A>::empty()
        },
{
    let one = seq![x];
    reveal(Seq::filter);
    assert(one.drop_last() =~= Seq::<A>::empty());
    assert(one.drop_last().filter(pred) =~= Seq::<A>::empty());
    assert(one.last() == x);
    if pred(x) {
        assert(one.filter(pred) =~= one);
    } else {
        assert(one.filter(pred) =~= Seq::<A>::empty());
    }
}

/// The position at which a new source goes is the one behind all sources of
/// a higher level and before all others.
pub proof fn insert_position_is(store: Seq<SourceModel>, level: ConfigLevel, p: int)
    requires
        0 <= p <= store.len(),
        forall|k: int| 0 <= k < p ==> (#[trigger] store[k]).level.rank() > level.rank(),
        p < store.len() ==> store[p].level.rank() <= level.rank(),
    ensures
        insert_position(store, level) == p,
    decreases store.len(),
{
    if p > 0 {
        let rest = store.drop_first();
        assert(store[0].level.rank() > level.rank());
        assert forall|k: int| 0 <= k < p - 1 implies (#[trigger] rest[k]).level.rank()
            > level.rank() by {
            assert(rest[k] == store[k + 1]);
        }
        insert_position_is(rest, level, p - 1);
    }
}

/// Where a new source goes, and that a well-formed store stays well formed
/// when a source with a well-formed table is added.
pub proof fn with_source_keeps_order(store: Seq<SourceModel>, source: SourceModel)
    requires
        store_wf(store),
        table_wf(source.entries),
    ensures
        0 <= insert_position(store, source.level) <= store.len(),
        forall|k: int|
            0 <= k < insert_position(store, source.level) ==> (#[trigger] store[k]).level.rank()
                > source.level.rank(),
        insert_position(store, source.level) < store.len() ==> store[insert_position(
            store,
            source.level,
        )].level.rank() <= source.level.rank(),
        store_wf(with_source(store, source)),
    decreases store.len(),
{
    let level = source.level;
    let p = insert_position(store, level);
    if store.len() > 0 && store[0].level.rank() > level.rank() {
        let rest = store.drop_first();
        assert forall|i: int, j: int| 0 <= i < j < rest.len() implies (#[trigger] rest[i]).level.rank()
            >= (#[trigger] rest[j]).level.rank() by {
            assert(rest[i] == store[i + 1]);
            assert(rest[j] == store[j + 1]);
        }
        assert forall|i: int| 0 <= i < rest.len() implies table_wf(#[trigger] rest[i].entries) by {
            assert(rest[i] == store[i + 1]);
        }
        with_source_keeps_order(rest, source);
        assert forall|k: int| 0 <= k < p implies (#[trigger] store[k]).level.rank()
            > level.rank() by {
            if k > 0 {
                assert(store[k] == rest[k - 1]);
            }
        }
        if p < store.len() {
            assert(store[p] == rest[p - 1]);
        }
    }
    let after = with_source(store, source);
    assert forall|i: int, j: int| 0 <= i < j < after.len() implies (#[trigger] after[i]).level.rank()
        >= (#[trigger] after[j]).level.rank() by {
        let a = if i < p { store[i] } else if i == p { source } else { store[i - 1] };
        let b = if j < p { store[j] } else if j == p { source } else { store[j - 1] };
        assert(after[i] == a);
        assert(after[j] == b);
        if j > p && p < store.len() {
            assert(store[p].level.rank() >= store[j - 1].level.rank() || j - 1 == p);
        }
    }
    assert forall|i: int| 0 <= i < after.len() implies table_wf(#[trigger] after[i].entries) by {
        let a = if i < p { store[i] } else if i == p { source } else { store[i - 1] };
        assert(after[i] == a);
    }
}

/// What `last_index` finds: the entry at the position it gives has the name
/// and no later entry has it; it gives none exactly when the table does not
/// define the name.
pub proof fn last_index_meaning(entries: Seq<EntryModel>, name: Seq<u8>)
    ensures
        match last_index(entries, name) {
            Some(i) => {
                &&& 0 <= i < entries.len()
                &&& entries[i].name == name
                &&& forall|k: int| i < k < entries.len() ==> (#[trigger] entries[k]).name != name
            },
            None => forall|k: int| 0 <= k < entries.len() ==> (#[trigger] entries[k]).name != name,
        },
        last_index(entries, name) is Some <==> defines(entries, name),
    decreases entries.len(),
{
    if entries.len() > 0 {
        let rest = entries.drop_last();
        last_index_meaning(rest, name);
        if entries.last().name != name {
            match last_index(rest, name) {
                Some(i) => {
                    assert(entries[i] == rest[i]);
                    assert forall|k: int| i < k < entries.len() implies (#[trigger] entries[k]).name
                        != name by {
                        if k < rest.len() {
                            assert(entries[k] == rest[k]);
                        }
                    }
                },
                None => {
                    assert forall|k: int| 0 <= k < entries.len() implies (#[trigger] entries[k]).name
                        != name by {
                        if k < rest.len() {
                            assert(entries[k] == rest[k]);
                        }
                    }
                },
            }
        }
    }
}

/// The position that `last_index` gives is the only one with these two
/// conditions: it holds the name, and no later position does.
pub proof fn last_index_is(entries: Seq<EntryModel>, name: Seq<u8>, i: int)
    requires
        0 <= i < entries.len(),
        entries[i].name == name,
        forall|k: int| i < k < entries.len() ==> (#[trigger] entries[k]).name != name,
    ensures
        last_index(entries, name) == Some(i),
{
    last_index_meaning(entries, name);
}

/// A table that does not hold the name has no last entry of that name.
pub proof fn last_index_none(entries: Seq<EntryModel>, name: Seq<u8>)
    requires
        forall|k: int| 0 <= k < entries.len() ==> (#[trigger] entries[k]).name != name,
    ensures
        last_index(entries, name) is None,
{
    last_index_meaning(entries, name);
}

/// A name resolves to the last entry of that name in the first source that
/// defines it.
pub proof fn resolve_in_first_definer(store: Seq<SourceModel>, name: Seq<u8>, s: int)
    requires
        0 <= s < store.len(),
        first_definer(store, s, name),
        defines(store[s].entries, name),
    ensures
        last_index(store[s].entries, name) is Some,
        resolve(store, name) == Some(
            ResolvedModel {
                name,
                value: store[s].entries[last_index(store[s].entries, name)->0].value,
                level: store[s].level,
            },
        ),
    decreases s,
{
    last_index_meaning(store[s].entries, name);
    last_index_meaning(store[0].entries, name);
    if s > 0 {
        let rest = store.drop_first();
        assert(!defines(store[0].entries, name));
        assert(rest[s - 1] == store[s]);
        assert forall|k: int| 0 <= k < s - 1 implies !defines(#[trigger] rest[k].entries, name) by {
            assert(rest[k] == store[k + 1]);
        }
        resolve_in_first_definer(rest, name, s - 1);
    }
}

/// A name that no source defines resolves to nothing.
pub proof fn resolve_of_undefined(store: Seq<SourceModel>, name: Seq<u8>)
    requires
        first_definer(store, store.len() as int, name),
    ensures
        resolve(store, name) is None,
    decreases store.len(),
{
    if store.len() > 0 {
        let rest = store.drop_first();
        last_index_meaning(store[0].entries, name);
        assert(!defines(store[0].entries, name));
        assert forall|k: int| 0 <= k < rest.len() implies !defines(#[trigger] rest[k].entries, name) by {
            assert(rest[k] == store[k + 1]);
        }
        resolve_of_undefined(rest, name);
    }
}

} // verus!

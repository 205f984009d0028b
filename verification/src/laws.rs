//! Laws of the configuration store.
//!
//! Each law relates several operations of the store. The laws are stated
//! over the model of the store, the same model in which the contracts of
//! the operations are written, so that a law about `store_set` is a law
//! about `Config::set_bool` and its kin.

use vstd::prelude::*;
use vstd::utf8::encode_utf8;
use crate::error::Error;
use crate::glob::glob_accepts;
use crate::level::ConfigLevel;
use crate::model::{EntryModel, ResolvedModel, SourceModel, at_level, defines, filter_of_one, first_definer, insert_position, insert_position_is, last_index, last_index_is, last_index_meaning, lookup, ordered, read_bool, read_i32, read_i64, read_text, resolve, resolve_in_first_definer, resolve_of_undefined, selected, store_remove, store_set, store_wf, table_remove, table_set, table_wf, with_source, with_source_keeps_order};
use crate::snapshot::{frozen, frozen_agrees};
use crate::value::{bool_text, bool_text_round_trip, i32_reading, int_text, int_text_round_trip, text_round_trip};

verus! {

/// After a write under a name, the table's last entry of that name holds
/// the written value; of every other name the table holds what it held.
pub proof fn table_set_effect(entries: Seq<EntryModel>, name: Seq<u8>, value: Seq<u8>, other: Seq<u8>)
    ensures
        last_index(table_set(entries, name, value), name) matches Some(i) && table_set(
            entries,
            name,
            value,
        )[i].value == value,
        other != name ==> match last_index(table_set(entries, name, value), other) {
            Some(j) => last_index(entries, other) == Some(j) && table_set(entries, name, value)[j].value
                == entries[j].value,
            None => last_index(entries, other) is None,
        },
{
    let after = table_set(entries, name, value);
    last_index_meaning(entries, name);
    last_index_meaning(entries, other);
    last_index_meaning(after, name);
    last_index_meaning(after, other);
    match last_index(entries, name) {
        Some(i) => {
            assert(after[i].name == name);
            assert forall|k: int| 0 <= k < after.len() && k != i implies after[k] == entries[k] by {}
            if last_index(after, name) != Some(i) {
                let j = last_index(after, name)->0;
                assert(after[j] == entries[j]);
            }
            if other != name {
                match last_index(after, other) {
                    Some(j) => {
                        assert(after[j] == entries[j]);
                        assert forall|k: int| j < k < entries.len() implies (#[trigger] entries[k]).name
                            != other by {
                            assert(after[k].name != other);
                        }
                        last_index_is(entries, other, j);
                    },
                    None => {
                        assert forall|k: int| 0 <= k < entries.len() implies (#[trigger] entries[k]).name
                            != other by {
                            assert(after[k].name != other);
                        }
                    },
                }
            }
        },
        None => {
            assert(after.last().name == name);
            assert(after.drop_last() =~= entries);
        },
    }
}

/// After a name is removed from a table, the table does not define it; of
/// every other name the table's last entry holds the value it held.
pub proof fn table_remove_effect(entries: Seq<EntryModel>, name: Seq<u8>, other: Seq<u8>)
    ensures
        !defines(table_remove(entries, name), name),
        other != name ==> match last_index(table_remove(entries, name), other) {
            Some(j) => last_index(entries, other) matches Some(i) && table_remove(entries, name)[j].value
                == entries[i].value,
            None => last_index(entries, other) is None,
        },
    decreases entries.len(),
{
    let after = table_remove(entries, name);
    reveal(Seq::filter);
    if entries.len() > 0 {
        let rest = entries.drop_last();
        let last = entries.last();
        table_remove_effect(rest, name, other);
        let rest_after = table_remove(rest, name);
        last_index_meaning(rest, other);
        last_index_meaning(rest_after, other);
        if last.name == name {
            assert(after == rest_after);
            if other != name {
                if let Some(i) = last_index(rest, other) {
                    assert(entries[i] == rest[i]);
                }
            }
        } else {
            assert(after == rest_after.push(last));
            assert(after.drop_last() =~= rest_after);
            assert(after.last() == last);
            assert forall|k: int| 0 <= k < after.len() implies (#[trigger] after[k]).name != name by {
                if k < rest_after.len() {
                    assert(after[k] == rest_after[k]);
                }
            }
            if other != name && last.name != other {
                if let Some(j) = last_index(rest_after, other) {
                    assert(after[j] == rest_after[j]);
                }
                if let Some(i) = last_index(rest, other) {
                    assert(entries[i] == rest[i]);
                }
            }
        }
    }
}

/// Writing the first source of a store changes nothing behind it.
proof fn rest_after_write(store: Seq<SourceModel>, first: SourceModel)
    requires
        store.len() > 0,
    ensures
        store.update(0, first).drop_first() == store.drop_first(),
        store.update(0, first)[0] == first,
{
    assert(store.update(0, first).drop_first() =~= store.drop_first());
}

/// A lookup fails exactly when no source defines the name, and then with
/// `NotFound`: a name that some source defines is always found.
pub proof fn undefined_name_is_not_found(store: Seq<SourceModel>, name: Seq<u8>)
    ensures
        (forall|k: int| 0 <= k < store.len() ==> !defines(#[trigger] store[k].entries, name))
            <==> lookup(store, name) == Err::<ResolvedModel, Error>(Error::NotFound),
        lookup(store, name) is Err <==> resolve(store, name) is None,
{
    if forall|k: int| 0 <= k < store.len() ==> !defines(#[trigger] store[k].entries, name) {
        resolve_of_undefined(store, name);
    } else {
        let s = choose|s: int| 0 <= s < store.len() && defines(#[trigger] store[s].entries, name);
        let first = first_position(store, name, s);
        resolve_in_first_definer(store, name, first);
    }
}

/// After a write, the name resolves to the written value, at the level of
/// the first source.
pub proof fn write_then_read(store: Seq<SourceModel>, name: Seq<u8>, value: Seq<u8>)
    requires
        store.len() > 0,
    ensures
        resolve(store_set(store, name, value), name) == Some(
            ResolvedModel { name, value, level: store[0].level },
        ),
{
    table_set_effect(store[0].entries, name, value, name);
}

/// A write under one name does not change what another name resolves to.
pub proof fn write_keeps_other_names(store: Seq<SourceModel>, name: Seq<u8>, value: Seq<u8>, other: Seq<u8>)
    requires
        other != name,
    ensures
        resolve(store_set(store, name, value), other) == resolve(store, other),
{
    if store.len() > 0 {
        let first = SourceModel { entries: table_set(store[0].entries, name, value), ..store[0] };
        table_set_effect(store[0].entries, name, value, other);
        rest_after_write(store, first);
    }
}

/// A write changes the first source only, and of that source only the
/// table: its level, its path and every other source stay as they are.
pub proof fn write_touches_first_source_only(store: Seq<SourceModel>, name: Seq<u8>, value: Seq<u8>)
    requires
        store.len() > 0,
    ensures
        store_set(store, name, value).len() == store.len(),
        store_set(store, name, value)[0].level == store[0].level,
        store_set(store, name, value)[0].path == store[0].path,
        store_set(store, name, value)[0].force == store[0].force,
        forall|k: int| 1 <= k < store.len() ==> store_set(store, name, value)[k] == store[k],
{
}

/// A source that is added takes precedence over the sources of its own
/// level and of lower levels: a name that it defines, and that no source of
/// a higher level defines, resolves to its entry.
pub proof fn added_source_shadows(store: Seq<SourceModel>, source: SourceModel, name: Seq<u8>)
    requires
        store_wf(store),
        table_wf(source.entries),
        defines(source.entries, name),
        forall|k: int|
            0 <= k < store.len() && defines(#[trigger] store[k].entries, name) ==> store[k].level.rank()
                <= source.level.rank(),
    ensures
        resolve(with_source(store, source), name) == Some(
            ResolvedModel {
                name,
                value: source.entries[last_index(source.entries, name)->0].value,
                level: source.level,
            },
        ),
{
    let p = insert_position(store, source.level);
    let after = with_source(store, source);
    with_source_keeps_order(store, source);
    assert(after[p] == source);
    assert forall|k: int| 0 <= k < p implies !defines(#[trigger] after[k].entries, name) by {
        assert(after[k] == store[k]);
    }
    resolve_in_first_definer(after, name, p);
}

/// When several sources define a name, the name resolves to an entry of a
/// source whose level is at least as high as that of any source that
/// defines it: the higher level wins.
pub proof fn higher_level_wins(store: Seq<SourceModel>, name: Seq<u8>, s: int)
    requires
        ordered(store),
        0 <= s < store.len(),
        defines(store[s].entries, name),
    ensures
        resolve(store, name) matches Some(e) && e.level.rank() >= store[s].level.rank(),
{
    let first = first_position(store, name, s);
    resolve_in_first_definer(store, name, first);
}

/// The position of the first source that defines a name, given one that
/// does.
proof fn first_position(store: Seq<SourceModel>, name: Seq<u8>, s: int) -> (first: int)
    requires
        0 <= s < store.len(),
        defines(store[s].entries, name),
    ensures
        0 <= first <= s,
        defines(store[first].entries, name),
        first_definer(store, first, name),
    decreases s,
{
    if exists|k: int| 0 <= k < s && defines(#[trigger] store[k].entries, name) {
        let k = choose|k: int| 0 <= k < s && defines(#[trigger] store[k].entries, name);
        first_position(store, name, k)
    } else {
        s
    }
}

/// Of two sources that define a name, the one of the strictly higher level
/// supplies the value, whatever the order in which the two were added: in a
/// well-formed store it stands first.
pub proof fn higher_of_two_wins(low: SourceModel, high: SourceModel, name: Seq<u8>)
    requires
        low.level.rank() < high.level.rank(),
        defines(low.entries, name),
        defines(high.entries, name),
    ensures
        with_source(seq![low], high) == seq![high, low],
        with_source(seq![high], low) == seq![high, low],
        resolve(seq![high, low], name) matches Some(e) && e.level == high.level && e.value
            == high.entries[last_index(high.entries, name)->0].value,
{
    let both = seq![high, low];
    assert(seq![low].drop_first() =~= Seq::<SourceModel>::empty());
    assert(seq![high].drop_first() =~= Seq::<SourceModel>::empty());
    insert_position_is(seq![low], high.level, 0);
    insert_position_is(seq![high], low.level, 1);
    assert(with_source(seq![low], high) =~= both);
    assert(with_source(seq![high], low) =~= both);
    resolve_in_first_definer(both, name, 0);
}

/// After a name is removed, it resolves to what the sources behind the
/// first one say of it.
pub proof fn remove_uncovers_lower_sources(store: Seq<SourceModel>, name: Seq<u8>)
    requires
        store.len() > 0,
    ensures
        resolve(store_remove(store, name), name) == resolve(store.drop_first(), name),
{
    let first = SourceModel { entries: table_remove(store[0].entries, name), ..store[0] };
    table_remove_effect(store[0].entries, name, name);
    last_index_meaning(first.entries, name);
    rest_after_write(store, first);
}

/// After a name is removed from a store in which only the first source
/// defined it, the name is not found.
pub proof fn remove_then_not_found(store: Seq<SourceModel>, name: Seq<u8>)
    requires
        store.len() > 0,
        forall|k: int| 1 <= k < store.len() ==> !defines(#[trigger] store[k].entries, name),
    ensures
        lookup(store_remove(store, name), name) == Err::<ResolvedModel, Error>(Error::NotFound),
{
    remove_uncovers_lower_sources(store, name);
    let rest = store.drop_first();
    assert forall|k: int| 0 <= k < rest.len() implies !defines(#[trigger] rest[k].entries, name) by {
        assert(rest[k] == store[k + 1]);
    }
    resolve_of_undefined(rest, name);
}

/// A removal changes the first source only: every other source stays as it
/// is, and so does the view of every level but that of the first source.
pub proof fn remove_leaves_other_sources(store: Seq<SourceModel>, name: Seq<u8>, level: ConfigLevel)
    requires
        store.len() > 0,
    ensures
        store_remove(store, name).len() == store.len(),
        forall|k: int| 1 <= k < store.len() ==> store_remove(store, name)[k] == store[k],
        level != store[0].level ==> at_level(store_remove(store, name), level) == at_level(
            store,
            level,
        ),
{
    let after = store_remove(store, name);
    if level != store[0].level {
        let keep = |s: SourceModel| s.level == level;
        let rest = store.drop_first();
        assert(store =~= seq![store[0]] + rest);
        assert(after =~= seq![after[0]] + rest);
        Seq::filter_distributes_over_add(seq![store[0]], rest, keep);
        Seq::filter_distributes_over_add(seq![after[0]], rest, keep);
        filter_of_one(store[0], keep);
        filter_of_one(after[0], keep);
    }
}

/// A removal does not change what another name resolves to.
pub proof fn remove_keeps_other_names(store: Seq<SourceModel>, name: Seq<u8>, other: Seq<u8>)
    requires
        other != name,
    ensures
        resolve(store_remove(store, name), other) == resolve(store, other),
{
    if store.len() > 0 {
        let first = SourceModel { entries: table_remove(store[0].entries, name), ..store[0] };
        table_remove_effect(store[0].entries, name, other);
        rest_after_write(store, first);
    }
}

/// A snapshot shows of every name what the store showed when the snapshot
/// was taken. A later write to the store changes what the store shows of
/// the written name, and not what the snapshot shows.
pub proof fn snapshot_outlives_write(store: Seq<SourceModel>, name: Seq<u8>, value: Seq<u8>, read: Seq<u8>)
    requires
        store.len() > 0,
    ensures
        resolve(frozen(store), read) == resolve(store, read),
        resolve(store_set(store, name, value), name) == Some(
            ResolvedModel { name, value, level: store[0].level },
        ),
{
    frozen_agrees(store, read);
    write_then_read(store, name, value);
}

/// A selection from a listing holds exactly the entries whose names pass
/// the pattern: every selected entry passes and comes from the listing,
/// and every entry of the listing that passes is selected.
pub proof fn selection_is_exact(items: Seq<ResolvedModel>, pattern: Option<Seq<u8>>)
    ensures
        selected(items, pattern).len() <= items.len(),
        forall|i: int|
            0 <= i < selected(items, pattern).len() ==> glob_accepts(
                pattern,
                (#[trigger] selected(items, pattern)[i]).name,
            ) && items.contains(selected(items, pattern)[i]),
        forall|i: int|
            0 <= i < items.len() && glob_accepts(pattern, (#[trigger] items[i]).name) ==> selected(
                items,
                pattern,
            ).contains(items[i]),
    decreases items.len(),
{
    let accept = |e: ResolvedModel| glob_accepts(pattern, e.name);
    let chosen = selected(items, pattern);
    reveal(Seq::filter);
    if items.len() > 0 {
        let rest = items.drop_last();
        selection_is_exact(rest, pattern);
        let before = selected(rest, pattern);
        assert forall|i: int| 0 <= i < chosen.len() implies glob_accepts(
            pattern,
            (#[trigger] chosen[i]).name,
        ) && items.contains(chosen[i]) by {
            if i < before.len() {
                assert(chosen[i] == before[i]);
                assert(rest.contains(before[i]));
                let k = choose|k: int| 0 <= k < rest.len() && rest[k] == before[i];
                assert(items[k] == chosen[i]);
            } else {
                assert(chosen[i] == items.last());
                assert(items[items.len() - 1] == chosen[i]);
            }
        }
        assert forall|i: int|
            0 <= i < items.len() && glob_accepts(pattern, (#[trigger] items[i]).name) implies chosen.contains(
            items[i],
        ) by {
            if i < rest.len() {
                assert(rest[i] == items[i]);
                assert(before.contains(rest[i]));
                let k = choose|k: int| 0 <= k < before.len() && before[k] == rest[i];
                assert(chosen[k] == items[i]);
            } else {
                assert(chosen[chosen.len() - 1] == items[i]);
            }
        }
    }
}

/// A boolean that was set is read back as it was set.
pub proof fn bool_round_trip(store: Seq<SourceModel>, name: Seq<u8>, value: bool)
    requires
        store.len() > 0,
    ensures
        read_bool(store_set(store, name, bool_text(value)), name) == Ok::<bool, Error>(value),
{
    write_then_read(store, name, bool_text(value));
    bool_text_round_trip(value);
}

/// A 64-bit integer that was set is read back as it was set.
pub proof fn i64_round_trip(store: Seq<SourceModel>, name: Seq<u8>, value: i64)
    requires
        store.len() > 0,
    ensures
        read_i64(store_set(store, name, int_text(value as int)), name) == Ok::<i64, Error>(value),
{
    write_then_read(store, name, int_text(value as int));
    int_text_round_trip(value as int);
}

/// A 32-bit integer that was set is read back as it was set, as a 32-bit
/// and as a 64-bit integer.
pub proof fn i32_round_trip(store: Seq<SourceModel>, name: Seq<u8>, value: i32)
    requires
        store.len() > 0,
    ensures
        read_i32(store_set(store, name, int_text(value as int)), name) == Ok::<i32, Error>(value),
        read_i64(store_set(store, name, int_text(value as int)), name) == Ok::<i64, Error>(
            value as i64,
        ),
{
    write_then_read(store, name, int_text(value as int));
    int_text_round_trip(value as int);
}

/// A text that was set is read back as it was set.
pub proof fn text_round_trip_in_store(store: Seq<SourceModel>, name: Seq<u8>, value: Seq<char>)
    requires
        store.len() > 0,
    ensures
        read_text(store_set(store, name, encode_utf8(value)), name) == Ok::<Seq<char>, Error>(value),
{
    write_then_read(store, name, encode_utf8(value));
    text_round_trip(value);
}

/// The text of a number that does not fit in 32 bits is no 32-bit integer:
/// reading it as one is a type mismatch, never a truncated number.
pub proof fn wide_number_is_no_i32(v: int)
    requires
        v < i32::MIN || v > i32::MAX,
    ensures
        i32_reading(int_text(v)) == Err::<i32, Error>(Error::TypeMismatch),
{
    int_text_round_trip(v);
}

} // verus!

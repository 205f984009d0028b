//! The configuration store.
//!
//! A `Config` owns a list of sources, the most authoritative first. A read
//! walks the sources in that order and takes the first hit; a write lands in
//! the first source.

use vstd::prelude::*;
use vstd::string::StringSliceAdditionalSpecFns;
use crate::error::Error;
use crate::glob::{glob_accept, glob_accepts};
use crate::level::ConfigLevel;
use crate::model::{ResolvedModel, SourceModel, at_level, defines, filter_of_one, first_definer, has_source, insert_position_is, last_index_meaning, listing, listing_from, lookup, read_bool, read_bytes, read_i32, read_i64, read_text, resolve, selected, source_listing, store_remove, store_set, store_wf, with_source, with_source_keeps_order};
use crate::name::{copy_bytes, is_normal, key_of, normalize_is_idempotent, normalize_is_normal, normalized};
use crate::snapshot::{Snapshot, frozen, frozen_agrees, frozen_is_resolved, frozen_source, winners};
use crate::source::{Source, path_of};
use crate::table::EntryTable;
use crate::value::{decode_text, bool_text, format_bool, format_i64, int_text, parse_bool, parse_i32, parse_i64, parse_text};

verus! {

/// A layered key/value store of configuration variables.
#[derive(Debug)]
pub struct Config {
    sources: Vec<Source>,
}

/// An entry of a `Config`: a name, a value, and the level of the source that
/// holds it. It borrows from the store that produced it.
#[derive(Clone, Copy, Debug)]
pub struct ConfigEntry<'cfg> {
    name: &'cfg [u8],
    value: &'cfg [u8],
    level: ConfigLevel,
}

/// A single pass over the entries of a `Config`, optionally restricted to
/// the names that match a pattern. It borrows the store, so the store
/// cannot change while the pass is under way.
#[derive(Debug)]
pub struct ConfigEntries<'cfg> {
    store: &'cfg Config,
    pattern: Option<Vec<u8>>,
    source: usize,
    entry: usize,
}

/// The content of a configuration file after it was read and understood:
/// where the file is, and the entries it holds.
#[derive(Debug)]
pub struct LoadedFile {
    pub path: String,
    pub entries: EntryTable,
}

impl View for Config {
    type V = Seq<SourceModel>;

    closed spec fn view(&self) -> Seq<SourceModel> {
        models(self.sources@)
    }
}

impl<'cfg> View for ConfigEntry<'cfg> {
    type V = ResolvedModel;

    closed spec fn view(&self) -> ResolvedModel {
        ResolvedModel { name: self.name@, value: self.value@, level: self.level }
    }
}

/// The pattern that an optional textual pattern stands for: its bytes.
pub open spec fn pattern_of(glob: Option<&str>) -> Option<Seq<u8>> {
    match glob {
        Some(g) => Some(g.spec_bytes()),
        None => None,
    }
}

/// What a run of sources stands for.
spec fn models(sources: Seq<Source>) -> Seq<SourceModel> {
    Seq::new(sources.len(), |i: int| sources[i]@)
}

/// The source that a loaded file becomes at a level.
pub open spec fn file_source(path: Seq<char>, level: ConfigLevel, force: bool, entries: EntryTable) -> SourceModel {
    SourceModel { path: Some(path), level, force, entries: entries@ }
}

/// The sources that an optional loaded file contributes at a level: one if
/// the file is there, none if it is missing.
pub open spec fn present(file: Option<LoadedFile>, level: ConfigLevel) -> Seq<SourceModel> {
    match file {
        Some(f) => seq![file_source(f.path@, level, false, f.entries)],
        None => Seq::empty(),
    }
}

/// The entries that a pass has still to look at when it stands at entry
/// `entry` of source `source`.
spec fn pending(store: Seq<SourceModel>, source: int, entry: int) -> Seq<ResolvedModel> {
    if 0 <= source < store.len() {
        source_listing(store[source]).skip(entry) + listing_from(store, source + 1)
    } else {
        Seq::empty()
    }
}

/// Selecting from a listing looks at the first entry and then at the rest.
proof fn selected_first(first: ResolvedModel, rest: Seq<ResolvedModel>, pattern: Option<Seq<u8>>)
    ensures
        selected(seq![first] + rest, pattern) == if glob_accepts(pattern, first.name) {
            seq![first] + selected(rest, pattern)
        } else {
            selected(rest, pattern)
        },
{
    let accept = |e: ResolvedModel| glob_accepts(pattern, e.name);
    Seq::filter_distributes_over_add(seq![first], rest, accept);
    filter_of_one(first, accept);
    if !glob_accepts(pattern, first.name) {
        assert(Seq::<ResolvedModel>::empty() + selected(rest, pattern) =~= selected(rest, pattern));
    }
}

/// A store whose first source was replaced by one of the same level and
/// with a well-formed table is the old store with that source at its head,
/// and is well formed as the old store was.
proof fn first_source_changed(before: Seq<SourceModel>, after: Seq<SourceModel>, first: SourceModel)
    requires
        store_wf(before),
        before.len() > 0,
        after.len() == before.len(),
        after[0] == first,
        first.level == before[0].level,
        crate::model::table_wf(first.entries),
        forall|i: int| 1 <= i < before.len() ==> after[i] == before[i],
    ensures
        after == before.update(0, first),
        store_wf(after),
{
    assert(after =~= before.update(0, first));
    assert forall|i: int, j: int| 0 <= i < j < after.len() implies (#[trigger] after[i]).level.rank()
        >= (#[trigger] after[j]).level.rank() by {
        assert(after[i].level == before[i].level);
        assert(after[j].level == before[j].level);
    }
    assert forall|i: int| 0 <= i < after.len() implies crate::model::table_wf(
        #[trigger] after[i].entries,
    ) by {
        if i > 0 {
            assert(after[i] == before[i]);
        }
    }
}

/// Nothing is selected from an empty listing.
proof fn selected_empty(pattern: Option<Seq<u8>>)
    ensures
        selected(Seq::<ResolvedModel>::empty(), pattern) == Seq::<ResolvedModel>::empty(),
{
    reveal(Seq::filter);
}

impl<'cfg> ConfigEntry<'cfg> {
    /// The name of the entry as text; none if the name is not valid UTF-8.
    pub fn name(&self) -> (r: Option<&'cfg str>)
        ensures
            match r {
                Some(s) => decode_text(self@.name) == Some(s@),
                None => decode_text(self@.name) is None,
            },
    {
        parse_text(self.name)
    }

    /// The name of the entry as bytes.
    pub fn name_bytes(&self) -> (r: &'cfg [u8])
        ensures
            r@ == self@.name,
    {
        self.name
    }

    /// The value of the entry as text; none if the value is not valid
    /// UTF-8.
    pub fn value(&self) -> (r: Option<&'cfg str>)
        ensures
            match r {
                Some(s) => decode_text(self@.value) == Some(s@),
                None => decode_text(self@.value) is None,
            },
    {
        parse_text(self.value)
    }

    /// The value of the entry as bytes.
    pub fn value_bytes(&self) -> (r: &'cfg [u8])
        ensures
            r@ == self@.value,
    {
        self.value
    }

    /// The level of the source that holds the entry.
    pub fn level(&self) -> (r: ConfigLevel)
        ensures
            r == self@.level,
    {
        self.level
    }
}

impl<'cfg> ConfigEntries<'cfg> {
    /// A pass stands at a position inside its store.
    #[verifier::type_invariant]
    spec fn wf(&self) -> bool {
        &&& self.source <= self.store@.len()
        &&& self.source < self.store@.len() ==> self.entry <= self.store@[self.source as int].entries.len()
    }

    /// The pattern that restricts the pass, if any.
    pub closed spec fn pattern(&self) -> Option<Seq<u8>> {
        match self.pattern {
            Some(p) => Some(p@),
            None => None,
        }
    }

    /// The entries that the pass will still yield, in the order in which it
    /// will yield them.
    pub closed spec fn remaining(&self) -> Seq<ResolvedModel> {
        selected(pending(self.store@, self.source as int, self.entry as int), self.pattern())
    }

    /// Yields the next entry whose name passes the pattern, or none when
    /// the pass is over. Entries that do not pass are skipped.
    pub fn next(&mut self) -> (r: Option<ConfigEntry<'cfg>>)
        ensures
            final(self).pattern() == old(self).pattern(),
            match r {
                Some(e) => {
                    &&& old(self).remaining().len() > 0
                    &&& e@ == old(self).remaining()[0]
                    &&& final(self).remaining() == old(self).remaining().drop_first()
                },
                None => {
                    &&& old(self).remaining().len() == 0
                    &&& final(self).remaining().len() == 0
                },
            },
    {
        let store: &'cfg Config = self.store;
        proof {
            use_type_invariant(&*self);
        }
        loop
            invariant
                self.wf(),
                self.store == store,
                self.pattern == old(self).pattern,
                self.remaining() == old(self).remaining(),
            decreases
                store@.len() - self.source,
                if self.source < store@.len() {
                    store@[self.source as int].entries.len() - self.entry
                } else {
                    0
                },
        {
            assert(store@.len() == store.sources@.len());
            if self.source >= store.sources.len() {
                proof {
                    selected_empty(self.pattern());
                }
                return None;
            }
            let source: &'cfg Source = &store.sources[self.source];
            assert(source@ == store@[self.source as int]);
            let table = source.entries();
            if self.entry >= table.len() {
                proof {
                    let s = self.source as int;
                    assert(source_listing(store@[s]).skip(self.entry as int) =~= Seq::<
                        ResolvedModel,
                    >::empty());
                    assert(pending(store@, s, self.entry as int) =~= listing_from(store@, s + 1));
                    if s + 1 < store@.len() {
                        assert(source_listing(store@[s + 1]).skip(0) =~= source_listing(
                            store@[s + 1],
                        ));
                    }
                    assert(pending(store@, s + 1, 0) =~= listing_from(store@, s + 1));
                }
                self.entry = 0;
                self.source = self.source + 1;
            } else {
                let at: usize = self.entry;
                let name: &'cfg [u8] = table.name_at(at);
                let found = ConfigEntry {
                    name,
                    value: table.value_at(at),
                    level: source.level(),
                };
                proof {
                    let s = self.source as int;
                    let here = source_listing(store@[s]);
                    assert(found@ == here[at as int]);
                    assert(here.skip(at as int) =~= seq![found@] + here.skip(at + 1));
                    assert(pending(store@, s, at as int) =~= seq![found@] + pending(
                        store@,
                        s,
                        at + 1,
                    ));
                    selected_first(found@, pending(store@, s, at + 1), self.pattern());
                }
                self.entry = at + 1;
                if glob_accept(&self.pattern, name) {
                    proof {
                        let rest = selected(
                            pending(store@, self.source as int, self.entry as int),
                            self.pattern(),
                        );
                        assert((seq![found@] + rest).drop_first() =~= rest);
                    }
                    return Some(found);
                }
            }
        }
    }
}

impl<'cfg> ConfigEntries<'cfg> {
    /// Runs the pass to its end and returns the entries that it yields, in
    /// the order in which it yields them.
    pub fn collect(self) -> (items: Vec<ConfigEntry<'cfg>>)
        ensures
            items@.len() == self.remaining().len(),
            forall|i: int| 0 <= i < items@.len() ==> (#[trigger] items@[i])@ == self.remaining()[i],
    {
        let ghost all = self.remaining();
        let mut pass = self;
        let mut items: Vec<ConfigEntry<'cfg>> = Vec::new();
        assert(all.skip(0) =~= all);
        loop
            invariant
                all == self.remaining(),
                items@.len() <= all.len(),
                pass.remaining() == all.skip(items@.len() as int),
                forall|i: int| 0 <= i < items@.len() ==> (#[trigger] items@[i])@ == all[i],
            decreases pass.remaining().len(),
        {
            let ghost before = pass.remaining();
            match pass.next() {
                Some(entry) => {
                    items.push(entry);
                    assert(before.drop_first() =~= all.skip(items@.len() as int));
                },
                None => {
                    return items;
                },
            }
        }
    }
}

impl Config {
    /// The sources of a store stand in order of authority, and all names
    /// are in normal form. This holds of every store at all times.
    #[verifier::type_invariant]
    pub open spec fn wf(&self) -> bool {
        store_wf(self@)
    }

    /// A store without sources. It holds nothing and takes no writes until
    /// a source is added.
    pub fn new() -> (r: Result<Config, Error>)
        ensures
            r matches Ok(c) && c@ == Seq::<SourceModel>::empty(),
    {
        let sources: Vec<Source> = Vec::new();
        assert(models(sources@) =~= Seq::<SourceModel>::empty());
        Ok(Config { sources })
    }

    /// The number of sources.
    pub fn len(&self) -> (n: usize)
        ensures
            n == self@.len(),
    {
        self.sources.len()
    }

    /// The source at position `i`; position 0 holds the most authoritative
    /// source.
    pub fn source(&self, i: usize) -> (source: &Source)
        requires
            i < self@.len(),
        ensures
            source@ == self@[i as int],
    {
        &self.sources[i]
    }

    /// The entry that the key resolves to.
    fn find<'a>(&'a self, key: &[u8]) -> (r: Option<ConfigEntry<'a>>)
        ensures
            match r {
                Some(e) => resolve(self@, key@) == Some(e@),
                None => resolve(self@, key@) is None,
            },
    {
        let mut i: usize = 0;
        assert(self@.skip(0) =~= self@);
        while i < self.sources.len()
            invariant
                i <= self.sources@.len(),
                self@.len() == self.sources@.len(),
                resolve(self@, key@) == resolve(self@.skip(i as int), key@),
            decreases self.sources@.len() - i,
        {
            let source = &self.sources[i];
            let table = source.entries();
            assert(self@.skip(i as int)[0] == source@);
            proof {
                last_index_meaning(table@, key@);
            }
            match table.last_position(key) {
                Some(j) => {
                    return Some(
                        ConfigEntry {
                            name: table.name_at(j),
                            value: table.value_at(j),
                            level: source.level(),
                        },
                    );
                },
                None => {
                    assert(self@.skip(i as int).drop_first() =~= self@.skip(i + 1));
                },
            }
            i += 1;
        }
        None
    }

    /// Looks a variable up and returns its entry: in the most authoritative
    /// source that defines the name, the last entry of that name.
    pub fn get_entry(&self, name: &str) -> (r: Result<ConfigEntry<'_>, Error>)
        ensures
            match r {
                Ok(e) => lookup(self@, key_of(name)) == Ok::<ResolvedModel, Error>(e@),
                Err(e) => lookup(self@, key_of(name)) == Err::<ResolvedModel, Error>(e),
            },
    {
        let key = normalized(name.as_bytes());
        match self.find(key.as_slice()) {
            Some(e) => Ok(e),
            None => Err(Error::NotFound),
        }
    }

    /// The value of a variable as bytes.
    pub fn get_bytes(&self, name: &str) -> (r: Result<&[u8], Error>)
        ensures
            match r {
                Ok(v) => read_bytes(self@, key_of(name)) == Ok::<Seq<u8>, Error>(v@),
                Err(e) => read_bytes(self@, key_of(name)) == Err::<Seq<u8>, Error>(e),
            },
    {
        let key = normalized(name.as_bytes());
        match self.find(key.as_slice()) {
            Some(e) => Ok(e.value_bytes()),
            None => Err(Error::NotFound),
        }
    }

    /// The value of a variable as text. Fails with `InvalidEncoding` if the
    /// stored bytes are not valid UTF-8.
    pub fn get_str(&self, name: &str) -> (r: Result<&str, Error>)
        ensures
            match r {
                Ok(v) => read_text(self@, key_of(name)) == Ok::<Seq<char>, Error>(v@),
                Err(e) => read_text(self@, key_of(name)) == Err::<Seq<char>, Error>(e),
            },
    {
        let key = normalized(name.as_bytes());
        match self.find(key.as_slice()) {
            Some(e) => match parse_text(e.value_bytes()) {
                Some(text) => Ok(text),
                None => Err(Error::InvalidEncoding),
            },
            None => Err(Error::NotFound),
        }
    }

    /// The value of a variable as a boolean. Fails with `TypeMismatch` if
    /// the stored bytes spell no boolean.
    pub fn get_bool(&self, name: &str) -> (r: Result<bool, Error>)
        ensures
            r == read_bool(self@, key_of(name)),
    {
        let key = normalized(name.as_bytes());
        match self.find(key.as_slice()) {
            Some(e) => match parse_bool(e.value_bytes()) {
                Some(v) => Ok(v),
                None => Err(Error::TypeMismatch),
            },
            None => Err(Error::NotFound),
        }
    }

    /// The value of a variable as a 32-bit integer. Fails with
    /// `TypeMismatch` if the stored bytes spell no integer or one that does
    /// not fit in 32 bits.
    pub fn get_i32(&self, name: &str) -> (r: Result<i32, Error>)
        ensures
            r == read_i32(self@, key_of(name)),
    {
        let key = normalized(name.as_bytes());
        match self.find(key.as_slice()) {
            Some(e) => match parse_i32(e.value_bytes()) {
                Some(v) => Ok(v),
                None => Err(Error::TypeMismatch),
            },
            None => Err(Error::NotFound),
        }
    }

    /// The value of a variable as a 64-bit integer. Fails with
    /// `TypeMismatch` if the stored bytes spell no integer or one that does
    /// not fit in 64 bits.
    pub fn get_i64(&self, name: &str) -> (r: Result<i64, Error>)
        ensures
            r == read_i64(self@, key_of(name)),
    {
        let key = normalized(name.as_bytes());
        match self.find(key.as_slice()) {
            Some(e) => match parse_i64(e.value_bytes()) {
                Some(v) => Ok(v),
                None => Err(Error::TypeMismatch),
            },
            None => Err(Error::NotFound),
        }
    }

    /// A pass over the entries of the store, the most authoritative source
    /// first and each source in the order in which its entries were
    /// written. With a pattern, the pass yields only the entries whose
    /// names match it.
    pub fn entries(&self, glob: Option<&str>) -> (r: Result<ConfigEntries<'_>, Error>)
        ensures
            r matches Ok(pass) && pass.pattern() == pattern_of(glob) && pass.remaining()
                == selected(listing(self@), pattern_of(glob)),
    {
        let pattern: Option<Vec<u8>> = match glob {
            Some(g) => Some(copy_bytes(g.as_bytes())),
            None => None,
        };
        proof {
            if self@.len() > 0 {
                assert(source_listing(self@[0]).skip(0) =~= source_listing(self@[0]));
            }
            assert(pending(self@, 0, 0) =~= listing(self@));
        }
        Ok(ConfigEntries { store: self, pattern, source: 0, entry: 0 })
    }

    /// A store with exactly one source, at level `Local`: the file at
    /// `path`, whose content the caller has loaded. Fails with `IoError` if
    /// the file could not be loaded, which the caller says by passing none.
    pub fn open(path: &str, loaded: Option<EntryTable>) -> (r: Result<Config, Error>)
        ensures
            match r {
                Ok(c) => loaded matches Some(t) && c@ == seq![
                    file_source(path@, ConfigLevel::Local, false, t),
                ],
                Err(e) => e == Error::IoError && loaded is None,
            },
    {
        match loaded {
            Some(t) => {
                let source = Source::new(Some(path.to_owned()), ConfigLevel::Local, false, t);
                proof {
                    use_type_invariant(&source);
                }
                let mut sources: Vec<Source> = Vec::new();
                sources.push(source);
                assert(models(sources@) =~= seq![
                    file_source(path@, ConfigLevel::Local, false, t),
                ]);
                Ok(Config { sources })
            },
            None => Err(Error::IoError),
        }
    }

    /// A store of the conventional files of a user and a machine: the
    /// user's file at level `Global`, the user's XDG file at level `Xdg` and
    /// the machine's file at level `SystemWide`, in this order of
    /// authority. A file that is missing, which the caller says by passing
    /// none, is left out; that is no error.
    pub fn open_default(
        global: Option<LoadedFile>,
        xdg: Option<LoadedFile>,
        system: Option<LoadedFile>,
    ) -> (r: Result<Config, Error>)
        ensures
            r matches Ok(c) && c@ == present(global, ConfigLevel::Global) + present(
                xdg,
                ConfigLevel::Xdg,
            ) + present(system, ConfigLevel::SystemWide),
    {
        let mut sources: Vec<Source> = Vec::new();
        if let Some(f) = global {
            proof {
                use_type_invariant(&f.entries);
            }
            sources.push(Source::new(Some(f.path), ConfigLevel::Global, false, f.entries));
        }
        if let Some(f) = xdg {
            proof {
                use_type_invariant(&f.entries);
            }
            sources.push(Source::new(Some(f.path), ConfigLevel::Xdg, false, f.entries));
        }
        if let Some(f) = system {
            proof {
                use_type_invariant(&f.entries);
            }
            sources.push(Source::new(Some(f.path), ConfigLevel::SystemWide, false, f.entries));
        }
        assert(models(sources@) =~= present(global, ConfigLevel::Global) + present(
            xdg,
            ConfigLevel::Xdg,
        ) + present(system, ConfigLevel::SystemWide));
        Ok(Config { sources })
    }

    /// Whether the store holds a source of that level that came from that
    /// path.
    pub fn contains_source(&self, path: &Option<String>, level: ConfigLevel) -> (r: bool)
        ensures
            r == has_source(self@, path_of(*path), level),
    {
        let mut i: usize = 0;
        while i < self.sources.len()
            invariant
                i <= self.sources@.len(),
                self@.len() == self.sources@.len(),
                forall|k: int|
                    0 <= k < i ==> !((#[trigger] self@[k]).level == level && self@[k].path
                        == path_of(*path)),
            decreases self.sources@.len() - i,
        {
            if self.sources[i].is_from(path, level) {
                assert(self@[i as int] == self.sources@[i as int]@);
                return true;
            }
            assert(self@[i as int] == self.sources@[i as int]@);
            i += 1;
        }
        false
    }

    /// Puts a source at its place in the order of authority.
    fn place(&mut self, source: Source)
        ensures
            final(self)@ == with_source(old(self)@, source@),
    {
        proof {
            use_type_invariant(&*self);
            use_type_invariant(&source);
        }
        let level = source.level();
        let mut p: usize = 0;
        while p < self.sources.len() && self.sources[p].level().outranks(level)
            invariant
                p <= self.sources@.len(),
                self@.len() == self.sources@.len(),
                *self == *old(self),
                forall|k: int| 0 <= k < p ==> (#[trigger] self@[k]).level.rank() > level.rank(),
            decreases self.sources@.len() - p,
        {
            assert(self@[p as int] == self.sources@[p as int]@);
            p += 1;
        }
        proof {
            if p < self.sources@.len() {
                assert(self@[p as int] == self.sources@[p as int]@);
            }
            insert_position_is(self@, level, p as int);
            with_source_keeps_order(self@, source@);
        }
        let mut sources: Vec<Source> = Vec::new();
        core::mem::swap(&mut sources, &mut self.sources);
        sources.insert(p, source);
        assert(models(sources@) =~= with_source(old(self)@, source@));
        self.sources = sources;
    }

    /// Adds a source. A source that was made with force is always added. One
    /// made without force is added unless the store already holds a source
    /// of the same level from the same path; then the store stays as it is.
    /// The new source takes precedence over the sources of its own level
    /// that are already there. Tells whether the source was added.
    pub fn add_source(&mut self, source: Source) -> (added: bool)
        ensures
            added == (source@.force || !has_source(old(self)@, source@.path, source@.level)),
            final(self)@ == if added {
                with_source(old(self)@, source@)
            } else {
                old(self)@
            },
    {
        if !source.force() && self.contains_source(source.path(), source.level()) {
            return false;
        }
        self.place(source);
        true
    }

    /// Adds the file at `path`, whose content the caller has loaded, as a
    /// source at `level`. Without force, nothing happens if the store
    /// already holds a source of that level from that path. Otherwise the
    /// call fails with `IoError` if the file could not be loaded, which the
    /// caller says by passing none, and leaves the store as it is.
    pub fn add_file(
        &mut self,
        path: &str,
        level: ConfigLevel,
        force: bool,
        loaded: Option<EntryTable>,
    ) -> (r: Result<(), Error>)
        ensures
            match r {
                Ok(()) => if !force && has_source(old(self)@, Some(path@), level) {
                    final(self)@ == old(self)@
                } else {
                    loaded matches Some(t) && final(self)@ == with_source(
                        old(self)@,
                        file_source(path@, level, force, t),
                    )
                },
                Err(e) => {
                    &&& e == Error::IoError
                    &&& loaded is None
                    &&& force || !has_source(old(self)@, Some(path@), level)
                    &&& final(self)@ == old(self)@
                },
            },
    {
        let owned: Option<String> = Some(path.to_owned());
        if !force && self.contains_source(&owned, level) {
            return Ok(());
        }
        match loaded {
            Some(t) => {
                self.place(Source::new(owned, level, force, t));
                Ok(())
            },
            None => Err(Error::IoError),
        }
    }

    /// A store of its own that holds copies of the sources of exactly one
    /// level, in their order. Reads from it and writes to it are confined
    /// to that level.
    pub fn open_level(&self, level: ConfigLevel) -> (r: Result<Config, Error>)
        ensures
            r matches Ok(c) && c@ == at_level(self@, level),
    {
        let ghost keep = |s: SourceModel| s.level == level;
        let mut sources: Vec<Source> = Vec::new();
        let mut i: usize = 0;
        proof {
            reveal(Seq::filter);
            assert(self@.subrange(0, 0) =~= Seq::<SourceModel>::empty());
        }
        while i < self.sources.len()
            invariant
                i <= self.sources@.len(),
                self@.len() == self.sources@.len(),
                keep == |s: SourceModel| s.level == level,
                sources@.len() == self@.subrange(0, i as int).filter(keep).len(),
                forall|k: int|
                    0 <= k < sources@.len() ==> (#[trigger] sources@[k])@ == self@.subrange(
                        0,
                        i as int,
                    ).filter(keep)[k],
                forall|k: int|
                    0 <= k < sources@.len() ==> (#[trigger] sources@[k])@.level == level
                        && sources@[k].wf(),
            decreases self.sources@.len() - i,
        {
            proof {
                reveal(Seq::filter);
                assert(self@.subrange(0, i + 1).drop_last() =~= self@.subrange(0, i as int));
                assert(self@.subrange(0, i + 1).last() == self@[i as int]);
                assert(self@[i as int] == self.sources@[i as int]@);
            }
            if self.sources[i].level().same(level) {
                let copy = self.sources[i].clone();
                proof {
                    use_type_invariant(&copy);
                }
                sources.push(copy);
            }
            i += 1;
        }
        proof {
            assert(self@.subrange(0, i as int) =~= self@);
            assert(models(sources@) =~= at_level(self@, level));
        }
        Ok(Config { sources })
    }

    /// The store to write a user's settings to: the view of level `Xdg` if
    /// the store holds a source of that level, else the view of level
    /// `Global`. The store itself does not change.
    pub fn open_global(&mut self) -> (r: Result<Config, Error>)
        ensures
            *final(self) == *old(self),
            r matches Ok(c) && c@ == if at_level(old(self)@, ConfigLevel::Xdg).len() > 0 {
                at_level(old(self)@, ConfigLevel::Xdg)
            } else {
                at_level(old(self)@, ConfigLevel::Global)
            },
    {
        match self.open_level(ConfigLevel::Xdg) {
            Ok(c) => {
                if c.len() > 0 {
                    return Ok(c);
                }
            },
            Err(_) => {},
        }
        self.open_level(ConfigLevel::Global)
    }

    /// Whether a source before position `s` defines `key`.
    fn defined_before(&self, s: usize, key: &[u8]) -> (r: bool)
        requires
            s <= self@.len(),
        ensures
            r == !first_definer(self@, s as int, key@),
    {
        let mut k: usize = 0;
        while k < s
            invariant
                k <= s <= self.sources@.len(),
                self@.len() == self.sources@.len(),
                first_definer(self@, k as int, key@),
            decreases s - k,
        {
            assert(self@[k as int] == self.sources@[k as int]@);
            proof {
                last_index_meaning(self@[k as int].entries, key@);
            }
            if self.sources[k].entries().last_position(key).is_some() {
                return true;
            }
            k += 1;
        }
        false
    }

    /// Takes a snapshot: the resolved state of the store at this instant,
    /// in which every name that the store defines has the one entry that it
    /// resolves to now. The snapshot owns its entries; the store does not
    /// change, and later writes to the store do not show in the snapshot.
    pub fn snapshot(&mut self) -> (r: Result<Snapshot, Error>)
        ensures
            *final(self) == *old(self),
            r matches Ok(snap) && snap@ == frozen(old(self)@) && forall|
                name: Seq<u8>,
            | #[trigger] resolve(snap@, name) == resolve(old(self)@, name),
    {
        proof {
            use_type_invariant(&*self);
        }
        let mut sources: Vec<Source> = Vec::new();
        let mut s: usize = 0;
        while s < self.sources.len()
            invariant
                s <= self.sources@.len(),
                self@.len() == self.sources@.len(),
                *self == *old(self),
                self.wf(),
                sources@.len() == s,
                forall|k: int| 0 <= k < s ==> (#[trigger] sources@[k])@ == frozen_source(self@, k),
            decreases self.sources@.len() - s,
        {
            let source = &self.sources[s];
            let table = source.entries();
            assert(self@[s as int] == source@);
            proof {
                use_type_invariant(table);
            }
            let mut kept = EntryTable::new();
            let mut e: usize = 0;
            while e < table.len()
                invariant
                    e <= table@.len(),
                    s < self@.len(),
                    table@ == self@[s as int].entries,
                    table.wf(),
                    kept@ == winners(self@, s as int, e as int),
                decreases table@.len() - e,
            {
                let name = table.name_at(e);
                let last: bool = match table.last_position(name) {
                    Some(at) => at == e,
                    None => false,
                };
                if last && !self.defined_before(s, name) {
                    proof {
                        assert(is_normal(table@[e as int].name));
                        normalize_is_idempotent(name@);
                    }
                    kept.push(name, table.value_at(e));
                    assert(kept@ =~= winners(self@, s as int, e + 1));
                }
                e += 1;
            }
            let path: Option<String> = match source.path() {
                Some(p) => Some(p.clone()),
                None => None,
            };
            sources.push(Source::new(path, source.level(), source.force(), kept));
            s += 1;
        }
        proof {
            assert(models(sources@) =~= frozen(self@));
            frozen_is_resolved(self@);
            assert forall|name: Seq<u8>| #[trigger]
                resolve(frozen(self@), name) == resolve(self@, name) by {
                frozen_agrees(self@, name);
            }
        }
        Ok(Snapshot::seal(Config { sources }))
    }

    /// Writes `value` under `key` in the first source.
    fn write(&mut self, key: Vec<u8>, value: Vec<u8>) -> (r: Result<(), Error>)
        requires
            is_normal(key@),
        ensures
            match r {
                Ok(()) => old(self)@.len() > 0 && final(self)@ == store_set(
                    old(self)@,
                    key@,
                    value@,
                ),
                Err(e) => e == Error::NoWritableSource && old(self)@.len() == 0 && final(self)@
                    == old(self)@,
            },
    {
        proof {
            use_type_invariant(&*self);
        }
        if self.sources.len() == 0 {
            return Err(Error::NoWritableSource);
        }
        let ghost before = self@;
        let mut sources: Vec<Source> = Vec::new();
        core::mem::swap(&mut sources, &mut self.sources);
        sources[0].put(key, value);
        let first = &sources[0];
        proof {
            use_type_invariant(first);
            first_source_changed(before, models(sources@), first@);
        }
        self.sources = sources;
        Ok(())
    }

    /// Sets a boolean variable in the most authoritative source. The value
    /// replaces that of the last entry of this name in that source; if the
    /// source has none, an entry is appended. Fails with `NoWritableSource`
    /// on a store without sources.
    pub fn set_bool(&mut self, name: &str, value: bool) -> (r: Result<(), Error>)
        ensures
            match r {
                Ok(()) => old(self)@.len() > 0 && final(self)@ == store_set(
                    old(self)@,
                    key_of(name),
                    bool_text(value),
                ),
                Err(e) => e == Error::NoWritableSource && old(self)@.len() == 0 && final(self)@
                    == old(self)@,
            },
    {
        proof {
            normalize_is_normal(name.spec_bytes());
        }
        self.write(normalized(name.as_bytes()), format_bool(value))
    }

    /// Sets a 32-bit integer variable in the most authoritative source, in
    /// the way of `set_bool`.
    pub fn set_i32(&mut self, name: &str, value: i32) -> (r: Result<(), Error>)
        ensures
            match r {
                Ok(()) => old(self)@.len() > 0 && final(self)@ == store_set(
                    old(self)@,
                    key_of(name),
                    int_text(value as int),
                ),
                Err(e) => e == Error::NoWritableSource && old(self)@.len() == 0 && final(self)@
                    == old(self)@,
            },
    {
        proof {
            normalize_is_normal(name.spec_bytes());
        }
        self.write(normalized(name.as_bytes()), format_i64(value as i64))
    }

    /// Sets a 64-bit integer variable in the most authoritative source, in
    /// the way of `set_bool`.
    pub fn set_i64(&mut self, name: &str, value: i64) -> (r: Result<(), Error>)
        ensures
            match r {
                Ok(()) => old(self)@.len() > 0 && final(self)@ == store_set(
                    old(self)@,
                    key_of(name),
                    int_text(value as int),
                ),
                Err(e) => e == Error::NoWritableSource && old(self)@.len() == 0 && final(self)@
                    == old(self)@,
            },
    {
        proof {
            normalize_is_normal(name.spec_bytes());
        }
        self.write(normalized(name.as_bytes()), format_i64(value))
    }

    /// Sets a text variable in the most authoritative source, in the way of
    /// `set_bool`. The stored bytes are the UTF-8 encoding of the text.
    pub fn set_str(&mut self, name: &str, value: &str) -> (r: Result<(), Error>)
        ensures
            match r {
                Ok(()) => old(self)@.len() > 0 && final(self)@ == store_set(
                    old(self)@,
                    key_of(name),
                    value.spec_bytes(),
                ),
                Err(e) => e == Error::NoWritableSource && old(self)@.len() == 0 && final(self)@
                    == old(self)@,
            },
    {
        proof {
            normalize_is_normal(name.spec_bytes());
        }
        self.write(normalized(name.as_bytes()), copy_bytes(value.as_bytes()))
    }

    /// Deletes a variable from the most authoritative source: every entry of
    /// that name in that source goes, and no other source changes. Fails
    /// with `NoWritableSource` on a store without sources and with
    /// `NotFound` if that source does not define the name.
    pub fn remove(&mut self, name: &str) -> (r: Result<(), Error>)
        ensures
            match r {
                Ok(()) => {
                    &&& old(self)@.len() > 0
                    &&& defines(old(self)@[0].entries, key_of(name))
                    &&& final(self)@ == store_remove(old(self)@, key_of(name))
                },
                Err(e) => {
                    &&& final(self)@ == old(self)@
                    &&& if old(self)@.len() == 0 {
                        e == Error::NoWritableSource
                    } else {
                        e == Error::NotFound && !defines(old(self)@[0].entries, key_of(name))
                    }
                },
            },
    {
        proof {
            use_type_invariant(&*self);
        }
        if self.sources.len() == 0 {
            return Err(Error::NoWritableSource);
        }
        let key = normalized(name.as_bytes());
        assert(self@[0] == self.sources@[0]@);
        proof {
            last_index_meaning(self@[0].entries, key@);
        }
        if self.sources[0].entries().last_position(key.as_slice()).is_none() {
            return Err(Error::NotFound);
        }
        let ghost before = self@;
        let mut sources: Vec<Source> = Vec::new();
        core::mem::swap(&mut sources, &mut self.sources);
        sources[0].erase(key.as_slice());
        let first = &sources[0];
        proof {
            use_type_invariant(first);
            first_source_changed(before, models(sources@), first@);
        }
        self.sources = sources;
        Ok(())
    }
}

impl Clone for Config {
    /// A copy of the store, with copies of its sources.
    fn clone(&self) -> (copy: Config)
        ensures
            copy@ == self@,
    {
        let mut sources: Vec<Source> = Vec::new();
        let mut i: usize = 0;
        while i < self.sources.len()
            invariant
                i <= self.sources@.len(),
                sources@.len() == i,
                forall|k: int| 0 <= k < i ==> (#[trigger] sources@[k])@ == self.sources@[k]@,
            decreases self.sources@.len() - i,
        {
            sources.push(self.sources[i].clone());
            i += 1;
        }
        proof {
            use_type_invariant(self);
            assert(models(sources@) =~= self@);
        }
        Config { sources }
    }
}

} // verus!

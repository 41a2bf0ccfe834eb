//! The cache: typed documents under keys, written through to backing stores.

use crate::clock::current_moment;
use crate::document::DatabaseEntry;
use crate::envelope::{entry_id, entry_id_parts, views, CultCacheEnvelope, EnvelopeView, Identity};
use crate::error::{outcome, CultCacheError, Failure, FailureView};
use crate::model::{
    all_known, answers, batch_store, collects, deletes_document, deletes_through, envelope_at, finishes,
    first_unknown, joined, lemma_with_entries_at, listed_entries_restore,
    listing_of_entries_is_unique, lists_entries, loads, loads_columns, loads_envelope, looks_up,
    places, prepared_view, prepares, prepares_named, publishes_batch, puts,
    puts_envelope, puts_raw, registered, registers_type, relayed, relayed_until, reloads,
    reloads_with, route, rows_typed, store_pulls, types_known, types_sound, unpacks_rows, updates,
    validates, with_entries, writes_through, CacheView,
};
use crate::order::{pair_before, text_before};
use crate::ordered_map::{index_of_key, lemma_item_in_map, OrderedMap};
use crate::rows::{copy_rows, join_rows};
use crate::soa::{texts, CultCacheSoaTable, CultSoaTable, SoaDocument};
use crate::store::{CacheBackingStore, PushAllOptions};
use crate::text::{is_blank, same_text};
use vstd::prelude::*;

verus! {

/// A store and the types that it is for.
struct CultCacheStoreRegistration<S> {
    store: S,
    types: OrderedMap<String, ()>,
}

impl<S> CultCacheStoreRegistration<S> {
    /// `store`, for the types `types`.
    fn of(store: S, types: OrderedMap<String, ()>) -> (registration: Self)
        ensures
            registration.store == store,
            registration.types == types,
    {
        CultCacheStoreRegistration { store, types }
    }
}

/// Typed documents under keys, written through to backing stores.
pub struct CultCache {
    definitions: OrderedMap<String, &'static str>,
    entries: OrderedMap<(String, String), CultCacheEnvelope>,
    stores: Vec<CultCacheStoreRegistration<Box<dyn CacheBackingStore>>>,
}

impl View for CultCache {
    type V = CacheView;

    closed spec fn view(&self) -> CacheView {
        CacheView {
            definitions: self.definitions@.map_values(|schema: &'static str| schema@),
            entries: entries_view(self.entries@),
            served: Seq::new(self.stores@.len(), |i: int| self.stores@[i].types@.dom()),
            rules: Seq::new(self.stores@.len(), |i: int| self.stores@[i].store.rules()),
            held: Seq::new(self.stores@.len(), |i: int| self.stores@[i].store.held()),
        }
    }
}

impl CultCache {
    /// The maps are ordered, every entry stands under its own identity, the type of every entry is
    /// registered, no registered type is blank, and there is a record for every store.
    pub closed spec fn wf(&self) -> bool {
        &&& self.definitions.wf()
        &&& keyed_by_identity(self.entries)
        &&& types_sound(self@)
        &&& forall|i: int| 0 <= i < self.stores@.len() ==> (#[trigger] self.stores@[i]).types.wf()
    }

    /// Every entry of a cache stands under its own identity.
    pub proof fn entries_stand_under_their_identities(&self)
        requires
            self.wf(),
        ensures
            forall|id: Identity| #[trigger]
                self@.entries.contains_key(id) ==> self@.entries[id].id() == id,
    {
        assert forall|id: Identity| #[trigger]
            self@.entries.contains_key(id) implies self@.entries[id].id() == id by {
            assert(self.entries@.contains_key(id));
        }
    }

    /// The type of every entry of a cache is registered, and no registered type is blank.
    pub proof fn types_of_entries_are_registered(&self)
        requires
            self.wf(),
        ensures
            types_sound(self@),
    {
    }

    /// A cache knows of every store which types it is for, how it may answer and what it holds.
    pub proof fn stores_are_known_alike(&self)
        ensures
            self@.rules.len() == self@.served.len(),
            self@.held.len() == self@.served.len(),
    {
    }

    /// A cache without types, entries and stores.
    pub fn new() -> (cache: Self)
        ensures
            cache.wf(),
            cache@ == (CacheView {
                definitions: Map::empty(),
                entries: Map::empty(),
                served: Seq::empty(),
                rules: Seq::empty(),
                held: Seq::empty(),
            }),
    {
        let cache = CultCache {
            definitions: OrderedMap::new(),
            entries: OrderedMap::new(),
            stores: Vec::new(),
        };
        assert(cache@ =~= (CacheView {
            definitions: Map::empty(),
            entries: Map::empty(),
            served: Seq::empty(),
            rules: Seq::empty(),
            held: Seq::empty(),
        }));
        cache
    }

    /// Registers the document type `T`.
    pub fn register_entry_type<T: DatabaseEntry>(&mut self) -> (done: Result<(), CultCacheError>)
        requires
            old(self).wf(),
        ensures
            final(self).wf(),
            registers_type(old(self)@, final(self)@, T::TYPE@, T::SCHEMA_NAME@, outcome(done)),
    {
        if is_blank(T::TYPE) {
            return Err(Failure::EmptyType);
        }
        if let Some(existing) = self.definitions.get(&T::TYPE.to_owned()) {
            if !same_text(existing, T::SCHEMA_NAME) {
                return Err(Failure::DefinitionConflict { entry_type: T::TYPE.to_owned() });
            }
        }
        self.definitions.insert(T::TYPE.to_owned(), T::SCHEMA_NAME);
        assert(self@ =~= (CacheView {
            definitions: old(self)@.definitions.insert(T::TYPE@, T::SCHEMA_NAME@),
            ..old(self)@
        }));
        Ok(())
    }

    /// Registers the document type `T`.
    pub fn register_document_type<T: DatabaseEntry>(&mut self) -> (done: Result<
        (),
        CultCacheError,
    >)
        requires
            old(self).wf(),
        ensures
            final(self).wf(),
            registers_type(old(self)@, final(self)@, T::TYPE@, T::SCHEMA_NAME@, outcome(done)),
    {
        self.register_entry_type::<T>()
    }

    /// The names of the registered types, in their order.
    pub fn registered_entry_types(&self) -> (types: Vec<String>)
        requires
            self.wf(),
        ensures
            lists_types(self@.definitions, texts(types@)),
    {
        let mut types: Vec<String> = Vec::with_capacity(self.definitions.len());
        let mut i: usize = 0;
        while i < self.definitions.len()
            invariant
                i <= self.definitions.items().len(),
                types@.len() == i,
                forall|j: int|
                    0 <= j < i ==> (#[trigger] types@[j])@ == self.definitions.items()[j].0@,
            decreases self.definitions.items().len() - i,
        {
            types.push(self.definitions.item(i).0.clone());
            i = i + 1;
        }
        proof {
            let items = self.definitions.items();
            let names = texts(types@);
            assert forall|a: int, b: int| 0 <= a < b < names.len() implies text_before(
                #[trigger] names[a],
                #[trigger] names[b],
            ) by {
                assert(names[a] == items[a].0@ && names[b] == items[b].0@);
            }
            assert forall|a: int| 0 <= a < names.len() implies self@.definitions.contains_key(
                #[trigger] names[a],
            ) by {
                assert(names[a] == items[a].0@);
                lemma_item_in_map(items, a);
            }
            assert forall|t: Seq<char>| #[trigger]
                self@.definitions.contains_key(t) implies names.contains(t) by {
                let a = index_of_key(items, t);
                assert(self.definitions@.contains_key(t));
                assert(names[a] == t);
            }
        }
        types
    }

    /// Registers the types that `registry` brings along.
    pub fn register_registry<R: CultCacheRegistry>(&mut self, registry: R) -> (done: Result<
        &mut Self,
        CultCacheError,
    >)
        requires
            old(self).wf(),
        ensures
            match done {
                Ok(cache) => {
                    &&& cache.wf()
                    &&& registry.registers(old(self)@, cache@, Ok(()))
                    &&& *final(self) == *final(cache)
                },
                Err(e) => {
                    &&& final(self).wf()
                    &&& registry.registers(old(self)@, final(self)@, Err(e@))
                },
            },
    {
        match registry.register_entries(self) {
            Ok(_) => Ok(self),
            Err(e) => Err(e),
        }
    }

    /// Adds a store for the types `types`; for the rest, where there are none.
    pub fn add_backing_store(&mut self, store: Box<dyn CacheBackingStore>, types: Vec<String>)
        requires
            old(self).wf(),
        ensures
            final(self).wf(),
            final(self)@ == (CacheView {
                served: old(self)@.served.push(texts(types@).to_set()),
                rules: old(self)@.rules.push(store.rules()),
                held: old(self)@.held.push(store.held()),
                ..old(self)@
            }),
    {
        let set = type_set(types);
        let registration = CultCacheStoreRegistration::of(store, set);
        self.add_registration(registration);
    }

    /// Adds a store with its types.
    fn add_registration(
        &mut self,
        registration: CultCacheStoreRegistration<Box<dyn CacheBackingStore>>,
    )
        requires
            old(self).wf(),
            registration.types.wf(),
        ensures
            final(self).wf(),
            final(self)@ == (CacheView {
                served: old(self)@.served.push(registration.types@.dom()),
                rules: old(self)@.rules.push(registration.store.rules()),
                held: old(self)@.held.push(registration.store.held()),
                ..old(self)@
            }),
    {
        self.stores.push(registration);
        proof {
            let now = self.stores@;
            let before = old(self).stores@;
            assert(forall|i: int| 0 <= i < before.len() ==> now[i] == before[i]);
            assert(self@.served =~= old(self)@.served.push(registration.types@.dom()));
            assert(self@.rules =~= old(self)@.rules.push(registration.store.rules()));
            assert(self@.held =~= old(self)@.held.push(registration.store.held()));
        }
    }

    /// Adds a store for the types that no other store is for in particular.
    pub fn add_generic_backing_store(&mut self, store: Box<dyn CacheBackingStore>)
        requires
            old(self).wf(),
        ensures
            final(self).wf(),
            final(self)@ == (CacheView {
                served: old(self)@.served.push(Set::empty()),
                rules: old(self)@.rules.push(store.rules()),
                held: old(self)@.held.push(store.held()),
                ..old(self)@
            }),
    {
        let none: OrderedMap<String, ()> = OrderedMap::new();
        assert(none@.dom() =~= Set::<Seq<char>>::empty());
        let registration = CultCacheStoreRegistration::of(store, none);
        self.add_registration(registration);
    }

    /// The places of the stores that entries of the type `type_id` go to, the primary one first.
    fn resolve_route_indices(&self, type_id: &str) -> (indices: Vec<usize>)
        requires
            self.wf(),
        ensures
            as_places(indices@) == route(self@.served, type_id@),
            increasing_below(indices@, self.stores@.len()),
    {
        let name = type_id.to_owned();
        let ghost served = self@.served;
        let ghost specific = |i: int| served[i].contains(type_id@);
        let ghost generic = |i: int| served[i] == Set::<Seq<char>>::empty();
        let mut for_type: Vec<usize> = Vec::new();
        let mut for_rest: Vec<usize> = Vec::new();
        let mut i: usize = 0;
        proof {
            lemma_no_places(specific);
            lemma_no_places(generic);
            assert(as_places(for_type@) =~= places(0, specific));
            assert(as_places(for_rest@) =~= places(0, generic));
        }
        while i < self.stores.len()
            invariant
                i <= self.stores@.len(),
                self.wf(),
                name@ == type_id@,
                served == self@.served,
                specific == (|i: int| served[i].contains(type_id@)),
                generic == (|i: int| served[i] == Set::<Seq<char>>::empty()),
                as_places(for_type@) == places(i as nat, specific),
                as_places(for_rest@) == places(i as nat, generic),
                increasing_below(for_type@, i as nat),
                increasing_below(for_rest@, i as nat),
            decreases self.stores@.len() - i,
        {
            let ghost t0 = for_type@;
            let ghost r0 = for_rest@;
            proof {
                lemma_one_more_place(i as nat, specific);
                lemma_one_more_place(i as nat, generic);
                assert(served[i as int] == self.stores@[i as int].types@.dom());
            }
            let registration = &self.stores[i];
            if registration.types.contains(&name) {
                for_type.push(i);
                assert(as_places(for_type@) =~= as_places(t0).push(i as int));
            }
            if registration.types.len() == 0 {
                assert(registration.types@.dom() =~= Set::<Seq<char>>::empty());
                for_rest.push(i);
                assert(as_places(for_rest@) =~= as_places(r0).push(i as int));
            } else {
                proof {
                    lemma_item_in_map(registration.types.items(), 0);
                    assert(registration.types@.dom().contains(registration.types.items()[0].0@));
                }
            }
            i = i + 1;
        }
        if for_type.len() > 0 {
            assert(as_places(for_type@).len() > 0);
            for_type
        } else {
            assert(as_places(for_type@).len() == 0);
            for_rest
        }
    }

    /// Asks the stores of `along` one after the other to push or to delete `entry`, up to the first
    /// that fails.
    fn relay(&mut self, along: &Vec<usize>, deletes: bool, entry: &CultCacheEnvelope) -> (done:
        Result<(), CultCacheError>)
        requires
            old(self).wf(),
            increasing_below(along@, old(self).stores@.len()),
        ensures
            final(self).wf(),
            final(self)@ == (CacheView { held: final(self)@.held, ..old(self)@ }),
            relayed(
                old(self)@.rules,
                old(self)@.held,
                final(self)@.held,
                as_places(along@),
                deletes,
                entry@,
                outcome(done),
            ),
    {
        let ghost before = self@.held;
        let ghost rules = self@.rules;
        let ghost path = as_places(along@);
        let mut i: usize = 0;
        while i < along.len()
            invariant
                i <= along@.len(),
                path == as_places(along@),
                before == old(self)@.held,
                rules == old(self)@.rules,
                before.len() == self.stores@.len(),
                increasing_below(along@, self.stores@.len()),
                types_sound(old(self)@),
                self.wf(),
                self@ == (CacheView { held: self@.held, ..old(self)@ }),
                relayed_until(rules, before, self@.held, path, i as int, deletes, entry@),
                forall|k: int|
                    i <= k < path.len() ==> self@.held[#[trigger] path[k]] == before[path[k]],
                forall|m: int|
                    0 <= m < before.len() && !path.contains(m) ==> #[trigger] self@.held[m]
                        == before[m],
            decreases along@.len() - i,
        {
            let at = along[i];
            let ghost stores = self.stores@;
            let ghost held = self@.held;
            assert(path[i as int] == at);
            let done = if deletes {
                self.stores[at].store.delete(entry)
            } else {
                self.stores[at].store.push(entry)
            };
            proof {
                assert(self.stores@.len() == stores.len());
                assert forall|k: int| 0 <= k < stores.len() implies (#[trigger] self.stores@[k]).types
                    == stores[k].types by {}
                assert(self@.served =~= old(self)@.served);
                assert(self@.rules =~= rules) by {
                    assert forall|k: int| 0 <= k < stores.len() implies self@.rules[k]
                        == rules[k] by {
                        assert(rules[k] == stores[k].store.rules());
                    }
                }
                assert(self@.held =~= held.update(at as int, self@.held[at as int]));
                assert(self@.definitions =~= old(self)@.definitions);
                assert(self@.entries =~= old(self)@.entries);
                assert(path.contains(at as int));
                assert forall|k: int| 0 <= k < path.len() && k != i implies #[trigger] path[k]
                    != at by {
                    assert(path[k] == along@[k]);
                }
                assert(answers(
                    rules[at as int],
                    deletes,
                    before[at as int],
                    entry@,
                    outcome(done),
                    self@.held[at as int],
                ));
                assert(relayed_until(rules, before, self@.held, path, i as int, deletes, entry@));
            }
            match done {
                Ok(_) => {},
                Err(e) => {
                    return Err(e);
                },
            }
            i = i + 1;
        }
        Ok(())
    }

    /// The values of the entries are what the cache lists.
    proof fn lemma_entries_listed(&self)
        requires
            self.wf(),
        ensures
            lists_entries(self@.entries, self.listed()),
    {
        lemma_values_listed(self.entries, self.listed());
    }

    /// The entries in the order of their identities.
    spec fn listed(&self) -> Seq<EnvelopeView> {
        Seq::new(self.entries.items().len(), |i: int| self.entries.items()[i].1@)
    }

    /// The entries of the cache, exactly, in the order of their identities.
    pub fn snapshot_envelopes(&self) -> (rows: Vec<CultCacheEnvelope>)
        requires
            self.wf(),
        ensures
            lists_entries(self@.entries, views(rows@)),
    {
        proof {
            self.lemma_entries_listed();
        }
        copy_values(&self.entries)
    }

    /// Fails where the type `T` is not registered with its schema's name.
    fn require_entry_type<T: DatabaseEntry>(&self) -> (done: Result<(), CultCacheError>)
        requires
            self.wf(),
        ensures
            match done {
                Ok(_) => registered::<T>(self@.definitions),
                Err(e) => !registered::<T>(self@.definitions) && e@ == (
                FailureView::TypeNotRegistered { entry_type: T::TYPE@ }),
            },
    {
        if let Some(schema) = self.definitions.get(&T::TYPE.to_owned()) {
            if same_text(schema, T::SCHEMA_NAME) {
                return Ok(());
            }
        }
        Err(Failure::TypeNotRegistered { entry_type: T::TYPE.to_owned() })
    }

    /// The document of the type `T` under `key`, where there is one.
    pub fn get<T: DatabaseEntry>(&self, key: &str) -> (found: Result<Option<T>, CultCacheError>)
        requires
            self.wf(),
        ensures
            looks_up::<T>(self@, key@, outcome(found)),
    {
        self.require_entry_type::<T>()?;
        match self.entries.get(&entry_id_parts(T::TYPE, key)) {
            None => Ok(None),
            Some(entry) => match T::unpack(&entry.payload) {
                Ok(value) => Ok(Some(value)),
                Err(cause) => {
                    let e = Failure::EntryUndecodable {
                        entry_type: T::TYPE.to_owned(),
                        key: key.to_owned(),
                        schema: T::SCHEMA_NAME.to_owned(),
                        cause,
                    };
                    assert(T::unpacks(
                        self@.entries[(T::TYPE@, key@)].payload,
                        Err::<T, Seq<char>>(cause@),
                    ));
                    Err(e)
                },
            },
        }
    }

    /// The document of the type `T` under `key`.
    pub fn get_required<T: DatabaseEntry>(&self, key: &str) -> (found: Result<T, CultCacheError>)
        requires
            self.wf(),
        ensures
            match found {
                Ok(value) => looks_up::<T>(self@, key@, Ok(Some(value))),
                Err(e) => {
                    ||| looks_up::<T>(self@, key@, Err(e@))
                    ||| looks_up::<T>(self@, key@, Ok(None)) && e@ == (FailureView::EntryMissing {
                        entry_type: T::TYPE@,
                        key: key@,
                    })
                },
            },
    {
        match self.get::<T>(key)? {
            Some(value) => Ok(value),
            None => Err(
                Failure::EntryMissing { entry_type: T::TYPE.to_owned(), key: key.to_owned() },
            ),
        }
    }

    /// The envelope of the type `T` under `key`, where there is one.
    pub fn get_envelope<T: DatabaseEntry>(&self, key: &str) -> (found: Result<
        Option<CultCacheEnvelope>,
        CultCacheError,
    >)
        requires
            self.wf(),
        ensures
            match found {
                Ok(None) => envelope_at::<T>(self@, key@) == Ok::<
                    Option<EnvelopeView>,
                    FailureView,
                >(None),
                Ok(Some(entry)) => envelope_at::<T>(self@, key@) == Ok::<
                    Option<EnvelopeView>,
                    FailureView,
                >(Some(entry@)),
                Err(e) => envelope_at::<T>(self@, key@) == Err::<
                    Option<EnvelopeView>,
                    FailureView,
                >(e@),
            },
    {
        self.require_entry_type::<T>()?;
        match self.entries.get(&entry_id_parts(T::TYPE, key)) {
            None => Ok(None),
            Some(entry) => Ok(Some(entry.clone())),
        }
    }

    /// The envelope of the type `T` under `key`.
    pub fn get_required_envelope<T: DatabaseEntry>(&self, key: &str) -> (found: Result<
        CultCacheEnvelope,
        CultCacheError,
    >)
        requires
            self.wf(),
        ensures
            match envelope_at::<T>(self@, key@) {
                Ok(Some(row)) => found is Ok && found->Ok_0@ == row,
                Ok(None) => found is Err && found->Err_0@ == (FailureView::EnvelopeMissing {
                    entry_type: T::TYPE@,
                    key: key@,
                }),
                Err(e) => found is Err && found->Err_0@ == e,
            },
    {
        match self.get_envelope::<T>(key)? {
            Some(entry) => Ok(entry),
            None => Err(
                Failure::EnvelopeMissing { entry_type: T::TYPE.to_owned(), key: key.to_owned() },
            ),
        }
    }

    /// The documents of the type `T` with their keys, in the order of the keys.
    pub fn get_all_with_keys<T: DatabaseEntry>(&self) -> (found: Result<
        Vec<(String, T)>,
        CultCacheError,
    >)
        requires
            self.wf(),
        ensures
            match found {
                Ok(pairs) => exists|rows: Seq<EnvelopeView>| #[trigger]
                    collects::<T>(self@, rows, Ok(values_of(pairs@))) && keys_of(pairs@)
                        == row_keys(rows),
                Err(e) => exists|rows: Seq<EnvelopeView>| #[trigger]
                    collects::<T>(self@, rows, Err(e@)),
            },
    {
        if let Err(e) = self.require_entry_type::<T>() {
            assert(collects::<T>(self@, Seq::empty(), Err(e@)));
            return Err(e);
        }
        let ghost all = self.listed();
        proof {
            self.lemma_entries_listed();
            reveal(Seq::filter);
        }
        let mut pairs: Vec<(String, T)> = Vec::new();
        let mut i: usize = 0;
        assert(all.take(0) =~= Seq::<EnvelopeView>::empty());
        while i < self.entries.len()
            invariant
                i <= self.entries.items().len(),
                self.wf(),
                registered::<T>(self@.definitions),
                all == self.listed(),
                lists_entries(self@.entries, all),
                unpacks_rows::<T>(rows_typed(all.take(i as int), T::TYPE@), Ok(values_of(pairs@))),
                keys_of(pairs@) == row_keys(rows_typed(all.take(i as int), T::TYPE@)),
            decreases self.entries.items().len() - i,
        {
            let entry = &self.entries.item(i).1;
            let ghost row = entry@;
            let ghost done = rows_typed(all.take(i as int), T::TYPE@);
            let ghost before = pairs@;
            proof {
                assert(all.take(i + 1) =~= all.take(i as int).push(row));
                lemma_rows_typed_push(all.take(i as int), row, T::TYPE@);
            }
            if same_text(entry.entry_type.as_str(), T::TYPE) {
                match T::unpack(&entry.payload) {
                    Ok(value) => {
                        pairs.push((entry.key.clone(), value));
                        proof {
                            let next = done.push(row);
                            assert(values_of(pairs@) =~= values_of(before).push(value));
                            assert(keys_of(pairs@) =~= keys_of(before).push(row.key));
                            assert(row_keys(next) =~= row_keys(done).push(row.key));
                            assert forall|k: int| 0 <= k < next.len() implies T::unpacks(
                                (#[trigger] next[k]).payload,
                                Ok::<T, Seq<char>>(values_of(pairs@)[k]),
                            ) by {
                                if k < done.len() {
                                    assert(next[k] == done[k]);
                                }
                            }
                        }
                    },
                    Err(cause) => {
                        let e = Failure::EntryUndecodable {
                            entry_type: T::TYPE.to_owned(),
                            key: entry.key.clone(),
                            schema: T::SCHEMA_NAME.to_owned(),
                            cause,
                        };
                        proof {
                            let rows = rows_typed(all, T::TYPE@);
                            let n = done.len() as int;
                            lemma_rows_typed_prefix(all, i + 1, T::TYPE@);
                            assert(rows.take(n + 1) =~= done.push(row));
                            assert(rows[n] == rows.take(n + 1)[n]);
                            assert(T::unpacks(rows[n].payload, Err::<T, Seq<char>>(cause@)));
                            assert forall|k: int| 0 <= k < n implies exists|v: T| #[trigger]
                                T::unpacks(
                                    (#[trigger] rows[k]).payload,
                                    Ok::<T, Seq<char>>(v),
                                ) by {
                                assert(rows[k] == rows.take(n + 1)[k]);
                                assert(T::unpacks(
                                    done[k].payload,
                                    Ok::<T, Seq<char>>(values_of(before)[k]),
                                ));
                            }
                            assert(unpacks_rows::<T>(rows, Err(e@)));
                            assert(collects::<T>(self@, rows, Err(e@)));
                        }
                        return Err(e);
                    },
                }
            }
            i = i + 1;
        }
        assert(all.take(i as int) =~= all);
        let found: Result<Vec<(String, T)>, CultCacheError> = Ok(pairs);
        proof {
            let rows = rows_typed(all, T::TYPE@);
            assert(collects::<T>(self@, rows, Ok(values_of(found->Ok_0@))));
            assert(keys_of(found->Ok_0@) == row_keys(rows));
        }
        found
    }

    /// The documents of the type `T`, in the order of their keys.
    pub fn get_all<T: DatabaseEntry>(&self) -> (found: Result<Vec<T>, CultCacheError>)
        requires
            self.wf(),
        ensures
            match found {
                Ok(values) => exists|rows: Seq<EnvelopeView>| #[trigger]
                    collects::<T>(self@, rows, Ok(values@)),
                Err(e) => exists|rows: Seq<EnvelopeView>| #[trigger]
                    collects::<T>(self@, rows, Err(e@)),
            },
    {
        let pairs = self.get_all_with_keys::<T>()?;
        let ghost rows = choose|rows: Seq<EnvelopeView>| #[trigger]
            collects::<T>(self@, rows, Ok(values_of(pairs@))) && keys_of(pairs@) == row_keys(rows);
        let (_, values) = unzip(pairs);
        let found: Result<Vec<T>, CultCacheError> = Ok(values);
        assert(collects::<T>(self@, rows, Ok(found->Ok_0@)));
        found
    }

    /// The documents of the type `T` with their keys and their columns.
    pub fn soa<T: SoaDocument>(&self) -> (table: Result<
        CultSoaTable<T, T::Column>,
        CultCacheError,
    >)
        requires
            self.wf(),
        ensures
            match table {
                Ok(t) => {
                    &&& t.wf()
                    &&& T::lays_out(t.held(), t.column_map())
                    &&& exists|rows: Seq<EnvelopeView>| #[trigger]
                        collects::<T>(self@, rows, Ok(t.held())) && t.document_keys() == row_keys(
                            rows,
                        )
                },
                Err(e) => exists|rows: Seq<EnvelopeView>| #[trigger]
                    collects::<T>(self@, rows, Err(e@)),
            },
    {
        let (keys, documents) = unzip(self.get_all_with_keys::<T>()?);
        assert(keys@.len() == texts(keys@).len());
        let columns = T::soa_columns(documents.as_slice());
        Ok(CultSoaTable::assemble(keys, documents, columns))
    }

    /// Completes a packed entry of the type `T`, whose payload must unpack again.
    fn finish_prepared_entry<T: DatabaseEntry>(&self, key: String, payload: Vec<u8>) -> (prepared:
        Result<(CultCacheEnvelope, T), CultCacheError>)
        ensures
            finishes::<T>(key@, payload@, prepared_outcome(prepared)),
    {
        match T::unpack(&payload) {
            Ok(parsed) => Ok((stamp_entry::<T>(key, payload, current_moment()), parsed)),
            Err(cause) => {
                assert(T::unpacks(payload@, Err::<T, Seq<char>>(cause@)));
                Err(
                    Failure::EntryInvalid {
                        entry_type: T::TYPE.to_owned(),
                        key,
                        schema: T::SCHEMA_NAME.to_owned(),
                        cause,
                    },
                )
            },
        }
    }

    /// Packs `value` for storing under `key`, without storing it.
    pub fn prepare_entry<T: DatabaseEntry>(&self, key: String, value: &T) -> (prepared: Result<
        (CultCacheEnvelope, T),
        CultCacheError,
    >)
        requires
            self.wf(),
        ensures
            prepares::<T>(self@.definitions, key@, *value, prepared_outcome(prepared)),
    {
        self.require_entry_type::<T>()?;
        match value.pack() {
            Ok(payload) => {
                assert(value.packs(Ok::<Seq<u8>, Seq<char>>(payload@)));
                self.finish_prepared_entry::<T>(key, payload)
            },
            Err(cause) => {
                assert(value.packs(Err::<Seq<u8>, Seq<char>>(cause@)));
                Err(
                    Failure::EntryUnencodable {
                        entry_type: T::TYPE.to_owned(),
                        key,
                        schema: T::SCHEMA_NAME.to_owned(),
                        cause,
                    },
                )
            },
        }
    }

    /// Packs `value` with named fields for storing under `key`, without storing it. Named fields
    /// keep optional fields that are left out from shifting the ones behind them.
    pub fn prepare_entry_named<T: DatabaseEntry>(&self, key: String, value: &T) -> (prepared: Result<
        (CultCacheEnvelope, T),
        CultCacheError,
    >)
        requires
            self.wf(),
        ensures
            prepares_named::<T>(self@.definitions, key@, *value, prepared_outcome(prepared)),
    {
        self.require_entry_type::<T>()?;
        match value.pack_named() {
            Ok(payload) => {
                assert(value.packs_named(Ok::<Seq<u8>, Seq<char>>(payload@)));
                self.finish_prepared_entry::<T>(key, payload)
            },
            Err(cause) => {
                assert(value.packs_named(Err::<Seq<u8>, Seq<char>>(cause@)));
                Err(
                    Failure::NamedEntryUnencodable {
                        entry_type: T::TYPE.to_owned(),
                        key,
                        schema: T::SCHEMA_NAME.to_owned(),
                        cause,
                    },
                )
            },
        }
    }

    /// Writes `entry` to the stores of its type, the primary one first, and then into the cache.
    fn write_through(&mut self, entry: CultCacheEnvelope) -> (done: Result<(), CultCacheError>)
        requires
            old(self).wf(),
            old(self)@.definitions.contains_key(entry@.entry_type),
        ensures
            final(self).wf(),
            writes_through(old(self)@, final(self)@, entry@, outcome(done)),
    {
        let along = self.resolve_route_indices(entry.entry_type.as_str());
        assert(as_places(along@).len() == along@.len());
        if along.len() == 0 {
            return Err(Failure::NoStore { entry_type: entry.entry_type });
        }
        self.relay(&along, false, &entry)?;
        self.keep(entry);
        Ok(())
    }

    /// Puts `entry` under its identity.
    fn keep(&mut self, entry: CultCacheEnvelope)
        requires
            old(self).wf(),
            old(self)@.definitions.contains_key(entry@.entry_type),
        ensures
            final(self).wf(),
            final(self)@ == (CacheView {
                entries: old(self)@.entries.insert(entry@.id(), entry@),
                ..old(self)@
            }),
            final(self).stores == old(self).stores,
    {
        self.entries.insert(entry_id(&entry), entry);
        assert(self@ =~= (CacheView {
            entries: old(self)@.entries.insert(entry@.id(), entry@),
            ..old(self)@
        }));
    }

    /// Stores `value` under `key`, in the stores of its type and then in the cache.
    pub fn put<T: DatabaseEntry>(&mut self, key: String, value: &T) -> (stored: Result<
        T,
        CultCacheError,
    >)
        requires
            old(self).wf(),
        ensures
            final(self).wf(),
            puts::<T>(old(self)@, final(self)@, key@, *value, outcome(stored)),
    {
        let (entry, parsed) = self.prepare_entry::<T>(key, value)?;
        assert(prepares::<T>(self@.definitions, key@, *value, Ok((entry@, parsed))));
        self.write_through(entry)?;
        assert(writes_through(old(self)@, self@, entry@, Ok(())));
        Ok(parsed)
    }

    /// Checks `entry` as an envelope of the type `T` and unpacks its payload.
    fn validate_envelope<T: DatabaseEntry>(&self, entry: &CultCacheEnvelope) -> (checked: Result<
        T,
        CultCacheError,
    >)
        requires
            self.wf(),
        ensures
            validates::<T>(self@.definitions, entry@, outcome(checked)),
    {
        self.require_entry_type::<T>()?;
        if !same_text(entry.entry_type.as_str(), T::TYPE) {
            return Err(
                Failure::EnvelopeTypeMismatch {
                    found: entry.entry_type.clone(),
                    wanted: T::TYPE.to_owned(),
                },
            );
        }
        if is_blank(entry.key.as_str()) {
            return Err(Failure::EnvelopeKeyBlank { entry_type: T::TYPE.to_owned() });
        }
        if is_blank(entry.stored_at.as_str()) {
            return Err(Failure::EnvelopeStoredAtBlank { entry_type: T::TYPE.to_owned() });
        }
        match T::unpack(&entry.payload) {
            Ok(value) => Ok(value),
            Err(cause) => {
                assert(T::unpacks(entry@.payload, Err::<T, Seq<char>>(cause@)));
                Err(
                    Failure::EnvelopeInvalid {
                        entry_type: T::TYPE.to_owned(),
                        key: entry.key.clone(),
                        schema: T::SCHEMA_NAME.to_owned(),
                        cause,
                    },
                )
            },
        }
    }

    /// Stores an envelope of the type `T`, in the stores of its type and then in the cache.
    pub fn put_envelope<T: DatabaseEntry>(&mut self, entry: CultCacheEnvelope) -> (stored: Result<
        T,
        CultCacheError,
    >)
        requires
            old(self).wf(),
        ensures
            final(self).wf(),
            puts_envelope::<T>(old(self)@, final(self)@, entry@, outcome(stored)),
    {
        let parsed = self.validate_envelope::<T>(&entry)?;
        assert(validates::<T>(self@.definitions, entry@, Ok(parsed)));
        self.write_through(entry)?;
        Ok(parsed)
    }

    /// Stores an envelope of a registered type without looking at its payload, in the stores of its
    /// type and then in the cache.
    pub fn put_raw_envelope(&mut self, entry: CultCacheEnvelope) -> (done: Result<
        (),
        CultCacheError,
    >)
        requires
            old(self).wf(),
        ensures
            final(self).wf(),
            puts_raw(old(self)@, final(self)@, entry@, outcome(done)),
    {
        if !self.definitions.contains(&entry.entry_type) {
            return Err(Failure::EnvelopeTypeUnknown { entry_type: entry.entry_type });
        }
        if is_blank(entry.key.as_str()) {
            return Err(Failure::EnvelopeKeyBlank { entry_type: entry.entry_type });
        }
        if is_blank(entry.stored_at.as_str()) {
            return Err(Failure::EnvelopeStoredAtBlank { entry_type: entry.entry_type });
        }
        self.write_through(entry)
    }

    /// Takes an envelope of the type `T` into the cache without telling any store.
    pub fn load_envelope<T: DatabaseEntry>(&mut self, entry: CultCacheEnvelope) -> (loaded: Result<
        T,
        CultCacheError,
    >)
        requires
            old(self).wf(),
        ensures
            final(self).wf(),
            loads_envelope::<T>(old(self)@, final(self)@, entry@, outcome(loaded)),
    {
        let parsed = self.validate_envelope::<T>(&entry)?;
        self.keep(entry);
        Ok(parsed)
    }

    /// Replaces the document of the type `T` under `key` by what `updater` makes of it.
    pub fn update<T: DatabaseEntry, F: FnOnce(Option<T>) -> T>(
        &mut self,
        key: &str,
        updater: F,
    ) -> (stored: Result<T, CultCacheError>)
        requires
            old(self).wf(),
            forall|current: Option<T>| call_requires(updater, (current,)),
        ensures
            final(self).wf(),
            updates::<T, F>(old(self)@, final(self)@, key@, updater, outcome(stored)),
    {
        let current = self.get::<T>(key)?;
        let value = updater(current);
        self.put::<T>(key.to_owned(), &value)
    }

    /// Deletes the document of the type `T` under `key`, from the stores of its type and then from
    /// the cache.
    pub fn delete<T: DatabaseEntry>(&mut self, key: &str) -> (deleted: Result<
        bool,
        CultCacheError,
    >)
        requires
            old(self).wf(),
        ensures
            final(self).wf(),
            deletes_document::<T>(old(self)@, final(self)@, key@, outcome(deleted)),
            envelope_at::<T>(old(self)@, key@) matches Ok(Some(entry)) ==> deletes_through(
                old(self)@,
                final(self)@,
                T::TYPE@,
                entry,
                deleted_answer(deleted),
            ),
    {
        self.require_entry_type::<T>()?;
        let id = entry_id_parts(T::TYPE, key);
        let entry = match self.entries.get(&id) {
            None => {
                return Ok(false);
            },
            Some(entry) => entry.clone(),
        };
        let along = self.resolve_route_indices(T::TYPE);
        assert(as_places(along@).len() == along@.len());
        if along.len() == 0 {
            return Err(Failure::NoStore { entry_type: T::TYPE.to_owned() });
        }
        self.relay(&along, true, &entry)?;
        let ghost relayed_to = self@;
        self.entries.remove(&id);
        assert(self@ =~= (CacheView { entries: relayed_to.entries.remove(id@), ..relayed_to }));
        Ok(true)
    }

    /// Takes `rows` into the cache, up to the first whose type is not registered, and hands back
    /// that type.
    fn keep_known(&mut self, rows: Vec<CultCacheEnvelope>) -> (unknown: Option<String>)
        requires
            old(self).wf(),
        ensures
            final(self).wf(),
            final(self)@ == (CacheView { entries: final(self)@.entries, ..old(self)@ }),
            final(self).stores == old(self).stores,
            match unknown {
                None => all_known(old(self)@.definitions, views(rows@)) && final(self)@.entries
                    == with_entries(old(self)@.entries, views(rows@)),
                Some(t) => exists|k: int| #[trigger]
                    first_unknown(old(self)@.definitions, views(rows@), k) && t@ == views(
                        rows@,
                    )[k].entry_type && final(self)@.entries == with_entries(
                        old(self)@.entries,
                        views(rows@).take(k),
                    ),
            },
    {
        let ghost all = views(rows@);
        let ghost given = rows@;
        let ghost before = self@;
        assert(all.take(0) =~= Seq::<EnvelopeView>::empty());
        for row in iter: rows
            invariant
                iter.seq() == given,
                all == views(given),
                before == old(self)@,
                all == views(rows@),
                self.wf(),
                self.stores == old(self).stores,
                types_known(before.definitions, all, iter.index()),
                self@ == (CacheView {
                    entries: with_entries(before.entries, all.take(iter.index())),
                    ..before
                }),
        {
            let ghost n = iter.index();
            assert(row@ == all[n]);
            if !self.definitions.contains(&row.entry_type) {
                assert(first_unknown(before.definitions, all, n));
                return Some(row.entry_type);
            }
            self.keep(row);
            assert(all.take(n + 1).drop_last() =~= all.take(n));
        }
        assert(all.take(all.len() as int) =~= all);
        None
    }

    /// Empties the cache and loads the rows of all stores, one store after the other.
    pub fn pull_all_backing_stores(&mut self) -> (done: Result<(), CultCacheError>)
        requires
            old(self).wf(),
        ensures
            final(self).wf(),
            reloads(old(self)@, final(self)@, outcome(done)),
    {
        self.entries.clear();
        let ghost mut pulled: Seq<Seq<EnvelopeView>> = Seq::empty();
        let ghost before = old(self)@;
        proof {
            assert(self@ =~= (CacheView { entries: Map::empty(), ..before }));
        }
        let mut i: usize = 0;
        while i < self.stores.len()
            invariant
                i <= self.stores@.len(),
                before == old(self)@,
                before.served.len() == self.stores@.len(),
                self.wf(),
                self.stores == old(self).stores,
                pulled.len() == i,
                forall|k: int|
                    0 <= k < i ==> store_pulls(old(self)@, k, Ok(#[trigger] pulled[k])),
                all_known(before.definitions, joined(pulled)),
                self@ == (CacheView {
                    entries: with_entries(Map::empty(), joined(pulled)),
                    ..before
                }),
            decreases self.stores@.len() - i,
        {
            let rows = match self.stores[i].store.pull_all() {
                Ok(rows) => rows,
                Err(e) => {
                    assert(store_pulls(old(self)@, i as int, Err(e@)));
                    assert(loads(before.definitions, joined(pulled), self@.entries, None));
                    assert(reloads_with(before, self@, pulled, Err(e@)));
                    return Err(e);
                },
            };
            let ghost run = views(rows@);
            let ghost so_far = joined(pulled);
            let ghost next = pulled.push(run);
            proof {
                assert(store_pulls(old(self)@, i as int, Ok(run)));
                assert(next.drop_last() =~= pulled);
                assert(joined(next) == so_far + run);
            }
            match self.keep_known(rows) {
                Some(entry_type) => {
                    proof {
                        let k = choose|k: int| #[trigger]
                            first_unknown(before.definitions, run, k) && entry_type@
                                == run[k].entry_type && self@.entries == with_entries(
                                with_entries(Map::empty(), so_far),
                                run.take(k),
                            );
                        let at = so_far.len() + k;
                        lemma_with_entries_add(Map::empty(), so_far, run.take(k));
                        assert(joined(next).take(at) =~= so_far + run.take(k));
                        assert(types_known(before.definitions, joined(next), at)) by {
                            assert forall|m: int| 0 <= m < at implies before.definitions.contains_key(
                                (#[trigger] joined(next)[m]).entry_type,
                            ) by {
                                if m < so_far.len() {
                                    assert(joined(next)[m] == so_far[m]);
                                } else {
                                    assert(joined(next)[m] == run[m - so_far.len()]);
                                }
                            }
                        }
                        assert(first_unknown(before.definitions, joined(next), at));
                        assert(loads(
                            before.definitions,
                            joined(next),
                            self@.entries,
                            Some(entry_type@),
                        ));
                        assert forall|m: int| 0 <= m < next.len() implies store_pulls(old(self)@,
                            m,
                            Ok(#[trigger] next[m]),
                        ) by {
                            if m < i {
                                assert(next[m] == pulled[m]);
                            }
                        }
                        assert(reloads_with(
                            before,
                            self@,
                            next,
                            Err(FailureView::PersistedTypeUnknown { entry_type: entry_type@ }),
                        ));
                    }
                    return Err(Failure::PersistedTypeUnknown { entry_type });
                },
                None => {
                    proof {
                        lemma_with_entries_add(Map::empty(), so_far, run);
                        assert forall|m: int| 0 <= m < joined(next).len() implies
                            before.definitions.contains_key((#[trigger] joined(next)[m]).entry_type) by {
                            if m < so_far.len() {
                                assert(joined(next)[m] == so_far[m]);
                            } else {
                                assert(joined(next)[m] == run[m - so_far.len()]);
                            }
                        }
                        assert forall|m: int| 0 <= m < i + 1 implies store_pulls(old(self)@,
                            m,
                            Ok(#[trigger] next[m]),
                        ) by {
                            if m < i {
                                assert(next[m] == pulled[m]);
                            }
                        }
                        pulled = next;
                    }
                },
            }
            i = i + 1;
        }
        assert(loads(before.definitions, joined(pulled), self@.entries, None));
        assert(reloads_with(before, self@, pulled, Ok(())));
        Ok(())
    }

    /// The entries of the cache, exactly, in the order of their identities.
    pub fn snapshot(&self) -> (rows: Vec<CultCacheEnvelope>)
        requires
            self.wf(),
        ensures
            lists_entries(self@.entries, views(rows@)),
    {
        self.snapshot_envelopes()
    }

    /// The entries of the cache as columns, in the order of their identities.
    pub fn snapshot_soa(&self) -> (table: CultCacheSoaTable)
        requires
            self.wf(),
        ensures
            table.even(),
            lists_entries(self@.entries, table.rows()),
    {
        CultCacheSoaTable::from_envelopes(self.snapshot())
    }

    /// Empties the cache and loads the rows of `table`, without telling any store.
    pub fn load_soa(&mut self, table: CultCacheSoaTable) -> (done: Result<(), CultCacheError>)
        requires
            old(self).wf(),
        ensures
            final(self).wf(),
            loads_columns(old(self)@, final(self)@, table.refusal(), table.rows(), outcome(done)),
    {
        self.entries.clear();
        proof {
            assert(self@ =~= (CacheView { entries: Map::empty(), ..old(self)@ }));
        }
        let rows = table.into_envelopes()?;
        match self.keep_known(rows) {
            Some(entry_type) => Err(Failure::SoaTypeUnknown { entry_type }),
            None => Ok(()),
        }
    }

    /// The one store that all `rows` go to, where there are any.
    fn one_store(&self, rows: &Vec<CultCacheEnvelope>) -> (chosen: Result<
        Option<usize>,
        CultCacheError,
    >)
        requires
            self.wf(),
        ensures
            match chosen {
                Ok(None) => batch_store(self@.definitions, self@.served, views(rows@)) == Ok::<
                    Option<int>,
                    FailureView,
                >(None),
                Ok(Some(at)) => at < self.stores@.len() && batch_store(
                    self@.definitions,
                    self@.served,
                    views(rows@),
                ) == Ok::<Option<int>, FailureView>(Some(at as int)),
                Err(e) => batch_store(self@.definitions, self@.served, views(rows@)) == Err::<
                    Option<int>,
                    FailureView,
                >(e@),
            },
    {
        let ghost all = views(rows@);
        let mut chosen: Option<usize> = None;
        let mut i: usize = 0;
        assert(all.take(0) =~= Seq::<EnvelopeView>::empty());
        while i < rows.len()
            invariant
                i <= rows@.len(),
                all == views(rows@),
                self.wf(),
                chosen matches Some(at) ==> at < self.stores@.len(),
                batch_store(self@.definitions, self@.served, all.take(i as int)) == Ok::<
                    Option<int>,
                    FailureView,
                >(
                    match chosen {
                        Some(at) => Some(at as int),
                        None => None,
                    },
                ),
            decreases rows@.len() - i,
        {
            let entry_type = &rows[i].entry_type;
            let ghost step = batch_store(self@.definitions, self@.served, all.take(i + 1));
            proof {
                assert(all.take(i + 1).drop_last() =~= all.take(i as int));
                assert(all.take(i + 1).last() == all[i as int]);
                if step is Err {
                    lemma_batch_refused(self@.definitions, self@.served, all, i + 1);
                }
            }
            if !self.definitions.contains(entry_type) {
                return Err(Failure::BatchTypeUnknown { entry_type: entry_type.clone() });
            }
            let along = self.resolve_route_indices(entry_type.as_str());
            assert(as_places(along@).len() == along@.len());
            if along.len() != 1 {
                return Err(
                    Failure::BatchRoute { entry_type: entry_type.clone(), stores: along.len() },
                );
            }
            let at = along[0];
            assert(as_places(along@)[0] == at);
            if let Some(expected) = chosen {
                if expected != at {
                    return Err(Failure::BatchSpansStores);
                }
            }
            chosen = Some(at);
            i = i + 1;
        }
        assert(all.take(i as int) =~= all);
        Ok(chosen)
    }

    /// Stores prepared envelopes together with everything in the cache, in one replacement of all
    /// rows of the one store that they all go to.
    pub fn put_prepared_batch(&mut self, staged: Vec<CultCacheEnvelope>) -> (done: Result<
        (),
        CultCacheError,
    >)
        requires
            old(self).wf(),
        ensures
            final(self).wf(),
            final(self)@.definitions == old(self)@.definitions,
            final(self)@.served == old(self)@.served,
            publishes_batch(old(self)@, final(self)@, views(staged@), outcome(done)),
    {
        if staged.len() == 0 {
            return Err(Failure::BatchEmpty);
        }
        let ghost held = self.listed();
        let held_rows = self.snapshot_envelopes();
        proof {
            self.lemma_entries_listed();
            listing_of_entries_is_unique(self@.entries, held, views(held_rows@));
        }
        let mut touched = copy_rows(staged.as_slice());
        let ghost new_rows = views(staged@);
        join_rows(&mut touched, copy_rows(held_rows.as_slice()));
        let at = match self.one_store(&touched)? {
            Some(at) => at,
            None => {
                proof {
                    lemma_batch_chosen(self@.definitions, self@.served, views(touched@));
                }
                return Err(Failure::BatchEmpty);
            },
        };
        proof {
            lemma_batch_known(self@.definitions, self@.served, views(touched@));
        }
        let mut next: OrderedMap<(String, String), CultCacheEnvelope> = OrderedMap::new();
        assert(entries_view(next@) =~= Map::<Identity, EnvelopeView>::empty());
        put_rows(&mut next, held_rows);
        proof {
            listed_entries_restore(self@.entries, held);
        }
        put_rows(&mut next, staged);
        let snapshot = copy_values(&next);
        let ghost target = with_entries(self@.entries, new_rows);
        proof {
            lemma_values_listed(next, views(snapshot@));
        }
        let ghost before = self@;
        let ghost stores = self.stores@;
        let options = PushAllOptions::default();
        let done = self.stores[at].store.push_all(snapshot.as_slice(), options);
        proof {
            assert(self.stores@.len() == stores.len());
            assert forall|k: int| 0 <= k < stores.len() implies (#[trigger] self.stores@[k]).types
                == stores[k].types by {}
            assert(self@.served =~= before.served);
            assert(self@.rules =~= before.rules) by {
                assert forall|k: int| 0 <= k < stores.len() implies self@.rules[k]
                    == before.rules[k] by {
                    assert(before.rules[k] == stores[k].store.rules());
                }
            }
            assert(self@.held =~= before.held.update(at as int, self@.held[at as int]));
            assert((before.rules[at as int].replaces)(
                before.held[at as int],
                views(snapshot@),
                PushAllOptions { soft: false },
                outcome(done),
                self@.held[at as int],
            ));
        }
        match done {
            Ok(_) => {
                self.entries = next;
                proof {
                    assert(self@.entries =~= target);
                    assert forall|id: Identity| #[trigger]
                        target.contains_key(id) implies self@.definitions.contains_key(id.0) by {
                        lemma_with_entries_at(before.entries, new_rows, id);
                        if !before.entries.contains_key(id) {
                            let i = choose|i: int|
                                0 <= i < new_rows.len() && (#[trigger] new_rows[i]).id() == id;
                            assert(views(touched@)[i] == new_rows[i]);
                        }
                    }
                }
                Ok(())
            },
            Err(e) => Err(e),
        }
    }
}

impl Default for CultCache {
    fn default() -> (cache: Self)
        ensures
            cache.wf(),
            cache@ == (CacheView {
                definitions: Map::empty(),
                entries: Map::empty(),
                served: Seq::empty(),
                rules: Seq::empty(),
                held: Seq::empty(),
            }),
    {
        CultCache::new()
    }
}

/// What the values of `entries` hold.
pub open spec fn entries_view(entries: Map<Identity, CultCacheEnvelope>) -> Map<
    Identity,
    EnvelopeView,
> {
    entries.map_values(|entry: CultCacheEnvelope| entry@)
}

/// Every envelope of `entries` stands under its own identity.
spec fn keyed_by_identity(entries: OrderedMap<(String, String), CultCacheEnvelope>) -> bool {
    &&& entries.wf()
    &&& forall|id: Identity| #[trigger] entries@.contains_key(id) ==> entries@[id]@.id() == id
}

/// Puts `rows` under their identities.
fn put_rows(
    entries: &mut OrderedMap<(String, String), CultCacheEnvelope>,
    rows: Vec<CultCacheEnvelope>,
)
    requires
        keyed_by_identity(*old(entries)),
    ensures
        keyed_by_identity(*final(entries)),
        entries_view(final(entries)@) == with_entries(entries_view(old(entries)@), views(rows@)),
{
    let ghost all = views(rows@);
    let ghost given = rows@;
    let ghost before = entries_view(entries@);
    assert(all.take(0) =~= Seq::<EnvelopeView>::empty());
    for row in iter: rows
        invariant
            iter.seq() == given,
            all == views(given),
            keyed_by_identity(*entries),
            entries_view(entries@) == with_entries(before, all.take(iter.index())),
    {
        let ghost n = iter.index();
        let ghost now = entries_view(entries@);
        let ghost this = row@;
        entries.insert(entry_id(&row), row);
        proof {
            assert(this == all[n]);
            assert(all.take(n + 1).drop_last() =~= all.take(n));
            assert(entries_view(entries@) =~= now.insert(this.id(), this));
        }
    }
    assert(all.take(all.len() as int) =~= all);
}

/// The values of `entries` in the order of their keys are what its view lists.
proof fn lemma_values_listed(
    entries: OrderedMap<(String, String), CultCacheEnvelope>,
    rows: Seq<EnvelopeView>,
)
    requires
        keyed_by_identity(entries),
        rows == Seq::new(entries.items().len(), |i: int| entries.items()[i].1@),
    ensures
        lists_entries(entries_view(entries@), rows),
{
    let items = entries.items();
    let held = entries_view(entries@);
    assert forall|i: int| 0 <= i < rows.len() implies (#[trigger] rows[i]).id() == items[i].0@
        && held.contains_key(rows[i].id()) && held[rows[i].id()] == rows[i] by {
        lemma_item_in_map(items, i);
        assert(entries@.contains_key(items[i].0@));
    }
    assert forall|i: int, j: int| 0 <= i < j < rows.len() implies pair_before(
        (#[trigger] rows[i]).id(),
        (#[trigger] rows[j]).id(),
    ) by {
        assert(rows[i].id() == items[i].0@);
        assert(rows[j].id() == items[j].0@);
    }
    assert forall|id: Identity| #[trigger] held.contains_key(id) implies exists|i: int|
        0 <= i < rows.len() && (#[trigger] rows[i]).id() == id by {
        assert(entries@.contains_key(id));
        let i = index_of_key(items, id);
        assert(rows[i].id() == items[i].0@);
    }
}

proof fn lemma_batch_refused(
    definitions: Map<Seq<char>, Seq<char>>,
    served: Seq<Set<Seq<char>>>,
    rows: Seq<EnvelopeView>,
    n: int,
)
    requires
        0 <= n <= rows.len(),
        batch_store(definitions, served, rows.take(n)) is Err,
    ensures
        batch_store(definitions, served, rows) == batch_store(definitions, served, rows.take(n)),
    decreases rows.len() - n,
{
    if n == rows.len() {
        assert(rows.take(n) =~= rows);
    } else {
        assert(rows.take(n + 1).drop_last() =~= rows.take(n));
        lemma_batch_refused(definitions, served, rows, n + 1);
    }
}

/// The types of a batch that has a store are registered.
proof fn lemma_batch_known(
    definitions: Map<Seq<char>, Seq<char>>,
    served: Seq<Set<Seq<char>>>,
    rows: Seq<EnvelopeView>,
)
    requires
        batch_store(definitions, served, rows) is Ok,
    ensures
        all_known(definitions, rows),
    decreases rows.len(),
{
    if rows.len() > 0 {
        let rest = rows.drop_last();
        lemma_batch_known(definitions, served, rest);
        assert forall|i: int| 0 <= i < rows.len() implies definitions.contains_key(
            (#[trigger] rows[i]).entry_type,
        ) by {
            if i < rest.len() {
                assert(rest[i] == rows[i]);
            }
        }
    }
}

/// A batch of rows without a store is empty or refused.
proof fn lemma_batch_chosen(
    definitions: Map<Seq<char>, Seq<char>>,
    served: Seq<Set<Seq<char>>>,
    rows: Seq<EnvelopeView>,
)
    requires
        rows.len() > 0,
    ensures
        batch_store(definitions, served, rows) != Ok::<Option<int>, FailureView>(None),
{
}

/// The places that `indices` name.
pub open spec fn as_places(indices: Seq<usize>) -> Seq<int> {
    Seq::new(indices.len(), |i: int| indices[i] as int)
}

/// `indices` increase and stay below `n`.
pub open spec fn increasing_below(indices: Seq<usize>, n: nat) -> bool {
    &&& forall|i: int| 0 <= i < indices.len() ==> (#[trigger] indices[i]) < n
    &&& forall|i: int, j: int|
        0 <= i < j < indices.len() ==> (#[trigger] indices[i]) < (#[trigger] indices[j])
}

proof fn lemma_no_places(p: spec_fn(int) -> bool)
    ensures
        places(0, p) == Seq::<int>::empty(),
{
    reveal(Seq::filter);
    assert(Seq::new(0, |i: int| i) =~= Seq::<int>::empty());
}

proof fn lemma_one_more_place(n: nat, p: spec_fn(int) -> bool)
    ensures
        places(n + 1, p) == if p(n as int) {
            places(n, p).push(n as int)
        } else {
            places(n, p)
        },
{
    reveal(Seq::filter);
    let more = Seq::new(n + 1, |i: int| i);
    assert(more.drop_last() =~= Seq::new(n, |i: int| i));
    assert(more.last() == n);
}

/// The documents of pairs of keys and documents.
pub open spec fn values_of<T>(pairs: Seq<(String, T)>) -> Seq<T> {
    Seq::new(pairs.len(), |i: int| pairs[i].1)
}

/// The keys of pairs of keys and documents.
pub open spec fn keys_of<T>(pairs: Seq<(String, T)>) -> Seq<Seq<char>> {
    Seq::new(pairs.len(), |i: int| pairs[i].0@)
}

/// The keys of rows.
pub open spec fn row_keys(rows: Seq<EnvelopeView>) -> Seq<Seq<char>> {
    Seq::new(rows.len(), |i: int| rows[i].key)
}

pub proof fn lemma_rows_typed_push(rows: Seq<EnvelopeView>, row: EnvelopeView, t: Seq<char>)
    ensures
        rows_typed(rows.push(row), t) == if row.entry_type == t {
            rows_typed(rows, t).push(row)
        } else {
            rows_typed(rows, t)
        },
{
    reveal(Seq::filter);
    assert(rows.push(row).drop_last() =~= rows);
}

/// The rows of a type among the first rows come first among the rows of that type.
proof fn lemma_rows_typed_prefix(rows: Seq<EnvelopeView>, n: int, t: Seq<char>)
    requires
        0 <= n <= rows.len(),
    ensures
        rows_typed(rows.take(n), t).len() <= rows_typed(rows, t).len(),
        rows_typed(rows, t).take(rows_typed(rows.take(n), t).len() as int) == rows_typed(
            rows.take(n),
            t,
        ),
{
    let some = rows.take(n);
    let rest = rows.skip(n);
    assert(rows =~= some + rest);
    Seq::filter_distributes_over_add(some, rest, |row: EnvelopeView| row.entry_type == t);
    assert(rows_typed(rows, t) == rows_typed(some, t) + rows_typed(rest, t));
    assert(rows_typed(rows, t).take(rows_typed(some, t).len() as int) =~= rows_typed(some, t));
}

/// Copies of the values of `entries`, in the order of their keys.
fn copy_values(entries: &OrderedMap<(String, String), CultCacheEnvelope>) -> (rows: Vec<
    CultCacheEnvelope,
>)
    ensures
        views(rows@) == Seq::new(entries.items().len(), |i: int| entries.items()[i].1@),
{
    let mut rows: Vec<CultCacheEnvelope> = Vec::with_capacity(entries.len());
    let mut i: usize = 0;
    while i < entries.len()
        invariant
            i <= entries.items().len(),
            rows@.len() == i,
            forall|j: int| 0 <= j < i ==> (#[trigger] rows@[j])@ == entries.items()[j].1@,
        decreases entries.items().len() - i,
    {
        rows.push(entries.item(i).1.clone());
        i = i + 1;
    }
    assert(views(rows@) =~= Seq::new(entries.items().len(), |i: int| entries.items()[i].1@));
    rows
}

/// What preparing an entry came to.
pub open spec fn prepared_outcome<T>(r: Result<(CultCacheEnvelope, T), CultCacheError>) -> Result<
    (EnvelopeView, T),
    FailureView,
> {
    match r {
        Ok((entry, value)) => Ok((entry@, value)),
        Err(e) => Err(e@),
    }
}

/// What deleting an entry that is held came to.
pub open spec fn deleted_answer(r: Result<bool, CultCacheError>) -> Result<(), FailureView> {
    match r {
        Ok(_) => Ok(()),
        Err(e) => Err(e@),
    }
}

/// The envelope of a packed document of the type `T`, stored at `stored_at`.
pub fn stamp_entry<T: DatabaseEntry>(key: String, payload: Vec<u8>, stored_at: String) -> (entry:
    CultCacheEnvelope)
    ensures
        entry@ == prepared_view::<T>(key@, payload@, stored_at@),
{
    CultCacheEnvelope {
        key,
        entry_type: T::TYPE.to_owned(),
        payload,
        stored_at,
        schema_id: Some(T::TYPE.to_owned()),
    }
}

/// Takes pairs of keys and documents apart.
fn unzip<T>(pairs: Vec<(String, T)>) -> (parts: (Vec<String>, Vec<T>))
    ensures
        texts(parts.0@) == keys_of(pairs@),
        parts.1@ == values_of(pairs@),
{
    let ghost all = pairs@;
    let mut keys: Vec<String> = Vec::with_capacity(pairs.len());
    let mut values: Vec<T> = Vec::with_capacity(pairs.len());
    for pair in iter: pairs
        invariant
            iter.seq() == all,
            keys@.len() == iter.index(),
            values@.len() == iter.index(),
            forall|i: int| 0 <= i < iter.index() ==> (#[trigger] keys@[i]) == all[i].0,
            forall|i: int| 0 <= i < iter.index() ==> (#[trigger] values@[i]) == all[i].1,
    {
        keys.push(pair.0);
        values.push(pair.1);
    }
    assert(texts(keys@) =~= keys_of(all));
    assert(values@ =~= values_of(all));
    (keys, values)
}

/// Putting one run of rows and then another is putting both.
proof fn lemma_with_entries_add(
    held: Map<Identity, EnvelopeView>,
    a: Seq<EnvelopeView>,
    b: Seq<EnvelopeView>,
)
    ensures
        with_entries(held, a + b) == with_entries(with_entries(held, a), b),
    decreases b.len(),
{
    if b.len() == 0 {
        assert(a + b =~= a);
    } else {
        lemma_with_entries_add(held, a, b.drop_last());
        assert((a + b).drop_last() =~= a + b.drop_last());
    }
}

/// The set of `types`.
fn type_set(types: Vec<String>) -> (set: OrderedMap<String, ()>)
    ensures
        set.wf(),
        set@.dom() == texts(types@).to_set(),
{
    let ghost names = texts(types@);
    let ghost given = types@;
    let mut set: OrderedMap<String, ()> = OrderedMap::new();
    assert(set@.dom() =~= names.take(0).to_set());
    for name in iter: types
        invariant
            iter.seq() == given,
            names == texts(given),
            set.wf(),
            set@.dom() == names.take(iter.index()).to_set(),
    {
        let ghost n = iter.index();
        let ghost before = set@;
        set.insert(name, ());
        proof {
            let next = names.take(n + 1);
            assert(next =~= names.take(n).push(names[n]));
            assert(set@.dom() =~= next.to_set()) by {
                assert forall|t: Seq<char>| set@.dom().contains(t) == next.contains(t) by {
                    if names.take(n).contains(t) {
                        let k = choose|k: int|
                            0 <= k < names.take(n).len() && names.take(n)[k] == t;
                        assert(next[k] == t);
                    }
                    if next.contains(t) {
                        let k = choose|k: int| 0 <= k < next.len() && next[k] == t;
                        if k < n {
                            assert(names.take(n)[k] == t);
                        }
                    }
                    assert(next[n] == names[n]);
                    assert(before.dom().contains(t) == names.take(n).contains(t));
                }
            }
        }
    }
    assert(names.take(names.len() as int) =~= names);
    set
}

/// `types` are the registered types in the order of their names.
pub open spec fn lists_types(definitions: Map<Seq<char>, Seq<char>>, types: Seq<Seq<char>>) -> bool {
    &&& forall|i: int, j: int|
        0 <= i < j < types.len() ==> text_before(#[trigger] types[i], #[trigger] types[j])
    &&& forall|i: int| 0 <= i < types.len() ==> definitions.contains_key(#[trigger] types[i])
    &&& forall|t: Seq<char>| #[trigger] definitions.contains_key(t) ==> types.contains(t)
}

/// A set of document types that are registered together.
pub trait CultCacheRegistry {
    /// Registering may lead a cache from `before` to `after` and come to `done`.
    open spec fn registers(
        &self,
        before: CacheView,
        after: CacheView,
        done: Result<(), FailureView>,
    ) -> bool {
        true
    }

    /// Registers the types with `cache`.
    fn register_entries(&self, cache: &mut CultCache) -> (done: Result<(), CultCacheError>)
        requires
            old(cache).wf(),
        ensures
            final(cache).wf(),
            self.registers(old(cache)@, final(cache)@, outcome(done)),
    ;
}

} // verus!

//! What a cache is: its registered types, its entries, and the stores behind it.

use crate::clock::{clock_said, utc_second};
use crate::document::DatabaseEntry;
use crate::envelope::{EnvelopeView, Identity};
use crate::error::{Failure, FailureView};
use crate::order::{pair_before, OrderedKey};
use crate::store::{PushAllOptions, StoreRules, StoreState};
use crate::text::blank;
use vstd::prelude::*;

verus! {

/// What a cache holds.
#[verifier::ext_equal]
pub struct CacheView {
    /// The registered types with the names of their schemas.
    pub definitions: Map<Seq<char>, Seq<char>>,
    /// The entries under their identities.
    pub entries: Map<Identity, EnvelopeView>,
    /// The types that each store is for; a store for no type in particular serves the rest.
    pub served: Seq<Set<Seq<char>>>,
    /// How each store may answer.
    pub rules: Seq<StoreRules>,
    /// What each store is taken to hold.
    pub held: Seq<StoreState>,
}

/// The type of every entry is registered, and no registered type is blank.
pub open spec fn types_sound(cache: CacheView) -> bool {
    &&& forall|id: Identity| #[trigger]
        cache.entries.contains_key(id) ==> cache.definitions.contains_key(id.0)
    &&& forall|t: Seq<char>| #[trigger] cache.definitions.contains_key(t) ==> !blank(t)
}

/// Asked for its rows, the store at `i` may answer `rows`.
pub open spec fn store_pulls(
    cache: CacheView,
    i: int,
    rows: Result<Seq<EnvelopeView>, FailureView>,
) -> bool {
    (cache.rules[i].pulls)(cache.held[i], rows)
}

/// The places below `n` of which `p` holds, in their order.
pub open spec fn places(n: nat, p: spec_fn(int) -> bool) -> Seq<int> {
    Seq::new(n, |i: int| i).filter(p)
}

/// The stores that are for the type `t` in particular.
pub open spec fn specific_route(served: Seq<Set<Seq<char>>>, t: Seq<char>) -> Seq<int> {
    places(served.len(), |i: int| served[i].contains(t))
}

/// The stores that are for no type in particular.
pub open spec fn generic_route(served: Seq<Set<Seq<char>>>) -> Seq<int> {
    places(served.len(), |i: int| served[i] == Set::<Seq<char>>::empty())
}

/// The stores that entries of the type `t` go to, the primary one first: those that are for it in
/// particular, or else those that are for no type in particular.
pub open spec fn route(served: Seq<Set<Seq<char>>>, t: Seq<char>) -> Seq<int> {
    if specific_route(served, t).len() > 0 {
        specific_route(served, t)
    } else {
        generic_route(served)
    }
}

/// Asked to push or to delete `entry`, a store may give `answer` and go from holding `before` to
/// holding `after`.
pub open spec fn answers(
    rules: StoreRules,
    deletes: bool,
    before: StoreState,
    entry: EnvelopeView,
    answer: Result<(), FailureView>,
    after: StoreState,
) -> bool {
    if deletes {
        (rules.deletes)(before, entry, answer, after)
    } else {
        (rules.pushes)(before, entry, answer, after)
    }
}

/// The stores of `along` were asked one after the other to push or to delete `entry`, up to the
/// first that failed; no other store changed.
pub open spec fn relayed(
    rules: Seq<StoreRules>,
    before: Seq<StoreState>,
    after: Seq<StoreState>,
    along: Seq<int>,
    deletes: bool,
    entry: EnvelopeView,
    answer: Result<(), FailureView>,
) -> bool {
    &&& after.len() == before.len()
    &&& forall|i: int|
        0 <= i < before.len() && !along.contains(i) ==> #[trigger] after[i] == before[i]
    &&& match answer {
        Ok(_) => relayed_until(rules, before, after, along, along.len() as int, deletes, entry),
        Err(_) => exists|n: int|
            {
                &&& 0 <= n < along.len()
                &&& #[trigger] relayed_until(rules, before, after, along, n, deletes, entry)
                &&& answers(
                    rules[along[n]],
                    deletes,
                    before[along[n]],
                    entry,
                    answer,
                    after[along[n]],
                )
                &&& forall|k: int|
                    n < k < along.len() ==> after[#[trigger] along[k]] == before[along[k]]
            },
    }
}

/// The first `n` stores of `along` carried out the push or the deletion of `entry`.
pub open spec fn relayed_until(
    rules: Seq<StoreRules>,
    before: Seq<StoreState>,
    after: Seq<StoreState>,
    along: Seq<int>,
    n: int,
    deletes: bool,
    entry: EnvelopeView,
) -> bool {
    forall|k: int|
        0 <= k < n ==> answers(
            rules[#[trigger] along[k]],
            deletes,
            before[along[k]],
            entry,
            Ok(()),
            after[along[k]],
        )
}

/// `rows` are the values of `entries` in the order of their identities.
pub open spec fn lists_entries(
    entries: Map<Identity, EnvelopeView>,
    rows: Seq<EnvelopeView>,
) -> bool {
    &&& forall|i: int, j: int|
        0 <= i < j < rows.len() ==> pair_before(
            (#[trigger] rows[i]).id(),
            (#[trigger] rows[j]).id(),
        )
    &&& forall|i: int|
        0 <= i < rows.len() ==> entries.contains_key((#[trigger] rows[i]).id())
            && entries[rows[i].id()] == rows[i]
    &&& forall|id: Identity| #[trigger]
        entries.contains_key(id) ==> exists|i: int|
            0 <= i < rows.len() && (#[trigger] rows[i]).id() == id
}

/// `held` with `rows` put under their identities, one after the other.
pub open spec fn with_entries(
    held: Map<Identity, EnvelopeView>,
    rows: Seq<EnvelopeView>,
) -> Map<Identity, EnvelopeView>
    decreases rows.len(),
{
    if rows.len() == 0 {
        held
    } else {
        with_entries(held, rows.drop_last()).insert(rows.last().id(), rows.last())
    }
}

/// Every row up to `n` is of a registered type.
pub open spec fn types_known(
    definitions: Map<Seq<char>, Seq<char>>,
    rows: Seq<EnvelopeView>,
    n: int,
) -> bool {
    forall|i: int|
        0 <= i < n ==> definitions.contains_key((#[trigger] rows[i]).entry_type)
}

/// The type `T` is registered with its schema's name.
pub open spec fn registered<T: DatabaseEntry>(definitions: Map<Seq<char>, Seq<char>>) -> bool {
    definitions.contains_key(T::TYPE@) && definitions[T::TYPE@] == T::SCHEMA_NAME@
}

/// Looking up the document of the type `T` under `key` may come to `found`.
pub open spec fn looks_up<T: DatabaseEntry>(
    cache: CacheView,
    key: Seq<char>,
    found: Result<Option<T>, FailureView>,
) -> bool {
    if !registered::<T>(cache.definitions) {
        found == Err::<Option<T>, FailureView>(
            Failure::TypeNotRegistered { entry_type: T::TYPE@ },
        )
    } else if !cache.entries.contains_key((T::TYPE@, key)) {
        found == Ok::<Option<T>, FailureView>(None)
    } else {
        match found {
            Ok(None) => false,
            Ok(Some(value)) => T::unpacks(
                cache.entries[(T::TYPE@, key)].payload,
                Ok::<T, Seq<char>>(value),
            ),
            Err(e) => exists|cause: Seq<char>| #[trigger]
                T::unpacks(cache.entries[(T::TYPE@, key)].payload, Err::<T, Seq<char>>(cause)) && e
                    == (FailureView::EntryUndecodable {
                    entry_type: T::TYPE@,
                    key,
                    schema: T::SCHEMA_NAME@,
                    cause,
                }),
        }
    }
}

/// Looking up the envelope of the type `T` under `key` comes to `found`.
pub open spec fn envelope_at<T: DatabaseEntry>(cache: CacheView, key: Seq<char>) -> Result<
    Option<EnvelopeView>,
    FailureView,
> {
    if !registered::<T>(cache.definitions) {
        Err(Failure::TypeNotRegistered { entry_type: T::TYPE@ })
    } else if !cache.entries.contains_key((T::TYPE@, key)) {
        Ok(None)
    } else {
        Ok(Some(cache.entries[(T::TYPE@, key)]))
    }
}

/// The rows of the type `t`, in their order.
pub open spec fn rows_typed(rows: Seq<EnvelopeView>, t: Seq<char>) -> Seq<EnvelopeView> {
    rows.filter(|row: EnvelopeView| row.entry_type == t)
}

/// Unpacking the payloads of `rows` as documents of the type `T`, one after the other, may come to
/// `values`.
pub open spec fn unpacks_rows<T: DatabaseEntry>(
    rows: Seq<EnvelopeView>,
    values: Result<Seq<T>, FailureView>,
) -> bool {
    match values {
        Ok(vs) => {
            &&& vs.len() == rows.len()
            &&& forall|i: int|
                0 <= i < rows.len() ==> T::unpacks(
                    (#[trigger] rows[i]).payload,
                    Ok::<T, Seq<char>>(vs[i]),
                )
        },
        Err(e) => exists|n: int, cause: Seq<char>|
            {
                &&& 0 <= n < rows.len()
                &&& forall|i: int|
                    0 <= i < n ==> exists|v: T| #[trigger]
                        T::unpacks((#[trigger] rows[i]).payload, Ok::<T, Seq<char>>(v))
                &&& #[trigger] T::unpacks(rows[n].payload, Err::<T, Seq<char>>(cause))
                &&& e == (FailureView::EntryUndecodable {
                    entry_type: T::TYPE@,
                    key: rows[n].key,
                    schema: T::SCHEMA_NAME@,
                    cause,
                })
            },
    }
}

/// Collecting the documents of the type `T` may come to `values`, with the rows that they come
/// from.
pub open spec fn collects<T: DatabaseEntry>(
    cache: CacheView,
    rows: Seq<EnvelopeView>,
    values: Result<Seq<T>, FailureView>,
) -> bool {
    if !registered::<T>(cache.definitions) {
        values == Err::<Seq<T>, FailureView>(Failure::TypeNotRegistered { entry_type: T::TYPE@ })
    } else {
        exists|all: Seq<EnvelopeView>| #[trigger]
            lists_entries(cache.entries, all) && rows == rows_typed(all, T::TYPE@)
                && unpacks_rows::<T>(rows, values)
    }
}

/// Unpacking a payload as a document of the type `T` always comes to the same.
pub open spec fn unpacks_alike<T: DatabaseEntry>() -> bool {
    forall|bytes: Seq<u8>, x: Result<T, Seq<char>>, y: Result<T, Seq<char>>| #[trigger]
        T::unpacks(bytes, x) && #[trigger] T::unpacks(bytes, y) ==> x == y
}

/// A prepared envelope for a payload of the type `T`, stored at `stored_at`.
pub open spec fn prepared_view<T: DatabaseEntry>(
    key: Seq<char>,
    payload: Seq<u8>,
    stored_at: Seq<char>,
) -> EnvelopeView {
    EnvelopeView { key, entry_type: T::TYPE@, payload, stored_at, schema_id: Some(T::TYPE@) }
}

/// Finishing an entry of the type `T` with the payload `payload` may come to `prepared`.
pub open spec fn finishes<T: DatabaseEntry>(
    key: Seq<char>,
    payload: Seq<u8>,
    prepared: Result<(EnvelopeView, T), FailureView>,
) -> bool {
    match prepared {
        Ok((entry, value)) => {
            &&& T::unpacks(payload, Ok::<T, Seq<char>>(value))
            &&& utc_second(entry.stored_at)
            &&& clock_said(entry.stored_at)
            &&& entry == prepared_view::<T>(key, payload, entry.stored_at)
        },
        Err(e) => exists|cause: Seq<char>| #[trigger]
            T::unpacks(payload, Err::<T, Seq<char>>(cause)) && e == (FailureView::EntryInvalid {
                entry_type: T::TYPE@,
                key,
                schema: T::SCHEMA_NAME@,
                cause,
            }),
    }
}

/// Preparing `value` for storing under `key` may come to `prepared`.
pub open spec fn prepares<T: DatabaseEntry>(
    definitions: Map<Seq<char>, Seq<char>>,
    key: Seq<char>,
    value: T,
    prepared: Result<(EnvelopeView, T), FailureView>,
) -> bool {
    if !registered::<T>(definitions) {
        prepared == Err::<(EnvelopeView, T), FailureView>(
            Failure::TypeNotRegistered { entry_type: T::TYPE@ },
        )
    } else {
        ||| exists|payload: Seq<u8>| #[trigger]
            value.packs(Ok::<Seq<u8>, Seq<char>>(payload)) && finishes::<T>(key, payload, prepared)
        ||| exists|cause: Seq<char>| #[trigger]
            value.packs(Err::<Seq<u8>, Seq<char>>(cause)) && prepared == Err::<
                (EnvelopeView, T),
                FailureView,
            >(
                Failure::EntryUnencodable {
                    entry_type: T::TYPE@,
                    key,
                    schema: T::SCHEMA_NAME@,
                    cause,
                },
            )
    }
}

/// Preparing `value` with named fields for storing under `key` may come to `prepared`.
pub open spec fn prepares_named<T: DatabaseEntry>(
    definitions: Map<Seq<char>, Seq<char>>,
    key: Seq<char>,
    value: T,
    prepared: Result<(EnvelopeView, T), FailureView>,
) -> bool {
    if !registered::<T>(definitions) {
        prepared == Err::<(EnvelopeView, T), FailureView>(
            Failure::TypeNotRegistered { entry_type: T::TYPE@ },
        )
    } else {
        ||| exists|payload: Seq<u8>| #[trigger]
            value.packs_named(Ok::<Seq<u8>, Seq<char>>(payload)) && finishes::<T>(
                key,
                payload,
                prepared,
            )
        ||| exists|cause: Seq<char>| #[trigger]
            value.packs_named(Err::<Seq<u8>, Seq<char>>(cause)) && prepared == Err::<
                (EnvelopeView, T),
                FailureView,
            >(
                Failure::NamedEntryUnencodable {
                    entry_type: T::TYPE@,
                    key,
                    schema: T::SCHEMA_NAME@,
                    cause,
                },
            )
    }
}

/// Writing `entry` through the stores of its type and then into the cache.
pub open spec fn writes_through(
    before: CacheView,
    after: CacheView,
    entry: EnvelopeView,
    answer: Result<(), FailureView>,
) -> bool {
    let along = route(before.served, entry.entry_type);
    if along.len() == 0 {
        &&& after == before
        &&& answer == Err::<(), FailureView>(Failure::NoStore { entry_type: entry.entry_type })
    } else {
        &&& relayed(before.rules, before.held, after.held, along, false, entry, answer)
        &&& after == (CacheView {
            entries: match answer {
                Ok(_) => before.entries.insert(entry.id(), entry),
                Err(_) => before.entries,
            },
            held: after.held,
            ..before
        })
    }
}

/// Deleting `entry`, which is of the type `t`, from the stores of its type and then from the cache.
pub open spec fn deletes_through(
    before: CacheView,
    after: CacheView,
    t: Seq<char>,
    entry: EnvelopeView,
    answer: Result<(), FailureView>,
) -> bool {
    let along = route(before.served, t);
    if along.len() == 0 {
        &&& after == before
        &&& answer == Err::<(), FailureView>(Failure::NoStore { entry_type: t })
    } else {
        &&& relayed(before.rules, before.held, after.held, along, true, entry, answer)
        &&& after == (CacheView {
            entries: match answer {
                Ok(_) => before.entries.remove(entry.id()),
                Err(_) => before.entries,
            },
            held: after.held,
            ..before
        })
    }
}

/// Storing `value` under `key` may lead from `before` to `after` and come to `stored`.
pub open spec fn puts<T: DatabaseEntry>(
    before: CacheView,
    after: CacheView,
    key: Seq<char>,
    value: T,
    stored: Result<T, FailureView>,
) -> bool {
    match stored {
        Ok(parsed) => exists|entry: EnvelopeView| #[trigger]
            writes_through(before, after, entry, Ok(())) && prepares::<T>(
                before.definitions,
                key,
                value,
                Ok((entry, parsed)),
            ),
        Err(e) => {
            ||| after == before && prepares::<T>(before.definitions, key, value, Err(e))
            ||| exists|entry: EnvelopeView, parsed: T|
                #![trigger prepares::<T>(before.definitions, key, value, Ok((entry, parsed)))]
                prepares::<T>(before.definitions, key, value, Ok((entry, parsed)))
                    && writes_through(before, after, entry, Err(e))
        },
    }
}

/// Why `entry` is refused as an envelope of the type `T`, if it is, before its payload is looked
/// at.
pub open spec fn envelope_refusal<T: DatabaseEntry>(
    definitions: Map<Seq<char>, Seq<char>>,
    entry: EnvelopeView,
) -> Option<FailureView> {
    if !registered::<T>(definitions) {
        Some(Failure::TypeNotRegistered { entry_type: T::TYPE@ })
    } else if entry.entry_type != T::TYPE@ {
        Some(Failure::EnvelopeTypeMismatch { found: entry.entry_type, wanted: T::TYPE@ })
    } else if blank(entry.key) {
        Some(Failure::EnvelopeKeyBlank { entry_type: T::TYPE@ })
    } else if blank(entry.stored_at) {
        Some(Failure::EnvelopeStoredAtBlank { entry_type: T::TYPE@ })
    } else {
        None
    }
}

/// Checking `entry` as an envelope of the type `T` may come to `checked`.
pub open spec fn validates<T: DatabaseEntry>(
    definitions: Map<Seq<char>, Seq<char>>,
    entry: EnvelopeView,
    checked: Result<T, FailureView>,
) -> bool {
    match envelope_refusal::<T>(definitions, entry) {
        Some(e) => checked == Err::<T, FailureView>(e),
        None => match checked {
            Ok(value) => T::unpacks(entry.payload, Ok::<T, Seq<char>>(value)),
            Err(e) => exists|cause: Seq<char>| #[trigger]
                T::unpacks(entry.payload, Err::<T, Seq<char>>(cause)) && e == (
                FailureView::EnvelopeInvalid {
                    entry_type: T::TYPE@,
                    key: entry.key,
                    schema: T::SCHEMA_NAME@,
                    cause,
                }),
        },
    }
}

/// Why `entry` is refused as a raw envelope, if it is.
pub open spec fn raw_refusal(
    definitions: Map<Seq<char>, Seq<char>>,
    entry: EnvelopeView,
) -> Option<FailureView> {
    if !definitions.contains_key(entry.entry_type) {
        Some(Failure::EnvelopeTypeUnknown { entry_type: entry.entry_type })
    } else if blank(entry.key) {
        Some(Failure::EnvelopeKeyBlank { entry_type: entry.entry_type })
    } else if blank(entry.stored_at) {
        Some(Failure::EnvelopeStoredAtBlank { entry_type: entry.entry_type })
    } else {
        None
    }
}

/// The one store that all `rows` go to, or why there is none.
pub open spec fn batch_store(
    definitions: Map<Seq<char>, Seq<char>>,
    served: Seq<Set<Seq<char>>>,
    rows: Seq<EnvelopeView>,
) -> Result<Option<int>, FailureView>
    decreases rows.len(),
{
    if rows.len() == 0 {
        Ok(None)
    } else {
        let t = rows.last().entry_type;
        match batch_store(definitions, served, rows.drop_last()) {
            Err(e) => Err(e),
            Ok(chosen) => if !definitions.contains_key(t) {
                Err(Failure::BatchTypeUnknown { entry_type: t })
            } else if route(served, t).len() != 1 {
                Err(
                    Failure::BatchRoute { entry_type: t, stores: route(served, t).len() as usize },
                )
            } else if chosen is Some && chosen->Some_0 != route(served, t)[0] {
                Err(Failure::BatchSpansStores)
            } else {
                Ok(Some(route(served, t)[0]))
            },
        }
    }
}

/// The runs of `pulled`, one behind the other.
pub open spec fn joined(pulled: Seq<Seq<EnvelopeView>>) -> Seq<EnvelopeView>
    decreases pulled.len(),
{
    if pulled.len() == 0 {
        Seq::empty()
    } else {
        joined(pulled.drop_last()) + pulled.last()
    }
}

/// The row at `k` is the first of `rows` whose type is not registered.
pub open spec fn first_unknown(
    definitions: Map<Seq<char>, Seq<char>>,
    rows: Seq<EnvelopeView>,
    k: int,
) -> bool {
    &&& 0 <= k < rows.len()
    &&& types_known(definitions, rows, k)
    &&& !definitions.contains_key(rows[k].entry_type)
}

/// Every row is of a registered type.
pub open spec fn all_known(
    definitions: Map<Seq<char>, Seq<char>>,
    rows: Seq<EnvelopeView>,
) -> bool {
    types_known(definitions, rows, rows.len() as int)
}

/// Loading `rows` into an empty cache led to `entries`, up to the first row of an unknown type.
pub open spec fn loads(
    definitions: Map<Seq<char>, Seq<char>>,
    rows: Seq<EnvelopeView>,
    entries: Map<Identity, EnvelopeView>,
    unknown: Option<Seq<char>>,
) -> bool {
    match unknown {
        None => all_known(definitions, rows) && entries == with_entries(Map::empty(), rows),
        Some(t) => exists|k: int| #[trigger]
            first_unknown(definitions, rows, k) && t == rows[k].entry_type && entries
                == with_entries(Map::empty(), rows.take(k)),
    }
}

/// The cache was emptied and loaded with `rows`, which are refused for `refusal` if that is some
/// failure. No store changed.
pub open spec fn loads_columns(
    before: CacheView,
    after: CacheView,
    refusal: Option<FailureView>,
    rows: Seq<EnvelopeView>,
    answer: Result<(), FailureView>,
) -> bool {
    &&& after == (CacheView { entries: after.entries, ..before })
    &&& match refusal {
        Some(e) => answer == Err::<(), FailureView>(e) && after.entries == Map::<
            Identity,
            EnvelopeView,
        >::empty(),
        None => match answer {
            Ok(_) => loads(before.definitions, rows, after.entries, None),
            Err(e) => e is SoaTypeUnknown && loads(
                before.definitions,
                rows,
                after.entries,
                Some(e->SoaTypeUnknown_entry_type),
            ),
        },
    }
}

/// The store at `at` was asked once to replace all its rows, by all entries and `staged` in the
/// order of their identities; where it did, they were taken into the cache.
pub open spec fn publishes(
    before: CacheView,
    after: CacheView,
    at: int,
    staged: Seq<EnvelopeView>,
    answer: Result<(), FailureView>,
) -> bool {
    let next = with_entries(before.entries, staged);
    exists|rows: Seq<EnvelopeView>|
        {
            &&& #[trigger] lists_entries(next, rows)
            &&& (before.rules[at].replaces)(
                before.held[at],
                rows,
                PushAllOptions { soft: false },
                answer,
                after.held[at],
            )
            &&& after == (CacheView {
                entries: match answer {
                    Ok(_) => next,
                    Err(_) => before.entries,
                },
                held: before.held.update(at, after.held[at]),
                ..before
            })
        }
}

/// Registering the type `t` with the schema's name `schema` leads from `before` to `after` and
/// comes to `done`.
pub open spec fn registers_type(
    before: CacheView,
    after: CacheView,
    t: Seq<char>,
    schema: Seq<char>,
    done: Result<(), FailureView>,
) -> bool {
    if blank(t) {
        &&& done == Err::<(), FailureView>(Failure::EmptyType)
        &&& after == before
    } else if before.definitions.contains_key(t) && before.definitions[t] != schema {
        &&& done == Err::<(), FailureView>(Failure::DefinitionConflict { entry_type: t })
        &&& after == before
    } else {
        &&& done == Ok::<(), FailureView>(())
        &&& after == (CacheView { definitions: before.definitions.insert(t, schema), ..before })
    }
}

/// Storing `entry` as an envelope of the type `T` may lead from `before` to `after` and come to
/// `stored`.
pub open spec fn puts_envelope<T: DatabaseEntry>(
    before: CacheView,
    after: CacheView,
    entry: EnvelopeView,
    stored: Result<T, FailureView>,
) -> bool {
    match stored {
        Ok(value) => {
            &&& validates::<T>(before.definitions, entry, Ok(value))
            &&& writes_through(before, after, entry, Ok(()))
        },
        Err(e) => {
            ||| validates::<T>(before.definitions, entry, Err(e)) && after == before
            ||| exists|value: T| #[trigger]
                validates::<T>(before.definitions, entry, Ok(value)) && writes_through(
                    before,
                    after,
                    entry,
                    Err(e),
                )
        },
    }
}

/// Taking `entry` into the cache as an envelope of the type `T` may lead from `before` to `after`
/// and come to `loaded`.
pub open spec fn loads_envelope<T: DatabaseEntry>(
    before: CacheView,
    after: CacheView,
    entry: EnvelopeView,
    loaded: Result<T, FailureView>,
) -> bool {
    &&& validates::<T>(before.definitions, entry, loaded)
    &&& after == match loaded {
        Ok(_) => CacheView { entries: before.entries.insert(entry.id(), entry), ..before },
        Err(_) => before,
    }
}

/// Storing `entry` as a raw envelope may lead from `before` to `after` and come to `done`.
pub open spec fn puts_raw(
    before: CacheView,
    after: CacheView,
    entry: EnvelopeView,
    done: Result<(), FailureView>,
) -> bool {
    match raw_refusal(before.definitions, entry) {
        Some(e) => done == Err::<(), FailureView>(e) && after == before,
        None => writes_through(before, after, entry, done),
    }
}

/// Replacing the document of the type `T` under `key` by what `updater` makes of it may lead from
/// `before` to `after` and come to `stored`.
pub open spec fn updates<T: DatabaseEntry, F: FnOnce(Option<T>) -> T>(
    before: CacheView,
    after: CacheView,
    key: Seq<char>,
    updater: F,
    stored: Result<T, FailureView>,
) -> bool {
    ||| exists|current: Option<T>, value: T|
        {
            &&& looks_up::<T>(before, key, Ok(current))
            &&& #[trigger] call_ensures(updater, (current,), value)
            &&& puts::<T>(before, after, key, value, stored)
        }
    ||| stored is Err && looks_up::<T>(before, key, Err(stored->Err_0)) && after == before
}

/// Deleting the document of the type `T` under `key` may lead from `before` to `after` and come to
/// `deleted`.
pub open spec fn deletes_document<T: DatabaseEntry>(
    before: CacheView,
    after: CacheView,
    key: Seq<char>,
    deleted: Result<bool, FailureView>,
) -> bool {
    match envelope_at::<T>(before, key) {
        Err(e) => deleted == Err::<bool, FailureView>(e) && after == before,
        Ok(None) => deleted == Ok::<bool, FailureView>(false) && after == before,
        Ok(Some(entry)) => match deleted {
            Ok(b) => b && deletes_through(before, after, T::TYPE@, entry, Ok(())),
            Err(e) => deletes_through(before, after, T::TYPE@, entry, Err(e)),
        },
    }
}

/// The first stores answered with the runs of `pulled`, and loading them into the emptied cache
/// leads from `before` to `after` and comes to `done`.
pub open spec fn reloads_with(
    before: CacheView,
    after: CacheView,
    pulled: Seq<Seq<EnvelopeView>>,
    done: Result<(), FailureView>,
) -> bool {
    &&& pulled.len() <= before.served.len()
    &&& forall|i: int| 0 <= i < pulled.len() ==> store_pulls(before, i, Ok(#[trigger] pulled[i]))
    &&& after == (CacheView { entries: after.entries, ..before })
    &&& match done {
        Ok(_) => pulled.len() == before.served.len() && loads(
            before.definitions,
            joined(pulled),
            after.entries,
            None,
        ),
        Err(e) => {
            ||| pulled.len() < before.served.len() && store_pulls(
                before,
                pulled.len() as int,
                Err(e),
            ) && loads(before.definitions, joined(pulled), after.entries, None)
            ||| pulled.len() > 0 && all_known(before.definitions, joined(pulled.drop_last()))
                && e is PersistedTypeUnknown && loads(
                before.definitions,
                joined(pulled),
                after.entries,
                Some(e->PersistedTypeUnknown_entry_type),
            )
        },
    }
}

/// Emptying the cache and loading the rows of all stores may lead from `before` to `after` and come
/// to `done`.
pub open spec fn reloads(
    before: CacheView,
    after: CacheView,
    done: Result<(), FailureView>,
) -> bool {
    exists|pulled: Seq<Seq<EnvelopeView>>| #[trigger] reloads_with(before, after, pulled, done)
}

/// Publishing `staged` together with everything in the cache may lead from `before` to `after` and
/// come to `done`.
pub open spec fn publishes_batch(
    before: CacheView,
    after: CacheView,
    staged: Seq<EnvelopeView>,
    done: Result<(), FailureView>,
) -> bool {
    if staged.len() == 0 {
        &&& done == Err::<(), FailureView>(Failure::BatchEmpty)
        &&& after == before
    } else {
        exists|held: Seq<EnvelopeView>| #[trigger]
            lists_entries(before.entries, held) && match batch_store(
                before.definitions,
                before.served,
                staged + held,
            ) {
                Err(e) => done == Err::<(), FailureView>(e) && after == before,
                Ok(None) => false,
                Ok(Some(at)) => publishes(before, after, at, staged, done),
            }
    }
}

/// What putting rows leaves under an identity: the last row of that identity, or what stood there.
pub proof fn lemma_with_entries_at(
    held: Map<Identity, EnvelopeView>,
    rows: Seq<EnvelopeView>,
    id: Identity,
)
    ensures
        with_entries(held, rows).contains_key(id) <==> held.contains_key(id) || (exists|i: int|
            0 <= i < rows.len() && (#[trigger] rows[i]).id() == id),
        with_entries(held, rows).contains_key(id) ==> with_entries(held, rows)[id] == held[id]
            || exists|i: int|
            0 <= i < rows.len() && (#[trigger] rows[i]).id() == id && rows[i] == with_entries(
                held,
                rows,
            )[id],
        (exists|i: int| 0 <= i < rows.len() && (#[trigger] rows[i]).id() == id) ==> exists|i: int|
            0 <= i < rows.len() && (#[trigger] rows[i]).id() == id && rows[i] == with_entries(
                held,
                rows,
            )[id],
    decreases rows.len(),
{
    if rows.len() > 0 {
        let rest = rows.drop_last();
        let last = rows[rows.len() - 1];
        lemma_with_entries_at(held, rest, id);
        if last.id() == id {
            assert(rows[rows.len() - 1].id() == id);
        } else {
            assert forall|i: int|
                0 <= i < rows.len() && (#[trigger] rows[i]).id() == id implies i < rest.len()
                && rest[i].id() == id by {}
            if exists|i: int| 0 <= i < rest.len() && (#[trigger] rest[i]).id() == id {
                let i = choose|i: int|
                    0 <= i < rest.len() && (#[trigger] rest[i]).id() == id && rest[i]
                        == with_entries(held, rest)[id];
                assert(rows[i].id() == id);
            }
            if exists|i: int| 0 <= i < rows.len() && (#[trigger] rows[i]).id() == id {
                let i = choose|i: int| 0 <= i < rows.len() && (#[trigger] rows[i]).id() == id;
                assert(rest[i].id() == id);
            }
        }
    }
}

/// Loading exactly the rows that entries are listed as gives those entries back.
pub proof fn listed_entries_restore(
    entries: Map<Identity, EnvelopeView>,
    rows: Seq<EnvelopeView>,
)
    requires
        lists_entries(entries, rows),
    ensures
        with_entries(Map::empty(), rows) == entries,
{
    let loaded = with_entries(Map::<Identity, EnvelopeView>::empty(), rows);
    assert forall|id: Identity| #[trigger] loaded.contains_key(id) == entries.contains_key(id) by {
        lemma_with_entries_at(Map::empty(), rows, id);
    }
    assert forall|id: Identity| #[trigger] loaded.contains_key(id) implies loaded[id]
        == entries[id] by {
        lemma_with_entries_at(Map::empty(), rows, id);
        let i = choose|i: int|
            0 <= i < rows.len() && (#[trigger] rows[i]).id() == id && rows[i] == loaded[id];
        assert(entries[rows[i].id()] == rows[i]);
    }
    assert(loaded =~= entries);
}

/// Entries are listed in one way.
pub proof fn listing_of_entries_is_unique(
    entries: Map<Identity, EnvelopeView>,
    a: Seq<EnvelopeView>,
    b: Seq<EnvelopeView>,
)
    requires
        lists_entries(entries, a),
        lists_entries(entries, b),
    ensures
        a == b,
    decreases a.len(),
{
    if a.len() == 0 {
        if b.len() > 0 {
            assert(entries.contains_key(b[0].id()));
        }
        assert(a =~= b);
    } else {
        let m = a.len() - 1;
        let x = a[m].id();
        assert(entries.contains_key(x));
        let p = choose|p: int| 0 <= p < b.len() && (#[trigger] b[p]).id() == x;
        let n = b.len() - 1;
        let y = b[n].id();
        assert(entries.contains_key(y));
        let q = choose|q: int| 0 <= q < a.len() && (#[trigger] a[q]).id() == y;
        <(String, String) as OrderedKey>::before_irreflexive(x);
        if p < n && q < m {
            assert(pair_before(b[p].id(), b[n].id()));
            assert(pair_before(a[q].id(), a[m].id()));
            <(String, String) as OrderedKey>::before_transitive(x, y, x);
        }
        assert(x == y);
        lemma_listing_shorter(entries, a);
        lemma_listing_shorter(entries, b);
        listing_of_entries_is_unique(entries.remove(x), a.drop_last(), b.drop_last());
        assert(a =~= a.drop_last().push(a[m]));
        assert(b =~= b.drop_last().push(b[n]));
    }
}

proof fn lemma_listing_shorter(entries: Map<Identity, EnvelopeView>, a: Seq<EnvelopeView>)
    requires
        lists_entries(entries, a),
        a.len() > 0,
    ensures
        lists_entries(entries.remove(a.last().id()), a.drop_last()),
{
    let rest = entries.remove(a.last().id());
    let a0 = a.drop_last();
    let m = a.len() - 1;
    <(String, String) as OrderedKey>::before_irreflexive(a[m].id());
    assert forall|i: int| 0 <= i < a0.len() implies rest.contains_key((#[trigger] a0[i]).id())
        && rest[a0[i].id()] == a0[i] by {
        assert(a[i] == a0[i]);
        assert(pair_before(a[i].id(), a[m].id()));
    }
    assert forall|i: int, j: int| 0 <= i < j < a0.len() implies pair_before(
        (#[trigger] a0[i]).id(),
        (#[trigger] a0[j]).id(),
    ) by {
        assert(a[i] == a0[i] && a[j] == a0[j]);
    }
    assert forall|id: Identity| #[trigger] rest.contains_key(id) implies exists|i: int|
        0 <= i < a0.len() && (#[trigger] a0[i]).id() == id by {
        assert(entries.contains_key(id));
        let i = choose|i: int| 0 <= i < a.len() && (#[trigger] a[i]).id() == id;
        assert(a0[i].id() == id);
    }
}

} // verus!

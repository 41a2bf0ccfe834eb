//! What holds of a cache whatever it holds and whatever stores stand behind it.

use crate::cache::{lemma_rows_typed_push, CultCache};
use crate::clock::moment_is_not_blank;
use crate::document::DatabaseEntry;
use crate::envelope::{EnvelopeView, Identity};
use crate::error::FailureView;
use crate::model::{
    collects, deletes_through, envelope_at, envelope_refusal, finishes, generic_route,
    lemma_with_entries_at, listed_entries_restore, listing_of_entries_is_unique, lists_entries,
    loads, loads_columns, looks_up, places, prepares, prepares_named, publishes, puts, raw_refusal,
    registered, route, rows_typed, specific_route, unpacks_alike, unpacks_rows, with_entries,
    writes_through, CacheView,
};
use crate::order::{lemma_text_irreflexive, pair_before, text_before, OrderedKey};
use crate::row_laws::{lemma_only_row, lemma_rows_of_outside};
use crate::rows::{
    has_id, lemma_rows_of_member, lemma_rows_of_none, lemma_rows_of_push, rows_of, rows_outside,
    same_rows, unique_ids,
};
use crate::soa::{row_refusal, rows_refusal, CultCacheSoaTable};
use crate::store::{PushAllOptions, StoreRules, StoreState};
use crate::text::blank;
use vstd::prelude::*;

verus! {

/// The places of which `p` holds are in range, in increasing order, and complete.
proof fn lemma_places(n: nat, p: spec_fn(int) -> bool)
    ensures
        forall|i: int|
            0 <= i < places(n, p).len() ==> 0 <= (#[trigger] places(n, p)[i]) < n && p(
                places(n, p)[i],
            ),
        forall|i: int, j: int|
            0 <= i < j < places(n, p).len() ==> (#[trigger] places(n, p)[i]) < (
            #[trigger] places(n, p)[j]),
        forall|k: int| 0 <= k < n && #[trigger] p(k) ==> places(n, p).contains(k),
    decreases n,
{
    reveal(Seq::filter);
    if n == 0 {
        assert(Seq::new(0, |i: int| i) =~= Seq::<int>::empty());
    } else {
        let m = (n - 1) as nat;
        lemma_places(m, p);
        let fewer = places(m, p);
        assert(Seq::new(n, |i: int| i).drop_last() =~= Seq::new(m, |i: int| i));
        assert(places(n, p) == if p(m as int) {
            fewer.push(m as int)
        } else {
            fewer
        });
        assert forall|k: int| 0 <= k < n && #[trigger] p(k) implies places(n, p).contains(k) by {
            if k < m {
                assert(fewer.contains(k));
                let i = choose|i: int| 0 <= i < fewer.len() && fewer[i] == k;
                assert(places(n, p)[i] == k);
            } else {
                assert(places(n, p)[fewer.len() as int] == k);
            }
        }
    }
}

/// Where a store is for a type in particular, entries of that type go to exactly the stores that
/// are; otherwise they go to exactly the stores that are for no type in particular.
pub proof fn specific_stores_beat_generic_ones(served: Seq<Set<Seq<char>>>, t: Seq<char>)
    ensures
        (exists|i: int| 0 <= i < served.len() && (#[trigger] served[i]).contains(t)) ==> forall|
            i: int,
        |
            0 <= i < served.len() ==> (route(served, t).contains(i) <==> (
            #[trigger] served[i]).contains(t)),
        !(exists|i: int| 0 <= i < served.len() && (#[trigger] served[i]).contains(t)) ==> forall|
            i: int,
        |
            0 <= i < served.len() ==> (route(served, t).contains(i) <==> (#[trigger] served[i])
                == Set::<Seq<char>>::empty()),
{
    let p = |i: int| served[i].contains(t);
    let q = |i: int| served[i] == Set::<Seq<char>>::empty();
    let n = served.len();
    lemma_places(n, p);
    lemma_places(n, q);
    assert(specific_route(served, t) == places(n, p));
    assert(generic_route(served) == places(n, q));
    if exists|i: int| 0 <= i < served.len() && (#[trigger] served[i]).contains(t) {
        let i = choose|i: int| 0 <= i < served.len() && (#[trigger] served[i]).contains(t);
        assert(p(i));
        assert(places(n, p).contains(i));
        assert forall|k: int| 0 <= k < served.len() implies (route(served, t).contains(k) <==> (
        #[trigger] served[k]).contains(t)) by {
            if served[k].contains(t) {
                assert(p(k));
            }
        }
    } else {
        if places(n, p).len() > 0 {
            let k = places(n, p)[0];
            assert(p(k));
            assert(served[k].contains(t));
        }
        assert forall|k: int| 0 <= k < served.len() implies (route(served, t).contains(k) <==> (
        #[trigger] served[k]) == Set::<Seq<char>>::empty()) by {
            if served[k] == Set::<Seq<char>>::empty() {
                assert(q(k));
            }
        }
    }
}

/// A route names stores that there are, each once, in the order in which they were added.
pub proof fn route_follows_the_order_of_stores(served: Seq<Set<Seq<char>>>, t: Seq<char>)
    ensures
        forall|i: int|
            0 <= i < route(served, t).len() ==> 0 <= (#[trigger] route(served, t)[i])
                < served.len(),
        forall|i: int, j: int|
            0 <= i < j < route(served, t).len() ==> (#[trigger] route(served, t)[i]) < (
            #[trigger] route(served, t)[j]),
{
    lemma_places(served.len(), |i: int| served[i].contains(t));
    lemma_places(served.len(), |i: int| served[i] == Set::<Seq<char>>::empty());
}

/// An entry is in the cache only once every store that it goes to has accepted it; where one does
/// not, the cache keeps what it had.
pub proof fn stores_come_before_the_cache(
    before: CacheView,
    after: CacheView,
    entry: EnvelopeView,
    answer: Result<(), FailureView>,
)
    requires
        writes_through(before, after, entry, answer),
    ensures
        answer is Ok ==> route(before.served, entry.entry_type).len() > 0 && forall|k: int|
            0 <= k < route(before.served, entry.entry_type).len() ==> (before.rules[#[trigger] route(
                before.served,
                entry.entry_type,
            )[k]].pushes)(
                before.held[route(before.served, entry.entry_type)[k]],
                entry,
                Ok(()),
                after.held[route(before.served, entry.entry_type)[k]],
            ),
        answer is Ok ==> after.entries == before.entries.insert(entry.id(), entry),
        answer is Err ==> after.entries == before.entries,
{
}

/// Writing an entry leaves every other entry as it was.
pub proof fn other_entries_stay(
    before: CacheView,
    after: CacheView,
    entry: EnvelopeView,
    answer: Result<(), FailureView>,
    id: Identity,
)
    requires
        writes_through(before, after, entry, answer),
        id != entry.id(),
    ensures
        after.entries.contains_key(id) == before.entries.contains_key(id),
        before.entries.contains_key(id) ==> after.entries[id] == before.entries[id],
{
}

/// A document that was stored is found under its key, and what is found is what its payload unpacks
/// to.
pub proof fn stored_document_is_found<T: DatabaseEntry>(
    before: CacheView,
    after: CacheView,
    key: Seq<char>,
    value: T,
    parsed: T,
)
    requires
        puts::<T>(before, after, key, value, Ok(parsed)),
    ensures
        looks_up::<T>(after, key, Ok(Some(parsed))),
        !looks_up::<T>(after, key, Ok(None)),
        exists|payload: Seq<u8>| #[trigger]
            value.packs(Ok::<Seq<u8>, Seq<char>>(payload)) && after.entries[(
                T::TYPE@,
                key,
            )].payload == payload && T::unpacks(payload, Ok::<T, Seq<char>>(parsed)),
{
    let entry = choose|entry: EnvelopeView| #[trigger]
        writes_through(before, after, entry, Ok(())) && prepares::<T>(
            before.definitions,
            key,
            value,
            Ok((entry, parsed)),
        );
    let payload = choose|payload: Seq<u8>| #[trigger]
        value.packs(Ok::<Seq<u8>, Seq<char>>(payload)) && finishes::<T>(
            key,
            payload,
            Ok((entry, parsed)),
        );
    assert(entry.id() == (T::TYPE@, key));
    assert(after.entries == before.entries.insert(entry.id(), entry));
}

/// A document that was deleted is not found any more.
pub proof fn deleted_document_is_not_found<T: DatabaseEntry>(
    before: CacheView,
    after: CacheView,
    key: Seq<char>,
    entry: EnvelopeView,
)
    requires
        envelope_at::<T>(before, key) == Ok::<Option<EnvelopeView>, FailureView>(Some(entry)),
        entry.id() == (T::TYPE@, key),
        deletes_through(before, after, T::TYPE@, entry, Ok(())),
    ensures
        looks_up::<T>(after, key, Ok(None)),
        envelope_at::<T>(after, key) == Ok::<Option<EnvelopeView>, FailureView>(None),
{
}

/// A prepared entry under a key that is not blank passes every check on envelopes.
pub proof fn prepared_entry_passes_the_checks<T: DatabaseEntry>(
    definitions: Map<Seq<char>, Seq<char>>,
    key: Seq<char>,
    value: T,
    entry: EnvelopeView,
    parsed: T,
)
    requires
        prepares::<T>(definitions, key, value, Ok((entry, parsed))) || prepares_named::<T>(
            definitions,
            key,
            value,
            Ok((entry, parsed)),
        ),
        !blank(key),
    ensures
        raw_refusal(definitions, entry) is None,
        envelope_refusal::<T>(definitions, entry) is None,
{
    moment_is_not_blank(entry.stored_at);
}

/// Columns made of rows hold those rows, and give them back where no row has a blank field.
pub proof fn rows_survive_as_columns(table: CultCacheSoaTable, rows: Seq<EnvelopeView>)
    requires
        table.even(),
        table.rows() == rows,
        forall|i: int|
            0 <= i < rows.len() ==> !blank((#[trigger] rows[i]).key) && !blank(rows[i].entry_type)
                && !blank(rows[i].stored_at),
    ensures
        table.refusal() is None,
{
    assert(table.keys@.len() == table.keys.len());
    lemma_no_refusal(rows);
}

proof fn lemma_no_refusal(rows: Seq<EnvelopeView>)
    requires
        forall|i: int|
            0 <= i < rows.len() ==> !blank((#[trigger] rows[i]).key) && !blank(rows[i].entry_type)
                && !blank(rows[i].stored_at),
    ensures
        rows_refusal(rows) is None,
    decreases rows.len(),
{
    if rows.len() > 0 {
        let rest = rows.drop_last();
        assert forall|i: int| 0 <= i < rest.len() implies !blank((#[trigger] rest[i]).key) && !blank(
            rest[i].entry_type,
        ) && !blank(rest[i].stored_at) by {
            assert(rest[i] == rows[i]);
        }
        lemma_no_refusal(rest);
        assert(rows[rows.len() - 1] == rows.last());
        assert(row_refusal(rows.last(), rows.len() - 1) is None);
    }
}

/// Loading what a cache lists gives the same entries, where all its types are registered.
pub proof fn listed_entries_are_reloaded(
    entries: Map<Identity, EnvelopeView>,
    rows: Seq<EnvelopeView>,
    definitions: Map<Seq<char>, Seq<char>>,
    loaded: Map<Identity, EnvelopeView>,
    unknown: Option<Seq<char>>,
)
    requires
        lists_entries(entries, rows),
        forall|id: Identity| #[trigger]
            entries.contains_key(id) ==> definitions.contains_key(entries[id].entry_type),
        loads(definitions, rows, loaded, unknown),
    ensures
        unknown is None,
        loaded == entries,
{
    assert forall|i: int| 0 <= i < rows.len() implies definitions.contains_key(
        (#[trigger] rows[i]).entry_type,
    ) by {
        assert(entries.contains_key(rows[i].id()));
    }
    listed_entries_restore(entries, rows);
}

/// A published batch leaves its entries in the cache, the last of each identity, and every other
/// entry as it was; a refused one leaves everything as it was.
pub proof fn batch_lands_whole_or_not_at_all(
    before: CacheView,
    after: CacheView,
    at: int,
    staged: Seq<EnvelopeView>,
    answer: Result<(), FailureView>,
)
    requires
        publishes(before, after, at, staged, answer),
    ensures
        answer is Err ==> after.entries == before.entries,
        answer is Ok ==> forall|i: int|
            0 <= i < staged.len() && (forall|j: int|
                i < j < staged.len() ==> (#[trigger] staged[j]).id() != staged[i].id())
                ==> after.entries.contains_key((#[trigger] staged[i]).id())
                && after.entries[staged[i].id()] == staged[i],
        answer is Ok ==> forall|id: Identity|
            (forall|i: int| 0 <= i < staged.len() ==> (#[trigger] staged[i]).id() != id) ==> (
            #[trigger] after.entries.contains_key(id)) == before.entries.contains_key(id) && (
            before.entries.contains_key(id) ==> after.entries[id] == before.entries[id]),
{
    if answer is Ok {
        assert forall|i: int|
            0 <= i < staged.len() && (forall|j: int|
                i < j < staged.len() ==> (#[trigger] staged[j]).id() != staged[i].id()) implies
            after.entries.contains_key((#[trigger] staged[i]).id())
            && after.entries[staged[i].id()] == staged[i] by {
            lemma_last_entry_stays(before.entries, staged, i);
        }
        assert forall|id: Identity|
            (forall|i: int| 0 <= i < staged.len() ==> (#[trigger] staged[i]).id() != id) implies (
        #[trigger] after.entries.contains_key(id)) == before.entries.contains_key(id) && (
        before.entries.contains_key(id) ==> after.entries[id] == before.entries[id]) by {
            lemma_untouched_entry_stays(before.entries, staged, id);
        }
    }
}

/// The last row of an identity is what stands under it.
pub proof fn lemma_last_entry_stays(
    held: Map<Identity, EnvelopeView>,
    rows: Seq<EnvelopeView>,
    i: int,
)
    requires
        0 <= i < rows.len(),
        forall|j: int| i < j < rows.len() ==> (#[trigger] rows[j]).id() != rows[i].id(),
    ensures
        with_entries(held, rows).contains_key(rows[i].id()),
        with_entries(held, rows)[rows[i].id()] == rows[i],
    decreases rows.len(),
{
    if i < rows.len() - 1 {
        let rest = rows.drop_last();
        assert(rows[rows.len() - 1].id() != rows[i].id());
        assert forall|j: int| i < j < rest.len() implies (#[trigger] rest[j]).id() != rest[i].id() by {
            assert(rest[j] == rows[j]);
        }
        lemma_last_entry_stays(held, rest, i);
    }
}

proof fn lemma_untouched_entry_stays(
    held: Map<Identity, EnvelopeView>,
    rows: Seq<EnvelopeView>,
    id: Identity,
)
    requires
        forall|i: int| 0 <= i < rows.len() ==> (#[trigger] rows[i]).id() != id,
    ensures
        with_entries(held, rows).contains_key(id) == held.contains_key(id),
        held.contains_key(id) ==> with_entries(held, rows)[id] == held[id],
    decreases rows.len(),
{
    if rows.len() > 0 {
        let rest = rows.drop_last();
        assert(rows[rows.len() - 1].id() != id);
        assert forall|i: int| 0 <= i < rest.len() implies (#[trigger] rest[i]).id() != id by {
            assert(rest[i] == rows[i]);
        }
        lemma_untouched_entry_stays(held, rest, id);
    }
}

/// A store that keeps what it accepts, as far as `whole` holds of the rows at hand: a row that was
/// pushed is the one row of its identity, a row that was deleted leaves none of its identity, and no
/// other identity changes; rows that all rows were replaced by are the rows that are held; and what
/// is pulled is what is held.
pub open spec fn faithful(rules: StoreRules, whole: spec_fn(Seq<EnvelopeView>) -> bool) -> bool {
    &&& forall|before: StoreState, entry: EnvelopeView, after: StoreState| #[trigger]
        (rules.pushes)(before, entry, Ok(()), after) && whole(
            rows_outside(before, set![entry.id()]).push(entry),
        ) ==> same_rows(after, rows_outside(before, set![entry.id()]).push(entry))
    &&& forall|before: StoreState, entry: EnvelopeView, after: StoreState| #[trigger]
        (rules.deletes)(before, entry, Ok(()), after) && whole(before.push(entry)) ==> same_rows(
            after,
            rows_outside(before, set![entry.id()]),
        )
    &&& forall|
        before: StoreState,
        entries: Seq<EnvelopeView>,
        options: PushAllOptions,
        after: StoreState,
    | #[trigger]
        (rules.replaces)(before, entries, options, Ok(()), after) && whole(entries) ==> same_rows(
            after,
            entries,
        )
    &&& forall|held: StoreState, rows: Seq<EnvelopeView>| #[trigger]
        (rules.pulls)(held, Ok(rows)) ==> same_rows(rows, held)
}

/// A store that keeps its rows where it refuses to replace them.
pub open spec fn replaces_whole(rules: StoreRules) -> bool {
    forall|
        before: StoreState,
        entries: Seq<EnvelopeView>,
        options: PushAllOptions,
        e: FailureView,
        after: StoreState,
    | #[trigger]
        (rules.replaces)(before, entries, options, Err(e), after) ==> same_rows(after, before)
}

/// What a published batch left in the cache is what is pulled from a faithful store: exactly those
/// entries, one row each.
pub proof fn published_batch_is_pulled_again(
    before: CacheView,
    after: CacheView,
    at: int,
    staged: Seq<EnvelopeView>,
    whole: spec_fn(Seq<EnvelopeView>) -> bool,
    pulled: Seq<EnvelopeView>,
)
    requires
        publishes(before, after, at, staged, Ok(())),
        0 <= at < before.held.len(),
        faithful(before.rules[at], whole),
        forall|rows: Seq<EnvelopeView>| #[trigger]
            lists_entries(after.entries, rows) ==> whole(rows),
        (before.rules[at].pulls)(after.held[at], Ok(pulled)),
    ensures
        forall|id: Identity| #[trigger]
            rows_of(pulled, id) == if after.entries.contains_key(id) {
                seq![after.entries[id]]
            } else {
                Seq::empty()
            },
        with_entries(Map::empty(), pulled) == after.entries,
{
    let rows = choose|rows: Seq<EnvelopeView>|
        {
            &&& #[trigger] lists_entries(with_entries(before.entries, staged), rows)
            &&& (before.rules[at].replaces)(
                before.held[at],
                rows,
                PushAllOptions { soft: false },
                Ok(()),
                after.held[at],
            )
        };
    lemma_listing_apart(after.entries, rows);
    let loaded = with_entries(Map::<Identity, EnvelopeView>::empty(), pulled);
    assert forall|id: Identity| #[trigger]
        rows_of(pulled, id) == if after.entries.contains_key(id) {
            seq![after.entries[id]]
        } else {
            Seq::empty()
        } by {
        assert(rows_of(pulled, id) == rows_of(after.held[at], id));
        assert(rows_of(after.held[at], id) == rows_of(rows, id));
        if after.entries.contains_key(id) {
            let i = choose|i: int| 0 <= i < rows.len() && (#[trigger] rows[i]).id() == id;
            lemma_only_row(rows, i);
        } else {
            assert(!has_id(rows, id));
            lemma_rows_of_none(rows, id);
        }
    }
    assert forall|id: Identity| #[trigger] loaded.contains_key(id) == after.entries.contains_key(
        id,
    ) && (after.entries.contains_key(id) ==> loaded[id] == after.entries[id]) by {
        assert(rows_of(pulled, id) == if after.entries.contains_key(id) {
            seq![after.entries[id]]
        } else {
            Seq::empty()
        });
        lemma_with_entries_last(pulled, id);
        lemma_with_entries_at(Map::empty(), pulled, id);
        lemma_rows_of_member(pulled, id);
    }
    assert(loaded =~= after.entries);
}

/// A refused batch leaves the cache as it was, and the rows of a store that replaces them as a
/// whole or not at all; no other store changes.
pub proof fn refused_batch_leaves_everything(
    before: CacheView,
    after: CacheView,
    at: int,
    staged: Seq<EnvelopeView>,
    e: FailureView,
)
    requires
        publishes(before, after, at, staged, Err(e)),
        0 <= at < before.held.len(),
        replaces_whole(before.rules[at]),
    ensures
        after.entries == before.entries,
        same_rows(after.held[at], before.held[at]),
        forall|i: int|
            0 <= i < before.held.len() && i != at ==> #[trigger] after.held[i] == before.held[i],
{
}

/// The rows that entries are listed as repeat no identity.
proof fn lemma_listing_apart(entries: Map<Identity, EnvelopeView>, rows: Seq<EnvelopeView>)
    requires
        lists_entries(entries, rows),
    ensures
        unique_ids(rows),
{
    assert forall|i: int, j: int| 0 <= i < j < rows.len() implies (#[trigger] rows[i]).id() != (
    #[trigger] rows[j]).id() by {
        assert(pair_before(rows[i].id(), rows[j].id()));
        <(String, String) as OrderedKey>::before_irreflexive(rows[i].id());
    }
}

/// Every envelope that a cache lists is of a registered type, and for a registered type the
/// envelopes that are found are exactly those that are listed.
pub proof fn listed_envelopes_are_those_found<T: DatabaseEntry>(
    cache: &CultCache,
    rows: Seq<EnvelopeView>,
    key: Seq<char>,
    entry: EnvelopeView,
)
    requires
        cache.wf(),
        lists_entries(cache@.entries, rows),
    ensures
        unique_ids(rows),
        forall|i: int|
            0 <= i < rows.len() ==> cache@.definitions.contains_key(
                (#[trigger] rows[i]).entry_type,
            ) && !blank(rows[i].entry_type),
        registered::<T>(cache@.definitions) ==> (envelope_at::<T>(cache@, key) == Ok::<
            Option<EnvelopeView>,
            FailureView,
        >(Some(entry)) <==> rows.contains(entry) && entry.entry_type == T::TYPE@ && entry.key
            == key),
{
    cache.types_of_entries_are_registered();
    cache.entries_stand_under_their_identities();
    lemma_listing_apart(cache@.entries, rows);
    assert forall|i: int| 0 <= i < rows.len() implies cache@.definitions.contains_key(
        (#[trigger] rows[i]).entry_type,
    ) && !blank(rows[i].entry_type) by {
        assert(cache@.entries.contains_key(rows[i].id()));
    }
    let id = (T::TYPE@, key);
    if cache@.entries.contains_key(id) {
        let i = choose|i: int| 0 <= i < rows.len() && (#[trigger] rows[i]).id() == id;
        assert(cache@.entries[rows[i].id()] == rows[i]);
    }
    if rows.contains(entry) {
        let i = choose|i: int| 0 <= i < rows.len() && rows[i] == entry;
        assert(cache@.entries.contains_key(rows[i].id()));
    }
}

/// The columns of one cache, loaded into another that has registered its types, give the same
/// entries, and thereby the same snapshot, in the place of what the other cache held.
pub proof fn columns_carry_a_cache_over(
    cache: &CultCache,
    table: CultCacheSoaTable,
    before: CacheView,
    after: CacheView,
    answer: Result<(), FailureView>,
)
    requires
        cache.wf(),
        table.even(),
        lists_entries(cache@.entries, table.rows()),
        forall|id: Identity| #[trigger]
            cache@.entries.contains_key(id) ==> !blank(id.1) && !blank(cache@.entries[id].stored_at)
                && before.definitions.contains_key(id.0),
        loads_columns(before, after, table.refusal(), table.rows(), answer),
    ensures
        answer is Ok,
        after == (CacheView { entries: cache@.entries, ..before }),
        forall|rows: Seq<EnvelopeView>| #[trigger]
            lists_entries(after.entries, rows) ==> rows == table.rows(),
{
    let rows = table.rows();
    cache.types_of_entries_are_registered();
    cache.entries_stand_under_their_identities();
    assert forall|i: int| 0 <= i < rows.len() implies !blank((#[trigger] rows[i]).key) && !blank(
        rows[i].entry_type,
    ) && !blank(rows[i].stored_at) by {
        let id = rows[i].id();
        assert(cache@.entries.contains_key(id));
        assert(cache@.definitions.contains_key(id.0));
    }
    rows_survive_as_columns(table, rows);
    let unknown = match answer {
        Ok(_) => None,
        Err(e) => Some(e->SoaTypeUnknown_entry_type),
    };
    listed_entries_are_reloaded(
        cache@.entries,
        rows,
        before.definitions,
        after.entries,
        unknown,
    );
    assert forall|other: Seq<EnvelopeView>| #[trigger]
        lists_entries(after.entries, other) implies other == rows by {
        listing_of_entries_is_unique(after.entries, other, rows);
    }
}

/// Which rows of a listing are of one type, and in what order they stand.
proof fn lemma_rows_typed(rows: Seq<EnvelopeView>, t: Seq<char>)
    requires
        forall|i: int, j: int|
            0 <= i < j < rows.len() ==> pair_before(
                (#[trigger] rows[i]).id(),
                (#[trigger] rows[j]).id(),
            ),
    ensures
        forall|i: int|
            0 <= i < rows_typed(rows, t).len() ==> (#[trigger] rows_typed(rows, t)[i]).entry_type
                == t && rows.contains(rows_typed(rows, t)[i]),
        forall|i: int|
            0 <= i < rows.len() && (#[trigger] rows[i]).entry_type == t ==> rows_typed(
                rows,
                t,
            ).contains(rows[i]),
        forall|i: int, j: int|
            0 <= i < j < rows_typed(rows, t).len() ==> text_before(
                (#[trigger] rows_typed(rows, t)[i]).key,
                (#[trigger] rows_typed(rows, t)[j]).key,
            ),
    decreases rows.len(),
{
    if rows.len() == 0 {
        reveal(Seq::filter);
    } else {
        let rest = rows.drop_last();
        let row = rows.last();
        let n = rows.len() - 1;
        assert(rows =~= rest.push(row));
        assert(rows[n] == row);
        assert forall|i: int, j: int| 0 <= i < j < rest.len() implies pair_before(
            (#[trigger] rest[i]).id(),
            (#[trigger] rest[j]).id(),
        ) by {
            assert(rest[i] == rows[i] && rest[j] == rows[j]);
        }
        lemma_rows_typed(rest, t);
        lemma_rows_typed_push(rest, row, t);
        let few = rows_typed(rest, t);
        let all = rows_typed(rows, t);
        assert forall|i: int| 0 <= i < all.len() implies (#[trigger] all[i]).entry_type == t
            && rows.contains(all[i]) by {
            if i < few.len() {
                assert(all[i] == few[i]);
                let k = choose|k: int| 0 <= k < rest.len() && rest[k] == few[i];
                assert(rows[k] == all[i]);
            } else {
                assert(all[i] == rows[n]);
            }
        }
        assert forall|i: int| 0 <= i < rows.len() && (#[trigger] rows[i]).entry_type
            == t implies all.contains(rows[i]) by {
            if i < n {
                assert(rest[i] == rows[i]);
                let k = choose|k: int| 0 <= k < few.len() && few[k] == rest[i];
                assert(all[k] == rows[i]);
            } else {
                assert(all[few.len() as int] == row);
            }
        }
        assert forall|i: int, j: int| 0 <= i < j < all.len() implies text_before(
            (#[trigger] all[i]).key,
            (#[trigger] all[j]).key,
        ) by {
            assert(all[i] == few[i]);
            if j < few.len() {
                assert(all[j] == few[j]);
            } else {
                let k = choose|k: int| 0 <= k < rest.len() && rest[k] == few[i];
                assert(rows[k] == few[i]);
                assert(pair_before(rows[k].id(), rows[n].id()));
                lemma_text_irreflexive(t);
            }
        }
    }
}

/// The documents of a type that are collected, with their keys, are exactly those that are found
/// under a key, in the order of the keys; and collecting fails exactly where the type is not
/// registered or some document of the type does not unpack.
pub proof fn collected_documents_are_those_found<T: DatabaseEntry>(
    cache: &CultCache,
    rows: Seq<EnvelopeView>,
    values: Result<Seq<T>, FailureView>,
)
    requires
        cache.wf(),
        unpacks_alike::<T>(),
        collects::<T>(cache@, rows, values),
    ensures
        values is Err <==> !registered::<T>(cache@.definitions) || exists|
            id: Identity,
            cause: Seq<char>,
        |
            id.0 == T::TYPE@ && cache@.entries.contains_key(id) && #[trigger] T::unpacks(
                cache@.entries[id].payload,
                Err::<T, Seq<char>>(cause),
            ),
        values is Ok ==> {
            &&& values->Ok_0.len() == rows.len()
            &&& forall|i: int, j: int|
                0 <= i < j < rows.len() ==> text_before(
                    (#[trigger] rows[i]).key,
                    (#[trigger] rows[j]).key,
                )
            &&& forall|key: Seq<char>, value: T|
                (exists|i: int|
                    0 <= i < rows.len() && (#[trigger] rows[i]).key == key && values->Ok_0[i]
                        == value) <==> #[trigger] looks_up::<T>(cache@, key, Ok(Some(value)))
        },
{
    cache.entries_stand_under_their_identities();
    if registered::<T>(cache@.definitions) {
        let entries = cache@.entries;
        let all = choose|all: Seq<EnvelopeView>| #[trigger]
            lists_entries(entries, all) && rows == rows_typed(all, T::TYPE@) && unpacks_rows::<T>(
                rows,
                values,
            );
        lemma_rows_typed(all, T::TYPE@);
        assert forall|i: int| 0 <= i < rows.len() implies entries.contains_key(
            (T::TYPE@, (#[trigger] rows[i]).key),
        ) && entries[(T::TYPE@, rows[i].key)] == rows[i] by {
            let k = choose|k: int| 0 <= k < all.len() && all[k] == rows[i];
            assert(entries[all[k].id()] == all[k]);
        }
        assert forall|id: Identity| id.0 == T::TYPE@ && #[trigger]
            entries.contains_key(id) implies exists|i: int|
            0 <= i < rows.len() && #[trigger] rows[i] == entries[id] && rows[i].key == id.1 by {
            let k = choose|k: int| 0 <= k < all.len() && (#[trigger] all[k]).id() == id;
            assert(entries[all[k].id()] == all[k]);
            assert(rows.contains(all[k]));
            let i = choose|i: int| 0 <= i < rows.len() && rows[i] == all[k];
            assert(rows[i] == entries[id] && rows[i].key == id.1);
        }
        match values {
            Err(e) => {
                let (n, cause) = choose|n: int, cause: Seq<char>|
                    0 <= n < rows.len() && #[trigger] T::unpacks(
                        rows[n].payload,
                        Err::<T, Seq<char>>(cause),
                    );
                let id = (T::TYPE@, rows[n].key);
                assert(entries[id] == rows[n]);
                assert(T::unpacks(entries[id].payload, Err::<T, Seq<char>>(cause)));
            },
            Ok(vs) => {
                assert forall|id: Identity, cause: Seq<char>|
                    id.0 == T::TYPE@ && entries.contains_key(id) implies !#[trigger] T::unpacks(
                    entries[id].payload,
                    Err::<T, Seq<char>>(cause),
                ) by {
                    let i = choose|i: int|
                        0 <= i < rows.len() && #[trigger] rows[i] == entries[id];
                    assert(T::unpacks(rows[i].payload, Ok::<T, Seq<char>>(vs[i])));
                }
                assert forall|key: Seq<char>, value: T|
                    (exists|i: int|
                        0 <= i < rows.len() && (#[trigger] rows[i]).key == key && vs[i]
                            == value) <==> #[trigger] looks_up::<T>(cache@, key, Ok(Some(value))) by {
                    let id = (T::TYPE@, key);
                    if exists|i: int|
                        0 <= i < rows.len() && (#[trigger] rows[i]).key == key && vs[i] == value {
                        let i = choose|i: int|
                            0 <= i < rows.len() && (#[trigger] rows[i]).key == key && vs[i]
                                == value;
                        assert(T::unpacks(rows[i].payload, Ok::<T, Seq<char>>(vs[i])));
                    }
                    if looks_up::<T>(cache@, key, Ok(Some(value))) {
                        assert(entries.contains_key(id));
                        let i = choose|i: int|
                            0 <= i < rows.len() && #[trigger] rows[i] == entries[id] && rows[i].key
                                == id.1;
                        assert(T::unpacks(rows[i].payload, Ok::<T, Seq<char>>(vs[i])));
                        assert(T::unpacks(rows[i].payload, Ok::<T, Seq<char>>(value)));
                    }
                }
            },
        }
    }
}

/// Collecting the documents of a type twice comes to the same, with or without their keys.
pub proof fn documents_are_collected_alike<T: DatabaseEntry>(
    cache: CacheView,
    rows: Seq<EnvelopeView>,
    values: Result<Seq<T>, FailureView>,
    other_rows: Seq<EnvelopeView>,
    other_values: Result<Seq<T>, FailureView>,
)
    requires
        unpacks_alike::<T>(),
        collects::<T>(cache, rows, values),
        collects::<T>(cache, other_rows, other_values),
    ensures
        values == other_values,
        registered::<T>(cache.definitions) ==> rows == other_rows,
{
    if registered::<T>(cache.definitions) {
        let all = choose|all: Seq<EnvelopeView>| #[trigger]
            lists_entries(cache.entries, all) && rows == rows_typed(all, T::TYPE@)
                && unpacks_rows::<T>(rows, values);
        let other_all = choose|all: Seq<EnvelopeView>| #[trigger]
            lists_entries(cache.entries, all) && other_rows == rows_typed(all, T::TYPE@)
                && unpacks_rows::<T>(other_rows, other_values);
        listing_of_entries_is_unique(cache.entries, all, other_all);
        match (values, other_values) {
            (Ok(x), Ok(y)) => {
                assert forall|i: int| 0 <= i < x.len() implies x[i] == y[i] by {
                    assert(T::unpacks(rows[i].payload, Ok::<T, Seq<char>>(x[i])));
                    assert(T::unpacks(rows[i].payload, Ok::<T, Seq<char>>(y[i])));
                }
                assert(x =~= y);
            },
            (Ok(x), Err(e)) => {
                lemma_failure_excludes_success::<T>(rows, x, e);
            },
            (Err(e), Ok(y)) => {
                lemma_failure_excludes_success::<T>(rows, y, e);
            },
            (Err(e), Err(f)) => {
                let (n, cause) = lemma_first_failure::<T>(rows, e);
                let (m, other_cause) = lemma_first_failure::<T>(rows, f);
                if n < m {
                    let v = choose|v: T| #[trigger]
                        T::unpacks(rows[n].payload, Ok::<T, Seq<char>>(v));
                    assert(T::unpacks(rows[n].payload, Err::<T, Seq<char>>(cause)));
                }
                if m < n {
                    let v = choose|v: T| #[trigger]
                        T::unpacks(rows[m].payload, Ok::<T, Seq<char>>(v));
                    assert(T::unpacks(rows[m].payload, Err::<T, Seq<char>>(other_cause)));
                }
                assert(n == m);
                assert(Err::<T, Seq<char>>(cause) == Err::<T, Seq<char>>(other_cause));
            },
        }
    }
}

/// The row at which collecting failed, and why.
proof fn lemma_first_failure<T: DatabaseEntry>(rows: Seq<EnvelopeView>, e: FailureView) -> (at: (
    int,
    Seq<char>,
))
    requires
        unpacks_rows::<T>(rows, Err(e)),
    ensures
        0 <= at.0 < rows.len(),
        forall|i: int|
            0 <= i < at.0 ==> exists|v: T| #[trigger]
                T::unpacks((#[trigger] rows[i]).payload, Ok::<T, Seq<char>>(v)),
        T::unpacks(rows[at.0].payload, Err::<T, Seq<char>>(at.1)),
        e == (FailureView::EntryUndecodable {
            entry_type: T::TYPE@,
            key: rows[at.0].key,
            schema: T::SCHEMA_NAME@,
            cause: at.1,
        }),
{
    choose|n: int, cause: Seq<char>|
        {
            &&& 0 <= n < rows.len()
            &&& forall|i: int|
                0 <= i < n ==> exists|v: T| #[trigger]
                    T::unpacks((#[trigger] rows[i]).payload, Ok::<T, Seq<char>>(v))
            &&& #[trigger] T::unpacks(rows[n].payload, Err::<T, Seq<char>>(cause))
            &&& e == (FailureView::EntryUndecodable {
                entry_type: T::TYPE@,
                key: rows[n].key,
                schema: T::SCHEMA_NAME@,
                cause,
            })
        }
}

proof fn lemma_failure_excludes_success<T: DatabaseEntry>(
    rows: Seq<EnvelopeView>,
    values: Seq<T>,
    e: FailureView,
)
    requires
        unpacks_alike::<T>(),
        unpacks_rows::<T>(rows, Ok(values)),
    ensures
        !unpacks_rows::<T>(rows, Err(e)),
{
    if unpacks_rows::<T>(rows, Err(e)) {
        let (n, cause) = lemma_first_failure::<T>(rows, e);
        assert(T::unpacks(rows[n].payload, Ok::<T, Seq<char>>(values[n])));
    }
}

/// What was stored through a cache in a faithful store is pulled again, and loading it brings the
/// entry back.
pub proof fn stored_entry_is_pulled_again(
    before: CacheView,
    after: CacheView,
    entry: EnvelopeView,
    k: int,
    whole: spec_fn(Seq<EnvelopeView>) -> bool,
    pulled: Seq<EnvelopeView>,
)
    requires
        writes_through(before, after, entry, Ok(())),
        0 <= k < route(before.served, entry.entry_type).len(),
        faithful(before.rules[route(before.served, entry.entry_type)[k]], whole),
        whole(
            rows_outside(
                before.held[route(before.served, entry.entry_type)[k]],
                set![entry.id()],
            ).push(entry),
        ),
        (before.rules[route(before.served, entry.entry_type)[k]].pulls)(
            after.held[route(before.served, entry.entry_type)[k]],
            Ok(pulled),
        ),
    ensures
        rows_of(pulled, entry.id()) == seq![entry],
        with_entries(Map::empty(), pulled).contains_key(entry.id()),
        with_entries(Map::empty(), pulled)[entry.id()] == entry,
{
    let i = route(before.served, entry.entry_type)[k];
    let id = entry.id();
    let kept = rows_outside(before.held[i], set![id]);
    assert((before.rules[i].pushes)(before.held[i], entry, Ok(()), after.held[i]));
    assert(rows_of(after.held[i], id) == rows_of(kept.push(entry), id));
    assert(rows_of(pulled, id) == rows_of(after.held[i], id));
    lemma_rows_of_outside(before.held[i], set![id], id);
    lemma_rows_of_push(kept, entry, id);
    assert(rows_of(pulled, id) =~= seq![entry]);
    lemma_with_entries_last(pulled, id);
}

/// What was deleted through a cache from a faithful store is not pulled again.
pub proof fn deleted_entry_is_not_pulled_again(
    before: CacheView,
    after: CacheView,
    t: Seq<char>,
    entry: EnvelopeView,
    k: int,
    whole: spec_fn(Seq<EnvelopeView>) -> bool,
    pulled: Seq<EnvelopeView>,
)
    requires
        deletes_through(before, after, t, entry, Ok(())),
        0 <= k < route(before.served, t).len(),
        faithful(before.rules[route(before.served, t)[k]], whole),
        whole(before.held[route(before.served, t)[k]].push(entry)),
        (before.rules[route(before.served, t)[k]].pulls)(
            after.held[route(before.served, t)[k]],
            Ok(pulled),
        ),
    ensures
        rows_of(pulled, entry.id()) == Seq::<EnvelopeView>::empty(),
        !with_entries(Map::empty(), pulled).contains_key(entry.id()),
{
    let i = route(before.served, t)[k];
    let id = entry.id();
    assert((before.rules[i].deletes)(before.held[i], entry, Ok(()), after.held[i]));
    assert(rows_of(after.held[i], id) == rows_of(rows_outside(before.held[i], set![id]), id));
    assert(rows_of(pulled, id) == rows_of(after.held[i], id));
    lemma_rows_of_outside(before.held[i], set![id], id);
    lemma_rows_of_member(pulled, id);
    lemma_with_entries_at(Map::empty(), pulled, id);
}

/// What putting rows leaves under an identity is its last row.
proof fn lemma_with_entries_last(rows: Seq<EnvelopeView>, id: Identity)
    ensures
        rows_of(rows, id).len() > 0 ==> with_entries(
            Map::<Identity, EnvelopeView>::empty(),
            rows,
        ).contains_key(id) && with_entries(Map::<Identity, EnvelopeView>::empty(), rows)[id]
            == rows_of(rows, id).last(),
    decreases rows.len(),
{
    if rows.len() == 0 {
        lemma_rows_of_none(rows, id);
    } else {
        let rest = rows.drop_last();
        assert(rows =~= rest.push(rows.last()));
        lemma_rows_of_push(rest, rows.last(), id);
        lemma_with_entries_last(rest, id);
    }
}

} // verus!

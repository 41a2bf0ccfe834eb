//! What each operation of a cache owes: on which requests it succeeds, what it answers where it
//! does not, and what it leaves behind.

use crate::cache::lists_types;
use crate::cache_laws::{lemma_last_entry_stays, route_follows_the_order_of_stores};
use crate::clock::{clock_said, utc_second};
use crate::document::DatabaseEntry;
use crate::envelope::{EnvelopeView, Identity};
use crate::error::{Failure, FailureView};
use crate::model::{
    answers, batch_store, deletes_document, envelope_at, envelope_refusal, finishes, first_unknown,
    joined, lemma_with_entries_at, lists_entries, loads, loads_columns, loads_envelope, looks_up,
    prepares, prepares_named, publishes, publishes_batch, puts, puts_envelope, puts_raw, registered,
    registers_type, relayed, relayed_until, reloads, reloads_with, route, store_pulls,
    unpacks_alike, updates, validates, with_entries, writes_through, CacheView,
};
use crate::order::{lemma_text_irreflexive, pair_before, text_before};
use crate::store::{PushAllOptions, StoreState};
use crate::text::{blank, white_space};
use vstd::prelude::*;

verus! {

/// Which store a batch has, or why it has none: the store is the whole route of every row, and
/// where there is none, some row is at fault.
proof fn lemma_batch_store(
    definitions: Map<Seq<char>, Seq<char>>,
    served: Seq<Set<Seq<char>>>,
    rows: Seq<EnvelopeView>,
)
    ensures
        match batch_store(definitions, served, rows) {
            Ok(None) => rows.len() == 0,
            Ok(Some(at)) => rows.len() > 0 && forall|i: int|
                0 <= i < rows.len() ==> definitions.contains_key((#[trigger] rows[i]).entry_type)
                    && route(served, rows[i].entry_type) == seq![at],
            Err(e) => exists|i: int|
                0 <= i < rows.len() && {
                    ||| !definitions.contains_key((#[trigger] rows[i]).entry_type) && e == (
                    FailureView::BatchTypeUnknown { entry_type: rows[i].entry_type })
                    ||| route(served, rows[i].entry_type).len() != 1 && e == (
                    FailureView::BatchRoute {
                        entry_type: rows[i].entry_type,
                        stores: route(served, rows[i].entry_type).len() as usize,
                    })
                    ||| e == FailureView::BatchSpansStores && exists|j: int|
                        0 <= j < rows.len() && route(served, (#[trigger] rows[j]).entry_type)
                            != route(served, rows[i].entry_type)
                },
        },
    decreases rows.len(),
{
    if rows.len() > 0 {
        let rest = rows.drop_last();
        let n = rows.len() - 1;
        let t = rows[n].entry_type;
        lemma_batch_store(definitions, served, rest);
        assert forall|i: int| 0 <= i < rest.len() implies rest[i] == #[trigger] rows[i] by {}
        match batch_store(definitions, served, rest) {
            Err(e) => {
                let i = choose|i: int|
                    0 <= i < rest.len() && {
                        ||| !definitions.contains_key((#[trigger] rest[i]).entry_type) && e == (
                        FailureView::BatchTypeUnknown { entry_type: rest[i].entry_type })
                        ||| route(served, rest[i].entry_type).len() != 1 && e == (
                        FailureView::BatchRoute {
                            entry_type: rest[i].entry_type,
                            stores: route(served, rest[i].entry_type).len() as usize,
                        })
                        ||| e == FailureView::BatchSpansStores && exists|j: int|
                            0 <= j < rest.len() && route(served, (#[trigger] rest[j]).entry_type)
                                != route(served, rest[i].entry_type)
                    };
                assert(rows[i] == rest[i]);
                if e == FailureView::BatchSpansStores {
                    let j = choose|j: int|
                        0 <= j < rest.len() && route(served, (#[trigger] rest[j]).entry_type)
                            != route(served, rest[i].entry_type);
                    assert(rows[j] == rest[j]);
                }
            },
            Ok(chosen) => {
                if definitions.contains_key(t) && route(served, t).len() == 1 {
                    let at = route(served, t)[0];
                    assert(route(served, t) =~= seq![at]);
                    if chosen is Some && chosen->Some_0 != at {
                        assert(rest[0] == rows[0]);
                        assert(route(served, rows[0].entry_type)[0] == chosen->Some_0);
                        assert(rows[n].entry_type == t);
                    }
                } else {
                    assert(rows[n].entry_type == t);
                }
            },
        }
    }
}

/// The types of the batch: those of the staged rows and of the entries that are held.
pub open spec fn in_batch(
    entries: Map<Identity, EnvelopeView>,
    staged: Seq<EnvelopeView>,
    t: Seq<char>,
) -> bool {
    ||| exists|i: int| 0 <= i < staged.len() && (#[trigger] staged[i]).entry_type == t
    ||| exists|id: Identity| #[trigger] entries.contains_key(id) && id.0 == t
}

/// A batch is published only through the one store that all its rows share: the route of every type
/// in it is exactly that store, and no other store changes.
pub proof fn published_batch_shares_one_store(
    before: CacheView,
    after: CacheView,
    staged: Seq<EnvelopeView>,
)
    requires
        publishes_batch(before, after, staged, Ok(())),
        before.held.len() == before.served.len(),
    ensures
        staged.len() > 0,
        exists|at: int| #[trigger]
            publishes(before, after, at, staged, Ok(())) && 0 <= at < before.held.len() && (forall|
                t: Seq<char>,
            | #[trigger]
                in_batch(before.entries, staged, t) ==> before.definitions.contains_key(t) && route(
                    before.served,
                    t,
                ) == seq![at]) && forall|i: int|
                0 <= i < before.held.len() && i != at ==> #[trigger] after.held[i]
                    == before.held[i],
{
    let held = choose|held: Seq<EnvelopeView>| #[trigger]
        lists_entries(before.entries, held) && match batch_store(
            before.definitions,
            before.served,
            staged + held,
        ) {
            Err(_) => false,
            Ok(None) => false,
            Ok(Some(at)) => publishes(before, after, at, staged, Ok(())),
        };
    let rows = staged + held;
    lemma_batch_store(before.definitions, before.served, rows);
    let at = batch_store(before.definitions, before.served, rows)->Ok_0->Some_0;
    assert(publishes(before, after, at, staged, Ok(())));
    route_follows_the_order_of_stores(before.served, rows[0].entry_type);
    assert(route(before.served, rows[0].entry_type)[0] == at);
    assert forall|t: Seq<char>| #[trigger] in_batch(
        before.entries,
        staged,
        t,
    ) implies before.definitions.contains_key(t) && route(before.served, t) == seq![at] by {
        lemma_batch_row(before.entries, staged, held, t);
        let i = choose|i: int| 0 <= i < rows.len() && (#[trigger] rows[i]).entry_type == t;
        assert(rows[i].entry_type == t);
    }
}

/// A type is in the batch exactly where a row of it is.
proof fn lemma_batch_row(
    entries: Map<Identity, EnvelopeView>,
    staged: Seq<EnvelopeView>,
    held: Seq<EnvelopeView>,
    t: Seq<char>,
)
    requires
        lists_entries(entries, held),
    ensures
        in_batch(entries, staged, t) <==> exists|i: int|
            0 <= i < (staged + held).len() && (#[trigger] (staged + held)[i]).entry_type == t,
{
    let rows = staged + held;
    if exists|i: int| 0 <= i < staged.len() && (#[trigger] staged[i]).entry_type == t {
        let i = choose|i: int| 0 <= i < staged.len() && (#[trigger] staged[i]).entry_type == t;
        assert(rows[i].entry_type == t);
    }
    if exists|id: Identity| #[trigger] entries.contains_key(id) && id.0 == t {
        let id = choose|id: Identity| #[trigger] entries.contains_key(id) && id.0 == t;
        let k = choose|k: int| 0 <= k < held.len() && (#[trigger] held[k]).id() == id;
        assert(rows[staged.len() + k] == held[k]);
        assert(rows[staged.len() + k].entry_type == t);
    }
    if exists|i: int| 0 <= i < rows.len() && (#[trigger] rows[i]).entry_type == t {
        let i = choose|i: int| 0 <= i < rows.len() && (#[trigger] rows[i]).entry_type == t;
        if i < staged.len() {
            assert(staged[i].entry_type == t);
        } else {
            assert(rows[i] == held[i - staged.len()]);
            assert(entries.contains_key(held[i - staged.len()].id()));
        }
    }
}

/// A batch of types two of which go different ways is refused, and nothing changes; so is one with
/// a type that is not registered, or that does not go to exactly one store.
pub proof fn batch_without_a_common_store_is_refused(
    before: CacheView,
    after: CacheView,
    staged: Seq<EnvelopeView>,
    done: Result<(), FailureView>,
    s: Seq<char>,
    t: Seq<char>,
)
    requires
        publishes_batch(before, after, staged, done),
        in_batch(before.entries, staged, s),
        in_batch(before.entries, staged, t),
        route(before.served, s) != route(before.served, t) || !before.definitions.contains_key(t)
            || route(before.served, t).len() != 1,
    ensures
        done is Err,
        after == before,
{
    if staged.len() > 0 {
        let held = choose|held: Seq<EnvelopeView>| #[trigger]
            lists_entries(before.entries, held) && match batch_store(
                before.definitions,
                before.served,
                staged + held,
            ) {
                Err(e) => done == Err::<(), FailureView>(e) && after == before,
                Ok(None) => false,
                Ok(Some(at)) => publishes(before, after, at, staged, done),
            };
        let rows = staged + held;
        lemma_batch_store(before.definitions, before.served, rows);
        lemma_batch_row(before.entries, staged, held, s);
        lemma_batch_row(before.entries, staged, held, t);
        let i = choose|i: int| 0 <= i < rows.len() && (#[trigger] rows[i]).entry_type == s;
        let j = choose|j: int| 0 <= j < rows.len() && (#[trigger] rows[j]).entry_type == t;
        assert(rows[i].entry_type == s && rows[j].entry_type == t);
    }
}

/// A batch that is not empty, all of whose types are registered and go to the one store `at` alone,
/// is handed to that store, and the answer is that store's. Every other refusal names its reason.
pub proof fn batch_with_a_common_store_is_handed_to_it(
    before: CacheView,
    after: CacheView,
    staged: Seq<EnvelopeView>,
    done: Result<(), FailureView>,
    at: int,
)
    requires
        publishes_batch(before, after, staged, done),
    ensures
        staged.len() > 0 && (forall|t: Seq<char>| #[trigger]
            in_batch(before.entries, staged, t) ==> before.definitions.contains_key(t) && route(
                before.served,
                t,
            ) == seq![at]) ==> publishes(before, after, at, staged, done),
        staged.len() == 0 ==> done == Err::<(), FailureView>(Failure::BatchEmpty) && after
            == before,
        staged.len() > 0 ==> {
            ||| exists|k: int| #[trigger] publishes(before, after, k, staged, done)
            ||| exists|t: Seq<char>| #[trigger]
                in_batch(before.entries, staged, t) && !before.definitions.contains_key(t) && done
                    == Err::<(), FailureView>(Failure::BatchTypeUnknown { entry_type: t })
            ||| exists|t: Seq<char>| #[trigger]
                in_batch(before.entries, staged, t) && route(before.served, t).len() != 1 && done
                    == Err::<(), FailureView>(
                    Failure::BatchRoute {
                        entry_type: t,
                        stores: route(before.served, t).len() as usize,
                    },
                )
            ||| done == Err::<(), FailureView>(Failure::BatchSpansStores) && exists|
                s: Seq<char>,
                t: Seq<char>,
            | #[trigger]
                in_batch(before.entries, staged, s) && #[trigger] in_batch(
                    before.entries,
                    staged,
                    t,
                ) && route(before.served, s) != route(before.served, t)
        },
{
    if staged.len() > 0 {
        let held = choose|held: Seq<EnvelopeView>| #[trigger]
            lists_entries(before.entries, held) && match batch_store(
                before.definitions,
                before.served,
                staged + held,
            ) {
                Err(e) => done == Err::<(), FailureView>(e) && after == before,
                Ok(None) => false,
                Ok(Some(at)) => publishes(before, after, at, staged, done),
            };
        let rows = staged + held;
        lemma_batch_store(before.definitions, before.served, rows);
        assert forall|i: int| 0 <= i < rows.len() implies in_batch(
            before.entries,
            staged,
            (#[trigger] rows[i]).entry_type,
        ) by {
            lemma_batch_row(before.entries, staged, held, rows[i].entry_type);
        }
        match batch_store(before.definitions, before.served, rows) {
            Ok(Some(k)) => {
                assert(publishes(before, after, k, staged, done));
                assert(in_batch(before.entries, staged, rows[0].entry_type));
                if route(before.served, rows[0].entry_type) == seq![at] {
                    assert(seq![k][0] == seq![at][0]);
                }
            },
            Ok(None) => {},
            Err(e) => {
                let i = choose|i: int|
                    0 <= i < rows.len() && {
                        ||| !before.definitions.contains_key((#[trigger] rows[i]).entry_type) && e
                            == (FailureView::BatchTypeUnknown { entry_type: rows[i].entry_type })
                        ||| route(before.served, rows[i].entry_type).len() != 1 && e == (
                        FailureView::BatchRoute {
                            entry_type: rows[i].entry_type,
                            stores: route(before.served, rows[i].entry_type).len() as usize,
                        })
                        ||| e == FailureView::BatchSpansStores && exists|j: int|
                            0 <= j < rows.len() && route(
                                before.served,
                                (#[trigger] rows[j]).entry_type,
                            ) != route(before.served, rows[i].entry_type)
                    };
                let s = rows[i].entry_type;
                assert(in_batch(before.entries, staged, s));
                if e == FailureView::BatchSpansStores {
                    let j = choose|j: int|
                        0 <= j < rows.len() && route(before.served, (#[trigger] rows[j]).entry_type)
                            != route(before.served, rows[i].entry_type);
                    assert(in_batch(before.entries, staged, rows[j].entry_type));
                }
            },
        }
    }
}

/// The rows of the last run stand behind all others.
proof fn lemma_joined_member(pulled: Seq<Seq<EnvelopeView>>, row: EnvelopeView)
    ensures
        joined(pulled).contains(row) <==> exists|i: int|
            0 <= i < pulled.len() && (#[trigger] pulled[i]).contains(row),
    decreases pulled.len(),
{
    if pulled.len() > 0 {
        let rest = pulled.drop_last();
        let n = pulled.len() - 1;
        let all = joined(pulled);
        let few = joined(rest);
        lemma_joined_member(rest, row);
        if all.contains(row) {
            let k = choose|k: int| 0 <= k < all.len() && all[k] == row;
            if k < few.len() {
                assert(few[k] == row);
                let i = choose|i: int| 0 <= i < rest.len() && (#[trigger] rest[i]).contains(row);
                assert(pulled[i] == rest[i]);
            } else {
                assert(pulled[n][k - few.len()] == row);
                assert(pulled[n].contains(row));
            }
        }
        if exists|i: int| 0 <= i < pulled.len() && (#[trigger] pulled[i]).contains(row) {
            let i = choose|i: int| 0 <= i < pulled.len() && (#[trigger] pulled[i]).contains(row);
            if i < n {
                assert(rest[i] == pulled[i]);
                assert(few.contains(row));
                let k = choose|k: int| 0 <= k < few.len() && few[k] == row;
                assert(all[k] == row);
            } else {
                let k = choose|k: int| 0 <= k < pulled[n].len() && pulled[n][k] == row;
                assert(all[few.len() + k] == row);
            }
        }
    }
}

/// The row at `k` of the run at `i` is the last of its identity: in its run, and as no later run
/// has one.
pub open spec fn last_pulled(pulled: Seq<Seq<EnvelopeView>>, i: int, k: int) -> bool {
    &&& 0 <= i < pulled.len()
    &&& 0 <= k < pulled[i].len()
    &&& forall|m: int|
        k < m < pulled[i].len() ==> (#[trigger] pulled[i][m]).id() != pulled[i][k].id()
    &&& forall|j: int, m: int|
        i < j < pulled.len() && 0 <= m < pulled[j].len() ==> (#[trigger] pulled[j][m]).id()
            != pulled[i][k].id()
}

/// The last row of an identity is what loading the runs one after the other leaves.
proof fn lemma_last_pulled(pulled: Seq<Seq<EnvelopeView>>, i: int, k: int)
    requires
        last_pulled(pulled, i, k),
    ensures
        with_entries(Map::empty(), joined(pulled)).contains_key(pulled[i][k].id()),
        with_entries(Map::empty(), joined(pulled))[pulled[i][k].id()] == pulled[i][k],
    decreases pulled.len(),
{
    let n = pulled.len() - 1;
    let rest = pulled.drop_last();
    let few = joined(rest);
    let row = pulled[i][k];
    if i < n {
        assert(rest[i] == pulled[i]);
        assert forall|j: int, m: int|
            i < j < rest.len() && 0 <= m < rest[j].len() implies (#[trigger] rest[j][m]).id()
            != rest[i][k].id() by {
            assert(rest[j] == pulled[j]);
            assert(pulled[j][m].id() != row.id());
        }
        lemma_last_pulled(rest, i, k);
        lemma_behind(few, pulled[n], row.id());
    } else {
        assert(pulled[i] == pulled[n]);
        let all = few + pulled[n];
        assert forall|m: int| few.len() + k < m < all.len() implies (#[trigger] all[m]).id()
            != row.id() by {
            assert(all[m] == pulled[n][m - few.len()]);
        }
        assert(all[few.len() + k] == row);
        lemma_last_entry_stays(Map::empty(), all, few.len() + k);
    }
}

/// Rows of other identities behind leave an identity alone.
proof fn lemma_behind(rows: Seq<EnvelopeView>, behind: Seq<EnvelopeView>, id: Identity)
    requires
        forall|m: int| 0 <= m < behind.len() ==> (#[trigger] behind[m]).id() != id,
    ensures
        with_entries(Map::empty(), rows + behind).contains_key(id) == with_entries(
            Map::empty(),
            rows,
        ).contains_key(id),
        with_entries(Map::empty(), rows).contains_key(id) ==> with_entries(
            Map::empty(),
            rows + behind,
        )[id] == with_entries(Map::empty(), rows)[id],
    decreases behind.len(),
{
    if behind.len() == 0 {
        assert(rows + behind =~= rows);
    } else {
        let b = behind.drop_last();
        assert((rows + behind).drop_last() =~= rows + b);
        assert((rows + behind).last() == behind[behind.len() - 1]);
        assert forall|m: int| 0 <= m < b.len() implies (#[trigger] b[m]).id() != id by {
            assert(b[m] == behind[m]);
        }
        lemma_behind(rows, b, id);
    }
}

/// Loading runs of rows one after the other leaves exactly the identities that they have.
proof fn lemma_pulled_identities(pulled: Seq<Seq<EnvelopeView>>, id: Identity)
    ensures
        with_entries(Map::empty(), joined(pulled)).contains_key(id) <==> exists|i: int, k: int|
            0 <= i < pulled.len() && 0 <= k < pulled[i].len() && (#[trigger] pulled[i][k]).id()
                == id,
{
    let all = joined(pulled);
    lemma_with_entries_at(Map::empty(), all, id);
    if exists|m: int| 0 <= m < all.len() && (#[trigger] all[m]).id() == id {
        let m = choose|m: int| 0 <= m < all.len() && (#[trigger] all[m]).id() == id;
        assert(all.contains(all[m]));
        lemma_joined_member(pulled, all[m]);
        let i = choose|i: int| 0 <= i < pulled.len() && (#[trigger] pulled[i]).contains(all[m]);
        let k = choose|k: int| 0 <= k < pulled[i].len() && pulled[i][k] == all[m];
        assert(pulled[i][k].id() == id);
    }
    if exists|i: int, k: int|
        0 <= i < pulled.len() && 0 <= k < pulled[i].len() && (#[trigger] pulled[i][k]).id() == id {
        let (i, k) = choose|i: int, k: int|
            0 <= i < pulled.len() && 0 <= k < pulled[i].len() && (#[trigger] pulled[i][k]).id()
                == id;
        let row = pulled[i][k];
        assert(pulled[i].contains(row));
        lemma_joined_member(pulled, row);
        let m = choose|m: int| 0 <= m < all.len() && all[m] == row;
        assert(all[m].id() == id);
    }
}

/// After a pull that went through, every store has answered, and the cache holds exactly the
/// identities of the answers. Under each stands its last row in the answer of the store that was
/// added last among those that have one: what was held before is gone, and a store that was added
/// later prevails.
pub proof fn later_stores_prevail(
    before: CacheView,
    after: CacheView,
    pulled: Seq<Seq<EnvelopeView>>,
)
    requires
        reloads_with(before, after, pulled, Ok(())),
    ensures
        pulled.len() == before.served.len(),
        forall|i: int| 0 <= i < pulled.len() ==> store_pulls(before, i, Ok(#[trigger] pulled[i])),
        forall|id: Identity| #[trigger]
            after.entries.contains_key(id) <==> exists|i: int, k: int|
                0 <= i < pulled.len() && 0 <= k < pulled[i].len() && (#[trigger] pulled[i][k]).id()
                    == id,
        forall|i: int, k: int| #[trigger]
            last_pulled(pulled, i, k) ==> after.entries.contains_key(pulled[i][k].id())
                && after.entries[pulled[i][k].id()] == pulled[i][k],
        forall|i: int, k: int|
            0 <= i < pulled.len() && 0 <= k < pulled[i].len() ==> before.definitions.contains_key(
                (#[trigger] pulled[i][k]).entry_type,
            ),
        after.definitions == before.definitions,
        after.served == before.served,
        after.held == before.held,
{
    assert forall|id: Identity| #[trigger] after.entries.contains_key(id) <==> exists|
        i: int,
        k: int,
    |
        0 <= i < pulled.len() && 0 <= k < pulled[i].len() && (#[trigger] pulled[i][k]).id()
            == id by {
        lemma_pulled_identities(pulled, id);
    }
    assert forall|i: int, k: int| #[trigger] last_pulled(
        pulled,
        i,
        k,
    ) implies after.entries.contains_key(pulled[i][k].id()) && after.entries[pulled[i][k].id()]
        == pulled[i][k] by {
        lemma_last_pulled(pulled, i, k);
    }
    assert forall|i: int, k: int|
        0 <= i < pulled.len() && 0 <= k < pulled[i].len() implies before.definitions.contains_key(
        (#[trigger] pulled[i][k]).entry_type,
    ) by {
        let row = pulled[i][k];
        assert(pulled[i].contains(row));
        lemma_joined_member(pulled, row);
        let m = choose|m: int| 0 <= m < joined(pulled).len() && joined(pulled)[m] == row;
        assert(before.definitions.contains_key(joined(pulled)[m].entry_type));
    }
}

/// Of two stores that both answered with a row of one identity, the one that was added first does
/// not have its row in the cache, unless it is also a row of the other.
pub proof fn earlier_stores_give_way(
    before: CacheView,
    after: CacheView,
    pulled: Seq<Seq<EnvelopeView>>,
    i: int,
    j: int,
    id: Identity,
)
    requires
        reloads_with(before, after, pulled, Ok(())),
        0 <= i < j < pulled.len(),
        exists|m: int| 0 <= m < pulled[j].len() && (#[trigger] pulled[j][m]).id() == id,
    ensures
        after.entries.contains_key(id),
        exists|k: int, m: int|
            j <= k < pulled.len() && 0 <= m < pulled[k].len() && (#[trigger] pulled[k][m])
                == after.entries[id] && pulled[k][m].id() == id,
{
    let m = choose|m: int| 0 <= m < pulled[j].len() && (#[trigger] pulled[j][m]).id() == id;
    let (k, n) = lemma_find_last(pulled, j, m);
    lemma_last_pulled(pulled, k, n);
    assert(pulled[k][n] == after.entries[id]);
}

/// Where an identity has a row, it has a last one, at that row or behind it.
proof fn lemma_find_last(pulled: Seq<Seq<EnvelopeView>>, i: int, k: int) -> (at: (int, int))
    requires
        0 <= i < pulled.len(),
        0 <= k < pulled[i].len(),
    ensures
        last_pulled(pulled, at.0, at.1),
        i <= at.0,
        pulled[at.0][at.1].id() == pulled[i][k].id(),
    decreases pulled.len() - i, pulled[i].len() - k,
{
    let id = pulled[i][k].id();
    if exists|m: int| k < m < pulled[i].len() && (#[trigger] pulled[i][m]).id() == id {
        let m = choose|m: int| k < m < pulled[i].len() && (#[trigger] pulled[i][m]).id() == id;
        lemma_find_last(pulled, i, m)
    } else if exists|j: int, m: int|
        i < j < pulled.len() && 0 <= m < pulled[j].len() && (#[trigger] pulled[j][m]).id() == id {
        let (j, m) = choose|j: int, m: int|
            i < j < pulled.len() && 0 <= m < pulled[j].len() && (#[trigger] pulled[j][m]).id()
                == id;
        lemma_find_last(pulled, j, m)
    } else {
        (i, k)
    }
}

/// A pull goes through where every store answers with rows of registered types alone. Where it does
/// not, the answer is that of the first store that failed, or names a type that is not registered
/// and that the last answer has a row of.
pub proof fn pull_fails_only_for_a_store_or_a_type(
    before: CacheView,
    after: CacheView,
    done: Result<(), FailureView>,
)
    requires
        reloads(before, after, done),
    ensures
        (forall|i: int, e: FailureView|
            0 <= i < before.served.len() ==> !#[trigger] store_pulls(before, i, Err(e))) && (forall|
            i: int,
            run: Seq<EnvelopeView>,
            k: int,
        |
            #![trigger store_pulls(before, i, Ok(run)), run[k]]
            0 <= i < before.served.len() && store_pulls(before, i, Ok(run)) && 0 <= k < run.len()
                ==> before.definitions.contains_key(run[k].entry_type)) ==> done is Ok,
        done matches Err(e) ==> {
            ||| exists|i: int|
                0 <= i < before.served.len() && #[trigger] store_pulls(before, i, Err(e))
            ||| exists|i: int, run: Seq<EnvelopeView>, k: int|
                #![trigger store_pulls(before, i, Ok(run)), run[k]]
                {
                    &&& 0 <= i < before.served.len()
                    &&& store_pulls(before, i, Ok(run))
                    &&& 0 <= k < run.len()
                    &&& !before.definitions.contains_key(run[k].entry_type)
                    &&& e == (FailureView::PersistedTypeUnknown { entry_type: run[k].entry_type })
                }
        },
{
    let pulled = choose|pulled: Seq<Seq<EnvelopeView>>| #[trigger]
        reloads_with(before, after, pulled, done);
    if let Err(e) = done {
        if !(pulled.len() < before.served.len() && store_pulls(
            before,
            pulled.len() as int,
            Err(e),
        )) {
            let all = joined(pulled);
            let t = e->PersistedTypeUnknown_entry_type;
            let k = choose|k: int| #[trigger]
                first_unknown(before.definitions, all, k) && t == all[k].entry_type;
            assert(all.contains(all[k]));
            lemma_joined_member(pulled, all[k]);
            let i = choose|i: int|
                0 <= i < pulled.len() && (#[trigger] pulled[i]).contains(all[k]);
            let m = choose|m: int| 0 <= m < pulled[i].len() && pulled[i][m] == all[k];
            assert(store_pulls(before, i, Ok(pulled[i])));
            assert(!before.definitions.contains_key(pulled[i][m].entry_type));
            assert(e == (FailureView::PersistedTypeUnknown { entry_type: pulled[i][m].entry_type }));
        }
    }
}

/// `entries` are exactly the identities of the runs of `pulled`, each with its last row.
pub open spec fn holds_last_rows(
    entries: Map<Identity, EnvelopeView>,
    pulled: Seq<Seq<EnvelopeView>>,
) -> bool {
    &&& forall|id: Identity| #[trigger]
        entries.contains_key(id) <==> exists|i: int, k: int|
            0 <= i < pulled.len() && 0 <= k < pulled[i].len() && (#[trigger] pulled[i][k]).id()
                == id
    &&& forall|i: int, k: int| #[trigger]
        last_pulled(pulled, i, k) ==> entries.contains_key(pulled[i][k].id())
            && entries[pulled[i][k].id()] == pulled[i][k]
}

proof fn lemma_holds_last_rows(pulled: Seq<Seq<EnvelopeView>>)
    ensures
        holds_last_rows(with_entries(Map::empty(), joined(pulled)), pulled),
{
    let entries = with_entries(Map::<Identity, EnvelopeView>::empty(), joined(pulled));
    assert forall|id: Identity| #[trigger] entries.contains_key(id) <==> exists|i: int, k: int|
        0 <= i < pulled.len() && 0 <= k < pulled[i].len() && (#[trigger] pulled[i][k]).id()
            == id by {
        lemma_pulled_identities(pulled, id);
    }
    assert forall|i: int, k: int| #[trigger] last_pulled(pulled, i, k) implies entries.contains_key(
        pulled[i][k].id(),
    ) && entries[pulled[i][k].id()] == pulled[i][k] by {
        lemma_last_pulled(pulled, i, k);
    }
}

/// The last run of `pulled` up to the row at `k`, behind the runs before it.
pub open spec fn cut_at(pulled: Seq<Seq<EnvelopeView>>, k: int) -> Seq<Seq<EnvelopeView>> {
    pulled.drop_last().push(pulled.last().take(k))
}

/// A pull that failed leaves what was pulled up to the failure, as a pull that goes through would,
/// and nothing of what was held before. Where a store failed, that are the rows of the stores
/// before it; where a type is not registered, it is the rows before the first row of that type.
pub proof fn failed_pull_keeps_what_was_pulled(
    before: CacheView,
    after: CacheView,
    pulled: Seq<Seq<EnvelopeView>>,
    e: FailureView,
)
    requires
        reloads_with(before, after, pulled, Err(e)),
    ensures
        ({
            ||| pulled.len() < before.served.len() && store_pulls(
                before,
                pulled.len() as int,
                Err(e),
            ) && holds_last_rows(after.entries, pulled)
            ||| pulled.len() > 0 && exists|k: int|
                {
                    &&& 0 <= k < pulled.last().len()
                    &&& !before.definitions.contains_key((#[trigger] pulled.last()[k]).entry_type)
                    &&& e == (FailureView::PersistedTypeUnknown {
                        entry_type: pulled.last()[k].entry_type,
                    })
                    &&& forall|m: int|
                        0 <= m < k ==> before.definitions.contains_key(
                            (#[trigger] pulled.last()[m]).entry_type,
                        )
                    &&& holds_last_rows(after.entries, cut_at(pulled, k))
                }
        }),
        after.definitions == before.definitions,
        after.served == before.served,
        after.held == before.held,
{
    let all = joined(pulled);
    if pulled.len() < before.served.len() && store_pulls(before, pulled.len() as int, Err(e))
        && loads(before.definitions, all, after.entries, None) {
        lemma_holds_last_rows(pulled);
    } else {
        let t = e->PersistedTypeUnknown_entry_type;
        let at = choose|k: int| #[trigger]
            first_unknown(before.definitions, all, k) && t == all[k].entry_type && after.entries
                == with_entries(Map::empty(), all.take(k));
        let few = joined(pulled.drop_last());
        let run = pulled.last();
        assert(all == few + run);
        if at < few.len() {
            assert(few[at] == all[at]);
            assert(before.definitions.contains_key(few[at].entry_type));
        }
        let k = at - few.len();
        assert(all[at] == run[k]);
        assert forall|m: int| 0 <= m < k implies before.definitions.contains_key(
            (#[trigger] run[m]).entry_type,
        ) by {
            assert(all[few.len() + m] == run[m]);
        }
        let cut = cut_at(pulled, k);
        assert(cut.drop_last() =~= pulled.drop_last());
        assert(joined(cut) =~= all.take(at));
        lemma_holds_last_rows(cut);
        assert(!before.definitions.contains_key(run[k].entry_type));
    }
}

/// An envelope that a cache with the registered types `definitions` takes as one of the type `T`,
/// as far as it can be seen without its payload: the type is registered with its schema's name and
/// is the envelope's, and the envelope's key and time of storing are more than white space. What
/// schema the envelope names, if any, does not matter.
pub open spec fn admissible<T: DatabaseEntry>(
    definitions: Map<Seq<char>, Seq<char>>,
    entry: EnvelopeView,
) -> bool {
    &&& definitions.contains_key(T::TYPE@)
    &&& definitions[T::TYPE@] == T::SCHEMA_NAME@
    &&& entry.entry_type == T::TYPE@
    &&& exists|i: int| 0 <= i < entry.key.len() && !white_space(#[trigger] entry.key[i])
    &&& exists|i: int| 0 <= i < entry.stored_at.len() && !white_space(#[trigger] entry.stored_at[i])
}

/// The payload `bytes` unpacks as a document of the type `T`, and never fails to.
pub open spec fn always_unpacks<T: DatabaseEntry>(bytes: Seq<u8>) -> bool {
    forall|cause: Seq<char>| !#[trigger] T::unpacks(bytes, Err::<T, Seq<char>>(cause))
}

/// Checking an admissible envelope comes to what its payload unpacks to: it fails only where that
/// fails. Checking another envelope fails, and says why.
pub proof fn admissible_envelopes_are_checked_by_their_payload<T: DatabaseEntry>(
    definitions: Map<Seq<char>, Seq<char>>,
    entry: EnvelopeView,
    checked: Result<T, FailureView>,
)
    requires
        validates::<T>(definitions, entry, checked),
    ensures
        admissible::<T>(definitions, entry) && always_unpacks::<T>(entry.payload) ==> checked is Ok,
        checked matches Ok(value) ==> admissible::<T>(definitions, entry) && T::unpacks(
            entry.payload,
            Ok::<T, Seq<char>>(value),
        ),
        admissible::<T>(definitions, entry) ==> (checked matches Err(e) ==> exists|cause: Seq<char>|
            #[trigger]
            T::unpacks(entry.payload, Err::<T, Seq<char>>(cause)) && e == (
            FailureView::EnvelopeInvalid {
                entry_type: T::TYPE@,
                key: entry.key,
                schema: T::SCHEMA_NAME@,
                cause,
            })),
        !registered::<T>(definitions) ==> checked == Err::<T, FailureView>(
            Failure::TypeNotRegistered { entry_type: T::TYPE@ },
        ),
        registered::<T>(definitions) && entry.entry_type != T::TYPE@ ==> checked == Err::<
            T,
            FailureView,
        >(Failure::EnvelopeTypeMismatch { found: entry.entry_type, wanted: T::TYPE@ }),
        registered::<T>(definitions) && entry.entry_type == T::TYPE@ && blank(entry.key) ==> checked
            == Err::<T, FailureView>(Failure::EnvelopeKeyBlank { entry_type: T::TYPE@ }),
        registered::<T>(definitions) && entry.entry_type == T::TYPE@ && !blank(entry.key) && blank(
            entry.stored_at,
        ) ==> checked == Err::<T, FailureView>(
            Failure::EnvelopeStoredAtBlank { entry_type: T::TYPE@ },
        ),
{
}

/// Two envelopes that differ in the schema they name are checked alike.
pub proof fn named_schema_does_not_matter<T: DatabaseEntry>(
    definitions: Map<Seq<char>, Seq<char>>,
    entry: EnvelopeView,
    schema_id: Option<Seq<char>>,
    checked: Result<T, FailureView>,
)
    requires
        validates::<T>(definitions, entry, checked),
    ensures
        validates::<T>(definitions, EnvelopeView { schema_id, ..entry }, checked),
{
    let other = EnvelopeView { schema_id, ..entry };
    if envelope_refusal::<T>(definitions, entry) is None && checked is Err {
        let cause = choose|cause: Seq<char>| #[trigger]
            T::unpacks(entry.payload, Err::<T, Seq<char>>(cause)) && checked->Err_0 == (
            FailureView::EnvelopeInvalid {
                entry_type: T::TYPE@,
                key: entry.key,
                schema: T::SCHEMA_NAME@,
                cause,
            });
        assert(T::unpacks(other.payload, Err::<T, Seq<char>>(cause)));
    }
    assert(envelope_refusal::<T>(definitions, other) == envelope_refusal::<T>(definitions, entry));
}

/// An admissible envelope whose payload unpacks is loaded, whatever schema it names: it stands
/// under its identity, every other entry stays, and no store is told. An envelope that is not
/// loaded leaves everything as it was.
pub proof fn admissible_envelope_is_loaded<T: DatabaseEntry>(
    before: CacheView,
    after: CacheView,
    entry: EnvelopeView,
    loaded: Result<T, FailureView>,
)
    requires
        loads_envelope::<T>(before, after, entry, loaded),
    ensures
        admissible::<T>(before.definitions, entry) && always_unpacks::<T>(entry.payload)
            ==> loaded is Ok,
        loaded is Ok ==> admissible::<T>(before.definitions, entry) && after.entries.contains_key(
            (entry.entry_type, entry.key),
        ) && after.entries[(entry.entry_type, entry.key)] == entry,
        forall|id: Identity|
            id != (entry.entry_type, entry.key) ==> (#[trigger] after.entries.contains_key(id)
                <==> before.entries.contains_key(id)) && (before.entries.contains_key(id)
                ==> after.entries[id] == before.entries[id]),
        loaded is Err ==> after == before,
        after.held == before.held,
        after.definitions == before.definitions,
{
    admissible_envelopes_are_checked_by_their_payload::<T>(before.definitions, entry, loaded);
}

/// Storing an admissible envelope whose payload unpacks comes to what the stores of its route
/// answer, whatever schema it names. An envelope that is not admissible reaches no store.
pub proof fn admissible_envelope_goes_to_its_stores<T: DatabaseEntry>(
    before: CacheView,
    after: CacheView,
    entry: EnvelopeView,
    stored: Result<T, FailureView>,
)
    requires
        puts_envelope::<T>(before, after, entry, stored),
    ensures
        admissible::<T>(before.definitions, entry) && always_unpacks::<T>(entry.payload)
            ==> writes_through(
            before,
            after,
            entry,
            match stored {
                Ok(_) => Ok(()),
                Err(e) => Err(e),
            },
        ),
        stored matches Ok(value) ==> admissible::<T>(before.definitions, entry) && T::unpacks(
            entry.payload,
            Ok::<T, Seq<char>>(value),
        ),
        !admissible::<T>(before.definitions, entry) ==> stored is Err && after == before,
{
    match stored {
        Ok(value) => {
            admissible_envelopes_are_checked_by_their_payload::<T>(
                before.definitions,
                entry,
                Ok(value),
            );
        },
        Err(e) => {
            if validates::<T>(before.definitions, entry, Err(e)) {
                admissible_envelopes_are_checked_by_their_payload::<T>(
                    before.definitions,
                    entry,
                    Err(e),
                );
            }
            if exists|value: T| #[trigger] validates::<T>(before.definitions, entry, Ok(value)) {
                let value = choose|value: T| #[trigger]
                    validates::<T>(before.definitions, entry, Ok(value));
                admissible_envelopes_are_checked_by_their_payload::<T>(
                    before.definitions,
                    entry,
                    Ok(value),
                );
            }
        },
    }
}

/// Storing a raw envelope of a registered type, whose key and time of storing are more than white
/// space, comes to what the stores of its route answer, whatever its payload and its schema are.
/// Another reaches no store, and the answer says why.
pub proof fn raw_envelope_goes_to_its_stores(
    before: CacheView,
    after: CacheView,
    entry: EnvelopeView,
    done: Result<(), FailureView>,
)
    requires
        puts_raw(before, after, entry, done),
    ensures
        before.definitions.contains_key(entry.entry_type) && !blank(entry.key) && !blank(
            entry.stored_at,
        ) ==> writes_through(before, after, entry, done),
        !before.definitions.contains_key(entry.entry_type) ==> after == before && done == Err::<
            (),
            FailureView,
        >(Failure::EnvelopeTypeUnknown { entry_type: entry.entry_type }),
        before.definitions.contains_key(entry.entry_type) && blank(entry.key) ==> after == before
            && done == Err::<(), FailureView>(
            Failure::EnvelopeKeyBlank { entry_type: entry.entry_type },
        ),
        before.definitions.contains_key(entry.entry_type) && !blank(entry.key) && blank(
            entry.stored_at,
        ) ==> after == before && done == Err::<(), FailureView>(
            Failure::EnvelopeStoredAtBlank { entry_type: entry.entry_type },
        ),
{
}

/// The store at `i` accepts the push of `entry`, whatever else it does.
pub open spec fn accepts_push(cache: CacheView, i: int, entry: EnvelopeView) -> bool {
    forall|e: FailureView, held: StoreState|
        !#[trigger] (cache.rules[i].pushes)(cache.held[i], entry, Err(e), held)
}

/// The store at `i` accepts the deletion of `entry`, whatever else it does.
pub open spec fn accepts_delete(cache: CacheView, i: int, entry: EnvelopeView) -> bool {
    forall|e: FailureView, held: StoreState|
        !#[trigger] (cache.rules[i].deletes)(cache.held[i], entry, Err(e), held)
}

/// Writing an entry asks the stores of its route, in their order, up to the first that refuses,
/// whose refusal is the answer; it asks no other store. It goes through where there is a store and
/// none refuses. The entry is in the cache exactly where it went through, and every other entry
/// stays.
pub proof fn write_comes_to_what_its_stores_answer(
    before: CacheView,
    after: CacheView,
    entry: EnvelopeView,
    answer: Result<(), FailureView>,
)
    requires
        writes_through(before, after, entry, answer),
    ensures
        route(before.served, entry.entry_type).len() == 0 ==> after == before && answer == Err::<
            (),
            FailureView,
        >(Failure::NoStore { entry_type: entry.entry_type }),
        route(before.served, entry.entry_type).len() > 0 && (forall|k: int|
            0 <= k < route(before.served, entry.entry_type).len() ==> accepts_push(
                before,
                #[trigger] route(before.served, entry.entry_type)[k],
                entry,
            )) ==> answer is Ok,
        answer is Ok ==> route(before.served, entry.entry_type).len() > 0 && forall|k: int|
            0 <= k < route(before.served, entry.entry_type).len() ==> (before.rules[
            #[trigger] route(before.served, entry.entry_type)[k]].pushes)(
                before.held[route(before.served, entry.entry_type)[k]],
                entry,
                Ok(()),
                after.held[route(before.served, entry.entry_type)[k]],
            ),
        answer is Err && route(before.served, entry.entry_type).len() > 0 ==> exists|n: int|
            0 <= n < route(before.served, entry.entry_type).len() && refused_at(
                before,
                after,
                route(before.served, entry.entry_type),
                false,
                entry,
                answer,
                #[trigger] route(before.served, entry.entry_type)[n],
                n,
            ),
        forall|i: int|
            0 <= i < before.held.len() && !route(before.served, entry.entry_type).contains(i)
                ==> #[trigger] after.held[i] == before.held[i],
        answer is Ok ==> after.entries.contains_key((entry.entry_type, entry.key))
            && after.entries[(entry.entry_type, entry.key)] == entry,
        forall|id: Identity|
            id != (entry.entry_type, entry.key) || answer is Err ==> (
            #[trigger] after.entries.contains_key(id) <==> before.entries.contains_key(id)) && (
            before.entries.contains_key(id) ==> after.entries[id] == before.entries[id]),
        after.definitions == before.definitions,
        after.served == before.served,
        after.rules == before.rules,
{
    let along = route(before.served, entry.entry_type);
    if along.len() > 0 && answer is Err {
        let n = lemma_refused(before, after, along, false, entry, answer);
        assert(refused_at(before, after, along, false, entry, answer, along[n], n));
        assert((before.rules[along[n]].pushes)(
            before.held[along[n]],
            entry,
            Err(answer->Err_0),
            after.held[along[n]],
        ));
    }
    if along.len() > 0 {
        assert(relayed(before.rules, before.held, after.held, along, false, entry, answer));
    }
    if answer is Ok {
        assert forall|k: int| 0 <= k < along.len() implies (before.rules[
        #[trigger] along[k]].pushes)(before.held[along[k]], entry, Ok(()), after.held[along[k]]) by {
            assert(answers(
                before.rules[along[k]],
                false,
                before.held[along[k]],
                entry,
                Ok(()),
                after.held[along[k]],
            ));
        }
    }
}

/// The store at `at`, which is the one at `n` of those asked, refused what the stores before it had
/// accepted, and the stores behind it were not asked.
pub open spec fn refused_at(
    before: CacheView,
    after: CacheView,
    along: Seq<int>,
    deletes: bool,
    entry: EnvelopeView,
    answer: Result<(), FailureView>,
    at: int,
    n: int,
) -> bool {
    &&& if deletes {
        (before.rules[at].deletes)(before.held[at], entry, answer, after.held[at])
    } else {
        (before.rules[at].pushes)(before.held[at], entry, answer, after.held[at])
    }
    &&& forall|k: int|
        0 <= k < n ==> if deletes {
            (before.rules[#[trigger] along[k]].deletes)(
                before.held[along[k]],
                entry,
                Ok(()),
                after.held[along[k]],
            )
        } else {
            (before.rules[along[k]].pushes)(
                before.held[along[k]],
                entry,
                Ok(()),
                after.held[along[k]],
            )
        }
    &&& forall|k: int|
        n < k < along.len() ==> after.held[#[trigger] along[k]] == before.held[along[k]]
}

proof fn lemma_refused(
    before: CacheView,
    after: CacheView,
    along: Seq<int>,
    deletes: bool,
    entry: EnvelopeView,
    answer: Result<(), FailureView>,
) -> (n: int)
    requires
        relayed(before.rules, before.held, after.held, along, deletes, entry, answer),
        answer is Err,
    ensures
        0 <= n < along.len(),
        refused_at(before, after, along, deletes, entry, answer, along[n], n),
{
    let n = choose|n: int|
        {
            &&& 0 <= n < along.len()
            &&& #[trigger] relayed_until(
                before.rules,
                before.held,
                after.held,
                along,
                n,
                deletes,
                entry,
            )
            &&& answers(
                before.rules[along[n]],
                deletes,
                before.held[along[n]],
                entry,
                answer,
                after.held[along[n]],
            )
            &&& forall|k: int|
                n < k < along.len() ==> after.held[#[trigger] along[k]] == before.held[along[k]]
        };
    assert forall|k: int| 0 <= k < n implies if deletes {
        (before.rules[#[trigger] along[k]].deletes)(
            before.held[along[k]],
            entry,
            Ok(()),
            after.held[along[k]],
        )
    } else {
        (before.rules[along[k]].pushes)(
            before.held[along[k]],
            entry,
            Ok(()),
            after.held[along[k]],
        )
    } by {
        assert(answers(
            before.rules[along[k]],
            deletes,
            before.held[along[k]],
            entry,
            Ok(()),
            after.held[along[k]],
        ));
    }
    n
}

/// Deleting the document under a key. Where the type is registered and a document is held, the
/// stores of the type's route are asked in their order, up to the first that refuses, whose refusal
/// is the answer; where there is a store and none refuses, the document is gone and the answer is
/// `true`. Where none is held, the answer is `false` and nothing changes. Every other entry stays.
pub proof fn delete_comes_to_what_its_stores_answer<T: DatabaseEntry>(
    before: CacheView,
    after: CacheView,
    key: Seq<char>,
    deleted: Result<bool, FailureView>,
)
    requires
        deletes_document::<T>(before, after, key, deleted),
    ensures
        !registered::<T>(before.definitions) ==> after == before && deleted == Err::<
            bool,
            FailureView,
        >(Failure::TypeNotRegistered { entry_type: T::TYPE@ }),
        registered::<T>(before.definitions) && !before.entries.contains_key((T::TYPE@, key))
            ==> after == before && deleted == Ok::<bool, FailureView>(false),
        registered::<T>(before.definitions) && before.entries.contains_key((T::TYPE@, key))
            ==> deleted != Ok::<bool, FailureView>(false),
        registered::<T>(before.definitions) && before.entries.contains_key((T::TYPE@, key)) && route(
            before.served,
            T::TYPE@,
        ).len() == 0 ==> after == before && deleted == Err::<bool, FailureView>(
            Failure::NoStore { entry_type: T::TYPE@ },
        ),
        registered::<T>(before.definitions) && before.entries.contains_key((T::TYPE@, key)) && route(
            before.served,
            T::TYPE@,
        ).len() > 0 && (forall|k: int|
            0 <= k < route(before.served, T::TYPE@).len() ==> accepts_delete(
                before,
                #[trigger] route(before.served, T::TYPE@)[k],
                before.entries[(T::TYPE@, key)],
            )) ==> deleted == Ok::<bool, FailureView>(true),
        deleted == Ok::<bool, FailureView>(true) ==> forall|k: int|
            0 <= k < route(before.served, T::TYPE@).len() ==> (before.rules[#[trigger] route(
                before.served,
                T::TYPE@,
            )[k]].deletes)(
                before.held[route(before.served, T::TYPE@)[k]],
                before.entries[(T::TYPE@, key)],
                Ok(()),
                after.held[route(before.served, T::TYPE@)[k]],
            ),
        registered::<T>(before.definitions) && before.entries.contains_key((T::TYPE@, key)) && route(
            before.served,
            T::TYPE@,
        ).len() > 0 ==> (deleted matches Err(e) ==> exists|n: int|
            0 <= n < route(before.served, T::TYPE@).len() && refused_at(
                before,
                after,
                route(before.served, T::TYPE@),
                true,
                before.entries[(T::TYPE@, key)],
                Err(e),
                #[trigger] route(before.served, T::TYPE@)[n],
                n,
            )),
        forall|i: int|
            0 <= i < before.held.len() && !route(before.served, T::TYPE@).contains(i) ==> (
            #[trigger] after.held[i]) == before.held[i],
        deleted == Ok::<bool, FailureView>(true) && before.entries[(T::TYPE@, key)].id() == (
            T::TYPE@,
            key,
        ) ==> after.entries == before.entries.remove((T::TYPE@, key)),
        deleted is Err ==> after.entries == before.entries,
        after.definitions == before.definitions,
        after.served == before.served,
{
    let along = route(before.served, T::TYPE@);
    if registered::<T>(before.definitions) && before.entries.contains_key((T::TYPE@, key)) {
        let entry = before.entries[(T::TYPE@, key)];
        if along.len() > 0 {
            match deleted {
                Err(e) => {
                    let n = lemma_refused(before, after, along, true, entry, Err(e));
                    assert(refused_at(before, after, along, true, entry, Err(e), along[n], n));
                },
                Ok(_) => {
                    assert forall|k: int| 0 <= k < along.len() implies (before.rules[
                    #[trigger] along[k]].deletes)(
                        before.held[along[k]],
                        entry,
                        Ok(()),
                        after.held[along[k]],
                    ) by {
                        assert(answers(
                            before.rules[along[k]],
                            true,
                            before.held[along[k]],
                            entry,
                            Ok(()),
                            after.held[along[k]],
                        ));
                    }
                },
            }
        }
    }
}

/// What looking a document up comes to: where the type is registered with its schema's name and an
/// entry stands under its name and the key, to what that entry's payload unpacks to; where none
/// does, to nothing.
pub proof fn lookup_comes_to_what_is_held<T: DatabaseEntry>(
    cache: CacheView,
    key: Seq<char>,
    found: Result<Option<T>, FailureView>,
)
    requires
        looks_up::<T>(cache, key, found),
    ensures
        !(cache.definitions.contains_key(T::TYPE@) && cache.definitions[T::TYPE@]
            == T::SCHEMA_NAME@) <==> found == Err::<Option<T>, FailureView>(
            Failure::TypeNotRegistered { entry_type: T::TYPE@ },
        ),
        cache.definitions.contains_key(T::TYPE@) && cache.definitions[T::TYPE@] == T::SCHEMA_NAME@
            ==> {
            &&& found == Ok::<Option<T>, FailureView>(None) <==> !cache.entries.contains_key(
                (T::TYPE@, key),
            )
            &&& cache.entries.contains_key((T::TYPE@, key)) && always_unpacks::<T>(
                cache.entries[(T::TYPE@, key)].payload,
            ) ==> found is Ok && found->Ok_0 is Some && T::unpacks(
                cache.entries[(T::TYPE@, key)].payload,
                Ok::<T, Seq<char>>(found->Ok_0->Some_0),
            )
            &&& found matches Err(e) ==> cache.entries.contains_key((T::TYPE@, key)) && exists|
                cause: Seq<char>,
            | #[trigger]
                T::unpacks(cache.entries[(T::TYPE@, key)].payload, Err::<T, Seq<char>>(cause)) && e
                    == (FailureView::EntryUndecodable {
                    entry_type: T::TYPE@,
                    key,
                    schema: T::SCHEMA_NAME@,
                    cause,
                })
        },
        envelope_at::<T>(cache, key) matches Ok(row) ==> match row {
            Some(entry) => cache.entries.contains_key((T::TYPE@, key)) && entry == cache.entries[(
                T::TYPE@,
                key,
            )],
            None => !cache.entries.contains_key((T::TYPE@, key)),
        },
        envelope_at::<T>(cache, key) is Ok <==> cache.definitions.contains_key(T::TYPE@)
            && cache.definitions[T::TYPE@] == T::SCHEMA_NAME@,
{
}

/// The document `value` always packs, and what it packs to always unpacks again.
pub open spec fn always_packs<T: DatabaseEntry>(value: T) -> bool {
    &&& forall|cause: Seq<char>| !#[trigger] value.packs(Err::<Seq<u8>, Seq<char>>(cause))
    &&& forall|payload: Seq<u8>| #[trigger]
        value.packs(Ok::<Seq<u8>, Seq<char>>(payload)) ==> always_unpacks::<T>(payload)
}

/// The document `value` always packs with named fields, and what it packs to always unpacks again.
pub open spec fn always_packs_named<T: DatabaseEntry>(value: T) -> bool {
    &&& forall|cause: Seq<char>| !#[trigger] value.packs_named(Err::<Seq<u8>, Seq<char>>(cause))
    &&& forall|payload: Seq<u8>| #[trigger]
        value.packs_named(Ok::<Seq<u8>, Seq<char>>(payload)) ==> always_unpacks::<T>(payload)
}

/// A document of a registered type that packs and unpacks again is prepared. Its envelope has the
/// key that was given, the type's name also as its schema, the packed document as its payload and
/// the moment that the clock said as its time of storing; the document that comes back is what the
/// payload unpacks to.
pub proof fn prepared_envelope_carries_its_document<T: DatabaseEntry>(
    definitions: Map<Seq<char>, Seq<char>>,
    key: Seq<char>,
    value: T,
    prepared: Result<(EnvelopeView, T), FailureView>,
)
    requires
        prepares::<T>(definitions, key, value, prepared),
    ensures
        registered::<T>(definitions) && always_packs::<T>(value) ==> prepared is Ok,
        !registered::<T>(definitions) ==> prepared == Err::<(EnvelopeView, T), FailureView>(
            Failure::TypeNotRegistered { entry_type: T::TYPE@ },
        ),
        prepared matches Ok((entry, parsed)) ==> {
            &&& registered::<T>(definitions)
            &&& entry.key == key
            &&& entry.entry_type == T::TYPE@
            &&& entry.schema_id == Some(T::TYPE@)
            &&& utc_second(entry.stored_at)
            &&& clock_said(entry.stored_at)
            &&& value.packs(Ok::<Seq<u8>, Seq<char>>(entry.payload))
            &&& T::unpacks(entry.payload, Ok::<T, Seq<char>>(parsed))
        },
{
    if registered::<T>(definitions) && prepared is Err {
        if exists|payload: Seq<u8>| #[trigger]
            value.packs(Ok::<Seq<u8>, Seq<char>>(payload)) && finishes::<T>(
                key,
                payload,
                prepared,
            ) {
            let payload = choose|payload: Seq<u8>| #[trigger]
                value.packs(Ok::<Seq<u8>, Seq<char>>(payload)) && finishes::<T>(
                    key,
                    payload,
                    prepared,
                );
            let cause = choose|cause: Seq<char>| #[trigger]
                T::unpacks(payload, Err::<T, Seq<char>>(cause));
            assert(T::unpacks(payload, Err::<T, Seq<char>>(cause)));
        }
    }
}

/// The same of a document that is packed with named fields.
pub proof fn named_envelope_carries_its_document<T: DatabaseEntry>(
    definitions: Map<Seq<char>, Seq<char>>,
    key: Seq<char>,
    value: T,
    prepared: Result<(EnvelopeView, T), FailureView>,
)
    requires
        prepares_named::<T>(definitions, key, value, prepared),
    ensures
        registered::<T>(definitions) && always_packs_named::<T>(value) ==> prepared is Ok,
        !registered::<T>(definitions) ==> prepared == Err::<(EnvelopeView, T), FailureView>(
            Failure::TypeNotRegistered { entry_type: T::TYPE@ },
        ),
        prepared matches Ok((entry, parsed)) ==> {
            &&& registered::<T>(definitions)
            &&& entry.key == key
            &&& entry.entry_type == T::TYPE@
            &&& entry.schema_id == Some(T::TYPE@)
            &&& utc_second(entry.stored_at)
            &&& clock_said(entry.stored_at)
            &&& value.packs_named(Ok::<Seq<u8>, Seq<char>>(entry.payload))
            &&& T::unpacks(entry.payload, Ok::<T, Seq<char>>(parsed))
        },
{
    if registered::<T>(definitions) && prepared is Err {
        if exists|payload: Seq<u8>| #[trigger]
            value.packs_named(Ok::<Seq<u8>, Seq<char>>(payload)) && finishes::<T>(
                key,
                payload,
                prepared,
            ) {
            let payload = choose|payload: Seq<u8>| #[trigger]
                value.packs_named(Ok::<Seq<u8>, Seq<char>>(payload)) && finishes::<T>(
                    key,
                    payload,
                    prepared,
                );
            let cause = choose|cause: Seq<char>| #[trigger]
                T::unpacks(payload, Err::<T, Seq<char>>(cause));
            assert(T::unpacks(payload, Err::<T, Seq<char>>(cause)));
        }
    }
}

/// Storing a document of a registered type that packs and unpacks again comes to what the stores of
/// its route answer to the push of its envelope. A document that is not stored leaves every entry
/// as it was, and one that is stored leaves every other.
pub proof fn put_comes_to_what_its_stores_answer<T: DatabaseEntry>(
    before: CacheView,
    after: CacheView,
    key: Seq<char>,
    value: T,
    stored: Result<T, FailureView>,
)
    requires
        puts::<T>(before, after, key, value, stored),
    ensures
        registered::<T>(before.definitions) && always_packs::<T>(value) ==> exists|
            entry: EnvelopeView,
            answer: Result<(), FailureView>,
        | #[trigger]
            writes_through(before, after, entry, answer) && entry.id() == (T::TYPE@, key)
                && value.packs(Ok::<Seq<u8>, Seq<char>>(entry.payload)) && match stored {
                Ok(_) => answer is Ok,
                Err(e) => answer == Err::<(), FailureView>(e),
            },
        !registered::<T>(before.definitions) ==> after == before && stored == Err::<T, FailureView>(
            Failure::TypeNotRegistered { entry_type: T::TYPE@ },
        ),
        stored is Ok ==> after.entries.contains_key((T::TYPE@, key)) && value.packs(
            Ok::<Seq<u8>, Seq<char>>(after.entries[(T::TYPE@, key)].payload),
        ),
        forall|id: Identity|
            id != (T::TYPE@, key) || stored is Err ==> (#[trigger] after.entries.contains_key(id)
                <==> before.entries.contains_key(id)) && (before.entries.contains_key(id)
                ==> after.entries[id] == before.entries[id]),
{
    match stored {
        Ok(parsed) => {
            let entry = choose|entry: EnvelopeView| #[trigger]
                writes_through(before, after, entry, Ok(())) && prepares::<T>(
                    before.definitions,
                    key,
                    value,
                    Ok((entry, parsed)),
                );
            prepared_envelope_carries_its_document::<T>(
                before.definitions,
                key,
                value,
                Ok((entry, parsed)),
            );
            write_comes_to_what_its_stores_answer(before, after, entry, Ok(()));
        },
        Err(e) => {
            if after == before && prepares::<T>(before.definitions, key, value, Err(e)) {
                prepared_envelope_carries_its_document::<T>(
                    before.definitions,
                    key,
                    value,
                    Err(e),
                );
            } else {
                let (entry, parsed) = choose|entry: EnvelopeView, parsed: T|
                    #![trigger prepares::<T>(before.definitions, key, value, Ok((entry, parsed)))]
                    prepares::<T>(before.definitions, key, value, Ok((entry, parsed)))
                        && writes_through(before, after, entry, Err(e));
                prepared_envelope_carries_its_document::<T>(
                    before.definitions,
                    key,
                    value,
                    Ok((entry, parsed)),
                );
                write_comes_to_what_its_stores_answer(before, after, entry, Err(e));
            }
        },
    }
}

/// An update hands the document that is held to the updater, or nothing where none is held, and
/// stores what the updater makes of it. It stores nothing only where the document cannot be looked
/// up.
pub proof fn update_stores_what_becomes_of_what_is_held<
    T: DatabaseEntry,
    F: FnOnce(Option<T>) -> T,
>(
    before: CacheView,
    after: CacheView,
    key: Seq<char>,
    updater: F,
    stored: Result<T, FailureView>,
    current: Option<T>,
)
    requires
        updates::<T, F>(before, after, key, updater, stored),
        unpacks_alike::<T>(),
        looks_up::<T>(before, key, Ok(current)),
    ensures
        exists|value: T| #[trigger]
            call_ensures(updater, (current,), value) && puts::<T>(
                before,
                after,
                key,
                value,
                stored,
            ),
{
    if exists|seen: Option<T>, value: T|
        {
            &&& looks_up::<T>(before, key, Ok(seen))
            &&& #[trigger] call_ensures(updater, (seen,), value)
            &&& puts::<T>(before, after, key, value, stored)
        } {
        let (seen, value) = choose|seen: Option<T>, value: T|
            {
                &&& looks_up::<T>(before, key, Ok(seen))
                &&& #[trigger] call_ensures(updater, (seen,), value)
                &&& puts::<T>(before, after, key, value, stored)
            };
        let payload = before.entries[(T::TYPE@, key)].payload;
        if before.entries.contains_key((T::TYPE@, key)) {
            assert(T::unpacks(payload, Ok::<T, Seq<char>>(seen->Some_0)));
            assert(T::unpacks(payload, Ok::<T, Seq<char>>(current->Some_0)));
        }
        assert(seen == current);
        assert(call_ensures(updater, (current,), value));
    } else {
        let payload = before.entries[(T::TYPE@, key)].payload;
        let cause = choose|cause: Seq<char>| #[trigger]
            T::unpacks(payload, Err::<T, Seq<char>>(cause));
        assert(T::unpacks(payload, Ok::<T, Seq<char>>(current->Some_0)));
    }
}

/// Registering a type. One whose name is more than white space and that is not registered yet is
/// registered, with its schema's name; every other type stays. Registering it again with that name
/// changes nothing, and with another is refused.
pub proof fn type_is_registered_once(
    before: CacheView,
    after: CacheView,
    t: Seq<char>,
    schema: Seq<char>,
    done: Result<(), FailureView>,
    again: CacheView,
    other: Seq<char>,
    done_again: Result<(), FailureView>,
)
    requires
        registers_type(before, after, t, schema, done),
        registers_type(after, again, t, other, done_again),
    ensures
        !blank(t) && !before.definitions.contains_key(t) ==> done is Ok,
        blank(t) <==> done == Err::<(), FailureView>(Failure::EmptyType),
        done is Ok ==> after.definitions.contains_key(t) && after.definitions[t] == schema,
        done is Err ==> after == before,
        forall|u: Seq<char>|
            u != t ==> (#[trigger] after.definitions.contains_key(u)
                <==> before.definitions.contains_key(u)) && (before.definitions.contains_key(u)
                ==> after.definitions[u] == before.definitions[u]),
        after.entries == before.entries,
        after.served == before.served,
        after.held == before.held,
        done is Ok && other == schema ==> done_again is Ok && again.definitions
            == after.definitions,
        done is Ok && other != schema ==> again == after && done_again == Err::<(), FailureView>(
            Failure::DefinitionConflict { entry_type: t },
        ),
{
    if done is Ok && other == schema {
        assert(after.definitions.insert(t, other) =~= after.definitions);
    }
}

/// The row at `k` is the last of its identity.
pub open spec fn last_row(rows: Seq<EnvelopeView>, k: int) -> bool {
    &&& 0 <= k < rows.len()
    &&& forall|m: int| k < m < rows.len() ==> (#[trigger] rows[m]).id() != rows[k].id()
}

/// Loading columns replaces everything that is held. It goes through exactly where the columns are
/// not refused and the type of every row is registered; the cache then holds exactly the identities
/// of the rows, each with its last row. Columns that are refused leave the cache empty, and a type
/// that is not registered leaves the rows before its first. No store is told.
pub proof fn columns_replace_what_is_held(
    before: CacheView,
    after: CacheView,
    refusal: Option<FailureView>,
    rows: Seq<EnvelopeView>,
    answer: Result<(), FailureView>,
)
    requires
        loads_columns(before, after, refusal, rows, answer),
    ensures
        answer is Ok <==> refusal is None && forall|k: int|
            0 <= k < rows.len() ==> before.definitions.contains_key(
                (#[trigger] rows[k]).entry_type,
            ),
        refusal matches Some(e) ==> answer == Err::<(), FailureView>(e) && forall|id: Identity|
            !#[trigger] after.entries.contains_key(id),
        answer is Ok ==> forall|id: Identity| #[trigger]
            after.entries.contains_key(id) <==> exists|k: int|
                0 <= k < rows.len() && (#[trigger] rows[k]).id() == id,
        answer is Ok ==> forall|k: int| #[trigger]
            last_row(rows, k) ==> after.entries.contains_key(rows[k].id())
                && after.entries[rows[k].id()] == rows[k],
        refusal is None ==> (answer matches Err(e) ==> exists|k: int|
            0 <= k < rows.len() && !before.definitions.contains_key(
                (#[trigger] rows[k]).entry_type,
            ) && e == (FailureView::SoaTypeUnknown { entry_type: rows[k].entry_type })
                && holds_last_rows(after.entries, seq![rows.take(k)]) && forall|m: int|
                0 <= m < k ==> before.definitions.contains_key((#[trigger] rows[m]).entry_type)),
        after.definitions == before.definitions,
        after.served == before.served,
        after.held == before.held,
{
    if refusal is None {
        match answer {
            Ok(_) => {
                assert forall|k: int| 0 <= k < rows.len() implies before.definitions.contains_key(
                    (#[trigger] rows[k]).entry_type,
                ) by {}
                assert forall|id: Identity| #[trigger] after.entries.contains_key(id) <==> exists|
                    k: int,
                |
                    0 <= k < rows.len() && (#[trigger] rows[k]).id() == id by {
                    lemma_with_entries_at(Map::empty(), rows, id);
                }
                assert forall|k: int| #[trigger] last_row(
                    rows,
                    k,
                ) implies after.entries.contains_key(rows[k].id()) && after.entries[rows[k].id()]
                    == rows[k] by {
                    lemma_last_entry_stays(Map::empty(), rows, k);
                }
            },
            Err(e) => {
                let t = e->SoaTypeUnknown_entry_type;
                let k = choose|k: int| #[trigger]
                    first_unknown(before.definitions, rows, k) && t == rows[k].entry_type
                        && after.entries == with_entries(Map::empty(), rows.take(k));
                let one = seq![rows.take(k)];
                assert(one.drop_last() =~= Seq::<Seq<EnvelopeView>>::empty());
                reveal_with_fuel(joined, 2);
                assert(joined(one) =~= rows.take(k));
                lemma_holds_last_rows(one);
                assert(!before.definitions.contains_key(rows[k].entry_type));
            },
        }
    }
}

/// A batch is one replacement of all rows of its store, which may not keep what it replaces: the
/// rows are the entries that the cache holds where it goes through, each once, in the order of
/// their types and keys. Where the store refuses, that is the answer, and every entry stays.
pub proof fn batch_is_one_replacement(
    before: CacheView,
    after: CacheView,
    at: int,
    staged: Seq<EnvelopeView>,
    answer: Result<(), FailureView>,
)
    requires
        publishes(before, after, at, staged, answer),
    ensures
        exists|rows: Seq<EnvelopeView>|
            {
                &&& #[trigger] lists_entries(with_entries(before.entries, staged), rows)
                &&& (before.rules[at].replaces)(
                    before.held[at],
                    rows,
                    PushAllOptions { soft: false },
                    answer,
                    after.held[at],
                )
                &&& forall|i: int, j: int|
                    0 <= i < j < rows.len() ==> text_before(
                        (#[trigger] rows[i]).entry_type,
                        (#[trigger] rows[j]).entry_type,
                    ) || (rows[i].entry_type == rows[j].entry_type && text_before(
                        rows[i].key,
                        rows[j].key,
                    ))
                &&& answer is Ok ==> forall|row: EnvelopeView| #[trigger]
                    rows.contains(row) <==> after.entries.contains_key(row.id())
                        && after.entries[row.id()] == row
            },
        answer is Err ==> after.entries == before.entries,
        after.definitions == before.definitions,
        after.served == before.served,
        after.rules == before.rules,
{
    let next = with_entries(before.entries, staged);
    let rows = choose|rows: Seq<EnvelopeView>|
        {
            &&& #[trigger] lists_entries(next, rows)
            &&& (before.rules[at].replaces)(
                before.held[at],
                rows,
                PushAllOptions { soft: false },
                answer,
                after.held[at],
            )
            &&& after == (CacheView {
                entries: match answer {
                    Ok(_) => next,
                    Err(_) => before.entries,
                },
                held: before.held.update(at, after.held[at]),
                ..before
            })
        };
    assert forall|i: int, j: int| 0 <= i < j < rows.len() implies text_before(
        (#[trigger] rows[i]).entry_type,
        (#[trigger] rows[j]).entry_type,
    ) || (rows[i].entry_type == rows[j].entry_type && text_before(rows[i].key, rows[j].key)) by {
        assert(pair_before(rows[i].id(), rows[j].id()));
    }
    if answer is Ok {
        assert forall|row: EnvelopeView| #[trigger] rows.contains(row)
            <==> after.entries.contains_key(row.id()) && after.entries[row.id()] == row by {
            if rows.contains(row) {
                let k = choose|k: int| 0 <= k < rows.len() && rows[k] == row;
                assert(next.contains_key(rows[k].id()) && next[rows[k].id()] == rows[k]);
            }
            if after.entries.contains_key(row.id()) && after.entries[row.id()] == row {
                let k = choose|k: int| 0 <= k < rows.len() && (#[trigger] rows[k]).id() == row.id();
                assert(next[rows[k].id()] == rows[k]);
            }
        }
    }
    assert(lists_entries(next, rows));
}

/// The registered types are listed each once, in the order of their names, and no other is.
pub proof fn types_are_listed_once_in_order(
    definitions: Map<Seq<char>, Seq<char>>,
    types: Seq<Seq<char>>,
    t: Seq<char>,
)
    requires
        lists_types(definitions, types),
    ensures
        types.contains(t) <==> definitions.contains_key(t),
        types.no_duplicates(),
        forall|i: int, j: int|
            0 <= i < j < types.len() ==> text_before(#[trigger] types[i], #[trigger] types[j]),
{
    if types.contains(t) {
        let i = choose|i: int| 0 <= i < types.len() && types[i] == t;
        assert(definitions.contains_key(types[i]));
    }
    assert forall|i: int, j: int|
        0 <= i < types.len() && 0 <= j < types.len() && i != j implies types[i] != types[j] by {
        lemma_text_irreflexive(types[i]);
        if i < j {
            assert(text_before(types[i], types[j]));
        } else {
            assert(text_before(types[j], types[i]));
        }
    }
}

} // verus!

//! A keyed store decides and changes as a single-file store that holds the same rows.

use crate::conditional::{append_refusal, delete_refusal};
use crate::envelope::{CultCacheEnvelope, EnvelopeView, Identity};
use crate::error::{outcome, BatchRows, CultCacheError, FailureView};
use crate::keyed::{
    absent_verdict, append_verdict, carries_out, expected_verdict, snapshot_verdict, table_appends,
    table_compacts, table_deletes, table_deletes_batch, table_inserts_absent, table_pushes,
    table_replaces, table_replaces_all, table_swaps_batch, table_swaps_entry,
};
use crate::messagepack::{identity_fits, packed_identity, unpacked_plain_row, unpacked_schema_row};
use crate::request_laws::{in_order, lemma_all_named, none_named, sorted_rows_are_the_same_rows};
use crate::row_laws::{
    lemma_only_row, lemma_replaced, lemma_rows_of_outside, lemma_unique_by_identity,
};
use crate::rows::{
    first_at, has_id, holds_row, ids_of, lemma_rows_of_add, lemma_rows_of_first,
    lemma_rows_of_member, lemma_rows_of_none, lemma_rows_outside_push, rows_of, rows_outside,
    same_rows, sorts_to, unique_ids,
};
use crate::single_file::{
    all_current, appends, collides, compacts, deletes_batch, inserts_absent,
    lemma_rows_outside_twice, replaces, swaps_batch, swaps_entry,
};
use crate::table::{
    decoded, decodes, decodes_rows, finite_table_is_listed, keys_of, listing_is_unique, listing_of,
    lists, machine_failure, own_key, packed_row, packs_whole, reads_back, reads_listing, row_fits,
    rows_listed, stored, with_rows, without_ids,
};
use crate::store_laws::lemma_same_members;
use vstd::prelude::*;

verus! {

/// Every identity of `rows` fits MessagePack.
pub open spec fn ids_fit(rows: Seq<EnvelopeView>) -> bool {
    forall|i: int| 0 <= i < rows.len() ==> identity_fits((#[trigger] rows[i]).id())
}

/// Everything in `rows` fits MessagePack.
pub open spec fn all_fit(rows: Seq<EnvelopeView>) -> bool {
    forall|i: int| 0 <= i < rows.len() ==> row_fits(#[trigger] rows[i])
}

/// The table holds exactly `rows`, each under a key of its own.
pub open spec fn mirrors<D: Fn(&Vec<u8>) -> Result<CultCacheEnvelope, String>>(
    held: Map<Seq<u8>, Seq<u8>>,
    decode: D,
    rows: Seq<EnvelopeView>,
) -> bool {
    &&& unique_ids(rows)
    &&& ids_fit(rows)
    &&& forall|i: int| 0 <= i < rows.len() ==> own_key((#[trigger] rows[i]).id())
    &&& held.dom() == keys_of(ids_of(rows))
    &&& forall|i: int|
        0 <= i < rows.len() ==> decoded(decode, held[packed_identity((#[trigger] rows[i]).id())])
            == Ok::<EnvelopeView, Seq<char>>(rows[i])
}

/// An empty table holds no rows.
pub proof fn empty_table_holds_nothing<D: Fn(&Vec<u8>) -> Result<CultCacheEnvelope, String>>(
    decode: D,
)
    ensures
        mirrors(Map::empty(), decode, Seq::empty()),
{
    assert(keys_of(ids_of(Seq::<EnvelopeView>::empty())) =~= Set::<Seq<u8>>::empty());
    assert(Map::<Seq<u8>, Seq<u8>>::empty().dom() =~= Set::<Seq<u8>>::empty());
}

/// A row that was put under its identity is read back, whatever stood there before.
pub proof fn put_row_is_read_back<D: Fn(&Vec<u8>) -> Result<CultCacheEnvelope, String>>(
    held: Map<Seq<u8>, Seq<u8>>,
    decode: D,
    row: EnvelopeView,
)
    requires
        row_fits(row),
        packs_whole(seq![row]),
    ensures
        stored(
            held.insert(packed_identity(row.id()), packed_row(row)),
            decode,
            row.id(),
        ) == Some(Ok::<EnvelopeView, Seq<char>>(row)),
{
    assert(reads_back(seq![row][0]));
}

/// Putting or removing a row leaves the rows under other identities alone.
pub proof fn other_identities_are_left_alone<
    D: Fn(&Vec<u8>) -> Result<CultCacheEnvelope, String>,
>(held: Map<Seq<u8>, Seq<u8>>, decode: D, row: EnvelopeView, other: Identity)
    requires
        identity_fits(row.id()),
        identity_fits(other),
        own_key(row.id()),
        other != row.id(),
    ensures
        stored(held.insert(packed_identity(row.id()), packed_row(row)), decode, other) == stored(
            held,
            decode,
            other,
        ),
        stored(held.remove(packed_identity(row.id())), decode, other) == stored(
            held,
            decode,
            other,
        ),
        stored(held.remove(packed_identity(row.id())), decode, row.id()) is None,
{
    assert(packed_identity(other) != packed_identity(row.id()));
}

/// What is pulled from a table are the rows that it holds, sorted by their identities.
pub proof fn held_rows_are_pulled<D: Fn(&Vec<u8>) -> Result<CultCacheEnvelope, String>>(
    held: Map<Seq<u8>, Seq<u8>>,
    decode: D,
    rows: Seq<EnvelopeView>,
    listing: Seq<(Seq<u8>, Seq<u8>)>,
    pulled: Result<Seq<EnvelopeView>, FailureView>,
)
    requires
        mirrors(held, decode, rows),
        lists(held, listing),
        reads_listing(listing, decode, pulled),
    ensures
        pulled is Ok,
        sorts_to(rows, pulled->Ok_0),
{
    lemma_listed_same(held, decode, rows, listing);
    let listed = rows_listed(listing, decode)->Ok_0;
    assert forall|id: Identity| #[trigger] rows_of(pulled->Ok_0, id) == rows_of(rows, id) by {
        assert(rows_of(pulled->Ok_0, id) == rows_of(listed, id));
        assert(rows_of(listed, id) == rows_of(rows, id));
    }
}

/// What a table that mirrors rows has stored under an identity.
proof fn lemma_stored<D: Fn(&Vec<u8>) -> Result<CultCacheEnvelope, String>>(
    held: Map<Seq<u8>, Seq<u8>>,
    decode: D,
    rows: Seq<EnvelopeView>,
    id: Identity,
)
    requires
        mirrors(held, decode, rows),
        identity_fits(id),
    ensures
        stored(held, decode, id) == if has_id(rows, id) {
            Some(Ok::<EnvelopeView, Seq<char>>(rows_of(rows, id)[0]))
        } else {
            None
        },
        has_id(rows, id) ==> rows_of(rows, id).len() == 1,
{
    if has_id(rows, id) {
        let i = choose|i: int| 0 <= i < rows.len() && (#[trigger] rows[i]).id() == id;
        lemma_only_row(rows, i);
        assert(ids_of(rows).contains(id));
        assert(keys_of(ids_of(rows)).contains(packed_identity(id)));
        assert(held.dom().contains(packed_identity(id)));
    } else {
        if held.contains_key(packed_identity(id)) {
            assert(keys_of(ids_of(rows)).contains(packed_identity(id)));
            let other = choose|other: Identity|
                ids_of(rows).contains(other) && #[trigger] packed_identity(other)
                    == packed_identity(id);
            let i = choose|i: int| 0 <= i < rows.len() && (#[trigger] rows[i]).id() == other;
            assert(identity_fits(other));
        }
    }
}

/// Whether exactly the expected rows are held is decided alike.
pub proof fn expected_rows_are_decided_alike<
    D: Fn(&Vec<u8>) -> Result<CultCacheEnvelope, String>,
>(held: Map<Seq<u8>, Seq<u8>>, decode: D, rows: Seq<EnvelopeView>, expected: Seq<EnvelopeView>)
    requires
        mirrors(held, decode, rows),
        ids_fit(expected),
    ensures
        expected_verdict(held, decode, expected) == Ok::<bool, FailureView>(
            all_current(rows, expected),
        ),
    decreases expected.len(),
{
    if expected.len() > 0 {
        let rest = expected.drop_last();
        let row = expected.last();
        assert(expected[expected.len() - 1] == row);
        assert(ids_fit(rest)) by {
            assert forall|i: int| 0 <= i < rest.len() implies identity_fits(
                (#[trigger] rest[i]).id(),
            ) by {
                assert(rest[i] == expected[i]);
            }
        }
        expected_rows_are_decided_alike(held, decode, rows, rest);
        lemma_stored(held, decode, rows, row.id());
        lemma_holds_row(rows, row);
        assert(all_current(rows, expected) == (all_current(rows, rest) && holds_row(rows, row))) by {
            if all_current(rows, expected) {
                assert(holds_row(rows, expected[expected.len() - 1]));
                assert forall|i: int| 0 <= i < rest.len() implies holds_row(
                    rows,
                    #[trigger] rest[i],
                ) by {
                    assert(holds_row(rows, expected[i]));
                }
            }
            if all_current(rows, rest) && holds_row(rows, row) {
                assert forall|i: int| 0 <= i < expected.len() implies holds_row(
                    rows,
                    #[trigger] expected[i],
                ) by {
                    if i < rest.len() {
                        assert(holds_row(rows, rest[i]));
                    }
                }
            }
        }
    }
}

/// A row is held where it is the first of its identity.
proof fn lemma_holds_row(rows: Seq<EnvelopeView>, row: EnvelopeView)
    requires
        unique_ids(rows),
    ensures
        holds_row(rows, row) == (has_id(rows, row.id()) && rows_of(rows, row.id())[0] == row),
{
    if holds_row(rows, row) {
        let i = choose|i: int| #[trigger] first_at(rows, row.id(), i) && rows[i] == row;
        assert(rows[i].id() == row.id());
        lemma_rows_of_first(rows, row.id(), i);
    }
    if has_id(rows, row.id()) && rows_of(rows, row.id())[0] == row {
        let i = choose|i: int| 0 <= i < rows.len() && (#[trigger] rows[i]).id() == row.id();
        lemma_only_row(rows, i);
        assert(first_at(rows, row.id(), i)) by {
            assert forall|j: int| 0 <= j < i implies (#[trigger] rows[j]).id() != row.id() by {
                assert(rows[j].id() != rows[i].id());
            }
        }
    }
}

/// Whether an added row collides is decided alike.
pub proof fn collisions_are_decided_alike<D: Fn(&Vec<u8>) -> Result<CultCacheEnvelope, String>>(
    held: Map<Seq<u8>, Seq<u8>>,
    decode: D,
    rows: Seq<EnvelopeView>,
    known: Set<Identity>,
    added: Seq<EnvelopeView>,
)
    requires
        mirrors(held, decode, rows),
        ids_fit(added),
    ensures
        absent_verdict(held, decode, known, added) == Ok::<bool, FailureView>(
            !collides(rows, known, added),
        ),
    decreases added.len(),
{
    if added.len() > 0 {
        let rest = added.drop_last();
        let row = added.last();
        assert(added[added.len() - 1] == row);
        assert(ids_fit(rest)) by {
            assert forall|i: int| 0 <= i < rest.len() implies identity_fits(
                (#[trigger] rest[i]).id(),
            ) by {
                assert(rest[i] == added[i]);
            }
        }
        collisions_are_decided_alike(held, decode, rows, known, rest);
        lemma_stored(held, decode, rows, row.id());
        let last = !known.contains(row.id()) && has_id(rows, row.id());
        assert(collides(rows, known, added) == (collides(rows, known, rest) || last)) by {
            if collides(rows, known, rest) {
                let i = choose|i: int|
                    0 <= i < rest.len() && !known.contains((#[trigger] rest[i]).id()) && has_id(
                        rows,
                        rest[i].id(),
                    );
                assert(added[i] == rest[i]);
            }
            if collides(rows, known, added) {
                let i = choose|i: int|
                    0 <= i < added.len() && !known.contains((#[trigger] added[i]).id()) && has_id(
                        rows,
                        added[i].id(),
                    );
                if i < rest.len() {
                    assert(rest[i] == added[i]);
                }
            }
        }
    }
}

proof fn lemma_all_listed<D: Fn(&Vec<u8>) -> Result<CultCacheEnvelope, String>>(
    listing: Seq<(Seq<u8>, Seq<u8>)>,
    decode: D,
)
    requires
        forall|i: int| 0 <= i < listing.len() ==> decoded(decode, (#[trigger] listing[i]).1) is Ok,
    ensures
        rows_listed(listing, decode) == Ok::<Seq<EnvelopeView>, FailureView>(
            Seq::new(listing.len(), |i: int| decoded(decode, listing[i].1)->Ok_0),
        ),
    decreases listing.len(),
{
    if listing.len() == 0 {
        assert(Seq::new(listing.len(), |i: int| decoded(decode, listing[i].1)->Ok_0) =~= Seq::<
            EnvelopeView,
        >::empty());
    } else {
        let rest = listing.drop_last();
        assert forall|i: int| 0 <= i < rest.len() implies decoded(
            decode,
            (#[trigger] rest[i]).1,
        ) is Ok by {
            assert(rest[i] == listing[i]);
        }
        lemma_all_listed(rest, decode);
        let n = listing.len() - 1;
        assert(listing[n] == listing.last());
        let fewer = Seq::new(rest.len(), |i: int| decoded(decode, rest[i].1)->Ok_0);
        let all = Seq::new(listing.len(), |i: int| decoded(decode, listing[i].1)->Ok_0);
        assert(all =~= fewer.push(decoded(decode, listing[n].1)->Ok_0));
    }
}

/// The rows of a listing are the rows that the table mirrors.
proof fn lemma_listed_same<D: Fn(&Vec<u8>) -> Result<CultCacheEnvelope, String>>(
    held: Map<Seq<u8>, Seq<u8>>,
    decode: D,
    rows: Seq<EnvelopeView>,
    listing: Seq<(Seq<u8>, Seq<u8>)>,
)
    requires
        mirrors(held, decode, rows),
        lists(held, listing),
    ensures
        rows_listed(listing, decode) is Ok,
        same_rows(rows_listed(listing, decode)->Ok_0, rows),
{
    assert forall|i: int| 0 <= i < listing.len() implies decoded(
        decode,
        (#[trigger] listing[i]).1,
    ) is Ok by {
        let k = lemma_listed_row(held, decode, rows, listing, i);
    }
    lemma_all_listed(listing, decode);
    let out = Seq::new(listing.len(), |i: int| decoded(decode, listing[i].1)->Ok_0);
    assert(unique_ids(out)) by {
        assert forall|i: int, j: int| 0 <= i < j < out.len() implies (#[trigger] out[i]).id() != (
        #[trigger] out[j]).id() by {
            let a = lemma_listed_row(held, decode, rows, listing, i);
            let b = lemma_listed_row(held, decode, rows, listing, j);
            assert(crate::table::bytes_before(listing[i].0, listing[j].0));
            if out[i].id() == out[j].id() {
                assert(listing[i].0 == listing[j].0);
                assert(!crate::table::bytes_before(listing[i].0, listing[i].0));
            }
        }
    }
    assert forall|id: Identity| #[trigger] rows_of(out, id) == rows_of(rows, id) by {
        if has_id(rows, id) {
            let k = choose|k: int| 0 <= k < rows.len() && (#[trigger] rows[k]).id() == id;
            lemma_only_row(rows, k);
            assert(ids_of(rows).contains(id));
            assert(keys_of(ids_of(rows)).contains(packed_identity(id)));
            assert(held.contains_key(packed_identity(id)));
            let i = choose|i: int|
                0 <= i < listing.len() && (#[trigger] listing[i]).0 == packed_identity(id);
            let m = lemma_listed_row(held, decode, rows, listing, i);
            assert(rows[m].id() == id) by {
                assert(identity_fits(rows[m].id()));
                assert(identity_fits(rows[k].id()));
            }
            if m != k {
                if m < k {
                    assert(rows[m].id() != rows[k].id());
                } else {
                    assert(rows[k].id() != rows[m].id());
                }
            }
            assert(out[i] == rows[k]);
            lemma_only_row(out, i);
        } else {
            assert(!has_id(out, id)) by {
                if has_id(out, id) {
                    let i = choose|i: int| 0 <= i < out.len() && (#[trigger] out[i]).id() == id;
                    let m = lemma_listed_row(held, decode, rows, listing, i);
                    assert(rows[m].id() == id);
                }
            }
            lemma_rows_of_none(out, id);
            lemma_rows_of_none(rows, id);
        }
    }
}

/// Which row stands at a place of a listing.
proof fn lemma_listed_row<D: Fn(&Vec<u8>) -> Result<CultCacheEnvelope, String>>(
    held: Map<Seq<u8>, Seq<u8>>,
    decode: D,
    rows: Seq<EnvelopeView>,
    listing: Seq<(Seq<u8>, Seq<u8>)>,
    i: int,
) -> (k: int)
    requires
        mirrors(held, decode, rows),
        lists(held, listing),
        0 <= i < listing.len(),
    ensures
        0 <= k < rows.len(),
        listing[i].0 == packed_identity(rows[k].id()),
        decoded(decode, listing[i].1) == Ok::<EnvelopeView, Seq<char>>(rows[k]),
{
    let key = listing[i].0;
    assert(held.contains_key(key));
    assert(keys_of(ids_of(rows)).contains(key));
    let id = choose|id: Identity| ids_of(rows).contains(id) && #[trigger] packed_identity(id) == key;
    let k = choose|k: int| 0 <= k < rows.len() && (#[trigger] rows[k]).id() == id;
    k
}

/// A table that holds rows can be listed, and lists those rows.
proof fn lemma_mirrored_listed<D: Fn(&Vec<u8>) -> Result<CultCacheEnvelope, String>>(
    held: Map<Seq<u8>, Seq<u8>>,
    decode: D,
    rows: Seq<EnvelopeView>,
)
    requires
        mirrors(held, decode, rows),
    ensures
        rows_listed(listing_of(held), decode) is Ok,
        same_rows(rows_listed(listing_of(held), decode)->Ok_0, rows),
{
    let keys = Seq::new(rows.len(), |i: int| packed_identity(rows[i].id()));
    assert(held.dom() =~= keys.to_set()) by {
        assert forall|key: Seq<u8>| held.dom().contains(key) == keys.to_set().contains(key) by {
            if keys_of(ids_of(rows)).contains(key) {
                let id = choose|id: Identity|
                    ids_of(rows).contains(id) && #[trigger] packed_identity(id) == key;
                let k = choose|k: int| 0 <= k < rows.len() && (#[trigger] rows[k]).id() == id;
                assert(keys[k] == key);
            }
            if keys.to_set().contains(key) {
                let k = choose|k: int| 0 <= k < keys.len() && keys[k] == key;
                assert(ids_of(rows).contains(rows[k].id()));
            }
        }
    }
    vstd::seq_lib::seq_to_set_is_finite(keys);
    finite_table_is_listed(held);
    lemma_listed_same(held, decode, rows, listing_of(held));
}

/// Whether the rows are exactly those of an expected snapshot is decided alike.
pub proof fn snapshots_are_decided_alike<D: Fn(&Vec<u8>) -> Result<CultCacheEnvelope, String>>(
    held: Map<Seq<u8>, Seq<u8>>,
    decode: D,
    rows: Seq<EnvelopeView>,
    expected: Seq<EnvelopeView>,
)
    requires
        mirrors(held, decode, rows),
    ensures
        snapshot_verdict(held, decode, expected) == Ok::<bool, FailureView>(
            same_rows(rows, expected),
        ),
{
    lemma_mirrored_listed(held, decode, rows);
    let out = rows_listed(listing_of(held), decode)->Ok_0;
    assert(same_rows(out, expected) == same_rows(rows, expected)) by {
        if same_rows(out, expected) {
            assert forall|id: Identity| #[trigger] rows_of(rows, id) == rows_of(expected, id) by {
                assert(rows_of(out, id) == rows_of(rows, id));
                assert(rows_of(out, id) == rows_of(expected, id));
            }
        }
        if same_rows(rows, expected) {
            assert forall|id: Identity| #[trigger] rows_of(out, id) == rows_of(expected, id) by {
                assert(rows_of(out, id) == rows_of(rows, id));
                assert(rows_of(rows, id) == rows_of(expected, id));
            }
        }
    }
}

/// Putting rows in the table leads to a table that mirrors what putting them in the file leads to,
/// in whatever order.
pub proof fn stores_change_alike<D: Fn(&Vec<u8>) -> Result<CultCacheEnvelope, String>>(
    held: Map<Seq<u8>, Seq<u8>>,
    decode: D,
    rows: Seq<EnvelopeView>,
    added: Seq<EnvelopeView>,
    after: Seq<EnvelopeView>,
)
    requires
        mirrors(held, decode, rows),
        unique_ids(added),
        all_fit(added),
        packs_whole(added),
        same_rows(after, rows_outside(rows, ids_of(added)) + added),
    ensures
        mirrors(with_rows(held, added), decode, after),
{
    let next = with_rows(held, added);
    lemma_unique_by_identity(rows);
    lemma_unique_by_identity(added);
    lemma_unique_by_identity(after);
    assert forall|id: Identity| #[trigger]
        rows_of(after, id) == if has_id(added, id) {
            rows_of(added, id)
        } else {
            rows_of(rows, id)
        } by {
        lemma_replaced(rows, ids_of(added), added, after, id);
        if has_id(added, id) {
            assert(ids_of(added).contains(id));
            assert(Seq::<EnvelopeView>::empty() + rows_of(added, id) =~= rows_of(added, id));
        } else {
            lemma_rows_of_none(added, id);
            assert(rows_of(rows, id) + Seq::<EnvelopeView>::empty() =~= rows_of(rows, id));
        }
    }
    assert forall|id: Identity| (#[trigger] rows_of(after, id)).len() <= 1 by {
        assert(rows_of(rows, id).len() <= 1);
        assert(rows_of(added, id).len() <= 1);
    }
    assert forall|id: Identity| #[trigger] has_id(after, id) == (has_id(rows, id) || has_id(
        added,
        id,
    )) by {
        lemma_rows_of_member(after, id);
        lemma_rows_of_member(rows, id);
        lemma_rows_of_member(added, id);
        assert(rows_of(after, id) == if has_id(added, id) {
            rows_of(added, id)
        } else {
            rows_of(rows, id)
        });
    }
    assert forall|i: int| 0 <= i < after.len() implies identity_fits((#[trigger] after[i]).id())
        && own_key(after[i].id()) by {
        let id = after[i].id();
        assert(has_id(after, id));
        if has_id(added, id) {
            let k = choose|k: int| 0 <= k < added.len() && (#[trigger] added[k]).id() == id;
        } else {
            let k = choose|k: int| 0 <= k < rows.len() && (#[trigger] rows[k]).id() == id;
        }
    }
    lemma_with_rows(held, added);
    assert(next.dom() =~= keys_of(ids_of(after))) by {
        assert forall|key: Seq<u8>| next.dom().contains(key) == keys_of(ids_of(after)).contains(
            key,
        ) by {
            if keys_of(ids_of(after)).contains(key) {
                let id = choose|id: Identity|
                    ids_of(after).contains(id) && #[trigger] packed_identity(id) == key;
                assert(has_id(after, id));
                if has_id(added, id) {
                    let k = choose|k: int| 0 <= k < added.len() && (#[trigger] added[k]).id() == id;
                    assert(next.contains_key(packed_identity(added[k].id())));
                } else {
                    assert(ids_of(rows).contains(id));
                    assert(keys_of(ids_of(rows)).contains(key));
                }
            }
            if next.dom().contains(key) {
                if held.contains_key(key) {
                    assert(keys_of(ids_of(rows)).contains(key));
                    let id = choose|id: Identity|
                        ids_of(rows).contains(id) && #[trigger] packed_identity(id) == key;
                    assert(has_id(rows, id));
                    assert(has_id(after, id));
                    assert(ids_of(after).contains(id));
                } else {
                    let k = choose|k: int|
                        0 <= k < added.len() && packed_identity((#[trigger] added[k]).id()) == key;
                    assert(has_id(added, added[k].id()));
                    assert(has_id(after, added[k].id()));
                    assert(ids_of(after).contains(added[k].id()));
                }
            }
        }
    }
    assert forall|i: int| 0 <= i < after.len() implies decoded(
        decode,
        next[packed_identity((#[trigger] after[i]).id())],
    ) == Ok::<EnvelopeView, Seq<char>>(after[i]) by {
        let row = after[i];
        let id = row.id();
        assert(has_id(after, id));
        lemma_only_row(after, i);
        if has_id(added, id) {
            let k = choose|k: int| 0 <= k < added.len() && (#[trigger] added[k]).id() == id;
            lemma_only_row(added, k);
            assert(rows_of(after, id) == rows_of(added, id));
            assert(seq![row][0] == seq![added[k]][0]);
            assert(next[packed_identity(added[k].id())] == packed_row(added[k]));
        } else {
            let k = choose|k: int| 0 <= k < rows.len() && (#[trigger] rows[k]).id() == id;
            lemma_only_row(rows, k);
            assert(rows_of(after, id) == rows_of(rows, id));
            assert(seq![row][0] == seq![rows[k]][0]);
            assert forall|m: int| 0 <= m < added.len() implies packed_identity(
                (#[trigger] added[m]).id(),
            ) != packed_identity(id) by {
                assert(identity_fits(id));
            }
            assert(next[packed_identity(id)] == held[packed_identity(id)]);
        }
    }
}

/// What putting rows leaves in a table.
proof fn lemma_with_rows(held: Map<Seq<u8>, Seq<u8>>, added: Seq<EnvelopeView>)
    requires
        unique_ids(added),
        ids_fit(added),
        forall|i: int| 0 <= i < added.len() ==> own_key((#[trigger] added[i]).id()),
    ensures
        forall|i: int|
            0 <= i < added.len() ==> with_rows(held, added).contains_key(
                packed_identity((#[trigger] added[i]).id()),
            ) && with_rows(held, added)[packed_identity(added[i].id())] == packed_row(added[i]),
        forall|key: Seq<u8>| #[trigger]
            with_rows(held, added).contains_key(key) ==> held.contains_key(key) || exists|i: int|
                0 <= i < added.len() && packed_identity((#[trigger] added[i]).id()) == key,
        forall|key: Seq<u8>|
            #![trigger with_rows(held, added)[key]]
            #![trigger held.contains_key(key)]
            held.contains_key(key) ==> with_rows(held, added).contains_key(key),
        forall|key: Seq<u8>|
            (forall|i: int|
                0 <= i < added.len() ==> packed_identity((#[trigger] added[i]).id()) != key)
                ==> #[trigger] with_rows(held, added)[key] == held[key],
    decreases added.len(),
{
    if added.len() > 0 {
        let rest = added.drop_last();
        let row = added.last();
        let n = added.len() - 1;
        assert(added[n] == row);
        assert forall|i: int| 0 <= i < rest.len() implies identity_fits((#[trigger] rest[i]).id()) by {
            assert(rest[i] == added[i]);
        }
        assert forall|i: int, j: int| 0 <= i < j < rest.len() implies (#[trigger] rest[i]).id() != (
        #[trigger] rest[j]).id() by {
            assert(rest[i] == added[i] && rest[j] == added[j]);
        }
        assert forall|i: int| 0 <= i < rest.len() implies own_key((#[trigger] rest[i]).id()) by {
            assert(rest[i] == added[i]);
        }
        lemma_with_rows(held, rest);
        let before = with_rows(held, rest);
        let next = with_rows(held, added);
        assert(next == before.insert(packed_identity(row.id()), packed_row(row)));
        assert forall|i: int| 0 <= i < added.len() implies next.contains_key(
            packed_identity((#[trigger] added[i]).id()),
        ) && next[packed_identity(added[i].id())] == packed_row(added[i]) by {
            if i < n {
                assert(rest[i] == added[i]);
                assert(added[i].id() != added[n].id());
                assert(packed_identity(added[i].id()) != packed_identity(row.id()));
            }
        }
        assert forall|key: Seq<u8>| #[trigger] next.contains_key(key) implies held.contains_key(key)
            || exists|i: int|
            0 <= i < added.len() && packed_identity((#[trigger] added[i]).id()) == key by {
            if key == packed_identity(row.id()) {
                assert(packed_identity(added[n].id()) == key);
            } else {
                assert(before.contains_key(key));
                if !held.contains_key(key) {
                    let i = choose|i: int|
                        0 <= i < rest.len() && packed_identity((#[trigger] rest[i]).id()) == key;
                    assert(packed_identity(added[i].id()) == key);
                }
            }
        }
        assert forall|key: Seq<u8>|
            (forall|i: int|
                0 <= i < added.len() ==> packed_identity((#[trigger] added[i]).id())
                    != key) implies #[trigger] next[key] == held[key] by {
            assert(packed_identity(added[n].id()) != key);
            assert forall|i: int| 0 <= i < rest.len() implies packed_identity(
                (#[trigger] rest[i]).id(),
            ) != key by {
                assert(rest[i] == added[i]);
            }
            assert(before[key] == held[key]);
        }
    }
}

/// Taking rows out of the table leads to a table that mirrors what taking them out of the file
/// leads to.
pub proof fn stores_delete_alike<D: Fn(&Vec<u8>) -> Result<CultCacheEnvelope, String>>(
    held: Map<Seq<u8>, Seq<u8>>,
    decode: D,
    rows: Seq<EnvelopeView>,
    ids: Set<Identity>,
)
    requires
        mirrors(held, decode, rows),
        forall|id: Identity| #[trigger] ids.contains(id) ==> identity_fits(id),
    ensures
        mirrors(without_ids(held, ids), decode, rows_outside(rows, ids)),
{
    let next = without_ids(held, ids);
    let after = rows_outside(rows, ids);
    lemma_unique_by_identity(rows);
    lemma_unique_by_identity(after);
    assert forall|id: Identity| #[trigger]
        rows_of(after, id) == if ids.contains(id) {
            Seq::empty()
        } else {
            rows_of(rows, id)
        } by {
        lemma_rows_of_outside(rows, ids, id);
    }
    assert forall|id: Identity| (#[trigger] rows_of(after, id)).len() <= 1 by {
        assert(rows_of(rows, id).len() <= 1);
    }
    assert forall|id: Identity| #[trigger] has_id(after, id) == (has_id(rows, id) && !ids.contains(
        id,
    )) by {
        lemma_rows_of_member(after, id);
        lemma_rows_of_member(rows, id);
        assert(rows_of(after, id) == if ids.contains(id) {
            Seq::empty()
        } else {
            rows_of(rows, id)
        });
    }
    assert forall|i: int| 0 <= i < after.len() implies identity_fits((#[trigger] after[i]).id())
        && decoded(decode, next[packed_identity(after[i].id())]) == Ok::<EnvelopeView, Seq<char>>(
        after[i],
    ) by {
        let id = after[i].id();
        assert(has_id(after, id));
        let k = choose|k: int| 0 <= k < rows.len() && (#[trigger] rows[k]).id() == id;
        lemma_only_row(after, i);
        lemma_only_row(rows, k);
        assert(rows_of(after, id) == rows_of(rows, id));
        assert(seq![after[i]][0] == seq![rows[k]][0]);
        assert(!keys_of(ids).contains(packed_identity(id))) by {
            if keys_of(ids).contains(packed_identity(id)) {
                let other = choose|other: Identity|
                    ids.contains(other) && #[trigger] packed_identity(other) == packed_identity(id);
                assert(identity_fits(other) && identity_fits(id));
            }
        }
        assert(ids_of(rows).contains(id));
        assert(keys_of(ids_of(rows)).contains(packed_identity(id)));
        assert(held.contains_key(packed_identity(id)));
        assert(next.contains_key(packed_identity(id)));
        assert(next[packed_identity(id)] == held[packed_identity(id)]);
    }
    assert(next.dom() =~= keys_of(ids_of(after))) by {
        assert forall|key: Seq<u8>| next.dom().contains(key) == keys_of(ids_of(after)).contains(
            key,
        ) by {
            if keys_of(ids_of(after)).contains(key) {
                let id = choose|id: Identity|
                    ids_of(after).contains(id) && #[trigger] packed_identity(id) == key;
                assert(has_id(after, id));
                let k = choose|k: int| 0 <= k < rows.len() && (#[trigger] rows[k]).id() == id;
                assert(ids_of(rows).contains(id));
                assert(keys_of(ids_of(rows)).contains(key));
                if keys_of(ids).contains(key) {
                    let other = choose|other: Identity|
                        ids.contains(other) && #[trigger] packed_identity(other) == key;
                    assert(identity_fits(other) && identity_fits(id));
                }
            }
            if next.dom().contains(key) {
                assert(keys_of(ids_of(rows)).contains(key));
                let id = choose|id: Identity|
                    ids_of(rows).contains(id) && #[trigger] packed_identity(id) == key;
                assert(has_id(rows, id));
                if ids.contains(id) {
                    assert(keys_of(ids).contains(key));
                }
                assert(has_id(after, id));
                assert(ids_of(after).contains(id));
            }
        }
    }
}

/// Whether an append goes through is decided alike.
pub proof fn appends_are_decided_alike<D: Fn(&Vec<u8>) -> Result<CultCacheEnvelope, String>>(
    held: Map<Seq<u8>, Seq<u8>>,
    decode: D,
    rows: Seq<EnvelopeView>,
    expected: Seq<EnvelopeView>,
    added: Seq<EnvelopeView>,
)
    requires
        mirrors(held, decode, rows),
    ensures
        append_verdict(held, decode, expected, added) == Ok::<bool, FailureView>(
            same_rows(rows, expected) && ids_of(rows).disjoint(ids_of(added)),
        ),
{
    snapshots_are_decided_alike(held, decode, rows, expected);
    lemma_mirrored_listed(held, decode, rows);
    let out = rows_listed(listing_of(held), decode)->Ok_0;
    assert(ids_of(out) =~= ids_of(rows)) by {
        assert forall|id: Identity| ids_of(out).contains(id) == ids_of(rows).contains(id) by {
            assert(rows_of(out, id) == rows_of(rows, id));
            lemma_rows_of_member(out, id);
            lemma_rows_of_member(rows, id);
        }
    }
}

/// Rows none of which has an identity of `ids` all stay.
proof fn lemma_none_outside(rows: Seq<EnvelopeView>, ids: Set<Identity>)
    requires
        ids_of(rows).disjoint(ids),
    ensures
        rows_outside(rows, ids) == rows,
    decreases rows.len(),
{
    if rows.len() == 0 {
        reveal(Seq::filter);
        assert(rows_outside(rows, ids) =~= rows);
    } else {
        let rest = rows.drop_last();
        let row = rows.last();
        assert(rows =~= rest.push(row));
        assert(rows[rows.len() - 1].id() == row.id());
        assert(ids_of(rows).contains(row.id()));
        assert(ids_of(rest).disjoint(ids)) by {
            assert forall|id: Identity| !(ids_of(rest).contains(id) && ids.contains(id)) by {
                if ids_of(rest).contains(id) {
                    let i = choose|i: int| 0 <= i < rest.len() && (#[trigger] rest[i]).id() == id;
                    assert(rows[i].id() == id);
                    assert(ids_of(rows).contains(id));
                }
            }
        }
        lemma_none_outside(rest, ids);
        lemma_rows_outside_push(rest, row, ids);
    }
}

/// A batch that was appended stands whole among the rows. Deleting it with one member changed is
/// declined; deleting it as it is goes through, and leaves the table as it was before the append.
/// Deleting nothing is refused.
pub proof fn appended_batch_is_deleted_whole<
    D: Fn(&Vec<u8>) -> Result<CultCacheEnvelope, String>,
>(
    held: Map<Seq<u8>, Seq<u8>>,
    decode: D,
    rows: Seq<EnvelopeView>,
    added: Seq<EnvelopeView>,
    after: Seq<EnvelopeView>,
    changed_at: int,
    changed: EnvelopeView,
)
    requires
        mirrors(held, decode, rows),
        append_refusal(rows, added) is None,
        append_verdict(held, decode, rows, added) == Ok::<bool, FailureView>(true),
        all_fit(added),
        packs_whole(added),
        same_rows(after, rows + added),
        0 <= changed_at < added.len(),
        changed.id() == added[changed_at].id(),
        changed != added[changed_at],
    ensures
        mirrors(with_rows(held, added), decode, after),
        delete_refusal(added.update(changed_at, changed)) is None,
        expected_verdict(with_rows(held, added), decode, added.update(changed_at, changed)) == Ok::<
            bool,
            FailureView,
        >(false),
        delete_refusal(added) is None,
        expected_verdict(with_rows(held, added), decode, added) == Ok::<bool, FailureView>(true),
        without_ids(with_rows(held, added), ids_of(added)) == held,
        delete_refusal(Seq::empty()) == Some(FailureView::ExpectedEmpty),
{
    let ids = ids_of(added);
    let next = with_rows(held, added);
    let stale = added.update(changed_at, changed);
    appends_are_decided_alike(held, decode, rows, rows, added);
    lemma_none_outside(rows, ids);
    stores_change_alike(held, decode, rows, added, after);
    assert forall|i: int| 0 <= i < stale.len() implies (#[trigger] stale[i]).id()
        == added[i].id() by {}
    assert(ids_fit(added)) by {
        assert forall|i: int| 0 <= i < added.len() implies identity_fits(
            (#[trigger] added[i]).id(),
        ) by {
            assert(row_fits(added[i]));
        }
    }
    assert(ids_fit(stale)) by {
        assert forall|i: int| 0 <= i < stale.len() implies identity_fits(
            (#[trigger] stale[i]).id(),
        ) by {
            assert(identity_fits(added[i].id()));
        }
    }
    assert forall|i: int| 0 <= i < added.len() implies has_id(after, (#[trigger] added[i]).id())
        && rows_of(after, added[i].id()) == seq![added[i]] by {
        let id = added[i].id();
        lemma_replaced(rows, ids, added, after, id);
        lemma_only_row(added, i);
        assert(ids.contains(id));
        assert(rows_of(after, id) =~= seq![added[i]]);
        lemma_rows_of_member(after, id);
    }
    assert(all_current(after, added)) by {
        assert forall|i: int| 0 <= i < added.len() implies holds_row(after, #[trigger] added[i]) by {
            assert(rows_of(after, added[i].id()) == seq![added[i]]);
            lemma_holds_row(after, added[i]);
        }
    }
    assert(!all_current(after, stale)) by {
        lemma_holds_row(after, changed);
        assert(stale[changed_at] == changed);
        assert(rows_of(after, added[changed_at].id()) == seq![added[changed_at]]);
        assert(seq![added[changed_at]][0] == added[changed_at]);
    }
    expected_rows_are_decided_alike(next, decode, after, added);
    expected_rows_are_decided_alike(next, decode, after, stale);
    assert(unique_ids(stale)) by {
        assert forall|i: int, j: int| 0 <= i < j < stale.len() implies (#[trigger] stale[i]).id()
            != (#[trigger] stale[j]).id() by {
            assert(added[i].id() != added[j].id());
        }
    }
    lemma_with_rows(held, added);
    assert(without_ids(next, ids) =~= held) by {
        let back = without_ids(next, ids);
        assert forall|key: Seq<u8>| #[trigger] held.contains_key(key) implies back.contains_key(key)
            && back[key] == held[key] by {
            assert(keys_of(ids_of(rows)).contains(key));
            let id = choose|id: Identity|
                ids_of(rows).contains(id) && #[trigger] packed_identity(id) == key;
            let k = choose|k: int| 0 <= k < rows.len() && (#[trigger] rows[k]).id() == id;
            assert(own_key(rows[k].id()) && identity_fits(rows[k].id()));
            if keys_of(ids).contains(key) {
                let other = choose|other: Identity|
                    ids.contains(other) && #[trigger] packed_identity(other) == key;
                let m = choose|m: int| 0 <= m < added.len() && (#[trigger] added[m]).id() == other;
                assert(identity_fits(added[m].id()));
                assert(other == id);
            }
            assert forall|m: int| 0 <= m < added.len() implies packed_identity(
                (#[trigger] added[m]).id(),
            ) != key by {
                assert(ids.contains(added[m].id()));
                if packed_identity(added[m].id()) == key {
                    assert(keys_of(ids).contains(key));
                }
            }
            assert(next[key] == held[key]);
        }
        assert forall|key: Seq<u8>| #[trigger] back.contains_key(key) implies held.contains_key(
            key,
        ) by {
            assert(next.contains_key(key));
            if !held.contains_key(key) {
                let m = choose|m: int|
                    0 <= m < added.len() && packed_identity((#[trigger] added[m]).id()) == key;
                assert(ids.contains(added[m].id()));
                assert(keys_of(ids).contains(key));
            }
        }
    }
}

/// Where a request was carried out on a table, its answer is the one that the same request on the
/// rows comes to, or a failure of the machine; and the table holds what the rows come to.
pub open spec fn answered_alike<D: Fn(&Vec<u8>) -> Result<CultCacheEnvelope, String>>(
    held: Map<Seq<u8>, Seq<u8>>,
    decode: D,
    after: Map<Seq<u8>, Seq<u8>>,
    done: Result<bool, CultCacheError>,
    ids: Set<Identity>,
    put: Seq<EnvelopeView>,
    rows_after: Seq<EnvelopeView>,
    rows_done: Result<bool, FailureView>,
) -> bool {
    &&& outcome(done) == rows_done || (done is Err && rows_done is Ok && machine_failure(
        done->Err_0@,
        ids,
        put,
    ))
    &&& done is Ok ==> mirrors(after, decode, rows_after)
    &&& rows_done is Err ==> after == held
    &&& done == Ok::<bool, CultCacheError>(false) ==> after == held
}

/// Rows that fit have identities that fit.
proof fn lemma_fitting_ids(rows: Seq<EnvelopeView>)
    requires
        all_fit(rows),
    ensures
        ids_fit(rows),
{
    assert forall|i: int| 0 <= i < rows.len() implies identity_fits((#[trigger] rows[i]).id()) by {
        assert(row_fits(rows[i]));
    }
}

/// The sets of identities that fit.
proof fn lemma_ids_of_fitting(rows: Seq<EnvelopeView>)
    requires
        ids_fit(rows),
    ensures
        forall|id: Identity| #[trigger] ids_of(rows).contains(id) ==> identity_fits(id),
{
    assert forall|id: Identity| #[trigger] ids_of(rows).contains(id) implies identity_fits(id) by {
        let i = choose|i: int| 0 <= i < rows.len() && (#[trigger] rows[i]).id() == id;
        assert(identity_fits(rows[i].id()));
    }
}

/// A compaction of a table is answered as one of the rows that it holds.
pub proof fn compactions_are_answered_alike<D: Fn(&Vec<u8>) -> Result<CultCacheEnvelope, String>>(
    held: Map<Seq<u8>, Seq<u8>>,
    decode: D,
    rows: Seq<EnvelopeView>,
    expected: Seq<EnvelopeView>,
    replacements: Seq<EnvelopeView>,
    deletions: Seq<EnvelopeView>,
    after: Map<Seq<u8>, Seq<u8>>,
    done: Result<bool, CultCacheError>,
    rows_after: Seq<EnvelopeView>,
    rows_done: Result<bool, FailureView>,
)
    requires
        mirrors(held, decode, rows),
        ids_fit(deletions),
        all_fit(replacements),
        table_compacts(held, decode, expected, replacements, deletions, after, done),
        compacts(rows, expected, replacements, deletions, rows_after, rows_done),
    ensures
        answered_alike(
            held,
            decode,
            after,
            done,
            ids_of(deletions).union(ids_of(replacements)),
            replacements,
            rows_after,
            rows_done,
        ),
{
    lemma_fitting_ids(replacements);
    snapshots_are_decided_alike(held, decode, rows, expected);
    collisions_are_decided_alike(held, decode, rows, ids_of(expected), replacements);
    if same_rows(rows, expected) {
        assert forall|i: int|
            0 <= i < replacements.len() && has_id(
                rows,
                (#[trigger] replacements[i]).id(),
            ) implies ids_of(expected).contains(replacements[i].id()) by {
            let id = replacements[i].id();
            assert(rows_of(rows, id) == rows_of(expected, id));
            lemma_rows_of_member(rows, id);
            lemma_rows_of_member(expected, id);
        }
    }
    if done == Ok::<bool, CultCacheError>(true) {
        let gone = ids_of(deletions);
        let put = ids_of(replacements);
        lemma_ids_of_fitting(deletions);
        stores_delete_alike(held, decode, rows, gone);
        lemma_rows_outside_twice(rows, gone, put);
        stores_change_alike(
            without_ids(held, gone),
            decode,
            rows_outside(rows, gone),
            replacements,
            rows_after,
        );
    }
}

/// A batch of replacements is answered by a table as by the rows that it holds.
pub proof fn swap_batches_are_answered_alike<D: Fn(&Vec<u8>) -> Result<CultCacheEnvelope, String>>(
    held: Map<Seq<u8>, Seq<u8>>,
    decode: D,
    rows: Seq<EnvelopeView>,
    expected: Seq<EnvelopeView>,
    replacements: Seq<EnvelopeView>,
    after: Map<Seq<u8>, Seq<u8>>,
    done: Result<bool, CultCacheError>,
    rows_after: Seq<EnvelopeView>,
    rows_done: Result<bool, FailureView>,
)
    requires
        mirrors(held, decode, rows),
        ids_fit(expected),
        all_fit(replacements),
        table_swaps_batch(held, decode, expected, replacements, after, done),
        swaps_batch(rows, expected, replacements, rows_after, rows_done),
    ensures
        answered_alike(
            held,
            decode,
            after,
            done,
            ids_of(replacements),
            replacements,
            rows_after,
            rows_done,
        ),
{
    lemma_fitting_ids(replacements);
    expected_rows_are_decided_alike(held, decode, rows, expected);
    collisions_are_decided_alike(held, decode, rows, ids_of(expected), replacements);
    if done == Ok::<bool, CultCacheError>(true) {
        let known = ids_of(expected);
        let put = ids_of(replacements);
        let left = rows_outside(rows, known);
        assert(ids_of(left).disjoint(put)) by {
            assert forall|id: Identity| !(ids_of(left).contains(id) && put.contains(id)) by {
                if ids_of(left).contains(id) && put.contains(id) {
                    lemma_rows_of_member(left, id);
                    lemma_rows_of_outside(rows, known, id);
                    lemma_rows_of_member(rows, id);
                    let i = choose|i: int|
                        0 <= i < replacements.len() && (#[trigger] replacements[i]).id() == id;
                    assert(!known.contains(replacements[i].id()) && has_id(
                        rows,
                        replacements[i].id(),
                    ));
                }
            }
        }
        lemma_none_outside(left, put);
        lemma_rows_outside_twice(rows, known, put);
        assert(known.union(put) =~= put);
        assert(rows_outside(rows, put) == left);
        stores_change_alike(held, decode, rows, replacements, rows_after);
    }
}

/// An append is answered by a table as by the rows that it holds.
pub proof fn appends_are_answered_alike<D: Fn(&Vec<u8>) -> Result<CultCacheEnvelope, String>>(
    held: Map<Seq<u8>, Seq<u8>>,
    decode: D,
    rows: Seq<EnvelopeView>,
    expected: Seq<EnvelopeView>,
    additions: Seq<EnvelopeView>,
    after: Map<Seq<u8>, Seq<u8>>,
    done: Result<bool, CultCacheError>,
    rows_after: Seq<EnvelopeView>,
    rows_done: Result<bool, FailureView>,
)
    requires
        mirrors(held, decode, rows),
        all_fit(additions),
        table_appends(held, decode, expected, additions, after, done),
        appends(rows, expected, additions, rows_after, rows_done),
    ensures
        answered_alike(
            held,
            decode,
            after,
            done,
            ids_of(additions),
            additions,
            rows_after,
            rows_done,
        ),
{
    appends_are_decided_alike(held, decode, rows, expected, additions);
    if done == Ok::<bool, CultCacheError>(true) {
        lemma_none_outside(rows, ids_of(additions));
        stores_change_alike(held, decode, rows, additions, rows_after);
    }
}

/// The deletion of exact rows is answered by a table as by the rows that it holds.
pub proof fn deletes_are_answered_alike<D: Fn(&Vec<u8>) -> Result<CultCacheEnvelope, String>>(
    held: Map<Seq<u8>, Seq<u8>>,
    decode: D,
    rows: Seq<EnvelopeView>,
    expected: Seq<EnvelopeView>,
    after: Map<Seq<u8>, Seq<u8>>,
    done: Result<bool, CultCacheError>,
    rows_after: Seq<EnvelopeView>,
    rows_done: Result<bool, FailureView>,
)
    requires
        mirrors(held, decode, rows),
        ids_fit(expected),
        table_deletes_batch(held, decode, expected, after, done),
        deletes_batch(rows, expected, rows_after, rows_done),
    ensures
        answered_alike(
            held,
            decode,
            after,
            done,
            ids_of(expected),
            Seq::empty(),
            rows_after,
            rows_done,
        ),
{
    expected_rows_are_decided_alike(held, decode, rows, expected);
    if done == Ok::<bool, CultCacheError>(true) {
        lemma_ids_of_fitting(expected);
        stores_delete_alike(held, decode, rows, ids_of(expected));
    }
}

/// A replacement within a snapshot is answered by a table as by the rows that it holds.
pub proof fn replacements_are_answered_alike<D: Fn(&Vec<u8>) -> Result<CultCacheEnvelope, String>>(
    held: Map<Seq<u8>, Seq<u8>>,
    decode: D,
    rows: Seq<EnvelopeView>,
    expected: Seq<EnvelopeView>,
    replacements: Seq<EnvelopeView>,
    after: Map<Seq<u8>, Seq<u8>>,
    done: Result<bool, CultCacheError>,
    rows_after: Seq<EnvelopeView>,
    rows_done: Result<bool, FailureView>,
)
    requires
        mirrors(held, decode, rows),
        all_fit(replacements),
        table_replaces(held, decode, expected, replacements, after, done),
        replaces(rows, expected, replacements, rows_after, rows_done),
    ensures
        answered_alike(
            held,
            decode,
            after,
            done,
            ids_of(replacements),
            replacements,
            rows_after,
            rows_done,
        ),
{
    snapshots_are_decided_alike(held, decode, rows, expected);
    if done == Ok::<bool, CultCacheError>(true) {
        stores_change_alike(held, decode, rows, replacements, rows_after);
    }
}

/// The replacement of one row by another of its identity is answered by a table as by the rows that
/// it holds; by one of another identity it is refused.
pub proof fn swaps_are_answered_alike<D: Fn(&Vec<u8>) -> Result<CultCacheEnvelope, String>>(
    held: Map<Seq<u8>, Seq<u8>>,
    decode: D,
    rows: Seq<EnvelopeView>,
    expected: EnvelopeView,
    replacement: EnvelopeView,
    after: Map<Seq<u8>, Seq<u8>>,
    done: Result<bool, CultCacheError>,
    rows_after: Seq<EnvelopeView>,
    swapped: bool,
)
    requires
        mirrors(held, decode, rows),
        identity_fits(expected.id()),
        row_fits(replacement),
        table_swaps_entry(held, decode, expected, replacement, after, done),
        swaps_entry(rows, expected, replacement, rows_after, swapped),
    ensures
        expected.id() == replacement.id() ==> answered_alike(
            held,
            decode,
            after,
            done,
            set![expected.id()],
            seq![replacement],
            rows_after,
            Ok(swapped),
        ),
        expected.id() != replacement.id() ==> done is Err && done->Err_0@
            == FailureView::IdentityChanged && after == held,
{
    let id = expected.id();
    if expected.id() == replacement.id() {
        expected_rows_are_decided_alike(held, decode, rows, seq![expected]);
        assert(all_current(rows, seq![expected]) == holds_row(rows, expected)) by {
            assert(seq![expected][0] == expected);
        }
        if done == Ok::<bool, CultCacheError>(true) {
            let one = seq![replacement];
            let i = choose|i: int| #[trigger]
                first_at(rows, id, i) && sorts_to(rows.update(i, replacement), rows_after);
            let changed = rows.update(i, replacement);
            assert(unique_ids(changed)) by {
                assert forall|a: int, b: int| 0 <= a < b < changed.len() implies (
                #[trigger] changed[a]).id() != (#[trigger] changed[b]).id() by {
                    assert(rows[a].id() != rows[b].id());
                }
            }
            assert(ids_of(one) =~= set![id]) by {
                assert(one[0].id() == id);
            }
            assert forall|other: Identity| #[trigger] rows_of(rows_after, other) == rows_of(
                rows_outside(rows, ids_of(one)) + one,
                other,
            ) by {
                assert(rows_of(rows_after, other) == rows_of(changed, other));
                lemma_rows_of_add(rows_outside(rows, ids_of(one)), one, other);
                lemma_rows_of_outside(rows, ids_of(one), other);
                if other == id {
                    assert(changed[i] == replacement);
                    lemma_only_row(changed, i);
                    assert(one[0] == replacement);
                    lemma_only_row(one, 0);
                } else {
                    assert(!has_id(one, other)) by {
                        assert(one[0].id() == id);
                    }
                    lemma_rows_of_none(one, other);
                    if has_id(rows, other) {
                        let k = choose|k: int|
                            0 <= k < rows.len() && (#[trigger] rows[k]).id() == other;
                        assert(changed[k] == rows[k]);
                        lemma_only_row(rows, k);
                        lemma_only_row(changed, k);
                    } else {
                        assert(!has_id(changed, other)) by {
                            if has_id(changed, other) {
                                let k = choose|k: int|
                                    0 <= k < changed.len() && (#[trigger] changed[k]).id() == other;
                                assert(rows[k].id() == other);
                            }
                        }
                        lemma_rows_of_none(rows, other);
                        lemma_rows_of_none(changed, other);
                    }
                }
            }
            stores_change_alike(held, decode, rows, one, rows_after);
        }
    }
}

/// Inserting an absent row is answered by a table as by the rows that it holds.
pub proof fn inserts_are_answered_alike<D: Fn(&Vec<u8>) -> Result<CultCacheEnvelope, String>>(
    held: Map<Seq<u8>, Seq<u8>>,
    decode: D,
    rows: Seq<EnvelopeView>,
    entry: EnvelopeView,
    after: Map<Seq<u8>, Seq<u8>>,
    done: Result<bool, CultCacheError>,
    rows_after: Seq<EnvelopeView>,
    inserted: bool,
)
    requires
        mirrors(held, decode, rows),
        row_fits(entry),
        table_inserts_absent(held, entry, after, done),
        inserts_absent(rows, entry, rows_after, inserted),
    ensures
        answered_alike(
            held,
            decode,
            after,
            done,
            set![entry.id()],
            seq![entry],
            rows_after,
            Ok(inserted),
        ),
{
    let id = entry.id();
    let one = seq![entry];
    lemma_stored(held, decode, rows, id);
    assert(held.contains_key(packed_identity(id)) == (stored(held, decode, id) is Some));
    if done == Ok::<bool, CultCacheError>(true) {
        assert(ids_of(one) =~= set![id]) by {
            assert(one[0].id() == id);
        }
        assert(ids_of(rows).disjoint(ids_of(one)));
        lemma_none_outside(rows, ids_of(one));
        assert(rows + one =~= rows.push(entry));
        stores_change_alike(held, decode, rows, one, rows_after);
    }
}

/// A row that was pushed into a table stands alone under its identity among the rows that the table
/// holds, and every other row stays; pushing fails only where the machine does.
pub proof fn pushes_are_answered_alike<D: Fn(&Vec<u8>) -> Result<CultCacheEnvelope, String>>(
    held: Map<Seq<u8>, Seq<u8>>,
    decode: D,
    rows: Seq<EnvelopeView>,
    entry: EnvelopeView,
    after: Map<Seq<u8>, Seq<u8>>,
    done: Result<(), FailureView>,
    rows_after: Seq<EnvelopeView>,
)
    requires
        mirrors(held, decode, rows),
        row_fits(entry),
        table_pushes(held, entry, after, done),
        sorts_to(rows_outside(rows, set![entry.id()]).push(entry), rows_after),
    ensures
        done is Ok ==> mirrors(after, decode, rows_after),
        done matches Err(e) ==> machine_failure(e, set![entry.id()], seq![entry]),
{
    if done is Ok {
        let one = seq![entry];
        assert(ids_of(one) =~= set![entry.id()]) by {
            assert(one[0].id() == entry.id());
        }
        let left = rows_outside(rows, set![entry.id()]);
        assert(left + one =~= left.push(entry));
        assert(one.drop_last() =~= Seq::<EnvelopeView>::empty());
        reveal_with_fuel(with_rows, 2);
        stores_change_alike(held, decode, rows, one, rows_after);
    }
}

/// A row that was deleted from a table is gone from the rows that the table holds, and every other
/// row stays; deleting fails only where the machine does.
pub proof fn row_deletes_are_answered_alike<D: Fn(&Vec<u8>) -> Result<CultCacheEnvelope, String>>(
    held: Map<Seq<u8>, Seq<u8>>,
    decode: D,
    rows: Seq<EnvelopeView>,
    entry: EnvelopeView,
    after: Map<Seq<u8>, Seq<u8>>,
    done: Result<(), FailureView>,
)
    requires
        mirrors(held, decode, rows),
        identity_fits(entry.id()),
        table_deletes(held, entry, after, done),
    ensures
        done is Ok ==> mirrors(after, decode, rows_outside(rows, set![entry.id()])),
        done matches Err(e) ==> machine_failure(e, set![entry.id()], Seq::empty()),
{
    if done is Ok {
        let id = entry.id();
        stores_delete_alike(held, decode, rows, set![id]);
        assert(keys_of(set![id]) =~= set![packed_identity(id)]) by {
            assert(set![id].contains(id));
        }
        assert(without_ids(held, set![id]) =~= held.remove(packed_identity(id)));
    }
}

/// Replacing all rows of a table leaves exactly the new ones, whatever was there; it is refused
/// exactly where they repeat an identity, and fails otherwise only where the machine does.
pub proof fn replacing_all_is_answered_alike<D: Fn(&Vec<u8>) -> Result<CultCacheEnvelope, String>>(
    held: Map<Seq<u8>, Seq<u8>>,
    decode: D,
    entries: Seq<EnvelopeView>,
    after: Map<Seq<u8>, Seq<u8>>,
    done: Result<(), FailureView>,
    rows_after: Seq<EnvelopeView>,
)
    requires
        all_fit(entries),
        table_replaces_all(held, entries, after, done),
        sorts_to(entries, rows_after),
    ensures
        done is Ok ==> unique_ids(entries) && mirrors(after, decode, rows_after),
        !unique_ids(entries) ==> after == held && done == Err::<(), FailureView>(
            FailureView::DuplicateIdentities { rows: BatchRows::PushAll },
        ),
        unique_ids(entries) ==> (done matches Err(e) ==> machine_failure(
            e,
            ids_of(entries),
            entries,
        )),
{
    if done is Ok {
        let none = Seq::<EnvelopeView>::empty();
        empty_table_holds_nothing(decode);
        assert(ids_of(none).disjoint(ids_of(entries)));
        lemma_none_outside(none, ids_of(entries));
        assert(none + entries =~= entries);
        stores_change_alike(Map::empty(), decode, none, entries, rows_after);
    }
}

/// Every pair is decoded, or the first that cannot be is why none is read.
proof fn lemma_every_pair_is_decoded<D: Fn(&Vec<u8>) -> Result<CultCacheEnvelope, String>>(
    listing: Seq<(Seq<u8>, Seq<u8>)>,
    decode: D,
)
    ensures
        match rows_listed(listing, decode) {
            Ok(rows) => rows.len() == listing.len() && forall|i: int|
                0 <= i < listing.len() ==> decoded(decode, (#[trigger] listing[i]).1) == Ok::<
                    EnvelopeView,
                    Seq<char>,
                >(rows[i]),
            Err(e) => exists|i: int|
                {
                    &&& 0 <= i < listing.len()
                    &&& decoded(decode, (#[trigger] listing[i]).1) is Err
                    &&& e == (FailureView::RowUndecodable {
                        cause: decoded(decode, listing[i].1)->Err_0,
                    })
                    &&& forall|m: int|
                        0 <= m < i ==> decoded(decode, (#[trigger] listing[m]).1) is Ok
                },
        },
    decreases listing.len(),
{
    if listing.len() > 0 {
        let n = listing.len() - 1;
        let rest = listing.drop_last();
        lemma_every_pair_is_decoded(rest, decode);
        assert forall|i: int| 0 <= i < n implies rest[i] == #[trigger] listing[i] by {}
        match rows_listed(rest, decode) {
            Ok(rows) => {
                assert(listing[n] == listing.last());
                assert forall|m: int| 0 <= m < n implies decoded(
                    decode,
                    (#[trigger] listing[m]).1,
                ) is Ok by {
                    assert(decoded(decode, rest[m].1) is Ok);
                }
            },
            Err(e) => {
                let i = choose|i: int|
                    {
                        &&& 0 <= i < rest.len()
                        &&& decoded(decode, (#[trigger] rest[i]).1) is Err
                        &&& e == (FailureView::RowUndecodable {
                            cause: decoded(decode, rest[i].1)->Err_0,
                        })
                        &&& forall|m: int|
                            0 <= m < i ==> decoded(decode, (#[trigger] rest[m]).1) is Ok
                    };
                assert(decoded(decode, listing[i].1) is Err);
                assert forall|m: int| 0 <= m < i implies decoded(
                    decode,
                    (#[trigger] listing[m]).1,
                ) is Ok by {
                    assert(decoded(decode, rest[m].1) is Ok);
                }
            },
        }
    }
}

/// Reading the pairs of a table leaves no row out: it goes through exactly where every value
/// decodes, and gives the row of every pair, as many as there are pairs, in the order of their
/// types and keys. Otherwise it fails with why the first value that does not decode does not.
pub proof fn every_row_of_a_table_is_read<D: Fn(&Vec<u8>) -> Result<CultCacheEnvelope, String>>(
    listing: Seq<(Seq<u8>, Seq<u8>)>,
    decode: D,
    pulled: Result<Seq<EnvelopeView>, FailureView>,
)
    requires
        reads_listing(listing, decode, pulled),
    ensures
        pulled is Ok <==> forall|i: int|
            0 <= i < listing.len() ==> decoded(decode, (#[trigger] listing[i]).1) is Ok,
        pulled matches Ok(rows) ==> rows.len() == listing.len() && in_order(rows) && forall|
            row: EnvelopeView,
        | #[trigger]
            rows.contains(row) <==> exists|i: int|
                0 <= i < listing.len() && decoded(decode, (#[trigger] listing[i]).1) == Ok::<
                    EnvelopeView,
                    Seq<char>,
                >(row),
        pulled matches Err(e) ==> exists|i: int|
            {
                &&& 0 <= i < listing.len()
                &&& decoded(decode, (#[trigger] listing[i]).1) is Err
                &&& e == (FailureView::RowUndecodable {
                    cause: decoded(decode, listing[i].1)->Err_0,
                })
                &&& forall|m: int| 0 <= m < i ==> decoded(decode, (#[trigger] listing[m]).1) is Ok
            },
{
    lemma_every_pair_is_decoded(listing, decode);
    if let Ok(rows) = pulled {
        let listed = rows_listed(listing, decode)->Ok_0;
        lemma_same_members(rows, listed);
        assert forall|row: EnvelopeView| #[trigger] rows.contains(row) <==> exists|i: int|
            0 <= i < listing.len() && decoded(decode, (#[trigger] listing[i]).1) == Ok::<
                EnvelopeView,
                Seq<char>,
            >(row) by {
            sorted_rows_are_the_same_rows(listed, rows, row);
            if listed.contains(row) {
                let i = choose|i: int| 0 <= i < listed.len() && listed[i] == row;
                assert(decoded(decode, listing[i].1) == Ok::<EnvelopeView, Seq<char>>(row));
            }
            if exists|i: int|
                0 <= i < listing.len() && decoded(decode, (#[trigger] listing[i]).1) == Ok::<
                    EnvelopeView,
                    Seq<char>,
                >(row) {
                let i = choose|i: int|
                    0 <= i < listing.len() && decoded(decode, (#[trigger] listing[i]).1) == Ok::<
                        EnvelopeView,
                        Seq<char>,
                    >(row);
                assert(listed[i] == row);
            }
        }
        if rows.len() > 0 {
            sorted_rows_are_the_same_rows(listed, rows, rows[0]);
        }
    }
}

/// The row under an identity is exactly `row`.
pub open spec fn has_stored<D: Fn(&Vec<u8>) -> Result<CultCacheEnvelope, String>>(
    held: Map<Seq<u8>, Seq<u8>>,
    decode: D,
    row: EnvelopeView,
) -> bool {
    held.contains_key(packed_identity((row.entry_type, row.key))) && decoded(
        decode,
        held[packed_identity((row.entry_type, row.key))],
    ) == Ok::<EnvelopeView, Seq<char>>(row)
}

/// Whether a table holds expected rows is decided row by row: it does exactly where every one is
/// stored under its identity as it is expected. It is not decided only where a value that stands in
/// the way does not decode.
pub proof fn expected_rows_are_looked_up<D: Fn(&Vec<u8>) -> Result<CultCacheEnvelope, String>>(
    held: Map<Seq<u8>, Seq<u8>>,
    decode: D,
    expected: Seq<EnvelopeView>,
)
    ensures
        expected_verdict(held, decode, expected) == Ok::<bool, FailureView>(true) <==> forall|
            i: int,
        |
            0 <= i < expected.len() ==> has_stored(held, decode, #[trigger] expected[i]),
        expected_verdict(held, decode, expected) matches Err(e) ==> exists|i: int|
            0 <= i < expected.len() && e is RowUndecodable && stored(
                held,
                decode,
                (#[trigger] expected[i]).id(),
            ) == Some(Err::<EnvelopeView, Seq<char>>(e->RowUndecodable_cause)),
    decreases expected.len(),
{
    if expected.len() > 0 {
        let n = expected.len() - 1;
        let rest = expected.drop_last();
        let last = expected[n];
        expected_rows_are_looked_up(held, decode, rest);
        assert forall|i: int| 0 <= i < n implies rest[i] == #[trigger] expected[i] by {}
        assert(has_stored(held, decode, last) <==> stored(held, decode, last.id()) == Some(
            Ok::<EnvelopeView, Seq<char>>(last),
        ));
        if expected_verdict(held, decode, rest) == Ok::<bool, FailureView>(true) {
            assert forall|i: int| 0 <= i < n implies has_stored(
                held,
                decode,
                #[trigger] expected[i],
            ) by {
                assert(has_stored(held, decode, rest[i]));
            }
            if let Err(e) = expected_verdict(held, decode, expected) {
                assert(stored(held, decode, expected[n].id()) == Some(
                    Err::<EnvelopeView, Seq<char>>(e->RowUndecodable_cause),
                ));
            }
        } else {
            let i = choose|i: int|
                0 <= i < rest.len() && !has_stored(held, decode, #[trigger] rest[i]);
            assert(!has_stored(held, decode, expected[i]));
            if let Err(e) = expected_verdict(held, decode, rest) {
                let k = choose|k: int|
                    0 <= k < rest.len() && e is RowUndecodable && stored(
                        held,
                        decode,
                        (#[trigger] rest[k]).id(),
                    ) == Some(Err::<EnvelopeView, Seq<char>>(e->RowUndecodable_cause));
                assert(stored(held, decode, expected[k].id()) == Some(
                    Err::<EnvelopeView, Seq<char>>(e->RowUndecodable_cause),
                ));
            }
        }
    }
}

/// Whether added rows collide is decided row by row: none does exactly where every one is of a
/// known identity or finds nothing stored under its own. It is not decided only where a value that
/// stands in the way does not decode.
pub proof fn added_rows_are_looked_up<D: Fn(&Vec<u8>) -> Result<CultCacheEnvelope, String>>(
    held: Map<Seq<u8>, Seq<u8>>,
    decode: D,
    known: Set<Identity>,
    added: Seq<EnvelopeView>,
)
    ensures
        absent_verdict(held, decode, known, added) == Ok::<bool, FailureView>(true) <==> forall|
            i: int,
        |
            0 <= i < added.len() ==> known.contains((#[trigger] added[i]).id())
                || !held.contains_key(packed_identity((added[i].entry_type, added[i].key))),
        absent_verdict(held, decode, known, added) matches Err(e) ==> exists|i: int|
            0 <= i < added.len() && e is RowUndecodable && stored(
                held,
                decode,
                (#[trigger] added[i]).id(),
            ) == Some(Err::<EnvelopeView, Seq<char>>(e->RowUndecodable_cause)),
    decreases added.len(),
{
    if added.len() > 0 {
        let n = added.len() - 1;
        let rest = added.drop_last();
        let last = added[n];
        added_rows_are_looked_up(held, decode, known, rest);
        assert forall|i: int| 0 <= i < n implies rest[i] == #[trigger] added[i] by {}
        if absent_verdict(held, decode, known, rest) == Ok::<bool, FailureView>(true) {
            assert forall|i: int| 0 <= i < n implies known.contains((#[trigger] added[i]).id())
                || !held.contains_key(packed_identity((added[i].entry_type, added[i].key))) by {
                assert(known.contains(rest[i].id()) || !held.contains_key(
                    packed_identity((rest[i].entry_type, rest[i].key)),
                ));
            }
            if let Err(e) = absent_verdict(held, decode, known, added) {
                assert(stored(held, decode, added[n].id()) == Some(
                    Err::<EnvelopeView, Seq<char>>(e->RowUndecodable_cause),
                ));
            }
        } else {
            let i = choose|i: int|
                0 <= i < rest.len() && !(known.contains((#[trigger] rest[i]).id())
                    || !held.contains_key(packed_identity((rest[i].entry_type, rest[i].key))));
            assert(!known.contains(added[i].id()));
            if let Err(e) = absent_verdict(held, decode, known, rest) {
                let k = choose|k: int|
                    0 <= k < rest.len() && e is RowUndecodable && stored(
                        held,
                        decode,
                        (#[trigger] rest[k]).id(),
                    ) == Some(Err::<EnvelopeView, Seq<char>>(e->RowUndecodable_cause));
                assert(stored(held, decode, added[k].id()) == Some(
                    Err::<EnvelopeView, Seq<char>>(e->RowUndecodable_cause),
                ));
            }
        }
    }
}

/// What a table holds is compared with a snapshot as a whole: the comparison is made exactly where
/// every value decodes, and then tells whether the rows are those of the snapshot.
pub proof fn tables_are_compared_as_a_whole<D: Fn(&Vec<u8>) -> Result<CultCacheEnvelope, String>>(
    held: Map<Seq<u8>, Seq<u8>>,
    decode: D,
    listing: Seq<(Seq<u8>, Seq<u8>)>,
    pulled: Result<Seq<EnvelopeView>, FailureView>,
    expected: Seq<EnvelopeView>,
    added: Seq<EnvelopeView>,
)
    requires
        lists(held, listing),
        reads_listing(listing, decode, pulled),
    ensures
        snapshot_verdict(held, decode, expected) == match pulled {
            Ok(rows) => Ok::<bool, FailureView>(same_rows(rows, expected)),
            Err(e) => Err(e),
        },
        append_verdict(held, decode, expected, added) == match pulled {
            Ok(rows) => Ok::<bool, FailureView>(
                same_rows(rows, expected) && none_named(added, rows),
            ),
            Err(e) => Err(e),
        },
{
    assert(lists(held, listing_of(held)));
    listing_is_unique(held, listing, listing_of(held));
    if let Ok(rows) = pulled {
        let listed = rows_listed(listing, decode)->Ok_0;
        if same_rows(rows, expected) {
            assert forall|id: Identity| #[trigger] rows_of(listed, id) == rows_of(expected, id) by {
                assert(rows_of(rows, id) == rows_of(listed, id));
                assert(rows_of(rows, id) == rows_of(expected, id));
            }
        }
        if same_rows(listed, expected) {
            assert forall|id: Identity| #[trigger] rows_of(rows, id) == rows_of(expected, id) by {
                assert(rows_of(rows, id) == rows_of(listed, id));
                assert(rows_of(listed, id) == rows_of(expected, id));
            }
        }
        assert(ids_of(listed) =~= ids_of(rows)) by {
            assert forall|id: Identity| ids_of(listed).contains(id) == ids_of(rows).contains(
                id,
            ) by {
                assert(rows_of(rows, id) == rows_of(listed, id));
                lemma_rows_of_member(rows, id);
                lemma_rows_of_member(listed, id);
            }
        }
        lemma_all_named(added, rows);
    }
}

/// Bytes that are no array of a row's fields are what the decoder makes of them.
pub proof fn other_bytes_are_left_to_the_decoder<
    D: Fn(&Vec<u8>) -> Result<CultCacheEnvelope, String>,
>(decode: D, bytes: Seq<u8>, row: Result<EnvelopeView, Seq<char>>)
    requires
        decodes_rows(decode),
        decodes(decode, bytes, row),
        unpacked_schema_row(bytes) is None,
        unpacked_plain_row(bytes) is None,
    ensures
        decoded(decode, bytes) == row,
{
    let chosen = choose|row: Result<EnvelopeView, Seq<char>>| decodes(decode, bytes, row);
    assert(decodes(decode, bytes, chosen) && decodes(decode, bytes, row));
}

/// A request on a table that is refused fails with that reason and changes nothing. Another is
/// answered by its verdict, unless the machine failed in working on one of its keys or packing one
/// of its rows: a positive one leads to the target, and every other leaves the table as it was.
pub proof fn requests_follow_their_verdict(
    refusal: Option<FailureView>,
    verdict: Result<bool, FailureView>,
    before: Map<Seq<u8>, Seq<u8>>,
    target: Map<Seq<u8>, Seq<u8>>,
    after: Map<Seq<u8>, Seq<u8>>,
    ids: Set<Identity>,
    put: Seq<EnvelopeView>,
    done: Result<bool, CultCacheError>,
)
    requires
        carries_out(refusal, verdict, before, target, after, ids, put, done),
    ensures
        refusal matches Some(e) ==> outcome(done) == Err::<bool, FailureView>(e) && after == before,
        refusal is None && (forall|e: FailureView| !#[trigger] machine_failure(e, ids, put))
            ==> outcome(done) == verdict,
        refusal is None && done is Ok ==> outcome(done) == verdict,
        done == Ok::<bool, CultCacheError>(true) ==> after == target,
        done == Ok::<bool, CultCacheError>(false) ==> after == before,
        done matches Err(e) ==> !machine_failure(e@, ids, put) ==> after == before,
{
}

/// The row at `k` is the last of those that are put under its key.
pub open spec fn last_put(rows: Seq<EnvelopeView>, k: int) -> bool {
    &&& 0 <= k < rows.len()
    &&& forall|m: int|
        k < m < rows.len() ==> packed_identity((#[trigger] rows[m]).id()) != packed_identity(
            rows[k].id(),
        )
}

/// Putting rows in a table leaves each under its key, the last where several have one key, and
/// every other pair as it was.
pub proof fn rows_are_put_under_their_keys(
    held: Map<Seq<u8>, Seq<u8>>,
    rows: Seq<EnvelopeView>,
    key: Seq<u8>,
)
    ensures
        forall|k: int| #[trigger]
            last_put(rows, k) && packed_identity(rows[k].id()) == key ==> with_rows(
                held,
                rows,
            ).contains_key(key) && with_rows(held, rows)[key] == packed_row(rows[k]),
        (forall|k: int| 0 <= k < rows.len() ==> packed_identity((#[trigger] rows[k]).id()) != key)
            ==> with_rows(held, rows).contains_key(key) == held.contains_key(key) && with_rows(
            held,
            rows,
        )[key] == held[key],
    decreases rows.len(),
{
    if rows.len() > 0 {
        let n = rows.len() - 1;
        let rest = rows.drop_last();
        rows_are_put_under_their_keys(held, rest, key);
        assert forall|k: int| #[trigger]
            last_put(rows, k) && packed_identity(rows[k].id()) == key implies with_rows(
            held,
            rows,
        ).contains_key(key) && with_rows(held, rows)[key] == packed_row(rows[k]) by {
            if k < n {
                assert(packed_identity(rows[n].id()) != key);
                assert forall|m: int| k < m < rest.len() implies packed_identity(
                    (#[trigger] rest[m]).id(),
                ) != packed_identity(rest[k].id()) by {
                    assert(rest[m] == rows[m]);
                }
                assert(last_put(rest, k));
                assert(rest[k] == rows[k]);
            }
        }
        if forall|k: int| 0 <= k < rows.len() ==> packed_identity((#[trigger] rows[k]).id())
            != key {
            assert(packed_identity(rows[n].id()) != key);
            assert forall|k: int| 0 <= k < rest.len() implies packed_identity(
                (#[trigger] rest[k]).id(),
            ) != key by {
                assert(rest[k] == rows[k]);
            }
        }
    }
}

/// Taking identities out of a table leaves exactly the pairs whose key is none of theirs.
pub proof fn identities_are_taken_out_by_their_keys(
    held: Map<Seq<u8>, Seq<u8>>,
    ids: Set<Identity>,
    key: Seq<u8>,
)
    ensures
        without_ids(held, ids).contains_key(key) <==> held.contains_key(key) && forall|
            id: Identity,
        | #[trigger] ids.contains(id) ==> packed_identity(id) != key,
        without_ids(held, ids).contains_key(key) ==> without_ids(held, ids)[key] == held[key],
{
    if exists|id: Identity| #[trigger] ids.contains(id) && packed_identity(id) == key {
        let id = choose|id: Identity| #[trigger] ids.contains(id) && packed_identity(id) == key;
        assert(keys_of(ids).contains(key)) by {
            assert(packed_identity(id) == key);
        }
    }
    if keys_of(ids).contains(key) {
        let id = choose|id: Identity| ids.contains(id) && #[trigger] packed_identity(id) == key;
        assert(ids.contains(id));
    }
}

} // verus!

//! The stores of this library keep what they accept.
//!
//! The rules here put the operations of a store together: what it holds is what is read, and what
//! it holds after a change is what is read of what was written.

use crate::cache_laws::{faithful, replaces_whole};
use crate::envelope::{views, CultCacheEnvelope, EnvelopeView, Identity};
use crate::error::FailureView;
use crate::keyed_laws::{
    all_fit, empty_table_holds_nothing, held_rows_are_pulled, mirrors, stores_change_alike,
    stores_delete_alike,
};
use crate::messagepack::{
    countable, packed_identity, record_fits, schema_fits, snapshot_fits, text_fits, SnapshotView,
};
use crate::order::{lemma_text_irreflexive, text_before};
use crate::row_laws::{lemma_only_row, lemma_rows_of_outside};
use crate::rows::{
    has_id, ids_of, lemma_rows_of_member, lemma_rows_of_none, lemma_rows_of_push,
    lemma_rows_outside_push, rows_of, rows_outside, same_rows, sorts_to, unique_ids,
};
use crate::snapshot::{
    catalog_entry, named_rows_are_read_back_unchanged, reads, record_of, rows_fit, rows_packed,
    snapshots, uses_schema, writes, STORE_FORMAT,
};
use crate::store::{
    replaces_row_by_row, replaces_stepwise, replacing_step, steps_done, PushAllOptions, StoreRules,
    StoreState,
};
use crate::table::{
    keys_of, lists, packed_row, packs_whole, reads_listing, row_fits, with_rows, without_ids,
};
use vstd::prelude::*;

verus! {

/// What a plain run of envelopes is read as depends on the bytes alone.
pub open spec fn reads_alike<L: Fn(&Vec<u8>) -> Result<Vec<CultCacheEnvelope>, String>>(
    legacy: L,
) -> bool {
    forall|
        bytes: &Vec<u8>,
        x: Result<Vec<CultCacheEnvelope>, String>,
        y: Result<Vec<CultCacheEnvelope>, String>,
    | #[trigger]
        call_ensures(legacy, (bytes,), x) && #[trigger] call_ensures(legacy, (bytes,), y)
            ==> match (x, y) {
            (Ok(a), Ok(b)) => views(a@) == views(b@),
            (Err(a), Err(b)) => a@ == b@,
            _ => false,
        }
}

/// A file is written with `rows` and then read as `after`.
pub open spec fn file_becomes<L: Fn(&Vec<u8>) -> Result<Vec<CultCacheEnvelope>, String>>(
    legacy: L,
    rows: Seq<EnvelopeView>,
    after: StoreState,
) -> bool {
    exists|bytes: &Vec<u8>| #[trigger]
        writes(rows, bytes@) && reads(
            Some(bytes),
            legacy,
            Ok::<Seq<EnvelopeView>, FailureView>(after),
        )
}

/// How a single-file store answers. It holds what its file is read as; a change that fails leaves
/// the file as it was.
pub open spec fn single_file_rules<L: Fn(&Vec<u8>) -> Result<Vec<CultCacheEnvelope>, String>>(
    legacy: L,
) -> StoreRules {
    StoreRules {
        pulls: |held: StoreState, rows: Result<Seq<EnvelopeView>, FailureView>|
            exists|contents: Option<&Vec<u8>>| #[trigger]
                reads(contents, legacy, Ok::<Seq<EnvelopeView>, FailureView>(held)) && reads(
                    contents,
                    legacy,
                    rows,
                ),
        pushes: |
            held: StoreState,
            entry: EnvelopeView,
            answer: Result<(), FailureView>,
            after: StoreState,
        |
            match answer {
                Ok(_) => exists|rows: Seq<EnvelopeView>| #[trigger]
                    sorts_to(rows_outside(held, set![entry.id()]).push(entry), rows)
                        && file_becomes(legacy, rows, after),
                Err(_) => after == held,
            },
        deletes: |
            held: StoreState,
            entry: EnvelopeView,
            answer: Result<(), FailureView>,
            after: StoreState,
        |
            match answer {
                Ok(_) => file_becomes(legacy, rows_outside(held, set![entry.id()]), after),
                Err(_) => after == held,
            },
        replaces: |
            held: StoreState,
            entries: Seq<EnvelopeView>,
            options: PushAllOptions,
            answer: Result<(), FailureView>,
            after: StoreState,
        |
            match answer {
                Ok(_) => exists|rows: Seq<EnvelopeView>| #[trigger]
                    sorts_to(entries, rows) && file_becomes(legacy, rows, after),
                Err(_) => after == held,
            },
    }
}

/// The row names its schema, and everything that a file holds for it fits MessagePack.
pub open spec fn stands_in_file(row: EnvelopeView) -> bool {
    &&& row.schema_id is Some
    &&& record_fits(record_of(row))
    &&& schema_fits(catalog_entry(row.schema(), row.entry_type))
}

/// Rows that a file keeps as they are: MessagePack can count them, and each stands in a file.
pub open spec fn stand_in_file(rows: Seq<EnvelopeView>) -> bool {
    &&& countable(rows.len())
    &&& forall|i: int| 0 <= i < rows.len() ==> stands_in_file(#[trigger] rows[i])
}

/// How often a row occurs is how often it occurs among the rows of its identity.
proof fn lemma_count(rows: Seq<EnvelopeView>, row: EnvelopeView)
    ensures
        rows.to_multiset().count(row) == rows_of(rows, row.id()).to_multiset().count(row),
    decreases rows.len(),
{
    broadcast use vstd::seq_lib::group_to_multiset_ensures;
    broadcast use vstd::multiset::group_multiset_axioms;

    if rows.len() == 0 {
        reveal(Seq::filter);
        assert(rows_of(rows, row.id()) =~= rows);
    } else {
        let rest = rows.drop_last();
        let last = rows.last();
        assert(rows =~= rest.push(last));
        lemma_count(rest, row);
        lemma_rows_of_push(rest, last, row.id());
        assert(rest.push(last).to_multiset() =~= rest.to_multiset().insert(last));
        if last.id() == row.id() {
            let some = rows_of(rest, row.id());
            assert(some.push(last).to_multiset() =~= some.to_multiset().insert(last));
        }
    }
}

/// Runs with the same rows under every identity have the same length and the same members.
pub proof fn lemma_same_members(a: Seq<EnvelopeView>, b: Seq<EnvelopeView>)
    requires
        same_rows(a, b),
    ensures
        a.len() == b.len(),
        forall|i: int| 0 <= i < a.len() ==> b.contains(#[trigger] a[i]),
{
    broadcast use vstd::seq_lib::group_to_multiset_ensures;
    broadcast use vstd::multiset::group_multiset_axioms;

    assert forall|row: EnvelopeView|
        a.to_multiset().count(row) == b.to_multiset().count(row) by {
        lemma_count(a, row);
        lemma_count(b, row);
        assert(rows_of(a, row.id()) == rows_of(b, row.id()));
    }
    assert(a.to_multiset() =~= b.to_multiset());
    assert(a.len() == a.to_multiset().len());
    assert(b.len() == b.to_multiset().len());
    assert forall|i: int| 0 <= i < a.len() implies b.contains(#[trigger] a[i]) by {
        assert(a.contains(a[i]));
        assert(a.to_multiset().count(a[i]) > 0);
        assert(b.to_multiset().count(a[i]) > 0);
    }
}

/// The rows outside some identities are among the rows.
proof fn lemma_outside_members(rows: Seq<EnvelopeView>, ids: Set<Identity>)
    ensures
        rows_outside(rows, ids).len() <= rows.len(),
        forall|i: int|
            0 <= i < rows_outside(rows, ids).len() ==> rows.contains(
                #[trigger] rows_outside(rows, ids)[i],
            ),
    decreases rows.len(),
{
    if rows.len() == 0 {
        reveal(Seq::filter);
    } else {
        let rest = rows.drop_last();
        let row = rows.last();
        assert(rows =~= rest.push(row));
        lemma_outside_members(rest, ids);
        lemma_rows_outside_push(rest, row, ids);
        let few = rows_outside(rest, ids);
        let all = rows_outside(rows, ids);
        assert forall|i: int| 0 <= i < all.len() implies rows.contains(#[trigger] all[i]) by {
            if i < few.len() {
                assert(all[i] == few[i]);
                let k = choose|k: int| 0 <= k < rest.len() && rest[k] == few[i];
                assert(rows[k] == all[i]);
            } else {
                assert(rows[rows.len() - 1] == all[i]);
            }
        }
    }
}

/// A catalog lists no more schemas than there are rows.
proof fn lemma_catalog_length(rows: Seq<EnvelopeView>, snapshot: SnapshotView)
    requires
        snapshots(rows, snapshot),
    ensures
        snapshot.1.len() <= rows.len(),
{
    let catalog = snapshot.1;
    let users = Seq::new(
        catalog.len(),
        |i: int|
            choose|k: int|
                0 <= k < rows.len() && (#[trigger] rows[k]).schema() == catalog[i].0,
    );
    assert forall|i: int| 0 <= i < users.len() implies 0 <= (#[trigger] users[i]) < rows.len()
        && rows[users[i]].schema() == catalog[i].0 by {
        assert(uses_schema(rows, catalog[i].0, catalog[i].1));
        let k = choose|k: int|
            0 <= k < rows.len() && (#[trigger] rows[k]).schema() == catalog[i].0
                && rows[k].entry_type == catalog[i].1;
        assert(rows[k].schema() == catalog[i].0);
    }
    assert(users.no_duplicates()) by {
        assert forall|i: int, j: int|
            0 <= i < users.len() && 0 <= j < users.len() && i != j implies users[i]
            != users[j] by {
            if users[i] == users[j] {
                assert(catalog[i].0 == catalog[j].0);
                lemma_text_irreflexive(catalog[i].0);
                if i < j {
                    assert(text_before(catalog[i].0, catalog[j].0));
                } else {
                    assert(text_before(catalog[j].0, catalog[i].0));
                }
            }
        }
    }
    users.unique_seq_to_set();
    let all = vstd::set_lib::set_int_range(0, rows.len() as int);
    vstd::set_lib::lemma_int_range(0, rows.len() as int);
    assert(users.to_set().subset_of(all)) by {
        assert forall|k: int| #[trigger] users.to_set().contains(k) implies all.contains(k) by {
            let i = choose|i: int| 0 <= i < users.len() && users[i] == k;
        }
    }
    vstd::set_lib::lemma_len_subset(users.to_set(), all);
}

/// Rows that stand in a file fit the format.
pub proof fn rows_in_a_file_fit(rows: Seq<EnvelopeView>)
    requires
        stand_in_file(rows),
    ensures
        rows_fit(rows),
{
    reveal_strlit("cultcache.store.v1");
    assert(vstd::utf8::is_ascii_chars(STORE_FORMAT@));
    vstd::utf8::is_ascii_chars_encode_utf8(STORE_FORMAT@);
    assert(text_fits(STORE_FORMAT@));
    assert forall|snapshot: SnapshotView| #[trigger] snapshots(
        rows,
        snapshot,
    ) implies snapshot_fits(snapshot) by {
        lemma_catalog_length(rows, snapshot);
        assert forall|i: int| 0 <= i < snapshot.1.len() implies schema_fits(
            #[trigger] snapshot.1[i],
        ) by {
            assert(uses_schema(rows, snapshot.1[i].0, snapshot.1[i].1));
            let k = choose|k: int|
                0 <= k < rows.len() && (#[trigger] rows[k]).schema() == snapshot.1[i].0
                    && rows[k].entry_type == snapshot.1[i].1;
            assert(stands_in_file(rows[k]));
        }
        assert forall|i: int| 0 <= i < snapshot.2.len() implies record_fits(
            #[trigger] snapshot.2[i],
        ) by {
            assert(stands_in_file(rows[i]));
        }
    }
}

/// A file that was written with rows that stand in it is read as those rows.
proof fn lemma_file_keeps<L: Fn(&Vec<u8>) -> Result<Vec<CultCacheEnvelope>, String>>(
    legacy: L,
    rows: Seq<EnvelopeView>,
    after: StoreState,
)
    requires
        stand_in_file(rows),
        file_becomes(legacy, rows, after),
    ensures
        after == rows,
{
    let bytes = choose|bytes: &Vec<u8>| #[trigger]
        writes(rows, bytes@) && reads(
            Some(bytes),
            legacy,
            Ok::<Seq<EnvelopeView>, FailureView>(after),
        );
    rows_in_a_file_fit(rows);
    assert forall|i: int| 0 <= i < rows.len() implies (#[trigger] rows[i]).schema_id is Some by {
        assert(stands_in_file(rows[i]));
    }
    named_rows_are_read_back_unchanged(
        rows,
        bytes,
        legacy,
        Ok::<Seq<EnvelopeView>, FailureView>(after),
    );
}

/// Rows stand in a file in whatever order.
proof fn lemma_stand_in_any_order(rows: Seq<EnvelopeView>, run: Seq<EnvelopeView>)
    requires
        stand_in_file(rows),
        same_rows(run, rows),
    ensures
        stand_in_file(run),
{
    lemma_same_members(run, rows);
    assert forall|i: int| 0 <= i < run.len() implies stands_in_file(#[trigger] run[i]) by {
        let k = choose|k: int| 0 <= k < rows.len() && rows[k] == run[i];
        assert(stands_in_file(rows[k]));
    }
}

/// What a file's contents are read as is one thing.
proof fn lemma_read_alike<L: Fn(&Vec<u8>) -> Result<Vec<CultCacheEnvelope>, String>>(
    contents: Option<&Vec<u8>>,
    legacy: L,
    a: Result<Seq<EnvelopeView>, FailureView>,
    b: Result<Seq<EnvelopeView>, FailureView>,
)
    requires
        reads_alike(legacy),
        reads(contents, legacy, a),
        reads(contents, legacy, b),
    ensures
        a == b,
{
    if let Some(bytes) = contents {
        if bytes@.len() > 0 && rows_packed(bytes@) is Err {
            let x = choose|x: Result<Vec<CultCacheEnvelope>, String>| #[trigger]
                call_ensures(legacy, (bytes,), x) && match x {
                    Ok(rows) => a == Ok::<Seq<EnvelopeView>, FailureView>(views(rows@)),
                    Err(cause) => a == Err::<Seq<EnvelopeView>, FailureView>(
                        FailureView::ContentsUndecodable { cause: cause@ },
                    ),
                };
            let y = choose|y: Result<Vec<CultCacheEnvelope>, String>| #[trigger]
                call_ensures(legacy, (bytes,), y) && match y {
                    Ok(rows) => b == Ok::<Seq<EnvelopeView>, FailureView>(views(rows@)),
                    Err(cause) => b == Err::<Seq<EnvelopeView>, FailureView>(
                        FailureView::ContentsUndecodable { cause: cause@ },
                    ),
                };
            assert(call_ensures(legacy, (bytes,), x) && call_ensures(legacy, (bytes,), y));
        }
    }
}

/// A single-file store keeps what it accepts, where rows name their schemas and fit MessagePack;
/// and it replaces all its rows or none.
pub proof fn single_file_store_is_faithful<
    L: Fn(&Vec<u8>) -> Result<Vec<CultCacheEnvelope>, String>,
>(legacy: L)
    requires
        reads_alike(legacy),
    ensures
        faithful(single_file_rules(legacy), |rows: Seq<EnvelopeView>| stand_in_file(rows)),
        replaces_whole(single_file_rules(legacy)),
{
    let rules = single_file_rules(legacy);
    assert forall|before: StoreState, entry: EnvelopeView, after: StoreState| #[trigger]
        (rules.pushes)(before, entry, Ok(()), after) && stand_in_file(
            rows_outside(before, set![entry.id()]).push(entry),
        ) implies same_rows(after, rows_outside(before, set![entry.id()]).push(entry)) by {
        let target = rows_outside(before, set![entry.id()]).push(entry);
        let rows = choose|rows: Seq<EnvelopeView>| #[trigger]
            sorts_to(target, rows) && file_becomes(legacy, rows, after);
        lemma_stand_in_any_order(target, rows);
        lemma_file_keeps(legacy, rows, after);
    }
    assert forall|before: StoreState, entry: EnvelopeView, after: StoreState| #[trigger]
        (rules.deletes)(before, entry, Ok(()), after) && stand_in_file(
            before.push(entry),
        ) implies same_rows(after, rows_outside(before, set![entry.id()])) by {
        let kept = rows_outside(before, set![entry.id()]);
        lemma_outside_members(before, set![entry.id()]);
        assert forall|i: int| 0 <= i < kept.len() implies stands_in_file(#[trigger] kept[i]) by {
            let k = choose|k: int| 0 <= k < before.len() && before[k] == kept[i];
            assert(before.push(entry)[k] == before[k]);
            assert(stands_in_file(before.push(entry)[k]));
        }
        lemma_file_keeps(legacy, kept, after);
    }
    assert forall|
        before: StoreState,
        entries: Seq<EnvelopeView>,
        options: PushAllOptions,
        after: StoreState,
    | #[trigger]
        (rules.replaces)(before, entries, options, Ok(()), after) && stand_in_file(
            entries,
        ) implies same_rows(after, entries) by {
        let rows = choose|rows: Seq<EnvelopeView>| #[trigger]
            sorts_to(entries, rows) && file_becomes(legacy, rows, after);
        lemma_stand_in_any_order(entries, rows);
        lemma_file_keeps(legacy, rows, after);
    }
    assert forall|held: StoreState, rows: Seq<EnvelopeView>| #[trigger]
        (rules.pulls)(held, Ok(rows)) implies same_rows(rows, held) by {
        let contents = choose|contents: Option<&Vec<u8>>| #[trigger]
            reads(contents, legacy, Ok::<Seq<EnvelopeView>, FailureView>(held)) && reads(
                contents,
                legacy,
                Ok::<Seq<EnvelopeView>, FailureView>(rows),
            );
        lemma_read_alike(
            contents,
            legacy,
            Ok::<Seq<EnvelopeView>, FailureView>(held),
            Ok::<Seq<EnvelopeView>, FailureView>(rows),
        );
    }
}

/// A table is listed and read as `after`.
pub open spec fn table_becomes<D: Fn(&Vec<u8>) -> Result<CultCacheEnvelope, String>>(
    decode: D,
    held: Map<Seq<u8>, Seq<u8>>,
    after: Result<Seq<EnvelopeView>, FailureView>,
) -> bool {
    exists|listing: Seq<(Seq<u8>, Seq<u8>)>| #[trigger]
        lists(held, listing) && reads_listing(listing, decode, after)
}

/// How a keyed store answers. It holds the rows that its table holds; a change that fails is not
/// committed.
pub open spec fn keyed_rules<D: Fn(&Vec<u8>) -> Result<CultCacheEnvelope, String>>(
    decode: D,
) -> StoreRules {
    StoreRules {
        pulls: |held: StoreState, rows: Result<Seq<EnvelopeView>, FailureView>|
            exists|table: Map<Seq<u8>, Seq<u8>>| #[trigger]
                mirrors(table, decode, held) && table_becomes(decode, table, rows),
        pushes: |
            held: StoreState,
            entry: EnvelopeView,
            answer: Result<(), FailureView>,
            after: StoreState,
        |
            match answer {
                Ok(_) => packs_whole(seq![entry]) && exists|table: Map<Seq<u8>, Seq<u8>>| #[trigger]
                    mirrors(table, decode, held) && table_becomes(
                        decode,
                        table.insert(packed_identity(entry.id()), packed_row(entry)),
                        Ok(after),
                    ),
                Err(_) => after == held,
            },
        deletes: |
            held: StoreState,
            entry: EnvelopeView,
            answer: Result<(), FailureView>,
            after: StoreState,
        |
            match answer {
                Ok(_) => exists|table: Map<Seq<u8>, Seq<u8>>| #[trigger]
                    mirrors(table, decode, held) && table_becomes(
                        decode,
                        table.remove(packed_identity(entry.id())),
                        Ok(after),
                    ),
                Err(_) => after == held,
            },
        replaces: |
            held: StoreState,
            entries: Seq<EnvelopeView>,
            options: PushAllOptions,
            answer: Result<(), FailureView>,
            after: StoreState,
        |
            match answer {
                Ok(_) => unique_ids(entries) && packs_whole(entries) && table_becomes(
                    decode,
                    with_rows(Map::empty(), entries),
                    Ok(after),
                ),
                Err(_) => after == held,
            },
    }
}

/// What a table that holds rows is read as are those rows.
proof fn lemma_table_keeps<D: Fn(&Vec<u8>) -> Result<CultCacheEnvelope, String>>(
    decode: D,
    held: Map<Seq<u8>, Seq<u8>>,
    rows: Seq<EnvelopeView>,
    after: Seq<EnvelopeView>,
)
    requires
        mirrors(held, decode, rows),
        table_becomes(decode, held, Ok(after)),
    ensures
        same_rows(after, rows),
{
    let listing = choose|listing: Seq<(Seq<u8>, Seq<u8>)>| #[trigger]
        lists(held, listing) && reads_listing(listing, decode, Ok(after));
    held_rows_are_pulled(held, decode, rows, listing, Ok(after));
}

/// A keyed store keeps what it accepts, where rows fit MessagePack; and it replaces all its rows or
/// none.
pub proof fn keyed_store_is_faithful<D: Fn(&Vec<u8>) -> Result<CultCacheEnvelope, String>>(
    decode: D,
)
    ensures
        faithful(keyed_rules(decode), |rows: Seq<EnvelopeView>| all_fit(rows)),
        replaces_whole(keyed_rules(decode)),
{
    let rules = keyed_rules(decode);
    assert forall|before: StoreState, entry: EnvelopeView, after: StoreState| #[trigger]
        (rules.pushes)(before, entry, Ok(()), after) && all_fit(
            rows_outside(before, set![entry.id()]).push(entry),
        ) implies same_rows(after, rows_outside(before, set![entry.id()]).push(entry)) by {
        let kept = rows_outside(before, set![entry.id()]);
        let target = kept.push(entry);
        let table = choose|table: Map<Seq<u8>, Seq<u8>>| #[trigger]
            mirrors(table, decode, before) && table_becomes(
                decode,
                table.insert(packed_identity(entry.id()), packed_row(entry)),
                Ok(after),
            );
        assert(row_fits(target[kept.len() as int]));
        lemma_one_id(entry);
        assert(target =~= kept + seq![entry]);
        assert(seq![entry].drop_last() =~= Seq::<EnvelopeView>::empty());
        reveal_with_fuel(with_rows, 2);
        stores_change_alike(table, decode, before, seq![entry], target);
        lemma_table_keeps(
            decode,
            table.insert(packed_identity(entry.id()), packed_row(entry)),
            target,
            after,
        );
    }
    assert forall|before: StoreState, entry: EnvelopeView, after: StoreState| #[trigger]
        (rules.deletes)(before, entry, Ok(()), after) && all_fit(
            before.push(entry),
        ) implies same_rows(after, rows_outside(before, set![entry.id()])) by {
        let id = entry.id();
        let table = choose|table: Map<Seq<u8>, Seq<u8>>| #[trigger]
            mirrors(table, decode, before) && table_becomes(
                decode,
                table.remove(packed_identity(entry.id())),
                Ok(after),
            );
        assert(row_fits(before.push(entry)[before.len() as int]));
        stores_delete_alike(table, decode, before, set![id]);
        assert(keys_of(set![id]) =~= set![packed_identity(id)]) by {
            assert(set![id].contains(id));
        }
        assert(without_ids(table, set![id]) =~= table.remove(packed_identity(id)));
        lemma_table_keeps(
            decode,
            table.remove(packed_identity(id)),
            rows_outside(before, set![id]),
            after,
        );
    }
    assert forall|
        before: StoreState,
        entries: Seq<EnvelopeView>,
        options: PushAllOptions,
        after: StoreState,
    | #[trigger]
        (rules.replaces)(before, entries, options, Ok(()), after) && all_fit(
            entries,
        ) implies same_rows(after, entries) by {
        let none = Seq::<EnvelopeView>::empty();
        empty_table_holds_nothing(decode);
        lemma_outside_members(none, ids_of(entries));
        assert(rows_outside(none, ids_of(entries)) + entries =~= entries);
        stores_change_alike(Map::empty(), decode, none, entries, entries);
        lemma_table_keeps(decode, with_rows(Map::empty(), entries), entries, after);
    }
    assert forall|held: StoreState, rows: Seq<EnvelopeView>| #[trigger]
        (rules.pulls)(held, Ok(rows)) implies same_rows(rows, held) by {
        let table = choose|table: Map<Seq<u8>, Seq<u8>>| #[trigger]
            mirrors(table, decode, held) && table_becomes(decode, table, Ok(rows));
        lemma_table_keeps(decode, table, held, rows);
    }
}

/// The identities of one row.
proof fn lemma_one_id(entry: EnvelopeView)
    ensures
        ids_of(seq![entry]) == set![entry.id()],
{
    assert forall|id: Identity| ids_of(seq![entry]).contains(id) == set![entry.id()].contains(
        id,
    ) by {
        if id == entry.id() {
            assert(seq![entry][0].id() == id);
        }
    }
    assert(ids_of(seq![entry]) =~= set![entry.id()]);
}

/// Every run of rows.
pub open spec fn any_rows() -> spec_fn(Seq<EnvelopeView>) -> bool {
    |rows: Seq<EnvelopeView>| true
}

proof fn lemma_taken_id(rows: Seq<EnvelopeView>, k: int, id: Identity)
    requires
        0 < k <= rows.len(),
    ensures
        has_id(rows.take(k), id) <==> has_id(rows.take(k - 1), id) || rows[k - 1].id() == id,
{
    let more = rows.take(k);
    let few = rows.take(k - 1);
    if has_id(more, id) {
        let i = choose|i: int| 0 <= i < more.len() && (#[trigger] more[i]).id() == id;
        if i < k - 1 {
            assert(few[i].id() == id);
        }
    }
    if has_id(few, id) {
        let i = choose|i: int| 0 <= i < few.len() && (#[trigger] few[i]).id() == id;
        assert(more[i].id() == id);
    }
    assert(more[k - 1] == rows[k - 1]);
}

/// What is left under an identity once the first `k` rows at hand were deleted.
proof fn lemma_deleted_one_by_one(
    rules: StoreRules,
    pulled: Seq<EnvelopeView>,
    entries: Seq<EnvelopeView>,
    states: Seq<StoreState>,
    k: int,
    id: Identity,
)
    requires
        faithful(rules, any_rows()),
        steps_done(rules, pulled, entries, states),
        0 <= k <= pulled.len(),
        k < states.len(),
    ensures
        rows_of(states[k], id) == if has_id(pulled.take(k), id) {
            Seq::empty()
        } else {
            rows_of(states[0], id)
        },
    decreases k,
{
    if k > 0 {
        lemma_deleted_one_by_one(rules, pulled, entries, states, k - 1, id);
        lemma_taken_id(pulled, k, id);
        let held = states[k - 1];
        let row = pulled[k - 1];
        assert(replacing_step(rules, pulled, entries, k - 1, held, Ok(()), states[k]));
        assert((rules.deletes)(held, row, Ok(()), states[k]));
        assert(any_rows()(held.push(row)));
        assert(same_rows(states[k], rows_outside(held, set![row.id()])));
        assert(rows_of(states[k], id) == rows_of(rows_outside(held, set![row.id()]), id));
        lemma_rows_of_outside(held, set![row.id()], id);
    } else {
        assert(!has_id(pulled.take(0), id));
    }
}

/// What stands under an identity once the rows at hand were deleted and the first `j` new ones
/// pushed.
proof fn lemma_pushed_one_by_one(
    rules: StoreRules,
    pulled: Seq<EnvelopeView>,
    entries: Seq<EnvelopeView>,
    states: Seq<StoreState>,
    j: int,
    id: Identity,
)
    requires
        faithful(rules, any_rows()),
        steps_done(rules, pulled, entries, states),
        same_rows(pulled, states[0]),
        0 <= j <= entries.len(),
        pulled.len() + j < states.len(),
    ensures
        rows_of(states[pulled.len() + j], id) == if has_id(entries.take(j), id) {
            seq![rows_of(entries.take(j), id).last()]
        } else {
            Seq::empty()
        },
    decreases j,
{
    let n = pulled.len() as int;
    if j == 0 {
        lemma_deleted_one_by_one(rules, pulled, entries, states, n, id);
        assert(pulled.take(n) =~= pulled);
        assert(rows_of(pulled, id) == rows_of(states[0], id));
        lemma_rows_of_member(pulled, id);
        assert(!has_id(entries.take(0), id));
        if !has_id(pulled, id) {
            assert(rows_of(states[0], id) =~= Seq::<EnvelopeView>::empty());
        }
    } else {
        lemma_pushed_one_by_one(rules, pulled, entries, states, j - 1, id);
        lemma_taken_id(entries, j, id);
        let held = states[n + j - 1];
        let row = entries[j - 1];
        let target = rows_outside(held, set![row.id()]).push(row);
        assert(replacing_step(rules, pulled, entries, n + j - 1, held, Ok(()), states[n + j]));
        assert((rules.pushes)(held, row, Ok(()), states[n + j]));
        assert(any_rows()(target));
        assert(same_rows(states[n + j], target));
        assert(rows_of(states[n + j], id) == rows_of(target, id));
        lemma_rows_of_push(rows_outside(held, set![row.id()]), row, id);
        lemma_rows_of_outside(held, set![row.id()], id);
        assert(entries.take(j) =~= entries.take(j - 1).push(row));
        lemma_rows_of_push(entries.take(j - 1), row, id);
        if row.id() == id {
            assert(rows_of(states[n + j], id) =~= seq![row]);
        }
    }
}

/// Replacing the rows of a faithful store one by one leaves nothing of what was there: each
/// identity has the last of its new rows, and no other. Where the new rows repeat no identity, they
/// are exactly the rows that are held.
pub proof fn rows_replaced_one_by_one_are_the_new_ones(
    rules: StoreRules,
    before: StoreState,
    entries: Seq<EnvelopeView>,
    after: StoreState,
)
    requires
        faithful(rules, any_rows()),
        replaces_row_by_row(rules, before, entries, Ok(()), after),
    ensures
        forall|id: Identity| #[trigger]
            rows_of(after, id) == if has_id(entries, id) {
                seq![rows_of(entries, id).last()]
            } else {
                Seq::empty()
            },
        unique_ids(entries) ==> same_rows(after, entries),
{
    let pulled = choose|pulled: Seq<EnvelopeView>| #[trigger]
        replaces_stepwise(rules, before, pulled, entries, Ok(()), after) && (rules.pulls)(
            before,
            Ok(pulled),
        );
    let states = choose|states: Seq<StoreState>|
        {
            &&& #[trigger] steps_done(rules, pulled, entries, states)
            &&& states[0] == before
            &&& states.len() == pulled.len() + entries.len() + 1
            &&& states.last() == after
        };
    let m = entries.len() as int;
    assert(entries.take(m) =~= entries);
    assert forall|id: Identity| #[trigger] rows_of(after, id) == if has_id(entries, id) {
        seq![rows_of(entries, id).last()]
    } else {
        Seq::empty()
    } by {
        lemma_pushed_one_by_one(rules, pulled, entries, states, m, id);
    }
    if unique_ids(entries) {
        assert forall|id: Identity| #[trigger] rows_of(after, id) == rows_of(entries, id) by {
            if has_id(entries, id) {
                let i = choose|i: int| 0 <= i < entries.len() && (#[trigger] entries[i]).id() == id;
                lemma_only_row(entries, i);
                assert(rows_of(entries, id).last() == entries[i]);
            } else {
                lemma_rows_of_none(entries, id);
            }
        }
    }
}

/// Replacing the rows of a store one by one fails only where a request to the store does, and with
/// what the store answered. Where its rows cannot be pulled, nothing changes.
pub proof fn replacing_one_by_one_fails_with_the_store(
    rules: StoreRules,
    before: StoreState,
    entries: Seq<EnvelopeView>,
    e: FailureView,
    after: StoreState,
)
    requires
        replaces_row_by_row(rules, before, entries, Err(e), after),
    ensures
        ({
            ||| (rules.pulls)(before, Err(e)) && after == before
            ||| exists|held: StoreState, row: EnvelopeView| #[trigger]
                (rules.deletes)(held, row, Err(e), after)
            ||| exists|held: StoreState, row: EnvelopeView| #[trigger]
                (rules.pushes)(held, row, Err(e), after) && entries.contains(row)
        }),
{
    if !((rules.pulls)(before, Err(e)) && after == before) {
        let pulled = choose|pulled: Seq<EnvelopeView>| #[trigger]
            replaces_stepwise(rules, before, pulled, entries, Err(e), after);
        let states = choose|states: Seq<StoreState>|
            {
                &&& #[trigger] steps_done(rules, pulled, entries, states)
                &&& states.len() <= pulled.len() + entries.len()
                &&& replacing_step(
                    rules,
                    pulled,
                    entries,
                    states.len() - 1,
                    states.last(),
                    Err(e),
                    after,
                )
            };
        let k = states.len() - 1;
        if k < pulled.len() {
            assert((rules.deletes)(states.last(), pulled[k], Err(e), after));
        } else {
            assert((rules.pushes)(states.last(), entries[k - pulled.len()], Err(e), after));
            assert(entries.contains(entries[k - pulled.len()]));
        }
    }
}

} // verus!

//! Stores that keep each row on its own in a table, under its packed identity.
//!
//! The operations work on the table of an open write transaction. Whoever calls them commits the
//! transaction where an operation says that it did its work, and drops it otherwise.

use crate::conditional::{
    append_refusal, check_append, check_compaction, check_delete, check_replace, check_swap_batch,
    compaction_refusal, delete_refusal, replace_refusal, swap_batch_refusal,
};
use crate::envelope::{
    entry_id, same_envelope, same_identity, views, CultCacheEnvelope, EnvelopeView, Identity,
};
use crate::error::{outcome, BatchRows, CultCacheError, Failure, FailureView};
use crate::messagepack::packed_identity;
use crate::rows::{
    ids_of, lemma_rows_of_member, matches_snapshot, rows_of, rows_outcome, same_rows, sorts_to,
    unique_batch_ids, unique_ids, IdentitySet,
};
use crate::table::{
    contents, decodes_rows, holds_identity, insert_redb_entry, insert_rows, key_failure,
    lemma_failure_of_more, listing_of, listing_view, machine_failure, packed_row, packs_whole,
    read_all_redb, read_pairs, read_redb_entry, reads_listing, remove_all, remove_ids,
    remove_redb_entry, rows_listed, stored, with_rows, without_ids, EnvelopeTable,
};
use crate::text::same_text;
use vstd::prelude::*;

verus! {

/// Whether the table holds every row of `expected`, exactly, or the first row that cannot be
/// read.
pub open spec fn expected_verdict<D: Fn(&Vec<u8>) -> Result<CultCacheEnvelope, String>>(
    held: Map<Seq<u8>, Seq<u8>>,
    decode: D,
    expected: Seq<EnvelopeView>,
) -> Result<bool, FailureView>
    decreases expected.len(),
{
    if expected.len() == 0 {
        Ok(true)
    } else {
        match expected_verdict(held, decode, expected.drop_last()) {
            Ok(true) => match stored(held, decode, expected.last().id()) {
                Some(Err(cause)) => Err(Failure::RowUndecodable { cause }),
                Some(Ok(row)) => Ok(row == expected.last()),
                None => Ok(false),
            },
            decided => decided,
        }
    }
}

/// Whether the table holds no row under the identities of `added` outside `known`, or the first
/// such row that cannot be read.
pub open spec fn absent_verdict<D: Fn(&Vec<u8>) -> Result<CultCacheEnvelope, String>>(
    held: Map<Seq<u8>, Seq<u8>>,
    decode: D,
    known: Set<Identity>,
    added: Seq<EnvelopeView>,
) -> Result<bool, FailureView>
    decreases added.len(),
{
    if added.len() == 0 {
        Ok(true)
    } else {
        match absent_verdict(held, decode, known, added.drop_last()) {
            Ok(true) => if known.contains(added.last().id()) {
                Ok(true)
            } else {
                match stored(held, decode, added.last().id()) {
                    Some(Err(cause)) => Err(Failure::RowUndecodable { cause }),
                    Some(Ok(_)) => Ok(false),
                    None => Ok(true),
                }
            },
            decided => decided,
        }
    }
}

/// The first verdict, or the second where the first is positive.
pub open spec fn then_verdict(first: Result<bool, FailureView>, second: Result<bool, FailureView>) -> Result<
    bool,
    FailureView,
> {
    match first {
        Ok(true) => second,
        decided => decided,
    }
}

/// Whether the rows of the table are exactly `expected`, in whatever order, or the first row that
/// cannot be read.
pub open spec fn snapshot_verdict<D: Fn(&Vec<u8>) -> Result<CultCacheEnvelope, String>>(
    held: Map<Seq<u8>, Seq<u8>>,
    decode: D,
    expected: Seq<EnvelopeView>,
) -> Result<bool, FailureView> {
    match rows_listed(listing_of(held), decode) {
        Ok(rows) => Ok(same_rows(rows, expected)),
        Err(e) => Err(e),
    }
}

/// A failure of the machine in a request that works on the keys of `ids` and packs `put`.
pub open spec fn request_failure(
    e: FailureView,
    ids: Set<Identity>,
    put: Seq<EnvelopeView>,
) -> bool {
    machine_failure(e, ids, put)
}

/// `done` is `verdict`, or a failure of the machine in working on the keys of `ids` or packing
/// `put`.
pub open spec fn decides(
    done: Result<bool, CultCacheError>,
    verdict: Result<bool, FailureView>,
    ids: Set<Identity>,
    put: Seq<EnvelopeView>,
) -> bool {
    match done {
        Ok(b) => verdict == Ok::<bool, FailureView>(b),
        Err(e) => verdict == Err::<bool, FailureView>(e@) || request_failure(e@, ids, put),
    }
}

proof fn lemma_expected_decided<D: Fn(&Vec<u8>) -> Result<CultCacheEnvelope, String>>(
    held: Map<Seq<u8>, Seq<u8>>,
    decode: D,
    expected: Seq<EnvelopeView>,
    n: int,
)
    requires
        0 <= n <= expected.len(),
        expected_verdict(held, decode, expected.take(n)) != Ok::<bool, FailureView>(true),
    ensures
        expected_verdict(held, decode, expected) == expected_verdict(
            held,
            decode,
            expected.take(n),
        ),
    decreases expected.len() - n,
{
    if n == expected.len() {
        assert(expected.take(n) =~= expected);
    } else {
        assert(expected.take(n + 1).drop_last() =~= expected.take(n));
        lemma_expected_decided(held, decode, expected, n + 1);
    }
}

proof fn lemma_absent_decided<D: Fn(&Vec<u8>) -> Result<CultCacheEnvelope, String>>(
    held: Map<Seq<u8>, Seq<u8>>,
    decode: D,
    known: Set<Identity>,
    added: Seq<EnvelopeView>,
    n: int,
)
    requires
        0 <= n <= added.len(),
        absent_verdict(held, decode, known, added.take(n)) != Ok::<bool, FailureView>(true),
    ensures
        absent_verdict(held, decode, known, added) == absent_verdict(
            held,
            decode,
            known,
            added.take(n),
        ),
    decreases added.len() - n,
{
    if n == added.len() {
        assert(added.take(n) =~= added);
    } else {
        assert(added.take(n + 1).drop_last() =~= added.take(n));
        lemma_absent_decided(held, decode, known, added, n + 1);
    }
}

/// Whether the table holds every row of `expected`, exactly.
fn rows_expected<D: Fn(&Vec<u8>) -> Result<CultCacheEnvelope, String>>(
    table: &EnvelopeTable<'_>,
    expected: &[CultCacheEnvelope],
    decode: &D,
) -> (held: Result<bool, CultCacheError>)
    requires
        decodes_rows(*decode),
    ensures
        decides(
            held,
            expected_verdict(contents(*table), *decode, views(expected@)),
            ids_of(views(expected@)),
            Seq::empty(),
        ),
{
    let ghost all = views(expected@);
    let ghost map = contents(*table);
    let mut i: usize = 0;
    while i < expected.len()
        invariant
            i <= expected.len(),
            decodes_rows(*decode),
            all == views(expected@),
            map == contents(*table),
            expected_verdict(map, *decode, all.take(i as int)) == Ok::<bool, FailureView>(true),
        decreases expected.len() - i,
    {
        proof {
            assert(all.take(i + 1).drop_last() =~= all.take(i as int));
            assert(all.take(i + 1).last() == all[i as int]);
            if expected_verdict(map, *decode, all.take(i + 1)) != Ok::<bool, FailureView>(true) {
                lemma_expected_decided(map, *decode, all, i + 1);
            }
        }
        proof {
            assert(all[i as int].id() == expected@[i as int]@.id());
            lemma_failure_of_more(
                set![expected@[i as int]@.id()],
                ids_of(all),
                Seq::empty(),
                Seq::empty(),
            );
        }
        match read_redb_entry(table, &expected[i], decode)? {
            None => {
                return Ok(false);
            },
            Some(row) => {
                if !same_envelope(&row, &expected[i]) {
                    return Ok(false);
                }
            },
        }
        i = i + 1;
    }
    assert(all.take(i as int) =~= all);
    Ok(true)
}

/// Whether the table holds no row under the identities of `added` outside `known`.
fn rows_absent<D: Fn(&Vec<u8>) -> Result<CultCacheEnvelope, String>>(
    table: &EnvelopeTable<'_>,
    known: &IdentitySet,
    added: &[CultCacheEnvelope],
    decode: &D,
) -> (absent: Result<bool, CultCacheError>)
    requires
        known.wf(),
        decodes_rows(*decode),
    ensures
        decides(
            absent,
            absent_verdict(contents(*table), *decode, known@.dom(), views(added@)),
            ids_of(views(added@)),
            Seq::empty(),
        ),
{
    let ghost all = views(added@);
    let ghost map = contents(*table);
    let mut i: usize = 0;
    while i < added.len()
        invariant
            i <= added.len(),
            known.wf(),
            decodes_rows(*decode),
            all == views(added@),
            map == contents(*table),
            absent_verdict(map, *decode, known@.dom(), all.take(i as int)) == Ok::<
                bool,
                FailureView,
            >(true),
        decreases added.len() - i,
    {
        proof {
            assert(all.take(i + 1).drop_last() =~= all.take(i as int));
            assert(all.take(i + 1).last() == all[i as int]);
            if absent_verdict(map, *decode, known@.dom(), all.take(i + 1)) != Ok::<
                bool,
                FailureView,
            >(true) {
                lemma_absent_decided(map, *decode, known@.dom(), all, i + 1);
            }
        }
        if !known.contains(&entry_id(&added[i])) {
            proof {
                assert(all[i as int].id() == added@[i as int]@.id());
                lemma_failure_of_more(
                    set![added@[i as int]@.id()],
                    ids_of(all),
                    Seq::empty(),
                    Seq::empty(),
                );
            }
            if read_redb_entry(table, &added[i], decode)?.is_some() {
                return Ok(false);
            }
        }
        i = i + 1;
    }
    assert(all.take(i as int) =~= all);
    Ok(true)
}

/// Sorting rows changes nothing about which rows they are.
proof fn lemma_sorted_same(rows: Seq<EnvelopeView>, sorted: Seq<EnvelopeView>, other: Seq<EnvelopeView>)
    requires
        sorts_to(rows, sorted),
    ensures
        same_rows(sorted, other) == same_rows(rows, other),
{
    if same_rows(sorted, other) {
        assert forall|id: Identity| #[trigger] rows_of(rows, id) == rows_of(other, id) by {
            assert(rows_of(sorted, id) == rows_of(rows, id));
            assert(rows_of(sorted, id) == rows_of(other, id));
        }
    }
    if same_rows(rows, other) {
        assert forall|id: Identity| #[trigger] rows_of(sorted, id) == rows_of(other, id) by {
            assert(rows_of(sorted, id) == rows_of(rows, id));
            assert(rows_of(rows, id) == rows_of(other, id));
        }
    }
}

/// Whether the rows of the table are exactly `expected`, in whatever order.
fn rows_match<D: Fn(&Vec<u8>) -> Result<CultCacheEnvelope, String>>(
    table: &EnvelopeTable<'_>,
    expected: &[CultCacheEnvelope],
    decode: &D,
) -> (same: Result<bool, CultCacheError>)
    requires
        decodes_rows(*decode),
    ensures
        decides(
            same,
            snapshot_verdict(contents(*table), *decode, views(expected@)),
            Set::empty(),
            Seq::empty(),
        ),
{
    let current = read_all_redb(table, decode)?;
    proof {
        lemma_sorted_same(
            rows_listed(listing_of(contents(*table)), *decode)->Ok_0,
            views(current@),
            views(expected@),
        );
    }
    Ok(matches_snapshot(&current, expected))
}

/// A request was refused and changed nothing; or it was decided by `verdict`, led from `before` to
/// `target` where that is positive, with the rows `put` packed whole, and changed nothing where it
/// is not. Where the machine failed in working on the keys of `ids` or packing `put`, nothing is
/// said of the table.
pub open spec fn carries_out(
    refusal: Option<FailureView>,
    verdict: Result<bool, FailureView>,
    before: Map<Seq<u8>, Seq<u8>>,
    target: Map<Seq<u8>, Seq<u8>>,
    after: Map<Seq<u8>, Seq<u8>>,
    ids: Set<Identity>,
    put: Seq<EnvelopeView>,
    done: Result<bool, CultCacheError>,
) -> bool {
    match refusal {
        Some(e) => done is Err && done->Err_0@ == e && after == before,
        None => decides(done, verdict, ids, put) && match done {
            Ok(b) => if b {
                after == target && packs_whole(put)
            } else {
                after == before
            },
            Err(e) => after == before || request_failure(e@, ids, put),
        },
    }
}

/// Replacing one exact row of a table may come to `done`.
pub open spec fn table_swaps_entry<D: Fn(&Vec<u8>) -> Result<CultCacheEnvelope, String>>(
    before: Map<Seq<u8>, Seq<u8>>,
    decode: D,
    expected: EnvelopeView,
    replacement: EnvelopeView,
    after: Map<Seq<u8>, Seq<u8>>,
    done: Result<bool, CultCacheError>,
) -> bool {
    carries_out(
        swap_entry_refusal(expected, replacement),
        expected_verdict(before, decode, seq![expected]),
        before,
        with_rows(before, seq![replacement]),
        after,
        set![expected.id()],
        seq![replacement],
        done,
    )
}

/// Inserting a row in a table where its identity is absent may come to `done`.
pub open spec fn table_inserts_absent(
    before: Map<Seq<u8>, Seq<u8>>,
    entry: EnvelopeView,
    after: Map<Seq<u8>, Seq<u8>>,
    done: Result<bool, CultCacheError>,
) -> bool {
    carries_out(
        None,
        Ok(!before.contains_key(packed_identity(entry.id()))),
        before,
        with_rows(before, seq![entry]),
        after,
        set![entry.id()],
        seq![entry],
        done,
    )
}

/// Replacing an exact set of rows of a table and inserting companions may come to `done`.
pub open spec fn table_swaps_batch<D: Fn(&Vec<u8>) -> Result<CultCacheEnvelope, String>>(
    before: Map<Seq<u8>, Seq<u8>>,
    decode: D,
    expected: Seq<EnvelopeView>,
    replacements: Seq<EnvelopeView>,
    after: Map<Seq<u8>, Seq<u8>>,
    done: Result<bool, CultCacheError>,
) -> bool {
    carries_out(
        swap_batch_refusal(expected, replacements),
        then_verdict(
            expected_verdict(before, decode, expected),
            absent_verdict(before, decode, ids_of(expected), replacements),
        ),
        before,
        with_rows(before, replacements),
        after,
        ids_of(replacements),
        replacements,
        done,
    )
}

/// Appending companions to an exact table may come to `done`.
pub open spec fn table_appends<D: Fn(&Vec<u8>) -> Result<CultCacheEnvelope, String>>(
    before: Map<Seq<u8>, Seq<u8>>,
    decode: D,
    expected: Seq<EnvelopeView>,
    additions: Seq<EnvelopeView>,
    after: Map<Seq<u8>, Seq<u8>>,
    done: Result<bool, CultCacheError>,
) -> bool {
    carries_out(
        append_refusal(expected, additions),
        append_verdict(before, decode, expected, additions),
        before,
        with_rows(before, additions),
        after,
        ids_of(additions),
        additions,
        done,
    )
}

/// Deleting an exact set of rows of a table may come to `done`.
pub open spec fn table_deletes_batch<D: Fn(&Vec<u8>) -> Result<CultCacheEnvelope, String>>(
    before: Map<Seq<u8>, Seq<u8>>,
    decode: D,
    expected: Seq<EnvelopeView>,
    after: Map<Seq<u8>, Seq<u8>>,
    done: Result<bool, CultCacheError>,
) -> bool {
    carries_out(
        delete_refusal(expected),
        expected_verdict(before, decode, expected),
        before,
        without_ids(before, ids_of(expected)),
        after,
        ids_of(expected),
        Seq::empty(),
        done,
    )
}

/// Replacing rows of an exact table and appending companions may come to `done`.
pub open spec fn table_replaces<D: Fn(&Vec<u8>) -> Result<CultCacheEnvelope, String>>(
    before: Map<Seq<u8>, Seq<u8>>,
    decode: D,
    expected: Seq<EnvelopeView>,
    replacements: Seq<EnvelopeView>,
    after: Map<Seq<u8>, Seq<u8>>,
    done: Result<bool, CultCacheError>,
) -> bool {
    carries_out(
        replace_refusal(expected, replacements),
        snapshot_verdict(before, decode, expected),
        before,
        with_rows(before, replacements),
        after,
        ids_of(replacements),
        replacements,
        done,
    )
}

/// Replacing and deleting rows of an exact table may come to `done`.
pub open spec fn table_compacts<D: Fn(&Vec<u8>) -> Result<CultCacheEnvelope, String>>(
    before: Map<Seq<u8>, Seq<u8>>,
    decode: D,
    expected: Seq<EnvelopeView>,
    replacements: Seq<EnvelopeView>,
    deletions: Seq<EnvelopeView>,
    after: Map<Seq<u8>, Seq<u8>>,
    done: Result<bool, CultCacheError>,
) -> bool {
    carries_out(
        compaction_refusal(expected, replacements, deletions),
        then_verdict(
            snapshot_verdict(before, decode, expected),
            absent_verdict(before, decode, ids_of(expected), replacements),
        ),
        before,
        with_rows(without_ids(before, ids_of(deletions)), replacements),
        after,
        ids_of(deletions).union(ids_of(replacements)),
        replacements,
        done,
    )
}

/// Putting a row in a table under its identity may come to `done`.
pub open spec fn table_pushes(
    before: Map<Seq<u8>, Seq<u8>>,
    entry: EnvelopeView,
    after: Map<Seq<u8>, Seq<u8>>,
    done: Result<(), FailureView>,
) -> bool {
    match done {
        Ok(_) => {
            &&& after == before.insert(packed_identity(entry.id()), packed_row(entry))
            &&& packs_whole(seq![entry])
        },
        Err(e) => machine_failure(e, set![entry.id()], seq![entry]),
    }
}

/// Taking the row under the identity of `entry` out of a table may come to `done`.
pub open spec fn table_deletes(
    before: Map<Seq<u8>, Seq<u8>>,
    entry: EnvelopeView,
    after: Map<Seq<u8>, Seq<u8>>,
    done: Result<(), FailureView>,
) -> bool {
    match done {
        Ok(_) => after == before.remove(packed_identity(entry.id())),
        Err(e) => key_failure(e, set![entry.id()]),
    }
}

/// Replacing all rows of a table may come to `done`.
pub open spec fn table_replaces_all(
    before: Map<Seq<u8>, Seq<u8>>,
    entries: Seq<EnvelopeView>,
    after: Map<Seq<u8>, Seq<u8>>,
    done: Result<(), FailureView>,
) -> bool {
    match done {
        Ok(_) => {
            &&& unique_ids(entries)
            &&& after == with_rows(Map::empty(), entries)
            &&& packs_whole(entries)
        },
        Err(e) => if unique_ids(entries) {
            machine_failure(e, ids_of(entries), entries)
        } else {
            &&& e == (FailureView::DuplicateIdentities { rows: BatchRows::PushAll })
            &&& after == before
        },
    }
}

/// Why the replacement of one row is refused outright, if it is.
pub open spec fn swap_entry_refusal(expected: EnvelopeView, replacement: EnvelopeView) -> Option<
    FailureView,
> {
    if expected.id() != replacement.id() {
        Some(Failure::IdentityChanged)
    } else {
        None
    }
}

/// Checks the replacement of one row.
pub fn check_swap_entry(expected: &CultCacheEnvelope, replacement: &CultCacheEnvelope) -> (checked:
    Result<(), CultCacheError>)
    ensures
        match checked {
            Ok(_) => swap_entry_refusal(expected@, replacement@) is None,
            Err(e) => swap_entry_refusal(expected@, replacement@) == Some(e@),
        },
{
    if same_identity(expected, replacement) {
        Ok(())
    } else {
        Err(Failure::IdentityChanged)
    }
}

/// Whether the rows of the table are exactly `expected` and none has an identity of `added`, or
/// the first row that cannot be read.
pub open spec fn append_verdict<D: Fn(&Vec<u8>) -> Result<CultCacheEnvelope, String>>(
    held: Map<Seq<u8>, Seq<u8>>,
    decode: D,
    expected: Seq<EnvelopeView>,
    added: Seq<EnvelopeView>,
) -> Result<bool, FailureView> {
    match rows_listed(listing_of(held), decode) {
        Ok(rows) => Ok(same_rows(rows, expected) && ids_of(rows).disjoint(ids_of(added))),
        Err(e) => Err(e),
    }
}

/// Sorting rows keeps their identities.
proof fn lemma_sorted_ids(rows: Seq<EnvelopeView>, sorted: Seq<EnvelopeView>)
    requires
        sorts_to(rows, sorted),
    ensures
        ids_of(sorted) == ids_of(rows),
{
    assert forall|id: Identity| ids_of(sorted).contains(id) == ids_of(rows).contains(id) by {
        assert(rows_of(sorted, id) == rows_of(rows, id));
        lemma_rows_of_member(sorted, id);
        lemma_rows_of_member(rows, id);
    }
    assert(ids_of(sorted) =~= ids_of(rows));
}

/// Whether some row has an identity of `ids`.
fn any_row_in(rows: &Vec<CultCacheEnvelope>, ids: &IdentitySet) -> (any: bool)
    requires
        ids.wf(),
    ensures
        any == !ids_of(views(rows@)).disjoint(ids@.dom()),
{
    let ghost all = views(rows@);
    let mut i: usize = 0;
    while i < rows.len()
        invariant
            i <= rows.len(),
            ids.wf(),
            all == views(rows@),
            forall|j: int| 0 <= j < i ==> !ids@.dom().contains((#[trigger] all[j]).id()),
        decreases rows.len() - i,
    {
        if ids.contains(&entry_id(&rows[i])) {
            proof {
                let id = all[i as int].id();
                assert(ids_of(all).contains(id) && ids@.dom().contains(id));
            }
            return true;
        }
        i = i + 1;
    }
    proof {
        assert forall|id: Identity| !(ids_of(all).contains(id) && ids@.dom().contains(id)) by {
            if ids_of(all).contains(id) {
                let j = choose|j: int| 0 <= j < all.len() && (#[trigger] all[j]).id() == id;
            }
        }
    }
    false
}

/// Replaces one exact row.
fn swap_entry<D: Fn(&Vec<u8>) -> Result<CultCacheEnvelope, String>>(
    table: &mut EnvelopeTable<'_>,
    expected: &CultCacheEnvelope,
    replacement: &CultCacheEnvelope,
    decode: &D,
) -> (swapped: Result<bool, CultCacheError>)
    requires
        decodes_rows(*decode),
    ensures
        table_swaps_entry(
            contents(*old(table)),
            *decode,
            expected@,
            replacement@,
            contents(*final(table)),
            swapped,
        ),
{
    check_swap_entry(expected, replacement)?;
    proof {
        let held = contents(*table);
        assert(seq![expected@].drop_last() =~= Seq::<EnvelopeView>::empty());
        assert(seq![replacement@].drop_last() =~= Seq::<EnvelopeView>::empty());
        reveal_with_fuel(expected_verdict, 2);
        reveal_with_fuel(with_rows, 2);
    }
    match read_redb_entry(table, expected, decode)? {
        None => Ok(false),
        Some(row) => {
            if !same_envelope(&row, expected) {
                return Ok(false);
            }
            insert_redb_entry(table, replacement)?;
            Ok(true)
        },
    }
}

/// Inserts one row where its identity is absent.
fn insert_absent(table: &mut EnvelopeTable<'_>, entry: &CultCacheEnvelope) -> (inserted: Result<
    bool,
    CultCacheError,
>)
    ensures
        table_inserts_absent(
            contents(*old(table)),
            entry@,
            contents(*final(table)),
            inserted,
        ),
{
    proof {
        assert(seq![entry@].drop_last() =~= Seq::<EnvelopeView>::empty());
        reveal_with_fuel(with_rows, 2);
    }
    if holds_identity(table, entry)? {
        return Ok(false);
    }
    insert_redb_entry(table, entry)?;
    Ok(true)
}

/// Replaces an exact set of rows and inserts companions, all of it or nothing.
fn swap_batch<D: Fn(&Vec<u8>) -> Result<CultCacheEnvelope, String>>(
    table: &mut EnvelopeTable<'_>,
    expected: &[CultCacheEnvelope],
    replacements: &[CultCacheEnvelope],
    decode: &D,
) -> (swapped: Result<bool, CultCacheError>)
    requires
        decodes_rows(*decode),
    ensures
        table_swaps_batch(
            contents(*old(table)),
            *decode,
            views(expected@),
            views(replacements@),
            contents(*final(table)),
            swapped,
        ),
{
    let expected_ids = check_swap_batch(expected, replacements)?;
    if !rows_expected(table, expected, decode)? {
        return Ok(false);
    }
    if !rows_absent(table, &expected_ids, replacements, decode)? {
        return Ok(false);
    }
    insert_rows(table, replacements)?;
    Ok(true)
}

/// Appends companions where the rows are exactly the expected ones.
fn append_rows<D: Fn(&Vec<u8>) -> Result<CultCacheEnvelope, String>>(
    table: &mut EnvelopeTable<'_>,
    expected_snapshot: &[CultCacheEnvelope],
    additions: &[CultCacheEnvelope],
    decode: &D,
) -> (appended: Result<bool, CultCacheError>)
    requires
        decodes_rows(*decode),
    ensures
        table_appends(
            contents(*old(table)),
            *decode,
            views(expected_snapshot@),
            views(additions@),
            contents(*final(table)),
            appended,
        ),
{
    let addition_ids = check_append(expected_snapshot, additions)?;
    let current = read_all_redb(table, decode)?;
    proof {
        let rows = rows_listed(listing_of(contents(*table)), *decode)->Ok_0;
        lemma_sorted_same(rows, views(current@), views(expected_snapshot@));
        lemma_sorted_ids(rows, views(current@));
    }
    if !matches_snapshot(&current, expected_snapshot) || any_row_in(&current, &addition_ids) {
        return Ok(false);
    }
    insert_rows(table, additions)?;
    Ok(true)
}

/// Deletes an exact set of rows, all of it or nothing.
fn delete_batch<D: Fn(&Vec<u8>) -> Result<CultCacheEnvelope, String>>(
    table: &mut EnvelopeTable<'_>,
    expected: &[CultCacheEnvelope],
    decode: &D,
) -> (deleted: Result<bool, CultCacheError>)
    requires
        decodes_rows(*decode),
    ensures
        table_deletes_batch(
            contents(*old(table)),
            *decode,
            views(expected@),
            contents(*final(table)),
            deleted,
        ),
{
    let expected_ids = check_delete(expected)?;
    if !rows_expected(table, expected, decode)? {
        return Ok(false);
    }
    remove_ids(table, &expected_ids)?;
    Ok(true)
}

/// Replaces rows and appends companions where the rows are exactly the expected ones.
fn replace_rows<D: Fn(&Vec<u8>) -> Result<CultCacheEnvelope, String>>(
    table: &mut EnvelopeTable<'_>,
    expected_snapshot: &[CultCacheEnvelope],
    replacements: &[CultCacheEnvelope],
    decode: &D,
) -> (replaced: Result<bool, CultCacheError>)
    requires
        decodes_rows(*decode),
    ensures
        table_replaces(
            contents(*old(table)),
            *decode,
            views(expected_snapshot@),
            views(replacements@),
            contents(*final(table)),
            replaced,
        ),
{
    check_replace(expected_snapshot, replacements)?;
    if !rows_match(table, expected_snapshot, decode)? {
        return Ok(false);
    }
    insert_rows(table, replacements)?;
    Ok(true)
}

/// Replaces and deletes rows where the rows are exactly the expected ones.
fn compact<D: Fn(&Vec<u8>) -> Result<CultCacheEnvelope, String>>(
    table: &mut EnvelopeTable<'_>,
    expected_snapshot: &[CultCacheEnvelope],
    replacements: &[CultCacheEnvelope],
    deletions: &[CultCacheEnvelope],
    decode: &D,
) -> (compacted: Result<bool, CultCacheError>)
    requires
        decodes_rows(*decode),
    ensures
        table_compacts(
            contents(*old(table)),
            *decode,
            views(expected_snapshot@),
            views(replacements@),
            views(deletions@),
            contents(*final(table)),
            compacted,
        ),
{
    let ids = check_compaction(expected_snapshot, replacements, deletions)?;
    proof {
        let put = views(replacements@);
        let gone = ids_of(views(deletions@));
        let all = gone.union(ids_of(put));
        lemma_failure_of_more(ids_of(put), all, Seq::empty(), put);
        lemma_failure_of_more(ids_of(put), all, put, put);
        lemma_failure_of_more(gone, all, Seq::empty(), put);
        lemma_failure_of_more(Set::empty(), all, Seq::empty(), put);
    }
    if !rows_match(table, expected_snapshot, decode)? {
        return Ok(false);
    }
    if !rows_absent(table, &ids.expected, replacements, decode)? {
        return Ok(false);
    }
    remove_ids(table, &ids.deletions)?;
    insert_rows(table, replacements)?;
    Ok(true)
}

/// Replaces all rows by `entries`, which must not repeat an identity.
fn replace_all(table: &mut EnvelopeTable<'_>, entries: &[CultCacheEnvelope]) -> (done: Result<
    (),
    CultCacheError,
>)
    ensures
        table_replaces_all(
            contents(*old(table)),
            views(entries@),
            contents(*final(table)),
            outcome(done),
        ),
{
    unique_batch_ids(entries, BatchRows::PushAll)?;
    remove_all(table)?;
    insert_rows(table, entries)
}

/// A keyed store whose database is opened for each operation.
#[derive(Debug)]
pub struct RedbMessagePackBackingStore {
    path: std::path::PathBuf,
}

impl Clone for RedbMessagePackBackingStore {
    fn clone(&self) -> (copy: Self)
        ensures
            copy.at() == self.at(),
    {
        RedbMessagePackBackingStore { path: self.path.clone() }
    }
}

impl RedbMessagePackBackingStore {
    /// Where the store's file is.
    pub closed spec fn at(&self) -> std::path::PathBuf {
        self.path
    }

    /// The store in the file at `path`.
    pub fn new(path: std::path::PathBuf) -> (store: Self)
        ensures
            store.at() == path,
    {
        RedbMessagePackBackingStore { path }
    }

    /// Where the store's file is.
    pub fn path(&self) -> (path: &std::path::PathBuf)
        ensures
            *path == self.at(),
    {
        &self.path
    }

    /// Replaces one exact row by one of the same identity.
    pub fn compare_and_swap_entry<D: Fn(&Vec<u8>) -> Result<CultCacheEnvelope, String>>(
        &self,
        table: &mut EnvelopeTable<'_>,
        expected: &CultCacheEnvelope,
        replacement: CultCacheEnvelope,
        decode: &D,
    ) -> (swapped: Result<bool, CultCacheError>)
        requires
            decodes_rows(*decode),
        ensures
            table_swaps_entry(
                contents(*old(table)),
                *decode,
                expected@,
                replacement@,
                contents(*final(table)),
                swapped,
            ),
    {
        swap_entry(table, expected, &replacement, decode)
    }

    /// Inserts one row where its identity is absent.
    pub fn insert_entry_if_absent(
        &self,
        table: &mut EnvelopeTable<'_>,
        entry: CultCacheEnvelope,
    ) -> (inserted: Result<bool, CultCacheError>)
        ensures
            table_inserts_absent(
                contents(*old(table)),
                entry@,
                contents(*final(table)),
                inserted,
            ),
    {
        insert_absent(table, &entry)
    }

    /// Replaces an exact set of rows and inserts companions, all of it or nothing.
    pub fn compare_and_swap_batch<D: Fn(&Vec<u8>) -> Result<CultCacheEnvelope, String>>(
        &self,
        table: &mut EnvelopeTable<'_>,
        expected: &[CultCacheEnvelope],
        replacements: Vec<CultCacheEnvelope>,
        decode: &D,
    ) -> (swapped: Result<bool, CultCacheError>)
        requires
            decodes_rows(*decode),
        ensures
            table_swaps_batch(
                contents(*old(table)),
                *decode,
                views(expected@),
                views(replacements@),
                contents(*final(table)),
                swapped,
            ),
    {
        swap_batch(table, expected, replacements.as_slice(), decode)
    }

    /// Appends companions where the rows are exactly the expected ones.
    pub fn append_if_snapshot_unchanged<D: Fn(&Vec<u8>) -> Result<CultCacheEnvelope, String>>(
        &self,
        table: &mut EnvelopeTable<'_>,
        expected_snapshot: &[CultCacheEnvelope],
        additions: Vec<CultCacheEnvelope>,
        decode: &D,
    ) -> (appended: Result<bool, CultCacheError>)
        requires
            decodes_rows(*decode),
        ensures
            table_appends(
                contents(*old(table)),
                *decode,
                views(expected_snapshot@),
                views(additions@),
                contents(*final(table)),
                appended,
            ),
    {
        append_rows(table, expected_snapshot, additions.as_slice(), decode)
    }

    /// Replaces rows and appends companions where the rows are exactly the expected ones.
    pub fn replace_and_append_if_snapshot_unchanged<D: Fn(&Vec<u8>) -> Result<CultCacheEnvelope, String>>(
        &self,
        table: &mut EnvelopeTable<'_>,
        expected_snapshot: &[CultCacheEnvelope],
        replacements: Vec<CultCacheEnvelope>,
        decode: &D,
    ) -> (replaced: Result<bool, CultCacheError>)
        requires
            decodes_rows(*decode),
        ensures
            table_replaces(
                contents(*old(table)),
                *decode,
                views(expected_snapshot@),
                views(replacements@),
                contents(*final(table)),
                replaced,
            ),
    {
        replace_rows(table, expected_snapshot, replacements.as_slice(), decode)
    }

    /// Replaces and deletes rows where the rows are exactly the expected ones.
    pub fn replace_and_delete_if_snapshot_unchanged<D: Fn(&Vec<u8>) -> Result<CultCacheEnvelope, String>>(
        &self,
        table: &mut EnvelopeTable<'_>,
        expected_snapshot: &[CultCacheEnvelope],
        replacements: Vec<CultCacheEnvelope>,
        deletions: &[CultCacheEnvelope],
        decode: &D,
    ) -> (compacted: Result<bool, CultCacheError>)
        requires
            decodes_rows(*decode),
        ensures
            table_compacts(
                contents(*old(table)),
                *decode,
                views(expected_snapshot@),
                views(replacements@),
                views(deletions@),
                contents(*final(table)),
                compacted,
            ),
    {
        compact(table, expected_snapshot, replacements.as_slice(), deletions, decode)
    }

    /// Deletes an exact set of rows, all of it or nothing.
    pub fn delete_batch_if_unchanged<D: Fn(&Vec<u8>) -> Result<CultCacheEnvelope, String>>(
        &self,
        table: &mut EnvelopeTable<'_>,
        expected: &[CultCacheEnvelope],
        decode: &D,
    ) -> (deleted: Result<bool, CultCacheError>)
        requires
            decodes_rows(*decode),
        ensures
            table_deletes_batch(
                contents(*old(table)),
                *decode,
                views(expected@),
                contents(*final(table)),
                deleted,
            ),
    {
        delete_batch(table, expected, decode)
    }

    /// Puts a row under its identity.
    pub fn push(&self, table: &mut EnvelopeTable<'_>, entry: &CultCacheEnvelope) -> (done: Result<
        (),
        CultCacheError,
    >)
        ensures
            table_pushes(
                contents(*old(table)),
                entry@,
                contents(*final(table)),
                outcome(done),
            ),
    {
        insert_redb_entry(table, entry)
    }

    /// Takes the row under the identity of `entry` out.
    pub fn delete(&self, table: &mut EnvelopeTable<'_>, entry: &CultCacheEnvelope) -> (done: Result<
        (),
        CultCacheError,
    >)
        ensures
            table_deletes(
                contents(*old(table)),
                entry@,
                contents(*final(table)),
                outcome(done),
            ),
    {
        remove_redb_entry(table, entry)
    }

    /// Replaces all rows by `entries`, which must not repeat an identity.
    pub fn push_all(
        &self,
        table: &mut EnvelopeTable<'_>,
        entries: &[CultCacheEnvelope],
    ) -> (done: Result<(), CultCacheError>)
        ensures
            table_replaces_all(
                contents(*old(table)),
                views(entries@),
                contents(*final(table)),
                outcome(done),
            ),
    {
        replace_all(table, entries)
    }

    /// The rows of the table's pairs, in the order of their identities.
    pub fn pull_all<D: Fn(&Vec<u8>) -> Result<CultCacheEnvelope, String>>(
        &self,
        pairs: Vec<(Vec<u8>, Vec<u8>)>,
        decode: &D,
    ) -> (rows: Result<Vec<CultCacheEnvelope>, CultCacheError>)
        requires
            decodes_rows(*decode),
        ensures
            reads_listing(listing_view(pairs@), *decode, rows_outcome(rows)),
    {
        read_pairs(pairs, decode)
    }
}

/// A keyed store of one long-lived owner, pinned to the file that it opened.
#[derive(Debug)]
pub struct OwnedRedbMessagePackBackingStore {
    path: std::path::PathBuf,
    file_identity: String,
}

impl Clone for OwnedRedbMessagePackBackingStore {
    fn clone(&self) -> (copy: Self)
        ensures
            copy.at() == self.at(),
            copy.pinned() == self.pinned(),
    {
        OwnedRedbMessagePackBackingStore {
            path: self.path.clone(),
            file_identity: self.file_identity.clone(),
        }
    }
}

impl OwnedRedbMessagePackBackingStore {
    /// Where the store's file was opened.
    pub closed spec fn at(&self) -> std::path::PathBuf {
        self.path
    }

    /// The identity of the file that the store is pinned to.
    pub closed spec fn pinned(&self) -> Seq<char> {
        self.file_identity@
    }

    /// The store at `path`, pinned to the file of the identity `held_identity`, where `path` still
    /// names that file.
    pub fn new(path: std::path::PathBuf, held_identity: String, path_identity: String) -> (store:
        Result<Self, CultCacheError>)
        ensures
            match store {
                Ok(s) => {
                    &&& held_identity@ == path_identity@
                    &&& s.at() == path
                    &&& s.pinned() == held_identity@
                },
                Err(e) => held_identity@ != path_identity@ && e@ == (
                FailureView::FileIdentityChanged { held: held_identity@, path: path_identity@ }),
            },
    {
        if !same_text(held_identity.as_str(), path_identity.as_str()) {
            return Err(
                Failure::FileIdentityChanged { held: held_identity, path: path_identity },
            );
        }
        Ok(OwnedRedbMessagePackBackingStore { path, file_identity: held_identity })
    }

    /// Where the store's file was opened.
    pub fn path(&self) -> (path: &std::path::PathBuf)
        ensures
            *path == self.at(),
    {
        &self.path
    }

    /// The identity of the file that the store is pinned to.
    pub fn file_identity(&self) -> (identity: &str)
        ensures
            identity@ == self.pinned(),
    {
        self.file_identity.as_str()
    }

    /// Fails where the store is pinned to another file than the one of the identity `expected`.
    pub fn require_file_identity(&self, expected: &str) -> (same: Result<(), CultCacheError>)
        ensures
            match same {
                Ok(_) => expected@ == self.pinned(),
                Err(e) => expected@ != self.pinned() && e@ == (FailureView::FileIdentityMismatch {
                    expected: expected@,
                    owned: self.pinned(),
                }),
            },
    {
        if !same_text(expected, self.file_identity.as_str()) {
            return Err(
                Failure::FileIdentityMismatch {
                    expected: expected.to_owned(),
                    owned: self.file_identity.clone(),
                },
            );
        }
        Ok(())
    }

    /// Fails where the file that the store's path names now, of the identity `current`, is not
    /// the file that the store is pinned to.
    pub fn validate_path_identity(&self, current: &str) -> (same: Result<(), CultCacheError>)
        ensures
            match same {
                Ok(_) => current@ == self.pinned(),
                Err(e) => current@ != self.pinned() && e@ == (FailureView::FileIdentityMismatch {
                    expected: current@,
                    owned: self.pinned(),
                }),
            },
    {
        self.require_file_identity(current)
    }

    /// Replaces one exact row by one of the same identity.
    pub fn compare_and_swap_entry<D: Fn(&Vec<u8>) -> Result<CultCacheEnvelope, String>>(
        &self,
        table: &mut EnvelopeTable<'_>,
        expected: &CultCacheEnvelope,
        replacement: CultCacheEnvelope,
        decode: &D,
    ) -> (swapped: Result<bool, CultCacheError>)
        requires
            decodes_rows(*decode),
        ensures
            table_swaps_entry(
                contents(*old(table)),
                *decode,
                expected@,
                replacement@,
                contents(*final(table)),
                swapped,
            ),
    {
        swap_entry(table, expected, &replacement, decode)
    }

    /// Inserts one row where its identity is absent.
    pub fn insert_entry_if_absent(
        &self,
        table: &mut EnvelopeTable<'_>,
        entry: CultCacheEnvelope,
    ) -> (inserted: Result<bool, CultCacheError>)
        ensures
            table_inserts_absent(
                contents(*old(table)),
                entry@,
                contents(*final(table)),
                inserted,
            ),
    {
        insert_absent(table, &entry)
    }

    /// Replaces an exact set of rows and inserts companions, all of it or nothing.
    pub fn compare_and_swap_batch<D: Fn(&Vec<u8>) -> Result<CultCacheEnvelope, String>>(
        &self,
        table: &mut EnvelopeTable<'_>,
        expected: &[CultCacheEnvelope],
        replacements: Vec<CultCacheEnvelope>,
        decode: &D,
    ) -> (swapped: Result<bool, CultCacheError>)
        requires
            decodes_rows(*decode),
        ensures
            table_swaps_batch(
                contents(*old(table)),
                *decode,
                views(expected@),
                views(replacements@),
                contents(*final(table)),
                swapped,
            ),
    {
        swap_batch(table, expected, replacements.as_slice(), decode)
    }

    /// Appends companions where the rows are exactly the expected ones.
    pub fn append_if_snapshot_unchanged<D: Fn(&Vec<u8>) -> Result<CultCacheEnvelope, String>>(
        &self,
        table: &mut EnvelopeTable<'_>,
        expected_snapshot: &[CultCacheEnvelope],
        additions: Vec<CultCacheEnvelope>,
        decode: &D,
    ) -> (appended: Result<bool, CultCacheError>)
        requires
            decodes_rows(*decode),
        ensures
            table_appends(
                contents(*old(table)),
                *decode,
                views(expected_snapshot@),
                views(additions@),
                contents(*final(table)),
                appended,
            ),
    {
        append_rows(table, expected_snapshot, additions.as_slice(), decode)
    }

    /// Replaces rows and appends companions where the rows are exactly the expected ones.
    pub fn replace_and_append_if_snapshot_unchanged<D: Fn(&Vec<u8>) -> Result<CultCacheEnvelope, String>>(
        &self,
        table: &mut EnvelopeTable<'_>,
        expected_snapshot: &[CultCacheEnvelope],
        replacements: Vec<CultCacheEnvelope>,
        decode: &D,
    ) -> (replaced: Result<bool, CultCacheError>)
        requires
            decodes_rows(*decode),
        ensures
            table_replaces(
                contents(*old(table)),
                *decode,
                views(expected_snapshot@),
                views(replacements@),
                contents(*final(table)),
                replaced,
            ),
    {
        replace_rows(table, expected_snapshot, replacements.as_slice(), decode)
    }

    /// Replaces and deletes rows where the rows are exactly the expected ones.
    pub fn replace_and_delete_if_snapshot_unchanged<D: Fn(&Vec<u8>) -> Result<CultCacheEnvelope, String>>(
        &self,
        table: &mut EnvelopeTable<'_>,
        expected_snapshot: &[CultCacheEnvelope],
        replacements: Vec<CultCacheEnvelope>,
        deletions: &[CultCacheEnvelope],
        decode: &D,
    ) -> (compacted: Result<bool, CultCacheError>)
        requires
            decodes_rows(*decode),
        ensures
            table_compacts(
                contents(*old(table)),
                *decode,
                views(expected_snapshot@),
                views(replacements@),
                views(deletions@),
                contents(*final(table)),
                compacted,
            ),
    {
        compact(table, expected_snapshot, replacements.as_slice(), deletions, decode)
    }

    /// Deletes an exact set of rows, all of it or nothing.
    pub fn delete_batch_if_unchanged<D: Fn(&Vec<u8>) -> Result<CultCacheEnvelope, String>>(
        &self,
        table: &mut EnvelopeTable<'_>,
        expected: &[CultCacheEnvelope],
        decode: &D,
    ) -> (deleted: Result<bool, CultCacheError>)
        requires
            decodes_rows(*decode),
        ensures
            table_deletes_batch(
                contents(*old(table)),
                *decode,
                views(expected@),
                contents(*final(table)),
                deleted,
            ),
    {
        delete_batch(table, expected, decode)
    }

    /// Puts a row under its identity.
    pub fn push(&self, table: &mut EnvelopeTable<'_>, entry: &CultCacheEnvelope) -> (done: Result<
        (),
        CultCacheError,
    >)
        ensures
            table_pushes(
                contents(*old(table)),
                entry@,
                contents(*final(table)),
                outcome(done),
            ),
    {
        insert_redb_entry(table, entry)
    }

    /// Takes the row under the identity of `entry` out.
    pub fn delete(&self, table: &mut EnvelopeTable<'_>, entry: &CultCacheEnvelope) -> (done: Result<
        (),
        CultCacheError,
    >)
        ensures
            table_deletes(
                contents(*old(table)),
                entry@,
                contents(*final(table)),
                outcome(done),
            ),
    {
        remove_redb_entry(table, entry)
    }

    /// Replaces all rows by `entries`, which must not repeat an identity.
    pub fn push_all(
        &self,
        table: &mut EnvelopeTable<'_>,
        entries: &[CultCacheEnvelope],
    ) -> (done: Result<(), CultCacheError>)
        ensures
            table_replaces_all(
                contents(*old(table)),
                views(entries@),
                contents(*final(table)),
                outcome(done),
            ),
    {
        replace_all(table, entries)
    }

    /// The rows of the table's pairs, in the order of their identities.
    pub fn pull_all<D: Fn(&Vec<u8>) -> Result<CultCacheEnvelope, String>>(
        &self,
        pairs: Vec<(Vec<u8>, Vec<u8>)>,
        decode: &D,
    ) -> (rows: Result<Vec<CultCacheEnvelope>, CultCacheError>)
        requires
            decodes_rows(*decode),
        ensures
            reads_listing(listing_view(pairs@), *decode, rows_outcome(rows)),
    {
        read_pairs(pairs, decode)
    }
}

} // verus!

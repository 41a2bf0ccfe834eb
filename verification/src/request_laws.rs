//! What conditional requests owe, row by row: which are refused, which go through, and which rows
//! are there afterwards.

use crate::conditional::{
    append_refusal, compaction_refusal, delete_refusal, replace_refusal, swap_batch_refusal,
};
use crate::envelope::{EnvelopeView, Identity};
use crate::error::{BatchRows, FailureView};
use crate::keyed::swap_entry_refusal;
use crate::order::{lemma_text_total, text_before};
use crate::row_laws::{
    lemma_only_row, lemma_unique_by_identity, replacing_keeps_identities_apart,
    sorting_keeps_identities_apart,
};
use crate::rows::{
    first_at, has_id, holds_row, ids_of, lemma_rows_of_member, lemma_rows_of_none,
    lemma_rows_of_push, lemma_rows_outside_push, rows_of, rows_ordered, rows_outside, same_rows,
    sorts_to, unique_ids,
};
use crate::single_file::{
    all_current, appends, becomes, collides, compacts, deletes_batch, deletes_row, inserts_absent,
    replaces, stores_row, swaps_batch, swaps_entry,
};
use crate::store_laws::lemma_same_members;
use vstd::prelude::*;

verus! {

/// Some row of `rows` has the type and the key of `row`.
pub open spec fn names(rows: Seq<EnvelopeView>, row: EnvelopeView) -> bool {
    exists|i: int|
        0 <= i < rows.len() && (#[trigger] rows[i]).entry_type == row.entry_type && rows[i].key
            == row.key
}

/// Two rows of `rows` have one type and one key.
pub open spec fn repeats(rows: Seq<EnvelopeView>) -> bool {
    exists|i: int, j: int|
        0 <= i < j < rows.len() && (#[trigger] rows[i]).entry_type == (
        #[trigger] rows[j]).entry_type && rows[i].key == rows[j].key
}

/// Every row of `some` has the type and the key of a row of `rows`.
pub open spec fn all_named(some: Seq<EnvelopeView>, rows: Seq<EnvelopeView>) -> bool {
    forall|i: int| 0 <= i < some.len() ==> names(rows, #[trigger] some[i])
}

/// No row of `some` has the type and the key of a row of `rows`.
pub open spec fn none_named(some: Seq<EnvelopeView>, rows: Seq<EnvelopeView>) -> bool {
    forall|i: int| 0 <= i < some.len() ==> !names(rows, #[trigger] some[i])
}

/// Every row of `some` is a row of `rows`, exactly.
pub open spec fn all_held(some: Seq<EnvelopeView>, rows: Seq<EnvelopeView>) -> bool {
    forall|i: int| 0 <= i < some.len() ==> rows.contains(#[trigger] some[i])
}

/// The first row of `rows` with the type and the key of `row` is `row`, exactly.
pub open spec fn comes_first(rows: Seq<EnvelopeView>, row: EnvelopeView) -> bool {
    exists|i: int|
        0 <= i < rows.len() && #[trigger] rows[i] == row && forall|j: int|
            0 <= j < i ==> (#[trigger] rows[j]).entry_type != row.entry_type || rows[j].key
                != row.key
}

/// Every row of `some` is the first row of `rows` with its type and key.
pub open spec fn all_come_first(some: Seq<EnvelopeView>, rows: Seq<EnvelopeView>) -> bool {
    forall|i: int| 0 <= i < some.len() ==> comes_first(rows, #[trigger] some[i])
}

/// `a` and `b` have exactly the same rows, in whatever order.
pub open spec fn same_members(a: Seq<EnvelopeView>, b: Seq<EnvelopeView>) -> bool {
    all_held(a, b) && all_held(b, a)
}

/// The rows stand in the order of their types, and those of one type in the order of their keys.
pub open spec fn in_order(rows: Seq<EnvelopeView>) -> bool {
    forall|i: int, j: int|
        0 <= i < j < rows.len() ==> {
            ||| text_before((#[trigger] rows[i]).entry_type, (#[trigger] rows[j]).entry_type)
            ||| rows[i].entry_type == rows[j].entry_type && (rows[i].key == rows[j].key
                || text_before(rows[i].key, rows[j].key))
        }
}

/// Two rows are of one identity exactly where they have one type and one key.
pub proof fn identity_is_type_and_key(a: EnvelopeView, b: EnvelopeView)
    ensures
        a.id() == b.id() <==> a.entry_type == b.entry_type && a.key == b.key,
{
}

proof fn lemma_names(rows: Seq<EnvelopeView>, row: EnvelopeView)
    ensures
        names(rows, row) == has_id(rows, row.id()),
        names(rows, row) == ids_of(rows).contains(row.id()),
{
    if has_id(rows, row.id()) {
        let i = choose|i: int| 0 <= i < rows.len() && (#[trigger] rows[i]).id() == row.id();
        assert(rows[i].entry_type == row.entry_type);
    }
    if names(rows, row) {
        let i = choose|i: int|
            0 <= i < rows.len() && (#[trigger] rows[i]).entry_type == row.entry_type && rows[i].key
                == row.key;
        assert(rows[i].id() == row.id());
    }
}

proof fn lemma_repeats(rows: Seq<EnvelopeView>)
    ensures
        repeats(rows) == !unique_ids(rows),
{
    if !unique_ids(rows) {
        let (i, j) = choose|i: int, j: int|
            0 <= i < j < rows.len() && (#[trigger] rows[i]).id() == (#[trigger] rows[j]).id();
        assert(rows[i].entry_type == rows[j].entry_type && rows[i].key == rows[j].key);
    }
    if repeats(rows) {
        let (i, j) = choose|i: int, j: int|
            0 <= i < j < rows.len() && (#[trigger] rows[i]).entry_type == (
            #[trigger] rows[j]).entry_type && rows[i].key == rows[j].key;
        assert(rows[i].id() == rows[j].id());
    }
}

/// Naming in terms of the sets of identities.
pub proof fn lemma_all_named(some: Seq<EnvelopeView>, rows: Seq<EnvelopeView>)
    ensures
        all_named(some, rows) == ids_of(some).subset_of(ids_of(rows)),
        none_named(some, rows) == ids_of(some).disjoint(ids_of(rows)),
        none_named(some, rows) == ids_of(rows).disjoint(ids_of(some)),
{
    if all_named(some, rows) {
        assert forall|id: Identity| ids_of(some).contains(id) implies ids_of(rows).contains(
            id,
        ) by {
            let i = choose|i: int| 0 <= i < some.len() && (#[trigger] some[i]).id() == id;
            lemma_names(rows, some[i]);
        }
    }
    if ids_of(some).subset_of(ids_of(rows)) {
        assert forall|i: int| 0 <= i < some.len() implies names(rows, #[trigger] some[i]) by {
            assert(has_id(some, some[i].id()));
            assert(ids_of(some).contains(some[i].id()));
            lemma_names(rows, some[i]);
        }
    }
    if none_named(some, rows) {
        assert forall|id: Identity| !(ids_of(some).contains(id) && ids_of(rows).contains(id)) by {
            if ids_of(some).contains(id) {
                let i = choose|i: int| 0 <= i < some.len() && (#[trigger] some[i]).id() == id;
                lemma_names(rows, some[i]);
            }
        }
    }
    if !none_named(some, rows) {
        let i = choose|i: int| 0 <= i < some.len() && names(rows, #[trigger] some[i]);
        lemma_names(rows, some[i]);
        assert(has_id(some, some[i].id()));
        assert(ids_of(some).contains(some[i].id()));
    }
}

/// A batch of replacements is refused exactly where there are none, where the expected rows or the
/// replacements repeat a type and key, or where an expected row has no replacement; the first of
/// these is the reason.
pub proof fn swap_batches_are_refused_exactly(
    expected: Seq<EnvelopeView>,
    replacements: Seq<EnvelopeView>,
)
    ensures
        swap_batch_refusal(expected, replacements) is None <==> replacements.len() > 0 && !repeats(
            expected,
        ) && !repeats(replacements) && all_named(expected, replacements),
        replacements.len() == 0 ==> swap_batch_refusal(expected, replacements) == Some(
            FailureView::ReplacementsEmpty,
        ),
        replacements.len() > 0 && repeats(expected) ==> swap_batch_refusal(expected, replacements)
            == Some(FailureView::DuplicateIdentities { rows: BatchRows::Expected }),
        replacements.len() > 0 && !repeats(expected) && repeats(replacements)
            ==> swap_batch_refusal(expected, replacements) == Some(
            FailureView::DuplicateIdentities { rows: BatchRows::Replacement },
        ),
        replacements.len() > 0 && !repeats(expected) && !repeats(replacements) && !all_named(
            expected,
            replacements,
        ) ==> swap_batch_refusal(expected, replacements) == Some(FailureView::ExpectedNotReplaced),
{
    lemma_repeats(expected);
    lemma_repeats(replacements);
    lemma_all_named(expected, replacements);
}

/// An append is refused exactly where there is nothing to append, or where the expected rows or the
/// additions repeat a type and key; the first of these is the reason.
pub proof fn appends_are_refused_exactly(
    expected: Seq<EnvelopeView>,
    additions: Seq<EnvelopeView>,
)
    ensures
        append_refusal(expected, additions) is None <==> additions.len() > 0 && !repeats(expected)
            && !repeats(additions),
        additions.len() == 0 ==> append_refusal(expected, additions) == Some(
            FailureView::AdditionsEmpty,
        ),
        additions.len() > 0 && repeats(expected) ==> append_refusal(expected, additions) == Some(
            FailureView::DuplicateIdentities { rows: BatchRows::ExpectedSnapshot },
        ),
        additions.len() > 0 && !repeats(expected) && repeats(additions) ==> append_refusal(
            expected,
            additions,
        ) == Some(FailureView::DuplicateIdentities { rows: BatchRows::SnapshotAdditions }),
{
    lemma_repeats(expected);
    lemma_repeats(additions);
}

/// A delete is refused exactly where nothing is expected, or where the expected rows repeat a type
/// and key.
pub proof fn deletes_are_refused_exactly(expected: Seq<EnvelopeView>)
    ensures
        delete_refusal(expected) is None <==> expected.len() > 0 && !repeats(expected),
        expected.len() == 0 ==> delete_refusal(expected) == Some(FailureView::ExpectedEmpty),
        expected.len() > 0 && repeats(expected) ==> delete_refusal(expected) == Some(
            FailureView::DuplicateIdentities { rows: BatchRows::DeleteExpected },
        ),
{
    lemma_repeats(expected);
}

/// A replacement within a snapshot is refused exactly where there is nothing to replace, or where
/// the expected rows or the replacements repeat a type and key; the first of these is the reason.
/// That a replacement is new to the snapshot is no reason.
pub proof fn replacements_are_refused_exactly(
    expected: Seq<EnvelopeView>,
    replacements: Seq<EnvelopeView>,
)
    ensures
        replace_refusal(expected, replacements) is None <==> replacements.len() > 0 && !repeats(
            expected,
        ) && !repeats(replacements),
        replacements.len() == 0 ==> replace_refusal(expected, replacements) == Some(
            FailureView::SnapshotReplacementsEmpty,
        ),
        replacements.len() > 0 && repeats(expected) ==> replace_refusal(expected, replacements)
            == Some(FailureView::DuplicateIdentities { rows: BatchRows::ExpectedSnapshot }),
        replacements.len() > 0 && !repeats(expected) && repeats(replacements) ==> replace_refusal(
            expected,
            replacements,
        ) == Some(FailureView::DuplicateIdentities { rows: BatchRows::SnapshotReplacements }),
{
    lemma_repeats(expected);
    lemma_repeats(replacements);
}

/// A compaction that can be carried out on an unchanged snapshot: there are replacements and
/// deletions, none of the three lists repeats a type and key, every deletion is expected, and none
/// is replaced as well. A replacement may be new to the snapshot.
pub open spec fn sound_compaction(
    expected: Seq<EnvelopeView>,
    replacements: Seq<EnvelopeView>,
    deletions: Seq<EnvelopeView>,
) -> bool {
    &&& replacements.len() > 0
    &&& deletions.len() > 0
    &&& !repeats(expected)
    &&& !repeats(replacements)
    &&& !repeats(deletions)
    &&& all_named(deletions, expected)
    &&& none_named(deletions, replacements)
}

/// A compaction is refused exactly where it is not sound, and the reason is a fault that it has.
pub proof fn compactions_are_refused_exactly(
    expected: Seq<EnvelopeView>,
    replacements: Seq<EnvelopeView>,
    deletions: Seq<EnvelopeView>,
)
    ensures
        compaction_refusal(expected, replacements, deletions) is None <==> sound_compaction(
            expected,
            replacements,
            deletions,
        ),
        replacements.len() == 0 || deletions.len() == 0 <==> compaction_refusal(
            expected,
            replacements,
            deletions,
        ) == Some(FailureView::CompactionEmpty),
        replacements.len() > 0 && deletions.len() > 0 && repeats(expected) ==> compaction_refusal(
            expected,
            replacements,
            deletions,
        ) == Some(FailureView::DuplicateIdentities { rows: BatchRows::ExpectedSnapshot }),
        replacements.len() > 0 && deletions.len() > 0 && !repeats(expected) && repeats(replacements)
            ==> compaction_refusal(expected, replacements, deletions) == Some(
            FailureView::DuplicateIdentities { rows: BatchRows::Replacement },
        ),
        replacements.len() > 0 && deletions.len() > 0 && !repeats(expected) && !repeats(
            replacements,
        ) && repeats(deletions) ==> compaction_refusal(expected, replacements, deletions) == Some(
            FailureView::DuplicateIdentities { rows: BatchRows::Deletion },
        ),
        compaction_refusal(expected, replacements, deletions) == Some(
            FailureView::DeletionUnexpected,
        ) ==> !all_named(deletions, expected),
        compaction_refusal(expected, replacements, deletions) == Some(
            FailureView::ReplacedAndDeleted,
        ) ==> !none_named(deletions, replacements) && all_named(deletions, expected),
{
    lemma_repeats(expected);
    lemma_repeats(replacements);
    lemma_repeats(deletions);
    lemma_all_named(deletions, expected);
    lemma_all_named(deletions, replacements);
}

/// The replacement of one row in a table is refused exactly where it has another type or key.
pub proof fn swaps_are_refused_exactly(expected: EnvelopeView, replacement: EnvelopeView)
    ensures
        swap_entry_refusal(expected, replacement) is None <==> expected.entry_type
            == replacement.entry_type && expected.key == replacement.key,
        swap_entry_refusal(expected, replacement) is Some ==> swap_entry_refusal(
            expected,
            replacement,
        ) == Some(FailureView::IdentityChanged),
{
}

/// A row is among rows exactly where it is among those of its identity.
pub proof fn lemma_member_of_identity(rows: Seq<EnvelopeView>, row: EnvelopeView)
    ensures
        rows.contains(row) <==> rows_of(rows, row.id()).contains(row),
    decreases rows.len(),
{
    lemma_rows_of_member(rows, row.id());
    if rows.contains(row) {
        let rest = rows.drop_last();
        let last = rows.last();
        assert(rows =~= rest.push(last));
        lemma_rows_of_push(rest, last, row.id());
        let k = choose|k: int| 0 <= k < rows.len() && rows[k] == row;
        if k < rest.len() {
            assert(rest[k] == row);
            lemma_member_of_identity(rest, row);
            let few = rows_of(rest, row.id());
            let m = choose|m: int| 0 <= m < few.len() && few[m] == row;
            assert(rows_of(rows, row.id())[m] == row);
        } else {
            let all = rows_of(rows, row.id());
            assert(all[all.len() - 1] == row);
        }
    }
    if rows_of(rows, row.id()).contains(row) {
        let all = rows_of(rows, row.id());
        let m = choose|m: int| 0 <= m < all.len() && all[m] == row;
        assert(rows.contains(all[m]));
    }
}

/// The rows that are kept are those outside `ids`.
pub proof fn lemma_member_outside(rows: Seq<EnvelopeView>, ids: Set<Identity>, row: EnvelopeView)
    ensures
        rows_outside(rows, ids).contains(row) <==> rows.contains(row) && !ids.contains(row.id()),
    decreases rows.len(),
{
    if rows.len() == 0 {
        reveal(Seq::filter);
        assert(rows_outside(rows, ids) =~= Seq::<EnvelopeView>::empty());
    } else {
        let rest = rows.drop_last();
        let last = rows.last();
        assert(rows =~= rest.push(last));
        lemma_member_outside(rest, ids, row);
        lemma_rows_outside_push(rest, last, ids);
        lemma_push_member(rest, last, row);
        lemma_push_member(rows_outside(rest, ids), last, row);
    }
}

proof fn lemma_push_member(rows: Seq<EnvelopeView>, last: EnvelopeView, row: EnvelopeView)
    ensures
        rows.push(last).contains(row) <==> rows.contains(row) || row == last,
{
    let all = rows.push(last);
    if all.contains(row) {
        let k = choose|k: int| 0 <= k < all.len() && all[k] == row;
        if k < rows.len() {
            assert(rows[k] == row);
        }
    }
    if rows.contains(row) {
        let k = choose|k: int| 0 <= k < rows.len() && rows[k] == row;
        assert(all[k] == row);
    }
    assert(all[rows.len() as int] == last);
}

proof fn lemma_add_member(a: Seq<EnvelopeView>, b: Seq<EnvelopeView>, row: EnvelopeView)
    ensures
        (a + b).contains(row) <==> a.contains(row) || b.contains(row),
{
    let all = a + b;
    if all.contains(row) {
        let k = choose|k: int| 0 <= k < all.len() && all[k] == row;
        if k < a.len() {
            assert(a[k] == row);
        } else {
            assert(b[k - a.len()] == row);
        }
    }
    if a.contains(row) {
        let k = choose|k: int| 0 <= k < a.len() && a[k] == row;
        assert(all[k] == row);
    }
    if b.contains(row) {
        let k = choose|k: int| 0 <= k < b.len() && b[k] == row;
        assert(all[a.len() + k] == row);
    }
}

/// Sorting rows keeps exactly the rows there are, and puts them in order.
pub proof fn sorted_rows_are_the_same_rows(
    rows: Seq<EnvelopeView>,
    sorted: Seq<EnvelopeView>,
    row: EnvelopeView,
)
    requires
        sorts_to(rows, sorted),
    ensures
        sorted.contains(row) <==> rows.contains(row),
        in_order(sorted),
{
    assert(rows_of(sorted, row.id()) == rows_of(rows, row.id()));
    lemma_member_of_identity(sorted, row);
    lemma_member_of_identity(rows, row);
    lemma_in_order(sorted);
}

proof fn lemma_in_order(rows: Seq<EnvelopeView>)
    requires
        rows_ordered(rows),
    ensures
        in_order(rows),
{
    assert forall|i: int, j: int| 0 <= i < j < rows.len() implies {
        ||| text_before((#[trigger] rows[i]).entry_type, (#[trigger] rows[j]).entry_type)
        ||| rows[i].entry_type == rows[j].entry_type && (rows[i].key == rows[j].key || text_before(
            rows[i].key,
            rows[j].key,
        ))
    } by {
        assert(!crate::order::pair_before(rows[j].id(), rows[i].id()));
        lemma_text_total(rows[i].entry_type, rows[j].entry_type);
        lemma_text_total(rows[i].key, rows[j].key);
    }
}

/// The rows are those of a snapshot that repeats no type and key exactly where they repeat none
/// either and both have the same rows.
pub proof fn snapshot_is_unchanged_where_the_rows_are(
    rows: Seq<EnvelopeView>,
    expected: Seq<EnvelopeView>,
)
    requires
        !repeats(expected),
    ensures
        same_rows(rows, expected) <==> !repeats(rows) && same_members(rows, expected),
{
    lemma_repeats(rows);
    lemma_repeats(expected);
    if same_rows(rows, expected) {
        lemma_unique_by_identity(rows);
        lemma_unique_by_identity(expected);
        assert forall|id: Identity| (#[trigger] rows_of(rows, id)).len() <= 1 by {
            assert(rows_of(rows, id) == rows_of(expected, id));
        }
        lemma_same_held(rows, expected);
        assert(same_rows(expected, rows)) by {
            assert forall|id: Identity| #[trigger] rows_of(expected, id) == rows_of(rows, id) by {
                assert(rows_of(rows, id) == rows_of(expected, id));
            }
        }
        lemma_same_held(expected, rows);
    }
    if !repeats(rows) && same_members(rows, expected) {
        assert forall|id: Identity| #[trigger] rows_of(rows, id) == rows_of(expected, id) by {
            if has_id(rows, id) {
                let i = choose|i: int| 0 <= i < rows.len() && (#[trigger] rows[i]).id() == id;
                assert(expected.contains(rows[i]));
                let j = choose|j: int| 0 <= j < expected.len() && expected[j] == rows[i];
                lemma_only_row(rows, i);
                lemma_only_row(expected, j);
            } else {
                if has_id(expected, id) {
                    let j = choose|j: int|
                        0 <= j < expected.len() && (#[trigger] expected[j]).id() == id;
                    assert(rows.contains(expected[j]));
                    let i = choose|i: int| 0 <= i < rows.len() && rows[i] == expected[j];
                    assert(rows[i].id() == id);
                }
                lemma_rows_of_none(rows, id);
                lemma_rows_of_none(expected, id);
            }
        }
    }
}

proof fn lemma_same_held(a: Seq<EnvelopeView>, b: Seq<EnvelopeView>)
    requires
        same_rows(a, b),
    ensures
        all_held(a, b),
{
    assert forall|i: int| 0 <= i < a.len() implies b.contains(#[trigger] a[i]) by {
        assert(a.contains(a[i]));
        assert(rows_of(a, a[i].id()) == rows_of(b, a[i].id()));
        lemma_member_of_identity(a, a[i]);
        lemma_member_of_identity(b, a[i]);
    }
}

/// A row is current exactly where it comes first.
proof fn lemma_current(rows: Seq<EnvelopeView>, expected: Seq<EnvelopeView>)
    ensures
        all_current(rows, expected) == all_come_first(expected, rows),
        forall|row: EnvelopeView| #[trigger] holds_row(rows, row) == comes_first(rows, row),
{
    assert forall|row: EnvelopeView| #[trigger] holds_row(rows, row) == comes_first(rows, row) by {
        if comes_first(rows, row) {
            let i = choose|i: int|
                0 <= i < rows.len() && #[trigger] rows[i] == row && forall|j: int|
                    0 <= j < i ==> (#[trigger] rows[j]).entry_type != row.entry_type || rows[j].key
                        != row.key;
            assert(first_at(rows, row.id(), i));
        }
        if holds_row(rows, row) {
            let i = choose|i: int| #[trigger] first_at(rows, row.id(), i) && rows[i] == row;
            assert forall|j: int| 0 <= j < i implies (#[trigger] rows[j]).entry_type
                != row.entry_type || rows[j].key != row.key by {
                assert(rows[j].id() != row.id());
            }
            assert(rows[i] == row);
        }
    }
    if all_come_first(expected, rows) {
        assert forall|i: int| 0 <= i < expected.len() implies holds_row(
            rows,
            #[trigger] expected[i],
        ) by {
            assert(comes_first(rows, expected[i]));
        }
    }
    if all_current(rows, expected) {
        assert forall|i: int| 0 <= i < expected.len() implies comes_first(
            rows,
            #[trigger] expected[i],
        ) by {
            assert(holds_row(rows, expected[i]));
        }
    }
}

/// Where no type and key repeats, a row comes first exactly where it is among the rows.
pub proof fn lone_rows_come_first(rows: Seq<EnvelopeView>, row: EnvelopeView)
    requires
        !repeats(rows),
    ensures
        comes_first(rows, row) <==> rows.contains(row),
{
    if rows.contains(row) {
        let i = choose|i: int| 0 <= i < rows.len() && rows[i] == row;
        assert forall|j: int| 0 <= j < i implies (#[trigger] rows[j]).entry_type != row.entry_type
            || rows[j].key != row.key by {
            if rows[j].entry_type == row.entry_type && rows[j].key == row.key {
                assert(rows[j].entry_type == rows[i].entry_type);
            }
        }
        assert(rows[i] == row);
    }
}

/// Which rows are there where the rows of `ids` were replaced by `added`.
proof fn lemma_replaced_members(
    rows: Seq<EnvelopeView>,
    ids: Set<Identity>,
    added: Seq<EnvelopeView>,
    after: Seq<EnvelopeView>,
)
    requires
        sorts_to(rows_outside(rows, ids) + added, after),
    ensures
        forall|row: EnvelopeView| #[trigger]
            after.contains(row) <==> added.contains(row) || (rows.contains(row) && !ids.contains(
                row.id(),
            )),
        in_order(after),
{
    assert forall|row: EnvelopeView| #[trigger] after.contains(row) <==> added.contains(row) || (
    rows.contains(row) && !ids.contains(row.id())) by {
        sorted_rows_are_the_same_rows(rows_outside(rows, ids) + added, after, row);
        lemma_add_member(rows_outside(rows, ids), added, row);
        lemma_member_outside(rows, ids, row);
    }
    lemma_in_order(after);
}

/// A compaction is refused exactly where it is not sound, goes
/// through exactly where it is sound and the rows are those of the snapshot, and declines
/// otherwise. Where it goes through, the replacements are there, the deletions are not, and every
/// other row stays; where it does not, every row stays.
pub proof fn compaction_goes_through_exactly(
    rows: Seq<EnvelopeView>,
    expected: Seq<EnvelopeView>,
    replacements: Seq<EnvelopeView>,
    deletions: Seq<EnvelopeView>,
    after: Seq<EnvelopeView>,
    done: Result<bool, FailureView>,
)
    requires
        compacts(rows, expected, replacements, deletions, after, done),
    ensures
        done is Err <==> !sound_compaction(expected, replacements, deletions),
        done is Ok ==> (done->Ok_0 <==> !repeats(rows) && same_members(rows, expected)),
        done != Ok::<bool, FailureView>(true) ==> after == rows,
        done == Ok::<bool, FailureView>(true) ==> {
            &&& forall|row: EnvelopeView| #[trigger]
                after.contains(row) <==> replacements.contains(row) || (rows.contains(row)
                    && !names(replacements, row) && !names(deletions, row))
            &&& !repeats(after)
            &&& in_order(after)
        },
{
    compactions_are_refused_exactly(expected, replacements, deletions);
    if done is Ok {
        snapshot_is_unchanged_where_the_rows_are(rows, expected);
    }
    if done == Ok::<bool, FailureView>(true) {
        let ids = ids_of(deletions).union(ids_of(replacements));
        lemma_replaced_members(rows, ids, replacements, after);
        assert forall|row: EnvelopeView| #[trigger] after.contains(row) <==> replacements.contains(
            row,
        ) || (rows.contains(row) && !names(replacements, row) && !names(deletions, row)) by {
            lemma_names(replacements, row);
            lemma_names(deletions, row);
        }
        lemma_repeats(rows);
        lemma_repeats(replacements);
        lemma_repeats(after);
        replacing_keeps_identities_apart(rows, ids, replacements, after);
    }
}

/// A batch of replacements goes through exactly where it is not refused, every expected row comes
/// first among those of its type and key, and no replacement that is not expected meets a row of
/// its type and key. Where it goes through, the replacements are there and every other row stays;
/// where it does not, every row stays.
pub proof fn swap_batch_goes_through_exactly(
    rows: Seq<EnvelopeView>,
    expected: Seq<EnvelopeView>,
    replacements: Seq<EnvelopeView>,
    after: Seq<EnvelopeView>,
    done: Result<bool, FailureView>,
)
    requires
        swaps_batch(rows, expected, replacements, after, done),
    ensures
        done is Ok <==> replacements.len() > 0 && !repeats(expected) && !repeats(replacements)
            && all_named(expected, replacements),
        done is Ok ==> (done->Ok_0 <==> all_come_first(expected, rows) && forall|i: int|
            0 <= i < replacements.len() && names(rows, #[trigger] replacements[i]) ==> names(
                expected,
                replacements[i],
            )),
        done != Ok::<bool, FailureView>(true) ==> after == rows,
        done == Ok::<bool, FailureView>(true) ==> {
            &&& forall|row: EnvelopeView| #[trigger]
                after.contains(row) <==> replacements.contains(row) || (rows.contains(row)
                    && !names(replacements, row))
            &&& !repeats(rows) ==> !repeats(after)
            &&& in_order(after)
        },
{
    swap_batches_are_refused_exactly(expected, replacements);
    lemma_current(rows, expected);
    let ids = ids_of(expected);
    if collides(rows, ids, replacements) {
        let i = choose|i: int|
            0 <= i < replacements.len() && !ids.contains((#[trigger] replacements[i]).id())
                && has_id(rows, replacements[i].id());
        lemma_names(rows, replacements[i]);
        lemma_names(expected, replacements[i]);
        assert(names(rows, replacements[i]) && !names(expected, replacements[i]));
    } else {
        assert forall|i: int|
            0 <= i < replacements.len() && names(rows, #[trigger] replacements[i]) implies names(
            expected,
            replacements[i],
        ) by {
            lemma_names(rows, replacements[i]);
            lemma_names(expected, replacements[i]);
        }
    }
    if done == Ok::<bool, FailureView>(true) {
        lemma_replaced_members(rows, ids, replacements, after);
        lemma_all_named(expected, replacements);
        assert forall|row: EnvelopeView| #[trigger] after.contains(row) <==> replacements.contains(
            row,
        ) || (rows.contains(row) && !names(replacements, row)) by {
            lemma_names(expected, row);
            lemma_names(replacements, row);
            if rows.contains(row) && names(replacements, row) {
                let k = choose|k: int| 0 <= k < rows.len() && rows[k] == row;
                let i = choose|i: int|
                    0 <= i < replacements.len() && (#[trigger] replacements[i]).entry_type
                        == row.entry_type && replacements[i].key == row.key;
                assert(rows[k].entry_type == replacements[i].entry_type && rows[k].key
                    == replacements[i].key);
                assert(names(rows, replacements[i]));
                assert(names(expected, replacements[i]));
                lemma_names(expected, replacements[i]);
            }
        }
        lemma_repeats(rows);
        lemma_repeats(replacements);
        lemma_repeats(after);
        assert forall|id: Identity| #[trigger] has_id(rows, id) && !ids.contains(id) implies !has_id(
            replacements,
            id,
        ) by {
            if has_id(replacements, id) {
                let i = choose|i: int|
                    0 <= i < replacements.len() && (#[trigger] replacements[i]).id() == id;
                lemma_names(rows, replacements[i]);
                lemma_names(expected, replacements[i]);
            }
        }
        if !repeats(rows) {
            replacing_keeps_identities_apart(rows, ids, replacements, after);
        }
    }
}

/// An append goes through exactly where it is not refused, the
/// rows are those of the snapshot, and no addition meets a row of its type and key. Where it goes
/// through, the additions are there and every row stays; where it does not, nothing changes.
pub proof fn append_goes_through_exactly(
    rows: Seq<EnvelopeView>,
    expected: Seq<EnvelopeView>,
    additions: Seq<EnvelopeView>,
    after: Seq<EnvelopeView>,
    done: Result<bool, FailureView>,
)
    requires
        appends(rows, expected, additions, after, done),
    ensures
        done is Ok <==> additions.len() > 0 && !repeats(expected) && !repeats(additions),
        done is Ok ==> (done->Ok_0 <==> !repeats(rows) && same_members(rows, expected)
            && none_named(additions, rows)),
        done != Ok::<bool, FailureView>(true) ==> after == rows,
        done == Ok::<bool, FailureView>(true) ==> {
            &&& forall|row: EnvelopeView| #[trigger]
                after.contains(row) <==> additions.contains(row) || rows.contains(row)
            &&& !repeats(after)
            &&& in_order(after)
        },
{
    appends_are_refused_exactly(expected, additions);
    lemma_all_named(additions, rows);
    if done is Ok {
        snapshot_is_unchanged_where_the_rows_are(rows, expected);
    }
    if done == Ok::<bool, FailureView>(true) {
        let none = Set::<Identity>::empty();
        assert(rows_outside(rows, none) =~= rows) by {
            lemma_all_kept(rows);
        }
        lemma_replaced_members(rows, none, additions, after);
        lemma_repeats(rows);
        lemma_repeats(additions);
        lemma_repeats(after);
        assert forall|id: Identity| #[trigger] has_id(rows, id) && !none.contains(
            id,
        ) implies !has_id(additions, id) by {
            assert(ids_of(rows).contains(id));
            if has_id(additions, id) {
                assert(ids_of(additions).contains(id));
            }
        }
        replacing_keeps_identities_apart(rows, none, additions, after);
    }
}

proof fn lemma_all_kept(rows: Seq<EnvelopeView>)
    ensures
        rows_outside(rows, Set::empty()) == rows,
    decreases rows.len(),
{
    if rows.len() == 0 {
        reveal(Seq::filter);
        assert(rows_outside(rows, Set::empty()) =~= rows);
    } else {
        let rest = rows.drop_last();
        assert(rows =~= rest.push(rows.last()));
        lemma_all_kept(rest);
        lemma_rows_outside_push(rest, rows.last(), Set::empty());
    }
}

/// A delete goes through exactly where it is not refused and every expected row comes first among
/// those of its type and key. Where it goes through, the expected rows are gone and every other row
/// stays; where it does not, nothing changes.
pub proof fn delete_goes_through_exactly(
    rows: Seq<EnvelopeView>,
    expected: Seq<EnvelopeView>,
    after: Seq<EnvelopeView>,
    done: Result<bool, FailureView>,
)
    requires
        deletes_batch(rows, expected, after, done),
    ensures
        done is Ok <==> expected.len() > 0 && !repeats(expected),
        done is Ok ==> (done->Ok_0 <==> all_come_first(expected, rows)),
        done != Ok::<bool, FailureView>(true) ==> after == rows,
        done == Ok::<bool, FailureView>(true) ==> forall|row: EnvelopeView| #[trigger]
            after.contains(row) <==> rows.contains(row) && !names(expected, row),
{
    deletes_are_refused_exactly(expected);
    lemma_current(rows, expected);
    if done == Ok::<bool, FailureView>(true) {
        assert forall|row: EnvelopeView| #[trigger] after.contains(row) <==> rows.contains(row)
            && !names(expected, row) by {
            lemma_member_outside(rows, ids_of(expected), row);
            lemma_names(expected, row);
        }
    }
}

/// A replacement within a snapshot goes through exactly where
/// it is not refused and the rows are those of the snapshot. Where it goes through, the
/// replacements are there, new ones as well, and every other row stays; where it does not, nothing
/// changes.
pub proof fn replacement_goes_through_exactly(
    rows: Seq<EnvelopeView>,
    expected: Seq<EnvelopeView>,
    replacements: Seq<EnvelopeView>,
    after: Seq<EnvelopeView>,
    done: Result<bool, FailureView>,
)
    requires
        replaces(rows, expected, replacements, after, done),
    ensures
        done is Ok <==> replacements.len() > 0 && !repeats(expected) && !repeats(replacements),
        done is Ok ==> (done->Ok_0 <==> !repeats(rows) && same_members(rows, expected)),
        done != Ok::<bool, FailureView>(true) ==> after == rows,
        done == Ok::<bool, FailureView>(true) ==> {
            &&& forall|row: EnvelopeView| #[trigger]
                after.contains(row) <==> replacements.contains(row) || (rows.contains(row)
                    && !names(replacements, row))
            &&& !repeats(after)
            &&& in_order(after)
        },
{
    replacements_are_refused_exactly(expected, replacements);
    if done is Ok {
        snapshot_is_unchanged_where_the_rows_are(rows, expected);
    }
    if done == Ok::<bool, FailureView>(true) {
        let ids = ids_of(replacements);
        lemma_replaced_members(rows, ids, replacements, after);
        assert forall|row: EnvelopeView| #[trigger] after.contains(row) <==> replacements.contains(
            row,
        ) || (rows.contains(row) && !names(replacements, row)) by {
            lemma_names(replacements, row);
        }
        lemma_repeats(rows);
        lemma_repeats(replacements);
        lemma_repeats(after);
        replacing_keeps_identities_apart(rows, ids, replacements, after);
    }
}

/// Replacing one row goes through exactly where that row comes first among those of its type and
/// key. Where it goes through, the replacement stands in its place and every other row stays; where
/// it does not, nothing changes.
pub proof fn swap_goes_through_exactly(
    rows: Seq<EnvelopeView>,
    expected: EnvelopeView,
    replacement: EnvelopeView,
    after: Seq<EnvelopeView>,
    swapped: bool,
)
    requires
        swaps_entry(rows, expected, replacement, after, swapped),
    ensures
        swapped <==> comes_first(rows, expected),
        !swapped ==> after == rows,
        swapped ==> {
            &&& forall|row: EnvelopeView|
                row != expected ==> (#[trigger] after.contains(row) <==> row == replacement
                    || rows.contains(row))
            &&& !repeats(rows) && replacement != expected ==> !after.contains(expected)
            &&& after.len() == rows.len()
            &&& in_order(after)
        },
{
    lemma_current(rows, seq![expected]);
    if swapped {
        let i = choose|i: int| #[trigger]
            first_at(rows, expected.id(), i) && sorts_to(rows.update(i, replacement), after);
        let k = choose|k: int| #[trigger] first_at(rows, expected.id(), k) && rows[k] == expected;
        assert(i == k) by {
            if i < k {
                assert(rows[i].id() != expected.id());
            }
            if k < i {
                assert(rows[k].id() != expected.id());
            }
        }
        let changed = rows.update(i, replacement);
        assert forall|row: EnvelopeView| row != expected implies (#[trigger] after.contains(row)
            <==> row == replacement || rows.contains(row)) by {
            sorted_rows_are_the_same_rows(changed, after, row);
            if changed.contains(row) {
                let m = choose|m: int| 0 <= m < changed.len() && changed[m] == row;
                if m != i {
                    assert(rows[m] == row);
                }
            }
            if row == replacement {
                assert(changed[i] == row);
            } else if rows.contains(row) {
                let m = choose|m: int| 0 <= m < rows.len() && rows[m] == row;
                assert(changed[m] == row);
            }
        }
        if !repeats(rows) && replacement != expected {
            lemma_repeats(rows);
            sorted_rows_are_the_same_rows(changed, after, expected);
            if changed.contains(expected) {
                let m = choose|m: int| 0 <= m < changed.len() && changed[m] == expected;
                assert(rows[m] == expected);
                if m < i {
                    assert(rows[m].id() != rows[i].id());
                } else {
                    assert(rows[i].id() != rows[m].id());
                }
            }
        }
        lemma_same_members(after, changed);
        lemma_in_order(after);
    }
}

/// Inserting a row goes through exactly where no row has its type and key. Where it goes through,
/// the row is there and every other row stays; where it does not, nothing changes.
pub proof fn insert_goes_through_exactly(
    rows: Seq<EnvelopeView>,
    entry: EnvelopeView,
    after: Seq<EnvelopeView>,
    inserted: bool,
)
    requires
        inserts_absent(rows, entry, after, inserted),
    ensures
        inserted <==> !names(rows, entry),
        !inserted ==> after == rows,
        inserted ==> {
            &&& forall|row: EnvelopeView| #[trigger]
                after.contains(row) <==> row == entry || rows.contains(row)
            &&& in_order(after)
        },
        inserted && !repeats(rows) ==> !repeats(after),
{
    lemma_names(rows, entry);
    if inserted {
        assert forall|row: EnvelopeView| #[trigger] after.contains(row) <==> row == entry
            || rows.contains(row) by {
            sorted_rows_are_the_same_rows(rows.push(entry), after, row);
            lemma_push_member(rows, entry, row);
        }
        lemma_in_order(after);
        if !repeats(rows) {
            lemma_repeats(rows);
            lemma_repeats(after);
            let all = rows.push(entry);
            assert(unique_ids(all)) by {
                assert forall|i: int, j: int| 0 <= i < j < all.len() implies (
                #[trigger] all[i]).id() != (#[trigger] all[j]).id() by {
                    assert(all[i] == rows[i]);
                    if j < rows.len() {
                        assert(all[j] == rows[j]);
                    } else if rows[i].id() == entry.id() {
                        assert(has_id(rows, entry.id()));
                    }
                }
            }
            sorting_keeps_identities_apart(all, after);
        }
    }
}

/// Storing a row leaves it as the one row of its type and key, and every row of another type or
/// key.
pub proof fn stored_row_replaces_its_own(
    rows: Seq<EnvelopeView>,
    entry: EnvelopeView,
    after: Seq<EnvelopeView>,
)
    requires
        stores_row(rows, entry, after),
    ensures
        forall|row: EnvelopeView| #[trigger]
            after.contains(row) <==> row == entry || (rows.contains(row) && (row.entry_type
                != entry.entry_type || row.key != entry.key)),
        in_order(after),
        !repeats(rows) ==> !repeats(after),
{
    let ids = set![entry.id()];
    let one = seq![entry];
    assert(rows_outside(rows, ids) + one =~= rows_outside(rows, ids).push(entry));
    lemma_replaced_members(rows, ids, one, after);
    assert forall|row: EnvelopeView| #[trigger] after.contains(row) <==> row == entry || (
    rows.contains(row) && (row.entry_type != entry.entry_type || row.key != entry.key)) by {
        if one.contains(row) {
            let k = choose|k: int| 0 <= k < one.len() && one[k] == row;
        }
        assert(one[0] == entry);
    }
    if !repeats(rows) {
        lemma_repeats(rows);
        lemma_repeats(after);
        assert forall|id: Identity| #[trigger] has_id(rows, id) && !ids.contains(id) implies !has_id(
            one,
            id,
        ) by {
            if has_id(one, id) {
                let k = choose|k: int| 0 <= k < one.len() && (#[trigger] one[k]).id() == id;
            }
        }
        replacing_keeps_identities_apart(rows, ids, one, after);
    }
}

/// Deleting a row leaves no row of its type and key, and every other row.
pub proof fn deleted_row_leaves_the_others(
    rows: Seq<EnvelopeView>,
    entry: EnvelopeView,
    after: Seq<EnvelopeView>,
)
    requires
        deletes_row(rows, entry, after),
    ensures
        forall|row: EnvelopeView| #[trigger]
            after.contains(row) <==> rows.contains(row) && (row.entry_type != entry.entry_type
                || row.key != entry.key),
{
    assert forall|row: EnvelopeView| #[trigger] after.contains(row) <==> rows.contains(row) && (
    row.entry_type != entry.entry_type || row.key != entry.key) by {
        lemma_member_outside(rows, set![entry.id()], row);
    }
}

/// Replacing all rows leaves exactly the new ones, in order, whatever was there.
pub proof fn replaced_rows_are_the_new_ones(entries: Seq<EnvelopeView>, after: Seq<EnvelopeView>)
    requires
        becomes(entries, after),
    ensures
        forall|row: EnvelopeView| #[trigger] after.contains(row) <==> entries.contains(row),
        after.len() == entries.len(),
        in_order(after),
{
    assert forall|row: EnvelopeView| #[trigger] after.contains(row) <==> entries.contains(row) by {
        sorted_rows_are_the_same_rows(entries, after, row);
    }
    lemma_same_members(after, entries);
    lemma_in_order(after);
}

} // verus!

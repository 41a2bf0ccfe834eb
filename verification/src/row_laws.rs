//! What holds of a store's rows whatever is done to them.

use crate::conditional::swap_batch_refusal;
use crate::envelope::{EnvelopeView, Identity};
use crate::order::pair_before;
use crate::rows::{
    first_at, has_id, holds_row, ids_of, lemma_ordered_rows_unique, lemma_rows_of_add,
    lemma_rows_of_first, lemma_rows_of_member, lemma_rows_of_none, lemma_rows_of_push,
    lemma_rows_outside_push, rows_of, rows_ordered, rows_outside, same_rows, sorts_to, unique_ids,
};
use crate::single_file::{all_current, collides};
use vstd::prelude::*;

verus! {

/// Keeping the rows outside `ids` keeps the rows of every other identity.
pub proof fn lemma_rows_of_outside(rows: Seq<EnvelopeView>, ids: Set<Identity>, id: Identity)
    ensures
        rows_of(rows_outside(rows, ids), id) == if ids.contains(id) {
            Seq::empty()
        } else {
            rows_of(rows, id)
        },
    decreases rows.len(),
{
    if rows.len() == 0 {
        reveal(Seq::filter);
        assert(rows_outside(rows, ids) =~= Seq::<EnvelopeView>::empty());
        lemma_rows_of_none(rows, id);
        lemma_rows_of_none(rows_outside(rows, ids), id);
    } else {
        let rest = rows.drop_last();
        let row = rows.last();
        assert(rows =~= rest.push(row));
        lemma_rows_of_outside(rest, ids, id);
        lemma_rows_outside_push(rest, row, ids);
        lemma_rows_of_push(rest, row, id);
        lemma_rows_of_push(rows_outside(rest, ids), row, id);
    }
}

/// No identity occurs twice where every identity has at most one row.
pub proof fn lemma_unique_by_identity(rows: Seq<EnvelopeView>)
    ensures
        unique_ids(rows) <==> forall|id: Identity| (#[trigger] rows_of(rows, id)).len() <= 1,
{
    if unique_ids(rows) {
        assert forall|id: Identity| (#[trigger] rows_of(rows, id)).len() <= 1 by {
            lemma_unique_at(rows, id);
        }
    }
    if forall|id: Identity| (#[trigger] rows_of(rows, id)).len() <= 1 {
        assert forall|i: int, j: int| 0 <= i < j < rows.len() implies (#[trigger] rows[i]).id() != (
        #[trigger] rows[j]).id() by {
            if rows[i].id() == rows[j].id() {
                let id = rows[i].id();
                let head = rows.take(j);
                let tail = rows.skip(j);
                assert(rows =~= head + tail);
                lemma_rows_of_add(head, tail, id);
                lemma_rows_of_member(head, id);
                lemma_rows_of_member(tail, id);
                assert(head[i].id() == id);
                assert(tail[0].id() == id);
                assert(rows_of(rows, id).len() <= 1);
            }
        }
    }
}

proof fn lemma_unique_at(rows: Seq<EnvelopeView>, id: Identity)
    requires
        unique_ids(rows),
    ensures
        rows_of(rows, id).len() <= 1,
    decreases rows.len(),
{
    if rows.len() == 0 {
        lemma_rows_of_none(rows, id);
    } else {
        let rest = rows.drop_last();
        let row = rows.last();
        assert(rows =~= rest.push(row));
        lemma_rows_of_push(rest, row, id);
        assert(unique_ids(rest)) by {
            assert forall|i: int, j: int| 0 <= i < j < rest.len() implies (#[trigger] rest[i]).id()
                != (#[trigger] rest[j]).id() by {
                assert(rows[i] == rest[i] && rows[j] == rest[j]);
            }
        }
        if row.id() == id {
            assert(!has_id(rest, id)) by {
                if has_id(rest, id) {
                    let i = choose|i: int| 0 <= i < rest.len() && (#[trigger] rest[i]).id() == id;
                    assert(rows[i].id() != rows[rows.len() - 1].id());
                }
            }
            lemma_rows_of_none(rest, id);
        } else {
            lemma_unique_at(rest, id);
        }
    }
}

/// The rows of one row.
proof fn lemma_rows_of_one(row: EnvelopeView, id: Identity)
    ensures
        rows_of(seq![row], id) == if row.id() == id {
            seq![row]
        } else {
            Seq::empty()
        },
{
    assert(seq![row] =~= Seq::<EnvelopeView>::empty().push(row));
    lemma_rows_of_none(Seq::empty(), id);
    lemma_rows_of_push(Seq::empty(), row, id);
}

/// Where the rows of `ids` were replaced by `added`, each identity has the rows it had, or none
/// where it is in `ids`, and behind them its rows of `added`.
pub proof fn lemma_replaced(
    rows: Seq<EnvelopeView>,
    ids: Set<Identity>,
    added: Seq<EnvelopeView>,
    after: Seq<EnvelopeView>,
    id: Identity,
)
    requires
        same_rows(after, rows_outside(rows, ids) + added),
    ensures
        rows_of(after, id) == (if ids.contains(id) {
            Seq::empty()
        } else {
            rows_of(rows, id)
        }) + rows_of(added, id),
{
    let joined = rows_outside(rows, ids) + added;
    assert(rows_of(after, id) == rows_of(joined, id));
    lemma_rows_of_add(rows_outside(rows, ids), added, id);
    lemma_rows_of_outside(rows, ids, id);
}

/// Storing a row leaves exactly that row under its identity, and every other identity as it was.
pub proof fn pushed_row_stands_alone(
    rows: Seq<EnvelopeView>,
    entry: EnvelopeView,
    after: Seq<EnvelopeView>,
)
    requires
        sorts_to(rows_outside(rows, set![entry.id()]).push(entry), after),
    ensures
        rows_of(after, entry.id()) == seq![entry],
        forall|id: Identity|
            id != entry.id() ==> #[trigger] rows_of(after, id) == rows_of(rows, id),
{
    let ids = set![entry.id()];
    let kept = rows_outside(rows, ids);
    assert(kept.push(entry) =~= kept + seq![entry]);
    assert forall|id: Identity| #[trigger]
        rows_of(after, id) == if id == entry.id() {
            seq![entry]
        } else {
            rows_of(rows, id)
        } by {
        lemma_replaced(rows, ids, seq![entry], after, id);
        lemma_rows_of_one(entry, id);
        assert(Seq::<EnvelopeView>::empty() + seq![entry] =~= seq![entry]);
        assert(rows_of(rows, id) + Seq::<EnvelopeView>::empty() =~= rows_of(rows, id));
    }
}

/// Storing a row twice is storing it once.
pub proof fn pushing_again_changes_nothing(
    rows: Seq<EnvelopeView>,
    entry: EnvelopeView,
    after: Seq<EnvelopeView>,
    again: Seq<EnvelopeView>,
)
    requires
        sorts_to(rows_outside(rows, set![entry.id()]).push(entry), after),
        sorts_to(rows_outside(after, set![entry.id()]).push(entry), again),
    ensures
        again == after,
{
    pushed_row_stands_alone(rows, entry, after);
    pushed_row_stands_alone(after, entry, again);
    assert forall|id: Identity| #[trigger] rows_of(again, id) == rows_of(after, id) by {}
    lemma_ordered_rows_unique(again, after);
}

/// Deleting leaves no row under the identity, and every other identity as it was.
pub proof fn deleted_row_is_gone(rows: Seq<EnvelopeView>, id: Identity)
    ensures
        !has_id(rows_outside(rows, set![id]), id),
        forall|other: Identity|
            other != id ==> #[trigger] rows_of(rows_outside(rows, set![id]), other) == rows_of(
                rows,
                other,
            ),
{
    lemma_rows_of_outside(rows, set![id], id);
    lemma_rows_of_member(rows_outside(rows, set![id]), id);
    assert forall|other: Identity| other != id implies #[trigger] rows_of(
        rows_outside(rows, set![id]),
        other,
    ) == rows_of(rows, other) by {
        lemma_rows_of_outside(rows, set![id], other);
    }
}

/// Deleting keeps the order of identities.
pub proof fn deleting_keeps_order(rows: Seq<EnvelopeView>, ids: Set<Identity>)
    requires
        rows_ordered(rows),
    ensures
        rows_ordered(rows_outside(rows, ids)),
    decreases rows.len(),
{
    reveal(Seq::filter);
    if rows.len() > 0 {
        let rest = rows.drop_last();
        let row = rows.last();
        assert(rows =~= rest.push(row));
        assert(rows_ordered(rest)) by {
            assert forall|i: int, j: int| 0 <= i < j < rest.len() implies !pair_before(
                (#[trigger] rest[j]).id(),
                (#[trigger] rest[i]).id(),
            ) by {
                assert(rows[i] == rest[i] && rows[j] == rest[j]);
            }
        }
        deleting_keeps_order(rest, ids);
        lemma_rows_outside_push(rest, row, ids);
        if !ids.contains(row.id()) {
            let kept = rows_outside(rest, ids);
            let all = kept.push(row);
            assert forall|i: int, j: int| 0 <= i < j < all.len() implies !pair_before(
                (#[trigger] all[j]).id(),
                (#[trigger] all[i]).id(),
            ) by {
                if j < kept.len() {
                    assert(all[i] == kept[i] && all[j] == kept[j]);
                } else {
                    assert(rest.contains(kept[i])) by {
                        lemma_kept_member(rest, ids, i);
                    }
                    let k = choose|k: int| 0 <= k < rest.len() && rest[k] == kept[i];
                    assert(rows[k] == kept[i]);
                    assert(rows[rows.len() - 1] == row);
                }
            }
        }
    }
}

proof fn lemma_kept_member(rows: Seq<EnvelopeView>, ids: Set<Identity>, i: int)
    requires
        0 <= i < rows_outside(rows, ids).len(),
    ensures
        rows.contains(rows_outside(rows, ids)[i]),
    decreases rows.len(),
{
    reveal(Seq::filter);
    if rows.len() > 0 {
        let rest = rows.drop_last();
        let row = rows.last();
        assert(rows =~= rest.push(row));
        lemma_rows_outside_push(rest, row, ids);
        let kept = rows_outside(rest, ids);
        if i < kept.len() {
            lemma_kept_member(rest, ids, i);
            let k = choose|k: int| 0 <= k < rest.len() && rest[k] == kept[i];
            assert(rows[k] == kept[i]);
        } else {
            assert(rows[rows.len() - 1] == row);
        }
    }
}

/// Sorting keeps identities apart.
pub proof fn sorting_keeps_identities_apart(rows: Seq<EnvelopeView>, sorted: Seq<EnvelopeView>)
    requires
        sorts_to(rows, sorted),
        unique_ids(rows),
    ensures
        unique_ids(sorted),
{
    lemma_unique_by_identity(rows);
    lemma_unique_by_identity(sorted);
    assert forall|id: Identity| (#[trigger] rows_of(sorted, id)).len() <= 1 by {
        assert(rows_of(sorted, id) == rows_of(rows, id));
        assert(rows_of(rows, id).len() <= 1);
    }
}

/// Replacing the rows of `ids` by rows that do not repeat an identity, and that have no identity of
/// a row that stays, keeps identities apart.
pub proof fn replacing_keeps_identities_apart(
    rows: Seq<EnvelopeView>,
    ids: Set<Identity>,
    added: Seq<EnvelopeView>,
    after: Seq<EnvelopeView>,
)
    requires
        unique_ids(rows),
        unique_ids(added),
        forall|id: Identity| #[trigger] has_id(rows, id) && !ids.contains(id) ==> !has_id(added, id),
        sorts_to(rows_outside(rows, ids) + added, after),
    ensures
        unique_ids(after),
{
    lemma_unique_by_identity(rows);
    lemma_unique_by_identity(added);
    lemma_unique_by_identity(after);
    assert forall|id: Identity| (#[trigger] rows_of(after, id)).len() <= 1 by {
        lemma_replaced(rows, ids, added, after, id);
        lemma_rows_of_member(rows, id);
        assert(rows_of(added, id).len() <= 1);
        assert(rows_of(rows, id).len() <= 1);
        if has_id(rows, id) && !ids.contains(id) {
            lemma_rows_of_none(added, id);
        }
    }
}

/// A conditional batch that goes through leaves exactly each replacement under its identity, and
/// every other identity as it was.
pub proof fn swapped_batch_is_exact(
    rows: Seq<EnvelopeView>,
    expected: Seq<EnvelopeView>,
    replacements: Seq<EnvelopeView>,
    after: Seq<EnvelopeView>,
)
    requires
        swap_batch_refusal(expected, replacements) is None,
        all_current(rows, expected),
        !collides(rows, ids_of(expected), replacements),
        sorts_to(rows_outside(rows, ids_of(expected)) + replacements, after),
    ensures
        forall|i: int|
            0 <= i < replacements.len() ==> rows_of(after, (#[trigger] replacements[i]).id())
                == seq![replacements[i]],
        forall|id: Identity|
            !ids_of(replacements).contains(id) ==> #[trigger] rows_of(after, id) == rows_of(
                rows,
                id,
            ),
{
    let ids = ids_of(expected);
    lemma_unique_by_identity(replacements);
    assert forall|i: int| 0 <= i < replacements.len() implies rows_of(
        after,
        (#[trigger] replacements[i]).id(),
    ) == seq![replacements[i]] by {
        let id = replacements[i].id();
        lemma_replaced(rows, ids, replacements, after, id);
        lemma_only_row(replacements, i);
        if !ids.contains(id) {
            assert(!has_id(rows, id));
            lemma_rows_of_none(rows, id);
        }
        assert(Seq::<EnvelopeView>::empty() + seq![replacements[i]] =~= seq![replacements[i]]);
    }
    assert forall|id: Identity| !ids_of(replacements).contains(id) implies #[trigger] rows_of(
        after,
        id,
    ) == rows_of(rows, id) by {
        lemma_replaced(rows, ids, replacements, after, id);
        assert(!has_id(replacements, id));
        lemma_rows_of_none(replacements, id);
        assert(!ids.contains(id));
        assert(rows_of(rows, id) + Seq::<EnvelopeView>::empty() =~= rows_of(rows, id));
    }
}

/// Where no identity occurs twice, each row is the only one of its identity.
pub proof fn lemma_only_row(rows: Seq<EnvelopeView>, i: int)
    requires
        unique_ids(rows),
        0 <= i < rows.len(),
    ensures
        rows_of(rows, rows[i].id()) == seq![rows[i]],
{
    let id = rows[i].id();
    lemma_unique_by_identity(rows);
    assert(rows_of(rows, id).len() <= 1);
    assert(first_at(rows, id, i)) by {
        assert forall|j: int| 0 <= j < i implies (#[trigger] rows[j]).id() != id by {
            assert(rows[j].id() != rows[i].id());
        }
    }
    lemma_rows_of_first(rows, id, i);
    assert(rows_of(rows, id) =~= seq![rows[i]]);
}

/// A compaction that goes through leaves no deleted identity, exactly each replacement under its
/// identity, and every other identity as it was.
pub proof fn compaction_is_exact(
    rows: Seq<EnvelopeView>,
    replacements: Seq<EnvelopeView>,
    deletions: Seq<EnvelopeView>,
    after: Seq<EnvelopeView>,
)
    requires
        unique_ids(replacements),
        ids_of(deletions).disjoint(ids_of(replacements)),
        sorts_to(
            rows_outside(rows, ids_of(deletions).union(ids_of(replacements))) + replacements,
            after,
        ),
    ensures
        forall|id: Identity| #[trigger] ids_of(deletions).contains(id) ==> !has_id(after, id),
        forall|i: int|
            0 <= i < replacements.len() ==> rows_of(after, (#[trigger] replacements[i]).id())
                == seq![replacements[i]],
        forall|id: Identity|
            !ids_of(replacements).contains(id) && !ids_of(deletions).contains(id)
                ==> #[trigger] rows_of(after, id) == rows_of(rows, id),
{
    let ids = ids_of(deletions).union(ids_of(replacements));
    assert forall|id: Identity| #[trigger] ids_of(deletions).contains(id) implies !has_id(
        after,
        id,
    ) by {
        lemma_replaced(rows, ids, replacements, after, id);
        assert(!ids_of(replacements).contains(id));
        lemma_rows_of_none(replacements, id);
        lemma_rows_of_member(after, id);
    }
    assert forall|i: int| 0 <= i < replacements.len() implies rows_of(
        after,
        (#[trigger] replacements[i]).id(),
    ) == seq![replacements[i]] by {
        let id = replacements[i].id();
        assert(has_id(replacements, id));
        lemma_replaced(rows, ids, replacements, after, id);
        lemma_only_row(replacements, i);
        assert(Seq::<EnvelopeView>::empty() + seq![replacements[i]] =~= seq![replacements[i]]);
    }
    assert forall|id: Identity|
        !ids_of(replacements).contains(id) && !ids_of(deletions).contains(id) implies #[trigger] rows_of(
        after,
        id,
    ) == rows_of(rows, id) by {
        lemma_replaced(rows, ids, replacements, after, id);
        lemma_rows_of_none(replacements, id);
        assert(rows_of(rows, id) + Seq::<EnvelopeView>::empty() =~= rows_of(rows, id));
    }
}

/// Replacing one exact row by one of the same identity leaves the new row first under it, and every
/// other identity as it was.
pub proof fn swapped_row_takes_its_place(
    rows: Seq<EnvelopeView>,
    expected: EnvelopeView,
    replacement: EnvelopeView,
    i: int,
    after: Seq<EnvelopeView>,
)
    requires
        first_at(rows, expected.id(), i),
        replacement.id() == expected.id(),
        sorts_to(rows.update(i, replacement), after),
    ensures
        holds_row(after, replacement),
        forall|id: Identity|
            id != expected.id() ==> #[trigger] rows_of(after, id) == rows_of(rows, id),
{
    let changed = rows.update(i, replacement);
    let head = rows.take(i);
    let tail = rows.skip(i + 1);
    assert(rows =~= head + seq![rows[i]] + tail);
    assert(changed =~= head + seq![replacement] + tail);
    assert forall|id: Identity| id != expected.id() implies #[trigger] rows_of(after, id)
        == rows_of(rows, id) by {
        assert(rows_of(after, id) == rows_of(changed, id));
        lemma_rows_of_add(head + seq![rows[i]], tail, id);
        lemma_rows_of_add(head, seq![rows[i]], id);
        lemma_rows_of_add(head + seq![replacement], tail, id);
        lemma_rows_of_add(head, seq![replacement], id);
        lemma_rows_of_one(rows[i], id);
        lemma_rows_of_one(replacement, id);
    }
    let id = expected.id();
    assert(first_at(changed, id, i)) by {
        assert forall|j: int| 0 <= j < i implies (#[trigger] changed[j]).id() != id by {
            assert(changed[j] == rows[j]);
        }
    }
    lemma_rows_of_first(changed, id, i);
    assert(rows_of(after, id) == rows_of(changed, id));
    lemma_rows_of_member(after, id);
    let k = lemma_first_place(after, id);
    lemma_rows_of_first(after, id, k);
}

/// Where an identity has rows, one of them comes first.
proof fn lemma_first_place(rows: Seq<EnvelopeView>, id: Identity) -> (i: int)
    requires
        has_id(rows, id),
    ensures
        first_at(rows, id, i),
    decreases rows.len(),
{
    let rest = rows.drop_last();
    if has_id(rest, id) {
        let i = lemma_first_place(rest, id);
        assert forall|j: int| 0 <= j < i implies (#[trigger] rows[j]).id() != id by {
            assert(rest[j] == rows[j]);
        }
        i
    } else {
        let k = choose|k: int| 0 <= k < rows.len() && (#[trigger] rows[k]).id() == id;
        if k < rest.len() {
            assert(rest[k].id() == id);
        }
        assert forall|j: int| 0 <= j < k implies (#[trigger] rows[j]).id() != id by {
            assert(rest[j] == rows[j]);
        }
        k
    }
}

/// Whether rows are those of an expected snapshot does not depend on the snapshot's order, where it
/// repeats no identity.
pub proof fn snapshot_order_does_not_matter(
    rows: Seq<EnvelopeView>,
    expected: Seq<EnvelopeView>,
    reordered: Seq<EnvelopeView>,
)
    requires
        unique_ids(expected),
        expected.to_multiset() == reordered.to_multiset(),
    ensures
        unique_ids(reordered),
        same_rows(rows, expected) == same_rows(rows, reordered),
{
    assert forall|id: Identity| #[trigger] rows_of(reordered, id) == rows_of(expected, id) by {
        lemma_reordered_at(expected, reordered, id);
    }
    lemma_unique_by_identity(expected);
    lemma_unique_by_identity(reordered);
    assert forall|id: Identity| (#[trigger] rows_of(reordered, id)).len() <= 1 by {
        assert(rows_of(expected, id).len() <= 1);
    }
    if same_rows(rows, expected) {
        assert forall|id: Identity| #[trigger] rows_of(rows, id) == rows_of(reordered, id) by {
            assert(rows_of(rows, id) == rows_of(expected, id));
        }
    }
    if same_rows(rows, reordered) {
        assert forall|id: Identity| #[trigger] rows_of(rows, id) == rows_of(expected, id) by {
            assert(rows_of(rows, id) == rows_of(reordered, id));
        }
    }
}

proof fn lemma_reordered_at(
    expected: Seq<EnvelopeView>,
    reordered: Seq<EnvelopeView>,
    id: Identity,
)
    requires
        unique_ids(expected),
        expected.to_multiset() == reordered.to_multiset(),
    ensures
        rows_of(reordered, id) == rows_of(expected, id),
{
    broadcast use vstd::seq_lib::group_to_multiset_ensures;

    let p = |row: EnvelopeView| row.id() == id;
    lemma_filter_multiset(expected, p);
    lemma_filter_multiset(reordered, p);
    let a = rows_of(expected, id);
    let b = rows_of(reordered, id);
    assert(a.to_multiset() == b.to_multiset());
    lemma_unique_by_identity(expected);
    assert(a.len() <= 1);
    assert(a.to_multiset().len() == a.len());
    assert(b.to_multiset().len() == b.len());
    if a.len() == 0 {
        assert(b =~= a);
    } else {
        assert(b.to_multiset().count(b[0]) > 0) by {
            assert(b.contains(b[0]));
        }
        assert(a.contains(b[0]));
        assert(b =~= a);
    }
}

/// Filtering and then counting is counting and then filtering.
proof fn lemma_filter_multiset(rows: Seq<EnvelopeView>, p: spec_fn(EnvelopeView) -> bool)
    ensures
        rows.filter(p).to_multiset() == rows.to_multiset().filter(p),
    decreases rows.len(),
{
    broadcast use vstd::seq_lib::group_to_multiset_ensures;

    reveal(Seq::filter);
    if rows.len() == 0 {
        assert(rows.filter(p) =~= Seq::<EnvelopeView>::empty());
        assert(rows.filter(p).to_multiset() =~= rows.to_multiset().filter(p));
    } else {
        let rest = rows.drop_last();
        let row = rows.last();
        assert(rows =~= rest.push(row));
        lemma_filter_multiset(rest, p);
        assert(rows.to_multiset() =~= rest.to_multiset().insert(row));
        if p(row) {
            assert(rows.filter(p) == rest.filter(p).push(row));
            assert(rows.filter(p).to_multiset() =~= rest.filter(p).to_multiset().insert(row));
            assert(rows.to_multiset().filter(p) =~= rest.to_multiset().filter(p).insert(row));
        } else {
            assert(rows.filter(p) == rest.filter(p));
            assert(rows.to_multiset().filter(p) =~= rest.to_multiset().filter(p));
        }
    }
}

} // verus!

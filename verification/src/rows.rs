//! Runs of stored rows: looking rows up by identity, filtering and sorting them.

use crate::envelope::{
    entry_id, place_entry, same_envelope, same_identity, views, CultCacheEnvelope, EnvelopeView,
    Identity,
};
use crate::error::{BatchRows, CultCacheError, Failure, FailureView};
use crate::order::{lemma_text_irreflexive, pair_before, OrderedKey, Placement};
use crate::ordered_map::OrderedMap;
use vstd::prelude::*;

verus! {

/// A set of identities.
pub type IdentitySet = OrderedMap<(String, String), ()>;

/// What reading a run of rows came to.
pub open spec fn rows_outcome(r: Result<Vec<CultCacheEnvelope>, CultCacheError>) -> Result<
    Seq<EnvelopeView>,
    FailureView,
> {
    match r {
        Ok(rows) => Ok(views(rows@)),
        Err(e) => Err(e@),
    }
}

/// The rows of `rows` under the identity `id`, in their order.
pub open spec fn rows_of(rows: Seq<EnvelopeView>, id: Identity) -> Seq<EnvelopeView> {
    rows.filter(|row: EnvelopeView| row.id() == id)
}

/// The rows of `rows` whose identities are not in `ids`, in their order.
pub open spec fn rows_outside(rows: Seq<EnvelopeView>, ids: Set<Identity>) -> Seq<EnvelopeView> {
    rows.filter(|row: EnvelopeView| !ids.contains(row.id()))
}

/// Some row has the identity `id`.
pub open spec fn has_id(rows: Seq<EnvelopeView>, id: Identity) -> bool {
    exists|i: int| 0 <= i < rows.len() && (#[trigger] rows[i]).id() == id
}

/// The identities of `rows`.
pub open spec fn ids_of(rows: Seq<EnvelopeView>) -> Set<Identity> {
    Set::new(|id: Identity| has_id(rows, id))
}

/// No two rows have the same identity.
pub open spec fn unique_ids(rows: Seq<EnvelopeView>) -> bool {
    forall|i: int, j: int|
        0 <= i < j < rows.len() ==> (#[trigger] rows[i]).id() != (#[trigger] rows[j]).id()
}

/// `i` is the place of the first row with the identity `id`.
pub open spec fn first_at(rows: Seq<EnvelopeView>, id: Identity, i: int) -> bool {
    &&& 0 <= i < rows.len()
    &&& rows[i].id() == id
    &&& forall|j: int| 0 <= j < i ==> (#[trigger] rows[j]).id() != id
}

/// The first row with the identity of `row` is exactly `row`.
pub open spec fn holds_row(rows: Seq<EnvelopeView>, row: EnvelopeView) -> bool {
    exists|i: int| #[trigger] first_at(rows, row.id(), i) && rows[i] == row
}

/// The identities of `rows` do not decrease.
pub open spec fn rows_ordered(rows: Seq<EnvelopeView>) -> bool {
    forall|i: int, j: int|
        0 <= i < j < rows.len() ==> !pair_before(
            (#[trigger] rows[j]).id(),
            (#[trigger] rows[i]).id(),
        )
}

/// Under every identity `a` and `b` have the same rows in the same order.
pub open spec fn same_rows(a: Seq<EnvelopeView>, b: Seq<EnvelopeView>) -> bool {
    forall|id: Identity| #[trigger] rows_of(a, id) == rows_of(b, id)
}

/// `sorted` is `rows` in the order of identities, rows of one identity staying in their order.
pub open spec fn sorts_to(rows: Seq<EnvelopeView>, sorted: Seq<EnvelopeView>) -> bool {
    rows_ordered(sorted) && same_rows(sorted, rows)
}

pub proof fn lemma_rows_of_push(rows: Seq<EnvelopeView>, row: EnvelopeView, id: Identity)
    ensures
        rows_of(rows.push(row), id) == if row.id() == id {
            rows_of(rows, id).push(row)
        } else {
            rows_of(rows, id)
        },
{
    reveal(Seq::filter);
    assert(rows.push(row).drop_last() =~= rows);
}

pub proof fn lemma_rows_outside_push(
    rows: Seq<EnvelopeView>,
    row: EnvelopeView,
    ids: Set<Identity>,
)
    ensures
        rows_outside(rows.push(row), ids) == if ids.contains(row.id()) {
            rows_outside(rows, ids)
        } else {
            rows_outside(rows, ids).push(row)
        },
{
    reveal(Seq::filter);
    assert(rows.push(row).drop_last() =~= rows);
}

pub proof fn lemma_rows_of_add(a: Seq<EnvelopeView>, b: Seq<EnvelopeView>, id: Identity)
    ensures
        rows_of(a + b, id) == rows_of(a, id) + rows_of(b, id),
{
    Seq::filter_distributes_over_add(a, b, |row: EnvelopeView| row.id() == id);
}

pub proof fn lemma_rows_of_none(rows: Seq<EnvelopeView>, id: Identity)
    requires
        !has_id(rows, id),
    ensures
        rows_of(rows, id) == Seq::<EnvelopeView>::empty(),
    decreases rows.len(),
{
    reveal(Seq::filter);
    if rows.len() > 0 {
        let rest = rows.drop_last();
        assert(rows.last() == rows[rows.len() - 1]);
        assert(!has_id(rest, id)) by {
            if has_id(rest, id) {
                let i = choose|i: int| 0 <= i < rest.len() && (#[trigger] rest[i]).id() == id;
                assert(rows[i].id() == id);
            }
        }
        lemma_rows_of_none(rest, id);
    }
}

/// Every row under an identity is one of the rows, and has that identity.
pub proof fn lemma_rows_of_member(rows: Seq<EnvelopeView>, id: Identity)
    ensures
        forall|i: int|
            0 <= i < rows_of(rows, id).len() ==> (#[trigger] rows_of(rows, id)[i]).id() == id
                && rows.contains(rows_of(rows, id)[i]),
        has_id(rows, id) <==> rows_of(rows, id).len() > 0,
    decreases rows.len(),
{
    reveal(Seq::filter);
    if rows.len() > 0 {
        let rest = rows.drop_last();
        lemma_rows_of_member(rest, id);
        assert(rows =~= rest.push(rows.last()));
        assert forall|i: int| 0 <= i < rows_of(rows, id).len() implies (#[trigger] rows_of(
            rows,
            id,
        )[i]).id() == id && rows.contains(rows_of(rows, id)[i]) by {
            if i < rows_of(rest, id).len() {
                let row = rows_of(rest, id)[i];
                let k = choose|k: int| 0 <= k < rest.len() && rest[k] == row;
                assert(rows[k] == row);
            } else {
                assert(rows[rows.len() - 1] == rows.last());
            }
        }
        if has_id(rows, id) {
            let k = choose|k: int| 0 <= k < rows.len() && (#[trigger] rows[k]).id() == id;
            if k < rest.len() {
                assert(rest[k].id() == id);
            }
        }
        if rows_of(rows, id).len() > 0 {
            let row = rows_of(rows, id)[0];
            let k = choose|k: int| 0 <= k < rows.len() && rows[k] == row;
            assert(rows[k].id() == id);
        }
    }
}

/// The first row under an identity is the first of the rows with that identity.
pub proof fn lemma_rows_of_first(rows: Seq<EnvelopeView>, id: Identity, i: int)
    requires
        first_at(rows, id, i),
    ensures
        rows_of(rows, id).len() > 0,
        rows_of(rows, id)[0] == rows[i],
{
    let head = rows.take(i);
    let tail = rows.skip(i);
    assert(rows =~= head + tail);
    lemma_rows_of_add(head, tail, id);
    assert(!has_id(head, id)) by {
        if has_id(head, id) {
            let j = choose|j: int| 0 <= j < head.len() && (#[trigger] head[j]).id() == id;
            assert(rows[j].id() == id);
        }
    }
    lemma_rows_of_none(head, id);
    let one = seq![rows[i]];
    let after = rows.skip(i + 1);
    assert(tail =~= one + after);
    lemma_rows_of_add(one, after, id);
    assert(one =~= Seq::<EnvelopeView>::empty().push(rows[i]));
    lemma_rows_of_push(Seq::empty(), rows[i], id);
    lemma_rows_of_none(Seq::empty(), id);
}

/// Two sequences of rows in the order of identities that have the same rows under every
/// identity are equal.
pub proof fn lemma_ordered_rows_unique(a: Seq<EnvelopeView>, b: Seq<EnvelopeView>)
    requires
        rows_ordered(a),
        rows_ordered(b),
        same_rows(a, b),
    ensures
        a == b,
    decreases a.len(),
{
    if a.len() == 0 {
        if b.len() > 0 {
            let id = b[0].id();
            lemma_rows_of_member(b, id);
            lemma_rows_of_none(a, id);
            assert(rows_of(a, id) == rows_of(b, id));
        }
        assert(a =~= b);
    } else {
        let x = a.last();
        lemma_rows_of_member(a, x.id());
        assert(a[a.len() - 1].id() == x.id());
        assert(has_id(a, x.id()));
        assert(rows_of(a, x.id()) == rows_of(b, x.id()));
        lemma_rows_of_member(b, x.id());
        let y = b.last();
        // The two last rows have the same identity: each is the greatest of its sequence.
        assert(b[b.len() - 1].id() == y.id());
        lemma_rows_of_member(b, y.id());
        assert(rows_of(a, y.id()) == rows_of(b, y.id()));
        lemma_rows_of_member(a, y.id());
        let i = choose|i: int| 0 <= i < b.len() && (#[trigger] b[i]).id() == x.id();
        let j = choose|j: int| 0 <= j < a.len() && (#[trigger] a[j]).id() == y.id();
        <(String, String) as OrderedKey>::before_total(x.id(), y.id());
        if x.id() != y.id() {
            assert(i < b.len() - 1);
            assert(j < a.len() - 1);
            assert(!pair_before(b[b.len() - 1].id(), b[i].id()));
            assert(!pair_before(a[a.len() - 1].id(), a[j].id()));
            assert(false);
        }
        let a0 = a.drop_last();
        let b0 = b.drop_last();
        assert(a =~= a0.push(x));
        assert(b =~= b0.push(y));
        lemma_rows_of_push(a0, x, x.id());
        lemma_rows_of_push(b0, y, x.id());
        assert(rows_of(a, x.id()).last() == x);
        assert(rows_of(b, x.id()).last() == y);
        assert(x == y);
        assert forall|id: Identity| #[trigger] rows_of(a0, id) == rows_of(b0, id) by {
            assert(rows_of(a, id) == rows_of(b, id));
            lemma_rows_of_push(a0, x, id);
            lemma_rows_of_push(b0, y, id);
            if id == x.id() {
                assert(rows_of(a0, id) =~= rows_of(a, id).drop_last());
                assert(rows_of(b0, id) =~= rows_of(b, id).drop_last());
            }
        }
        assert(rows_ordered(a0)) by {
            assert forall|p: int, q: int| 0 <= p < q < a0.len() implies !pair_before(
                (#[trigger] a0[q]).id(),
                (#[trigger] a0[p]).id(),
            ) by {
                assert(a[p] == a0[p] && a[q] == a0[q]);
            }
        }
        assert(rows_ordered(b0)) by {
            assert forall|p: int, q: int| 0 <= p < q < b0.len() implies !pair_before(
                (#[trigger] b0[q]).id(),
                (#[trigger] b0[p]).id(),
            ) by {
                assert(b[p] == b0[p] && b[q] == b0[q]);
            }
        }
        lemma_ordered_rows_unique(a0, b0);
    }
}

/// Inserting a row behind all rows that do not stand after it keeps the order and puts the row
/// last under its identity.
proof fn lemma_insert_ordered(rows: Seq<EnvelopeView>, at: int, row: EnvelopeView)
    requires
        rows_ordered(rows),
        0 <= at <= rows.len(),
        forall|i: int| at <= i < rows.len() ==> pair_before(row.id(), (#[trigger] rows[i]).id()),
        at > 0 ==> !pair_before(row.id(), rows[at - 1].id()),
    ensures
        rows_ordered(rows.insert(at, row)),
        forall|id: Identity| #[trigger]
            rows_of(rows.insert(at, row), id) == rows_of(rows.push(row), id),
{
    let all = rows.insert(at, row);
    lemma_text_irreflexive(row.id().0);
    lemma_text_irreflexive(row.id().1);
    assert forall|i: int, j: int| 0 <= i < j < all.len() implies !pair_before(
        (#[trigger] all[j]).id(),
        (#[trigger] all[i]).id(),
    ) by {
        let oi: int = if i < at { i } else { i - 1 };
        let oj: int = if j < at { j } else { j - 1 };
        if i != at {
            assert(all[i] == rows[oi]);
        }
        if j != at {
            assert(all[j] == rows[oj]);
        }
        if i != at && j != at {
            assert(!pair_before(rows[oj].id(), rows[oi].id()));
        } else if i == at {
            assert(pair_before(row.id(), rows[oj].id()));
            if pair_before(all[j].id(), row.id()) {
                <(String, String) as OrderedKey>::before_transitive(
                    row.id(),
                    rows[oj].id(),
                    row.id(),
                );
            }
        } else {
            // The new row stands behind `rows[i]`, because it does not stand before its
            // predecessor.
            if pair_before(row.id(), rows[i].id()) {
                if i < at - 1 {
                    assert(!pair_before(rows[at - 1].id(), rows[i].id()));
                    <(String, String) as OrderedKey>::before_total(rows[i].id(), rows[at - 1].id());
                    if rows[i].id() != rows[at - 1].id() {
                        <(String, String) as OrderedKey>::before_transitive(
                            row.id(),
                            rows[i].id(),
                            rows[at - 1].id(),
                        );
                    }
                }
                assert(false);
            }
        }
    }
    let head = rows.take(at);
    let tail = rows.skip(at);
    let one = seq![row];
    assert(rows =~= head + tail);
    assert(all =~= (head + one) + tail);
    assert(rows.push(row) =~= (head + tail) + one);
    assert forall|id: Identity| #[trigger]
        rows_of(all, id) == rows_of(rows.push(row), id) by {
        lemma_rows_of_add(head + one, tail, id);
        lemma_rows_of_add(head, one, id);
        lemma_rows_of_add(head + tail, one, id);
        lemma_rows_of_add(head, tail, id);
        if id == row.id() {
            assert(!has_id(tail, id)) by {
                if has_id(tail, id) {
                    let i = choose|i: int| 0 <= i < tail.len() && (#[trigger] tail[i]).id() == id;
                    assert(rows[at + i].id() == id);
                }
            }
            lemma_rows_of_none(tail, id);
            assert((rows_of(head, id) + rows_of(one, id)) + rows_of(tail, id) =~= (rows_of(
                head,
                id,
            ) + rows_of(tail, id)) + rows_of(one, id));
        } else {
            assert(!has_id(one, id)) by {
                if has_id(one, id) {
                    let i = choose|i: int| 0 <= i < one.len() && (#[trigger] one[i]).id() == id;
                    assert(i == 0);
                }
            }
            lemma_rows_of_none(one, id);
            assert((rows_of(head, id) + rows_of(one, id)) + rows_of(tail, id) =~= (rows_of(
                head,
                id,
            ) + rows_of(tail, id)) + rows_of(one, id));
        }
    }
}

/// Puts `rows` in the order of their identities, rows of one identity keeping their order.
pub fn sort_rows(rows: Vec<CultCacheEnvelope>) -> (sorted: Vec<CultCacheEnvelope>)
    ensures
        sorts_to(views(rows@), views(sorted@)),
{
    let ghost all = rows@;
    let mut sorted: Vec<CultCacheEnvelope> = Vec::with_capacity(rows.len());
    assert(views(all).take(0) =~= views(sorted@));
    for row in iter: rows
        invariant
            iter.seq() == all,
            rows_ordered(views(sorted@)),
            forall|id: Identity| #[trigger]
                rows_of(views(sorted@), id) == rows_of(views(all).take(iter.index()), id),
    {
        let ghost before = views(sorted@);
        let ghost n = iter.index();
        let mut at: usize = sorted.len();
        let mut moving = at > 0;
        while moving
            invariant
                before == views(sorted@),
                at <= sorted.len(),
                moving ==> at > 0,
                !moving && at > 0 ==> !pair_before(row@.id(), before[at - 1].id()),
                forall|i: int|
                    at <= i < before.len() ==> pair_before(row@.id(), (#[trigger] before[i]).id()),
            decreases at + (if moving { 1int } else { 0int }),
        {
            match place_entry(&row, &sorted[at - 1]) {
                Placement::Before => {
                    at = at - 1;
                    moving = at > 0;
                },
                Placement::Same => {
                    proof {
                        <(String, String) as OrderedKey>::before_irreflexive(row@.id());
                    }
                    moving = false;
                },
                Placement::After => {
                    proof {
                        if pair_before(row@.id(), before[at - 1].id()) {
                            <(String, String) as OrderedKey>::before_transitive(
                                row@.id(),
                                before[at - 1].id(),
                                row@.id(),
                            );
                            <(String, String) as OrderedKey>::before_irreflexive(row@.id());
                        }
                    }
                    moving = false;
                },
            }
        }
        let ghost added = row@;
        sorted.insert(at, row);
        proof {
            assert(views(sorted@) =~= before.insert(at as int, added));
            lemma_insert_ordered(before, at as int, added);
            assert(added == views(all)[n]);
            assert(views(all).take(n + 1) =~= views(all).take(n).push(added));
            assert forall|id: Identity| #[trigger]
                rows_of(views(sorted@), id) == rows_of(views(all).take(n + 1), id) by {
                assert(rows_of(before.insert(at as int, added), id) == rows_of(
                    before.push(added),
                    id,
                ));
                assert(rows_of(before, id) == rows_of(views(all).take(n), id));
                lemma_rows_of_push(before, added, id);
                lemma_rows_of_push(views(all).take(n), added, id);
            }
        }
    }
    assert(views(all).take(all.len() as int) =~= views(all));
    sorted
}

/// Where the first row with the identity of `entry` stands.
pub fn find_row(rows: &Vec<CultCacheEnvelope>, entry: &CultCacheEnvelope) -> (found: Option<usize>)
    ensures
        match found {
            Some(i) => first_at(views(rows@), entry@.id(), i as int),
            None => !has_id(views(rows@), entry@.id()),
        },
{
    let mut i: usize = 0;
    while i < rows.len()
        invariant
            i <= rows.len(),
            forall|j: int| 0 <= j < i ==> (#[trigger] views(rows@)[j]).id() != entry@.id(),
        decreases rows.len() - i,
    {
        if same_identity(&rows[i], entry) {
            return Some(i);
        }
        i = i + 1;
    }
    None
}

/// Whether the first row with the identity of `row` is exactly `row`.
pub fn is_current(rows: &Vec<CultCacheEnvelope>, row: &CultCacheEnvelope) -> (current: bool)
    ensures
        current == holds_row(views(rows@), row@),
{
    match find_row(rows, row) {
        Some(i) => {
            let current = same_envelope(&rows[i], row);
            proof {
                if holds_row(views(rows@), row@) {
                    let j = choose|j: int|
                        #[trigger] first_at(views(rows@), row@.id(), j) && views(rows@)[j] == row@;
                    if j < i {
                        assert(views(rows@)[j].id() != row@.id());
                    }
                    if (i as int) < j {
                        assert(views(rows@)[i as int].id() != row@.id());
                    }
                }
            }
            current
        },
        None => false,
    }
}

/// The identities of `entries`, which must not repeat one.
pub fn unique_batch_ids(entries: &[CultCacheEnvelope], rows: BatchRows) -> (ids: Result<
    IdentitySet,
    CultCacheError,
>)
    ensures
        match ids {
            Ok(set) => {
                &&& unique_ids(views(entries@))
                &&& set.wf()
                &&& set@.dom() == ids_of(views(entries@))
            },
            Err(e) => !unique_ids(views(entries@)) && e@ == (FailureView::DuplicateIdentities { rows }),
        },
{
    let ghost all = views(entries@);
    let mut ids: IdentitySet = OrderedMap::new();
    let mut i: usize = 0;
    assert(ids@.dom() =~= ids_of(all.take(0))) by {
        assert forall|id: Identity| !ids_of(all.take(0)).contains(id) by {}
    }
    while i < entries.len()
        invariant
            i <= entries.len(),
            all == views(entries@),
            ids.wf(),
            unique_ids(all.take(i as int)),
            ids@.dom() == ids_of(all.take(i as int)),
        decreases entries.len() - i,
    {
        let id = entry_id(&entries[i]);
        let ghost seen = all.take(i as int);
        assert(all.take(i + 1) =~= seen.push(all[i as int]));
        let repeated = ids.insert(id, ()).is_some();
        if repeated {
            proof {
                let j = choose|j: int|
                    0 <= j < seen.len() && (#[trigger] seen[j]).id() == all[i as int].id();
                assert(all[j].id() == all[i as int].id());
            }
            return Err(Failure::DuplicateIdentities { rows });
        }
        proof {
            lemma_ids_of_push(seen, all[i as int]);
            assert(ids@.dom() =~= ids_of(all.take(i + 1)));
            assert forall|p: int, q: int| 0 <= p < q < i + 1 implies (#[trigger] all.take(
                i + 1,
            )[p]).id() != (#[trigger] all.take(i + 1)[q]).id() by {
                if q < i {
                    assert(seen[p].id() != seen[q].id());
                } else {
                    assert(!has_id(seen, all[i as int].id()));
                    assert(seen[p].id() != all[i as int].id());
                }
            }
        }
        i = i + 1;
    }
    assert(all.take(i as int) =~= all);
    Ok(ids)
}

/// One more row adds its identity.
pub proof fn lemma_ids_of_push(rows: Seq<EnvelopeView>, row: EnvelopeView)
    ensures
        ids_of(rows.push(row)) == ids_of(rows).insert(row.id()),
{
    let all = rows.push(row);
    assert forall|id: Identity| ids_of(all).contains(id) == ids_of(rows).insert(row.id()).contains(
        id,
    ) by {
        if has_id(all, id) {
            let i = choose|i: int| 0 <= i < all.len() && (#[trigger] all[i]).id() == id;
            if i < rows.len() {
                assert(rows[i].id() == id);
            }
        }
        if has_id(rows, id) {
            let i = choose|i: int| 0 <= i < rows.len() && (#[trigger] rows[i]).id() == id;
            assert(all[i].id() == id);
        }
        if id == row.id() {
            assert(all[rows.len() as int].id() == id);
        }
    }
    assert(ids_of(all) =~= ids_of(rows).insert(row.id()));
}

/// Keeps the rows whose identities are not in `ids`.
pub fn keep_outside(rows: Vec<CultCacheEnvelope>, ids: &IdentitySet) -> (kept: Vec<
    CultCacheEnvelope,
>)
    requires
        ids.wf(),
    ensures
        views(kept@) == rows_outside(views(rows@), ids@.dom()),
{
    let ghost all = rows@;
    let mut kept: Vec<CultCacheEnvelope> = Vec::new();
    proof {
        reveal(Seq::filter);
        assert(views(all).take(0) =~= Seq::<EnvelopeView>::empty());
        assert(views(kept@) =~= rows_outside(views(all).take(0), ids@.dom()));
    }
    for row in iter: rows
        invariant
            iter.seq() == all,
            ids.wf(),
            views(kept@) == rows_outside(views(all).take(iter.index()), ids@.dom()),
    {
        let ghost n = iter.index();
        let ghost before = views(kept@);
        let ghost this = row@;
        proof {
            assert(this == views(all)[n]);
            assert(views(all).take(n + 1) =~= views(all).take(n).push(this));
            lemma_rows_outside_push(views(all).take(n), this, ids@.dom());
        }
        if !ids.contains(&entry_id(&row)) {
            kept.push(row);
            assert(views(kept@) =~= before.push(this));
        }
    }
    assert(views(all).take(all.len() as int) =~= views(all));
    kept
}

/// Puts `added` behind `rows`.
pub fn join_rows(rows: &mut Vec<CultCacheEnvelope>, added: Vec<CultCacheEnvelope>)
    ensures
        views(final(rows)@) == views(old(rows)@) + views(added@),
{
    let mut rest = added;
    rows.append(&mut rest);
    assert(views(rows@) =~= views(old(rows)@) + views(added@));
}

/// A copy of a run of rows.
pub fn copy_rows(rows: &[CultCacheEnvelope]) -> (copy: Vec<CultCacheEnvelope>)
    ensures
        views(copy@) == views(rows@),
{
    let mut copy: Vec<CultCacheEnvelope> = Vec::with_capacity(rows.len());
    let mut i: usize = 0;
    while i < rows.len()
        invariant
            i <= rows.len(),
            views(copy@) == views(rows@).take(i as int),
        decreases rows.len() - i,
    {
        let row = rows[i].clone();
        let ghost before = views(copy@);
        copy.push(row);
        i = i + 1;
        assert(views(copy@) =~= before.push(row@));
        assert(views(rows@).take(i as int) =~= views(rows@).take(i - 1).push(views(rows@)[i - 1]));
    }
    assert(views(rows@).take(i as int) =~= views(rows@));
    copy
}

/// Whether two runs hold the same rows at the same places.
fn same_run(a: &Vec<CultCacheEnvelope>, b: &Vec<CultCacheEnvelope>) -> (same: bool)
    ensures
        same == (views(a@) == views(b@)),
{
    if a.len() != b.len() {
        assert(views(a@).len() != views(b@).len());
        return false;
    }
    let mut i: usize = 0;
    while i < a.len()
        invariant
            i <= a.len(),
            a.len() == b.len(),
            forall|j: int| 0 <= j < i ==> #[trigger] views(a@)[j] == views(b@)[j],
        decreases a.len() - i,
    {
        if !same_envelope(&a[i], &b[i]) {
            assert(views(a@)[i as int] != views(b@)[i as int]);
            return false;
        }
        i = i + 1;
    }
    assert(views(a@) =~= views(b@));
    true
}

/// Whether `rows` are exactly the rows of `expected`, in whatever order the identities come.
pub fn matches_snapshot(rows: &Vec<CultCacheEnvelope>, expected: &[CultCacheEnvelope]) -> (same:
    bool)
    ensures
        same == same_rows(views(rows@), views(expected@)),
{
    let left = sort_rows(copy_rows(rows.as_slice()));
    let right = sort_rows(copy_rows(expected));
    let same = same_run(&left, &right);
    proof {
        let a = views(rows@);
        let b = views(expected@);
        let x = views(left@);
        let y = views(right@);
        if same {
            assert forall|id: Identity| #[trigger] rows_of(a, id) == rows_of(b, id) by {
                assert(rows_of(x, id) == rows_of(a, id));
                assert(rows_of(y, id) == rows_of(b, id));
            }
        }
        if same_rows(a, b) {
            assert forall|id: Identity| #[trigger] rows_of(x, id) == rows_of(y, id) by {
                assert(rows_of(x, id) == rows_of(a, id));
                assert(rows_of(y, id) == rows_of(b, id));
                assert(rows_of(a, id) == rows_of(b, id));
            }
            lemma_ordered_rows_unique(x, y);
        }
    }
    same
}

} // verus!

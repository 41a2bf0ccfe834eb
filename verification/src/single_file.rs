//! A store that keeps all its rows in one file.
//!
//! The operations work on the rows that the file holds; whoever calls them reads the file under
//! the store's lock before, and replaces it behind, where an operation says that rows changed.

use crate::conditional::{
    append_refusal, check_append, check_compaction, check_delete, check_replace, check_swap_batch,
    compaction_refusal, delete_refusal, replace_refusal, swap_batch_refusal,
};
use crate::envelope::{entry_id, views, CultCacheEnvelope, EnvelopeView, Identity};
use crate::error::{outcome, CultCacheError, FailureView};
use crate::ordered_map::OrderedMap;
use crate::rows::{
    copy_rows, find_row, first_at, has_id, holds_row, ids_of, is_current, join_rows, keep_outside,
    matches_snapshot, rows_outcome, rows_outside, same_rows, sort_rows, sorts_to, IdentitySet,
};
use crate::snapshot::{read_all, reads};
use vstd::prelude::*;

verus! {

/// `std::path::PathBuf`.
#[verifier::external_type_specification]
#[verifier::external_body]
pub struct ExPathBuf(std::path::PathBuf);

/// `PathBuf::clone`, which gives a path of the same components.
pub assume_specification[ <std::path::PathBuf as Clone>::clone ](path: &std::path::PathBuf) -> (copy:
    std::path::PathBuf)
    ensures
        copy == *path,
;

/// A store that keeps all its rows in one MessagePack file.
#[derive(Debug, PartialEq, Eq)]
pub struct SingleFileMessagePackBackingStore {
    path: std::path::PathBuf,
}

/// Every row of `expected` is the first row of its identity.
pub open spec fn all_current(rows: Seq<EnvelopeView>, expected: Seq<EnvelopeView>) -> bool {
    forall|i: int| 0 <= i < expected.len() ==> holds_row(rows, #[trigger] expected[i])
}

/// A row of `added` whose identity is not in `known` has an identity that `rows` hold.
pub open spec fn collides(
    rows: Seq<EnvelopeView>,
    known: Set<Identity>,
    added: Seq<EnvelopeView>,
) -> bool {
    exists|i: int|
        0 <= i < added.len() && !known.contains((#[trigger] added[i]).id()) && has_id(
            rows,
            added[i].id(),
        )
}

/// Replacing one exact row may lead from `rows` to `after` and come to `swapped`.
pub open spec fn swaps_entry(
    rows: Seq<EnvelopeView>,
    expected: EnvelopeView,
    replacement: EnvelopeView,
    after: Seq<EnvelopeView>,
    swapped: bool,
) -> bool {
    &&& swapped == holds_row(rows, expected)
    &&& if swapped {
        exists|i: int| #[trigger]
            first_at(rows, expected.id(), i) && sorts_to(rows.update(i, replacement), after)
    } else {
        after == rows
    }
}

/// Inserting a row where its identity is absent may lead from `rows` to `after` and come to
/// `inserted`.
pub open spec fn inserts_absent(
    rows: Seq<EnvelopeView>,
    entry: EnvelopeView,
    after: Seq<EnvelopeView>,
    inserted: bool,
) -> bool {
    &&& inserted == !has_id(rows, entry.id())
    &&& if inserted {
        sorts_to(rows.push(entry), after)
    } else {
        after == rows
    }
}

/// A request that is refused for `refusal`, if that is some failure, and otherwise goes through
/// where `holds`, comes to `done`. It leads from `rows` to a sorted `target` where it goes through,
/// and leaves the rows as they are otherwise.
pub open spec fn rows_change(
    refusal: Option<FailureView>,
    holds: bool,
    rows: Seq<EnvelopeView>,
    target: Seq<EnvelopeView>,
    after: Seq<EnvelopeView>,
    done: Result<bool, FailureView>,
) -> bool {
    match refusal {
        Some(e) => done == Err::<bool, FailureView>(e) && after == rows,
        None => done == Ok::<bool, FailureView>(holds) && if holds {
            sorts_to(target, after)
        } else {
            after == rows
        },
    }
}

/// Replacing an exact set of rows and inserting companions may lead from `rows` to `after` and come
/// to `done`.
pub open spec fn swaps_batch(
    rows: Seq<EnvelopeView>,
    expected: Seq<EnvelopeView>,
    replacements: Seq<EnvelopeView>,
    after: Seq<EnvelopeView>,
    done: Result<bool, FailureView>,
) -> bool {
    rows_change(
        swap_batch_refusal(expected, replacements),
        all_current(rows, expected) && !collides(rows, ids_of(expected), replacements),
        rows,
        rows_outside(rows, ids_of(expected)) + replacements,
        after,
        done,
    )
}

/// Appending companions to exact rows may lead from `rows` to `after` and come to `done`.
pub open spec fn appends(
    rows: Seq<EnvelopeView>,
    expected: Seq<EnvelopeView>,
    additions: Seq<EnvelopeView>,
    after: Seq<EnvelopeView>,
    done: Result<bool, FailureView>,
) -> bool {
    rows_change(
        append_refusal(expected, additions),
        same_rows(rows, expected) && ids_of(rows).disjoint(ids_of(additions)),
        rows,
        rows + additions,
        after,
        done,
    )
}

/// Deleting an exact set of rows may lead from `rows` to `after` and come to `done`.
pub open spec fn deletes_batch(
    rows: Seq<EnvelopeView>,
    expected: Seq<EnvelopeView>,
    after: Seq<EnvelopeView>,
    done: Result<bool, FailureView>,
) -> bool {
    match delete_refusal(expected) {
        Some(e) => done == Err::<bool, FailureView>(e) && after == rows,
        None => done == Ok::<bool, FailureView>(all_current(rows, expected)) && after
            == if all_current(rows, expected) {
            rows_outside(rows, ids_of(expected))
        } else {
            rows
        },
    }
}

/// Replacing rows of exact rows and appending companions may lead from `rows` to `after` and come
/// to `done`.
pub open spec fn replaces(
    rows: Seq<EnvelopeView>,
    expected: Seq<EnvelopeView>,
    replacements: Seq<EnvelopeView>,
    after: Seq<EnvelopeView>,
    done: Result<bool, FailureView>,
) -> bool {
    rows_change(
        replace_refusal(expected, replacements),
        same_rows(rows, expected),
        rows,
        rows_outside(rows, ids_of(replacements)) + replacements,
        after,
        done,
    )
}

/// Replacing and deleting rows of exact rows may lead from `rows` to `after` and come to `done`.
pub open spec fn compacts(
    rows: Seq<EnvelopeView>,
    expected: Seq<EnvelopeView>,
    replacements: Seq<EnvelopeView>,
    deletions: Seq<EnvelopeView>,
    after: Seq<EnvelopeView>,
    done: Result<bool, FailureView>,
) -> bool {
    rows_change(
        compaction_refusal(expected, replacements, deletions),
        same_rows(rows, expected),
        rows,
        rows_outside(rows, ids_of(deletions).union(ids_of(replacements))) + replacements,
        after,
        done,
    )
}

/// Storing a row leads from `rows` to `after`.
pub open spec fn stores_row(
    rows: Seq<EnvelopeView>,
    entry: EnvelopeView,
    after: Seq<EnvelopeView>,
) -> bool {
    sorts_to(rows_outside(rows, set![entry.id()]).push(entry), after)
}

/// Deleting the rows of the identity of `entry` leads from `rows` to `after`.
pub open spec fn deletes_row(
    rows: Seq<EnvelopeView>,
    entry: EnvelopeView,
    after: Seq<EnvelopeView>,
) -> bool {
    after == rows_outside(rows, set![entry.id()])
}

/// Replacing all rows by `entries` leads to `after`.
pub open spec fn becomes(entries: Seq<EnvelopeView>, after: Seq<EnvelopeView>) -> bool {
    sorts_to(entries, after)
}

/// Whether every row of `expected` is the first row of its identity.
fn all_rows_current(rows: &Vec<CultCacheEnvelope>, expected: &[CultCacheEnvelope]) -> (current:
    bool)
    ensures
        current == all_current(views(rows@), views(expected@)),
{
    let mut i: usize = 0;
    while i < expected.len()
        invariant
            i <= expected.len(),
            forall|j: int|
                0 <= j < i ==> holds_row(views(rows@), #[trigger] views(expected@)[j]),
        decreases expected.len() - i,
    {
        if !is_current(rows, &expected[i]) {
            assert(!holds_row(views(rows@), views(expected@)[i as int]));
            return false;
        }
        i = i + 1;
    }
    true
}

/// Whether a row of `added` whose identity is not in `known` has an identity that `rows` hold.
fn rows_collide(
    rows: &Vec<CultCacheEnvelope>,
    known: &IdentitySet,
    added: &[CultCacheEnvelope],
) -> (collide: bool)
    requires
        known.wf(),
    ensures
        collide == collides(views(rows@), known@.dom(), views(added@)),
{
    let mut i: usize = 0;
    while i < added.len()
        invariant
            i <= added.len(),
            known.wf(),
            forall|j: int|
                0 <= j < i ==> known@.dom().contains((#[trigger] views(added@)[j]).id()) || !has_id(
                    views(rows@),
                    views(added@)[j].id(),
                ),
        decreases added.len() - i,
    {
        if !known.contains(&entry_id(&added[i])) {
            if let Some(at) = find_row(rows, &added[i]) {
                proof {
                    assert(views(rows@)[at as int].id() == views(added@)[i as int].id());
                }
                return true;
            }
        }
        i = i + 1;
    }
    false
}

/// A set of the identity of `entry` alone.
fn one_identity(entry: &CultCacheEnvelope) -> (ids: IdentitySet)
    ensures
        ids.wf(),
        ids@.dom() == set![entry@.id()],
{
    let mut ids: IdentitySet = OrderedMap::new();
    ids.insert(entry_id(entry), ());
    assert(ids@.dom() =~= set![entry@.id()]);
    ids
}

/// Takes the rows out of `rows`.
fn take_rows(rows: &mut Vec<CultCacheEnvelope>) -> (taken: Vec<CultCacheEnvelope>)
    ensures
        taken@ == old(rows)@,
{
    let mut taken: Vec<CultCacheEnvelope> = Vec::new();
    std::mem::swap(&mut taken, rows);
    taken
}

/// Replaces the rows of the identities `ids` by `added`.
fn replace_rows(
    rows: &mut Vec<CultCacheEnvelope>,
    ids: &IdentitySet,
    added: Vec<CultCacheEnvelope>,
)
    requires
        ids.wf(),
    ensures
        sorts_to(
            rows_outside(views(old(rows)@), ids@.dom()) + views(added@),
            views(final(rows)@),
        ),
{
    let mut kept = keep_outside(take_rows(rows), ids);
    join_rows(&mut kept, added);
    *rows = sort_rows(kept);
}

impl Clone for SingleFileMessagePackBackingStore {
    fn clone(&self) -> (copy: Self)
        ensures
            copy.at() == self.at(),
    {
        SingleFileMessagePackBackingStore { path: self.path.clone() }
    }
}

impl SingleFileMessagePackBackingStore {
    /// Where the store's file is.
    pub closed spec fn at(&self) -> std::path::PathBuf {
        self.path
    }

    /// The store in the file at `path`.
    pub fn new(path: std::path::PathBuf) -> (store: Self)
        ensures
            store.at() == path,
    {
        SingleFileMessagePackBackingStore { path }
    }

    /// Where the store's file is.
    pub fn path(&self) -> (path: &std::path::PathBuf)
        ensures
            *path == self.at(),
    {
        &self.path
    }

    /// Replaces one exact row. A changed or missing expected row gives `false`.
    pub fn compare_and_swap_entry(
        &self,
        rows: &mut Vec<CultCacheEnvelope>,
        expected: &CultCacheEnvelope,
        replacement: CultCacheEnvelope,
    ) -> (swapped: bool)
        ensures
            swaps_entry(
                views(old(rows)@),
                expected@,
                replacement@,
                views(final(rows)@),
                swapped,
            ),
            !swapped ==> *final(rows) == *old(rows),
    {
        if !is_current(rows, expected) {
            return false;
        }
        match find_row(rows, expected) {
            None => {
                proof {
                    let i = choose|i: int| #[trigger]
                        first_at(views(rows@), expected@.id(), i) && views(rows@)[i] == expected@;
                    assert(views(rows@)[i].id() == expected@.id());
                }
                false
            },
            Some(at) => {
                let ghost before = views(rows@);
                let mut all = take_rows(rows);
                all.set(at, replacement);
                assert(views(all@) =~= before.update(at as int, replacement@));
                *rows = sort_rows(all);
                true
            },
        }
    }

    /// Inserts one row where its identity is absent.
    pub fn insert_entry_if_absent(
        &self,
        rows: &mut Vec<CultCacheEnvelope>,
        entry: CultCacheEnvelope,
    ) -> (inserted: bool)
        ensures
            inserts_absent(views(old(rows)@), entry@, views(final(rows)@), inserted),
            !inserted ==> *final(rows) == *old(rows),
    {
        if let Some(at) = find_row(rows, &entry) {
            assert(views(rows@)[at as int].id() == entry@.id());
            return false;
        }
        let mut all = take_rows(rows);
        all.push(entry);
        assert(views(all@) =~= views(old(rows)@).push(entry@));
        *rows = sort_rows(all);
        true
    }

    /// Replaces an exact set of rows and inserts companions, all of it or nothing.
    pub fn compare_and_swap_batch(
        &self,
        rows: &mut Vec<CultCacheEnvelope>,
        expected: &[CultCacheEnvelope],
        replacements: Vec<CultCacheEnvelope>,
    ) -> (swapped: Result<bool, CultCacheError>)
        ensures
            swaps_batch(
                views(old(rows)@),
                views(expected@),
                views(replacements@),
                views(final(rows)@),
                outcome(swapped),
            ),
            swapped != Ok::<bool, CultCacheError>(true) ==> *final(rows) == *old(rows),
    {
        let expected_ids = check_swap_batch(expected, replacements.as_slice())?;
        if !all_rows_current(rows, expected) || rows_collide(
            rows,
            &expected_ids,
            replacements.as_slice(),
        ) {
            return Ok(false);
        }
        replace_rows(rows, &expected_ids, replacements);
        Ok(true)
    }

    /// Appends companions where the rows are exactly the expected ones.
    pub fn append_if_snapshot_unchanged(
        &self,
        rows: &mut Vec<CultCacheEnvelope>,
        expected_snapshot: &[CultCacheEnvelope],
        additions: Vec<CultCacheEnvelope>,
    ) -> (appended: Result<bool, CultCacheError>)
        ensures
            appends(
                views(old(rows)@),
                views(expected_snapshot@),
                views(additions@),
                views(final(rows)@),
                outcome(appended),
            ),
            appended != Ok::<bool, CultCacheError>(true) ==> *final(rows) == *old(rows),
    {
        check_append(expected_snapshot, additions.as_slice())?;
        if !matches_snapshot(rows, expected_snapshot) {
            return Ok(false);
        }
        let none: IdentitySet = OrderedMap::new();
        let collide = rows_collide(rows, &none, additions.as_slice());
        proof {
            let held = views(rows@);
            let added = views(additions@);
            assert(collide == !ids_of(held).disjoint(ids_of(added))) by {
                if collide {
                    let i = choose|i: int|
                        0 <= i < added.len() && !none@.dom().contains((#[trigger] added[i]).id())
                            && has_id(held, added[i].id());
                    assert(ids_of(held).contains(added[i].id()) && ids_of(added).contains(
                        added[i].id(),
                    ));
                }
                if !ids_of(held).disjoint(ids_of(added)) {
                    let id = choose|id: Identity|
                        ids_of(held).contains(id) && ids_of(added).contains(id);
                    let i = choose|i: int| 0 <= i < added.len() && (#[trigger] added[i]).id() == id;
                    assert(!none@.dom().contains(added[i].id()));
                }
            }
        }
        if collide {
            return Ok(false);
        }
        let mut all = take_rows(rows);
        join_rows(&mut all, additions);
        *rows = sort_rows(all);
        Ok(true)
    }

    /// Deletes an exact set of rows, all of it or nothing.
    pub fn delete_batch_if_unchanged(
        &self,
        rows: &mut Vec<CultCacheEnvelope>,
        expected: &[CultCacheEnvelope],
    ) -> (deleted: Result<bool, CultCacheError>)
        ensures
            deletes_batch(views(old(rows)@), views(expected@), views(final(rows)@), outcome(deleted)),
            deleted != Ok::<bool, CultCacheError>(true) ==> *final(rows) == *old(rows),
    {
        let expected_ids = check_delete(expected)?;
        if !all_rows_current(rows, expected) {
            return Ok(false);
        }
        *rows = keep_outside(take_rows(rows), &expected_ids);
        Ok(true)
    }

    /// Replaces rows and appends companions where the rows are exactly the expected ones.
    pub fn replace_and_append_if_snapshot_unchanged(
        &self,
        rows: &mut Vec<CultCacheEnvelope>,
        expected_snapshot: &[CultCacheEnvelope],
        replacements: Vec<CultCacheEnvelope>,
    ) -> (replaced: Result<bool, CultCacheError>)
        ensures
            replaces(
                views(old(rows)@),
                views(expected_snapshot@),
                views(replacements@),
                views(final(rows)@),
                outcome(replaced),
            ),
            replaced != Ok::<bool, CultCacheError>(true) ==> *final(rows) == *old(rows),
    {
        let replacement_ids = check_replace(expected_snapshot, replacements.as_slice())?;
        if !matches_snapshot(rows, expected_snapshot) {
            return Ok(false);
        }
        replace_rows(rows, &replacement_ids, replacements);
        Ok(true)
    }

    /// Replaces and deletes rows where the rows are exactly the expected ones.
    pub fn replace_and_delete_if_snapshot_unchanged(
        &self,
        rows: &mut Vec<CultCacheEnvelope>,
        expected_snapshot: &[CultCacheEnvelope],
        replacements: Vec<CultCacheEnvelope>,
        deletions: &[CultCacheEnvelope],
    ) -> (compacted: Result<bool, CultCacheError>)
        ensures
            compacts(
                views(old(rows)@),
                views(expected_snapshot@),
                views(replacements@),
                views(deletions@),
                views(final(rows)@),
                outcome(compacted),
            ),
            compacted != Ok::<bool, CultCacheError>(true) ==> *final(rows) == *old(rows),
    {
        let ids = check_compaction(expected_snapshot, replacements.as_slice(), deletions)?;
        if !matches_snapshot(rows, expected_snapshot) {
            return Ok(false);
        }
        let kept = keep_outside(take_rows(rows), &ids.deletions);
        proof {
            lemma_rows_outside_twice(
                views(old(rows)@),
                ids.deletions@.dom(),
                ids.replacements@.dom(),
            );
        }
        *rows = kept;
        replace_rows(rows, &ids.replacements, replacements);
        Ok(true)
    }

    /// Puts a row in the place of every row of its identity.
    pub fn push(&self, rows: &mut Vec<CultCacheEnvelope>, entry: &CultCacheEnvelope)
        ensures
            stores_row(views(old(rows)@), entry@, views(final(rows)@)),
    {
        let mut added: Vec<CultCacheEnvelope> = Vec::new();
        added.push(entry.clone());
        let ids = one_identity(entry);
        proof {
            let kept = rows_outside(views(rows@), ids@.dom());
            assert(kept + views(added@) =~= kept.push(entry@));
        }
        replace_rows(rows, &ids, added);
    }

    /// Deletes every row of the identity of `entry`.
    pub fn delete(&self, rows: &mut Vec<CultCacheEnvelope>, entry: &CultCacheEnvelope)
        ensures
            deletes_row(views(old(rows)@), entry@, views(final(rows)@)),
    {
        *rows = keep_outside(take_rows(rows), &one_identity(entry));
    }

    /// Replaces all rows by `entries`.
    pub fn push_all(&self, rows: &mut Vec<CultCacheEnvelope>, entries: &[CultCacheEnvelope])
        ensures
            becomes(views(entries@), views(final(rows)@)),
    {
        *rows = sort_rows(copy_rows(entries));
    }

    /// The rows of the file's contents.
    pub fn pull_all_read_only_snapshot<
        L: Fn(&Vec<u8>) -> Result<Vec<CultCacheEnvelope>, String>,
    >(&self, contents: Option<&Vec<u8>>, legacy: L) -> (rows: Result<
        Vec<CultCacheEnvelope>,
        CultCacheError,
    >)
        requires
            forall|bytes: &Vec<u8>| call_requires(legacy, (bytes,)),
        ensures
            reads(contents, legacy, rows_outcome(rows)),
    {
        read_all(contents, legacy)
    }

    /// Acts on the rows of the file's contents while whoever calls this holds the lock shared.
    pub fn with_read_only_shared_snapshot<
        T,
        L: Fn(&Vec<u8>) -> Result<Vec<CultCacheEnvelope>, String>,
        A: FnOnce(Vec<CultCacheEnvelope>) -> Result<T, CultCacheError>,
    >(&self, contents: Option<&Vec<u8>>, legacy: L, action: A) -> (result: Result<
        T,
        CultCacheError,
    >)
        requires
            forall|bytes: &Vec<u8>| call_requires(legacy, (bytes,)),
            forall|rows: Vec<CultCacheEnvelope>| call_requires(action, (rows,)),
        ensures
            acts(contents, legacy, action, result),
    {
        match read_all(contents, legacy) {
            Ok(rows) => action(rows),
            Err(e) => Err(e),
        }
    }

    /// Acts on the rows of the file's contents, then releases the lock: `unlock` is handed what
    /// came of the action. A failed release is reported to `on_unlock_failure` and does not change
    /// the result.
    pub fn with_read_only_shared_snapshot_and_unlock_diagnostic<
        T,
        E,
        L: Fn(&Vec<u8>) -> Result<Vec<CultCacheEnvelope>, String>,
        A: FnOnce(Vec<CultCacheEnvelope>) -> Result<T, CultCacheError>,
        U: FnOnce(&Result<T, CultCacheError>) -> Result<(), E>,
        D: FnOnce(E),
    >(
        &self,
        contents: Option<&Vec<u8>>,
        legacy: L,
        action: A,
        unlock: U,
        on_unlock_failure: D,
    ) -> (result: Result<T, CultCacheError>)
        requires
            forall|bytes: &Vec<u8>| call_requires(legacy, (bytes,)),
            forall|rows: Vec<CultCacheEnvelope>| call_requires(action, (rows,)),
            forall|r: &Result<T, CultCacheError>| call_requires(unlock, (r,)),
            forall|e: E| call_requires(on_unlock_failure, (e,)),
        ensures
            acts(contents, legacy, action, result),
            releases(unlock, on_unlock_failure, &result),
    {
        let result = self.with_read_only_shared_snapshot(contents, legacy, action);
        match unlock(&result) {
            Ok(_) => {},
            Err(e) => {
                on_unlock_failure(e);
            },
        }
        result
    }
}

/// `result` is what `action` gives for the rows of the contents, or why they cannot be read.
pub open spec fn acts<
    T,
    L: Fn(&Vec<u8>) -> Result<Vec<CultCacheEnvelope>, String>,
    A: FnOnce(Vec<CultCacheEnvelope>) -> Result<T, CultCacheError>,
>(
    contents: Option<&Vec<u8>>,
    legacy: L,
    action: A,
    result: Result<T, CultCacheError>,
) -> bool {
    ||| exists|rows: Vec<CultCacheEnvelope>| #[trigger]
        call_ensures(action, (rows,), result) && reads(
            contents,
            legacy,
            Ok::<Seq<EnvelopeView>, FailureView>(views(rows@)),
        )
    ||| result is Err && reads(
        contents,
        legacy,
        Err::<Seq<EnvelopeView>, FailureView>(result->Err_0@),
    )
}

/// `unlock` was called with the action's result, and `on_unlock_failure` with its failure where it
/// failed.
pub open spec fn releases<
    T,
    E,
    U: FnOnce(&Result<T, CultCacheError>) -> Result<(), E>,
    D: FnOnce(E),
>(unlock: U, on_unlock_failure: D, result: &Result<T, CultCacheError>) -> bool {
    exists|released: Result<(), E>| #[trigger]
        call_ensures(unlock, (result,), released) && match released {
            Ok(_) => true,
            Err(e) => call_ensures(on_unlock_failure, (e,), ()),
        }
}

/// Keeping the rows outside one set and then those outside another keeps the rows outside both.
pub proof fn lemma_rows_outside_twice(
    rows: Seq<EnvelopeView>,
    first: Set<Identity>,
    second: Set<Identity>,
)
    ensures
        rows_outside(rows_outside(rows, first), second) == rows_outside(
            rows,
            first.union(second),
        ),
    decreases rows.len(),
{
    if rows.len() == 0 {
        reveal(Seq::filter);
    } else {
        let rest = rows.drop_last();
        let row = rows.last();
        lemma_rows_outside_twice(rest, first, second);
        assert(rows =~= rest.push(row));
        crate::rows::lemma_rows_outside_push(rest, row, first);
        crate::rows::lemma_rows_outside_push(rest, row, first.union(second));
        crate::rows::lemma_rows_outside_push(rows_outside(rest, first), row, second);
    }
}

/// Where a file's contents can be read, the action is called with the rows, and its answer is the
/// result, whatever it is; where they cannot, the result is why.
pub proof fn readable_rows_are_acted_on<
    T,
    L: Fn(&Vec<u8>) -> Result<Vec<CultCacheEnvelope>, String>,
    A: FnOnce(Vec<CultCacheEnvelope>) -> Result<T, CultCacheError>,
>(
    contents: Option<&Vec<u8>>,
    legacy: L,
    action: A,
    result: Result<T, CultCacheError>,
)
    requires
        acts(contents, legacy, action, result),
    ensures
        (forall|e: FailureView|
            !#[trigger] reads(contents, legacy, Err::<Seq<EnvelopeView>, FailureView>(e)))
            ==> exists|rows: Vec<CultCacheEnvelope>| #[trigger]
            call_ensures(action, (rows,), result) && reads(
                contents,
                legacy,
                Ok::<Seq<EnvelopeView>, FailureView>(views(rows@)),
            ),
        (forall|rows: Seq<EnvelopeView>|
            !#[trigger] reads(contents, legacy, Ok::<Seq<EnvelopeView>, FailureView>(rows)))
            ==> result is Err && reads(
            contents,
            legacy,
            Err::<Seq<EnvelopeView>, FailureView>(result->Err_0@),
        ),
        result is Ok ==> exists|rows: Vec<CultCacheEnvelope>| #[trigger]
            call_ensures(action, (rows,), result) && reads(
                contents,
                legacy,
                Ok::<Seq<EnvelopeView>, FailureView>(views(rows@)),
            ),
{
}

/// The lock is released with what came of the action, and a release that fails is reported with its
/// failure.
pub proof fn failed_releases_are_reported<
    T,
    E,
    U: FnOnce(&Result<T, CultCacheError>) -> Result<(), E>,
    D: FnOnce(E),
>(unlock: U, on_unlock_failure: D, result: &Result<T, CultCacheError>)
    requires
        releases(unlock, on_unlock_failure, result),
    ensures
        exists|released: Result<(), E>| #[trigger] call_ensures(unlock, (result,), released),
        !call_ensures(unlock, (result,), Ok::<(), E>(())) ==> exists|e: E| #[trigger]
            call_ensures(on_unlock_failure, (e,), ()) && call_ensures(
                unlock,
                (result,),
                Err::<(), E>(e),
            ),
{
    let released = choose|released: Result<(), E>| #[trigger]
        call_ensures(unlock, (result,), released) && match released {
            Ok(_) => true,
            Err(e) => call_ensures(on_unlock_failure, (e,), ()),
        };
    assert(call_ensures(unlock, (result,), released));
    match released {
        Ok(done) => {
            assert(done == ());
            assert(call_ensures(unlock, (result,), Ok::<(), E>(())));
        },
        Err(e) => {
            assert(call_ensures(on_unlock_failure, (e,), ()));
            assert(call_ensures(unlock, (result,), Err::<(), E>(e)));
        },
    }
}

} // verus!

//! What a conditional request must look like before any row is looked at.

use crate::envelope::{views, CultCacheEnvelope, EnvelopeView};
use crate::error::{BatchRows, CultCacheError, Failure, FailureView};
use crate::rows::{ids_of, unique_batch_ids, unique_ids, IdentitySet};
use vstd::prelude::*;

verus! {

/// Why a batch of replacements for expected rows is refused outright, if it is.
pub open spec fn swap_batch_refusal(
    expected: Seq<EnvelopeView>,
    replacements: Seq<EnvelopeView>,
) -> Option<FailureView> {
    if replacements.len() == 0 {
        Some(Failure::ReplacementsEmpty)
    } else if !unique_ids(expected) {
        Some(Failure::DuplicateIdentities { rows: BatchRows::Expected })
    } else if !unique_ids(replacements) {
        Some(Failure::DuplicateIdentities { rows: BatchRows::Replacement })
    } else if !ids_of(expected).subset_of(ids_of(replacements)) {
        Some(Failure::ExpectedNotReplaced)
    } else {
        None
    }
}

/// Checks a batch of replacements and gives the identities of the expected rows.
pub fn check_swap_batch(expected: &[CultCacheEnvelope], replacements: &[CultCacheEnvelope]) -> (ids:
    Result<IdentitySet, CultCacheError>)
    ensures
        match ids {
            Ok(set) => {
                &&& swap_batch_refusal(views(expected@), views(replacements@)) is None
                &&& set.wf()
                &&& set@.dom() == ids_of(views(expected@))
            },
            Err(e) => swap_batch_refusal(views(expected@), views(replacements@)) == Some(e@),
        },
{
    if replacements.len() == 0 {
        return Err(Failure::ReplacementsEmpty);
    }
    let expected_ids = unique_batch_ids(expected, BatchRows::Expected)?;
    let replacement_ids = unique_batch_ids(replacements, BatchRows::Replacement)?;
    if !expected_ids.keys_within(&replacement_ids) {
        return Err(Failure::ExpectedNotReplaced);
    }
    Ok(expected_ids)
}

/// Why an append to an expected snapshot is refused outright, if it is.
pub open spec fn append_refusal(
    expected: Seq<EnvelopeView>,
    additions: Seq<EnvelopeView>,
) -> Option<FailureView> {
    if additions.len() == 0 {
        Some(Failure::AdditionsEmpty)
    } else if !unique_ids(expected) {
        Some(Failure::DuplicateIdentities { rows: BatchRows::ExpectedSnapshot })
    } else if !unique_ids(additions) {
        Some(Failure::DuplicateIdentities { rows: BatchRows::SnapshotAdditions })
    } else {
        None
    }
}

/// Checks an append and gives the identities of the additions.
pub fn check_append(
    expected_snapshot: &[CultCacheEnvelope],
    additions: &[CultCacheEnvelope],
) -> (ids: Result<IdentitySet, CultCacheError>)
    ensures
        match ids {
            Ok(set) => {
                &&& append_refusal(views(expected_snapshot@), views(additions@)) is None
                &&& set.wf()
                &&& set@.dom() == ids_of(views(additions@))
            },
            Err(e) => append_refusal(views(expected_snapshot@), views(additions@)) == Some(e@),
        },
{
    if additions.len() == 0 {
        return Err(Failure::AdditionsEmpty);
    }
    unique_batch_ids(expected_snapshot, BatchRows::ExpectedSnapshot)?;
    unique_batch_ids(additions, BatchRows::SnapshotAdditions)
}

/// Why a delete of expected rows is refused outright, if it is.
pub open spec fn delete_refusal(expected: Seq<EnvelopeView>) -> Option<FailureView> {
    if expected.len() == 0 {
        Some(Failure::ExpectedEmpty)
    } else if !unique_ids(expected) {
        Some(Failure::DuplicateIdentities { rows: BatchRows::DeleteExpected })
    } else {
        None
    }
}

/// Checks a delete and gives the identities of the expected rows.
pub fn check_delete(expected: &[CultCacheEnvelope]) -> (ids: Result<IdentitySet, CultCacheError>)
    ensures
        match ids {
            Ok(set) => {
                &&& delete_refusal(views(expected@)) is None
                &&& set.wf()
                &&& set@.dom() == ids_of(views(expected@))
            },
            Err(e) => delete_refusal(views(expected@)) == Some(e@),
        },
{
    if expected.len() == 0 {
        return Err(Failure::ExpectedEmpty);
    }
    unique_batch_ids(expected, BatchRows::DeleteExpected)
}

/// Why a replacement within an expected snapshot is refused outright, if it is.
pub open spec fn replace_refusal(
    expected: Seq<EnvelopeView>,
    replacements: Seq<EnvelopeView>,
) -> Option<FailureView> {
    if replacements.len() == 0 {
        Some(Failure::SnapshotReplacementsEmpty)
    } else if !unique_ids(expected) {
        Some(Failure::DuplicateIdentities { rows: BatchRows::ExpectedSnapshot })
    } else if !unique_ids(replacements) {
        Some(Failure::DuplicateIdentities { rows: BatchRows::SnapshotReplacements })
    } else {
        None
    }
}

/// Checks a replacement and gives the identities of the replacements.
pub fn check_replace(
    expected_snapshot: &[CultCacheEnvelope],
    replacements: &[CultCacheEnvelope],
) -> (ids: Result<IdentitySet, CultCacheError>)
    ensures
        match ids {
            Ok(set) => {
                &&& replace_refusal(views(expected_snapshot@), views(replacements@)) is None
                &&& set.wf()
                &&& set@.dom() == ids_of(views(replacements@))
            },
            Err(e) => replace_refusal(views(expected_snapshot@), views(replacements@)) == Some(e@),
        },
{
    if replacements.len() == 0 {
        return Err(Failure::SnapshotReplacementsEmpty);
    }
    unique_batch_ids(expected_snapshot, BatchRows::ExpectedSnapshot)?;
    unique_batch_ids(replacements, BatchRows::SnapshotReplacements)
}

/// Why a compaction is refused outright, if it is.
pub open spec fn compaction_refusal(
    expected: Seq<EnvelopeView>,
    replacements: Seq<EnvelopeView>,
    deletions: Seq<EnvelopeView>,
) -> Option<FailureView> {
    if replacements.len() == 0 || deletions.len() == 0 {
        Some(Failure::CompactionEmpty)
    } else if !unique_ids(expected) {
        Some(Failure::DuplicateIdentities { rows: BatchRows::ExpectedSnapshot })
    } else if !unique_ids(replacements) {
        Some(Failure::DuplicateIdentities { rows: BatchRows::Replacement })
    } else if !unique_ids(deletions) {
        Some(Failure::DuplicateIdentities { rows: BatchRows::Deletion })
    } else if !ids_of(deletions).subset_of(ids_of(expected)) {
        Some(Failure::DeletionUnexpected)
    } else if !ids_of(deletions).disjoint(ids_of(replacements)) {
        Some(Failure::ReplacedAndDeleted)
    } else {
        None
    }
}

/// The identities that a compaction names.
pub struct CompactionIds {
    pub expected: IdentitySet,
    pub replacements: IdentitySet,
    pub deletions: IdentitySet,
}

/// Checks a compaction and gives the identities that it names.
pub fn check_compaction(
    expected_snapshot: &[CultCacheEnvelope],
    replacements: &[CultCacheEnvelope],
    deletions: &[CultCacheEnvelope],
) -> (ids: Result<CompactionIds, CultCacheError>)
    ensures
        match ids {
            Ok(sets) => {
                &&& compaction_refusal(
                    views(expected_snapshot@),
                    views(replacements@),
                    views(deletions@),
                ) is None
                &&& sets.expected.wf()
                &&& sets.replacements.wf()
                &&& sets.deletions.wf()
                &&& sets.expected@.dom() == ids_of(views(expected_snapshot@))
                &&& sets.replacements@.dom() == ids_of(views(replacements@))
                &&& sets.deletions@.dom() == ids_of(views(deletions@))
            },
            Err(e) => compaction_refusal(
                views(expected_snapshot@),
                views(replacements@),
                views(deletions@),
            ) == Some(e@),
        },
{
    if replacements.len() == 0 || deletions.len() == 0 {
        return Err(Failure::CompactionEmpty);
    }
    let expected_ids = unique_batch_ids(expected_snapshot, BatchRows::ExpectedSnapshot)?;
    let replacement_ids = unique_batch_ids(replacements, BatchRows::Replacement)?;
    let deletion_ids = unique_batch_ids(deletions, BatchRows::Deletion)?;
    if !deletion_ids.keys_within(&expected_ids) {
        return Err(Failure::DeletionUnexpected);
    }
    if !deletion_ids.keys_apart(&replacement_ids) {
        return Err(Failure::ReplacedAndDeleted);
    }
    Ok(
        CompactionIds {
            expected: expected_ids,
            replacements: replacement_ids,
            deletions: deletion_ids,
        },
    )
}

} // verus!

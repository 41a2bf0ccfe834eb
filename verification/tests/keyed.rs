//! The keyed stores over databases in memory.

use cultcache_rs::envelope::CultCacheEnvelope;
use cultcache_rs::error::{BatchRows, CultCacheError, Failure};
use cultcache_rs::file_identity::unix_file_identity;
use cultcache_rs::keyed::{OwnedRedbMessagePackBackingStore, RedbMessagePackBackingStore};
use cultcache_rs::single_file::SingleFileMessagePackBackingStore;
use cultcache_rs::table::{
    decode_row, open_envelopes, opened_table, redb_identity, redb_row, EnvelopeTable, REDB_ENVELOPES,
};
use redb::{Database, ReadableDatabase, ReadableTable, StorageBackend, TableDefinition, TableError};
use std::path::PathBuf;
use std::sync::{Arc, Mutex};

type Outcome<T> = Result<T, CultCacheError>;

/// The bytes of one file, shared by its clones.
#[derive(Clone, Debug, Default)]
struct MemoryFile(Arc<Mutex<Vec<u8>>>);

impl StorageBackend for MemoryFile {
    fn len(&self) -> Result<u64, std::io::Error> {
        Ok(self.0.lock().unwrap().len() as u64)
    }

    fn read(&self, offset: u64, out: &mut [u8]) -> Result<(), std::io::Error> {
        let start = offset as usize;
        out.copy_from_slice(&self.0.lock().unwrap()[start..start + out.len()]);
        Ok(())
    }

    fn set_len(&self, len: u64) -> Result<(), std::io::Error> {
        self.0.lock().unwrap().resize(len as usize, 0);
        Ok(())
    }

    fn sync_data(&self) -> Result<(), std::io::Error> {
        Ok(())
    }

    fn write(&self, offset: u64, data: &[u8]) -> Result<(), std::io::Error> {
        let start = offset as usize;
        self.0.lock().unwrap()[start..start + data.len()].copy_from_slice(data);
        Ok(())
    }
}

fn open(file: &MemoryFile) -> Database {
    Database::builder().create_with_backend(file.clone()).unwrap()
}

fn decode(bytes: &Vec<u8>) -> Result<CultCacheEnvelope, String> {
    unpack_row(bytes)
}

/// Runs `action` in one transaction, which is committed where it answers that it changed rows.
fn change(
    database: &Database,
    action: impl FnOnce(&mut EnvelopeTable<'_>) -> Outcome<bool>,
) -> Outcome<bool> {
    let write = database.begin_write().unwrap();
    let changed = {
        let mut table = open_envelopes(&write)?;
        action(&mut table)?
    };
    if changed {
        write.commit().unwrap();
    }
    Ok(changed)
}

fn pairs(database: &Database) -> Vec<(Vec<u8>, Vec<u8>)> {
    let definition: TableDefinition<&[u8], &[u8]> = TableDefinition::new(REDB_ENVELOPES);
    let read = database.begin_read().unwrap();
    let table = match read.open_table(definition) {
        Ok(table) => table,
        Err(TableError::TableDoesNotExist(_)) => return Vec::new(),
        Err(error) => panic!("{error}"),
    };
    table
        .iter()
        .unwrap()
        .map(|pair| {
            let (key, value) = pair.unwrap();
            (key.value().to_vec(), value.value().to_vec())
        })
        .collect()
}

fn unpack_row(bytes: &[u8]) -> Result<CultCacheEnvelope, String> {
    let long: Result<(String, String, serde_bytes::ByteBuf, String, Option<String>), _> =
        rmp_serde::from_slice(bytes);
    if let Ok((key, entry_type, payload, stored_at, schema_id)) = long {
        return Ok(CultCacheEnvelope {
            key,
            entry_type,
            payload: payload.into_vec(),
            stored_at,
            schema_id,
        });
    }
    let short: Result<(String, String, serde_bytes::ByteBuf, String), _> =
        rmp_serde::from_slice(bytes);
    match short {
        Ok((key, entry_type, payload, stored_at)) => Ok(CultCacheEnvelope {
            key,
            entry_type,
            payload: payload.into_vec(),
            stored_at,
            schema_id: None,
        }),
        Err(error) => Err(error.to_string()),
    }
}

fn test_envelope(entry_type: &str, key: &str, payload: &[u8]) -> CultCacheEnvelope {
    CultCacheEnvelope {
        key: key.to_string(),
        entry_type: entry_type.to_string(),
        payload: payload.to_vec(),
        stored_at: "2026-07-13T00:00:00Z".to_string(),
        schema_id: Some(entry_type.to_string()),
    }
}

/// A keyed store that opens its file for each operation.
struct Keyed {
    store: RedbMessagePackBackingStore,
    file: MemoryFile,
}

impl Keyed {
    fn new(file: &MemoryFile, name: &str) -> Self {
        Keyed {
            store: RedbMessagePackBackingStore::new(PathBuf::from(name)),
            file: file.clone(),
        }
    }

    fn push(&mut self, entry: &CultCacheEnvelope) -> Outcome<()> {
        change(&open(&self.file), |table| {
            self.store.push(table, entry)?;
            Ok(true)
        })?;
        Ok(())
    }

    fn pull_all(&self) -> Outcome<Vec<CultCacheEnvelope>> {
        self.store.pull_all(pairs(&open(&self.file)), &decode)
    }

    fn compare_and_swap_batch(
        &self,
        expected: &[CultCacheEnvelope],
        replacements: Vec<CultCacheEnvelope>,
    ) -> Outcome<bool> {
        change(&open(&self.file), |table| {
            self.store.compare_and_swap_batch(table, expected, replacements, &decode)
        })
    }

    fn insert_entry_if_absent(&self, entry: CultCacheEnvelope) -> Outcome<bool> {
        change(&open(&self.file), |table| self.store.insert_entry_if_absent(table, entry))
    }

    fn replace_and_delete_if_snapshot_unchanged(
        &self,
        expected: &[CultCacheEnvelope],
        replacements: Vec<CultCacheEnvelope>,
        deletions: &[CultCacheEnvelope],
    ) -> Outcome<bool> {
        change(&open(&self.file), |table| {
            self.store.replace_and_delete_if_snapshot_unchanged(
                table,
                expected,
                replacements,
                deletions,
                &decode,
            )
        })
    }

    fn delete(&mut self, entry: &CultCacheEnvelope) -> Outcome<()> {
        change(&open(&self.file), |table| {
            self.store.delete(table, entry)?;
            Ok(true)
        })?;
        Ok(())
    }

    fn push_all(&mut self, entries: &[CultCacheEnvelope]) -> Outcome<()> {
        change(&open(&self.file), |table| {
            self.store.push_all(table, entries)?;
            Ok(true)
        })?;
        Ok(())
    }

    fn compare_and_swap_entry(
        &self,
        expected: &CultCacheEnvelope,
        replacement: CultCacheEnvelope,
    ) -> Outcome<bool> {
        change(&open(&self.file), |table| {
            self.store.compare_and_swap_entry(table, expected, replacement, &decode)
        })
    }

    fn append_if_snapshot_unchanged(
        &self,
        expected: &[CultCacheEnvelope],
        additions: Vec<CultCacheEnvelope>,
    ) -> Outcome<bool> {
        change(&open(&self.file), |table| {
            self.store.append_if_snapshot_unchanged(table, expected, additions, &decode)
        })
    }

    fn replace_and_append_if_snapshot_unchanged(
        &self,
        expected: &[CultCacheEnvelope],
        replacements: Vec<CultCacheEnvelope>,
    ) -> Outcome<bool> {
        change(&open(&self.file), |table| {
            self.store.replace_and_append_if_snapshot_unchanged(
                table,
                expected,
                replacements,
                &decode,
            )
        })
    }

    fn delete_batch_if_unchanged(&self, expected: &[CultCacheEnvelope]) -> Outcome<bool> {
        change(&open(&self.file), |table| {
            self.store.delete_batch_if_unchanged(table, expected, &decode)
        })
    }
}

/// A keyed store that keeps its file open.
struct Owned {
    store: OwnedRedbMessagePackBackingStore,
    database: Database,
    identity: String,
}

impl Owned {
    fn new(file: &MemoryFile, name: &str, identity: String) -> Outcome<Self> {
        Ok(Owned {
            store: OwnedRedbMessagePackBackingStore::new(
                PathBuf::from(name),
                identity.clone(),
                identity.clone(),
            )?,
            database: open(file),
            identity,
        })
    }

    fn push(&mut self, entry: &CultCacheEnvelope) -> Outcome<()> {
        change(&self.database, |table| {
            self.store.push(table, entry)?;
            Ok(true)
        })?;
        Ok(())
    }

    fn pull_all(&self) -> Outcome<Vec<CultCacheEnvelope>> {
        self.store.pull_all(pairs(&self.database), &decode)
    }

    fn compare_and_swap_batch(
        &self,
        expected: &[CultCacheEnvelope],
        replacements: Vec<CultCacheEnvelope>,
    ) -> Outcome<bool> {
        change(&self.database, |table| {
            self.store.compare_and_swap_batch(table, expected, replacements, &decode)
        })
    }

    fn insert_entry_if_absent(&self, entry: CultCacheEnvelope) -> Outcome<bool> {
        change(&self.database, |table| self.store.insert_entry_if_absent(table, entry))
    }

    fn replace_and_delete_if_snapshot_unchanged(
        &self,
        expected: &[CultCacheEnvelope],
        replacements: Vec<CultCacheEnvelope>,
        deletions: &[CultCacheEnvelope],
    ) -> Outcome<bool> {
        change(&self.database, |table| {
            self.store.replace_and_delete_if_snapshot_unchanged(
                table,
                expected,
                replacements,
                deletions,
                &decode,
            )
        })
    }
}

#[test]
fn redb_store_crud_and_reopen_preserve_polymorphic_rows() -> Outcome<()> {
    let file = MemoryFile::default();
    let model = test_envelope("model", "shared", b"one");
    let receipt = test_envelope("receipt", "shared", b"two");
    {
        let mut store = Keyed::new(&file, "keyed.cc");
        store.push(&model)?;
        store.push(&receipt)?;
        assert_eq!(store.pull_all()?.len(), 2);
        store.delete(&receipt)?;
    }
    let reopened = Keyed::new(&file, "keyed.cc");
    assert_eq!(reopened.pull_all()?, vec![model]);
    Ok(())
}

#[test]
fn redb_exact_cas_refuses_stale_value_without_mutation() -> Outcome<()> {
    let file = MemoryFile::default();
    let mut store = Keyed::new(&file, "cas.cc");
    let current = test_envelope("model", "current", b"one");
    store.push(&current)?;
    let stale = test_envelope("model", "current", b"stale");
    let replacement = test_envelope("model", "current", b"two");
    assert!(!store.compare_and_swap_entry(&stale, replacement.clone())?);
    assert_eq!(store.pull_all()?, vec![current.clone()]);
    assert!(store.compare_and_swap_entry(&current, replacement.clone())?);
    assert_eq!(store.pull_all()?, vec![replacement]);
    Ok(())
}

#[test]
fn redb_batch_is_atomic_and_stale_member_refuses_every_write() -> Outcome<()> {
    let file = MemoryFile::default();
    let mut store = Keyed::new(&file, "batch.cc");
    let first = test_envelope("model", "first", b"one");
    let second = test_envelope("model", "second", b"one");
    store.push(&first)?;
    store.push(&second)?;
    let stale_second = test_envelope("model", "second", b"stale");
    let first_two = test_envelope("model", "first", b"two");
    let second_two = test_envelope("model", "second", b"two");
    let receipt = test_envelope("receipt", "batch", b"committed");
    assert!(!store.compare_and_swap_batch(
        &[first.clone(), stale_second],
        vec![first_two.clone(), second_two.clone(), receipt.clone()],
    )?);
    assert_eq!(store.pull_all()?, vec![first.clone(), second.clone()]);
    assert!(store.compare_and_swap_batch(
        &[first, second],
        vec![first_two.clone(), second_two.clone(), receipt.clone()],
    )?);
    assert_eq!(store.pull_all()?, vec![first_two, second_two, receipt]);
    Ok(())
}

#[test]
fn redb_compaction_refuses_stale_snapshot_and_atomically_replaces_and_deletes() -> Outcome<()> {
    let file = MemoryFile::default();
    let mut store = Keyed::new(&file, "compact.cc");
    let old_head = test_envelope("retention", "current", b"one");
    let retired = test_envelope("receipt", "old", b"terminal");
    store.push(&old_head)?;
    store.push(&retired)?;
    let stale = store.pull_all()?;
    let concurrent = test_envelope("receipt", "running", b"active");
    assert!(store.insert_entry_if_absent(concurrent.clone())?);
    let new_head = test_envelope("retention", "current", b"two");
    assert!(!store.replace_and_delete_if_snapshot_unchanged(
        &stale,
        vec![new_head.clone()],
        std::slice::from_ref(&retired),
    )?);
    assert!(store.pull_all()?.contains(&retired));
    let exact = store.pull_all()?;
    assert!(store.replace_and_delete_if_snapshot_unchanged(
        &exact,
        vec![new_head.clone()],
        &[retired],
    )?);
    assert_eq!(store.pull_all()?, vec![concurrent, new_head]);
    Ok(())
}

#[test]
fn redb_entry_cas_does_not_depend_on_unrelated_snapshot_changes() -> Outcome<()> {
    let file = MemoryFile::default();
    let store = Keyed::new(&file, "independent.cc");
    let current = test_envelope("model", "current", b"one");
    assert!(store.insert_entry_if_absent(current.clone())?);
    let unrelated = test_envelope("event", "later", b"noise");
    assert!(store.insert_entry_if_absent(unrelated.clone())?);
    let replacement = test_envelope("model", "current", b"two");
    assert!(store.compare_and_swap_entry(&current, replacement.clone())?);
    assert_eq!(store.pull_all()?, vec![unrelated, replacement]);
    Ok(())
}

#[test]
fn redb_fresh_handles_share_one_database_for_the_same_cultcache_path() -> Outcome<()> {
    let file = MemoryFile::default();
    let mut first = Keyed::new(&file, "shared.cc");
    let second = Keyed::new(&file, "shared.cc");
    let initial = test_envelope("model", "current", b"one");
    first.push(&initial)?;
    assert_eq!(second.pull_all()?, vec![initial.clone()]);
    let replacement = test_envelope("model", "current", b"two");
    assert!(second.compare_and_swap_entry(&initial, replacement.clone())?);
    assert_eq!(first.pull_all()?, vec![replacement]);
    Ok(())
}

#[test]
fn owned_redb_file_identity_is_stable_across_writes_and_reopen() -> Outcome<()> {
    let file = MemoryFile::default();
    let identity = {
        let mut owner = Owned::new(&file, "identity.cc", unix_file_identity(2049, 77))?;
        let identity = owner.store.file_identity().to_string();
        owner.push(&test_envelope("model", "current", b"one"))?;
        owner.store.validate_path_identity(&owner.identity)?;
        owner.store.require_file_identity(&identity)?;
        identity
    };
    let reopened = Owned::new(&file, "identity.cc", unix_file_identity(2049, 77))?;
    assert_eq!(reopened.store.file_identity(), identity);
    assert_eq!(reopened.pull_all()?.len(), 1);
    Ok(())
}

#[test]
fn owned_redb_identity_helper_refuses_mismatch() -> Outcome<()> {
    let file = MemoryFile::default();
    let owner = Owned::new(&file, "mismatch.cc", unix_file_identity(2049, 77))?;
    assert!(owner.store.require_file_identity("not-the-owned-file").is_err());
    owner.store.require_file_identity(owner.store.file_identity())?;
    Ok(())
}

#[test]
fn owned_redb_batch_refuses_stale_member_and_commits_success_atomically() -> Outcome<()> {
    let file = MemoryFile::default();
    let mut owner = Owned::new(&file, "batch-owned.cc", unix_file_identity(2049, 77))?;
    let first = test_envelope("model", "first", b"one");
    let second = test_envelope("model", "second", b"one");
    owner.push(&first)?;
    owner.push(&second)?;
    let first_two = test_envelope("model", "first", b"two");
    let second_two = test_envelope("model", "second", b"two");
    let companion = test_envelope("receipt", "batch", b"committed");
    let stale_second = test_envelope("model", "second", b"stale");
    assert!(!owner.compare_and_swap_batch(
        &[first.clone(), stale_second],
        vec![first_two.clone(), second_two.clone(), companion.clone()],
    )?);
    assert_eq!(owner.pull_all()?, vec![first.clone(), second.clone()]);
    assert!(owner.compare_and_swap_batch(
        &[first, second],
        vec![first_two.clone(), second_two.clone(), companion.clone()],
    )?);
    assert_eq!(owner.pull_all()?, vec![first_two, second_two, companion]);
    Ok(())
}

#[test]
fn owned_redb_compaction_refuses_stale_snapshot_and_atomically_replaces_and_deletes()
-> Outcome<()> {
    let file = MemoryFile::default();
    let mut owner =
        Owned::new(&file, "compact-owned.cc", unix_file_identity(2049, 77))?;
    let old_head = test_envelope("retention", "current", b"one");
    let retired_a = test_envelope("claim", "a", b"terminal");
    let retired_b = test_envelope("receipt", "a", b"terminal");
    owner.push(&old_head)?;
    owner.push(&retired_a)?;
    owner.push(&retired_b)?;
    let stale = owner.pull_all()?;
    let concurrent = test_envelope("claim", "concurrent", b"running");
    assert!(owner.insert_entry_if_absent(concurrent.clone())?);
    let new_head = test_envelope("retention", "current", b"two");
    assert!(!owner.replace_and_delete_if_snapshot_unchanged(
        &stale,
        vec![new_head.clone()],
        &[retired_a.clone(), retired_b.clone()],
    )?);
    assert!(owner.pull_all()?.contains(&retired_a));
    let exact = owner.pull_all()?;
    assert!(owner.replace_and_delete_if_snapshot_unchanged(
        &exact,
        vec![new_head.clone()],
        &[retired_a, retired_b],
    )?);
    assert_eq!(owner.pull_all()?, vec![concurrent, new_head]);
    Ok(())
}

#[test]
fn full_snapshot_replacement_and_append_refuses_concurrent_rows() -> Outcome<()> {
    let snapshot_store =
        SingleFileMessagePackBackingStore::new(PathBuf::from("snapshot-replace-append.cc"));
    let mut rows = Vec::new();
    let current = test_envelope("session", "current", b"active");
    snapshot_store.push(&mut rows, &current);
    let stale_snapshot = rows.clone();
    let concurrent = test_envelope("event", "concurrent", b"live");
    snapshot_store.push(&mut rows, &concurrent);
    let completed = test_envelope("session", "current", b"completed");
    let receipt = test_envelope("receipt", "terminal", b"done");
    assert!(!snapshot_store.replace_and_append_if_snapshot_unchanged(
        &mut rows,
        &stale_snapshot,
        vec![completed.clone(), receipt.clone()],
    )?);
    assert_eq!(
        rows.clone(),
        vec![concurrent.clone(), current.clone()]
    );
    let exact_snapshot = rows.clone();
    assert!(snapshot_store.replace_and_append_if_snapshot_unchanged(
        &mut rows,
        &exact_snapshot,
        vec![completed.clone(), receipt.clone()],
    )?);
    assert_eq!(
        rows.clone(),
        vec![concurrent.clone(), receipt.clone(), completed.clone()]
    );

    let mut keyed_store = Keyed::new(&MemoryFile::default(), "keyed-replace-append.redb");
    keyed_store.push(&current)?;
    let stale_snapshot = keyed_store.pull_all()?;
    keyed_store.push(&concurrent)?;
    assert!(!keyed_store.replace_and_append_if_snapshot_unchanged(
        &stale_snapshot,
        vec![completed.clone(), receipt.clone()],
    )?);
    let exact_snapshot = keyed_store.pull_all()?;
    assert!(keyed_store.replace_and_append_if_snapshot_unchanged(
        &exact_snapshot,
        vec![completed.clone(), receipt.clone()],
    )?);
    assert_eq!(
        keyed_store.pull_all()?,
        vec![concurrent, receipt, completed]
    );
    Ok(())
}

#[test]
fn a_fresh_keyed_store_has_no_rows() -> Outcome<()> {
    let store = Keyed::new(&MemoryFile::default(), "fresh.cc");

    assert_eq!(store.store.path(), &PathBuf::from("fresh.cc"));
    assert!(store.pull_all()?.is_empty());
    Ok(())
}

#[test]
fn rows_come_in_the_order_of_their_identities() -> Outcome<()> {
    let mut store = Keyed::new(&MemoryFile::default(), "order.cc");
    let long_type = test_envelope("zz", "a", b"1");
    let late_key = test_envelope("a", "b", b"2");
    let early_key = test_envelope("a", "a", b"3");
    for row in [&long_type, &late_key, &early_key] {
        store.push(row)?;
    }

    assert_eq!(store.pull_all()?, vec![early_key, late_key, long_type]);
    Ok(())
}

#[test]
fn keyed_rows_of_both_shapes_are_read_back() -> Outcome<()> {
    let mut store = Keyed::new(&MemoryFile::default(), "shapes.cc");
    let with_schema = test_envelope("a", "a", b"schema");
    let mut without_schema = test_envelope("b", "b", b"plain");
    without_schema.schema_id = None;
    store.push(&with_schema)?;
    store.push(&without_schema)?;

    assert_eq!(store.pull_all()?, vec![with_schema, without_schema]);
    Ok(())
}

#[test]
fn packed_rows_are_decoded_again() -> Outcome<()> {
    let unread = |_: &Vec<u8>| -> Result<CultCacheEnvelope, String> { Err("unread".to_string()) };
    let mut row = test_envelope("model", "current", b"one");
    assert_eq!(decode_row(&redb_row(&row)?, &unread), Ok(row.clone()));
    row.schema_id = None;
    assert_eq!(decode_row(&redb_row(&row)?, &unread), Ok(row));
    assert_eq!(decode_row(&vec![0xc0], &unread), Err("unread".to_string()));
    Ok(())
}

#[test]
fn packed_identities_and_rows_are_messagepack_tuples() -> Outcome<()> {
    let mut row = test_envelope("model", "current", b"one");

    assert_eq!(redb_identity(&row)?, rmp_serde::to_vec(&("model", "current")).unwrap());
    assert_eq!(
        redb_row(&row)?,
        rmp_serde::to_vec(&(
            "current",
            "model",
            serde_bytes::ByteBuf::from(b"one".to_vec()),
            "2026-07-13T00:00:00Z",
            "model",
        ))
        .unwrap()
    );
    row.schema_id = None;
    assert_eq!(
        redb_row(&row)?,
        rmp_serde::to_vec(&(
            "current",
            "model",
            serde_bytes::ByteBuf::from(b"one".to_vec()),
            "2026-07-13T00:00:00Z",
        ))
        .unwrap()
    );
    Ok(())
}

#[test]
fn keyed_push_all_replaces_every_row_and_refuses_repeated_identities() -> Outcome<()> {
    let mut store = Keyed::new(&MemoryFile::default(), "all.cc");
    let before = test_envelope("model", "before", b"one");
    let first = test_envelope("model", "first", b"one");
    let second = test_envelope("model", "second", b"one");
    store.push(&before)?;

    let refused = store.push_all(&[first.clone(), second.clone(), first.clone()]);
    assert!(matches!(
        refused,
        Err(Failure::DuplicateIdentities { rows: BatchRows::PushAll })
    ));
    assert_eq!(store.pull_all()?, vec![before]);

    store.push_all(&[second.clone(), first.clone()])?;
    assert_eq!(store.pull_all()?, vec![first, second]);
    store.push_all(&[])?;
    assert!(store.pull_all()?.is_empty());
    Ok(())
}

#[test]
fn keyed_append_refuses_changed_rows_and_collisions() -> Outcome<()> {
    let mut store = Keyed::new(&MemoryFile::default(), "append.cc");
    let one = test_envelope("model", "one", b"1");
    let two = test_envelope("model", "two", b"2");
    let three = test_envelope("model", "three", b"3");
    store.push(&one)?;

    assert!(!store.append_if_snapshot_unchanged(&[], vec![two.clone()])?);
    assert!(!store.append_if_snapshot_unchanged(&[one.clone()], vec![one.clone()])?);
    assert!(store.append_if_snapshot_unchanged(&[one.clone()], vec![two.clone()])?);
    assert!(store.append_if_snapshot_unchanged(&[two.clone(), one.clone()], vec![three.clone()])?);
    assert_eq!(store.pull_all()?, vec![one, three, two]);
    Ok(())
}

#[test]
fn keyed_delete_batch_takes_all_rows_or_none() -> Outcome<()> {
    let mut store = Keyed::new(&MemoryFile::default(), "delete.cc");
    let one = test_envelope("model", "one", b"1");
    let two = test_envelope("model", "two", b"2");
    store.push(&one)?;
    store.push(&two)?;

    let stale = test_envelope("model", "two", b"stale");
    assert!(!store.delete_batch_if_unchanged(&[one.clone(), stale])?);
    assert_eq!(store.pull_all()?, vec![one.clone(), two.clone()]);
    assert!(store.delete_batch_if_unchanged(&[one])?);
    assert_eq!(store.pull_all()?, vec![two]);
    Ok(())
}

#[test]
fn keyed_entry_swap_refuses_another_identity() -> Outcome<()> {
    let mut store = Keyed::new(&MemoryFile::default(), "swap.cc");
    let one = test_envelope("model", "one", b"1");
    store.push(&one)?;

    let swapped = store.compare_and_swap_entry(&one, test_envelope("model", "two", b"2"));
    assert!(matches!(swapped, Err(Failure::IdentityChanged)));
    assert_eq!(store.pull_all()?, vec![one]);
    Ok(())
}

#[test]
fn an_undecodable_row_is_reported() {
    let store = RedbMessagePackBackingStore::new(PathBuf::from("broken.cc"));
    let pulled = store.pull_all(vec![(vec![0x92], vec![0xc1])], &decode);

    assert!(matches!(pulled, Err(Failure::RowUndecodable { .. })));
}

#[test]
fn keyed_and_single_file_stores_agree() -> Outcome<()> {
    let mut keyed = Keyed::new(&MemoryFile::default(), "agree.cc");
    let single = SingleFileMessagePackBackingStore::new(PathBuf::from("agree.cc"));
    let mut rows = Vec::new();
    let one = test_envelope("model", "one", b"1");
    let two = test_envelope("model", "two", b"2");
    let newer = test_envelope("model", "one", b"3");
    for row in [&one, &two] {
        keyed.push(row)?;
        single.push(&mut rows, row);
    }
    assert_eq!(keyed.pull_all()?, rows);

    let expected = [one.clone()];
    let replacements = vec![newer.clone(), test_envelope("event", "x", b"4")];
    for _ in 0..2 {
        assert_eq!(
            keyed.compare_and_swap_batch(&expected, replacements.clone())?,
            single.compare_and_swap_batch(&mut rows, &expected, replacements.clone())?
        );
        assert_eq!(keyed.pull_all()?, rows);
    }
    for deleted in [&one, &newer] {
        let deleted = std::slice::from_ref(deleted);
        assert_eq!(
            keyed.delete_batch_if_unchanged(deleted)?,
            single.delete_batch_if_unchanged(&mut rows, deleted)?
        );
        assert_eq!(keyed.pull_all()?, rows);
    }
    Ok(())
}

#[test]
fn an_owner_is_pinned_to_the_file_that_it_opened() -> Outcome<()> {
    let path = PathBuf::from("pinned.cc");
    let identity = unix_file_identity(2049, 77);
    let other = unix_file_identity(2049, 78);
    let redirected = OwnedRedbMessagePackBackingStore::new(
        path.clone(),
        identity.clone(),
        other.clone(),
    );
    assert!(matches!(redirected, Err(Failure::FileIdentityChanged { .. })));

    let owner = OwnedRedbMessagePackBackingStore::new(path.clone(), identity.clone(), identity.clone())?;
    let copy = owner.clone();
    assert_eq!(copy.file_identity(), owner.file_identity());
    assert_eq!(copy.path(), &path);
    assert!(owner.validate_path_identity(&identity).is_ok());
    assert!(owner.validate_path_identity(&other).is_err());
    Ok(())
}

#[test]
fn rows_that_are_arrays_need_no_decoder() -> Outcome<()> {
    let store = RedbMessagePackBackingStore::new(PathBuf::from("arrays.cc"));
    let with_schema = test_envelope("a", "a", b"schema");
    let mut without_schema = test_envelope("b", "b", b"plain");
    without_schema.schema_id = None;
    let mut pairs = Vec::new();
    for row in [&without_schema, &with_schema] {
        pairs.push((redb_identity(row)?, redb_row(row)?));
    }

    let refuse = |_: &Vec<u8>| -> Result<CultCacheEnvelope, String> { Err("refused".to_string()) };
    assert_eq!(
        store.pull_all(pairs, &refuse)?,
        vec![with_schema, without_schema]
    );
    Ok(())
}

#[test]
fn rows_that_are_no_arrays_are_left_to_the_decoder() -> Outcome<()> {
    let store = RedbMessagePackBackingStore::new(PathBuf::from("maps.cc"));
    let row = test_envelope("a", "a", b"named");
    let mut fields: std::collections::BTreeMap<&str, &str> = std::collections::BTreeMap::new();
    fields.insert("key", "a");
    let bytes = rmp_serde::to_vec(&fields).unwrap();

    let named = |given: &Vec<u8>| -> Result<CultCacheEnvelope, String> {
        assert_eq!(given, &bytes);
        Ok(row.clone())
    };
    assert_eq!(store.pull_all(vec![(vec![0x90], bytes.clone())], &named)?, vec![row.clone()]);
    let refuse = |_: &Vec<u8>| -> Result<CultCacheEnvelope, String> { Err("refused".to_string()) };
    assert!(matches!(
        store.pull_all(vec![(vec![0x90], bytes.clone())], &refuse),
        Err(Failure::RowUndecodable { cause }) if cause == "refused"
    ));
    Ok(())
}

#[test]
fn a_table_that_does_not_open_is_reported_in_the_words_of_the_error() {
    let error = TableError::TableDoesNotExist("shelf".to_string());
    let words = error.to_string();

    assert!(words.contains("shelf"));
    assert!(matches!(
        opened_table(Err(error)),
        Err(Failure::TableFailed { cause }) if cause == words
    ));
}

#[test]
fn the_table_of_envelopes_is_made_under_its_name_and_opens_once() {
    let database = open(&MemoryFile::default());
    let write = database.begin_write().unwrap();
    {
        let table = open_envelopes(&write);
        assert!(table.is_ok());
        assert!(matches!(open_envelopes(&write), Err(Failure::TableFailed { .. })));
    }
    assert!(open_envelopes(&write).is_ok());
    write.commit().unwrap();

    let definition: TableDefinition<&[u8], &[u8]> = TableDefinition::new("cultcache_envelopes");
    assert!(database.begin_read().unwrap().open_table(definition).is_ok());
}

#[test]
fn an_appended_batch_is_deleted_whole() -> Outcome<()> {
    let mut store = Keyed::new(&MemoryFile::default(), "undo.cc");
    store.push(&test_envelope("model", "one", b"1"))?;
    let former = store.pull_all()?;
    let batch = vec![test_envelope("event", "x", b"2"), test_envelope("model", "two", b"3")];
    assert!(store.append_if_snapshot_unchanged(&former, batch.clone())?);
    let appended = store.pull_all()?;
    assert_eq!(appended.len(), 3);

    let mut changed = batch.clone();
    changed[1].payload = b"4".to_vec();
    assert!(!store.delete_batch_if_unchanged(&changed)?);
    assert_eq!(store.pull_all()?, appended);
    assert!(store.delete_batch_if_unchanged(&batch)?);
    assert_eq!(store.pull_all()?, former);
    assert!(matches!(
        store.delete_batch_if_unchanged(&[]),
        Err(Failure::ExpectedEmpty)
    ));
    Ok(())
}

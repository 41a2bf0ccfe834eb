//! The single-file store over files in memory.

use cultcache_rs::envelope::CultCacheEnvelope;
use cultcache_rs::error::{CultCacheError, Failure};
use cultcache_rs::single_file::SingleFileMessagePackBackingStore;
use cultcache_rs::snapshot::{
    decode_store_snapshot, encode_store_snapshot, read_all, restore_rows, write_all,
};
use cultcache_rs::staging::{is_abandoned_staging_name, staging_file_name};
use cultcache_rs::store::{CacheBackingStore, PushAllOptions};
use std::collections::BTreeMap;
use std::path::PathBuf;
use std::sync::{Arc, Mutex};

type Outcome<T> = Result<T, CultCacheError>;

/// Files by their names, kept in memory.
#[derive(Clone, Default)]
struct Disk(Arc<Mutex<BTreeMap<String, Vec<u8>>>>);

impl Disk {
    fn read(&self, name: &str) -> Option<Vec<u8>> {
        self.0.lock().unwrap().get(name).cloned()
    }

    fn write(&self, name: &str, bytes: Vec<u8>) {
        self.0.lock().unwrap().insert(name.to_string(), bytes);
    }

    /// Removes what is left of writes to the file `name` that were never finished.
    fn clear(&self, name: &str) {
        self.0.lock().unwrap().retain(|other, _| !is_abandoned_staging_name(name, other));
    }

    fn holds(&self, name: &str) -> bool {
        self.0.lock().unwrap().contains_key(name)
    }
}

fn plain_rows(bytes: &Vec<u8>) -> Result<Vec<CultCacheEnvelope>, String> {
    let rows: Result<Vec<(String, String, serde_bytes::ByteBuf, String, Option<String>)>, _> =
        rmp_serde::from_slice(bytes);
    match rows {
        Ok(rows) => Ok(rows
            .into_iter()
            .map(
                |(key, entry_type, payload, stored_at, schema_id)| CultCacheEnvelope {
                    key,
                    entry_type,
                    payload: payload.into_vec(),
                    stored_at,
                    schema_id,
                },
            )
            .collect()),
        Err(error) => Err(error.to_string()),
    }
}

/// A single-file store over a file of a disk.
struct FileStore {
    store: SingleFileMessagePackBackingStore,
    disk: Disk,
}

impl FileStore {
    fn new(disk: &Disk, name: &str) -> Self {
        FileStore {
            store: SingleFileMessagePackBackingStore::new(PathBuf::from(name)),
            disk: disk.clone(),
        }
    }

    fn name(&self) -> String {
        self.store.path().display().to_string()
    }

    fn contents(&self) -> Option<Vec<u8>> {
        self.disk.read(&self.name())
    }

    fn rows(&self) -> Outcome<Vec<CultCacheEnvelope>> {
        self.store
            .pull_all_read_only_snapshot(self.contents().as_ref(), plain_rows)
    }

    fn save(&self, rows: &[CultCacheEnvelope]) -> Outcome<()> {
        self.disk.write(&self.name(), write_all(rows)?);
        Ok(())
    }

    fn change(
        &self,
        action: impl FnOnce(&mut Vec<CultCacheEnvelope>) -> Outcome<bool>,
    ) -> Outcome<bool> {
        let mut rows = self.rows()?;
        let changed = action(&mut rows)?;
        if changed {
            self.save(&rows)?;
        }
        Ok(changed)
    }

    fn compare_and_swap_entry(
        &self,
        expected: &CultCacheEnvelope,
        replacement: CultCacheEnvelope,
    ) -> Outcome<bool> {
        self.change(|rows| Ok(self.store.compare_and_swap_entry(rows, expected, replacement)))
    }

    fn insert_entry_if_absent(&self, entry: CultCacheEnvelope) -> Outcome<bool> {
        self.change(|rows| Ok(self.store.insert_entry_if_absent(rows, entry)))
    }

    fn compare_and_swap_batch(
        &self,
        expected: &[CultCacheEnvelope],
        replacements: Vec<CultCacheEnvelope>,
    ) -> Outcome<bool> {
        self.change(|rows| self.store.compare_and_swap_batch(rows, expected, replacements))
    }

    fn append_if_snapshot_unchanged(
        &self,
        expected: &[CultCacheEnvelope],
        additions: Vec<CultCacheEnvelope>,
    ) -> Outcome<bool> {
        self.change(|rows| self.store.append_if_snapshot_unchanged(rows, expected, additions))
    }

    fn delete_batch_if_unchanged(&self, expected: &[CultCacheEnvelope]) -> Outcome<bool> {
        self.change(|rows| self.store.delete_batch_if_unchanged(rows, expected))
    }

    fn replace_and_append_if_snapshot_unchanged(
        &self,
        expected: &[CultCacheEnvelope],
        replacements: Vec<CultCacheEnvelope>,
    ) -> Outcome<bool> {
        self.change(|rows| {
            self.store
                .replace_and_append_if_snapshot_unchanged(rows, expected, replacements)
        })
    }

    fn replace_and_delete_if_snapshot_unchanged(
        &self,
        expected: &[CultCacheEnvelope],
        replacements: Vec<CultCacheEnvelope>,
        deletions: &[CultCacheEnvelope],
    ) -> Outcome<bool> {
        self.change(|rows| {
            self.store.replace_and_delete_if_snapshot_unchanged(
                rows,
                expected,
                replacements,
                deletions,
            )
        })
    }
}

impl CacheBackingStore for FileStore {
    fn pull_all(&self) -> Outcome<Vec<CultCacheEnvelope>> {
        self.rows()
    }

    fn push(&mut self, entry: &CultCacheEnvelope) -> Outcome<()> {
        let mut rows = self.rows()?;
        self.store.push(&mut rows, entry);
        self.save(&rows)
    }

    fn delete(&mut self, entry: &CultCacheEnvelope) -> Outcome<()> {
        let mut rows = self.rows()?;
        self.store.delete(&mut rows, entry);
        self.save(&rows)
    }

    fn push_all(&mut self, entries: &[CultCacheEnvelope], _options: PushAllOptions) -> Outcome<()> {
        let mut rows = Vec::new();
        self.store.push_all(&mut rows, entries);
        self.save(&rows)
    }
}

fn test_envelope(entry_type: &str, key: &str, payload: &[u8]) -> CultCacheEnvelope {
    CultCacheEnvelope {
        key: key.to_string(),
        entry_type: entry_type.to_string(),
        payload: payload.to_vec(),
        stored_at: "2026-07-13T00:00:00Z".to_string(),
        schema_id: Some(entry_type.to_string()),
    }
}

#[test]
fn post_action_unlock_failure_is_diagnostic_not_action_result() -> Outcome<()> {
    let disk = Disk::default();
    let mut store = FileStore::new(&disk, "authority.cc");
    store.push(&CultCacheEnvelope {
        key: "brake".into(),
        entry_type: "brake".into(),
        payload: b"released".to_vec(),
        stored_at: "2026-07-20T00:00:00Z".into(),
        schema_id: Some("brake".into()),
    })?;

    let mut diagnostic = None;
    let result = store.store.with_read_only_shared_snapshot_and_unlock_diagnostic(
        store.contents().as_ref(),
        plain_rows,
        |_| Ok(42),
        |_: &Outcome<i32>| Err("injected post-action unlock failure".to_string()),
        |error: String| diagnostic = Some(error),
    );

    assert_eq!(result?, 42);
    assert_eq!(diagnostic.as_deref(), Some("injected post-action unlock failure"));
    Ok(())
}

#[test]
fn pulling_an_absent_store_does_not_create_its_parent_or_lock() -> Outcome<()> {
    let disk = Disk::default();
    let store = FileStore::new(&disk, "missing-body/cache.cc");

    assert!(store.pull_all()?.is_empty());
    assert!(!disk.holds("missing-body/cache.cc"));
    assert!(!disk.holds("missing-body/cache.cc.lock"));
    Ok(())
}

#[test]
fn provider_snapshot_read_does_not_create_or_open_a_lock() -> Outcome<()> {
    let disk = Disk::default();
    let mut store = FileStore::new(&disk, "provider.cc");
    let expected = test_envelope("provider.delivery", "one", b"payload");
    store.push(&expected)?;

    assert_eq!(
        store.store.pull_all_read_only_snapshot(store.contents().as_ref(), plain_rows)?,
        vec![expected]
    );
    assert!(!disk.holds("provider.cc.lock"));
    Ok(())
}

#[test]
fn conditional_batch_replaces_expected_and_inserts_companion_atomically() -> Outcome<()> {
    let disk = Disk::default();
    let mut store = FileStore::new(&disk, "conditional-batch.cc");
    let current = test_envelope("model", "current", b"revision-1");
    store.push(&current)?;
    let replacement = test_envelope("model", "current", b"revision-2");
    let companion = test_envelope("receipt", "migration-1", b"applied");

    assert!(store.compare_and_swap_batch(
        std::slice::from_ref(&current),
        vec![replacement.clone(), companion.clone()],
    )?);
    assert_eq!(store.pull_all()?, vec![replacement, companion]);
    Ok(())
}

#[test]
fn conditional_batch_allows_atomic_first_import_when_identities_are_absent() -> Outcome<()> {
    let disk = Disk::default();
    let store = FileStore::new(&disk, "conditional-import.cc");
    let model = test_envelope("model", "current", b"revision-1");
    let receipt = test_envelope("receipt", "migration-1", b"applied");

    assert!(store.compare_and_swap_batch(&[], vec![model.clone(), receipt.clone()])?);
    assert_eq!(store.pull_all()?, vec![model, receipt]);
    Ok(())
}

#[test]
fn conditional_batch_stale_expected_and_companion_collision_preserve_exact_bytes() -> Outcome<()> {
    let disk = Disk::default();
    let mut store = FileStore::new(&disk, "conditional-refusal.cc");
    let current = test_envelope("model", "current", b"revision-1");
    let occupied = test_envelope("receipt", "migration-1", b"someone-else");
    store.push(&current)?;
    store.push(&occupied)?;
    let before = store.contents();

    let stale = test_envelope("model", "current", b"stale-copy");
    let replacement = test_envelope("model", "current", b"revision-2");
    let fresh_companion = test_envelope("receipt", "migration-2", b"applied");
    assert!(!store.compare_and_swap_batch(&[stale], vec![replacement.clone(), fresh_companion])?);
    assert_eq!(store.contents(), before);

    assert!(!store.compare_and_swap_batch(
        &[current],
        vec![replacement, test_envelope("receipt", "migration-1", b"collision")],
    )?);
    assert_eq!(store.contents(), before);
    Ok(())
}

#[test]
fn conditional_batch_rejects_empty_replacements_and_duplicate_identities() -> Outcome<()> {
    let disk = Disk::default();
    let store = FileStore::new(&disk, "invalid-batch.cc");
    let entry = test_envelope("model", "current", b"one");

    assert!(store.compare_and_swap_batch(&[entry.clone()], Vec::new()).is_err());
    assert!(store
        .compare_and_swap_batch(&[], vec![entry.clone(), entry.clone()])
        .is_err());
    assert!(store
        .compare_and_swap_batch(
            &[entry.clone(), entry.clone()],
            vec![test_envelope("model", "current", b"two")],
        )
        .is_err());
    assert!(!disk.holds("invalid-batch.cc"));
    Ok(())
}

#[test]
fn single_file_compaction_atomically_replaces_summary_and_deletes_history() -> Outcome<()> {
    let disk = Disk::default();
    let mut store = FileStore::new(&disk, "conditional-compaction.cc");
    let history = test_envelope("history", "old", b"closed");
    let head = test_envelope("retention", "head", b"revision-1");
    store.push(&history)?;
    store.push(&head)?;
    let snapshot = store.pull_all()?;
    let next_head = test_envelope("retention", "head", b"revision-2");

    assert!(store.replace_and_delete_if_snapshot_unchanged(
        &snapshot,
        vec![next_head.clone()],
        std::slice::from_ref(&history),
    )?);
    assert_eq!(store.pull_all()?, vec![next_head]);

    let before = store.contents();
    assert!(!store.replace_and_delete_if_snapshot_unchanged(
        &snapshot,
        vec![test_envelope("retention", "head", b"revision-3")],
        std::slice::from_ref(&history),
    )?);
    assert_eq!(store.contents(), before);
    Ok(())
}

#[test]
fn snapshot_append_fences_concurrent_unknown_identity() -> Outcome<()> {
    let disk = Disk::default();
    let mut store = FileStore::new(&disk, "snapshot-append.cc");
    let model = test_envelope("model", "current", b"revision-1");
    store.push(&model)?;
    let expected = store.pull_all()?;
    let duplicate_admission = test_envelope("admission", "unexpected", b"also-current");
    store.push(&duplicate_admission)?;
    let before = store.contents();

    assert!(!store.append_if_snapshot_unchanged(
        &expected,
        vec![test_envelope("readiness", "proof", b"ready")],
    )?);
    assert_eq!(store.contents(), before);
    Ok(())
}

#[test]
fn snapshot_append_is_order_insensitive_and_refuses_collisions() -> Outcome<()> {
    let disk = Disk::default();
    let mut store = FileStore::new(&disk, "snapshot-order.cc");
    let a = test_envelope("a", "one", b"1");
    let b = test_envelope("b", "two", b"2");
    store.push(&a)?;
    store.push(&b)?;
    assert!(store.append_if_snapshot_unchanged(
        &[b.clone(), a.clone()],
        vec![test_envelope("proof", "three", b"3")],
    )?);
    let current = store.pull_all()?;
    assert!(!store.append_if_snapshot_unchanged(
        &current,
        vec![test_envelope("a", "one", b"collision")],
    )?);
    assert!(store.append_if_snapshot_unchanged(&current, Vec::new()).is_err());
    Ok(())
}

#[test]
fn type_and_key_identity_is_not_delimiter_ambiguous() -> Outcome<()> {
    let disk = Disk::default();
    let mut store = FileStore::new(&disk, "delimiter-identity.cc");
    let left = test_envelope("a::b", "c", b"left");
    let right = test_envelope("a", "b::c", b"right");
    store.push(&left)?;
    store.push(&right)?;
    let rows = store.pull_all()?;
    assert_eq!(rows.len(), 2);
    assert!(rows.contains(&left));
    assert!(rows.contains(&right));
    Ok(())
}

#[test]
fn next_exclusive_write_removes_only_exact_abandoned_staging_files() -> Outcome<()> {
    let disk = Disk::default();
    let mut store = FileStore::new(&disk, "cache.cc");
    let abandoned = staging_file_name(Some("cache.cc"));
    let unknown = "cache.cc.not-a-uuid.tmp";
    let other_store = "other.cc.00000000-0000-0000-0000-000000000000.tmp";
    disk.write(&abandoned, b"partial staging bytes".to_vec());
    disk.write(unknown, b"operator-owned unknown file".to_vec());
    disk.write(other_store, b"foreign store staging".to_vec());

    let pushed = test_envelope("model", "current", b"one");
    disk.clear("cache.cc");
    store.push(&pushed)?;

    assert!(!disk.holds(&abandoned));
    assert_eq!(disk.read(unknown), Some(b"operator-owned unknown file".to_vec()));
    assert_eq!(disk.read(other_store), Some(b"foreign store staging".to_vec()));
    assert_eq!(store.pull_all()?, vec![pushed]);
    Ok(())
}

#[test]
fn a_snapshot_names_its_format_its_schemas_and_its_records() -> Outcome<()> {
    let mut plain = test_envelope("note", "b", b"2");
    plain.schema_id = None;
    let rows = [
        test_envelope("settings", "a", b"1"),
        plain,
        CultCacheEnvelope {
            schema_id: Some("a\"b".to_string()),
            ..test_envelope("note", "c", b"3")
        },
    ];
    let (format, schemas, records) = encode_store_snapshot(&rows)?;

    assert_eq!(format, "cultcache.store.v1");
    assert_eq!(
        schemas[0],
        (
            "a\"b".to_string(),
            "note".to_string(),
            "a\"b.v1".to_string(),
            "a\"b".to_string(),
            "{\"schemaName\":\"a\\\"b\",\"schemaVersion\":\"a\\\"b.v1\",\"members\":[]}".to_string(),
            vec!["a\"b".to_string()],
            Vec::new(),
        )
    );
    let ids: Vec<&str> = schemas.iter().map(|schema| schema.0.as_str()).collect();
    assert_eq!(ids, vec!["a\"b", "note", "settings"]);
    assert_eq!(
        records[1],
        (
            "b".to_string(),
            "note".to_string(),
            "2026-07-13T00:00:00Z".to_string(),
            b"2".to_vec(),
        )
    );
    Ok(())
}

#[test]
fn written_rows_are_read_back_with_their_schemas() -> Outcome<()> {
    let named = test_envelope("settings", "a", b"1");
    let mut plain = test_envelope("note", "b", b"2");
    plain.schema_id = None;
    let bytes = write_all(&[named.clone(), plain.clone()])?;

    assert_ne!(bytes, Vec::<u8>::new());
    plain.schema_id = Some("note".to_string());
    assert_eq!(decode_store_snapshot(&bytes)?, vec![named.clone(), plain.clone()]);
    assert_eq!(read_all(Some(&bytes), plain_rows)?, vec![named, plain]);
    Ok(())
}

#[test]
fn a_schema_stands_for_one_type() {
    let first = test_envelope("note", "a", b"1");
    let mut second = test_envelope("settings", "b", b"2");
    second.schema_id = Some("note".to_string());

    let failure = write_all(&[first, second]).unwrap_err();
    assert_eq!(
        failure.message(),
        "CultCache schema \"note\" cannot identify both \"note\" and \"settings\""
    );
}

#[test]
fn snapshots_of_other_formats_and_without_their_schemas_are_refused() -> Outcome<()> {
    let (_, schemas, records) = encode_store_snapshot(&[test_envelope("note", "a", b"1")])?;
    let failure = restore_rows(("cultcache.store.v0".to_string(), schemas, records.clone()));
    assert!(matches!(
        failure,
        Err(Failure::SnapshotFormat { format }) if format == "cultcache.store.v0"
    ));
    let failure = restore_rows(("cultcache.store.v1".to_string(), Vec::new(), records));
    assert!(matches!(
        failure,
        Err(Failure::SchemaMissing { key, schema }) if key == "a" && schema == "note"
    ));
    let no_map = vec![0xc1];
    assert!(matches!(
        decode_store_snapshot(&no_map),
        Err(Failure::SnapshotUndecodable)
    ));
    Ok(())
}

#[test]
fn missing_empty_and_plain_files_are_read() -> Outcome<()> {
    assert!(read_all(None, plain_rows)?.is_empty());
    assert!(read_all(Some(&Vec::new()), plain_rows)?.is_empty());

    let plain: Vec<(&str, &str, serde_bytes::ByteBuf, &str, Option<&str>)> = vec![(
        "a",
        "note",
        serde_bytes::ByteBuf::from(vec![1]),
        "2026-07-13T00:00:00Z",
        None,
    )];
    let bytes = rmp_serde::to_vec(&plain).unwrap();
    let mut row = test_envelope("note", "a", &[1]);
    row.schema_id = None;
    assert_eq!(read_all(Some(&bytes), plain_rows)?, vec![row]);

    let garbage = vec![0xc1];
    assert!(matches!(
        read_all(Some(&garbage), plain_rows),
        Err(Failure::ContentsUndecodable { cause }) if !cause.is_empty()
    ));
    Ok(())
}

#[test]
fn pushes_and_deletes_touch_one_identity() {
    let store = SingleFileMessagePackBackingStore::new(PathBuf::from("one.cc"));
    let one = test_envelope("a", "one", b"1");
    let two = test_envelope("a", "two", b"2");
    let newer = test_envelope("a", "one", b"3");
    let mut rows = Vec::new();
    store.push(&mut rows, &two);
    store.push(&mut rows, &one);
    store.push(&mut rows, &newer);
    assert_eq!(rows, vec![newer.clone(), two.clone()]);
    store.push(&mut rows, &newer);
    assert_eq!(rows, vec![newer.clone(), two.clone()]);
    store.delete(&mut rows, &one);
    assert_eq!(rows, vec![two.clone()]);
    store.delete(&mut rows, &one);
    assert_eq!(rows, vec![two.clone()]);
    store.push_all(&mut rows, &[two.clone(), one.clone()]);
    assert_eq!(rows, vec![one, two]);
}

#[test]
fn entries_are_swapped_and_inserted_under_conditions() -> Outcome<()> {
    let disk = Disk::default();
    let store = FileStore::new(&disk, "entry.cc");
    let one = test_envelope("a", "one", b"1");
    let newer = test_envelope("a", "one", b"2");
    assert!(!store.compare_and_swap_entry(&one, newer.clone())?);
    assert!(store.insert_entry_if_absent(one.clone())?);
    assert!(!store.insert_entry_if_absent(newer.clone())?);
    assert!(!store.compare_and_swap_entry(&newer, one.clone())?);
    assert!(store.compare_and_swap_entry(&one, newer.clone())?);
    assert_eq!(store.pull_all()?, vec![newer]);
    Ok(())
}

#[test]
fn exact_rows_are_deleted_together() -> Outcome<()> {
    let disk = Disk::default();
    let mut store = FileStore::new(&disk, "delete.cc");
    let one = test_envelope("a", "one", b"1");
    let two = test_envelope("a", "two", b"2");
    store.push(&one)?;
    store.push(&two)?;
    assert!(!store.delete_batch_if_unchanged(&[one.clone(), test_envelope("a", "two", b"x")])?);
    assert_eq!(store.pull_all()?, vec![one.clone(), two.clone()]);
    assert!(store.delete_batch_if_unchanged(&[one])?);
    assert_eq!(store.pull_all()?, vec![two]);
    assert!(matches!(
        store.delete_batch_if_unchanged(&[]),
        Err(Failure::ExpectedEmpty)
    ));
    Ok(())
}

#[test]
fn a_failed_read_reaches_no_action() {
    let store = SingleFileMessagePackBackingStore::new(PathBuf::from("broken.cc"));
    let garbage = vec![0xc1];
    let mut acted = false;
    let result = store.with_read_only_shared_snapshot(Some(&garbage), plain_rows, |_| {
        acted = true;
        Ok(())
    });
    assert!(matches!(result, Err(Failure::ContentsUndecodable { .. })));
    assert!(!acted);
}

#[test]
fn an_action_answers_over_the_rows_of_the_snapshot() -> Outcome<()> {
    let store = SingleFileMessagePackBackingStore::new(PathBuf::from("answer.cc"));
    let bytes = write_all(&[test_envelope("a", "one", b"1")])?;
    let count = store.with_read_only_shared_snapshot(Some(&bytes), plain_rows, |rows| {
        Ok(rows.len())
    })?;
    assert_eq!(count, 1);
    let refused: Outcome<usize> =
        store.with_read_only_shared_snapshot(Some(&bytes), plain_rows, |_| {
            Err(Failure::Store { message: "no".to_string() })
        });
    assert!(matches!(refused, Err(Failure::Store { message }) if message == "no"));
    Ok(())
}

#[test]
fn the_lock_is_released_once_the_action_has_returned() -> Outcome<()> {
    let store = SingleFileMessagePackBackingStore::new(PathBuf::from("gate.cc"));
    let bytes = write_all(&[test_envelope("a", "one", b"1")])?;
    let log = Mutex::new(Vec::new());
    let result = store.with_read_only_shared_snapshot_and_unlock_diagnostic(
        Some(&bytes),
        plain_rows,
        |rows| {
            log.lock().unwrap().push("acted");
            Ok(rows.len())
        },
        |result: &Outcome<usize>| -> Result<(), String> {
            assert!(matches!(result, Ok(1)));
            log.lock().unwrap().push("released");
            Ok(())
        },
        |_| log.lock().unwrap().push("reported"),
    );

    assert_eq!(result?, 1);
    assert_eq!(*log.lock().unwrap(), vec!["acted", "released"]);
    Ok(())
}

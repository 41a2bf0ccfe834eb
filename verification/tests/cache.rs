//! The cache over stores that keep their files in memory.

use cultcache_rs::cache::{CultCache, CultCacheRegistry};
use cultcache_rs::document::DatabaseEntry;
use cultcache_rs::envelope::CultCacheEnvelope;
use cultcache_rs::error::{CultCacheError, Failure};
use cultcache_rs::ordered_map::OrderedMap;
use cultcache_rs::single_file::SingleFileMessagePackBackingStore;
use cultcache_rs::snapshot::write_all;
use cultcache_rs::soa::{CultCacheSoaTable, CultSoaColumnValues, SoaDocument};
use cultcache_rs::soa_values::SoaValues;
use cultcache_rs::store::{replace_row_by_row, CacheBackingStore, PushAllOptions};
use serde::ser::SerializeStruct;
use std::collections::BTreeMap;
use std::path::PathBuf;
use std::sync::atomic::{AtomicBool, Ordering};
use std::sync::{Arc, Mutex};

type Outcome<T> = Result<T, CultCacheError>;

/// Files by their names, kept in memory.
#[derive(Clone, Default)]
struct Disk(Arc<Mutex<BTreeMap<String, Vec<u8>>>>);

impl Disk {
    fn read(&self, name: &str) -> Option<Vec<u8>> {
        self.0.lock().unwrap().get(name).cloned()
    }

    fn write(&self, name: &str, bytes: Vec<u8>) {
        self.0.lock().unwrap().insert(name.to_string(), bytes);
    }
}

fn plain_rows(bytes: &Vec<u8>) -> Result<Vec<CultCacheEnvelope>, String> {
    let rows: Result<Vec<(String, String, serde_bytes::ByteBuf, String, Option<String>)>, _> =
        rmp_serde::from_slice(bytes);
    match rows {
        Ok(rows) => Ok(rows
            .into_iter()
            .map(
                |(key, entry_type, payload, stored_at, schema_id)| CultCacheEnvelope {
                    key,
                    entry_type,
                    payload: payload.into_vec(),
                    stored_at,
                    schema_id,
                },
            )
            .collect()),
        Err(error) => Err(error.to_string()),
    }
}

/// A single-file store over a file of a disk.
struct FileStore {
    store: SingleFileMessagePackBackingStore,
    disk: Disk,
}

impl FileStore {
    fn new(disk: &Disk, name: &str) -> Self {
        FileStore {
            store: SingleFileMessagePackBackingStore::new(PathBuf::from(name)),
            disk: disk.clone(),
        }
    }

    fn name(&self) -> String {
        self.store.path().display().to_string()
    }

    fn contents(&self) -> Option<Vec<u8>> {
        self.disk.read(&self.name())
    }

    fn rows(&self) -> Outcome<Vec<CultCacheEnvelope>> {
        self.store
            .pull_all_read_only_snapshot(self.contents().as_ref(), plain_rows)
    }

    fn save(&self, rows: &[CultCacheEnvelope]) -> Outcome<()> {
        self.disk.write(&self.name(), write_all(rows)?);
        Ok(())
    }
}

impl CacheBackingStore for FileStore {
    fn pull_all(&self) -> Outcome<Vec<CultCacheEnvelope>> {
        self.rows()
    }

    fn push(&mut self, entry: &CultCacheEnvelope) -> Outcome<()> {
        let mut rows = self.rows()?;
        self.store.push(&mut rows, entry);
        self.save(&rows)
    }

    fn delete(&mut self, entry: &CultCacheEnvelope) -> Outcome<()> {
        let mut rows = self.rows()?;
        self.store.delete(&mut rows, entry);
        self.save(&rows)
    }

    fn push_all(&mut self, entries: &[CultCacheEnvelope], _options: PushAllOptions) -> Outcome<()> {
        let mut rows = Vec::new();
        self.store.push_all(&mut rows, entries);
        self.save(&rows)
    }
}

#[derive(Clone, Debug, PartialEq, Eq)]
struct Settings {
    theme: String,
    retries: u32,
}

impl DatabaseEntry for Settings {
    const TYPE: &'static str = "settings";
    const SCHEMA_NAME: &'static str = "Settings";

    fn pack(&self) -> Result<Vec<u8>, String> {
        rmp_serde::to_vec(&(&self.theme, self.retries)).map_err(|error| error.to_string())
    }

    fn pack_named(&self) -> Result<Vec<u8>, String> {
        rmp_serde::to_vec_named(&(&self.theme, self.retries)).map_err(|error| error.to_string())
    }

    fn unpack(bytes: &Vec<u8>) -> Result<Self, String> {
        let slots: Result<(String, u32), _> = rmp_serde::from_slice(bytes);
        match slots {
            Ok((theme, retries)) => Ok(Settings { theme, retries }),
            Err(error) => Err(error.to_string()),
        }
    }
}

#[derive(Clone, Debug, PartialEq, Eq)]
struct Note {
    title: String,
    body: String,
}

impl DatabaseEntry for Note {
    const TYPE: &'static str = "note";
    const SCHEMA_NAME: &'static str = "Note";

    fn pack(&self) -> Result<Vec<u8>, String> {
        rmp_serde::to_vec(&(&self.title, &self.body)).map_err(|error| error.to_string())
    }

    fn pack_named(&self) -> Result<Vec<u8>, String> {
        rmp_serde::to_vec_named(&(&self.title, &self.body)).map_err(|error| error.to_string())
    }

    fn unpack(bytes: &Vec<u8>) -> Result<Self, String> {
        let slots: Result<(String, String), _> = rmp_serde::from_slice(bytes);
        match slots {
            Ok((title, body)) => Ok(Note { title, body }),
            Err(error) => Err(error.to_string()),
        }
    }
}

#[derive(Clone, Copy, Debug, Default)]
struct TestEntries;

impl CultCacheRegistry for TestEntries {
    fn register_entries(&self, cache: &mut CultCache) -> Outcome<()> {
        cache.register_entry_type::<Settings>()?;
        cache.register_entry_type::<Note>()?;
        Ok(())
    }
}

impl SoaDocument for Settings {
    type Column = SoaValues;

    fn soa_columns(rows: &[Self]) -> OrderedMap<String, CultSoaColumnValues<SoaValues>> {
        let mut columns = OrderedMap::new();
        let themes: Vec<String> = rows.iter().map(|row| row.theme.clone()).collect();
        let retries: Vec<u32> = rows.iter().map(|row| row.retries).collect();
        columns.insert("theme".to_string(), CultSoaColumnValues::new(themes));
        columns.insert("retries".to_string(), CultSoaColumnValues::new(retries));
        columns
    }
}

/// A structure whose optional fields are left out where they are empty.
#[derive(Clone, Debug, PartialEq, Eq)]
struct NestedOptionalValue {
    label: String,
    count: Option<u32>,
    symbol: Option<String>,
}

impl serde::Serialize for NestedOptionalValue {
    fn serialize<S: serde::Serializer>(&self, serializer: S) -> Result<S::Ok, S::Error> {
        let mut fields: usize = 1;
        if self.count.is_some() {
            fields += 1;
        }
        if self.symbol.is_some() {
            fields += 1;
        }
        let mut state = serializer.serialize_struct("NestedOptionalValue", fields)?;
        state.serialize_field("label", &self.label)?;
        if self.count.is_some() {
            state.serialize_field("count", &self.count)?;
        }
        if self.symbol.is_some() {
            state.serialize_field("symbol", &self.symbol)?;
        }
        state.end()
    }
}

struct NestedVisitor;

impl<'de> serde::de::Visitor<'de> for NestedVisitor {
    type Value = NestedOptionalValue;

    fn expecting(&self, formatter: &mut std::fmt::Formatter<'_>) -> std::fmt::Result {
        formatter.write_str("a nested value")
    }

    fn visit_seq<A: serde::de::SeqAccess<'de>>(self, mut seq: A) -> Result<Self::Value, A::Error> {
        let label: String = match seq.next_element()? {
            Some(label) => label,
            None => return Err(serde::de::Error::invalid_length(0, &"a label")),
        };
        let count: Option<u32> = seq.next_element()?.unwrap_or(None);
        let symbol: Option<String> = seq.next_element()?.unwrap_or(None);
        Ok(NestedOptionalValue { label, count, symbol })
    }

    fn visit_map<A: serde::de::MapAccess<'de>>(self, mut map: A) -> Result<Self::Value, A::Error> {
        let mut label: Option<String> = None;
        let mut count: Option<u32> = None;
        let mut symbol: Option<String> = None;
        while let Some(field) = map.next_key::<String>()? {
            match field.as_str() {
                "label" => label = Some(map.next_value()?),
                "count" => count = map.next_value()?,
                "symbol" => symbol = map.next_value()?,
                _ => {
                    map.next_value::<serde::de::IgnoredAny>()?;
                }
            }
        }
        match label {
            Some(label) => Ok(NestedOptionalValue { label, count, symbol }),
            None => Err(serde::de::Error::missing_field("label")),
        }
    }
}

impl<'de> serde::Deserialize<'de> for NestedOptionalValue {
    fn deserialize<D: serde::Deserializer<'de>>(deserializer: D) -> Result<Self, D::Error> {
        deserializer.deserialize_struct(
            "NestedOptionalValue",
            &["label", "count", "symbol"],
            NestedVisitor,
        )
    }
}

#[derive(Clone, Debug, PartialEq, Eq)]
struct NestedNote {
    value: NestedOptionalValue,
}

impl DatabaseEntry for NestedNote {
    const TYPE: &'static str = "nested-note";
    const SCHEMA_NAME: &'static str = "NestedNote";

    fn pack(&self) -> Result<Vec<u8>, String> {
        rmp_serde::to_vec(&(&self.value,)).map_err(|error| error.to_string())
    }

    fn pack_named(&self) -> Result<Vec<u8>, String> {
        rmp_serde::to_vec_named(&(&self.value,)).map_err(|error| error.to_string())
    }

    fn unpack(bytes: &Vec<u8>) -> Result<Self, String> {
        let slots: Result<(NestedOptionalValue,), _> = rmp_serde::from_slice(bytes);
        match slots {
            Ok((value,)) => Ok(NestedNote { value }),
            Err(error) => Err(error.to_string()),
        }
    }
}

/// A store that refuses batches on demand.
struct RefusingBatchStore {
    inner: FileStore,
    refuse_batch: Arc<AtomicBool>,
}

impl CacheBackingStore for RefusingBatchStore {
    fn pull_all(&self) -> Outcome<Vec<CultCacheEnvelope>> {
        self.inner.pull_all()
    }

    fn push(&mut self, entry: &CultCacheEnvelope) -> Outcome<()> {
        self.inner.push(entry)
    }

    fn delete(&mut self, entry: &CultCacheEnvelope) -> Outcome<()> {
        self.inner.delete(entry)
    }

    fn push_all(&mut self, entries: &[CultCacheEnvelope], options: PushAllOptions) -> Outcome<()> {
        if self.refuse_batch.load(Ordering::SeqCst) {
            return Err(Failure::Store { message: "injected batch refusal".to_string() });
        }
        self.inner.push_all(entries, options)
    }
}

const MOMENT: &str = "2026-07-13T00:00:00Z";

#[test]
fn familiar_cultcache_flow_persists_and_reloads_typed_documents() -> Outcome<()> {
    let disk = Disk::default();
    let settings = Settings { theme: "ash".to_string(), retries: 3 };

    let mut cache = CultCache::new();
    cache.register_entry_type::<Settings>()?;
    cache.add_generic_backing_store(Box::new(FileStore::new(&disk, "cache.cc")));
    cache.pull_all_backing_stores()?;
    cache.put("app".to_string(), &settings)?;
    assert_eq!(cache.get_required::<Settings>("app")?, settings);

    let mut reloaded = CultCache::new();
    reloaded.register_entry_type::<Settings>()?;
    reloaded.add_generic_backing_store(Box::new(FileStore::new(&disk, "cache.cc")));
    reloaded.pull_all_backing_stores()?;
    assert_eq!(reloaded.get_required::<Settings>("app")?, settings);
    Ok(())
}

#[test]
fn entry_identity_is_polymorphic_by_type_and_key() -> Outcome<()> {
    let disk = Disk::default();
    let mut cache = CultCache::new();
    cache.register_registry(TestEntries)?;
    cache.add_generic_backing_store(Box::new(FileStore::new(&disk, "cache.cc")));

    cache.put("shared".to_string(), &Settings { theme: "green".to_string(), retries: 1 })?;
    cache.put(
        "shared".to_string(),
        &Note { title: "same key".to_string(), body: "different type".to_string() },
    )?;

    assert_eq!(cache.snapshot().len(), 2);
    assert_eq!(cache.get_required::<Note>("shared")?.title, "same key");
    assert_eq!(cache.get_required::<Settings>("shared")?.theme, "green");
    Ok(())
}

#[test]
fn prepared_batch_publishes_heterogeneous_entries_in_one_snapshot() -> Outcome<()> {
    let disk = Disk::default();
    let mut cache = CultCache::new();
    cache.register_registry(TestEntries)?;
    cache.add_generic_backing_store(Box::new(FileStore::new(&disk, "batch.cc")));

    let (settings, _) = cache.prepare_entry(
        "app".to_string(),
        &Settings { theme: "iron".to_string(), retries: 4 },
    )?;
    let (note, _) = cache.prepare_entry(
        "receipt".to_string(),
        &Note { title: "committed".to_string(), body: "same snapshot".to_string() },
    )?;
    cache.put_prepared_batch(vec![settings, note])?;

    let mut reloaded = CultCache::new();
    reloaded.register_registry(TestEntries)?;
    reloaded.add_generic_backing_store(Box::new(FileStore::new(&disk, "batch.cc")));
    reloaded.pull_all_backing_stores()?;
    assert_eq!(reloaded.get_required::<Settings>("app")?.theme, "iron");
    assert_eq!(reloaded.get_required::<Note>("receipt")?.title, "committed");
    Ok(())
}

#[test]
fn named_preparation_preserves_omitted_nested_optional_slots() -> Outcome<()> {
    let disk = Disk::default();
    let mut cache = CultCache::new();
    cache.register_entry_type::<NestedNote>()?;
    cache.add_generic_backing_store(Box::new(FileStore::new(&disk, "named.cc")));
    cache.pull_all_backing_stores()?;
    let note = NestedNote {
        value: NestedOptionalValue {
            label: "nested".into(),
            count: None,
            symbol: Some("kept-in-its-own-field".into()),
        },
    };
    assert!(cache.prepare_entry("compact".to_string(), &note).is_err());
    let (entry, parsed) = cache.prepare_entry_named("named".to_string(), &note)?;
    assert_eq!(parsed, note);
    cache.put_prepared_batch(vec![entry])?;
    assert_eq!(cache.get_required::<NestedNote>("named")?, note);
    Ok(())
}

#[test]
fn refused_batch_preserves_prior_snapshot() -> Outcome<()> {
    let disk = Disk::default();
    let refusal = Arc::new(AtomicBool::new(false));
    let mut cache = CultCache::new();
    cache.register_registry(TestEntries)?;
    cache.add_generic_backing_store(Box::new(RefusingBatchStore {
        inner: FileStore::new(&disk, "refused-batch.cc"),
        refuse_batch: refusal.clone(),
    }));
    cache.put("app".to_string(), &Settings { theme: "before".to_string(), retries: 1 })?;
    let (note, _) = cache.prepare_entry(
        "receipt".to_string(),
        &Note { title: "after".to_string(), body: "must not land".to_string() },
    )?;
    refusal.store(true, Ordering::SeqCst);
    assert!(cache.put_prepared_batch(vec![note]).is_err());
    assert!(cache.get::<Note>("receipt")?.is_none());

    let mut reloaded = CultCache::new();
    reloaded.register_registry(TestEntries)?;
    reloaded.add_generic_backing_store(Box::new(FileStore::new(&disk, "refused-batch.cc")));
    reloaded.pull_all_backing_stores()?;
    assert_eq!(reloaded.get_required::<Settings>("app")?.theme, "before");
    assert!(reloaded.get::<Note>("receipt")?.is_none());
    Ok(())
}

#[test]
fn type_specific_store_routes_before_generic_store() -> Outcome<()> {
    let disk = Disk::default();
    let mut cache = CultCache::new();
    cache.register_entry_type::<Settings>()?;
    cache.register_entry_type::<Note>()?;
    cache.add_generic_backing_store(Box::new(FileStore::new(&disk, "generic.cc")));
    cache.add_backing_store(
        Box::new(FileStore::new(&disk, "settings.cc")),
        vec!["settings".to_string()],
    );

    cache.put("app".to_string(), &Settings { theme: "ash".to_string(), retries: 3 })?;
    cache.put(
        "memo".to_string(),
        &Note { title: "hello".to_string(), body: "world".to_string() },
    )?;

    let generic_entries = FileStore::new(&disk, "generic.cc").pull_all()?;
    let settings_entries = FileStore::new(&disk, "settings.cc").pull_all()?;
    assert_eq!(generic_entries[0].entry_type, "note");
    assert_eq!(settings_entries[0].entry_type, "settings");
    Ok(())
}

#[test]
fn update_and_delete_follow_the_cache_api() -> Outcome<()> {
    let disk = Disk::default();
    let mut cache = CultCache::new();
    cache.register_entry_type::<Settings>()?;
    cache.add_generic_backing_store(Box::new(FileStore::new(&disk, "cache.cc")));

    let updated = cache.update("app", |current: Option<Settings>| {
        let mut current =
            current.unwrap_or(Settings { theme: "ash".to_string(), retries: 0 });
        current.retries += 1;
        current
    })?;
    assert_eq!(updated.retries, 1);
    assert!(cache.delete::<Settings>("app")?);
    assert!(cache.get::<Settings>("app")?.is_none());
    Ok(())
}

#[test]
fn deleted_entries_are_not_pulled_again() -> Outcome<()> {
    let disk = Disk::default();
    let mut cache = CultCache::new();
    cache.register_entry_type::<Settings>()?;
    cache.add_generic_backing_store(Box::new(FileStore::new(&disk, "cache.cc")));
    let app = Settings { theme: "ash".to_string(), retries: 1 };
    let side = Settings { theme: "oak".to_string(), retries: 2 };
    cache.put("app".to_string(), &app)?;
    cache.put("side".to_string(), &side)?;
    assert!(cache.delete::<Settings>("app")?);

    let mut later = CultCache::new();
    later.register_entry_type::<Settings>()?;
    later.add_generic_backing_store(Box::new(FileStore::new(&disk, "cache.cc")));
    later.pull_all_backing_stores()?;
    assert!(later.get::<Settings>("app")?.is_none());
    assert_eq!(later.get_required::<Settings>("side")?, side);
    Ok(())
}

#[test]
fn pull_rejects_unregistered_persisted_entry_type() -> Outcome<()> {
    let disk = Disk::default();
    let mut store = FileStore::new(&disk, "cache.cc");
    store.push(&CultCacheEnvelope {
        key: "unknown".to_string(),
        entry_type: "unregistered".to_string(),
        payload: rmp_serde::to_vec(&1_u8).unwrap(),
        stored_at: MOMENT.to_string(),
        schema_id: Some("unregistered".to_string()),
    })?;

    let mut cache = CultCache::new();
    cache.add_generic_backing_store(Box::new(FileStore::new(&disk, "cache.cc")));
    let error = cache.pull_all_backing_stores().unwrap_err();
    assert!(error.message().contains("No schema is registered for persisted entry type"));
    Ok(())
}

#[test]
fn payload_is_binary_messagepack_not_json_value() -> Outcome<()> {
    let disk = Disk::default();
    let mut cache = CultCache::new();
    cache.register_entry_type::<Settings>()?;
    cache.add_generic_backing_store(Box::new(FileStore::new(&disk, "cache.cc")));
    cache.put("app".to_string(), &Settings { theme: "ash".to_string(), retries: 3 })?;

    let entry = cache.snapshot().remove(0);
    let decoded: (String, u32) = rmp_serde::from_slice(&entry.payload).unwrap();
    assert_eq!(decoded.0, "ash");
    assert!(!entry.payload.is_empty());
    Ok(())
}

#[test]
fn corrupted_payload_fails_during_typed_retrieval() -> Outcome<()> {
    let disk = Disk::default();
    let mut store = FileStore::new(&disk, "cache.cc");
    store.push(&CultCacheEnvelope {
        key: "app".to_string(),
        entry_type: "settings".to_string(),
        payload: vec![0xc1],
        stored_at: MOMENT.to_string(),
        schema_id: Some("settings".to_string()),
    })?;

    let mut cache = CultCache::new();
    cache.register_entry_type::<Settings>()?;
    cache.add_generic_backing_store(Box::new(FileStore::new(&disk, "cache.cc")));
    cache.pull_all_backing_stores()?;
    let error = cache.get_required::<Settings>("app").unwrap_err();
    assert!(error.message().contains("failed to decode CultCache entry"));
    Ok(())
}

#[test]
fn put_envelope_reuses_existing_messagepack_payload() -> Outcome<()> {
    let disk = Disk::default();

    let mut origin = CultCache::new();
    origin.register_entry_type::<Settings>()?;
    origin.add_generic_backing_store(Box::new(FileStore::new(&disk, "origin.cc")));
    origin.put("app".to_string(), &Settings { theme: "ash".to_string(), retries: 3 })?;

    let envelope = origin.get_required_envelope::<Settings>("app")?;

    let mut target = CultCache::new();
    target.register_entry_type::<Settings>()?;
    target.add_generic_backing_store(Box::new(FileStore::new(&disk, "target.cc")));
    let applied = target.put_envelope::<Settings>(envelope.clone())?;

    assert_eq!(applied, Settings { theme: "ash".to_string(), retries: 3 });
    assert_eq!(target.get_required::<Settings>("app")?, applied);
    assert_eq!(target.get_required_envelope::<Settings>("app")?.payload, envelope.payload);
    Ok(())
}

#[test]
fn raw_envelope_path_preserves_a_registered_dynamic_payload() -> Outcome<()> {
    let disk = Disk::default();
    let envelope = CultCacheEnvelope {
        key: "app".to_string(),
        entry_type: Settings::TYPE.to_string(),
        payload: vec![0xc1],
        stored_at: MOMENT.to_string(),
        schema_id: Some("dynamic.settings.v1".to_string()),
    };

    let mut cache = CultCache::new();
    cache.register_entry_type::<Settings>()?;
    cache.register_entry_type::<Note>()?;
    cache.add_generic_backing_store(Box::new(FileStore::new(&disk, "dynamic.cc")));
    cache.put_raw_envelope(envelope.clone())?;

    assert_eq!(cache.snapshot(), vec![envelope.clone()]);
    assert_eq!(FileStore::new(&disk, "dynamic.cc").pull_all()?, vec![envelope]);
    assert!(cache.get_required::<Settings>("app").is_err());
    let before_collision = disk.read("dynamic.cc");
    assert!(cache
        .put_raw_envelope(CultCacheEnvelope {
            key: "note".to_string(),
            entry_type: Note::TYPE.to_string(),
            payload: Vec::new(),
            stored_at: MOMENT.to_string(),
            schema_id: Some("dynamic.settings.v1".to_string()),
        })
        .is_err());
    assert_eq!(disk.read("dynamic.cc"), before_collision);
    assert!(cache
        .put_raw_envelope(CultCacheEnvelope {
            key: "foreign".to_string(),
            entry_type: "unregistered".to_string(),
            payload: Vec::new(),
            stored_at: MOMENT.to_string(),
            schema_id: None,
        })
        .is_err());
    Ok(())
}

#[test]
fn soa_snapshot_round_trips_registered_entries() -> Outcome<()> {
    let disk = Disk::default();
    let mut cache = CultCache::new();
    cache.register_registry(TestEntries)?;
    cache.add_generic_backing_store(Box::new(FileStore::new(&disk, "cache.cc")));
    cache.put("app".to_string(), &Settings { theme: "ash".to_string(), retries: 3 })?;
    cache.put(
        "memo".to_string(),
        &Note { title: "machine".to_string(), body: "awake".to_string() },
    )?;

    let soa = cache.snapshot_soa();
    assert_eq!(soa.len(), 2);
    assert_eq!(soa.keys.len(), soa.payloads.len());

    let mut restored = CultCache::new();
    restored.register_registry(TestEntries)?;
    restored.add_generic_backing_store(Box::new(FileStore::new(&disk, "restored.cc")));
    restored.load_soa(soa)?;
    assert_eq!(restored.get_required::<Settings>("app")?.theme, "ash");
    assert_eq!(restored.get_required::<Note>("memo")?.body, "awake");
    Ok(())
}

#[test]
fn typed_soa_columns_match_csharp_cache_ergonomics() -> Outcome<()> {
    let disk = Disk::default();
    let mut cache = CultCache::new();
    cache.register_registry(TestEntries)?;
    cache.add_generic_backing_store(Box::new(FileStore::new(&disk, "cache.cc")));
    cache.put("settings:a".to_string(), &Settings { theme: "ash".to_string(), retries: 3 })?;
    cache.put("settings:b".to_string(), &Settings { theme: "bone".to_string(), retries: 5 })?;

    let table = cache.soa::<Settings>()?;
    assert_eq!(table.keys(), &["settings:a".to_string(), "settings:b".to_string()]);
    assert_eq!(
        table.column::<String>("theme")?.values(),
        &["ash".to_string(), "bone".to_string()]
    );
    assert_eq!(table.column::<u32>("retries")?.values(), &[3, 5]);

    let error = table.column::<String>("retries").unwrap_err();
    assert!(error.message().contains("not alloc::string::String"));
    Ok(())
}

#[test]
fn soa_rejects_column_length_drift() {
    let table = CultCacheSoaTable {
        keys: vec!["app".to_string()],
        types: Vec::new(),
        payloads: Vec::new(),
        stored_ats: Vec::new(),
        schema_ids: Vec::new(),
    };
    let error = table.validate().unwrap_err();
    assert!(error.message().contains("column types has length 0"));
}

/// A store that keeps its rows in memory, shares them, and notes what is asked of it.
#[derive(Clone, Default)]
struct NotingStore {
    rows: Arc<Mutex<Vec<CultCacheEnvelope>>>,
    asked: Arc<Mutex<Vec<String>>>,
    refuses: Arc<AtomicBool>,
}

impl NotingStore {
    fn note(&self, request: &str, key: &str) -> Outcome<()> {
        self.asked.lock().unwrap().push(format!("{request} {key}"));
        if self.refuses.load(Ordering::SeqCst) {
            return Err(Failure::Store { message: "refused".to_string() });
        }
        Ok(())
    }

    fn asked(&self) -> Vec<String> {
        std::mem::take(&mut *self.asked.lock().unwrap())
    }
}

impl CacheBackingStore for NotingStore {
    fn pull_all(&self) -> Outcome<Vec<CultCacheEnvelope>> {
        self.note("pull", "all")?;
        Ok(self.rows.lock().unwrap().clone())
    }

    fn push(&mut self, entry: &CultCacheEnvelope) -> Outcome<()> {
        self.note("push", &entry.key)?;
        let mut rows = self.rows.lock().unwrap();
        rows.retain(|row| (&row.entry_type, &row.key) != (&entry.entry_type, &entry.key));
        rows.push(entry.clone());
        Ok(())
    }

    fn delete(&mut self, entry: &CultCacheEnvelope) -> Outcome<()> {
        self.note("delete", &entry.key)?;
        let mut rows = self.rows.lock().unwrap();
        rows.retain(|row| (&row.entry_type, &row.key) != (&entry.entry_type, &entry.key));
        Ok(())
    }

    fn push_all(&mut self, entries: &[CultCacheEnvelope], _options: PushAllOptions) -> Outcome<()> {
        replace_row_by_row(self, entries)
    }
}

fn ash() -> Settings {
    Settings { theme: "ash".to_string(), retries: 3 }
}

fn memo() -> Note {
    Note { title: "hello".to_string(), body: "world".to_string() }
}

fn noting_cache(store: &NotingStore) -> Outcome<CultCache> {
    let mut cache = CultCache::new();
    cache.register_registry(TestEntries)?;
    cache.add_generic_backing_store(Box::new(store.clone()));
    Ok(cache)
}

/// A document that calls its type by the name of another one.
#[derive(Clone, Debug)]
struct Impostor;

impl DatabaseEntry for Impostor {
    const TYPE: &'static str = "settings";
    const SCHEMA_NAME: &'static str = "Impostor";

    fn pack(&self) -> Result<Vec<u8>, String> {
        Err("cannot pack".to_string())
    }

    fn pack_named(&self) -> Result<Vec<u8>, String> {
        Err("cannot pack".to_string())
    }

    fn unpack(_bytes: &Vec<u8>) -> Result<Self, String> {
        Err("cannot unpack".to_string())
    }
}

/// A document without a name for its type.
#[derive(Clone, Debug)]
struct Nameless;

impl DatabaseEntry for Nameless {
    const TYPE: &'static str = " ";

    fn pack(&self) -> Result<Vec<u8>, String> {
        Ok(Vec::new())
    }

    fn pack_named(&self) -> Result<Vec<u8>, String> {
        Ok(Vec::new())
    }

    fn unpack(_bytes: &Vec<u8>) -> Result<Self, String> {
        Ok(Nameless)
    }
}

#[test]
fn types_are_registered_once_and_under_one_schema() -> Outcome<()> {
    let mut cache = CultCache::new();
    assert!(cache.registered_entry_types().is_empty());
    cache.register_registry(TestEntries)?;
    cache.register_document_type::<Settings>()?;
    assert_eq!(cache.registered_entry_types(), vec!["note".to_string(), "settings".to_string()]);
    assert!(matches!(
        cache.register_entry_type::<Impostor>(),
        Err(Failure::DefinitionConflict { entry_type }) if entry_type == "settings"
    ));
    assert!(matches!(
        cache.register_entry_type::<Nameless>(),
        Err(Failure::EmptyType)
    ));
    assert_eq!(cache.registered_entry_types().len(), 2);
    assert!(matches!(
        cache.get::<Impostor>("app"),
        Err(Failure::TypeNotRegistered { entry_type }) if entry_type == "settings"
    ));
    Ok(())
}

#[test]
fn documents_that_do_not_pack_are_refused() -> Outcome<()> {
    let mut cache = CultCache::new();
    cache.register_entry_type::<Impostor>()?;
    assert!(matches!(
        cache.prepare_entry("app".to_string(), &Impostor),
        Err(Failure::EntryUnencodable { cause, .. }) if cause == "cannot pack"
    ));
    assert!(matches!(
        cache.prepare_entry_named("app".to_string(), &Impostor),
        Err(Failure::NamedEntryUnencodable { cause, .. }) if cause == "cannot pack"
    ));
    Ok(())
}

#[test]
fn prepared_entries_carry_the_current_time_to_the_second() -> Outcome<()> {
    let mut cache = CultCache::new();
    cache.register_registry(TestEntries)?;
    let (entry, value) = cache.prepare_entry("app".to_string(), &ash())?;

    assert_eq!(value, ash());
    assert_eq!(entry.key, "app");
    assert_eq!(entry.entry_type, "settings");
    assert_eq!(entry.schema_id.as_deref(), Some("settings"));
    assert_eq!(entry.payload, ash().pack().unwrap());
    let shape: String = entry
        .stored_at
        .chars()
        .map(|c| if c.is_ascii_digit() { '0' } else { c })
        .collect();
    assert_eq!(shape, "0000-00-00T00:00:00Z");
    assert!(entry.stored_at.as_str() > "2020-01-01T00:00:00Z");
    Ok(())
}

#[test]
fn stores_are_asked_before_the_cache_changes() -> Outcome<()> {
    let store = NotingStore::default();
    let mut cache = noting_cache(&store)?;
    cache.put("app".to_string(), &ash())?;
    assert_eq!(store.asked(), vec!["push app"]);

    store.refuses.store(true, Ordering::SeqCst);
    let newer = Settings { theme: "bone".to_string(), retries: 5 };
    assert!(matches!(
        cache.put("app".to_string(), &newer),
        Err(Failure::Store { message }) if message == "refused"
    ));
    assert_eq!(cache.get::<Settings>("app")?, Some(ash()));
    assert!(cache.delete::<Settings>("app").is_err());
    assert_eq!(cache.get::<Settings>("app")?, Some(ash()));

    store.refuses.store(false, Ordering::SeqCst);
    store.asked();
    assert!(cache.delete::<Settings>("app")?);
    assert!(!cache.delete::<Settings>("app")?);
    assert_eq!(store.asked(), vec!["delete app"]);
    assert_eq!(cache.get::<Settings>("app")?, None);
    Ok(())
}

#[test]
fn a_type_without_a_store_is_not_written() -> Outcome<()> {
    let mut cache = CultCache::new();
    cache.register_registry(TestEntries)?;
    cache.add_backing_store(Box::new(NotingStore::default()), vec!["note".to_string()]);

    assert!(matches!(
        cache.put("app".to_string(), &ash()),
        Err(Failure::NoStore { entry_type }) if entry_type == "settings"
    ));
    assert!(cache.put("memo".to_string(), &memo()).is_ok());
    Ok(())
}

#[test]
fn every_store_of_a_route_is_asked_in_order() -> Outcome<()> {
    let first = NotingStore::default();
    let second = NotingStore::default();
    let generic = NotingStore::default();
    let mut cache = CultCache::new();
    cache.register_registry(TestEntries)?;
    cache.add_generic_backing_store(Box::new(generic.clone()));
    cache.add_backing_store(Box::new(first.clone()), vec!["note".to_string()]);
    cache.add_backing_store(
        Box::new(second.clone()),
        vec!["settings".to_string(), "note".to_string()],
    );
    second.refuses.store(true, Ordering::SeqCst);

    assert!(cache.put("memo".to_string(), &memo()).is_err());
    assert_eq!(first.asked(), vec!["push memo"]);
    assert_eq!(second.asked(), vec!["push memo"]);
    assert!(generic.asked().is_empty());
    assert_eq!(cache.get::<Note>("memo")?, None);
    Ok(())
}

#[test]
fn missing_entries_are_told_apart() -> Outcome<()> {
    let mut cache = noting_cache(&NotingStore::default())?;
    cache.put("memo".to_string(), &memo())?;

    assert_eq!(cache.get::<Settings>("memo")?, None);
    assert!(cache.get_envelope::<Settings>("memo")?.is_none());
    assert_eq!(
        cache.get_required::<Settings>("memo").unwrap_err().message(),
        "CultCache has no \"settings\" entry at key \"memo\""
    );
    assert_eq!(
        cache.get_required_envelope::<Settings>("memo").unwrap_err().message(),
        "CultCache has no \"settings\" envelope at key \"memo\""
    );
    assert_eq!(cache.get_required_envelope::<Note>("memo")?.payload, memo().pack().unwrap());
    Ok(())
}

#[test]
fn documents_of_a_type_come_in_the_order_of_their_keys() -> Outcome<()> {
    let mut cache = noting_cache(&NotingStore::default())?;
    for (key, retries) in [("b", 2), ("a", 1), ("c", 3)] {
        cache.put(key.to_string(), &Settings { theme: "ash".to_string(), retries })?;
    }
    cache.put("aa".to_string(), &memo())?;

    let all: Vec<u32> = cache.get_all::<Settings>()?.iter().map(|s| s.retries).collect();
    assert_eq!(all, vec![1, 2, 3]);
    let keys: Vec<String> = cache
        .get_all_with_keys::<Settings>()?
        .into_iter()
        .map(|pair| pair.0)
        .collect();
    assert_eq!(keys, vec!["a".to_string(), "b".to_string(), "c".to_string()]);
    let listed: Vec<String> = cache.snapshot().into_iter().map(|row| row.key).collect();
    assert_eq!(listed, vec!["aa", "a", "b", "c"]);
    Ok(())
}

#[test]
fn envelopes_are_checked_before_they_are_stored() -> Outcome<()> {
    let store = NotingStore::default();
    let mut cache = noting_cache(&store)?;
    let (entry, _) = cache.prepare_entry("app".to_string(), &ash())?;

    let mut blank_key = entry.clone();
    blank_key.key = "  ".to_string();
    assert!(matches!(
        cache.put_envelope::<Settings>(blank_key.clone()),
        Err(Failure::EnvelopeKeyBlank { entry_type }) if entry_type == "settings"
    ));
    assert!(matches!(
        cache.put_raw_envelope(blank_key),
        Err(Failure::EnvelopeKeyBlank { .. })
    ));
    let mut blank_time = entry.clone();
    blank_time.stored_at = String::new();
    assert!(matches!(
        cache.load_envelope::<Settings>(blank_time),
        Err(Failure::EnvelopeStoredAtBlank { entry_type }) if entry_type == "settings"
    ));
    assert!(matches!(
        cache.put_envelope::<Note>(entry.clone()),
        Err(Failure::EnvelopeTypeMismatch { found, wanted })
            if found == "settings" && wanted == "note"
    ));
    let mut corrupt = entry.clone();
    corrupt.payload = vec![0xc1];
    assert!(matches!(
        cache.put_envelope::<Settings>(corrupt),
        Err(Failure::EnvelopeInvalid { entry_type, key, .. })
            if entry_type == "settings" && key == "app"
    ));
    let mut foreign = entry.clone();
    foreign.entry_type = "foreign".to_string();
    assert!(matches!(
        cache.put_raw_envelope(foreign),
        Err(Failure::EnvelopeTypeUnknown { entry_type }) if entry_type == "foreign"
    ));
    assert!(store.asked().is_empty());

    assert_eq!(cache.load_envelope::<Settings>(entry.clone())?, ash());
    assert!(store.asked().is_empty());
    assert_eq!(cache.get::<Settings>("app")?, Some(ash()));
    assert_eq!(cache.snapshot_envelopes(), vec![entry]);
    Ok(())
}

#[test]
fn batches_need_one_store_that_all_their_types_share() -> Outcome<()> {
    let mut cache = noting_cache(&NotingStore::default())?;
    assert!(matches!(cache.put_prepared_batch(Vec::new()), Err(Failure::BatchEmpty)));

    let (entry, _) = cache.prepare_entry("app".to_string(), &ash())?;
    let (note, _) = cache.prepare_entry("memo".to_string(), &memo())?;
    let mut unknown = entry.clone();
    unknown.entry_type = "foreign".to_string();
    assert!(matches!(
        cache.put_prepared_batch(vec![unknown]),
        Err(Failure::BatchTypeUnknown { entry_type }) if entry_type == "foreign"
    ));

    let mut bare = CultCache::new();
    bare.register_registry(TestEntries)?;
    assert!(matches!(
        bare.put_prepared_batch(vec![entry.clone()]),
        Err(Failure::BatchRoute { stores: 0, .. })
    ));
    bare.add_generic_backing_store(Box::new(NotingStore::default()));
    bare.add_generic_backing_store(Box::new(NotingStore::default()));
    assert!(matches!(
        bare.put_prepared_batch(vec![entry.clone()]),
        Err(Failure::BatchRoute { stores: 2, .. })
    ));

    let mut split = CultCache::new();
    split.register_registry(TestEntries)?;
    split.add_backing_store(Box::new(NotingStore::default()), vec!["note".to_string()]);
    split.add_backing_store(Box::new(NotingStore::default()), vec!["settings".to_string()]);
    assert!(matches!(
        split.put_prepared_batch(vec![entry, note]),
        Err(Failure::BatchSpansStores)
    ));
    Ok(())
}

#[test]
fn a_store_without_a_replacement_of_its_own_goes_row_by_row() -> Outcome<()> {
    let store = NotingStore::default();
    let mut cache = noting_cache(&store)?;
    cache.put("app".to_string(), &ash())?;
    let (note, _) = cache.prepare_entry("memo".to_string(), &memo())?;
    store.asked();
    cache.put_prepared_batch(vec![note])?;

    assert_eq!(
        store.asked(),
        vec!["pull all", "delete app", "push memo", "push app"]
    );
    assert_eq!(cache.get::<Note>("memo")?, Some(memo()));
    assert_eq!(store.rows.lock().unwrap().len(), 2);

    let mut direct = store.clone();
    direct.push_all(&[], PushAllOptions::default())?;
    assert!(store.rows.lock().unwrap().is_empty());
    assert!(!PushAllOptions::default().soft);
    Ok(())
}

#[test]
fn pulling_replaces_what_the_cache_held() -> Outcome<()> {
    let store = NotingStore::default();
    let mut cache = noting_cache(&store)?;
    cache.put("app".to_string(), &ash())?;
    let (note, _) = cache.prepare_entry("memo".to_string(), &memo())?;
    *store.rows.lock().unwrap() = vec![note];
    cache.pull_all_backing_stores()?;

    assert_eq!(cache.get::<Settings>("app")?, None);
    assert_eq!(cache.get::<Note>("memo")?, Some(memo()));

    store.refuses.store(true, Ordering::SeqCst);
    assert!(cache.pull_all_backing_stores().is_err());
    Ok(())
}

#[test]
fn tables_of_unregistered_types_are_not_loaded() -> Outcome<()> {
    let store = NotingStore::default();
    let mut cache = noting_cache(&store)?;
    cache.put("app".to_string(), &ash())?;
    let mut table = cache.snapshot_soa();
    table.types[0] = "foreign".to_string();
    assert!(matches!(
        cache.load_soa(table),
        Err(Failure::SoaTypeUnknown { entry_type }) if entry_type == "foreign"
    ));
    assert_eq!(cache.get::<Settings>("app")?, None);
    Ok(())
}

#[test]
fn columns_are_found_by_their_names() -> Outcome<()> {
    let mut cache = noting_cache(&NotingStore::default())?;
    cache.put("app".to_string(), &ash())?;
    let table = cache.soa::<Settings>()?;

    assert_eq!(table.len(), 1);
    assert!(!table.is_empty());
    assert_eq!(table.documents(), &[ash()]);
    assert_eq!(table.column::<u32>("retries")?.name(), "retries");
    let copy = table.column::<u32>("retries")?.clone();
    assert_eq!(copy.name(), "retries");
    assert_eq!(copy.values(), table.column::<u32>("retries")?.values());
    assert!(matches!(
        table.column::<u32>("color"),
        Err(Failure::ColumnMissing { name }) if name == "color"
    ));
    assert!(matches!(
        table.column::<u64>("retries"),
        Err(Failure::ColumnType { name, stored, wanted })
            if name == "retries" && stored == "u32" && wanted == "u64"
    ));
    Ok(())
}

#[test]
fn updates_see_what_is_held() -> Outcome<()> {
    let mut cache = noting_cache(&NotingStore::default())?;
    let fresh = cache.update("app", |held: Option<Settings>| {
        assert_eq!(held, None);
        ash()
    })?;
    assert_eq!(fresh, ash());
    let next = cache.update("app", |held: Option<Settings>| {
        let mut settings = held.unwrap();
        settings.retries += 1;
        settings
    })?;
    assert_eq!(next.retries, 4);
    assert_eq!(cache.get_required::<Settings>("app")?.retries, 4);
    Ok(())
}

/// A store that notes how its rows are replaced, and does so in one go.
struct WholeStore {
    noting: NotingStore,
}

impl CacheBackingStore for WholeStore {
    fn pull_all(&self) -> Outcome<Vec<CultCacheEnvelope>> {
        self.noting.pull_all()
    }

    fn push(&mut self, entry: &CultCacheEnvelope) -> Outcome<()> {
        self.noting.push(entry)
    }

    fn delete(&mut self, entry: &CultCacheEnvelope) -> Outcome<()> {
        self.noting.delete(entry)
    }

    fn push_all(&mut self, entries: &[CultCacheEnvelope], options: PushAllOptions) -> Outcome<()> {
        let keys: Vec<&str> = entries.iter().map(|entry| entry.key.as_str()).collect();
        self.noting.note("replace", &format!("{keys:?} soft {}", options.soft))?;
        *self.noting.rows.lock().unwrap() = entries.to_vec();
        Ok(())
    }
}

#[test]
fn a_batch_asks_its_store_once_to_replace_all_rows() -> Outcome<()> {
    let noting = NotingStore::default();
    let mut cache = CultCache::new();
    cache.register_registry(TestEntries)?;
    cache.add_generic_backing_store(Box::new(WholeStore { noting: noting.clone() }));
    cache.put("app".to_string(), &ash())?;
    let (note, _) = cache.prepare_entry("memo".to_string(), &memo())?;
    let newer = Settings { theme: "bone".to_string(), retries: 5 };
    let (entry, _) = cache.prepare_entry("app".to_string(), &newer)?;
    noting.asked();

    noting.refuses.store(true, Ordering::SeqCst);
    let before = cache.snapshot();
    assert!(matches!(
        cache.put_prepared_batch(vec![note.clone(), entry.clone()]),
        Err(Failure::Store { message }) if message == "refused"
    ));
    assert_eq!(noting.asked(), vec!["replace [\"memo\", \"app\"] soft false"]);
    assert_eq!(cache.snapshot(), before);
    assert_eq!(*noting.rows.lock().unwrap(), before);

    noting.refuses.store(false, Ordering::SeqCst);
    cache.put_prepared_batch(vec![note.clone(), entry.clone()])?;
    assert_eq!(noting.asked(), vec!["replace [\"memo\", \"app\"] soft false"]);
    assert_eq!(cache.snapshot(), vec![note, entry]);
    assert_eq!(*noting.rows.lock().unwrap(), cache.snapshot());

    let published = cache.snapshot();
    cache.pull_all_backing_stores()?;
    assert_eq!(cache.snapshot(), published);
    Ok(())
}

#[test]
fn replacing_row_by_row_stops_at_the_first_failure() -> Outcome<()> {
    let store = NotingStore::default();
    let mut cache = noting_cache(&store)?;
    cache.put("app".to_string(), &ash())?;
    let rows = cache.snapshot();
    store.asked();
    store.refuses.store(true, Ordering::SeqCst);

    let mut direct = store.clone();
    assert!(replace_row_by_row(&mut direct, &[]).is_err());
    assert_eq!(store.asked(), vec!["pull all"]);
    assert_eq!(*store.rows.lock().unwrap(), rows);
    Ok(())
}

#[test]
fn collected_documents_and_listed_envelopes_are_those_found() -> Outcome<()> {
    let mut cache = noting_cache(&NotingStore::default())?;
    for (key, retries) in [("b", 2), ("a", 1)] {
        cache.put(key.to_string(), &Settings { theme: "ash".to_string(), retries })?;
    }
    cache.put("a".to_string(), &memo())?;

    let pairs = cache.get_all_with_keys::<Settings>()?;
    for (key, document) in &pairs {
        assert_eq!(cache.get::<Settings>(key)?.as_ref(), Some(document));
    }
    let documents: Vec<Settings> = pairs.into_iter().map(|pair| pair.1).collect();
    assert_eq!(cache.get_all::<Settings>()?, documents);
    for entry in cache.snapshot_envelopes() {
        assert!(cache.registered_entry_types().contains(&entry.entry_type));
        if entry.entry_type == "settings" {
            assert_eq!(cache.get_envelope::<Settings>(&entry.key)?, Some(entry));
        }
    }
    Ok(())
}

#[test]
fn columns_give_the_same_snapshot_in_another_cache() -> Outcome<()> {
    let mut cache = noting_cache(&NotingStore::default())?;
    cache.put("app".to_string(), &ash())?;
    cache.put("memo".to_string(), &memo())?;
    let store = NotingStore::default();
    let mut other = noting_cache(&store)?;
    other.put("old".to_string(), &memo())?;
    store.asked();

    other.load_soa(cache.snapshot_soa())?;
    assert_eq!(other.snapshot(), cache.snapshot());
    assert!(store.asked().is_empty());
    Ok(())
}

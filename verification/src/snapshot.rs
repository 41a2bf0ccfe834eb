//! Snapshots: how a store's rows stand in one file.

use crate::envelope::{copy_bytes, views, CultCacheEnvelope, EnvelopeView};
use crate::error::{CultCacheError, Failure, FailureView};
use crate::messagepack::{
    catalog_view, packed_snapshot, record_view, records_view, schema_view, snapshot_bytes,
    snapshot_fits, snapshot_packing_failed, snapshot_view, unpack_snapshot, unpacked_snapshot,
    MemberView, PersistedRecord, PersistedSchemaCatalogEntry, PersistedStoreSnapshot, RecordView,
    SchemaView, SnapshotView,
};
use crate::order::text_before;
use crate::ordered_map::{lemma_item_in_map, OrderedMap};
use crate::rows::rows_outcome;
use crate::text::{escape_json_string, json_escaped, same_text};
use vstd::prelude::*;
use vstd::string::*;

verus! {

/// The format that a snapshot names.
pub const STORE_FORMAT: &'static str = "cultcache.store.v1";

/// The first `i` rows use one schema for one type only, and the row at `i` uses the schema of
/// the row at `j`, which stands before it, for another type.
pub open spec fn schema_conflict(rows: Seq<EnvelopeView>, j: int, i: int) -> bool {
    &&& 0 <= j < i < rows.len()
    &&& schemas_agree(rows.take(i))
    &&& rows[j].schema() == rows[i].schema()
    &&& rows[j].entry_type != rows[i].entry_type
}

/// No schema is used for two types.
pub open spec fn schemas_agree(rows: Seq<EnvelopeView>) -> bool {
    forall|i: int, j: int|
        0 <= i < rows.len() && 0 <= j < rows.len() && (#[trigger] rows[i]).schema() == (
        #[trigger] rows[j]).schema() ==> rows[i].entry_type == rows[j].entry_type
}

/// The JSON text that describes a schema.
pub open spec fn schema_json(schema: Seq<char>) -> Seq<char> {
    "{\"schemaName\":\""@ + json_escaped(schema) + "\",\"schemaVersion\":\""@ + json_escaped(schema)
        + ".v1\",\"members\":[]}"@
}

/// How a schema stands in the catalog of a snapshot.
pub open spec fn catalog_entry(schema: Seq<char>, document_type: Seq<char>) -> SchemaView {
    (
        schema,
        document_type,
        schema + ".v1"@,
        schema,
        schema_json(schema),
        seq![schema],
        Seq::<MemberView>::empty(),
    )
}

/// How a row stands among the records of a snapshot.
pub open spec fn record_of(row: EnvelopeView) -> RecordView {
    (row.key, row.schema(), row.stored_at, row.payload)
}

/// The records of `rows`, in their order.
pub open spec fn records_of(rows: Seq<EnvelopeView>) -> Seq<RecordView> {
    Seq::new(rows.len(), |i: int| record_of(rows[i]))
}

/// Some row has the schema `schema` and the type `document_type`.
pub open spec fn uses_schema(
    rows: Seq<EnvelopeView>,
    schema: Seq<char>,
    document_type: Seq<char>,
) -> bool {
    exists|i: int|
        0 <= i < rows.len() && (#[trigger] rows[i]).schema() == schema && rows[i].entry_type
            == document_type
}

/// The schemas stand in the order of their ids, none twice.
pub open spec fn ids_increase(catalog: Seq<SchemaView>) -> bool {
    forall|i: int, j: int|
        0 <= i < j < catalog.len() ==> text_before(
            (#[trigger] catalog[i]).0,
            (#[trigger] catalog[j]).0,
        )
}

/// `catalog` lists the schemas of `rows`, each once, in the order of their ids.
pub open spec fn lists_schemas(rows: Seq<EnvelopeView>, catalog: Seq<SchemaView>) -> bool {
    &&& ids_increase(catalog)
    &&& forall|i: int|
        0 <= i < catalog.len() ==> (#[trigger] catalog[i]) == catalog_entry(
            catalog[i].0,
            catalog[i].1,
        ) && uses_schema(rows, catalog[i].0, catalog[i].1)
    &&& forall|i: int|
        0 <= i < rows.len() ==> catalog.contains(
            catalog_entry((#[trigger] rows[i]).schema(), rows[i].entry_type),
        )
}

/// `snapshot` is the snapshot of `rows`.
pub open spec fn snapshots(rows: Seq<EnvelopeView>, snapshot: SnapshotView) -> bool {
    &&& snapshot.0 == STORE_FORMAT@
    &&& lists_schemas(rows, snapshot.1)
    &&& snapshot.2 == records_of(rows)
}

/// The schema that the record of `entry` refers to.
fn schema_of(entry: &CultCacheEnvelope) -> (schema: String)
    ensures
        schema@ == entry@.schema(),
{
    match &entry.schema_id {
        Some(schema) => schema.clone(),
        None => entry.entry_type.clone(),
    }
}

/// The catalog entry of a schema.
fn describe_schema(schema: &str, document_type: &str) -> (entry: PersistedSchemaCatalogEntry)
    ensures
        schema_view(entry) == catalog_entry(schema@, document_type@),
{
    let mut version = schema.to_owned();
    version.append(".v1");
    let escaped = escape_json_string(schema);
    let mut json = String::new();
    json.append("{\"schemaName\":\"");
    json.append(escaped.as_str());
    json.append("\",\"schemaVersion\":\"");
    json.append(escaped.as_str());
    json.append(".v1\",\"members\":[]}");
    let mut names: Vec<String> = Vec::new();
    names.push(schema.to_owned());
    let entry = (
        schema.to_owned(),
        document_type.to_owned(),
        version,
        schema.to_owned(),
        json,
        names,
        Vec::new(),
    );
    proof {
        assert(json@ =~= schema_json(schema@));
        assert(schema_view(entry).5 =~= seq![schema@]);
        assert(schema_view(entry).6 =~= Seq::<MemberView>::empty());
    }
    entry
}

/// The schemas of `entries` with the types that they stand for.
fn schema_types(entries: &[CultCacheEnvelope]) -> (types: Result<
    OrderedMap<String, String>,
    CultCacheError,
>)
    ensures
        match types {
            Ok(map) => {
                &&& schemas_agree(views(entries@))
                &&& map.wf()
                &&& forall|i: int|
                    0 <= i < map.items().len() ==> uses_schema(
                        views(entries@),
                        (#[trigger] map.items()[i]).0@,
                        map.items()[i].1@,
                    )
                &&& forall|i: int|
                    0 <= i < entries@.len() ==> map@.contains_key(
                        (#[trigger] views(entries@)[i]).schema(),
                    ) && map@[views(entries@)[i].schema()]@ == views(entries@)[i].entry_type
            },
            Err(e) => exists|j: int, i: int| #[trigger]
                schema_conflict(views(entries@), j, i) && e@ == (FailureView::SchemaConflict {
                    schema: views(entries@)[i].schema(),
                    existing: views(entries@)[j].entry_type,
                    found: views(entries@)[i].entry_type,
                }),
        },
{
    let ghost rows = views(entries@);
    let mut types: OrderedMap<String, String> = OrderedMap::new();
    let mut i: usize = 0;
    while i < entries.len()
        invariant
            i <= entries.len(),
            rows == views(entries@),
            types.wf(),
            schemas_agree(rows.take(i as int)),
            forall|s: Seq<char>| #[trigger]
                types@.contains_key(s) ==> exists|j: int|
                    0 <= j < i && (#[trigger] rows[j]).schema() == s && rows[j].entry_type
                        == types@[s]@,
            forall|j: int|
                0 <= j < i ==> types@.contains_key((#[trigger] rows[j]).schema())
                    && types@[rows[j].schema()]@ == rows[j].entry_type,
        decreases entries.len() - i,
    {
        let schema = schema_of(&entries[i]);
        let ghost before = types@;
        let ghost row = rows[i as int];
        let existing = types.insert(schema_of(&entries[i]), entries[i].entry_type.clone());
        match existing {
            Some(existing_type) => {
                if !same_text(existing_type.as_str(), entries[i].entry_type.as_str()) {
                    proof {
                        let j = choose|j: int|
                            0 <= j < i && (#[trigger] rows[j]).schema() == row.schema()
                                && rows[j].entry_type == before[row.schema()]@;
                        assert(schema_conflict(rows, j, i as int));
                    }
                    return Err(
                        Failure::SchemaConflict {
                            schema,
                            existing: existing_type,
                            found: entries[i].entry_type.clone(),
                        },
                    );
                }
            },
            None => {},
        }
        proof {
            let next = rows.take(i + 1);
            assert forall|a: int, b: int|
                0 <= a < next.len() && 0 <= b < next.len() && (#[trigger] next[a]).schema() == (
                #[trigger] next[b]).schema() implies next[a].entry_type == next[b].entry_type by {
                let seen = rows.take(i as int);
                if a < i && b < i {
                    assert(seen[a] == next[a] && seen[b] == next[b]);
                } else if a < i {
                    assert(rows[a] == next[a]);
                    assert(before.contains_key(rows[a].schema()));
                } else if b < i {
                    assert(rows[b] == next[b]);
                    assert(before.contains_key(rows[b].schema()));
                }
            }
            assert forall|s: Seq<char>| #[trigger] types@.contains_key(s) implies exists|j: int|
                0 <= j < i + 1 && (#[trigger] rows[j]).schema() == s && rows[j].entry_type
                    == types@[s]@ by {
                if s == row.schema() {
                    assert(rows[i as int].schema() == s);
                } else {
                    assert(before.contains_key(s));
                    let j = choose|j: int|
                        0 <= j < i && (#[trigger] rows[j]).schema() == s && rows[j].entry_type
                            == before[s]@;
                    assert(rows[j].schema() == s);
                }
            }
            assert forall|j: int| 0 <= j < i + 1 implies types@.contains_key(
                (#[trigger] rows[j]).schema(),
            ) && types@[rows[j].schema()]@ == rows[j].entry_type by {
                if j < i {
                    assert(before.contains_key(rows[j].schema()));
                }
            }
        }
        i = i + 1;
    }
    proof {
        assert(rows.take(i as int) =~= rows);
        assert forall|k: int| 0 <= k < types.items().len() implies uses_schema(
            rows,
            (#[trigger] types.items()[k]).0@,
            types.items()[k].1@,
        ) by {
            lemma_item_in_map(types.items(), k);
            let s = types.items()[k].0@;
            assert(types@.contains_key(s));
            let j = choose|j: int|
                0 <= j < i && (#[trigger] rows[j]).schema() == s && rows[j].entry_type
                    == types@[s]@;
            assert(rows[j].schema() == s);
        }
    }
    Ok(types)
}

/// The records of `entries`.
fn records_for(entries: &[CultCacheEnvelope]) -> (records: Vec<PersistedRecord>)
    ensures
        records_view(records@) == records_of(views(entries@)),
{
    let mut records: Vec<PersistedRecord> = Vec::with_capacity(entries.len());
    let mut i: usize = 0;
    while i < entries.len()
        invariant
            i <= entries.len(),
            records@.len() == i,
            forall|j: int|
                0 <= j < i ==> record_view(#[trigger] records@[j]) == record_of(
                    views(entries@)[j],
                ),
        decreases entries.len() - i,
    {
        let entry = &entries[i];
        let record = (
            entry.key.clone(),
            schema_of(entry),
            entry.stored_at.clone(),
            copy_bytes(&entry.payload),
        );
        assert(record_view(record) == record_of(views(entries@)[i as int]));
        records.push(record);
        i = i + 1;
    }
    assert(records_view(records@) =~= records_of(views(entries@)));
    records
}

/// The snapshot of `entries`, unless a schema would have to stand for two types.
pub fn encode_store_snapshot(entries: &[CultCacheEnvelope]) -> (snapshot: Result<
    PersistedStoreSnapshot,
    CultCacheError,
>)
    ensures
        match snapshot {
            Ok(s) => schemas_agree(views(entries@)) && snapshots(
                views(entries@),
                snapshot_view(s),
            ),
            Err(e) => exists|j: int, i: int| #[trigger]
                schema_conflict(views(entries@), j, i) && e@ == (FailureView::SchemaConflict {
                    schema: views(entries@)[i].schema(),
                    existing: views(entries@)[j].entry_type,
                    found: views(entries@)[i].entry_type,
                }),
        },
{
    let types = schema_types(entries)?;
    let ghost rows = views(entries@);
    let mut catalog: Vec<PersistedSchemaCatalogEntry> = Vec::new();
    let mut i: usize = 0;
    while i < types.len()
        invariant
            i <= types.items().len(),
            catalog@.len() == i,
            forall|j: int|
                0 <= j < i ==> schema_view(#[trigger] catalog@[j]) == catalog_entry(
                    types.items()[j].0@,
                    types.items()[j].1@,
                ),
        decreases types.items().len() - i,
    {
        let item = types.item(i);
        let entry = describe_schema(item.0.as_str(), item.1.as_str());
        catalog.push(entry);
        i = i + 1;
    }
    let records = records_for(entries);
    let format = STORE_FORMAT.to_owned();
    proof {
        let listed = catalog_view(catalog@);
        assert forall|a: int, b: int| 0 <= a < b < listed.len() implies text_before(
            (#[trigger] listed[a]).0,
            (#[trigger] listed[b]).0,
        ) by {
            assert(schema_view(catalog@[a]).0 == types.items()[a].0@);
            assert(schema_view(catalog@[b]).0 == types.items()[b].0@);
        }
        assert forall|a: int| 0 <= a < listed.len() implies (#[trigger] listed[a])
            == catalog_entry(listed[a].0, listed[a].1) && uses_schema(
            rows,
            listed[a].0,
            listed[a].1,
        ) by {
            assert(schema_view(catalog@[a]) == catalog_entry(
                types.items()[a].0@,
                types.items()[a].1@,
            ));
        }
        assert forall|a: int| 0 <= a < rows.len() implies listed.contains(
            catalog_entry((#[trigger] rows[a]).schema(), rows[a].entry_type),
        ) by {
            let s = rows[a].schema();
            assert(types@.contains_key(s));
            let k = crate::ordered_map::index_of_key(types.items(), s);
            lemma_item_in_map(types.items(), k);
            assert(schema_view(catalog@[k]) == catalog_entry(s, rows[a].entry_type));
            assert(listed[k] == catalog_entry(s, rows[a].entry_type));
        }
    }
    Ok((format, catalog, records))
}

/// The type that the last schema of the id `schema` stands for.
pub open spec fn catalog_type(catalog: Seq<SchemaView>, schema: Seq<char>) -> Option<Seq<char>>
    decreases catalog.len(),
{
    if catalog.len() == 0 {
        None
    } else if catalog.last().0 == schema {
        Some(catalog.last().1)
    } else {
        catalog_type(catalog.drop_last(), schema)
    }
}

/// The rows that `records` stand for, up to the first record whose schema is not listed.
pub open spec fn rows_recorded(catalog: Seq<SchemaView>, records: Seq<RecordView>) -> Result<
    Seq<EnvelopeView>,
    FailureView,
>
    decreases records.len(),
{
    if records.len() == 0 {
        Ok(Seq::empty())
    } else {
        let record = records.last();
        match rows_recorded(catalog, records.drop_last()) {
            Err(e) => Err(e),
            Ok(rows) => match catalog_type(catalog, record.1) {
                None => Err(Failure::SchemaMissing { key: record.0, schema: record.1 }),
                Some(entry_type) => Ok(
                    rows.push(
                        EnvelopeView {
                            key: record.0,
                            entry_type,
                            payload: record.3,
                            stored_at: record.2,
                            schema_id: Some(record.1),
                        },
                    ),
                ),
            },
        }
    }
}

/// The rows that a snapshot stands for.
pub open spec fn rows_in(snapshot: SnapshotView) -> Result<Seq<EnvelopeView>, FailureView> {
    if snapshot.0 != STORE_FORMAT@ {
        Err(Failure::SnapshotFormat { format: snapshot.0 })
    } else {
        rows_recorded(snapshot.1, snapshot.2)
    }
}

/// The rows that the bytes of a snapshot stand for.
pub open spec fn rows_packed(bytes: Seq<u8>) -> Result<Seq<EnvelopeView>, FailureView> {
    match unpacked_snapshot(bytes) {
        None => Err(Failure::SnapshotUndecodable),
        Some(snapshot) => rows_in(snapshot),
    }
}

/// A later failure or success does not change an earlier failure.
proof fn lemma_recorded_failure(catalog: Seq<SchemaView>, records: Seq<RecordView>, n: int)
    requires
        0 <= n <= records.len(),
        rows_recorded(catalog, records.take(n)) is Err,
    ensures
        rows_recorded(catalog, records) == rows_recorded(catalog, records.take(n)),
    decreases records.len() - n,
{
    if n == records.len() {
        assert(records.take(n) =~= records);
    } else {
        assert(records.take(n + 1).drop_last() =~= records.take(n));
        lemma_recorded_failure(catalog, records, n + 1);
    }
}

/// The types that the schemas of `catalog` stand for, a later schema replacing an earlier one of
/// the same id.
fn catalog_types(catalog: Vec<PersistedSchemaCatalogEntry>) -> (types: OrderedMap<String, String>)
    ensures
        types.wf(),
        forall|s: Seq<char>| #[trigger]
            catalog_type(catalog_view(catalog@), s) == if types@.contains_key(s) {
                Some(types@[s]@)
            } else {
                None
            },
{
    let ghost all = catalog_view(catalog@);
    let ghost given = catalog@;
    let mut types: OrderedMap<String, String> = OrderedMap::new();
    for entry in iter: catalog
        invariant
            iter.seq() == given,
            all == catalog_view(given),
            types.wf(),
            forall|s: Seq<char>| #[trigger]
                catalog_type(all.take(iter.index()), s) == if types@.contains_key(s) {
                    Some(types@[s]@)
                } else {
                    None
                },
    {
        let ghost n = iter.index();
        let ghost before = types@;
        let ghost this = schema_view(entry);
        types.insert(entry.0, entry.1);
        proof {
            let next = all.take(n + 1);
            assert(next.drop_last() =~= all.take(n));
            assert(next.last() == this);
            assert forall|s: Seq<char>| #[trigger] catalog_type(next, s) == if types@.contains_key(
                s,
            ) {
                Some(types@[s]@)
            } else {
                None
            } by {
                assert(catalog_type(all.take(n), s) == if before.contains_key(s) {
                    Some(before[s]@)
                } else {
                    None
                });
            }
        }
    }
    assert(all.take(all.len() as int) =~= all);
    types
}

/// The rows that `snapshot` stands for.
pub fn restore_rows(snapshot: PersistedStoreSnapshot) -> (rows: Result<
    Vec<CultCacheEnvelope>,
    CultCacheError,
>)
    ensures
        rows_outcome(rows) == rows_in(snapshot_view(snapshot)),
{
    let (format, catalog, records) = snapshot;
    if !same_text(format.as_str(), STORE_FORMAT) {
        return Err(Failure::SnapshotFormat { format });
    }
    let ghost schemas = catalog_view(catalog@);
    let ghost given = records@;
    let ghost all = records_view(records@);
    let types = catalog_types(catalog);
    let mut rows: Vec<CultCacheEnvelope> = Vec::with_capacity(records.len());
    assert(all.take(0) =~= Seq::<RecordView>::empty());
    assert(views(rows@) =~= Seq::<EnvelopeView>::empty());
    for record in iter: records
        invariant
            iter.seq() == given,
            all == records_view(given),
            types.wf(),
            forall|s: Seq<char>| #[trigger]
                catalog_type(schemas, s) == if types@.contains_key(s) {
                    Some(types@[s]@)
                } else {
                    None
                },
            rows_recorded(schemas, all.take(iter.index())) == Ok::<Seq<EnvelopeView>, FailureView>(
                views(rows@),
            ),
            snapshot_view(snapshot) == (STORE_FORMAT@, schemas, all),
    {
        let ghost n = iter.index();
        let ghost before = views(rows@);
        let ghost this = record_view(record);
        proof {
            assert(all.take(n + 1).drop_last() =~= all.take(n));
            assert(all.take(n + 1).last() == this);
            assert(catalog_type(schemas, this.1) == catalog_type(schemas, record.1@));
        }
        let (key, schema, stored_at, payload) = record;
        match types.get(&schema) {
            None => {
                proof {
                    lemma_recorded_failure(schemas, all, n + 1);
                }
                return Err(Failure::SchemaMissing { key, schema });
            },
            Some(entry_type) => {
                let row = CultCacheEnvelope {
                    key,
                    entry_type: entry_type.clone(),
                    payload,
                    stored_at,
                    schema_id: Some(schema),
                };
                rows.push(row);
                assert(views(rows@) =~= before.push(row@));
            },
        }
    }
    assert(all.take(all.len() as int) =~= all);
    Ok(rows)
}

/// The rows that the bytes of a snapshot stand for.
pub fn decode_store_snapshot(bytes: &Vec<u8>) -> (rows: Result<
    Vec<CultCacheEnvelope>,
    CultCacheError,
>)
    ensures
        rows_outcome(rows) == rows_packed(bytes@),
{
    match unpack_snapshot(bytes) {
        Ok(snapshot) => restore_rows(snapshot),
        Err(_) => Err(Failure::SnapshotUndecodable),
    }
}

/// The row that is read back for a stored row: its schema is named.
pub open spec fn with_schema(row: EnvelopeView) -> EnvelopeView {
    EnvelopeView { schema_id: Some(row.schema()), ..row }
}

/// The rows that are read back for stored rows.
pub open spec fn with_schemas(rows: Seq<EnvelopeView>) -> Seq<EnvelopeView> {
    Seq::new(rows.len(), |i: int| with_schema(rows[i]))
}

/// In a catalog without repeated ids every schema is found.
proof fn lemma_catalog_type(catalog: Seq<SchemaView>, k: int)
    requires
        0 <= k < catalog.len(),
        ids_increase(catalog),
    ensures
        catalog_type(catalog, catalog[k].0) == Some(catalog[k].1),
    decreases catalog.len(),
{
    let last = catalog.len() - 1;
    if k < last {
        assert(text_before(catalog[k].0, catalog[last].0));
        crate::order::lemma_text_irreflexive(catalog[k].0);
        let rest = catalog.drop_last();
        assert(forall|i: int| 0 <= i < rest.len() ==> rest[i] == catalog[i]);
        lemma_catalog_type(rest, k);
    }
}

/// A snapshot stands for the rows it was taken of, each with its schema named.
pub proof fn snapshot_restores_rows(rows: Seq<EnvelopeView>, snapshot: SnapshotView)
    requires
        snapshots(rows, snapshot),
    ensures
        rows_in(snapshot) == Ok::<Seq<EnvelopeView>, FailureView>(with_schemas(rows)),
{
    lemma_records_restore(rows, snapshot.1, rows.len() as int);
    assert(rows.take(rows.len() as int) =~= rows);
}

proof fn lemma_records_restore(rows: Seq<EnvelopeView>, catalog: Seq<SchemaView>, n: int)
    requires
        lists_schemas(rows, catalog),
        0 <= n <= rows.len(),
    ensures
        rows_recorded(catalog, records_of(rows.take(n))) == Ok::<Seq<EnvelopeView>, FailureView>(
            with_schemas(rows.take(n)),
        ),
    decreases n,
{
    let some = rows.take(n);
    if n == 0 {
        assert(with_schemas(some) =~= Seq::<EnvelopeView>::empty());
    } else {
        let fewer = rows.take(n - 1);
        lemma_records_restore(rows, catalog, n - 1);
        assert(records_of(some).drop_last() =~= records_of(fewer));
        let row = rows[n - 1];
        assert(records_of(some).last() == record_of(row));
        let entry = catalog_entry(row.schema(), row.entry_type);
        assert(catalog.contains(entry));
        let k = choose|k: int| 0 <= k < catalog.len() && catalog[k] == entry;
        lemma_catalog_type(catalog, k);
        assert(with_schemas(some) =~= with_schemas(fewer).push(with_schema(row)));
    }
}

proof fn lemma_catalog_unique(a: Seq<SchemaView>, b: Seq<SchemaView>)
    requires
        ids_increase(a),
        ids_increase(b),
        forall|i: int| 0 <= i < a.len() ==> b.contains(#[trigger] a[i]),
        forall|i: int| 0 <= i < b.len() ==> a.contains(#[trigger] b[i]),
    ensures
        a == b,
    decreases a.len(),
{
    if a.len() == 0 {
        if b.len() > 0 {
            assert(a.contains(b[0]));
        }
        assert(a =~= b);
    } else {
        let m = a.len() - 1;
        assert(b.contains(a[m]));
        let n = b.len() - 1;
        assert(a.contains(b[n]));
        let p = choose|p: int| 0 <= p < b.len() && b[p] == a[m];
        let q = choose|q: int| 0 <= q < a.len() && a[q] == b[n];
        if p < n && q < m {
            assert(text_before(b[p].0, b[n].0));
            assert(text_before(a[q].0, a[m].0));
            crate::order::lemma_text_transitive(a[m].0, b[n].0, a[m].0);
            crate::order::lemma_text_irreflexive(a[m].0);
        }
        assert(a[m] == b[n]);
        let a0 = a.drop_last();
        let b0 = b.drop_last();
        assert forall|i: int| 0 <= i < a0.len() implies b0.contains(#[trigger] a0[i]) by {
            assert(b.contains(a[i]));
            let k = choose|k: int| 0 <= k < b.len() && b[k] == a[i];
            if k == n {
                assert(text_before(a[i].0, a[m].0));
                crate::order::lemma_text_irreflexive(a[m].0);
            }
            assert(b0[k] == a0[i]);
        }
        assert forall|i: int| 0 <= i < b0.len() implies a0.contains(#[trigger] b0[i]) by {
            assert(a.contains(b[i]));
            let k = choose|k: int| 0 <= k < a.len() && a[k] == b[i];
            if k == m {
                assert(text_before(b[i].0, b[n].0));
                crate::order::lemma_text_irreflexive(b[n].0);
            }
            assert(a0[k] == b0[i]);
        }
        assert(ids_increase(a0)) by {
            assert(forall|i: int| 0 <= i < a0.len() ==> a0[i] == a[i]);
        }
        assert(ids_increase(b0)) by {
            assert(forall|i: int| 0 <= i < b0.len() ==> b0[i] == b[i]);
        }
        lemma_catalog_unique(a0, b0);
        assert(a =~= a0.push(a[m]));
        assert(b =~= b0.push(b[n]));
    }
}

proof fn lemma_same_schemas(rows: Seq<EnvelopeView>, a: Seq<SchemaView>, b: Seq<SchemaView>)
    requires
        lists_schemas(rows, a),
        lists_schemas(rows, b),
    ensures
        forall|i: int| 0 <= i < a.len() ==> b.contains(#[trigger] a[i]),
{
    assert forall|i: int| 0 <= i < a.len() implies b.contains(#[trigger] a[i]) by {
        let k = choose|k: int|
            0 <= k < rows.len() && (#[trigger] rows[k]).schema() == a[i].0 && rows[k].entry_type
                == a[i].1;
        assert(b.contains(catalog_entry(rows[k].schema(), rows[k].entry_type)));
    }
}

/// Rows have one snapshot: what is written for them depends on the rows alone.
pub proof fn snapshot_is_unique(rows: Seq<EnvelopeView>, a: SnapshotView, b: SnapshotView)
    requires
        snapshots(rows, a),
        snapshots(rows, b),
    ensures
        a == b,
{
    lemma_same_schemas(rows, a.1, b.1);
    lemma_same_schemas(rows, b.1, a.1);
    lemma_catalog_unique(a.1, b.1);
}

/// `bytes` are the bytes of `snapshot`, from which it can be read back where its lengths fit.
pub open spec fn packs(snapshot: SnapshotView, bytes: Seq<u8>) -> bool {
    &&& bytes == packed_snapshot(snapshot)
    &&& bytes.len() > 0
    &&& snapshot_fits(snapshot) ==> unpacked_snapshot(bytes) == Some(snapshot)
}

/// `bytes` are what is written for `rows`.
pub open spec fn writes(rows: Seq<EnvelopeView>, bytes: Seq<u8>) -> bool {
    exists|snapshot: SnapshotView| #[trigger] snapshots(rows, snapshot) && packs(snapshot, bytes)
}

/// Every length in the snapshot of `rows` fits the format.
pub open spec fn rows_fit(rows: Seq<EnvelopeView>) -> bool {
    forall|snapshot: SnapshotView| #[trigger] snapshots(rows, snapshot) ==> snapshot_fits(snapshot)
}

/// Writing `rows` may come to `written`: to the bytes of their snapshot, or to a failure, where a
/// schema would have to stand for two types or packing exactly that snapshot failed.
pub open spec fn writes_out(rows: Seq<EnvelopeView>, written: Result<Seq<u8>, FailureView>) -> bool {
    match written {
        Ok(bytes) => schemas_agree(rows) && writes(rows, bytes),
        Err(e) => {
            ||| schemas_agree(rows) && e == FailureView::SnapshotUnencodable && exists|
                snapshot: SnapshotView,
            | #[trigger] snapshots(rows, snapshot) && snapshot_packing_failed(snapshot)
            ||| exists|j: int, i: int| #[trigger]
                schema_conflict(rows, j, i) && e == (FailureView::SchemaConflict {
                    schema: rows[i].schema(),
                    existing: rows[j].entry_type,
                    found: rows[i].entry_type,
                })
        },
    }
}

/// What packing came to.
pub open spec fn bytes_outcome(written: Result<Vec<u8>, CultCacheError>) -> Result<
    Seq<u8>,
    FailureView,
> {
    match written {
        Ok(bytes) => Ok(bytes@),
        Err(e) => Err(e@),
    }
}

/// The bytes of a file that holds exactly `entries`.
pub fn write_all(entries: &[CultCacheEnvelope]) -> (bytes: Result<Vec<u8>, CultCacheError>)
    ensures
        writes_out(views(entries@), bytes_outcome(bytes)),
{
    let snapshot = encode_store_snapshot(entries)?;
    assert(snapshots(views(entries@), snapshot_view(snapshot)));
    match snapshot_bytes(snapshot) {
        Some(bytes) => Ok(bytes),
        None => Err(Failure::SnapshotUnencodable),
    }
}

/// What reading a file's contents may come to, where `legacy` reads a plain run of envelopes.
pub open spec fn reads<L: Fn(&Vec<u8>) -> Result<Vec<CultCacheEnvelope>, String>>(
    contents: Option<&Vec<u8>>,
    legacy: L,
    outcome: Result<Seq<EnvelopeView>, FailureView>,
) -> bool {
    match contents {
        None => outcome == Ok::<Seq<EnvelopeView>, FailureView>(Seq::empty()),
        Some(bytes) => if bytes@.len() == 0 {
            outcome == Ok::<Seq<EnvelopeView>, FailureView>(Seq::empty())
        } else {
            match rows_packed(bytes@) {
                Ok(rows) => outcome == Ok::<Seq<EnvelopeView>, FailureView>(rows),
                Err(_) => exists|old: Result<Vec<CultCacheEnvelope>, String>| #[trigger]
                    call_ensures(legacy, (bytes,), old) && match old {
                        Ok(rows) => outcome == Ok::<Seq<EnvelopeView>, FailureView>(views(rows@)),
                        Err(cause) => outcome == Err::<Seq<EnvelopeView>, FailureView>(
                            Failure::ContentsUndecodable { cause: cause@ },
                        ),
                    },
            }
        },
    }
}

/// The rows of a file's contents. A missing or empty file holds no rows; what is no snapshot is
/// read by `legacy` as a plain run of envelopes.
pub fn read_all<L: Fn(&Vec<u8>) -> Result<Vec<CultCacheEnvelope>, String>>(
    contents: Option<&Vec<u8>>,
    legacy: L,
) -> (rows: Result<Vec<CultCacheEnvelope>, CultCacheError>)
    requires
        forall|bytes: &Vec<u8>| call_requires(legacy, (bytes,)),
    ensures
        reads(contents, legacy, rows_outcome(rows)),
{
    let rows: Result<Vec<CultCacheEnvelope>, CultCacheError> = match contents {
        None => Ok(Vec::new()),
        Some(bytes) => {
            if bytes.len() == 0 {
                Ok(Vec::new())
            } else {
                match decode_store_snapshot(bytes) {
                    Ok(rows) => Ok(rows),
                    Err(_) => match legacy(bytes) {
                        Ok(rows) => Ok(rows),
                        Err(cause) => Err(Failure::ContentsUndecodable { cause }),
                    },
                }
            }
        },
    };
    assert(views(Seq::<CultCacheEnvelope>::empty()) =~= Seq::<EnvelopeView>::empty());
    rows
}

/// What is written for rows is read back as those rows, each with its schema named.
pub proof fn written_rows_are_read_back<L: Fn(&Vec<u8>) -> Result<Vec<CultCacheEnvelope>, String>>(
    rows: Seq<EnvelopeView>,
    bytes: &Vec<u8>,
    legacy: L,
    outcome: Result<Seq<EnvelopeView>, FailureView>,
)
    requires
        writes(rows, bytes@),
        rows_fit(rows),
        reads(Some(bytes), legacy, outcome),
    ensures
        outcome == Ok::<Seq<EnvelopeView>, FailureView>(with_schemas(rows)),
{
    let snapshot = choose|snapshot: SnapshotView| #[trigger]
        snapshots(rows, snapshot) && packs(snapshot, bytes@);
    snapshot_restores_rows(rows, snapshot);
}

/// Rows that name their schemas are read back unchanged.
pub proof fn named_rows_are_read_back_unchanged<
    L: Fn(&Vec<u8>) -> Result<Vec<CultCacheEnvelope>, String>,
>(
    rows: Seq<EnvelopeView>,
    bytes: &Vec<u8>,
    legacy: L,
    outcome: Result<Seq<EnvelopeView>, FailureView>,
)
    requires
        writes(rows, bytes@),
        rows_fit(rows),
        forall|i: int| 0 <= i < rows.len() ==> (#[trigger] rows[i]).schema_id is Some,
        reads(Some(bytes), legacy, outcome),
    ensures
        outcome == Ok::<Seq<EnvelopeView>, FailureView>(rows),
{
    written_rows_are_read_back(rows, bytes, legacy, outcome);
    assert(with_schemas(rows) =~= rows) by {
        assert forall|i: int| 0 <= i < rows.len() implies with_schema(#[trigger] rows[i])
            == rows[i] by {}
    }
}

/// Two rows use one schema for two types: the schema is the one that a row names, or else its type.
pub open spec fn schema_stands_for_two_types(rows: Seq<EnvelopeView>) -> bool {
    exists|i: int, j: int|
        0 <= i < rows.len() && 0 <= j < rows.len() && (#[trigger] rows[i]).entry_type != (
        #[trigger] rows[j]).entry_type && match rows[i].schema_id {
            Some(schema) => schema,
            None => rows[i].entry_type,
        } == match rows[j].schema_id {
            Some(schema) => schema,
            None => rows[j].entry_type,
        }
}

/// Rows among which no schema stands for two types are written, however many they are and whatever
/// they hold, unless packing exactly their snapshot fails; and only then do they fail to be
/// encoded.
pub proof fn rows_are_written_unless_packing_fails(
    rows: Seq<EnvelopeView>,
    written: Result<Seq<u8>, FailureView>,
)
    requires
        writes_out(rows, written),
    ensures
        !schema_stands_for_two_types(rows) && (forall|snapshot: SnapshotView| #[trigger]
            snapshots(rows, snapshot) ==> !snapshot_packing_failed(snapshot)) ==> written is Ok,
        written matches Ok(bytes) ==> writes(rows, bytes) && !schema_stands_for_two_types(rows),
        written == Err::<Seq<u8>, FailureView>(FailureView::SnapshotUnencodable) ==> exists|
            snapshot: SnapshotView,
        | #[trigger] snapshots(rows, snapshot) && snapshot_packing_failed(snapshot),
        !schema_stands_for_two_types(rows) ==> written is Ok || written == Err::<
            Seq<u8>,
            FailureView,
        >(FailureView::SnapshotUnencodable),
{
    if written is Err {
        if exists|j: int, i: int| #[trigger] schema_conflict(rows, j, i) {
            let (j, i) = choose|j: int, i: int| #[trigger] schema_conflict(rows, j, i);
            assert(rows[j].entry_type != rows[i].entry_type);
        }
    }
    if schemas_agree(rows) && schema_stands_for_two_types(rows) {
        let (i, j) = choose|i: int, j: int|
            0 <= i < rows.len() && 0 <= j < rows.len() && (#[trigger] rows[i]).entry_type != (
            #[trigger] rows[j]).entry_type && match rows[i].schema_id {
                Some(schema) => schema,
                None => rows[i].entry_type,
            } == match rows[j].schema_id {
                Some(schema) => schema,
                None => rows[j].entry_type,
            };
        assert(rows[i].schema() == rows[j].schema());
    }
}

/// Rows among which a schema stands for two types are not written, and the answer names such a
/// schema with two of its types, each of which a row has.
pub proof fn conflicting_rows_are_not_written(
    rows: Seq<EnvelopeView>,
    written: Result<Seq<u8>, FailureView>,
)
    requires
        writes_out(rows, written),
        schema_stands_for_two_types(rows),
    ensures
        written is Err,
        written->Err_0 is SchemaConflict,
        exists|i: int, j: int|
            0 <= j < i < rows.len() && (#[trigger] rows[i]).schema() == (
            #[trigger] rows[j]).schema() && rows[i].entry_type != rows[j].entry_type
                && written->Err_0 == (FailureView::SchemaConflict {
                schema: rows[i].schema(),
                existing: rows[j].entry_type,
                found: rows[i].entry_type,
            }),
{
    rows_are_written_unless_packing_fails(rows, written);
    let (x, y) = choose|i: int, j: int|
        0 <= i < rows.len() && 0 <= j < rows.len() && (#[trigger] rows[i]).entry_type != (
        #[trigger] rows[j]).entry_type && match rows[i].schema_id {
            Some(schema) => schema,
            None => rows[i].entry_type,
        } == match rows[j].schema_id {
            Some(schema) => schema,
            None => rows[j].entry_type,
        };
    assert(rows[x].schema() == rows[y].schema());
    let (j, i) = choose|j: int, i: int| #[trigger]
        schema_conflict(rows, j, i) && written->Err_0 == (FailureView::SchemaConflict {
            schema: rows[i].schema(),
            existing: rows[j].entry_type,
            found: rows[i].entry_type,
        });
    assert(rows[i].schema() == rows[j].schema());
}

/// The schema at `k` is the last of its id in the catalog.
pub open spec fn last_listed(catalog: Seq<SchemaView>, k: int) -> bool {
    &&& 0 <= k < catalog.len()
    &&& forall|m: int| k < m < catalog.len() ==> (#[trigger] catalog[m]).0 != catalog[k].0
}

proof fn lemma_last_listed(catalog: Seq<SchemaView>, schema: Seq<char>)
    ensures
        match catalog_type(catalog, schema) {
            Some(t) => exists|k: int| #[trigger]
                last_listed(catalog, k) && catalog[k].0 == schema && catalog[k].1 == t,
            None => forall|k: int| 0 <= k < catalog.len() ==> (#[trigger] catalog[k]).0 != schema,
        },
    decreases catalog.len(),
{
    if catalog.len() > 0 {
        let n = catalog.len() - 1;
        let rest = catalog.drop_last();
        lemma_last_listed(rest, schema);
        if catalog[n].0 == schema {
            assert(last_listed(catalog, n));
        } else {
            match catalog_type(rest, schema) {
                Some(t) => {
                    let k = choose|k: int| #[trigger]
                        last_listed(rest, k) && rest[k].0 == schema && rest[k].1 == t;
                    assert forall|m: int| k < m < catalog.len() implies (#[trigger] catalog[m]).0
                        != catalog[k].0 by {
                        if m < n {
                            assert(rest[m] == catalog[m]);
                        }
                    }
                    assert(last_listed(catalog, k));
                },
                None => {
                    assert forall|k: int| 0 <= k < catalog.len() implies (#[trigger] catalog[k]).0
                        != schema by {
                        if k < n {
                            assert(rest[k] == catalog[k]);
                        }
                    }
                },
            }
        }
    }
}

proof fn lemma_recorded(catalog: Seq<SchemaView>, records: Seq<RecordView>)
    ensures
        rows_recorded(catalog, records) is Ok <==> forall|i: int|
            0 <= i < records.len() ==> catalog_type(catalog, (#[trigger] records[i]).1) is Some,
        rows_recorded(catalog, records) matches Ok(rows) ==> rows.len() == records.len() && forall|
            i: int,
        |
            0 <= i < rows.len() ==> (#[trigger] rows[i]) == (EnvelopeView {
                key: records[i].0,
                entry_type: catalog_type(catalog, records[i].1)->Some_0,
                payload: records[i].3,
                stored_at: records[i].2,
                schema_id: Some(records[i].1),
            }),
    decreases records.len(),
{
    if records.len() > 0 {
        let n = records.len() - 1;
        let rest = records.drop_last();
        lemma_recorded(catalog, rest);
        assert forall|i: int| 0 <= i < n implies rest[i] == #[trigger] records[i] by {}
        if rows_recorded(catalog, rest) is Err {
            let i = choose|i: int|
                0 <= i < rest.len() && catalog_type(catalog, (#[trigger] rest[i]).1) is None;
            assert(catalog_type(catalog, records[i].1) is None);
        }
        assert(records[n] == records.last());
    }
}

/// What a file's contents are read as. A missing or an empty file holds no rows. A snapshot of the
/// format, all of whose records refer to a schema that it lists, holds a row for each record, in
/// their order: the record's key, payload, time of storing and schema, and the type that the last
/// schema of that id stands for. Everything else is what `legacy` makes of the bytes.
pub proof fn contents_are_read_as<L: Fn(&Vec<u8>) -> Result<Vec<CultCacheEnvelope>, String>>(
    contents: Option<&Vec<u8>>,
    legacy: L,
    outcome: Result<Seq<EnvelopeView>, FailureView>,
)
    requires
        reads(contents, legacy, outcome),
    ensures
        contents is None ==> outcome == Ok::<Seq<EnvelopeView>, FailureView>(Seq::empty()),
        contents matches Some(bytes) ==> {
            &&& bytes@.len() == 0 ==> outcome == Ok::<Seq<EnvelopeView>, FailureView>(Seq::empty())
            &&& bytes@.len() > 0 ==> if unpacked_snapshot(bytes@) is Some && unpacked_snapshot(
                bytes@,
            )->Some_0.0 == STORE_FORMAT@ && all_listed(
                unpacked_snapshot(bytes@)->Some_0.1,
                unpacked_snapshot(bytes@)->Some_0.2,
            ) {
                outcome is Ok && restores(
                    unpacked_snapshot(bytes@)->Some_0.1,
                    unpacked_snapshot(bytes@)->Some_0.2,
                    outcome->Ok_0,
                )
            } else {
                exists|old: Result<Vec<CultCacheEnvelope>, String>| #[trigger]
                    call_ensures(legacy, (bytes,), old) && match old {
                        Ok(rows) => outcome == Ok::<Seq<EnvelopeView>, FailureView>(views(rows@)),
                        Err(cause) => outcome == Err::<Seq<EnvelopeView>, FailureView>(
                            Failure::ContentsUndecodable { cause: cause@ },
                        ),
                    }
            }
        },
{
    if let Some(bytes) = contents {
        if bytes@.len() > 0 {
            if let Some(snapshot) = unpacked_snapshot(bytes@) {
                let catalog = snapshot.1;
                let records = snapshot.2;
                lemma_recorded(catalog, records);
                assert forall|i: int| 0 <= i < records.len() implies (catalog_type(
                    catalog,
                    (#[trigger] records[i]).1,
                ) is Some <==> exists|k: int|
                    0 <= k < catalog.len() && (#[trigger] catalog[k]).0 == records[i].1) by {
                    lemma_last_listed(catalog, records[i].1);
                }
                if all_listed(catalog, records) && snapshot.0 == STORE_FORMAT@ {
                    assert forall|i: int| 0 <= i < records.len() implies catalog_type(
                        catalog,
                        (#[trigger] records[i]).1,
                    ) is Some by {
                        assert(exists|k: int|
                            0 <= k < catalog.len() && (#[trigger] catalog[k]).0 == records[i].1);
                    }
                    assert(rows_recorded(catalog, records) is Ok);
                    let rows = outcome->Ok_0;
                    assert forall|i: int| 0 <= i < rows.len() implies restores_row(
                        catalog,
                        records[i],
                        #[trigger] rows[i],
                    ) by {
                        lemma_last_listed(catalog, records[i].1);
                        let t = catalog_type(catalog, records[i].1)->Some_0;
                        let k = choose|k: int| #[trigger]
                            last_listed(catalog, k) && catalog[k].0 == records[i].1 && catalog[k].1
                                == t;
                        assert(last_listed(catalog, k));
                    }
                    assert(restores(catalog, records, rows));
                } else if snapshot.0 == STORE_FORMAT@ {
                    let i = choose|i: int|
                        0 <= i < records.len() && !(exists|k: int|
                            0 <= k < catalog.len() && (#[trigger] catalog[k]).0 == (
                            #[trigger] records[i]).1);
                    assert(catalog_type(catalog, records[i].1) is None);
                    assert(rows_recorded(catalog, records) is Err);
                }
            }
        }
    }
}

/// Every record refers to a schema that the catalog lists.
pub open spec fn all_listed(catalog: Seq<SchemaView>, records: Seq<RecordView>) -> bool {
    forall|i: int|
        0 <= i < records.len() ==> exists|k: int|
            0 <= k < catalog.len() && (#[trigger] catalog[k]).0 == (#[trigger] records[i]).1
}

/// `rows` has a row for each record, of the type that the last schema of the record's id stands
/// for.
pub open spec fn restores(
    catalog: Seq<SchemaView>,
    records: Seq<RecordView>,
    rows: Seq<EnvelopeView>,
) -> bool {
    &&& rows.len() == records.len()
    &&& forall|i: int|
        0 <= i < rows.len() ==> restores_row(catalog, records[i], #[trigger] rows[i])
}

/// `row` is the row of `record`.
pub open spec fn restores_row(
    catalog: Seq<SchemaView>,
    record: RecordView,
    row: EnvelopeView,
) -> bool {
    exists|k: int| #[trigger]
        last_listed(catalog, k) && catalog[k].0 == record.1 && row == (EnvelopeView {
            key: record.0,
            entry_type: catalog[k].1,
            payload: record.3,
            stored_at: record.2,
            schema_id: Some(record.1),
        })
}

/// The catalog lists the schema `schema` for the type `document_type`.
pub open spec fn listed_for(
    catalog: Seq<SchemaView>,
    schema: Seq<char>,
    document_type: Seq<char>,
) -> bool {
    exists|k: int|
        0 <= k < catalog.len() && (#[trigger] catalog[k]).0 == schema && catalog[k].1
            == document_type
}

/// What a snapshot of rows holds. It names the format. It has a record for each row, in their
/// order: key, schema, time of storing and payload, where the schema is the one that the row names,
/// or else its type. It lists every schema of a record once, in the order of their ids, with the
/// type of the rows that use it; its version is the first, and it describes itself by its own name,
/// without members.
pub proof fn snapshot_describes_its_rows(rows: Seq<EnvelopeView>, snapshot: SnapshotView)
    requires
        snapshots(rows, snapshot),
    ensures
        snapshot.0 == "cultcache.store.v1"@,
        snapshot.2.len() == rows.len(),
        forall|i: int|
            0 <= i < rows.len() ==> {
                &&& (#[trigger] snapshot.2[i]).0 == rows[i].key
                &&& snapshot.2[i].1 == match rows[i].schema_id {
                    Some(schema) => schema,
                    None => rows[i].entry_type,
                }
                &&& snapshot.2[i].2 == rows[i].stored_at
                &&& snapshot.2[i].3 == rows[i].payload
            },
        forall|i: int|
            0 <= i < rows.len() ==> listed_for(
                snapshot.1,
                (#[trigger] snapshot.2[i]).1,
                rows[i].entry_type,
            ),
        forall|k: int|
            0 <= k < snapshot.1.len() ==> {
                &&& (#[trigger] snapshot.1[k]).2 == snapshot.1[k].0 + ".v1"@
                &&& snapshot.1[k].3 == snapshot.1[k].0
                &&& snapshot.1[k].4 == "{\"schemaName\":\""@ + json_escaped(snapshot.1[k].0)
                    + "\",\"schemaVersion\":\""@ + json_escaped(snapshot.1[k].0)
                    + ".v1\",\"members\":[]}"@
                &&& snapshot.1[k].5 == seq![snapshot.1[k].0]
                &&& snapshot.1[k].6.len() == 0
            },
        forall|j: int, k: int|
            0 <= j < k < snapshot.1.len() ==> text_before(
                (#[trigger] snapshot.1[j]).0,
                (#[trigger] snapshot.1[k]).0,
            ),
{
    assert forall|i: int| 0 <= i < rows.len() implies listed_for(
        snapshot.1,
        (#[trigger] snapshot.2[i]).1,
        rows[i].entry_type,
    ) by {
        let entry = catalog_entry(rows[i].schema(), rows[i].entry_type);
        assert(snapshot.1.contains(entry));
        let k = choose|k: int| 0 <= k < snapshot.1.len() && snapshot.1[k] == entry;
        assert(snapshot.1[k].0 == snapshot.2[i].1);
    }
}

} // verus!

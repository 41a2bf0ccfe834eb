//! The MessagePack codec: what is handed to `rmp_serde`, and what is known of its answers.

use crate::envelope::{text_option, Identity};
use vstd::prelude::*;
use vstd::utf8::encode_utf8;

verus! {

/// One member of a schema: its slot, name and type name, two flags, a default, a flag and a note.
pub type PersistedSchemaCatalogMember = (
    u32,
    String,
    String,
    bool,
    bool,
    Option<String>,
    bool,
    Option<String>,
);

/// One schema of a snapshot: its id, the document type it stands for, its version, its name, a
/// JSON text that describes it, the names it goes by, and its members.
pub type PersistedSchemaCatalogEntry = (
    String,
    String,
    String,
    String,
    String,
    Vec<String>,
    Vec<PersistedSchemaCatalogMember>,
);

/// One record of a snapshot: its key, its schema's id, when it was stored, and its payload.
pub type PersistedRecord = (String, String, String, Vec<u8>);

/// A snapshot of a store: its format, its schemas and its records.
pub type PersistedStoreSnapshot = (
    String,
    Vec<PersistedSchemaCatalogEntry>,
    Vec<PersistedRecord>,
);

/// What a schema member holds.
pub type MemberView = (
    u32,
    Seq<char>,
    Seq<char>,
    bool,
    bool,
    Option<Seq<char>>,
    bool,
    Option<Seq<char>>,
);

/// What a schema holds.
pub type SchemaView = (
    Seq<char>,
    Seq<char>,
    Seq<char>,
    Seq<char>,
    Seq<char>,
    Seq<Seq<char>>,
    Seq<MemberView>,
);

/// What a record holds.
pub type RecordView = (Seq<char>, Seq<char>, Seq<char>, Seq<u8>);

/// The fields of a row: key, type, payload, time of storing, and schema id.
pub type RowFields = (String, String, Vec<u8>, String, Option<String>);

/// What the fields of a row hold.
pub type RowFieldsView = (Seq<char>, Seq<char>, Seq<u8>, Seq<char>, Option<Seq<char>>);

/// The fields of a row without a schema id.
pub type PlainRowFields = (String, String, Vec<u8>, String);

/// What the fields of a row without a schema id hold.
pub type PlainRowFieldsView = (Seq<char>, Seq<char>, Seq<u8>, Seq<char>);

/// What a snapshot holds.
pub type SnapshotView = (Seq<char>, Seq<SchemaView>, Seq<RecordView>);

/// What `member` holds.
pub open spec fn member_view(member: PersistedSchemaCatalogMember) -> MemberView {
    (
        member.0,
        member.1@,
        member.2@,
        member.3,
        member.4,
        text_option(member.5),
        member.6,
        text_option(member.7),
    )
}

/// What `schema` holds.
pub open spec fn schema_view(schema: PersistedSchemaCatalogEntry) -> SchemaView {
    (
        schema.0@,
        schema.1@,
        schema.2@,
        schema.3@,
        schema.4@,
        Seq::new(schema.5@.len(), |i: int| schema.5@[i]@),
        Seq::new(schema.6@.len(), |i: int| member_view(schema.6@[i])),
    )
}

/// What `record` holds.
pub open spec fn record_view(record: PersistedRecord) -> RecordView {
    (record.0@, record.1@, record.2@, record.3@)
}

/// What `catalog` holds.
pub open spec fn catalog_view(catalog: Seq<PersistedSchemaCatalogEntry>) -> Seq<SchemaView> {
    Seq::new(catalog.len(), |i: int| schema_view(catalog[i]))
}

/// What `records` hold.
pub open spec fn records_view(records: Seq<PersistedRecord>) -> Seq<RecordView> {
    Seq::new(records.len(), |i: int| record_view(records[i]))
}

/// What `snapshot` holds.
pub open spec fn snapshot_view(snapshot: PersistedStoreSnapshot) -> SnapshotView {
    (snapshot.0@, catalog_view(snapshot.1@), records_view(snapshot.2@))
}

/// What `fields` hold.
pub open spec fn row_fields_view(fields: RowFields) -> RowFieldsView {
    (fields.0@, fields.1@, fields.2@, fields.3@, text_option(fields.4))
}

/// What `fields` hold.
pub open spec fn plain_row_fields_view(fields: PlainRowFields) -> PlainRowFieldsView {
    (fields.0@, fields.1@, fields.2@, fields.3@)
}

/// MessagePack counts bytes and elements in at most 32 bits.
pub open spec fn countable(n: nat) -> bool {
    n < 0x1_0000_0000
}

/// MessagePack can count the bytes of `text`.
pub open spec fn text_fits(text: Seq<char>) -> bool {
    countable(encode_utf8(text).len())
}

/// MessagePack can count the bytes of `text`, if there is one.
pub open spec fn option_fits(text: Option<Seq<char>>) -> bool {
    match text {
        Some(t) => text_fits(t),
        None => true,
    }
}

/// MessagePack can count everything in `member`.
pub open spec fn member_fits(member: MemberView) -> bool {
    text_fits(member.1) && text_fits(member.2) && option_fits(member.5) && option_fits(member.7)
}

/// MessagePack can count everything in `schema`.
pub open spec fn schema_fits(schema: SchemaView) -> bool {
    &&& text_fits(schema.0)
    &&& text_fits(schema.1)
    &&& text_fits(schema.2)
    &&& text_fits(schema.3)
    &&& text_fits(schema.4)
    &&& countable(schema.5.len())
    &&& forall|i: int| 0 <= i < schema.5.len() ==> text_fits(#[trigger] schema.5[i])
    &&& countable(schema.6.len())
    &&& forall|i: int| 0 <= i < schema.6.len() ==> member_fits(#[trigger] schema.6[i])
}

/// MessagePack can count everything in `record`.
pub open spec fn record_fits(record: RecordView) -> bool {
    text_fits(record.0) && text_fits(record.1) && text_fits(record.2) && countable(record.3.len())
}

/// MessagePack can count everything in `snapshot`.
pub open spec fn snapshot_fits(snapshot: SnapshotView) -> bool {
    &&& text_fits(snapshot.0)
    &&& countable(snapshot.1.len())
    &&& forall|i: int| 0 <= i < snapshot.1.len() ==> schema_fits(#[trigger] snapshot.1[i])
    &&& countable(snapshot.2.len())
    &&& forall|i: int| 0 <= i < snapshot.2.len() ==> record_fits(#[trigger] snapshot.2[i])
}

/// MessagePack can count both texts of `id`.
pub open spec fn identity_fits(id: Identity) -> bool {
    text_fits(id.0) && text_fits(id.1)
}

/// MessagePack can count the bytes of the fields of a row without a schema id.
pub open spec fn plain_row_fits(
    key: Seq<char>,
    entry_type: Seq<char>,
    payload: Seq<u8>,
    stored_at: Seq<char>,
) -> bool {
    text_fits(key) && text_fits(entry_type) && countable(payload.len()) && text_fits(stored_at)
}

/// The errors of `rmp_serde` when it writes.
#[verifier::external_type_specification]
#[verifier::external_body]
pub struct ExPackError(rmp_serde::encode::Error);

/// The errors of `rmp_serde` when it reads.
#[verifier::external_type_specification]
#[verifier::external_body]
pub struct ExUnpackError(rmp_serde::decode::Error);

/// The MessagePack bytes of a snapshot: nested arrays, payloads as binary.
pub uninterp spec fn packed_snapshot(snapshot: SnapshotView) -> Seq<u8>;

/// The snapshot that MessagePack bytes hold, if they hold one.
pub uninterp spec fn unpacked_snapshot(bytes: Seq<u8>) -> Option<SnapshotView>;

/// The MessagePack bytes of an identity: an array of its two texts.
pub uninterp spec fn packed_identity(id: Identity) -> Seq<u8>;

/// The MessagePack bytes of a row without a schema id.
pub uninterp spec fn packed_plain_row(
    key: Seq<char>,
    entry_type: Seq<char>,
    payload: Seq<u8>,
    stored_at: Seq<char>,
) -> Seq<u8>;

/// The MessagePack bytes of a row with a schema id.
pub uninterp spec fn packed_schema_row(
    key: Seq<char>,
    entry_type: Seq<char>,
    payload: Seq<u8>,
    stored_at: Seq<char>,
    schema_id: Seq<char>,
) -> Seq<u8>;

/// The five fields of a row that MessagePack bytes hold as an array, if they hold them.
pub uninterp spec fn unpacked_schema_row(bytes: Seq<u8>) -> Option<RowFieldsView>;

/// The four fields of a row that MessagePack bytes hold as an array, if they hold them.
pub uninterp spec fn unpacked_plain_row(bytes: Seq<u8>) -> Option<PlainRowFieldsView>;

/// `rmp_serde::to_vec` of a snapshot. The bytes depend on the snapshot alone; there is at least
/// the header of the outermost array; and `rmp_serde::from_slice` reads the snapshot back from them
/// where every length in it fits the 32 bits that MessagePack has for lengths. Writing fails where
/// memory for the bytes runs out; when that happens is not stated.
#[verifier::external_body]
fn pack_snapshot(snapshot: PersistedStoreSnapshot) -> (packed: Result<
    Vec<u8>,
    rmp_serde::encode::Error,
>)
    ensures
        match packed {
            Ok(bytes) => {
                &&& bytes@ == packed_snapshot(snapshot_view(snapshot))
                &&& bytes@.len() > 0
                &&& snapshot_fits(snapshot_view(snapshot)) ==> unpacked_snapshot(bytes@) == Some(
                    snapshot_view(snapshot),
                )
            },
            Err(_) => true,
        },
{
    let (format, catalog, records) = snapshot;
    let records: Vec<(String, String, String, serde_bytes::ByteBuf)> = records
        .into_iter()
        .map(|(key, schema, stored_at, payload)| (key, schema, stored_at, payload.into()))
        .collect();
    rmp_serde::to_vec(&(format, catalog, records))
}

/// `rmp_serde::from_slice` into a snapshot. What it gives depends on the bytes alone.
#[verifier::external_body]
pub(crate) fn unpack_snapshot(bytes: &Vec<u8>) -> (snapshot: Result<
    PersistedStoreSnapshot,
    rmp_serde::decode::Error,
>)
    ensures
        match snapshot {
            Ok(s) => unpacked_snapshot(bytes@) == Some(snapshot_view(s)),
            Err(_) => unpacked_snapshot(bytes@) is None,
        },
{
    let (format, catalog, records): (
        String,
        Vec<PersistedSchemaCatalogEntry>,
        Vec<(String, String, String, serde_bytes::ByteBuf)>,
    ) = rmp_serde::from_slice(bytes)?;
    let records = records
        .into_iter()
        .map(|(key, schema, stored_at, payload)| (key, schema, stored_at, payload.into_vec()))
        .collect();
    Ok((format, catalog, records))
}

/// `rmp_serde::to_vec` of an identity. The bytes depend on the two texts alone, and two
/// identities whose texts' lengths fit MessagePack's 32 bits have different bytes: the array
/// header is followed by each text behind its length. Writing fails where memory for the bytes
/// runs out; when that happens is not stated.
#[verifier::external_body]
fn pack_identity(id: &(String, String)) -> (packed: Result<
    Vec<u8>,
    rmp_serde::encode::Error,
>)
    ensures
        match packed {
            Ok(bytes) => {
                &&& bytes@ == packed_identity(id@)
                &&& identity_fits(id@) ==> forall|other: Identity|
                    identity_fits(other) && #[trigger] packed_identity(other) == bytes@ ==> other
                        == id@
            },
            Err(_) => true,
        },
{
    rmp_serde::to_vec(id)
}

/// `rmp_serde::to_vec` of a row without a schema id: an array of its four fields, the payload as
/// binary. The bytes depend on the fields alone. Where the fields' lengths fit the 32 bits that
/// MessagePack has for lengths, `rmp_serde::from_slice` reads the four fields back, and does not
/// find five. Writing fails where memory for the bytes runs out; when that happens is not stated.
#[verifier::external_body]
fn pack_plain_row(key: &str, entry_type: &str, payload: &Vec<u8>, stored_at: &str) -> (
    packed: Result<Vec<u8>, rmp_serde::encode::Error>)
    ensures
        match packed {
            Ok(bytes) => {
                &&& bytes@ == packed_plain_row(key@, entry_type@, payload@, stored_at@)
                &&& plain_row_fits(key@, entry_type@, payload@, stored_at@) ==> {
                    &&& unpacked_schema_row(bytes@) is None
                    &&& unpacked_plain_row(bytes@) == Some(
                        (key@, entry_type@, payload@, stored_at@),
                    )
                }
            },
            Err(_) => true,
        },
{
    rmp_serde::to_vec(&(key, entry_type, serde_bytes::Bytes::new(payload), stored_at))
}

/// `rmp_serde::to_vec` of a row with a schema id: an array of its five fields, the payload as
/// binary. The bytes depend on the fields alone. Where the fields' lengths fit the 32 bits that
/// MessagePack has for lengths, `rmp_serde::from_slice` reads the five fields back. Writing fails
/// where memory for the bytes runs out; when that happens is not stated.
#[verifier::external_body]
fn pack_schema_row(
    key: &str,
    entry_type: &str,
    payload: &Vec<u8>,
    stored_at: &str,
    schema_id: &str,
) -> (packed: Result<Vec<u8>, rmp_serde::encode::Error>)
    ensures
        match packed {
            Ok(bytes) => {
                &&& bytes@ == packed_schema_row(key@, entry_type@, payload@, stored_at@, schema_id@)
                &&& plain_row_fits(key@, entry_type@, payload@, stored_at@) && text_fits(schema_id@)
                    ==> unpacked_schema_row(bytes@) == Some(
                    (key@, entry_type@, payload@, stored_at@, Some(schema_id@)),
                )
            },
            Err(_) => true,
        },
{
    rmp_serde::to_vec(&(key, entry_type, serde_bytes::Bytes::new(payload), stored_at, schema_id))
}

/// `rmp_serde::from_slice` into the five fields of a row, the last of which may be absent. What it
/// gives depends on the bytes alone.
#[verifier::external_body]
pub(crate) fn unpack_schema_row(bytes: &Vec<u8>) -> (fields: Result<
    RowFields,
    rmp_serde::decode::Error,
>)
    ensures
        match fields {
            Ok(f) => unpacked_schema_row(bytes@) == Some(row_fields_view(f)),
            Err(_) => unpacked_schema_row(bytes@) is None,
        },
{
    let (key, entry_type, payload, stored_at, schema_id): (
        String,
        String,
        serde_bytes::ByteBuf,
        String,
        Option<String>,
    ) = rmp_serde::from_slice(bytes)?;
    Ok((key, entry_type, payload.into_vec(), stored_at, schema_id))
}

/// `rmp_serde::from_slice` into the four fields of a row without a schema id. What it gives depends
/// on the bytes alone.
#[verifier::external_body]
pub(crate) fn unpack_plain_row(bytes: &Vec<u8>) -> (fields: Result<
    PlainRowFields,
    rmp_serde::decode::Error,
>)
    ensures
        match fields {
            Ok(f) => unpacked_plain_row(bytes@) == Some(plain_row_fields_view(f)),
            Err(_) => unpacked_plain_row(bytes@) is None,
        },
{
    let (key, entry_type, payload, stored_at): (String, String, serde_bytes::ByteBuf, String) =
        rmp_serde::from_slice(bytes)?;
    Ok((key, entry_type, payload.into_vec(), stored_at))
}

/// Packing the snapshot failed: [`pack_snapshot`] was asked for it and gave an error.
pub closed spec fn snapshot_packing_failed(snapshot: SnapshotView) -> bool {
    exists|given: PersistedStoreSnapshot, e: rmp_serde::encode::Error| #[trigger]
        call_ensures(pack_snapshot, (given,), Err::<Vec<u8>, rmp_serde::encode::Error>(e))
            && snapshot_view(given) == snapshot
}

/// Packing the identity failed: [`pack_identity`] was asked for it and gave an error.
pub closed spec fn identity_packing_failed(id: Identity) -> bool {
    exists|given: &(String, String), e: rmp_serde::encode::Error| #[trigger]
        call_ensures(pack_identity, (given,), Err::<Vec<u8>, rmp_serde::encode::Error>(e))
            && given@ == id
}

/// Packing the row failed: [`pack_plain_row`] or, where it has a schema id, [`pack_schema_row`] was
/// asked for it and gave an error.
pub closed spec fn row_packing_failed(
    key: Seq<char>,
    entry_type: Seq<char>,
    payload: Seq<u8>,
    stored_at: Seq<char>,
    schema_id: Option<Seq<char>>,
) -> bool {
    ||| schema_id is None && exists|
        k: &str,
        t: &str,
        p: &Vec<u8>,
        at: &str,
        e: rmp_serde::encode::Error,
    | #[trigger]
        call_ensures(
            pack_plain_row,
            (k, t, p, at),
            Err::<Vec<u8>, rmp_serde::encode::Error>(e),
        ) && (k@, t@, p@, at@) == (key, entry_type, payload, stored_at)
    ||| schema_id is Some && exists|
        k: &str,
        t: &str,
        p: &Vec<u8>,
        at: &str,
        s: &str,
        e: rmp_serde::encode::Error,
    | #[trigger]
        call_ensures(
            pack_schema_row,
            (k, t, p, at, s),
            Err::<Vec<u8>, rmp_serde::encode::Error>(e),
        ) && (k@, t@, p@, at@, s@) == (key, entry_type, payload, stored_at, schema_id->Some_0)
}

/// The bytes of a snapshot; where there are none, packing it failed.
pub(crate) fn snapshot_bytes(snapshot: PersistedStoreSnapshot) -> (packed: Option<Vec<u8>>)
    ensures
        match packed {
            Some(bytes) => {
                &&& bytes@ == packed_snapshot(snapshot_view(snapshot))
                &&& bytes@.len() > 0
                &&& snapshot_fits(snapshot_view(snapshot)) ==> unpacked_snapshot(bytes@) == Some(
                    snapshot_view(snapshot),
                )
            },
            None => snapshot_packing_failed(snapshot_view(snapshot)),
        },
{
    match pack_snapshot(snapshot) {
        Ok(bytes) => Some(bytes),
        Err(e) => {
            assert(call_ensures(
                pack_snapshot,
                (snapshot,),
                Err::<Vec<u8>, rmp_serde::encode::Error>(e),
            ));
            None
        },
    }
}

/// The bytes of an identity; where there are none, packing it failed.
pub(crate) fn identity_bytes(id: &(String, String)) -> (packed: Option<Vec<u8>>)
    ensures
        match packed {
            Some(bytes) => {
                &&& bytes@ == packed_identity(id@)
                &&& identity_fits(id@) ==> forall|other: Identity|
                    identity_fits(other) && #[trigger] packed_identity(other) == bytes@ ==> other
                        == id@
            },
            None => identity_packing_failed(id@),
        },
{
    match pack_identity(id) {
        Ok(bytes) => Some(bytes),
        Err(e) => {
            assert(call_ensures(
                pack_identity,
                (id,),
                Err::<Vec<u8>, rmp_serde::encode::Error>(e),
            ));
            None
        },
    }
}

/// The bytes of a row without a schema id; where there are none, packing it failed.
pub(crate) fn plain_row_bytes(key: &str, entry_type: &str, payload: &Vec<u8>, stored_at: &str) -> (
    packed: Option<Vec<u8>>)
    ensures
        match packed {
            Some(bytes) => {
                &&& bytes@ == packed_plain_row(key@, entry_type@, payload@, stored_at@)
                &&& plain_row_fits(key@, entry_type@, payload@, stored_at@) ==> {
                    &&& unpacked_schema_row(bytes@) is None
                    &&& unpacked_plain_row(bytes@) == Some(
                        (key@, entry_type@, payload@, stored_at@),
                    )
                }
            },
            None => row_packing_failed(key@, entry_type@, payload@, stored_at@, None),
        },
{
    match pack_plain_row(key, entry_type, payload, stored_at) {
        Ok(bytes) => Some(bytes),
        Err(e) => {
            assert(call_ensures(
                pack_plain_row,
                (key, entry_type, payload, stored_at),
                Err::<Vec<u8>, rmp_serde::encode::Error>(e),
            ));
            None
        },
    }
}

/// The bytes of a row with a schema id; where there are none, packing it failed.
pub(crate) fn schema_row_bytes(
    key: &str,
    entry_type: &str,
    payload: &Vec<u8>,
    stored_at: &str,
    schema_id: &str,
) -> (packed: Option<Vec<u8>>)
    ensures
        match packed {
            Some(bytes) => {
                &&& bytes@ == packed_schema_row(key@, entry_type@, payload@, stored_at@, schema_id@)
                &&& plain_row_fits(key@, entry_type@, payload@, stored_at@) && text_fits(schema_id@)
                    ==> unpacked_schema_row(bytes@) == Some(
                    (key@, entry_type@, payload@, stored_at@, Some(schema_id@)),
                )
            },
            None => row_packing_failed(
                key@,
                entry_type@,
                payload@,
                stored_at@,
                Some(schema_id@),
            ),
        },
{
    match pack_schema_row(key, entry_type, payload, stored_at, schema_id) {
        Ok(bytes) => Some(bytes),
        Err(e) => {
            assert(call_ensures(
                pack_schema_row,
                (key, entry_type, payload, stored_at, schema_id),
                Err::<Vec<u8>, rmp_serde::encode::Error>(e),
            ));
            None
        },
    }
}

} // verus!

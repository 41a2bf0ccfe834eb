//! The table that holds the rows of a keyed store, and how rows stand in it.

use crate::envelope::{entry_id, views, CultCacheEnvelope, EnvelopeView, Identity};
use crate::error::{CultCacheError, Failure, FailureView};
use crate::messagepack::{
    identity_bytes, identity_fits, identity_packing_failed, option_fits, packed_identity,
    packed_plain_row, packed_schema_row, plain_row_bytes, plain_row_fits, row_fields_view,
    row_packing_failed, schema_row_bytes, unpack_plain_row, unpack_schema_row, unpacked_plain_row,
    unpacked_schema_row, RowFields,
};
use crate::ordered_map::{index_of_key, lemma_item_in_map};
use crate::rows::{ids_of, rows_outcome, sort_rows, sorts_to, IdentitySet};
use redb::ReadableTable;
use vstd::prelude::*;

verus! {

/// The name of the table.
pub const REDB_ENVELOPES: &'static str = "cultcache_envelopes";

/// The table of envelopes of an open write transaction: from packed identities to packed rows.
#[verifier::external_body]
pub struct EnvelopeTable<'txn> {
    table: redb::Table<'txn, &'static [u8], &'static [u8]>,
}

/// A write transaction of `redb`.
#[verifier::external_type_specification]
#[verifier::external_body]
pub struct ExWriteTransaction(redb::WriteTransaction);

/// The errors of `redb` when a table is opened.
#[verifier::external_type_specification]
#[verifier::external_body]
pub struct ExTableError(redb::TableError);

/// The errors of `redb` when a table is read or written.
#[verifier::external_type_specification]
#[verifier::external_body]
pub struct ExStorageError(redb::StorageError);

/// What a table holds.
pub uninterp spec fn contents(table: EnvelopeTable<'_>) -> Map<Seq<u8>, Seq<u8>>;

/// The name that a table was opened under.
pub uninterp spec fn opened_name(table: EnvelopeTable<'_>) -> Seq<char>;

/// `a` and `b` agree on their first `n` bytes, and what follows puts `a` first: `a` ends there
/// while `b` goes on, or `a` continues with the smaller byte.
pub open spec fn bytes_lead_from(a: Seq<u8>, b: Seq<u8>, n: int) -> bool {
    &&& 0 <= n <= a.len()
    &&& n < b.len()
    &&& forall|i: int| 0 <= i < n ==> #[trigger] a[i] == b[i]
    &&& n == a.len() || a[n] < b[n]
}

/// Lexicographic order of byte strings.
pub open spec fn bytes_before(a: Seq<u8>, b: Seq<u8>) -> bool {
    exists|n: int| bytes_lead_from(a, b, n)
}

/// `listing` has the keys of `held` in increasing order, each with its value.
pub open spec fn lists(held: Map<Seq<u8>, Seq<u8>>, listing: Seq<(Seq<u8>, Seq<u8>)>) -> bool {
    &&& forall|i: int, j: int|
        0 <= i < j < listing.len() ==> bytes_before(
            (#[trigger] listing[i]).0,
            (#[trigger] listing[j]).0,
        )
    &&& forall|i: int|
        0 <= i < listing.len() ==> held.contains_key((#[trigger] listing[i]).0) && held[listing[i].0]
            == listing[i].1
    &&& forall|k: Seq<u8>| #[trigger]
        held.contains_key(k) ==> exists|i: int| 0 <= i < listing.len() && (#[trigger] listing[i]).0
            == k
}

/// What pairs of keys and values hold.
pub open spec fn listing_view(pairs: Seq<(Vec<u8>, Vec<u8>)>) -> Seq<(Seq<u8>, Seq<u8>)> {
    Seq::new(pairs.len(), |i: int| (pairs[i].0@, pairs[i].1@))
}

/// `WriteTransaction::open_table`, which opens the table of that name and makes it where it is
/// missing. A `TableDefinition` must not have an empty name. Nothing is stated of what the table
/// holds, which is what was committed before and what the transaction has changed since, nor of
/// when opening fails: that rests on the database, and on which tables the transaction has open.
#[verifier::external_body]
fn open_named<'txn>(write: &'txn redb::WriteTransaction, name: &str) -> (table: Result<
    EnvelopeTable<'txn>,
    redb::TableError,
>)
    requires
        name@.len() > 0,
    ensures
        match table {
            Ok(t) => opened_name(t) == name@,
            Err(_) => true,
        },
{
    let table = write.open_table(redb::TableDefinition::new(name))?;
    Ok(EnvelopeTable { table })
}

/// `ReadableTable::get` on a table: the value under the key. Where the storage fails, nothing is
/// stated.
#[verifier::external_body]
fn table_get(table: &EnvelopeTable<'_>, key: &Vec<u8>) -> (value: Result<
    Option<Vec<u8>>,
    redb::StorageError,
>)
    ensures
        match value {
            Ok(Some(v)) => contents(*table).contains_key(key@) && contents(*table)[key@] == v@,
            Ok(None) => !contents(*table).contains_key(key@),
            Err(_) => true,
        },
{
    Ok(table.table.get(key.as_slice())?.map(|value| value.value().to_vec()))
}

/// `ReadableTable::iter` on a table: all pairs, in the order of their keys, which `redb` compares
/// as byte strings. Where the storage fails, nothing is stated.
#[verifier::external_body]
fn table_pairs(table: &EnvelopeTable<'_>) -> (pairs: Result<
    Vec<(Vec<u8>, Vec<u8>)>,
    redb::StorageError,
>)
    ensures
        match pairs {
            Ok(p) => lists(contents(*table), listing_view(p@)),
            Err(_) => true,
        },
{
    table
        .table
        .iter()?
        .map(|pair| pair.map(|(key, value)| (key.value().to_vec(), value.value().to_vec())))
        .collect()
}

/// `Table::insert`: puts the value under the key, in the place of one that stood there. Where the
/// storage fails or the pair is too large, nothing is stated.
#[verifier::external_body]
fn table_insert(table: &mut EnvelopeTable<'_>, key: &Vec<u8>, value: &Vec<u8>) -> (done: Result<
    (),
    redb::StorageError,
>)
    ensures
        match done {
            Ok(_) => contents(*final(table)) == contents(*old(table)).insert(key@, value@),
            Err(_) => true,
        },
{
    table.table.insert(key.as_slice(), value.as_slice())?;
    Ok(())
}

/// `Table::remove`: takes the key and its value out. Where the storage fails, nothing is stated.
#[verifier::external_body]
fn table_remove(table: &mut EnvelopeTable<'_>, key: &Vec<u8>) -> (done: Result<
    (),
    redb::StorageError,
>)
    ensures
        match done {
            Ok(_) => contents(*final(table)) == contents(*old(table)).remove(key@),
            Err(_) => true,
        },
{
    table.table.remove(key.as_slice())?;
    Ok(())
}

/// `TableError` put in words by `to_string`. Nothing is stated of the words.
#[verifier::external_body]
fn table_error_text(error: redb::TableError) -> (text: String) {
    error.to_string()
}

/// `StorageError` put in words by `to_string`. Nothing is stated of the words.
#[verifier::external_body]
fn storage_error_text(error: redb::StorageError) -> (text: String) {
    error.to_string()
}

/// `redb` gave an error of its storage, which is put in words as `cause`.
pub closed spec fn storage_failed(cause: Seq<char>) -> bool {
    exists|error: redb::StorageError, text: String| #[trigger]
        call_ensures(storage_error_text, (error,), text) && text@ == cause
}

/// The error of opening a table is put in words as `cause`.
pub closed spec fn open_error_worded(error: redb::TableError, cause: Seq<char>) -> bool {
    exists|text: String| #[trigger]
        call_ensures(table_error_text, (error,), text) && text@ == cause
}

/// The table failed, in the words of an error that `redb` gave.
pub open spec fn table_failure(e: FailureView) -> bool {
    e matches FailureView::TableFailed { cause } && storage_failed(cause)
}

/// A failure of the storage.
fn storage_failure(error: redb::StorageError) -> (e: CultCacheError)
    ensures
        table_failure(e@),
{
    let cause = storage_error_text(error);
    assert(call_ensures(storage_error_text, (error,), cause));
    Failure::TableFailed { cause }
}

/// What comes of opening a table: the table itself, or a failure with the error's words.
pub fn opened_table<'txn>(opened: Result<EnvelopeTable<'txn>, redb::TableError>) -> (table: Result<
    EnvelopeTable<'txn>,
    CultCacheError,
>)
    ensures
        match opened {
            Ok(t) => table is Ok && table->Ok_0 == t,
            Err(error) => table is Err && table->Err_0@ is TableFailed && open_error_worded(
                error,
                table->Err_0@->TableFailed_cause,
            ),
        },
{
    match opened {
        Ok(table) => Ok(table),
        Err(e) => {
            let cause = table_error_text(e);
            assert(call_ensures(table_error_text, (e,), cause));
            Err(Failure::TableFailed { cause })
        },
    }
}

/// Opens the table of envelopes in a write transaction.
pub fn open_envelopes<'txn>(write: &'txn redb::WriteTransaction) -> (table: Result<
    EnvelopeTable<'txn>,
    CultCacheError,
>)
    ensures
        match table {
            Ok(t) => opened_name(t) == REDB_ENVELOPES@,
            Err(e) => e@ is TableFailed && exists|error: redb::TableError| #[trigger]
                open_error_worded(error, e@->TableFailed_cause),
        },
{
    proof {
        reveal_strlit("cultcache_envelopes");
    }
    opened_table(open_named(write, REDB_ENVELOPES))
}

/// The packed row of an envelope: with its schema id where it has one.
pub open spec fn packed_row(row: EnvelopeView) -> Seq<u8> {
    match row.schema_id {
        None => packed_plain_row(row.key, row.entry_type, row.payload, row.stored_at),
        Some(schema) => packed_schema_row(
            row.key,
            row.entry_type,
            row.payload,
            row.stored_at,
            schema,
        ),
    }
}

/// The envelope that bytes hold as an array of its fields, with or without a schema id.
pub open spec fn array_row(bytes: Seq<u8>) -> Option<EnvelopeView> {
    match unpacked_schema_row(bytes) {
        Some((key, entry_type, payload, stored_at, schema_id)) => Some(
            EnvelopeView { key, entry_type, payload, stored_at, schema_id },
        ),
        None => match unpacked_plain_row(bytes) {
            Some((key, entry_type, payload, stored_at)) => Some(
                EnvelopeView { key, entry_type, payload, stored_at, schema_id: None },
            ),
            None => None,
        },
    }
}

/// MessagePack can count everything in `row`.
pub open spec fn row_fits(row: EnvelopeView) -> bool {
    plain_row_fits(row.key, row.entry_type, row.payload, row.stored_at) && option_fits(
        row.schema_id,
    )
}

/// The packed row is read as that row, as far as its lengths fit MessagePack.
pub open spec fn reads_back(row: EnvelopeView) -> bool {
    row_fits(row) ==> array_row(packed_row(row)) == Some(row)
}

/// No other identity has the key of `id`, as far as the lengths fit MessagePack.
pub open spec fn own_key(id: Identity) -> bool {
    identity_fits(id) ==> forall|other: Identity|
        identity_fits(other) && #[trigger] packed_identity(other) == packed_identity(id) ==> other
            == id
}

/// Each of `rows` has a key of its own and is read back from what is packed for it.
pub open spec fn packs_whole(rows: Seq<EnvelopeView>) -> bool {
    forall|i: int|
        0 <= i < rows.len() ==> own_key((#[trigger] rows[i]).id()) && reads_back(rows[i])
}

/// What came of decoding a row.
pub open spec fn decoding(r: Result<CultCacheEnvelope, String>) -> Result<EnvelopeView, Seq<char>> {
    match r {
        Ok(row) => Ok(row@),
        Err(cause) => Err(cause@),
    }
}

/// `decode` may give `row` for `bytes`.
pub open spec fn decodes<D: Fn(&Vec<u8>) -> Result<CultCacheEnvelope, String>>(
    decode: D,
    bytes: Seq<u8>,
    row: Result<EnvelopeView, Seq<char>>,
) -> bool {
    exists|b: &Vec<u8>, r: Result<CultCacheEnvelope, String>| #[trigger]
        call_ensures(decode, (b,), r) && b@ == bytes && decoding(r) == row
}

/// `decode` takes every byte string, and what it gives depends on the bytes alone.
pub open spec fn decodes_rows<D: Fn(&Vec<u8>) -> Result<CultCacheEnvelope, String>>(
    decode: D,
) -> bool {
    &&& forall|b: &Vec<u8>| call_requires(decode, (b,))
    &&& forall|
        bytes: Seq<u8>,
        x: Result<EnvelopeView, Seq<char>>,
        y: Result<EnvelopeView, Seq<char>>,
    | #[trigger]
        decodes(decode, bytes, x) && #[trigger] decodes(decode, bytes, y) ==> x == y
}

/// The row that `bytes` hold: as an array of its fields, or in a form that `decode` reads.
pub open spec fn decoded<D: Fn(&Vec<u8>) -> Result<CultCacheEnvelope, String>>(
    decode: D,
    bytes: Seq<u8>,
) -> Result<EnvelopeView, Seq<char>> {
    match array_row(bytes) {
        Some(row) => Ok(row),
        None => choose|row: Result<EnvelopeView, Seq<char>>| decodes(decode, bytes, row),
    }
}

/// What the table holds under an identity, decoded.
pub open spec fn stored<D: Fn(&Vec<u8>) -> Result<CultCacheEnvelope, String>>(
    held: Map<Seq<u8>, Seq<u8>>,
    decode: D,
    id: Identity,
) -> Option<Result<EnvelopeView, Seq<char>>> {
    if held.contains_key(packed_identity(id)) {
        Some(decoded(decode, held[packed_identity(id)]))
    } else {
        None
    }
}

/// A failure of a request that works on the keys of `ids`: the table failed, or packing one of
/// those identities did.
pub open spec fn key_failure(e: FailureView, ids: Set<Identity>) -> bool {
    ||| table_failure(e)
    ||| e == FailureView::IdentityUnencodable && exists|id: Identity| #[trigger]
        ids.contains(id) && identity_packing_failed(id)
}

/// Packing `row` failed.
pub open spec fn packing_failed(row: EnvelopeView) -> bool {
    row_packing_failed(row.key, row.entry_type, row.payload, row.stored_at, row.schema_id)
}

/// A failure of a request that works on the keys of `ids` and packs `rows`: one that the keys may
/// give, or packing one of those rows failed.
pub open spec fn machine_failure(
    e: FailureView,
    ids: Set<Identity>,
    rows: Seq<EnvelopeView>,
) -> bool {
    ||| key_failure(e, ids)
    ||| e == FailureView::RowUnencodable && exists|i: int|
        0 <= i < rows.len() && packing_failed(#[trigger] rows[i])
}

/// A failure in working on some keys and packing some rows is one in working on more keys and
/// packing more rows.
pub proof fn lemma_failure_of_more(
    ids: Set<Identity>,
    more_ids: Set<Identity>,
    rows: Seq<EnvelopeView>,
    more_rows: Seq<EnvelopeView>,
)
    requires
        ids.subset_of(more_ids),
        rows.len() == 0 || rows == more_rows,
    ensures
        forall|e: FailureView| #[trigger] key_failure(e, ids) ==> key_failure(e, more_ids),
        forall|e: FailureView| #[trigger]
            machine_failure(e, ids, rows) ==> machine_failure(e, more_ids, more_rows),
{
}

/// The envelope of the fields of a row.
pub fn row_of_fields(fields: RowFields) -> (row: CultCacheEnvelope)
    ensures
        (row@.key, row@.entry_type, row@.payload, row@.stored_at, row@.schema_id)
            == row_fields_view(fields),
{
    let (key, entry_type, payload, stored_at, schema_id) = fields;
    CultCacheEnvelope { key, entry_type, payload, stored_at, schema_id }
}

/// Decodes one row. What is no array of its fields is left to `decode`.
pub fn decode_row<D: Fn(&Vec<u8>) -> Result<CultCacheEnvelope, String>>(
    bytes: &Vec<u8>,
    decode: &D,
) -> (row: Result<CultCacheEnvelope, String>)
    requires
        decodes_rows(*decode),
    ensures
        decoding(row) == decoded(*decode, bytes@),
{
    if let Ok(fields) = unpack_schema_row(bytes) {
        return Ok(row_of_fields(fields));
    }
    if let Ok((key, entry_type, payload, stored_at)) = unpack_plain_row(bytes) {
        return Ok(row_of_fields((key, entry_type, payload, stored_at, None)));
    }
    let row = decode(bytes);
    proof {
        assert(decodes(*decode, bytes@, decoding(row)));
    }
    row
}

/// The key of a row. No other identity has it, as far as the lengths fit MessagePack.
pub fn redb_identity(entry: &CultCacheEnvelope) -> (key: Result<Vec<u8>, CultCacheError>)
    ensures
        match key {
            Ok(k) => k@ == packed_identity(entry@.id()) && own_key(entry@.id()),
            Err(e) => e@ == FailureView::IdentityUnencodable && identity_packing_failed(entry@.id()),
        },
{
    match identity_bytes(&entry_id(entry)) {
        Some(key) => Ok(key),
        None => Err(Failure::IdentityUnencodable),
    }
}

/// The packed row of `entry`.
pub fn redb_row(entry: &CultCacheEnvelope) -> (value: Result<Vec<u8>, CultCacheError>)
    ensures
        match value {
            Ok(v) => v@ == packed_row(entry@) && reads_back(entry@),
            Err(e) => e@ == FailureView::RowUnencodable && packing_failed(entry@),
        },
{
    let packed = match &entry.schema_id {
        None => plain_row_bytes(
            entry.key.as_str(),
            entry.entry_type.as_str(),
            &entry.payload,
            entry.stored_at.as_str(),
        ),
        Some(schema) => schema_row_bytes(
            entry.key.as_str(),
            entry.entry_type.as_str(),
            &entry.payload,
            entry.stored_at.as_str(),
            schema.as_str(),
        ),
    };
    match packed {
        Some(value) => Ok(value),
        None => Err(Failure::RowUnencodable),
    }
}

/// The row under the identity of `identity`.
pub fn read_redb_entry<D: Fn(&Vec<u8>) -> Result<CultCacheEnvelope, String>>(
    table: &EnvelopeTable<'_>,
    identity: &CultCacheEnvelope,
    decode: &D,
) -> (row: Result<Option<CultCacheEnvelope>, CultCacheError>)
    requires
        decodes_rows(*decode),
    ensures
        match row {
            Ok(None) => stored(contents(*table), *decode, identity@.id()) is None,
            Ok(Some(r)) => stored(contents(*table), *decode, identity@.id()) == Some(
                Ok::<EnvelopeView, Seq<char>>(r@),
            ),
            Err(e) => key_failure(e@, set![identity@.id()]) || (stored(
                contents(*table),
                *decode,
                identity@.id(),
            ) matches Some(Err(cause)) && e@ == (FailureView::RowUndecodable { cause })),
        },
{
    assert(set![identity@.id()].contains(identity@.id()));
    let key = redb_identity(identity)?;
    match table_get(table, &key) {
        Ok(None) => Ok(None),
        Ok(Some(value)) => match decode_row(&value, decode) {
            Ok(row) => Ok(Some(row)),
            Err(cause) => {
                assert(stored(contents(*table), *decode, identity@.id()) == Some(
                    Err::<EnvelopeView, Seq<char>>(cause@),
                ));
                Err(Failure::RowUndecodable { cause })
            },
        },
        Err(e) => Err(storage_failure(e)),
    }
}

/// Whether the table holds a row under the identity of `entry`.
pub fn holds_identity(table: &EnvelopeTable<'_>, entry: &CultCacheEnvelope) -> (held: Result<
    bool,
    CultCacheError,
>)
    ensures
        match held {
            Ok(b) => b == contents(*table).contains_key(packed_identity(entry@.id())),
            Err(e) => key_failure(e@, set![entry@.id()]),
        },
{
    assert(set![entry@.id()].contains(entry@.id()));
    let key = redb_identity(entry)?;
    match table_get(table, &key) {
        Ok(value) => Ok(value.is_some()),
        Err(e) => Err(storage_failure(e)),
    }
}

/// Takes the row under the identity of `entry` out of the table.
pub fn remove_redb_entry(table: &mut EnvelopeTable<'_>, entry: &CultCacheEnvelope) -> (done: Result<
    (),
    CultCacheError,
>)
    ensures
        match done {
            Ok(_) => contents(*final(table)) == contents(*old(table)).remove(
                packed_identity(entry@.id()),
            ),
            Err(e) => key_failure(e@, set![entry@.id()]),
        },
{
    assert(set![entry@.id()].contains(entry@.id()));
    let key = redb_identity(entry)?;
    match table_remove(table, &key) {
        Ok(_) => Ok(()),
        Err(e) => Err(storage_failure(e)),
    }
}

/// Puts `entry` under its identity.
pub fn insert_redb_entry(table: &mut EnvelopeTable<'_>, entry: &CultCacheEnvelope) -> (done: Result<
    (),
    CultCacheError,
>)
    ensures
        match done {
            Ok(_) => {
                &&& contents(*final(table)) == contents(*old(table)).insert(
                    packed_identity(entry@.id()),
                    packed_row(entry@),
                )
                &&& packs_whole(seq![entry@])
            },
            Err(e) => machine_failure(e@, set![entry@.id()], seq![entry@]),
        },
{
    proof {
        assert(set![entry@.id()].contains(entry@.id()));
        assert(seq![entry@][0] == entry@);
    }
    let key = redb_identity(entry)?;
    let value = redb_row(entry)?;
    match table_insert(table, &key, &value) {
        Ok(_) => Ok(()),
        Err(e) => Err(storage_failure(e)),
    }
}

proof fn lemma_bytes_irreflexive(a: Seq<u8>)
    ensures
        !bytes_before(a, a),
{
}

proof fn lemma_bytes_transitive(a: Seq<u8>, b: Seq<u8>, c: Seq<u8>)
    requires
        bytes_before(a, b),
        bytes_before(b, c),
    ensures
        bytes_before(a, c),
{
    let m: int = choose|m: int| bytes_lead_from(a, b, m);
    let n: int = choose|n: int| bytes_lead_from(b, c, n);
    let least: int = if m <= n { m } else { n };
    assert(bytes_lead_from(a, c, least)) by {
        assert forall|i: int| 0 <= i < least implies #[trigger] a[i] == c[i] by {
            assert(a[i] == b[i]);
            assert(b[i] == c[i]);
        }
    }
}

/// A table has one listing.
pub proof fn listing_is_unique(
    held: Map<Seq<u8>, Seq<u8>>,
    a: Seq<(Seq<u8>, Seq<u8>)>,
    b: Seq<(Seq<u8>, Seq<u8>)>,
)
    requires
        lists(held, a),
        lists(held, b),
    ensures
        a == b,
    decreases a.len(),
{
    if a.len() == 0 {
        if b.len() > 0 {
            assert(held.contains_key(b[0].0));
        }
        assert(a =~= b);
    } else {
        let m = a.len() - 1;
        let x = a[m].0;
        assert(held.contains_key(x));
        let p = choose|p: int| 0 <= p < b.len() && (#[trigger] b[p]).0 == x;
        let n = b.len() - 1;
        let y = b[n].0;
        assert(held.contains_key(y));
        let q = choose|q: int| 0 <= q < a.len() && (#[trigger] a[q]).0 == y;
        lemma_bytes_irreflexive(x);
        if p < n && q < m {
            assert(bytes_before(b[p].0, b[n].0));
            assert(bytes_before(a[q].0, a[m].0));
            lemma_bytes_transitive(x, y, x);
        }
        assert(x == y);
        let rest = held.remove(x);
        let a0 = a.drop_last();
        let b0 = b.drop_last();
        lemma_listing_shorter(held, a);
        lemma_listing_shorter(held, b);
        listing_is_unique(rest, a0, b0);
        assert(a =~= a0.push(a[m]));
        assert(b =~= b0.push(b[n]));
    }
}

proof fn lemma_listing_shorter(held: Map<Seq<u8>, Seq<u8>>, a: Seq<(Seq<u8>, Seq<u8>)>)
    requires
        lists(held, a),
        a.len() > 0,
    ensures
        lists(held.remove(a.last().0), a.drop_last()),
{
    let rest = held.remove(a.last().0);
    let a0 = a.drop_last();
    let m = a.len() - 1;
    lemma_bytes_irreflexive(a[m].0);
    assert forall|i: int| 0 <= i < a0.len() implies rest.contains_key((#[trigger] a0[i]).0)
        && rest[a0[i].0] == a0[i].1 by {
        assert(a[i] == a0[i]);
        assert(bytes_before(a[i].0, a[m].0));
    }
    assert forall|i: int, j: int| 0 <= i < j < a0.len() implies bytes_before(
        (#[trigger] a0[i]).0,
        (#[trigger] a0[j]).0,
    ) by {
        assert(a[i] == a0[i] && a[j] == a0[j]);
    }
    assert forall|k: Seq<u8>| #[trigger] rest.contains_key(k) implies exists|i: int|
        0 <= i < a0.len() && (#[trigger] a0[i]).0 == k by {
        assert(held.contains_key(k));
        let i = choose|i: int| 0 <= i < a.len() && (#[trigger] a[i]).0 == k;
        assert(a0[i].0 == k);
    }
}

/// The listing of a table.
pub open spec fn listing_of(held: Map<Seq<u8>, Seq<u8>>) -> Seq<(Seq<u8>, Seq<u8>)> {
    choose|listing: Seq<(Seq<u8>, Seq<u8>)>| lists(held, listing)
}

/// The rows of a listing in its order, up to the first that does not decode.
pub open spec fn rows_listed<D: Fn(&Vec<u8>) -> Result<CultCacheEnvelope, String>>(
    listing: Seq<(Seq<u8>, Seq<u8>)>,
    decode: D,
) -> Result<Seq<EnvelopeView>, FailureView>
    decreases listing.len(),
{
    if listing.len() == 0 {
        Ok(Seq::empty())
    } else {
        match rows_listed(listing.drop_last(), decode) {
            Err(e) => Err(e),
            Ok(rows) => match decoded(decode, listing.last().1) {
                Ok(row) => Ok(rows.push(row)),
                Err(cause) => Err(Failure::RowUndecodable { cause }),
            },
        }
    }
}

proof fn lemma_bytes_total_from(a: Seq<u8>, b: Seq<u8>, n: int)
    requires
        a != b,
        0 <= n <= a.len(),
        n <= b.len(),
        forall|i: int| 0 <= i < n ==> #[trigger] a[i] == b[i],
    ensures
        bytes_before(a, b) || bytes_before(b, a),
    decreases a.len() - n,
{
    if n == a.len() {
        assert(n < b.len()) by {
            if n == b.len() {
                assert(a =~= b);
            }
        }
        assert(bytes_lead_from(a, b, n));
    } else if n == b.len() {
        assert(bytes_lead_from(b, a, n));
    } else if a[n] < b[n] {
        assert(bytes_lead_from(a, b, n));
    } else if b[n] < a[n] {
        assert(bytes_lead_from(b, a, n));
    } else {
        lemma_bytes_total_from(a, b, n + 1);
    }
}

/// A pair whose key stands behind all keys of a table goes to the end of the listing.
proof fn lemma_listing_push(
    held: Map<Seq<u8>, Seq<u8>>,
    listing: Seq<(Seq<u8>, Seq<u8>)>,
    key: Seq<u8>,
    value: Seq<u8>,
)
    requires
        lists(held, listing),
        forall|k: Seq<u8>| #[trigger] held.contains_key(k) ==> bytes_before(k, key),
    ensures
        lists(held.insert(key, value), listing.push((key, value))),
{
    let next = held.insert(key, value);
    let longer = listing.push((key, value));
    lemma_bytes_irreflexive(key);
    assert(!held.contains_key(key));
    assert forall|i: int, j: int| 0 <= i < j < longer.len() implies bytes_before(
        (#[trigger] longer[i]).0,
        (#[trigger] longer[j]).0,
    ) by {
        assert(longer[i] == listing[i]);
        if j < listing.len() {
            assert(longer[j] == listing[j]);
        } else {
            assert(held.contains_key(listing[i].0));
        }
    }
    assert forall|i: int| 0 <= i < longer.len() implies next.contains_key((#[trigger] longer[i]).0)
        && next[longer[i].0] == longer[i].1 by {
        if i < listing.len() {
            assert(longer[i] == listing[i]);
            assert(held.contains_key(listing[i].0));
        }
    }
    assert forall|k: Seq<u8>| #[trigger] next.contains_key(k) implies exists|i: int|
        0 <= i < longer.len() && (#[trigger] longer[i]).0 == k by {
        if k == key {
            assert(longer[listing.len() as int].0 == k);
        } else {
            assert(held.contains_key(k));
            let i = choose|i: int| 0 <= i < listing.len() && (#[trigger] listing[i]).0 == k;
            assert(longer[i].0 == k);
        }
    }
}

/// A table that is listed can still be listed with one more pair.
proof fn lemma_listing_grows(
    held: Map<Seq<u8>, Seq<u8>>,
    listing: Seq<(Seq<u8>, Seq<u8>)>,
    key: Seq<u8>,
    value: Seq<u8>,
) -> (longer: Seq<(Seq<u8>, Seq<u8>)>)
    requires
        lists(held, listing),
        !held.contains_key(key),
    ensures
        lists(held.insert(key, value), longer),
    decreases listing.len(),
{
    if listing.len() == 0 {
        assert forall|k: Seq<u8>| #[trigger] held.contains_key(k) implies bytes_before(k, key) by {
            let i = choose|i: int| 0 <= i < listing.len() && (#[trigger] listing[i]).0 == k;
        }
        lemma_listing_push(held, listing, key, value);
        listing.push((key, value))
    } else {
        let m = listing.len() - 1;
        let last = listing[m];
        assert(held.contains_key(last.0));
        lemma_bytes_total_from(last.0, key, 0);
        if bytes_before(last.0, key) {
            assert forall|k: Seq<u8>| #[trigger] held.contains_key(k) implies bytes_before(
                k,
                key,
            ) by {
                let i = choose|i: int| 0 <= i < listing.len() && (#[trigger] listing[i]).0 == k;
                if i < m {
                    assert(bytes_before(listing[i].0, listing[m].0));
                    lemma_bytes_transitive(k, last.0, key);
                }
            }
            lemma_listing_push(held, listing, key, value);
            listing.push((key, value))
        } else {
            let rest = held.remove(last.0);
            lemma_listing_shorter(held, listing);
            let shorter = lemma_listing_grows(rest, listing.drop_last(), key, value);
            let with_key = rest.insert(key, value);
            assert forall|k: Seq<u8>| #[trigger] with_key.contains_key(k) implies bytes_before(
                k,
                last.0,
            ) by {
                if k != key {
                    assert(held.contains_key(k));
                    let i = choose|i: int| 0 <= i < listing.len() && (#[trigger] listing[i]).0 == k;
                    assert(bytes_before(listing[i].0, listing[m].0));
                }
            }
            lemma_listing_push(with_key, shorter, last.0, last.1);
            assert(with_key.insert(last.0, last.1) =~= held.insert(key, value));
            shorter.push(last)
        }
    }
}

/// Every table of finitely many pairs can be listed.
pub proof fn finite_table_is_listed(held: Map<Seq<u8>, Seq<u8>>)
    requires
        held.dom().finite(),
    ensures
        lists(held, listing_of(held)),
    decreases held.dom().len(),
{
    if held.dom().len() == 0 {
        assert(held.dom() =~= Set::<Seq<u8>>::empty());
        assert(lists(held, Seq::empty())) by {
            assert forall|k: Seq<u8>| !(#[trigger] held.contains_key(k)) by {
                assert(!held.dom().contains(k));
            }
        }
    } else {
        let key = held.dom().choose();
        let rest = held.remove(key);
        assert(rest.dom() =~= held.dom().remove(key));
        finite_table_is_listed(rest);
        let longer = lemma_listing_grows(rest, listing_of(rest), key, held[key]);
        assert(rest.insert(key, held[key]) =~= held);
        assert(lists(held, longer));
    }
}

proof fn lemma_listed_failure<D: Fn(&Vec<u8>) -> Result<CultCacheEnvelope, String>>(
    listing: Seq<(Seq<u8>, Seq<u8>)>,
    decode: D,
    n: int,
)
    requires
        0 <= n <= listing.len(),
        rows_listed(listing.take(n), decode) is Err,
    ensures
        rows_listed(listing, decode) == rows_listed(listing.take(n), decode),
    decreases listing.len() - n,
{
    if n == listing.len() {
        assert(listing.take(n) =~= listing);
    } else {
        assert(listing.take(n + 1).drop_last() =~= listing.take(n));
        lemma_listed_failure(listing, decode, n + 1);
    }
}

/// `sorted` are the rows of a listing in the order of their identities, or why they cannot be
/// read.
pub open spec fn reads_listing<D: Fn(&Vec<u8>) -> Result<CultCacheEnvelope, String>>(
    listing: Seq<(Seq<u8>, Seq<u8>)>,
    decode: D,
    sorted: Result<Seq<EnvelopeView>, FailureView>,
) -> bool {
    match rows_listed(listing, decode) {
        Ok(rows) => sorted is Ok && sorts_to(rows, sorted->Ok_0),
        Err(e) => sorted == Err::<Seq<EnvelopeView>, FailureView>(e),
    }
}

/// The rows of the pairs of a table, in the order of their identities.
pub fn read_pairs<D: Fn(&Vec<u8>) -> Result<CultCacheEnvelope, String>>(
    pairs: Vec<(Vec<u8>, Vec<u8>)>,
    decode: &D,
) -> (rows: Result<Vec<CultCacheEnvelope>, CultCacheError>)
    requires
        decodes_rows(*decode),
    ensures
        reads_listing(listing_view(pairs@), *decode, rows_outcome(rows)),
{
    let ghost given = pairs@;
    let ghost all = listing_view(pairs@);
    let mut rows: Vec<CultCacheEnvelope> = Vec::with_capacity(pairs.len());
    assert(all.take(0) =~= Seq::<(Seq<u8>, Seq<u8>)>::empty());
    assert(views(rows@) =~= Seq::<EnvelopeView>::empty());
    for pair in iter: pairs
        invariant
            iter.seq() == given,
            all == listing_view(given),
            decodes_rows(*decode),
            rows_listed(all.take(iter.index()), *decode) == Ok::<Seq<EnvelopeView>, FailureView>(
                views(rows@),
            ),
            all == listing_view(pairs@),
    {
        let ghost n = iter.index();
        let ghost before = views(rows@);
        proof {
            assert(all.take(n + 1).drop_last() =~= all.take(n));
            assert(all.take(n + 1).last() == (pair.0@, pair.1@));
        }
        match decode_row(&pair.1, decode) {
            Ok(row) => {
                rows.push(row);
                assert(views(rows@) =~= before.push(row@));
            },
            Err(cause) => {
                proof {
                    lemma_listed_failure(all, *decode, n + 1);
                }
                return Err(Failure::RowUndecodable { cause });
            },
        }
    }
    assert(all.take(all.len() as int) =~= all);
    Ok(sort_rows(rows))
}

/// All rows of the table, in the order of their identities.
pub fn read_all_redb<D: Fn(&Vec<u8>) -> Result<CultCacheEnvelope, String>>(
    table: &EnvelopeTable<'_>,
    decode: &D,
) -> (rows: Result<Vec<CultCacheEnvelope>, CultCacheError>)
    requires
        decodes_rows(*decode),
    ensures
        reads_listing(listing_of(contents(*table)), *decode, rows_outcome(rows)) || (rows matches Err(
            e,
        ) && table_failure(e@)),
{
    match table_pairs(table) {
        Ok(pairs) => {
            proof {
                let held = contents(*table);
                assert(lists(held, listing_of(held)));
                listing_is_unique(held, listing_of(held), listing_view(pairs@));
            }
            read_pairs(pairs, decode)
        },
        Err(e) => Err(storage_failure(e)),
    }
}

/// `held` with `rows` put under their identities, one after the other.
pub open spec fn with_rows(held: Map<Seq<u8>, Seq<u8>>, rows: Seq<EnvelopeView>) -> Map<
    Seq<u8>,
    Seq<u8>,
>
    decreases rows.len(),
{
    if rows.len() == 0 {
        held
    } else {
        with_rows(held, rows.drop_last()).insert(
            packed_identity(rows.last().id()),
            packed_row(rows.last()),
        )
    }
}

/// Puts `rows` under their identities.
pub fn insert_rows(table: &mut EnvelopeTable<'_>, rows: &[CultCacheEnvelope]) -> (done: Result<
    (),
    CultCacheError,
>)
    ensures
        match done {
            Ok(_) => {
                &&& contents(*final(table)) == with_rows(contents(*old(table)), views(rows@))
                &&& packs_whole(views(rows@))
            },
            Err(e) => rows@.len() > 0 && machine_failure(e@, ids_of(views(rows@)), views(rows@)),
        },
{
    let ghost held = contents(*table);
    let ghost all = views(rows@);
    let mut i: usize = 0;
    while i < rows.len()
        invariant
            i <= rows.len(),
            all == views(rows@),
            contents(*table) == with_rows(held, all.take(i as int)),
            packs_whole(all.take(i as int)),
        decreases rows.len() - i,
    {
        proof {
            assert(all[i as int].id() == rows@[i as int]@.id());
            assert(ids_of(all).contains(all[i as int].id()));
        }
        insert_redb_entry(table, &rows[i])?;
        proof {
            let next = all.take(i + 1);
            assert(next.drop_last() =~= all.take(i as int));
            assert forall|j: int| 0 <= j < next.len() implies own_key((#[trigger] next[j]).id())
                && reads_back(next[j]) by {
                if j < i {
                    assert(next[j] == all.take(i as int)[j]);
                } else {
                    assert(next[j] == seq![all[i as int]][0]);
                }
            }
        }
        i = i + 1;
    }
    assert(all.take(i as int) =~= all);
    Ok(())
}

/// The keys of the identities `ids`.
pub open spec fn keys_of(ids: Set<Identity>) -> Set<Seq<u8>> {
    Set::new(|key: Seq<u8>| exists|id: Identity| ids.contains(id) && #[trigger] packed_identity(id) == key)
}

/// `held` without the rows under the identities `ids`.
pub open spec fn without_ids(held: Map<Seq<u8>, Seq<u8>>, ids: Set<Identity>) -> Map<
    Seq<u8>,
    Seq<u8>,
> {
    held.remove_keys(keys_of(ids))
}

/// Takes the rows under the identities `ids` out of the table.
pub fn remove_ids(table: &mut EnvelopeTable<'_>, ids: &IdentitySet) -> (done: Result<
    (),
    CultCacheError,
>)
    requires
        ids.wf(),
    ensures
        match done {
            Ok(_) => contents(*final(table)) == without_ids(contents(*old(table)), ids@.dom()),
            Err(e) => ids.items().len() > 0 && key_failure(e@, ids@.dom()),
        },
{
    let ghost held = contents(*table);
    let ghost mut gone: Set<Seq<u8>> = Set::empty();
    assert(held.remove_keys(gone) =~= held);
    let mut i: usize = 0;
    while i < ids.len()
        invariant
            ids.wf(),
            i <= ids.items().len(),
            contents(*table) == held.remove_keys(gone),
            forall|key: Seq<u8>| #[trigger]
                gone.contains(key) <==> exists|j: int|
                    0 <= j < i && key == packed_identity((#[trigger] ids.items()[j]).0@),
        decreases ids.items().len() - i,
    {
        let id = &ids.item(i).0;
        let key = match identity_bytes(id) {
            Some(key) => key,
            None => {
                proof {
                    lemma_item_in_map(ids.items(), i as int);
                    assert(ids@.dom().contains(id@));
                }
                return Err(Failure::IdentityUnencodable);
            },
        };
        match table_remove(table, &key) {
            Ok(_) => {},
            Err(e) => {
                return Err(storage_failure(e));
            },
        }
        proof {
            let next = gone.insert(key@);
            assert(held.remove_keys(gone).remove(key@) =~= held.remove_keys(next));
            assert forall|k: Seq<u8>| #[trigger] next.contains(k) <==> exists|j: int|
                0 <= j < i + 1 && k == packed_identity((#[trigger] ids.items()[j]).0@) by {
                if next.contains(k) {
                    if k == key@ {
                        assert(k == packed_identity(ids.items()[i as int].0@));
                    } else {
                        assert(gone.contains(k));
                    }
                }
                if exists|j: int|
                    0 <= j < i + 1 && k == packed_identity((#[trigger] ids.items()[j]).0@) {
                    let j = choose|j: int|
                        0 <= j < i + 1 && k == packed_identity((#[trigger] ids.items()[j]).0@);
                    if j < i {
                        assert(gone.contains(k));
                    }
                }
            }
            gone = next;
        }
        i = i + 1;
    }
    proof {
        assert(gone =~= keys_of(ids@.dom())) by {
            assert forall|k: Seq<u8>| gone.contains(k) <==> keys_of(ids@.dom()).contains(k) by {
                if gone.contains(k) {
                    let j = choose|j: int|
                        0 <= j < i && k == packed_identity((#[trigger] ids.items()[j]).0@);
                    lemma_item_in_map(ids.items(), j);
                    assert(ids@.dom().contains(ids.items()[j].0@));
                }
                if keys_of(ids@.dom()).contains(k) {
                    let id = choose|id: Identity|
                        ids@.dom().contains(id) && #[trigger] packed_identity(id) == k;
                    let j = index_of_key(ids.items(), id);
                    assert(ids.items()[j].0@ == id);
                }
            }
        }
    }
    Ok(())
}

/// Takes every row out of the table.
pub fn remove_all(table: &mut EnvelopeTable<'_>) -> (done: Result<(), CultCacheError>)
    ensures
        match done {
            Ok(_) => contents(*final(table)) == Map::<Seq<u8>, Seq<u8>>::empty(),
            Err(e) => table_failure(e@),
        },
{
    let ghost held = contents(*table);
    let pairs = match table_pairs(table) {
        Ok(pairs) => pairs,
        Err(e) => {
            return Err(storage_failure(e));
        },
    };
    let ghost listing = listing_view(pairs@);
    let mut i: usize = 0;
    while i < pairs.len()
        invariant
            i <= pairs.len(),
            listing == listing_view(pairs@),
            lists(held, listing),
            forall|k: Seq<u8>| #[trigger]
                contents(*table).contains_key(k) ==> held.contains_key(k) && forall|j: int|
                    0 <= j < i ==> (#[trigger] listing[j]).0 != k,
        decreases pairs.len() - i,
    {
        match table_remove(table, &pairs[i].0) {
            Ok(_) => {},
            Err(e) => {
                return Err(storage_failure(e));
            },
        }
        i = i + 1;
    }
    proof {
        assert forall|k: Seq<u8>| !(#[trigger] contents(*table).contains_key(k)) by {
            if contents(*table).contains_key(k) {
                assert(held.contains_key(k));
                let j = choose|j: int| 0 <= j < listing.len() && (#[trigger] listing[j]).0 == k;
                assert(listing[j].0 != k);
            }
        }
        assert(contents(*table) =~= Map::<Seq<u8>, Seq<u8>>::empty());
    }
    Ok(())
}

} // verus!

//! What can go wrong, and how it is put in words.

use crate::text::{append_debug, append_decimal, debug_text, decimal};
use vstd::prelude::*;
use vstd::string::*;

verus! {

/// Which set of rows of a conditional request is meant.
#[derive(Clone, Copy, Debug, PartialEq, Eq, Structural)]
pub enum BatchRows {
    Expected,
    Replacement,
    ExpectedSnapshot,
    SnapshotAdditions,
    DeleteExpected,
    SnapshotReplacements,
    Deletion,
    PushAll,
}

impl BatchRows {
    /// The set's name in messages.
    pub open spec fn text(self) -> Seq<char> {
        match self {
            BatchRows::Expected => "expected"@,
            BatchRows::Replacement => "replacement"@,
            BatchRows::ExpectedSnapshot => "expected snapshot"@,
            BatchRows::SnapshotAdditions => "snapshot additions"@,
            BatchRows::DeleteExpected => "delete expected"@,
            BatchRows::SnapshotReplacements => "snapshot replacements"@,
            BatchRows::Deletion => "deletion"@,
            BatchRows::PushAll => "push all"@,
        }
    }

    /// The set's name in messages.
    pub fn name(self) -> (name: &'static str)
        ensures
            name@ == self.text(),
    {
        match self {
            BatchRows::Expected => "expected",
            BatchRows::Replacement => "replacement",
            BatchRows::ExpectedSnapshot => "expected snapshot",
            BatchRows::SnapshotAdditions => "snapshot additions",
            BatchRows::DeleteExpected => "delete expected",
            BatchRows::SnapshotReplacements => "snapshot replacements",
            BatchRows::Deletion => "deletion",
            BatchRows::PushAll => "push all",
        }
    }
}

/// The failures of the library, over the texts `S` that they carry.
#[derive(Debug, PartialEq)]
pub enum Failure<S> {
    /// An entry type is declared with a blank name.
    EmptyType,
    /// A type is registered already, with another schema name.
    DefinitionConflict { entry_type: S },
    /// A store handed out a row whose type is not registered.
    PersistedTypeUnknown { entry_type: S },
    /// A table of columns holds a row whose type is not registered.
    SoaTypeUnknown { entry_type: S },
    /// A document's type is not registered with its schema name.
    TypeNotRegistered { entry_type: S },
    /// An envelope's type is not registered.
    EnvelopeTypeUnknown { entry_type: S },
    /// An envelope's type is not the type that was asked for.
    EnvelopeTypeMismatch { found: S, wanted: S },
    /// An envelope's key is blank.
    EnvelopeKeyBlank { entry_type: S },
    /// An envelope's time of storing is blank.
    EnvelopeStoredAtBlank { entry_type: S },
    /// An envelope's payload does not decode as the type that was asked for.
    EnvelopeInvalid { entry_type: S, key: S, schema: S, cause: S },
    /// A held payload does not decode as the type that was asked for.
    EntryUndecodable { entry_type: S, key: S, schema: S, cause: S },
    /// A document does not encode.
    EntryUnencodable { entry_type: S, key: S, schema: S, cause: S },
    /// A document does not encode with named fields.
    NamedEntryUnencodable { entry_type: S, key: S, schema: S, cause: S },
    /// A freshly encoded document does not decode again.
    EntryInvalid { entry_type: S, key: S, schema: S, cause: S },
    /// No document is held under the key.
    EntryMissing { entry_type: S, key: S },
    /// No envelope is held under the key.
    EnvelopeMissing { entry_type: S, key: S },
    /// No store is on the type's route.
    NoStore { entry_type: S },
    /// A batch without entries.
    BatchEmpty,
    /// A batch touches an entry whose type is not registered.
    BatchTypeUnknown { entry_type: S },
    /// A batch touches a type that does not have exactly one store on its route.
    BatchRoute { entry_type: S, stores: usize },
    /// A batch touches types that live in different stores.
    BatchSpansStores,
    /// A store refused a request, for a reason of its own.
    Store { message: S },
    /// A conditional batch without replacements.
    ReplacementsEmpty,
    /// A set of rows names one identity twice.
    DuplicateIdentities { rows: BatchRows },
    /// A conditional batch leaves an expected identity without replacement.
    ExpectedNotReplaced,
    /// A conditional append without additions.
    AdditionsEmpty,
    /// A conditional delete without expected rows.
    ExpectedEmpty,
    /// A conditional snapshot replacement without replacements.
    SnapshotReplacementsEmpty,
    /// A compaction without replacements or without deletions.
    CompactionEmpty,
    /// A compaction deletes an identity that the expected snapshot does not hold.
    DeletionUnexpected,
    /// A compaction replaces and deletes one identity.
    ReplacedAndDeleted,
    /// A replacement has another identity than the row it replaces.
    IdentityChanged,
    /// A store's file is not the file that was expected.
    FileIdentityMismatch { expected: S, owned: S },
    /// A path came to name another file while the store was opened.
    FileIdentityChanged { held: S, path: S },
    /// An identity does not encode.
    IdentityUnencodable,
    /// An envelope does not encode as a row.
    RowUnencodable,
    /// A row does not decode as an envelope.
    RowUndecodable { cause: S },
    /// The table of envelopes could not be opened, read or written.
    TableFailed { cause: S },
    /// One schema would have to stand for two types.
    SchemaConflict { schema: S, existing: S, found: S },
    /// A snapshot does not encode.
    SnapshotUnencodable,
    /// Bytes that are no snapshot.
    SnapshotUndecodable,
    /// A snapshot of another format.
    SnapshotFormat { format: S },
    /// A record refers to a schema that its snapshot does not list.
    SchemaMissing { key: S, schema: S },
    /// A file's contents are neither a snapshot nor a plain run of envelopes.
    ContentsUndecodable { cause: S },
    /// A column's length is not the table's.
    ColumnLength { column: S, length: usize, table_length: usize },
    /// A row of a table of columns has a blank key.
    RowKeyBlank { row: usize },
    /// A row of a table of columns has a blank type.
    RowTypeBlank { row: usize },
    /// A row of a table of columns has a blank time of storing.
    RowStoredAtBlank { row: usize },
    /// A table has no column of that name.
    ColumnMissing { name: S },
    /// A column holds values of another type.
    ColumnType { name: S, stored: S, wanted: S },
    /// A document declaration has an attribute of an unknown name.
    AttributeUnsupported,
    /// A document declaration does not name its type.
    TypeAttributeMissing,
}

/// The error of every fallible operation of the library.
pub type CultCacheError = Failure<String>;

/// A failure over the characters of its texts.
pub type FailureView = Failure<Seq<char>>;

impl View for Failure<String> {
    type V = FailureView;

    open spec fn view(&self) -> FailureView {
        match *self {
            Failure::EmptyType => Failure::EmptyType,
            Failure::DefinitionConflict { entry_type } => Failure::DefinitionConflict {
                entry_type: entry_type@,
            },
            Failure::PersistedTypeUnknown { entry_type } => Failure::PersistedTypeUnknown {
                entry_type: entry_type@,
            },
            Failure::SoaTypeUnknown { entry_type } => Failure::SoaTypeUnknown {
                entry_type: entry_type@,
            },
            Failure::TypeNotRegistered { entry_type } => Failure::TypeNotRegistered {
                entry_type: entry_type@,
            },
            Failure::EnvelopeTypeUnknown { entry_type } => Failure::EnvelopeTypeUnknown {
                entry_type: entry_type@,
            },
            Failure::EnvelopeTypeMismatch { found, wanted } => Failure::EnvelopeTypeMismatch {
                found: found@,
                wanted: wanted@,
            },
            Failure::EnvelopeKeyBlank { entry_type } => Failure::EnvelopeKeyBlank {
                entry_type: entry_type@,
            },
            Failure::EnvelopeStoredAtBlank { entry_type } => Failure::EnvelopeStoredAtBlank {
                entry_type: entry_type@,
            },
            Failure::EnvelopeInvalid { entry_type, key, schema, cause } => Failure::EnvelopeInvalid {
                entry_type: entry_type@,
                key: key@,
                schema: schema@,
                cause: cause@,
            },
            Failure::EntryUndecodable { entry_type, key, schema, cause } => Failure::EntryUndecodable {
                entry_type: entry_type@,
                key: key@,
                schema: schema@,
                cause: cause@,
            },
            Failure::EntryUnencodable { entry_type, key, schema, cause } => Failure::EntryUnencodable {
                entry_type: entry_type@,
                key: key@,
                schema: schema@,
                cause: cause@,
            },
            Failure::NamedEntryUnencodable { entry_type, key, schema, cause } => Failure::NamedEntryUnencodable {
                entry_type: entry_type@,
                key: key@,
                schema: schema@,
                cause: cause@,
            },
            Failure::EntryInvalid { entry_type, key, schema, cause } => Failure::EntryInvalid {
                entry_type: entry_type@,
                key: key@,
                schema: schema@,
                cause: cause@,
            },
            Failure::EntryMissing { entry_type, key } => Failure::EntryMissing {
                entry_type: entry_type@,
                key: key@,
            },
            Failure::EnvelopeMissing { entry_type, key } => Failure::EnvelopeMissing {
                entry_type: entry_type@,
                key: key@,
            },
            Failure::NoStore { entry_type } => Failure::NoStore { entry_type: entry_type@ },
            Failure::BatchEmpty => Failure::BatchEmpty,
            Failure::BatchTypeUnknown { entry_type } => Failure::BatchTypeUnknown {
                entry_type: entry_type@,
            },
            Failure::BatchRoute { entry_type, stores } => Failure::BatchRoute {
                entry_type: entry_type@,
                stores,
            },
            Failure::BatchSpansStores => Failure::BatchSpansStores,
            Failure::Store { message } => Failure::Store { message: message@ },
            Failure::ReplacementsEmpty => Failure::ReplacementsEmpty,
            Failure::DuplicateIdentities { rows } => Failure::DuplicateIdentities { rows },
            Failure::ExpectedNotReplaced => Failure::ExpectedNotReplaced,
            Failure::AdditionsEmpty => Failure::AdditionsEmpty,
            Failure::ExpectedEmpty => Failure::ExpectedEmpty,
            Failure::SnapshotReplacementsEmpty => Failure::SnapshotReplacementsEmpty,
            Failure::CompactionEmpty => Failure::CompactionEmpty,
            Failure::DeletionUnexpected => Failure::DeletionUnexpected,
            Failure::ReplacedAndDeleted => Failure::ReplacedAndDeleted,
            Failure::IdentityChanged => Failure::IdentityChanged,
            Failure::FileIdentityMismatch { expected, owned } => Failure::FileIdentityMismatch {
                expected: expected@,
                owned: owned@,
            },
            Failure::FileIdentityChanged { held, path } => Failure::FileIdentityChanged {
                held: held@,
                path: path@,
            },
            Failure::IdentityUnencodable => Failure::IdentityUnencodable,
            Failure::RowUnencodable => Failure::RowUnencodable,
            Failure::RowUndecodable { cause } => Failure::RowUndecodable { cause: cause@ },
            Failure::TableFailed { cause } => Failure::TableFailed { cause: cause@ },
            Failure::SchemaConflict { schema, existing, found } => Failure::SchemaConflict {
                schema: schema@,
                existing: existing@,
                found: found@,
            },
            Failure::SnapshotUnencodable => Failure::SnapshotUnencodable,
            Failure::SnapshotUndecodable => Failure::SnapshotUndecodable,
            Failure::SnapshotFormat { format } => Failure::SnapshotFormat { format: format@ },
            Failure::SchemaMissing { key, schema } => Failure::SchemaMissing {
                key: key@,
                schema: schema@,
            },
            Failure::ContentsUndecodable { cause } => Failure::ContentsUndecodable {
                cause: cause@,
            },
            Failure::ColumnLength { column, length, table_length } => Failure::ColumnLength {
                column: column@,
                length,
                table_length,
            },
            Failure::RowKeyBlank { row } => Failure::RowKeyBlank { row },
            Failure::RowTypeBlank { row } => Failure::RowTypeBlank { row },
            Failure::RowStoredAtBlank { row } => Failure::RowStoredAtBlank { row },
            Failure::ColumnMissing { name } => Failure::ColumnMissing { name: name@ },
            Failure::ColumnType { name, stored, wanted } => Failure::ColumnType {
                name: name@,
                stored: stored@,
                wanted: wanted@,
            },
            Failure::AttributeUnsupported => Failure::AttributeUnsupported,
            Failure::TypeAttributeMissing => Failure::TypeAttributeMissing,
        }
    }
}

/// What an outcome says, failures taken over their characters.
pub open spec fn outcome<T>(r: Result<T, CultCacheError>) -> Result<T, FailureView> {
    match r {
        Ok(t) => Ok(t),
        Err(e) => Err(e@),
    }
}

impl Failure<Seq<char>> {
    /// The failure in words.
    pub open spec fn text(self) -> Seq<char> {
        match self {
            Failure::EmptyType => "CultCache entry types must declare a non-empty type"@,
            Failure::DefinitionConflict { entry_type } => {
                "CultCache already has a different definition registered for type "@
                    + debug_text(entry_type)
            },
            Failure::PersistedTypeUnknown { entry_type } => {
                "No schema is registered for persisted entry type "@ + debug_text(entry_type)
            },
            Failure::SoaTypeUnknown { entry_type } => {
                "No schema is registered for SoA entry type "@ + debug_text(entry_type)
            },
            Failure::TypeNotRegistered { entry_type } => {
                "CultCache entry type "@ + debug_text(entry_type)
                    + " is not registered on this cache instance"@
            },
            Failure::EnvelopeTypeUnknown { entry_type } => {
                "No entry type registered for CultCache envelope type "@ + debug_text(entry_type)
            },
            Failure::EnvelopeTypeMismatch { found, wanted } => {
                "CultCache envelope type "@ + debug_text(found)
                    + " does not match registered Rust type "@ + debug_text(wanted)
            },
            Failure::EnvelopeKeyBlank { entry_type } => {
                "CultCache envelope keys for type "@ + debug_text(entry_type)
                    + " must be non-empty"@
            },
            Failure::EnvelopeStoredAtBlank { entry_type } => {
                "CultCache envelope stored_at for type "@ + debug_text(entry_type)
                    + " must be non-empty"@
            },
            Failure::EnvelopeInvalid { entry_type, key, schema, .. } => {
                "failed to validate CultCache envelope "@ + debug_text(entry_type) + " at key "@
                    + debug_text(key) + " as "@ + schema
            },
            Failure::EntryUndecodable { entry_type, key, schema, .. } => {
                "failed to decode CultCache entry "@ + debug_text(entry_type) + " at key "@
                    + debug_text(key) + " as "@ + schema
            },
            Failure::EntryUnencodable { entry_type, key, schema, .. } => {
                "failed to encode CultCache entry "@ + debug_text(entry_type) + " at key "@
                    + debug_text(key) + " as "@ + schema
            },
            Failure::NamedEntryUnencodable { entry_type, key, schema, .. } => {
                "failed to encode named CultCache entry "@ + debug_text(entry_type) + " at key "@
                    + debug_text(key) + " as "@ + schema
            },
            Failure::EntryInvalid { entry_type, key, schema, .. } => {
                "failed to validate CultCache entry "@ + debug_text(entry_type) + " at key "@
                    + debug_text(key) + " as "@ + schema
            },
            Failure::EntryMissing { entry_type, key } => {
                "CultCache has no "@ + debug_text(entry_type) + " entry at key "@ + debug_text(key)
            },
            Failure::EnvelopeMissing { entry_type, key } => {
                "CultCache has no "@ + debug_text(entry_type) + " envelope at key "@
                    + debug_text(key)
            },
            Failure::NoStore { entry_type } => {
                "No backing store is registered for entry type "@ + debug_text(entry_type)
            },
            Failure::BatchEmpty => "CultCache batch must contain at least one entry"@,
            Failure::BatchTypeUnknown { entry_type } => {
                "CultCache batch entry type "@ + debug_text(entry_type) + " is not registered"@
            },
            Failure::BatchRoute { entry_type, stores } => {
                "CultCache atomic batch requires exactly one backing-store route for type "@
                    + debug_text(entry_type) + ", found "@ + decimal(stores as nat)
            },
            Failure::BatchSpansStores => "CultCache atomic batch cannot span backing stores"@,
            Failure::Store { message } => message,
            Failure::ReplacementsEmpty => "conditional batch requires a non-empty replacement set"@,
            Failure::DuplicateIdentities { rows } => {
                "conditional batch "@ + rows.text() + " set contains duplicate identities"@
            },
            Failure::ExpectedNotReplaced => {
                "conditional batch must replace every expected identity"@
            },
            Failure::AdditionsEmpty => "conditional snapshot append requires additions"@,
            Failure::ExpectedEmpty => "conditional delete requires a non-empty expected set"@,
            Failure::SnapshotReplacementsEmpty => {
                "conditional snapshot replacement requires replacements"@
            },
            Failure::CompactionEmpty => {
                "conditional compaction requires replacements and deletions"@
            },
            Failure::DeletionUnexpected => "compaction deletion is absent from expected snapshot"@,
            Failure::ReplacedAndDeleted => "compaction cannot replace and delete one identity"@,
            Failure::IdentityChanged => "entry CAS replacement must preserve identity"@,
            Failure::FileIdentityMismatch { expected, owned } => {
                "redb CultCache file identity mismatch: expected "@ + expected + ", owned "@ + owned
            },
            Failure::FileIdentityChanged { held, path } => {
                "redb CultCache path identity changed while opening: held "@ + held + ", path "@
                    + path
            },
            Failure::IdentityUnencodable => "failed to encode CultCache identity"@,
            Failure::RowUnencodable => "failed to encode redb CultCache envelope"@,
            Failure::RowUndecodable { .. } => "failed to decode redb CultCache envelope"@,
            Failure::TableFailed { cause } => cause,
            Failure::SchemaConflict { schema, existing, found } => {
                "CultCache schema "@ + debug_text(schema) + " cannot identify both "@
                    + debug_text(existing) + " and "@ + debug_text(found)
            },
            Failure::SnapshotUnencodable => "failed to encode MessagePack"@,
            Failure::SnapshotUndecodable => "failed to decode CultCache v1 snapshot"@,
            Failure::SnapshotFormat { format } => "unsupported CultCache snapshot "@ + format,
            Failure::SchemaMissing { key, schema } => {
                "CultCache record "@ + debug_text(key) + " references missing schema "@
                    + debug_text(schema)
            },
            Failure::ContentsUndecodable { .. } => "failed to decode MessagePack contents"@,
            Failure::ColumnLength { column, length, table_length } => {
                "CultCache SoA column "@ + column + " has length "@ + decimal(length as nat)
                    + ", expected "@ + decimal(table_length as nat)
            },
            Failure::RowKeyBlank { row } => {
                "CultCache SoA row "@ + decimal(row as nat) + " has an empty key"@
            },
            Failure::RowTypeBlank { row } => {
                "CultCache SoA row "@ + decimal(row as nat) + " has an empty type"@
            },
            Failure::RowStoredAtBlank { row } => {
                "CultCache SoA row "@ + decimal(row as nat) + " has an empty stored_at"@
            },
            Failure::ColumnMissing { name } => "SoA table has no column "@ + debug_text(name),
            Failure::ColumnType { name, stored, wanted } => {
                "SoA table column "@ + debug_text(name) + " stores "@ + stored + ", not "@ + wanted
            },
            Failure::AttributeUnsupported => "unsupported cultcache attribute"@,
            Failure::TypeAttributeMissing => {
                "DatabaseEntry derive requires #[cultcache(type = \"...\")]"@
            },
        }
    }
}

impl Failure<String> {
    /// The failure in words.
    pub fn message(&self) -> (text: String)
        ensures
            text@ == self@.text(),
    {
        let mut text = String::new();
        match self {
            Failure::EmptyType => {
                text.append("CultCache entry types must declare a non-empty type");
            },
            Failure::DefinitionConflict { entry_type } => {
                text.append("CultCache already has a different definition registered for type ");
                append_debug(&mut text, entry_type.as_str());
            },
            Failure::PersistedTypeUnknown { entry_type } => {
                text.append("No schema is registered for persisted entry type ");
                append_debug(&mut text, entry_type.as_str());
            },
            Failure::SoaTypeUnknown { entry_type } => {
                text.append("No schema is registered for SoA entry type ");
                append_debug(&mut text, entry_type.as_str());
            },
            Failure::TypeNotRegistered { entry_type } => {
                text.append("CultCache entry type ");
                append_debug(&mut text, entry_type.as_str());
                text.append(" is not registered on this cache instance");
            },
            Failure::EnvelopeTypeUnknown { entry_type } => {
                text.append("No entry type registered for CultCache envelope type ");
                append_debug(&mut text, entry_type.as_str());
            },
            Failure::EnvelopeTypeMismatch { found, wanted } => {
                text.append("CultCache envelope type ");
                append_debug(&mut text, found.as_str());
                text.append(" does not match registered Rust type ");
                append_debug(&mut text, wanted.as_str());
            },
            Failure::EnvelopeKeyBlank { entry_type } => {
                text.append("CultCache envelope keys for type ");
                append_debug(&mut text, entry_type.as_str());
                text.append(" must be non-empty");
            },
            Failure::EnvelopeStoredAtBlank { entry_type } => {
                text.append("CultCache envelope stored_at for type ");
                append_debug(&mut text, entry_type.as_str());
                text.append(" must be non-empty");
            },
            Failure::EnvelopeInvalid { entry_type, key, schema, .. } => {
                text.append("failed to validate CultCache envelope ");
                append_debug(&mut text, entry_type.as_str());
                text.append(" at key ");
                append_debug(&mut text, key.as_str());
                text.append(" as ");
                text.append(schema.as_str());
            },
            Failure::EntryUndecodable { entry_type, key, schema, .. } => {
                text.append("failed to decode CultCache entry ");
                append_debug(&mut text, entry_type.as_str());
                text.append(" at key ");
                append_debug(&mut text, key.as_str());
                text.append(" as ");
                text.append(schema.as_str());
            },
            Failure::EntryUnencodable { entry_type, key, schema, .. } => {
                text.append("failed to encode CultCache entry ");
                append_debug(&mut text, entry_type.as_str());
                text.append(" at key ");
                append_debug(&mut text, key.as_str());
                text.append(" as ");
                text.append(schema.as_str());
            },
            Failure::NamedEntryUnencodable { entry_type, key, schema, .. } => {
                text.append("failed to encode named CultCache entry ");
                append_debug(&mut text, entry_type.as_str());
                text.append(" at key ");
                append_debug(&mut text, key.as_str());
                text.append(" as ");
                text.append(schema.as_str());
            },
            Failure::EntryInvalid { entry_type, key, schema, .. } => {
                text.append("failed to validate CultCache entry ");
                append_debug(&mut text, entry_type.as_str());
                text.append(" at key ");
                append_debug(&mut text, key.as_str());
                text.append(" as ");
                text.append(schema.as_str());
            },
            Failure::EntryMissing { entry_type, key } => {
                text.append("CultCache has no ");
                append_debug(&mut text, entry_type.as_str());
                text.append(" entry at key ");
                append_debug(&mut text, key.as_str());
            },
            Failure::EnvelopeMissing { entry_type, key } => {
                text.append("CultCache has no ");
                append_debug(&mut text, entry_type.as_str());
                text.append(" envelope at key ");
                append_debug(&mut text, key.as_str());
            },
            Failure::NoStore { entry_type } => {
                text.append("No backing store is registered for entry type ");
                append_debug(&mut text, entry_type.as_str());
            },
            Failure::BatchEmpty => {
                text.append("CultCache batch must contain at least one entry");
            },
            Failure::BatchTypeUnknown { entry_type } => {
                text.append("CultCache batch entry type ");
                append_debug(&mut text, entry_type.as_str());
                text.append(" is not registered");
            },
            Failure::BatchRoute { entry_type, stores } => {
                text.append("CultCache atomic batch requires exactly one backing-store route for type ");
                append_debug(&mut text, entry_type.as_str());
                text.append(", found ");
                append_decimal(&mut text, *stores);
            },
            Failure::BatchSpansStores => {
                text.append("CultCache atomic batch cannot span backing stores");
            },
            Failure::Store { message } => {
                text.append(message.as_str());
            },
            Failure::ReplacementsEmpty => {
                text.append("conditional batch requires a non-empty replacement set");
            },
            Failure::DuplicateIdentities { rows } => {
                text.append("conditional batch ");
                text.append(rows.name());
                text.append(" set contains duplicate identities");
            },
            Failure::ExpectedNotReplaced => {
                text.append("conditional batch must replace every expected identity");
            },
            Failure::AdditionsEmpty => {
                text.append("conditional snapshot append requires additions");
            },
            Failure::ExpectedEmpty => {
                text.append("conditional delete requires a non-empty expected set");
            },
            Failure::SnapshotReplacementsEmpty => {
                text.append("conditional snapshot replacement requires replacements");
            },
            Failure::CompactionEmpty => {
                text.append("conditional compaction requires replacements and deletions");
            },
            Failure::DeletionUnexpected => {
                text.append("compaction deletion is absent from expected snapshot");
            },
            Failure::ReplacedAndDeleted => {
                text.append("compaction cannot replace and delete one identity");
            },
            Failure::IdentityChanged => {
                text.append("entry CAS replacement must preserve identity");
            },
            Failure::FileIdentityMismatch { expected, owned } => {
                text.append("redb CultCache file identity mismatch: expected ");
                text.append(expected.as_str());
                text.append(", owned ");
                text.append(owned.as_str());
            },
            Failure::FileIdentityChanged { held, path } => {
                text.append("redb CultCache path identity changed while opening: held ");
                text.append(held.as_str());
                text.append(", path ");
                text.append(path.as_str());
            },
            Failure::IdentityUnencodable => {
                text.append("failed to encode CultCache identity");
            },
            Failure::RowUnencodable => {
                text.append("failed to encode redb CultCache envelope");
            },
            Failure::RowUndecodable { .. } => {
                text.append("failed to decode redb CultCache envelope");
            },
            Failure::TableFailed { cause } => {
                text.append(cause.as_str());
            },
            Failure::SchemaConflict { schema, existing, found } => {
                text.append("CultCache schema ");
                append_debug(&mut text, schema.as_str());
                text.append(" cannot identify both ");
                append_debug(&mut text, existing.as_str());
                text.append(" and ");
                append_debug(&mut text, found.as_str());
            },
            Failure::SnapshotUnencodable => {
                text.append("failed to encode MessagePack");
            },
            Failure::SnapshotUndecodable => {
                text.append("failed to decode CultCache v1 snapshot");
            },
            Failure::SnapshotFormat { format } => {
                text.append("unsupported CultCache snapshot ");
                text.append(format.as_str());
            },
            Failure::SchemaMissing { key, schema } => {
                text.append("CultCache record ");
                append_debug(&mut text, key.as_str());
                text.append(" references missing schema ");
                append_debug(&mut text, schema.as_str());
            },
            Failure::ContentsUndecodable { .. } => {
                text.append("failed to decode MessagePack contents");
            },
            Failure::ColumnLength { column, length, table_length } => {
                text.append("CultCache SoA column ");
                text.append(column.as_str());
                text.append(" has length ");
                append_decimal(&mut text, *length);
                text.append(", expected ");
                append_decimal(&mut text, *table_length);
            },
            Failure::RowKeyBlank { row } => {
                text.append("CultCache SoA row ");
                append_decimal(&mut text, *row);
                text.append(" has an empty key");
            },
            Failure::RowTypeBlank { row } => {
                text.append("CultCache SoA row ");
                append_decimal(&mut text, *row);
                text.append(" has an empty type");
            },
            Failure::RowStoredAtBlank { row } => {
                text.append("CultCache SoA row ");
                append_decimal(&mut text, *row);
                text.append(" has an empty stored_at");
            },
            Failure::ColumnMissing { name } => {
                text.append("SoA table has no column ");
                append_debug(&mut text, name.as_str());
            },
            Failure::ColumnType { name, stored, wanted } => {
                text.append("SoA table column ");
                append_debug(&mut text, name.as_str());
                text.append(" stores ");
                text.append(stored.as_str());
                text.append(", not ");
                text.append(wanted.as_str());
            },
            Failure::AttributeUnsupported => {
                text.append("unsupported cultcache attribute");
            },
            Failure::TypeAttributeMissing => {
                text.append("DatabaseEntry derive requires #[cultcache(type = \"...\")]");
            },
        }
        assert(text@ =~= self@.text());
        text
    }
}

} // verus!

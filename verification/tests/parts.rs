//! The parts that stores and caches are made of.

use cultcache_rs::cache::{stamp_entry, CultCache};
use cultcache_rs::conditional::{
    check_append, check_compaction, check_delete, check_replace, check_swap_batch,
};
use cultcache_rs::declaration::{
    entry_attribute, field_attribute, slot_order, EntryAttribute, EntryDeclaration, FieldAttribute,
};
use cultcache_rs::document::DatabaseEntry;
use cultcache_rs::envelope::{entry_id, same_envelope, same_identity, CultCacheEnvelope};
use cultcache_rs::error::{BatchRows, CultCacheError, Failure};
use cultcache_rs::file_identity::{unix_file_identity, windows_file_identity};
use cultcache_rs::keyed::check_swap_entry;
use cultcache_rs::order::{place_text, Placement};
use cultcache_rs::ordered_map::OrderedMap;
use cultcache_rs::rows::{find_row, is_current, matches_snapshot, sort_rows};
use cultcache_rs::soa::{CultCacheSoaTable, CultSoaColumnValues, SoaCarrier};
use cultcache_rs::soa_values::SoaValues;
use cultcache_rs::staging::{
    is_abandoned_staging_name, lock_file_name, staging_file_name, suffix_of,
};
use cultcache_rs::table::row_of_fields;
use cultcache_rs::text::{
    append_debug, append_decimal, escape_json_string, is_blank, same_text,
};

fn row(entry_type: &str, key: &str, payload: &[u8]) -> CultCacheEnvelope {
    CultCacheEnvelope {
        key: key.to_string(),
        entry_type: entry_type.to_string(),
        payload: payload.to_vec(),
        stored_at: "2026-07-13T00:00:00Z".to_string(),
        schema_id: Some(entry_type.to_string()),
    }
}

fn says(failure: CultCacheError, message: &str) {
    assert_eq!(failure.message(), message);
}

fn s(text: &str) -> String {
    text.to_string()
}

#[test]
fn registration_failures_are_put_in_words() {
    says(
        Failure::EmptyType,
        "CultCache entry types must declare a non-empty type",
    );
    says(
        Failure::DefinitionConflict { entry_type: s("note") },
        "CultCache already has a different definition registered for type \"note\"",
    );
    says(
        Failure::PersistedTypeUnknown { entry_type: s("note") },
        "No schema is registered for persisted entry type \"note\"",
    );
    says(
        Failure::SoaTypeUnknown { entry_type: s("note") },
        "No schema is registered for SoA entry type \"note\"",
    );
    says(
        Failure::TypeNotRegistered { entry_type: s("note") },
        "CultCache entry type \"note\" is not registered on this cache instance",
    );
    says(
        Failure::EnvelopeTypeUnknown { entry_type: s("note") },
        "No entry type registered for CultCache envelope type \"note\"",
    );
    says(
        Failure::NoStore { entry_type: s("note") },
        "No backing store is registered for entry type \"note\"",
    );
}

#[test]
fn envelope_failures_are_put_in_words() {
    says(
        Failure::EnvelopeTypeMismatch { found: s("a"), wanted: s("b") },
        "CultCache envelope type \"a\" does not match registered Rust type \"b\"",
    );
    says(
        Failure::EnvelopeKeyBlank { entry_type: s("a") },
        "CultCache envelope keys for type \"a\" must be non-empty",
    );
    says(
        Failure::EnvelopeStoredAtBlank { entry_type: s("a") },
        "CultCache envelope stored_at for type \"a\" must be non-empty",
    );
    says(
        Failure::EnvelopeInvalid { entry_type: s("a"), key: s("k"), schema: s("A"), cause: s("c") },
        "failed to validate CultCache envelope \"a\" at key \"k\" as A",
    );
    says(
        Failure::EntryUndecodable { entry_type: s("a"), key: s("k"), schema: s("A"), cause: s("c") },
        "failed to decode CultCache entry \"a\" at key \"k\" as A",
    );
    says(
        Failure::EntryUnencodable { entry_type: s("a"), key: s("k"), schema: s("A"), cause: s("c") },
        "failed to encode CultCache entry \"a\" at key \"k\" as A",
    );
    says(
        Failure::NamedEntryUnencodable {
            entry_type: s("a"),
            key: s("k"),
            schema: s("A"),
            cause: s("c"),
        },
        "failed to encode named CultCache entry \"a\" at key \"k\" as A",
    );
    says(
        Failure::EntryInvalid { entry_type: s("a"), key: s("k"), schema: s("A"), cause: s("c") },
        "failed to validate CultCache entry \"a\" at key \"k\" as A",
    );
    says(
        Failure::EntryMissing { entry_type: s("a"), key: s("k\n") },
        "CultCache has no \"a\" entry at key \"k\\n\"",
    );
    says(
        Failure::EnvelopeMissing { entry_type: s("a"), key: s("k") },
        "CultCache has no \"a\" envelope at key \"k\"",
    );
}

#[test]
fn batch_failures_are_put_in_words() {
    says(
        Failure::BatchEmpty,
        "CultCache batch must contain at least one entry",
    );
    says(
        Failure::BatchTypeUnknown { entry_type: s("a") },
        "CultCache batch entry type \"a\" is not registered",
    );
    says(
        Failure::BatchRoute { entry_type: s("a"), stores: 10 },
        "CultCache atomic batch requires exactly one backing-store route for type \"a\", found 10",
    );
    says(
        Failure::BatchSpansStores,
        "CultCache atomic batch cannot span backing stores",
    );
    says(Failure::Store { message: s("disk full") }, "disk full");
    says(
        Failure::ReplacementsEmpty,
        "conditional batch requires a non-empty replacement set",
    );
    says(
        Failure::ExpectedNotReplaced,
        "conditional batch must replace every expected identity",
    );
    says(
        Failure::AdditionsEmpty,
        "conditional snapshot append requires additions",
    );
    says(
        Failure::ExpectedEmpty,
        "conditional delete requires a non-empty expected set",
    );
    says(
        Failure::SnapshotReplacementsEmpty,
        "conditional snapshot replacement requires replacements",
    );
    says(
        Failure::CompactionEmpty,
        "conditional compaction requires replacements and deletions",
    );
    says(
        Failure::DeletionUnexpected,
        "compaction deletion is absent from expected snapshot",
    );
    says(
        Failure::ReplacedAndDeleted,
        "compaction cannot replace and delete one identity",
    );
    says(
        Failure::IdentityChanged,
        "entry CAS replacement must preserve identity",
    );
    for (rows, name) in [
        (BatchRows::Expected, "expected"),
        (BatchRows::Replacement, "replacement"),
        (BatchRows::ExpectedSnapshot, "expected snapshot"),
        (BatchRows::SnapshotAdditions, "snapshot additions"),
        (BatchRows::DeleteExpected, "delete expected"),
        (BatchRows::SnapshotReplacements, "snapshot replacements"),
        (BatchRows::Deletion, "deletion"),
        (BatchRows::PushAll, "push all"),
    ] {
        says(
            Failure::DuplicateIdentities { rows },
            &format!("conditional batch {name} set contains duplicate identities"),
        );
    }
}

#[test]
fn storage_failures_are_put_in_words() {
    says(
        Failure::FileIdentityMismatch { expected: s("a"), owned: s("b") },
        "redb CultCache file identity mismatch: expected a, owned b",
    );
    says(
        Failure::FileIdentityChanged { held: s("a"), path: s("b") },
        "redb CultCache path identity changed while opening: held a, path b",
    );
    says(
        Failure::IdentityUnencodable,
        "failed to encode CultCache identity",
    );
    says(
        Failure::RowUnencodable,
        "failed to encode redb CultCache envelope",
    );
    says(
        Failure::RowUndecodable { cause: s("c") },
        "failed to decode redb CultCache envelope",
    );
    says(Failure::TableFailed { cause: s("no table") }, "no table");
    says(
        Failure::SchemaConflict { schema: s("s"), existing: s("a"), found: s("b") },
        "CultCache schema \"s\" cannot identify both \"a\" and \"b\"",
    );
    says(Failure::SnapshotUnencodable, "failed to encode MessagePack");
    says(
        Failure::SnapshotUndecodable,
        "failed to decode CultCache v1 snapshot",
    );
    says(
        Failure::SnapshotFormat { format: s("v0") },
        "unsupported CultCache snapshot v0",
    );
    says(
        Failure::SchemaMissing { key: s("k"), schema: s("s") },
        "CultCache record \"k\" references missing schema \"s\"",
    );
    says(
        Failure::ContentsUndecodable { cause: s("c") },
        "failed to decode MessagePack contents",
    );
}

#[test]
fn column_and_declaration_failures_are_put_in_words() {
    says(
        Failure::ColumnLength { column: s("types"), length: 0, table_length: 1 },
        "CultCache SoA column types has length 0, expected 1",
    );
    says(Failure::RowKeyBlank { row: 0 }, "CultCache SoA row 0 has an empty key");
    says(Failure::RowTypeBlank { row: 12 }, "CultCache SoA row 12 has an empty type");
    says(
        Failure::RowStoredAtBlank { row: 345 },
        "CultCache SoA row 345 has an empty stored_at",
    );
    says(
        Failure::ColumnMissing { name: s("theme") },
        "SoA table has no column \"theme\"",
    );
    says(
        Failure::ColumnType { name: s("theme"), stored: s("a"), wanted: s("b") },
        "SoA table column \"theme\" stores a, not b",
    );
    says(
        Failure::AttributeUnsupported,
        "unsupported cultcache attribute",
    );
    says(
        Failure::TypeAttributeMissing,
        "DatabaseEntry derive requires #[cultcache(type = \"...\")]",
    );
}

#[test]
fn texts_are_blank_where_nothing_but_white_space_is_left() {
    assert!(is_blank(""));
    assert!(is_blank(" \t\n\u{2003}"));
    assert!(!is_blank(" a "));
    assert!(!is_blank("\u{200b}"));
}

#[test]
fn texts_are_compared_and_placed_by_their_characters() {
    assert!(same_text("note", "note"));
    assert!(!same_text("note", "Note"));
    assert!(matches!(place_text("a", "ab"), Placement::Before));
    assert!(matches!(place_text("b", "ab"), Placement::After));
    assert!(matches!(place_text("ab", "ab"), Placement::Same));
    assert!(matches!(place_text("Z", "\u{e9}"), Placement::Before));
    assert!(matches!(place_text("\u{ffff}", "\u{10000}"), Placement::Before));
}

#[test]
fn texts_are_quoted_counted_and_escaped() {
    let mut text = String::from("at ");
    append_debug(&mut text, "a\"b\u{1}");
    append_decimal(&mut text, 0);
    append_decimal(&mut text, 1203);
    append_decimal(&mut text, usize::MAX);
    assert_eq!(text, format!("at \"a\\\"b\\u{{1}}\"01203{}", usize::MAX));

    assert_eq!(escape_json_string(r#"a\b"c"#), r#"a\\b\"c"#);
    assert_eq!(escape_json_string("line\nbreak"), "line\nbreak");
}

#[test]
fn file_identities_are_fixed_width_hexadecimal() {
    assert_eq!(
        unix_file_identity(0x801, 0xdead_beef),
        "unix:0000000000000801:00000000deadbeef"
    );
    assert_eq!(
        unix_file_identity(u64::MAX, 0),
        "unix:ffffffffffffffff:0000000000000000"
    );
    assert_eq!(
        windows_file_identity(0x1234_5678, 0x9abc_def0, 0x0fed_cba9),
        "windows:12345678:9abcdef00fedcba9"
    );
    assert_ne!(unix_file_identity(1, 2), unix_file_identity(2, 1));
    assert_ne!(windows_file_identity(1, 2, 3), windows_file_identity(1, 3, 2));
}

#[test]
fn maps_keep_their_keys_in_order() {
    let mut map: OrderedMap<String, u32> = OrderedMap::new();
    assert_eq!(map.insert(s("b"), 2), None);
    assert_eq!(map.insert(s("a"), 1), None);
    assert_eq!(map.insert(s("c"), 3), None);
    assert_eq!(map.insert(s("b"), 4), Some(2));
    assert_eq!(map.len(), 3);
    assert_eq!(map.item(0), &(s("a"), 1));
    assert_eq!(map.item(1), &(s("b"), 4));
    assert_eq!(map.get(&s("c")), Some(&3));
    assert_eq!(map.get(&s("d")), None);
    assert!(map.contains(&s("a")));

    let mut other: OrderedMap<String, bool> = OrderedMap::new();
    assert!(map.keys_apart(&other));
    other.insert(s("c"), true);
    assert!(other.keys_within(&map));
    assert!(!map.keys_within(&other));
    assert!(!map.keys_apart(&other));

    assert_eq!(map.remove(&s("a")), Some(1));
    assert_eq!(map.remove(&s("a")), None);
    assert_eq!(map.item(0), &(s("b"), 4));
    map.clear();
    assert_eq!(map.len(), 0);
}

#[test]
fn staging_files_are_known_by_their_names() {
    assert_eq!(lock_file_name(Some("cache.cc")), "cache.cc.lock");
    assert_eq!(lock_file_name(None), "cultcache.cc.lock");

    assert_eq!(suffix_of("id"), ".id.tmp");
    assert_eq!(suffix_of(""), "..tmp");
    let staged = staging_file_name(Some("cache.cc"));
    assert_eq!(staged.len(), "cache.cc.".len() + 36 + ".tmp".len());
    assert_ne!(staged, staging_file_name(Some("cache.cc")));
    assert!(is_abandoned_staging_name("cache.cc", &staged));
    assert!(!is_abandoned_staging_name("other.cc", &staged));
    assert!(is_abandoned_staging_name("cultcache.cc", &staging_file_name(None)));

    assert!(!is_abandoned_staging_name("cache.cc", "cache.cc"));
    assert!(!is_abandoned_staging_name("cache.cc", "cache.cc.lock"));
    assert!(!is_abandoned_staging_name("cache.cc", "cache.cc.not-a-uuid.tmp"));
    assert!(is_abandoned_staging_name(
        "cache.cc",
        "cache.cc.00000000-0000-0000-0000-000000000000.tmp"
    ));
    assert!(!is_abandoned_staging_name(
        "cache.cc",
        "other.cc.00000000-0000-0000-0000-000000000000.tmp"
    ));
    assert!(is_abandoned_staging_name(
        "cache.cc",
        "cache.cc.{00000000-0000-0000-0000-00000000000F}.tmp"
    ));
    assert!(is_abandoned_staging_name(
        "cache.cc",
        "cache.cc.urn:uuid:00000000-0000-0000-0000-000000000000.tmp"
    ));
    assert!(is_abandoned_staging_name(
        "cache.cc",
        "cache.cc.0000000000000000000000000000000a.tmp"
    ));
    assert!(!is_abandoned_staging_name(
        "cache.cc",
        "cache.cc.0000000000000000000000000000000g.tmp"
    ));
    assert!(!is_abandoned_staging_name(
        "cache.cc",
        "cache.cc.00000000-0000-0000-0000-000000000000"
    ));
}

#[test]
fn declarations_name_their_type_and_schema() {
    assert!(matches!(entry_attribute("type"), Ok(EntryAttribute::Type)));
    assert!(matches!(entry_attribute("schema"), Ok(EntryAttribute::Schema)));
    assert!(matches!(
        entry_attribute("kind"),
        Err(Failure::AttributeUnsupported)
    ));

    assert!(matches!(
        EntryDeclaration::new().names("Note"),
        Err(Failure::TypeAttributeMissing)
    ));
    let mut declaration = EntryDeclaration::new();
    declaration.give(EntryAttribute::Type, s("draft"));
    declaration.give(EntryAttribute::Type, s("note"));
    assert!(matches!(
        declaration.names("Note"),
        Ok((entry_type, schema)) if entry_type == "note" && schema == "Note"
    ));
    let mut declaration = EntryDeclaration::new();
    declaration.give(EntryAttribute::Type, s("note"));
    declaration.give(EntryAttribute::Schema, s("NoteV2"));
    assert!(matches!(
        declaration.names("Note"),
        Ok((entry_type, schema)) if entry_type == "note" && schema == "NoteV2"
    ));
}

#[test]
fn declared_fields_are_put_in_the_order_of_their_slots() {
    assert_eq!(field_attribute("key"), Some(FieldAttribute::Key));
    assert_eq!(field_attribute("bytes"), Some(FieldAttribute::Bytes));
    assert_eq!(field_attribute("default"), Some(FieldAttribute::Default));
    assert_eq!(field_attribute("type"), None);
    assert_eq!(field_attribute("Key"), None);

    assert!(slot_order(&[]).is_empty());
    assert_eq!(slot_order(&[2, 0, 1]), vec![1, 2, 0]);
    assert_eq!(slot_order(&[1]), vec![0]);
    assert_eq!(slot_order(&[5, 2, usize::MAX, 3]), vec![1, 3, 0, 2]);
    assert_eq!(slot_order(&[0, 0]), vec![0, 1]);
    assert_eq!(slot_order(&[1, 0, 1, 0]), vec![1, 3, 0, 2]);
}

#[test]
fn rows_are_sorted_and_found_by_their_identities() {
    let first = row("a", "z", b"1");
    let second = row("b", "a", b"2");
    let third = row("b", "b", b"3");
    let rows = sort_rows(vec![third.clone(), first.clone(), second.clone()]);
    assert_eq!(rows, vec![first.clone(), second.clone(), third.clone()]);

    let stale = row("b", "a", b"stale");
    assert_eq!(find_row(&rows, &stale), Some(1));
    assert_eq!(find_row(&rows, &row("z", "a", b"2")), None);
    assert!(is_current(&rows, &second));
    assert!(!is_current(&rows, &stale));
    assert!(same_identity(&second, &stale));
    assert!(!same_envelope(&second, &stale));
    assert!(same_envelope(&second, &second.clone()));
    assert_eq!(entry_id(&first), (s("a"), s("z")));

    assert!(matches_snapshot(&rows, &[third.clone(), second.clone(), first.clone()]));
    assert!(!matches_snapshot(&rows, &[third.clone(), second.clone()]));
    assert!(!matches_snapshot(&rows, &[third, stale, first]));
}

#[test]
fn conditional_changes_are_checked_before_anything_is_read() {
    let one = row("a", "one", b"1");
    let two = row("a", "two", b"2");
    let three = row("a", "three", b"3");

    assert!(matches!(check_swap_batch(&[], &[]), Err(Failure::ReplacementsEmpty)));
    assert!(matches!(
        check_swap_batch(&[one.clone(), one.clone()], &[one.clone()]),
        Err(Failure::DuplicateIdentities { rows: BatchRows::Expected })
    ));
    assert!(matches!(
        check_swap_batch(&[one.clone()], &[one.clone(), one.clone()]),
        Err(Failure::DuplicateIdentities { rows: BatchRows::Replacement })
    ));
    assert!(matches!(
        check_swap_batch(&[one.clone()], &[two.clone()]),
        Err(Failure::ExpectedNotReplaced)
    ));
    assert!(check_swap_batch(&[one.clone()], &[one.clone(), two.clone()]).is_ok());

    assert!(matches!(check_append(&[], &[]), Err(Failure::AdditionsEmpty)));
    assert!(matches!(
        check_append(&[one.clone(), one.clone()], &[two.clone()]),
        Err(Failure::DuplicateIdentities { rows: BatchRows::ExpectedSnapshot })
    ));
    assert!(matches!(
        check_append(&[], &[two.clone(), two.clone()]),
        Err(Failure::DuplicateIdentities { rows: BatchRows::SnapshotAdditions })
    ));

    assert!(matches!(check_delete(&[]), Err(Failure::ExpectedEmpty)));
    assert!(matches!(
        check_delete(&[one.clone(), one.clone()]),
        Err(Failure::DuplicateIdentities { rows: BatchRows::DeleteExpected })
    ));

    assert!(matches!(
        check_replace(&[], &[]),
        Err(Failure::SnapshotReplacementsEmpty)
    ));
    assert!(matches!(
        check_replace(&[], &[one.clone(), one.clone()]),
        Err(Failure::DuplicateIdentities { rows: BatchRows::SnapshotReplacements })
    ));

    assert!(matches!(
        check_compaction(&[one.clone()], &[], &[one.clone()]),
        Err(Failure::CompactionEmpty)
    ));
    assert!(matches!(
        check_compaction(&[one.clone()], &[two.clone()], &[]),
        Err(Failure::CompactionEmpty)
    ));
    assert!(matches!(
        check_compaction(&[one.clone()], &[two.clone()], &[three.clone()]),
        Err(Failure::DeletionUnexpected)
    ));
    assert!(matches!(
        check_compaction(&[one.clone()], &[one.clone()], &[one.clone()]),
        Err(Failure::ReplacedAndDeleted)
    ));
    assert!(matches!(
        check_compaction(&[one.clone()], &[two.clone()], &[one.clone(), one.clone()]),
        Err(Failure::DuplicateIdentities { rows: BatchRows::Deletion })
    ));
    assert!(check_compaction(&[one.clone(), two.clone()], &[two.clone()], &[one.clone()]).is_ok());

    assert!(check_swap_entry(&one, &row("a", "one", b"9")).is_ok());
    assert!(matches!(check_swap_entry(&one, &two), Err(Failure::IdentityChanged)));
}

#[test]
fn tables_of_columns_are_checked_row_by_row() {
    let table = || CultCacheSoaTable::from_envelopes(vec![row("a", "one", b"1"), row("a", "two", b"2")]);
    assert_eq!(table().len(), 2);
    assert!(!table().is_empty());
    assert!(CultCacheSoaTable::default().is_empty());
    assert!(table().validate().is_ok());
    assert!(matches!(
        table().into_envelopes(),
        Ok(rows) if rows == vec![row("a", "one", b"1"), row("a", "two", b"2")]
    ));
    assert_eq!(
        table().clone().into_envelopes().unwrap(),
        vec![row("a", "one", b"1"), row("a", "two", b"2")]
    );

    let mut short = table();
    short.payloads.pop();
    says(
        short.validate().unwrap_err(),
        "CultCache SoA column payloads has length 1, expected 2",
    );
    let mut long = table();
    long.stored_ats.push(s("2026-07-13T00:00:00Z"));
    says(
        long.validate().unwrap_err(),
        "CultCache SoA column storedAts has length 3, expected 2",
    );
    let mut bare = table();
    bare.schema_ids.clear();
    says(
        bare.validate().unwrap_err(),
        "CultCache SoA column schemaIds has length 0, expected 2",
    );
    let mut blank_key = table();
    blank_key.keys[1] = s(" ");
    assert!(matches!(
        blank_key.into_envelopes(),
        Err(Failure::RowKeyBlank { row: 1 })
    ));
    let mut blank_type = table();
    blank_type.types[0] = s("");
    assert!(matches!(
        blank_type.validate(),
        Err(Failure::RowTypeBlank { row: 0 })
    ));
    let mut blank_time = table();
    blank_time.stored_ats[1] = s("\t");
    assert!(matches!(
        blank_time.validate(),
        Err(Failure::RowStoredAtBlank { row: 1 })
    ));
}

fn carries<T: Clone + PartialEq + std::fmt::Debug>(values: Vec<T>, name: &str)
where
    SoaValues: SoaCarrier<T>,
{
    assert_eq!(<SoaValues as SoaCarrier<T>>::value_type(), name);
    let carrier = SoaValues::carry(values.clone());
    assert_eq!(carrier.carried(), Some(&values));
}

#[test]
fn plain_values_are_carried_by_their_types() {
    carries(vec![s("a"), s("b")], "alloc::string::String");
    carries(vec![vec![1u8], vec![]], "alloc::vec::Vec<u8>");
    carries(vec![true, false], "bool");
    carries(vec![1u32, 2], "u32");
    carries(vec![1u64, 2], "u64");
    carries(vec![-1i32, 2], "i32");
    carries(vec![-1i64, 2], "i64");

    let texts = SoaValues::carry(vec![s("a")]);
    let as_numbers: Option<&Vec<u32>> = texts.carried();
    assert_eq!(as_numbers, None);
    let _column: CultSoaColumnValues<SoaValues> = CultSoaColumnValues::new(vec![1u64]);
}

#[derive(Clone, Debug, PartialEq, Eq)]
struct BinaryRecord {
    required: Vec<u8>,
    optional: Vec<u8>,
}

impl DatabaseEntry for BinaryRecord {
    const TYPE: &'static str = "binary-record";
    const SCHEMA_NAME: &'static str = "BinaryRecord";

    fn pack(&self) -> Result<Vec<u8>, String> {
        rmp_serde::to_vec(&(
            serde_bytes::Bytes::new(&self.required),
            serde_bytes::Bytes::new(&self.optional),
        ))
        .map_err(|error| error.to_string())
    }

    fn pack_named(&self) -> Result<Vec<u8>, String> {
        self.pack()
    }

    fn unpack(bytes: &Vec<u8>) -> Result<Self, String> {
        let slots: Result<(serde_bytes::ByteBuf, serde_bytes::ByteBuf), _> =
            rmp_serde::from_slice(bytes);
        match slots {
            Ok((required, optional)) => Ok(BinaryRecord {
                required: required.into_vec(),
                optional: optional.into_vec(),
            }),
            Err(error) => Err(error.to_string()),
        }
    }
}

#[test]
fn byte_slots_use_messagepack_binary_and_round_trip() -> Result<(), CultCacheError> {
    let record = BinaryRecord {
        required: vec![1, 2, 3],
        optional: Vec::new(),
    };

    let mut cache = CultCache::new();
    cache.register_entry_type::<BinaryRecord>()?;
    let (entry, parsed) = cache.prepare_entry("bytes".to_string(), &record)?;
    assert_eq!(entry.payload, vec![0x92, 0xc4, 3, 1, 2, 3, 0xc4, 0]);
    assert_eq!(parsed, record);
    assert_eq!(cache.load_envelope::<BinaryRecord>(entry)?, record);
    assert_eq!(cache.get_required::<BinaryRecord>("bytes")?, record);
    Ok(())
}

#[test]
fn rows_are_made_of_their_fields() {
    let fields = |schema_id| {
        (s("one"), s("a"), b"1".to_vec(), s("2026-07-13T00:00:00Z"), schema_id)
    };
    assert_eq!(row_of_fields(fields(Some(s("a")))), row("a", "one", b"1"));
    assert_eq!(row_of_fields(fields(None)).schema_id, None);
}

#[test]
fn entries_are_stamped_with_their_type() {
    let entry = stamp_entry::<BinaryRecord>(s("k"), vec![0x90], s("2026-07-13T00:00:00Z"));

    assert_eq!(entry, row("binary-record", "k", &[0x90]));
}

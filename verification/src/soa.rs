//! Rows column by column: the cache's rows as columns, and documents with columns of their own.

use crate::document::DatabaseEntry;
use crate::envelope::{
    copy_bytes, copy_text_option, text_option, views, CultCacheEnvelope, EnvelopeView,
};
use crate::error::{CultCacheError, Failure, FailureView};
use crate::ordered_map::OrderedMap;
use crate::text::{blank, is_blank};
use vstd::prelude::*;

verus! {

/// Rows as columns: each column holds one field of every row.
#[derive(Debug, PartialEq)]
pub struct CultCacheSoaTable {
    pub keys: Vec<String>,
    pub types: Vec<String>,
    pub payloads: Vec<Vec<u8>>,
    pub stored_ats: Vec<String>,
    pub schema_ids: Vec<Option<String>>,
}

/// What `blobs` hold.
pub open spec fn blobs(blobs: Seq<Vec<u8>>) -> Seq<Seq<u8>> {
    Seq::new(blobs.len(), |i: int| blobs[i]@)
}

/// What `names` hold.
pub open spec fn optional_texts(names: Seq<Option<String>>) -> Seq<Option<Seq<char>>> {
    Seq::new(names.len(), |i: int| text_option(names[i]))
}

/// Copies of `column`.
fn copy_texts(column: &Vec<String>) -> (copy: Vec<String>)
    ensures
        texts(copy@) == texts(column@),
{
    let mut copy: Vec<String> = Vec::with_capacity(column.len());
    let mut i: usize = 0;
    while i < column.len()
        invariant
            i <= column@.len(),
            copy@.len() == i,
            forall|j: int| 0 <= j < i ==> (#[trigger] copy@[j])@ == column@[j]@,
        decreases column@.len() - i,
    {
        copy.push(column[i].clone());
        i = i + 1;
    }
    assert(texts(copy@) =~= texts(column@));
    copy
}

/// Copies of `column`.
fn copy_blobs(column: &Vec<Vec<u8>>) -> (copy: Vec<Vec<u8>>)
    ensures
        blobs(copy@) == blobs(column@),
{
    let mut copy: Vec<Vec<u8>> = Vec::with_capacity(column.len());
    let mut i: usize = 0;
    while i < column.len()
        invariant
            i <= column@.len(),
            copy@.len() == i,
            forall|j: int| 0 <= j < i ==> (#[trigger] copy@[j])@ == column@[j]@,
        decreases column@.len() - i,
    {
        copy.push(copy_bytes(&column[i]));
        i = i + 1;
    }
    assert(blobs(copy@) =~= blobs(column@));
    copy
}

/// Copies of `column`.
fn copy_optional_texts(column: &Vec<Option<String>>) -> (copy: Vec<Option<String>>)
    ensures
        optional_texts(copy@) == optional_texts(column@),
{
    let mut copy: Vec<Option<String>> = Vec::with_capacity(column.len());
    let mut i: usize = 0;
    while i < column.len()
        invariant
            i <= column@.len(),
            copy@.len() == i,
            forall|j: int|
                0 <= j < i ==> text_option(#[trigger] copy@[j]) == text_option(column@[j]),
        decreases column@.len() - i,
    {
        copy.push(copy_text_option(&column[i]));
        i = i + 1;
    }
    assert(optional_texts(copy@) =~= optional_texts(column@));
    copy
}

impl Clone for CultCacheSoaTable {
    fn clone(&self) -> (copy: Self)
        ensures
            texts(copy.keys@) == texts(self.keys@),
            texts(copy.types@) == texts(self.types@),
            blobs(copy.payloads@) == blobs(self.payloads@),
            texts(copy.stored_ats@) == texts(self.stored_ats@),
            optional_texts(copy.schema_ids@) == optional_texts(self.schema_ids@),
    {
        CultCacheSoaTable {
            keys: copy_texts(&self.keys),
            types: copy_texts(&self.types),
            payloads: copy_blobs(&self.payloads),
            stored_ats: copy_texts(&self.stored_ats),
            schema_ids: copy_optional_texts(&self.schema_ids),
        }
    }
}

impl Default for CultCacheSoaTable {
    fn default() -> (table: Self)
        ensures
            table.even(),
            table.rows() == Seq::<EnvelopeView>::empty(),
    {
        let table = CultCacheSoaTable {
            keys: Vec::new(),
            types: Vec::new(),
            payloads: Vec::new(),
            stored_ats: Vec::new(),
            schema_ids: Vec::new(),
        };
        assert(table.rows() =~= Seq::<EnvelopeView>::empty());
        table
    }
}

/// Why the row at `i` is refused, if it is.
pub open spec fn row_refusal(row: EnvelopeView, i: int) -> Option<FailureView> {
    if blank(row.key) {
        Some(Failure::RowKeyBlank { row: i as usize })
    } else if blank(row.entry_type) {
        Some(Failure::RowTypeBlank { row: i as usize })
    } else if blank(row.stored_at) {
        Some(Failure::RowStoredAtBlank { row: i as usize })
    } else {
        None
    }
}

/// Why the first of the rows that is refused is refused, if one is.
pub open spec fn rows_refusal(rows: Seq<EnvelopeView>) -> Option<FailureView>
    decreases rows.len(),
{
    if rows.len() == 0 {
        None
    } else {
        match rows_refusal(rows.drop_last()) {
            Some(e) => Some(e),
            None => row_refusal(rows.last(), rows.len() - 1),
        }
    }
}

proof fn lemma_rows_refused(rows: Seq<EnvelopeView>, n: int)
    requires
        0 <= n <= rows.len(),
        rows_refusal(rows.take(n)) is Some,
    ensures
        rows_refusal(rows) == rows_refusal(rows.take(n)),
    decreases rows.len() - n,
{
    if n == rows.len() {
        assert(rows.take(n) =~= rows);
    } else {
        assert(rows.take(n + 1).drop_last() =~= rows.take(n));
        lemma_rows_refused(rows, n + 1);
    }
}

impl CultCacheSoaTable {
    /// All columns have the same length.
    pub open spec fn even(&self) -> bool {
        &&& self.types@.len() == self.keys@.len()
        &&& self.payloads@.len() == self.keys@.len()
        &&& self.stored_ats@.len() == self.keys@.len()
        &&& self.schema_ids@.len() == self.keys@.len()
    }

    /// The rows that the columns hold.
    pub open spec fn rows(&self) -> Seq<EnvelopeView> {
        Seq::new(
            self.keys@.len(),
            |i: int|
                EnvelopeView {
                    key: self.keys@[i]@,
                    entry_type: self.types@[i]@,
                    payload: self.payloads@[i]@,
                    stored_at: self.stored_ats@[i]@,
                    schema_id: text_option(self.schema_ids@[i]),
                },
        )
    }

    /// Why the table is refused, if it is: a column of another length than the keys, or a row
    /// with a blank field.
    pub open spec fn refusal(&self) -> Option<FailureView> {
        let n = self.keys@.len() as usize;
        if self.types@.len() != n {
            Some(
                Failure::ColumnLength {
                    column: "types"@,
                    length: self.types@.len() as usize,
                    table_length: n,
                },
            )
        } else if self.payloads@.len() != n {
            Some(
                Failure::ColumnLength {
                    column: "payloads"@,
                    length: self.payloads@.len() as usize,
                    table_length: n,
                },
            )
        } else if self.stored_ats@.len() != n {
            Some(
                Failure::ColumnLength {
                    column: "storedAts"@,
                    length: self.stored_ats@.len() as usize,
                    table_length: n,
                },
            )
        } else if self.schema_ids@.len() != n {
            Some(
                Failure::ColumnLength {
                    column: "schemaIds"@,
                    length: self.schema_ids@.len() as usize,
                    table_length: n,
                },
            )
        } else {
            rows_refusal(self.rows())
        }
    }

    /// The columns of `entries`.
    pub fn from_envelopes(entries: Vec<CultCacheEnvelope>) -> (table: Self)
        ensures
            table.even(),
            table.rows() == views(entries@),
    {
        let ghost all = entries@;
        let mut table = CultCacheSoaTable::default();
        assert(views(all).take(0) =~= Seq::<EnvelopeView>::empty());
        for entry in iter: entries
            invariant
                iter.seq() == all,
                table.even(),
                table.rows() == views(all).take(iter.index()),
        {
            let ghost n = iter.index();
            let ghost before = table.rows();
            let ghost row = entry@;
            table.keys.push(entry.key);
            table.types.push(entry.entry_type);
            table.payloads.push(entry.payload);
            table.stored_ats.push(entry.stored_at);
            table.schema_ids.push(entry.schema_id);
            proof {
                assert(table.rows() =~= before.push(row));
                assert(views(all).take(n + 1) =~= views(all).take(n).push(row));
            }
        }
        assert(views(all).take(all.len() as int) =~= views(all));
        table
    }

    /// How many rows the columns hold.
    pub fn len(&self) -> (n: usize)
        ensures
            n == self.rows().len(),
    {
        self.keys.len()
    }

    /// Whether the columns hold no row.
    pub fn is_empty(&self) -> (empty: bool)
        ensures
            empty == (self.rows().len() == 0),
    {
        self.keys.len() == 0
    }

    /// Checks that all columns have one length and that no row has a blank key, type or time of
    /// storing.
    pub fn validate(&self) -> (checked: Result<(), CultCacheError>)
        ensures
            match checked {
                Ok(_) => self.refusal() is None,
                Err(e) => self.refusal() == Some(e@),
            },
    {
        let n: usize = self.keys.len();
        if self.types.len() != n {
            return Err(
                Failure::ColumnLength {
                    column: "types".to_owned(),
                    length: self.types.len(),
                    table_length: n,
                },
            );
        }
        if self.payloads.len() != n {
            return Err(
                Failure::ColumnLength {
                    column: "payloads".to_owned(),
                    length: self.payloads.len(),
                    table_length: n,
                },
            );
        }
        if self.stored_ats.len() != n {
            return Err(
                Failure::ColumnLength {
                    column: "storedAts".to_owned(),
                    length: self.stored_ats.len(),
                    table_length: n,
                },
            );
        }
        if self.schema_ids.len() != n {
            return Err(
                Failure::ColumnLength {
                    column: "schemaIds".to_owned(),
                    length: self.schema_ids.len(),
                    table_length: n,
                },
            );
        }
        let ghost rows = self.rows();
        let mut i: usize = 0;
        while i < n
            invariant
                i <= n,
                n == self.keys@.len(),
                self.even(),
                rows == self.rows(),
                self.refusal() == rows_refusal(rows),
                rows_refusal(rows.take(i as int)) is None,
            decreases n - i,
        {
            proof {
                assert(rows.take(i + 1).drop_last() =~= rows.take(i as int));
                if rows_refusal(rows.take(i + 1)) is Some {
                    lemma_rows_refused(rows, i + 1);
                }
            }
            if is_blank(self.keys[i].as_str()) {
                return Err(Failure::RowKeyBlank { row: i });
            }
            if is_blank(self.types[i].as_str()) {
                return Err(Failure::RowTypeBlank { row: i });
            }
            if is_blank(self.stored_ats[i].as_str()) {
                return Err(Failure::RowStoredAtBlank { row: i });
            }
            i = i + 1;
        }
        assert(rows.take(i as int) =~= rows);
        Ok(())
    }

    /// The rows that the columns hold.
    pub fn into_envelopes(self) -> (entries: Result<Vec<CultCacheEnvelope>, CultCacheError>)
        ensures
            match entries {
                Ok(rows) => self.refusal() is None && views(rows@) == self.rows(),
                Err(e) => self.refusal() == Some(e@),
            },
    {
        self.validate()?;
        let ghost rows = self.rows();
        let mut keys = self.keys;
        let mut types = self.types;
        let mut payloads = self.payloads;
        let mut stored_ats = self.stored_ats;
        let mut schema_ids = self.schema_ids;
        // The columns are taken apart from their ends, so the rows first come out backwards.
        let mut backwards: Vec<CultCacheEnvelope> = Vec::with_capacity(keys.len());
        let mut left: usize = keys.len();
        while left > 0
            invariant
                left <= rows.len(),
                rows == self.rows(),
                self.even(),
                keys@ == self.keys@.take(left as int),
                types@ == self.types@.take(left as int),
                payloads@ == self.payloads@.take(left as int),
                stored_ats@ == self.stored_ats@.take(left as int),
                schema_ids@ == self.schema_ids@.take(left as int),
                backwards@.len() == rows.len() - left,
                forall|i: int|
                    0 <= i < backwards@.len() ==> (#[trigger] backwards@[i])@ == rows[rows.len() - 1
                        - i],
            decreases left,
        {
            if let (Some(key), Some(entry_type), Some(payload), Some(stored_at), Some(schema_id)) =
                (keys.pop(), types.pop(), payloads.pop(), stored_ats.pop(), schema_ids.pop()) {
                backwards.push(
                    CultCacheEnvelope { key, entry_type, payload, stored_at, schema_id },
                );
            }
            left = left - 1;
        }
        let ghost taken = backwards@;
        let mut entries: Vec<CultCacheEnvelope> = Vec::with_capacity(backwards.len());
        while backwards.len() > 0
            invariant
                taken.len() == rows.len(),
                forall|i: int|
                    0 <= i < taken.len() ==> (#[trigger] taken[i])@ == rows[rows.len() - 1 - i],
                backwards@.len() <= taken.len(),
                backwards@ == taken.take(backwards@.len() as int),
                entries@.len() == rows.len() - backwards@.len(),
                forall|i: int| 0 <= i < entries@.len() ==> (#[trigger] entries@[i])@ == rows[i],
            decreases backwards@.len(),
        {
            if let Some(entry) = backwards.pop() {
                entries.push(entry);
            }
        }
        assert(views(entries@) =~= rows);
        Ok(entries)
    }
}

/// Carries a column's values of the type `TValue` among columns of other types. What a carrier
/// promises is up to it; one that says nothing of it promises nothing.
pub trait SoaCarrier<TValue>: Sized {
    /// The carrier may hold `values`, of the type `TValue`.
    open spec fn holds(&self, values: Seq<TValue>) -> bool {
        true
    }

    /// The carrier may hold no values of the type `TValue`.
    open spec fn lacks(&self) -> bool {
        true
    }

    /// The type `TValue` may be called `name` in messages.
    open spec fn is_called(name: Seq<char>) -> bool {
        true
    }

    /// How the type `TValue` is called in messages.
    fn value_type() -> (name: &'static str)
        ensures
            Self::is_called(name@),
    ;

    /// A carrier of `values`.
    fn carry(values: Vec<TValue>) -> (carrier: Self)
        ensures
            carrier.holds(values@),
    ;

    /// The values of the type `TValue` that this carrier holds, if it holds values of that type.
    fn carried(&self) -> (values: Option<&Vec<TValue>>)
        ensures
            match values {
                Some(v) => self.holds(v@),
                None => self.lacks(),
            },
    ;
}

/// The values of one column, of whatever type.
pub struct CultSoaColumnValues<C> {
    value_type: &'static str,
    values: C,
}

impl<C> CultSoaColumnValues<C> {
    /// How the type of the values is called in messages.
    pub closed spec fn stored_type(&self) -> Seq<char> {
        self.value_type@
    }

    /// What carries the values.
    pub closed spec fn carrier(&self) -> C {
        self.values
    }

    /// A column of `values`.
    pub fn new<TValue>(values: Vec<TValue>) -> (column: Self) where C: SoaCarrier<TValue>
        ensures
            <C as SoaCarrier<TValue>>::is_called(column.stored_type()),
            <C as SoaCarrier<TValue>>::holds(&column.carrier(), values@),
    {
        CultSoaColumnValues {
            value_type: <C as SoaCarrier<TValue>>::value_type(),
            values: <C as SoaCarrier<TValue>>::carry(values),
        }
    }
}

/// One column of a table, with its values.
#[derive(Debug, PartialEq)]
pub struct CultSoaColumn<TValue> {
    name: String,
    values: Vec<TValue>,
}

impl<TValue: Clone> Clone for CultSoaColumn<TValue> {
    fn clone(&self) -> (copy: Self)
        ensures
            copy.named() == self.named(),
            clones(self.held(), copy.held()),
    {
        CultSoaColumn { name: self.name.clone(), values: self.values.clone() }
    }
}

impl<TValue> CultSoaColumn<TValue> {
    /// The column's name.
    pub closed spec fn named(&self) -> Seq<char> {
        self.name@
    }

    /// The column's values.
    pub closed spec fn held(&self) -> Seq<TValue> {
        self.values@
    }

    /// The column's name.
    pub fn name(&self) -> (name: &str)
        ensures
            name@ == self.named(),
    {
        self.name.as_str()
    }

    /// The column's values.
    pub fn values(&self) -> (values: &[TValue])
        ensures
            values@ == self.held(),
    {
        self.values.as_slice()
    }
}

/// Documents of one type with their keys and their columns.
pub struct CultSoaTable<TDocument, C> {
    keys: Vec<String>,
    documents: Vec<TDocument>,
    columns: OrderedMap<String, CultSoaColumnValues<C>>,
}

/// What `texts` hold.
pub open spec fn texts(texts: Seq<String>) -> Seq<Seq<char>> {
    Seq::new(texts.len(), |i: int| texts[i]@)
}

impl<TDocument, C> CultSoaTable<TDocument, C> {
    /// The documents' keys.
    pub closed spec fn document_keys(&self) -> Seq<Seq<char>> {
        texts(self.keys@)
    }

    /// The documents.
    pub closed spec fn held(&self) -> Seq<TDocument> {
        self.documents@
    }

    /// The columns by their names.
    pub closed spec fn column_map(&self) -> Map<Seq<char>, CultSoaColumnValues<C>> {
        self.columns@
    }

    /// The columns are in the order of their names, and there are as many keys as documents.
    pub closed spec fn wf(&self) -> bool {
        self.columns.wf() && self.keys@.len() == self.documents@.len()
    }

    /// A table of documents with their keys and columns.
    pub(crate) fn assemble(
        keys: Vec<String>,
        documents: Vec<TDocument>,
        columns: OrderedMap<String, CultSoaColumnValues<C>>,
    ) -> (table: Self)
        requires
            columns.wf(),
            keys@.len() == documents@.len(),
        ensures
            table.wf(),
            table.document_keys() == texts(keys@),
            table.held() == documents@,
            table.column_map() == columns@,
    {
        CultSoaTable { keys, documents, columns }
    }

    /// The documents' keys.
    pub fn keys(&self) -> (keys: &[String])
        ensures
            texts(keys@) == self.document_keys(),
    {
        self.keys.as_slice()
    }

    /// The documents.
    pub fn documents(&self) -> (documents: &[TDocument])
        ensures
            documents@ == self.held(),
    {
        self.documents.as_slice()
    }

    /// How many documents there are.
    pub fn len(&self) -> (n: usize)
        ensures
            n == self.document_keys().len(),
    {
        self.keys.len()
    }

    /// Whether there is no document.
    pub fn is_empty(&self) -> (empty: bool)
        ensures
            empty == (self.document_keys().len() == 0),
    {
        self.keys.len() == 0
    }

    /// The column of the name `name`, whose values must be of the type `TValue`.
    pub fn column<TValue: Clone>(&self, name: &str) -> (column: Result<
        CultSoaColumn<TValue>,
        CultCacheError,
    >) where C: SoaCarrier<TValue>
        requires
            self.wf(),
        ensures
            if !self.column_map().contains_key(name@) {
                column is Err && column->Err_0@ == (FailureView::ColumnMissing { name: name@ })
            } else {
                match column {
                    Ok(c) => c.named() == name@ && exists|values: Seq<TValue>| #[trigger]
                        <C as SoaCarrier<TValue>>::holds(
                            &self.column_map()[name@].carrier(),
                            values,
                        ) && clones(values, c.held()),
                    Err(e) => <C as SoaCarrier<TValue>>::lacks(
                        &self.column_map()[name@].carrier(),
                    ) && exists|wanted: Seq<char>| #[trigger]
                        <C as SoaCarrier<TValue>>::is_called(wanted) && e@ == (
                        FailureView::ColumnType {
                            name: name@,
                            stored: self.column_map()[name@].stored_type(),
                            wanted,
                        }),
                }
            },
    {
        let found = match self.columns.get(&name.to_owned()) {
            Some(column) => column,
            None => {
                return Err(Failure::ColumnMissing { name: name.to_owned() });
            },
        };
        assert(self.column_map()[name@] == *found);
        match <C as SoaCarrier<TValue>>::carried(&found.values) {
            Some(values) => {
                let copy: Vec<TValue> = values.clone();
                let column = CultSoaColumn { name: name.to_owned(), values: copy };
                assert(clones(values@, column.held())) by {
                    assert forall|i: int| 0 <= i < values@.len() implies cloned(
                        values@[i],
                        #[trigger] column.held()[i],
                    ) by {
                        assert(column.held()[i] == copy[i]);
                    }
                }
                assert(<C as SoaCarrier<TValue>>::holds(&found.carrier(), values@));
                Ok(column)
            },
            None => {
                let wanted = <C as SoaCarrier<TValue>>::value_type();
                assert(<C as SoaCarrier<TValue>>::is_called(wanted@));
                Err(
                    Failure::ColumnType {
                        name: name.to_owned(),
                        stored: found.value_type.to_owned(),
                        wanted: wanted.to_owned(),
                    },
                )
            },
        }
    }
}

/// Every value of `copies` is a clone of the value of `values` at its place.
pub open spec fn clones<TValue: Clone>(values: Seq<TValue>, copies: Seq<TValue>) -> bool {
    &&& copies.len() == values.len()
    &&& forall|i: int| 0 <= i < values.len() ==> cloned(values[i], #[trigger] copies[i])
}

/// A document type whose documents can be laid out as columns.
pub trait SoaDocument: DatabaseEntry {
    /// What carries the values of a column.
    type Column;

    /// The columns of `rows` may be `columns`.
    open spec fn lays_out(
        rows: Seq<Self>,
        columns: Map<Seq<char>, CultSoaColumnValues<Self::Column>>,
    ) -> bool {
        true
    }

    /// The columns of `rows`, by their names.
    fn soa_columns(rows: &[Self]) -> (columns: OrderedMap<
        String,
        CultSoaColumnValues<Self::Column>,
    >)
        ensures
            columns.wf(),
            Self::lays_out(rows@, columns@),
    ;
}

/// No field of `row` that has to say something is blank.
pub open spec fn row_is_filled(row: EnvelopeView) -> bool {
    !blank(row.key) && !blank(row.entry_type) && !blank(row.stored_at)
}

/// The first row that is not filled is the one that is refused.
proof fn lemma_first_refused(rows: Seq<EnvelopeView>)
    ensures
        rows_refusal(rows) is None <==> forall|i: int|
            0 <= i < rows.len() ==> row_is_filled(#[trigger] rows[i]),
        rows_refusal(rows) is Some ==> exists|i: int|
            {
                &&& 0 <= i < rows.len()
                &&& !row_is_filled(#[trigger] rows[i])
                &&& rows_refusal(rows) == row_refusal(rows[i], i)
                &&& forall|m: int| 0 <= m < i ==> row_is_filled(#[trigger] rows[m])
            },
    decreases rows.len(),
{
    if rows.len() > 0 {
        let n = rows.len() - 1;
        let rest = rows.drop_last();
        lemma_first_refused(rest);
        assert forall|i: int| 0 <= i < n implies rest[i] == #[trigger] rows[i] by {}
        if rows_refusal(rest) is Some {
            let i = choose|i: int|
                {
                    &&& 0 <= i < rest.len()
                    &&& !row_is_filled(#[trigger] rest[i])
                    &&& rows_refusal(rest) == row_refusal(rest[i], i)
                    &&& forall|m: int| 0 <= m < i ==> row_is_filled(#[trigger] rest[m])
                };
            assert(!row_is_filled(rows[i]));
            assert forall|m: int| 0 <= m < i implies row_is_filled(#[trigger] rows[m]) by {
                assert(row_is_filled(rest[m]));
            }
        } else {
            assert forall|m: int| 0 <= m < n implies row_is_filled(#[trigger] rows[m]) by {
                assert(row_is_filled(rest[m]));
            }
            assert(rows[n] == rows.last());
            if row_is_filled(rows[n]) {
                assert(row_refusal(rows[n], n) is None);
            }
        }
    }
}

/// Columns are refused exactly where two of them differ in length, or a row has a blank key, type
/// or time of storing. The reason is a column with another length than the keys, with its length;
/// or the first such row, with its place and the field. Payloads and schemas may be anything.
pub proof fn columns_are_refused_exactly(table: CultCacheSoaTable)
    ensures
        table.refusal() is None <==> table.even() && forall|i: int|
            0 <= i < table.rows().len() ==> row_is_filled(#[trigger] table.rows()[i]),
        table.even() <==> !(table.refusal() is Some && table.refusal()->Some_0 is ColumnLength),
        table.refusal() matches Some(Failure::ColumnLength { column, length, table_length })
            ==> table_length == table.keys@.len() && length != table_length && {
            ||| column == "types"@ && length == table.types@.len()
            ||| column == "payloads"@ && length == table.payloads@.len()
            ||| column == "storedAts"@ && length == table.stored_ats@.len()
            ||| column == "schemaIds"@ && length == table.schema_ids@.len()
        },
        table.even() && table.refusal() is Some ==> exists|i: int|
            {
                &&& 0 <= i < table.rows().len()
                &&& !row_is_filled(#[trigger] table.rows()[i])
                &&& forall|m: int| 0 <= m < i ==> row_is_filled(#[trigger] table.rows()[m])
                &&& table.refusal() == Some(
                    if blank(table.rows()[i].key) {
                        FailureView::RowKeyBlank { row: i as usize }
                    } else if blank(table.rows()[i].entry_type) {
                        FailureView::RowTypeBlank { row: i as usize }
                    } else {
                        FailureView::RowStoredAtBlank { row: i as usize }
                    },
                )
            },
{
    lemma_first_refused(table.rows());
    assert(table.keys@.len() == table.keys.len());
    assert(table.types@.len() == table.types.len());
    assert(table.payloads@.len() == table.payloads.len());
    assert(table.stored_ats@.len() == table.stored_ats.len());
    assert(table.schema_ids@.len() == table.schema_ids.len());
    if table.even() && table.refusal() is Some {
        let rows = table.rows();
        let i = choose|i: int|
            {
                &&& 0 <= i < rows.len()
                &&& !row_is_filled(#[trigger] rows[i])
                &&& rows_refusal(rows) == row_refusal(rows[i], i)
                &&& forall|m: int| 0 <= m < i ==> row_is_filled(#[trigger] rows[m])
            };
        assert(!row_is_filled(table.rows()[i]));
    }
}

} // verus!

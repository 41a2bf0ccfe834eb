//! The stored unit of the cache: one document's payload under its type and key.

use crate::order::{pair_before, place_text, Placement};
use crate::text::same_text;
use vstd::prelude::*;

verus! {

/// A document's type and key, which together identify it.
pub type Identity = (Seq<char>, Seq<char>);

/// One stored document: its key and type, its encoded payload, when it was stored, and the
/// schema that the payload follows.
#[derive(Debug, PartialEq)]
pub struct CultCacheEnvelope {
    pub key: String,
    pub entry_type: String,
    pub payload: Vec<u8>,
    pub stored_at: String,
    pub schema_id: Option<String>,
}

/// What an envelope holds.
#[verifier::ext_equal]
pub struct EnvelopeView {
    pub key: Seq<char>,
    pub entry_type: Seq<char>,
    pub payload: Seq<u8>,
    pub stored_at: Seq<char>,
    pub schema_id: Option<Seq<char>>,
}

impl EnvelopeView {
    /// The envelope's identity: its type, then its key.
    pub open spec fn id(self) -> Identity {
        (self.entry_type, self.key)
    }

    /// The schema that the envelope's record refers to: its own, or else its type.
    pub open spec fn schema(self) -> Seq<char> {
        match self.schema_id {
            Some(schema) => schema,
            None => self.entry_type,
        }
    }
}

/// What an optional text holds.
pub open spec fn text_option(t: Option<String>) -> Option<Seq<char>> {
    match t {
        Some(s) => Some(s@),
        None => None,
    }
}

impl View for CultCacheEnvelope {
    type V = EnvelopeView;

    open spec fn view(&self) -> EnvelopeView {
        EnvelopeView {
            key: self.key@,
            entry_type: self.entry_type@,
            payload: self.payload@,
            stored_at: self.stored_at@,
            schema_id: text_option(self.schema_id),
        }
    }
}

/// What a run of envelopes holds.
pub open spec fn views(rows: Seq<CultCacheEnvelope>) -> Seq<EnvelopeView> {
    Seq::new(rows.len(), |i: int| rows[i]@)
}

/// A copy of `bytes`.
pub fn copy_bytes(bytes: &Vec<u8>) -> (copy: Vec<u8>)
    ensures
        copy@ == bytes@,
{
    let mut copy: Vec<u8> = Vec::with_capacity(bytes.len());
    let mut i: usize = 0;
    while i < bytes.len()
        invariant
            i <= bytes.len(),
            copy@ == bytes@.take(i as int),
        decreases bytes.len() - i,
    {
        copy.push(bytes[i]);
        i = i + 1;
        assert(bytes@.take(i as int) =~= bytes@.take(i - 1).push(bytes@[i - 1]));
    }
    assert(bytes@.take(i as int) =~= bytes@);
    copy
}

/// A copy of an optional text.
pub fn copy_text_option(t: &Option<String>) -> (copy: Option<String>)
    ensures
        text_option(copy) == text_option(*t),
{
    match t {
        Some(s) => Some(s.clone()),
        None => None,
    }
}

impl Clone for CultCacheEnvelope {
    fn clone(&self) -> (copy: Self)
        ensures
            copy@ == self@,
    {
        CultCacheEnvelope {
            key: self.key.clone(),
            entry_type: self.entry_type.clone(),
            payload: copy_bytes(&self.payload),
            stored_at: self.stored_at.clone(),
            schema_id: copy_text_option(&self.schema_id),
        }
    }
}

/// Whether two byte strings are the same.
fn same_bytes(a: &Vec<u8>, b: &Vec<u8>) -> (same: bool)
    ensures
        same == (a@ == b@),
{
    if a.len() != b.len() {
        return false;
    }
    let mut i: usize = 0;
    while i < a.len()
        invariant
            i <= a.len(),
            a.len() == b.len(),
            forall|j: int| 0 <= j < i ==> a@[j] == b@[j],
        decreases a.len() - i,
    {
        if a[i] != b[i] {
            return false;
        }
        i = i + 1;
    }
    assert(a@ =~= b@);
    true
}

/// Whether two envelopes hold exactly the same.
pub fn same_envelope(a: &CultCacheEnvelope, b: &CultCacheEnvelope) -> (same: bool)
    ensures
        same == (a@ == b@),
{
    let same_schema = match (&a.schema_id, &b.schema_id) {
        (Some(x), Some(y)) => same_text(x.as_str(), y.as_str()),
        (None, None) => true,
        _ => false,
    };
    same_schema && same_text(a.key.as_str(), b.key.as_str()) && same_text(
        a.entry_type.as_str(),
        b.entry_type.as_str(),
    ) && same_text(a.stored_at.as_str(), b.stored_at.as_str()) && same_bytes(
        &a.payload,
        &b.payload,
    )
}

/// The identity of an entry of type `entry_type` under `key`.
pub fn entry_id_parts(entry_type: &str, key: &str) -> (id: (String, String))
    ensures
        id@ == (entry_type@, key@),
{
    (entry_type.to_owned(), key.to_owned())
}

/// The identity of `entry`.
pub fn entry_id(entry: &CultCacheEnvelope) -> (id: (String, String))
    ensures
        id@ == entry@.id(),
{
    entry_id_parts(entry.entry_type.as_str(), entry.key.as_str())
}

/// Where the identity of `a` stands relative to that of `b`.
pub fn place_entry(a: &CultCacheEnvelope, b: &CultCacheEnvelope) -> (p: Placement)
    ensures
        match p {
            Placement::Before => pair_before(a@.id(), b@.id()),
            Placement::Same => a@.id() == b@.id(),
            Placement::After => pair_before(b@.id(), a@.id()),
        },
{
    match place_text(a.entry_type.as_str(), b.entry_type.as_str()) {
        Placement::Same => place_text(a.key.as_str(), b.key.as_str()),
        decided => decided,
    }
}

/// Whether two envelopes have the same identity.
pub fn same_identity(a: &CultCacheEnvelope, b: &CultCacheEnvelope) -> (same: bool)
    ensures
        same == (a@.id() == b@.id()),
{
    same_text(a.entry_type.as_str(), b.entry_type.as_str()) && same_text(
        a.key.as_str(),
        b.key.as_str(),
    )
}

} // verus!

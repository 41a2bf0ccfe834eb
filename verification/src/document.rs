//! What a type must bring along to be kept in the cache.

use vstd::prelude::*;

verus! {

/// What packing a document came to.
pub open spec fn packing(packed: Result<Vec<u8>, String>) -> Result<Seq<u8>, Seq<char>> {
    match packed {
        Ok(bytes) => Ok(bytes@),
        Err(cause) => Err(cause@),
    }
}

/// What unpacking a document came to.
pub open spec fn unpacking<T>(value: Result<T, String>) -> Result<T, Seq<char>> {
    match value {
        Ok(v) => Ok(v),
        Err(cause) => Err(cause@),
    }
}

/// A document type: its name, the name of its schema, and its MessagePack codec. What the codec
/// promises is up to the type; one that says nothing of it promises nothing.
pub trait DatabaseEntry: Clone + Send + 'static {
    /// The name under which the type's documents are stored.
    const TYPE: &'static str;

    /// The name of the type's schema.
    const SCHEMA_NAME: &'static str = "DatabaseEntry";

    /// Packing this document may come to `packed`.
    open spec fn packs(&self, packed: Result<Seq<u8>, Seq<char>>) -> bool {
        true
    }

    /// Packing this document with named fields may come to `packed`.
    open spec fn packs_named(&self, packed: Result<Seq<u8>, Seq<char>>) -> bool {
        true
    }

    /// Unpacking `bytes` may come to `value`.
    open spec fn unpacks(bytes: Seq<u8>, value: Result<Self, Seq<char>>) -> bool {
        true
    }

    /// The document in MessagePack.
    fn pack(&self) -> (packed: Result<Vec<u8>, String>)
        ensures
            self.packs(packing(packed)),
    ;

    /// The document in MessagePack, with nested structures as maps from field names.
    fn pack_named(&self) -> (packed: Result<Vec<u8>, String>)
        ensures
            self.packs_named(packing(packed)),
    ;

    /// The document that MessagePack bytes hold.
    fn unpack(bytes: &Vec<u8>) -> (value: Result<Self, String>)
        ensures
            Self::unpacks(bytes@, unpacking(value)),
    ;
}

} // verus!

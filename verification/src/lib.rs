//! A cache of typed documents over stores that persist them.
//!
//! [`cache::CultCache`] holds the envelopes of documents of many types under their identities: the
//! pair of a type's name and a key. Every change goes to the stores that the type is routed to
//! first, and to the cache only where they took it; a store that serves a type by name is preferred
//! to one that serves all types.
//!
//! The rows of a store stand in one MessagePack file ([`single_file`], [`snapshot`]) or in a keyed
//! table of `redb` ([`keyed`], [`table`]); both offer the same conditional changes
//! ([`conditional`]), which happen as a whole or not at all. What this crate leaves to its users is
//! the work on the machine itself: files, locks and transactions. They hand in what was read and
//! persist what comes back.
//!
//! The modules [`operation_laws`] and [`request_laws`] state what each operation owes, and
//! [`row_laws`], [`cache_laws`], [`keyed_laws`] and [`store_laws`] what holds across operations.

pub mod cache;
pub mod cache_laws;
pub mod clock;
pub mod conditional;
pub mod declaration;
pub mod document;
pub mod envelope;
pub mod error;
pub mod file_identity;
pub mod keyed;
pub mod keyed_laws;
pub mod messagepack;
pub mod model;
pub mod operation_laws;
pub mod order;
pub mod ordered_map;
pub mod request_laws;
pub mod row_laws;
pub mod rows;
pub mod single_file;
pub mod snapshot;
pub mod soa;
pub mod soa_values;
pub mod staging;
pub mod store;
pub mod store_laws;
pub mod table;
pub mod text;

pub use crate::cache::{CultCache, CultCacheRegistry};
pub use crate::document::DatabaseEntry;
pub use crate::document::DatabaseEntry as CultCacheDocument;
pub use crate::envelope::CultCacheEnvelope;
pub use crate::error::{CultCacheError, Failure};
pub use crate::keyed::{OwnedRedbMessagePackBackingStore, RedbMessagePackBackingStore};
pub use crate::single_file::SingleFileMessagePackBackingStore;
pub use crate::soa::{
    CultCacheSoaTable, CultSoaColumn, CultSoaColumnValues, CultSoaTable, SoaDocument,
};
pub use crate::store::{CacheBackingStore, PushAllOptions};

//! A content-addressed catalog of the files under a root directory.
//!
//! The library holds the catalog index in memory and states each of its
//! operations over a mathematical model: the ingestion of one file (relative
//! path, ignore patterns, digests, upsert by path), the end-of-run sweep that
//! marks untouched entries as deleted, and the existence query that matches a
//! candidate by size and short digest.
pub mod catalog;
pub mod digest;
pub mod ignore;
pub mod paths;
pub mod populating;

pub use catalog::{
    clear_all, existeix, existeix_strict, get_tipus_id_of, insert_file, mark_not_seen_as_deleted,
    restore_entry, restore_type_class, Catalog, CatalogEntry, TipusFitxer,
};
pub use digest::{full_hash_of, hashes_of, short_hash_of, SHORT_SIZE};
pub use ignore::{parse_ignore_patterns, IgnorePattern};
pub use populating::{insert_file_report, populate, IngestError, IngestOutcome, ScannedFile};

//! A plain-text, file-backed structured document store.
//!
//! Each record (an [`entry::Entry`]) couples a hierarchical identifier with a
//! schema-validated structured header and free-form text content.  The
//! [`store::Store`] caches live entries, enforces a borrow discipline so that
//! no two handles mutate one record at the same time, and drives a hook
//! pipeline around every CRUD operation.

pub mod codec;
pub mod configuration;
pub mod diary;
pub mod entry;
pub mod error;
pub mod store;
pub mod storeid;
pub mod strutil;
pub mod header;
pub mod filter;
pub mod hook;
pub mod markup;
pub mod printer;
pub mod value;
pub mod version;

pub use value::Value;

//! A minimal persistent key-value store engine.
//!
//! Keys are mapped to record files through a fixed 64-bit digest; each
//! record file holds a bucket of key/value entries so that two keys whose
//! digests collide never overwrite one another. This crate holds the
//! verified engine: the digest, the record file format, the bucket logic,
//! the store state itself, and the admission gate that bounds how many
//! write tasks run at once. File and directory I/O lives outside the
//! library and only moves encoded record contents in and out.

pub mod codec;
pub mod digest;
pub mod driver;
pub mod numeral;
pub mod record;
pub mod store;

pub use digest::calculate_hash;

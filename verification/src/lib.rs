//! A local secrets store: named text entries, each independently encrypted
//! under a password, held in memory as a label-keyed map and persisted as a
//! single text blob.
//!
//! The crate has three parts: the envelope cipher ([`crypto`]), which turns a
//! plaintext and a password into a self-contained authenticated record and
//! back; the entry store ([`store`]), a label-keyed map of such records; and
//! the codec ([`codec`]), which moves the map to and from its serialized text
//! form. Reading and writing the blob itself is the caller's business.

pub mod base64;
pub mod codec;
pub mod crypto;
pub mod entry;
pub mod errors;
pub mod store;

//! An embedded store of labelled documents.
//!
//! A document is a payload of bytes with an id of 128 bits and a set of
//! labels, pairs of a key and a value. A bucket keeps its documents in four
//! ordered trees of a key/value engine: the documents, the label set of each
//! document, and two posting indexes that map a label, key first and value
//! first, to the documents that carry it. Every change of a bucket runs as
//! one transaction over the four trees.
//!
//! Posting lists and label sets are stored in a format of this crate's own:
//! a posting list as the 16-byte keys of its documents one behind the other,
//! a label set as the forward forms of its labels, each closed by the byte
//! 255. A payload is stored as the bytes that were handed in. A store whose
//! lists were written in another encoding, such as flexbuffers, cannot be
//! read: its entries are reported as `Codec` errors.
//!
//! The modules, from the leaves up:
//!
//! - [`order`], [`bytes`]: strict total orders, sorted sequences, byte
//!   strings and big-endian numbers;
//! - [`label`], [`label_set`], [`docid`], [`posting`], [`names`]: the data
//!   of the store and their stored forms;
//! - [`model`], [`laws`]: the four trees as maps, the effect of each change
//!   on them, and what holds of them after every history of changes;
//! - [`engine`]: the calls of the key/value engine and of the id source,
//!   which are believed and not proved;
//! - [`tx`], [`bucket`], [`mango`], [`config`], [`errors`]: the changes as
//!   they run inside a transaction, buckets, the store and its settings.

pub mod bucket;
pub mod bytes;
pub mod config;
pub mod docid;
pub mod engine;
pub mod errors;
pub mod label;
pub mod label_set;
pub mod laws;
pub mod mango;
pub mod model;
pub mod names;
pub mod order;
pub mod posting;
pub mod tx;

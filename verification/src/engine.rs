//! The key/value engine and the id source, as far as the store calls them.
//!
//! Everything in this file is believed, not proved: each function hands a call
//! to `sled` or `uuid`, and its contract says what the store relies on.
//!
//! A tree outside a transaction is shared with other handles and threads, so
//! nothing is said of what a read of it returns. Inside a transaction the
//! engine holds its write lock for the whole run of the closure: the view of
//! a tree then behaves as a map of its own, which `tree_entries` names. A
//! call that records a write takes the view by `&mut`, though the engine asks
//! for less, so that its contract can speak of the entries before and after.
//!
//! Two more things have names here, because the engine's values are opaque:
//! the name under which the engine keeps a tree (`tree_label`), and the end
//! of a run of a transaction that is abandoned for a reason
//! (`aborted_with`).

use crate::bytes::starts_with;
use crate::docid::id_key;
use crate::errors::McError;
use crate::order::strictly_sorted;
use crate::tx::{transaction_step, Mutation, TxView};
use sled::transaction::{
    ConflictableTransactionError, TransactionError, TransactionalTree,
    UnabortableTransactionError,
};
use sled::Transactional;
use vstd::prelude::*;

verus! {

/// The engine: `sled::Db`.
#[verifier::external_type_specification]
#[verifier::external_body]
pub struct ExDb(sled::Db);

/// One ordered tree of the engine: `sled::Tree`.
#[verifier::external_type_specification]
#[verifier::external_body]
pub struct ExTree(sled::Tree);

/// An error of the engine: `sled::Error`.
#[verifier::external_type_specification]
#[verifier::external_body]
pub struct ExEngineError(sled::Error);

/// The view of a tree inside a transaction:
/// `sled::transaction::TransactionalTree`.
#[verifier::external_type_specification]
#[verifier::external_body]
pub struct ExTransactionalTree(TransactionalTree);

/// An error of a read or write inside a transaction:
/// `sled::transaction::UnabortableTransactionError`.
#[verifier::external_type_specification]
#[verifier::external_body]
pub struct ExUnabortableTransactionError(UnabortableTransactionError);

/// What the view of a tree holds inside a transaction: the entries of the
/// tree when the transaction began, changed by the writes made through the
/// view since.
pub uninterp spec fn tree_entries(t: TransactionalTree) -> Map<Seq<u8>, Seq<u8>>;

/// The settings of the engine: `sled::Config`.
#[verifier::external_type_specification]
#[verifier::external_body]
pub struct ExEngineConfig(sled::Config);

/// The engine's configuration for the given settings.
///
/// Trusted: `sled::Config::new` and its builder methods `mode`, `temporary`,
/// `idgen_persist_interval`, `path`, `use_compression` and
/// `compression_factor`. Nothing is claimed of the result.
#[verifier::external_body]
pub(crate) fn build_config(
    path: &str,
    temporary: bool,
    low_space: bool,
    idgen_interval: u64,
    use_compression: bool,
    compression_level: i32,
) -> sled::Config {
    sled::Config::new()
        .mode(if low_space { sled::Mode::LowSpace } else { sled::Mode::HighThroughput })
        .temporary(temporary)
        .idgen_persist_interval(idgen_interval)
        .path(path)
        .use_compression(use_compression)
        .compression_factor(compression_level)
}

/// Opens the engine.
///
/// Trusted: `sled::Config::open`. Nothing is claimed of the result.
#[verifier::external_body]
pub(crate) fn open_engine(config: &sled::Config) -> Result<sled::Db, sled::Error> {
    config.open()
}

/// Another handle to the same engine.
///
/// Trusted: `sled::Db::clone`. Nothing is claimed of the result.
pub assume_specification[ <sled::Db as Clone>::clone ](db: &sled::Db) -> sled::Db;

/// The name under which the engine keeps a tree: what `sled::Tree::name`
/// answers. A handle has it from the day it was opened.
pub uninterp spec fn tree_label(t: sled::Tree) -> Seq<u8>;

/// Another handle to the same tree.
///
/// Trusted: `sled::Tree::clone`. The new handle is to the tree of the same
/// name.
pub assume_specification[ <sled::Tree as Clone>::clone ](t: &sled::Tree) -> (r: sled::Tree)
    ensures
        tree_label(r) == tree_label(*t),
;

/// Opens the tree of the given name, creating it if there is none.
///
/// Trusted: `sled::Db::open_tree`, which hands out the tree that it keeps
/// under that name. What the tree holds is not claimed.
#[verifier::external_body]
pub(crate) fn open_tree(db: &sled::Db, name: &[u8]) -> (r: Result<sled::Tree, sled::Error>)
    ensures
        r matches Ok(t) ==> tree_label(t) == name@,
{
    db.open_tree(name)
}

/// Removes the tree of the given name.
///
/// Trusted: `sled::Db::drop_tree`, which answers whether there was such a
/// tree. Nothing is claimed of the result.
#[verifier::external_body]
pub(crate) fn drop_tree(db: &sled::Db, name: &[u8]) -> Result<bool, sled::Error> {
    db.drop_tree(name)
}

/// The names of the trees of the engine, in no particular order.
///
/// Trusted: `sled::Db::tree_names`. Nothing is claimed of the result.
#[verifier::external_body]
pub(crate) fn tree_names(db: &sled::Db) -> Vec<Vec<u8>> {
    db.tree_names().into_iter().map(|name| name.to_vec()).collect()
}

/// The next value of the engine's counter.
///
/// Trusted: `sled::Db::generate_id`. Nothing is claimed of the result.
#[verifier::external_body]
pub(crate) fn next_counter(db: &sled::Db) -> Result<u64, sled::Error> {
    db.generate_id()
}

/// A fresh document id for the given node.
///
/// Trusted: `uuid::Uuid::now_v6`, read as a number by `Uuid::as_u128`. The
/// last six bytes of a version 6 id are the node's bytes; the rest depends on
/// the clock.
#[verifier::external_body]
pub(crate) fn fresh_id(node: &[u8; 6]) -> (id: u128)
    ensures
        id_key(id).subrange(10, 16) == node@,
{
    uuid::Uuid::now_v6(node).as_u128()
}

/// Reads the value under `key` from a tree, outside any transaction.
///
/// Trusted: `sled::Tree::get`. Nothing is claimed of the result: the tree may
/// change between two reads.
#[verifier::external_body]
pub(crate) fn tree_get(t: &sled::Tree, key: &[u8]) -> Result<Option<Vec<u8>>, sled::Error> {
    t.get(key).map(|found| found.map(|v| v.to_vec()))
}

/// The keys of a tree that start with `prefix`, outside any transaction.
///
/// Trusted: `sled::Tree::scan_prefix`, which walks the keys that start with
/// the prefix in ascending order. Which keys the tree holds is not claimed.
#[verifier::external_body]
pub(crate) fn scan_prefix_keys(t: &sled::Tree, prefix: &[u8]) -> (r: Result<
    Vec<Vec<u8>>,
    sled::Error,
>)
    ensures
        r matches Ok(keys) ==> {
            &&& forall|i: int| 0 <= i < keys@.len() ==> starts_with((#[trigger] keys@[i])@, prefix@)
            &&& strictly_sorted(Seq::new(keys@.len(), |i: int| keys@[i]@))
        },
{
    t.scan_prefix(prefix).keys().map(|key| key.map(|k| k.to_vec())).collect()
}

/// Reads the value under `key` through the view of a transaction.
///
/// Trusted: `TransactionalTree::get`, which answers from the writes of this
/// transaction and else from the tree.
#[verifier::external_body]
pub(crate) fn tx_get(t: &TransactionalTree, key: &[u8]) -> (r: Result<
    Option<Vec<u8>>,
    UnabortableTransactionError,
>)
    ensures
        r matches Ok(found) ==> match found {
            Some(v) => tree_entries(*t).contains_key(key@) && tree_entries(*t)[key@] == v@,
            None => !tree_entries(*t).contains_key(key@),
        },
{
    t.get(key).map(|found| found.map(|v| v.to_vec()))
}

/// Writes `value` under `key` through the view of a transaction.
///
/// Trusted: `TransactionalTree::insert`, which reads the old value first and
/// records the write only where that read went well.
#[verifier::external_body]
pub(crate) fn tx_insert(t: &mut TransactionalTree, key: &[u8], value: Vec<u8>) -> (r: Result<
    (),
    UnabortableTransactionError,
>)
    ensures
        r is Ok ==> tree_entries(*final(t)) == tree_entries(*old(t)).insert(key@, value@),
        r is Err ==> tree_entries(*final(t)) == tree_entries(*old(t)),
{
    t.insert(key, value).map(|_| ())
}

/// Removes the entry under `key` through the view of a transaction, and
/// answers the value that was there.
///
/// Trusted: `TransactionalTree::remove`, which records the removal whether or
/// not the read of the old value went well.
#[verifier::external_body]
pub(crate) fn tx_remove(t: &mut TransactionalTree, key: &[u8]) -> (r: Result<
    Option<Vec<u8>>,
    UnabortableTransactionError,
>)
    ensures
        tree_entries(*final(t)) == tree_entries(*old(t)).remove(key@),
        r matches Ok(found) ==> match found {
            Some(v) => tree_entries(*old(t)).contains_key(key@) && tree_entries(*old(t))[key@]
                == v@,
            None => !tree_entries(*old(t)).contains_key(key@),
        },
{
    t.remove(key).map(|found| found.map(|v| v.to_vec()))
}

/// The end of a run of a transaction's closure that did not go well:
/// `sled::transaction::ConflictableTransactionError`.
#[verifier::external_type_specification]
#[verifier::external_body]
#[verifier::reject_recursive_types(T)]
pub struct ExConflictableTransactionError<T>(ConflictableTransactionError<T>);

/// The end of a run that is abandoned for the given reason: the variant
/// `Abort` of `ConflictableTransactionError` with that reason.
pub uninterp spec fn aborted_with(reason: McError) -> ConflictableTransactionError<McError>;

/// The end of a run that the store abandons for the given reason.
///
/// Trusted: the variant `Abort` of `ConflictableTransactionError`, which
/// holds the reason and no other.
#[verifier::external_body]
pub(crate) fn abandoned(reason: McError) -> (r: ConflictableTransactionError<McError>)
    ensures
        r == aborted_with(reason),
        forall|other: McError| r == #[trigger] aborted_with(other) ==> other == reason,
{
    ConflictableTransactionError::Abort(reason)
}

/// The end of a run in which a read or write of the engine failed.
///
/// Trusted: `ConflictableTransactionError::from`, which keeps a conflict a
/// conflict and a failure of the storage a failure of the storage: the
/// result is never the variant `Abort`.
#[verifier::external_body]
pub(crate) fn failed(error: UnabortableTransactionError) -> (r: ConflictableTransactionError<
    McError,
>)
    ensures
        forall|reason: McError| r != #[trigger] aborted_with(reason),
{
    ConflictableTransactionError::from(error)
}

/// Runs one change of a bucket as a transaction over its four trees.
///
/// Trusted: `sled::Transactional::transaction` on the four trees. Each run of
/// the closure gets fresh views and calls `transaction_step` on them; what
/// the last run wrote is committed as a whole if it ended well, and nothing
/// is written if it was abandoned. An error comes from the engine, or is the
/// reason for which `transaction_step` abandoned the change: that a stored
/// value could not be decoded.
#[verifier::external_body]
pub(crate) fn run_transaction(
    docs: &sled::Tree,
    labels: &sled::Tree,
    kev: &sled::Tree,
    vek: &sled::Tree,
    op: &Mutation,
) -> (r: Result<Option<Vec<u8>>, McError>)
    ensures
        r matches Err(e) ==> e == McError::Engine || e == McError::Codec,
{
    let done = (docs, labels, kev, vek).transaction(|(d, l, k, v)| {
        let mut view = TxView { docs: d.clone(), labels: l.clone(), kev: k.clone(), vek: v.clone() };
        transaction_step(&mut view, op)
    });
    match done {
        Ok(out) => Ok(out),
        Err(TransactionError::Abort(reason)) => Err(reason),
        Err(TransactionError::Storage(_)) => Err(McError::Engine),
    }
}

} // verus!

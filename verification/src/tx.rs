//! The changes of a bucket, as they run inside a transaction.
//!
//! Each change works on the views that the engine hands to a transaction. Its
//! contract says, over the entries of the four views, exactly what it has
//! written when it ends well: the effect that `model` defines.

use crate::docid::document_key;
use crate::engine::{
    abandoned, aborted_with, failed, tree_entries, tx_get, tx_insert, tx_remove,
};
use crate::label_set::{is_label_set, DocumentLabelSet};
use crate::laws::Change;
use crate::model::{
    add_effect, delete_effect, downsert_in, forward_keys, indexes_readable, insert_effect,
    lemma_downsert_step, lemma_keys_of_same_labels, lemma_keys_step, lemma_no_keys,
    lemma_upsert_step, posting_at, readable_at, remove_effect, retract_keys,
    reverse_keys, upsert_in, upsert_keys, Trees,
};
use crate::order::{lemma_sorted_seq_of};
use crate::posting::{decode_posting, encode_posting, retract_posting, upsert_posting};
use crate::errors::McError;
use sled::transaction::{
    ConflictableTransactionError, TransactionalTree, UnabortableTransactionError,
};
use vstd::prelude::*;

verus! {

/// Why a change was abandoned.
pub enum TxAbort {
    /// A stored value could not be decoded.
    Codec,
    /// A read or write of the engine failed.
    Engine(UnabortableTransactionError),
}

/// The views of the four trees of a bucket inside one transaction.
pub struct TxView {
    pub(crate) docs: TransactionalTree,
    pub(crate) labels: TransactionalTree,
    pub(crate) kev: TransactionalTree,
    pub(crate) vek: TransactionalTree,
}

impl TxView {
    /// What the four views hold.
    pub closed spec fn trees(&self) -> Trees {
        Trees {
            doc: tree_entries(self.docs),
            labels: tree_entries(self.labels),
            kev: tree_entries(self.kev),
            vek: tree_entries(self.vek),
        }
    }
}

/// A change of a bucket.
pub enum Mutation {
    /// Store a document under `id` with a payload and a label set.
    Insert { id: u128, payload: Vec<u8>, labels: DocumentLabelSet },
    /// Remove the document `id` and all that refers to it.
    Delete { id: u128 },
    /// Attach the labels to the document `id`.
    AddLabels { id: u128, labels: DocumentLabelSet },
    /// Take the labels from the document `id`.
    RemoveLabels { id: u128, labels: DocumentLabelSet },
}

/// The bytes of an optional value.
pub open spec fn bytes_of(v: Option<Vec<u8>>) -> Option<Seq<u8>> {
    match v {
        Some(b) => Some(b@),
        None => None,
    }
}

impl Mutation {
    /// This change as a value of the model.
    pub open spec fn change(&self) -> Change {
        match self {
            Mutation::Insert { id, payload, labels } => Change::Insert {
                id: *id,
                payload: payload@,
                labels: labels@,
            },
            Mutation::Delete { id } => Change::Delete { id: *id },
            Mutation::AddLabels { id, labels } => Change::AddLabels { id: *id, labels: labels@ },
            Mutation::RemoveLabels { id, labels } => Change::RemoveLabels {
                id: *id,
                labels: labels@,
            },
        }
    }

    /// The labels of this change are a label set.
    pub open spec fn labels_canonical(&self) -> bool {
        match self {
            Mutation::Insert { id, payload, labels } => is_label_set(labels@),
            Mutation::Delete { id } => true,
            Mutation::AddLabels { id, labels } => is_label_set(labels@),
            Mutation::RemoveLabels { id, labels } => is_label_set(labels@),
        }
    }

    /// The trees after this change are those after its value in the model.
    pub proof fn law_effect_is_change_effect(&self, t: Trees)
        ensures
            match self.effect(t) {
                Some((after, _)) => self.change().effect(t) == Some(after),
                None => self.change().effect(t) is None,
            },
    {
    }

    /// The trees after this change and the payload that it hands back, or
    /// `None` where the change is abandoned because a stored value that it
    /// has to read cannot be decoded.
    pub open spec fn effect(&self, t: Trees) -> Option<(Trees, Option<Seq<u8>>)> {
        match self {
            Mutation::Insert { id, payload, labels } => match insert_effect(
                t,
                *id,
                payload@,
                labels@,
            ) {
                Some(after) => Some((after, None)),
                None => None,
            },
            Mutation::Delete { id } => delete_effect(t, *id),
            Mutation::AddLabels { id, labels } => match add_effect(t, *id, labels@) {
                Some(after) => Some((after, None)),
                None => None,
            },
            Mutation::RemoveLabels { id, labels } => match remove_effect(t, *id, labels@) {
                Some(after) => Some((after, None)),
                None => None,
            },
        }
    }
}

/// Adds `id` to the posting list under `k`, creating the list if there is
/// none.
pub fn upsert_label(t: &mut TransactionalTree, k: &[u8], id: u128) -> (r: Result<(), TxAbort>)
    ensures
        r is Ok ==> readable_at(tree_entries(*old(t)), k@) && tree_entries(*final(t)) == upsert_in(
            tree_entries(*old(t)),
            k@,
            id,
        ),
        r matches Err(TxAbort::Codec) ==> !readable_at(tree_entries(*old(t)), k@),
{
    let found = match tx_get(t, k) {
        Ok(found) => found,
        Err(e) => {
            return Err(TxAbort::Engine(e));
        },
    };
    let ids: Vec<u128> = match found {
        Some(raw) => match decode_posting(raw.as_slice()) {
            Some(ids) => ids,
            None => {
                return Err(TxAbort::Codec);
            },
        },
        None => Vec::new(),
    };
    let ghost had = ids@;
    assert(had == posting_at(tree_entries(*old(t)), k@));
    let list = upsert_posting(ids, id);
    match tx_insert(t, k, encode_posting(&list)) {
        Ok(()) => Ok(()),
        Err(e) => Err(TxAbort::Engine(e)),
    }
}

/// Takes `id` out of the posting list under `k`. A list that becomes empty is
/// removed; where there is no list nothing is done.
pub fn downsert_label(t: &mut TransactionalTree, k: &[u8], id: u128) -> (r: Result<(), TxAbort>)
    ensures
        r is Ok ==> readable_at(tree_entries(*old(t)), k@) && tree_entries(*final(t))
            == downsert_in(tree_entries(*old(t)), k@, id),
        r matches Err(TxAbort::Codec) ==> !readable_at(tree_entries(*old(t)), k@),
{
    let found = match tx_get(t, k) {
        Ok(found) => found,
        Err(e) => {
            return Err(TxAbort::Engine(e));
        },
    };
    let raw = match found {
        Some(raw) => raw,
        None => {
            return Ok(());
        },
    };
    let ids = match decode_posting(raw.as_slice()) {
        Some(ids) => ids,
        None => {
            return Err(TxAbort::Codec);
        },
    };
    let rest = retract_posting(&ids, id);
    if rest.len() == 0 {
        match tx_remove(t, k) {
            Ok(_) => Ok(()),
            Err(e) => Err(TxAbort::Engine(e)),
        }
    } else {
        match tx_insert(t, k, encode_posting(&rest)) {
            Ok(()) => Ok(()),
            Err(e) => Err(TxAbort::Engine(e)),
        }
    }
}

/// Adds `id` to the posting lists of all the labels, in both indexes.
pub fn upsert_labels(view: &mut TxView, labels: &DocumentLabelSet, id: u128) -> (r: Result<
    (),
    TxAbort,
>)
    ensures
        r is Ok ==> indexes_readable(old(view).trees(), labels@) && final(view).trees() == (Trees {
            kev: upsert_keys(old(view).trees().kev, forward_keys(labels@), id),
            vek: upsert_keys(old(view).trees().vek, reverse_keys(labels@), id),
            ..old(view).trees()
        }),
        r matches Err(TxAbort::Codec) ==> !indexes_readable(old(view).trees(), labels@),
{
    let ghost before = view.trees();
    let ghost ls = labels@;
    let n = labels.len();
    let mut i: usize = 0;
    proof {
        lemma_no_keys(before.kev, id);
        lemma_no_keys(before.vek, id);
        if n > 0 {
            lemma_keys_step(ls, 0);
        } else {
            assert(forward_keys(ls.take(0)) =~= Set::<Seq<u8>>::empty());
            assert(reverse_keys(ls.take(0)) =~= Set::<Seq<u8>>::empty());
        }
    }
    while i < n
        invariant
            i <= n,
            n == ls.len(),
            ls == labels@,
            before == old(view).trees(),
            view.trees().doc == before.doc,
            view.trees().labels == before.labels,
            view.trees().kev == upsert_keys(before.kev, forward_keys(ls.take(i as int)), id),
            view.trees().vek == upsert_keys(before.vek, reverse_keys(ls.take(i as int)), id),
            indexes_readable(before, ls.take(i as int)),
        decreases n - i,
    {
        let label = labels.get(i).unwrap();
        let f = label.as_bytes();
        let b = label.as_bytes_rev();
        proof {
            lemma_keys_step(ls, i as int);
            if readable_at(before.kev, f@) {
                lemma_upsert_step(before.kev, forward_keys(ls.take(i as int)), f@, id);
            }
            if readable_at(before.vek, b@) {
                lemma_upsert_step(before.vek, reverse_keys(ls.take(i as int)), b@, id);
            }
            lemma_unchanged_or_readable(before.kev, forward_keys(ls.take(i as int)), f@, id);
            lemma_unchanged_or_readable(before.vek, reverse_keys(ls.take(i as int)), b@, id);
        }
        match upsert_label(&mut view.kev, f.as_slice(), id) {
            Ok(()) => {},
            Err(e) => {
                proof {
                    if e is Codec {
                        assert(!readable_at(before.kev, f@));
                        assert(forward_keys(ls).contains(f@));
                    }
                }
                return Err(e);
            },
        }
        match upsert_label(&mut view.vek, b.as_slice(), id) {
            Ok(()) => {},
            Err(e) => {
                proof {
                    if e is Codec {
                        assert(!readable_at(before.vek, b@));
                        assert(reverse_keys(ls).contains(b@));
                    }
                }
                return Err(e);
            },
        }
        i = i + 1;
    }
    proof {
        assert(ls.take(i as int) =~= ls);
        assert(view.trees() == (Trees {
            kev: upsert_keys(before.kev, forward_keys(ls), id),
            vek: upsert_keys(before.vek, reverse_keys(ls), id),
            ..before
        }));
    }
    Ok(())
}

/// Takes `id` out of the posting lists of all the labels, in both indexes.
pub fn downsert_labels(view: &mut TxView, labels: &DocumentLabelSet, id: u128) -> (r: Result<
    (),
    TxAbort,
>)
    ensures
        r is Ok ==> indexes_readable(old(view).trees(), labels@) && final(view).trees() == (Trees {
            kev: retract_keys(old(view).trees().kev, forward_keys(labels@), id),
            vek: retract_keys(old(view).trees().vek, reverse_keys(labels@), id),
            ..old(view).trees()
        }),
        r matches Err(TxAbort::Codec) ==> !indexes_readable(old(view).trees(), labels@),
{
    let ghost before = view.trees();
    let ghost ls = labels@;
    let n = labels.len();
    let mut i: usize = 0;
    proof {
        lemma_no_keys(before.kev, id);
        lemma_no_keys(before.vek, id);
        if n > 0 {
            lemma_keys_step(ls, 0);
        } else {
            assert(forward_keys(ls.take(0)) =~= Set::<Seq<u8>>::empty());
            assert(reverse_keys(ls.take(0)) =~= Set::<Seq<u8>>::empty());
        }
    }
    while i < n
        invariant
            i <= n,
            n == ls.len(),
            ls == labels@,
            before == old(view).trees(),
            view.trees().doc == before.doc,
            view.trees().labels == before.labels,
            view.trees().kev == retract_keys(before.kev, forward_keys(ls.take(i as int)), id),
            view.trees().vek == retract_keys(before.vek, reverse_keys(ls.take(i as int)), id),
            indexes_readable(before, ls.take(i as int)),
        decreases n - i,
    {
        let label = labels.get(i).unwrap();
        let f = label.as_bytes();
        let b = label.as_bytes_rev();
        proof {
            lemma_keys_step(ls, i as int);
            if readable_at(before.kev, f@) {
                lemma_downsert_step(before.kev, forward_keys(ls.take(i as int)), f@, id);
            }
            if readable_at(before.vek, b@) {
                lemma_downsert_step(before.vek, reverse_keys(ls.take(i as int)), b@, id);
            }
            lemma_unchanged_or_readable(before.kev, forward_keys(ls.take(i as int)), f@, id);
            lemma_unchanged_or_readable(before.vek, reverse_keys(ls.take(i as int)), b@, id);
        }
        match downsert_label(&mut view.kev, f.as_slice(), id) {
            Ok(()) => {},
            Err(e) => {
                proof {
                    if e is Codec {
                        assert(!readable_at(before.kev, f@));
                        assert(forward_keys(ls).contains(f@));
                    }
                }
                return Err(e);
            },
        }
        match downsert_label(&mut view.vek, b.as_slice(), id) {
            Ok(()) => {},
            Err(e) => {
                proof {
                    if e is Codec {
                        assert(!readable_at(before.vek, b@));
                        assert(reverse_keys(ls).contains(b@));
                    }
                }
                return Err(e);
            },
        }
        i = i + 1;
    }
    proof {
        assert(ls.take(i as int) =~= ls);
        assert(view.trees() == (Trees {
            kev: retract_keys(before.kev, forward_keys(ls), id),
            vek: retract_keys(before.vek, reverse_keys(ls), id),
            ..before
        }));
    }
    Ok(())
}

/// A value that cannot be read after some keys were worked on could not be
/// read before: the keys that were worked on hold readable lists, and no
/// other entry was touched.
proof fn lemma_unchanged_or_readable(
    tree: Map<Seq<u8>, Seq<u8>>,
    keys: Set<Seq<u8>>,
    k: Seq<u8>,
    id: u128,
)
    requires
        forall|x: Seq<u8>| keys.contains(x) ==> readable_at(tree, x),
    ensures
        !readable_at(upsert_keys(tree, keys, id), k) ==> !readable_at(tree, k),
        !readable_at(retract_keys(tree, keys, id), k) ==> !readable_at(tree, k),
{
    if readable_at(tree, k) {
        lemma_upsert_step(tree, keys, k, id);
        lemma_downsert_step(tree, keys, k, id);
    }
}

/// Stores a document: its payload, its label set, and its id in the posting
/// lists of its labels.
pub fn insert_in(view: &mut TxView, id: u128, payload: &Vec<u8>, labels: &DocumentLabelSet) -> (r:
    Result<(), TxAbort>)
    ensures
        r is Ok ==> insert_effect(old(view).trees(), id, payload@, labels@) == Some(
            final(view).trees(),
        ),
        r matches Err(TxAbort::Codec) ==> insert_effect(old(view).trees(), id, payload@, labels@)
            is None,
{
    let key = document_key(id);
    let mut value: Vec<u8> = Vec::new();
    value.extend_from_slice(payload.as_slice());
    proof {
        assert(value@ =~= payload@);
    }
    match tx_insert(&mut view.docs, key.as_slice(), value) {
        Ok(()) => {},
        Err(e) => {
            return Err(TxAbort::Engine(e));
        },
    }
    match tx_insert(&mut view.labels, key.as_slice(), labels.encode()) {
        Ok(()) => {},
        Err(e) => {
            return Err(TxAbort::Engine(e));
        },
    }
    upsert_labels(view, labels, id)
}

/// Removes a document, its label set, and its id from the posting lists of
/// its labels. Hands back the payload that the document had.
pub fn delete_in(view: &mut TxView, id: u128) -> (r: Result<Option<Vec<u8>>, TxAbort>)
    ensures
        r matches Ok(out) ==> delete_effect(old(view).trees(), id) == Some(
            (final(view).trees(), bytes_of(out)),
        ),
        r matches Err(TxAbort::Codec) ==> delete_effect(old(view).trees(), id) is None,
{
    let ghost before = view.trees();
    let key = document_key(id);
    let payload = match tx_remove(&mut view.docs, key.as_slice()) {
        Ok(found) => found,
        Err(e) => {
            return Err(TxAbort::Engine(e));
        },
    };
    let stored = match tx_remove(&mut view.labels, key.as_slice()) {
        Ok(found) => found,
        Err(e) => {
            return Err(TxAbort::Engine(e));
        },
    };
    let raw = match stored {
        Some(raw) => raw,
        None => {
            proof {
                assert(view.trees().labels =~= before.labels);
            }
            return Ok(payload);
        },
    };
    let labels = match DocumentLabelSet::decode(raw.as_slice()) {
        Some(labels) => labels,
        None => {
            return Err(TxAbort::Codec);
        },
    };
    proof {
        let ls = crate::label_set::label_set_of(before.labels[key@])->Some_0;
        vstd::seq_lib::seq_to_set_is_finite(ls);
        lemma_sorted_seq_of(ls.to_set());
        lemma_keys_of_same_labels(labels@, ls);
    }
    match downsert_labels(view, &labels, id) {
        Ok(()) => Ok(payload),
        Err(e) => Err(e),
    }
}

/// Attaches labels to a document that has a label set; does nothing where it
/// has none.
pub fn add_labels_in(view: &mut TxView, id: u128, labels: &DocumentLabelSet) -> (r: Result<
    (),
    TxAbort,
>)
    ensures
        r is Ok ==> add_effect(old(view).trees(), id, labels@) == Some(final(view).trees()),
        r matches Err(TxAbort::Codec) ==> add_effect(old(view).trees(), id, labels@) is None,
{
    let ghost before = view.trees();
    let key = document_key(id);
    let stored = match tx_get(&view.labels, key.as_slice()) {
        Ok(found) => found,
        Err(e) => {
            return Err(TxAbort::Engine(e));
        },
    };
    let raw = match stored {
        Some(raw) => raw,
        None => {
            return Ok(());
        },
    };
    let had = match DocumentLabelSet::decode(raw.as_slice()) {
        Some(had) => had,
        None => {
            return Err(TxAbort::Codec);
        },
    };
    let merged = had.merged(labels);
    proof {
        let ls = crate::label_set::label_set_of(before.labels[key@])->Some_0;
        vstd::seq_lib::seq_to_set_is_finite(ls);
        lemma_sorted_seq_of(ls.to_set());
    }
    match tx_insert(&mut view.labels, key.as_slice(), merged.encode()) {
        Ok(()) => {},
        Err(e) => {
            return Err(TxAbort::Engine(e));
        },
    }
    upsert_labels(view, labels, id)
}

/// Takes labels from a document that has a label set; does nothing where it
/// has none.
pub fn remove_labels_in(view: &mut TxView, id: u128, labels: &DocumentLabelSet) -> (r: Result<
    (),
    TxAbort,
>)
    ensures
        r is Ok ==> remove_effect(old(view).trees(), id, labels@) == Some(final(view).trees()),
        r matches Err(TxAbort::Codec) ==> remove_effect(old(view).trees(), id, labels@) is None,
{
    let ghost before = view.trees();
    let key = document_key(id);
    let stored = match tx_get(&view.labels, key.as_slice()) {
        Ok(found) => found,
        Err(e) => {
            return Err(TxAbort::Engine(e));
        },
    };
    let raw = match stored {
        Some(raw) => raw,
        None => {
            return Ok(());
        },
    };
    let had = match DocumentLabelSet::decode(raw.as_slice()) {
        Some(had) => had,
        None => {
            return Err(TxAbort::Codec);
        },
    };
    let rest = had.without(labels);
    proof {
        let ls = crate::label_set::label_set_of(before.labels[key@])->Some_0;
        vstd::seq_lib::seq_to_set_is_finite(ls);
        lemma_sorted_seq_of(ls.to_set());
    }
    match tx_insert(&mut view.labels, key.as_slice(), rest.encode()) {
        Ok(()) => {},
        Err(e) => {
            return Err(TxAbort::Engine(e));
        },
    }
    downsert_labels(view, labels, id)
}

/// Carries out one change on the views of a transaction.
///
/// When it ends well the views hold exactly the effect of the change on what
/// they held before. It is abandoned with `Codec` only where the effect is
/// undefined, that is, where a stored value that the change has to read
/// cannot be decoded. The labels of a change are always a label set.
pub fn apply(view: &mut TxView, op: &Mutation) -> (r: Result<Option<Vec<u8>>, TxAbort>)
    ensures
        r matches Ok(out) ==> op.effect(old(view).trees()) == Some(
            (final(view).trees(), bytes_of(out)),
        ),
        r matches Err(TxAbort::Codec) ==> op.effect(old(view).trees()) is None,
        op.labels_canonical(),
{
    match op {
        Mutation::Insert { id, payload, labels } => {
            let _count: usize = labels.len();
            match insert_in(view, *id, payload, labels) {
                Ok(()) => Ok(None),
                Err(e) => Err(e),
            }
        },
        Mutation::Delete { id } => delete_in(view, *id),
        Mutation::AddLabels { id, labels } => {
            let _count: usize = labels.len();
            match add_labels_in(view, *id, labels) {
                Ok(()) => Ok(None),
                Err(e) => Err(e),
            }
        },
        Mutation::RemoveLabels { id, labels } => {
            let _count: usize = labels.len();
            match remove_labels_in(view, *id, labels) {
                Ok(()) => Ok(None),
                Err(e) => Err(e),
            }
        },
    }
}

/// One run of the closure of a transaction: carries out the change, and
/// tells the engine how the run ended. A run that could not decode a stored
/// value is abandoned for that reason; a failure of the engine is handed back
/// to the engine.
///
/// A run that ends well has written exactly the effect of the change. A run
/// is abandoned for no other reason than `Codec`, and for that one only
/// where the effect of the change is undefined.
pub fn transaction_step(view: &mut TxView, op: &Mutation) -> (r: Result<
    Option<Vec<u8>>,
    ConflictableTransactionError<McError>,
>)
    ensures
        r matches Ok(out) ==> op.effect(old(view).trees()) == Some(
            (final(view).trees(), bytes_of(out)),
        ),
        r matches Err(e) ==> forall|reason: McError|
            e == #[trigger] aborted_with(reason) ==> reason == McError::Codec && op.effect(
                old(view).trees(),
            ) is None,
{
    match apply(view, op) {
        Ok(out) => Ok(out),
        Err(TxAbort::Codec) => Err(abandoned(McError::Codec)),
        Err(TxAbort::Engine(e)) => Err(failed(e)),
    }
}

} // verus!

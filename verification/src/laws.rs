//! What holds of the trees of a bucket after every committed change.
//!
//! A bucket starts with four empty trees and changes only by the effects that
//! `model` defines. `consistent` says what then holds of the trees, and the
//! laws of this file are proved of every state that a history of changes
//! leads to.

use crate::docid::{id_key, lemma_id_key_injective};
use crate::label::{
    lemma_forms_are_injective, lemma_forward_of_parse_forward, lemma_parse_forward_of_forward,
    lemma_parse_reverse_of_reverse, lemma_reverse_of_parse_reverse, parse_forward, parse_reverse,
    LabelModel,
};
use crate::label_set::{
    is_label_set, label_set_of, lemma_label_set_of_bytes,
    lemma_stored_labels_well_formed,
};
use crate::model::{
    add_effect, delete_effect, forward_keys, indexes_readable, insert_effect, lookup, posting_at,
    readable_at, remove_effect, retract_keys, reverse_keys, upsert_keys, Trees,
};
use crate::order::{
    lemma_sorted_seq_of, lemma_sorted_unique, sorted_seq_of,
    strictly_sorted,
};
use crate::posting::{
    common_ids, lemma_bytes_of_posting, lemma_common_ids_finite, lemma_posting_of_bytes,
    lemma_retracted, posting_of, retracted, upserted,
};
use vstd::prelude::*;

verus! {

/// The document `id` has a label set, and `l` is in it.
pub open spec fn carries(t: Trees, id: u128, l: LabelModel) -> bool {
    &&& t.labels.contains_key(id_key(id))
    &&& label_set_of(t.labels[id_key(id)]) is Some
    &&& label_set_of(t.labels[id_key(id)])->Some_0.contains(l)
}

/// The posting list under `k` is there and holds `id`.
pub open spec fn lists(tree: Map<Seq<u8>, Seq<u8>>, k: Seq<u8>, id: u128) -> bool {
    tree.contains_key(k) && posting_at(tree, k).contains(id)
}

/// Every posting list of the tree can be read, is strictly sorted and is not
/// empty.
pub open spec fn postings_canonical(tree: Map<Seq<u8>, Seq<u8>>) -> bool {
    forall|k: Seq<u8>| #[trigger]
        tree.contains_key(k) ==> {
            &&& posting_of(tree[k]) is Some
            &&& strictly_sorted(posting_at(tree, k))
            &&& posting_at(tree, k).len() > 0
        }
}

/// Every stored label set can be read and is strictly sorted, and its labels
/// are well formed.
pub open spec fn label_sets_canonical(tree: Map<Seq<u8>, Seq<u8>>) -> bool {
    forall|k: Seq<u8>| #[trigger]
        tree.contains_key(k) ==> {
            &&& label_set_of(tree[k]) is Some
            &&& is_label_set(label_set_of(tree[k])->Some_0)
        }
}

/// A document is there exactly when its label set is.
pub open spec fn co_present(t: Trees) -> bool {
    forall|id: u128|
        t.doc.contains_key(#[trigger] id_key(id)) <==> t.labels.contains_key(id_key(id))
}

/// A document carries a label exactly when both posting lists of the label
/// hold the document.
pub open spec fn edges_agree(t: Trees) -> bool {
    forall|id: u128, l: LabelModel|
        l.well_formed() ==> {
            &&& #[trigger] carries(t, id, l) <==> lists(t.kev, l.forward(), id)
            &&& carries(t, id, l) <==> lists(t.vek, l.reverse(), id)
        }
}

/// Every key of the key-first index is the forward form of a label, and
/// every key of the value-first index is the reverse form of one.
pub open spec fn keys_are_forms(t: Trees) -> bool {
    &&& forall|k: Seq<u8>| #[trigger] t.kev.contains_key(k) ==> parse_forward(k) is Ok
    &&& forall|k: Seq<u8>| #[trigger] t.vek.contains_key(k) ==> parse_reverse(k) is Ok
}

/// What holds of the trees of a bucket between two changes.
pub open spec fn consistent(t: Trees) -> bool {
    &&& co_present(t)
    &&& label_sets_canonical(t.labels)
    &&& postings_canonical(t.kev)
    &&& postings_canonical(t.vek)
    &&& keys_are_forms(t)
    &&& edges_agree(t)
}

/// The trees of a bucket that holds nothing.
pub open spec fn empty_trees() -> Trees {
    Trees { doc: Map::empty(), labels: Map::empty(), kev: Map::empty(), vek: Map::empty() }
}

/// A change of a bucket, as a value of the model.
pub enum Change {
    /// Store a document under `id`.
    Insert { id: u128, payload: Seq<u8>, labels: Seq<LabelModel> },
    /// Remove the document `id`.
    Delete { id: u128 },
    /// Attach labels to the document `id`.
    AddLabels { id: u128, labels: Seq<LabelModel> },
    /// Take labels from the document `id`.
    RemoveLabels { id: u128, labels: Seq<LabelModel> },
}

impl Change {
    /// The change can be made on `t`: its labels are a label set, and a
    /// document is inserted under an id that is not in use.
    pub open spec fn admissible(self, t: Trees) -> bool {
        match self {
            Change::Insert { id, payload, labels } => is_label_set(labels) && !t.doc.contains_key(
                id_key(id),
            ),
            Change::Delete { id } => true,
            Change::AddLabels { id, labels } => is_label_set(labels),
            Change::RemoveLabels { id, labels } => is_label_set(labels),
        }
    }

    /// The trees after the change; `None` where it is abandoned.
    pub open spec fn effect(self, t: Trees) -> Option<Trees> {
        match self {
            Change::Insert { id, payload, labels } => insert_effect(t, id, payload, labels),
            Change::Delete { id } => match delete_effect(t, id) {
                Some((after, _)) => Some(after),
                None => None,
            },
            Change::AddLabels { id, labels } => add_effect(t, id, labels),
            Change::RemoveLabels { id, labels } => remove_effect(t, id, labels),
        }
    }
}

/// The trees that a history of changes leads to from the empty bucket. A
/// change that is abandoned leaves the trees as they were. `None` where a
/// change of the history is not admissible.
pub open spec fn state_after(history: Seq<Change>) -> Option<Trees>
    decreases history.len(),
{
    if history.len() == 0 {
        Some(empty_trees())
    } else {
        match state_after(history.drop_last()) {
            None => None,
            Some(t) => if history.last().admissible(t) {
                match history.last().effect(t) {
                    Some(after) => Some(after),
                    None => Some(t),
                }
            } else {
                None
            },
        }
    }
}

/// What a posting index holds under `k` after `id` was added under `keys`.
pub proof fn lemma_posting_after_upsert(
    tree: Map<Seq<u8>, Seq<u8>>,
    keys: Set<Seq<u8>>,
    id: u128,
    k: Seq<u8>,
)
    ensures
        keys.contains(k) ==> {
            &&& upsert_keys(tree, keys, id).contains_key(k)
            &&& posting_of(upsert_keys(tree, keys, id)[k]) is Some
            &&& posting_at(upsert_keys(tree, keys, id), k) == upserted(posting_at(tree, k), id)
            &&& strictly_sorted(upserted(posting_at(tree, k), id))
            &&& upserted(posting_at(tree, k), id).len() > 0
            &&& forall|x: u128|
                #![trigger upserted(posting_at(tree, k), id).contains(x)]
                upserted(posting_at(tree, k), id).contains(x) <==> x == id || posting_at(
                    tree,
                    k,
                ).contains(x)
        },
        !keys.contains(k) ==> {
            &&& upsert_keys(tree, keys, id).contains_key(k) == tree.contains_key(k)
            &&& posting_at(upsert_keys(tree, keys, id), k) == posting_at(tree, k)
            &&& (tree.contains_key(k) ==> upsert_keys(tree, keys, id)[k] == tree[k])
        },
{
    if keys.contains(k) {
        let had = posting_at(tree, k);
        let list = upserted(had, id);
        lemma_posting_of_bytes(list);
        vstd::seq_lib::seq_to_set_is_finite(had);
        lemma_sorted_seq_of(had.to_set().insert(id));
        assert forall|x: u128| list.contains(x) <==> x == id || had.contains(x) by {
            let s = had.to_set().insert(id);
            assert(list.to_set().contains(x) <==> list.contains(x));
            assert(list.to_set().contains(x) <==> s.contains(x));
            assert(had.to_set().contains(x) <==> had.contains(x));
        }
        assert(list.contains(id));
    }
}

/// What a posting index holds under `k` after `id` was taken out under
/// `keys`.
pub proof fn lemma_posting_after_retract(
    tree: Map<Seq<u8>, Seq<u8>>,
    keys: Set<Seq<u8>>,
    id: u128,
    k: Seq<u8>,
)
    ensures
        keys.contains(k) ==> {
            &&& retract_keys(tree, keys, id).contains_key(k) == (tree.contains_key(k) && retracted(
                posting_at(tree, k),
                id,
            ).len() > 0)
            &&& (retract_keys(tree, keys, id).contains_key(k) ==> posting_of(
                retract_keys(tree, keys, id)[k],
            ) is Some)
            &&& (retract_keys(tree, keys, id).contains_key(k) ==> posting_at(
                retract_keys(tree, keys, id),
                k,
            ) == retracted(posting_at(tree, k), id))
            &&& forall|x: u128|
                #![trigger retracted(posting_at(tree, k), id).contains(x)]
                retracted(posting_at(tree, k), id).contains(x) <==> x != id && posting_at(
                    tree,
                    k,
                ).contains(x)
            &&& (strictly_sorted(posting_at(tree, k)) ==> strictly_sorted(
                retracted(posting_at(tree, k), id),
            ))
        },
        !keys.contains(k) ==> {
            &&& retract_keys(tree, keys, id).contains_key(k) == tree.contains_key(k)
            &&& posting_at(retract_keys(tree, keys, id), k) == posting_at(tree, k)
            &&& (tree.contains_key(k) ==> retract_keys(tree, keys, id)[k] == tree[k])
        },
{
    if keys.contains(k) {
        let had = posting_at(tree, k);
        let rest = retracted(had, id);
        lemma_posting_of_bytes(rest);
        lemma_retracted(had, id);
    }
}

/// A well-formed label is among the forward forms, and among the reverse
/// forms, of a sequence of well-formed labels exactly when it is in the
/// sequence.
pub proof fn lemma_form_in_keys(ls: Seq<LabelModel>, l: LabelModel)
    requires
        l.well_formed(),
        forall|m: LabelModel| ls.contains(m) ==> m.well_formed(),
    ensures
        forward_keys(ls).contains(l.forward()) <==> ls.contains(l),
        reverse_keys(ls).contains(l.reverse()) <==> ls.contains(l),
{
    if forward_keys(ls).contains(l.forward()) {
        let i = choose|i: int| 0 <= i < ls.len() && #[trigger] ls[i].forward() == l.forward();
        assert(ls.contains(ls[i]));
        lemma_forms_are_injective(ls[i], l);
    }
    if reverse_keys(ls).contains(l.reverse()) {
        let i = choose|i: int| 0 <= i < ls.len() && #[trigger] ls[i].reverse() == l.reverse();
        assert(ls.contains(ls[i]));
        lemma_forms_are_injective(ls[i], l);
    }
    if ls.contains(l) {
        let i = choose|i: int| 0 <= i < ls.len() && ls[i] == l;
        assert(ls[i].forward() == l.forward());
        assert(ls[i].reverse() == l.reverse());
    }
}

/// In a consistent state every posting list can be read, so no change is
/// abandoned.
pub proof fn lemma_consistent_is_readable(t: Trees, ls: Seq<LabelModel>)
    requires
        consistent(t),
    ensures
        indexes_readable(t, ls),
{
    assert forall|k: Seq<u8>| forward_keys(ls).contains(k) implies readable_at(t.kev, k) by {
        if t.kev.contains_key(k) {
        }
    }
    assert forall|k: Seq<u8>| reverse_keys(ls).contains(k) implies readable_at(t.vek, k) by {
        if t.vek.contains_key(k) {
        }
    }
}

/// The empty bucket is consistent.
pub proof fn lemma_empty_is_consistent()
    ensures
        consistent(empty_trees()),
{
    let t = empty_trees();
    assert forall|id: u128, l: LabelModel| l.well_formed() implies (#[trigger] carries(t, id, l)
        <==> lists(t.kev, l.forward(), id)) && (carries(t, id, l) <==> lists(
        t.vek,
        l.reverse(),
        id,
    )) by {}
}

/// Adding an id under some keys keeps the posting lists readable, sorted and
/// not empty.
pub proof fn lemma_upsert_keeps_canonical(tree: Map<Seq<u8>, Seq<u8>>, keys: Set<Seq<u8>>, id: u128)
    requires
        postings_canonical(tree),
    ensures
        postings_canonical(upsert_keys(tree, keys, id)),
{
    let after = upsert_keys(tree, keys, id);
    assert forall|k: Seq<u8>| #[trigger] after.contains_key(k) implies posting_of(after[k]) is Some
        && strictly_sorted(posting_at(after, k)) && posting_at(after, k).len() > 0 by {
        lemma_posting_after_upsert(tree, keys, id, k);
        if !keys.contains(k) {
            assert(tree.contains_key(k));
        }
    }
}

/// Taking an id out under some keys keeps the posting lists readable, sorted
/// and not empty.
pub proof fn lemma_retract_keeps_canonical(
    tree: Map<Seq<u8>, Seq<u8>>,
    keys: Set<Seq<u8>>,
    id: u128,
)
    requires
        postings_canonical(tree),
    ensures
        postings_canonical(retract_keys(tree, keys, id)),
{
    let after = retract_keys(tree, keys, id);
    assert forall|k: Seq<u8>| #[trigger] after.contains_key(k) implies posting_of(after[k]) is Some
        && strictly_sorted(posting_at(after, k)) && posting_at(after, k).len() > 0 by {
        lemma_posting_after_retract(tree, keys, id, k);
        assert(tree.contains_key(k));
    }
}

/// The index keys stay forms of labels when ids are added under the forms of
/// well-formed labels.
pub proof fn lemma_upsert_keeps_forms(t: Trees, labels: Seq<LabelModel>, id: u128)
    requires
        keys_are_forms(t),
        forall|m: LabelModel| labels.contains(m) ==> m.well_formed(),
    ensures
        keys_are_forms(
            Trees {
                kev: upsert_keys(t.kev, forward_keys(labels), id),
                vek: upsert_keys(t.vek, reverse_keys(labels), id),
                ..t
            },
        ),
{
    let kev = upsert_keys(t.kev, forward_keys(labels), id);
    let vek = upsert_keys(t.vek, reverse_keys(labels), id);
    assert forall|k: Seq<u8>| #[trigger] kev.contains_key(k) implies parse_forward(k) is Ok by {
        if forward_keys(labels).contains(k) {
            let i = choose|i: int| 0 <= i < labels.len() && #[trigger] labels[i].forward() == k;
            assert(labels.contains(labels[i]));
            lemma_parse_forward_of_forward(labels[i]);
        } else {
            assert(t.kev.contains_key(k));
        }
    }
    assert forall|k: Seq<u8>| #[trigger] vek.contains_key(k) implies parse_reverse(k) is Ok by {
        if reverse_keys(labels).contains(k) {
            let i = choose|i: int| 0 <= i < labels.len() && #[trigger] labels[i].reverse() == k;
            assert(labels.contains(labels[i]));
            lemma_parse_reverse_of_reverse(labels[i]);
        } else {
            assert(t.vek.contains_key(k));
        }
    }
}

/// The index keys stay forms of labels when ids are taken out.
pub proof fn lemma_retract_keeps_forms(t: Trees, labels: Seq<LabelModel>, id: u128)
    requires
        keys_are_forms(t),
    ensures
        keys_are_forms(
            Trees {
                kev: retract_keys(t.kev, forward_keys(labels), id),
                vek: retract_keys(t.vek, reverse_keys(labels), id),
                ..t
            },
        ),
{
    let kev = retract_keys(t.kev, forward_keys(labels), id);
    let vek = retract_keys(t.vek, reverse_keys(labels), id);
    assert forall|k: Seq<u8>| #[trigger] kev.contains_key(k) implies parse_forward(k) is Ok by {
        assert(t.kev.contains_key(k));
    }
    assert forall|k: Seq<u8>| #[trigger] vek.contains_key(k) implies parse_reverse(k) is Ok by {
        assert(t.vek.contains_key(k));
    }
}

/// An insert under an id that is not in use keeps a bucket consistent, and
/// is not abandoned.
pub proof fn lemma_insert_keeps_consistent(
    t: Trees,
    id: u128,
    payload: Seq<u8>,
    labels: Seq<LabelModel>,
)
    requires
        consistent(t),
        is_label_set(labels),
        !t.doc.contains_key(id_key(id)),
    ensures
        insert_effect(t, id, payload, labels) is Some,
        consistent(insert_effect(t, id, payload, labels)->Some_0),
{
    lemma_consistent_is_readable(t, labels);
    let after = insert_effect(t, id, payload, labels)->Some_0;
    let key = id_key(id);
    let fk = forward_keys(labels);
    let rk = reverse_keys(labels);
    lemma_label_set_of_bytes(labels);
    assert(!t.labels.contains_key(key));
    assert(co_present(after)) by {
        assert forall|x: u128|
            after.doc.contains_key(#[trigger] id_key(x)) <==> after.labels.contains_key(
                id_key(x),
            ) by {
            assert(t.doc.contains_key(id_key(x)) <==> t.labels.contains_key(id_key(x)));
        }
    }
    assert(label_sets_canonical(after.labels)) by {
        assert forall|k: Seq<u8>| #[trigger] after.labels.contains_key(k) implies label_set_of(
            after.labels[k],
        ) is Some && is_label_set(label_set_of(after.labels[k])->Some_0) by {
            if k != key {
                assert(t.labels.contains_key(k));
            }
        }
    }
    lemma_upsert_keeps_canonical(t.kev, fk, id);
    lemma_upsert_keeps_canonical(t.vek, rk, id);
    lemma_upsert_keeps_forms(t, labels, id);
    assert(keys_are_forms(after)) by {
        let shown = Trees { kev: after.kev, vek: after.vek, ..t };
        assert(keys_are_forms(shown));
        assert forall|k: Seq<u8>| #[trigger] after.kev.contains_key(k) implies parse_forward(
            k,
        ) is Ok by {
            assert(shown.kev.contains_key(k));
        }
        assert forall|k: Seq<u8>| #[trigger] after.vek.contains_key(k) implies parse_reverse(
            k,
        ) is Ok by {
            assert(shown.vek.contains_key(k));
        }
    }
    assert(edges_agree(after)) by {
        assert forall|x: u128, l: LabelModel| l.well_formed() implies (#[trigger] carries(
            after,
            x,
            l,
        ) <==> lists(after.kev, l.forward(), x)) && (carries(after, x, l) <==> lists(
            after.vek,
            l.reverse(),
            x,
        )) by {
            lemma_form_in_keys(labels, l);
            lemma_lists_after_upsert(t.kev, fk, id, l.forward(), x);
            lemma_lists_after_upsert(t.vek, rk, id, l.reverse(), x);
            assert(carries(t, x, l) <==> lists(t.kev, l.forward(), x));
            assert(carries(t, x, l) <==> lists(t.vek, l.reverse(), x));
            if x == id {
                assert(!carries(t, x, l));
                assert(carries(after, x, l) <==> labels.contains(l));
            } else {
                if id_key(x) == key {
                    lemma_id_key_injective(x, id);
                }
                assert(carries(after, x, l) <==> carries(t, x, l));
            }
        }
    }
}

/// A delete keeps a bucket consistent, and is not abandoned.
pub proof fn lemma_delete_keeps_consistent(t: Trees, id: u128)
    requires
        consistent(t),
    ensures
        delete_effect(t, id) is Some,
        consistent(delete_effect(t, id)->Some_0.0),
{
    let key = id_key(id);
    if !t.labels.contains_key(key) {
        let after = delete_effect(t, id)->Some_0.0;
        assert(!t.doc.contains_key(key));
        assert(after.doc =~= t.doc);
        assert(after == t);
    } else {
        let ls = label_set_of(t.labels[key])->Some_0;
        lemma_consistent_is_readable(t, ls);
        let after = delete_effect(t, id)->Some_0.0;
        let fk = forward_keys(ls);
        let rk = reverse_keys(ls);
        assert(co_present(after)) by {
            assert forall|x: u128|
                after.doc.contains_key(#[trigger] id_key(x)) <==> after.labels.contains_key(
                    id_key(x),
                ) by {
                assert(t.doc.contains_key(id_key(x)) <==> t.labels.contains_key(id_key(x)));
            }
        }
        assert(label_sets_canonical(after.labels)) by {
            assert forall|k: Seq<u8>| #[trigger]
                after.labels.contains_key(k) implies label_set_of(after.labels[k]) is Some
                && is_label_set(label_set_of(after.labels[k])->Some_0) by {
                assert(t.labels.contains_key(k));
            }
        }
        lemma_retract_keeps_canonical(t.kev, fk, id);
        lemma_retract_keeps_canonical(t.vek, rk, id);
        lemma_retract_keeps_forms(t, ls, id);
        assert(keys_are_forms(after)) by {
            let shown = Trees { kev: after.kev, vek: after.vek, ..t };
            assert(keys_are_forms(shown));
            assert forall|k: Seq<u8>| #[trigger] after.kev.contains_key(k) implies parse_forward(
                k,
            ) is Ok by {
                assert(shown.kev.contains_key(k));
            }
            assert forall|k: Seq<u8>| #[trigger] after.vek.contains_key(k) implies parse_reverse(
                k,
            ) is Ok by {
                assert(shown.vek.contains_key(k));
            }
        }
        assert(edges_agree(after)) by {
            assert forall|x: u128, l: LabelModel| l.well_formed() implies (#[trigger] carries(
                after,
                x,
                l,
            ) <==> lists(after.kev, l.forward(), x)) && (carries(after, x, l) <==> lists(
                after.vek,
                l.reverse(),
                x,
            )) by {
                lemma_form_in_keys(ls, l);
                lemma_posting_after_retract(t.kev, fk, id, l.forward());
                lemma_posting_after_retract(t.vek, rk, id, l.reverse());
                assert(carries(t, x, l) <==> lists(t.kev, l.forward(), x));
                assert(carries(t, x, l) <==> lists(t.vek, l.reverse(), x));
                if x == id {
                    assert(!carries(after, x, l));
                    assert(carries(t, x, l) <==> ls.contains(l));
                } else {
                    if id_key(x) == key {
                        lemma_id_key_injective(x, id);
                    }
                    assert(carries(after, x, l) <==> carries(t, x, l));
                    lemma_lists_other(t.kev, fk, id, l.forward(), x);
                    lemma_lists_other(t.vek, rk, id, l.reverse(), x);
                }
            }
        }
    }
}

/// Whether a posting list holds `x` after `id` was added under `keys`.
pub proof fn lemma_lists_after_upsert(
    tree: Map<Seq<u8>, Seq<u8>>,
    keys: Set<Seq<u8>>,
    id: u128,
    k: Seq<u8>,
    x: u128,
)
    ensures
        lists(upsert_keys(tree, keys, id), k, x) <==> (keys.contains(k) && x == id) || lists(
            tree,
            k,
            x,
        ),
{
    lemma_posting_after_upsert(tree, keys, id, k);
    if keys.contains(k) {
        let had = posting_at(tree, k);
        let list = upserted(had, id);
        assert(list.contains(x) <==> x == id || had.contains(x));
        if !tree.contains_key(k) {
            assert(had =~= Seq::<u128>::empty());
            if had.contains(x) {
                let i = choose|i: int| 0 <= i < had.len() && had[i] == x;
            }
        }
    }
}

/// Taking `id` out of posting lists does not change whether a list holds
/// another id.
pub proof fn lemma_lists_other(
    tree: Map<Seq<u8>, Seq<u8>>,
    keys: Set<Seq<u8>>,
    id: u128,
    k: Seq<u8>,
    x: u128,
)
    requires
        x != id,
    ensures
        lists(retract_keys(tree, keys, id), k, x) <==> lists(tree, k, x),
{
    lemma_posting_after_retract(tree, keys, id, k);
    if keys.contains(k) {
        let rest = retracted(posting_at(tree, k), id);
        if lists(tree, k, x) {
            assert(rest.contains(x));
        }
        if lists(retract_keys(tree, keys, id), k, x) {
            assert(rest.contains(x));
        }
    }
}

/// Adding labels to a document keeps a bucket consistent, and is not
/// abandoned.
pub proof fn lemma_add_keeps_consistent(t: Trees, id: u128, labels: Seq<LabelModel>)
    requires
        consistent(t),
        is_label_set(labels),
    ensures
        add_effect(t, id, labels) is Some,
        consistent(add_effect(t, id, labels)->Some_0),
{
    let key = id_key(id);
    if t.labels.contains_key(key) {
        let had = label_set_of(t.labels[key])->Some_0;
        lemma_consistent_is_readable(t, labels);
        let after = add_effect(t, id, labels)->Some_0;
        let fk = forward_keys(labels);
        let rk = reverse_keys(labels);
        let u = had.to_set().union(labels.to_set());
        let merged = sorted_seq_of(u);
        vstd::seq_lib::seq_to_set_is_finite(had);
        vstd::seq_lib::seq_to_set_is_finite(labels);
        lemma_sorted_seq_of(u);
        assert forall|m: LabelModel| merged.contains(m) implies m.well_formed() by {
            assert(u.contains(m));
            assert(had.contains(m) || labels.contains(m));
        }
        lemma_label_set_of_bytes(merged);
        assert(co_present(after)) by {
            assert forall|x: u128|
                after.doc.contains_key(#[trigger] id_key(x)) <==> after.labels.contains_key(
                    id_key(x),
                ) by {
                assert(t.doc.contains_key(id_key(x)) <==> t.labels.contains_key(id_key(x)));
            }
        }
        assert(label_sets_canonical(after.labels)) by {
            assert forall|k: Seq<u8>| #[trigger]
                after.labels.contains_key(k) implies label_set_of(after.labels[k]) is Some
                && is_label_set(label_set_of(after.labels[k])->Some_0) by {
                if k != key {
                    assert(t.labels.contains_key(k));
                }
            }
        }
        lemma_upsert_keeps_canonical(t.kev, fk, id);
        lemma_upsert_keeps_canonical(t.vek, rk, id);
        lemma_upsert_keeps_forms(t, labels, id);
        assert(keys_are_forms(after)) by {
            let shown = Trees { kev: after.kev, vek: after.vek, ..t };
            assert(keys_are_forms(shown));
            assert forall|k: Seq<u8>| #[trigger] after.kev.contains_key(k) implies parse_forward(
                k,
            ) is Ok by {
                assert(shown.kev.contains_key(k));
            }
            assert forall|k: Seq<u8>| #[trigger] after.vek.contains_key(k) implies parse_reverse(
                k,
            ) is Ok by {
                assert(shown.vek.contains_key(k));
            }
        }
        assert(edges_agree(after)) by {
            assert forall|x: u128, l: LabelModel| l.well_formed() implies (#[trigger] carries(
                after,
                x,
                l,
            ) <==> lists(after.kev, l.forward(), x)) && (carries(after, x, l) <==> lists(
                after.vek,
                l.reverse(),
                x,
            )) by {
                lemma_form_in_keys(labels, l);
                lemma_lists_after_upsert(t.kev, fk, id, l.forward(), x);
                lemma_lists_after_upsert(t.vek, rk, id, l.reverse(), x);
                assert(carries(t, x, l) <==> lists(t.kev, l.forward(), x));
                assert(carries(t, x, l) <==> lists(t.vek, l.reverse(), x));
                if x == id {
                    assert(carries(t, x, l) <==> had.contains(l));
                    assert(carries(after, x, l) <==> merged.contains(l));
                    assert(merged.contains(l) <==> u.contains(l));
                    assert(u.contains(l) <==> had.contains(l) || labels.contains(l));
                } else {
                    if id_key(x) == key {
                        lemma_id_key_injective(x, id);
                    }
                    assert(carries(after, x, l) <==> carries(t, x, l));
                }
            }
        }
    }
}

/// Taking labels from a document keeps a bucket consistent, and is not
/// abandoned.
pub proof fn lemma_remove_keeps_consistent(t: Trees, id: u128, labels: Seq<LabelModel>)
    requires
        consistent(t),
        is_label_set(labels),
    ensures
        remove_effect(t, id, labels) is Some,
        consistent(remove_effect(t, id, labels)->Some_0),
{
    let key = id_key(id);
    if t.labels.contains_key(key) {
        let had = label_set_of(t.labels[key])->Some_0;
        lemma_consistent_is_readable(t, labels);
        let after = remove_effect(t, id, labels)->Some_0;
        let fk = forward_keys(labels);
        let rk = reverse_keys(labels);
        let d = had.to_set().difference(labels.to_set());
        let rest = sorted_seq_of(d);
        vstd::seq_lib::seq_to_set_is_finite(had);
        lemma_sorted_seq_of(d);
        assert forall|m: LabelModel| rest.contains(m) implies m.well_formed() by {
            assert(d.contains(m));
            assert(had.contains(m));
        }
        lemma_label_set_of_bytes(rest);
        assert(co_present(after)) by {
            assert forall|x: u128|
                after.doc.contains_key(#[trigger] id_key(x)) <==> after.labels.contains_key(
                    id_key(x),
                ) by {
                assert(t.doc.contains_key(id_key(x)) <==> t.labels.contains_key(id_key(x)));
            }
        }
        assert(label_sets_canonical(after.labels)) by {
            assert forall|k: Seq<u8>| #[trigger]
                after.labels.contains_key(k) implies label_set_of(after.labels[k]) is Some
                && is_label_set(label_set_of(after.labels[k])->Some_0) by {
                if k != key {
                    assert(t.labels.contains_key(k));
                }
            }
        }
        lemma_retract_keeps_canonical(t.kev, fk, id);
        lemma_retract_keeps_canonical(t.vek, rk, id);
        lemma_retract_keeps_forms(t, labels, id);
        assert(keys_are_forms(after)) by {
            let shown = Trees { kev: after.kev, vek: after.vek, ..t };
            assert(keys_are_forms(shown));
            assert forall|k: Seq<u8>| #[trigger] after.kev.contains_key(k) implies parse_forward(
                k,
            ) is Ok by {
                assert(shown.kev.contains_key(k));
            }
            assert forall|k: Seq<u8>| #[trigger] after.vek.contains_key(k) implies parse_reverse(
                k,
            ) is Ok by {
                assert(shown.vek.contains_key(k));
            }
        }
        assert(edges_agree(after)) by {
            assert forall|x: u128, l: LabelModel| l.well_formed() implies (#[trigger] carries(
                after,
                x,
                l,
            ) <==> lists(after.kev, l.forward(), x)) && (carries(after, x, l) <==> lists(
                after.vek,
                l.reverse(),
                x,
            )) by {
                lemma_form_in_keys(labels, l);
                lemma_posting_after_retract(t.kev, fk, id, l.forward());
                lemma_posting_after_retract(t.vek, rk, id, l.reverse());
                assert(carries(t, x, l) <==> lists(t.kev, l.forward(), x));
                assert(carries(t, x, l) <==> lists(t.vek, l.reverse(), x));
                if x == id {
                    assert(carries(t, x, l) <==> had.contains(l));
                    assert(carries(after, x, l) <==> rest.contains(l));
                    assert(rest.contains(l) <==> d.contains(l));
                    assert(d.contains(l) <==> had.contains(l) && !labels.contains(l));
                } else {
                    if id_key(x) == key {
                        lemma_id_key_injective(x, id);
                    }
                    assert(carries(after, x, l) <==> carries(t, x, l));
                    lemma_lists_other(t.kev, fk, id, l.forward(), x);
                    lemma_lists_other(t.vek, rk, id, l.reverse(), x);
                }
            }
        }
    }
}

/// An admissible change keeps a bucket consistent, and is not abandoned.
pub proof fn lemma_change_keeps_consistent(t: Trees, c: Change)
    requires
        consistent(t),
        c.admissible(t),
    ensures
        c.effect(t) is Some,
        consistent(c.effect(t)->Some_0),
{
    match c {
        Change::Insert { id, payload, labels } => {
            lemma_insert_keeps_consistent(t, id, payload, labels);
        },
        Change::Delete { id } => {
            lemma_delete_keeps_consistent(t, id);
        },
        Change::AddLabels { id, labels } => {
            lemma_add_keeps_consistent(t, id, labels);
        },
        Change::RemoveLabels { id, labels } => {
            lemma_remove_keeps_consistent(t, id, labels);
        },
    }
}

/// Every state that a history of changes leads to is consistent.
pub proof fn lemma_history_is_consistent(history: Seq<Change>)
    requires
        state_after(history) is Some,
    ensures
        consistent(state_after(history)->Some_0),
    decreases history.len(),
{
    if history.len() == 0 {
        lemma_empty_is_consistent();
    } else {
        lemma_history_is_consistent(history.drop_last());
        let t = state_after(history.drop_last())->Some_0;
        lemma_change_keeps_consistent(t, history.last());
    }
}

/// Edge symmetry: after every history of changes, a document carries a label
/// exactly when the posting list of the label in the key-first index holds
/// the document, and exactly when the posting list in the value-first index
/// does.
pub proof fn law_edge_symmetry(history: Seq<Change>, id: u128, l: LabelModel)
    requires
        state_after(history) is Some,
        l.well_formed(),
    ensures
        carries(state_after(history)->Some_0, id, l) <==> lists(
            state_after(history)->Some_0.kev,
            l.forward(),
            id,
        ),
        carries(state_after(history)->Some_0, id, l) <==> lists(
            state_after(history)->Some_0.vek,
            l.reverse(),
            id,
        ),
{
    lemma_history_is_consistent(history);
    let t = state_after(history)->Some_0;
    assert(carries(t, id, l) <==> lists(t.kev, l.forward(), id));
}

/// No empty postings: after every history of changes, a posting list that is
/// stored, in either index, can be read and holds at least one document.
pub proof fn law_no_empty_postings(history: Seq<Change>, k: Seq<u8>)
    requires
        state_after(history) is Some,
    ensures
        state_after(history)->Some_0.kev.contains_key(k) ==> posting_of(
            state_after(history)->Some_0.kev[k],
        ) is Some && posting_of(state_after(history)->Some_0.kev[k])->Some_0.len() >= 1,
        state_after(history)->Some_0.vek.contains_key(k) ==> posting_of(
            state_after(history)->Some_0.vek[k],
        ) is Some && posting_of(state_after(history)->Some_0.vek[k])->Some_0.len() >= 1,
{
    lemma_history_is_consistent(history);
    let t = state_after(history)->Some_0;
    if t.kev.contains_key(k) {
        assert(posting_at(t.kev, k).len() > 0);
    }
    if t.vek.contains_key(k) {
        assert(posting_at(t.vek, k).len() > 0);
    }
}

/// Canonical lists: after every history of changes, every stored posting
/// list and every stored label set is strictly sorted and holds no entry
/// twice.
pub proof fn law_stored_lists_canonical(history: Seq<Change>, k: Seq<u8>)
    requires
        state_after(history) is Some,
    ensures
        state_after(history)->Some_0.kev.contains_key(k) ==> posting_of(
            state_after(history)->Some_0.kev[k],
        ) is Some && strictly_sorted(posting_of(state_after(history)->Some_0.kev[k])->Some_0)
            && posting_of(state_after(history)->Some_0.kev[k])->Some_0.no_duplicates(),
        state_after(history)->Some_0.vek.contains_key(k) ==> posting_of(
            state_after(history)->Some_0.vek[k],
        ) is Some && strictly_sorted(posting_of(state_after(history)->Some_0.vek[k])->Some_0)
            && posting_of(state_after(history)->Some_0.vek[k])->Some_0.no_duplicates(),
        state_after(history)->Some_0.labels.contains_key(k) ==> label_set_of(
            state_after(history)->Some_0.labels[k],
        ) is Some && strictly_sorted(label_set_of(state_after(history)->Some_0.labels[k])->Some_0)
            && label_set_of(state_after(history)->Some_0.labels[k])->Some_0.no_duplicates(),
{
    lemma_history_is_consistent(history);
    let t = state_after(history)->Some_0;
    if t.kev.contains_key(k) {
        assert(strictly_sorted(posting_at(t.kev, k)));
        crate::order::lemma_sorted_no_duplicates(posting_at(t.kev, k));
    }
    if t.vek.contains_key(k) {
        assert(strictly_sorted(posting_at(t.vek, k)));
        crate::order::lemma_sorted_no_duplicates(posting_at(t.vek, k));
    }
    if t.labels.contains_key(k) {
        crate::order::lemma_sorted_no_duplicates(label_set_of(t.labels[k])->Some_0);
    }
}

/// Mirrored indexes: after every history of changes, the key-first index
/// holds a posting list for a label exactly when the value-first index does,
/// and the two stored lists are the same.
pub proof fn law_indexes_mirror(history: Seq<Change>, l: LabelModel)
    requires
        state_after(history) is Some,
        l.well_formed(),
    ensures
        lookup(state_after(history)->Some_0.kev, l.forward()) == lookup(
            state_after(history)->Some_0.vek,
            l.reverse(),
        ),
{
    lemma_history_is_consistent(history);
    let t = state_after(history)->Some_0;
    let f = l.forward();
    let r = l.reverse();
    let a = posting_at(t.kev, f);
    let b = posting_at(t.vek, r);
    if t.kev.contains_key(f) {
        assert(a.len() > 0);
        assert(a.contains(a[0]));
        assert(carries(t, a[0], l) <==> lists(t.kev, f, a[0]));
        assert(carries(t, a[0], l) <==> lists(t.vek, r, a[0]));
    }
    if t.vek.contains_key(r) {
        assert(b.len() > 0);
        assert(b.contains(b[0]));
        assert(carries(t, b[0], l) <==> lists(t.kev, f, b[0]));
        assert(carries(t, b[0], l) <==> lists(t.vek, r, b[0]));
    }
    if t.kev.contains_key(f) && t.vek.contains_key(r) {
        assert(a.to_set() =~= b.to_set()) by {
            assert forall|x: u128| a.to_set().contains(x) <==> b.to_set().contains(x) by {
                assert(a.to_set().contains(x) <==> a.contains(x));
                assert(b.to_set().contains(x) <==> b.contains(x));
                assert(carries(t, x, l) <==> lists(t.kev, f, x));
                assert(carries(t, x, l) <==> lists(t.vek, r, x));
            }
        }
        lemma_sorted_unique(a, b);
        lemma_bytes_of_posting(t.kev[f]);
        lemma_bytes_of_posting(t.vek[r]);
    }
}

/// Labels in use: after every history of changes, every key of the
/// key-first index is the forward form of a well-formed label that some
/// document carries, and every key of the value-first index is the reverse
/// form of one.
pub proof fn law_index_keys_are_labels_in_use(history: Seq<Change>, k: Seq<u8>)
    requires
        state_after(history) is Some,
    ensures
        state_after(history)->Some_0.kev.contains_key(k) ==> parse_forward(k) is Ok
            && parse_forward(k)->Ok_0.well_formed() && parse_forward(k)->Ok_0.forward() == k
            && exists|id: u128| carries(state_after(history)->Some_0, id, parse_forward(k)->Ok_0),
        state_after(history)->Some_0.vek.contains_key(k) ==> parse_reverse(k) is Ok
            && parse_reverse(k)->Ok_0.well_formed() && parse_reverse(k)->Ok_0.reverse() == k
            && exists|id: u128| carries(state_after(history)->Some_0, id, parse_reverse(k)->Ok_0),
{
    lemma_history_is_consistent(history);
    let t = state_after(history)->Some_0;
    if t.kev.contains_key(k) {
        lemma_forward_of_parse_forward(k);
        let l = parse_forward(k)->Ok_0;
        let p = posting_at(t.kev, k);
        assert(p.len() > 0);
        assert(p.contains(p[0]));
        assert(carries(t, p[0], l) <==> lists(t.kev, l.forward(), p[0]));
    }
    if t.vek.contains_key(k) {
        lemma_reverse_of_parse_reverse(k);
        let l = parse_reverse(k)->Ok_0;
        let p = posting_at(t.vek, k);
        assert(p.len() > 0);
        assert(p.contains(p[0]));
        assert(carries(t, p[0], l) <==> lists(t.kev, l.forward(), p[0]));
        assert(carries(t, p[0], l) <==> lists(t.vek, l.reverse(), p[0]));
    }
}

/// Co-presence: after every history of changes, a document is stored exactly
/// when its label set is.
pub proof fn law_co_presence(history: Seq<Change>, id: u128)
    requires
        state_after(history) is Some,
    ensures
        state_after(history)->Some_0.doc.contains_key(id_key(id)) <==> state_after(
            history,
        )->Some_0.labels.contains_key(id_key(id)),
{
    lemma_history_is_consistent(history);
    let t = state_after(history)->Some_0;
    assert(t.doc.contains_key(id_key(id)) <==> t.labels.contains_key(id_key(id)));
}

/// Round trip: after an insert of a payload with well-formed labels, the
/// document tree holds the payload under the id, and the label tree holds the
/// labels, sorted and each once.
pub proof fn law_round_trip(t: Trees, id: u128, payload: Seq<u8>, labels: Seq<LabelModel>)
    requires
        forall|m: LabelModel| labels.contains(m) ==> m.well_formed(),
        insert_effect(t, id, payload, sorted_seq_of(labels.to_set())) is Some,
    ensures
        lookup(
            insert_effect(t, id, payload, sorted_seq_of(labels.to_set()))->Some_0.doc,
            id_key(id),
        ) == Some(payload),
        insert_effect(t, id, payload, sorted_seq_of(labels.to_set()))->Some_0.labels.contains_key(
            id_key(id),
        ),
        label_set_of(
            insert_effect(t, id, payload, sorted_seq_of(labels.to_set()))->Some_0.labels[id_key(
                id,
            )],
        ) == Some(sorted_seq_of(labels.to_set())),
{
    let set = sorted_seq_of(labels.to_set());
    vstd::seq_lib::seq_to_set_is_finite(labels);
    lemma_sorted_seq_of(labels.to_set());
    assert forall|m: LabelModel| set.contains(m) implies m.well_formed() by {
        assert(labels.to_set().contains(m));
        assert(labels.contains(m));
    }
    lemma_label_set_of_bytes(set);
}

/// A strictly sorted list without `id` is what is left when `id` is added
/// and taken out again.
pub proof fn lemma_retract_undoes_upsert(ids: Seq<u128>, id: u128)
    requires
        strictly_sorted(ids),
        !ids.contains(id),
    ensures
        retracted(upserted(ids, id), id) == ids,
{
    let up = upserted(ids, id);
    let back = retracted(up, id);
    vstd::seq_lib::seq_to_set_is_finite(ids);
    lemma_sorted_seq_of(ids.to_set().insert(id));
    lemma_retracted(up, id);
    assert(back.to_set() =~= ids.to_set()) by {
        assert forall|x: u128| back.to_set().contains(x) <==> ids.to_set().contains(x) by {
            assert(back.to_set().contains(x) <==> back.contains(x));
            assert(back.contains(x) <==> up.contains(x) && x != id);
            assert(up.to_set().contains(x) <==> up.contains(x));
            assert(ids.to_set().contains(x) <==> ids.contains(x));
        }
    }
    lemma_sorted_unique(back, ids);
}

/// Delete inverts insert: in a state that a history of changes leads to, an
/// insert under an id that is not in use, followed by the delete of that id,
/// hands back the payload and leaves the four trees exactly as they were.
pub proof fn law_delete_inverts_insert(
    history: Seq<Change>,
    id: u128,
    payload: Seq<u8>,
    labels: Seq<LabelModel>,
)
    requires
        state_after(history) is Some,
        is_label_set(labels),
        !state_after(history)->Some_0.doc.contains_key(id_key(id)),
    ensures
        insert_effect(state_after(history)->Some_0, id, payload, labels) is Some,
        delete_effect(
            insert_effect(state_after(history)->Some_0, id, payload, labels)->Some_0,
            id,
        ) == Some((state_after(history)->Some_0, Some(payload))),
{
    lemma_history_is_consistent(history);
    let t = state_after(history)->Some_0;
    lemma_insert_keeps_consistent(t, id, payload, labels);
    let mid = insert_effect(t, id, payload, labels)->Some_0;
    let key = id_key(id);
    let fk = forward_keys(labels);
    let rk = reverse_keys(labels);
    lemma_label_set_of_bytes(labels);
    lemma_consistent_is_readable(mid, labels);
    let end = delete_effect(mid, id)->Some_0.0;
    assert(!t.labels.contains_key(key));
    assert(end.doc =~= t.doc);
    assert(end.labels =~= t.labels);
    assert(end.kev =~= t.kev) by {
        assert forall|k: Seq<u8>|
            end.kev.contains_key(k) == t.kev.contains_key(k) && (t.kev.contains_key(k)
                ==> end.kev[k] == t.kev[k]) by {
            if fk.contains(k) {
                let i = choose|i: int| 0 <= i < labels.len() && #[trigger] labels[i].forward() == k;
                assert(labels.contains(labels[i]));
                assert(carries(t, id, labels[i]) <==> lists(t.kev, labels[i].forward(), id));
            }
            lemma_undone_at(t.kev, fk, id, k);
        }
    }
    assert(end.vek =~= t.vek) by {
        assert forall|k: Seq<u8>|
            end.vek.contains_key(k) == t.vek.contains_key(k) && (t.vek.contains_key(k)
                ==> end.vek[k] == t.vek[k]) by {
            if rk.contains(k) {
                let i = choose|i: int| 0 <= i < labels.len() && #[trigger] labels[i].reverse() == k;
                assert(labels.contains(labels[i]));
                assert(carries(t, id, labels[i]) <==> lists(t.kev, labels[i].forward(), id));
                assert(carries(t, id, labels[i]) <==> lists(t.vek, labels[i].reverse(), id));
            }
            lemma_undone_at(t.vek, rk, id, k);
        }
    }
}

/// Under every key, a posting index holds after an upsert and a retraction
/// of an id what it held before, if it held canonical lists without the id.
proof fn lemma_undone_at(
    tree: Map<Seq<u8>, Seq<u8>>,
    keys: Set<Seq<u8>>,
    id: u128,
    k: Seq<u8>,
)
    requires
        postings_canonical(tree),
        keys.contains(k) && tree.contains_key(k) ==> !posting_at(tree, k).contains(id),
    ensures
        retract_keys(upsert_keys(tree, keys, id), keys, id).contains_key(k) == tree.contains_key(
            k,
        ),
        tree.contains_key(k) ==> retract_keys(upsert_keys(tree, keys, id), keys, id)[k] == tree[k],
{
    let mid = upsert_keys(tree, keys, id);
    lemma_posting_after_upsert(tree, keys, id, k);
    lemma_posting_after_retract(mid, keys, id, k);
    if keys.contains(k) {
        let had = posting_at(tree, k);
        if tree.contains_key(k) {
            lemma_retract_undoes_upsert(had, id);
            lemma_bytes_of_posting(tree[k]);
        } else {
            assert(had =~= Seq::<u128>::empty());
            assert(strictly_sorted(had));
            if had.contains(id) {
                let i = choose|i: int| 0 <= i < had.len() && had[i] == id;
            }
            lemma_retract_undoes_upsert(had, id);
        }
    }
}

/// The posting lists of the labels of a query, in the order of the labels.
pub open spec fn query_postings(t: Trees, query: Seq<LabelModel>) -> Seq<Seq<u128>> {
    Seq::new(query.len(), |i: int| posting_at(t.kev, query[i].forward()))
}

/// The ids that a search for the labels of a query finds.
pub open spec fn search_result(t: Trees, query: Seq<LabelModel>) -> Seq<u128> {
    sorted_seq_of(common_ids(query_postings(t, query)))
}

/// What a search reads for a query in a consistent state: every entry can
/// be decoded, and the lists are the posting lists of the labels.
pub proof fn law_search_reads_query_postings(
    t: Trees,
    query: Seq<LabelModel>,
    stored: Seq<Option<Vec<u8>>>,
)
    requires
        consistent(t),
        stored.len() == query.len(),
        forall|i: int|
            0 <= i < query.len() ==> crate::tx::bytes_of(#[trigger] stored[i]) == lookup(
                t.kev,
                query[i].forward(),
            ),
    ensures
        crate::bucket::entries_readable(stored),
        crate::bucket::entry_postings(stored) == query_postings(t, query),
{
    assert forall|i: int| 0 <= i < stored.len() implies crate::bucket::entry_posting(
        #[trigger] stored[i],
    ) is Some && crate::bucket::entry_posting(stored[i])->Some_0 == posting_at(
        t.kev,
        query[i].forward(),
    ) by {
        let k = query[i].forward();
        assert(crate::tx::bytes_of(stored[i]) == lookup(t.kev, k));
        if t.kev.contains_key(k) {
            assert(posting_of(t.kev[k]) is Some);
        }
    }
    assert(crate::bucket::entry_postings(stored) =~= query_postings(t, query));
}

/// Search soundness: after every history of changes, every document that a
/// search finds carries all the labels of the query.
pub proof fn law_search_sound(history: Seq<Change>, query: Seq<LabelModel>, id: u128, i: int)
    requires
        state_after(history) is Some,
        forall|m: LabelModel| query.contains(m) ==> m.well_formed(),
        search_result(state_after(history)->Some_0, query).contains(id),
        0 <= i < query.len(),
    ensures
        carries(state_after(history)->Some_0, id, query[i]),
{
    lemma_history_is_consistent(history);
    let t = state_after(history)->Some_0;
    let lists_of = query_postings(t, query);
    lemma_common_ids_finite(lists_of);
    lemma_sorted_seq_of(common_ids(lists_of));
    assert(common_ids(lists_of).contains(id));
    assert(lists_of[i].contains(id));
    let l = query[i];
    assert(query.contains(l));
    assert(carries(t, id, l) <==> lists(t.kev, l.forward(), id));
    if !t.kev.contains_key(l.forward()) {
        let p = posting_at(t.kev, l.forward());
        let j = choose|j: int| 0 <= j < p.len() && p[j] == id;
    }
}

/// Search completeness: after every history of changes, a search with at
/// least one label finds every document that carries all the labels of the
/// query.
pub proof fn law_search_complete(history: Seq<Change>, query: Seq<LabelModel>, id: u128)
    requires
        state_after(history) is Some,
        forall|m: LabelModel| query.contains(m) ==> m.well_formed(),
        query.len() > 0,
        forall|i: int| 0 <= i < query.len() ==> carries(
            state_after(history)->Some_0,
            id,
            #[trigger] query[i],
        ),
    ensures
        search_result(state_after(history)->Some_0, query).contains(id),
{
    lemma_history_is_consistent(history);
    let t = state_after(history)->Some_0;
    let lists_of = query_postings(t, query);
    lemma_common_ids_finite(lists_of);
    lemma_sorted_seq_of(common_ids(lists_of));
    assert forall|i: int| 0 <= i < lists_of.len() implies (#[trigger] lists_of[i]).contains(id) by {
        let l = query[i];
        assert(query.contains(l));
        assert(carries(t, id, l));
        assert(carries(t, id, l) <==> lists(t.kev, l.forward(), id));
    }
    assert(common_ids(lists_of).contains(id));
}

/// Adding labels is idempotent: adding the same label set a second time
/// changes nothing.
pub proof fn law_add_idempotent(t: Trees, id: u128, labels: Seq<LabelModel>)
    requires
        is_label_set(labels),
        add_effect(t, id, labels) is Some,
    ensures
        add_effect(add_effect(t, id, labels)->Some_0, id, labels) == add_effect(t, id, labels),
{
    let key = id_key(id);
    if t.labels.contains_key(key) {
        let one = add_effect(t, id, labels)->Some_0;
        let had = label_set_of(t.labels[key])->Some_0;
        let fk = forward_keys(labels);
        let rk = reverse_keys(labels);
        let u = had.to_set().union(labels.to_set());
        let merged = sorted_seq_of(u);
        vstd::seq_lib::seq_to_set_is_finite(had);
        vstd::seq_lib::seq_to_set_is_finite(labels);
        lemma_sorted_seq_of(u);
        lemma_stored_labels_well_formed(t.labels[key]);
        assert forall|m: LabelModel| merged.contains(m) implies m.well_formed() by {
            assert(u.contains(m));
            assert(had.contains(m) || labels.contains(m));
        }
        lemma_label_set_of_bytes(merged);
        assert(merged.to_set().union(labels.to_set()) =~= u);
        assert(indexes_readable(one, labels)) by {
            assert forall|k: Seq<u8>| fk.contains(k) implies readable_at(one.kev, k) by {
                lemma_posting_after_upsert(t.kev, fk, id, k);
            }
            assert forall|k: Seq<u8>| rk.contains(k) implies readable_at(one.vek, k) by {
                lemma_posting_after_upsert(t.vek, rk, id, k);
            }
        }
        let two = add_effect(one, id, labels)->Some_0;
        assert(two.labels =~= one.labels);
        assert(two.kev =~= one.kev) by {
            assert forall|k: Seq<u8>|
                two.kev.contains_key(k) == one.kev.contains_key(k) && (one.kev.contains_key(k)
                    ==> two.kev[k] == one.kev[k]) by {
                lemma_posting_after_upsert(t.kev, fk, id, k);
                if fk.contains(k) {
                    crate::model::lemma_upserted_again(posting_at(t.kev, k), id);
                }
            }
        }
        assert(two.vek =~= one.vek) by {
            assert forall|k: Seq<u8>|
                two.vek.contains_key(k) == one.vek.contains_key(k) && (one.vek.contains_key(k)
                    ==> two.vek[k] == one.vek[k]) by {
                lemma_posting_after_upsert(t.vek, rk, id, k);
                if rk.contains(k) {
                    crate::model::lemma_upserted_again(posting_at(t.vek, k), id);
                }
            }
        }
    }
}

/// Removing labels is idempotent: removing the same label set a second time
/// changes nothing.
pub proof fn law_remove_idempotent(t: Trees, id: u128, labels: Seq<LabelModel>)
    requires
        is_label_set(labels),
        remove_effect(t, id, labels) is Some,
    ensures
        remove_effect(remove_effect(t, id, labels)->Some_0, id, labels) == remove_effect(
            t,
            id,
            labels,
        ),
{
    let key = id_key(id);
    if t.labels.contains_key(key) {
        let one = remove_effect(t, id, labels)->Some_0;
        let had = label_set_of(t.labels[key])->Some_0;
        let fk = forward_keys(labels);
        let rk = reverse_keys(labels);
        let d = had.to_set().difference(labels.to_set());
        let rest = sorted_seq_of(d);
        vstd::seq_lib::seq_to_set_is_finite(had);
        lemma_sorted_seq_of(d);
        lemma_stored_labels_well_formed(t.labels[key]);
        assert forall|m: LabelModel| rest.contains(m) implies m.well_formed() by {
            assert(d.contains(m));
            assert(had.contains(m));
        }
        lemma_label_set_of_bytes(rest);
        assert(rest.to_set().difference(labels.to_set()) =~= d);
        assert(indexes_readable(one, labels)) by {
            assert forall|k: Seq<u8>| fk.contains(k) implies readable_at(one.kev, k) by {
                lemma_posting_after_retract(t.kev, fk, id, k);
            }
            assert forall|k: Seq<u8>| rk.contains(k) implies readable_at(one.vek, k) by {
                lemma_posting_after_retract(t.vek, rk, id, k);
            }
        }
        let two = remove_effect(one, id, labels)->Some_0;
        assert(two.labels =~= one.labels);
        assert(two.kev =~= one.kev) by {
            assert forall|k: Seq<u8>|
                two.kev.contains_key(k) == one.kev.contains_key(k) && (one.kev.contains_key(k)
                    ==> two.kev[k] == one.kev[k]) by {
                lemma_retracted_again_at(t.kev, fk, id, k);
            }
        }
        assert(two.vek =~= one.vek) by {
            assert forall|k: Seq<u8>|
                two.vek.contains_key(k) == one.vek.contains_key(k) && (one.vek.contains_key(k)
                    ==> two.vek[k] == one.vek[k]) by {
                lemma_retracted_again_at(t.vek, rk, id, k);
            }
        }
    }
}

/// Under every key, taking an id out of posting lists a second time changes
/// nothing.
proof fn lemma_retracted_again_at(
    tree: Map<Seq<u8>, Seq<u8>>,
    keys: Set<Seq<u8>>,
    id: u128,
    k: Seq<u8>,
)
    ensures
        retract_keys(retract_keys(tree, keys, id), keys, id).contains_key(k) == retract_keys(
            tree,
            keys,
            id,
        ).contains_key(k),
        retract_keys(tree, keys, id).contains_key(k) ==> retract_keys(
            retract_keys(tree, keys, id),
            keys,
            id,
        )[k] == retract_keys(tree, keys, id)[k],
{
    let one = retract_keys(tree, keys, id);
    lemma_posting_after_retract(tree, keys, id, k);
    lemma_posting_after_retract(one, keys, id, k);
    if keys.contains(k) && one.contains_key(k) {
        let rest = retracted(posting_at(tree, k), id);
        assert(!rest.contains(id));
        lemma_retracted(rest, id);
    }
}

/// In a consistent state no posting list holds an id that has no label
/// set.
pub proof fn lemma_unused_id_is_unlisted(t: Trees, id: u128, k: Seq<u8>)
    requires
        consistent(t),
        !t.labels.contains_key(id_key(id)),
    ensures
        !lists(t.kev, k, id),
        !lists(t.vek, k, id),
{
    if t.kev.contains_key(k) {
        lemma_forward_of_parse_forward(k);
        let l = parse_forward(k)->Ok_0;
        assert(carries(t, id, l) <==> lists(t.kev, l.forward(), id));
    }
    if t.vek.contains_key(k) {
        lemma_reverse_of_parse_reverse(k);
        let l = parse_reverse(k)->Ok_0;
        assert(carries(t, id, l) <==> lists(t.kev, l.forward(), id));
        assert(carries(t, id, l) <==> lists(t.vek, l.reverse(), id));
    }
}

/// In a consistent state the posting lists that hold a document are those
/// under the forms of its labels.
pub proof fn lemma_listed_under_own_labels(t: Trees, id: u128, k: Seq<u8>)
    requires
        consistent(t),
        t.labels.contains_key(id_key(id)),
    ensures
        lists(t.kev, k, id) <==> forward_keys(label_set_of(t.labels[id_key(id)])->Some_0).contains(
            k,
        ),
        lists(t.vek, k, id) <==> reverse_keys(label_set_of(t.labels[id_key(id)])->Some_0).contains(
            k,
        ),
{
    let ls = label_set_of(t.labels[id_key(id)])->Some_0;
    if t.kev.contains_key(k) {
        lemma_forward_of_parse_forward(k);
        let l = parse_forward(k)->Ok_0;
        lemma_form_in_keys(ls, l);
        assert(carries(t, id, l) <==> lists(t.kev, l.forward(), id));
    }
    if forward_keys(ls).contains(k) {
        let i = choose|i: int| 0 <= i < ls.len() && #[trigger] ls[i].forward() == k;
        assert(ls.contains(ls[i]));
        assert(carries(t, id, ls[i]) <==> lists(t.kev, ls[i].forward(), id));
    }
    if t.vek.contains_key(k) {
        lemma_reverse_of_parse_reverse(k);
        let l = parse_reverse(k)->Ok_0;
        lemma_form_in_keys(ls, l);
        assert(carries(t, id, l) <==> lists(t.kev, l.forward(), id));
        assert(carries(t, id, l) <==> lists(t.vek, l.reverse(), id));
    }
    if reverse_keys(ls).contains(k) {
        let i = choose|i: int| 0 <= i < ls.len() && #[trigger] ls[i].reverse() == k;
        assert(ls.contains(ls[i]));
        assert(carries(t, id, ls[i]) <==> lists(t.kev, ls[i].forward(), id));
        assert(carries(t, id, ls[i]) <==> lists(t.vek, ls[i].reverse(), id));
    }
}

/// The trees after an insert.
pub open spec fn after_insert(t: Trees, id: u128, payload: Seq<u8>, labels: Seq<LabelModel>)
    -> Trees {
    insert_effect(t, id, payload, labels)->Some_0
}

/// The trees after a delete.
pub open spec fn after_delete(t: Trees, id: u128) -> Trees {
    delete_effect(t, id)->Some_0.0
}

/// The trees after labels were added.
pub open spec fn after_add(t: Trees, id: u128, labels: Seq<LabelModel>) -> Trees {
    add_effect(t, id, labels)->Some_0
}

/// The trees after labels were removed.
pub open spec fn after_remove(t: Trees, id: u128, labels: Seq<LabelModel>) -> Trees {
    remove_effect(t, id, labels)->Some_0
}

/// What an insert does to a consistent bucket, under an id that is not in
/// use: the bucket stays consistent; the document and its label set stand
/// under the id and nothing else changes in the two trees; the posting lists
/// that hold the id are exactly those of its labels, in both indexes; and no
/// list changes as to any other id.
pub proof fn law_insert_effect(t: Trees, id: u128, payload: Seq<u8>, labels: Seq<LabelModel>)
    requires
        consistent(t),
        is_label_set(labels),
        !t.doc.contains_key(id_key(id)),
    ensures
        insert_effect(t, id, payload, labels) is Some,
        consistent(after_insert(t, id, payload, labels)),
        lookup(after_insert(t, id, payload, labels).doc, id_key(id)) == Some(payload),
        after_insert(t, id, payload, labels).labels.contains_key(id_key(id)),
        label_set_of(after_insert(t, id, payload, labels).labels[id_key(id)]) == Some(labels),
        forall|k: Seq<u8>|
            k != id_key(id) ==> #[trigger] lookup(after_insert(t, id, payload, labels).doc, k)
                == lookup(t.doc, k),
        forall|k: Seq<u8>|
            k != id_key(id) ==> #[trigger] lookup(after_insert(t, id, payload, labels).labels, k)
                == lookup(t.labels, k),
        forall|k: Seq<u8>| #[trigger]
            lists(after_insert(t, id, payload, labels).kev, k, id) <==> forward_keys(
                labels,
            ).contains(k),
        forall|k: Seq<u8>| #[trigger]
            lists(after_insert(t, id, payload, labels).vek, k, id) <==> reverse_keys(
                labels,
            ).contains(k),
        forall|k: Seq<u8>, x: u128|
            x != id ==> (#[trigger] lists(after_insert(t, id, payload, labels).kev, k, x) <==> lists(
                t.kev,
                k,
                x,
            )),
        forall|k: Seq<u8>, x: u128|
            x != id ==> (#[trigger] lists(after_insert(t, id, payload, labels).vek, k, x) <==> lists(
                t.vek,
                k,
                x,
            )),
{
    lemma_insert_keeps_consistent(t, id, payload, labels);
    lemma_label_set_of_bytes(labels);
    let a = after_insert(t, id, payload, labels);
    assert(!t.labels.contains_key(id_key(id)));
    assert forall|k: Seq<u8>| #[trigger] lists(a.kev, k, id) <==> forward_keys(labels).contains(
        k,
    ) by {
        lemma_lists_after_upsert(t.kev, forward_keys(labels), id, k, id);
        lemma_unused_id_is_unlisted(t, id, k);
    }
    assert forall|k: Seq<u8>| #[trigger] lists(a.vek, k, id) <==> reverse_keys(labels).contains(
        k,
    ) by {
        lemma_lists_after_upsert(t.vek, reverse_keys(labels), id, k, id);
        lemma_unused_id_is_unlisted(t, id, k);
    }
    assert forall|k: Seq<u8>, x: u128| x != id implies (#[trigger] lists(a.kev, k, x) <==> lists(
        t.kev,
        k,
        x,
    )) by {
        lemma_lists_after_upsert(t.kev, forward_keys(labels), id, k, x);
    }
    assert forall|k: Seq<u8>, x: u128| x != id implies (#[trigger] lists(a.vek, k, x) <==> lists(
        t.vek,
        k,
        x,
    )) by {
        lemma_lists_after_upsert(t.vek, reverse_keys(labels), id, k, x);
    }
}

/// What a delete does to a consistent bucket: the bucket stays consistent;
/// the payload that the document had is handed back; document and label set
/// of the id are gone and nothing else changes in the two trees; no posting
/// list holds the id any more; a list that held nothing but the id is gone,
/// and every other list is there with what it held besides the id.
pub proof fn law_delete_effect(t: Trees, id: u128)
    requires
        consistent(t),
    ensures
        delete_effect(t, id) is Some,
        delete_effect(t, id)->Some_0.1 == lookup(t.doc, id_key(id)),
        consistent(after_delete(t, id)),
        !after_delete(t, id).doc.contains_key(id_key(id)),
        !after_delete(t, id).labels.contains_key(id_key(id)),
        forall|k: Seq<u8>|
            k != id_key(id) ==> #[trigger] lookup(after_delete(t, id).doc, k) == lookup(t.doc, k),
        forall|k: Seq<u8>|
            k != id_key(id) ==> #[trigger] lookup(after_delete(t, id).labels, k) == lookup(
                t.labels,
                k,
            ),
        forall|k: Seq<u8>| !#[trigger] lists(after_delete(t, id).kev, k, id),
        forall|k: Seq<u8>| !#[trigger] lists(after_delete(t, id).vek, k, id),
        forall|k: Seq<u8>, x: u128|
            x != id ==> (#[trigger] lists(after_delete(t, id).kev, k, x) <==> lists(t.kev, k, x)),
        forall|k: Seq<u8>, x: u128|
            x != id ==> (#[trigger] lists(after_delete(t, id).vek, k, x) <==> lists(t.vek, k, x)),
        forall|k: Seq<u8>| #[trigger]
            after_delete(t, id).kev.contains_key(k) <==> t.kev.contains_key(k) && retracted(
                posting_at(t.kev, k),
                id,
            ).len() > 0,
        forall|k: Seq<u8>| #[trigger]
            after_delete(t, id).vek.contains_key(k) <==> t.vek.contains_key(k) && retracted(
                posting_at(t.vek, k),
                id,
            ).len() > 0,
        forall|k: Seq<u8>| #[trigger]
            after_delete(t, id).kev.contains_key(k) ==> posting_at(after_delete(t, id).kev, k)
                == retracted(posting_at(t.kev, k), id),
        forall|k: Seq<u8>| #[trigger]
            after_delete(t, id).vek.contains_key(k) ==> posting_at(after_delete(t, id).vek, k)
                == retracted(posting_at(t.vek, k), id),
{
    lemma_delete_keeps_consistent(t, id);
    let a = after_delete(t, id);
    let key = id_key(id);
    assert(t.doc.contains_key(key) <==> t.labels.contains_key(key));
    assert forall|k: Seq<u8>| !#[trigger] lists(a.kev, k, id) by {
        lemma_unused_id_is_unlisted(a, id, k);
    }
    assert forall|k: Seq<u8>| !#[trigger] lists(a.vek, k, id) by {
        lemma_unused_id_is_unlisted(a, id, k);
    }
    if !t.labels.contains_key(key) {
        assert(a.doc =~= t.doc);
        assert forall|k: Seq<u8>| #[trigger]
            a.kev.contains_key(k) <==> t.kev.contains_key(k) && retracted(
                posting_at(t.kev, k),
                id,
            ).len() > 0 by {
            lemma_unused_id_is_unlisted(t, id, k);
            lemma_retracted(posting_at(t.kev, k), id);
        }
        assert forall|k: Seq<u8>| #[trigger]
            a.vek.contains_key(k) <==> t.vek.contains_key(k) && retracted(
                posting_at(t.vek, k),
                id,
            ).len() > 0 by {
            lemma_unused_id_is_unlisted(t, id, k);
            lemma_retracted(posting_at(t.vek, k), id);
        }
        assert forall|k: Seq<u8>| #[trigger] a.kev.contains_key(k) implies posting_at(a.kev, k)
            == retracted(posting_at(t.kev, k), id) by {
            lemma_unused_id_is_unlisted(t, id, k);
            lemma_retracted(posting_at(t.kev, k), id);
        }
        assert forall|k: Seq<u8>| #[trigger] a.vek.contains_key(k) implies posting_at(a.vek, k)
            == retracted(posting_at(t.vek, k), id) by {
            lemma_unused_id_is_unlisted(t, id, k);
            lemma_retracted(posting_at(t.vek, k), id);
        }
    } else {
        let ls = label_set_of(t.labels[key])->Some_0;
        let fk = forward_keys(ls);
        let rk = reverse_keys(ls);
        lemma_consistent_is_readable(t, ls);
        assert forall|k: Seq<u8>, x: u128| x != id implies (#[trigger] lists(a.kev, k, x)
            <==> lists(t.kev, k, x)) by {
            lemma_lists_other(t.kev, fk, id, k, x);
        }
        assert forall|k: Seq<u8>, x: u128| x != id implies (#[trigger] lists(a.vek, k, x)
            <==> lists(t.vek, k, x)) by {
            lemma_lists_other(t.vek, rk, id, k, x);
        }
        assert forall|k: Seq<u8>| #[trigger]
            a.kev.contains_key(k) <==> t.kev.contains_key(k) && retracted(
                posting_at(t.kev, k),
                id,
            ).len() > 0 by {
            lemma_retract_at(t, id, k);
        }
        assert forall|k: Seq<u8>| #[trigger]
            a.vek.contains_key(k) <==> t.vek.contains_key(k) && retracted(
                posting_at(t.vek, k),
                id,
            ).len() > 0 by {
            lemma_retract_at(t, id, k);
        }
        assert forall|k: Seq<u8>| #[trigger] a.kev.contains_key(k) implies posting_at(a.kev, k)
            == retracted(posting_at(t.kev, k), id) by {
            lemma_retract_at(t, id, k);
        }
        assert forall|k: Seq<u8>| #[trigger] a.vek.contains_key(k) implies posting_at(a.vek, k)
            == retracted(posting_at(t.vek, k), id) by {
            lemma_retract_at(t, id, k);
        }
    }
}

/// Under every key, what both indexes hold after the id of a document was
/// taken out of the posting lists of its own labels: the list without the
/// id, and no entry where nothing is left.
proof fn lemma_retract_at(t: Trees, id: u128, k: Seq<u8>)
    requires
        consistent(t),
        t.labels.contains_key(id_key(id)),
    ensures
        ({
            let ls = label_set_of(t.labels[id_key(id)])->Some_0;
            let kev = retract_keys(t.kev, forward_keys(ls), id);
            let vek = retract_keys(t.vek, reverse_keys(ls), id);
            &&& kev.contains_key(k) <==> t.kev.contains_key(k) && retracted(
                posting_at(t.kev, k),
                id,
            ).len() > 0
            &&& vek.contains_key(k) <==> t.vek.contains_key(k) && retracted(
                posting_at(t.vek, k),
                id,
            ).len() > 0
            &&& kev.contains_key(k) ==> posting_at(kev, k) == retracted(posting_at(t.kev, k), id)
            &&& vek.contains_key(k) ==> posting_at(vek, k) == retracted(posting_at(t.vek, k), id)
        }),
{
    let ls = label_set_of(t.labels[id_key(id)])->Some_0;
    lemma_listed_under_own_labels(t, id, k);
    lemma_posting_after_retract(t.kev, forward_keys(ls), id, k);
    lemma_posting_after_retract(t.vek, reverse_keys(ls), id, k);
    lemma_retracted(posting_at(t.kev, k), id);
    lemma_retracted(posting_at(t.vek, k), id);
    if t.kev.contains_key(k) && !forward_keys(ls).contains(k) {
        assert(!posting_at(t.kev, k).contains(id));
        assert(posting_at(t.kev, k).len() > 0);
    }
    if t.vek.contains_key(k) && !reverse_keys(ls).contains(k) {
        assert(!posting_at(t.vek, k).contains(id));
        assert(posting_at(t.vek, k).len() > 0);
    }
}

/// What adding a label set does to a consistent bucket, for a document that
/// has a label set: the bucket stays consistent; the documents are as they
/// were; the document carries what it carried and the added labels, sorted
/// and each once; both posting lists of every added label hold the id; and
/// nothing changes as to any other document.
pub proof fn law_add_effect(t: Trees, id: u128, labels: Seq<LabelModel>)
    requires
        consistent(t),
        is_label_set(labels),
        t.labels.contains_key(id_key(id)),
    ensures
        add_effect(t, id, labels) is Some,
        consistent(after_add(t, id, labels)),
        after_add(t, id, labels).doc == t.doc,
        after_add(t, id, labels).labels.contains_key(id_key(id)),
        label_set_of(after_add(t, id, labels).labels[id_key(id)]) == Some(
            sorted_seq_of(
                label_set_of(t.labels[id_key(id)])->Some_0.to_set().union(labels.to_set()),
            ),
        ),
        forall|l: LabelModel|
            l.well_formed() ==> (#[trigger] carries(after_add(t, id, labels), id, l) <==> carries(
                t,
                id,
                l,
            ) || labels.contains(l)),
        forall|k: Seq<u8>|
            k != id_key(id) ==> #[trigger] lookup(after_add(t, id, labels).labels, k) == lookup(
                t.labels,
                k,
            ),
        forall|k: Seq<u8>| #[trigger]
            lists(after_add(t, id, labels).kev, k, id) <==> lists(t.kev, k, id) || forward_keys(
                labels,
            ).contains(k),
        forall|k: Seq<u8>| #[trigger]
            lists(after_add(t, id, labels).vek, k, id) <==> lists(t.vek, k, id) || reverse_keys(
                labels,
            ).contains(k),
        forall|k: Seq<u8>, x: u128|
            x != id ==> (#[trigger] lists(after_add(t, id, labels).kev, k, x) <==> lists(
                t.kev,
                k,
                x,
            )),
        forall|k: Seq<u8>, x: u128|
            x != id ==> (#[trigger] lists(after_add(t, id, labels).vek, k, x) <==> lists(
                t.vek,
                k,
                x,
            )),
{
    lemma_add_keeps_consistent(t, id, labels);
    let a = after_add(t, id, labels);
    let key = id_key(id);
    let had = label_set_of(t.labels[key])->Some_0;
    let u = had.to_set().union(labels.to_set());
    let merged = sorted_seq_of(u);
    vstd::seq_lib::seq_to_set_is_finite(had);
    vstd::seq_lib::seq_to_set_is_finite(labels);
    lemma_sorted_seq_of(u);
    assert forall|m: LabelModel| merged.contains(m) implies m.well_formed() by {
        assert(u.contains(m));
        assert(had.contains(m) || labels.contains(m));
    }
    lemma_label_set_of_bytes(merged);
    assert forall|l: LabelModel| l.well_formed() implies (#[trigger] carries(a, id, l) <==> carries(
        t,
        id,
        l,
    ) || labels.contains(l)) by {
        assert(merged.contains(l) <==> u.contains(l));
        assert(u.contains(l) <==> had.contains(l) || labels.contains(l));
    }
    assert forall|k: Seq<u8>| #[trigger]
        lists(a.kev, k, id) <==> lists(t.kev, k, id) || forward_keys(labels).contains(k) by {
        lemma_lists_after_upsert(t.kev, forward_keys(labels), id, k, id);
    }
    assert forall|k: Seq<u8>| #[trigger]
        lists(a.vek, k, id) <==> lists(t.vek, k, id) || reverse_keys(labels).contains(k) by {
        lemma_lists_after_upsert(t.vek, reverse_keys(labels), id, k, id);
    }
    assert forall|k: Seq<u8>, x: u128| x != id implies (#[trigger] lists(a.kev, k, x) <==> lists(
        t.kev,
        k,
        x,
    )) by {
        lemma_lists_after_upsert(t.kev, forward_keys(labels), id, k, x);
    }
    assert forall|k: Seq<u8>, x: u128| x != id implies (#[trigger] lists(a.vek, k, x) <==> lists(
        t.vek,
        k,
        x,
    )) by {
        lemma_lists_after_upsert(t.vek, reverse_keys(labels), id, k, x);
    }
}

/// What removing a label set does to a consistent bucket, for a document
/// that has a label set: the bucket stays consistent; the documents are as
/// they were; the document carries what it carried without the removed
/// labels; no posting list of a removed label holds the id, and a list that
/// held nothing but the id is gone; and nothing changes as to any other
/// document or any other label.
pub proof fn law_remove_effect(t: Trees, id: u128, labels: Seq<LabelModel>)
    requires
        consistent(t),
        is_label_set(labels),
        t.labels.contains_key(id_key(id)),
    ensures
        remove_effect(t, id, labels) is Some,
        consistent(after_remove(t, id, labels)),
        after_remove(t, id, labels).doc == t.doc,
        after_remove(t, id, labels).labels.contains_key(id_key(id)),
        label_set_of(after_remove(t, id, labels).labels[id_key(id)]) == Some(
            sorted_seq_of(
                label_set_of(t.labels[id_key(id)])->Some_0.to_set().difference(labels.to_set()),
            ),
        ),
        forall|l: LabelModel|
            l.well_formed() ==> (#[trigger] carries(after_remove(t, id, labels), id, l) <==> carries(
                t,
                id,
                l,
            ) && !labels.contains(l)),
        forall|k: Seq<u8>|
            k != id_key(id) ==> #[trigger] lookup(after_remove(t, id, labels).labels, k) == lookup(
                t.labels,
                k,
            ),
        forall|k: Seq<u8>| #[trigger]
            lists(after_remove(t, id, labels).kev, k, id) <==> lists(t.kev, k, id) && !forward_keys(
                labels,
            ).contains(k),
        forall|k: Seq<u8>| #[trigger]
            lists(after_remove(t, id, labels).vek, k, id) <==> lists(t.vek, k, id) && !reverse_keys(
                labels,
            ).contains(k),
        forall|k: Seq<u8>, x: u128|
            x != id ==> (#[trigger] lists(after_remove(t, id, labels).kev, k, x) <==> lists(
                t.kev,
                k,
                x,
            )),
        forall|k: Seq<u8>, x: u128|
            x != id ==> (#[trigger] lists(after_remove(t, id, labels).vek, k, x) <==> lists(
                t.vek,
                k,
                x,
            )),
        forall|k: Seq<u8>|
            forward_keys(labels).contains(k) ==> (#[trigger] after_remove(
                t,
                id,
                labels,
            ).kev.contains_key(k) <==> t.kev.contains_key(k) && retracted(
                posting_at(t.kev, k),
                id,
            ).len() > 0),
        forall|k: Seq<u8>|
            reverse_keys(labels).contains(k) ==> (#[trigger] after_remove(
                t,
                id,
                labels,
            ).vek.contains_key(k) <==> t.vek.contains_key(k) && retracted(
                posting_at(t.vek, k),
                id,
            ).len() > 0),
{
    lemma_remove_keeps_consistent(t, id, labels);
    let a = after_remove(t, id, labels);
    let key = id_key(id);
    let had = label_set_of(t.labels[key])->Some_0;
    let d = had.to_set().difference(labels.to_set());
    let rest = sorted_seq_of(d);
    vstd::seq_lib::seq_to_set_is_finite(had);
    lemma_sorted_seq_of(d);
    assert forall|m: LabelModel| rest.contains(m) implies m.well_formed() by {
        assert(d.contains(m));
        assert(had.contains(m));
    }
    lemma_label_set_of_bytes(rest);
    assert forall|l: LabelModel| l.well_formed() implies (#[trigger] carries(a, id, l) <==> carries(
        t,
        id,
        l,
    ) && !labels.contains(l)) by {
        assert(rest.contains(l) <==> d.contains(l));
        assert(d.contains(l) <==> had.contains(l) && !labels.contains(l));
    }
    assert forall|k: Seq<u8>| #[trigger]
        lists(a.kev, k, id) <==> lists(t.kev, k, id) && !forward_keys(labels).contains(k) by {
        lemma_posting_after_retract(t.kev, forward_keys(labels), id, k);
        lemma_retracted(posting_at(t.kev, k), id);
    }
    assert forall|k: Seq<u8>| #[trigger]
        lists(a.vek, k, id) <==> lists(t.vek, k, id) && !reverse_keys(labels).contains(k) by {
        lemma_posting_after_retract(t.vek, reverse_keys(labels), id, k);
        lemma_retracted(posting_at(t.vek, k), id);
    }
    assert forall|k: Seq<u8>, x: u128| x != id implies (#[trigger] lists(a.kev, k, x) <==> lists(
        t.kev,
        k,
        x,
    )) by {
        lemma_lists_other(t.kev, forward_keys(labels), id, k, x);
    }
    assert forall|k: Seq<u8>, x: u128| x != id implies (#[trigger] lists(a.vek, k, x) <==> lists(
        t.vek,
        k,
        x,
    )) by {
        lemma_lists_other(t.vek, reverse_keys(labels), id, k, x);
    }
    assert forall|k: Seq<u8>| forward_keys(labels).contains(k) implies (#[trigger] a.kev.contains_key(
        k,
    ) <==> t.kev.contains_key(k) && retracted(posting_at(t.kev, k), id).len() > 0) by {
        lemma_posting_after_retract(t.kev, forward_keys(labels), id, k);
    }
    assert forall|k: Seq<u8>| reverse_keys(labels).contains(k) implies (#[trigger] a.vek.contains_key(
        k,
    ) <==> t.vek.contains_key(k) && retracted(posting_at(t.vek, k), id).len() > 0) by {
        lemma_posting_after_retract(t.vek, reverse_keys(labels), id, k);
    }
}

} // verus!

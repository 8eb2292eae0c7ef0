//! The four trees of a bucket as maps, and what each change of a bucket does
//! to them.
//!
//! The trees hold bytes. `doc` maps the key of a document to its payload,
//! `labels` maps it to the stored label set of the document, `kev` maps the
//! forward form of a label to the stored posting list of the label, and `vek`
//! does the same under the reverse form.
//!
//! A change either goes through, and then its effect is a function of the
//! trees before it, or it is abandoned because a stored value that it had to
//! read could not be decoded, and then the trees stay as they were.

use crate::docid::id_key;
use crate::label::LabelModel;
use crate::label_set::{label_set_bytes, label_set_of};
use crate::order::{lemma_sorted_seq_of, sorted_seq_of, strictly_sorted};
use crate::posting::{
    lemma_posting_of_bytes, lemma_retracted, posting_bytes, posting_of, retracted, upserted,
};
use vstd::prelude::*;

verus! {

/// The contents of the four trees of a bucket.
pub struct Trees {
    /// Document key to payload.
    pub doc: Map<Seq<u8>, Seq<u8>>,
    /// Document key to stored label set.
    pub labels: Map<Seq<u8>, Seq<u8>>,
    /// Forward form of a label to stored posting list.
    pub kev: Map<Seq<u8>, Seq<u8>>,
    /// Reverse form of a label to stored posting list.
    pub vek: Map<Seq<u8>, Seq<u8>>,
}

/// The value under `k`, if there is one.
pub open spec fn lookup(tree: Map<Seq<u8>, Seq<u8>>, k: Seq<u8>) -> Option<Seq<u8>> {
    if tree.contains_key(k) {
        Some(tree[k])
    } else {
        None
    }
}

/// The value under `k`, if any, can be read as a posting list.
pub open spec fn readable_at(tree: Map<Seq<u8>, Seq<u8>>, k: Seq<u8>) -> bool {
    tree.contains_key(k) ==> posting_of(tree[k]) is Some
}

/// The posting list under `k`; the empty list where nothing is stored.
pub open spec fn posting_at(tree: Map<Seq<u8>, Seq<u8>>, k: Seq<u8>) -> Seq<u128> {
    if tree.contains_key(k) && posting_of(tree[k]) is Some {
        posting_of(tree[k])->Some_0
    } else {
        Seq::empty()
    }
}

/// The values under all of `keys` can be read as posting lists.
pub open spec fn postings_readable(tree: Map<Seq<u8>, Seq<u8>>, keys: Set<Seq<u8>>) -> bool {
    forall|k: Seq<u8>| keys.contains(k) ==> readable_at(tree, k)
}

/// The tree after `id` was added to the posting list under `k`.
pub open spec fn upsert_in(tree: Map<Seq<u8>, Seq<u8>>, k: Seq<u8>, id: u128) -> Map<
    Seq<u8>,
    Seq<u8>,
> {
    tree.insert(k, posting_bytes(upserted(posting_at(tree, k), id)))
}

/// The tree after `id` was taken out of the posting list under `k`: a list
/// that becomes empty leaves the tree.
pub open spec fn downsert_in(tree: Map<Seq<u8>, Seq<u8>>, k: Seq<u8>, id: u128) -> Map<
    Seq<u8>,
    Seq<u8>,
> {
    if !tree.contains_key(k) {
        tree
    } else if retracted(posting_at(tree, k), id).len() == 0 {
        tree.remove(k)
    } else {
        tree.insert(k, posting_bytes(retracted(posting_at(tree, k), id)))
    }
}

/// The tree after `id` was added to the posting lists under all of `keys`.
pub open spec fn upsert_keys(tree: Map<Seq<u8>, Seq<u8>>, keys: Set<Seq<u8>>, id: u128) -> Map<
    Seq<u8>,
    Seq<u8>,
> {
    Map::new(
        |k: Seq<u8>| tree.contains_key(k) || keys.contains(k),
        |k: Seq<u8>|
            if keys.contains(k) {
                posting_bytes(upserted(posting_at(tree, k), id))
            } else {
                tree[k]
            },
    )
}

/// The tree after `id` was taken out of the posting lists under all of
/// `keys`.
pub open spec fn retract_keys(tree: Map<Seq<u8>, Seq<u8>>, keys: Set<Seq<u8>>, id: u128) -> Map<
    Seq<u8>,
    Seq<u8>,
> {
    Map::new(
        |k: Seq<u8>|
            tree.contains_key(k) && !(keys.contains(k) && retracted(posting_at(tree, k), id).len()
                == 0),
        |k: Seq<u8>|
            if keys.contains(k) {
                posting_bytes(retracted(posting_at(tree, k), id))
            } else {
                tree[k]
            },
    )
}

/// The forward forms of the given labels.
pub open spec fn forward_keys(ls: Seq<LabelModel>) -> Set<Seq<u8>> {
    Set::new(|k: Seq<u8>| exists|i: int| 0 <= i < ls.len() && #[trigger] ls[i].forward() == k)
}

/// The reverse forms of the given labels.
pub open spec fn reverse_keys(ls: Seq<LabelModel>) -> Set<Seq<u8>> {
    Set::new(|k: Seq<u8>| exists|i: int| 0 <= i < ls.len() && #[trigger] ls[i].reverse() == k)
}

/// Both posting indexes can be read at the forms of the given labels.
pub open spec fn indexes_readable(t: Trees, ls: Seq<LabelModel>) -> bool {
    &&& postings_readable(t.kev, forward_keys(ls))
    &&& postings_readable(t.vek, reverse_keys(ls))
}

/// The trees after a document was inserted under `id` with the given payload
/// and label set. `None` where a posting list that had to be read could not
/// be decoded.
pub open spec fn insert_effect(t: Trees, id: u128, payload: Seq<u8>, labels: Seq<LabelModel>)
    -> Option<Trees> {
    if indexes_readable(t, labels) {
        Some(
            Trees {
                doc: t.doc.insert(id_key(id), payload),
                labels: t.labels.insert(id_key(id), label_set_bytes(labels)),
                kev: upsert_keys(t.kev, forward_keys(labels), id),
                vek: upsert_keys(t.vek, reverse_keys(labels), id),
            },
        )
    } else {
        None
    }
}

/// The trees after the document `id` was deleted, and the payload that it
/// had. `None` where a stored value that had to be read could not be decoded.
pub open spec fn delete_effect(t: Trees, id: u128) -> Option<(Trees, Option<Seq<u8>>)> {
    let key = id_key(id);
    if !t.labels.contains_key(key) {
        Some((Trees { doc: t.doc.remove(key), ..t }, lookup(t.doc, key)))
    } else {
        match label_set_of(t.labels[key]) {
            None => None,
            Some(ls) => if indexes_readable(t, ls) {
                Some(
                    (
                        Trees {
                            doc: t.doc.remove(key),
                            labels: t.labels.remove(key),
                            kev: retract_keys(t.kev, forward_keys(ls), id),
                            vek: retract_keys(t.vek, reverse_keys(ls), id),
                        },
                        lookup(t.doc, key),
                    ),
                )
            } else {
                None
            },
        }
    }
}

/// The trees after the given label set was added to the document `id`: no
/// change where the document has no label set. `None` where a stored value
/// that had to be read could not be decoded.
pub open spec fn add_effect(t: Trees, id: u128, labels: Seq<LabelModel>) -> Option<Trees> {
    let key = id_key(id);
    if !t.labels.contains_key(key) {
        Some(t)
    } else {
        match label_set_of(t.labels[key]) {
            None => None,
            Some(had) => if indexes_readable(t, labels) {
                Some(
                    Trees {
                        doc: t.doc,
                        labels: t.labels.insert(
                            key,
                            label_set_bytes(sorted_seq_of(had.to_set().union(labels.to_set()))),
                        ),
                        kev: upsert_keys(t.kev, forward_keys(labels), id),
                        vek: upsert_keys(t.vek, reverse_keys(labels), id),
                    },
                )
            } else {
                None
            },
        }
    }
}

/// The trees after the given label set was taken from the document `id`: no
/// change where the document has no label set. `None` where a stored value
/// that had to be read could not be decoded.
pub open spec fn remove_effect(t: Trees, id: u128, labels: Seq<LabelModel>) -> Option<Trees> {
    let key = id_key(id);
    if !t.labels.contains_key(key) {
        Some(t)
    } else {
        match label_set_of(t.labels[key]) {
            None => None,
            Some(had) => if indexes_readable(t, labels) {
                Some(
                    Trees {
                        doc: t.doc,
                        labels: t.labels.insert(
                            key,
                            label_set_bytes(sorted_seq_of(had.to_set().difference(labels.to_set()))),
                        ),
                        kev: retract_keys(t.kev, forward_keys(labels), id),
                        vek: retract_keys(t.vek, reverse_keys(labels), id),
                    },
                )
            } else {
                None
            },
        }
    }
}

/// Adding an id to a list that holds it already changes nothing.
pub proof fn lemma_upserted_again(ids: Seq<u128>, id: u128)
    ensures
        upserted(upserted(ids, id), id) == upserted(ids, id),
        strictly_sorted(upserted(ids, id)),
        upserted(ids, id).to_set() == ids.to_set().insert(id),
{
    let s = ids.to_set().insert(id);
    vstd::seq_lib::seq_to_set_is_finite(ids);
    lemma_sorted_seq_of(s);
    assert(upserted(ids, id).to_set().insert(id) =~= s);
}

/// Adding `id` under one more key, after it was added under `keys`.
pub proof fn lemma_upsert_step(tree: Map<Seq<u8>, Seq<u8>>, keys: Set<Seq<u8>>, k: Seq<u8>, id: u128)
    requires
        readable_at(tree, k),
    ensures
        upsert_in(upsert_keys(tree, keys, id), k, id) == upsert_keys(tree, keys.insert(k), id),
        readable_at(upsert_keys(tree, keys, id), k),
{
    let now = upsert_keys(tree, keys, id);
    let a = upsert_in(now, k, id);
    let b = upsert_keys(tree, keys.insert(k), id);
    if keys.contains(k) {
        let list = upserted(posting_at(tree, k), id);
        lemma_posting_of_bytes(list);
        lemma_upserted_again(posting_at(tree, k), id);
        assert(posting_at(now, k) == list);
    } else {
        assert(posting_at(now, k) == posting_at(tree, k));
    }
    assert(a =~= b);
}

/// Taking `id` out under one more key, after it was taken out under `keys`.
pub proof fn lemma_downsert_step(
    tree: Map<Seq<u8>, Seq<u8>>,
    keys: Set<Seq<u8>>,
    k: Seq<u8>,
    id: u128,
)
    requires
        readable_at(tree, k),
    ensures
        downsert_in(retract_keys(tree, keys, id), k, id) == retract_keys(tree, keys.insert(k), id),
        readable_at(retract_keys(tree, keys, id), k),
{
    let now = retract_keys(tree, keys, id);
    let a = downsert_in(now, k, id);
    let b = retract_keys(tree, keys.insert(k), id);
    if keys.contains(k) {
        let rest = retracted(posting_at(tree, k), id);
        lemma_posting_of_bytes(rest);
        lemma_retracted(posting_at(tree, k), id);
        lemma_retracted(rest, id);
        if now.contains_key(k) {
            assert(posting_at(now, k) == rest);
            assert(!rest.contains(id));
        }
    } else {
        assert(posting_at(now, k) == posting_at(tree, k));
    }
    assert(a =~= b);
}

/// A tree in which nothing was touched yet.
pub proof fn lemma_no_keys(tree: Map<Seq<u8>, Seq<u8>>, id: u128)
    ensures
        upsert_keys(tree, Set::empty(), id) == tree,
        retract_keys(tree, Set::empty(), id) == tree,
{
    assert(upsert_keys(tree, Set::empty(), id) =~= tree);
    assert(retract_keys(tree, Set::empty(), id) =~= tree);
}

/// The forms of the first `i + 1` labels are those of the first `i` and the
/// forms of the label at `i`.
pub proof fn lemma_keys_step(ls: Seq<LabelModel>, i: int)
    requires
        0 <= i < ls.len(),
    ensures
        forward_keys(ls.take(i + 1)) == forward_keys(ls.take(i)).insert(ls[i].forward()),
        reverse_keys(ls.take(i + 1)) == reverse_keys(ls.take(i)).insert(ls[i].reverse()),
        forward_keys(ls.take(0)) == Set::<Seq<u8>>::empty(),
        reverse_keys(ls.take(0)) == Set::<Seq<u8>>::empty(),
        forward_keys(ls).contains(ls[i].forward()),
        reverse_keys(ls).contains(ls[i].reverse()),
{
    let a = ls.take(i);
    let b = ls.take(i + 1);
    assert(forward_keys(b) =~= forward_keys(a).insert(ls[i].forward())) by {
        assert forall|k: Seq<u8>| forward_keys(b).contains(k) <==> forward_keys(a).insert(
            ls[i].forward(),
        ).contains(k) by {
            if forward_keys(b).contains(k) {
                let j = choose|j: int| 0 <= j < b.len() && #[trigger] b[j].forward() == k;
                if j < i {
                    assert(a[j].forward() == k);
                }
            }
            if forward_keys(a).contains(k) {
                let j = choose|j: int| 0 <= j < a.len() && #[trigger] a[j].forward() == k;
                assert(b[j].forward() == k);
            }
            if k == ls[i].forward() {
                assert(b[i].forward() == k);
            }
        }
    }
    assert(reverse_keys(b) =~= reverse_keys(a).insert(ls[i].reverse())) by {
        assert forall|k: Seq<u8>| reverse_keys(b).contains(k) <==> reverse_keys(a).insert(
            ls[i].reverse(),
        ).contains(k) by {
            if reverse_keys(b).contains(k) {
                let j = choose|j: int| 0 <= j < b.len() && #[trigger] b[j].reverse() == k;
                if j < i {
                    assert(a[j].reverse() == k);
                }
            }
            if reverse_keys(a).contains(k) {
                let j = choose|j: int| 0 <= j < a.len() && #[trigger] a[j].reverse() == k;
                assert(b[j].reverse() == k);
            }
            if k == ls[i].reverse() {
                assert(b[i].reverse() == k);
            }
        }
    }
    assert(forward_keys(ls.take(0)) =~= Set::<Seq<u8>>::empty());
    assert(reverse_keys(ls.take(0)) =~= Set::<Seq<u8>>::empty());
    assert(ls[i].forward() == ls[i].forward());
    assert(ls[i].reverse() == ls[i].reverse());
}

/// Labels with the same elements have the same forms.
pub proof fn lemma_keys_of_same_labels(a: Seq<LabelModel>, b: Seq<LabelModel>)
    requires
        a.to_set() == b.to_set(),
    ensures
        forward_keys(a) == forward_keys(b),
        reverse_keys(a) == reverse_keys(b),
{
    assert forall|k: Seq<u8>| forward_keys(a).contains(k) <==> forward_keys(b).contains(k) by {
        if forward_keys(a).contains(k) {
            let j = choose|j: int| 0 <= j < a.len() && #[trigger] a[j].forward() == k;
            assert(a.to_set().contains(a[j]));
            let m = choose|m: int| 0 <= m < b.len() && b[m] == a[j];
            assert(b[m].forward() == k);
        }
        if forward_keys(b).contains(k) {
            let j = choose|j: int| 0 <= j < b.len() && #[trigger] b[j].forward() == k;
            assert(b.to_set().contains(b[j]));
            let m = choose|m: int| 0 <= m < a.len() && a[m] == b[j];
            assert(a[m].forward() == k);
        }
    }
    assert forall|k: Seq<u8>| reverse_keys(a).contains(k) <==> reverse_keys(b).contains(k) by {
        if reverse_keys(a).contains(k) {
            let j = choose|j: int| 0 <= j < a.len() && #[trigger] a[j].reverse() == k;
            assert(a.to_set().contains(a[j]));
            let m = choose|m: int| 0 <= m < b.len() && b[m] == a[j];
            assert(b[m].reverse() == k);
        }
        if reverse_keys(b).contains(k) {
            let j = choose|j: int| 0 <= j < b.len() && #[trigger] b[j].reverse() == k;
            assert(b.to_set().contains(b[j]));
            let m = choose|m: int| 0 <= m < a.len() && a[m] == b[j];
            assert(a[m].reverse() == k);
        }
    }
    assert(forward_keys(a) =~= forward_keys(b));
    assert(reverse_keys(a) =~= reverse_keys(b));
}

} // verus!

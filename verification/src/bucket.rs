//! Buckets: named sets of labelled documents.
//!
//! A bucket reads its trees directly and changes them only through
//! transactions. What a read of the engine returns is not known in advance,
//! so each operation is made of the call of the engine and a function that
//! says exactly what the store makes of every possible answer.

use crate::bytes::starts_with;
use crate::docid::{document_key, id_key, node_bytes};
use crate::engine::{drop_tree, run_transaction, scan_prefix_keys, tree_get, tree_label};
use crate::errors::McError;
use crate::label::{
    lemma_forward_of_parse_forward, lemma_reverse_of_parse_reverse, parse_forward, parse_reverse,
    Label, LabelModel,
};
use crate::label_set::{decode_labels, label_set_of, DocumentLabelSet};
use crate::mango::MangoChainsaw;
use crate::names::{holds_reserved, is_bucket_name, tree_name, tree_name_of, TreeKind};
use crate::order::{models, sorted_seq_of, strictly_sorted};
use crate::posting::{common_ids, decode_posting, intersect_postings, lists_view, posting_of};
use crate::bytes::text_bytes;
use crate::tx::Mutation;
use vstd::prelude::*;

verus! {

/// What the store makes of an answer of the engine: a failure of the engine
/// becomes `Engine`.
pub fn engine_answer<T>(answer: Result<T, sled::Error>) -> (r: Result<T, McError>)
    ensures
        match answer {
            Ok(v) => r == Ok::<T, McError>(v),
            Err(_) => r == Err::<T, McError>(McError::Engine),
        },
{
    match answer {
        Ok(v) => Ok(v),
        Err(_) => Err(McError::Engine),
    }
}

/// The labels of a document, from what its entry in the label tree holds:
/// none where there is no entry, `Codec` where the entry cannot be decoded.
pub fn stored_labels(stored: Option<Vec<u8>>) -> (r: Result<Option<Vec<Label>>, McError>)
    ensures
        match stored {
            None => r matches Ok(None),
            Some(raw) => match label_set_of(raw@) {
                Some(ls) => r matches Ok(Some(v)) && models(v@) == ls,
                None => r matches Err(McError::Codec),
            },
        },
{
    match stored {
        None => Ok(None),
        Some(raw) => match decode_labels(raw.as_slice()) {
            Some(labels) => Ok(Some(labels)),
            None => Err(McError::Codec),
        },
    }
}

/// The documents of a label, from what its entry in the posting index holds:
/// none where there is no entry, `Codec` where the entry cannot be decoded.
pub fn stored_posting(stored: Option<Vec<u8>>) -> (r: Result<Option<Vec<u128>>, McError>)
    ensures
        match stored {
            None => r matches Ok(None),
            Some(raw) => match posting_of(raw@) {
                Some(ids) => r matches Ok(Some(v)) && v@ == ids,
                None => r matches Err(McError::Codec),
            },
        },
{
    match stored {
        None => Ok(None),
        Some(raw) => match decode_posting(raw.as_slice()) {
            Some(ids) => Ok(Some(ids)),
            None => Err(McError::Codec),
        },
    }
}

/// The posting list of an entry of a posting index; empty where there is no
/// entry.
pub open spec fn entry_posting(stored: Option<Vec<u8>>) -> Option<Seq<u128>> {
    match stored {
        None => Some(Seq::empty()),
        Some(raw) => posting_of(raw@),
    }
}

/// All entries can be decoded.
pub open spec fn entries_readable(stored: Seq<Option<Vec<u8>>>) -> bool {
    forall|i: int| 0 <= i < stored.len() ==> entry_posting(#[trigger] stored[i]) is Some
}

/// The posting lists of the entries, in their order.
pub open spec fn entry_postings(stored: Seq<Option<Vec<u8>>>) -> Seq<Seq<u128>> {
    Seq::new(stored.len(), |i: int| entry_posting(stored[i])->Some_0)
}

/// The documents that carry every label of a query, from the entries of the
/// posting index for the labels: the ids that all the posting lists hold,
/// sorted and each once. A label without an entry has no documents, and a
/// query without labels finds nothing. `Codec` where an entry cannot be
/// decoded.
pub fn search_stored(stored: &Vec<Option<Vec<u8>>>) -> (r: Result<Vec<u128>, McError>)
    ensures
        r is Ok <==> entries_readable(stored@),
        r matches Ok(ids) ==> ids@ == sorted_seq_of(common_ids(entry_postings(stored@)))
            && strictly_sorted(ids@),
        r matches Err(e) ==> e == McError::Codec,
{
    let mut lists: Vec<Vec<u128>> = Vec::new();
    let mut i: usize = 0;
    while i < stored.len()
        invariant
            i <= stored.len(),
            lists@.len() == i,
            forall|j: int| 0 <= j < i ==> entry_posting(#[trigger] stored@[j]) == Some(lists@[j]@),
        decreases stored.len() - i,
    {
        let list: Vec<u128> = match &stored[i] {
            None => Vec::new(),
            Some(raw) => match decode_posting(raw.as_slice()) {
                Some(ids) => ids,
                None => {
                    return Err(McError::Codec);
                },
            },
        };
        lists.push(list);
        i = i + 1;
    }
    proof {
        assert(lists_view(lists@) =~= entry_postings(stored@));
    }
    Ok(intersect_postings(&lists))
}

/// The forward forms of the labels of a sequence.
pub open spec fn forward_forms(ls: Seq<LabelModel>) -> Seq<Seq<u8>> {
    Seq::new(ls.len(), |i: int| ls[i].forward())
}

/// The reverse forms of the labels of a sequence.
pub open spec fn reverse_forms(ls: Seq<LabelModel>) -> Seq<Seq<u8>> {
    Seq::new(ls.len(), |i: int| ls[i].reverse())
}

/// The byte strings of a vector of keys.
pub open spec fn keys_view(keys: Seq<Vec<u8>>) -> Seq<Seq<u8>> {
    Seq::new(keys.len(), |i: int| keys[i]@)
}

/// The labels that keys of the key-first index stand for, in the order of
/// the keys. The first key that is no label gives its error: `Format` for
/// bytes that are not UTF-8, `InvalidLabel` for text without a separator.
pub fn labels_of_keys(keys: &Vec<Vec<u8>>) -> (r: Result<Vec<Label>, McError>)
    ensures
        r is Ok <==> (forall|i: int| 0 <= i < keys@.len() ==> parse_forward(
            (#[trigger] keys@[i])@,
        ) is Ok),
        r matches Ok(v) ==> forward_forms(models(v@)) == keys_view(keys@) && (forall|
            m: LabelModel,
        | models(v@).contains(m) ==> m.well_formed()),
        r matches Err(e) ==> exists|i: int|
            0 <= i < keys@.len() && parse_forward((#[trigger] keys@[i])@) == Err::<
                LabelModel,
                McError,
            >(e) && forall|j: int| 0 <= j < i ==> parse_forward((#[trigger] keys@[j])@) is Ok,
{
    let mut out: Vec<Label> = Vec::new();
    let mut i: usize = 0;
    while i < keys.len()
        invariant
            i <= keys.len(),
            out@.len() == i,
            forall|j: int| 0 <= j < i ==> parse_forward((#[trigger] keys@[j])@) == Ok::<
                LabelModel,
                McError,
            >(out@[j]@),
        decreases keys.len() - i,
    {
        match Label::from_bytes(keys[i].as_slice()) {
            Ok(label) => {
                out.push(label);
            },
            Err(e) => {
                return Err(e);
            },
        }
        i = i + 1;
    }
    proof {
        assert forall|j: int| 0 <= j < keys@.len() implies forward_forms(models(out@))[j]
            == keys_view(keys@)[j] by {
            assert(parse_forward(keys@[j]@) is Ok);
            lemma_forward_of_parse_forward(keys@[j]@);
        }
        assert(forward_forms(models(out@)) =~= keys_view(keys@));
        assert forall|m: LabelModel| models(out@).contains(m) implies m.well_formed() by {
            let k = choose|k: int| 0 <= k < models(out@).len() && models(out@)[k] == m;
            assert(parse_forward(keys@[k]@) is Ok);
            lemma_forward_of_parse_forward(keys@[k]@);
        }
    }
    Ok(out)
}

/// The labels that keys of the value-first index stand for, in the order of
/// the keys. The first key that is no label gives its error.
pub fn labels_of_reverse_keys(keys: &Vec<Vec<u8>>) -> (r: Result<Vec<Label>, McError>)
    ensures
        r is Ok <==> (forall|i: int| 0 <= i < keys@.len() ==> parse_reverse(
            (#[trigger] keys@[i])@,
        ) is Ok),
        r matches Ok(v) ==> reverse_forms(models(v@)) == keys_view(keys@) && (forall|
            m: LabelModel,
        | models(v@).contains(m) ==> m.well_formed()),
        r matches Err(e) ==> exists|i: int|
            0 <= i < keys@.len() && parse_reverse((#[trigger] keys@[i])@) == Err::<
                LabelModel,
                McError,
            >(e) && forall|j: int| 0 <= j < i ==> parse_reverse((#[trigger] keys@[j])@) is Ok,
{
    let mut out: Vec<Label> = Vec::new();
    let mut i: usize = 0;
    while i < keys.len()
        invariant
            i <= keys.len(),
            out@.len() == i,
            forall|j: int| 0 <= j < i ==> parse_reverse((#[trigger] keys@[j])@) == Ok::<
                LabelModel,
                McError,
            >(out@[j]@),
        decreases keys.len() - i,
    {
        match Label::from_bytes_rev(keys[i].as_slice()) {
            Ok(label) => {
                out.push(label);
            },
            Err(e) => {
                return Err(e);
            },
        }
        i = i + 1;
    }
    proof {
        assert forall|j: int| 0 <= j < keys@.len() implies reverse_forms(models(out@))[j]
            == keys_view(keys@)[j] by {
            assert(parse_reverse(keys@[j]@) is Ok);
            lemma_reverse_of_parse_reverse(keys@[j]@);
        }
        assert(reverse_forms(models(out@)) =~= keys_view(keys@));
        assert forall|m: LabelModel| models(out@).contains(m) implies m.well_formed() by {
            let k = choose|k: int| 0 <= k < models(out@).len() && models(out@)[k] == m;
            assert(parse_reverse(keys@[k]@) is Ok);
            lemma_reverse_of_parse_reverse(keys@[k]@);
        }
    }
    Ok(out)
}

/// Reads the entry under `key` from the tree of the given kind of a bucket.
/// The handle has to be the one to that tree.
fn read_entry(bucket: &str, kind: TreeKind, tree: &sled::Tree, key: &[u8]) -> (r: Result<
    Option<Vec<u8>>,
    McError,
>)
    requires
        tree_label(*tree) == tree_name(text_bytes(bucket@), kind),
    ensures
        r matches Err(e) ==> e == McError::Engine,
{
    engine_answer(tree_get(tree, key))
}

/// The keys that start with `prefix` in the tree of the given kind of a
/// bucket, in ascending order. The handle has to be the one to that tree.
fn scan_keys(bucket: &str, kind: TreeKind, tree: &sled::Tree, prefix: &[u8]) -> (r: Result<
    Vec<Vec<u8>>,
    McError,
>)
    requires
        tree_label(*tree) == tree_name(text_bytes(bucket@), kind),
    ensures
        r matches Ok(keys) ==> {
            &&& forall|i: int| 0 <= i < keys@.len() ==> starts_with((#[trigger] keys@[i])@, prefix@)
            &&& strictly_sorted(Seq::new(keys@.len(), |i: int| keys@[i]@))
        },
        r matches Err(e) ==> e == McError::Engine,
{
    engine_answer(scan_prefix_keys(tree, prefix))
}

/// Runs a change as one transaction over the four trees of a bucket. Each
/// handle has to be the one to the tree of its kind.
fn change_trees(
    bucket: &str,
    docs: &sled::Tree,
    labels: &sled::Tree,
    kev: &sled::Tree,
    vek: &sled::Tree,
    op: &Mutation,
) -> (r: Result<Option<Vec<u8>>, McError>)
    requires
        tree_label(*docs) == tree_name(text_bytes(bucket@), TreeKind::Doc),
        tree_label(*labels) == tree_name(text_bytes(bucket@), TreeKind::Labels),
        tree_label(*kev) == tree_name(text_bytes(bucket@), TreeKind::Kev),
        tree_label(*vek) == tree_name(text_bytes(bucket@), TreeKind::Vek),
    ensures
        r matches Err(e) ==> e == McError::Engine || e == McError::Codec,
{
    run_transaction(docs, labels, kev, vek, op)
}

/// A handle to one bucket of a store.
#[derive(Debug)]
pub struct McBucket {
    parent: MangoChainsaw,
    name: String,
    documents: sled::Tree,
    labels_kev: sled::Tree,
    labels_vek: sled::Tree,
    docs_labels: sled::Tree,
}

impl McBucket {
    /// Opens the bucket `name` of a store, creating its trees where they are
    /// not there yet. A name that holds two colons in a row is refused.
    pub fn new(parent: &MangoChainsaw, name: &str) -> (r: Result<McBucket, McError>)
        ensures
            holds_reserved(text_bytes(name@)) <==> r matches Err(McError::InvalidBucketName),
            r matches Err(e) ==> e == McError::InvalidBucketName || e == McError::Engine,
            r matches Ok(b) ==> b.spec_name() == name@ && b.holds_its_trees(),
    {
        if !is_bucket_name(name) {
            return Err(McError::InvalidBucketName);
        }
        let documents = match parent.get_tree(tree_name_of(name, TreeKind::Doc).as_slice()) {
            Ok(t) => t,
            Err(e) => {
                return Err(e);
            },
        };
        let labels_kev = match parent.get_tree(tree_name_of(name, TreeKind::Kev).as_slice()) {
            Ok(t) => t,
            Err(e) => {
                return Err(e);
            },
        };
        let labels_vek = match parent.get_tree(tree_name_of(name, TreeKind::Vek).as_slice()) {
            Ok(t) => t,
            Err(e) => {
                return Err(e);
            },
        };
        let docs_labels = match parent.get_tree(tree_name_of(name, TreeKind::Labels).as_slice()) {
            Ok(t) => t,
            Err(e) => {
                return Err(e);
            },
        };
        Ok(
            McBucket {
                parent: parent.clone(),
                name: name.to_owned(),
                documents,
                labels_kev,
                labels_vek,
                docs_labels,
            },
        )
    }

    /// The name of the bucket, as a sequence of characters.
    pub closed spec fn spec_name(&self) -> Seq<char> {
        self.name@
    }

    /// The four handles of the bucket are to the trees that the engine keeps
    /// under the names of the bucket's trees, and the name is free of two
    /// colons in a row. This holds of every bucket.
    #[verifier::type_invariant]
    pub closed spec fn holds_its_trees(&self) -> bool {
        &&& !holds_reserved(text_bytes(self.name@))
        &&& tree_label(self.documents) == tree_name(text_bytes(self.name@), TreeKind::Doc)
        &&& tree_label(self.docs_labels) == tree_name(text_bytes(self.name@), TreeKind::Labels)
        &&& tree_label(self.labels_kev) == tree_name(text_bytes(self.name@), TreeKind::Kev)
        &&& tree_label(self.labels_vek) == tree_name(text_bytes(self.name@), TreeKind::Vek)
    }

    /// The name of the bucket.
    pub fn name(&self) -> (n: &str)
        ensures
            n@ == self.spec_name(),
    {
        self.name.as_str()
    }

    /// The payload of the document `id`, or none where there is no such
    /// document.
    pub fn get(&self, id: u128) -> (r: Result<Option<Vec<u8>>, McError>)
        ensures
            r matches Err(e) ==> e == McError::Engine,
    {
        proof {
            use_type_invariant(self);
        }
        read_entry(
            self.name.as_str(),
            TreeKind::Doc,
            &self.documents,
            document_key(id).as_slice(),
        )
    }

    /// The payloads of the given documents, in the order of the ids. Without
    /// ids nothing is read and nothing is found.
    pub fn get_many(&self, ids: Vec<u128>) -> (r: Result<Vec<(u128, Option<Vec<u8>>)>, McError>)
        ensures
            ids@.len() == 0 ==> (r matches Ok(found) && found@.len() == 0),
            r matches Ok(found) ==> found@.len() == ids@.len() && forall|i: int|
                0 <= i < ids@.len() ==> (#[trigger] found@[i]).0 == ids@[i],
            r matches Err(e) ==> e == McError::Engine,
    {
        let mut found: Vec<(u128, Option<Vec<u8>>)> = Vec::new();
        let mut i: usize = 0;
        while i < ids.len()
            invariant
                i <= ids.len(),
                found@.len() == i,
                forall|j: int| 0 <= j < i ==> (#[trigger] found@[j]).0 == ids@[j],
            decreases ids.len() - i,
        {
            let id = ids[i];
            match self.get(id) {
                Ok(payload) => {
                    found.push((id, payload));
                },
                Err(e) => {
                    return Err(e);
                },
            }
            i = i + 1;
        }
        Ok(found)
    }

    /// The labels of the document `id`, or none where it has no label set.
    pub fn get_document_labels(&self, id: u128) -> (r: Result<Option<Vec<Label>>, McError>)
        ensures
            r matches Err(e) ==> e == McError::Engine || e == McError::Codec,
            r matches Ok(Some(v)) ==> forall|m: LabelModel|
                models(v@).contains(m) ==> m.well_formed(),
    {
        proof {
            use_type_invariant(self);
        }
        let stored = match read_entry(
            self.name.as_str(),
            TreeKind::Labels,
            &self.docs_labels,
            document_key(id).as_slice(),
        ) {
            Ok(stored) => stored,
            Err(e) => {
                return Err(e);
            },
        };
        proof {
            if stored is Some {
                let raw = stored->Some_0;
                if label_set_of(raw@) is Some {
                    crate::label_set::lemma_stored_labels_well_formed(raw@);
                }
            }
        }
        stored_labels(stored)
    }

    /// Stores a document with its labels, and answers the id that it got.
    ///
    /// The labels are sorted and freed of duplicates first. A label whose key
    /// holds the separator is refused, and nothing is stored.
    pub fn insert(&self, doc: Vec<u8>, labels: Vec<Label>) -> (r: Result<u128, McError>)
        ensures
            r matches Err(McError::InvalidLabel) <==> !(forall|m: LabelModel|
                models(labels@).contains(m) ==> m.well_formed()),
            r matches Err(e) ==> e == McError::InvalidLabel || e == McError::Engine || e
                == McError::Codec,
            r matches Ok(id) ==> exists|counter: u64|
                id_key(id).subrange(10, 16) == #[trigger] node_bytes(counter),
    {
        let set = match DocumentLabelSet::new(labels) {
            Ok(set) => set,
            Err(e) => {
                return Err(e);
            },
        };
        let id = match self.parent.next_id() {
            Ok(id) => id,
            Err(e) => {
                return Err(e);
            },
        };
        let op = Mutation::Insert { id, payload: doc, labels: set };
        match self.transact(&op) {
            Ok(_) => Ok(id),
            Err(e) => Err(e),
        }
    }

    /// Removes the document `id`, its labels and its entries in the posting
    /// lists, and answers the payload that it had.
    pub fn delete(&self, id: u128) -> (r: Result<Option<Vec<u8>>, McError>)
        ensures
            r matches Err(e) ==> e == McError::Engine || e == McError::Codec,
    {
        let op = Mutation::Delete { id };
        self.transact(&op)
    }

    /// The ids of the documents that carry all the given labels, sorted. A
    /// query without labels finds nothing.
    ///
    /// A label whose entry the engine fails to read counts as a label without
    /// documents. A label whose key holds the separator is refused.
    pub fn search_inclusive(&self, labels: Vec<Label>) -> (r: Result<Vec<u128>, McError>)
        ensures
            r matches Err(McError::InvalidLabel) <==> !(forall|m: LabelModel|
                models(labels@).contains(m) ==> m.well_formed()),
            r matches Err(e) ==> e == McError::InvalidLabel || e == McError::Codec,
            r matches Ok(ids) ==> strictly_sorted(ids@),
            labels@.len() == 0 ==> (r matches Ok(ids) && ids@.len() == 0),
    {
        proof {
            use_type_invariant(self);
            if labels@.len() == 0 {
                assert forall|m: LabelModel| models(labels@).contains(m) implies m.well_formed() by {
                    let k = choose|k: int| 0 <= k < models(labels@).len() && models(labels@)[k] == m;
                }
                assert(models(labels@).to_set() =~= Set::<LabelModel>::empty());
                crate::order::lemma_sorted_seq_of(Set::<LabelModel>::empty());
            }
        }
        let ghost asked = labels@.len();
        let set = match DocumentLabelSet::new(labels) {
            Ok(set) => set,
            Err(e) => {
                return Err(e);
            },
        };
        let mut stored: Vec<Option<Vec<u8>>> = Vec::new();
        let n = set.len();
        proof {
            if asked == 0 && n > 0 {
                assert(set@.to_set().contains(set@[0]));
            }
        }
        let mut i: usize = 0;
        while i < n
            invariant
                i <= n,
                n == set@.len(),
                stored@.len() == i,
                self.holds_its_trees(),
            decreases n - i,
        {
            let key = set.get(i).unwrap().as_bytes();
            match read_entry(self.name.as_str(), TreeKind::Kev, &self.labels_kev, key.as_slice()) {
                Ok(found) => {
                    stored.push(found);
                },
                Err(_) => {
                    stored.push(None);
                },
            }
            i = i + 1;
        }
        let r = search_stored(&stored);
        proof {
            if asked == 0 {
                assert(stored@.len() == 0);
                assert(entries_readable(stored@));
                let ids = r->Ok_0;
                assert(common_ids(entry_postings(stored@)) =~= Set::<u128>::empty());
                crate::order::lemma_sorted_seq_of(Set::<u128>::empty());
                if ids@.len() > 0 {
                    assert(ids@.to_set().contains(ids@[0]));
                }
            }
        }
        r
    }

    /// The labels in use whose forward form starts with `key`, in the order
    /// of their forward forms.
    pub fn label_name_search(&self, key: &str) -> (r: Result<Vec<Label>, McError>)
        ensures
            r matches Ok(v) ==> {
                &&& strictly_sorted(forward_forms(models(v@)))
                &&& forall|i: int|
                    0 <= i < v@.len() ==> starts_with(
                        (#[trigger] models(v@)[i]).forward(),
                        text_bytes(key@),
                    )
                &&& forall|m: LabelModel| models(v@).contains(m) ==> m.well_formed()
            },
            r matches Err(e) ==> e == McError::Engine || exists|k: Seq<u8>|
                starts_with(k, text_bytes(key@)) && #[trigger] parse_forward(k) == Err::<
                    LabelModel,
                    McError,
                >(e),
    {
        proof {
            use_type_invariant(self);
        }
        let keys = match scan_keys(
            self.name.as_str(),
            TreeKind::Kev,
            &self.labels_kev,
            key.as_bytes(),
        ) {
            Ok(keys) => keys,
            Err(e) => {
                return Err(e);
            },
        };
        let r = labels_of_keys(&keys);
        proof {
            if r is Err {
                let e = r->Err_0;
                let i = choose|i: int|
                    0 <= i < keys@.len() && parse_forward((#[trigger] keys@[i])@) == Err::<
                        LabelModel,
                        McError,
                    >(e);
                assert(starts_with(keys@[i]@, text_bytes(key@)));
            }
            if r is Ok {
                let v = r->Ok_0;
                assert(keys_view(keys@) =~= Seq::new(keys@.len(), |i: int| keys@[i]@));
                assert forall|i: int| 0 <= i < v@.len() implies starts_with(
                    (#[trigger] models(v@)[i]).forward(),
                    text_bytes(key@),
                ) by {
                    assert(forward_forms(models(v@))[i] == keys_view(keys@)[i]);
                    assert(starts_with(keys@[i]@, text_bytes(key@)));
                }
            }
        }
        r
    }

    /// The labels in use whose reverse form starts with `value`, in the order
    /// of their reverse forms: by value, then by key.
    pub fn label_value_search(&self, value: &str) -> (r: Result<Vec<Label>, McError>)
        ensures
            r matches Ok(v) ==> {
                &&& strictly_sorted(reverse_forms(models(v@)))
                &&& forall|i: int|
                    0 <= i < v@.len() ==> starts_with(
                        (#[trigger] models(v@)[i]).reverse(),
                        text_bytes(value@),
                    )
                &&& forall|m: LabelModel| models(v@).contains(m) ==> m.well_formed()
            },
            r matches Err(e) ==> e == McError::Engine || exists|k: Seq<u8>|
                starts_with(k, text_bytes(value@)) && #[trigger] parse_reverse(k) == Err::<
                    LabelModel,
                    McError,
                >(e),
    {
        proof {
            use_type_invariant(self);
        }
        let keys = match scan_keys(
            self.name.as_str(),
            TreeKind::Vek,
            &self.labels_vek,
            value.as_bytes(),
        ) {
            Ok(keys) => keys,
            Err(e) => {
                return Err(e);
            },
        };
        let r = labels_of_reverse_keys(&keys);
        proof {
            if r is Err {
                let e = r->Err_0;
                let i = choose|i: int|
                    0 <= i < keys@.len() && parse_reverse((#[trigger] keys@[i])@) == Err::<
                        LabelModel,
                        McError,
                    >(e);
                assert(starts_with(keys@[i]@, text_bytes(value@)));
            }
            if r is Ok {
                let v = r->Ok_0;
                assert(keys_view(keys@) =~= Seq::new(keys@.len(), |i: int| keys@[i]@));
                assert forall|i: int| 0 <= i < v@.len() implies starts_with(
                    (#[trigger] models(v@)[i]).reverse(),
                    text_bytes(value@),
                ) by {
                    assert(reverse_forms(models(v@))[i] == keys_view(keys@)[i]);
                    assert(starts_with(keys@[i]@, text_bytes(value@)));
                }
            }
        }
        r
    }

    /// The ids of the documents that carry `label`, or none where no
    /// document does. A label whose key holds the separator is refused.
    pub fn get_label(&self, label: Label) -> (r: Result<Option<Vec<u128>>, McError>)
        ensures
            r matches Err(McError::InvalidLabel) <==> !label@.well_formed(),
            r matches Err(e) ==> e == McError::InvalidLabel || e == McError::Engine || e
                == McError::Codec,
    {
        if !label.is_well_formed() {
            return Err(McError::InvalidLabel);
        }
        proof {
            use_type_invariant(self);
        }
        let stored = match read_entry(
            self.name.as_str(),
            TreeKind::Kev,
            &self.labels_kev,
            label.as_bytes().as_slice(),
        ) {
            Ok(stored) => stored,
            Err(e) => {
                return Err(e);
            },
        };
        stored_posting(stored)
    }

    /// Attaches labels to the document `id`. Nothing is done where the
    /// document has no label set. A label whose key holds the separator is
    /// refused.
    pub fn add_document_labels(&self, id: u128, labels: Vec<Label>) -> (r: Result<(), McError>)
        ensures
            r matches Err(McError::InvalidLabel) <==> !(forall|m: LabelModel|
                models(labels@).contains(m) ==> m.well_formed()),
            r matches Err(e) ==> e == McError::InvalidLabel || e == McError::Engine || e
                == McError::Codec,
    {
        let set = match DocumentLabelSet::new(labels) {
            Ok(set) => set,
            Err(e) => {
                return Err(e);
            },
        };
        let op = Mutation::AddLabels { id, labels: set };
        match self.transact(&op) {
            Ok(_) => Ok(()),
            Err(e) => Err(e),
        }
    }

    /// Takes labels from the document `id`. Nothing is done where the
    /// document has no label set. A label whose key holds the separator is
    /// refused.
    pub fn remove_document_labels(&self, id: u128, labels: Vec<Label>) -> (r: Result<(), McError>)
        ensures
            r matches Err(McError::InvalidLabel) <==> !(forall|m: LabelModel|
                models(labels@).contains(m) ==> m.well_formed()),
            r matches Err(e) ==> e == McError::InvalidLabel || e == McError::Engine || e
                == McError::Codec,
    {
        let set = match DocumentLabelSet::new(labels) {
            Ok(set) => set,
            Err(e) => {
                return Err(e);
            },
        };
        let op = Mutation::RemoveLabels { id, labels: set };
        match self.transact(&op) {
            Ok(_) => Ok(()),
            Err(e) => Err(e),
        }
    }

    /// Runs a change as one transaction over the four trees of the bucket.
    fn transact(&self, op: &Mutation) -> (r: Result<Option<Vec<u8>>, McError>)
        ensures
            r matches Err(e) ==> e == McError::Engine || e == McError::Codec,
    {
        proof {
            use_type_invariant(self);
        }
        change_trees(
            self.name.as_str(),
            &self.documents,
            &self.docs_labels,
            &self.labels_kev,
            &self.labels_vek,
            op,
        )
    }

    /// Removes the four trees of the bucket from the engine. A tree that is
    /// not there is passed over; the first failure of the engine ends the
    /// call, and the trees behind it stay.
    pub fn drop_bucket(&self) -> (r: Result<(), McError>)
        ensures
            r matches Err(e) ==> e == McError::Engine,
    {
        let name = self.name.as_str();
        match engine_answer(drop_tree(&self.parent.db, tree_name_of(name, TreeKind::Doc).as_slice())) {
            Ok(_) => {},
            Err(e) => {
                return Err(e);
            },
        }
        match engine_answer(drop_tree(&self.parent.db, tree_name_of(name, TreeKind::Kev).as_slice())) {
            Ok(_) => {},
            Err(e) => {
                return Err(e);
            },
        }
        match engine_answer(drop_tree(&self.parent.db, tree_name_of(name, TreeKind::Vek).as_slice())) {
            Ok(_) => {},
            Err(e) => {
                return Err(e);
            },
        }
        match engine_answer(drop_tree(&self.parent.db, tree_name_of(name, TreeKind::Labels).as_slice())) {
            Ok(_) => Ok(()),
            Err(e) => Err(e),
        }
    }
}

impl Clone for McBucket {
    /// Another handle to the same bucket.
    fn clone(&self) -> (b: McBucket)
        ensures
            b.spec_name() == self.spec_name(),
    {
        proof {
            use_type_invariant(self);
        }
        McBucket {
            parent: self.parent.clone(),
            name: self.name.clone(),
            documents: self.documents.clone(),
            labels_kev: self.labels_kev.clone(),
            labels_vek: self.labels_vek.clone(),
            docs_labels: self.docs_labels.clone(),
        }
    }
}

} // verus!

//! The store: a handle to the engine that hands out buckets.

use crate::bucket::{engine_answer, McBucket};
use crate::docid::{id_key, node_bytes, node_id};
use crate::engine::{
    fresh_id, next_counter, open_engine, open_tree, tree_label, tree_names,
};
use crate::errors::McError;
use crate::bytes::text_bytes;
use crate::names::{bucket_names, buckets_in, holds_reserved, names_view};
use crate::order::{models, sorted_seq_of};
use vstd::prelude::*;

verus! {

/// A store of buckets on one engine.
#[derive(Clone, Debug)]
pub struct MangoChainsaw {
    pub(crate) db: sled::Db,
}

impl MangoChainsaw {
    /// Opens the store that the configuration describes, creating it where
    /// it is not there yet.
    pub fn new(config: sled::Config) -> (r: Result<MangoChainsaw, McError>)
        ensures
            r matches Err(e) ==> e == McError::Engine,
    {
        match engine_answer(open_engine(&config)) {
            Ok(db) => Ok(MangoChainsaw { db }),
            Err(e) => Err(e),
        }
    }

    /// Opens the tree that the engine keeps under the given name.
    pub(crate) fn get_tree(&self, name: &[u8]) -> (r: Result<sled::Tree, McError>)
        ensures
            r matches Ok(t) ==> tree_label(t) == name@,
            r matches Err(e) ==> e == McError::Engine,
    {
        engine_answer(open_tree(&self.db, name))
    }

    /// A fresh document id. Its last six bytes come from the engine's
    /// counter; the rest is taken from the clock.
    pub fn next_id(&self) -> (r: Result<u128, McError>)
        ensures
            r matches Ok(id) ==> exists|counter: u64|
                id_key(id).subrange(10, 16) == #[trigger] node_bytes(counter),
            r matches Err(e) ==> e == McError::Engine,
    {
        let counter = match engine_answer(next_counter(&self.db)) {
            Ok(c) => c,
            Err(e) => {
                return Err(e);
            },
        };
        let node = node_id(counter);
        let id = fresh_id(&node);
        proof {
            assert(id_key(id).subrange(10, 16) == node_bytes(counter));
        }
        Ok(id)
    }

    /// Opens the bucket `name`, creating it where it is not there yet. A
    /// name that holds two colons in a row is refused.
    pub fn get_bucket(&self, name: &str) -> (r: Result<McBucket, McError>)
        ensures
            holds_reserved(text_bytes(name@)) <==> r matches Err(McError::InvalidBucketName),
            r matches Err(e) ==> e == McError::InvalidBucketName || e == McError::Engine,
            r matches Ok(b) ==> b.spec_name() == name@ && b.holds_its_trees(),
    {
        McBucket::new(self, name)
    }

    /// The names of the buckets of the store, sorted and each once. A listed
    /// name is what stands before the first two colons of a tree's name, so
    /// it holds no two colons in a row and does not end in a colon.
    pub fn list_buckets(&self) -> (r: Result<Vec<String>, McError>)
        ensures
            r matches Err(e) ==> e == McError::Format,
            r matches Ok(v) ==> crate::order::strictly_sorted(models(v@)),
            r matches Ok(v) ==> forall|i: int|
                0 <= i < v@.len() ==> !holds_reserved(#[trigger] models(v@)[i]) && (models(
                    v@,
                )[i].len() == 0 || models(v@)[i].last() != crate::names::COLON),
    {
        let names = tree_names(&self.db);
        let r = bucket_names(&names);
        proof {
            if r is Ok {
                let v = r->Ok_0;
                let all = names_view(names@);
                let s = buckets_in(all);
                assert(models(v@) == sorted_seq_of(s));
                lemma_finite_buckets(all);
                crate::order::lemma_sorted_seq_of(s);
                assert forall|i: int| 0 <= i < v@.len() implies !holds_reserved(
                    #[trigger] models(v@)[i],
                ) && (models(v@)[i].len() == 0 || models(v@)[i].last()
                    != crate::names::COLON) by {
                    let b = models(v@)[i];
                    assert(models(v@).contains(b));
                    assert(s.contains(b));
                    let j = choose|j: int|
                        0 <= j < all.len() && crate::names::bucket_of(#[trigger] all[j]) == Some(b);
                    crate::names::lemma_bucket_is_a_bucket_name(all[j]);
                }
            }
        }
        r
    }

    /// Removes the bucket `name` with all that it holds. This cannot be
    /// undone.
    pub fn drop_bucket(&self, name: &str) -> (r: Result<(), McError>)
        ensures
            holds_reserved(text_bytes(name@)) <==> r matches Err(McError::InvalidBucketName),
            r matches Err(e) ==> e == McError::InvalidBucketName || e == McError::Engine,
    {
        match McBucket::new(self, name) {
            Ok(b) => b.drop_bucket(),
            Err(e) => Err(e),
        }
    }
}

/// Finitely many tree names belong to finitely many buckets.
pub proof fn lemma_finite_buckets(names: Seq<Seq<u8>>)
    ensures
        buckets_in(names).finite(),
    decreases names.len(),
{
    if names.len() == 0 {
        assert(buckets_in(names) =~= Set::<Seq<u8>>::empty());
    } else {
        let front = names.drop_last();
        lemma_finite_buckets(front);
        let last = crate::names::bucket_of(names.last());
        let s = buckets_in(names);
        let f = buckets_in(front);
        match last {
            Some(b) => {
                assert(s =~= f.insert(b)) by {
                    assert forall|x: Seq<u8>| s.contains(x) <==> f.insert(b).contains(x) by {
                        if s.contains(x) {
                            let j = choose|j: int|
                                0 <= j < names.len() && crate::names::bucket_of(
                                    #[trigger] names[j],
                                ) == Some(x);
                            if j < front.len() {
                                assert(crate::names::bucket_of(front[j]) == Some(x));
                            }
                        }
                        if f.contains(x) {
                            let j = choose|j: int|
                                0 <= j < front.len() && crate::names::bucket_of(
                                    #[trigger] front[j],
                                ) == Some(x);
                            assert(crate::names::bucket_of(names[j]) == Some(x));
                        }
                        if x == b {
                            assert(crate::names::bucket_of(names[names.len() - 1]) == Some(x));
                        }
                    }
                }
            },
            None => {
                assert(s =~= f) by {
                    assert forall|x: Seq<u8>| s.contains(x) <==> f.contains(x) by {
                        if s.contains(x) {
                            let j = choose|j: int|
                                0 <= j < names.len() && crate::names::bucket_of(
                                    #[trigger] names[j],
                                ) == Some(x);
                            assert(crate::names::bucket_of(front[j]) == Some(x));
                        }
                        if f.contains(x) {
                            let j = choose|j: int|
                                0 <= j < front.len() && crate::names::bucket_of(
                                    #[trigger] front[j],
                                ) == Some(x);
                            assert(crate::names::bucket_of(names[j]) == Some(x));
                        }
                    }
                }
            },
        }
    }
}

} // verus!

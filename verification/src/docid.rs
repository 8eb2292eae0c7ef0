//! Document ids and the keys under which the trees of a bucket hold them.
//!
//! A document id is a number of 128 bits. Its key is that number in 16 bytes,
//! most significant byte first, so that keys are ordered as the ids are.

use crate::bytes::{
    be_bytes, be_value, lemma_be_bytes_len, lemma_be_bytes_of_value, lemma_be_value_bound,
    lemma_be_value_of_bytes, lemma_pow256_values, push_be, read_be,
};
use vstd::prelude::*;

verus! {

/// The number of bytes of a document key.
pub const KEY_LEN: usize = 16;

/// The key of a document id.
pub open spec fn id_key(id: u128) -> Seq<u8> {
    be_bytes(id as nat, 16)
}

/// The document id that a key stands for, if it has the length of a key.
pub open spec fn key_id(k: Seq<u8>) -> Option<u128> {
    if k.len() == 16 {
        Some(be_value(k) as u128)
    } else {
        None
    }
}

/// A key has 16 bytes and is read back as its id.
pub proof fn lemma_key_of_id(id: u128)
    ensures
        id_key(id).len() == 16,
        key_id(id_key(id)) == Some(id),
{
    lemma_pow256_values();
    lemma_be_bytes_len(id as nat, 16);
    lemma_be_value_of_bytes(id as nat, 16);
}

/// A byte string of 16 bytes is the key of the id that it is read as.
pub proof fn lemma_id_of_key(k: Seq<u8>)
    requires
        k.len() == 16,
    ensures
        id_key(key_id(k)->Some_0) == k,
        be_value(k) <= u128::MAX,
{
    lemma_pow256_values();
    lemma_be_value_bound(k);
    lemma_be_bytes_of_value(k);
}

/// Different ids have different keys.
pub proof fn lemma_id_key_injective(a: u128, b: u128)
    requires
        id_key(a) == id_key(b),
    ensures
        a == b,
{
    lemma_key_of_id(a);
    lemma_key_of_id(b);
}

/// The key of `id`.
pub fn document_key(id: u128) -> (key: Vec<u8>)
    ensures
        key@ == id_key(id),
{
    let mut key: Vec<u8> = Vec::new();
    push_be(&mut key, id, KEY_LEN);
    proof {
        assert(key@ =~= id_key(id));
    }
    key
}

/// The id of a key, if the bytes have the length of a key.
pub fn document_id(key: &[u8]) -> (id: Option<u128>)
    ensures
        id == key_id(key@),
{
    if key.len() == KEY_LEN {
        Some(read_be(key))
    } else {
        None
    }
}

/// The six bytes that an id takes from the engine's counter: the five most
/// significant bytes of the counter, then its least significant byte.
pub open spec fn node_bytes(counter: u64) -> Seq<u8> {
    let b = be_bytes(counter as nat, 8);
    seq![b[0], b[1], b[2], b[3], b[4], b[7]]
}

/// The part of a fresh id that comes from the engine's counter.
pub fn node_id(counter: u64) -> (node: [u8; 6])
    ensures
        node@ == node_bytes(counter),
{
    let mut b: Vec<u8> = Vec::new();
    push_be(&mut b, counter as u128, 8);
    proof {
        lemma_be_bytes_len(counter as nat, 8);
        assert(b@ =~= be_bytes(counter as nat, 8));
    }
    let node: [u8; 6] = [b[0], b[1], b[2], b[3], b[4], b[7]];
    proof {
        assert(node@ =~= node_bytes(counter));
    }
    node
}

} // verus!

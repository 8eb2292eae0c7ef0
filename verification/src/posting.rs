//! Posting lists: the documents that carry one label.
//!
//! A posting list is stored as the keys of its documents, one behind the
//! other. Lists are kept strictly sorted, so a document occurs at most once.
//! This is the crate's own format; a list written in another encoding is not
//! read.

use crate::bytes::{be_value, push_be, read_be};
use crate::docid::{id_key, lemma_id_of_key, lemma_key_of_id, KEY_LEN};
use crate::order::{
    lemma_is_sorted_seq_of, models, sort_dedup, sorted_seq_of,
    strictly_sorted, StrictOrder,
};
use vstd::prelude::*;
use vstd::slice::slice_subrange;

verus! {

/// The bytes of a posting list: the keys of its ids in their order.
pub open spec fn posting_bytes(ids: Seq<u128>) -> Seq<u8>
    decreases ids.len(),
{
    if ids.len() == 0 {
        Seq::empty()
    } else {
        posting_bytes(ids.drop_last()) + id_key(ids.last())
    }
}

/// The posting list that a stored value holds, if its length is that of a
/// whole number of keys.
pub open spec fn posting_of(b: Seq<u8>) -> Option<Seq<u128>> {
    if b.len() % 16 == 0 {
        Some(Seq::new((b.len() / 16) as nat, |i: int| be_value(b.subrange(16 * i, 16 * i + 16)) as u128))
    } else {
        None
    }
}

/// A posting list with `id` added: the sorted list of its ids and `id`.
pub open spec fn upserted(ids: Seq<u128>, id: u128) -> Seq<u128> {
    sorted_seq_of(ids.to_set().insert(id))
}

/// A posting list without the entries that equal `id`.
pub open spec fn retracted(ids: Seq<u128>, id: u128) -> Seq<u128>
    decreases ids.len(),
{
    if ids.len() == 0 {
        Seq::empty()
    } else if ids.last() == id {
        retracted(ids.drop_last(), id)
    } else {
        retracted(ids.drop_last(), id).push(ids.last())
    }
}

/// The ids that every one of the lists holds. No list, no id.
pub open spec fn common_ids(lists: Seq<Seq<u128>>) -> Set<u128> {
    Set::new(
        |id: u128|
            lists.len() > 0 && forall|i: int| 0 <= i < lists.len() ==> (#[trigger] lists[i]).contains(id),
    )
}

/// The stored form of a list of `n` ids takes `16 * n` bytes.
pub proof fn lemma_posting_bytes_len(ids: Seq<u128>)
    ensures
        posting_bytes(ids).len() == 16 * ids.len(),
    decreases ids.len(),
{
    if ids.len() > 0 {
        lemma_posting_bytes_len(ids.drop_last());
        lemma_key_of_id(ids.last());
    }
}

/// The key of the `i`-th id stands at bytes `16 * i` to `16 * i + 16`.
pub proof fn lemma_posting_bytes_at(ids: Seq<u128>, i: int)
    requires
        0 <= i < ids.len(),
    ensures
        posting_bytes(ids).len() == 16 * ids.len(),
        posting_bytes(ids).subrange(16 * i, 16 * i + 16) == id_key(ids[i]),
    decreases ids.len(),
{
    lemma_posting_bytes_len(ids);
    let front = ids.drop_last();
    lemma_posting_bytes_len(front);
    lemma_key_of_id(ids.last());
    let b = posting_bytes(ids);
    if i == ids.len() - 1 {
        assert(b.subrange(16 * i, 16 * i + 16) =~= id_key(ids.last()));
    } else {
        lemma_posting_bytes_at(front, i);
        assert(b.subrange(16 * i, 16 * i + 16) =~= posting_bytes(front).subrange(
            16 * i,
            16 * i + 16,
        ));
    }
}

/// A stored posting list is read back as the list that was written.
pub proof fn lemma_posting_of_bytes(ids: Seq<u128>)
    ensures
        posting_of(posting_bytes(ids)) == Some(ids),
{
    let b = posting_bytes(ids);
    lemma_posting_bytes_len(ids);
    let got = posting_of(b)->Some_0;
    assert(got.len() == ids.len());
    assert forall|i: int| 0 <= i < ids.len() implies got[i] == ids[i] by {
        lemma_posting_bytes_at(ids, i);
        lemma_key_of_id(ids[i]);
    }
    assert(got =~= ids);
}

/// What is read from a stored value is written back as that value.
pub proof fn lemma_bytes_of_posting(b: Seq<u8>)
    requires
        posting_of(b) is Some,
    ensures
        posting_bytes(posting_of(b)->Some_0) == b,
    decreases b.len(),
{
    let ids = posting_of(b)->Some_0;
    if b.len() == 0 {
        assert(posting_bytes(ids) =~= b);
    } else {
        let n = ids.len() as int;
        let front = b.subrange(0, 16 * (n - 1));
        let last = b.subrange(16 * (n - 1), 16 * n);
        lemma_bytes_of_posting(front);
        let front_ids = posting_of(front)->Some_0;
        assert(front_ids =~= ids.drop_last()) by {
            assert forall|i: int| 0 <= i < n - 1 implies front_ids[i] == ids[i] by {
                assert(front.subrange(16 * i, 16 * i + 16) =~= b.subrange(16 * i, 16 * i + 16));
            }
        }
        lemma_id_of_key(last);
        assert(posting_bytes(ids) =~= b);
    }
}

/// What `retracted` keeps: the entries other than `id`, in their order.
pub proof fn lemma_retracted(ids: Seq<u128>, id: u128)
    ensures
        forall|x: u128|
            #![trigger retracted(ids, id).contains(x)]
            #![trigger ids.contains(x)]
            retracted(ids, id).contains(x) <==> ids.contains(x) && x != id,
        strictly_sorted(ids) ==> strictly_sorted(retracted(ids, id)),
        retracted(ids, id).len() <= ids.len(),
        !ids.contains(id) ==> retracted(ids, id) == ids,
    decreases ids.len(),
{
    let r = retracted(ids, id);
    if ids.len() == 0 {
        assert(r =~= ids);
    } else {
        let front = ids.drop_last();
        let r0 = retracted(front, id);
        lemma_retracted(front, id);
        assert forall|x: u128| r.contains(x) <==> ids.contains(x) && x != id by {
            if r.contains(x) {
                let i = choose|i: int| 0 <= i < r.len() && r[i] == x;
                if i < r0.len() {
                    assert(r0[i] == x);
                    assert(r0.contains(x));
                    let k = choose|k: int| 0 <= k < front.len() && front[k] == x;
                    assert(ids[k] == x);
                } else {
                    assert(ids[ids.len() - 1] == x);
                }
            }
            if ids.contains(x) && x != id {
                let k = choose|k: int| 0 <= k < ids.len() && ids[k] == x;
                if k < front.len() {
                    assert(front[k] == x);
                    assert(front.contains(x));
                    let m = choose|m: int| 0 <= m < r0.len() && r0[m] == x;
                    assert(r[m] == x);
                } else {
                    assert(r[r.len() - 1] == x);
                }
            }
        }
        if strictly_sorted(ids) {
            assert(strictly_sorted(front)) by {
                assert forall|i: int, j: int| 0 <= i < j < front.len() implies (
                #[trigger] front[i]).precedes(#[trigger] front[j]) by {
                    assert(ids[i].precedes(ids[j]));
                }
            }
            assert forall|i: int, j: int| 0 <= i < j < r.len() implies (#[trigger] r[i]).precedes(
                #[trigger] r[j],
            ) by {
                if j < r0.len() {
                    assert(r0[i].precedes(r0[j]));
                } else {
                    assert(r0.contains(r0[i]));
                    let k = choose|k: int| 0 <= k < front.len() && front[k] == r0[i];
                    assert(ids[k].precedes(ids[ids.len() - 1]));
                }
            }
        }
        if !ids.contains(id) {
            assert(ids[ids.len() - 1] == ids.last());
            if front.contains(id) {
                let k = choose|k: int| 0 <= k < front.len() && front[k] == id;
                assert(ids[k] == id);
            }
            assert(r =~= ids);
        }
    }
}

/// The ids that all lists hold are finitely many.
pub proof fn lemma_common_ids_finite(lists: Seq<Seq<u128>>)
    ensures
        common_ids(lists).finite(),
{
    if lists.len() == 0 {
        assert(common_ids(lists) =~= Set::<u128>::empty());
    } else {
        let first = lists[0].to_set();
        assert(common_ids(lists).subset_of(first)) by {
            assert forall|id: u128| common_ids(lists).contains(id) implies first.contains(id) by {
                assert(lists[0].contains(id));
            }
        }
        vstd::set_lib::lemma_len_subset(common_ids(lists), first);
    }
}

/// A vector of ids is its own sequence of models.
pub proof fn lemma_models_of_ids(ids: Seq<u128>)
    ensures
        models(ids) == ids,
{
    assert(models(ids) =~= ids);
}

/// Writes a posting list.
pub fn encode_posting(ids: &Vec<u128>) -> (b: Vec<u8>)
    ensures
        b@ == posting_bytes(ids@),
{
    let mut b: Vec<u8> = Vec::new();
    let mut i: usize = 0;
    while i < ids.len()
        invariant
            i <= ids.len(),
            b@ == posting_bytes(ids@.take(i as int)),
        decreases ids.len() - i,
    {
        push_be(&mut b, ids[i], KEY_LEN);
        proof {
            let next = ids@.take(i + 1);
            assert(next.drop_last() =~= ids@.take(i as int));
            assert(next.last() == ids@[i as int]);
        }
        i = i + 1;
    }
    proof {
        assert(ids@.take(i as int) =~= ids@);
    }
    b
}

/// Reads a posting list.
pub fn decode_posting(b: &[u8]) -> (r: Option<Vec<u128>>)
    ensures
        match posting_of(b@) {
            Some(ids) => r matches Some(v) && v@ == ids,
            None => r is None,
        },
{
    let len = b.len();
    if len % KEY_LEN != 0 {
        return None;
    }
    let count = len / KEY_LEN;
    let ghost want = posting_of(b@)->Some_0;
    let mut ids: Vec<u128> = Vec::new();
    let mut i: usize = 0;
    while i < count
        invariant
            i <= count,
            count * 16 == len,
            len == b@.len(),
            posting_of(b@) == Some(want),
            want.len() == count,
            ids@ == want.take(i as int),
        decreases count - i,
    {
        let part = slice_subrange(b, i * KEY_LEN, i * KEY_LEN + KEY_LEN);
        proof {
            lemma_id_of_key(part@);
        }
        let id = read_be(part);
        ids.push(id);
        proof {
            assert(want[i as int] == id);
            assert(ids@ =~= want.take(i + 1));
        }
        i = i + 1;
    }
    proof {
        assert(want.take(i as int) =~= want);
    }
    Some(ids)
}

/// Adds `id` to a posting list: the result is sorted and holds every id once.
pub fn upsert_posting(ids: Vec<u128>, id: u128) -> (r: Vec<u128>)
    ensures
        r@ == upserted(ids@, id),
        strictly_sorted(r@),
        r@.len() > 0,
{
    let ghost given = ids@;
    let mut all = ids;
    all.push(id);
    let r = sort_dedup(all);
    proof {
        lemma_models_of_ids(r@);
        lemma_models_of_ids(all@);
        assert(all@.to_set() =~= given.to_set().insert(id)) by {
            assert forall|x: u128| all@.to_set().contains(x) <==> given.to_set().insert(
                id,
            ).contains(x) by {
                if all@.to_set().contains(x) {
                    let k = choose|k: int| 0 <= k < all@.len() && all@[k] == x;
                    if k < given.len() {
                        assert(given[k] == x);
                    }
                }
                if given.to_set().contains(x) {
                    let k = choose|k: int| 0 <= k < given.len() && given[k] == x;
                    assert(all@[k] == x);
                }
                if x == id {
                    assert(all@[all@.len() - 1] == x);
                }
            }
        }
        assert(r@.to_set().contains(id));
        let k = choose|k: int| 0 <= k < r@.len() && r@[k] == id;
    }
    r
}

/// Takes the entries that equal `id` out of a posting list.
pub fn retract_posting(ids: &Vec<u128>, id: u128) -> (r: Vec<u128>)
    ensures
        r@ == retracted(ids@, id),
{
    let mut r: Vec<u128> = Vec::new();
    let mut i: usize = 0;
    while i < ids.len()
        invariant
            i <= ids.len(),
            r@ == retracted(ids@.take(i as int), id),
        decreases ids.len() - i,
    {
        proof {
            let next = ids@.take(i + 1);
            assert(next.drop_last() =~= ids@.take(i as int));
            assert(next.last() == ids@[i as int]);
        }
        if ids[i] != id {
            r.push(ids[i]);
        }
        i = i + 1;
    }
    proof {
        assert(ids@.take(i as int) =~= ids@);
    }
    r
}

/// Whether a list holds `id`.
pub fn posting_contains(ids: &Vec<u128>, id: u128) -> (b: bool)
    ensures
        b == ids@.contains(id),
{
    let mut i: usize = 0;
    while i < ids.len()
        invariant
            i <= ids.len(),
            forall|j: int| 0 <= j < i ==> ids@[j] != id,
        decreases ids.len() - i,
    {
        if ids[i] == id {
            assert(ids@[i as int] == id);
            return true;
        }
        i = i + 1;
    }
    proof {
        if ids@.contains(id) {
            let k = choose|k: int| 0 <= k < ids@.len() && ids@[k] == id;
            assert(ids@[k] != id);
        }
    }
    false
}

/// The models of the lists of a vector.
pub open spec fn lists_view(lists: Seq<Vec<u128>>) -> Seq<Seq<u128>> {
    Seq::new(lists.len(), |i: int| lists[i]@)
}

/// The ids that every one of the lists holds, sorted and each once. Without
/// any list the result is empty.
pub fn intersect_postings(lists: &Vec<Vec<u128>>) -> (r: Vec<u128>)
    ensures
        r@ == sorted_seq_of(common_ids(lists_view(lists@))),
        strictly_sorted(r@),
        forall|id: u128| r@.contains(id) <==> common_ids(lists_view(lists@)).contains(id),
{
    let ghost all = lists_view(lists@);
    if lists.len() == 0 {
        let r: Vec<u128> = Vec::new();
        proof {
            assert(common_ids(all) =~= Set::<u128>::empty());
            assert(r@.to_set() =~= Set::<u128>::empty()) by {
                assert forall|x: u128| !r@.to_set().contains(x) by {
                    if r@.to_set().contains(x) {
                        let k = choose|k: int| 0 <= k < r@.len() && r@[k] == x;
                    }
                }
            }
            lemma_is_sorted_seq_of(r@, common_ids(all));
        }
        return r;
    }
    let mut first: Vec<u128> = Vec::new();
    let mut c: usize = 0;
    while c < lists[0].len()
        invariant
            c <= lists@[0]@.len(),
            lists@.len() > 0,
            first@ == lists@[0]@.take(c as int),
        decreases lists@[0]@.len() - c,
    {
        first.push(lists[0][c]);
        proof {
            assert(first@ =~= lists@[0]@.take(c + 1));
        }
        c = c + 1;
    }
    proof {
        assert(lists@[0]@.take(c as int) =~= lists@[0]@);
    }
    let sorted = sort_dedup(first);
    proof {
        lemma_models_of_ids(sorted@);
        lemma_models_of_ids(first@);
        assert(all[0] == lists@[0]@);
    }
    let mut r: Vec<u128> = Vec::new();
    let mut i: usize = 0;
    while i < sorted.len()
        invariant
            i <= sorted.len(),
            all == lists_view(lists@),
            lists@.len() > 0,
            strictly_sorted(sorted@),
            sorted@.to_set() == all[0].to_set(),
            strictly_sorted(r@),
            forall|x: u128| r@.contains(x) <==> sorted@.take(i as int).contains(x) && common_ids(all).contains(x),
            forall|k: int| 0 <= k < r@.len() ==> sorted@.take(i as int).contains(#[trigger] r@[k]),
        decreases sorted.len() - i,
    {
        let id = sorted[i];
        let mut keep: bool = true;
        let mut j: usize = 1;
        while j < lists.len() && keep
            invariant
                1 <= j <= lists.len(),
                all == lists_view(lists@),
                keep ==> forall|m: int| 1 <= m < j ==> (#[trigger] all[m]).contains(id),
                !keep ==> exists|m: int| 0 <= m < all.len() && !(#[trigger] all[m]).contains(id),
            decreases lists.len() - j, keep as int,
        {
            if !posting_contains(&lists[j], id) {
                keep = false;
                proof {
                    assert(all[j as int] == lists@[j as int]@);
                    assert(!all[j as int].contains(id));
                }
            } else {
                proof {
                    assert(all[j as int] == lists@[j as int]@);
                }
                j = j + 1;
            }
        }
        proof {
            let before = sorted@.take(i as int);
            let after = sorted@.take(i + 1);
            assert(after =~= before.push(id));
            assert(sorted@.to_set().contains(sorted@[i as int]));
            assert(all[0].contains(id));
            if keep {
                assert forall|m: int| 0 <= m < all.len() implies (#[trigger] all[m]).contains(
                    id,
                ) by {}
                assert(common_ids(all).contains(id));
            } else {
                assert(!common_ids(all).contains(id));
            }
            assert forall|x: u128| before.contains(x) implies after.contains(x) by {
                let k = choose|k: int| 0 <= k < before.len() && before[k] == x;
                assert(after[k] == x);
            }
            assert(after.contains(id)) by {
                assert(after[i as int] == id);
            }
            assert forall|x: u128| after.contains(x) implies before.contains(x) || x == id by {
                let k = choose|k: int| 0 <= k < after.len() && after[k] == x;
                if k < i {
                    assert(before[k] == x);
                }
            }
        }
        if keep {
            let ghost r0 = r@;
            r.push(id);
            proof {
                let before = sorted@.take(i as int);
                assert forall|a: int, b: int| 0 <= a < b < r@.len() implies (#[trigger] r@[a]).precedes(
                    #[trigger] r@[b],
                ) by {
                    if b < r0.len() {
                        assert(r0[a].precedes(r0[b]));
                    } else {
                        assert(before.contains(r0[a]));
                        let k = choose|k: int| 0 <= k < before.len() && before[k] == r0[a];
                        assert(sorted@[k].precedes(sorted@[i as int]));
                    }
                }
                assert forall|x: u128| r@.contains(x) <==> sorted@.take(i + 1).contains(x)
                    && common_ids(all).contains(x) by {
                    if r@.contains(x) {
                        let k = choose|k: int| 0 <= k < r@.len() && r@[k] == x;
                        if k < r0.len() {
                            assert(r0[k] == x);
                            assert(r0.contains(x));
                        }
                    }
                    if r0.contains(x) {
                        let k = choose|k: int| 0 <= k < r0.len() && r0[k] == x;
                        assert(r@[k] == x);
                    }
                    if x == id {
                        assert(r@[r@.len() - 1] == x);
                    }
                }
                assert forall|k: int| 0 <= k < r@.len() implies sorted@.take(i + 1).contains(
                    #[trigger] r@[k],
                ) by {
                    if k < r0.len() {
                        assert(r0[k] == r@[k]);
                        assert(before.contains(r0[k]));
                    }
                }
            }
        }
        i = i + 1;
    }
    proof {
        assert(sorted@.take(i as int) =~= sorted@);
        assert(r@.to_set() =~= common_ids(all)) by {
            assert forall|x: u128| r@.to_set().contains(x) <==> common_ids(all).contains(x) by {
                if common_ids(all).contains(x) {
                    assert(all[0].contains(x));
                    assert(all[0].to_set().contains(x));
                    assert(sorted@.to_set().contains(x));
                }
            }
        }
        lemma_is_sorted_seq_of(r@, common_ids(all));
    }
    r
}

} // verus!

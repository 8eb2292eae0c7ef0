//! The names of buckets and of their trees.
//!
//! The trees of a bucket are named by the bucket, two colons, and what the
//! tree holds. A bucket name may therefore not hold two colons in a row.

use crate::bytes::text_bytes;
use crate::errors::McError;
use crate::label::{lemma_split_at_ascii, utf8_text};
use crate::order::{models, sort_dedup, sorted_seq_of};
use vstd::prelude::*;
use vstd::slice::slice_subrange;
use vstd::utf8::valid_utf8;

verus! {

/// The byte of a colon.
pub const COLON: u8 = 58;

/// The four trees of a bucket.
#[derive(Clone, Copy, Debug, PartialEq, Eq, Structural)]
pub enum TreeKind {
    /// Documents by id.
    Doc,
    /// Label sets by id.
    Labels,
    /// Posting lists by label, key first.
    Kev,
    /// Posting lists by label, value first.
    Vek,
}

impl TreeKind {
    /// The end of the tree's name: `doc`, `labels`, `kev` or `vek`.
    pub open spec fn suffix(self) -> Seq<u8> {
        match self {
            TreeKind::Doc => seq![100u8, 111u8, 99u8],
            TreeKind::Labels => seq![108u8, 97u8, 98u8, 101u8, 108u8, 115u8],
            TreeKind::Kev => seq![107u8, 101u8, 118u8],
            TreeKind::Vek => seq![118u8, 101u8, 107u8],
        }
    }
}

/// The name of a tree of a bucket.
pub open spec fn tree_name(bucket: Seq<u8>, kind: TreeKind) -> Seq<u8> {
    bucket + seq![COLON, COLON] + kind.suffix()
}

/// The byte string holds two colons in a row.
pub open spec fn holds_reserved(b: Seq<u8>) -> bool {
    exists|i: int| 0 <= i && i + 1 < b.len() && #[trigger] b[i] == COLON && b[i + 1] == COLON
}

/// Two colons stand at `i`, and no two colons in a row begin before `i`.
pub open spec fn is_first_reserved(b: Seq<u8>, i: int) -> bool {
    &&& 0 <= i
    &&& i + 1 < b.len()
    &&& b[i] == COLON
    &&& b[i + 1] == COLON
    &&& forall|j: int| 0 <= j < i ==> !(#[trigger] b[j] == COLON && b[j + 1] == COLON)
}

/// The bucket that a tree name belongs to: what stands before its first two
/// colons. `None` for a name without two colons in a row.
pub open spec fn bucket_of(name: Seq<u8>) -> Option<Seq<u8>> {
    if holds_reserved(name) {
        Some(name.take(choose|i: int| is_first_reserved(name, i)))
    } else {
        None
    }
}

/// The buckets that the given tree names belong to.
pub open spec fn buckets_in(names: Seq<Seq<u8>>) -> Set<Seq<u8>> {
    Set::new(
        |b: Seq<u8>| exists|i: int| 0 <= i < names.len() && bucket_of(#[trigger] names[i]) == Some(b),
    )
}

/// The first two colons in a row are where they are found.
pub proof fn lemma_first_reserved(b: Seq<u8>, i: int)
    requires
        is_first_reserved(b, i),
    ensures
        holds_reserved(b),
        bucket_of(b) == Some(b.take(i)),
{
    assert(b[i] == COLON && b[i + 1] == COLON);
    let c = choose|c: int| is_first_reserved(b, c);
    if c < i {
        assert(!(b[c] == COLON && b[c + 1] == COLON));
    }
    if i < c {
        assert(!(b[i] == COLON && b[i + 1] == COLON));
    }
}

/// The bucket that a tree name belongs to holds no two colons in a row and
/// does not end in a colon.
pub proof fn lemma_bucket_is_a_bucket_name(name: Seq<u8>)
    requires
        bucket_of(name) is Some,
    ensures
        !holds_reserved(bucket_of(name)->Some_0),
        bucket_of(name)->Some_0.len() == 0 || bucket_of(name)->Some_0.last() != COLON,
{
    let c = choose|c: int| is_first_reserved(name, c);
    assert(holds_reserved(name));
    let w = choose|w: int|
        0 <= w && w + 1 < name.len() && #[trigger] name[w] == COLON && name[w + 1] == COLON;
    lemma_some_first_reserved(name, w);
    let b = name.take(c);
    if holds_reserved(b) {
        let j = choose|j: int|
            0 <= j && j + 1 < b.len() && #[trigger] b[j] == COLON && b[j + 1] == COLON;
        assert(name[j] == b[j]);
        assert(name[j + 1] == b[j + 1]);
        assert(!(name[j] == COLON && name[j + 1] == COLON));
    }
    if b.len() > 0 && b.last() == COLON {
        assert(name[c - 1] == b[c - 1]);
        assert(!(name[c - 1] == COLON && name[c] == COLON));
    }
}

/// Where two colons stand in a row, some two colons in a row come first.
proof fn lemma_some_first_reserved(b: Seq<u8>, w: int)
    requires
        0 <= w,
        w + 1 < b.len(),
        b[w] == COLON,
        b[w + 1] == COLON,
    ensures
        exists|c: int| is_first_reserved(b, c),
    decreases w,
{
    if forall|j: int| 0 <= j < w ==> !(#[trigger] b[j] == COLON && b[j + 1] == COLON) {
        assert(is_first_reserved(b, w));
    } else {
        let j = choose|j: int| 0 <= j < w && (#[trigger] b[j] == COLON && b[j + 1] == COLON);
        lemma_some_first_reserved(b, j);
    }
}

/// Where the first two colons in a row stand in `b`.
pub fn find_reserved(b: &[u8]) -> (r: Option<usize>)
    ensures
        r is Some <==> holds_reserved(b@),
        r matches Some(i) ==> is_first_reserved(b@, i as int),
{
    let n = b.len();
    if n < 2 {
        return None;
    }
    let mut i: usize = 0;
    while i < n - 1
        invariant
            n == b@.len(),
            n >= 2,
            i <= n - 1,
            forall|j: int| 0 <= j < i ==> !(#[trigger] b@[j] == COLON && b@[j + 1] == COLON),
        decreases n - i,
    {
        if b[i] == COLON && b[i + 1] == COLON {
            proof {
                lemma_first_reserved(b@, i as int);
            }
            return Some(i);
        }
        i = i + 1;
    }
    proof {
        if holds_reserved(b@) {
            let k = choose|k: int|
                0 <= k && k + 1 < b@.len() && #[trigger] b@[k] == COLON && b@[k + 1] == COLON;
            assert(!(b@[k] == COLON && b@[k + 1] == COLON));
        }
    }
    None
}

/// Whether a name can be the name of a bucket: it holds no two colons in a
/// row.
pub fn is_bucket_name(name: &str) -> (b: bool)
    ensures
        b == !holds_reserved(text_bytes(name@)),
{
    find_reserved(name.as_bytes()).is_none()
}

/// The name of a tree of the bucket `bucket`.
pub fn tree_name_of(bucket: &str, kind: TreeKind) -> (name: Vec<u8>)
    ensures
        name@ == tree_name(text_bytes(bucket@), kind),
{
    let mut name: Vec<u8> = Vec::new();
    name.extend_from_slice(bucket.as_bytes());
    name.push(COLON);
    name.push(COLON);
    match kind {
        TreeKind::Doc => {
            name.push(100u8);
            name.push(111u8);
            name.push(99u8);
        },
        TreeKind::Labels => {
            name.push(108u8);
            name.push(97u8);
            name.push(98u8);
            name.push(101u8);
            name.push(108u8);
            name.push(115u8);
        },
        TreeKind::Kev => {
            name.push(107u8);
            name.push(101u8);
            name.push(118u8);
        },
        TreeKind::Vek => {
            name.push(118u8);
            name.push(101u8);
            name.push(107u8);
        },
    }
    proof {
        assert(name@ =~= tree_name(text_bytes(bucket@), kind));
    }
    name
}

/// The tree names of a bucket lead back to the bucket, unless its name ends
/// in a colon or holds two colons in a row.
pub proof fn law_tree_names_lead_to_bucket(bucket: Seq<u8>, kind: TreeKind)
    requires
        !holds_reserved(bucket),
        bucket.len() == 0 || bucket.last() != COLON,
    ensures
        bucket_of(tree_name(bucket, kind)) == Some(bucket),
{
    let name = tree_name(bucket, kind);
    let i = bucket.len() as int;
    assert(name[i] == COLON);
    assert(name[i + 1] == COLON);
    assert forall|j: int| 0 <= j < i implies !(#[trigger] name[j] == COLON && name[j + 1]
        == COLON) by {
        if j + 1 < i {
            assert(name[j] == bucket[j]);
            assert(name[j + 1] == bucket[j + 1]);
            if bucket[j] == COLON && bucket[j + 1] == COLON {
                assert(holds_reserved(bucket));
            }
        } else {
            assert(name[j] == bucket[j]);
        }
    }
    lemma_first_reserved(name, i);
    assert(name.take(i) =~= bucket);
}

/// The names of the given trees, as byte strings.
pub open spec fn names_view(names: Seq<Vec<u8>>) -> Seq<Seq<u8>> {
    Seq::new(names.len(), |i: int| names[i]@)
}

/// The buckets that the given tree names belong to, sorted and each once.
///
/// A tree name that is not UTF-8 gives `Format`. Names without two colons in
/// a row belong to no bucket and are passed over.
pub fn bucket_names(names: &Vec<Vec<u8>>) -> (r: Result<Vec<String>, McError>)
    ensures
        r is Ok <==> (forall|i: int| 0 <= i < names@.len() ==> valid_utf8((#[trigger] names@[i])@)),
        r matches Ok(v) ==> models(v@) == sorted_seq_of(buckets_in(names_view(names@))),
        r matches Err(e) ==> e == McError::Format,
{
    let ghost all = names_view(names@);
    let mut found: Vec<String> = Vec::new();
    let mut i: usize = 0;
    while i < names.len()
        invariant
            i <= names.len(),
            all == names_view(names@),
            forall|j: int| 0 <= j < i ==> valid_utf8((#[trigger] names@[j])@),
            forall|b: Seq<u8>|
                #![trigger models(found@).contains(b)]
                models(found@).contains(b) <==> buckets_in(all.take(i as int)).contains(b),
        decreases names.len() - i,
    {
        let raw = names[i].as_slice();
        let ghost f0 = models(found@);
        if utf8_text(raw).is_none() {
            return Err(McError::Format);
        }
        let cut = find_reserved(raw);
        proof {
            assert(all[i as int] == raw@);
            lemma_buckets_step(all, i as int);
        }
        match cut {
            None => {
                proof {
                    assert forall|x: Seq<u8>|
                        #![trigger models(found@).contains(x)]
                        models(found@).contains(x) <==> buckets_in(all.take(i + 1)).contains(
                            x,
                        ) by {
                        assert(f0.contains(x) <==> buckets_in(all.take(i as int)).contains(x));
                    }
                }
            },
            Some(p) => {
                proof {
                    lemma_first_reserved(raw@, p as int);
                    lemma_split_at_ascii(raw@, p as int);
                    assert(raw@.take(p as int) =~= raw@.subrange(0, p as int));
                }
                let text = utf8_text(slice_subrange(raw, 0, p)).unwrap();
                found.push(text.to_owned());
                proof {
                    let f1 = models(found@);
                    let b = raw@.take(p as int);
                    assert(f1 =~= f0.push(b));
                    assert forall|x: Seq<u8>| f1.contains(x) <==> f0.contains(x) || x == b by {
                        if f1.contains(x) {
                            let k = choose|k: int| 0 <= k < f1.len() && f1[k] == x;
                            if k < f0.len() {
                                assert(f0[k] == x);
                            }
                        }
                        if f0.contains(x) {
                            let k = choose|k: int| 0 <= k < f0.len() && f0[k] == x;
                            assert(f1[k] == x);
                        }
                        if x == b {
                            assert(f1[f1.len() - 1] == x);
                        }
                    }
                    assert forall|x: Seq<u8>|
                        #![trigger models(found@).contains(x)]
                        models(found@).contains(x) <==> buckets_in(all.take(i + 1)).contains(
                            x,
                        ) by {
                        assert(f0.contains(x) <==> buckets_in(all.take(i as int)).contains(x));
                    }
                }
            },
        }
        i = i + 1;
    }
    let sorted = sort_dedup(found);
    proof {
        assert(all.take(i as int) =~= all);
        assert(models(found@).to_set() =~= buckets_in(all)) by {
            assert forall|b: Seq<u8>| models(found@).to_set().contains(b) <==> buckets_in(
                all,
            ).contains(b) by {
                assert(models(found@).to_set().contains(b) <==> models(found@).contains(b));
            }
        }
    }
    Ok(sorted)
}

/// The buckets of the first `i + 1` names are those of the first `i` and the
/// bucket of the name at `i`.
proof fn lemma_buckets_step(names: Seq<Seq<u8>>, i: int)
    requires
        0 <= i < names.len(),
    ensures
        forall|b: Seq<u8>|
            buckets_in(names.take(i + 1)).contains(b) <==> buckets_in(names.take(i)).contains(b)
                || bucket_of(names[i]) == Some(b),
{
    let a = names.take(i);
    let c = names.take(i + 1);
    assert forall|b: Seq<u8>|
        buckets_in(c).contains(b) <==> buckets_in(a).contains(b) || bucket_of(names[i]) == Some(
            b,
        ) by {
        if buckets_in(c).contains(b) {
            let j = choose|j: int| 0 <= j < c.len() && bucket_of(#[trigger] c[j]) == Some(b);
            if j < i {
                assert(bucket_of(a[j]) == Some(b));
            }
        }
        if buckets_in(a).contains(b) {
            let j = choose|j: int| 0 <= j < a.len() && bucket_of(#[trigger] a[j]) == Some(b);
            assert(bucket_of(c[j]) == Some(b));
        }
        if bucket_of(names[i]) == Some(b) {
            assert(bucket_of(c[i]) == Some(b));
        }
    }
}

} // verus!

//! The label set of a document, and its stored form.
//!
//! A label set is a strictly sorted sequence of well-formed labels. It is
//! stored as the forward forms of its labels, each closed by a terminator
//! byte that no text holds.
//! This is the crate's own format; a set written in another encoding is not
//! read.

use crate::errors::McError;
use crate::label::{
    first_index, lemma_first_index, lemma_first_index_is, lemma_forms_are_text,
    lemma_forward_of_parse_forward, lemma_parse_forward_of_forward, parse_forward, Label,
    LabelModel,
};
use crate::order::{
    insert_sorted, lemma_is_sorted_seq_of, models, sort_dedup, sorted_seq_of, strictly_sorted,
    StrictOrder,
};
use vstd::prelude::*;
use vstd::slice::slice_subrange;
use vstd::utf8::valid_utf8;

verus! {

/// The byte that closes each label of a stored label set.
pub const TERMINATOR: u8 = 255;

/// A strictly sorted sequence of well-formed labels.
pub open spec fn is_label_set(s: Seq<LabelModel>) -> bool {
    &&& strictly_sorted(s)
    &&& forall|m: LabelModel| s.contains(m) ==> m.well_formed()
}

/// The stored form of a sequence of labels.
pub open spec fn label_set_bytes(ls: Seq<LabelModel>) -> Seq<u8>
    decreases ls.len(),
{
    if ls.len() == 0 {
        Seq::empty()
    } else {
        ls[0].forward() + seq![TERMINATOR] + label_set_bytes(ls.drop_first())
    }
}

/// The labels that a stored value holds, in their stored order, if it is a
/// sequence of closed forward forms.
pub open spec fn label_set_of(b: Seq<u8>) -> Option<Seq<LabelModel>>
    decreases b.len(),
{
    if b.len() == 0 {
        Some(Seq::empty())
    } else {
        let i = first_index(b, TERMINATOR);
        if !(0 <= i < b.len()) {
            None
        } else {
            match parse_forward(b.subrange(0, i)) {
                Err(_) => None,
                Ok(m) => match label_set_of(b.subrange(i + 1, b.len() as int)) {
                    None => None,
                    Some(rest) => Some(seq![m] + rest),
                },
            }
        }
    }
}

/// Text holds no terminator.
pub proof fn lemma_text_has_no_terminator(b: Seq<u8>)
    requires
        valid_utf8(b),
    ensures
        !b.contains(TERMINATOR),
    decreases b.len(),
{
    if b.len() > 0 {
        let n = vstd::utf8::length_of_first_scalar(b);
        let rest = vstd::utf8::pop_first_scalar(b);
        lemma_text_has_no_terminator(rest);
        if b.contains(TERMINATOR) {
            let k = choose|k: int| 0 <= k < b.len() && b[k] == TERMINATOR;
            if k >= n {
                assert(rest[k - n] == TERMINATOR);
                assert(rest.contains(TERMINATOR));
            }
        }
    }
}

/// A stored label set is read back as the labels that were written.
pub proof fn lemma_label_set_of_bytes(ls: Seq<LabelModel>)
    requires
        forall|m: LabelModel| ls.contains(m) ==> m.well_formed(),
    ensures
        label_set_of(label_set_bytes(ls)) == Some(ls),
    decreases ls.len(),
{
    if ls.len() > 0 {
        let m = ls[0];
        let rest = ls.drop_first();
        let b = label_set_bytes(ls);
        let f = m.forward();
        let i = f.len() as int;
        assert(ls.contains(m));
        assert forall|x: LabelModel| rest.contains(x) implies x.well_formed() by {
            let k = choose|k: int| 0 <= k < rest.len() && rest[k] == x;
            assert(ls[k + 1] == x);
            assert(ls.contains(x));
        }
        lemma_label_set_of_bytes(rest);
        assert(m.well_formed());
        lemma_forms_are_text(m);
        lemma_text_has_no_terminator(f);
        assert(b[i] == TERMINATOR);
        assert forall|j: int| 0 <= j < i implies b[j] != TERMINATOR by {
            assert(b[j] == f[j]);
            assert(f.contains(f[j]));
        }
        lemma_first_index_is(b, TERMINATOR, i);
        assert(b.subrange(0, i) =~= f);
        assert(b.subrange(i + 1, b.len() as int) =~= label_set_bytes(rest));
        lemma_parse_forward_of_forward(m);
        assert(seq![m] + rest =~= ls);
    }
}

/// The labels read from a stored value are well formed.
pub proof fn lemma_stored_labels_well_formed(b: Seq<u8>)
    requires
        label_set_of(b) is Some,
    ensures
        forall|m: LabelModel| (#[trigger] label_set_of(b)->Some_0.contains(m)) ==> m.well_formed(),
    decreases b.len(),
{
    if b.len() > 0 {
        let i = first_index(b, TERMINATOR);
        let head = b.subrange(0, i);
        let tail = b.subrange(i + 1, b.len() as int);
        let m0 = parse_forward(head)->Ok_0;
        let rest = label_set_of(tail)->Some_0;
        let all = label_set_of(b)->Some_0;
        lemma_forward_of_parse_forward(head);
        lemma_stored_labels_well_formed(tail);
        assert forall|m: LabelModel| all.contains(m) implies m.well_formed() by {
            let k = choose|k: int| 0 <= k < all.len() && all[k] == m;
            if k > 0 {
                assert(rest[k - 1] == m);
                assert(rest.contains(m));
            }
        }
    } else {
        let all = label_set_of(b)->Some_0;
        assert forall|m: LabelModel| all.contains(m) implies m.well_formed() by {
            let k = choose|k: int| 0 <= k < all.len() && all[k] == m;
        }
    }
}

/// The position of the first terminator in `b` at or behind `from`.
fn find_terminator(b: &[u8], from: usize) -> (r: Option<usize>)
    requires
        from <= b@.len(),
    ensures
        match r {
            Some(i) => from <= i < b@.len() && i - from == first_index(
                b@.subrange(from as int, b@.len() as int),
                TERMINATOR,
            ),
            None => first_index(b@.subrange(from as int, b@.len() as int), TERMINATOR) >= b@.len()
                - from,
        },
{
    let ghost part = b@.subrange(from as int, b@.len() as int);
    let mut i: usize = from;
    while i < b.len()
        invariant
            from <= i <= b.len(),
            part == b@.subrange(from as int, b@.len() as int),
            forall|j: int| 0 <= j < i - from ==> part[j] != TERMINATOR,
        decreases b.len() - i,
    {
        if b[i] == TERMINATOR {
            proof {
                assert(part[i - from] == TERMINATOR);
                lemma_first_index_is(part, TERMINATOR, i - from);
            }
            return Some(i);
        }
        proof {
            assert(part[i - from] == b@[i as int]);
        }
        i = i + 1;
    }
    proof {
        lemma_first_index(part, TERMINATOR);
        let r = first_index(part, TERMINATOR);
        if r < part.len() {
            assert(part[r] != TERMINATOR);
        }
    }
    None
}

/// Reads the labels of a stored label set, in their stored order.
pub fn decode_labels(b: &[u8]) -> (r: Option<Vec<Label>>)
    ensures
        match label_set_of(b@) {
            Some(ls) => r matches Some(v) && models(v@) == ls,
            None => r is None,
        },
{
    let mut out: Vec<Label> = Vec::new();
    let mut p: usize = 0;
    let n = b.len();
    proof {
        assert(b@.subrange(0, n as int) =~= b@);
        match label_set_of(b@) {
            Some(rest) => {
                assert(models(out@) + rest =~= rest);
            },
            None => {},
        }
    }
    while p < n
        invariant
            p <= n,
            n == b@.len(),
            label_set_of(b@) == (match label_set_of(b@.subrange(p as int, n as int)) {
                Some(rest) => Some(models(out@) + rest),
                None => None,
            }),
        decreases n - p,
    {
        let ghost part = b@.subrange(p as int, n as int);
        let ghost done = models(out@);
        let end = match find_terminator(b, p) {
            Some(e) => e,
            None => {
                return None;
            },
        };
        let head = slice_subrange(b, p, end);
        proof {
            assert(head@ =~= part.subrange(0, end - p));
            assert(b@.subrange(end + 1, n as int) =~= part.subrange(end - p + 1, part.len() as int));
        }
        let label = match Label::from_bytes(head) {
            Ok(l) => l,
            Err(_) => {
                return None;
            },
        };
        let ghost m = label@;
        out.push(label);
        proof {
            assert(models(out@) =~= done.push(m));
            let tail = b@.subrange(end + 1, n as int);
            match label_set_of(tail) {
                Some(rest) => {
                    assert(done + (seq![m] + rest) =~= done.push(m) + rest);
                },
                None => {},
            }
        }
        p = end + 1;
    }
    proof {
        assert(b@.subrange(p as int, n as int) =~= Seq::<u8>::empty());
        assert(models(out@) + Seq::<LabelModel>::empty() =~= models(out@));
    }
    Some(out)
}

/// Writes a sequence of labels in their order.
pub fn encode_labels(labels: &Vec<Label>) -> (b: Vec<u8>)
    ensures
        b@ == label_set_bytes(models(labels@)),
{
    let ghost all = models(labels@);
    let mut b: Vec<u8> = Vec::new();
    let mut i: usize = labels.len();
    proof {
        assert(all.skip(i as int) =~= Seq::<LabelModel>::empty());
    }
    while i > 0
        invariant
            i <= labels.len(),
            all == models(labels@),
            b@ == label_set_bytes(all.skip(i as int)),
        decreases i,
    {
        i = i - 1;
        let mut next: Vec<u8> = labels[i].as_bytes();
        next.push(TERMINATOR);
        proof {
            let now = all.skip(i as int);
            assert(now[0] == labels@[i as int]@);
            assert(now.drop_first() =~= all.skip(i + 1));
        }
        next.append(&mut b);
        b = next;
    }
    proof {
        assert(all.skip(0) =~= all);
    }
    b
}

/// The labels of one document: sorted, each once, all well formed.
pub struct DocumentLabelSet {
    labels: Vec<Label>,
}

impl View for DocumentLabelSet {
    type V = Seq<LabelModel>;

    closed spec fn view(&self) -> Seq<LabelModel> {
        models(self.labels@)
    }
}

impl DocumentLabelSet {
    #[verifier::type_invariant]
    spec fn canonical(self) -> bool {
        is_label_set(models(self.labels@))
    }

    /// The set of the given labels. A label whose key holds the separator
    /// is refused.
    pub fn new(labels: Vec<Label>) -> (r: Result<DocumentLabelSet, McError>)
        ensures
            r is Ok <==> (forall|m: LabelModel| models(labels@).contains(m) ==> m.well_formed()),
            r matches Ok(s) ==> s@ == sorted_seq_of(models(labels@).to_set()) && is_label_set(s@),
            r matches Err(e) ==> e == McError::InvalidLabel,
    {
        let ghost given = models(labels@);
        let mut i: usize = 0;
        while i < labels.len()
            invariant
                i <= labels.len(),
                given == models(labels@),
                forall|j: int| 0 <= j < i ==> (#[trigger] given[j]).well_formed(),
            decreases labels.len() - i,
        {
            if !labels[i].is_well_formed() {
                proof {
                    assert(given[i as int] == labels@[i as int]@);
                    assert(given.contains(given[i as int]));
                }
                return Err(McError::InvalidLabel);
            }
            proof {
                assert(given[i as int] == labels@[i as int]@);
            }
            i = i + 1;
        }
        let sorted = sort_dedup(labels);
        proof {
            assert forall|m: LabelModel| given.contains(m) implies m.well_formed() by {
                let k = choose|k: int| 0 <= k < given.len() && given[k] == m;
            }
            assert forall|m: LabelModel| models(sorted@).contains(m) implies m.well_formed() by {
                assert(models(sorted@).to_set().contains(m));
                assert(given.to_set().contains(m));
            }
        }
        Ok(DocumentLabelSet { labels: sorted })
    }

    /// The label set that a stored value holds, if it is a sequence of closed
    /// forward forms.
    pub fn decode(b: &[u8]) -> (r: Option<DocumentLabelSet>)
        ensures
            match label_set_of(b@) {
                Some(ls) => r matches Some(s) && s@ == sorted_seq_of(ls.to_set()) && is_label_set(
                    s@,
                ),
                None => r is None,
            },
    {
        match decode_labels(b) {
            None => None,
            Some(labels) => {
                proof {
                    lemma_stored_labels_well_formed(b@);
                }
                match DocumentLabelSet::new(labels) {
                    Ok(s) => Some(s),
                    Err(_) => None,
                }
            },
        }
    }

    /// The stored form of this label set.
    pub fn encode(&self) -> (b: Vec<u8>)
        ensures
            b@ == label_set_bytes(self@),
    {
        encode_labels(&self.labels)
    }

    /// The number of labels. The labels are strictly sorted and well formed.
    pub fn len(&self) -> (n: usize)
        ensures
            n == self@.len(),
            is_label_set(self@),
    {
        proof {
            use_type_invariant(self);
        }
        self.labels.len()
    }

    /// The label at position `i`, if there are that many.
    pub fn get(&self, i: usize) -> (r: Option<&Label>)
        ensures
            r is Some <==> i < self@.len(),
            r matches Some(l) ==> l@ == self@[i as int] && l@.well_formed(),
    {
        proof {
            use_type_invariant(self);
        }
        if i < self.labels.len() {
            proof {
                assert(self@.contains(self@[i as int]));
            }
            Some(&self.labels[i])
        } else {
            None
        }
    }

    /// The labels, in their order.
    pub fn to_vec(&self) -> (v: Vec<Label>)
        ensures
            models(v@) == self@,
    {
        let mut v: Vec<Label> = Vec::new();
        let mut i: usize = 0;
        while i < self.labels.len()
            invariant
                i <= self.labels.len(),
                v@.len() == i,
                forall|j: int| 0 <= j < i ==> (#[trigger] v@[j])@ == self.labels@[j]@,
            decreases self.labels.len() - i,
        {
            v.push(self.labels[i].duplicate());
            i = i + 1;
        }
        proof {
            assert(models(v@) =~= models(self.labels@));
        }
        v
    }

    /// Whether the set holds `l`.
    pub fn contains(&self, l: &Label) -> (b: bool)
        ensures
            b == self@.contains(l@),
    {
        let ghost all = models(self.labels@);
        let mut i: usize = 0;
        while i < self.labels.len()
            invariant
                i <= self.labels.len(),
                all == models(self.labels@),
                forall|j: int| 0 <= j < i ==> all[j] != l@,
            decreases self.labels.len() - i,
        {
            if self.labels[i].same_as(l) {
                proof {
                    assert(all[i as int] == l@);
                }
                return true;
            }
            proof {
                assert(all[i as int] == self.labels@[i as int]@);
            }
            i = i + 1;
        }
        proof {
            if all.contains(l@) {
                let k = choose|k: int| 0 <= k < all.len() && all[k] == l@;
                assert(all[k] != l@);
            }
        }
        false
    }

    /// The labels of this set and of `other` together.
    pub fn merged(&self, other: &DocumentLabelSet) -> (r: DocumentLabelSet)
        ensures
            r@ == sorted_seq_of(self@.to_set().union(other@.to_set())),
            is_label_set(r@),
    {
        proof {
            use_type_invariant(self);
            use_type_invariant(other);
        }
        let mut all = self.to_vec();
        let ghost mine = self@;
        let ghost theirs = other@;
        let mut i: usize = 0;
        while i < other.labels.len()
            invariant
                i <= other.labels.len(),
                theirs == models(other.labels@),
                is_label_set(theirs),
                is_label_set(mine),
                strictly_sorted(models(all@)),
                models(all@).to_set() =~= mine.to_set().union(theirs.take(i as int).to_set()),
            decreases other.labels.len() - i,
        {
            let ghost before = models(all@).to_set();
            insert_sorted(&mut all, other.labels[i].duplicate());
            proof {
                let x = theirs[i as int];
                assert(x == other.labels@[i as int]@);
                let next = theirs.take(i + 1);
                assert(next =~= theirs.take(i as int).push(x));
                assert(next.to_set() =~= theirs.take(i as int).to_set().insert(x)) by {
                    assert forall|y: LabelModel| next.to_set().contains(y) <==> theirs.take(
                        i as int,
                    ).to_set().insert(x).contains(y) by {
                        if next.to_set().contains(y) {
                            let k = choose|k: int| 0 <= k < next.len() && next[k] == y;
                            if k < i {
                                assert(theirs.take(i as int)[k] == y);
                            }
                        }
                        if theirs.take(i as int).to_set().contains(y) {
                            let k = choose|k: int|
                                0 <= k < theirs.take(i as int).len() && theirs.take(i as int)[k]
                                    == y;
                            assert(next[k] == y);
                        }
                        if y == x {
                            assert(next[i as int] == y);
                        }
                    }
                }
            }
            i = i + 1;
        }
        proof {
            assert(theirs.take(i as int) =~= theirs);
            let u = mine.to_set().union(theirs.to_set());
            lemma_is_sorted_seq_of(models(all@), u);
            assert forall|m: LabelModel| models(all@).contains(m) implies m.well_formed() by {
                assert(models(all@).to_set().contains(m));
                assert(mine.contains(m) || theirs.contains(m));
            }
        }
        DocumentLabelSet { labels: all }
    }

    /// The labels of this set that `other` does not hold.
    pub fn without(&self, other: &DocumentLabelSet) -> (r: DocumentLabelSet)
        ensures
            r@ == sorted_seq_of(self@.to_set().difference(other@.to_set())),
            is_label_set(r@),
    {
        proof {
            use_type_invariant(self);
        }
        let ghost mine = self@;
        let ghost theirs = other@;
        let mut kept: Vec<Label> = Vec::new();
        let mut i: usize = 0;
        while i < self.labels.len()
            invariant
                i <= self.labels.len(),
                mine == models(self.labels@),
                theirs == other@,
                is_label_set(mine),
                strictly_sorted(models(kept@)),
                forall|m: LabelModel|
                    #![trigger models(kept@).contains(m)]
                    #![trigger mine.take(i as int).contains(m)]
                    models(kept@).contains(m) <==> mine.take(i as int).contains(m)
                        && !theirs.contains(m),
            decreases self.labels.len() - i,
        {
            let ghost k0 = models(kept@);
            let ghost x = mine[i as int];
            proof {
                assert(x == self.labels@[i as int]@);
                let before = mine.take(i as int);
                let after = mine.take(i + 1);
                assert(after =~= before.push(x));
                assert forall|y: LabelModel| before.contains(y) implies after.contains(y) by {
                    let k = choose|k: int| 0 <= k < before.len() && before[k] == y;
                    assert(after[k] == y);
                }
                assert(after.contains(x)) by {
                    assert(after[i as int] == x);
                }
                assert forall|y: LabelModel| after.contains(y) implies before.contains(y) || y
                    == x by {
                    let k = choose|k: int| 0 <= k < after.len() && after[k] == y;
                    if k < i {
                        assert(before[k] == y);
                    }
                }
            }
            if !other.contains(&self.labels[i]) {
                kept.push(self.labels[i].duplicate());
                proof {
                    let k1 = models(kept@);
                    assert(k1 =~= k0.push(x));
                    assert forall|a: int, b: int| 0 <= a < b < k1.len() implies (
                    #[trigger] k1[a]).precedes(#[trigger] k1[b]) by {
                        if b < k0.len() {
                            assert(k0[a].precedes(k0[b]));
                        } else {
                            assert(k0.contains(k0[a]));
                            let before = mine.take(i as int);
                            let k = choose|k: int| 0 <= k < before.len() && before[k] == k0[a];
                            assert(mine[k].precedes(mine[i as int]));
                        }
                    }
                    assert forall|m: LabelModel|
                        k1.contains(m) <==> mine.take(i + 1).contains(m) && !theirs.contains(
                            m,
                        ) by {
                        if k1.contains(m) {
                            let k = choose|k: int| 0 <= k < k1.len() && k1[k] == m;
                            if k < k0.len() {
                                assert(k0[k] == m);
                                assert(k0.contains(m));
                            }
                        }
                        if k0.contains(m) {
                            let k = choose|k: int| 0 <= k < k0.len() && k0[k] == m;
                            assert(k1[k] == m);
                        }
                        if m == x {
                            assert(k1[k1.len() - 1] == m);
                        }
                    }
                }
            }
            i = i + 1;
        }
        proof {
            assert(mine.take(i as int) =~= mine);
            let d = mine.to_set().difference(theirs.to_set());
            assert forall|m: LabelModel| models(kept@).to_set().contains(m) <==> d.contains(
                m,
            ) by {
                assert(models(kept@).to_set().contains(m) <==> models(kept@).contains(m));
                assert(mine.to_set().contains(m) <==> mine.contains(m));
                assert(theirs.to_set().contains(m) <==> theirs.contains(m));
            }
            assert(models(kept@).to_set() =~= d);
            assert forall|m: LabelModel| models(kept@).contains(m) implies m.well_formed() by {
                assert(mine.contains(m));
            }
            lemma_is_sorted_seq_of(models(kept@), d);
        }
        DocumentLabelSet { labels: kept }
    }
}

} // verus!

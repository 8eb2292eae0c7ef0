//! Strict total orders, and the one strictly increasing sequence that lists a
//! finite set.
//!
//! Posting lists, label sets and bucket listings are all stored and returned
//! sorted and free of duplicates. Such a sequence is fully determined by the
//! set of its elements, so the contracts of this crate speak of
//! [`sorted_seq_of`] a set rather than of a sorting procedure.

use vstd::prelude::*;

verus! {

/// A strict total order on the values of a type.
pub trait StrictOrder: Sized {
    /// `self` comes before `other`.
    spec fn precedes(self, other: Self) -> bool;

    /// Nothing comes before itself.
    proof fn irreflexive(a: Self)
        ensures
            !a.precedes(a),
    ;

    /// The order is transitive.
    proof fn transitive(a: Self, b: Self, c: Self)
        requires
            a.precedes(b),
            b.precedes(c),
        ensures
            a.precedes(c),
    ;

    /// Any two different values are ordered one way or the other.
    proof fn connected(a: Self, b: Self)
        ensures
            a.precedes(b) || a == b || b.precedes(a),
    ;
}

/// An executable type whose values are ordered through their models.
pub trait Sortable: Sized {
    /// The mathematical value that an element stands for.
    type Model: StrictOrder;

    /// The model of this element.
    spec fn model(&self) -> Self::Model;

    /// Whether `self` comes strictly before `other`.
    fn less(&self, other: &Self) -> (b: bool)
        ensures
            b == self.model().precedes(other.model()),
    ;
}

/// The models of the elements of a sequence, in the same positions.
pub open spec fn models<T: Sortable>(s: Seq<T>) -> Seq<T::Model> {
    Seq::new(s.len(), |i: int| s[i].model())
}

/// Every element comes strictly before all later ones.
pub open spec fn strictly_sorted<M: StrictOrder>(q: Seq<M>) -> bool {
    forall|i: int, j: int| 0 <= i < j < q.len() ==> (#[trigger] q[i]).precedes(#[trigger] q[j])
}

/// The strictly increasing sequence whose elements are exactly those of `s`.
pub open spec fn sorted_seq_of<M: StrictOrder>(s: Set<M>) -> Seq<M> {
    choose|q: Seq<M>| strictly_sorted(q) && q.to_set() == s
}

/// `q` with `x` put at its place, unless `q` already holds `x`.
pub open spec fn placed<M: StrictOrder>(q: Seq<M>, x: M) -> Seq<M>
    decreases q.len(),
{
    if q.len() == 0 {
        seq![x]
    } else if x.precedes(q.last()) {
        placed(q.drop_last(), x).push(q.last())
    } else if x == q.last() {
        q
    } else {
        q.push(x)
    }
}

/// A strictly sorted sequence holds no element twice.
pub proof fn lemma_sorted_no_duplicates<M: StrictOrder>(q: Seq<M>)
    requires
        strictly_sorted(q),
    ensures
        q.no_duplicates(),
{
    assert forall|i: int, j: int| 0 <= i < q.len() && 0 <= j < q.len() && i != j implies q[i]
        != q[j] by {
        if i < j {
            assert(q[i].precedes(q[j]));
            M::irreflexive(q[i]);
        } else {
            assert(q[j].precedes(q[i]));
            M::irreflexive(q[i]);
        }
    }
}

/// Putting `x` at its place keeps a sequence strictly sorted, and adds `x`
/// to its elements and nothing else.
pub proof fn lemma_placed<M: StrictOrder>(q: Seq<M>, x: M)
    requires
        strictly_sorted(q),
    ensures
        strictly_sorted(placed(q, x)),
        placed(q, x).to_set() == q.to_set().insert(x),
        placed(q, x).len() > 0,
        placed(q, x).last() == x || (q.len() > 0 && placed(q, x).last() == q.last()),
    decreases q.len(),
{
    let r = placed(q, x);
    if q.len() == 0 {
        M::irreflexive(x);
        assert(r.to_set() =~= q.to_set().insert(x)) by {
            assert forall|y: M| r.to_set().contains(y) <==> q.to_set().insert(x).contains(y) by {
                if r.to_set().contains(y) {
                    let i = choose|i: int| 0 <= i < r.len() && r[i] == y;
                    assert(r[i] == x);
                }
                if y == x {
                    assert(r[0] == x);
                }
                if q.to_set().contains(y) {
                    let i = choose|i: int| 0 <= i < q.len() && q[i] == y;
                }
            }
        }
    } else if x.precedes(q.last()) {
        let front = q.drop_last();
        let last = q.last();
        assert(strictly_sorted(front)) by {
            assert forall|i: int, j: int| 0 <= i < j < front.len() implies (#[trigger] front[i]).precedes(
                #[trigger] front[j],
            ) by {
                assert(q[i].precedes(q[j]));
            }
        }
        lemma_placed(front, x);
        let inner = placed(front, x);
        assert(r == inner.push(last));
        assert(inner.last().precedes(last)) by {
            if front.len() > 0 && inner.last() == front.last() {
                assert(q[q.len() - 2].precedes(q[q.len() - 1]));
            } else {
                if front.len() == 0 {
                    assert(inner =~= seq![x]);
                }
                assert(inner.last() == x);
            }
        }
        assert(strictly_sorted(r)) by {
            assert forall|i: int, j: int| 0 <= i < j < r.len() implies (#[trigger] r[i]).precedes(
                #[trigger] r[j],
            ) by {
                if j < inner.len() {
                    assert(inner[i].precedes(inner[j]));
                } else {
                    if i < inner.len() - 1 {
                        assert(inner[i].precedes(inner[inner.len() - 1]));
                        M::transitive(inner[i], inner.last(), last);
                    }
                }
            }
        }
        assert(r.to_set() =~= q.to_set().insert(x)) by {
            assert forall|y: M| r.to_set().contains(y) <==> q.to_set().insert(x).contains(y) by {
                if r.to_set().contains(y) {
                    let i = choose|i: int| 0 <= i < r.len() && r[i] == y;
                    if i < inner.len() {
                        assert(inner.to_set().contains(inner[i]));
                        assert(front.to_set().insert(x).contains(y));
                        if y != x {
                            let k = choose|k: int| 0 <= k < front.len() && front[k] == y;
                            assert(q[k] == y);
                        }
                    } else {
                        assert(q[q.len() - 1] == y);
                    }
                }
                if q.to_set().insert(x).contains(y) {
                    if y == x {
                        assert(front.to_set().insert(x).contains(x));
                        assert(inner.to_set().contains(x));
                        let k = choose|k: int| 0 <= k < inner.len() && inner[k] == x;
                        assert(r[k] == x);
                    } else {
                        let k = choose|k: int| 0 <= k < q.len() && q[k] == y;
                        if k < front.len() {
                            assert(front[k] == y);
                            assert(front.to_set().contains(y));
                            assert(inner.to_set().contains(y));
                            let m = choose|m: int| 0 <= m < inner.len() && inner[m] == y;
                            assert(r[m] == y);
                        } else {
                            assert(r[r.len() - 1] == y);
                        }
                    }
                }
            }
        }
    } else if x == q.last() {
        M::irreflexive(x);
        assert(r.to_set() =~= q.to_set().insert(x)) by {
            assert(q[q.len() - 1] == x);
        }
    } else {
        M::connected(x, q.last());
        M::irreflexive(x);
        assert(strictly_sorted(r)) by {
            assert forall|i: int, j: int| 0 <= i < j < r.len() implies (#[trigger] r[i]).precedes(
                #[trigger] r[j],
            ) by {
                if j < q.len() {
                    assert(q[i].precedes(q[j]));
                } else {
                    if i < q.len() - 1 {
                        assert(q[i].precedes(q[q.len() - 1]));
                        M::transitive(q[i], q.last(), x);
                    }
                }
            }
        }
        assert(r.to_set() =~= q.to_set().insert(x)) by {
            assert forall|y: M| r.to_set().contains(y) <==> q.to_set().insert(x).contains(y) by {
                if r.to_set().contains(y) {
                    let i = choose|i: int| 0 <= i < r.len() && r[i] == y;
                    if i < q.len() {
                        assert(q[i] == y);
                    }
                }
                if q.to_set().insert(x).contains(y) {
                    if y == x {
                        assert(r[r.len() - 1] == x);
                    } else {
                        let k = choose|k: int| 0 <= k < q.len() && q[k] == y;
                        assert(r[k] == y);
                    }
                }
            }
        }
    }
}

/// Two strictly sorted sequences with the same elements are the same sequence.
pub proof fn lemma_sorted_unique<M: StrictOrder>(a: Seq<M>, b: Seq<M>)
    requires
        strictly_sorted(a),
        strictly_sorted(b),
        a.to_set() == b.to_set(),
    ensures
        a == b,
    decreases a.len(),
{
    if a.len() == 0 {
        if b.len() > 0 {
            assert(b.to_set().contains(b[0]));
            let i = choose|i: int| 0 <= i < a.len() && a[i] == b[0];
        }
        assert(a =~= b);
    } else {
        assert(a.to_set().contains(a[a.len() - 1]));
        let k = choose|k: int| 0 <= k < b.len() && b[k] == a.last();
        assert(b.to_set().contains(b[b.len() - 1]));
        let m = choose|m: int| 0 <= m < a.len() && a[m] == b.last();
        // the last elements agree: each is the greatest of the common set
        if k < b.len() - 1 {
            assert(b[k].precedes(b[b.len() - 1]));
            if m < a.len() - 1 {
                assert(a[m].precedes(a[a.len() - 1]));
                M::transitive(a.last(), b.last(), a.last());
            }
            M::irreflexive(a.last());
        }
        assert(a.last() == b.last());
        let a0 = a.drop_last();
        let b0 = b.drop_last();
        assert(strictly_sorted(a0)) by {
            assert forall|i: int, j: int| 0 <= i < j < a0.len() implies (#[trigger] a0[i]).precedes(
                #[trigger] a0[j],
            ) by {
                assert(a[i].precedes(a[j]));
            }
        }
        assert(strictly_sorted(b0)) by {
            assert forall|i: int, j: int| 0 <= i < j < b0.len() implies (#[trigger] b0[i]).precedes(
                #[trigger] b0[j],
            ) by {
                assert(b[i].precedes(b[j]));
            }
        }
        assert(a0.to_set() =~= b0.to_set()) by {
            assert forall|y: M| a0.to_set().contains(y) <==> b0.to_set().contains(y) by {
                if a0.to_set().contains(y) {
                    let i = choose|i: int| 0 <= i < a0.len() && a0[i] == y;
                    assert(a[i].precedes(a[a.len() - 1]));
                    assert(a.to_set().contains(a[i]));
                    let j = choose|j: int| 0 <= j < b.len() && b[j] == y;
                    if j == b.len() - 1 {
                        M::irreflexive(y);
                    }
                    assert(b0[j] == y);
                }
                if b0.to_set().contains(y) {
                    let i = choose|i: int| 0 <= i < b0.len() && b0[i] == y;
                    assert(b[i].precedes(b[b.len() - 1]));
                    assert(b.to_set().contains(b[i]));
                    let j = choose|j: int| 0 <= j < a.len() && a[j] == y;
                    if j == a.len() - 1 {
                        M::irreflexive(y);
                    }
                    assert(a0[j] == y);
                }
            }
        }
        lemma_sorted_unique(a0, b0);
        assert(a =~= a0.push(a.last()));
        assert(b =~= b0.push(b.last()));
    }
}

/// Every finite set is listed by some strictly sorted sequence.
pub proof fn lemma_sorted_exists<M: StrictOrder>(s: Set<M>)
    requires
        s.finite(),
    ensures
        exists|q: Seq<M>| strictly_sorted(q) && q.to_set() == s,
    decreases s.len(),
{
    if s.len() == 0 {
        let q = Seq::<M>::empty();
        assert(q.to_set() =~= s) by {
            assert forall|y: M| q.to_set().contains(y) <==> s.contains(y) by {
                if s.contains(y) {
                    vstd::set_lib::lemma_set_empty_equivalency_len(s);
                }
                if q.to_set().contains(y) {
                    let i = choose|i: int| 0 <= i < q.len() && q[i] == y;
                }
            }
        }
        assert(strictly_sorted(q) && q.to_set() == s);
    } else {
        let x = s.choose();
        vstd::set_lib::lemma_set_empty_equivalency_len(s);
        assert(s.contains(x));
        let rest = s.remove(x);
        lemma_sorted_exists(rest);
        let q0 = choose|q: Seq<M>| strictly_sorted(q) && q.to_set() == rest;
        lemma_placed(q0, x);
        let q = placed(q0, x);
        assert(q.to_set() =~= s);
        assert(strictly_sorted(q) && q.to_set() == s);
    }
}

/// The sorted sequence of a finite set is strictly sorted and holds exactly
/// the elements of the set.
pub proof fn lemma_sorted_seq_of<M: StrictOrder>(s: Set<M>)
    requires
        s.finite(),
    ensures
        strictly_sorted(sorted_seq_of(s)),
        sorted_seq_of(s).to_set() == s,
        forall|x: M| sorted_seq_of(s).contains(x) <==> s.contains(x),
{
    lemma_sorted_exists(s);
    let q = sorted_seq_of(s);
    assert forall|x: M| q.contains(x) <==> s.contains(x) by {
        assert(q.to_set().contains(x) <==> q.contains(x));
    }
}

/// A strictly sorted sequence is the sorted sequence of its own elements.
pub proof fn lemma_is_sorted_seq_of<M: StrictOrder>(q: Seq<M>, s: Set<M>)
    requires
        strictly_sorted(q),
        q.to_set() == s,
    ensures
        q == sorted_seq_of(s),
{
    let c = sorted_seq_of(s);
    assert(strictly_sorted(c) && c.to_set() == s);
    lemma_sorted_unique(q, c);
}

/// Adds `x` to the elements of a vector, unless it is there. A strictly
/// sorted vector stays strictly sorted.
pub fn insert_sorted<T: Sortable>(v: &mut Vec<T>, x: T)
    ensures
        models(final(v)@).to_set() == models(old(v)@).to_set().insert(x.model()),
        strictly_sorted(models(old(v)@)) ==> strictly_sorted(models(final(v)@)) && models(
            final(v)@,
        ) == sorted_seq_of(models(old(v)@).to_set().insert(x.model())),
{
    let ghost before = models(v@);
    let ghost xm = x.model();
    let mut i: usize = v.len();
    while i > 0 && x.less(&v[i - 1])
        invariant
            i <= v.len(),
            models(v@) == before,
            x.model() == xm,
            forall|j: int| i <= j < v.len() ==> xm.precedes(#[trigger] before[j]),
        decreases i,
    {
        assert(before[i - 1] == v@[i - 1].model());
        i = i - 1;
    }
    let dup: bool = if i > 0 {
        !v[i - 1].less(&x)
    } else {
        false
    };
    proof {
        if i > 0 {
            assert(before[i - 1] == v@[i - 1].model());
            assert(!xm.precedes(before[i - 1]));
            T::Model::connected(xm, before[i - 1]);
        }
    }
    if dup {
        proof {
            assert(before[i - 1] == xm);
            assert(before.to_set().insert(xm) =~= before.to_set());
            if strictly_sorted(before) {
                lemma_is_sorted_seq_of(before, before.to_set().insert(xm));
            }
        }
    } else {
        v.insert(i, x);
        proof {
            let after = models(v@);
            assert(after =~= before.insert(i as int, xm));
            if strictly_sorted(before) {
                assert forall|a: int, b: int| 0 <= a < b < after.len() implies (
                #[trigger] after[a]).precedes(#[trigger] after[b]) by {
                    if b < i {
                        assert(before[a].precedes(before[b]));
                    } else if b == i {
                        // after[b] is x, after[a] lies before position i
                        assert(before[i - 1].precedes(xm));
                        if a < i - 1 {
                            assert(before[a].precedes(before[i - 1]));
                            T::Model::transitive(before[a], before[i - 1], xm);
                        }
                    } else if a == i {
                        assert(xm.precedes(before[b - 1]));
                    } else if a > i {
                        assert(before[a - 1].precedes(before[b - 1]));
                    } else {
                        assert(before[a].precedes(before[b - 1]));
                    }
                }
            }
            assert(after.to_set() =~= before.to_set().insert(xm)) by {
                assert forall|y: T::Model| after.to_set().contains(y)
                    <==> before.to_set().insert(xm).contains(y) by {
                    if after.to_set().contains(y) {
                        let k = choose|k: int| 0 <= k < after.len() && after[k] == y;
                        if k < i {
                            assert(before[k] == y);
                        } else if k > i {
                            assert(before[k - 1] == y);
                        }
                    }
                    if before.to_set().insert(xm).contains(y) {
                        if y == xm {
                            assert(after[i as int] == y);
                        } else {
                            let k = choose|k: int| 0 <= k < before.len() && before[k] == y;
                            if k < i {
                                assert(after[k] == y);
                            } else {
                                assert(after[k + 1] == y);
                            }
                        }
                    }
                }
            }
            if strictly_sorted(before) {
                lemma_is_sorted_seq_of(after, before.to_set().insert(xm));
            }
        }
    }
}

/// Sorts a vector and drops its duplicates.
pub fn sort_dedup<T: Sortable>(v: Vec<T>) -> (r: Vec<T>)
    ensures
        models(r@) == sorted_seq_of(models(v@).to_set()),
        strictly_sorted(models(r@)),
        models(r@).to_set() == models(v@).to_set(),
{
    let ghost given = models(v@);
    // turn the vector round, so that the elements are taken in their order
    let mut source = v;
    let mut stack: Vec<T> = Vec::new();
    while source.len() > 0
        invariant
            forall|y: T::Model|
                given.to_set().contains(y) <==> models(source@).to_set().contains(y) || models(
                    stack@,
                ).to_set().contains(y),
        decreases source.len(),
    {
        let ghost source_before = models(source@);
        let ghost stack_before = models(stack@);
        let x = source.pop().unwrap();
        stack.push(x);
        proof {
            assert(models(source@) =~= source_before.drop_last());
            assert(models(stack@) =~= stack_before.push(source_before.last()));
            lemma_moved(source_before, stack_before, models(source@), models(stack@));
        }
    }
    let mut r: Vec<T> = Vec::new();
    proof {
        assert(models(source@).to_set() =~= Set::<T::Model>::empty()) by {
            assert forall|y: T::Model| !models(source@).to_set().contains(y) by {
                if models(source@).to_set().contains(y) {
                    let i = choose|i: int| 0 <= i < models(source@).len() && models(source@)[i] == y;
                }
            }
        }
        assert(models(r@).to_set() =~= Set::<T::Model>::empty()) by {
            assert forall|y: T::Model| !models(r@).to_set().contains(y) by {
                if models(r@).to_set().contains(y) {
                    let i = choose|i: int| 0 <= i < models(r@).len() && models(r@)[i] == y;
                }
            }
        }
    }
    while stack.len() > 0
        invariant
            strictly_sorted(models(r@)),
            forall|y: T::Model|
                given.to_set().contains(y) <==> models(stack@).to_set().contains(y) || models(
                    r@,
                ).to_set().contains(y),
        decreases stack.len(),
    {
        let ghost k0 = models(stack@);
        let ghost r0 = models(r@);
        let x = stack.pop().unwrap();
        let ghost xm = x.model();
        insert_sorted(&mut r, x);
        proof {
            let k1 = models(stack@);
            assert(k1 =~= k0.drop_last());
            assert(k0.last() == xm);
            assert forall|y: T::Model|
                given.to_set().contains(y) <==> k1.to_set().contains(y) || models(
                    r@,
                ).to_set().contains(y) by {
                if k0.to_set().contains(y) {
                    let i = choose|i: int| 0 <= i < k0.len() && k0[i] == y;
                    if i < k1.len() {
                        assert(k1[i] == y);
                    }
                }
                if k1.to_set().contains(y) {
                    let i = choose|i: int| 0 <= i < k1.len() && k1[i] == y;
                    assert(k0[i] == y);
                }
                assert(k0.to_set().contains(k0[k0.len() - 1]));
            }
        }
    }
    proof {
        assert(models(stack@).to_set() =~= Set::<T::Model>::empty()) by {
            assert forall|y: T::Model| !models(stack@).to_set().contains(y) by {
                if models(stack@).to_set().contains(y) {
                    let i = choose|i: int| 0 <= i < models(stack@).len() && models(stack@)[i] == y;
                }
            }
        }
        assert(models(r@).to_set() =~= given.to_set());
        lemma_is_sorted_seq_of(models(r@), given.to_set());
    }
    r
}

/// Moving the last element of one sequence to the end of another keeps the
/// elements that the two hold together.
proof fn lemma_moved<M>(from: Seq<M>, onto: Seq<M>, shorter: Seq<M>, longer: Seq<M>)
    requires
        from.len() > 0,
        shorter == from.drop_last(),
        longer == onto.push(from.last()),
    ensures
        forall|y: M|
            (from.to_set().contains(y) || onto.to_set().contains(y)) <==> (shorter.to_set().contains(y)
                || longer.to_set().contains(y)),
{
    assert forall|y: M|
        (from.to_set().contains(y) || onto.to_set().contains(y)) <==> (shorter.to_set().contains(y)
            || longer.to_set().contains(y)) by {
        if from.to_set().contains(y) {
            let i = choose|i: int| 0 <= i < from.len() && from[i] == y;
            if i < shorter.len() {
                assert(shorter[i] == y);
            } else {
                assert(longer[longer.len() - 1] == y);
            }
        }
        if onto.to_set().contains(y) {
            let i = choose|i: int| 0 <= i < onto.len() && onto[i] == y;
            assert(longer[i] == y);
        }
        if shorter.to_set().contains(y) {
            let i = choose|i: int| 0 <= i < shorter.len() && shorter[i] == y;
            assert(from[i] == y);
        }
        if longer.to_set().contains(y) {
            let i = choose|i: int| 0 <= i < longer.len() && longer[i] == y;
            if i < onto.len() {
                assert(onto[i] == y);
            } else {
                assert(from[from.len() - 1] == y);
            }
        }
    }
}

} // verus!

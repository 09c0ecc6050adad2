//! A specification-level insertion sort, generic in the ordering, and the
//! lemma canonicalization rests on: a sorted sequence is determined by its
//! multiset of elements, so sorting forgets the input order.

use vstd::prelude::*;
use vstd::relations::sorted_by;
use vstd::seq_lib::group_to_multiset_ensures;
use vstd::seq_lib::lemma_multiset_commutative;
use vstd::multiset::Multiset;

verus! {

/// The ordering properties the sort needs, restricted to the elements of
/// `s`: totality, transitivity and antisymmetry.
pub open spec fn ordered_on<A>(leq: spec_fn(A, A) -> bool, s: Seq<A>) -> bool {
    &&& forall|x: A, y: A|
        #[trigger] s.contains(x) && #[trigger] s.contains(y) ==> leq(x, y) || leq(y, x)
    &&& forall|x: A, y: A, z: A|
        s.contains(x) && s.contains(y) && s.contains(z) && #[trigger] leq(x, y)
            && #[trigger] leq(y, z) ==> leq(x, z)
    &&& forall|x: A, y: A|
        s.contains(x) && s.contains(y) && #[trigger] leq(x, y) && #[trigger] leq(y, x)
            ==> x == y
}

/// An ordering stays adequate on a sequence drawn from fewer elements.
pub proof fn lemma_ordered_on_subset<A>(leq: spec_fn(A, A) -> bool, big: Seq<A>, small: Seq<A>)
    requires
        ordered_on(leq, big),
        forall|a: A| #[trigger] small.contains(a) ==> big.contains(a),
    ensures
        ordered_on(leq, small),
{
}

/// Insert `x` into `s` before the first element it strictly precedes.
pub open spec fn insert_sorted<A>(s: Seq<A>, x: A, leq: spec_fn(A, A) -> bool) -> Seq<A>
    decreases s.len(),
{
    if s.len() == 0 {
        seq![x]
    } else if leq(s[0], x) {
        seq![s[0]] + insert_sorted(s.drop_first(), x, leq)
    } else {
        seq![x] + s
    }
}

/// Insertion sort: fold the elements in, left to right.
pub open spec fn sort_by_leq<A>(s: Seq<A>, leq: spec_fn(A, A) -> bool) -> Seq<A>
    decreases s.len(),
{
    if s.len() == 0 {
        Seq::empty()
    } else {
        insert_sorted(sort_by_leq(s.drop_last(), leq), s.last(), leq)
    }
}

/// Inserting into a sorted sequence keeps it sorted and adds exactly the
/// new element.
pub proof fn lemma_insert_sorted<A>(s: Seq<A>, x: A, leq: spec_fn(A, A) -> bool)
    requires
        sorted_by(s, leq),
        ordered_on(leq, s.push(x)),
    ensures
        sorted_by(insert_sorted(s, x, leq), leq),
        insert_sorted(s, x, leq).to_multiset() == s.to_multiset().insert(x),
        insert_sorted(s, x, leq).len() == s.len() + 1,
    decreases s.len(),
{
    broadcast use group_to_multiset_ensures;

    let r = insert_sorted(s, x, leq);
    if s.len() == 0 {
        assert(seq![x] =~= Seq::<A>::empty().push(x));
        assert(r.to_multiset() =~= s.to_multiset().insert(x));
    } else if leq(s[0], x) {
        let d = s.drop_first();
        assert(s =~= seq![s[0]] + d);
        assert(forall|i: int| 0 <= i < d.len() ==> d[i] == s[i + 1]);
        assert(sorted_by(d, leq));
        assert(forall|a: A| #[trigger] d.push(x).contains(a) ==> s.push(x).contains(a)) by {
            assert forall|a: A| #[trigger] d.push(x).contains(a) implies s.push(x).contains(a) by {
                let i = choose|i: int| 0 <= i < d.push(x).len() && d.push(x)[i] == a;
                if i < d.len() {
                    assert(s.push(x)[i + 1] == a);
                } else {
                    assert(s.push(x)[s.len() as int] == a);
                }
            }
        }
        lemma_ordered_on_subset(leq, s.push(x), d.push(x));
        lemma_insert_sorted(d, x, leq);
        let t = insert_sorted(d, x, leq);
        assert(r =~= seq![s[0]] + t);
        // every element of t is x or an element of d, and s[0] precedes both
        assert forall|j: int| 0 < j < r.len() implies leq(r[0], #[trigger] r[j]) by {
            let y = t[j - 1];
            assert(t.contains(y));
            assert(t.to_multiset().count(y) > 0);
            if y == x {
                assert(leq(s[0], y));
            } else {
                assert(d.to_multiset().count(y) > 0);
                assert(d.contains(y));
                let k = choose|k: int| 0 <= k < d.len() && d[k] == y;
                assert(s[k + 1] == y);
                assert(leq(s[0], s[k + 1]));
            }
        }
        assert(sorted_by(r, leq)) by {
            assert forall|i: int, j: int| 0 <= i < j < r.len() implies leq(r[i], r[j]) by {
                if i > 0 {
                    assert(leq(t[i - 1], t[j - 1]));
                }
            }
        }
        lemma_multiset_commutative(seq![s[0]], t);
        lemma_multiset_commutative(seq![s[0]], d);
        assert(r.to_multiset() =~= s.to_multiset().insert(x));
    } else {
        // x goes first: x precedes s[0], hence every element of s
        assert(s.push(x).contains(x)) by {
            assert(s.push(x)[s.len() as int] == x);
        }
        assert(s.push(x).contains(s[0])) by {
            assert(s.push(x)[0] == s[0]);
        }
        assert(leq(x, s[0]));
        assert(r =~= seq![x] + s);
        assert forall|i: int, j: int| 0 <= i < j < r.len() implies leq(r[i], r[j]) by {
            if i == 0 {
                let y = s[j - 1];
                assert(s.push(x).contains(y)) by {
                    assert(s.push(x)[j - 1] == y);
                }
                if j > 1 {
                    assert(leq(s[0], s[j - 1]));
                }
            }
        }
        lemma_multiset_commutative(seq![x], s);
        assert(seq![x].to_multiset() =~= Multiset::<A>::empty().insert(x)) by {
            assert(seq![x] =~= Seq::<A>::empty().push(x));
        }
        assert(r.to_multiset() =~= s.to_multiset().insert(x));
    }
}

/// Where the insertion lands: before the first element that does not
/// precede `x`.
pub proof fn lemma_insert_sorted_position<A>(s: Seq<A>, x: A, leq: spec_fn(A, A) -> bool, j: int)
    requires
        0 <= j <= s.len(),
        forall|k: int| 0 <= k < j ==> leq(#[trigger] s[k], x),
        j < s.len() ==> !leq(s[j], x),
    ensures
        insert_sorted(s, x, leq) == s.take(j) + seq![x] + s.skip(j),
    decreases s.len(),
{
    if j == 0 {
        if s.len() == 0 {
            assert(insert_sorted(s, x, leq) =~= s.take(0) + seq![x] + s.skip(0));
        } else {
            assert(!leq(s[0], x));
            assert(insert_sorted(s, x, leq) =~= s.take(0) + seq![x] + s.skip(0));
        }
    } else {
        assert(leq(s[0], x));
        let d = s.drop_first();
        assert(forall|k: int| 0 <= k < j - 1 ==> leq(#[trigger] d[k], x)) by {
            assert(forall|k: int| 0 <= k < d.len() ==> d[k] == s[k + 1]);
        }
        assert(j - 1 < d.len() ==> !leq(d[j - 1], x));
        lemma_insert_sorted_position(d, x, leq, j - 1);
        assert(insert_sorted(s, x, leq) =~= s.take(j) + seq![x] + s.skip(j)) by {
            assert(insert_sorted(s, x, leq) == seq![s[0]] + (d.take(j - 1) + seq![x] + d.skip(j - 1)));
            assert(forall|k: int| 0 <= k < d.len() ==> d[k] == s[k + 1]);
        }
    }
}

/// The sort returns a sorted permutation of its input.
pub proof fn lemma_sort_by_leq<A>(s: Seq<A>, leq: spec_fn(A, A) -> bool)
    requires
        ordered_on(leq, s),
    ensures
        sorted_by(sort_by_leq(s, leq), leq),
        sort_by_leq(s, leq).to_multiset() == s.to_multiset(),
        sort_by_leq(s, leq).len() == s.len(),
    decreases s.len(),
{
    broadcast use group_to_multiset_ensures;

    if s.len() > 0 {
        let s0 = s.drop_last();
        assert(s =~= s0.push(s.last()));
        assert(forall|a: A| #[trigger] s0.contains(a) ==> s.contains(a)) by {
            assert forall|a: A| #[trigger] s0.contains(a) implies s.contains(a) by {
                let i = choose|i: int| 0 <= i < s0.len() && s0[i] == a;
                assert(s[i] == a);
            }
        }
        lemma_ordered_on_subset(leq, s, s0);
        lemma_sort_by_leq(s0, leq);
        let t = sort_by_leq(s0, leq);
        assert(forall|a: A| #[trigger] t.push(s.last()).contains(a) ==> s.contains(a)) by {
            assert forall|a: A| #[trigger] t.push(s.last()).contains(a) implies s.contains(a) by {
                let i = choose|i: int| 0 <= i < t.push(s.last()).len() && t.push(s.last())[i] == a;
                if i < t.len() {
                    assert(t.contains(a));
                    assert(t.to_multiset().count(a) > 0);
                    assert(s0.to_multiset().count(a) > 0);
                    assert(s0.contains(a));
                } else {
                    assert(a == s.last());
                    assert(s.contains(a)) by {
                        assert(s[s.len() - 1] == a);
                    }
                }
            }
        }
        lemma_ordered_on_subset(leq, s, t.push(s.last()));
        lemma_insert_sorted(t, s.last(), leq);
        assert(sort_by_leq(s, leq).to_multiset() =~= s.to_multiset());
    }
}

/// Two sorted sequences with the same elements are the same sequence:
/// the output of the sort depends only on the multiset of its input.
pub proof fn lemma_sorted_unique_on<A>(x: Seq<A>, y: Seq<A>, leq: spec_fn(A, A) -> bool)
    requires
        sorted_by(x, leq),
        sorted_by(y, leq),
        ordered_on(leq, x),
        x.to_multiset() == y.to_multiset(),
    ensures
        x == y,
    decreases x.len(),
{
    broadcast use group_to_multiset_ensures;

    if x.len() == 0 {
        assert(x.len() == x.to_multiset().len());
        assert(y.len() == y.to_multiset().len());
        assert(y.len() == 0);
        assert(x =~= y);
    } else {
        assert(x.len() == x.to_multiset().len());
        assert(y.len() == y.to_multiset().len());
        assert(y.len() == x.len());
        assert(x.contains(x[0]));
        assert(y.contains(y[0]));
        assert(x.to_multiset().count(y[0]) > 0);
        assert(x.contains(y[0]));
        assert(y.to_multiset().count(x[0]) > 0);
        assert(y.contains(x[0]));
        // each head precedes the other, so they are equal
        let i = choose|i: int| 0 <= i < x.len() && x[i] == y[0];
        if i > 0 {
            assert(leq(x[0], x[i]));
        }
        let j = choose|j: int| 0 <= j < y.len() && y[j] == x[0];
        if j > 0 {
            assert(leq(y[0], y[j]));
        }
        assert(leq(x[0], y[0]) || leq(y[0], x[0]));
        assert(x[0] == y[0]);
        let xd = x.drop_first();
        let yd = y.drop_first();
        assert(x.remove(0) =~= xd);
        assert(y.remove(0) =~= yd);
        assert(xd.to_multiset() =~= x.to_multiset().remove(x[0]));
        assert(yd.to_multiset() =~= y.to_multiset().remove(y[0]));
        assert(forall|i: int| 0 <= i < xd.len() ==> xd[i] == x[i + 1]);
        assert(forall|i: int| 0 <= i < yd.len() ==> yd[i] == y[i + 1]);
        assert(sorted_by(xd, leq));
        assert(sorted_by(yd, leq));
        assert(forall|a: A| #[trigger] xd.contains(a) ==> x.contains(a)) by {
            assert forall|a: A| #[trigger] xd.contains(a) implies x.contains(a) by {
                let k = choose|k: int| 0 <= k < xd.len() && xd[k] == a;
                assert(x[k + 1] == a);
            }
        }
        lemma_ordered_on_subset(leq, x, xd);
        lemma_sorted_unique_on(xd, yd, leq);
        assert(x =~= seq![x[0]] + xd);
        assert(y =~= seq![y[0]] + yd);
    }
}

} // verus!

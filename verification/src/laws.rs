//! The laws of canonicalization, stated and proved over the value model:
//! canonical forms do not depend on object key order nor on the order of
//! homogeneous primitive arrays, the semantic hash is a pure function of
//! the canonical form, and canonical ordering is idempotent.

use vstd::prelude::*;
use vstd::seq_lib::group_to_multiset_ensures;
use crate::value::GValue;
use crate::value::keys_distinct;
use crate::value::lemma_wf_seq;
use crate::value::lemma_wf_entries;
use crate::deepsort::ds;
use crate::deepsort::ds_seq;
use crate::deepsort::ds_entries;
use crate::deepsort::lemma_ds_seq;
use crate::deepsort::lemma_ds_entries;
use crate::deepsort::lemma_ds_wf;
use crate::deepsort::homog_prim;
use crate::deepsort::prim_leq;
use crate::deepsort::key_leq;
use crate::deepsort::lemma_prim_leq_ordered;
use crate::deepsort::lemma_key_leq_ordered;
use crate::sorting::ordered_on;
use crate::sorting::sort_by_leq;
use crate::sorting::lemma_sort_by_leq;
use crate::sorting::lemma_sorted_unique_on;
use crate::sorting::lemma_ordered_on_subset;
use crate::ser::canon;
use crate::api::hash_chars;

verus! {

/// Elements of the sorted sequence come from the input sequence: transfer of
/// order adequacy onto the sort's result.
proof fn lemma_ordered_on_sorted<A>(s: Seq<A>, leq: spec_fn(A, A) -> bool)
    requires
        ordered_on(leq, s),
    ensures
        ordered_on(leq, sort_by_leq(s, leq)),
{
    broadcast use group_to_multiset_ensures;

    lemma_sort_by_leq(s, leq);
    let t = sort_by_leq(s, leq);
    assert forall|a: A| #[trigger] t.contains(a) implies s.contains(a) by {
        assert(t.to_multiset().count(a) > 0);
        assert(s.to_multiset().count(a) > 0);
    }
    lemma_ordered_on_subset(leq, s, t);
}

/// Deep-sorting members commutes with removing one of them.
proof fn lemma_ds_entries_remove(s: Seq<(Seq<char>, GValue)>, j: int)
    requires
        0 <= j < s.len(),
    ensures
        ds_entries(s.remove(j)) =~= ds_entries(s).remove(j),
{
    lemma_ds_entries(s);
    lemma_ds_entries(s.remove(j));
    assert forall|k: int| 0 <= k < s.len() - 1
        implies ds_entries(s.remove(j))[k] == ds_entries(s).remove(j)[k] by {
        if k < j {
            assert(s.remove(j)[k] == s[k]);
        } else {
            assert(s.remove(j)[k] == s[k + 1]);
        }
    }
}

/// Member sequences with the same members have deep-sorted member
/// sequences with the same members.
proof fn lemma_ds_entries_multiset(e1: Seq<(Seq<char>, GValue)>, e2: Seq<(Seq<char>, GValue)>)
    requires
        e1.to_multiset() == e2.to_multiset(),
    ensures
        ds_entries(e1).to_multiset() == ds_entries(e2).to_multiset(),
    decreases e1.len(),
{
    broadcast use group_to_multiset_ensures;

    if e1.len() == 0 {
        assert(e2.len() == e2.to_multiset().len());
        assert(ds_entries(e1) =~= ds_entries(e2));
    } else {
        let x = e1[0];
        assert(e1.contains(x));
        assert(e2.to_multiset().count(x) > 0);
        assert(e2.contains(x));
        let j = choose|j: int| 0 <= j < e2.len() && e2[j] == x;
        let r1 = e1.remove(0);
        let r2 = e2.remove(j);
        assert(r1.to_multiset() =~= e1.to_multiset().remove(x));
        assert(r2.to_multiset() =~= e2.to_multiset().remove(x));
        lemma_ds_entries_multiset(r1, r2);
        lemma_ds_entries_remove(e1, 0);
        lemma_ds_entries_remove(e2, j);
        lemma_ds_entries(e1);
        lemma_ds_entries(e2);
        let dx = (x.0, ds(x.1));
        assert(ds_entries(e1)[0] == dx);
        assert(ds_entries(e2)[j as int] == dx);
        let m1 = ds_entries(e1).to_multiset();
        let m2 = ds_entries(e2).to_multiset();
        assert(ds_entries(e1).remove(0).to_multiset() =~= m1.remove(dx));
        assert(ds_entries(e2).remove(j).to_multiset() =~= m2.remove(dx));
        assert(m1.remove(dx) =~= m2.remove(dx));
        assert(ds_entries(e1).contains(dx)) by {
            assert(ds_entries(e1)[0] == dx);
        }
        assert(ds_entries(e2).contains(dx)) by {
            assert(ds_entries(e2)[j as int] == dx);
        }
        assert(m1.count(dx) > 0);
        assert(m2.count(dx) > 0);
        assert forall|y: (Seq<char>, GValue)| true implies m1.count(y) == m2.count(y) by {
            if y == dx {
                assert(m1.remove(dx).count(dx) == m1.count(dx) - 1);
                assert(m2.remove(dx).count(dx) == m2.count(dx) - 1);
            } else {
                assert(m1.remove(dx).count(y) == m1.count(y));
                assert(m2.remove(dx).count(y) == m2.count(y));
            }
        }
        assert(m1 =~= m2);
    }
}

/// Key-order independence: well-formed objects with the same members, in
/// whatever order, canonicalize to the same string.
pub proof fn lemma_key_order_independence(o1: GValue, o2: GValue)
    requires
        o1.wf(),
        o2.wf(),
        o1 is Obj,
        o2 is Obj,
        o1->Obj_0.to_multiset() == o2->Obj_0.to_multiset(),
    ensures
        canon(o1) == canon(o2),
{
    broadcast use group_to_multiset_ensures;

    let e1 = o1->Obj_0;
    let e2 = o2->Obj_0;
    lemma_ds_entries_multiset(e1, e2);
    let d1 = ds_entries(e1);
    let d2 = ds_entries(e2);
    lemma_ds_entries(e1);
    lemma_ds_entries(e2);
    assert(keys_distinct(d1)) by {
        assert forall|i: int, j: int| 0 <= i < j < d1.len()
            implies (#[trigger] d1[i]).0 != (#[trigger] d1[j]).0 by {
            assert(e1[i].0 != e1[j].0);
        }
    }
    assert(keys_distinct(d2)) by {
        assert forall|i: int, j: int| 0 <= i < j < d2.len()
            implies (#[trigger] d2[i]).0 != (#[trigger] d2[j]).0 by {
            assert(e2[i].0 != e2[j].0);
        }
    }
    lemma_key_leq_ordered(d1);
    lemma_key_leq_ordered(d2);
    lemma_sort_by_leq(d1, key_leq());
    lemma_sort_by_leq(d2, key_leq());
    lemma_ordered_on_sorted(d1, key_leq());
    lemma_sorted_unique_on(sort_by_leq(d1, key_leq()), sort_by_leq(d2, key_leq()), key_leq());
    assert(ds(o1) == ds(o2));
}

/// Order independence of homogeneous primitive arrays: arrays of one
/// primitive kind with the same elements, in whatever order, canonicalize
/// to the same string.
pub proof fn lemma_homogeneous_array_order_independence(a1: GValue, a2: GValue)
    requires
        a1 is Arr,
        a2 is Arr,
        homog_prim(a1->Arr_0),
        a1->Arr_0.to_multiset() == a2->Arr_0.to_multiset(),
    ensures
        canon(a1) == canon(a2),
{
    broadcast use group_to_multiset_ensures;

    let s1 = a1->Arr_0;
    let s2 = a2->Arr_0;
    assert(s2.len() == s2.to_multiset().len());
    assert(s1.len() == s1.to_multiset().len());
    assert(homog_prim(s2)) by {
        assert(s2.contains(s2[0])) by {
            assert(s2[0] == s2[0]);
        }
        assert(s1.to_multiset().count(s2[0]) > 0);
        assert(s1.contains(s2[0]));
        let m0 = choose|m: int| 0 <= m < s1.len() && s1[m] == s2[0];
        assert forall|i: int| 0 <= i < s2.len()
            implies (#[trigger] s2[i]).is_prim() && s2[i].kind() == s2[0].kind() by {
            assert(s2.contains(s2[i]));
            assert(s1.to_multiset().count(s2[i]) > 0);
            assert(s1.contains(s2[i]));
            let m = choose|m: int| 0 <= m < s1.len() && s1[m] == s2[i];
            assert(s1[m].is_prim() && s1[m].kind() == s1[0].kind());
        }
    }
    lemma_prim_leq_ordered(s1);
    lemma_prim_leq_ordered(s2);
    lemma_sort_by_leq(s1, prim_leq());
    lemma_sort_by_leq(s2, prim_leq());
    lemma_ordered_on_sorted(s1, prim_leq());
    lemma_sorted_unique_on(sort_by_leq(s1, prim_leq()), sort_by_leq(s2, prim_leq()), prim_leq());
    assert(ds(a1) == ds(a2));
}

/// For arrays that are not homogeneous primitive arrays — empty, mixed,
/// or holding arrays or objects — canonical ordering keeps the element
/// order, sorting only within each element.
pub proof fn lemma_mixed_array_order_preserved(a: GValue)
    requires
        a is Arr,
        !homog_prim(a->Arr_0),
    ensures
        ds(a) == GValue::Arr(ds_seq(a->Arr_0)),
        ds_seq(a->Arr_0).len() == a->Arr_0.len(),
        forall|i: int|
            0 <= i < a->Arr_0.len() ==> ds_seq(a->Arr_0)[i] == ds(#[trigger] a->Arr_0[i]),
{
    lemma_ds_seq(a->Arr_0);
}

/// Canonical ordering does not change a value's variant.
pub proof fn lemma_ds_kind(v: GValue)
    ensures
        ds(v).kind() == v.kind(),
        ds(v).is_prim() == v.is_prim(),
{
    match v {
        GValue::Arr(a) => {
            assert(ds(v) is Arr);
        },
        GValue::Obj(es) => {
            assert(ds(v) is Obj);
        },
        _ => {
            assert(ds(v) == v);
        },
    }
}

/// Canonical ordering is idempotent, so canonicalizing a value that is
/// already canonically ordered — such as the parsed form of a canonical
/// string — reproduces the same canonical string byte for byte.
pub proof fn lemma_canonicalize_idempotent(m: GValue)
    requires
        m.wf(),
    ensures
        ds(ds(m)) == ds(m),
        canon(ds(m)) == canon(m),
    decreases m,
{
    broadcast use group_to_multiset_ensures;

    match m {
        GValue::Arr(a) => {
            lemma_wf_seq(a);
            if homog_prim(a) {
                lemma_prim_leq_ordered(a);
                lemma_sort_by_leq(a, prim_leq());
                let t = sort_by_leq(a, prim_leq());
                assert(t.len() == t.to_multiset().len());
                assert(a.len() == a.to_multiset().len());
                assert(homog_prim(t)) by {
                    assert(t.contains(t[0])) by {
                        assert(t[0] == t[0]);
                    }
                    assert(a.to_multiset().count(t[0]) > 0);
                    assert(a.contains(t[0]));
                    assert forall|i: int| 0 <= i < t.len()
                        implies (#[trigger] t[i]).is_prim() && t[i].kind() == t[0].kind() by {
                        assert(t.contains(t[i]));
                        assert(a.to_multiset().count(t[i]) > 0);
                        assert(a.contains(t[i]));
                        let mi = choose|k: int| 0 <= k < a.len() && a[k] == t[i];
                        assert(a[mi].is_prim() && a[mi].kind() == a[0].kind());
                        let m0 = choose|k: int| 0 <= k < a.len() && a[k] == t[0];
                        assert(a[m0].kind() == a[0].kind());
                    }
                }
                assert(ds(m) == GValue::Arr(t));
                lemma_prim_leq_ordered(t);
                lemma_sort_by_leq(t, prim_leq());
                lemma_ordered_on_sorted(t, prim_leq());
                lemma_sorted_unique_on(sort_by_leq(t, prim_leq()), t, prim_leq());
                assert(ds(ds(m)) == ds(m));
            } else {
                lemma_ds_seq(a);
                let t = ds_seq(a);
                assert(!homog_prim(t)) by {
                    if t.len() > 0 && homog_prim(t) {
                        assert forall|i: int| 0 <= i < a.len()
                            implies (#[trigger] a[i]).is_prim() && a[i].kind()
                                == a[0].kind() by {
                            lemma_ds_kind(a[i]);
                            lemma_ds_kind(a[0]);
                            assert(t[i] == ds(a[i]));
                            assert(t[0] == ds(a[0]));
                            assert(t[i].is_prim() && t[i].kind() == t[0].kind());
                        }
                        assert(homog_prim(a));
                        assert(false);
                    }
                }
                assert(ds(m) == GValue::Arr(t));
                lemma_ds_seq(t);
                assert forall|k: int| 0 <= k < t.len() implies ds_seq(t)[k] == t[k] by {
                    assert(a[k].wf());
                    lemma_canonicalize_idempotent(a[k]);
                    assert(t[k] == ds(a[k]));
                    assert(ds_seq(t)[k] == ds(t[k]));
                }
                assert(ds_seq(t) =~= t);
                assert(ds(ds(m)) == ds(m));
            }
        },
        GValue::Obj(es) => {
            lemma_wf_entries(es);
            lemma_ds_entries(es);
            let d = ds_entries(es);
            assert(keys_distinct(d)) by {
                assert forall|i: int, j: int| 0 <= i < j < d.len()
                    implies (#[trigger] d[i]).0 != (#[trigger] d[j]).0 by {
                    assert(es[i].0 != es[j].0);
                }
            }
            lemma_key_leq_ordered(d);
            lemma_sort_by_leq(d, key_leq());
            let t = sort_by_leq(d, key_leq());
            assert(ds(m) == GValue::Obj(t));
            lemma_ds_entries(t);
            assert forall|k: int| 0 <= k < t.len() implies ds_entries(t)[k] == t[k] by {
                assert(t.contains(t[k]));
                assert(t.to_multiset().count(t[k]) > 0);
                assert(d.to_multiset().count(t[k]) > 0);
                assert(d.contains(t[k]));
                let j = choose|j: int| 0 <= j < d.len() && d[j] == t[k];
                assert(d[j] == (es[j].0, ds(es[j].1)));
                assert(es[j].1.wf());
                lemma_canonicalize_idempotent(es[j].1);
                assert(ds(t[k].1) == t[k].1);
                assert(ds_entries(t)[k] == (t[k].0, ds(t[k].1)));
            }
            assert(ds_entries(t) =~= t);
            lemma_ds_wf(m);
            assert(keys_distinct(t));
            lemma_key_leq_ordered(t);
            lemma_sort_by_leq(t, key_leq());
            lemma_ordered_on_sorted(t, key_leq());
            lemma_sorted_unique_on(sort_by_leq(t, key_leq()), t, key_leq());
            assert(ds(ds(m)) == GValue::Obj(sort_by_leq(ds_entries(t), key_leq())));
            assert(ds(ds(m)) == ds(m));
        },
        _ => {},
    }
}

/// The semantic hash is a pure function of the canonical form: values
/// with one canonical form have one hash. That canonically distinct
/// values hash differently rests on the digest's collision resistance
/// and is exercised by tests, not stated here.
pub proof fn lemma_hash_follows_canonical_form(m1: GValue, m2: GValue)
    requires
        canon(m1) == canon(m2),
    ensures
        hash_chars(m1) == hash_chars(m2),
{
}

/// Verifying a value against its own semantic hash succeeds: the
/// comparison the verifier makes is between two equal character
/// sequences.
pub proof fn lemma_verify_own_hash(m: GValue, h: Seq<char>)
    requires
        h == hash_chars(m),
    ensures
        (hash_chars(m) == h) == true,
{
}

} // verus!

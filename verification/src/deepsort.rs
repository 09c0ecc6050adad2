//! Canonical ordering of a value: object members sorted by key and
//! homogeneous primitive arrays sorted by value, recursively; the order
//! of every other sequence is preserved.

use vstd::prelude::*;
use crate::value::Value;
use crate::value::GValue;
use crate::value::model;
use crate::value::model_seq;
use crate::value::model_entries;
use crate::value::lemma_model_seq;
use crate::value::lemma_model_entries;
use crate::order::lex_lt;
use crate::order::key_le;
use crate::order::prim_le;
use crate::order::num_le_exec;
use crate::order::str_lex_lt;
use crate::order::lemma_lex_lt_connex;
use crate::order::lemma_lex_lt_trans;
use crate::order::lemma_lex_lt_asym;
use crate::sorting::ordered_on;
use crate::sorting::insert_sorted;
use crate::sorting::sort_by_leq;
use crate::sorting::lemma_insert_sorted_position;
use crate::sorting::lemma_sort_by_leq;

verus! {

/// The comparator of homogeneous primitive arrays, as a function value.
pub open spec fn prim_leq() -> spec_fn(GValue, GValue) -> bool {
    |x: GValue, y: GValue| prim_le(x, y)
}

/// The comparator of object members, as a function value.
pub open spec fn key_leq() -> spec_fn((Seq<char>, GValue), (Seq<char>, GValue)) -> bool {
    |x: (Seq<char>, GValue), y: (Seq<char>, GValue)| key_le(x, y)
}

/// Arrays of this shape get sorted: nonempty, every element a primitive,
/// all of one kind.
pub open spec fn homog_prim(s: Seq<GValue>) -> bool {
    s.len() > 0 && forall|i: int|
        0 <= i < s.len() ==> (#[trigger] s[i]).is_prim() && s[i].kind() == s[0].kind()
}

/// The canonical ordering of a value.
pub open spec fn ds(v: GValue) -> GValue
    decreases v,
{
    match v {
        GValue::Arr(a) => if homog_prim(a) {
            GValue::Arr(sort_by_leq(a, prim_leq()))
        } else {
            GValue::Arr(ds_seq(a))
        },
        GValue::Obj(es) => GValue::Obj(sort_by_leq(ds_entries(es), key_leq())),
        _ => v,
    }
}

/// The canonical ordering of each element of a sequence.
pub open spec fn ds_seq(s: Seq<GValue>) -> Seq<GValue>
    decreases s,
{
    if s.len() == 0 {
        Seq::empty()
    } else {
        seq![ds(s[0])] + ds_seq(s.drop_first())
    }
}

/// The canonical ordering of each member's value.
pub open spec fn ds_entries(s: Seq<(Seq<char>, GValue)>) -> Seq<(Seq<char>, GValue)>
    decreases s,
{
    if s.len() == 0 {
        Seq::empty()
    } else {
        seq![(s[0].0, ds(s[0].1))] + ds_entries(s.drop_first())
    }
}

/// Pointwise shape of [`ds_seq`].
pub proof fn lemma_ds_seq(s: Seq<GValue>)
    ensures
        ds_seq(s).len() == s.len(),
        forall|i: int| 0 <= i < s.len() ==> ds_seq(s)[i] == ds(s[i]),
    decreases s.len(),
{
    if s.len() > 0 {
        lemma_ds_seq(s.drop_first());
        assert forall|i: int| 0 <= i < s.len() implies ds_seq(s)[i] == ds(s[i]) by {
            if i > 0 {
                assert(ds_seq(s)[i] == ds_seq(s.drop_first())[i - 1]);
                assert(s.drop_first()[i - 1] == s[i]);
            }
        }
    }
}

/// Pointwise shape of [`ds_entries`].
pub proof fn lemma_ds_entries(s: Seq<(Seq<char>, GValue)>)
    ensures
        ds_entries(s).len() == s.len(),
        forall|i: int| 0 <= i < s.len() ==> ds_entries(s)[i] == (s[i].0, ds(s[i].1)),
    decreases s.len(),
{
    if s.len() > 0 {
        lemma_ds_entries(s.drop_first());
        assert forall|i: int| 0 <= i < s.len()
            implies ds_entries(s)[i] == (s[i].0, ds(s[i].1)) by {
            if i > 0 {
                assert(ds_entries(s)[i] == ds_entries(s.drop_first())[i - 1]);
                assert(s.drop_first()[i - 1] == s[i]);
            }
        }
    }
}

/// The key order is adequate on any member sequence with pairwise
/// distinct keys.
pub proof fn lemma_key_leq_ordered(s: Seq<(Seq<char>, GValue)>)
    requires
        forall|i: int, j: int|
            0 <= i < j < s.len() ==> (#[trigger] s[i]).0 != (#[trigger] s[j]).0,
    ensures
        ordered_on(key_leq(), s),
{
    let leq = key_leq();
    assert forall|x: (Seq<char>, GValue), y: (Seq<char>, GValue)|
        s.contains(x) && s.contains(y) implies leq(x, y) || leq(y, x) by {
        lemma_lex_lt_asym(x.0, y.0);
    }
    assert forall|x: (Seq<char>, GValue), y: (Seq<char>, GValue), z: (Seq<char>, GValue)|
        s.contains(x) && s.contains(y) && s.contains(z) && #[trigger] leq(x, y)
            && #[trigger] leq(y, z) implies leq(x, z) by {
        // le is the complement of strict lt; chain through connexity
        if lex_lt(z.0, x.0) {
            lemma_lex_lt_connex(y.0, z.0);
            if lex_lt(y.0, z.0) {
                lemma_lex_lt_trans(y.0, z.0, x.0);
            } else {
                assert(y.0 == z.0);
            }
        }
    }
    assert forall|x: (Seq<char>, GValue), y: (Seq<char>, GValue)|
        s.contains(x) && s.contains(y) && #[trigger] leq(x, y) && #[trigger] leq(y, x)
        implies x == y by {
        lemma_lex_lt_connex(x.0, y.0);
        assert(x.0 == y.0);
        if x != y {
            let i = choose|i: int| 0 <= i < s.len() && s[i] == x;
            let j = choose|j: int| 0 <= j < s.len() && s[j] == y;
            assert(s[i].0 == s[j].0);
        }
    }
}

/// The primitive order is adequate on any homogeneous primitive sequence.
pub proof fn lemma_prim_leq_ordered(s: Seq<GValue>)
    requires
        forall|i: int|
            0 <= i < s.len() ==> (#[trigger] s[i]).is_prim() && s[i].kind() == s[0].kind(),
    ensures
        ordered_on(prim_leq(), s),
{
    let leq = prim_leq();
    assert forall|x: GValue, y: GValue|
        s.contains(x) && s.contains(y) implies leq(x, y) || leq(y, x) by {
        same_kind(s, x);
        same_kind(s, y);
        if x is Text && y is Text {
            lemma_lex_lt_asym(x->Text_0, y->Text_0);
        }
    }
    assert forall|x: GValue, y: GValue, z: GValue|
        s.contains(x) && s.contains(y) && s.contains(z) && #[trigger] leq(x, y)
            && #[trigger] leq(y, z) implies leq(x, z) by {
        same_kind(s, x);
        same_kind(s, y);
        same_kind(s, z);
        if x is Text && y is Text && z is Text {
            if lex_lt(z->Text_0, x->Text_0) {
                lemma_lex_lt_connex(y->Text_0, z->Text_0);
                if lex_lt(y->Text_0, z->Text_0) {
                    lemma_lex_lt_trans(y->Text_0, z->Text_0, x->Text_0);
                } else {
                    assert(y->Text_0 == z->Text_0);
                }
            }
        }
    }
    assert forall|x: GValue, y: GValue|
        s.contains(x) && s.contains(y) && #[trigger] leq(x, y) && #[trigger] leq(y, x)
        implies x == y by {
        same_kind(s, x);
        same_kind(s, y);
        if x is Text && y is Text {
            lemma_lex_lt_connex(x->Text_0, y->Text_0);
            assert(x->Text_0 == y->Text_0);
        }
    }
}

/// The kind code of a value's variant.
fn kind_code(v: &Value) -> (r: u8)
    ensures
        r as int == model(*v).kind(),
{
    match v {
        Value::Null => 0,
        Value::Bool(_) => 1,
        Value::Num(_) => 2,
        Value::Text(_) => 3,
        Value::Arr(_) => 4,
        Value::Obj(_) => 5,
    }
}

/// Whether every element of `a` is a primitive and all share one kind.
#[verifier::loop_isolation(false)]
fn homog_check(a: &Vec<Value>) -> (r: bool)
    ensures
        r == homog_prim(model_seq(a@)),
{
    proof {
        lemma_model_seq(a@);
    }
    let ghost g = model_seq(a@);
    if a.len() == 0 {
        return false;
    }
    let k0 = kind_code(&a[0]);
    if k0 >= 4 {
        assert(!g[0].is_prim());
        return false;
    }
    assert(g[0].is_prim());
    let mut i: usize = 1;
    while i < a.len()
        invariant
            1 <= i <= a.len(),
            forall|k: int|
                0 <= k < i ==> (#[trigger] g[k]).is_prim() && g[k].kind() == g[0].kind(),
        decreases a.len() - i,
    {
        let ki = kind_code(&a[i]);
        if ki != k0 {
            assert(g[i as int].kind() != g[0].kind());
            return false;
        }
        assert(g[i as int].is_prim());
        i += 1;
    }
    true
}

/// Whether `x` precedes `y` among primitives of one kind.
fn prim_le_exec(x: &Value, y: &Value) -> (r: bool)
    requires
        model(*x).is_prim(),
        model(*y).is_prim(),
        model(*x).wf(),
        model(*y).wf(),
    ensures
        r == prim_le(model(*x), model(*y)),
{
    match (x, y) {
        (Value::Bool(b1), Value::Bool(b2)) => !*b1 || *b2,
        (Value::Num(n1), Value::Num(n2)) => num_le_exec(*n1, *n2),
        (Value::Text(s1), Value::Text(s2)) => !str_lex_lt(s2.as_str(), s1.as_str()),
        _ => true,
    }
}

/// Insert a primitive into a vector ordered by [`prim_le`].
#[verifier::loop_isolation(false)]
fn insert_prim(out: &mut Vec<Value>, x: Value)
    requires
        forall|k: int|
            0 <= k < old(out)@.len() ==> model(#[trigger] old(out)@[k]).is_prim()
                && model(old(out)@[k]).wf(),
        model(x).is_prim(),
        model(x).wf(),
    ensures
        model_seq(final(out)@) == insert_sorted(model_seq(old(out)@), model(x), prim_leq()),
        forall|k: int|
            0 <= k < final(out)@.len() ==> model(#[trigger] final(out)@[k]).is_prim()
                && model(final(out)@[k]).wf(),
{
    proof {
        lemma_model_seq(out@);
    }
    let ghost g = model_seq(out@);
    let mut j: usize = 0;
    while j < out.len() && prim_le_exec(&out[j], &x)
        invariant
            j <= out.len(),
            forall|k: int| 0 <= k < j ==> prim_le(#[trigger] g[k], model(x)),
        decreases out.len() - j,
    {
        j += 1;
    }
    proof {
        let leq = prim_leq();
        assert(forall|k: int| 0 <= k < j ==> leq(#[trigger] g[k], model(x)));
        assert((j as int) < g.len() ==> !leq(g[j as int], model(x)));
        lemma_insert_sorted_position(g, model(x), leq, j as int);
    }
    out.insert(j, x);
    proof {
        assert(out@ =~= old(out)@.take(j as int) + seq![x] + old(out)@.skip(j as int));
        lemma_model_seq(out@);
        assert(model_seq(out@) =~= g.take(j as int) + seq![model(x)] + g.skip(j as int));
    }
}

/// Insert an object member into a vector ordered by key.
#[verifier::loop_isolation(false)]
fn insert_entry(out: &mut Vec<(String, Value)>, e: (String, Value))
    ensures
        model_entries(final(out)@) == insert_sorted(
            model_entries(old(out)@),
            (e.0@, model(e.1)),
            key_leq(),
        ),
{
    proof {
        lemma_model_entries(out@);
    }
    let ghost g = model_entries(out@);
    let ghost ge = (e.0@, model(e.1));
    let mut j: usize = 0;
    while j < out.len() && !str_lex_lt(e.0.as_str(), out[j].0.as_str())
        invariant
            j <= out.len(),
            forall|k: int| 0 <= k < j ==> key_le(#[trigger] g[k], ge),
        decreases out.len() - j,
    {
        j += 1;
    }
    proof {
        let leq = key_leq();
        assert(forall|k: int| 0 <= k < j ==> leq(#[trigger] g[k], ge));
        assert((j as int) < g.len() ==> !leq(g[j as int], ge));
        lemma_insert_sorted_position(g, ge, leq, j as int);
    }
    out.insert(j, e);
    proof {
        assert(out@ =~= old(out)@.take(j as int) + seq![e] + old(out)@.skip(j as int));
        lemma_model_entries(out@);
        assert(model_entries(out@) =~= g.take(j as int) + seq![ge] + g.skip(j as int));
    }
}

/// Recursively order a value canonically: object members by key and
/// homogeneous primitive arrays by value; everything else keeps its
/// order. The result is a pure function of the value's semantic content.
#[verifier::loop_isolation(false)]
#[verifier::rlimit(100)]
pub fn deep_sort(v: &Value) -> (r: Value)
    requires
        model(*v).wf(),
    ensures
        model(r) == ds(model(*v)),
    decreases *v,
{
    match v {
        Value::Null => Value::Null,
        Value::Bool(b) => Value::Bool(*b),
        Value::Num(n) => Value::Num(*n),
        Value::Text(s) => Value::Text(s.clone()),
        Value::Arr(a) => {
            let ghost g = model_seq(a@);
            proof {
                lemma_model_seq(a@);
                lemma_ds_seq(g);
            }
            let homog = homog_check(a);
            let mut tmp: Vec<Value> = Vec::new();
            let mut i: usize = 0;
            while i < a.len()
                invariant
                    i <= a.len(),
                    tmp@.len() == i as int,
                    forall|k: int| 0 <= k < i ==> model(#[trigger] tmp@[k]) == ds(g[k]),
                decreases a.len() - i,
            {
                proof {
                    assert(model(*v) == GValue::Arr(g));
                    crate::value::lemma_wf_seq(g);
                    assert(g[i as int] == model(a@[i as int]));
                    assert(g[i as int].wf());
                }
                let x = deep_sort(&a[i]);
                tmp.push(x);
                i += 1;
            }
            proof {
                lemma_model_seq(tmp@);
            }
            if homog {
                proof {
                    crate::value::lemma_wf_seq(g);
                    assert forall|k: int| 0 <= k < g.len() implies ds(#[trigger] g[k]) == g[k] by {
                        assert(g[k].is_prim());
                    }
                    assert(model_seq(tmp@) =~= g);
                }
                let mut sorted_v: Vec<Value> = Vec::new();
                let mut done: usize = 0;
                while tmp.len() > 0
                    invariant
                        done as int + tmp@.len() == g.len(),
                        model_seq(tmp@) =~= g.skip(done as int),
                        model_seq(sorted_v@) == sort_by_leq(g.take(done as int), prim_leq()),
                        forall|k: int|
                            0 <= k < sorted_v@.len() ==> model(
                                #[trigger] sorted_v@[k],
                            ).is_prim() && model(sorted_v@[k]).wf(),
                    decreases tmp.len(),
                {
                    let ghost tv = tmp@;
                    let ghost pre = model_seq(tv);
                    proof {
                        lemma_model_seq(tv);
                        assert(pre[0] == g[done as int]);
                    }
                    let x = tmp.remove(0);
                    proof {
                        assert(model(x) == g[done as int]);
                        lemma_model_seq(tmp@);
                        assert(tmp@ =~= tv.drop_first());
                        assert(model_seq(tmp@) =~= g.skip(done as int + 1)) by {
                            assert(forall|k: int|
                                0 <= k < tmp@.len() ==> model_seq(tmp@)[k] == model(tv[k + 1]));
                        }
                    }
                    insert_prim(&mut sorted_v, x);
                    proof {
                        let t1 = g.take(done as int + 1);
                        assert(t1.drop_last() =~= g.take(done as int));
                        assert(t1.last() == g[done as int]);
                    }
                    done += 1;
                }
                proof {
                    assert(g.take(g.len() as int) =~= g);
                }
                Value::Arr(sorted_v)
            } else {
                proof {
                    assert(model_seq(tmp@) =~= ds_seq(g));
                }
                Value::Arr(tmp)
            }
        },
        Value::Obj(es) => {
            let ghost ge = model_entries(es@);
            let ghost dse = ds_entries(ge);
            proof {
                lemma_model_entries(es@);
                lemma_ds_entries(ge);
            }
            let mut tmp: Vec<(String, Value)> = Vec::new();
            let mut i: usize = 0;
            while i < es.len()
                invariant
                    i <= es.len(),
                    tmp@.len() == i as int,
                    forall|k: int|
                        0 <= k < i ==> (#[trigger] tmp@[k]).0@ == ge[k].0 && model(
                            tmp@[k].1,
                        ) == ds(ge[k].1),
                decreases es.len() - i,
            {
                proof {
                    assert(model(*v) == GValue::Obj(ge));
                    crate::value::lemma_wf_entries(ge);
                    assert(ge[i as int] == (es@[i as int].0@, model(es@[i as int].1)));
                    assert(ge[i as int].1.wf());
                }
                let key = es[i].0.clone();
                let val = deep_sort(&es[i].1);
                tmp.push((key, val));
                i += 1;
            }
            proof {
                lemma_model_entries(tmp@);
                assert(model_entries(tmp@) =~= dse);
            }
            let mut sorted_e: Vec<(String, Value)> = Vec::new();
            let mut done: usize = 0;
            while tmp.len() > 0
                invariant
                    done as int + tmp@.len() == dse.len(),
                    model_entries(tmp@) =~= dse.skip(done as int),
                    model_entries(sorted_e@) == sort_by_leq(dse.take(done as int), key_leq()),
                decreases tmp.len(),
            {
                let ghost tv = tmp@;
                let ghost pre = model_entries(tv);
                proof {
                    lemma_model_entries(tv);
                    assert(pre[0] == dse[done as int]);
                }
                let e = tmp.remove(0);
                proof {
                    assert((e.0@, model(e.1)) == dse[done as int]);
                    lemma_model_entries(tmp@);
                    assert(tmp@ =~= tv.drop_first());
                    assert forall|k: int| 0 <= k < tmp@.len()
                        implies model_entries(tmp@)[k] == dse.skip(done as int + 1)[k] by {
                        assert(tmp@[k] == tv[k + 1]);
                        assert(model_entries(tmp@)[k] == (tmp@[k].0@, model(tmp@[k].1)));
                        assert(model_entries(tv)[k + 1] == (tv[k + 1].0@, model(tv[k + 1].1)));
                        assert(model_entries(tv)[k + 1] == dse.skip(done as int)[k + 1]);
                    }
                    assert(model_entries(tmp@) =~= dse.skip(done as int + 1));
                }
                insert_entry(&mut sorted_e, e);
                proof {
                    let t1 = dse.take(done as int + 1);
                    assert(t1.drop_last() =~= dse.take(done as int));
                    assert(t1.last() == dse[done as int]);
                }
                done += 1;
            }
            proof {
                assert(dse.take(dse.len() as int) =~= dse);
            }
            Value::Obj(sorted_e)
        },
    }
}

/// Canonical ordering preserves well-formedness: sorting only permutes
/// elements, and the members' keys stay pairwise distinct.
pub proof fn lemma_ds_wf(v: GValue)
    requires
        v.wf(),
    ensures
        ds(v).wf(),
    decreases v,
{
    broadcast use vstd::seq_lib::group_to_multiset_ensures;

    match v {
        GValue::Arr(a) => {
            crate::value::lemma_wf_seq(a);
            if homog_prim(a) {
                lemma_prim_leq_ordered(a);
                lemma_sort_by_leq(a, prim_leq());
                let t = sort_by_leq(a, prim_leq());
                assert forall|k: int| 0 <= k < t.len() implies (#[trigger] t[k]).wf() by {
                    assert(t.contains(t[k]));
                    assert(t.to_multiset().count(t[k]) > 0);
                    assert(a.to_multiset().count(t[k]) > 0);
                    assert(a.contains(t[k]));
                    let m = choose|m: int| 0 <= m < a.len() && a[m] == t[k];
                    assert(a[m].wf());
                }
                crate::value::lemma_wf_seq(t);
                assert(ds(v) == GValue::Arr(t));
            } else {
                lemma_ds_seq(a);
                let t = ds_seq(a);
                assert forall|k: int| 0 <= k < t.len() implies (#[trigger] t[k]).wf() by {
                    assert(a[k].wf());
                    lemma_ds_wf(a[k]);
                }
                crate::value::lemma_wf_seq(t);
                assert(ds(v) == GValue::Arr(t));
            }
        },
        GValue::Obj(es) => {
            crate::value::lemma_wf_entries(es);
            lemma_ds_entries(es);
            let d = ds_entries(es);
            assert(crate::value::keys_distinct(d)) by {
                assert forall|i: int, j: int| 0 <= i < j < d.len()
                    implies (#[trigger] d[i]).0 != (#[trigger] d[j]).0 by {
                    assert(es[i].0 != es[j].0);
                }
            }
            assert forall|k: int| 0 <= k < d.len() implies (#[trigger] d[k]).1.wf() by {
                assert(es[k].1.wf());
                lemma_ds_wf(es[k].1);
            }
            lemma_key_leq_ordered(d);
            lemma_sort_by_leq(d, key_leq());
            let t = sort_by_leq(d, key_leq());
            assert forall|k: int| 0 <= k < t.len() implies (#[trigger] t[k]).1.wf() by {
                assert(t.contains(t[k]));
                assert(t.to_multiset().count(t[k]) > 0);
                assert(d.to_multiset().count(t[k]) > 0);
                assert(d.contains(t[k]));
                let m = choose|m: int| 0 <= m < d.len() && d[m] == t[k];
                assert(d[m].1.wf());
            }
            crate::value::lemma_wf_entries(t);
            assert(d.no_duplicates()) by {
                assert forall|i: int, j: int|
                    0 <= i < d.len() && 0 <= j < d.len() && i != j implies d[i] != d[j] by {
                    if i < j {
                        assert(d[i].0 != d[j].0);
                    } else {
                        assert(d[j].0 != d[i].0);
                    }
                }
            }
            d.lemma_multiset_has_no_duplicates();
            t.lemma_multiset_has_no_duplicates_conv();
            assert(crate::value::keys_distinct(t)) by {
                assert forall|i: int, j: int| 0 <= i < j < t.len()
                    implies (#[trigger] t[i]).0 != (#[trigger] t[j]).0 by {
                    if t[i].0 == t[j].0 {
                        let leq = key_leq();
                        assert(leq(t[i], t[j]));
                        lemma_lex_lt_asym(t[i].0, t[i].0);
                        assert(leq(t[j], t[i]));
                        assert(t.contains(t[i]));
                        assert(t.to_multiset().count(t[i]) > 0);
                        assert(d.contains(t[i]));
                        assert(t.contains(t[j]));
                        assert(t.to_multiset().count(t[j]) > 0);
                        assert(d.contains(t[j]));
                        assert(t[i] == t[j]);
                        assert(false);
                    }
                }
            }
            assert(ds(v) == GValue::Obj(t));
        },
        _ => {},
    }
}

/// A member of a homogeneous sequence is a primitive of the common kind.
proof fn same_kind(s: Seq<GValue>, x: GValue)
    requires
        forall|i: int|
            0 <= i < s.len() ==> (#[trigger] s[i]).is_prim() && s[i].kind() == s[0].kind(),
        s.contains(x),
    ensures
        x.is_prim(),
        x.kind() == s[0].kind(),
{
    let i = choose|i: int| 0 <= i < s.len() && s[i] == x;
    assert(s[i] == x);
}

} // verus!

//! The orders canonicalization sorts by: lexicographic order on character
//! sequences and exact numeric order on decimal numbers.

use vstd::prelude::*;
use vstd::string::StrSliceExecFns;
use crate::value::GValue;
use crate::value::Number;
use crate::value::MAX_SCALE;

verus! {

/// Strict lexicographic order on character sequences by code point. For
/// UTF-8 text this coincides with byte-wise lexicographic order of the
/// encoded bytes.
pub open spec fn lex_lt(a: Seq<char>, b: Seq<char>) -> bool
    decreases a.len(),
{
    if b.len() == 0 {
        false
    } else if a.len() == 0 {
        true
    } else if (a[0] as u32) < (b[0] as u32) {
        true
    } else if (b[0] as u32) < (a[0] as u32) {
        false
    } else {
        lex_lt(a.drop_first(), b.drop_first())
    }
}

/// Sequences that precede each other in neither direction are equal.
pub proof fn lemma_lex_lt_connex(a: Seq<char>, b: Seq<char>)
    ensures
        !lex_lt(a, b) && !lex_lt(b, a) ==> a == b,
    decreases a.len(),
{
    if a.len() == 0 && b.len() == 0 {
        assert(a =~= b);
    } else if a.len() == 0 {
        assert(lex_lt(a, b));
    } else if b.len() == 0 {
        assert(lex_lt(b, a));
    } else if (a[0] as u32) == (b[0] as u32) {
        vstd::utf8::char_u32_cast(a[0], a[0] as u32);
        vstd::utf8::char_u32_cast(b[0], b[0] as u32);
        assert(a[0] == b[0]);
        lemma_lex_lt_connex(a.drop_first(), b.drop_first());
        assert(lex_lt(a, b) == lex_lt(a.drop_first(), b.drop_first()));
        assert(lex_lt(b, a) == lex_lt(b.drop_first(), a.drop_first()));
        if !lex_lt(a, b) && !lex_lt(b, a) {
            assert(a.drop_first() == b.drop_first());
            assert(a =~= seq![a[0]] + a.drop_first());
            assert(b =~= seq![b[0]] + b.drop_first());
        }
    } else {
        assert(lex_lt(a, b) || lex_lt(b, a));
    }
}

/// At most one of two sequences strictly precedes the other.
pub proof fn lemma_lex_lt_asym(a: Seq<char>, b: Seq<char>)
    ensures
        !(lex_lt(a, b) && lex_lt(b, a)),
    decreases a.len(),
{
    if a.len() > 0 && b.len() > 0 && (a[0] as u32) == (b[0] as u32) {
        lemma_lex_lt_asym(a.drop_first(), b.drop_first());
    }
}

/// Lexicographic order is transitive.
pub proof fn lemma_lex_lt_trans(a: Seq<char>, b: Seq<char>, c: Seq<char>)
    requires
        lex_lt(a, b),
        lex_lt(b, c),
    ensures
        lex_lt(a, c),
    decreases a.len(),
{
    assert(b.len() > 0 && c.len() > 0);
    if a.len() == 0 {
        assert(lex_lt(a, c));
    } else if (a[0] as u32) == (b[0] as u32) && (b[0] as u32) == (c[0] as u32) {
        assert(lex_lt(a.drop_first(), b.drop_first()));
        assert(lex_lt(b.drop_first(), c.drop_first()));
        lemma_lex_lt_trans(a.drop_first(), b.drop_first(), c.drop_first());
        assert(lex_lt(a, c));
    } else {
        assert((a[0] as u32) <= (b[0] as u32));
        assert((b[0] as u32) <= (c[0] as u32));
        assert((a[0] as u32) < (c[0] as u32));
        assert(lex_lt(a, c));
    }
}

/// `10^e`.
pub open spec fn pow10s(e: nat) -> nat
    decreases e,
{
    if e == 0 {
        1
    } else {
        10 * pow10s((e - 1) as nat)
    }
}

pub proof fn lemma_pow10_pos(e: nat)
    ensures
        pow10s(e) >= 1,
    decreases e,
{
    if e > 0 {
        lemma_pow10_pos((e - 1) as nat);
    }
}

pub proof fn lemma_pow10_mono(a: nat, b: nat)
    requires
        a <= b,
    ensures
        pow10s(a) <= pow10s(b),
    decreases b,
{
    if a < b {
        lemma_pow10_mono(a, (b - 1) as nat);
    }
}

pub proof fn lemma_pow10_max()
    ensures
        pow10s(MAX_SCALE as nat) == 1000000000000000000nat,
{
    reveal_with_fuel(pow10s, 19);
}

/// The signed integer `mant * 10^(MAX_SCALE - scale)`: the numeric value
/// scaled by the common factor `10^MAX_SCALE`, so that comparing keys
/// compares the numbers' values exactly.
pub open spec fn num_key(n: Number) -> int
    recommends
        n.wf(),
{
    let m = n.mant * pow10s((MAX_SCALE - n.scale) as nat);
    if n.neg {
        -m
    } else {
        m as int
    }
}

/// An arbitrary total tiebreak on representations; well-formed numbers
/// with equal keys have equal representations, so for them it only ever
/// compares a representation with itself.
pub open spec fn num_repr_le(a: Number, b: Number) -> bool {
    if a.neg != b.neg {
        a.neg
    } else if a.mant != b.mant {
        a.mant < b.mant
    } else {
        a.scale <= b.scale
    }
}

/// Numeric order, ascending; ties broken by representation so that the
/// order is total and antisymmetric.
pub open spec fn num_le(a: Number, b: Number) -> bool {
    num_key(a) < num_key(b) || (num_key(a) == num_key(b) && num_repr_le(a, b))
}

/// The comparator for homogeneous primitive arrays: strings ascending
/// lexicographically, numbers ascending by value, false before true.
/// The sorting that uses this order never compares values of different
/// kinds.
pub open spec fn prim_le(a: GValue, b: GValue) -> bool {
    match (a, b) {
        (GValue::Bool(x), GValue::Bool(y)) => !x || y,
        (GValue::Num(x), GValue::Num(y)) => num_le(x, y),
        (GValue::Text(x), GValue::Text(y)) => !lex_lt(y, x),
        _ => true,
    }
}

/// Object members ordered by key, ascending.
pub open spec fn key_le(a: (Seq<char>, GValue), b: (Seq<char>, GValue)) -> bool {
    !lex_lt(b.0, a.0)
}

/// `10^e` for `e <= MAX_SCALE`.
pub fn pow10(e: u32) -> (r: u64)
    requires
        e <= MAX_SCALE,
    ensures
        r as nat == pow10s(e as nat),
{
    let mut i: u32 = 0;
    let mut acc: u64 = 1;
    while i < e
        invariant
            i <= e <= MAX_SCALE,
            acc as nat == pow10s(i as nat),
        decreases e - i,
    {
        proof {
            lemma_pow10_mono((i + 1) as nat, MAX_SCALE as nat);
            lemma_pow10_max();
        }
        acc = acc * 10;
        i = i + 1;
    }
    acc
}

/// The comparison key of a number, computed exactly in 128-bit
/// arithmetic; `MAX_SCALE` bounds the power of ten so the product cannot
/// overflow.
pub fn num_key_exec(n: Number) -> (r: i128)
    requires
        n.wf(),
    ensures
        r as int == num_key(n),
{
    let p = pow10(MAX_SCALE - n.scale);
    proof {
        lemma_pow10_mono((MAX_SCALE - n.scale) as nat, MAX_SCALE as nat);
        lemma_pow10_max();
        assert(n.mant as int * p as int <= 18446744073709551615int * 1000000000000000000int)
            by (nonlinear_arith)
            requires
                n.mant <= 18446744073709551615u64,
                0 <= p as int <= 1000000000000000000int,
        ;
    }
    let m: u128 = (n.mant as u128) * (p as u128);
    if n.neg {
        -(m as i128)
    } else {
        m as i128
    }
}

/// Exec comparison realizing [`num_le`].
pub fn num_le_exec(a: Number, b: Number) -> (r: bool)
    requires
        a.wf(),
        b.wf(),
    ensures
        r == num_le(a, b),
{
    let ka = num_key_exec(a);
    let kb = num_key_exec(b);
    if ka < kb {
        true
    } else if kb < ka {
        false
    } else if a.neg != b.neg {
        a.neg
    } else if a.mant != b.mant {
        a.mant < b.mant
    } else {
        a.scale <= b.scale
    }
}

fn str_lex_lt_from(a: &str, b: &str, i: usize, alen: usize, blen: usize) -> (r: bool)
    requires
        alen == a@.len(),
        blen == b@.len(),
        i <= alen,
        i <= blen,
    ensures
        r == lex_lt(a@.skip(i as int), b@.skip(i as int)),
    decreases alen - i,
{
    if i == blen {
        proof {
            assert(b@.skip(i as int).len() == 0);
        }
        false
    } else if i == alen {
        proof {
            assert(a@.skip(i as int).len() == 0);
            assert(b@.skip(i as int).len() > 0);
        }
        true
    } else {
        let ca = a.get_char(i);
        let cb = b.get_char(i);
        proof {
            assert(a@.skip(i as int)[0] == a@[i as int]);
            assert(b@.skip(i as int)[0] == b@[i as int]);
        }
        if (ca as u32) < (cb as u32) {
            true
        } else if (cb as u32) < (ca as u32) {
            false
        } else {
            let r = str_lex_lt_from(a, b, i + 1, alen, blen);
            proof {
                assert(a@.skip(i as int).drop_first() =~= a@.skip(i as int + 1));
                assert(b@.skip(i as int).drop_first() =~= b@.skip(i as int + 1));
            }
            r
        }
    }
}

/// Whether `a` strictly precedes `b` in the canonical string order.
pub fn str_lex_lt(a: &str, b: &str) -> (r: bool)
    ensures
        r == lex_lt(a@, b@),
{
    let alen = a.unicode_len();
    let blen = b.unicode_len();
    let r = str_lex_lt_from(a, b, 0, alen, blen);
    proof {
        assert(a@.skip(0) =~= a@);
        assert(b@.skip(0) =~= b@);
    }
    r
}

} // verus!

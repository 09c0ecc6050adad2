//! The public operations: canonicalization, semantic hashing, hash
//! verification and canonical equality.

use vstd::prelude::*;
use vstd::string::StrSliceExecFns;
use vstd::string::StringExecFns;
use vstd::utf8::encode_utf8;
use crate::value::Value;
use crate::value::GValue;
use crate::value::ConstitutionalError;
use crate::value::model;
use crate::deepsort::ds;
use crate::deepsort::ds_entries;
use crate::deepsort::key_leq;
use crate::deepsort::deep_sort;
use crate::deepsort::lemma_ds_wf;
use crate::sorting::sort_by_leq;
use crate::sorting::insert_sorted;
use crate::ser::ser;
use crate::ser::ser_entries;
use crate::ser::ser_entries_tail;
use crate::ser::entry_chars;
use crate::ser::quoted;
use crate::ser::canon;
use crate::ser::push_char;
use crate::ser::push_escaped;
use crate::ser::write_value;
use crate::digest::sha256_of;
use crate::digest::sha256_bytes;
use crate::digest::hex_of;
use crate::digest::hex_lower;
use crate::digest::is_hex_lower;
use crate::digest::lemma_hex_of_props;

verus! {

/// The object that non-strict canonicalization wraps a non-object into:
/// a single member named "value".
pub open spec fn wrapped(v: GValue) -> GValue {
    GValue::Obj(seq![("value"@, v)])
}

/// The semantic hash of a value, as characters: the lowercase hex form of
/// the SHA-256 digest of the canonical form's UTF-8 encoding.
pub open spec fn hash_chars(m: GValue) -> Seq<char> {
    hex_of(sha256_of(encode_utf8(canon(m))))
}

/// The canonical form of the wrapper object spelled out: one member,
/// whose value is canonically ordered.
proof fn lemma_wrapped_canon(m: GValue)
    ensures
        ds(wrapped(m)) == GValue::Obj(seq![("value"@, ds(m))]),
        canon(wrapped(m)) == seq!['{'] + quoted("value"@) + seq![':'] + ser(ds(m)) + seq!['}'],
{
    let e = ("value"@, ds(m));
    let es = seq![("value"@, m)];
    reveal_with_fuel(ds_entries, 3);
    assert(es.drop_first() =~= Seq::<(Seq<char>, GValue)>::empty());
    assert(ds_entries(es) =~= seq![e]);
    reveal_with_fuel(sort_by_leq, 3);
    reveal_with_fuel(insert_sorted, 2);
    assert(seq![e].drop_last() =~= Seq::<(Seq<char>, GValue)>::empty());
    assert(seq![e].last() == e);
    assert(sort_by_leq(seq![e], key_leq()) =~= seq![e]);
    assert(ds(wrapped(m)) == GValue::Obj(seq![e]));
    reveal_with_fuel(ser_entries_tail, 2);
    assert(seq![e][0] == e);
    assert(ser_entries(seq![e]) =~= entry_chars(e));
    assert(canon(wrapped(m)) =~= seq!['{'] + quoted("value"@) + seq![':'] + ser(ds(m)) + seq![
        '}',
    ]);
}

/// Character-wise string equality.
#[verifier::loop_isolation(false)]
fn str_eq(a: &str, b: &str) -> (r: bool)
    ensures
        r == (a@ == b@),
{
    let alen = a.unicode_len();
    let blen = b.unicode_len();
    if alen != blen {
        return false;
    }
    let mut i: usize = 0;
    while i < alen
        invariant
            i <= alen,
            forall|k: int| 0 <= k < i ==> a@[k] == b@[k],
        decreases alen - i,
    {
        let ca = a.get_char(i);
        let cb = b.get_char(i);
        if (ca as u32) != (cb as u32) {
            proof {
                assert(a@[i as int] != b@[i as int]);
            }
            return false;
        }
        proof {
            vstd::utf8::char_u32_cast(ca, ca as u32);
            vstd::utf8::char_u32_cast(cb, cb as u32);
            assert(a@[i as int] == b@[i as int]);
        }
        i += 1;
    }
    proof {
        assert(a@ =~= b@);
    }
    true
}

/// Canonicalize a value into its unique compact textual form: object
/// members in ascending key order and homogeneous primitive arrays in
/// ascending value order, at every depth. A non-object input fails in
/// strict mode; otherwise it is wrapped as the single member `"value"`
/// of a fresh object first.
pub fn canonicalize(data: &Value, strict: bool) -> (r: Result<String, ConstitutionalError>)
    requires
        model(*data).wf(),
    ensures
        model(*data) is Obj ==> r is Ok && r->Ok_0@ == canon(model(*data)),
        !(model(*data) is Obj) && strict ==> r is Err && r->Err_0 is CanonicalizationError,
        !(model(*data) is Obj) && !strict ==> r is Ok && r->Ok_0@ == canon(
            wrapped(model(*data)),
        ),
{
    let is_obj = matches!(data, Value::Obj(_));
    if !is_obj {
        if strict {
            let mut msg = String::new();
            msg.append("Input must be an object, got ");
            msg.append(data.type_str());
            return Err(ConstitutionalError::CanonicalizationError(msg));
        }
        let sorted = deep_sort(data);
        proof {
            lemma_ds_wf(model(*data));
        }
        let mut out = String::new();
        push_char(&mut out, '{');
        push_char(&mut out, '"');
        push_escaped(&mut out, "value");
        push_char(&mut out, '"');
        push_char(&mut out, ':');
        write_value(&mut out, &sorted);
        push_char(&mut out, '}');
        proof {
            lemma_wrapped_canon(model(*data));
            assert(out@ =~= canon(wrapped(model(*data))));
        }
        return Ok(out);
    }
    let sorted = deep_sort(data);
    proof {
        lemma_ds_wf(model(*data));
    }
    let mut out = String::new();
    write_value(&mut out, &sorted);
    proof {
        assert(out@ =~= canon(model(*data)));
    }
    Ok(out)
}

/// The semantic hash: SHA-256 over the strict canonical form's UTF-8
/// bytes, rendered as exactly 64 lowercase hexadecimal characters. Strict
/// canonicalization is used unconditionally, so a non-object input fails.
pub fn semantic_hash(data: &Value) -> (r: Result<String, ConstitutionalError>)
    requires
        model(*data).wf(),
    ensures
        model(*data) is Obj ==> r is Ok && r->Ok_0@ == hash_chars(model(*data))
            && r->Ok_0@.len() == 64 && (forall|i: int|
            0 <= i < 64 ==> is_hex_lower(#[trigger] r->Ok_0@[i])),
        !(model(*data) is Obj) ==> r is Err && r->Err_0 is CanonicalizationError,
{
    let canonical = match canonicalize(data, true) {
        Ok(s) => s,
        Err(e) => {
            return Err(e);
        },
    };
    let digest = sha256_bytes(canonical.as_str().as_bytes());
    let hex = hex_lower(&digest);
    proof {
        lemma_hex_of_props(sha256_of(encode_utf8(canon(model(*data)))));
    }
    Ok(hex)
}

/// Whether the value's semantic hash equals the expected one, by exact
/// case-sensitive comparison; a canonicalization failure propagates as an
/// error rather than a mismatch.
pub fn verify_semantic_hash(data: &Value, expected_hash: &str) -> (r: Result<
    bool,
    ConstitutionalError,
>)
    requires
        model(*data).wf(),
    ensures
        model(*data) is Obj ==> r is Ok && r->Ok_0 == (hash_chars(model(*data))
            == expected_hash@),
        !(model(*data) is Obj) ==> r is Err && r->Err_0 is CanonicalizationError,
{
    let actual = match semantic_hash(data) {
        Ok(h) => h,
        Err(e) => {
            return Err(e);
        },
    };
    Ok(str_eq(actual.as_str(), expected_hash))
}

/// Whether two values have byte-identical strict canonical forms. A
/// canonicalization failure on either side yields false: this predicate
/// is total and never errors.
pub fn canonically_equal(data1: &Value, data2: &Value) -> (r: bool)
    requires
        model(*data1).wf(),
        model(*data2).wf(),
    ensures
        r == (model(*data1) is Obj && model(*data2) is Obj && canon(model(*data1)) == canon(
            model(*data2),
        )),
{
    let c1 = match canonicalize(data1, true) {
        Ok(s) => s,
        Err(_) => {
            return false;
        },
    };
    let c2 = match canonicalize(data2, true) {
        Ok(s) => s,
        Err(_) => {
            return false;
        },
    };
    str_eq(c1.as_str(), c2.as_str())
}

} // verus!

//! The JSON-like value model and its mathematical counterpart.

use vstd::prelude::*;

verus! {

/// The digest algorithm every implementation of this scheme must use.
pub const HASH_ALGORITHM: &'static str = "sha256";

/// The text encoding hashed: the canonical string's UTF-8 bytes.
pub const ENCODING: &'static str = "utf-8";

/// A decimal number: the numeric value is `mant / 10^scale`, negated when
/// `neg` is set. Pinning numbers to fixed-format decimal text (rather than
/// a native float type) keeps the canonical rendering identical across
/// implementations.
#[derive(Clone, Copy, Debug)]
pub struct Number {
    pub neg: bool,
    pub mant: u64,
    pub scale: u32,
}

/// The largest scale a well-formed number may carry; it bounds the
/// power-of-ten arithmetic used when numbers are compared.
pub const MAX_SCALE: u32 = 18;

impl Number {
    /// A normalized representation: the scale is bounded, the fractional
    /// digits do not end in zero, and zero itself has one unique form.
    pub open spec fn wf(self) -> bool {
        &&& self.scale <= MAX_SCALE
        &&& (self.scale > 0 ==> self.mant % 10 != 0)
        &&& (self.mant == 0 ==> !self.neg && self.scale == 0)
    }
}

/// A JSON-like value: the closed sum type over which canonicalization,
/// hashing and comparison are defined. Object members are held in
/// insertion order; canonicalization is what removes that order from the
/// result.
#[derive(Debug)]
pub enum Value {
    Null,
    Bool(bool),
    Num(Number),
    Text(String),
    Arr(Vec<Value>),
    Obj(Vec<(String, Value)>),
}

/// The mathematical model of a [`Value`]: strings become character
/// sequences and the containers become `Seq`s, so that contracts can be
/// stated over pure values.
pub enum GValue {
    Null,
    Bool(bool),
    Num(Number),
    Text(Seq<char>),
    Arr(Seq<GValue>),
    Obj(Seq<(Seq<char>, GValue)>),
}

/// The model of a value.
pub open spec fn model(v: Value) -> GValue
    decreases v,
{
    match v {
        Value::Null => GValue::Null,
        Value::Bool(b) => GValue::Bool(b),
        Value::Num(n) => GValue::Num(n),
        Value::Text(s) => GValue::Text(s@),
        Value::Arr(a) => GValue::Arr(model_seq(a@)),
        Value::Obj(es) => GValue::Obj(model_entries(es@)),
    }
}

/// The models of a sequence of values, element by element.
pub open spec fn model_seq(s: Seq<Value>) -> Seq<GValue>
    decreases s,
{
    if s.len() == 0 {
        Seq::empty()
    } else {
        seq![model(s[0])] + model_seq(s.drop_first())
    }
}

/// The models of a sequence of object members, member by member.
pub open spec fn model_entries(s: Seq<(String, Value)>) -> Seq<(Seq<char>, GValue)>
    decreases s,
{
    if s.len() == 0 {
        Seq::empty()
    } else {
        seq![(s[0].0@, model(s[0].1))] + model_entries(s.drop_first())
    }
}

impl View for Value {
    type V = GValue;

    open spec fn view(&self) -> GValue {
        model(*self)
    }
}

impl GValue {
    /// Whether the value is a primitive (not an array or object).
    pub open spec fn is_prim(self) -> bool {
        self is Null || self is Bool || self is Num || self is Text
    }

    /// A rank that distinguishes the six variants.
    pub open spec fn kind(self) -> int {
        match self {
            GValue::Null => 0,
            GValue::Bool(_) => 1,
            GValue::Num(_) => 2,
            GValue::Text(_) => 3,
            GValue::Arr(_) => 4,
            GValue::Obj(_) => 5,
        }
    }

    /// Well-formedness: every number is normalized and every object's
    /// keys are pairwise distinct.
    pub open spec fn wf(self) -> bool
        decreases self,
    {
        match self {
            GValue::Null => true,
            GValue::Bool(_) => true,
            GValue::Num(n) => n.wf(),
            GValue::Text(_) => true,
            GValue::Arr(a) => wf_seq(a),
            GValue::Obj(es) => keys_distinct(es) && wf_entries(es),
        }
    }
}

/// Pairwise distinct member keys.
pub open spec fn keys_distinct(es: Seq<(Seq<char>, GValue)>) -> bool {
    forall|i: int, j: int|
        0 <= i < j < es.len() ==> (#[trigger] es[i]).0 != (#[trigger] es[j]).0
}

/// Every element well-formed.
pub open spec fn wf_seq(s: Seq<GValue>) -> bool
    decreases s,
{
    s.len() == 0 || (s[0].wf() && wf_seq(s.drop_first()))
}

/// Every member's value well-formed.
pub open spec fn wf_entries(s: Seq<(Seq<char>, GValue)>) -> bool
    decreases s,
{
    s.len() == 0 || (s[0].1.wf() && wf_entries(s.drop_first()))
}

/// [`wf_seq`], element by element.
pub proof fn lemma_wf_seq(s: Seq<GValue>)
    ensures
        wf_seq(s) <==> (forall|i: int| 0 <= i < s.len() ==> (#[trigger] s[i]).wf()),
    decreases s.len(),
{
    if s.len() > 0 {
        lemma_wf_seq(s.drop_first());
        assert(forall|i: int| 0 < i < s.len() ==> s.drop_first()[i - 1] == #[trigger] s[i]);
        if wf_seq(s) {
            assert forall|i: int| 0 <= i < s.len() implies (#[trigger] s[i]).wf() by {
                if i > 0 {
                    assert(s.drop_first()[i - 1].wf());
                }
            }
        } else {
            if s[0].wf() {
                let i = choose|i: int|
                    0 <= i < s.drop_first().len() && !(#[trigger] s.drop_first()[i]).wf();
                assert(!s[i + 1].wf());
            }
        }
    }
}

/// [`wf_entries`], member by member.
pub proof fn lemma_wf_entries(s: Seq<(Seq<char>, GValue)>)
    ensures
        wf_entries(s) <==> (forall|i: int| 0 <= i < s.len() ==> (#[trigger] s[i]).1.wf()),
    decreases s.len(),
{
    if s.len() > 0 {
        lemma_wf_entries(s.drop_first());
        assert(forall|i: int| 0 < i < s.len() ==> s.drop_first()[i - 1] == #[trigger] s[i]);
        if wf_entries(s) {
            assert forall|i: int| 0 <= i < s.len() implies (#[trigger] s[i]).1.wf() by {
                if i > 0 {
                    assert(s.drop_first()[i - 1].1.wf());
                }
            }
        } else {
            if s[0].1.wf() {
                let i = choose|i: int|
                    0 <= i < s.drop_first().len() && !(#[trigger] s.drop_first()[i]).1.wf();
                assert(!s[i + 1].1.wf());
            }
        }
    }
}

/// Pointwise shape of [`model_seq`].
pub proof fn lemma_model_seq(s: Seq<Value>)
    ensures
        model_seq(s).len() == s.len(),
        forall|i: int| 0 <= i < s.len() ==> model_seq(s)[i] == model(s[i]),
    decreases s.len(),
{
    if s.len() > 0 {
        lemma_model_seq(s.drop_first());
        assert forall|i: int| 0 <= i < s.len() implies model_seq(s)[i] == model(s[i]) by {
            if i > 0 {
                assert(model_seq(s)[i] == model_seq(s.drop_first())[i - 1]);
                assert(s.drop_first()[i - 1] == s[i]);
            }
        }
    }
}

/// Pointwise shape of [`model_entries`].
pub proof fn lemma_model_entries(s: Seq<(String, Value)>)
    ensures
        model_entries(s).len() == s.len(),
        forall|i: int| 0 <= i < s.len()
            ==> model_entries(s)[i] == (s[i].0@, model(s[i].1)),
    decreases s.len(),
{
    if s.len() > 0 {
        lemma_model_entries(s.drop_first());
        assert forall|i: int| 0 <= i < s.len()
            implies model_entries(s)[i] == (s[i].0@, model(s[i].1)) by {
            if i > 0 {
                assert(model_entries(s)[i] == model_entries(s.drop_first())[i - 1]);
                assert(s.drop_first()[i - 1] == s[i]);
            }
        }
    }
}

/// The kinds of error the library reports. Canonicalization failures come
/// from strict-mode shape violations; the other two kinds are reserved for
/// the digest stage and for the surrounding protocol layer.
#[derive(Debug)]
pub enum ConstitutionalError {
    ProtocolError(String),
    CanonicalizationError(String),
    HashingError(String),
}

impl Value {
    /// The name of the value's variant, as used in error messages.
    pub fn type_str(&self) -> (r: &'static str)
        ensures
            r@ == match self@ {
                GValue::Null => "null"@,
                GValue::Bool(_) => "bool"@,
                GValue::Num(_) => "number"@,
                GValue::Text(_) => "string"@,
                GValue::Arr(_) => "array"@,
                GValue::Obj(_) => "object"@,
            },
    {
        match self {
            Value::Null => "null",
            Value::Bool(_) => "bool",
            Value::Num(_) => "number",
            Value::Text(_) => "string",
            Value::Arr(_) => "array",
            Value::Obj(_) => "object",
        }
    }
}

} // verus!

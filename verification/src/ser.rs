//! The compact canonical serialization: no whitespace, members as
//! `"key":value`, standard JSON escaping, and one fixed decimal rendering
//! per numeric value.

use vstd::prelude::*;
use vstd::string::StrSliceExecFns;
use vstd::string::StringExecFns;
use crate::value::Value;
use crate::value::GValue;
use crate::value::Number;
use crate::value::model;
use crate::value::model_seq;
use crate::value::model_entries;
use crate::value::lemma_model_seq;
use crate::value::lemma_model_entries;
use crate::order::pow10s;
use crate::order::pow10;
use crate::order::lemma_pow10_pos;
use crate::deepsort::ds;

verus! {

/// Relies on `String::push`: appends exactly the given character.
#[verifier::external_body]
pub(crate) fn push_char(s: &mut String, c: char)
    ensures
        final(s)@ == old(s)@.push(c),
{
    s.push(c);
}

/// The lowercase hexadecimal digit for `d < 16`; for `d < 10` this is the
/// decimal digit.
pub open spec fn hexc(d: nat) -> char {
    if d == 0 {
        '0'
    } else if d == 1 {
        '1'
    } else if d == 2 {
        '2'
    } else if d == 3 {
        '3'
    } else if d == 4 {
        '4'
    } else if d == 5 {
        '5'
    } else if d == 6 {
        '6'
    } else if d == 7 {
        '7'
    } else if d == 8 {
        '8'
    } else if d == 9 {
        '9'
    } else if d == 10 {
        'a'
    } else if d == 11 {
        'b'
    } else if d == 12 {
        'c'
    } else if d == 13 {
        'd'
    } else if d == 14 {
        'e'
    } else {
        'f'
    }
}

/// The decimal digits of `n`, most significant first, no leading zeros.
pub open spec fn digits_of(n: nat) -> Seq<char>
    decreases n,
{
    if n < 10 {
        seq![hexc(n)]
    } else {
        digits_of(n / 10) + seq![hexc(n % 10)]
    }
}

/// The low `w` decimal digits of `n`, zero-padded to exactly `w` digits.
pub open spec fn fixed_digits(n: nat, w: nat) -> Seq<char>
    decreases w,
{
    if w == 0 {
        Seq::empty()
    } else {
        fixed_digits(n / 10, (w - 1) as nat) + seq![hexc(n % 10)]
    }
}

/// The canonical rendering of a number: integral values without a
/// decimal point, others with exactly `scale` fractional digits.
pub open spec fn num_chars(x: Number) -> Seq<char> {
    let sign: Seq<char> = if x.neg {
        seq!['-']
    } else {
        Seq::empty()
    };
    if x.scale == 0 {
        sign + digits_of(x.mant as nat)
    } else {
        let p = pow10s(x.scale as nat);
        sign + digits_of((x.mant as nat) / p) + seq!['.'] + fixed_digits(
            (x.mant as nat) % p,
            x.scale as nat,
        )
    }
}

/// Standard JSON escaping of one character: `"`, `\` and the five named
/// controls by short escapes, other controls below 0x20 as `\u00` plus
/// two lowercase hex digits, everything else unchanged.
pub open spec fn escape_char(c: char) -> Seq<char> {
    if c == '"' {
        seq!['\\', '"']
    } else if c == '\\' {
        seq!['\\', '\\']
    } else if c == '\u{8}' {
        seq!['\\', 'b']
    } else if c == '\t' {
        seq!['\\', 't']
    } else if c == '\n' {
        seq!['\\', 'n']
    } else if c == '\u{c}' {
        seq!['\\', 'f']
    } else if c == '\r' {
        seq!['\\', 'r']
    } else if (c as u32) < 0x20 {
        seq!['\\', 'u', '0', '0', hexc(((c as u32) / 16) as nat), hexc(((c as u32) % 16) as nat)]
    } else {
        seq![c]
    }
}

/// Escaping applied to a whole string.
pub open spec fn escape_str(s: Seq<char>) -> Seq<char>
    decreases s.len(),
{
    if s.len() == 0 {
        Seq::empty()
    } else {
        escape_char(s[0]) + escape_str(s.drop_first())
    }
}

/// A string in its serialized form: quoted and escaped.
pub open spec fn quoted(s: Seq<char>) -> Seq<char> {
    seq!['"'] + escape_str(s) + seq!['"']
}

/// One serialized object member.
pub open spec fn entry_chars(e: (Seq<char>, GValue)) -> Seq<char>
    decreases e,
{
    quoted(e.0) + seq![':'] + ser(e.1)
}

/// The compact serialization of a value, in the order given.
pub open spec fn ser(v: GValue) -> Seq<char>
    decreases v,
{
    match v {
        GValue::Null => "null"@,
        GValue::Bool(b) => if b {
            "true"@
        } else {
            "false"@
        },
        GValue::Num(x) => num_chars(x),
        GValue::Text(s) => quoted(s),
        GValue::Arr(a) => seq!['['] + ser_vals(a) + seq![']'],
        GValue::Obj(es) => seq!['{'] + ser_entries(es) + seq!['}'],
    }
}

/// Array elements, comma separated.
pub open spec fn ser_vals(s: Seq<GValue>) -> Seq<char>
    decreases s,
{
    if s.len() == 0 {
        Seq::empty()
    } else {
        ser(s[0]) + ser_vals_tail(s.drop_first())
    }
}

/// The remaining array elements, each preceded by a comma.
pub open spec fn ser_vals_tail(s: Seq<GValue>) -> Seq<char>
    decreases s,
{
    if s.len() == 0 {
        Seq::empty()
    } else {
        seq![','] + ser(s[0]) + ser_vals_tail(s.drop_first())
    }
}

/// Object members, comma separated.
pub open spec fn ser_entries(s: Seq<(Seq<char>, GValue)>) -> Seq<char>
    decreases s,
{
    if s.len() == 0 {
        Seq::empty()
    } else {
        entry_chars(s[0]) + ser_entries_tail(s.drop_first())
    }
}

/// The remaining object members, each preceded by a comma.
pub open spec fn ser_entries_tail(s: Seq<(Seq<char>, GValue)>) -> Seq<char>
    decreases s,
{
    if s.len() == 0 {
        Seq::empty()
    } else {
        seq![','] + entry_chars(s[0]) + ser_entries_tail(s.drop_first())
    }
}

/// The canonical form of a value: its deep-sorted serialization.
pub open spec fn canon(v: GValue) -> Seq<char> {
    ser(ds(v))
}

pub proof fn lemma_ser_vals_tail_push(t: Seq<GValue>, x: GValue)
    ensures
        ser_vals_tail(t.push(x)) == ser_vals_tail(t) + seq![','] + ser(x),
    decreases t.len(),
{
    if t.len() == 0 {
        reveal_with_fuel(ser_vals_tail, 2);
        assert(t.push(x)[0] == x);
        assert(t.push(x).drop_first() =~= Seq::<GValue>::empty());
        assert(ser_vals_tail(t.push(x)) =~= ser_vals_tail(t) + seq![','] + ser(x));
    } else {
        assert(t.push(x)[0] == t[0]);
        assert(t.push(x).drop_first() =~= t.drop_first().push(x));
        lemma_ser_vals_tail_push(t.drop_first(), x);
        assert(ser_vals_tail(t.push(x)) =~= ser_vals_tail(t) + seq![','] + ser(x));
    }
}

pub proof fn lemma_ser_vals_push(t: Seq<GValue>, x: GValue)
    ensures
        t.len() == 0 ==> ser_vals(t.push(x)) == ser(x),
        t.len() > 0 ==> ser_vals(t.push(x)) == ser_vals(t) + seq![','] + ser(x),
{
    if t.len() == 0 {
        reveal_with_fuel(ser_vals_tail, 2);
        assert(t.push(x)[0] == x);
        assert(t.push(x).drop_first() =~= Seq::<GValue>::empty());
        assert(ser_vals(t.push(x)) =~= ser(x));
    } else {
        assert(t.push(x)[0] == t[0]);
        assert(t.push(x).drop_first() =~= t.drop_first().push(x));
        lemma_ser_vals_tail_push(t.drop_first(), x);
        assert(ser_vals(t.push(x)) =~= ser_vals(t) + seq![','] + ser(x));
    }
}

pub proof fn lemma_ser_entries_tail_push(t: Seq<(Seq<char>, GValue)>, e: (Seq<char>, GValue))
    ensures
        ser_entries_tail(t.push(e)) == ser_entries_tail(t) + seq![','] + entry_chars(e),
    decreases t.len(),
{
    if t.len() == 0 {
        reveal_with_fuel(ser_entries_tail, 2);
        assert(t.push(e)[0] == e);
        assert(t.push(e).drop_first() =~= Seq::<(Seq<char>, GValue)>::empty());
        assert(ser_entries_tail(t.push(e)) =~= ser_entries_tail(t) + seq![','] + entry_chars(e));
    } else {
        assert(t.push(e)[0] == t[0]);
        assert(t.push(e).drop_first() =~= t.drop_first().push(e));
        lemma_ser_entries_tail_push(t.drop_first(), e);
        assert(ser_entries_tail(t.push(e)) =~= ser_entries_tail(t) + seq![','] + entry_chars(e));
    }
}

pub proof fn lemma_ser_entries_push(t: Seq<(Seq<char>, GValue)>, e: (Seq<char>, GValue))
    ensures
        t.len() == 0 ==> ser_entries(t.push(e)) == entry_chars(e),
        t.len() > 0 ==> ser_entries(t.push(e)) == ser_entries(t) + seq![','] + entry_chars(e),
{
    if t.len() == 0 {
        reveal_with_fuel(ser_entries_tail, 2);
        assert(t.push(e)[0] == e);
        assert(t.push(e).drop_first() =~= Seq::<(Seq<char>, GValue)>::empty());
        assert(ser_entries(t.push(e)) =~= entry_chars(e));
    } else {
        assert(t.push(e)[0] == t[0]);
        assert(t.push(e).drop_first() =~= t.drop_first().push(e));
        lemma_ser_entries_tail_push(t.drop_first(), e);
        assert(ser_entries(t.push(e)) =~= ser_entries(t) + seq![','] + entry_chars(e));
    }
}

pub proof fn lemma_escape_str_push(t: Seq<char>, c: char)
    ensures
        escape_str(t.push(c)) == escape_str(t) + escape_char(c),
    decreases t.len(),
{
    if t.len() == 0 {
        reveal_with_fuel(escape_str, 2);
        assert(t.push(c)[0] == c);
        assert(t.push(c).drop_first() =~= Seq::<char>::empty());
        assert(escape_str(t.push(c)) =~= escape_str(t) + escape_char(c));
    } else {
        assert(t.push(c)[0] == t[0]);
        assert(t.push(c).drop_first() =~= t.drop_first().push(c));
        lemma_escape_str_push(t.drop_first(), c);
        assert(escape_str(t.push(c)) =~= escape_str(t) + escape_char(c));
    }
}

/// The lowercase hexadecimal digit of `d < 16`.
pub(crate) fn hexc_exec(d: u8) -> (c: char)
    requires
        d < 16,
    ensures
        c == hexc(d as nat),
{
    match d {
        0 => '0',
        1 => '1',
        2 => '2',
        3 => '3',
        4 => '4',
        5 => '5',
        6 => '6',
        7 => '7',
        8 => '8',
        9 => '9',
        10 => 'a',
        11 => 'b',
        12 => 'c',
        13 => 'd',
        14 => 'e',
        _ => 'f',
    }
}

/// Append the decimal digits of `n`.
fn push_digits(out: &mut String, n: u64)
    ensures
        final(out)@ == old(out)@ + digits_of(n as nat),
    decreases n,
{
    if n < 10 {
        let c = hexc_exec(n as u8);
        push_char(out, c);
        proof {
            assert(out@ =~= old(out)@ + digits_of(n as nat));
        }
    } else {
        push_digits(out, n / 10);
        let c = hexc_exec((n % 10) as u8);
        push_char(out, c);
        proof {
            assert(out@ =~= old(out)@ + digits_of(n as nat));
        }
    }
}

/// Append exactly `w` decimal digits of `n`, zero padded.
fn push_fixed(out: &mut String, n: u64, w: u32)
    ensures
        final(out)@ == old(out)@ + fixed_digits(n as nat, w as nat),
    decreases w,
{
    if w > 0 {
        push_fixed(out, n / 10, w - 1);
        let c = hexc_exec((n % 10) as u8);
        push_char(out, c);
        proof {
            assert(out@ =~= old(out)@ + fixed_digits(n as nat, w as nat));
        }
    } else {
        proof {
            assert(out@ =~= old(out)@ + fixed_digits(n as nat, 0));
        }
    }
}

/// Append the canonical rendering of a number.
fn push_number(out: &mut String, x: Number)
    requires
        x.wf(),
    ensures
        final(out)@ == old(out)@ + num_chars(x),
{
    if x.neg {
        push_char(out, '-');
    }
    if x.scale == 0 {
        push_digits(out, x.mant);
        proof {
            assert(out@ =~= old(out)@ + num_chars(x));
        }
    } else {
        let p = pow10(x.scale);
        proof {
            lemma_pow10_pos(x.scale as nat);
            assert(p >= 1);
        }
        push_digits(out, x.mant / p);
        push_char(out, '.');
        push_fixed(out, x.mant % p, x.scale);
        proof {
            assert(out@ =~= old(out)@ + num_chars(x));
        }
    }
}

/// Append the escaped form of a string.
#[verifier::loop_isolation(false)]
pub(crate) fn push_escaped(out: &mut String, s: &str)
    ensures
        final(out)@ == old(out)@ + escape_str(s@),
{
    let n = s.unicode_len();
    let mut i: usize = 0;
    while i < n
        invariant
            i <= n,
            n == s@.len(),
            out@ == old(out)@ + escape_str(s@.take(i as int)),
        decreases n - i,
    {
        let c = s.get_char(i);
        let u = c as u32;
        if c == '"' {
            push_char(out, '\\');
            push_char(out, '"');
        } else if c == '\\' {
            push_char(out, '\\');
            push_char(out, '\\');
        } else if c == '\u{8}' {
            push_char(out, '\\');
            push_char(out, 'b');
        } else if c == '\t' {
            push_char(out, '\\');
            push_char(out, 't');
        } else if c == '\n' {
            push_char(out, '\\');
            push_char(out, 'n');
        } else if c == '\u{c}' {
            push_char(out, '\\');
            push_char(out, 'f');
        } else if c == '\r' {
            push_char(out, '\\');
            push_char(out, 'r');
        } else if u < 0x20 {
            push_char(out, '\\');
            push_char(out, 'u');
            push_char(out, '0');
            push_char(out, '0');
            let h = hexc_exec((u / 16) as u8);
            push_char(out, h);
            let l = hexc_exec((u % 16) as u8);
            push_char(out, l);
        } else {
            push_char(out, c);
        }
        proof {
            lemma_escape_str_push(s@.take(i as int), c);
            assert(s@.take(i as int).push(c) =~= s@.take(i as int + 1));
            assert(out@ =~= old(out)@ + escape_str(s@.take(i as int + 1)));
        }
        i += 1;
    }
    proof {
        assert(s@.take(n as int) =~= s@);
    }
}

/// Append the compact serialization of a value, in the order given.
#[verifier::loop_isolation(false)]
#[verifier::rlimit(100)]
pub fn write_value(out: &mut String, v: &Value)
    requires
        model(*v).wf(),
    ensures
        final(out)@ == old(out)@ + ser(model(*v)),
    decreases *v,
{
    let ghost base = out@;
    match v {
        Value::Null => {
            out.append("null");
        },
        Value::Bool(b) => {
            if *b {
                out.append("true");
            } else {
                out.append("false");
            }
        },
        Value::Num(n) => {
            push_number(out, *n);
        },
        Value::Text(s) => {
            push_char(out, '"');
            push_escaped(out, s.as_str());
            push_char(out, '"');
            proof {
                assert(out@ =~= base + quoted(s@));
            }
        },
        Value::Arr(a) => {
            let ghost g = model_seq(a@);
            proof {
                lemma_model_seq(a@);
                assert(model(*v) == GValue::Arr(g));
                assert(model(*v).wf());
                crate::value::lemma_wf_seq(g);
            }
            push_char(out, '[');
            let mut i: usize = 0;
            while i < a.len()
                invariant
                    i <= a.len(),
                    i == 0 ==> out@ == base + seq!['['],
                    i > 0 ==> out@ == base + seq!['['] + ser_vals(g.take(i as int)),
                decreases a.len() - i,
            {
                if i > 0 {
                    push_char(out, ',');
                }
                proof {
                    assert(model(*v) == GValue::Arr(g));
                    assert(g[i as int] == model(a@[i as int]));
                    assert(g[i as int].wf());
                }
                write_value(out, &a[i]);
                proof {
                    lemma_ser_vals_push(g.take(i as int), g[i as int]);
                    assert(g.take(i as int).push(g[i as int]) =~= g.take(i as int + 1));
                    assert(out@ =~= base + seq!['['] + ser_vals(g.take(i as int + 1)));
                }
                i += 1;
            }
            push_char(out, ']');
            proof {
                if a.len() == 0 {
                    assert(g.len() == 0);
                    assert(ser_vals(g) =~= Seq::<char>::empty());
                } else {
                    assert(g.take(g.len() as int) =~= g);
                }
                assert(out@ =~= base + ser(model(*v)));
            }
        },
        Value::Obj(es) => {
            let ghost ge = model_entries(es@);
            proof {
                lemma_model_entries(es@);
                assert(model(*v) == GValue::Obj(ge));
                assert(model(*v).wf());
                crate::value::lemma_wf_entries(ge);
            }
            push_char(out, '{');
            let mut i: usize = 0;
            while i < es.len()
                invariant
                    i <= es.len(),
                    i == 0 ==> out@ == base + seq!['{'],
                    i > 0 ==> out@ == base + seq!['{'] + ser_entries(ge.take(i as int)),
                decreases es.len() - i,
            {
                if i > 0 {
                    push_char(out, ',');
                }
                let ghost mid = out@;
                push_char(out, '"');
                push_escaped(out, es[i].0.as_str());
                push_char(out, '"');
                push_char(out, ':');
                proof {
                    assert(model(*v) == GValue::Obj(ge));
                    assert(ge[i as int] == (es@[i as int].0@, model(es@[i as int].1)));
                    assert(ge[i as int].1.wf());
                    assert(out@ =~= mid + quoted(ge[i as int].0) + seq![':']);
                }
                write_value(out, &es[i].1);
                proof {
                    assert(out@ =~= mid + entry_chars(ge[i as int]));
                    lemma_ser_entries_push(ge.take(i as int), ge[i as int]);
                    assert(ge.take(i as int).push(ge[i as int]) =~= ge.take(i as int + 1));
                    assert(out@ =~= base + seq!['{'] + ser_entries(ge.take(i as int + 1)));
                }
                i += 1;
            }
            push_char(out, '}');
            proof {
                if es.len() == 0 {
                    assert(ge.len() == 0);
                    assert(ser_entries(ge) =~= Seq::<char>::empty());
                } else {
                    assert(ge.take(ge.len() as int) =~= ge);
                }
                assert(out@ =~= base + ser(model(*v)));
            }
        },
    }
}

} // verus!

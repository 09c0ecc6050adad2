//! The digest stage: SHA-256 over the canonical form's UTF-8 bytes, and
//! the lowercase hexadecimal rendering of the digest.

use vstd::prelude::*;
use sha2::Digest;
use crate::ser::hexc;
use crate::ser::hexc_exec;
use crate::ser::push_char;

verus! {

/// What SHA-256 returns for the given input bytes.
pub uninterp spec fn sha256_of(bytes: Seq<u8>) -> Seq<u8>;

/// Relies on `sha2::Sha256` through the `Digest` trait: a 32-byte digest
/// that depends on the input bytes alone.
#[verifier::external_body]
pub(crate) fn sha256_bytes(input: &[u8]) -> (r: Vec<u8>)
    ensures
        r@ == sha256_of(input@),
        r@.len() == 32,
{
    let mut h = sha2::Sha256::new();
    h.update(input);
    h.finalize().to_vec()
}

/// The lowercase hexadecimal rendering of bytes, two digits per byte.
pub open spec fn hex_of(bytes: Seq<u8>) -> Seq<char>
    decreases bytes.len(),
{
    if bytes.len() == 0 {
        Seq::empty()
    } else {
        seq![hexc((bytes[0] / 16) as nat), hexc((bytes[0] % 16) as nat)] + hex_of(
            bytes.drop_first(),
        )
    }
}

/// A lowercase hexadecimal digit.
pub open spec fn is_hex_lower(c: char) -> bool {
    (48 <= (c as u32) <= 57) || (97 <= (c as u32) <= 102)
}

pub proof fn lemma_hex_of_push(t: Seq<u8>, b: u8)
    ensures
        hex_of(t.push(b)) == hex_of(t) + seq![hexc((b / 16) as nat), hexc((b % 16) as nat)],
    decreases t.len(),
{
    if t.len() == 0 {
        reveal_with_fuel(hex_of, 2);
        assert(t.push(b)[0] == b);
        assert(t.push(b).drop_first() =~= Seq::<u8>::empty());
        assert(hex_of(t.push(b)) =~= hex_of(t) + seq![
            hexc((b / 16) as nat),
            hexc((b % 16) as nat),
        ]);
    } else {
        assert(t.push(b)[0] == t[0]);
        assert(t.push(b).drop_first() =~= t.drop_first().push(b));
        lemma_hex_of_push(t.drop_first(), b);
        assert(hex_of(t.push(b)) =~= hex_of(t) + seq![
            hexc((b / 16) as nat),
            hexc((b % 16) as nat),
        ]);
    }
}

/// The hex rendering is twice as long as the input and consists of
/// lowercase hexadecimal digits only.
pub proof fn lemma_hex_of_props(bytes: Seq<u8>)
    ensures
        hex_of(bytes).len() == 2 * bytes.len(),
        forall|i: int| 0 <= i < hex_of(bytes).len() ==> is_hex_lower(#[trigger] hex_of(bytes)[i]),
    decreases bytes.len(),
{
    if bytes.len() > 0 {
        lemma_hex_of_props(bytes.drop_first());
        assert forall|i: int| 0 <= i < hex_of(bytes).len()
            implies is_hex_lower(#[trigger] hex_of(bytes)[i]) by {
            if i >= 2 {
                assert(hex_of(bytes)[i] == hex_of(bytes.drop_first())[i - 2]);
            }
        }
    }
}

/// Render bytes as lowercase hexadecimal.
#[verifier::loop_isolation(false)]
pub(crate) fn hex_lower(bytes: &Vec<u8>) -> (r: String)
    ensures
        r@ == hex_of(bytes@),
{
    let mut out = String::new();
    let mut i: usize = 0;
    while i < bytes.len()
        invariant
            i <= bytes.len(),
            out@ == hex_of(bytes@.take(i as int)),
        decreases bytes.len() - i,
    {
        let b = bytes[i];
        let h = hexc_exec(b / 16);
        push_char(&mut out, h);
        let l = hexc_exec(b % 16);
        push_char(&mut out, l);
        proof {
            lemma_hex_of_push(bytes@.take(i as int), b);
            assert(bytes@.take(i as int).push(b) =~= bytes@.take(i as int + 1));
            assert(out@ =~= hex_of(bytes@.take(i as int + 1)));
        }
        i += 1;
    }
    proof {
        assert(bytes@.take(bytes@.len() as int) =~= bytes@);
    }
    out
}

} // verus!

//! SHA-256 digests (through the sha2 crate) and their lower-case hex text.

use sha2::{Digest, Sha256};
use vstd::prelude::*;

use crate::strings::{char_from_ascii_range, string_of};

verus! {

/// The SHA-256 digest of `data`.
pub uninterp spec fn sha256_digest(data: Seq<u8>) -> Seq<u8>;

/// `Sha256::digest` (sha2): the SHA-256 digest of `data`, which is 32 bytes
/// long.
#[verifier::external_body]
pub(crate) fn sha256(data: &[u8]) -> (r: Vec<u8>)
    ensures
        r@ == sha256_digest(data@),
        r@.len() == 32,
{
    Sha256::digest(data).to_vec()
}

/// Lower-case hexadecimal digit of `n` (`0 <= n < 16`).
pub open spec fn hex_digit(n: int) -> char {
    if n < 10 {
        (48 + n) as char
    } else {
        (87 + n) as char
    }
}

/// The two lower-case hex digits of `b`.
pub open spec fn hex_byte(b: u8) -> Seq<char> {
    seq![hex_digit(b as int / 16), hex_digit(b as int % 16)]
}

/// The hex digit of `n < 16`.
pub fn hex_digit_exec(n: u8) -> (r: char)
    requires
        n < 16,
    ensures
        r == hex_digit(n as int),
{
    if n < 10 {
        char_from_ascii_range(48 + n as u32)
    } else {
        char_from_ascii_range(87 + n as u32)
    }
}

/// Appends the two hex digits of `b`.
pub fn push_hex(v: &mut Vec<char>, b: u8)
    ensures
        final(v)@ == old(v)@ + hex_byte(b),
{
    v.push(hex_digit_exec(b / 16));
    v.push(hex_digit_exec(b % 16));
    assert(v@ =~= old(v)@ + hex_byte(b));
}

/// The lower-case hex text of `bytes`.
pub open spec fn hex_text(bytes: Seq<u8>) -> Seq<char>
    decreases bytes.len(),
{
    if bytes.len() == 0 {
        seq![]
    } else {
        hex_text(bytes.drop_last()) + hex_byte(bytes.last())
    }
}

/// Lower-case hexadecimal digit.
pub open spec fn is_hex_char(c: char) -> bool {
    ('0' <= c <= '9') || ('a' <= c <= 'f')
}

/// The hex text of `bytes` has two lower-case hex digits per byte.
pub proof fn lemma_hex_text_shape(bytes: Seq<u8>)
    ensures
        hex_text(bytes).len() == 2 * bytes.len(),
        forall|i: int| 0 <= i < hex_text(bytes).len() ==> is_hex_char(#[trigger] hex_text(bytes)[i]),
    decreases bytes.len(),
{
    if bytes.len() > 0 {
        let r = hex_text(bytes.drop_last());
        lemma_hex_text_shape(bytes.drop_last());
        let b = bytes.last();
        let t = r + hex_byte(b);
        assert forall|i: int| 0 <= i < t.len() implies is_hex_char(#[trigger] t[i]) by {
            if i >= r.len() {
                assert(t[i] == hex_byte(b)[i - r.len()]);
            } else {
                assert(t[i] == r[i]);
            }
        }
    }
}

/// The 64 lower-case hex digits of `SHA256(data)`.
pub fn sha256_hex(data: &[u8]) -> (r: String)
    ensures
        r@ == hex_text(sha256_digest(data@)),
        r@.len() == 64,
        forall|i: int| 0 <= i < 64 ==> is_hex_char(#[trigger] r@[i]),
{
    let d = sha256(data);
    let mut out: Vec<char> = Vec::new();
    let mut k: usize = 0;
    while k < d.len()
        invariant
            k <= d.len(),
            out@ == hex_text(d@.take(k as int)),
        decreases d.len() - k,
    {
        let ghost before = out@;
        push_hex(&mut out, d[k]);
        assert(d@.take(k + 1).drop_last() =~= d@.take(k as int));
        assert(d@.take(k + 1).last() == d@[k as int]);
        k = k + 1;
    }
    assert(d@.take(d.len() as int) =~= d@);
    proof {
        lemma_hex_text_shape(d@);
    }
    string_of(&out)
}

} // verus!

//! SHA-256 and its lowercase hexadecimal rendering.

use sha2::{Digest, Sha256};
use vstd::prelude::*;
use vstd::utf8::encode_utf8;

use crate::reading::hex_value;
use crate::text::push_char;

verus! {

/// The SHA-256 digest of `data`, as the `sha2` crate computes it.
pub uninterp spec fn sha256(data: Seq<u8>) -> Seq<u8>;

/// SHA-256 of `data`.
///
/// Trusted: `Sha256::new`, `Digest::update` and `Digest::finalize` from the
/// `sha2` crate. The contract claims that the result is the digest of exactly
/// the bytes given (named `sha256`) and that it is 32 bytes long, the output
/// size that `sha2` declares for `Sha256`.
#[verifier::external_body]
fn sha256_digest(data: &[u8]) -> (d: Vec<u8>)
    ensures
        d@ == sha256(data@),
        d@.len() == 32,
{
    let mut h = Sha256::new();
    h.update(data);
    h.finalize().to_vec()
}

/// The lowercase hexadecimal digit for a value below 16.
pub open spec fn hex_digit(n: int) -> char {
    if n < 10 {
        (48 + n) as char  // '0'..'9'
    } else {
        (87 + n) as char  // 'a'..'f'
    }
}

/// Two lowercase hexadecimal digits per byte, high nibble first.
pub open spec fn hex_of(bytes: Seq<u8>) -> Seq<char>
    decreases bytes.len(),
{
    if bytes.len() == 0 {
        Seq::empty()
    } else {
        let b = bytes.last();
        hex_of(bytes.drop_last()) + seq![hex_digit(b as int / 16), hex_digit(b as int % 16)]
    }
}

/// The hexadecimal SHA-256 of the UTF-8 encoding of `s`.
pub open spec fn sha256_hex_of(s: Seq<char>) -> Seq<char> {
    hex_of(sha256(encode_utf8(s)))
}

fn hex_digit_char(n: u8) -> (c: char)
    requires
        n < 16,
    ensures
        c == hex_digit(n as int),
{
    if n < 10 {
        (48 + n) as char
    } else {
        (87 + n) as char
    }
}

/// Renders bytes as lowercase hexadecimal, two digits per byte.
pub fn hex(bytes: &[u8]) -> (r: String)
    ensures
        r@ == hex_of(bytes@),
        r@.len() == 2 * bytes@.len(),
{
    let mut r = String::new();
    let mut i: usize = 0;
    while i < bytes.len()
        invariant
            i <= bytes@.len(),
            r@ == hex_of(bytes@.take(i as int)),
            r@.len() == 2 * i,
        decreases bytes@.len() - i,
    {
        let b = bytes[i];
        push_char(&mut r, hex_digit_char(b / 16));
        push_char(&mut r, hex_digit_char(b % 16));
        assert(bytes@.take(i + 1).drop_last() =~= bytes@.take(i as int));
        i = i + 1;
    }
    assert(bytes@.take(i as int) =~= bytes@);
    r
}

/// The SHA-256 of the UTF-8 bytes of `input`, as 64 lowercase hexadecimal digits.
pub fn sha256_hex(input: &str) -> (r: String)
    ensures
        r@ == sha256_hex_of(input@),
        r@ == hex_of(sha256(encode_utf8(input@))),
        r@.len() == 64,
{
    let d = sha256_digest(input.as_bytes());
    hex(d.as_slice())
}

/// The digest of text is taken over the text's UTF-8 bytes, so characters
/// outside ASCII count with every byte of their encoding.
pub proof fn lemma_digest_over_utf8(s: Seq<char>)
    ensures
        sha256_hex_of(s) == hex_of(sha256(encode_utf8(s))),
{
}

/// Hexadecimal rendering writes two lowercase digits per byte, the high
/// nibble first: digit `2i` is byte `i` divided by 16 and digit `2i + 1` the
/// remainder.
pub proof fn lemma_hex_digits(bytes: Seq<u8>)
    ensures
        hex_of(bytes).len() == 2 * bytes.len(),
        forall|k: int|
            0 <= k < hex_of(bytes).len() ==> ('0' <= #[trigger] hex_of(bytes)[k] && hex_of(bytes)[k] <= '9') || (
            'a' <= hex_of(bytes)[k] && hex_of(bytes)[k] <= 'f'),
        forall|i: int|
            0 <= i < bytes.len() ==> hex_value(hex_of(bytes)[2 * i]) == Some(#[trigger] bytes[i] as int / 16)
                && hex_value(hex_of(bytes)[2 * i + 1]) == Some(bytes[i] as int % 16),
    decreases bytes.len(),
{
    if bytes.len() > 0 {
        let init = bytes.drop_last();
        let b = bytes.last();
        lemma_hex_digits(init);
        let h = hex_of(bytes);
        let hi = hex_of(init);
        assert(h == hi + seq![hex_digit(b as int / 16), hex_digit(b as int % 16)]);
        assert forall|k: int| 0 <= k < h.len() implies ('0' <= #[trigger] h[k] && h[k] <= '9') || ('a' <= h[k] && h[k] <= 'f') by {
            if k < hi.len() {
                assert(h[k] == hi[k]);
            }
        }
        assert forall|i: int| 0 <= i < bytes.len() implies hex_value(h[2 * i]) == Some(#[trigger] bytes[i] as int / 16)
            && hex_value(h[2 * i + 1]) == Some(bytes[i] as int % 16) by {
            if i < init.len() {
                assert(init[i] == bytes[i]);
                assert(h[2 * i] == hi[2 * i]);
                assert(h[2 * i + 1] == hi[2 * i + 1]);
            } else {
                assert(h[2 * i] == hex_digit(b as int / 16));
                assert(h[2 * i + 1] == hex_digit(b as int % 16));
            }
        }
    }
}

} // verus!

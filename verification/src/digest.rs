//! Content digests: SHA-1 over bytes, rendered as 40 lowercase hex characters.

use sha1::{Digest, Sha1};
use vstd::prelude::*;

verus! {

/// The SHA-1 digest of a byte sequence, as computed by the `sha1` crate.
pub uninterp spec fn sha1_of(data: Seq<u8>) -> Seq<u8>;

/// The lowercase hexadecimal digit for a value below 16.
pub open spec fn hex_digit(n: u8) -> char {
    if n < 10 {
        (48u8 + n) as char
    } else {
        (87u8 + n) as char
    }
}

/// Two lowercase hex digits per byte, high nibble first.
pub open spec fn hex_of(bytes: Seq<u8>) -> Seq<char> {
    Seq::new(
        2 * bytes.len(),
        |i: int|
            if i % 2 == 0 {
                hex_digit(bytes[i / 2] / 16)
            } else {
                hex_digit(bytes[i / 2] % 16)
            },
    )
}

/// A lowercase hexadecimal character.
pub open spec fn is_hex_char(c: char) -> bool {
    ('0' <= c && c <= '9') || ('a' <= c && c <= 'f')
}

/// A well-formed digest: 40 lowercase hex characters.
pub open spec fn is_digest(s: Seq<char>) -> bool {
    s.len() == 40 && forall|i: int| 0 <= i < s.len() ==> is_hex_char(#[trigger] s[i])
}

/// The digest that identifies a piece of content.
pub open spec fn digest_of(content: Seq<u8>) -> Seq<char> {
    hex_of(sha1_of(content))
}

/// The decimal digits of a number, most significant first, as ASCII bytes.
pub open spec fn decimal_of(n: nat) -> Seq<u8>
    decreases n,
{
    if n < 10 {
        seq![(48 + n) as u8]
    } else {
        decimal_of(n / 10).push((48 + n % 10) as u8)
    }
}

/// Calls `Sha1::digest` of the `sha1` crate on the whole input. The result is
/// taken on trust to be the SHA-1 of the input, which is always 20 bytes long.
#[verifier::external_body]
fn sha1_bytes(data: &[u8]) -> (r: Vec<u8>)
    ensures
        r@ == sha1_of(data@),
        r@.len() == 20,
{
    Sha1::digest(data).to_vec()
}

/// Calls `hex::encode`. The result is taken on trust to hold two lowercase
/// hex digits for each input byte, in order, high nibble first.
#[verifier::external_body]
fn hex_encode(bytes: &[u8]) -> (r: String)
    ensures
        r@ == hex_of(bytes@),
{
    hex::encode(bytes)
}

/// Every value below 16 has a lowercase hex digit.
proof fn lemma_hex_digit_is_hex(n: u8)
    requires
        n < 16,
    ensures
        is_hex_char(hex_digit(n)),
{
}

/// Hex rendering doubles the length and yields only lowercase hex characters.
pub proof fn lemma_hex_of_shape(bytes: Seq<u8>)
    ensures
        hex_of(bytes).len() == 2 * bytes.len(),
        forall|i: int| 0 <= i < hex_of(bytes).len() ==> is_hex_char(#[trigger] hex_of(bytes)[i]),
{
    assert forall|i: int| 0 <= i < hex_of(bytes).len() implies is_hex_char(
        #[trigger] hex_of(bytes)[i],
    ) by {
        let b = bytes[i / 2];
        lemma_hex_digit_is_hex(b / 16);
        lemma_hex_digit_is_hex(b % 16);
    }
}

/// Computes the digest of `content`: SHA-1, hex-encoded.
pub fn content_digest(content: &[u8]) -> (r: String)
    ensures
        r@ == digest_of(content@),
        is_digest(r@),
{
    let raw = sha1_bytes(content);
    let r = hex_encode(raw.as_slice());
    proof {
        lemma_hex_of_shape(raw@);
    }
    r
}

/// Appends a copy of `src` to `out`.
pub fn append_bytes(out: &mut Vec<u8>, src: &[u8])
    ensures
        final(out)@ == old(out)@ + src@,
{
    let mut i: usize = 0;
    while i < src.len()
        invariant
            i <= src@.len(),
            out@ == old(out)@ + src@.subrange(0, i as int),
        decreases src@.len() - i,
    {
        out.push(src[i]);
        proof {
            assert(src@.subrange(0, i + 1) =~= src@.subrange(0, i as int).push(src@[i as int]));
            assert(out@ =~= old(out)@ + src@.subrange(0, i + 1));
        }
        i = i + 1;
    }
    proof {
        assert(src@.subrange(0, i as int) =~= src@);
    }
}

/// Renders `n` in decimal, as ASCII bytes.
pub fn decimal_bytes(n: u64) -> (r: Vec<u8>)
    ensures
        r@ == decimal_of(n as nat),
{
    let mut digits: Vec<u8> = Vec::new();
    let mut rest: u64 = n;
    // Least significant digit first.
    while rest >= 10
        invariant
            decimal_of(n as nat) == decimal_of(rest as nat) + digits@.reverse(),
        decreases rest,
    {
        let d: u8 = (48 + rest % 10) as u8;
        proof {
            let ghost_rest = rest as nat;
            assert(decimal_of(ghost_rest) == decimal_of(ghost_rest / 10).push(d));
            assert(digits@.push(d).reverse() =~= seq![d] + digits@.reverse());
            assert(decimal_of(ghost_rest / 10).push(d) + digits@.reverse() =~= decimal_of(
                ghost_rest / 10,
            ) + (seq![d] + digits@.reverse()));
        }
        digits.push(d);
        rest = rest / 10;
    }
    let last: u8 = (48 + rest) as u8;
    let mut out: Vec<u8> = Vec::new();
    out.push(last);
    let mut i: usize = digits.len();
    while i > 0
        invariant
            i <= digits.len(),
            out@ == seq![last] + digits@.reverse().subrange(0, digits.len() - i),
        decreases i,
    {
        i = i - 1;
        out.push(digits[i]);
        proof {
            let rev = digits@.reverse();
            let k = digits.len() - i;
            assert(rev[k - 1] == digits@[i as int]);
            assert(rev.subrange(0, k as int) =~= rev.subrange(0, k - 1).push(rev[k - 1]));
            assert((seq![last] + rev.subrange(0, k - 1)).push(rev[k - 1]) =~= seq![last]
                + rev.subrange(0, k as int));
        }
    }
    proof {
        assert(digits@.reverse().subrange(0, digits.len() as int) =~= digits@.reverse());
        assert(decimal_of(rest as nat) =~= seq![last]);
    }
    out
}

} // verus!

//! Content fingerprints: the SHA-1 digest of a file's bytes, written as
//! lowercase hexadecimal.

use vstd::prelude::*;

verus! {

/// The lowercase hexadecimal digits, by value.
pub open spec fn hex_digits() -> Seq<char> {
    seq!['0', '1', '2', '3', '4', '5', '6', '7', '8', '9', 'a', 'b', 'c', 'd', 'e', 'f']
}

/// Each byte written as two lowercase hexadecimal digits, the high nibble first.
pub open spec fn hex_of(bytes: Seq<u8>) -> Seq<char> {
    Seq::new(
        2 * bytes.len(),
        |i: int|
            if i % 2 == 0 {
                hex_digits()[bytes[i / 2] as int / 16]
            } else {
                hex_digits()[bytes[i / 2] as int % 16]
            },
    )
}

/// The SHA-1 digest of a byte sequence.
pub uninterp spec fn sha1_of(data: Seq<u8>) -> Seq<u8>;

/// The fingerprint of a content: its SHA-1 digest in lowercase hexadecimal.
pub open spec fn digest_of(data: Seq<u8>) -> Seq<char> {
    hex_of(sha1_of(data))
}

/// Relies on `hex::encode`: each byte becomes two lowercase hexadecimal
/// digits, the high nibble first.
#[verifier::external_body]
fn encode_hex(bytes: &[u8]) -> (r: String)
    ensures
        r@ == hex_of(bytes@),
{
    hex::encode(bytes)
}

/// Relies on `sha1::Sha1::digest` (through the `Digest` trait): the SHA-1
/// digest of the bytes, whose output size is twenty bytes.
#[verifier::external_body]
fn sha1_digest(data: &[u8]) -> (r: Vec<u8>)
    ensures
        r@ == sha1_of(data@),
        r@.len() == 20,
{
    <sha1::Sha1 as sha1::Digest>::digest(data).to_vec()
}

/// Writes a raw digest in lowercase hexadecimal.
pub fn digest_to_hex(raw: &[u8]) -> (r: String)
    ensures
        r@ == hex_of(raw@),
        r@.len() == 2 * raw@.len(),
{
    encode_hex(raw)
}

/// The fingerprint of a file's content: its SHA-1 digest in lowercase
/// hexadecimal, forty characters long.
pub fn fingerprint(data: &[u8]) -> (r: String)
    ensures
        r@ == digest_of(data@),
        r@.len() == 40,
{
    let raw = sha1_digest(data);
    digest_to_hex(raw.as_slice())
}

proof fn lemma_hex_digit_injective(a: int, b: int)
    requires
        0 <= a < 16,
        0 <= b < 16,
        hex_digits()[a] == hex_digits()[b],
    ensures
        a == b,
{
    assert(hex_digits() =~= seq!['0', '1', '2', '3', '4', '5', '6', '7', '8', '9', 'a', 'b', 'c', 'd', 'e', 'f']);
}

/// Hexadecimal writing loses nothing: two byte sequences with the same
/// hexadecimal text are equal.
pub proof fn lemma_hex_injective(a: Seq<u8>, b: Seq<u8>)
    requires
        hex_of(a) == hex_of(b),
    ensures
        a == b,
{
    assert(hex_of(a).len() == 2 * a.len());
    assert(a.len() == b.len());
    assert forall|k: int| 0 <= k < a.len() implies a[k] == b[k] by {
        let i = 2 * k;
        assert(i / 2 == k && i % 2 == 0);
        assert((i + 1) / 2 == k && (i + 1) % 2 == 1);
        assert(hex_of(a)[i] == hex_digits()[a[k] as int / 16]);
        assert(hex_of(b)[i] == hex_digits()[b[k] as int / 16]);
        assert(hex_of(a)[i + 1] == hex_digits()[a[k] as int % 16]);
        assert(hex_of(b)[i + 1] == hex_digits()[b[k] as int % 16]);
        lemma_hex_digit_injective(a[k] as int / 16, b[k] as int / 16);
        lemma_hex_digit_injective(a[k] as int % 16, b[k] as int % 16);
    }
    assert(a =~= b);
}

} // verus!

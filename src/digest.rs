//! SHA-1 fingerprints rendered as lower-case hexadecimal text.

use sha1::Digest;
use vstd::prelude::*;

verus! {

/// The twenty bytes of the SHA-1 digest of `data`.
pub uninterp spec fn sha1_of(data: Seq<u8>) -> Seq<u8>;

/// The sixteen lower-case hexadecimal digits, by value.
pub open spec fn hex_digits() -> Seq<char> {
    seq!['0', '1', '2', '3', '4', '5', '6', '7', '8', '9', 'a', 'b', 'c', 'd', 'e', 'f']
}

/// Two lower-case hex digits per byte, high nibble first.
pub open spec fn hex_lower(bytes: Seq<u8>) -> Seq<char> {
    Seq::new(
        (2 * bytes.len()) as nat,
        |i: int|
            if i % 2 == 0 {
                hex_digits()[bytes[i / 2] as int / 16]
            } else {
                hex_digits()[bytes[i / 2] as int % 16]
            },
    )
}

/// The textual digest of a byte string: the hex form of its SHA-1.
pub open spec fn digest_text(data: Seq<u8>) -> Seq<char> {
    hex_lower(sha1_of(data))
}

/// Relies on `sha1::Sha1::digest` (through the `Digest` trait): the SHA-1 of
/// the input, which is always twenty bytes long.
#[verifier::external_body]
fn sha1_bytes(data: &[u8]) -> (r: Vec<u8>)
    ensures
        r@ == sha1_of(data@),
        r@.len() == 20,
{
    sha1::Sha1::digest(data).to_vec()
}

/// Relies on `base16ct::lower::encode_string`: each byte becomes two
/// lower-case hex digits, high nibble first.
#[verifier::external_body]
fn encode_hex(bytes: &[u8]) -> (r: String)
    requires
        bytes@.len() <= usize::MAX / 2,
    ensures
        r@ == hex_lower(bytes@),
{
    base16ct::lower::encode_string(bytes)
}

/// The forty-character digest of `data`.
pub fn digest_hex(data: &[u8]) -> (r: String)
    ensures
        r@ == digest_text(data@),
        r@.len() == 40,
{
    let raw = sha1_bytes(data);
    encode_hex(raw.as_slice())
}

/// Appends every byte of `tail` to `acc`.
pub fn append_bytes(acc: &mut Vec<u8>, tail: &[u8])
    ensures
        final(acc)@ == old(acc)@ + tail@,
{
    let mut i: usize = 0;
    while i < tail.len()
        invariant
            i <= tail@.len(),
            acc@ == old(acc)@ + tail@.subrange(0, i as int),
        decreases tail@.len() - i,
    {
        acc.push(tail[i]);
        i += 1;
        assert(tail@.subrange(0, i as int) =~= tail@.subrange(0, i - 1) + seq![tail@[i - 1]]);
    }
    assert(tail@.subrange(0, tail@.len() as int) =~= tail@);
}

} // verus!

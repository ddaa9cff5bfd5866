//! Fingerprint service: a cryptographic digest over byte streams.
//!
//! The digest itself is computed by the BLAKE3 hash; its value on given bytes
//! is known here only under the name `digest_of`.  Everything the rest of the
//! library proves about fingerprints rests on `digest_of` being a function of
//! the hashed bytes alone.

use vstd::prelude::*;
use vstd::utf8::{encode_utf8, encode_utf8_decode_utf8};

verus! {

/// The hex-encoded digest of a byte sequence, as the fingerprint service
/// computes it, as the bytes of its textual form.  Deterministic: the same
/// bytes always yield the same digest.
pub uninterp spec fn digest_of(bytes: Seq<u8>) -> Seq<u8>;

/// A lowercase hexadecimal digit, as a byte.
pub open spec fn is_hex_byte(b: u8) -> bool {
    (48 <= b && b <= 57) || (97 <= b && b <= 102)
}

/// A byte string made of lowercase hexadecimal digits only.
pub open spec fn is_hex_bytes(s: Seq<u8>) -> bool {
    forall|i: int| 0 <= i < s.len() ==> is_hex_byte(#[trigger] s[i])
}

/// Relies on `blake3::hash` and `blake3::Hash::to_hex`: a deterministic
/// digest of the input bytes alone, rendered as 64 lowercase hexadecimal
/// characters.
#[verifier::external_body]
pub(crate) fn digest_hex(bytes: &Vec<u8>) -> (r: String)
    ensures
        encode_utf8(r@) == digest_of(bytes@),
        encode_utf8(r@).len() == 64,
        is_hex_bytes(encode_utf8(r@)),
{
    blake3::hash(bytes.as_slice()).to_hex().as_str().to_string()
}

/// Whether two strings hold the same bytes.
pub(crate) fn text_eq(a: &String, b: &String) -> (r: bool)
    ensures
        r == (encode_utf8(a@) == encode_utf8(b@)),
{
    let r = *a == *b;
    proof {
        if encode_utf8(a@) == encode_utf8(b@) {
            encode_utf8_decode_utf8(a@);
            encode_utf8_decode_utf8(b@);
        }
    }
    r
}

} // verus!

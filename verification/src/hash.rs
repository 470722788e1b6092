//! Content digests and their hex encoding.
//!
//! A hash is 20 bytes, computed by the outside SHA-1 implementation and
//! carried around either raw or as 40 lowercase hex characters.

use vstd::prelude::*;
use sha1::Digest;
use crate::GyatError;

verus! {

/// The digest that the sha1 crate computes for a byte string.  The result
/// depends on the content alone.
pub uninterp spec fn sha1_of(content: Seq<u8>) -> Seq<u8>;

/// A raw hash: 20 digest bytes.
pub open spec fn is_hash(h: Seq<u8>) -> bool {
    h.len() == 20
}

/// The lowercase hex character (as a byte) for a value below 16.
pub open spec fn hex_digit(v: u8) -> u8
    recommends
        v < 16,
{
    if v < 10 {
        (48 + v) as u8
    } else {
        (87 + v) as u8
    }
}

/// Two lowercase hex characters for each byte, in order.
pub open spec fn hex_encode(s: Seq<u8>) -> Seq<u8> {
    Seq::new(
        2 * s.len(),
        |i: int|
            if i % 2 == 0 {
                hex_digit(s[i / 2] / 16)
            } else {
                hex_digit(s[i / 2] % 16)
            },
    )
}

/// Whether `b` is an ASCII hex digit, upper or lower case.
pub open spec fn is_hex_char(b: u8) -> bool {
    (48 <= b && b <= 57) || (97 <= b && b <= 102) || (65 <= b && b <= 70)
}

/// The value of a hex digit.
pub open spec fn hex_val(b: u8) -> u8
    recommends
        is_hex_char(b),
{
    if 48 <= b && b <= 57 {
        (b - 48) as u8
    } else if 97 <= b && b <= 102 {
        (b - 87) as u8
    } else {
        (b - 55) as u8
    }
}

/// What the hex crate accepts: even length, hex digits throughout.
pub open spec fn is_valid_hex(s: Seq<u8>) -> bool {
    s.len() % 2 == 0 && forall|i: int| 0 <= i < s.len() ==> is_hex_char(#[trigger] s[i])
}

/// The bytes a valid hex string denotes.
pub open spec fn hex_decode(s: Seq<u8>) -> Seq<u8> {
    Seq::new(s.len() / 2, |i: int| (hex_val(s[2 * i]) * 16 + hex_val(s[2 * i + 1])) as u8)
}

/// Relies on the sha1 crate: the SHA-1 digest of the content, 20 bytes.
#[verifier::external_body]
pub fn get_sha1_bytes(contents: &Vec<u8>) -> (r: Vec<u8>)
    ensures
        r@ == sha1_of(contents@),
        r@.len() == 20,
{
    let mut hasher = sha1::Sha1::new();
    hasher.update(contents.as_slice());
    hasher.finalize().to_vec()
}

/// Relies on hex::encode: two lowercase hex digits for each byte, in order.
#[verifier::external_body]
pub fn to_string(hash: &Vec<u8>) -> (r: Vec<u8>)
    ensures
        r@ == hex_encode(hash@),
{
    hex::encode(hash.as_slice()).into_bytes()
}

/// Relies on hex::decode: succeeds exactly on even-length strings of hex
/// digits (either case) and pairs them into bytes, high digit first.
#[verifier::external_body]
fn hex_decode_bytes(s: &Vec<u8>) -> (r: Option<Vec<u8>>)
    ensures
        r is Some <==> is_valid_hex(s@),
        r matches Some(d) ==> d@ == hex_decode(s@),
{
    hex::decode(s.as_slice()).ok()
}

/// The SHA-1 digest of the content as 40 lowercase hex characters.
pub fn get_sha1_string(contents: &Vec<u8>) -> (r: Vec<u8>)
    ensures
        r@ == hex_encode(sha1_of(contents@)),
{
    let h = get_sha1_bytes(contents);
    to_string(&h)
}

/// Read a raw hash back from its hex encoding: the first 20 decoded bytes.
/// Fails exactly when the string is not valid hex or decodes to fewer than
/// 20 bytes.
pub fn from_string(s: &Vec<u8>) -> (r: Result<Vec<u8>, GyatError>)
    ensures
        r matches Ok(h) ==> h@ == hex_decode(s@).take(20) && is_hash(h@),
        r is Ok <==> is_valid_hex(s@) && hex_decode(s@).len() >= 20,
        r is Err ==> r == Err::<Vec<u8>, GyatError>(GyatError::HashDecodeError),
{
    match hex_decode_bytes(s) {
        None => Err(GyatError::HashDecodeError),
        Some(mut d) => {
            if d.len() < 20 {
                return Err(GyatError::HashDecodeError);
            }
            d.truncate(20);
            proof {
                assert(d@ =~= hex_decode(s@).take(20));
            }
            Ok(d)
        },
    }
}

/// Hex encoding of equal contents is equal and always 40 characters for a
/// hash; hex decoding undoes it.
pub proof fn lemma_hex_round_trip(h: Seq<u8>)
    ensures
        hex_encode(h).len() == 2 * h.len(),
        is_valid_hex(hex_encode(h)),
        hex_decode(hex_encode(h)) == h,
{
    let e = hex_encode(h);
    assert forall|i: int| 0 <= i < e.len() implies is_hex_char(#[trigger] e[i]) by {
        let b = h[i / 2];
        assert(b / 16 < 16 && b % 16 < 16);
    }
    assert forall|i: int| 0 <= i < h.len() implies hex_decode(e)[i] == h[i] by {
        let b = h[i];
        assert(e[2 * i] == hex_digit(b / 16));
        assert(e[2 * i + 1] == hex_digit(b % 16));
        assert(hex_val(hex_digit(b / 16)) == b / 16);
        assert(hex_val(hex_digit(b % 16)) == b % 16);
    }
    assert(hex_decode(e) =~= h);
}

} // verus!

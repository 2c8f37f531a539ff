//! Content addressing: the SHA-1 digest of a byte string, and identifiers as
//! 40 lowercase hexadecimal digits.

use vstd::prelude::*;
use sha1::{Digest, Sha1};
use crate::object::{decode_spec, encode_spec, lemma_encode_decode, GitObject, ObjectView};
use crate::tree::DIGEST_LEN;

verus! {

/// Length of an identifier in hexadecimal digits.
pub const ID_LEN: usize = 40;

/// The SHA-1 digest of `data`, as raw bytes.
pub uninterp spec fn sha1(data: Seq<u8>) -> Seq<u8>;

/// `Sha1::digest` of the `sha1` crate, copied out of its fixed-size array.
/// Trusted: the result is the SHA-1 digest of `data`, a function of the bytes
/// alone, and it is 20 bytes long.
#[verifier::external_body]
fn sha1_digest(data: &[u8]) -> (out: Vec<u8>)
    ensures
        out@ == sha1(data@),
        out@.len() == DIGEST_LEN,
{
    Sha1::digest(data).to_vec()
}

/// The lowercase hexadecimal digit for a value below 16.
pub open spec fn hex_digit(v: u8) -> u8 {
    if v < 10 {
        (48 + v) as u8
    } else {
        (87 + v) as u8
    }
}

/// The digit at position `i` of the hexadecimal form of `raw`: the high half
/// of each byte first.
pub open spec fn hex_at(raw: Seq<u8>, i: int) -> u8 {
    if i % 2 == 0 {
        hex_digit(raw[i / 2] / 16)
    } else {
        hex_digit(raw[i / 2] % 16)
    }
}

/// `raw` in lowercase hexadecimal, two digits for each byte.
pub open spec fn hex_of(raw: Seq<u8>) -> Seq<u8> {
    Seq::new(2 * raw.len(), |i: int| hex_at(raw, i))
}

pub open spec fn is_hex_digit(b: u8) -> bool {
    (48 <= b <= 57) || (97 <= b <= 102)
}

pub open spec fn all_hex(s: Seq<u8>) -> bool {
    forall|i: int| 0 <= i < s.len() ==> is_hex_digit(#[trigger] s[i])
}

/// A full identifier: 40 lowercase hexadecimal digits.
pub open spec fn is_object_id(s: Seq<u8>) -> bool {
    s.len() == ID_LEN && all_hex(s)
}

/// The identifier of an object: the digest of its encoding, in hexadecimal.
pub open spec fn object_id_spec(o: ObjectView) -> Seq<u8> {
    hex_of(sha1(encode_spec(o)))
}

/// The hexadecimal form holds hexadecimal digits only.
pub proof fn lemma_hex_of_is_hex(raw: Seq<u8>)
    ensures
        all_hex(hex_of(raw)),
        hex_of(raw).len() == 2 * raw.len(),
{
    assert forall|i: int| 0 <= i < hex_of(raw).len() implies is_hex_digit(
        #[trigger] hex_of(raw)[i],
    ) by {
        let b = raw[i / 2];
        assert(b / 16 < 16 && b % 16 < 16);
    }
}

/// Objects with the same content have the same identifier: the identifier
/// depends on nothing but the encoded bytes.
pub proof fn lemma_same_content_same_id(a: ObjectView, b: ObjectView)
    requires
        encode_spec(a) == encode_spec(b),
    ensures
        object_id_spec(a) == object_id_spec(b),
{
}

/// An object decoded from bytes has the digest of those very bytes as its
/// identifier: writing it again hashes and stores what was read.
pub proof fn lemma_decoded_keeps_id(b: Seq<u8>)
    requires
        decode_spec(b) is Some,
    ensures
        object_id_spec(decode_spec(b).unwrap()) == hex_of(sha1(b)),
{
    lemma_encode_decode(b);
}

fn hex_char(v: u8) -> (c: u8)
    requires
        v < 16,
    ensures
        c == hex_digit(v),
{
    if v < 10 {
        48 + v
    } else {
        87 + v
    }
}

/// Writes `raw` in lowercase hexadecimal.
pub fn to_hex(raw: &[u8]) -> (out: Vec<u8>)
    ensures
        out@ == hex_of(raw@),
        all_hex(out@),
{
    let mut out: Vec<u8> = Vec::new();
    let mut i: usize = 0;
    while i < raw.len()
        invariant
            0 <= i <= raw@.len(),
            out@.len() == 2 * i,
            forall|j: int| 0 <= j < 2 * i ==> out@[j] == hex_at(raw@, j),
        decreases raw@.len() - i,
    {
        let b: u8 = raw[i];
        out.push(hex_char(b / 16));
        out.push(hex_char(b % 16));
        proof {
            assert forall|j: int| 0 <= j < 2 * i + 2 implies out@[j] == hex_at(raw@, j) by {
                if j == 2 * i {
                    assert(j / 2 == i && j % 2 == 0);
                } else if j == 2 * i + 1 {
                    assert(j / 2 == i && j % 2 == 1);
                }
            }
        }
        i = i + 1;
    }
    proof {
        assert(out@ =~= hex_of(raw@));
        lemma_hex_of_is_hex(raw@);
    }
    out
}

fn hex_value(c: u8) -> (r: Option<u8>)
    ensures
        match r {
            Some(v) => is_hex_digit(c) && v < 16 && hex_digit(v) == c,
            None => !is_hex_digit(c),
        },
{
    if 48 <= c && c <= 57 {
        Some(c - 48)
    } else if 97 <= c && c <= 102 {
        Some(c - 87)
    } else {
        None
    }
}

/// Reads lowercase hexadecimal back into raw bytes: the inverse of `to_hex`.
/// `None` unless `hex` is an even number of hexadecimal digits.
pub fn from_hex(hex: &[u8]) -> (r: Option<Vec<u8>>)
    ensures
        match r {
            Some(raw) => hex_of(raw@) == hex@,
            None => hex@.len() % 2 != 0 || !all_hex(hex@),
        },
{
    if hex.len() % 2 != 0 {
        return None;
    }
    let mut out: Vec<u8> = Vec::new();
    let mut i: usize = 0;
    while i < hex.len() / 2
        invariant
            0 <= i <= hex@.len() / 2,
            hex@.len() % 2 == 0,
            out@.len() == i,
            forall|j: int| 0 <= j < 2 * i ==> hex_at(out@, j) == hex@[j],
        decreases hex@.len() / 2 - i,
    {
        let hi = match hex_value(hex[2 * i]) {
            Some(v) => v,
            None => {
                return None;
            },
        };
        let lo = match hex_value(hex[2 * i + 1]) {
            Some(v) => v,
            None => {
                return None;
            },
        };
        let ghost before = out@;
        let b: u8 = hi * 16 + lo;
        out.push(b);
        proof {
            assert(b / 16 == hi && b % 16 == lo);
            assert forall|j: int| 0 <= j < 2 * i + 2 implies hex_at(out@, j) == hex@[j] by {
                if j < 2 * i {
                    assert(j / 2 < i);
                    assert(out@[j / 2] == before[j / 2]);
                    assert(hex_at(before, j) == hex@[j]);
                } else if j == 2 * i {
                    assert(j / 2 == i && j % 2 == 0);
                } else {
                    assert(j / 2 == i && j % 2 == 1);
                }
            }
        }
        i = i + 1;
    }
    assert(hex_of(out@) =~= hex@);
    Some(out)
}

/// Whether `s` holds hexadecimal digits only.
pub fn check_hex(s: &[u8]) -> (r: bool)
    ensures
        r == all_hex(s@),
{
    let mut i: usize = 0;
    while i < s.len()
        invariant
            0 <= i <= s@.len(),
            forall|j: int| 0 <= j < i ==> is_hex_digit(#[trigger] s@[j]),
        decreases s@.len() - i,
    {
        let b: u8 = s[i];
        if !((48 <= b && b <= 57) || (97 <= b && b <= 102)) {
            return false;
        }
        i = i + 1;
    }
    true
}

/// The identifier of the bytes of an encoded object.
pub fn digest_hex(encoded: &[u8]) -> (id: Vec<u8>)
    ensures
        id@ == hex_of(sha1(encoded@)),
        is_object_id(id@),
{
    let raw = sha1_digest(encoded);
    to_hex(raw.as_slice())
}

/// The identifier of an object, computed from its canonical encoding.
pub fn object_id(obj: &GitObject) -> (id: Vec<u8>)
    ensures
        id@ == object_id_spec(obj@),
        is_object_id(id@),
{
    let encoded = obj.encode();
    digest_hex(encoded.as_slice())
}

} // verus!

//! Content identifiers in their canonical binary form.
//!
//! A CID is kept as its raw bytes; equality is byte equality. This
//! module checks the binary shape (`version | codec | multihash`, or the
//! legacy 34-byte form), splits off the multihash digest, and reads the
//! DAG-CBOR form: a byte string under tag 42 whose first byte is the
//! multibase identity prefix.

use vstd::prelude::*;

use crate::cbor::{SpecValue, Value};
use crate::kv::copy_bytes;

verus! {

/// An unsigned LEB128 integer of at most `max` bytes at `pos`.
pub open spec fn spec_varint(s: Seq<u8>, pos: int, max: int) -> Option<(int, int)>
    decreases max,
{
    if max <= 0 || pos < 0 || pos >= s.len() {
        None
    } else {
        let b = s[pos];
        if b < 0x80 {
            Some((b as int, pos + 1))
        } else {
            match spec_varint(s, pos + 1, max - 1) {
                None => None,
                Some((v, p2)) => Some(((b - 0x80) + v * 128, p2)),
            }
        }
    }
}

/// Read an unsigned varint, rejecting values above nine bytes (they do
/// not arise in well-formed data).
pub fn read_varint(s: &[u8], pos: usize) -> (r: Option<(u64, usize)>)
    ensures
        match r {
            Some(p) => spec_varint(s@, pos as int, 9) == Some((p.0 as int, p.1 as int)) && pos
                < p.1 <= s@.len(),
            None => spec_varint(s@, pos as int, 9) is None,
        },
{
    read_varint_from(s, pos, 9)
}

fn read_varint_from(s: &[u8], pos: usize, max: u32) -> (r: Option<(u64, usize)>)
    requires
        max <= 9,
    ensures
        match r {
            Some(p) => spec_varint(s@, pos as int, max as int) == Some((p.0 as int, p.1 as int))
                && pos < p.1 <= s@.len(),
            None => spec_varint(s@, pos as int, max as int) is None,
        },
    decreases max,
{
    if max == 0 || pos >= s.len() {
        return None;
    }
    let b = s[pos];
    if b < 0x80 {
        return Some((b as u64, pos + 1));
    }
    match read_varint_from(s, pos + 1, max - 1) {
        None => None,
        Some((v, p2)) => {
            proof {
                lemma_varint_bound(s@, pos + 1, max - 1);
                reveal_with_fuel(pow128, 10);
                lemma_pow128_mono(max - 1, 8);
                assert(v * 128 <= (pow128(8) - 1) * 128) by {
                    assert(v <= pow128(8) - 1);
                }
            }
            Some(((b - 0x80) as u64 + v * 128, p2))
        },
    }
}

/// A varint of at most `max` bytes is below `128^max`.
pub proof fn lemma_varint_bound(s: Seq<u8>, pos: int, max: int)
    requires
        max <= 9,
    ensures
        match spec_varint(s, pos, max) {
            Some(p) => 0 <= p.0 < pow128(max),
            None => true,
        },
    decreases max,
{
    reveal_with_fuel(pow128, 10);
    if max > 0 && 0 <= pos < s.len() {
        let b = s[pos];
        if b >= 0x80 {
            lemma_varint_bound(s, pos + 1, max - 1);
            if spec_varint(s, pos + 1, max - 1) is Some {
                let v = spec_varint(s, pos + 1, max - 1)->Some_0.0;
                assert(v * 128 <= (pow128(max - 1) - 1) * 128) by {
                    assert(v <= pow128(max - 1) - 1);
                }
            }
        }
    }
}

pub open spec fn pow128(l: int) -> int
    decreases l,
{
    if l <= 0 {
        1
    } else {
        128 * pow128(l - 1)
    }
}

pub proof fn lemma_pow128_mono(a: int, b: int)
    requires
        0 <= a <= b,
    ensures
        pow128(a) <= pow128(b),
    decreases b - a,
{
    if a < b {
        lemma_pow128_mono(a, b - 1);
        assert(pow128(b) == 128 * pow128(b - 1));
        lemma_pow128_pos(b - 1);
    }
}

pub proof fn lemma_pow128_pos(l: int)
    ensures
        pow128(l) >= 1,
    decreases l,
{
    if l > 0 {
        lemma_pow128_pos(l - 1);
    }
}

/// The length of the binary CID starting at `pos`, if one is there.
///
/// Accepts the legacy 34-byte form (`0x12 0x20` and a 32-byte digest)
/// and the versioned form `1 | codec | code | size | digest`.
pub open spec fn spec_cid_len(s: Seq<u8>, pos: int) -> Option<int> {
    if pos < 0 || pos >= s.len() {
        None
    } else if s[pos] == 0x12 {
        if pos + 34 <= s.len() && s[pos + 1] == 0x20 {
            Some(34)
        } else {
            None
        }
    } else {
        match spec_varint(s, pos, 9) {
            None => None,
            Some((version, p2)) => if version != 1 {
                None
            } else {
                match spec_varint(s, p2, 9) {
                    None => None,
                    Some((_codec, p3)) => match spec_varint(s, p3, 9) {
                        None => None,
                        Some((_code, p4)) => match spec_varint(s, p4, 9) {
                            None => None,
                            Some((size, p5)) => if size <= 64 && p5 + size <= s.len() {
                                Some(p5 + size - pos)
                            } else {
                                None
                            },
                        },
                    },
                }
            },
        }
    }
}

/// The multihash code and digest of a whole binary CID.
pub open spec fn spec_cid_hash(c: Seq<u8>) -> Option<(int, Seq<u8>)> {
    if spec_cid_len(c, 0) != Some(c.len() as int) {
        None
    } else if c.len() > 0 && c[0] == 0x12 {
        Some((0x12, c.subrange(2, c.len() as int)))
    } else {
        match spec_varint(c, 0, 9) {
            None => None,
            Some((_version, p2)) => match spec_varint(c, p2, 9) {
                None => None,
                Some((_codec, p3)) => match spec_varint(c, p3, 9) {
                    None => None,
                    Some((code, p4)) => match spec_varint(c, p4, 9) {
                        None => None,
                        Some((_size, p5)) => Some((code, c.subrange(p5, c.len() as int))),
                    },
                },
            },
        }
    }
}

/// Measure the binary CID at `pos`.
pub fn cid_len_at(s: &[u8], pos: usize) -> (r: Option<usize>)
    ensures
        match r {
            Some(l) => spec_cid_len(s@, pos as int) == Some(l as int) && l >= 1 && pos + l
                <= s@.len(),
            None => spec_cid_len(s@, pos as int) is None,
        },
{
    if pos >= s.len() {
        return None;
    }
    if s[pos] == 0x12 {
        if s.len() - pos >= 34 && s[pos + 1] == 0x20 {
            return Some(34);
        }
        return None;
    }
    let (version, p2) = match read_varint(s, pos) {
        Some(x) => x,
        None => {
            return None;
        },
    };
    if version != 1 {
        return None;
    }
    let (_codec, p3) = match read_varint(s, p2) {
        Some(x) => x,
        None => {
            return None;
        },
    };
    let (_code, p4) = match read_varint(s, p3) {
        Some(x) => x,
        None => {
            return None;
        },
    };
    let (size, p5) = match read_varint(s, p4) {
        Some(x) => x,
        None => {
            return None;
        },
    };
    if size <= 64 && size <= (s.len() - p5) as u64 {
        Some(p5 + (size as usize) - pos)
    } else {
        None
    }
}

/// Split a whole binary CID into its multihash code and digest.
pub fn cid_hash(c: &[u8]) -> (r: Option<(u64, Vec<u8>)>)
    ensures
        match r {
            Some(p) => spec_cid_hash(c@) == Some((p.0 as int, p.1@)),
            None => spec_cid_hash(c@) is None,
        },
{
    let l = match cid_len_at(c, 0) {
        Some(l) => l,
        None => {
            return None;
        },
    };
    if l != c.len() {
        return None;
    }
    if c[0] == 0x12 {
        let digest = copy_bytes(vstd::slice::slice_subrange(c, 2, c.len()));
        return Some((0x12, digest));
    }
    let (_version, p2) = match read_varint(c, 0) {
        Some(x) => x,
        None => {
            return None;
        },
    };
    let (_codec, p3) = match read_varint(c, p2) {
        Some(x) => x,
        None => {
            return None;
        },
    };
    let (code, p4) = match read_varint(c, p3) {
        Some(x) => x,
        None => {
            return None;
        },
    };
    let (_size, p5) = match read_varint(c, p4) {
        Some(x) => x,
        None => {
            return None;
        },
    };
    if p5 > c.len() {
        return None;
    }
    let digest = copy_bytes(vstd::slice::slice_subrange(c, p5, c.len()));
    Some((code, digest))
}

#[derive(Debug)]
pub enum CidError {
    /// The value is not a byte string under tag 42.
    NotTagged42,
    /// The byte string does not start with the multibase identity byte.
    MissingIdentityPrefix,
    /// What follows the identity byte is not a binary CID.
    MalformedCid,
}

/// The decoded value is a byte string under tag 42.
pub open spec fn is_tag42_bytes(sv: SpecValue) -> bool {
    sv matches SpecValue::Tag(t, b) && t == 42 && *b matches SpecValue::Bytes(_)
}

pub open spec fn tag42_payload(sv: SpecValue) -> Seq<u8> {
    match sv {
        SpecValue::Tag(t, b) => match *b {
            SpecValue::Bytes(p) => p,
            _ => Seq::empty(),
        },
        _ => Seq::empty(),
    }
}

/// The CID carried by a DAG-CBOR value, after the identity prefix; any
/// bytes after the CID are dropped.
pub open spec fn spec_dag_cid(sv: SpecValue) -> Option<Seq<u8>> {
    if !is_tag42_bytes(sv) {
        None
    } else {
        let p = tag42_payload(sv);
        if p.len() == 0 || p[0] != 0 {
            None
        } else {
            match spec_cid_len(p, 1) {
                None => None,
                Some(l) => Some(p.subrange(1, 1 + l)),
            }
        }
    }
}

/// Read the DAG-CBOR form of a CID out of a decoded value.
pub fn extract_cid(v: &Value, Ghost(sv): Ghost<SpecValue>) -> (r: Result<Vec<u8>, CidError>)
    requires
        crate::cbor::rep(*v, sv),
    ensures
        match r {
            Ok(c) => spec_dag_cid(sv) == Some(c@),
            Err(CidError::NotTagged42) => !is_tag42_bytes(sv),
            Err(CidError::MissingIdentityPrefix) => is_tag42_bytes(sv) && (tag42_payload(sv).len()
                == 0 || tag42_payload(sv)[0] != 0),
            Err(CidError::MalformedCid) => is_tag42_bytes(sv) && tag42_payload(sv).len() > 0
                && tag42_payload(sv)[0] == 0 && spec_cid_len(tag42_payload(sv), 1) is None,
        },
        r is Ok <==> spec_dag_cid(sv) is Some,
{
    proof {
        crate::cbor::lemma_rep_inversion(*v, sv);
    }
    match v {
        Value::Tag(t, b) => {
            proof {
                crate::cbor::lemma_rep_inversion(**b, *sv->Tag_1);
            }
            if *t != 42 {
                return Err(CidError::NotTagged42);
            }
            match &**b {
                Value::Bytes(p) => {
                    if p.len() == 0 {
                        return Err(CidError::MissingIdentityPrefix);
                    }
                    if p[0] != 0 {
                        return Err(CidError::MissingIdentityPrefix);
                    }
                    match cid_len_at(p.as_slice(), 1) {
                        None => Err(CidError::MalformedCid),
                        Some(l) => {
                            let c = copy_bytes(vstd::slice::slice_subrange(
                                p.as_slice(),
                                1,
                                1 + l,
                            ));
                            Ok(c)
                        },
                    }
                },
                _ => Err(CidError::NotTagged42),
            }
        },
        _ => Err(CidError::NotTagged42),
    }
}

} // verus!

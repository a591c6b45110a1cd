//! Content-addressable archives (CAR v1).
//!
//! A CAR is a varint-prefixed DAG-CBOR header `{roots, version}`
//! followed by sections of `varint(length) | cid | data` until the end
//! of the input. With validation on, every block's multihash digest
//! must match its data; only the identity and sha2-256 codes occur in
//! this protocol, any other code is refused.

use sha2::Digest;

use vstd::prelude::*;
use vstd::utf8::encode_utf8;

use crate::bytes::bytes_eq;
use crate::cbor::{decode, dict_get, rep, spec_decode, SpecValue, Value};
use crate::cid::{cid_hash, cid_len_at, read_varint, spec_cid_hash, spec_cid_len, spec_dag_cid,
    spec_varint};
use crate::kv::copy_bytes;

verus! {

#[derive(Debug)]
pub enum Error {
    /// The input ends before a complete header or section.
    Truncated,
    /// The header is not the expected DAG-CBOR map.
    HeaderMalformed,
    /// A section is not a well-formed `length | cid | data` triple.
    BlockMalformed,
    /// A block's digest does not match its data.
    HashMismatch,
    /// A block's CID names a hash this protocol does not use.
    UnsupportedHash,
}

/// The sha2-256 digest of a byte string.
pub uninterp spec fn sha256_of(b: Seq<u8>) -> Seq<u8>;

/// Relies on `sha2::Sha256`: the digest is 32 bytes and depends on the
/// input bytes alone.
#[verifier::external_body]
fn sha256(b: &[u8]) -> (r: Vec<u8>)
    ensures
        r@ == sha256_of(b@),
        r@.len() == 32,
{
    sha2::Sha256::digest(b).to_vec()
}

/// The block's CID carries a digest of its data: the identity of the
/// data itself, or its sha2-256 digest.
pub open spec fn hash_ok(c: Seq<u8>, b: Seq<u8>) -> bool {
    match spec_cid_hash(c) {
        None => false,
        Some((code, dg)) => (code == 0x12 && dg == sha256_of(b)) || (code == 0 && dg == b),
    }
}

/// The root list of a decoded header value.
pub open spec fn spec_header_roots(hv: SpecValue) -> Option<Seq<Seq<u8>>> {
    match hv {
        SpecValue::Dict(ss) => {
            if dict_get(ss, encode_utf8("version"@)) != Some(SpecValue::UInt(1)) {
                None
            } else {
                match dict_get(ss, encode_utf8("roots"@)) {
                    Some(SpecValue::Array(rs)) => {
                        if forall|i: int| 0 <= i < rs.len() ==> spec_dag_cid(#[trigger] rs[i]) is Some {
                            Some(Seq::new(rs.len(), |i: int| spec_dag_cid(rs[i])->Some_0))
                        } else {
                            None
                        }
                    },
                    _ => None,
                }
            }
        },
        _ => None,
    }
}

/// The sections after `pos`: `acc` then `length | cid | data` repeated
/// until the end of the input.
pub open spec fn spec_blocks(s: Seq<u8>, pos: int, acc: Seq<(Seq<u8>, Seq<u8>)>) -> Option<
    Seq<(Seq<u8>, Seq<u8>)>,
>
    decreases s.len() - pos,
{
    if pos == s.len() {
        Some(acc)
    } else if pos < 0 || pos > s.len() {
        None
    } else {
        match spec_varint(s, pos, 9) {
            None => None,
            Some((len, p2)) => {
                if p2 <= pos || p2 > s.len() || len <= 0 || len > s.len() - p2 {
                    None
                } else {
                    match spec_cid_len(s, p2) {
                        None => None,
                        Some(cl) => {
                            if cl > len || cl < 0 {
                                None
                            } else {
                                let cid = s.subrange(p2, p2 + cl);
                                let data = s.subrange(p2 + cl, p2 + len);
                                spec_blocks(s, p2 + len, acc.push((cid, data)))
                            }
                        },
                    }
                }
            },
        }
    }
}

/// The whole archive: its roots and its blocks.
pub open spec fn spec_car(s: Seq<u8>) -> Option<(Seq<Seq<u8>>, Seq<(Seq<u8>, Seq<u8>)>)> {
    match spec_varint(s, 0, 9) {
        None => None,
        Some((hl, p1)) => {
            if hl <= 0 || hl > s.len() - p1 {
                None
            } else {
                match spec_decode(s.subrange(p1, p1 + hl)) {
                    None => None,
                    Some(hv) => match spec_header_roots(hv) {
                        None => None,
                        Some(roots) => match spec_blocks(s, p1 + hl, Seq::empty()) {
                            None => None,
                            Some(bs) => Some((roots, bs)),
                        },
                    },
                }
            }
        },
    }
}


/// What is already accumulated stays at the front of the parsed blocks.
proof fn lemma_spec_blocks_prefix(s: Seq<u8>, pos: int, acc: Seq<(Seq<u8>, Seq<u8>)>)
    ensures
        spec_blocks(s, pos, acc) matches Some(bs) ==> acc.len() <= bs.len() && forall|j: int|
            0 <= j < acc.len() ==> bs[j] == acc[j],
    decreases s.len() - pos,
{
    if pos == s.len() {
    } else if pos < 0 || pos > s.len() {
    } else {
        match spec_varint(s, pos, 9) {
            None => {},
            Some((len, p2)) => {
                if p2 <= pos || p2 > s.len() || len <= 0 || len > s.len() - p2 {
                } else {
                    match spec_cid_len(s, p2) {
                        None => {},
                        Some(cl) => {
                            if cl > len || cl < 0 {
                            } else {
                                let cid = s.subrange(p2, p2 + cl);
                                let data = s.subrange(p2 + cl, p2 + len);
                                lemma_spec_blocks_prefix(s, p2 + len, acc.push((cid, data)));
                            }
                        },
                    }
                }
            },
        }
    }
}

/// Parse an archive; with `validate`, check every block's digest.
///
/// Every block returned under validation satisfies `hash_ok`: its CID's
/// multihash digest is the digest of its bytes.
pub fn car_parse(s: &[u8], validate: bool) -> (r: Result<
    (Vec<Vec<u8>>, Vec<(Vec<u8>, Vec<u8>)>),
    Error,
>)
    ensures
        r matches Ok(p) ==> {
            &&& spec_car(s@) matches Some(q)
            &&& p.0@.map(|i: int, v: Vec<u8>| v@) == q.0
            &&& p.1@.map(|i: int, v: (Vec<u8>, Vec<u8>)| (v.0@, v.1@)) == q.1
            &&& validate ==> forall|i: int|
                0 <= i < q.1.len() ==> hash_ok(#[trigger] q.1[i].0, q.1[i].1)
        },
        r is Err ==> spec_car(s@) is None || (validate && (spec_car(s@) matches Some(q) && exists|
            i: int,
        | 0 <= i < q.1.len() && !hash_ok(#[trigger] q.1[i].0, q.1[i].1))),
{
    // Header: varint length, then a DAG-CBOR map.
    let (hl, p1) = match read_varint(s, 0) {
        Some(x) => x,
        None => {
            return Err(Error::Truncated);
        },
    };
    if hl == 0 || hl > (s.len() - p1) as u64 {
        return Err(Error::Truncated);
    }
    let hend = p1 + (hl as usize);
    let hdr = vstd::slice::slice_subrange(s, p1, hend);
    let hv = match decode(hdr) {
        Some(v) => v,
        None => {
            return Err(Error::HeaderMalformed);
        },
    };
    let ghost hsv = spec_decode(s@.subrange(p1 as int, hend as int))->Some_0;
    proof {
        crate::cbor::lemma_rep_inversion(hv, hsv);
    }
    let items = match &hv {
        Value::Dict(items) => items,
        _ => {
            return Err(Error::HeaderMalformed);
        },
    };
    let ghost hss = hsv->Dict_0;
    let version = crate::cbor::dict_get_exec(items, "version".as_bytes(), Ghost(hss));
    match version {
        Some(v) => {
            proof {
                crate::cbor::lemma_rep_inversion(
                    *v,
                    dict_get(hss, encode_utf8("version"@))->Some_0,
                );
            }
            match v {
                Value::UInt(n) => {
                    if *n != 1 {
                        return Err(Error::HeaderMalformed);
                    }
                },
                _ => {
                    return Err(Error::HeaderMalformed);
                },
            }
        },
        None => {
            return Err(Error::HeaderMalformed);
        },
    }
    let roots_v = match crate::cbor::dict_get_exec(items, "roots".as_bytes(), Ghost(hss)) {
        Some(v) => v,
        None => {
            return Err(Error::HeaderMalformed);
        },
    };
    let ghost roots_sv = dict_get(hss, encode_utf8("roots"@))->Some_0;
    proof {
        crate::cbor::lemma_rep_inversion(*roots_v, roots_sv);
    }
    let root_items = match roots_v {
        Value::Array(rs) => rs,
        _ => {
            return Err(Error::HeaderMalformed);
        },
    };
    let ghost rs = roots_sv->Array_0;
    let mut roots: Vec<Vec<u8>> = Vec::new();
    let nroots = root_items.len();
    let mut i: usize = 0;
    while i < nroots
        invariant
            spec_varint(s@, 0, 9) == Some((hl as int, p1 as int)),
            0 < hl as int <= s@.len() - p1,
            hend as int == p1 + hl as int,
            hend <= s@.len(),
            spec_decode(s@.subrange(p1 as int, hend as int)) == Some(hsv),
            hsv == SpecValue::Dict(hss),
            dict_get(hss, encode_utf8("version"@)) == Some(SpecValue::UInt(1)),
            dict_get(hss, encode_utf8("roots"@)) == Some(SpecValue::Array(rs)),
            nroots == root_items@.len(),
            rs.len() == nroots,
            i <= nroots,
            forall|j: int| 0 <= j < rs.len() ==> rep(root_items@[j], #[trigger] rs[j]),
            roots@.len() == i,
            forall|j: int|
                0 <= j < i ==> spec_dag_cid(#[trigger] rs[j]) == Some(roots@[j]@),
        decreases nroots - i,
    {
        let c = match crate::cid::extract_cid(&root_items[i], Ghost(rs[i as int])) {
            Ok(c) => c,
            Err(_) => {
                proof {
                    assert(spec_dag_cid(rs[i as int]) is None);
                    assert(spec_header_roots(hsv) is None);
                }
                return Err(Error::HeaderMalformed);
            },
        };
        roots.push(c);
        i = i + 1;
    }
    proof {
        assert(roots@.map(|j: int, v: Vec<u8>| v@) =~= Seq::new(
            rs.len(),
            |j: int| spec_dag_cid(rs[j])->Some_0,
        ));
    }

    // Sections until the end of the input.
    let mut blocks: Vec<(Vec<u8>, Vec<u8>)> = Vec::new();
    let ghost mut specs: Seq<(Seq<u8>, Seq<u8>)> = Seq::empty();
    let mut at: usize = hend;
    let n = s.len();
    let ghost roots_map = roots@.map(|j: int, v: Vec<u8>| v@);
    proof {
        assert(spec_car(s@) == (match spec_blocks(s@, hend as int, Seq::empty()) {
            None => None,
            Some(bs) => Some((roots_map, bs)),
        }));
    }
    loop
        invariant
            n == s@.len(),
            hend <= at <= n,
            spec_car(s@) == (match spec_blocks(s@, hend as int, Seq::empty()) {
                None => None,
                Some(bs) => Some((roots_map, bs)),
            }),
            roots_map == roots@.map(|j: int, v: Vec<u8>| v@),
            blocks@.len() == specs.len(),
            forall|j: int|
                0 <= j < specs.len() ==> (#[trigger] blocks@[j].0@, blocks@[j].1@) == specs[j],
            validate ==> forall|j: int|
                0 <= j < specs.len() ==> hash_ok(#[trigger] specs[j].0, specs[j].1),
            spec_blocks(s@, hend as int, Seq::empty()) == spec_blocks(s@, at as int, specs),
        decreases n - at,
    {
        if at == n {
            proof {
                assert(spec_blocks(s@, at as int, specs) == Some(specs));
                assert(spec_car(s@) == Some((roots_map, specs)));
            }
            return Ok((roots, blocks));
        }
        let (len, p2) = match read_varint(s, at) {
            Some(x) => x,
            None => {
                return Err(Error::Truncated);
            },
        };
        if len == 0 || len > (n - p2) as u64 {
            proof {
                assert(spec_blocks(s@, at as int, specs) is None);
            }
            return Err(Error::Truncated);
        }
        let cl = match cid_len_at(s, p2) {
            Some(x) => x,
            None => {
                proof {
                    assert(spec_blocks(s@, at as int, specs) is None);
                }
                return Err(Error::BlockMalformed);
            },
        };
        if (cl as u64) > len {
            proof {
                assert(spec_blocks(s@, at as int, specs) is None);
            }
            return Err(Error::BlockMalformed);
        }
        let dend = p2 + (len as usize);
        let cid = copy_bytes(vstd::slice::slice_subrange(s, p2, p2 + cl));
        let data = copy_bytes(vstd::slice::slice_subrange(s, p2 + cl, dend));
        if validate {
            let ghost cur = (cid@, data@);
            proof {
                assert(spec_blocks(s@, at as int, specs) == spec_blocks(
                    s@,
                    dend as int,
                    specs.push(cur),
                ));
                lemma_spec_blocks_prefix(s@, dend as int, specs.push(cur));
            }
            let (code, dg) = match cid_hash(&cid) {
                Some(x) => x,
                None => {
                    proof {
                        lemma_bad_block(s@, hend as int, specs, cur, roots_map);
                    }
                    return Err(Error::BlockMalformed);
                },
            };
            if code == 0x12 {
                let actual = sha256(&data);
                if !bytes_eq(&dg, &actual) {
                    proof {
                        lemma_bad_block(s@, hend as int, specs, cur, roots_map);
                    }
                    return Err(Error::HashMismatch);
                }
            } else if code == 0 {
                if !bytes_eq(&dg, &data) {
                    proof {
                        lemma_bad_block(s@, hend as int, specs, cur, roots_map);
                    }
                    return Err(Error::HashMismatch);
                }
            } else {
                proof {
                    lemma_bad_block(s@, hend as int, specs, cur, roots_map);
                }
                return Err(Error::UnsupportedHash);
            }
        }
        proof {
            specs = specs.push((cid@, data@));
        }
        blocks.push((cid, data));
        at = dend;
    }
}

/// A block that fails validation sits in the parsed list, so either the
/// archive does not parse or it contains a bad block.
proof fn lemma_bad_block(
    s: Seq<u8>,
    hend: int,
    specs: Seq<(Seq<u8>, Seq<u8>)>,
    cur: (Seq<u8>, Seq<u8>),
    roots_map: Seq<Seq<u8>>,
)
    requires
        !hash_ok(cur.0, cur.1),
        spec_car(s) == (match spec_blocks(s, hend, Seq::<(Seq<u8>, Seq<u8>)>::empty()) {
            None => None,
            Some(bs) => Some((roots_map, bs)),
        }),
        spec_blocks(s, hend, Seq::<(Seq<u8>, Seq<u8>)>::empty()) matches Some(bs) ==> specs.len()
            < bs.len() && bs[specs.len() as int] == cur,
    ensures
        spec_car(s) is None || (spec_car(s) matches Some(q) && exists|i: int|
            0 <= i < q.1.len() && !hash_ok(#[trigger] q.1[i].0, q.1[i].1)),
{
    match spec_car(s) {
        Some(q) => {
            let w = specs.len() as int;
            assert(q.1[w] == cur);
            assert(0 <= w < q.1.len() && !hash_ok(q.1[w].0, q.1[w].1));
        },
        None => {},
    }
}

} // verus!

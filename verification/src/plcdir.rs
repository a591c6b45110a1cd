//! Identity-directory export entries and their application.
//!
//! The export endpoint yields one operation per line: an identity
//! operation carrying also-known-as aliases, a creation carrying a
//! handle, or a tombstone. Applying one updates the identity mirror and
//! moves the export cursor to the entry's timestamp, together.

use vstd::prelude::*;
use vstd::utf8::{encode_utf8, valid_utf8};

use crate::bytes::{nul_free, nul_free_check};
use crate::kv::copy_bytes;
use crate::plc::{add_did, delete_did, drop_did, Schema};
use crate::text::bytes_to_string;

verus! {

pub struct Service {
    pub kind: String,
    pub endpoint: String,
}

pub struct PlcOperation {
    pub rotation_keys: Vec<String>,
    pub verification_methods: Vec<(String, String)>,
    pub also_known_as: Vec<String>,
    pub services: Vec<(String, Service)>,
    pub prev: Option<String>,
    pub sig: String,
}

pub struct PlcTombstone {
    pub prev: String,
    pub sig: String,
}

pub struct Create {
    pub signing_key: String,
    pub recovery_key: String,
    pub handle: String,
    pub service: String,
    pub sig: String,
}

pub enum Operation {
    PlcOperation(PlcOperation),
    PlcTombstone(PlcTombstone),
    Create(Create),
}

pub struct Entry {
    pub did: String,
    pub operation: Operation,
    pub cid: String,
    pub nullified: bool,
    pub created_at: String,
}

#[derive(Debug)]
pub enum Error {
    Store(crate::plc::Error),
}

/// The alias byte strings an identity operation keeps: NUL-free and at
/// most 320 bytes.
pub open spec fn kept_akas(akas: Seq<String>) -> Set<Seq<u8>> {
    Set::new(
        |b: Seq<u8>|
            exists|i: int|
                0 <= i < akas.len() && b == encode_utf8(#[trigger] akas[i]@) && b.len() <= 320
                    && nul_free(b),
    )
}

/// The associations an entry adds for its DID.
pub open spec fn entry_effect(
    m: Set<(Seq<u8>, Seq<u8>)>,
    e: Entry,
) -> Set<(Seq<u8>, Seq<u8>)> {
    let d = encode_utf8(e.did@);
    if !nul_free(d) {
        m
    } else {
        match e.operation {
            Operation::PlcOperation(op) => m.union(
                Set::new(
                    |p: (Seq<u8>, Seq<u8>)| p.0 == d && kept_akas(op.also_known_as@).contains(p.1),
                ),
            ),
            Operation::Create(c) => {
                let aka = encode_utf8("at://"@) + encode_utf8(c.handle@);
                if nul_free(aka) {
                    m.insert((d, aka))
                } else {
                    m
                }
            },
            Operation::PlcTombstone(_) => drop_did(m, d),
        }
    }
}

/// Apply one export entry: the mirror change and the new cursor hold
/// together.
#[verifier::rlimit(50)]
pub fn apply_plc_entry(schema: &mut Schema, cursor: &mut String, entry: &Entry) -> (r: Result<
    (),
    Error,
>)
    requires
        old(schema).wf(),
    ensures
        r is Ok,
        final(schema).wf(),
        final(schema).pairs() == entry_effect(old(schema).pairs(), *entry),
        final(cursor)@ == entry.created_at@,
{
    let ghost m0 = schema.pairs();
    let ghost d = encode_utf8(entry.did@);
    if !nul_free_check(entry.did.as_str().as_bytes()) {
        *cursor = clone_string(&entry.created_at);
        return Ok(());
    }
    match &entry.operation {
        Operation::PlcOperation(op) => {
            let mut akas: Vec<&str> = Vec::new();
            let n = op.also_known_as.len();
            let mut i: usize = 0;
            while i < n
                invariant
                    n == op.also_known_as@.len(),
                    i <= n,
                    forall|x: int|
                        0 <= x < akas@.len() ==> nul_free(encode_utf8(#[trigger] akas@[x]@)),
                    forall|x: int|
                        0 <= x < akas@.len() ==> kept_akas(op.also_known_as@).contains(
                            encode_utf8(#[trigger] akas@[x]@),
                        ),
                    forall|j: int|
                        0 <= j < i && kept_ok(op.also_known_as@[j]) ==> exists|x: int|
                            0 <= x < akas@.len() && encode_utf8(#[trigger] akas@[x]@)
                                == encode_utf8(op.also_known_as@[j]@),
                decreases n - i,
            {
                let a = op.also_known_as[i].as_str();
                let ab = a.as_bytes();
                if ab.len() <= 320 && nul_free_check(ab) {
                    let ghost before = akas@;
                    akas.push(a);
                    proof {
                        assert(kept_akas(op.also_known_as@).contains(encode_utf8(a@))) by {
                            assert(0 <= i < op.also_known_as@.len() && encode_utf8(a@)
                                == encode_utf8(op.also_known_as@[i as int]@) && encode_utf8(
                                a@,
                            ).len() <= 320 && nul_free(encode_utf8(a@)));
                        }
                        assert forall|j: int|
                            0 <= j < i + 1 && kept_ok(op.also_known_as@[j]) implies exists|x: int|
                            0 <= x < akas@.len() && encode_utf8(#[trigger] akas@[x]@)
                                == encode_utf8(op.also_known_as@[j]@) by {
                            if j < i {
                                let x = choose|x: int|
                                    0 <= x < before.len() && encode_utf8(#[trigger] before[x]@)
                                        == encode_utf8(op.also_known_as@[j]@);
                                assert(akas@[x]@ == before[x]@);
                            } else {
                                assert(akas@[akas@.len() - 1]@ == a@);
                            }
                        }
                    }
                } else {
                    proof {
                        assert(!kept_ok(op.also_known_as@[i as int]));
                    }
                }
                i = i + 1;
            }
            let res = add_did(schema, entry.did.as_str(), akas.as_slice());
            proof {
                assert(res is Ok);
                let want = Set::new(
                    |p: (Seq<u8>, Seq<u8>)| p.0 == d && kept_akas(op.also_known_as@).contains(p.1),
                );
                assert forall|p: (Seq<u8>, Seq<u8>)| #[trigger]
                    crate::plc::aka_pairs(d, akas@).contains(p) implies want.contains(p) by {
                    let x = choose|x: int|
                        0 <= x < akas@.len() && p.1 == encode_utf8(#[trigger] akas@[x]@);
                }
                assert forall|p: (Seq<u8>, Seq<u8>)| #[trigger]
                    want.contains(p) implies crate::plc::aka_pairs(d, akas@).contains(p) by {
                    let j = choose|j: int|
                        0 <= j < op.also_known_as@.len() && p.1 == encode_utf8(
                            #[trigger] op.also_known_as@[j]@,
                        ) && p.1.len() <= 320 && nul_free(p.1);
                    assert(kept_ok(op.also_known_as@[j]));
                    let x = choose|x: int|
                        0 <= x < akas@.len() && encode_utf8(#[trigger] akas@[x]@) == encode_utf8(
                            op.also_known_as@[j]@,
                        );
                    assert(0 <= x < akas@.len() && p.1 == encode_utf8(akas@[x]@));
                }
                assert(crate::plc::aka_pairs(d, akas@) =~= want);
                assert(schema.pairs() =~= entry_effect(m0, *entry));
            }
        },
        Operation::Create(c) => {
            let mut aka_bytes = copy_bytes("at://".as_bytes());
            let hb = c.handle.as_str().as_bytes();
            let mut j: usize = 0;
            let ghost mid = aka_bytes@;
            while j < hb.len()
                invariant
                    j <= hb@.len(),
                    aka_bytes@ == mid + hb@.subrange(0, j as int),
                decreases hb@.len() - j,
            {
                aka_bytes.push(hb[j]);
                proof {
                    assert(aka_bytes@ =~= mid + hb@.subrange(0, j + 1));
                }
                j = j + 1;
            }
            proof {
                assert(aka_bytes@ =~= encode_utf8("at://"@) + encode_utf8(c.handle@));
            }
            if nul_free_check(&aka_bytes) {
                let ghost ab = aka_bytes@;
                let aka = match bytes_to_string(aka_bytes) {
                    Some(s) => s,
                    None => {
                        proof {
                            vstd::utf8::encode_utf8_valid_utf8("at://"@);
                            vstd::utf8::encode_utf8_valid_utf8(c.handle@);
                            vstd::utf8::valid_utf8_concat(
                                encode_utf8("at://"@),
                                encode_utf8(c.handle@),
                            );
                            assert(false);
                        }
                        return Ok(());
                    },
                };
                proof {
                    vstd::utf8::decode_utf8_encode_utf8(ab);
                    assert(encode_utf8(aka@) == ab);
                }
                let one: [&str; 1] = [aka.as_str()];
                let res = add_did(schema, entry.did.as_str(), one.as_slice());
                proof {
                    assert(res is Ok);
                    assert(crate::plc::aka_pairs(d, one@) =~= Set::<(Seq<u8>, Seq<u8>)>::empty()
                        .insert((d, ab)));
                    assert(m0.union(Set::<(Seq<u8>, Seq<u8>)>::empty().insert((d, ab))) =~= m0
                        .insert((d, ab)));
                }
            }
        },
        Operation::PlcTombstone(_) => {
            let res = delete_did(schema, entry.did.as_str());
            proof {
                assert(res is Ok);
            }
        },
    }
    *cursor = clone_string(&entry.created_at);
    Ok(())
}

/// An alias that the filter keeps.
pub open spec fn kept_ok(a: String) -> bool {
    encode_utf8(a@).len() <= 320 && nul_free(encode_utf8(a@))
}

/// Copy a string.
pub fn clone_string(s: &String) -> (r: String)
    ensures
        r@ == s@,
{
    s.clone()
}

} // verus!

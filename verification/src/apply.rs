//! Applying change-stream messages to the follows mirror.
//!
//! Each frame is handled as one transaction: the follow effects of its
//! ops and the new cursor take hold together, or, on a frame error,
//! nothing changes. A failure inside one op (an unparsable inline CAR,
//! a missing or undecodable record block) skips that op alone.

use vstd::prelude::*;
use vstd::utf8::{decode_utf8, encode_utf8, valid_utf8};

use crate::blockstore::pairs_to_map;
use crate::bytes::{nul_free, nul_free_check};
use crate::car::{car_parse, hash_ok, spec_car};
use crate::cbor::{decode, dict_get, spec_decode, SpecValue, Value};
use crate::firehose::{Commit, Message, RepoOp};
use crate::follows::{add_follow, delete_actor, delete_follow, drop_touching, Schema};
use crate::kv::copy_bytes;
use crate::text::bytes_to_string;

verus! {

#[derive(Debug)]
pub enum Error {
    /// The frame could not be parsed, or carried a stream error.
    Frame(crate::firehose::Error),
}

/// The follow collection name, as bytes.
pub open spec fn follow_collection() -> Seq<u8> {
    encode_utf8("app.bsky.graph.follow"@)
}

/// The position of the first `/` in `p`, or nothing.
pub open spec fn slash_at(p: Seq<u8>) -> Option<int> {
    if exists|i: int| 0 <= i < p.len() && p[i] == 47u8 {
        Some(choose|i: int| 0 <= i < p.len() && p[i] == 47u8 && forall|j: int| 0 <= j < i ==> p[j] != 47u8)
    } else {
        None
    }
}

/// The archive parses and every block passes validation.
pub open spec fn spec_car_validated(s: Seq<u8>) -> Option<(Seq<Seq<u8>>, Seq<(Seq<u8>, Seq<u8>)>)> {
    match spec_car(s) {
        None => None,
        Some(q) => {
            if forall|i: int| 0 <= i < q.1.len() ==> hash_ok(#[trigger] q.1[i].0, q.1[i].1) {
                Some(q)
            } else {
                None
            }
        },
    }
}

/// The subject of a follow record block, when it decodes as one.
pub open spec fn record_subject(b: Seq<u8>) -> Option<Seq<u8>> {
    match spec_decode(b) {
        Some(SpecValue::Dict(ss)) => {
            match (dict_get(ss, encode_utf8("subject"@)), dict_get(ss, encode_utf8("createdAt"@))) {
                (Some(SpecValue::Text(sb)), Some(SpecValue::Text(_))) => Some(sb),
                _ => None,
            }
        },
        _ => None,
    }
}

/// The effect of a create (or update) op once its record key is known.
pub open spec fn create_effect(
    m: Map<Seq<u8>, (Seq<u8>, Seq<u8>)>,
    repo: Seq<u8>,
    blocks: Seq<u8>,
    cid: Option<Seq<u8>>,
    rk: Seq<u8>,
) -> Map<Seq<u8>, (Seq<u8>, Seq<u8>)> {
    if !nul_free(repo) {
        m
    } else {
        match spec_car_validated(blocks) {
            None => m,
            Some(q) => {
                let bm = pairs_to_map(q.1);
                match cid {
                    None => m,
                    Some(c) => {
                        if !bm.contains_key(c) {
                            m
                        } else {
                            match record_subject(bm[c]) {
                                None => m,
                                Some(sb) => if nul_free(sb) && valid_utf8(sb) {
                                    m.insert(rk, (repo, sb))
                                } else {
                                    m
                                },
                            }
                        }
                    },
                }
            },
        }
    }
}

/// The effect of one commit op on the edges, given the commit's repo
/// and its inline CAR bytes.
pub open spec fn op_effect(
    m: Map<Seq<u8>, (Seq<u8>, Seq<u8>)>,
    repo: Seq<u8>,
    blocks: Seq<u8>,
    op: RepoOp,
) -> Map<Seq<u8>, (Seq<u8>, Seq<u8>)> {
    let pb = encode_utf8(op.path@);
    match slash_at(pb) {
        None => m,
        Some(sl) => {
            let coll = pb.subrange(0, sl);
            let rk = pb.subrange(sl + 1, pb.len() as int);
            if coll != follow_collection() || !nul_free(rk) || !valid_utf8(rk) {
                m
            } else if op.action@ == "create"@ || op.action@ == "update"@ {
                let c = match op.cid {
                    Some(x) => Some(x@),
                    None => None,
                };
                create_effect(m, repo, blocks, c, rk)
            } else if op.action@ == "delete"@ {
                m.remove(rk)
            } else {
                m
            }
        },
    }
}

/// The effect of the first `i` ops of a commit.
pub open spec fn ops_effect(
    m: Map<Seq<u8>, (Seq<u8>, Seq<u8>)>,
    repo: Seq<u8>,
    blocks: Seq<u8>,
    ops: Seq<RepoOp>,
    i: int,
) -> Map<Seq<u8>, (Seq<u8>, Seq<u8>)>
    decreases i,
{
    if i <= 0 {
        m
    } else {
        op_effect(ops_effect(m, repo, blocks, ops, i - 1), repo, blocks, ops[i - 1])
    }
}

/// What a message does to the edges and to the cursor.
pub open spec fn msg_effect(m: Map<Seq<u8>, (Seq<u8>, Seq<u8>)>, cursor: i64, msg: Message) -> (
    Map<Seq<u8>, (Seq<u8>, Seq<u8>)>,
    i64,
) {
    match msg {
        Message::Info(_) => (m, cursor),
        Message::Commit(c) => (
            ops_effect(m, encode_utf8(c.repo@), c.blocks@, c.ops@, c.ops@.len() as int),
            c.seq,
        ),
        Message::Tombstone(t) => (
            if nul_free(encode_utf8(t.did@)) {
                drop_touching(m, encode_utf8(t.did@))
            } else {
                m
            },
            t.seq,
        ),
        Message::Handle(h) => (m, h.seq),
        Message::Migrate(x) => (m, x.seq),
    }
}

/// Find the first `/`.
fn find_slash(b: &[u8]) -> (r: Option<usize>)
    ensures
        match r {
            Some(i) => slash_at(b@) == Some(i as int) && i < b@.len(),
            None => slash_at(b@) is None,
        },
{
    let n = b.len();
    let mut i: usize = 0;
    while i < n
        invariant
            n == b@.len(),
            i <= n,
            forall|j: int| 0 <= j < i ==> b@[j] != 47u8,
        decreases n - i,
    {
        if b[i] == 47u8 {
            proof {
                let w = choose|w: int|
                    0 <= w < b@.len() && b@[w] == 47u8 && forall|j: int|
                        0 <= j < w ==> b@[j] != 47u8;
                if w < i {
                    assert(b@[w] != 47u8);
                }
                if w > i {
                    assert(b@[i as int] != 47u8);
                }
            }
            return Some(i);
        }
        i = i + 1;
    }
    proof {
        if slash_at(b@) is Some {
            let w = choose|w: int| 0 <= w < b@.len() && b@[w] == 47u8;
            assert(b@[w] != 47u8);
        }
    }
    None
}

/// Apply one decoded message, returning the cursor it carries.
pub fn apply_message(schema: &mut Schema, cursor: &mut i64, msg: &Message)
    requires
        old(schema).wf(),
    ensures
        final(schema).wf(),
        (final(schema).edges(), *final(cursor)) == msg_effect(
            old(schema).edges(),
            *old(cursor),
            *msg,
        ),
{
    match msg {
        Message::Info(_) => {},
        Message::Commit(c) => {
            apply_commit(schema, c);
            *cursor = c.seq;
        },
        Message::Tombstone(t) => {
            if nul_free_check(t.did.as_str().as_bytes()) {
                let res = delete_actor(schema, t.did.as_str());
                proof {
                    assert(res is Ok);
                }
            }
            *cursor = t.seq;
        },
        Message::Handle(h) => {
            *cursor = h.seq;
        },
        Message::Migrate(x) => {
            *cursor = x.seq;
        },
    }
}

/// Apply the follow ops of one commit.
fn apply_commit(schema: &mut Schema, c: &Commit)
    requires
        old(schema).wf(),
    ensures
        final(schema).wf(),
        final(schema).edges() == ops_effect(
            old(schema).edges(),
            encode_utf8(c.repo@),
            c.blocks@,
            c.ops@,
            c.ops@.len() as int,
        ),
{
    let ghost m0 = schema.edges();
    let ghost repo_b = encode_utf8(c.repo@);
    let n = c.ops.len();
    let mut i: usize = 0;
    while i < n
        invariant
            schema.wf(),
            n == c.ops@.len(),
            i <= n,
            repo_b == encode_utf8(c.repo@),
            schema.edges() == ops_effect(m0, repo_b, c.blocks@, c.ops@, i as int),
        decreases n - i,
    {
        apply_op(schema, c, i);
        i = i + 1;
    }
}

/// Apply one op of a commit.
fn apply_op(schema: &mut Schema, c: &Commit, i: usize)
    requires
        old(schema).wf(),
        i < c.ops@.len(),
    ensures
        final(schema).wf(),
        final(schema).edges() == op_effect(
            old(schema).edges(),
            encode_utf8(c.repo@),
            c.blocks@,
            c.ops@[i as int],
        ),
{
    let ghost m0 = schema.edges();
    let op = &c.ops[i];
    let pb = op.path.as_str().as_bytes();
    let pbl = pb.len();
    let sl = match find_slash(pb) {
        Some(sl) => sl,
        None => {
            return ;
        },
    };
    let coll = vstd::slice::slice_subrange(pb, 0, sl);
    let rkb = vstd::slice::slice_subrange(pb, sl + 1, pbl);
    if !crate::bytes::bytes_eq(coll, "app.bsky.graph.follow".as_bytes()) {
        return ;
    }
    if !nul_free_check(rkb) {
        return ;
    }
    let rkey = match bytes_to_string(copy_bytes(rkb)) {
        Some(s) => s,
        None => {
            return ;
        },
    };
    proof {
        vstd::utf8::decode_utf8_encode_utf8(rkb@);
        assert(encode_utf8(rkey@) == rkb@);
    }
    let create = crate::firehose::str_eq(op.action.as_str(), "create") || crate::firehose::str_eq(
        op.action.as_str(),
        "update",
    );
    let is_delete = crate::firehose::str_eq(op.action.as_str(), "delete");
    proof {
        lemma_text_eq(op.action@, "create"@);
        lemma_text_eq(op.action@, "update"@);
        lemma_text_eq(op.action@, "delete"@);
    }
    if create {
        apply_create(schema, c, i, rkey.as_str());
    } else if is_delete {
        let res = delete_follow(schema, rkey.as_str());
        proof {
            assert(res is Ok);
        }
    }
}

/// Apply a create (or update) op whose record key has been split off.
#[verifier::rlimit(100)]
fn apply_create(schema: &mut Schema, c: &Commit, i: usize, rkey: &str)
    requires
        old(schema).wf(),
        i < c.ops@.len(),
        nul_free(encode_utf8(rkey@)),
    ensures
        final(schema).wf(),
        final(schema).edges() == create_effect(
            old(schema).edges(),
            encode_utf8(c.repo@),
            c.blocks@,
            (match c.ops@[i as int].cid {
                Some(x) => Some(x@),
                None => None,
            }),
            encode_utf8(rkey@),
        ),
{
    let op = &c.ops[i];
    if !nul_free_check(c.repo.as_str().as_bytes()) {
        return ;
    }
    let (_roots, blockvec) = match car_parse(&c.blocks, true) {
        Ok(x) => x,
        Err(_) => {
            proof {
                assert(spec_car_validated(c.blocks@) is None);
            }
            return ;
        },
    };
    let cid = match &op.cid {
        Some(cv) => cv,
        None => {
            return ;
        },
    };
    // The record block, by the op's CID, out of the inline CAR.
    let nb = blockvec.len();
    let ghost bs = blockvec@.map(|x: int, v: (Vec<u8>, Vec<u8>)| (v.0@, v.1@));
    let ghost bm = pairs_to_map(bs);
    let mut found: Option<Vec<u8>> = None;
    let mut j: usize = 0;
    while j < nb
        invariant
            nb == blockvec@.len(),
            bs == blockvec@.map(|x: int, v: (Vec<u8>, Vec<u8>)| (v.0@, v.1@)),
            bs.len() == nb,
            j <= nb,
            match found {
                Some(b) => lookup(bs.take(j as int), cid@) == Some(b@),
                None => lookup(bs.take(j as int), cid@) is None,
            },
        decreases nb - j,
    {
        proof {
            assert(bs.take(j + 1).drop_last() =~= bs.take(j as int));
            assert(bs.take(j + 1).last() == bs[j as int]);
        }
        if crate::bytes::bytes_eq(&blockvec[j].0, cid) {
            found = Some(copy_bytes(&blockvec[j].1));
        }
        j = j + 1;
    }
    proof {
        assert(bs.take(nb as int) =~= bs);
        lemma_lookup_map(bs, cid@);
    }
    let block = match found {
        Some(b) => b,
        None => {
            return ;
        },
    };
    // Decode the record and take its subject.
    let sb = match read_record_subject(&block) {
        Some(b) => b,
        None => {
            return ;
        },
    };
    if !nul_free_check(&sb) {
        return ;
    }
    let subject = match bytes_to_string(copy_bytes(&sb)) {
        Some(s) => s,
        None => {
            return ;
        },
    };
    proof {
        vstd::utf8::decode_utf8_encode_utf8(sb@);
        assert(encode_utf8(subject@) == sb@);
    }
    let res = add_follow(schema, rkey, c.repo.as_str(), subject.as_str());
    proof {
        assert(res is Ok);
    }
}

/// The value at the last pair with the given key, scanning a list.
pub open spec fn lookup(bs: Seq<(Seq<u8>, Seq<u8>)>, k: Seq<u8>) -> Option<Seq<u8>>
    decreases bs.len(),
{
    if bs.len() == 0 {
        None
    } else if bs.last().0 == k {
        Some(bs.last().1)
    } else {
        lookup(bs.drop_last(), k)
    }
}

/// Scanning for a key agrees with the folded map.
proof fn lemma_lookup_map(bs: Seq<(Seq<u8>, Seq<u8>)>, k: Seq<u8>)
    ensures
        pairs_to_map(bs).contains_key(k) <==> lookup(bs, k) is Some,
        pairs_to_map(bs).contains_key(k) ==> lookup(bs, k) == Some(pairs_to_map(bs)[k]),
    decreases bs.len(),
{
    if bs.len() > 0 {
        lemma_lookup_map(bs.drop_last(), k);
    }
}

/// Equal encodings mean equal texts.
proof fn lemma_text_eq(a: Seq<char>, b: Seq<char>)
    ensures
        (encode_utf8(a) == encode_utf8(b)) == (a == b),
{
    if encode_utf8(a) == encode_utf8(b) {
        vstd::utf8::encode_utf8_decode_utf8(a);
        vstd::utf8::encode_utf8_decode_utf8(b);
    }
}

/// Handle one raw frame: on success the follow effects and the frame's
/// cursor take hold together; on an error nothing changes.
///
/// Success is owed exactly on well-formed frames: a frame some message
/// matches is applied, never refused.
pub fn process_message(schema: &mut Schema, cursor: &mut i64, msg: &[u8]) -> (r: Result<(), Error>)
    requires
        old(schema).wf(),
    ensures
        final(schema).wf(),
        r is Ok <==> crate::firehose::frame_ok(msg@),
        r is Ok <==> (exists|m: Message| #[trigger] crate::firehose::frame_matches(msg@, m)),
        match r {
            Ok(_) => exists|m: Message|
                #[trigger] crate::firehose::frame_matches(msg@, m) && (
                final(schema).edges(),
                *final(cursor),
                ) == msg_effect(old(schema).edges(), *old(cursor), m),
            Err(_) => final(schema).edges() == old(schema).edges() && *final(cursor) == *old(
                cursor,
            ),
        },
{
    let m = match Message::parse(msg) {
        Ok(m) => m,
        Err(e) => {
            return Err(Error::Frame(e));
        },
    };
    apply_message(schema, cursor, &m);
    Ok(())
}

/// The single write an op performs, if any: the record key together
/// with the inserted edge, or nothing for a removal.
pub open spec fn op_write(repo: Seq<u8>, blocks: Seq<u8>, op: RepoOp) -> Option<
    (Seq<u8>, Option<(Seq<u8>, Seq<u8>)>),
> {
    let pb = encode_utf8(op.path@);
    match slash_at(pb) {
        None => None,
        Some(sl) => {
            let coll = pb.subrange(0, sl);
            let rk = pb.subrange(sl + 1, pb.len() as int);
            if coll != follow_collection() || !nul_free(rk) || !valid_utf8(rk) {
                None
            } else if op.action@ == "create"@ || op.action@ == "update"@ {
                if !nul_free(repo) {
                    None
                } else {
                    match spec_car_validated(blocks) {
                        None => None,
                        Some(q) => {
                            let bm = pairs_to_map(q.1);
                            match op.cid {
                                None => None,
                                Some(c) => {
                                    if !bm.contains_key(c@) {
                                        None
                                    } else {
                                        match record_subject(bm[c@]) {
                                            None => None,
                                            Some(sb) => if nul_free(sb) && valid_utf8(sb) {
                                                Some((rk, Some((repo, sb))))
                                            } else {
                                                None
                                            },
                                        }
                                    }
                                },
                            }
                        },
                    }
                }
            } else if op.action@ == "delete"@ {
                Some((rk, None))
            } else {
                None
            }
        },
    }
}

/// An op acts as its single write.
proof fn lemma_op_effect_form(
    m: Map<Seq<u8>, (Seq<u8>, Seq<u8>)>,
    repo: Seq<u8>,
    blocks: Seq<u8>,
    op: RepoOp,
)
    ensures
        op_effect(m, repo, blocks, op) == (match op_write(repo, blocks, op) {
            None => m,
            Some((k, Some(v))) => m.insert(k, v),
            Some((k, None)) => m.remove(k),
        }),
{
}

/// The record key of a follow-collection repository key.
pub open spec fn follow_key_of(k: Seq<u8>) -> Option<Seq<u8>> {
    match slash_at(k) {
        None => None,
        Some(sl) => {
            let coll = k.subrange(0, sl);
            let rk = k.subrange(sl + 1, k.len() as int);
            if coll == follow_collection() && valid_utf8(rk) {
                Some(rk)
            } else {
                None
            }
        },
    }
}

/// The follow record a repository key yields: its record key and the
/// subject in its block.
pub open spec fn entry_of(
    mstv: Map<Seq<u8>, Seq<u8>>,
    blocksv: Map<Seq<u8>, Seq<u8>>,
    k: Seq<u8>,
) -> Option<(Seq<u8>, Seq<u8>)> {
    match follow_key_of(k) {
        None => None,
        Some(rk) => {
            if !mstv.contains_key(k) || !blocksv.contains_key(mstv[k]) {
                None
            } else {
                match record_subject(blocksv[mstv[k]]) {
                    None => None,
                    Some(sb) => if valid_utf8(sb) {
                        Some((rk, sb))
                    } else {
                        None
                    },
                }
            }
        },
    }
}

/// Collect the follow records of a loaded repository: each entry of the
/// follow collection whose block decodes as a record, as (record key,
/// subject) pairs.
/// Decode a follow record block and take its subject bytes.
#[verifier::rlimit(50)]
fn read_record_subject(block: &[u8]) -> (r: Option<Vec<u8>>)
    ensures
        match r {
            Some(sb) => record_subject(block@) == Some(sb@),
            None => record_subject(block@) is None,
        },
{
    let rv = match decode(block) {
        Some(v) => v,
        None => {
            return None;
        },
    };
    let ghost rsv = spec_decode(block@)->Some_0;
    proof {
        crate::cbor::lemma_rep_inversion(rv, rsv);
    }
    let ritems = match &rv {
        Value::Dict(m) => m,
        _ => {
            proof {
                if rsv matches SpecValue::Dict(_) {
                    assert(false);
                }
            }
            return None;
        },
    };
    let ghost rss = rsv->Dict_0;
    let subj_v = match crate::cbor::dict_get_exec(ritems, "subject".as_bytes(), Ghost(rss)) {
        Some(v) => v,
        None => {
            return None;
        },
    };
    proof {
        crate::cbor::lemma_rep_inversion(*subj_v, dict_get(rss, encode_utf8("subject"@))->Some_0);
    }
    let sb = match subj_v {
        Value::Text(b) => copy_bytes(b.as_slice()),
        _ => {
            proof {
                if dict_get(rss, encode_utf8("subject"@))->Some_0 matches SpecValue::Text(_) {
                    assert(false);
                }
            }
            return None;
        },
    };
    let created_v = match crate::cbor::dict_get_exec(ritems, "createdAt".as_bytes(), Ghost(rss)) {
        Some(v) => v,
        None => {
            return None;
        },
    };
    proof {
        crate::cbor::lemma_rep_inversion(
            *created_v,
            dict_get(rss, encode_utf8("createdAt"@))->Some_0,
        );
    }
    match created_v {
        Value::Text(_) => {},
        _ => {
            proof {
                if dict_get(rss, encode_utf8("createdAt"@))->Some_0 matches SpecValue::Text(_) {
                    assert(false);
                }
            }
            return None;
        },
    }
    Some(sb)
}

/// Some repository key justifies the collected record.
pub open spec fn sound_record(
    mstv: Map<Seq<u8>, Seq<u8>>,
    blocksv: Map<Seq<u8>, Seq<u8>>,
    p: (String, String),
) -> bool {
    exists|k: Seq<u8>|
        #[trigger] entry_of(mstv, blocksv, k) == Some((encode_utf8(p.0@), encode_utf8(p.1@)))
}

#[verifier::rlimit(50)]
pub fn extract_follows(repo: &crate::blockstore::Blockstore) -> (r: Vec<(String, String)>)
    requires
        repo.wf(),
    ensures
        forall|j: int|
            0 <= j < r@.len() ==> sound_record(
                repo.mst_view(),
                repo.blocks_view(),
                #[trigger] r@[j],
            ),
        forall|k: Seq<u8>|
            #[trigger] repo.mst_view().contains_key(k) && entry_of(
                repo.mst_view(),
                repo.blocks_view(),
                k,
            ) is Some ==> exists|j: int|
                0 <= j < r@.len() && Some((encode_utf8(r@[j].0@), encode_utf8(r@[j].1@)))
                    == entry_of(repo.mst_view(), repo.blocks_view(), k),
{
    let pairs = repo.key_and_cids();
    let mut out: Vec<(String, String)> = Vec::new();
    let n = pairs.len();
    let mut i: usize = 0;
    while i < n
        invariant
            repo.wf(),
            n == pairs@.len(),
            i <= n,
            forall|x: int|
                0 <= x < pairs@.len() ==> repo.mst_view().contains_pair(
                    #[trigger] pairs@[x].0@,
                    pairs@[x].1@,
                ),
            forall|k: Seq<u8>|
                #[trigger] repo.mst_view().contains_key(k) ==> exists|x: int|
                    0 <= x < pairs@.len() && pairs@[x].0@ == k,
            forall|j: int|
                0 <= j < out@.len() ==> sound_record(
                    repo.mst_view(),
                    repo.blocks_view(),
                    #[trigger] out@[j],
                ),
            forall|x: int|
                0 <= x < i && entry_of(
                    repo.mst_view(),
                    repo.blocks_view(),
                    #[trigger] pairs@[x].0@,
                ) is Some ==> exists|j: int|
                    0 <= j < out@.len() && Some(
                        (encode_utf8(out@[j].0@), encode_utf8(out@[j].1@)),
                    ) == entry_of(repo.mst_view(), repo.blocks_view(), pairs@[x].0@),
        decreases n - i,
    {
        let ghost k = pairs@[i as int].0@;
        let ghost out_before = out@;
        extract_one(repo, &pairs[i].0, &mut out);
        proof {
            assert forall|x: int|
                0 <= x < i + 1 && entry_of(
                    repo.mst_view(),
                    repo.blocks_view(),
                    #[trigger] pairs@[x].0@,
                ) is Some implies exists|j: int|
                0 <= j < out@.len() && Some((encode_utf8(out@[j].0@), encode_utf8(out@[j].1@)))
                    == entry_of(repo.mst_view(), repo.blocks_view(), pairs@[x].0@) by {
                if x < i {
                    let j = choose|j: int|
                        0 <= j < out_before.len() && Some(
                            (encode_utf8(out_before[j].0@), encode_utf8(out_before[j].1@)),
                        ) == entry_of(repo.mst_view(), repo.blocks_view(), pairs@[x].0@);
                    assert(out@[j] == out_before[j]);
                }
            }
        }
        i = i + 1;
    }
    proof {
        assert forall|k: Seq<u8>|
            #[trigger] repo.mst_view().contains_key(k) && entry_of(
                repo.mst_view(),
                repo.blocks_view(),
                k,
            ) is Some implies exists|j: int|
            0 <= j < out@.len() && Some((encode_utf8(out@[j].0@), encode_utf8(out@[j].1@)))
                == entry_of(repo.mst_view(), repo.blocks_view(), k) by {
            let x = choose|x: int| 0 <= x < pairs@.len() && pairs@[x].0@ == k;
        }
    }
    out
}

/// Handle one repository key: push its record when it is a follow.
#[verifier::rlimit(100)]
fn extract_one(repo: &crate::blockstore::Blockstore, key: &Vec<u8>, out: &mut Vec<(String, String)>)
    requires
        repo.wf(),
        repo.mst_view().contains_key(key@),
    ensures
        match entry_of(repo.mst_view(), repo.blocks_view(), key@) {
            Some(p) => final(out)@ == old(out)@.push(final(out)@.last()) && final(out)@.len()
                == old(out)@.len() + 1 && encode_utf8(final(out)@.last().0@) == p.0
                && encode_utf8(final(out)@.last().1@) == p.1,
            None => final(out)@ == old(out)@,
        },
{
    let kb = key.as_slice();
    let kbl = kb.len();
    let sl = match find_slash(kb) {
        Some(sl) => sl,
        None => {
            return ;
        },
    };
    let coll = vstd::slice::slice_subrange(kb, 0, sl);
    let rkb = vstd::slice::slice_subrange(kb, sl + 1, kbl);
    if !crate::bytes::bytes_eq(coll, "app.bsky.graph.follow".as_bytes()) {
        return ;
    }
    let rkey = match bytes_to_string(copy_bytes(rkb)) {
        Some(s) => s,
        None => {
            return ;
        },
    };
    proof {
        vstd::utf8::decode_utf8_encode_utf8(rkb@);
    }
    let block = match repo.get(kb) {
        Some(b) => b,
        None => {
            return ;
        },
    };
    let sb = match read_record_subject(block.as_slice()) {
        Some(b) => b,
        None => {
            return ;
        },
    };
    let subject = match bytes_to_string(copy_bytes(&sb)) {
        Some(s) => s,
        None => {
            return ;
        },
    };
    proof {
        vstd::utf8::decode_utf8_encode_utf8(sb@);
    }
    out.push((rkey, subject));
}

/// A frame sequence applied in order, with its cursor.
pub open spec fn frames_effect(
    m: Map<Seq<u8>, (Seq<u8>, Seq<u8>)>,
    c: i64,
    msgs: Seq<Message>,
    i: int,
) -> (Map<Seq<u8>, (Seq<u8>, Seq<u8>)>, i64)
    decreases i,
{
    if i <= 0 {
        (m, c)
    } else {
        let p = frames_effect(m, c, msgs, i - 1);
        msg_effect(p.0, p.1, msgs[i - 1])
    }
}

/// The value one key holds, if any.
pub open spec fn val_of(m: Map<Seq<u8>, (Seq<u8>, Seq<u8>)>, k: Seq<u8>) -> Option<
    (Seq<u8>, Seq<u8>),
> {
    if m.contains_key(k) {
        Some(m[k])
    } else {
        None
    }
}

/// What one step of the stream does to one key: sets it, clears it, or
/// clears it when its edge touches a tombstoned actor.
pub enum StepK {
    Write(Option<(Seq<u8>, Seq<u8>)>),
    Tomb(Seq<u8>),
}

pub open spec fn step_k(x: Option<(Seq<u8>, Seq<u8>)>, s: StepK) -> Option<(Seq<u8>, Seq<u8>)> {
    match s {
        StepK::Write(w) => w,
        StepK::Tomb(d) => match x {
            Some(v) => if v.0 == d || v.1 == d {
                None
            } else {
                Some(v)
            },
            None => None,
        },
    }
}

pub open spec fn run_k(
    steps: Seq<StepK>,
    x: Option<(Seq<u8>, Seq<u8>)>,
) -> Option<(Seq<u8>, Seq<u8>)>
    decreases steps.len(),
{
    if steps.len() == 0 {
        x
    } else {
        run_k(steps.skip(1), step_k(x, steps[0]))
    }
}

/// The steps the first `i` ops of a commit perform on one key.
pub open spec fn ops_steps_k(
    repo: Seq<u8>,
    blocks: Seq<u8>,
    ops: Seq<RepoOp>,
    i: int,
    k: Seq<u8>,
) -> Seq<StepK>
    decreases i,
{
    if i <= 0 {
        Seq::empty()
    } else {
        ops_steps_k(repo, blocks, ops, i - 1, k) + (match op_write(repo, blocks, ops[i - 1]) {
            Some((k2, w)) => if k2 == k {
                seq![StepK::Write(w)]
            } else {
                Seq::empty()
            },
            None => Seq::empty(),
        })
    }
}

/// The steps one message performs on one key.
pub open spec fn msg_steps_k(msg: Message, k: Seq<u8>) -> Seq<StepK> {
    match msg {
        Message::Commit(c) => ops_steps_k(
            encode_utf8(c.repo@),
            c.blocks@,
            c.ops@,
            c.ops@.len() as int,
            k,
        ),
        Message::Tombstone(t) => if nul_free(encode_utf8(t.did@)) {
            seq![StepK::Tomb(encode_utf8(t.did@))]
        } else {
            Seq::empty()
        },
        _ => Seq::empty(),
    }
}

/// The steps the first `i` frames perform on one key.
pub open spec fn frames_steps_k(msgs: Seq<Message>, i: int, k: Seq<u8>) -> Seq<StepK>
    decreases i,
{
    if i <= 0 {
        Seq::empty()
    } else {
        frames_steps_k(msgs, i - 1, k) + msg_steps_k(msgs[i - 1], k)
    }
}

proof fn lemma_run_concat(a: Seq<StepK>, b: Seq<StepK>, x: Option<(Seq<u8>, Seq<u8>)>)
    ensures
        run_k(a + b, x) == run_k(b, run_k(a, x)),
    decreases a.len(),
{
    if a.len() == 0 {
        assert(a + b =~= b);
    } else {
        assert((a + b)[0] == a[0]);
        assert((a + b).skip(1) =~= a.skip(1) + b);
        lemma_run_concat(a.skip(1), b, step_k(x, a[0]));
    }
}

/// The ops of a commit act on one key as their step list.
proof fn lemma_ops_steps(
    m: Map<Seq<u8>, (Seq<u8>, Seq<u8>)>,
    repo: Seq<u8>,
    blocks: Seq<u8>,
    ops: Seq<RepoOp>,
    i: int,
    k: Seq<u8>,
)
    ensures
        val_of(ops_effect(m, repo, blocks, ops, i), k) == run_k(
            ops_steps_k(repo, blocks, ops, i, k),
            val_of(m, k),
        ),
    decreases i,
{
    if i > 0 {
        lemma_ops_steps(m, repo, blocks, ops, i - 1, k);
        lemma_op_effect_form(ops_effect(m, repo, blocks, ops, i - 1), repo, blocks, ops[i - 1]);
        let pre = ops_steps_k(repo, blocks, ops, i - 1, k);
        match op_write(repo, blocks, ops[i - 1]) {
            Some((k2, w)) => {
                if k2 == k {
                    lemma_run_concat(pre, seq![StepK::Write(w)], val_of(m, k));
                    let y = run_k(pre, val_of(m, k));
                    reveal_with_fuel(run_k, 3);
                    assert(seq![StepK::Write(w)].len() == 1);
                    assert(seq![StepK::Write(w)][0] == StepK::Write(w));
                    assert(seq![StepK::Write(w)].skip(1) =~= Seq::<StepK>::empty());
                    assert(run_k(seq![StepK::Write(w)], y) == w);
                } else {
                    assert(pre + Seq::<StepK>::empty() =~= pre);
                    assert(val_of(
                        op_effect(ops_effect(m, repo, blocks, ops, i - 1), repo, blocks, ops[i - 1]),
                        k,
                    ) == val_of(ops_effect(m, repo, blocks, ops, i - 1), k));
                }
            },
            None => {
                assert(pre + Seq::<StepK>::empty() =~= pre);
            },
        }
    }
}

/// A message acts on one key as its step list.
proof fn lemma_msg_steps(m: Map<Seq<u8>, (Seq<u8>, Seq<u8>)>, c: i64, msg: Message, k: Seq<u8>)
    ensures
        val_of(msg_effect(m, c, msg).0, k) == run_k(msg_steps_k(msg, k), val_of(m, k)),
{
    match msg {
        Message::Commit(cm) => {
            lemma_ops_steps(
                m,
                encode_utf8(cm.repo@),
                cm.blocks@,
                cm.ops@,
                cm.ops@.len() as int,
                k,
            );
        },
        Message::Tombstone(t) => {
            let d = encode_utf8(t.did@);
            if nul_free(d) {
                reveal_with_fuel(run_k, 3);
                assert(seq![StepK::Tomb(d)].len() == 1);
                assert(seq![StepK::Tomb(d)][0] == StepK::Tomb(d));
                assert(seq![StepK::Tomb(d)].skip(1) =~= Seq::<StepK>::empty());
                assert(run_k(seq![StepK::Tomb(d)], val_of(m, k)) == step_k(
                    val_of(m, k),
                    StepK::Tomb(d),
                ));
                assert(val_of(drop_touching(m, d), k) == step_k(val_of(m, k), StepK::Tomb(d)));
            }
        },
        _ => {},
    }
}

/// A frame sequence acts on one key as its step list.
proof fn lemma_frames_steps(
    m: Map<Seq<u8>, (Seq<u8>, Seq<u8>)>,
    c: i64,
    msgs: Seq<Message>,
    i: int,
    k: Seq<u8>,
)
    ensures
        val_of(frames_effect(m, c, msgs, i).0, k) == run_k(
            frames_steps_k(msgs, i, k),
            val_of(m, k),
        ),
    decreases i,
{
    if i > 0 {
        lemma_frames_steps(m, c, msgs, i - 1, k);
        let p = frames_effect(m, c, msgs, i - 1);
        lemma_msg_steps(p.0, p.1, msgs[i - 1], k);
        lemma_run_concat(frames_steps_k(msgs, i - 1, k), msg_steps_k(msgs[i - 1], k), val_of(m, k));
    }
}

pub open spec fn has_write(steps: Seq<StepK>) -> bool {
    exists|i: int| 0 <= i < steps.len() && (#[trigger] steps[i]) matches StepK::Write(_)
}

/// After a write, the outcome no longer depends on the starting value.
proof fn lemma_run_oblivious(
    steps: Seq<StepK>,
    x: Option<(Seq<u8>, Seq<u8>)>,
    y: Option<(Seq<u8>, Seq<u8>)>,
)
    requires
        has_write(steps),
    ensures
        run_k(steps, x) == run_k(steps, y),
    decreases steps.len(),
{
    match steps[0] {
        StepK::Write(w) => {
            assert(step_k(x, steps[0]) == step_k(y, steps[0]));
        },
        StepK::Tomb(_) => {
            assert(has_write(steps.skip(1))) by {
                let i = choose|i: int|
                    0 <= i < steps.len() && (#[trigger] steps[i]) matches StepK::Write(_);
                assert(steps.skip(1)[i - 1] == steps[i]);
            }
            lemma_run_oblivious(steps.skip(1), step_k(x, steps[0]), step_k(y, steps[0]));
        },
    }
}

/// Without writes, an empty key stays empty.
proof fn lemma_run_none(steps: Seq<StepK>)
    requires
        !has_write(steps),
    ensures
        run_k(steps, None) is None,
    decreases steps.len(),
{
    if steps.len() > 0 {
        assert(!(steps[0] matches StepK::Write(_)));
        assert(!has_write(steps.skip(1))) by {
            if has_write(steps.skip(1)) {
                let i = choose|i: int|
                    0 <= i < steps.skip(1).len() && (#[trigger] steps.skip(1)[i]) matches StepK::Write(
                        _,
                    );
                assert(steps[i + 1] == steps.skip(1)[i]);
            }
        }
        lemma_run_none(steps.skip(1));
    }
}

/// Without writes, a surviving value is the starting value.
proof fn lemma_run_carry(steps: Seq<StepK>, x: Option<(Seq<u8>, Seq<u8>)>)
    requires
        !has_write(steps),
        run_k(steps, x) is Some,
    ensures
        run_k(steps, x) == x,
    decreases steps.len(),
{
    if steps.len() > 0 {
        assert(!(steps[0] matches StepK::Write(_)));
        assert(!has_write(steps.skip(1))) by {
            if has_write(steps.skip(1)) {
                let i = choose|i: int|
                    0 <= i < steps.skip(1).len() && (#[trigger] steps.skip(1)[i]) matches StepK::Write(
                        _,
                    );
                assert(steps[i + 1] == steps.skip(1)[i]);
            }
        }
        lemma_run_carry(steps.skip(1), step_k(x, steps[0]));
        if step_k(x, steps[0]) is None {
            lemma_run_none(steps.skip(1));
        }
    }
}

/// Rerunning a step list on its own outcome changes nothing.
proof fn lemma_run_idempotent(steps: Seq<StepK>, x: Option<(Seq<u8>, Seq<u8>)>)
    ensures
        run_k(steps, run_k(steps, x)) == run_k(steps, x),
{
    let r = run_k(steps, x);
    if has_write(steps) {
        lemma_run_oblivious(steps, r, x);
    } else {
        if r is None {
            lemma_run_none(steps);
            assert(run_k(steps, r) is None);
        } else {
            lemma_run_carry(steps, x);
            assert(r == x);
        }
    }
}

/// Whether a message carries a sequence number for the cursor.
pub open spec fn sets_cursor(msg: Message) -> bool {
    !(msg matches Message::Info(_))
}

/// The cursor depends only on the starting cursor and the frames.
proof fn lemma_frames_cursor(
    m1: Map<Seq<u8>, (Seq<u8>, Seq<u8>)>,
    m2: Map<Seq<u8>, (Seq<u8>, Seq<u8>)>,
    c1: i64,
    c2: i64,
    msgs: Seq<Message>,
    i: int,
)
    ensures
        (exists|j: int| 0 <= j < i && sets_cursor(#[trigger] msgs[j])) ==> frames_effect(
            m1,
            c1,
            msgs,
            i,
        ).1 == frames_effect(m2, c2, msgs, i).1,
        c1 == c2 ==> frames_effect(m1, c1, msgs, i).1 == frames_effect(m2, c2, msgs, i).1,
    decreases i,
{
    if i > 0 {
        lemma_frames_cursor(m1, m2, c1, c2, msgs, i - 1);
        if sets_cursor(msgs[i - 1]) {
        } else {
            if exists|j: int| 0 <= j < i && sets_cursor(#[trigger] msgs[j]) {
                let j = choose|j: int| 0 <= j < i && sets_cursor(#[trigger] msgs[j]);
                assert(0 <= j < i - 1);
            }
        }
    }
}

/// Replaying an applied contiguous prefix of frames, from any point on,
/// leaves the mirror and the cursor exactly as processing it once did:
/// at-least-once delivery with the cursor committed alongside the data
/// is safe.
pub proof fn lemma_replay_prefix(
    m: Map<Seq<u8>, (Seq<u8>, Seq<u8>)>,
    c: i64,
    msgs: Seq<Message>,
    i: int,
)
    requires
        0 <= i <= msgs.len(),
    ensures
        frames_effect(
            frames_effect(m, c, msgs, i).0,
            frames_effect(m, c, msgs, i).1,
            msgs,
            i,
        ) == frames_effect(m, c, msgs, i),
{
    let once = frames_effect(m, c, msgs, i);
    let twice = frames_effect(once.0, once.1, msgs, i);
    assert forall|k: Seq<u8>| #[trigger] val_of(twice.0, k) == val_of(once.0, k) by {
        lemma_frames_steps(m, c, msgs, i, k);
        lemma_frames_steps(once.0, once.1, msgs, i, k);
        lemma_run_idempotent(frames_steps_k(msgs, i, k), val_of(m, k));
    }
    assert forall|k: Seq<u8>| #[trigger] twice.0.contains_key(k) implies once.0.contains_key(k)
        && twice.0[k] == once.0[k] by {
        assert(val_of(twice.0, k) == val_of(once.0, k));
    }
    assert forall|k: Seq<u8>| #[trigger] once.0.contains_key(k) implies twice.0.contains_key(
        k,
    ) by {
        assert(val_of(twice.0, k) == val_of(once.0, k));
    }
    assert(twice.0 =~= once.0);
    if exists|j: int| 0 <= j < i && sets_cursor(#[trigger] msgs[j]) {
        lemma_frames_cursor(once.0, m, once.1, c, msgs, i);
    } else {
        lemma_cursor_quiet(m, c, msgs, i);
        lemma_cursor_quiet(once.0, once.1, msgs, i);
    }
}

/// Without a sequence-carrying frame the cursor stays put.
proof fn lemma_cursor_quiet(m: Map<Seq<u8>, (Seq<u8>, Seq<u8>)>, c: i64, msgs: Seq<Message>, i: int)
    requires
        !(exists|j: int| 0 <= j < i && sets_cursor(#[trigger] msgs[j])),
    ensures
        frames_effect(m, c, msgs, i).1 == c,
    decreases i,
{
    if i > 0 {
        assert(!(exists|j: int| 0 <= j < i - 1 && sets_cursor(#[trigger] msgs[j]))) by {
            if exists|j: int| 0 <= j < i - 1 && sets_cursor(#[trigger] msgs[j]) {
                let j = choose|j: int| 0 <= j < i - 1 && sets_cursor(#[trigger] msgs[j]);
                assert(0 <= j < i && sets_cursor(msgs[j]));
            }
        }
        lemma_cursor_quiet(m, c, msgs, i - 1);
        assert(!sets_cursor(msgs[i - 1]));
    }
}

} // verus!

//! Change-stream frames.
//!
//! Each frame is two DAG-CBOR values back to back: a header
//! `{op, t?}` and a body whose schema the type tag `t` selects. An
//! `op` of -1 carries an error body and ends the stream; only `op` 1
//! carries messages.

use vstd::prelude::*;
use vstd::utf8::{decode_utf8, encode_utf8, valid_utf8};

use crate::cbor::{decode_item, dict_get, spec_item, SpecValue, Value, MAX_DEPTH};
use crate::cid::{extract_cid, spec_dag_cid};
use crate::kv::copy_bytes;
use crate::text::bytes_to_string;

verus! {

pub struct RepoOp {
    pub action: String,
    /// The record's CID in binary form, when the op names one.
    pub cid: Option<Vec<u8>>,
    pub path: String,
}

pub struct Commit {
    pub blobs: Vec<Vec<u8>>,
    /// An inline CAR with the blocks the ops refer to.
    pub blocks: Vec<u8>,
    pub commit: Option<Vec<u8>>,
    pub ops: Vec<RepoOp>,
    pub prev: Option<Vec<u8>>,
    pub rebase: bool,
    pub repo: String,
    pub seq: i64,
    pub time: String,
    pub too_big: bool,
}

pub struct Handle {
    pub did: String,
    pub handle: String,
    pub seq: i64,
    pub time: String,
}

pub struct Info {
    pub message: Option<String>,
    pub name: String,
}

pub struct Migrate {
    pub did: String,
    pub migrate_to: Option<String>,
    pub seq: i64,
    pub time: String,
}

pub struct Tombstone {
    pub did: String,
    pub seq: i64,
    pub time: String,
}

pub enum Message {
    Commit(Commit),
    Handle(Handle),
    Info(Info),
    Migrate(Migrate),
    Tombstone(Tombstone),
}

#[derive(Debug)]
pub enum Error {
    /// The stream sent an error frame.
    Firehose { error: String, message: Option<String> },
    /// A header or body fails to decode or has the wrong shape.
    Malformed,
    /// The header's `op` is neither 1 nor -1.
    UnknownOperation(i8),
    /// The header names a message type this protocol does not define.
    UnknownType(String),
}

/// The integer carried by a decoded value.
pub open spec fn spec_int(v: SpecValue) -> Option<int> {
    match v {
        SpecValue::UInt(n) => Some(n as int),
        SpecValue::NInt(n) => Some(-1 - (n as int)),
        _ => None,
    }
}

/// An optional text field: absent or null is no value.
pub open spec fn spec_opt_text(v: Option<SpecValue>) -> Option<Option<Seq<u8>>> {
    match v {
        None => Some(None),
        Some(SpecValue::Null) => Some(None),
        Some(SpecValue::Text(t)) => Some(Some(t)),
        Some(_) => None,
    }
}

/// A required signed 64-bit field.
pub open spec fn field_i64(ss: Seq<(SpecValue, SpecValue)>, key: Seq<u8>, n: i64) -> bool {
    match dict_get(ss, key) {
        Some(v) => spec_int(v) == Some(n as int),
        None => false,
    }
}

/// A required text field.
pub open spec fn field_text(ss: Seq<(SpecValue, SpecValue)>, key: Seq<u8>, t: Seq<char>) -> bool {
    dict_get(ss, key) == Some(SpecValue::Text(encode_utf8(t)))
}

/// An optional text field.
pub open spec fn field_opt_text(
    ss: Seq<(SpecValue, SpecValue)>,
    key: Seq<u8>,
    t: Option<String>,
) -> bool {
    spec_opt_text(dict_get(ss, key)) == Some(
        match t {
            Some(x) => Some(encode_utf8(x@)),
            None => None,
        },
    )
}

/// An optional CID field: absent or null is no value.
pub open spec fn field_opt_cid(
    ss: Seq<(SpecValue, SpecValue)>,
    key: Seq<u8>,
    c: Option<Vec<u8>>,
) -> bool {
    match dict_get(ss, key) {
        None => c is None,
        Some(SpecValue::Null) => c is None,
        Some(sv) => spec_dag_cid(sv) == (match c {
            Some(x) => Some(x@),
            None => None,
        }) && c is Some,
    }
}

/// One commit operation, as decoded.
pub open spec fn op_matches(sv: SpecValue, op: RepoOp) -> bool {
    match sv {
        SpecValue::Dict(ss) => {
            &&& field_text(ss, encode_utf8("action"@), op.action@)
            &&& field_text(ss, encode_utf8("path"@), op.path@)
            &&& field_opt_cid(ss, encode_utf8("cid"@), op.cid)
        },
        _ => false,
    }
}

/// A whole commit body, as decoded.
pub open spec fn commit_matches(sv: SpecValue, c: Commit) -> bool {
    match sv {
        SpecValue::Dict(ss) => {
            &&& field_i64(ss, encode_utf8("seq"@), c.seq)
            &&& field_text(ss, encode_utf8("repo"@), c.repo@)
            &&& field_text(ss, encode_utf8("time"@), c.time@)
            &&& dict_get(ss, encode_utf8("blocks"@)) == Some(SpecValue::Bytes(c.blocks@))
            &&& dict_get(ss, encode_utf8("rebase"@)) == Some(SpecValue::Bool(c.rebase))
            &&& dict_get(ss, encode_utf8("tooBig"@)) == Some(SpecValue::Bool(c.too_big))
            &&& field_opt_cid(ss, encode_utf8("prev"@), c.prev)
            &&& field_opt_cid(ss, encode_utf8("commit"@), c.commit)
            &&& (match dict_get(ss, encode_utf8("ops"@)) {
                Some(SpecValue::Array(os)) => os.len() == c.ops@.len() && forall|i: int|
                    0 <= i < os.len() ==> op_matches(#[trigger] os[i], c.ops@[i]),
                _ => false,
            })
            &&& (match dict_get(ss, encode_utf8("blobs"@)) {
                Some(SpecValue::Array(bl)) => bl.len() == c.blobs@.len() && forall|i: int|
                    0 <= i < bl.len() ==> spec_dag_cid(#[trigger] bl[i]) == Some(c.blobs@[i]@),
                _ => false,
            })
        },
        _ => false,
    }
}

pub open spec fn handle_matches(sv: SpecValue, h: Handle) -> bool {
    match sv {
        SpecValue::Dict(ss) => {
            &&& field_i64(ss, encode_utf8("seq"@), h.seq)
            &&& field_text(ss, encode_utf8("did"@), h.did@)
            &&& field_text(ss, encode_utf8("handle"@), h.handle@)
            &&& field_text(ss, encode_utf8("time"@), h.time@)
        },
        _ => false,
    }
}

pub open spec fn info_matches(sv: SpecValue, x: Info) -> bool {
    match sv {
        SpecValue::Dict(ss) => {
            &&& field_text(ss, encode_utf8("name"@), x.name@)
            &&& field_opt_text(ss, encode_utf8("message"@), x.message)
        },
        _ => false,
    }
}

pub open spec fn migrate_matches(sv: SpecValue, x: Migrate) -> bool {
    match sv {
        SpecValue::Dict(ss) => {
            &&& field_i64(ss, encode_utf8("seq"@), x.seq)
            &&& field_text(ss, encode_utf8("did"@), x.did@)
            &&& field_opt_text(ss, encode_utf8("migrateTo"@), x.migrate_to)
            &&& field_text(ss, encode_utf8("time"@), x.time@)
        },
        _ => false,
    }
}

pub open spec fn tombstone_matches(sv: SpecValue, x: Tombstone) -> bool {
    match sv {
        SpecValue::Dict(ss) => {
            &&& field_i64(ss, encode_utf8("seq"@), x.seq)
            &&& field_text(ss, encode_utf8("did"@), x.did@)
            &&& field_text(ss, encode_utf8("time"@), x.time@)
        },
        _ => false,
    }
}

/// The header and the position of the body behind it.
pub open spec fn spec_frame_header(s: Seq<u8>) -> Option<(int, Option<Seq<u8>>, int)> {
    match spec_item(s, 0, MAX_DEPTH as int) {
        Some((SpecValue::Dict(ss), p)) => {
            match dict_get(ss, encode_utf8("op"@)) {
                Some(opv) => match spec_int(opv) {
                    Some(op) => match spec_opt_text(dict_get(ss, encode_utf8("t"@))) {
                        Some(t) => Some((op, t, p)),
                        None => None,
                    },
                    None => None,
                },
                None => None,
            }
        },
        _ => None,
    }
}

/// The message a well-formed frame carries.
pub open spec fn frame_matches(s: Seq<u8>, m: Message) -> bool {
    match spec_frame_header(s) {
        None => false,
        Some((op, t, p)) => {
            &&& op == 1
            &&& (match spec_item(s, p, MAX_DEPTH as int) {
                Some((bv, _)) => match m {
                    Message::Commit(c) => t == Some(encode_utf8("#commit"@)) && commit_matches(
                        bv,
                        c,
                    ),
                    Message::Handle(h) => t == Some(encode_utf8("#handle"@)) && handle_matches(
                        bv,
                        h,
                    ),
                    Message::Info(x) => t == Some(encode_utf8("#info"@)) && info_matches(bv, x),
                    Message::Migrate(x) => t == Some(encode_utf8("#migrate"@)) && migrate_matches(
                        bv,
                        x,
                    ),
                    Message::Tombstone(x) => t == Some(encode_utf8("#tombstone"@))
                        && tombstone_matches(bv, x),
                },
                None => false,
            })
        },
    }
}

/// A required text field is present, a text item, and decodable.
pub open spec fn text_ok(v: Option<SpecValue>) -> bool {
    match v {
        Some(SpecValue::Text(b)) => valid_utf8(b),
        _ => false,
    }
}

/// An optional text field is absent, null, or a decodable text item.
pub open spec fn opt_text_ok(v: Option<SpecValue>) -> bool {
    match v {
        None => true,
        Some(SpecValue::Null) => true,
        Some(SpecValue::Text(b)) => valid_utf8(b),
        Some(_) => false,
    }
}

/// A required integer field is present and fits a signed 64-bit value.
pub open spec fn i64_ok(v: Option<SpecValue>) -> bool {
    match v {
        Some(sv) => match spec_int(sv) {
            Some(n) => i64::MIN <= n <= i64::MAX,
            None => false,
        },
        None => false,
    }
}

pub open spec fn bool_ok(v: Option<SpecValue>) -> bool {
    v matches Some(SpecValue::Bool(_))
}

pub open spec fn bytes_field_ok(v: Option<SpecValue>) -> bool {
    v matches Some(SpecValue::Bytes(_))
}

/// An optional CID field is absent, null, or a well-formed tagged CID.
pub open spec fn opt_cid_ok(v: Option<SpecValue>) -> bool {
    match v {
        None => true,
        Some(SpecValue::Null) => true,
        Some(sv) => spec_dag_cid(sv) is Some,
    }
}

pub open spec fn op_ok(sv: SpecValue) -> bool {
    match sv {
        SpecValue::Dict(ss) => {
            &&& text_ok(dict_get(ss, encode_utf8("action"@)))
            &&& text_ok(dict_get(ss, encode_utf8("path"@)))
            &&& opt_cid_ok(dict_get(ss, encode_utf8("cid"@)))
        },
        _ => false,
    }
}

/// A commit body decodes: every field of the schema is present with
/// the right shape.
pub open spec fn commit_ok(sv: SpecValue) -> bool {
    match sv {
        SpecValue::Dict(ss) => {
            &&& i64_ok(dict_get(ss, encode_utf8("seq"@)))
            &&& text_ok(dict_get(ss, encode_utf8("repo"@)))
            &&& text_ok(dict_get(ss, encode_utf8("time"@)))
            &&& bytes_field_ok(dict_get(ss, encode_utf8("blocks"@)))
            &&& bool_ok(dict_get(ss, encode_utf8("rebase"@)))
            &&& bool_ok(dict_get(ss, encode_utf8("tooBig"@)))
            &&& opt_cid_ok(dict_get(ss, encode_utf8("prev"@)))
            &&& opt_cid_ok(dict_get(ss, encode_utf8("commit"@)))
            &&& (match dict_get(ss, encode_utf8("ops"@)) {
                Some(SpecValue::Array(os)) => forall|i: int|
                    0 <= i < os.len() ==> op_ok(#[trigger] os[i]),
                _ => false,
            })
            &&& (match dict_get(ss, encode_utf8("blobs"@)) {
                Some(SpecValue::Array(bl)) => forall|i: int|
                    0 <= i < bl.len() ==> spec_dag_cid(#[trigger] bl[i]) is Some,
                _ => false,
            })
        },
        _ => false,
    }
}

pub open spec fn handle_ok(sv: SpecValue) -> bool {
    match sv {
        SpecValue::Dict(ss) => {
            &&& i64_ok(dict_get(ss, encode_utf8("seq"@)))
            &&& text_ok(dict_get(ss, encode_utf8("did"@)))
            &&& text_ok(dict_get(ss, encode_utf8("handle"@)))
            &&& text_ok(dict_get(ss, encode_utf8("time"@)))
        },
        _ => false,
    }
}

pub open spec fn info_ok(sv: SpecValue) -> bool {
    match sv {
        SpecValue::Dict(ss) => {
            &&& text_ok(dict_get(ss, encode_utf8("name"@)))
            &&& opt_text_ok(dict_get(ss, encode_utf8("message"@)))
        },
        _ => false,
    }
}

pub open spec fn migrate_ok(sv: SpecValue) -> bool {
    match sv {
        SpecValue::Dict(ss) => {
            &&& i64_ok(dict_get(ss, encode_utf8("seq"@)))
            &&& text_ok(dict_get(ss, encode_utf8("did"@)))
            &&& opt_text_ok(dict_get(ss, encode_utf8("migrateTo"@)))
            &&& text_ok(dict_get(ss, encode_utf8("time"@)))
        },
        _ => false,
    }
}

pub open spec fn tombstone_ok(sv: SpecValue) -> bool {
    match sv {
        SpecValue::Dict(ss) => {
            &&& i64_ok(dict_get(ss, encode_utf8("seq"@)))
            &&& text_ok(dict_get(ss, encode_utf8("did"@)))
            &&& text_ok(dict_get(ss, encode_utf8("time"@)))
        },
        _ => false,
    }
}

/// An error body decodes: a reason and an optional message.
pub open spec fn err_body_ok(sv: SpecValue) -> bool {
    match sv {
        SpecValue::Dict(ss) => {
            &&& text_ok(dict_get(ss, encode_utf8("error"@)))
            &&& opt_text_ok(dict_get(ss, encode_utf8("message"@)))
        },
        _ => false,
    }
}

/// One of the five message type tags this protocol defines.
pub open spec fn known_type(tb: Seq<u8>) -> bool {
    ||| tb == encode_utf8("#commit"@)
    ||| tb == encode_utf8("#handle"@)
    ||| tb == encode_utf8("#info"@)
    ||| tb == encode_utf8("#migrate"@)
    ||| tb == encode_utf8("#tombstone"@)
}

pub open spec fn body_ok(tb: Seq<u8>, bv: SpecValue) -> bool {
    if tb == encode_utf8("#commit"@) {
        commit_ok(bv)
    } else if tb == encode_utf8("#handle"@) {
        handle_ok(bv)
    } else if tb == encode_utf8("#info"@) {
        info_ok(bv)
    } else if tb == encode_utf8("#migrate"@) {
        migrate_ok(bv)
    } else if tb == encode_utf8("#tombstone"@) {
        tombstone_ok(bv)
    } else {
        false
    }
}

/// The header parses and its type tag, when present, is decodable.
pub open spec fn header_ok(s: Seq<u8>) -> bool {
    match spec_frame_header(s) {
        Some((op, t, p)) => match t {
            Some(tb) => valid_utf8(tb),
            None => true,
        },
        None => false,
    }
}

/// The whole frame is well-formed: a message of one of the five types.
/// `Message::parse` succeeds exactly on such frames.
pub open spec fn frame_ok(s: Seq<u8>) -> bool {
    match spec_frame_header(s) {
        Some((op, t, p)) => op == 1 && (match t {
            Some(tb) => known_type(tb) && (match spec_item(s, p, MAX_DEPTH as int) {
                Some((bv, _)) => body_ok(tb, bv),
                None => false,
            }),
            None => false,
        }),
        None => false,
    }
}

/// The frame is a stream error with the given reason fields.
pub open spec fn err_frame_matches(s: Seq<u8>, e: Seq<char>, msg: Option<String>) -> bool {
    match spec_frame_header(s) {
        Some((op, _t, p)) => op == -1 && (match spec_item(s, p, MAX_DEPTH as int) {
            Some((bv, _)) => match bv {
                SpecValue::Dict(ss) => field_text(ss, encode_utf8("error"@), e) && field_opt_text(
                    ss,
                    encode_utf8("message"@),
                    msg,
                ),
                _ => false,
            },
            None => false,
        }),
        None => false,
    }
}

/// The frame is a well-formed stream error.
pub open spec fn err_frame_ok(s: Seq<u8>) -> bool {
    match spec_frame_header(s) {
        Some((op, t, p)) => header_ok(s) && op == -1 && (match spec_item(
            s,
            p,
            MAX_DEPTH as int,
        ) {
            Some((bv, _)) => err_body_ok(bv),
            None => false,
        }),
        None => false,
    }
}

/// The header carries an unknown operation: an `op` in range but
/// neither a message nor a stream error.
pub open spec fn unknown_op_frame(s: Seq<u8>) -> bool {
    match spec_frame_header(s) {
        Some((op, t, p)) => header_ok(s) && i8::MIN <= op <= i8::MAX && op != 1 && op != -1,
        None => false,
    }
}

/// A message frame whose type tag is absent or not one of the five.
pub open spec fn unknown_type_frame(s: Seq<u8>) -> bool {
    match spec_frame_header(s) {
        Some((op, t, p)) => header_ok(s) && op == 1 && (match t {
            Some(tb) => !known_type(tb),
            None => true,
        }),
        None => false,
    }
}

pub open spec fn is_firehose_err(r: Result<Message, Error>) -> bool {
    match r {
        Err(Error::Firehose { .. }) => true,
        _ => false,
    }
}

pub open spec fn is_unknown_op_err(r: Result<Message, Error>) -> bool {
    match r {
        Err(Error::UnknownOperation(_)) => true,
        _ => false,
    }
}

pub open spec fn is_unknown_type_err(r: Result<Message, Error>) -> bool {
    match r {
        Err(Error::UnknownType(_)) => true,
        _ => false,
    }
}

/// A commit body some `Commit` matches is well-formed.
proof fn lemma_commit_matches_ok(bv: SpecValue, c: Commit)
    requires
        commit_matches(bv, c),
    ensures
        commit_ok(bv),
{
    let ss = bv->Dict_0;
    vstd::utf8::encode_utf8_valid_utf8(c.repo@);
    vstd::utf8::encode_utf8_valid_utf8(c.time@);
    match dict_get(ss, encode_utf8("ops"@)) {
        Some(SpecValue::Array(os)) => {
            assert forall|i: int| 0 <= i < os.len() implies op_ok(#[trigger] os[i]) by {
                assert(op_matches(os[i], c.ops@[i]));
                let op = c.ops@[i];
                vstd::utf8::encode_utf8_valid_utf8(op.action@);
                vstd::utf8::encode_utf8_valid_utf8(op.path@);
            }
        },
        _ => {},
    }
}

/// A body some message matches is well-formed.
proof fn lemma_body_matches_ok(tb: Seq<u8>, bv: SpecValue, m: Message)
    requires
        match m {
            Message::Commit(c) => tb == encode_utf8("#commit"@) && commit_matches(bv, c),
            Message::Handle(h) => tb == encode_utf8("#handle"@) && handle_matches(bv, h),
            Message::Info(x) => tb == encode_utf8("#info"@) && info_matches(bv, x),
            Message::Migrate(x) => tb == encode_utf8("#migrate"@) && migrate_matches(bv, x),
            Message::Tombstone(x) => tb == encode_utf8("#tombstone"@) && tombstone_matches(bv, x),
        },
    ensures
        known_type(tb),
        body_ok(tb, bv),
{
    match m {
        Message::Commit(c) => {
            lemma_commit_matches_ok(bv, c);
            assert(body_ok(tb, bv));
        },
        Message::Handle(h) => {
            vstd::utf8::encode_utf8_valid_utf8(h.did@);
            vstd::utf8::encode_utf8_valid_utf8(h.handle@);
            vstd::utf8::encode_utf8_valid_utf8(h.time@);
            lemma_tags_distinct();
            assert(handle_ok(bv));
            assert(body_ok(tb, bv));
        },
        Message::Info(x) => {
            vstd::utf8::encode_utf8_valid_utf8(x.name@);
            match x.message {
                Some(ms) => vstd::utf8::encode_utf8_valid_utf8(ms@),
                None => (),
            }
            lemma_tags_distinct();
            assert(info_ok(bv));
            assert(body_ok(tb, bv));
        },
        Message::Migrate(x) => {
            vstd::utf8::encode_utf8_valid_utf8(x.did@);
            vstd::utf8::encode_utf8_valid_utf8(x.time@);
            match x.migrate_to {
                Some(mt) => vstd::utf8::encode_utf8_valid_utf8(mt@),
                None => (),
            }
            lemma_tags_distinct();
            assert(migrate_ok(bv));
            assert(body_ok(tb, bv));
        },
        Message::Tombstone(x) => {
            vstd::utf8::encode_utf8_valid_utf8(x.did@);
            vstd::utf8::encode_utf8_valid_utf8(x.time@);
            lemma_tags_distinct();
            assert(tombstone_ok(bv));
            assert(body_ok(tb, bv));
        },
    }
}

/// The five type tags differ pairwise.
proof fn lemma_tags_distinct()
    ensures
        encode_utf8("#commit"@) != encode_utf8("#handle"@),
        encode_utf8("#commit"@) != encode_utf8("#info"@),
        encode_utf8("#commit"@) != encode_utf8("#migrate"@),
        encode_utf8("#commit"@) != encode_utf8("#tombstone"@),
        encode_utf8("#handle"@) != encode_utf8("#info"@),
        encode_utf8("#handle"@) != encode_utf8("#migrate"@),
        encode_utf8("#handle"@) != encode_utf8("#tombstone"@),
        encode_utf8("#info"@) != encode_utf8("#migrate"@),
        encode_utf8("#info"@) != encode_utf8("#tombstone"@),
        encode_utf8("#migrate"@) != encode_utf8("#tombstone"@),
{
    reveal_strlit("#commit");
    reveal_strlit("#handle");
    reveal_strlit("#info");
    reveal_strlit("#migrate");
    reveal_strlit("#tombstone");
    assert("#commit"@.len() == 7);
    assert("#handle"@.len() == 7);
    assert("#info"@.len() == 5);
    assert("#migrate"@.len() == 8);
    assert("#tombstone"@.len() == 10);
    assert("#commit"@[1] == 'c');
    assert("#handle"@[1] == 'h');
    lemma_text_neq("#commit"@, "#handle"@);
    lemma_text_neq("#commit"@, "#info"@);
    lemma_text_neq("#commit"@, "#migrate"@);
    lemma_text_neq("#commit"@, "#tombstone"@);
    lemma_text_neq("#handle"@, "#info"@);
    lemma_text_neq("#handle"@, "#migrate"@);
    lemma_text_neq("#handle"@, "#tombstone"@);
    lemma_text_neq("#info"@, "#migrate"@);
    lemma_text_neq("#info"@, "#tombstone"@);
    lemma_text_neq("#migrate"@, "#tombstone"@);
}

/// Different texts have different encodings.
proof fn lemma_text_neq(a: Seq<char>, b: Seq<char>)
    requires
        a != b,
    ensures
        encode_utf8(a) != encode_utf8(b),
{
    if encode_utf8(a) == encode_utf8(b) {
        vstd::utf8::encode_utf8_decode_utf8(a);
        vstd::utf8::encode_utf8_decode_utf8(b);
    }
}

/// A frame some message matches is well-formed, so refusing it is
/// never right: `parse` owes success on it.
pub proof fn lemma_frame_matches_ok(s: Seq<u8>, m: Message)
    requires
        frame_matches(s, m),
    ensures
        frame_ok(s),
{
    match spec_frame_header(s) {
        Some((op, t, p)) => {
            match spec_item(s, p, MAX_DEPTH as int) {
                Some((bv, _)) => {
                    lemma_body_matches_ok(t->Some_0, bv, m);
                },
                None => {},
            }
        },
        None => {},
    }
}

impl Message {
    /// Split a frame into header and body and decode the message.
    ///
    /// Succeeds exactly on well-formed frames; an error frame, an
    /// unknown operation and an unknown type each come back as their
    /// own error kind.
    pub fn parse(buf: &[u8]) -> (r: Result<Message, Error>)
        ensures
            r matches Ok(m) ==> frame_matches(buf@, m),
            r is Ok <==> frame_ok(buf@),
            r is Err ==> forall|m: Message| !frame_matches(buf@, m),
            is_firehose_err(r) <==> err_frame_ok(buf@),
            r matches Err(Error::Firehose { error, message }) ==> err_frame_matches(
                buf@,
                error@,
                message,
            ),
            is_unknown_op_err(r) <==> unknown_op_frame(buf@),
            r matches Err(Error::UnknownOperation(o)) ==> spec_frame_header(buf@) matches Some(h)
                && h.0 == o as int,
            is_unknown_type_err(r) <==> unknown_type_frame(buf@),
            r matches Err(Error::UnknownType(tn)) ==> spec_frame_header(buf@) matches Some(h) && (
            match h.1 {
                Some(tb) => tb == encode_utf8(tn@),
                None => encode_utf8(tn@) == Seq::<u8>::empty(),
            }),
    {
        let r = parse_frame(buf);
        proof {
            if r is Err {
                assert forall|m: Message| !frame_matches(buf@, m) by {
                    if frame_matches(buf@, m) {
                        lemma_frame_matches_ok(buf@, m);
                    }
                }
            }
        }
        r
    }
}

#[verifier::rlimit(100)]
fn parse_frame(buf: &[u8]) -> (r: Result<Message, Error>)
    ensures
        r matches Ok(m) ==> frame_matches(buf@, m),
        r is Ok <==> frame_ok(buf@),
        is_firehose_err(r) <==> err_frame_ok(buf@),
        r matches Err(Error::Firehose { error, message }) ==> err_frame_matches(
            buf@,
            error@,
            message,
        ),
        is_unknown_op_err(r) <==> unknown_op_frame(buf@),
        r matches Err(Error::UnknownOperation(o)) ==> spec_frame_header(buf@) matches Some(h)
            && h.0 == o as int,
        is_unknown_type_err(r) <==> unknown_type_frame(buf@),
        r matches Err(Error::UnknownType(tn)) ==> spec_frame_header(buf@) matches Some(h) && (
        match h.1 {
            Some(tb) => tb == encode_utf8(tn@),
            None => encode_utf8(tn@) == Seq::<u8>::empty(),
        }),
{
    let (hv, p) = match decode_item(buf, 0, MAX_DEPTH) {
        Some(x) => x,
        None => {
            return Err(Error::Malformed);
        },
    };
    let ghost hsv = spec_item(buf@, 0, MAX_DEPTH as int)->Some_0.0;
    proof {
        crate::cbor::lemma_rep_inversion(hv, hsv);
    }
    let hitems = match &hv {
        Value::Dict(m) => m,
        _ => {
            proof {
                if hsv matches SpecValue::Dict(_) {
                    assert(false);
                }
            }
            return Err(Error::Malformed);
        },
    };
    let ghost hss = hsv->Dict_0;
    proof {
        crate::cbor::lemma_rep_inversion(hv, hsv);
    }
    let op_v = match crate::cbor::dict_get_exec(hitems, "op".as_bytes(), Ghost(hss)) {
        Some(v) => v,
        None => {
            return Err(Error::Malformed);
        },
    };
    let ghost opv = dict_get(hss, encode_utf8("op"@))->Some_0;
    proof {
        crate::cbor::lemma_rep_inversion(*op_v, opv);
    }
    let op: i64 = match op_v {
        Value::UInt(n) => {
            if *n > 127 {
                proof {
                    lemma_header_op(buf@, hss, *n as int);
                }
                return Err(Error::Malformed);
            }
            *n as i64
        },
        Value::NInt(n) => {
            if *n > 127 {
                proof {
                    lemma_header_op(buf@, hss, -1 - (*n as int));
                }
                return Err(Error::Malformed);
            }
            -1 - (*n as i64)
        },
        _ => {
            proof {
                if opv matches SpecValue::UInt(_) {
                    assert(false);
                }
                if opv matches SpecValue::NInt(_) {
                    assert(false);
                }
            }
            return Err(Error::Malformed);
        },
    };
    let t: Option<String> = match crate::cbor::dict_get_exec(hitems, "t".as_bytes(), Ghost(hss)) {
        None => None,
        Some(v) => {
            let ghost tsv = dict_get(hss, encode_utf8("t"@))->Some_0;
            proof {
                crate::cbor::lemma_rep_inversion(*v, tsv);
            }
            match v {
                Value::Null => None,
                Value::Text(tb) => {
                    match bytes_to_string(copy_bytes(tb.as_slice())) {
                        Some(s) => {
                            proof {
                                vstd::utf8::decode_utf8_encode_utf8(tb@);
                            }
                            Some(s)
                        },
                        None => {
                            // The type tag is present but not decodable:
                            // no frame with this header is well-formed.
                            proof {
                                lemma_bad_tag(buf@, hss, op as int, tb@);
                            }
                            return Err(Error::Malformed);
                        },
                    }
                },
                _ => {
                    proof {
                        if tsv matches SpecValue::Text(_) {
                            assert(false);
                        }
                        if tsv is Null {
                            assert(false);
                        }
                    }
                    return Err(Error::Malformed);
                },
            }
        },
    };
    let ghost topt: Option<Seq<u8>> = if t is Some {
        Some(encode_utf8(t->Some_0@))
    } else {
        None
    };
    proof {
        assert(spec_frame_header(buf@) == Some((op as int, topt, p as int)));
        assert(header_ok(buf@));
    }
    if op == -1 {
        // An error frame: its body ends the stream.
        let (bv, _p2) = match decode_item(buf, p, MAX_DEPTH) {
            Some(x) => x,
            None => {
                return Err(Error::Malformed);
            },
        };
        let ghost bsv = spec_item(buf@, p as int, MAX_DEPTH as int)->Some_0.0;
        proof {
            crate::cbor::lemma_rep_inversion(bv, bsv);
        }
        let bitems = match &bv {
            Value::Dict(m) => m,
            _ => {
                proof {
                    if bsv matches SpecValue::Dict(_) {
                        assert(false);
                    }
                }
                return Err(Error::Malformed);
            },
        };
        let ghost bss = bsv->Dict_0;
        let error = match req_text(bitems, "error".as_bytes(), Ghost(bss)) {
            Ok(x) => x,
            Err(e) => {
                return Err(e);
            },
        };
        let message = match opt_text(bitems, "message".as_bytes(), Ghost(bss)) {
            Ok(x) => x,
            Err(e) => {
                return Err(e);
            },
        };
        return Err(Error::Firehose { error, message });
    }
    if op != 1 {
        return Err(Error::UnknownOperation(op as i8));
    }
    let tname = match t {
        Some(t) => t,
        None => {
            proof {
                reveal_strlit("");
                assert(encode_utf8(""@) =~= Seq::<u8>::empty());
            }
            return Err(Error::UnknownType(String::new()));
        },
    };
    proof {
        assert(spec_frame_header(buf@) == Some((1int, Some(encode_utf8(tname@)), p as int)));
    }
    let is_commit = str_eq(tname.as_str(), "#commit");
    let is_handle = str_eq(tname.as_str(), "#handle");
    let is_info = str_eq(tname.as_str(), "#info");
    let is_migrate = str_eq(tname.as_str(), "#migrate");
    let is_tombstone = str_eq(tname.as_str(), "#tombstone");
    if !(is_commit || is_handle || is_info || is_migrate || is_tombstone) {
        return Err(Error::UnknownType(tname));
    }
    let (bv, _p2) = match decode_item(buf, p, MAX_DEPTH) {
        Some(x) => x,
        None => {
            return Err(Error::Malformed);
        },
    };
    let ghost bsv = spec_item(buf@, p as int, MAX_DEPTH as int)->Some_0.0;
    proof {
        crate::cbor::lemma_rep_inversion(bv, bsv);
    }
    if is_commit {
        match parse_commit(&bv, Ghost(bsv)) {
            Ok(c) => Ok(Message::Commit(c)),
            Err(e) => Err(e),
        }
    } else if is_handle {
        match parse_handle(&bv, Ghost(bsv)) {
            Ok(h) => Ok(Message::Handle(h)),
            Err(e) => Err(e),
        }
    } else if is_info {
        match parse_info(&bv, Ghost(bsv)) {
            Ok(x) => Ok(Message::Info(x)),
            Err(e) => Err(e),
        }
    } else if is_migrate {
        match parse_migrate(&bv, Ghost(bsv)) {
            Ok(x) => Ok(Message::Migrate(x)),
            Err(e) => Err(e),
        }
    } else {
        match parse_tombstone(&bv, Ghost(bsv)) {
            Ok(x) => Ok(Message::Tombstone(x)),
            Err(e) => Err(e),
        }
    }
}

/// The header's operation value is fixed by its `op` field.
proof fn lemma_header_op(s: Seq<u8>, hss: Seq<(SpecValue, SpecValue)>, op: int)
    requires
        spec_item(s, 0, MAX_DEPTH as int) matches Some(q) && q.0 == SpecValue::Dict(hss),
        dict_get(hss, encode_utf8("op"@)) matches Some(opv) && spec_int(opv) == Some(op),
    ensures
        spec_frame_header(s) matches Some(h) ==> h.0 == op,
{
}

/// A type tag that is not decodable rules the whole header out.
proof fn lemma_bad_tag(s: Seq<u8>, hss: Seq<(SpecValue, SpecValue)>, op: int, tb: Seq<u8>)
    requires
        spec_item(s, 0, MAX_DEPTH as int) matches Some(q) && q.0 == SpecValue::Dict(hss),
        dict_get(hss, encode_utf8("t"@)) == Some(SpecValue::Text(tb)),
        !valid_utf8(tb),
    ensures
        !header_ok(s),
        !frame_ok(s),
        !err_frame_ok(s),
        !unknown_op_frame(s),
        !unknown_type_frame(s),
{
    match spec_frame_header(s) {
        Some((op2, t2, p2)) => {
            assert(t2 == Some(tb));
            if known_type(tb) {
                vstd::utf8::encode_utf8_valid_utf8("#commit"@);
                vstd::utf8::encode_utf8_valid_utf8("#handle"@);
                vstd::utf8::encode_utf8_valid_utf8("#info"@);
                vstd::utf8::encode_utf8_valid_utf8("#migrate"@);
                vstd::utf8::encode_utf8_valid_utf8("#tombstone"@);
            }
        },
        None => {},
    }
}

/// Compare two strings by bytes.
pub fn str_eq(a: &str, b: &str) -> (r: bool)
    ensures
        r <==> encode_utf8(a@) == encode_utf8(b@),
{
    crate::bytes::bytes_eq(a.as_bytes(), b.as_bytes())
}

/// A required text field of a decoded map.
fn req_text(
    items: &Vec<(Value, Value)>,
    key: &[u8],
    Ghost(ss): Ghost<Seq<(SpecValue, SpecValue)>>,
) -> (r: Result<String, Error>)
    requires
        ss.len() == items@.len(),
        forall|i: int|
            0 <= i < ss.len() ==> crate::cbor::rep(#[trigger] items@[i].0, ss[i].0)
                && crate::cbor::rep(items@[i].1, ss[i].1),
    ensures
        r matches Ok(s) ==> dict_get(ss, key@) == Some(SpecValue::Text(encode_utf8(s@)))
            && text_ok(dict_get(ss, key@)),
        r is Err ==> !text_ok(dict_get(ss, key@)) && r matches Err(Error::Malformed),
{
    match crate::cbor::dict_get_exec(items, key, Ghost(ss)) {
        Some(v) => {
            let ghost sv = dict_get(ss, key@)->Some_0;
            proof {
                crate::cbor::lemma_rep_inversion(*v, sv);
            }
            match v {
                Value::Text(tb) => match bytes_to_string(copy_bytes(tb.as_slice())) {
                    Some(s) => {
                        proof {
                            vstd::utf8::decode_utf8_encode_utf8(tb@);
                        }
                        Ok(s)
                    },
                    None => Err(Error::Malformed),
                },
                _ => {
                    proof {
                        if sv matches SpecValue::Text(_) {
                            assert(false);
                        }
                    }
                    Err(Error::Malformed)
                },
            }
        },
        None => Err(Error::Malformed),
    }
}

/// An optional text field of a decoded map.
fn opt_text(
    items: &Vec<(Value, Value)>,
    key: &[u8],
    Ghost(ss): Ghost<Seq<(SpecValue, SpecValue)>>,
) -> (r: Result<Option<String>, Error>)
    requires
        ss.len() == items@.len(),
        forall|i: int|
            0 <= i < ss.len() ==> crate::cbor::rep(#[trigger] items@[i].0, ss[i].0)
                && crate::cbor::rep(items@[i].1, ss[i].1),
    ensures
        r matches Ok(t) ==> spec_opt_text(dict_get(ss, key@)) == Some(
            match t {
                Some(x) => Some(encode_utf8(x@)),
                None => None,
            },
        ) && opt_text_ok(dict_get(ss, key@)),
        r is Err ==> !opt_text_ok(dict_get(ss, key@)) && r matches Err(Error::Malformed),
{
    match crate::cbor::dict_get_exec(items, key, Ghost(ss)) {
        None => Ok(None),
        Some(v) => {
            let ghost sv = dict_get(ss, key@)->Some_0;
            proof {
                crate::cbor::lemma_rep_inversion(*v, sv);
            }
            match v {
                Value::Null => Ok(None),
                Value::Text(tb) => match bytes_to_string(copy_bytes(tb.as_slice())) {
                    Some(s) => {
                        proof {
                            vstd::utf8::decode_utf8_encode_utf8(tb@);
                        }
                        Ok(Some(s))
                    },
                    None => Err(Error::Malformed),
                },
                _ => {
                    proof {
                        if sv matches SpecValue::Text(_) {
                            assert(false);
                        }
                        if sv is Null {
                            assert(false);
                        }
                    }
                    Err(Error::Malformed)
                },
            }
        },
    }
}

/// A required signed 64-bit field of a decoded map.
fn req_i64(
    items: &Vec<(Value, Value)>,
    key: &[u8],
    Ghost(ss): Ghost<Seq<(SpecValue, SpecValue)>>,
) -> (r: Result<i64, Error>)
    requires
        ss.len() == items@.len(),
        forall|i: int|
            0 <= i < ss.len() ==> crate::cbor::rep(#[trigger] items@[i].0, ss[i].0)
                && crate::cbor::rep(items@[i].1, ss[i].1),
    ensures
        r matches Ok(n) ==> field_i64(ss, key@, n) && i64_ok(dict_get(ss, key@)),
        r is Err ==> !i64_ok(dict_get(ss, key@)) && r matches Err(Error::Malformed),
{
    match crate::cbor::dict_get_exec(items, key, Ghost(ss)) {
        Some(v) => {
            let ghost sv = dict_get(ss, key@)->Some_0;
            proof {
                crate::cbor::lemma_rep_inversion(*v, sv);
            }
            match v {
                Value::UInt(n) => {
                    if *n > i64::MAX as u64 {
                        Err(Error::Malformed)
                    } else {
                        Ok(*n as i64)
                    }
                },
                Value::NInt(n) => {
                    if *n >= i64::MAX as u64 + 1 {
                        Err(Error::Malformed)
                    } else {
                        Ok(-1 - (*n as i64))
                    }
                },
                _ => {
                    proof {
                        if sv matches SpecValue::UInt(_) {
                            assert(false);
                        }
                        if sv matches SpecValue::NInt(_) {
                            assert(false);
                        }
                    }
                    Err(Error::Malformed)
                },
            }
        },
        None => Err(Error::Malformed),
    }
}

/// A required boolean field of a decoded map.
fn req_bool(
    items: &Vec<(Value, Value)>,
    key: &[u8],
    Ghost(ss): Ghost<Seq<(SpecValue, SpecValue)>>,
) -> (r: Result<bool, Error>)
    requires
        ss.len() == items@.len(),
        forall|i: int|
            0 <= i < ss.len() ==> crate::cbor::rep(#[trigger] items@[i].0, ss[i].0)
                && crate::cbor::rep(items@[i].1, ss[i].1),
    ensures
        r matches Ok(b) ==> dict_get(ss, key@) == Some(SpecValue::Bool(b)) && bool_ok(
            dict_get(ss, key@),
        ),
        r is Err ==> !bool_ok(dict_get(ss, key@)) && r matches Err(Error::Malformed),
{
    match crate::cbor::dict_get_exec(items, key, Ghost(ss)) {
        Some(v) => {
            let ghost sv = dict_get(ss, key@)->Some_0;
            proof {
                crate::cbor::lemma_rep_inversion(*v, sv);
            }
            match v {
                Value::Bool(b) => Ok(*b),
                _ => {
                    proof {
                        if sv matches SpecValue::Bool(_) {
                            assert(false);
                        }
                    }
                    Err(Error::Malformed)
                },
            }
        },
        None => Err(Error::Malformed),
    }
}

/// An optional CID field of a decoded map.
fn opt_cid(
    items: &Vec<(Value, Value)>,
    key: &[u8],
    Ghost(ss): Ghost<Seq<(SpecValue, SpecValue)>>,
) -> (r: Result<Option<Vec<u8>>, Error>)
    requires
        ss.len() == items@.len(),
        forall|i: int|
            0 <= i < ss.len() ==> crate::cbor::rep(#[trigger] items@[i].0, ss[i].0)
                && crate::cbor::rep(items@[i].1, ss[i].1),
    ensures
        r matches Ok(c) ==> field_opt_cid(ss, key@, c) && opt_cid_ok(dict_get(ss, key@)),
        r is Err ==> !opt_cid_ok(dict_get(ss, key@)) && r matches Err(Error::Malformed),
{
    match crate::cbor::dict_get_exec(items, key, Ghost(ss)) {
        None => Ok(None),
        Some(v) => {
            let ghost sv = dict_get(ss, key@)->Some_0;
            proof {
                crate::cbor::lemma_rep_inversion(*v, sv);
            }
            match v {
                Value::Null => Ok(None),
                _ => match extract_cid(v, Ghost(sv)) {
                    Ok(c) => {
                        proof {
                            if sv is Null {
                                assert(false);
                            }
                        }
                        Ok(Some(c))
                    },
                    Err(_) => {
                        proof {
                            if sv is Null {
                                assert(false);
                            }
                        }
                        Err(Error::Malformed)
                    },
                },
            }
        },
    }
}

/// One bad op breaks the whole commit body.
proof fn lemma_bad_op(bsv: SpecValue, ss: Seq<(SpecValue, SpecValue)>, os: Seq<SpecValue>, i: int)
    requires
        bsv == SpecValue::Dict(ss),
        dict_get(ss, encode_utf8("ops"@)) == Some(SpecValue::Array(os)),
        0 <= i < os.len(),
        !op_ok(os[i]),
    ensures
        !commit_ok(bsv),
{
    if commit_ok(bsv) {
        assert(dict_get(ss, encode_utf8("ops"@))->Some_0->Array_0 == os);
        assert(op_ok(dict_get(ss, encode_utf8("ops"@))->Some_0->Array_0[i]));
        assert(op_ok(os[i]));
    }
}

fn parse_commit(bv: &Value, Ghost(bsv): Ghost<SpecValue>) -> (r: Result<Commit, Error>)
    requires
        crate::cbor::rep(*bv, bsv),
    ensures
        r matches Ok(c) ==> commit_matches(bsv, c),
        r is Ok <==> commit_ok(bsv),
        r is Err ==> r matches Err(Error::Malformed),
{
    proof {
        crate::cbor::lemma_rep_inversion(*bv, bsv);
    }
    let items = match bv {
        Value::Dict(m) => m,
        _ => {
            proof {
                if bsv matches SpecValue::Dict(_) {
                    assert(false);
                }
            }
            return Err(Error::Malformed);
        },
    };
    let ghost ss = bsv->Dict_0;
    let seq = match req_i64(items, "seq".as_bytes(), Ghost(ss)) {
        Ok(x) => x,
        Err(e) => {
            return Err(e);
        },
    };
    let repo = match req_text(items, "repo".as_bytes(), Ghost(ss)) {
        Ok(x) => x,
        Err(e) => {
            return Err(e);
        },
    };
    let time = match req_text(items, "time".as_bytes(), Ghost(ss)) {
        Ok(x) => x,
        Err(e) => {
            return Err(e);
        },
    };
    let rebase = match req_bool(items, "rebase".as_bytes(), Ghost(ss)) {
        Ok(x) => x,
        Err(e) => {
            return Err(e);
        },
    };
    let too_big = match req_bool(items, "tooBig".as_bytes(), Ghost(ss)) {
        Ok(x) => x,
        Err(e) => {
            return Err(e);
        },
    };
    proof {
        crate::cbor::lemma_rep_inversion(*bv, bsv);
    }
    let prev = match opt_cid(items, "prev".as_bytes(), Ghost(ss)) {
        Ok(x) => x,
        Err(e) => {
            return Err(e);
        },
    };
    let commit = match opt_cid(items, "commit".as_bytes(), Ghost(ss)) {
        Ok(x) => x,
        Err(e) => {
            return Err(e);
        },
    };
    let blocks = match crate::cbor::dict_get_exec(items, "blocks".as_bytes(), Ghost(ss)) {
        Some(v) => {
            proof {
                crate::cbor::lemma_rep_inversion(
                    *v,
                    dict_get(ss, encode_utf8("blocks"@))->Some_0,
                );
            }
            match v {
                Value::Bytes(b) => copy_bytes(b.as_slice()),
                _ => {
                    proof {
                        if dict_get(ss, encode_utf8("blocks"@))->Some_0 matches SpecValue::Bytes(
                            _,
                        ) {
                            assert(false);
                        }
                    }
                    return Err(Error::Malformed);
                },
            }
        },
        None => {
            return Err(Error::Malformed);
        },
    };
    // ops
    let ops_v = match crate::cbor::dict_get_exec(items, "ops".as_bytes(), Ghost(ss)) {
        Some(v) => v,
        None => {
            return Err(Error::Malformed);
        },
    };
    let ghost ops_sv = dict_get(ss, encode_utf8("ops"@))->Some_0;
    proof {
        crate::cbor::lemma_rep_inversion(*ops_v, ops_sv);
    }
    let op_items = match ops_v {
        Value::Array(a) => a,
        _ => {
            proof {
                if ops_sv matches SpecValue::Array(_) {
                    assert(false);
                }
            }
            return Err(Error::Malformed);
        },
    };
    let ghost os = ops_sv->Array_0;
    let mut ops: Vec<RepoOp> = Vec::new();
    let nops = op_items.len();
    let mut i: usize = 0;
    while i < nops
        invariant
            bsv == SpecValue::Dict(ss),
            dict_get(ss, encode_utf8("ops"@)) == Some(SpecValue::Array(os)),
            i64_ok(dict_get(ss, encode_utf8("seq"@))),
            text_ok(dict_get(ss, encode_utf8("repo"@))),
            text_ok(dict_get(ss, encode_utf8("time"@))),
            bytes_field_ok(dict_get(ss, encode_utf8("blocks"@))),
            bool_ok(dict_get(ss, encode_utf8("rebase"@))),
            bool_ok(dict_get(ss, encode_utf8("tooBig"@))),
            opt_cid_ok(dict_get(ss, encode_utf8("prev"@))),
            opt_cid_ok(dict_get(ss, encode_utf8("commit"@))),
            nops == op_items@.len(),
            os.len() == nops,
            i <= nops,
            forall|j: int| 0 <= j < os.len() ==> crate::cbor::rep(op_items@[j], #[trigger] os[j]),
            ops@.len() == i,
            forall|j: int| 0 <= j < i ==> op_matches(#[trigger] os[j], ops@[j]),
            forall|j: int| 0 <= j < i ==> op_ok(#[trigger] os[j]),
        decreases nops - i,
    {
        let ghost osv = os[i as int];
        proof {
            crate::cbor::lemma_rep_inversion(op_items@[i as int], osv);
        }
        let oi = match &op_items[i] {
            Value::Dict(m) => m,
            _ => {
                proof {
                    if osv matches SpecValue::Dict(_) {
                        assert(false);
                    }
                    assert(!op_ok(os[i as int]));
                    lemma_bad_op(bsv, ss, os, i as int);
                }
                return Err(Error::Malformed);
            },
        };
        let ghost ois = osv->Dict_0;
        let action = match req_text(oi, "action".as_bytes(), Ghost(ois)) {
            Ok(x) => x,
            Err(e) => {
                proof {
                    assert(!op_ok(os[i as int]));
                    lemma_bad_op(bsv, ss, os, i as int);
                }
                return Err(e);
            },
        };
        let path = match req_text(oi, "path".as_bytes(), Ghost(ois)) {
            Ok(x) => x,
            Err(e) => {
                proof {
                    assert(!op_ok(os[i as int]));
                    lemma_bad_op(bsv, ss, os, i as int);
                }
                return Err(e);
            },
        };
        let cid = match opt_cid(oi, "cid".as_bytes(), Ghost(ois)) {
            Ok(x) => x,
            Err(e) => {
                proof {
                    assert(!op_ok(os[i as int]));
                    lemma_bad_op(bsv, ss, os, i as int);
                }
                return Err(e);
            },
        };
        proof {
            assert(op_ok(os[i as int]));
        }
        ops.push(RepoOp { action, cid, path });
        i = i + 1;
    }
    // blobs
    let blobs_v = match crate::cbor::dict_get_exec(items, "blobs".as_bytes(), Ghost(ss)) {
        Some(v) => v,
        None => {
            return Err(Error::Malformed);
        },
    };
    let ghost blobs_sv = dict_get(ss, encode_utf8("blobs"@))->Some_0;
    proof {
        crate::cbor::lemma_rep_inversion(*blobs_v, blobs_sv);
    }
    let blob_items = match blobs_v {
        Value::Array(a) => a,
        _ => {
            proof {
                if blobs_sv matches SpecValue::Array(_) {
                    assert(false);
                }
            }
            return Err(Error::Malformed);
        },
    };
    let ghost bl = blobs_sv->Array_0;
    let mut blobs: Vec<Vec<u8>> = Vec::new();
    let nb = blob_items.len();
    let mut i2: usize = 0;
    while i2 < nb
        invariant
            bsv == SpecValue::Dict(ss),
            dict_get(ss, encode_utf8("ops"@)) == Some(SpecValue::Array(os)),
            dict_get(ss, encode_utf8("blobs"@)) == Some(SpecValue::Array(bl)),
            i64_ok(dict_get(ss, encode_utf8("seq"@))),
            text_ok(dict_get(ss, encode_utf8("repo"@))),
            text_ok(dict_get(ss, encode_utf8("time"@))),
            bytes_field_ok(dict_get(ss, encode_utf8("blocks"@))),
            bool_ok(dict_get(ss, encode_utf8("rebase"@))),
            bool_ok(dict_get(ss, encode_utf8("tooBig"@))),
            opt_cid_ok(dict_get(ss, encode_utf8("prev"@))),
            opt_cid_ok(dict_get(ss, encode_utf8("commit"@))),
            forall|j: int| 0 <= j < os.len() ==> op_ok(#[trigger] os[j]),
            nb == blob_items@.len(),
            bl.len() == nb,
            i2 <= nb,
            forall|j: int|
                0 <= j < bl.len() ==> crate::cbor::rep(blob_items@[j], #[trigger] bl[j]),
            blobs@.len() == i2,
            forall|j: int|
                0 <= j < i2 ==> spec_dag_cid(#[trigger] bl[j]) == Some(blobs@[j]@),
        decreases nb - i2,
    {
        let c = match extract_cid(&blob_items[i2], Ghost(bl[i2 as int])) {
            Ok(c) => c,
            Err(_) => {
                proof {
                    assert(spec_dag_cid(bl[i2 as int]) is None);
                }
                return Err(Error::Malformed);
            },
        };
        blobs.push(c);
        i2 = i2 + 1;
    }
    proof {
        assert(commit_ok(bsv));
    }
    Ok(Commit { blobs, blocks, commit, ops, prev, rebase, repo, seq, time, too_big })
}

fn parse_handle(bv: &Value, Ghost(bsv): Ghost<SpecValue>) -> (r: Result<Handle, Error>)
    requires
        crate::cbor::rep(*bv, bsv),
    ensures
        r matches Ok(h) ==> handle_matches(bsv, h),
        r is Ok <==> handle_ok(bsv),
        r is Err ==> r matches Err(Error::Malformed),
{
    proof {
        crate::cbor::lemma_rep_inversion(*bv, bsv);
    }
    let items = match bv {
        Value::Dict(m) => m,
        _ => {
            proof {
                if bsv matches SpecValue::Dict(_) {
                    assert(false);
                }
            }
            return Err(Error::Malformed);
        },
    };
    let ghost ss = bsv->Dict_0;
    let seq = match req_i64(items, "seq".as_bytes(), Ghost(ss)) {
        Ok(x) => x,
        Err(e) => {
            return Err(e);
        },
    };
    let did = match req_text(items, "did".as_bytes(), Ghost(ss)) {
        Ok(x) => x,
        Err(e) => {
            return Err(e);
        },
    };
    let handle = match req_text(items, "handle".as_bytes(), Ghost(ss)) {
        Ok(x) => x,
        Err(e) => {
            return Err(e);
        },
    };
    let time = match req_text(items, "time".as_bytes(), Ghost(ss)) {
        Ok(x) => x,
        Err(e) => {
            return Err(e);
        },
    };
    Ok(Handle { did, handle, seq, time })
}

fn parse_info(bv: &Value, Ghost(bsv): Ghost<SpecValue>) -> (r: Result<Info, Error>)
    requires
        crate::cbor::rep(*bv, bsv),
    ensures
        r matches Ok(x) ==> info_matches(bsv, x),
        r is Ok <==> info_ok(bsv),
        r is Err ==> r matches Err(Error::Malformed),
{
    proof {
        crate::cbor::lemma_rep_inversion(*bv, bsv);
    }
    let items = match bv {
        Value::Dict(m) => m,
        _ => {
            proof {
                if bsv matches SpecValue::Dict(_) {
                    assert(false);
                }
            }
            return Err(Error::Malformed);
        },
    };
    let ghost ss = bsv->Dict_0;
    let name = match req_text(items, "name".as_bytes(), Ghost(ss)) {
        Ok(x) => x,
        Err(e) => {
            return Err(e);
        },
    };
    let message = match opt_text(items, "message".as_bytes(), Ghost(ss)) {
        Ok(x) => x,
        Err(e) => {
            return Err(e);
        },
    };
    Ok(Info { message, name })
}

fn parse_migrate(bv: &Value, Ghost(bsv): Ghost<SpecValue>) -> (r: Result<Migrate, Error>)
    requires
        crate::cbor::rep(*bv, bsv),
    ensures
        r matches Ok(x) ==> migrate_matches(bsv, x),
        r is Ok <==> migrate_ok(bsv),
        r is Err ==> r matches Err(Error::Malformed),
{
    proof {
        crate::cbor::lemma_rep_inversion(*bv, bsv);
    }
    let items = match bv {
        Value::Dict(m) => m,
        _ => {
            proof {
                if bsv matches SpecValue::Dict(_) {
                    assert(false);
                }
            }
            return Err(Error::Malformed);
        },
    };
    let ghost ss = bsv->Dict_0;
    let seq = match req_i64(items, "seq".as_bytes(), Ghost(ss)) {
        Ok(x) => x,
        Err(e) => {
            return Err(e);
        },
    };
    let did = match req_text(items, "did".as_bytes(), Ghost(ss)) {
        Ok(x) => x,
        Err(e) => {
            return Err(e);
        },
    };
    let migrate_to = match opt_text(items, "migrateTo".as_bytes(), Ghost(ss)) {
        Ok(x) => x,
        Err(e) => {
            return Err(e);
        },
    };
    let time = match req_text(items, "time".as_bytes(), Ghost(ss)) {
        Ok(x) => x,
        Err(e) => {
            return Err(e);
        },
    };
    Ok(Migrate { did, migrate_to, seq, time })
}

fn parse_tombstone(bv: &Value, Ghost(bsv): Ghost<SpecValue>) -> (r: Result<Tombstone, Error>)
    requires
        crate::cbor::rep(*bv, bsv),
    ensures
        r matches Ok(x) ==> tombstone_matches(bsv, x),
        r is Ok <==> tombstone_ok(bsv),
        r is Err ==> r matches Err(Error::Malformed),
{
    proof {
        crate::cbor::lemma_rep_inversion(*bv, bsv);
    }
    let items = match bv {
        Value::Dict(m) => m,
        _ => {
            proof {
                if bsv matches SpecValue::Dict(_) {
                    assert(false);
                }
            }
            return Err(Error::Malformed);
        },
    };
    let ghost ss = bsv->Dict_0;
    let seq = match req_i64(items, "seq".as_bytes(), Ghost(ss)) {
        Ok(x) => x,
        Err(e) => {
            return Err(e);
        },
    };
    let did = match req_text(items, "did".as_bytes(), Ghost(ss)) {
        Ok(x) => x,
        Err(e) => {
            return Err(e);
        },
    };
    let time = match req_text(items, "time".as_bytes(), Ghost(ss)) {
        Ok(x) => x,
        Err(e) => {
            return Err(e);
        },
    };
    Ok(Tombstone { did, seq, time })
}

} // verus!

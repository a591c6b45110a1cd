//! Change-stream frames and their application, and directory entries.

use sha2::Digest;

use skylight::apply::process_message;
use skylight::firehose::{Error, Message};
use skylight::follows::{get_followees, get_followers, Schema};
use skylight::plc;
use skylight::plcdir::{apply_plc_entry, Create, Entry, Operation, PlcOperation, PlcTombstone};

fn hdr(major: u8, n: u64) -> Vec<u8> {
    let mut out = Vec::new();
    if n < 24 {
        out.push((major << 5) | (n as u8));
    } else if n <= 0xFF {
        out.push((major << 5) | 24);
        out.push(n as u8);
    } else {
        out.push((major << 5) | 25);
        out.push((n >> 8) as u8);
        out.push(n as u8);
    }
    out
}

fn uint(n: u64) -> Vec<u8> {
    hdr(0, n)
}

fn bool_v(b: bool) -> Vec<u8> {
    vec![if b { 0xF5 } else { 0xF4 }]
}

fn bstr(b: &[u8]) -> Vec<u8> {
    let mut out = hdr(2, b.len() as u64);
    out.extend_from_slice(b);
    out
}

fn text(s: &str) -> Vec<u8> {
    let mut out = hdr(3, s.len() as u64);
    out.extend_from_slice(s.as_bytes());
    out
}

fn array(items: &[Vec<u8>]) -> Vec<u8> {
    let mut out = hdr(4, items.len() as u64);
    for i in items {
        out.extend_from_slice(i);
    }
    out
}

fn map(entries: &[(&str, Vec<u8>)]) -> Vec<u8> {
    let mut out = hdr(5, entries.len() as u64);
    for (k, v) in entries {
        out.extend_from_slice(&text(k));
        out.extend_from_slice(v);
    }
    out
}

fn tag42(payload: &[u8]) -> Vec<u8> {
    let mut out = hdr(6, 42);
    out.extend_from_slice(&bstr(payload));
    out
}

fn sha_cid(data: &[u8]) -> Vec<u8> {
    let digest = sha2::Sha256::digest(data);
    let mut out = vec![0x01, 0x71, 0x12, 0x20];
    out.extend_from_slice(&digest);
    out
}

fn cid_link(cid: &[u8]) -> Vec<u8> {
    let mut payload = vec![0x00];
    payload.extend_from_slice(cid);
    tag42(&payload)
}

fn varint(mut n: u64) -> Vec<u8> {
    let mut out = Vec::new();
    loop {
        if n < 0x80 {
            out.push(n as u8);
            return out;
        }
        out.push((n as u8 & 0x7F) | 0x80);
        n >>= 7;
    }
}

fn car(roots: &[Vec<u8>], blocks: &[(Vec<u8>, Vec<u8>)]) -> Vec<u8> {
    let links: Vec<Vec<u8>> = roots.iter().map(|c| cid_link(c)).collect();
    let header = map(&[("roots", array(&links)), ("version", uint(1))]);
    let mut out = varint(header.len() as u64);
    out.extend_from_slice(&header);
    for (cid, data) in blocks {
        out.extend_from_slice(&varint((cid.len() + data.len()) as u64));
        out.extend_from_slice(cid);
        out.extend_from_slice(data);
    }
    out
}

fn frame(t: &str, body: Vec<u8>) -> Vec<u8> {
    let mut out = map(&[("op", uint(1)), ("t", text(t))]);
    out.extend_from_slice(&body);
    out
}

fn commit_frame(seq: u64, repo: &str, ops: Vec<Vec<u8>>, blocks: Vec<u8>) -> Vec<u8> {
    frame(
        "#commit",
        map(&[
            ("seq", uint(seq)),
            ("repo", text(repo)),
            ("time", text("t0")),
            ("blocks", bstr(&blocks)),
            ("rebase", bool_v(false)),
            ("tooBig", bool_v(false)),
            ("ops", array(&ops)),
            ("blobs", array(&[])),
        ]),
    )
}

#[test]
fn parse_frames() {
    let msg = frame(
        "#tombstone",
        map(&[("seq", uint(9)), ("did", text("did:plc:A")), ("time", text("t"))]),
    );
    match Message::parse(&msg).unwrap() {
        Message::Tombstone(t) => {
            assert_eq!(t.seq, 9);
            assert_eq!(t.did, "did:plc:A");
            assert_eq!(t.time, "t");
        }
        _ => panic!("expected a tombstone"),
    }

    let info = frame("#info", map(&[("name", text("outdated cursor"))]));
    match Message::parse(&info).unwrap() {
        Message::Info(i) => {
            assert_eq!(i.name, "outdated cursor");
            assert_eq!(i.message, None);
        }
        _ => panic!("expected info"),
    }

    // An error frame ends the stream with its reason.
    let mut err_frame = map(&[("op", hdr(1, 0))]);
    err_frame.extend_from_slice(&map(&[("error", text("FutureCursor"))]));
    match Message::parse(&err_frame) {
        Err(Error::Firehose { error, message }) => {
            assert_eq!(error, "FutureCursor");
            assert_eq!(message, None);
        }
        _ => panic!("expected a stream error"),
    }

    // An unknown op is a protocol violation.
    let mut odd = map(&[("op", uint(3))]);
    odd.extend_from_slice(&map(&[]));
    assert!(matches!(Message::parse(&odd), Err(Error::UnknownOperation(3))));

    // An unknown message type is refused.
    let unk = frame("#likes", map(&[]));
    assert!(matches!(Message::parse(&unk), Err(Error::UnknownType(_))));
}

#[test]
fn firehose_create_then_delete() {
    let record = map(&[("subject", text("did:plc:B")), ("createdAt", text("t"))]);
    let record_cid = sha_cid(&record);
    let inline = car(&[record_cid.clone()], &[(record_cid.clone(), record)]);
    let create_op = map(&[
        ("action", text("create")),
        ("path", text("app.bsky.graph.follow/r1")),
        ("cid", cid_link(&record_cid)),
    ]);
    let f1 = commit_frame(41, "did:plc:A", vec![create_op], inline.clone());

    let mut schema = Schema::create();
    let mut cursor: i64 = -1;
    process_message(&mut schema, &mut cursor, &f1).unwrap();
    assert_eq!(cursor, 41);
    assert_eq!(get_followees(&schema, "did:plc:A").unwrap(), vec!["did:plc:B"]);
    assert_eq!(get_followers(&schema, "did:plc:B").unwrap(), vec!["did:plc:A"]);

    // Replaying the same frame changes nothing.
    process_message(&mut schema, &mut cursor, &f1).unwrap();
    assert_eq!(cursor, 41);
    assert_eq!(get_followees(&schema, "did:plc:A").unwrap(), vec!["did:plc:B"]);

    let delete_op = map(&[
        ("action", text("delete")),
        ("path", text("app.bsky.graph.follow/r1")),
    ]);
    let f2 = commit_frame(42, "did:plc:A", vec![delete_op], car(&[], &[]));
    process_message(&mut schema, &mut cursor, &f2).unwrap();
    assert_eq!(cursor, 42);
    assert_eq!(get_followees(&schema, "did:plc:A").unwrap(), Vec::<String>::new());
    assert_eq!(get_followers(&schema, "did:plc:B").unwrap(), Vec::<String>::new());
}

#[test]
fn firehose_skips_other_collections() {
    let op = map(&[
        ("action", text("create")),
        ("path", text("app.bsky.feed.like/r9")),
        ("cid", cid_link(&sha_cid(b"x"))),
    ]);
    let f = commit_frame(7, "did:plc:A", vec![op], car(&[], &[]));
    let mut schema = Schema::create();
    let mut cursor: i64 = 0;
    process_message(&mut schema, &mut cursor, &f).unwrap();
    assert_eq!(cursor, 7);
    assert_eq!(get_followees(&schema, "did:plc:A").unwrap(), Vec::<String>::new());
}

#[test]
fn firehose_tombstone_wipes_actor() {
    let record = map(&[("subject", text("did:plc:B")), ("createdAt", text("t"))]);
    let record_cid = sha_cid(&record);
    let inline = car(&[record_cid.clone()], &[(record_cid.clone(), record)]);
    let create_op = map(&[
        ("action", text("create")),
        ("path", text("app.bsky.graph.follow/r1")),
        ("cid", cid_link(&record_cid)),
    ]);
    let mut schema = Schema::create();
    let mut cursor: i64 = 0;
    process_message(
        &mut schema,
        &mut cursor,
        &commit_frame(1, "did:plc:A", vec![create_op], inline),
    )
    .unwrap();
    let tomb = frame(
        "#tombstone",
        map(&[("seq", uint(2)), ("did", text("did:plc:A")), ("time", text("t"))]),
    );
    process_message(&mut schema, &mut cursor, &tomb).unwrap();
    assert_eq!(cursor, 2);
    assert_eq!(get_followees(&schema, "did:plc:A").unwrap(), Vec::<String>::new());
    assert_eq!(get_followers(&schema, "did:plc:B").unwrap(), Vec::<String>::new());

    // Handle frames only advance the cursor.
    let handle = frame(
        "#handle",
        map(&[
            ("seq", uint(3)),
            ("did", text("did:plc:A")),
            ("handle", text("alice.example")),
            ("time", text("t")),
        ]),
    );
    process_message(&mut schema, &mut cursor, &handle).unwrap();
    assert_eq!(cursor, 3);
}

fn plc_op_entry(did: &str, akas: &[&str], at: &str) -> Entry {
    Entry {
        did: did.to_string(),
        operation: Operation::PlcOperation(PlcOperation {
            rotation_keys: Vec::new(),
            verification_methods: Vec::new(),
            also_known_as: akas.iter().map(|a| a.to_string()).collect(),
            services: Vec::new(),
            prev: None,
            sig: String::new(),
        }),
        cid: String::new(),
        nullified: false,
        created_at: at.to_string(),
    }
}

#[test]
fn plc_directory_flow() {
    let mut schema = plc::Schema::create();
    let mut cursor = String::new();
    apply_plc_entry(&mut schema, &mut cursor, &plc_op_entry("did:plc:X", &["at://alice"], "t1"))
        .unwrap();
    assert_eq!(cursor, "t1");
    apply_plc_entry(&mut schema, &mut cursor, &plc_op_entry("did:plc:X", &["at://allie"], "t2"))
        .unwrap();
    assert_eq!(cursor, "t2");
    assert_eq!(
        plc::get_akas(&schema, "did:plc:X").unwrap(),
        vec!["at://alice", "at://allie"]
    );

    // A creation synthesizes one alias from the handle.
    let create = Entry {
        did: String::from("did:plc:Y"),
        operation: Operation::Create(Create {
            signing_key: String::new(),
            recovery_key: String::new(),
            handle: String::from("bob.example"),
            service: String::new(),
            sig: String::new(),
        }),
        cid: String::new(),
        nullified: false,
        created_at: String::from("t3"),
    };
    apply_plc_entry(&mut schema, &mut cursor, &create).unwrap();
    assert_eq!(plc::get_akas(&schema, "did:plc:Y").unwrap(), vec!["at://bob.example"]);
    assert_eq!(plc::get_dids(&schema, "at://bob.example").unwrap(), vec!["did:plc:Y"]);

    // Over-long aliases are filtered out.
    let long = "a".repeat(321);
    let short = "at://ok";
    apply_plc_entry(
        &mut schema,
        &mut cursor,
        &plc_op_entry("did:plc:Z", &[long.as_str(), short], "t4"),
    )
    .unwrap();
    assert_eq!(plc::get_akas(&schema, "did:plc:Z").unwrap(), vec![short]);

    // A tombstone clears every association.
    let tomb = Entry {
        did: String::from("did:plc:X"),
        operation: Operation::PlcTombstone(PlcTombstone {
            prev: String::new(),
            sig: String::new(),
        }),
        cid: String::new(),
        nullified: false,
        created_at: String::from("t5"),
    };
    apply_plc_entry(&mut schema, &mut cursor, &tomb).unwrap();
    assert_eq!(cursor, "t5");
    assert_eq!(plc::get_akas(&schema, "did:plc:X").unwrap(), Vec::<String>::new());
    assert_eq!(plc::get_dids(&schema, "at://alice").unwrap(), Vec::<String>::new());
}

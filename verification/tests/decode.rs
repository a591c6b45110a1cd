//! DAG-CBOR values, CIDs, archives and repository loading.

use sha2::Digest;

use skylight::blockstore::Loader;
use skylight::car::car_parse;
use skylight::cbor::{decode, Value};
use skylight::kv::KvStore;
use skylight::mst::Decoder;

// Small DAG-CBOR builders for test data.

fn hdr(major: u8, n: u64) -> Vec<u8> {
    let mut out = Vec::new();
    if n < 24 {
        out.push((major << 5) | (n as u8));
    } else if n <= 0xFF {
        out.push((major << 5) | 24);
        out.push(n as u8);
    } else {
        out.push((major << 5) | 25);
        out.push((n >> 8) as u8);
        out.push(n as u8);
    }
    out
}

fn uint(n: u64) -> Vec<u8> {
    hdr(0, n)
}

fn bstr(b: &[u8]) -> Vec<u8> {
    let mut out = hdr(2, b.len() as u64);
    out.extend_from_slice(b);
    out
}

fn text(s: &str) -> Vec<u8> {
    let mut out = hdr(3, s.len() as u64);
    out.extend_from_slice(s.as_bytes());
    out
}

fn array(items: &[Vec<u8>]) -> Vec<u8> {
    let mut out = hdr(4, items.len() as u64);
    for i in items {
        out.extend_from_slice(i);
    }
    out
}

fn map(entries: &[(&str, Vec<u8>)]) -> Vec<u8> {
    let mut out = hdr(5, entries.len() as u64);
    for (k, v) in entries {
        out.extend_from_slice(&text(k));
        out.extend_from_slice(v);
    }
    out
}

fn tag42(payload: &[u8]) -> Vec<u8> {
    let mut out = hdr(6, 42);
    out.extend_from_slice(&bstr(payload));
    out
}

/// A CID whose multihash is the identity of `digest`.
fn identity_cid(digest: &[u8]) -> Vec<u8> {
    let mut out = vec![0x01, 0x71, 0x00, digest.len() as u8];
    out.extend_from_slice(digest);
    out
}

/// A CID whose multihash is the sha2-256 digest of `data`.
fn sha_cid(data: &[u8]) -> Vec<u8> {
    let digest = sha2::Sha256::digest(data);
    let mut out = vec![0x01, 0x71, 0x12, 0x20];
    out.extend_from_slice(&digest);
    out
}

/// The DAG-CBOR form of a CID: tag 42 over the identity-prefixed bytes.
fn cid_link(cid: &[u8]) -> Vec<u8> {
    let mut payload = vec![0x00];
    payload.extend_from_slice(cid);
    tag42(&payload)
}

fn varint(mut n: u64) -> Vec<u8> {
    let mut out = Vec::new();
    loop {
        if n < 0x80 {
            out.push(n as u8);
            return out;
        }
        out.push((n as u8 & 0x7F) | 0x80);
        n >>= 7;
    }
}

/// A CAR with the given roots and blocks.
fn car(roots: &[Vec<u8>], blocks: &[(Vec<u8>, Vec<u8>)]) -> Vec<u8> {
    let links: Vec<Vec<u8>> = roots.iter().map(|c| cid_link(c)).collect();
    let header = map(&[("roots", array(&links)), ("version", uint(1))]);
    let mut out = varint(header.len() as u64);
    out.extend_from_slice(&header);
    for (cid, data) in blocks {
        out.extend_from_slice(&varint((cid.len() + data.len()) as u64));
        out.extend_from_slice(cid);
        out.extend_from_slice(data);
    }
    out
}

#[test]
fn cbor_values_decode() {
    assert!(matches!(decode(&uint(15)), Some(Value::UInt(15))));
    assert!(matches!(decode(&uint(1000)), Some(Value::UInt(1000))));
    // The integer -5 is major 1 with argument 4.
    assert!(matches!(decode(&hdr(1, 4)), Some(Value::NInt(4))));
    assert!(matches!(decode(&[0xF4]), Some(Value::Bool(false))));
    assert!(matches!(decode(&[0xF5]), Some(Value::Bool(true))));
    assert!(matches!(decode(&[0xF6]), Some(Value::Null)));
    match decode(&text("hi")) {
        Some(Value::Text(b)) => assert_eq!(b, b"hi".to_vec()),
        other => panic!("unexpected: {:?}", other.is_some()),
    }
    match decode(&bstr(&[1, 2, 3])) {
        Some(Value::Bytes(b)) => assert_eq!(b, vec![1, 2, 3]),
        _ => panic!("expected bytes"),
    }
    match decode(&array(&[uint(1), uint(2)])) {
        Some(Value::Array(items)) => assert_eq!(items.len(), 2),
        _ => panic!("expected array"),
    }
    // Truncated input fails, and so does trailing garbage.
    assert!(decode(&[0x58]).is_none());
    let mut extra = uint(1);
    extra.push(0x00);
    assert!(decode(&extra).is_none());
    // Text must be valid UTF-8.
    let mut bad = hdr(3, 2);
    bad.extend_from_slice(&[0xFF, 0xFE]);
    assert!(decode(&bad).is_none());
}

#[test]
fn varint_and_cid_shapes() {
    assert_eq!(skylight::cid::read_varint(&[0x05], 0), Some((5, 1)));
    assert_eq!(skylight::cid::read_varint(&[0x80, 0x01], 0), Some((128, 2)));
    assert_eq!(skylight::cid::read_varint(&[0x80], 0), None);
    let c = identity_cid(b"abc");
    assert_eq!(skylight::cid::cid_len_at(&c, 0), Some(c.len()));
    let (code, digest) = skylight::cid::cid_hash(&c).unwrap();
    assert_eq!(code, 0);
    assert_eq!(digest, b"abc".to_vec());
    let s = sha_cid(b"data");
    let (code2, digest2) = skylight::cid::cid_hash(&s).unwrap();
    assert_eq!(code2, 0x12);
    assert_eq!(digest2.len(), 32);
    // The legacy 34-byte form.
    let mut legacy = vec![0x12, 0x20];
    legacy.extend_from_slice(&[7u8; 32]);
    assert_eq!(skylight::cid::cid_len_at(&legacy, 0), Some(34));
}

#[test]
fn car_reader_blocks_and_validation() {
    let data = b"hello world".to_vec();
    let good = sha_cid(&data);
    let archive = car(&[good.clone()], &[(good.clone(), data.clone())]);
    let (roots, blocks) = car_parse(&archive, true).unwrap();
    assert_eq!(roots, vec![good.clone()]);
    assert_eq!(blocks, vec![(good.clone(), data.clone())]);

    // A digest that does not match the data fails validation but not a
    // plain parse.
    let bad = sha_cid(b"something else");
    let tampered = car(&[bad.clone()], &[(bad.clone(), data.clone())]);
    assert!(car_parse(&tampered, true).is_err());
    assert!(car_parse(&tampered, false).is_ok());

    // The identity code carries the data itself.
    let idc = identity_cid(b"tiny");
    let arch2 = car(&[idc.clone()], &[(idc.clone(), b"tiny".to_vec())]);
    assert!(car_parse(&arch2, true).is_ok());

    // An empty input is truncated.
    assert!(car_parse(&[], true).is_err());
}

/// The node bytes for prefix-compressed entries.
fn mst_node(entries: &[(u64, &[u8], Vec<u8>)]) -> Vec<u8> {
    let es: Vec<Vec<u8>> = entries
        .iter()
        .map(|(p, k, v)| {
            map(&[
                ("p", uint(*p)),
                ("k", bstr(k)),
                ("v", cid_link(v)),
                ("t", vec![0xF6]),
            ])
        })
        .collect();
    map(&[("l", vec![0xF6]), ("e", array(&es))])
}

#[test]
fn mst_prefix_compression() {
    let c1 = identity_cid(b"one");
    let c2 = identity_cid(b"two");
    let node = mst_node(&[
        (0, b"app.bsky.graph.follow/aaa", c1.clone()),
        (22, b"bbb", c2.clone()),
    ]);
    let root = sha_cid(&node);
    let mut blocks = KvStore::new();
    blocks.put(root.clone(), node);
    let walker = Decoder::new();
    let m = walker.decode(&blocks, &root).unwrap();
    assert_eq!(m.len(), 2);
    assert_eq!(m.get(b"app.bsky.graph.follow/aaa"), Some(&c1));
    assert_eq!(m.get(b"app.bsky.graph.follow/bbb"), Some(&c2));
}

#[test]
fn mst_missing_subtree() {
    let absent = identity_cid(b"nowhere");
    let blocks = KvStore::new();
    let walker = Decoder::new();
    assert!(walker.decode(&blocks, &absent).is_err());
    let mut tolerant = Decoder::new();
    tolerant.ignore_missing(true);
    let m = tolerant.decode(&blocks, &absent).unwrap();
    assert_eq!(m.len(), 0);
}

#[test]
fn load_repository() {
    // A repository: commit -> node -> one follow record.
    let record = map(&[("subject", text("did:plc:B")), ("createdAt", text("t"))]);
    let record_cid = sha_cid(&record);
    let node = mst_node(&[(0, b"app.bsky.graph.follow/3k", record_cid.clone())]);
    let node_cid = sha_cid(&node);
    let commit = map(&[
        ("did", text("did:plc:A")),
        ("version", uint(3)),
        ("data", cid_link(&node_cid)),
    ]);
    let commit_cid = sha_cid(&commit);
    let archive = car(
        &[commit_cid.clone()],
        &[
            (commit_cid.clone(), commit),
            (node_cid.clone(), node.clone()),
            (record_cid.clone(), record.clone()),
        ],
    );
    let mut loader = Loader::new();
    loader.validate_block_hash(true);
    let repo = loader.load(&archive).unwrap();
    assert_eq!(repo.get(b"app.bsky.graph.follow/3k"), Some(&record));
    assert_eq!(repo.get_by_cid(&record_cid), Some(&record));
    assert_eq!(repo.get(b"missing"), None);
    assert_eq!(repo.keys().len(), 1);
    assert_eq!(repo.key_and_cids(), vec![(b"app.bsky.graph.follow/3k".to_vec(), record_cid.clone())]);
    assert_eq!(repo.cids().len(), 3);

    // A mapping value without its block: an error, unless missing
    // blocks are ignored, in which case the entry is dropped.
    let node2 = mst_node(&[(0, b"app.bsky.graph.follow/3k", identity_cid(b"gone"))]);
    let node2_cid = sha_cid(&node2);
    let commit2 = map(&[("data", cid_link(&node2_cid))]);
    let commit2_cid = sha_cid(&commit2);
    let archive2 = car(
        &[commit2_cid.clone()],
        &[(commit2_cid, commit2), (node2_cid, node2)],
    );
    assert!(Loader::new().load(&archive2).is_err());
    let mut tolerant = Loader::new();
    tolerant.mst_ignore_missing(true);
    let repo2 = tolerant.load(&archive2).unwrap();
    assert_eq!(repo2.get(b"app.bsky.graph.follow/3k"), None);

    // No roots at all.
    let empty = car(&[], &[]);
    assert!(matches!(
        Loader::new().load(&empty),
        Err(skylight::blockstore::Error::NoRoots)
    ));
}

#[test]
fn error_shapes() {
    // A header that is not a map.
    let mut arch = varint(1);
    arch.extend_from_slice(&uint(7));
    assert!(matches!(
        car_parse(&arch, false),
        Err(skylight::car::Error::HeaderMalformed)
    ));

    // A section whose CID bytes are garbage.
    let good = identity_cid(b"x");
    let mut arch2 = car(&[good.clone()], &[]);
    arch2.extend_from_slice(&varint(3));
    arch2.extend_from_slice(&[0xFF, 0xFF, 0xFF]);
    assert!(matches!(
        car_parse(&arch2, false),
        Err(skylight::car::Error::BlockMalformed)
    ));

    // A multihash code this protocol does not use (blake2b-256).
    let mut odd = vec![0x01, 0x71];
    odd.extend_from_slice(&varint(0xb220));
    odd.push(2);
    odd.extend_from_slice(&[9, 9]);
    let arch3 = car(&[odd.clone()], &[(odd.clone(), b"zz".to_vec())]);
    assert!(matches!(
        car_parse(&arch3, true),
        Err(skylight::car::Error::UnsupportedHash)
    ));
    assert!(car_parse(&arch3, false).is_ok());

    // A cyclic tree runs out of depth instead of spinning.
    let me_first: Vec<u8> = identity_cid(b"self");
    let node = map(&[("l", cid_link(&me_first)), ("e", array(&[]))]);
    let mut blocks = KvStore::new();
    blocks.put(me_first.clone(), node);
    assert!(matches!(
        Decoder::new().decode(&blocks, &me_first),
        Err(skylight::mst::Error::DepthExceeded)
    ));

    // A key part that is not UTF-8 refuses to decode as text.
    assert_eq!(skylight::keys::split_key(&[0xFF, 0x00, 0x41]), None);
}

#[test]
fn loader_error_kinds() {
    // The first root is not among the blocks.
    let ghostly = sha_cid(b"never sent");
    let arch = car(&[ghostly.clone()], &[]);
    match Loader::new().load(&arch) {
        Err(skylight::blockstore::Error::MissingRootCid(c)) => assert_eq!(c, ghostly),
        _ => panic!("expected a missing root"),
    }

    // The root block is present but carries no data CID.
    let commit = map(&[("did", text("did:plc:A"))]);
    let commit_cid = sha_cid(&commit);
    let arch2 = car(&[commit_cid.clone()], &[(commit_cid, commit)]);
    assert!(matches!(
        Loader::new().load(&arch2),
        Err(skylight::blockstore::Error::CommitMalformed)
    ));

    // The commit names an MST root that is not among the blocks.
    let commit3 = map(&[("data", cid_link(&sha_cid(b"gone")))]);
    let commit3_cid = sha_cid(&commit3);
    let arch3 = car(&[commit3_cid.clone()], &[(commit3_cid, commit3)]);
    assert!(matches!(
        Loader::new().load(&arch3),
        Err(skylight::blockstore::Error::Mst(skylight::mst::Error::MissingCid(_)))
    ));
}

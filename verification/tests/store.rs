//! The follows and identity mirrors, and the crawl queue.

use skylight::crawl::CrawlState;
use skylight::follows::{
    add_follow, delete_actor, delete_follow, get_followees, get_followers, is_following,
    replace_actor_follows, Schema,
};
use skylight::plc;

fn followees(schema: &Schema, actor: &str) -> Vec<String> {
    get_followees(schema, actor).unwrap()
}

fn followers(schema: &Schema, actor: &str) -> Vec<String> {
    get_followers(schema, actor).unwrap()
}

#[test]
fn test_delete_actor() {
    let mut schema = Schema::create();
    add_follow(&mut schema, "test", "user1", "user2").unwrap();
    assert_eq!(followees(&schema, "user1"), vec!["user2"]);
    assert_eq!(followees(&schema, "user2"), Vec::<String>::new());
    assert_eq!(followers(&schema, "user1"), Vec::<String>::new());
    assert_eq!(followers(&schema, "user2"), vec!["user1"]);
    delete_actor(&mut schema, "user1").unwrap();
    assert_eq!(followers(&schema, "user2"), Vec::<String>::new());
}

#[test]
fn test_delete_follow() {
    let mut schema = Schema::create();
    add_follow(&mut schema, "test", "user1", "user2").unwrap();
    add_follow(&mut schema, "test2", "user2", "user1").unwrap();
    assert_eq!(followees(&schema, "user1"), vec!["user2"]);
    assert_eq!(followees(&schema, "user2"), vec!["user1"]);
    assert_eq!(followers(&schema, "user1"), vec!["user2"]);
    assert_eq!(followers(&schema, "user2"), vec!["user1"]);
    delete_follow(&mut schema, "test").unwrap();
    assert_eq!(followees(&schema, "user1"), Vec::<String>::new());
    assert_eq!(followees(&schema, "user2"), vec!["user1"]);
    assert_eq!(followers(&schema, "user1"), vec!["user2"]);
    assert_eq!(followers(&schema, "user2"), Vec::<String>::new());
}

#[test]
fn test_delete_did() {
    let mut schema = plc::Schema::create();
    plc::add_did(&mut schema, "did:test", &["at://1", "at://2"]).unwrap();
    plc::add_did(&mut schema, "did:test2", &["at://2"]).unwrap();
    assert_eq!(plc::get_akas(&schema, "did:test").unwrap(), vec!["at://1", "at://2"]);
    assert_eq!(plc::get_dids(&schema, "at://1").unwrap(), vec!["did:test"]);
    assert_eq!(plc::get_dids(&schema, "at://2").unwrap(), vec!["did:test", "did:test2"]);
    plc::delete_did(&mut schema, "did:test").unwrap();
    assert_eq!(plc::get_akas(&schema, "did:test").unwrap(), Vec::<String>::new());
    assert_eq!(plc::get_dids(&schema, "at://1").unwrap(), Vec::<String>::new());
    assert_eq!(plc::get_dids(&schema, "at://2").unwrap(), vec!["did:test2"]);
}

#[test]
fn follow_lifecycle() {
    let mut schema = Schema::create();
    add_follow(&mut schema, "3k", "did:plc:A", "did:plc:B").unwrap();
    assert_eq!(followees(&schema, "did:plc:A"), vec!["did:plc:B"]);
    assert_eq!(followers(&schema, "did:plc:B"), vec!["did:plc:A"]);
    assert!(is_following(&schema, "did:plc:A", "did:plc:B").unwrap());
    delete_follow(&mut schema, "3k").unwrap();
    assert_eq!(followees(&schema, "did:plc:A"), Vec::<String>::new());
    assert_eq!(followers(&schema, "did:plc:B"), Vec::<String>::new());
    assert!(!is_following(&schema, "did:plc:A", "did:plc:B").unwrap());
}

#[test]
fn add_follow_idempotent() {
    let mut schema = Schema::create();
    add_follow(&mut schema, "r", "a", "b").unwrap();
    add_follow(&mut schema, "r", "a", "b").unwrap();
    assert_eq!(followees(&schema, "a"), vec!["b"]);
    assert_eq!(followers(&schema, "b"), vec!["a"]);
}

#[test]
fn actor_wipe() {
    let mut schema = Schema::create();
    add_follow(&mut schema, "r1", "A", "B").unwrap();
    add_follow(&mut schema, "r2", "B", "A").unwrap();
    delete_actor(&mut schema, "A").unwrap();
    assert_eq!(followees(&schema, "B"), Vec::<String>::new());
    assert_eq!(followers(&schema, "B"), Vec::<String>::new());
    assert!(!is_following(&schema, "A", "B").unwrap());
    assert!(!is_following(&schema, "B", "A").unwrap());
}

#[test]
fn snapshot_replace() {
    let mut schema = Schema::create();
    add_follow(&mut schema, "old1", "A", "B").unwrap();
    add_follow(&mut schema, "old2", "A", "C").unwrap();
    add_follow(&mut schema, "keep", "D", "A").unwrap();
    let records = vec![
        (String::from("new1"), String::from("E")),
        (String::from("new2"), String::from("F")),
    ];
    replace_actor_follows(&mut schema, "A", &records).unwrap();
    assert_eq!(followees(&schema, "A"), vec!["E", "F"]);
    // Incoming edges survive a snapshot replace.
    assert_eq!(followers(&schema, "A"), vec!["D"]);
}

#[test]
fn plc_rename_keeps_old_aliases() {
    let mut schema = plc::Schema::create();
    plc::add_did(&mut schema, "did:plc:X", &["at://alice"]).unwrap();
    plc::add_did(&mut schema, "did:plc:X", &["at://allie"]).unwrap();
    assert_eq!(
        plc::get_akas(&schema, "did:plc:X").unwrap(),
        vec!["at://alice", "at://allie"]
    );
    plc::delete_did(&mut schema, "did:plc:X").unwrap();
    assert_eq!(plc::get_akas(&schema, "did:plc:X").unwrap(), Vec::<String>::new());
}

#[test]
fn resumable_crawl() {
    let mut st = CrawlState::new();
    st.enqueue("A");
    st.enqueue("B");
    let first = st.take_next().unwrap();
    assert_eq!(first, "A");
    // A crash while the fetch of the claimed repository is pending:
    // recovery puts it back, losing nothing.
    st.recover();
    assert_eq!(st.take_next().unwrap(), "A");
    assert_eq!(st.take_next().unwrap(), "B");
    assert_eq!(st.take_next(), None);
}

#[test]
fn crawl_outcomes() {
    let mut st = CrawlState::new();
    st.enqueue("A");
    let did = st.take_next().unwrap();
    st.fail(&did, "timed out");
    assert_eq!(st.take_next(), None);
    st.enqueue("B");
    let did2 = st.take_next().unwrap();
    st.complete(&did2);
    st.recover();
    assert_eq!(st.take_next(), None);
    st.set_cursor("page-2");
    assert_eq!(st.cursor().unwrap(), "page-2");
}

#[test]
fn retry_only_missing_root() {
    let missing = skylight::blockstore::Error::MissingRootCid(vec![1, 2]);
    let other = skylight::blockstore::Error::NoRoots;
    assert!(skylight::crawl::should_retry(&missing, 0));
    assert!(skylight::crawl::should_retry(&missing, 4));
    assert!(!skylight::crawl::should_retry(&missing, 5));
    assert!(!skylight::crawl::should_retry(&other, 0));
}

#[test]
fn key_encoding_round_trip() {
    let key = skylight::keys::make_key(&["did:plc:A", "did:plc:B", "3k"]);
    assert_eq!(key, b"did:plc:A\0did:plc:B\x003k".to_vec());
    let parts = skylight::keys::split_key(&key).unwrap();
    assert_eq!(parts, vec!["did:plc:A", "did:plc:B", "3k"]);
    let prefix = skylight::keys::make_key_prefix(&["did:plc:A"]);
    assert_eq!(prefix, b"did:plc:A\0".to_vec());
    let record = skylight::keys::make_record("a", "s");
    assert_eq!(record, b"a\0s".to_vec());
    let (actor, subject) = skylight::keys::parse_record(&record).unwrap();
    assert_eq!(actor, "a");
    assert_eq!(subject, "s");
    assert_eq!(skylight::keys::parse_record(b"no-separator"), None);
}

#[test]
fn kv_ordering_and_scans() {
    let mut kv = skylight::kv::KvStore::new();
    kv.put(b"b\x001".to_vec(), vec![1]);
    kv.put(b"a\x002".to_vec(), vec![2]);
    kv.put(b"a\x001".to_vec(), vec![3]);
    kv.put(b"ab\x001".to_vec(), vec![4]);
    assert_eq!(kv.len(), 4);
    assert_eq!(kv.get(b"a\x001"), Some(&vec![3]));
    // The trailing NUL keeps "ab" out of the scan for parts starting "a".
    let rows = kv.prefix_scan(b"a\x00");
    let keys: Vec<&[u8]> = rows.iter().map(|r| r.0.as_slice()).collect();
    assert_eq!(keys, vec![b"a\x001".as_slice(), b"a\x002".as_slice()]);
    kv.delete(b"a\x001");
    assert_eq!(kv.get(b"a\x001"), None);
    let first = kv.pop_first().unwrap();
    assert_eq!(first.0, b"a\x002".to_vec());
}

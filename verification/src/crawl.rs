//! The crawl scheduler's durable state.
//!
//! Repositories to fetch wait in `queued`; a worker atomically moves one
//! to `pending` before fetching it, and drops it from `pending` on
//! success or failure. On startup every `pending` entry moves back to
//! `queued`, so interrupted work is retried (at-least-once delivery).

use vstd::prelude::*;
use vstd::utf8::{decode_utf8, encode_utf8, valid_utf8};

use crate::bytes::lex_lt;
use crate::kv::{copy_bytes, KvStore};
use crate::text::bytes_to_string;

verus! {

pub struct CrawlState {
    pub queued: KvStore,
    pub pending: KvStore,
    pub errored: KvStore,
    pub meta: KvStore,
}

impl CrawlState {
    pub open spec fn wf(self) -> bool {
        &&& self.queued.wf()
        &&& self.pending.wf()
        &&& self.errored.wf()
        &&& self.meta.wf()
        &&& forall|k: Seq<u8>|
            #[trigger] self.queued@.contains_key(k) ==> valid_utf8(k) && self.queued@[k]
                == Seq::<u8>::empty()
        &&& forall|k: Seq<u8>|
            #[trigger] self.pending@.contains_key(k) ==> valid_utf8(k) && self.pending@[k]
                == Seq::<u8>::empty()
    }

    pub fn new() -> (r: CrawlState)
        ensures
            r.wf(),
            r.queued@ == Map::<Seq<u8>, Seq<u8>>::empty(),
            r.pending@ == Map::<Seq<u8>, Seq<u8>>::empty(),
            r.errored@ == Map::<Seq<u8>, Seq<u8>>::empty(),
            r.meta@ == Map::<Seq<u8>, Seq<u8>>::empty(),
    {
        CrawlState {
            queued: KvStore::new(),
            pending: KvStore::new(),
            errored: KvStore::new(),
            meta: KvStore::new(),
        }
    }

    /// Startup recovery: every pending repository goes back to the
    /// queue, so work claimed by a crashed worker is not lost.
    pub fn recover(&mut self)
        requires
            old(self).wf(),
        ensures
            final(self).wf(),
            final(self).queued@.dom() == old(self).queued@.dom().union(old(self).pending@.dom()),
            final(self).pending@ == Map::<Seq<u8>, Seq<u8>>::empty(),
            final(self).errored@ == old(self).errored@,
            final(self).meta@ == old(self).meta@,
    {
        let ghost q0 = self.queued@;
        let ghost p0 = self.pending@;
        loop
            invariant
                self.wf(),
                q0 == old(self).queued@,
                p0 == old(self).pending@,
                self.errored@ == old(self).errored@,
                self.meta@ == old(self).meta@,
                self.pending@.dom().subset_of(p0.dom()),
                self.queued@.dom() == q0.dom().union(
                    p0.dom().difference(self.pending@.dom()),
                ),
            decreases self.pending.rows_spec().len(),
        {
            let ghost pend_before = self.pending@;
            let ghost queued_before = self.queued@;
            match self.pending.pop_first() {
                Some(row) => {
                    proof {
                        assert(pend_before.contains_key(row.0@));
                    }
                    self.queued.put(row.0, Vec::new());
                    proof {
                        assert(self.queued@.dom() =~= q0.dom().union(
                            p0.dom().difference(self.pending@.dom()),
                        ));
                    }
                },
                None => {
                    proof {
                        assert(self.queued@.dom() =~= q0.dom().union(p0.dom()));
                    }
                    return ;
                },
            }
        }
    }

    /// Add a repository to the work queue; re-adding is a no-op.
    pub fn enqueue(&mut self, did: &str)
        requires
            old(self).wf(),
        ensures
            final(self).wf(),
            final(self).queued@ == old(self).queued@.insert(
                encode_utf8(did@),
                Seq::<u8>::empty(),
            ),
            final(self).pending@ == old(self).pending@,
            final(self).errored@ == old(self).errored@,
            final(self).meta@ == old(self).meta@,
    {
        proof {
            vstd::utf8::encode_utf8_valid_utf8(did@);
        }
        self.queued.put(copy_bytes(did.as_bytes()), Vec::new());
    }

    /// Atomically claim the first queued repository: it leaves `queued`
    /// and enters `pending`, so no other worker can take it.
    pub fn take_next(&mut self) -> (r: Option<String>)
        requires
            old(self).wf(),
        ensures
            final(self).wf(),
            final(self).errored@ == old(self).errored@,
            final(self).meta@ == old(self).meta@,
            match r {
                Some(did) => {
                    &&& old(self).queued@.contains_key(encode_utf8(did@))
                    &&& forall|k: Seq<u8>|
                        #[trigger] old(self).queued@.contains_key(k) ==> k == encode_utf8(did@)
                            || lex_lt(encode_utf8(did@), k)
                    &&& final(self).queued@ == old(self).queued@.remove(encode_utf8(did@))
                    &&& final(self).pending@ == old(self).pending@.insert(
                        encode_utf8(did@),
                        Seq::<u8>::empty(),
                    )
                },
                None => {
                    &&& old(self).queued@ == Map::<Seq<u8>, Seq<u8>>::empty()
                    &&& final(self).queued@ == old(self).queued@
                    &&& final(self).pending@ == old(self).pending@
                },
            },
    {
        let ghost q0 = self.queued@;
        match self.queued.pop_first() {
            Some(row) => {
                proof {
                    assert(q0.contains_key(row.0@));
                }
                let did = match bytes_to_string(copy_bytes(&row.0)) {
                    Some(s) => s,
                    None => {
                        proof {
                            assert(false);
                        }
                        return None;
                    },
                };
                proof {
                    vstd::utf8::decode_utf8_encode_utf8(row.0@);
                    assert(encode_utf8(did@) == row.0@);
                }
                self.pending.put(row.0, Vec::new());
                Some(did)
            },
            None => None,
        }
    }

    /// A fetch finished: the repository leaves `pending`.
    pub fn complete(&mut self, did: &str)
        requires
            old(self).wf(),
        ensures
            final(self).wf(),
            final(self).pending@ == old(self).pending@.remove(encode_utf8(did@)),
            final(self).queued@ == old(self).queued@,
            final(self).errored@ == old(self).errored@,
            final(self).meta@ == old(self).meta@,
    {
        self.pending.delete(did.as_bytes());
    }

    /// A fetch failed: record the reason and release the claim.
    pub fn fail(&mut self, did: &str, why: &str)
        requires
            old(self).wf(),
        ensures
            final(self).wf(),
            final(self).pending@ == old(self).pending@.remove(encode_utf8(did@)),
            final(self).errored@ == old(self).errored@.insert(
                encode_utf8(did@),
                encode_utf8(why@),
            ),
            final(self).queued@ == old(self).queued@,
            final(self).meta@ == old(self).meta@,
    {
        self.errored.put(copy_bytes(did.as_bytes()), copy_bytes(why.as_bytes()));
        self.pending.delete(did.as_bytes());
    }

    /// Persist the repository-list enumeration cursor.
    pub fn set_cursor(&mut self, cursor: &str)
        requires
            old(self).wf(),
        ensures
            final(self).wf(),
            final(self).meta@ == old(self).meta@.insert(
                encode_utf8("cursor"@),
                encode_utf8(cursor@),
            ),
            final(self).queued@ == old(self).queued@,
            final(self).pending@ == old(self).pending@,
            final(self).errored@ == old(self).errored@,
    {
        self.meta.put(copy_bytes("cursor".as_bytes()), copy_bytes(cursor.as_bytes()));
    }

    /// Read back the enumeration cursor, if one was stored.
    pub fn cursor(&self) -> (r: Option<String>)
        requires
            self.wf(),
        ensures
            match r {
                Some(c) => self.meta@.contains_key(encode_utf8("cursor"@)) && valid_utf8(
                    self.meta@[encode_utf8("cursor"@)],
                ) && c@ == decode_utf8(self.meta@[encode_utf8("cursor"@)]),
                None => !self.meta@.contains_key(encode_utf8("cursor"@)) || !valid_utf8(
                    self.meta@[encode_utf8("cursor"@)],
                ),
            },
    {
        match self.meta.get("cursor".as_bytes()) {
            Some(v) => {
                let bytes = copy_bytes(v.as_slice());
                bytes_to_string(bytes)
            },
            None => None,
        }
    }
}

/// Recovery loses no work: the union of queued and pending repositories
/// is the same before and after a restart.
pub proof fn lemma_recover_preserves_work(
    q0: Set<Seq<u8>>,
    p0: Set<Seq<u8>>,
    q1: Set<Seq<u8>>,
    p1: Set<Seq<u8>>,
)
    requires
        q1 == q0.union(p0),
        p1 == Set::<Seq<u8>>::empty(),
    ensures
        q1.union(p1) == q0.union(p0),
{
    assert(q1.union(p1) =~= q0.union(p0));
}

/// Whether a failed repository fetch should be retried in place: only
/// a commit root missing from the archive is transient, and only a few
/// times.
pub fn should_retry(err: &crate::blockstore::Error, attempt: u64) -> (r: bool)
    ensures
        r == ((err matches crate::blockstore::Error::MissingRootCid(_)) && attempt < 5),
{
    match err {
        crate::blockstore::Error::MissingRootCid(_) => attempt < 5,
        _ => false,
    }
}

} // verus!

//! Loading a repository into an immutable block store.
//!
//! A repository arrives as a CAR whose first root names the signed
//! commit; the commit's `data` field names the MST root; walking the
//! MST yields the key to value-CID mapping. Every value CID in the
//! mapping refers into the block map: with `mst_ignore_missing` set,
//! entries whose block is absent are dropped, otherwise they fail the
//! load.

use vstd::prelude::*;
use vstd::utf8::encode_utf8;

use crate::car::{car_parse, hash_ok, spec_car};
use crate::cbor::{decode, dict_get, spec_decode, SpecValue, Value};
use crate::cid::{extract_cid, spec_dag_cid};
use crate::kv::{copy_bytes, KvStore};
use crate::mst::{spec_walk, walk_fuel, Decoder};

verus! {

#[derive(Debug)]
pub enum Error {
    /// The archive itself does not parse or validate.
    Car(crate::car::Error),
    /// The commit block is not a map carrying a `data` CID.
    CommitMalformed,
    /// The MST walk failed.
    Mst(crate::mst::Error),
    /// The archive has no roots.
    NoRoots,
    /// The first root is not among the blocks.
    MissingRootCid(Vec<u8>),
}

/// The block map of a parsed block list: later duplicates win.
pub open spec fn pairs_to_map(bs: Seq<(Seq<u8>, Seq<u8>)>) -> Map<Seq<u8>, Seq<u8>>
    decreases bs.len(),
{
    if bs.len() == 0 {
        Map::empty()
    } else {
        pairs_to_map(bs.drop_last()).insert(bs.last().0, bs.last().1)
    }
}

/// The MST root named by the commit block at `root`.
pub open spec fn commit_mst_root(blocks: Map<Seq<u8>, Seq<u8>>, root: Seq<u8>) -> Option<Seq<u8>> {
    if !blocks.contains_key(root) {
        None
    } else {
        match spec_decode(blocks[root]) {
            Some(SpecValue::Dict(ss)) => match dict_get(ss, encode_utf8("data"@)) {
                Some(sv) => spec_dag_cid(sv),
                None => None,
            },
            _ => None,
        }
    }
}

/// The entries of `m0` whose value CID is present in `blocks`.
pub open spec fn drop_missing(m0: Map<Seq<u8>, Seq<u8>>, blocks: Map<Seq<u8>, Seq<u8>>) -> Map<
    Seq<u8>,
    Seq<u8>,
> {
    Map::new(|k: Seq<u8>| m0.contains_key(k) && blocks.contains_key(m0[k]), |k: Seq<u8>| m0[k])
}

/// Enough walk depth to reach every block of an acyclic tree over a
/// finite block map.
pub open spec fn map_fuel(m: Map<Seq<u8>, Seq<u8>>) -> int {
    if m.dom().finite() {
        if m.dom().len() < usize::MAX {
            m.dom().len() as int + 1
        } else {
            m.dom().len() as int
        }
    } else {
        0
    }
}

/// The archive parses and, under validation, every block's digest holds.
pub open spec fn car_accepted(s: Seq<u8>, validate: bool) -> bool {
    match spec_car(s) {
        None => false,
        Some(q) => validate ==> forall|i: int|
            0 <= i < q.1.len() ==> hash_ok(#[trigger] q.1[i].0, q.1[i].1),
    }
}

/// A load succeeds exactly when the archive is accepted, a first root
/// exists and names a commit with a `data` CID, the tree walks, and
/// (unless missing blocks are ignored) every mapping value has its
/// block.
pub open spec fn spec_load_ok(s: Seq<u8>, validate: bool, ignore: bool) -> bool {
    &&& car_accepted(s, validate)
    &&& spec_car(s) matches Some(q)
    &&& q.0.len() >= 1
    &&& commit_mst_root(pairs_to_map(q.1), q.0[0]) matches Some(mroot)
    &&& spec_walk(pairs_to_map(q.1), mroot, ignore, map_fuel(pairs_to_map(q.1))) matches Some(m0)
    &&& (!ignore ==> forall|k: Seq<u8>|
        #[trigger] m0.contains_key(k) ==> pairs_to_map(q.1).contains_key(m0[k]))
}

pub open spec fn is_car_err(r: Result<Blockstore, Error>) -> bool {
    match r {
        Err(Error::Car(_)) => true,
        _ => false,
    }
}

pub open spec fn is_missing_root_err(r: Result<Blockstore, Error>) -> bool {
    match r {
        Err(Error::MissingRootCid(_)) => true,
        _ => false,
    }
}

pub struct Blockstore {
    mst: KvStore,
    blocks: KvStore,
}

impl Blockstore {
    /// The key to value-CID mapping.
    pub closed spec fn mst_view(self) -> Map<Seq<u8>, Seq<u8>> {
        self.mst@
    }

    /// All blocks of the archive, by CID.
    pub closed spec fn blocks_view(self) -> Map<Seq<u8>, Seq<u8>> {
        self.blocks@
    }

    /// Every value CID of the mapping names a block.
    pub closed spec fn wf(self) -> bool {
        &&& self.mst.wf()
        &&& self.blocks.wf()
        &&& forall|k: Seq<u8>|
            #[trigger] self.mst@.contains_key(k) ==> self.blocks@.contains_key(self.mst@[k])
    }

    /// The bytes of the block a key maps to.
    pub fn get(&self, key: &[u8]) -> (r: Option<&Vec<u8>>)
        requires
            self.wf(),
        ensures
            match r {
                Some(v) => self.mst_view().contains_key(key@) && self.blocks_view().contains_key(
                    self.mst_view()[key@],
                ) && v@ == self.blocks_view()[self.mst_view()[key@]],
                None => !self.mst_view().contains_key(key@),
            },
    {
        match self.mst.get(key) {
            Some(cid) => self.blocks.get(cid.as_slice()),
            None => None,
        }
    }

    /// The bytes of the block with the given CID.
    pub fn get_by_cid(&self, cid: &[u8]) -> (r: Option<&Vec<u8>>)
        requires
            self.wf(),
        ensures
            match r {
                Some(v) => self.blocks_view().contains_key(cid@) && v@ == self.blocks_view()[cid@],
                None => !self.blocks_view().contains_key(cid@),
            },
    {
        self.blocks.get(cid)
    }

    /// All mapping keys, in order.
    pub fn keys(&self) -> (r: Vec<Vec<u8>>)
        requires
            self.wf(),
        ensures
            forall|i: int| 0 <= i < r@.len() ==> self.mst_view().contains_key(#[trigger] r@[i]@),
            forall|k: Seq<u8>|
                #[trigger] self.mst_view().contains_key(k) ==> exists|i: int|
                    0 <= i < r@.len() && r@[i]@ == k,
    {
        let pairs = self.key_and_cids();
        let mut out: Vec<Vec<u8>> = Vec::new();
        let n = pairs.len();
        let mut i: usize = 0;
        while i < n
            invariant
                self.wf(),
                n == pairs@.len(),
                i <= n,
                forall|j: int|
                    0 <= j < pairs@.len() ==> self.mst_view().contains_key(
                        #[trigger] pairs@[j].0@,
                    ),
                forall|k: Seq<u8>|
                    #[trigger] self.mst_view().contains_key(k) ==> exists|j: int|
                        0 <= j < pairs@.len() && pairs@[j].0@ == k,
                out@.len() == i,
                forall|j: int| 0 <= j < i ==> #[trigger] out@[j]@ == pairs@[j].0@,
            decreases n - i,
        {
            out.push(copy_bytes(&pairs[i].0));
            i = i + 1;
        }
        proof {
            assert forall|k: Seq<u8>|
                #[trigger] self.mst_view().contains_key(k) implies exists|j: int|
                0 <= j < out@.len() && out@[j]@ == k by {
                let j = choose|j: int| 0 <= j < pairs@.len() && pairs@[j].0@ == k;
                assert(out@[j]@ == k);
            }
        }
        out
    }

    /// All (key, value CID) pairs, in key order.
    pub fn key_and_cids(&self) -> (r: Vec<(Vec<u8>, Vec<u8>)>)
        requires
            self.wf(),
        ensures
            forall|i: int|
                0 <= i < r@.len() ==> self.mst_view().contains_pair(
                    #[trigger] r@[i].0@,
                    r@[i].1@,
                ),
            forall|k: Seq<u8>|
                #[trigger] self.mst_view().contains_key(k) ==> exists|i: int|
                    0 <= i < r@.len() && r@[i].0@ == k,
    {
        proof {
            self.mst.lemma_view_rows();
        }
        let rows = self.mst.entries();
        let mut out: Vec<(Vec<u8>, Vec<u8>)> = Vec::new();
        let n = rows.len();
        let mut i: usize = 0;
        while i < n
            invariant
                self.wf(),
                n == self.mst.rows_spec().len(),
                rows@.len() == n,
                forall|j: int|
                    0 <= j < n ==> (#[trigger] rows@[j].0@, rows@[j].1@) == self.mst.rows_spec()[j],
                i <= n,
                out@.len() == i,
                forall|j: int|
                    0 <= j < i ==> (#[trigger] out@[j].0@, out@[j].1@) == self.mst.rows_spec()[j],
            decreases n - i,
        {
            let rows2 = self.mst.entries();
            out.push((copy_bytes(&rows2[i].0), copy_bytes(&rows2[i].1)));
            i = i + 1;
        }
        proof {
            self.mst.lemma_view_rows();
            assert forall|k: Seq<u8>|
                #[trigger] self.mst_view().contains_key(k) implies exists|j: int|
                0 <= j < out@.len() && out@[j].0@ == k by {
                let j = self.mst.index_of(k);
                assert(out@[j].0@ == k);
            }
        }
        out
    }

    /// All block CIDs.
    pub fn cids(&self) -> (r: Vec<Vec<u8>>)
        requires
            self.wf(),
        ensures
            forall|i: int|
                0 <= i < r@.len() ==> self.blocks_view().contains_key(#[trigger] r@[i]@),
            forall|k: Seq<u8>|
                #[trigger] self.blocks_view().contains_key(k) ==> exists|i: int|
                    0 <= i < r@.len() && r@[i]@ == k,
    {
        proof {
            self.blocks.lemma_view_rows();
        }
        let rows = self.blocks.entries();
        let mut out: Vec<Vec<u8>> = Vec::new();
        let n = rows.len();
        let mut i: usize = 0;
        while i < n
            invariant
                self.wf(),
                n == self.blocks.rows_spec().len(),
                rows@.len() == n,
                forall|j: int|
                    0 <= j < n ==> (#[trigger] rows@[j].0@, rows@[j].1@)
                        == self.blocks.rows_spec()[j],
                i <= n,
                out@.len() == i,
                forall|j: int| 0 <= j < i ==> #[trigger] out@[j]@ == self.blocks.rows_spec()[j].0,
            decreases n - i,
        {
            let rows2 = self.blocks.entries();
            out.push(copy_bytes(&rows2[i].0));
            i = i + 1;
        }
        proof {
            self.blocks.lemma_view_rows();
            assert forall|k: Seq<u8>|
                #[trigger] self.blocks_view().contains_key(k) implies exists|j: int|
                0 <= j < out@.len() && out@[j]@ == k by {
                let j = self.blocks.index_of(k);
                assert(out@[j]@ == k);
            }
        }
        out
    }
}

pub struct Loader {
    validate_block_hash: bool,
    mst_ignore_missing: bool,
}

impl Loader {
    pub closed spec fn spec_validate(self) -> bool {
        self.validate_block_hash
    }

    pub closed spec fn spec_ignore(self) -> bool {
        self.mst_ignore_missing
    }

    pub fn new() -> (r: Loader)
        ensures
            !r.spec_validate(),
            !r.spec_ignore(),
    {
        Loader { validate_block_hash: false, mst_ignore_missing: false }
    }

    /// Choose whether missing MST subtrees and value blocks are dropped
    /// or fail the load.
    pub fn mst_ignore_missing(&mut self, mst_ignore_missing: bool)
        ensures
            final(self).spec_ignore() == mst_ignore_missing,
            final(self).spec_validate() == old(self).spec_validate(),
    {
        self.mst_ignore_missing = mst_ignore_missing;
    }

    /// Choose whether each block's digest is checked against its CID.
    pub fn validate_block_hash(&mut self, validate_block_hash: bool)
        ensures
            final(self).spec_validate() == validate_block_hash,
            final(self).spec_ignore() == old(self).spec_ignore(),
    {
        self.validate_block_hash = validate_block_hash;
    }

    /// Load a repository from the bytes of a CAR.
    ///
    /// Success is owed exactly on archives that parse (and validate,
    /// when asked), carry a first root naming a commit with a `data`
    /// CID, and whose tree walks. A mapping entry whose value block is
    /// absent fails the load, or is dropped under `mst_ignore_missing`
    /// (the kept mapping always refers into the block map; the entry is
    /// never kept dangling).
    pub fn load(&self, data: &[u8]) -> (r: Result<Blockstore, Error>)
        ensures
            r matches Ok(b) ==> {
                &&& b.wf()
                &&& spec_car(data@) matches Some(q)
                &&& b.blocks_view() == pairs_to_map(q.1)
                &&& q.0.len() >= 1
                &&& (self.spec_validate() ==> forall|i: int|
                    0 <= i < q.1.len() ==> hash_ok(#[trigger] q.1[i].0, q.1[i].1))
                &&& commit_mst_root(b.blocks_view(), q.0[0]) matches Some(mroot)
                &&& spec_walk(
                    b.blocks_view(),
                    mroot,
                    self.spec_ignore(),
                    map_fuel(b.blocks_view()),
                ) matches Some(m0)
                &&& b.mst_view() == (if self.spec_ignore() {
                    drop_missing(m0, b.blocks_view())
                } else {
                    m0
                })
            },
            r is Ok <==> spec_load_ok(data@, self.spec_validate(), self.spec_ignore()),
            is_car_err(r) <==> !car_accepted(data@, self.spec_validate()),
            (r matches Err(Error::NoRoots)) <==> car_accepted(data@, self.spec_validate()) && (
            spec_car(data@) matches Some(q) && q.0.len() == 0),
            is_missing_root_err(r) <==> car_accepted(data@, self.spec_validate()) && (spec_car(
                data@,
            ) matches Some(q) && q.0.len() >= 1 && !pairs_to_map(q.1).contains_key(q.0[0])),
            r matches Err(Error::MissingRootCid(c)) ==> spec_car(data@) matches Some(q)
                && c@ == q.0[0],
            (r matches Err(Error::CommitMalformed)) <==> car_accepted(
                data@,
                self.spec_validate(),
            ) && (spec_car(data@) matches Some(q) && q.0.len() >= 1 && pairs_to_map(
                q.1,
            ).contains_key(q.0[0]) && commit_mst_root(pairs_to_map(q.1), q.0[0]) is None),
            r matches Err(Error::Mst(crate::mst::Error::MissingCid(c))) ==> spec_car(data@)
                matches Some(q) && !pairs_to_map(q.1).contains_key(c@),
    {
        let (roots, blockvec) = match car_parse(data, self.validate_block_hash) {
            Ok(x) => x,
            Err(e) => {
                return Err(Error::Car(e));
            },
        };
        // The block map: later duplicates win, as with a map insert.
        let mut blocks = KvStore::new();
        let nb = blockvec.len();
        let ghost bs = blockvec@.map(|i: int, v: (Vec<u8>, Vec<u8>)| (v.0@, v.1@));
        let mut i: usize = 0;
        while i < nb
            invariant
                blocks.wf(),
                nb == blockvec@.len(),
                bs == blockvec@.map(|j: int, v: (Vec<u8>, Vec<u8>)| (v.0@, v.1@)),
                bs.len() == nb,
                i <= nb,
                blocks@ == pairs_to_map(bs.take(i as int)),
            decreases nb - i,
        {
            let cid = copy_bytes(&blockvec[i].0);
            let val = copy_bytes(&blockvec[i].1);
            blocks.put(cid, val);
            proof {
                assert(bs.take(i + 1).drop_last() =~= bs.take(i as int));
                assert(bs.take(i + 1).last() == bs[i as int]);
            }
            i = i + 1;
        }
        proof {
            assert(bs.take(nb as int) =~= bs);
        }
        if roots.len() == 0 {
            return Err(Error::NoRoots);
        }
        let root = copy_bytes(&roots[0]);
        let commit_bytes = match blocks.get(&root) {
            Some(b) => copy_bytes(b.as_slice()),
            None => {
                return Err(Error::MissingRootCid(root));
            },
        };
        // The commit: a map whose `data` field names the MST root.
        let cv = match decode(&commit_bytes) {
            Some(v) => v,
            None => {
                return Err(Error::CommitMalformed);
            },
        };
        let ghost csv = spec_decode(commit_bytes@)->Some_0;
        proof {
            crate::cbor::lemma_rep_inversion(cv, csv);
        }
        let citems = match &cv {
            Value::Dict(m) => m,
            _ => {
                return Err(Error::CommitMalformed);
            },
        };
        let ghost css = csv->Dict_0;
        let data_v = match crate::cbor::dict_get_exec(citems, "data".as_bytes(), Ghost(css)) {
            Some(v) => v,
            None => {
                return Err(Error::CommitMalformed);
            },
        };
        let mroot = match extract_cid(data_v, Ghost(dict_get(css, encode_utf8("data"@))->Some_0)) {
            Ok(c) => c,
            Err(_) => {
                return Err(Error::CommitMalformed);
            },
        };
        let ghost gq = spec_car(data@)->Some_0;
        proof {
            assert(root@ == gq.0[0]);
            assert(blocks@ == pairs_to_map(gq.1));
            assert(commit_mst_root(blocks@, gq.0[0]) == Some(mroot@));
            blocks.lemma_dom_card();
            assert(walk_fuel(blocks) == map_fuel(blocks@));
            assert(commit_mst_root(pairs_to_map(gq.1), gq.0[0])->Some_0 == mroot@);
        }
        let mut walker = Decoder::new();
        walker.ignore_missing(self.mst_ignore_missing);
        let m0 = match walker.decode(&blocks, &mroot) {
            Ok(m) => m,
            Err(e) => {
                proof {
                    if spec_load_ok(data@, self.spec_validate(), self.spec_ignore()) {
                        assert(spec_walk(
                            blocks@,
                            mroot@,
                            self.spec_ignore(),
                            map_fuel(blocks@),
                        ) is Some);
                        assert(false);
                    }
                }
                return Err(Error::Mst(e));
            },
        };
        // Every value CID must name a block; with `mst_ignore_missing`
        // an absent one drops its entry instead of failing.
        let ghost m0v = m0@;
        proof {
            m0.lemma_view_rows();
        }
        let rows = m0.entries();
        let n = rows.len();
        let mut mst = KvStore::new();
        let mut j: usize = 0;
        while j < n
            invariant
                m0.wf(),
                blocks.wf(),
                mst.wf(),
                m0v == m0@,
                car_accepted(data@, self.spec_validate()),
                spec_car(data@) == Some(gq),
                blocks@ == pairs_to_map(gq.1),
                gq.0.len() >= 1,
                commit_mst_root(blocks@, gq.0[0]) == Some(mroot@),
                spec_walk(blocks@, mroot@, self.spec_ignore(), map_fuel(blocks@)) == Some(m0v),
                n == m0.rows_spec().len(),
                rows@.len() == n,
                forall|x: int|
                    0 <= x < n ==> (#[trigger] rows@[x].0@, rows@[x].1@) == m0.rows_spec()[x],
                j <= n,
                self.spec_ignore() ==> (forall|k: Seq<u8>|
                    #[trigger] mst@.contains_key(k) <==> exists|x: int|
                        #![trigger m0.rows_spec()[x]]
                        0 <= x < j && m0.rows_spec()[x].0 == k && blocks@.contains_key(
                            m0.rows_spec()[x].1,
                        )),
                !self.spec_ignore() ==> mst@ == Map::<Seq<u8>, Seq<u8>>::empty(),
                !self.spec_ignore() ==> (forall|x: int|
                    0 <= x < j ==> blocks@.contains_key(#[trigger] m0.rows_spec()[x].1)),
                forall|k: Seq<u8>|
                    #[trigger] mst@.contains_key(k) ==> m0v.contains_key(k) && mst@[k] == m0v[k],
            decreases n - j,
        {
            let rows2 = m0.entries();
            let present = blocks.contains(&rows2[j].1);
            let ghost gj = j as int;
            proof {
                m0.lemma_view_rows();
                assert((rows2@[gj].0@, rows2@[gj].1@) == m0.rows_spec()[gj]);
                assert(present == blocks@.contains_key(m0.rows_spec()[gj].1));
                assert(m0@.contains_pair(m0.rows_spec()[gj].0, m0.rows_spec()[gj].1));
            }
            if !present {
                if !self.mst_ignore_missing {
                    proof {
                        let bad = m0.rows_spec()[gj].0;
                        assert(m0v.contains_key(bad));
                        assert(m0v[bad] == m0.rows_spec()[gj].1);
                        assert(!pairs_to_map(gq.1).contains_key(m0v[bad]));
                        if spec_load_ok(data@, self.spec_validate(), self.spec_ignore()) {
                            assert(commit_mst_root(pairs_to_map(gq.1), gq.0[0])->Some_0
                                == mroot@);
                            let gm = spec_walk(
                                blocks@,
                                mroot@,
                                self.spec_ignore(),
                                map_fuel(blocks@),
                            )->Some_0;
                            assert(gm == m0v);
                            assert(gm.contains_key(bad));
                            assert(pairs_to_map(gq.1).contains_key(gm[bad]));
                            assert(false);
                        }
                    }
                    return Err(Error::Mst(crate::mst::Error::MissingCid(copy_bytes(&rows2[j].1))));
                }
            } else {
                if self.mst_ignore_missing {
                    mst.put(copy_bytes(&rows2[j].0), copy_bytes(&rows2[j].1));
                }
            }
            proof {
                if !self.spec_ignore() {
                    assert(blocks@.contains_key(m0.rows_spec()[gj].1));
                }
                if self.spec_ignore() {
                    assert forall|k: Seq<u8>| #[trigger] mst@.contains_key(k) implies exists|
                        x: int,
                    |
                        #![trigger m0.rows_spec()[x]]
                        0 <= x < j + 1 && m0.rows_spec()[x].0 == k && blocks@.contains_key(
                            m0.rows_spec()[x].1,
                        ) by {
                        if present && k == m0.rows_spec()[gj].0 {
                            assert(0 <= gj < j + 1 && m0.rows_spec()[gj].0 == k
                                && blocks@.contains_key(m0.rows_spec()[gj].1));
                        } else {
                            let x = choose|x: int|
                                #![trigger m0.rows_spec()[x]]
                                0 <= x < j && m0.rows_spec()[x].0 == k && blocks@.contains_key(
                                    m0.rows_spec()[x].1,
                                );
                            assert(0 <= x < j + 1 && m0.rows_spec()[x].0 == k
                                && blocks@.contains_key(m0.rows_spec()[x].1));
                        }
                    }
                    assert forall|k: Seq<u8>|
                        (exists|x: int|
                            #![trigger m0.rows_spec()[x]]
                            0 <= x < j + 1 && m0.rows_spec()[x].0 == k && blocks@.contains_key(
                                m0.rows_spec()[x].1,
                            )) implies #[trigger] mst@.contains_key(k) by {
                        let x = choose|x: int|
                            #![trigger m0.rows_spec()[x]]
                            0 <= x < j + 1 && m0.rows_spec()[x].0 == k && blocks@.contains_key(
                                m0.rows_spec()[x].1,
                            );
                        if x == gj {
                            assert(present);
                        }
                    }
                }
            }
            j = j + 1;
        }
        let out = if self.mst_ignore_missing {
            Blockstore { mst, blocks }
        } else {
            Blockstore { mst: m0, blocks }
        };
        proof {
            out.mst.lemma_view_rows();
            m0.lemma_view_rows();
            if self.spec_ignore() {
                assert forall|k: Seq<u8>|
                    #[trigger] m0v.contains_key(k) && blocks@.contains_key(m0v[k])
                        implies out.mst_view().contains_key(k) by {
                    let x = m0.index_of(k);
                    assert(m0.rows_spec()[x].0 == k);
                    assert(m0.rows_spec()[x].1 == m0v[k]);
                }
                assert forall|k: Seq<u8>| #[trigger]
                    out.mst_view().contains_key(k) implies m0v.contains_key(k)
                    && blocks@.contains_key(m0v[k]) by {
                    let x = choose|x: int|
                        #![trigger m0.rows_spec()[x]]
                        0 <= x < n && m0.rows_spec()[x].0 == k && blocks@.contains_key(
                            m0.rows_spec()[x].1,
                        );
                    assert(m0@.contains_pair(m0.rows_spec()[x].0, m0.rows_spec()[x].1));
                }
                assert(out.mst_view() =~= drop_missing(m0v, out.blocks_view()));
            } else {
                assert forall|k: Seq<u8>|
                    #[trigger] out.mst_view().contains_key(k) implies out.blocks_view().contains_key(
                    out.mst_view()[k],
                ) by {
                    let x = m0.index_of(k);
                    assert(m0.rows_spec()[x].0 == k);
                    assert(m0@.contains_pair(m0.rows_spec()[x].0, m0.rows_spec()[x].1));
                    assert(m0.rows_spec()[x].1 == m0v[k]);
                }
            }
            assert(spec_walk(blocks@, mroot@, self.spec_ignore(), walk_fuel(blocks)) matches Some(
                m,
            ) && m == m0v);
        }
        Ok(out)
    }
}

} // verus!

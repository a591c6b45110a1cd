//! Merkle Search Tree walking.
//!
//! A node is a DAG-CBOR map `{l: cid?, e: [{p, k, v, t?}]}`. Keys are
//! prefix-compressed: each entry shares its first `p` bytes with the
//! previous entry's full key in the same node. The walker reconstructs
//! the full key to value-CID mapping by an in-order traversal; subtrees
//! merge over what was gathered before them.

use vstd::prelude::*;

use crate::cbor::{decode, dict_get, rep, spec_decode, SpecValue, Value};
use crate::cid::{extract_cid, spec_dag_cid};
use crate::kv::{copy_bytes, KvStore};

verus! {

#[derive(Debug)]
pub enum Error {
    /// A node fails to decode or has the wrong shape.
    NodeMalformed,
    /// A referenced subtree is not in the block map.
    MissingCid(Vec<u8>),
    /// The tree is deeper than the number of blocks: a cycle.
    DepthExceeded,
}

pub struct Entry {
    pub prefix_len: u64,
    pub key_suffix: Seq<u8>,
    pub value: Seq<u8>,
    pub right: Option<Seq<u8>>,
}

pub struct Node {
    pub left: Option<Seq<u8>>,
    pub entries: Seq<Entry>,
}

/// An optional subtree link: absent or null is no link, otherwise a
/// tagged CID.
pub open spec fn spec_link(v: Option<SpecValue>) -> Option<Option<Seq<u8>>> {
    match v {
        None => Some(None),
        Some(SpecValue::Null) => Some(None),
        Some(sv) => match spec_dag_cid(sv) {
            None => None,
            Some(c) => Some(Some(c)),
        },
    }
}

pub open spec fn spec_entry(sv: SpecValue) -> Option<Entry> {
    match sv {
        SpecValue::Dict(ss) => {
            let p = dict_get(ss, seq![112u8]);  // "p"
            let k = dict_get(ss, seq![107u8]);  // "k"
            let v = dict_get(ss, seq![118u8]);  // "v"
            let t = dict_get(ss, seq![116u8]);  // "t"
            match (p, k) {
                (Some(SpecValue::UInt(pl)), Some(SpecValue::Bytes(suffix))) => {
                    if pl > u32::MAX as u64 {
                        None
                    } else {
                        match v {
                            Some(vv) => match spec_dag_cid(vv) {
                                None => None,
                                Some(vc) => match spec_link(t) {
                                    None => None,
                                    Some(link) => Some(
                                        Entry {
                                            prefix_len: pl,
                                            key_suffix: suffix,
                                            value: vc,
                                            right: link,
                                        },
                                    ),
                                },
                            },
                            None => None,
                        }
                    }
                },
                _ => None,
            }
        },
        _ => None,
    }
}

pub open spec fn spec_entries(es: Seq<SpecValue>) -> Option<Seq<Entry>> {
    if forall|i: int| 0 <= i < es.len() ==> spec_entry(#[trigger] es[i]) is Some {
        Some(Seq::new(es.len(), |i: int| spec_entry(es[i])->Some_0))
    } else {
        None
    }
}

pub open spec fn spec_node(sv: SpecValue) -> Option<Node> {
    match sv {
        SpecValue::Dict(ss) => {
            match spec_link(dict_get(ss, seq![108u8]))  // "l"
             {
                None => None,
                Some(left) => match dict_get(ss, seq![101u8])  // "e"
                 {
                    Some(SpecValue::Array(es)) => match spec_entries(es) {
                        None => None,
                        Some(entries) => Some(Node { left, entries }),
                    },
                    _ => None,
                },
            }
        },
        _ => None,
    }
}

/// The mapping gathered by walking the tree at `cid`, with `fuel`
/// limiting the depth.
pub open spec fn spec_walk(
    blocks: Map<Seq<u8>, Seq<u8>>,
    cid: Seq<u8>,
    ignore: bool,
    fuel: int,
) -> Option<Map<Seq<u8>, Seq<u8>>>
    decreases fuel, 1int, 0int,
{
    if fuel <= 0 {
        None
    } else if !blocks.contains_key(cid) {
        if ignore {
            Some(Map::empty())
        } else {
            None
        }
    } else {
        match spec_decode(blocks[cid]) {
            None => None,
            Some(sv) => match spec_node(sv) {
                None => None,
                Some(node) => {
                    let base = match node.left {
                        Some(lc) => spec_walk(blocks, lc, ignore, fuel - 1),
                        None => Some(Map::empty()),
                    };
                    match base {
                        None => None,
                        Some(m0) => spec_walk_entries(
                            blocks,
                            node.entries,
                            0,
                            Seq::empty(),
                            m0,
                            ignore,
                            fuel,
                        ),
                    }
                },
            },
        }
    }
}

/// Entries from `i` on, with `prev` the previous full key and `acc`
/// what is gathered so far.
pub open spec fn spec_walk_entries(
    blocks: Map<Seq<u8>, Seq<u8>>,
    entries: Seq<Entry>,
    i: int,
    prev: Seq<u8>,
    acc: Map<Seq<u8>, Seq<u8>>,
    ignore: bool,
    fuel: int,
) -> Option<Map<Seq<u8>, Seq<u8>>>
    decreases fuel, 0int, entries.len() - i,
{
    if fuel <= 0 {
        None
    } else if i < 0 || i >= entries.len() {
        Some(acc)
    } else {
        let e = entries[i];
        if e.prefix_len > prev.len() {
            None
        } else {
            let full = prev.subrange(0, e.prefix_len as int) + e.key_suffix;
            let acc2 = acc.insert(full, e.value);
            match e.right {
                None => spec_walk_entries(blocks, entries, i + 1, full, acc2, ignore, fuel),
                Some(rc) => match spec_walk(blocks, rc, ignore, fuel - 1) {
                    None => None,
                    Some(m) => spec_walk_entries(
                        blocks,
                        entries,
                        i + 1,
                        full,
                        acc2.union_prefer_right(m),
                        ignore,
                        fuel,
                    ),
                },
            }
        }
    }
}

/// Enough depth to reach every block of an acyclic tree.
pub open spec fn walk_fuel(blocks: KvStore) -> int {
    if blocks.rows_spec().len() < usize::MAX {
        blocks.rows_spec().len() as int + 1
    } else {
        blocks.rows_spec().len() as int
    }
}

pub struct Decoder {
    ignore_missing: bool,
}

impl Decoder {
    pub closed spec fn spec_ignore(self) -> bool {
        self.ignore_missing
    }

    pub fn new() -> (r: Decoder)
        ensures
            !r.spec_ignore(),
    {
        Decoder { ignore_missing: false }
    }

    /// Choose whether missing subtrees fail the walk or contribute
    /// nothing.
    pub fn ignore_missing(&mut self, ignore_missing: bool)
        ensures
            final(self).spec_ignore() == ignore_missing,
    {
        self.ignore_missing = ignore_missing;
    }

    /// Walk the tree rooted at `cid` over `blocks`, reconstructing the
    /// full key to value-CID mapping.
    pub fn decode(&self, blocks: &KvStore, cid: &[u8]) -> (r: Result<KvStore, Error>)
        requires
            blocks.wf(),
        ensures
            match r {
                Ok(m) => m.wf() && spec_walk(blocks@, cid@, self.spec_ignore(), walk_fuel(*blocks))
                    == Some(m@),
                Err(_) => spec_walk(blocks@, cid@, self.spec_ignore(), walk_fuel(*blocks)) is None,
            },
            r matches Err(Error::MissingCid(c)) ==> !self.spec_ignore() && !blocks@.contains_key(
                c@,
            ),
    {
        let n = blocks.len();
        let fuel = if n < usize::MAX {
            n + 1
        } else {
            n
        };
        walk_at(blocks, cid, self.ignore_missing, fuel)
    }
}

/// Merge `other` over `acc`: later wins.
fn kv_merge(acc: &mut KvStore, other: &KvStore)
    requires
        old(acc).wf(),
        other.wf(),
    ensures
        final(acc).wf(),
        final(acc)@ == old(acc)@.union_prefer_right(other@),
{
    let ghost acc0 = *old(acc);
    proof {
        other.lemma_view_rows();
    }
    let rows = other.entries();
    let n = rows.len();
    let mut i: usize = 0;
    while i < n
        invariant
            acc.wf(),
            other.wf(),
            n == other.rows_spec().len(),
            i <= n,
            forall|k: Seq<u8>|
                #[trigger] acc@.contains_key(k) <==> acc0@.contains_key(k) || exists|j: int|
                    0 <= j < i && other.rows_spec()[j].0 == k,
            forall|k: Seq<u8>, j: int|
                0 <= j < i && #[trigger] other.rows_spec()[j].0 == k ==> #[trigger] acc@[k]
                    == other@[k],
            forall|k: Seq<u8>|
                #[trigger] acc@.contains_key(k) && !(exists|j: int|
                    0 <= j < i && other.rows_spec()[j].0 == k) ==> acc@[k] == acc0@[k],
        decreases n - i,
    {
        let rows2 = other.entries();
        let key = copy_bytes(&rows2[i].0);
        let val = copy_bytes(&rows2[i].1);
        proof {
            other.lemma_view_rows();
            let gi = i as int;
            assert(other@.contains_pair(other.rows_spec()[gi].0, other.rows_spec()[gi].1));
        }
        acc.put(key, val);
        proof {
            assert forall|k: Seq<u8>| #[trigger]
                acc@.contains_key(k) implies acc0@.contains_key(k) || exists|j: int|
                0 <= j < i + 1 && other.rows_spec()[j].0 == k by {
                if k == other.rows_spec()[i as int].0 {
                    assert(0 <= i < i + 1 && other.rows_spec()[i as int].0 == k);
                } else {
                    if !acc0@.contains_key(k) {
                        let j = choose|j: int| 0 <= j < i && other.rows_spec()[j].0 == k;
                        assert(0 <= j < i + 1 && other.rows_spec()[j].0 == k);
                    }
                }
            }
        }
        i = i + 1;
    }
    proof {
        assert forall|k: Seq<u8>|
            #[trigger] other@.contains_key(k) implies exists|j: int|
            0 <= j < n && other.rows_spec()[j].0 == k by {
            let j = other.index_of(k);
            assert(other.rows_spec()[j].0 == k);
        }
        assert(acc@ =~= acc0@.union_prefer_right(other@));
    }
}

/// Read one optional subtree link out of a decoded map.
fn link_of(items: &Vec<(Value, Value)>, key: &[u8], Ghost(ss): Ghost<Seq<(SpecValue, SpecValue)>>)
    -> (r: Result<Option<Vec<u8>>, Error>)
    requires
        ss.len() == items@.len(),
        forall|i: int|
            0 <= i < ss.len() ==> rep(#[trigger] items@[i].0, ss[i].0) && rep(
                items@[i].1,
                ss[i].1,
            ),
    ensures
        match r {
            Ok(l) => spec_link(dict_get(ss, key@)) == Some(
                match l {
                    Some(c) => Some(c@),
                    None => None,
                },
            ),
            Err(_) => spec_link(dict_get(ss, key@)) is None,
        },
        r is Err ==> r matches Err(Error::NodeMalformed),
{
    match crate::cbor::dict_get_exec(items, key, Ghost(ss)) {
        None => Ok(None),
        Some(v) => {
            let ghost sv = dict_get(ss, key@)->Some_0;
            proof {
                crate::cbor::lemma_rep_inversion(*v, sv);
            }
            match v {
                Value::Null => Ok(None),
                _ => match extract_cid(v, Ghost(sv)) {
                    Ok(c) => Ok(Some(c)),
                    Err(_) => {
                        proof {
                            if sv is Null {
                                assert(false);
                            }
                        }
                        Err(Error::NodeMalformed)
                    },
                },
            }
        },
    }
}

/// Decode a node block into its entry list and left link.
fn node_of(bytes: &[u8]) -> (r: Result<(Option<Vec<u8>>, Vec<(u64, Vec<u8>, Vec<u8>, Option<Vec<u8>>)>), Error>)
    ensures
        match r {
            Ok(p) => {
                &&& spec_decode(bytes@) matches Some(sv)
                &&& spec_node(sv) matches Some(node)
                &&& node.left == (match p.0 {
                    Some(c) => Some(c@),
                    None => None::<Seq<u8>>,
                })
                &&& node.entries.len() == p.1@.len()
                &&& forall|i: int|
                    0 <= i < node.entries.len() ==> {
                        let e = #[trigger] node.entries[i];
                        let x = p.1@[i];
                        e.prefix_len == x.0 && e.key_suffix == x.1@ && e.value == x.2@ && e.right
                            == (match x.3 {
                            Some(c) => Some(c@),
                            None => None::<Seq<u8>>,
                        })
                    }
            },
            Err(_) => spec_decode(bytes@) is None || spec_node(spec_decode(bytes@)->Some_0)
                is None,
        },
        r is Err ==> r matches Err(Error::NodeMalformed),
{
    let hv = match decode(bytes) {
        Some(v) => v,
        None => {
            return Err(Error::NodeMalformed);
        },
    };
    let ghost hsv = spec_decode(bytes@)->Some_0;
    proof {
        crate::cbor::lemma_rep_inversion(hv, hsv);
    }
    let items = match &hv {
        Value::Dict(items) => items,
        _ => {
            return Err(Error::NodeMalformed);
        },
    };
    let ghost ss = hsv->Dict_0;
    let lk: [u8; 1] = [108u8];
    proof {
        assert(lk@ =~= seq![108u8]);
    }
    let left = match link_of(items, lk.as_slice(), Ghost(ss)) {
        Ok(l) => l,
        Err(e) => {
            return Err(e);
        },
    };
    let ek: [u8; 1] = [101u8];
    let es_v = match crate::cbor::dict_get_exec(items, ek.as_slice(), Ghost(ss)) {
        Some(v) => v,
        None => {
            proof {
                assert(ek@ =~= seq![101u8]);
            }
            return Err(Error::NodeMalformed);
        },
    };
    proof {
        assert(ek@ =~= seq![101u8]);
    }
    let ghost es_sv = dict_get(ss, seq![101u8])->Some_0;
    proof {
        crate::cbor::lemma_rep_inversion(*es_v, es_sv);
    }
    let e_items = match es_v {
        Value::Array(rs) => rs,
        _ => {
            return Err(Error::NodeMalformed);
        },
    };
    let ghost es = es_sv->Array_0;
    let mut out: Vec<(u64, Vec<u8>, Vec<u8>, Option<Vec<u8>>)> = Vec::new();
    let n = e_items.len();
    let mut i: usize = 0;
    while i < n
        invariant
            spec_decode(bytes@) == Some(hsv),
            hsv == SpecValue::Dict(ss),
            spec_link(dict_get(ss, seq![108u8])) is Some,
            dict_get(ss, seq![101u8]) == Some(SpecValue::Array(es)),
            n == e_items@.len(),
            es.len() == n,
            i <= n,
            forall|j: int| 0 <= j < es.len() ==> rep(e_items@[j], #[trigger] es[j]),
            out@.len() == i,
            forall|j: int| 0 <= j < i ==> spec_entry(#[trigger] es[j]) is Some,
            forall|j: int|
                0 <= j < i ==> {
                    let e = spec_entry(#[trigger] es[j])->Some_0;
                    let x = out@[j];
                    e.prefix_len == x.0 && e.key_suffix == x.1@ && e.value == x.2@ && e.right
                        == (match x.3 {
                        Some(c) => Some(c@),
                        None => None::<Seq<u8>>,
                    })
                },
        decreases n - i,
    {
        let ghost esv = es[i as int];
        proof {
            crate::cbor::lemma_rep_inversion(e_items@[i as int], esv);
        }
        let ei = match &e_items[i] {
            Value::Dict(m) => m,
            _ => {
                proof {
                    lemma_bad_entry(hsv, ss, es, i as int);
                }
                return Err(Error::NodeMalformed);
            },
        };
        let ghost eis = esv->Dict_0;
        let pk: [u8; 1] = [112u8];
        let p_val = match crate::cbor::dict_get_exec(ei, pk.as_slice(), Ghost(eis)) {
            Some(v) => v,
            None => {
                proof {
                    assert(pk@ =~= seq![112u8]);
                    lemma_bad_entry(hsv, ss, es, i as int);
                }
                return Err(Error::NodeMalformed);
            },
        };
        proof {
            assert(pk@ =~= seq![112u8]);
            crate::cbor::lemma_rep_inversion(*p_val, dict_get(eis, seq![112u8])->Some_0);
        }
        let pl = match p_val {
            Value::UInt(pl) => *pl,
            _ => {
                proof {
                    lemma_bad_entry(hsv, ss, es, i as int);
                }
                return Err(Error::NodeMalformed);
            },
        };
        if pl > u32::MAX as u64 {
            proof {
                lemma_bad_entry(hsv, ss, es, i as int);
            }
            return Err(Error::NodeMalformed);
        }
        let kk: [u8; 1] = [107u8];
        let k_val = match crate::cbor::dict_get_exec(ei, kk.as_slice(), Ghost(eis)) {
            Some(v) => v,
            None => {
                proof {
                    assert(kk@ =~= seq![107u8]);
                    lemma_bad_entry(hsv, ss, es, i as int);
                }
                return Err(Error::NodeMalformed);
            },
        };
        proof {
            assert(kk@ =~= seq![107u8]);
            crate::cbor::lemma_rep_inversion(*k_val, dict_get(eis, seq![107u8])->Some_0);
        }
        let suffix = match k_val {
            Value::Bytes(b) => copy_bytes(b.as_slice()),
            _ => {
                proof {
                    lemma_bad_entry(hsv, ss, es, i as int);
                }
                return Err(Error::NodeMalformed);
            },
        };
        let vk: [u8; 1] = [118u8];
        let v_val = match crate::cbor::dict_get_exec(ei, vk.as_slice(), Ghost(eis)) {
            Some(v) => v,
            None => {
                proof {
                    assert(vk@ =~= seq![118u8]);
                    lemma_bad_entry(hsv, ss, es, i as int);
                }
                return Err(Error::NodeMalformed);
            },
        };
        proof {
            assert(vk@ =~= seq![118u8]);
        }
        let vc = match extract_cid(v_val, Ghost(dict_get(eis, seq![118u8])->Some_0)) {
            Ok(c) => c,
            Err(_) => {
                proof {
                    lemma_bad_entry(hsv, ss, es, i as int);
                }
                return Err(Error::NodeMalformed);
            },
        };
        let tk: [u8; 1] = [116u8];
        let right = match link_of(ei, tk.as_slice(), Ghost(eis)) {
            Ok(l) => l,
            Err(e) => {
                proof {
                    assert(tk@ =~= seq![116u8]);
                    lemma_bad_entry(hsv, ss, es, i as int);
                }
                return Err(e);
            },
        };
        proof {
            assert(tk@ =~= seq![116u8]);
        }
        out.push((pl, suffix, vc, right));
        i = i + 1;
    }
    proof {
        assert(spec_entries(es) is Some);
        assert(spec_node(hsv) is Some);
        assert(spec_entries(es)->Some_0 =~= Seq::new(es.len(), |j: int| spec_entry(es[j])->Some_0));
    }
    Ok((left, out))
}


/// One malformed entry makes the whole node malformed.
proof fn lemma_bad_entry(hsv: SpecValue, ss: Seq<(SpecValue, SpecValue)>, es: Seq<SpecValue>, i: int)
    requires
        hsv == SpecValue::Dict(ss),
        spec_link(dict_get(ss, seq![108u8])) is Some,
        dict_get(ss, seq![101u8]) == Some(SpecValue::Array(es)),
        0 <= i < es.len(),
        spec_entry(es[i]) is None,
    ensures
        spec_node(hsv) is None,
{
    assert(spec_entries(es) is None);
}

/// One walk step; `fuel` bounds the depth.
fn walk_at(blocks: &KvStore, cid: &[u8], ignore: bool, fuel: usize) -> (r: Result<KvStore, Error>)
    requires
        blocks.wf(),
    ensures
        match r {
            Ok(m) => m.wf() && spec_walk(blocks@, cid@, ignore, fuel as int) == Some(m@),
            Err(_) => spec_walk(blocks@, cid@, ignore, fuel as int) is None,
        },
        r matches Err(Error::MissingCid(c)) ==> !ignore && !blocks@.contains_key(c@),
    decreases fuel, 0int,
{
    if fuel == 0 {
        return Err(Error::DepthExceeded);
    }
    let bytes = match blocks.get(cid) {
        Some(b) => copy_bytes(b.as_slice()),
        None => {
            if ignore {
                return Ok(KvStore::new());
            }
            return Err(Error::MissingCid(copy_bytes(cid)));
        },
    };
    let (left, entries) = match node_of(&bytes) {
        Ok(x) => x,
        Err(e) => {
            return Err(e);
        },
    };
    let ghost node = spec_node(spec_decode(bytes@)->Some_0)->Some_0;
    let mut acc = match left {
        Some(lc) => {
            match walk_at(blocks, &lc, ignore, fuel - 1) {
                Ok(m) => m,
                Err(e) => {
                    return Err(e);
                },
            }
        },
        None => KvStore::new(),
    };
    let mut prev: Vec<u8> = Vec::new();
    let n = entries.len();
    let mut i: usize = 0;
    while i < n
        invariant
            blocks.wf(),
            acc.wf(),
            1 <= fuel,
            n == entries@.len(),
            node.entries.len() == n,
            i <= n,
            forall|j: int|
                0 <= j < node.entries.len() ==> {
                    let e = #[trigger] node.entries[j];
                    let x = entries@[j];
                    e.prefix_len == x.0 && e.key_suffix == x.1@ && e.value == x.2@ && e.right
                        == (match x.3 {
                        Some(c) => Some(c@),
                        None => None::<Seq<u8>>,
                    })
                },
            i == 0 ==> prev@ == Seq::<u8>::empty(),
            spec_walk(blocks@, cid@, ignore, fuel as int) == spec_walk_entries(
                blocks@,
                node.entries,
                i as int,
                prev@,
                acc@,
                ignore,
                fuel as int,
            ),
        decreases n - i,
    {
        let e_pl = entries[i].0;
        if e_pl > prev.len() as u64 {
            return Err(Error::NodeMalformed);
        }
        let mut full = copy_bytes(vstd::slice::slice_subrange(
            prev.as_slice(),
            0,
            e_pl as usize,
        ));
        let suffix = &entries[i].1;
        let mut j: usize = 0;
        let ghost full_mid = full@;
        while j < suffix.len()
            invariant
                j <= suffix@.len(),
                full@ == full_mid + suffix@.subrange(0, j as int),
            decreases suffix@.len() - j,
        {
            full.push(suffix[j]);
            proof {
                assert(full@ =~= full_mid + suffix@.subrange(0, j + 1));
            }
            j = j + 1;
        }
        proof {
            assert(suffix@.subrange(0, suffix@.len() as int) =~= suffix@);
            assert(full@ == prev@.subrange(0, e_pl as int) + suffix@);
        }
        acc.put(copy_bytes(&full), copy_bytes(&entries[i].2));
        match &entries[i].3 {
            Some(rc) => {
                let sub = match walk_at(blocks, rc, ignore, fuel - 1) {
                    Ok(m) => m,
                    Err(e) => {
                        return Err(e);
                    },
                };
                kv_merge(&mut acc, &sub);
            },
            None => {},
        }
        prev = full;
        i = i + 1;
    }
    proof {
        assert(spec_walk_entries(
            blocks@,
            node.entries,
            n as int,
            prev@,
            acc@,
            ignore,
            fuel as int,
        ) == Some(acc@));
    }
    Ok(acc)
}

/// The in-order (key, value) list a layout encodes: the walk order,
/// without any map machinery.
pub open spec fn denote(
    blocks: Map<Seq<u8>, Seq<u8>>,
    cid: Seq<u8>,
    ignore: bool,
    fuel: int,
) -> Option<Seq<(Seq<u8>, Seq<u8>)>>
    decreases fuel, 1int, 0int,
{
    if fuel <= 0 {
        None
    } else if !blocks.contains_key(cid) {
        if ignore {
            Some(Seq::empty())
        } else {
            None
        }
    } else {
        match spec_decode(blocks[cid]) {
            None => None,
            Some(sv) => match spec_node(sv) {
                None => None,
                Some(node) => {
                    let base = match node.left {
                        Some(lc) => denote(blocks, lc, ignore, fuel - 1),
                        None => Some(Seq::empty()),
                    };
                    match base {
                        None => None,
                        Some(ps) => denote_entries(
                            blocks,
                            node.entries,
                            0,
                            Seq::empty(),
                            ps,
                            ignore,
                            fuel,
                        ),
                    }
                },
            },
        }
    }
}

/// Entries from `i` on, as a pair list.
pub open spec fn denote_entries(
    blocks: Map<Seq<u8>, Seq<u8>>,
    entries: Seq<Entry>,
    i: int,
    prev: Seq<u8>,
    acc: Seq<(Seq<u8>, Seq<u8>)>,
    ignore: bool,
    fuel: int,
) -> Option<Seq<(Seq<u8>, Seq<u8>)>>
    decreases fuel, 0int, entries.len() - i,
{
    if fuel <= 0 {
        None
    } else if i < 0 || i >= entries.len() {
        Some(acc)
    } else {
        let e = entries[i];
        if e.prefix_len > prev.len() {
            None
        } else {
            let full = prev.subrange(0, e.prefix_len as int) + e.key_suffix;
            let acc2 = acc.push((full, e.value));
            match e.right {
                None => denote_entries(blocks, entries, i + 1, full, acc2, ignore, fuel),
                Some(rc) => match denote(blocks, rc, ignore, fuel - 1) {
                    None => None,
                    Some(ps) => denote_entries(
                        blocks,
                        entries,
                        i + 1,
                        full,
                        acc2 + ps,
                        ignore,
                        fuel,
                    ),
                },
            }
        }
    }
}

/// The map a pair list folds to: a later pair overrides an earlier one.
pub open spec fn list_to_map(ps: Seq<(Seq<u8>, Seq<u8>)>) -> Map<Seq<u8>, Seq<u8>>
    decreases ps.len(),
{
    if ps.len() == 0 {
        Map::empty()
    } else {
        list_to_map(ps.drop_last()).insert(ps.last().0, ps.last().1)
    }
}

proof fn lemma_list_to_map_concat(a: Seq<(Seq<u8>, Seq<u8>)>, b: Seq<(Seq<u8>, Seq<u8>)>)
    ensures
        list_to_map(a + b) == list_to_map(a).union_prefer_right(list_to_map(b)),
    decreases b.len(),
{
    if b.len() == 0 {
        assert(a + b =~= a);
        assert(list_to_map(a).union_prefer_right(list_to_map(b)) =~= list_to_map(a));
    } else {
        lemma_list_to_map_concat(a, b.drop_last());
        assert((a + b).drop_last() =~= a + b.drop_last());
        assert((a + b).last() == b.last());
        assert(list_to_map(a).union_prefer_right(
            list_to_map(b.drop_last()).insert(b.last().0, b.last().1),
        ) =~= list_to_map(a).union_prefer_right(list_to_map(b.drop_last())).insert(
            b.last().0,
            b.last().1,
        ));
    }
}

proof fn lemma_list_to_map_push(a: Seq<(Seq<u8>, Seq<u8>)>, p: (Seq<u8>, Seq<u8>))
    ensures
        list_to_map(a.push(p)) == list_to_map(a).insert(p.0, p.1),
{
    assert(a.push(p).drop_last() =~= a);
    assert(a.push(p).last() == p);
}

/// The walk is the fold of the denoted list: both succeed together,
/// and the walk's map is the list's last-wins map.
proof fn lemma_walk_denotes(blocks: Map<Seq<u8>, Seq<u8>>, cid: Seq<u8>, ignore: bool, fuel: int)
    ensures
        (spec_walk(blocks, cid, ignore, fuel) is Some) == (denote(blocks, cid, ignore, fuel)
            is Some),
        spec_walk(blocks, cid, ignore, fuel) is Some ==> spec_walk(blocks, cid, ignore, fuel)
            == Some(list_to_map(denote(blocks, cid, ignore, fuel)->Some_0)),
    decreases fuel, 1int, 0int,
{
    if fuel <= 0 {
    } else if !blocks.contains_key(cid) {
        if ignore {
            assert(list_to_map(Seq::empty()) =~= Map::<Seq<u8>, Seq<u8>>::empty());
        }
    } else {
        match spec_decode(blocks[cid]) {
            None => {},
            Some(sv) => match spec_node(sv) {
                None => {},
                Some(node) => {
                    match node.left {
                        Some(lc) => {
                            lemma_walk_denotes(blocks, lc, ignore, fuel - 1);
                        },
                        None => {
                            assert(list_to_map(Seq::empty()) =~= Map::<Seq<u8>, Seq<u8>>::empty());
                        },
                    }
                    match node.left {
                        Some(lc) => {
                            if spec_walk(blocks, lc, ignore, fuel - 1) is Some {
                                lemma_entries_denote(
                                    blocks,
                                    node.entries,
                                    0,
                                    Seq::empty(),
                                    denote(blocks, lc, ignore, fuel - 1)->Some_0,
                                    ignore,
                                    fuel,
                                );
                            }
                        },
                        None => {
                            lemma_entries_denote(
                                blocks,
                                node.entries,
                                0,
                                Seq::empty(),
                                Seq::empty(),
                                ignore,
                                fuel,
                            );
                        },
                    }
                },
            },
        }
    }
}

/// The entry walk is the fold of the denoted entry list.
proof fn lemma_entries_denote(
    blocks: Map<Seq<u8>, Seq<u8>>,
    entries: Seq<Entry>,
    i: int,
    prev: Seq<u8>,
    acc: Seq<(Seq<u8>, Seq<u8>)>,
    ignore: bool,
    fuel: int,
)
    ensures
        (spec_walk_entries(blocks, entries, i, prev, list_to_map(acc), ignore, fuel) is Some)
            == (denote_entries(blocks, entries, i, prev, acc, ignore, fuel) is Some),
        spec_walk_entries(blocks, entries, i, prev, list_to_map(acc), ignore, fuel) is Some
            ==> spec_walk_entries(blocks, entries, i, prev, list_to_map(acc), ignore, fuel)
            == Some(
            list_to_map(denote_entries(blocks, entries, i, prev, acc, ignore, fuel)->Some_0),
        ),
    decreases fuel, 0int, entries.len() - i,
{
    if fuel <= 0 {
    } else if i < 0 || i >= entries.len() {
    } else {
        let e = entries[i];
        if e.prefix_len > prev.len() {
        } else {
            let full = prev.subrange(0, e.prefix_len as int) + e.key_suffix;
            let acc2 = acc.push((full, e.value));
            lemma_list_to_map_push(acc, (full, e.value));
            match e.right {
                None => {
                    lemma_entries_denote(blocks, entries, i + 1, full, acc2, ignore, fuel);
                },
                Some(rc) => {
                    lemma_walk_denotes(blocks, rc, ignore, fuel - 1);
                    if spec_walk(blocks, rc, ignore, fuel - 1) is Some {
                        let ps = denote(blocks, rc, ignore, fuel - 1)->Some_0;
                        lemma_list_to_map_concat(acc2, ps);
                        lemma_entries_denote(
                            blocks,
                            entries,
                            i + 1,
                            full,
                            acc2 + ps,
                            ignore,
                            fuel,
                        );
                    }
                },
            }
        }
    }
}

/// Distinct keys mean nothing is overridden: the fold holds exactly
/// the listed pairs.
proof fn lemma_list_to_map_exact(ps: Seq<(Seq<u8>, Seq<u8>)>)
    requires
        forall|i: int, j: int| 0 <= i < j < ps.len() ==> (#[trigger] ps[i].0) != (#[trigger] ps[j].0),
    ensures
        forall|i: int|
            0 <= i < ps.len() ==> list_to_map(ps).contains_pair(
                (#[trigger] ps[i]).0,
                ps[i].1,
            ),
        forall|k: Seq<u8>|
            #[trigger] list_to_map(ps).contains_key(k) ==> exists|i: int|
                0 <= i < ps.len() && (#[trigger] ps[i]).0 == k,
    decreases ps.len(),
{
    if ps.len() > 0 {
        lemma_list_to_map_exact(ps.drop_last());
        assert forall|i: int|
            0 <= i < ps.len() implies list_to_map(ps).contains_pair(
            (#[trigger] ps[i]).0,
            ps[i].1,
        ) by {
            if i < ps.len() - 1 {
                assert(ps.drop_last()[i] == ps[i]);
                assert(list_to_map(ps.drop_last()).contains_pair(ps[i].0, ps[i].1));
                assert(ps[i].0 != ps.last().0);
            }
        }
        assert forall|k: Seq<u8>|
            #[trigger] list_to_map(ps).contains_key(k) implies exists|i: int|
            0 <= i < ps.len() && (#[trigger] ps[i]).0 == k by {
            if k != ps.last().0 {
                assert(list_to_map(ps.drop_last()).contains_key(k));
                let i = choose|i: int|
                    0 <= i < ps.drop_last().len() && (#[trigger] ps.drop_last()[i]).0 == k;
                assert(ps.drop_last()[i] == ps[i]);
                assert(0 <= i < ps.len() && ps[i].0 == k);
            } else {
                assert((ps[ps.len() - 1]).0 == k);
            }
        }
    }
}

/// The blocks at `cid` are a valid layout encoding the finite map `m`:
/// the in-order denotation exists, its full keys are strictly
/// increasing (sorted, hence unique), and folding it gives `m`.
pub open spec fn encodes(
    blocks: Map<Seq<u8>, Seq<u8>>,
    cid: Seq<u8>,
    fuel: int,
    m: Map<Seq<u8>, Seq<u8>>,
) -> bool {
    &&& denote(blocks, cid, false, fuel) matches Some(ps)
    &&& (forall|i: int, j: int|
        0 <= i < j < ps.len() ==> crate::bytes::lex_lt(
            (#[trigger] ps[i]).0,
            (#[trigger] ps[j]).0,
        ))
    &&& m == list_to_map(ps)
}

/// Whatever valid layout was chosen, the walker reconstructs exactly
/// the encoded mapping: every encoded pair is in the result, and
/// nothing else is.
pub proof fn lemma_encodes_round_trip(
    blocks: Map<Seq<u8>, Seq<u8>>,
    cid: Seq<u8>,
    fuel: int,
    m: Map<Seq<u8>, Seq<u8>>,
)
    requires
        encodes(blocks, cid, fuel, m),
    ensures
        spec_walk(blocks, cid, false, fuel) == Some(m),
{
    let ps = denote(blocks, cid, false, fuel)->Some_0;
    lemma_walk_denotes(blocks, cid, false, fuel);
}

/// A layout that denotes a list of pairs with pairwise-distinct keys
/// walks to exactly that mapping: every listed pair is in the result,
/// and nothing else is.
pub proof fn lemma_round_trip(
    blocks: Map<Seq<u8>, Seq<u8>>,
    cid: Seq<u8>,
    ignore: bool,
    fuel: int,
    ps: Seq<(Seq<u8>, Seq<u8>)>,
)
    requires
        denote(blocks, cid, ignore, fuel) == Some(ps),
        forall|i: int, j: int| 0 <= i < j < ps.len() ==> (#[trigger] ps[i].0) != (#[trigger] ps[j].0),
    ensures
        spec_walk(blocks, cid, ignore, fuel) matches Some(m) && (forall|i: int|
            0 <= i < ps.len() ==> m.contains_pair((#[trigger] ps[i]).0, ps[i].1)) && (forall|
            k: Seq<u8>,
        |
            #[trigger] m.contains_key(k) ==> exists|i: int|
                0 <= i < ps.len() && (#[trigger] ps[i]).0 == k),
{
    lemma_walk_denotes(blocks, cid, ignore, fuel);
    lemma_list_to_map_exact(ps);
}

} // verus!

//! The identity (PLC) mirror store.
//!
//! Each identity record associates a DID with its also-known-as
//! aliases. Two symmetric index tables hold one row per association:
//! `did NUL aka` and `aka NUL did`, so both directions can be listed by
//! a prefix scan.

use vstd::prelude::*;
use vstd::utf8::{decode_utf8, encode_utf8, valid_utf8};

use crate::bytes::{has_prefix, lemma_lex_prefix_cancel, lex_lt, nul_free};
use crate::keys::{join_parts, lemma_join_injective, lemma_nul_split_unique};
use crate::kv::{copy_bytes, KvStore};

verus! {

/// The error kind of on-disk corruption: a row that does not decode as
/// the schema demands. The store's invariant makes it unreachable
/// through the verified operations.
#[derive(Debug)]
pub enum Error {
    MalformedKey(Vec<u8>),
}

/// Both halves of an association are NUL-free valid UTF-8.
pub open spec fn pair_ok(p: (Seq<u8>, Seq<u8>)) -> bool {
    nul_free(p.0) && nul_free(p.1) && valid_utf8(p.0) && valid_utf8(p.1)
}

pub open spec fn pairs_ok(m: Set<(Seq<u8>, Seq<u8>)>) -> bool {
    forall|p: (Seq<u8>, Seq<u8>)| #[trigger] m.contains(p) ==> pair_ok(p)
}

/// The row key `x NUL y`.
pub open spec fn row_key(x: Seq<u8>, y: Seq<u8>) -> Seq<u8> {
    x + seq![0u8] + y
}

/// Keys of two NUL-free parts decompose uniquely.
pub proof fn lemma_row_key_injective(x: Seq<u8>, y: Seq<u8>, x2: Seq<u8>, y2: Seq<u8>)
    requires
        nul_free(x),
        nul_free(x2),
        row_key(x, y) == row_key(x2, y2),
    ensures
        x == x2 && y == y2,
{
    lemma_nul_split_unique(x, y, x2, y2);
}

/// The `did NUL aka` rows of an association set.
pub open spec fn da_image(m: Set<(Seq<u8>, Seq<u8>)>) -> Map<Seq<u8>, Seq<u8>> {
    Map::new(
        |k: Seq<u8>|
            exists|p: (Seq<u8>, Seq<u8>)| #[trigger] m.contains(p) && k == row_key(p.0, p.1),
        |k: Seq<u8>| Seq::empty(),
    )
}

/// The `aka NUL did` rows of an association set.
pub open spec fn ad_image(m: Set<(Seq<u8>, Seq<u8>)>) -> Map<Seq<u8>, Seq<u8>> {
    Map::new(
        |k: Seq<u8>|
            exists|p: (Seq<u8>, Seq<u8>)| #[trigger] m.contains(p) && k == row_key(p.1, p.0),
        |k: Seq<u8>| Seq::empty(),
    )
}

/// Inserting an association adds its two rows.
proof fn lemma_pair_image_insert(m: Set<(Seq<u8>, Seq<u8>)>, q: (Seq<u8>, Seq<u8>))
    ensures
        da_image(m.insert(q)) == da_image(m).insert(row_key(q.0, q.1), Seq::<u8>::empty()),
        ad_image(m.insert(q)) == ad_image(m).insert(row_key(q.1, q.0), Seq::<u8>::empty()),
{
    let m2 = m.insert(q);
    assert forall|k: Seq<u8>| #[trigger] da_image(m2).contains_key(k) implies da_image(m).insert(
        row_key(q.0, q.1),
        Seq::<u8>::empty(),
    ).contains_key(k) by {
        let p = choose|p: (Seq<u8>, Seq<u8>)| #[trigger] m2.contains(p) && k == row_key(p.0, p.1);
        if p != q {
            assert(m.contains(p) && k == row_key(p.0, p.1));
        }
    }
    assert forall|k: Seq<u8>| #[trigger] da_image(m).insert(
        row_key(q.0, q.1),
        Seq::<u8>::empty(),
    ).contains_key(k) implies da_image(m2).contains_key(k) by {
        if k == row_key(q.0, q.1) {
            assert(m2.contains(q) && k == row_key(q.0, q.1));
        } else {
            let p = choose|p: (Seq<u8>, Seq<u8>)| #[trigger] m.contains(p) && k == row_key(
                p.0,
                p.1,
            );
            assert(m2.contains(p) && k == row_key(p.0, p.1));
        }
    }
    assert(da_image(m2) =~= da_image(m).insert(row_key(q.0, q.1), Seq::<u8>::empty()));
    assert forall|k: Seq<u8>| #[trigger] ad_image(m2).contains_key(k) implies ad_image(m).insert(
        row_key(q.1, q.0),
        Seq::<u8>::empty(),
    ).contains_key(k) by {
        let p = choose|p: (Seq<u8>, Seq<u8>)| #[trigger] m2.contains(p) && k == row_key(p.1, p.0);
        if p != q {
            assert(m.contains(p) && k == row_key(p.1, p.0));
        }
    }
    assert forall|k: Seq<u8>| #[trigger] ad_image(m).insert(
        row_key(q.1, q.0),
        Seq::<u8>::empty(),
    ).contains_key(k) implies ad_image(m2).contains_key(k) by {
        if k == row_key(q.1, q.0) {
            assert(m2.contains(q) && k == row_key(q.1, q.0));
        } else {
            let p = choose|p: (Seq<u8>, Seq<u8>)| #[trigger] m.contains(p) && k == row_key(
                p.1,
                p.0,
            );
            assert(m2.contains(p) && k == row_key(p.1, p.0));
        }
    }
    assert(ad_image(m2) =~= ad_image(m).insert(row_key(q.1, q.0), Seq::<u8>::empty()));
}

/// Removing an association removes exactly its two rows.
proof fn lemma_pair_image_remove(m: Set<(Seq<u8>, Seq<u8>)>, q: (Seq<u8>, Seq<u8>))
    requires
        pairs_ok(m),
        pair_ok(q),
    ensures
        da_image(m.remove(q)) == da_image(m).remove(row_key(q.0, q.1)),
        ad_image(m.remove(q)) == ad_image(m).remove(row_key(q.1, q.0)),
{
    let m2 = m.remove(q);
    assert forall|k: Seq<u8>| #[trigger] da_image(m2).contains_key(k) implies da_image(m).remove(
        row_key(q.0, q.1),
    ).contains_key(k) by {
        let p = choose|p: (Seq<u8>, Seq<u8>)| #[trigger] m2.contains(p) && k == row_key(p.0, p.1);
        assert(m.contains(p));
        if k == row_key(q.0, q.1) {
            lemma_row_key_injective(p.0, p.1, q.0, q.1);
        }
    }
    assert forall|k: Seq<u8>| #[trigger] da_image(m).remove(
        row_key(q.0, q.1),
    ).contains_key(k) implies da_image(m2).contains_key(k) by {
        let p = choose|p: (Seq<u8>, Seq<u8>)| #[trigger] m.contains(p) && k == row_key(p.0, p.1);
        if p == q {
            assert(k == row_key(q.0, q.1));
        }
        assert(m2.contains(p) && k == row_key(p.0, p.1));
    }
    assert(da_image(m2) =~= da_image(m).remove(row_key(q.0, q.1)));
    assert forall|k: Seq<u8>| #[trigger] ad_image(m2).contains_key(k) implies ad_image(m).remove(
        row_key(q.1, q.0),
    ).contains_key(k) by {
        let p = choose|p: (Seq<u8>, Seq<u8>)| #[trigger] m2.contains(p) && k == row_key(p.1, p.0);
        assert(m.contains(p));
        if k == row_key(q.1, q.0) {
            lemma_row_key_injective(p.1, p.0, q.1, q.0);
        }
    }
    assert forall|k: Seq<u8>| #[trigger] ad_image(m).remove(
        row_key(q.1, q.0),
    ).contains_key(k) implies ad_image(m2).contains_key(k) by {
        let p = choose|p: (Seq<u8>, Seq<u8>)| #[trigger] m.contains(p) && k == row_key(p.1, p.0);
        if p == q {
            assert(k == row_key(q.1, q.0));
        }
        assert(m2.contains(p) && k == row_key(p.1, p.0));
    }
    assert(ad_image(m2) =~= ad_image(m).remove(row_key(q.1, q.0)));
}

pub struct Schema {
    did_aka_index: KvStore,
    aka_did_index: KvStore,
    model: Ghost<Set<(Seq<u8>, Seq<u8>)>>,
}

impl Schema {
    /// The logical state: the set of (did, aka) associations.
    pub closed spec fn pairs(self) -> Set<(Seq<u8>, Seq<u8>)> {
        self.model@
    }

    pub closed spec fn wf(self) -> bool {
        &&& self.did_aka_index.wf()
        &&& self.aka_did_index.wf()
        &&& pairs_ok(self.model@)
        &&& self.did_aka_index@ == da_image(self.model@)
        &&& self.aka_did_index@ == ad_image(self.model@)
    }

    pub fn create() -> (r: Schema)
        ensures
            r.wf(),
            r.pairs() == Set::<(Seq<u8>, Seq<u8>)>::empty(),
    {
        let r = Schema {
            did_aka_index: KvStore::new(),
            aka_did_index: KvStore::new(),
            model: Ghost(Set::empty()),
        };
        proof {
            assert(r.did_aka_index@ =~= da_image(r.model@));
            assert(r.aka_did_index@ =~= ad_image(r.model@));
        }
        r
    }
}

/// Record every given alias for `did` in both directions.
pub fn add_did(schema: &mut Schema, did: &str, akas: &[&str]) -> (r: Result<(), Error>)
    requires
        old(schema).wf(),
        nul_free(encode_utf8(did@)),
        forall|i: int| 0 <= i < akas@.len() ==> nul_free(encode_utf8(#[trigger] akas@[i]@)),
    ensures
        r is Ok,
        final(schema).wf(),
        final(schema).pairs() == old(schema).pairs().union(
            aka_pairs(encode_utf8(did@), akas@),
        ),
{
    let ghost d = encode_utf8(did@);
    let ghost m0 = schema.pairs();
    proof {
        vstd::utf8::encode_utf8_valid_utf8(did@);
        assert(schema.pairs() =~= m0.union(aka_pairs(d, akas@.take(0))));
    }
    let n = akas.len();
    let mut i: usize = 0;
    while i < n
        invariant
            schema.wf(),
            d == encode_utf8(did@),
            nul_free(d),
            valid_utf8(d),
            n == akas@.len(),
            i <= n,
            forall|x: int| 0 <= x < akas@.len() ==> nul_free(encode_utf8(#[trigger] akas@[x]@)),
            schema.pairs() == m0.union(aka_pairs(d, akas@.take(i as int))),
        decreases n - i,
    {
        let aka = akas[i];
        proof {
            vstd::utf8::encode_utf8_valid_utf8(aka@);
        }
        let db = did.as_bytes();
        let ab = aka.as_bytes();
        let dk = crate::follows::join2(db, ab);
        let ak = crate::follows::join2(ab, db);
        let ghost before = *schema;
        schema.did_aka_index.put(dk, Vec::new());
        schema.aka_did_index.put(ak, Vec::new());
        proof {
            let q = (d, encode_utf8(aka@));
            schema.model = Ghost(before.model@.insert(q));
            lemma_pair_image_insert(before.model@, q);
            assert(schema.did_aka_index@ == da_image(schema.model@));
            assert(schema.aka_did_index@ == ad_image(schema.model@));
            assert forall|p: (Seq<u8>, Seq<u8>)| #[trigger]
                schema.model@.contains(p) implies pair_ok(p) by {
                if p != q {
                    assert(before.model@.contains(p));
                }
            }
            assert(akas@.take(i + 1) =~= akas@.take(i as int).push(akas@[i as int]));
            lemma_aka_pairs_push(d, akas@.take(i as int), akas@[i as int]);
            assert(schema.pairs() =~= m0.union(aka_pairs(d, akas@.take(i + 1))));
        }
        i = i + 1;
    }
    proof {
        assert(akas@.take(n as int) =~= akas@);
    }
    Ok(())
}

/// The associations named by one `add_did` call.
pub open spec fn aka_pairs(d: Seq<u8>, akas: Seq<&str>) -> Set<(Seq<u8>, Seq<u8>)> {
    Set::new(
        |p: (Seq<u8>, Seq<u8>)|
            p.0 == d && exists|i: int| 0 <= i < akas.len() && p.1 == encode_utf8(#[trigger] akas[i]@),
    )
}

proof fn lemma_aka_pairs_push(d: Seq<u8>, akas: Seq<&str>, x: &str)
    ensures
        aka_pairs(d, akas.push(x)) == aka_pairs(d, akas).insert((d, encode_utf8(x@))),
{
    let s1 = aka_pairs(d, akas.push(x));
    let s2 = aka_pairs(d, akas).insert((d, encode_utf8(x@)));
    assert forall|p: (Seq<u8>, Seq<u8>)| #[trigger] s1.contains(p) implies s2.contains(p) by {
        let i = choose|i: int|
            0 <= i < akas.push(x).len() && p.1 == encode_utf8(#[trigger] akas.push(x)[i]@);
        if i < akas.len() {
            assert(akas.push(x)[i] == akas[i]);
            assert(aka_pairs(d, akas).contains(p));
        } else {
            assert(akas.push(x)[i] == x);
        }
    }
    assert forall|p: (Seq<u8>, Seq<u8>)| #[trigger] s2.contains(p) implies s1.contains(p) by {
        if p == (d, encode_utf8(x@)) {
            assert(akas.push(x)[akas.len() as int] == x);
            assert(0 <= akas.len() < akas.push(x).len() && p.1 == encode_utf8(
                akas.push(x)[akas.len() as int]@,
            ));
        } else {
            let i = choose|i: int|
                0 <= i < akas.len() && p.1 == encode_utf8(#[trigger] akas[i]@);
            assert(akas.push(x)[i] == akas[i]);
            assert(0 <= i < akas.push(x).len() && p.1 == encode_utf8(akas.push(x)[i]@));
        }
    }
    assert(s1 =~= s2);
}

/// The associations of every DID but `d`.
pub open spec fn drop_did(m: Set<(Seq<u8>, Seq<u8>)>, d: Seq<u8>) -> Set<(Seq<u8>, Seq<u8>)> {
    Set::new(|p: (Seq<u8>, Seq<u8>)| m.contains(p) && p.0 != d)
}

/// Forget `did` and every alias association it has.
#[verifier::rlimit(50)]
pub fn delete_did(schema: &mut Schema, did: &str) -> (r: Result<(), Error>)
    requires
        old(schema).wf(),
        nul_free(encode_utf8(did@)),
    ensures
        r is Ok,
        final(schema).wf(),
        final(schema).pairs() == drop_did(old(schema).pairs(), encode_utf8(did@)),
{
    let ghost d = encode_utf8(did@);
    let ghost m0 = schema.pairs();
    let db = did.as_bytes();
    let mut prefix = copy_bytes(db);
    prefix.push(0u8);
    proof {
        assert(prefix@ =~= d + seq![0u8]);
    }
    let rows = schema.did_aka_index.prefix_scan(&prefix);
    let ghost mut done: Set<(Seq<u8>, Seq<u8>)> = Set::empty();
    let n = rows.len();
    let mut j: usize = 0;
    proof {
        assert(schema.pairs() =~= m0.difference(done));
    }
    while j < n
        invariant
            schema.wf(),
            nul_free(d),
            db@ == d,
            prefix@ == d + seq![0u8],
            n == rows@.len(),
            j <= n,
            pairs_ok(m0),
            forall|x: int|
                0 <= x < rows@.len() ==> da_image(m0).contains_key(#[trigger] rows@[x].0@)
                    && has_prefix(rows@[x].0@, prefix@),
            forall|x: int, y: int| 0 <= x < y < rows@.len() ==> lex_lt(rows@[x].0@, rows@[y].0@),
            forall|k: Seq<u8>|
                #[trigger] da_image(m0).contains_key(k) && has_prefix(k, prefix@) ==> exists|x: int|
                    0 <= x < rows@.len() && rows@[x].0@ == k,
            schema.pairs() == m0.difference(done),
            forall|p: (Seq<u8>, Seq<u8>)| #[trigger] done.contains(p) ==> m0.contains(p) && p.0 == d,
            forall|x: int|
                j <= x < rows@.len() ==> !done.contains(pair_of(m0, #[trigger] rows@[x].0@)),
            forall|x: int|
                0 <= x < j ==> done.contains(pair_of(m0, #[trigger] rows@[x].0@)),
        decreases n - j,
    {
        let ghost k = rows@[j as int].0@;
        let ghost q = pair_of(m0, k);
        proof {
            assert(da_image(m0).contains_key(k));
            assert(m0.contains(q) && k == row_key(q.0, q.1));
            let rest = k.skip(prefix@.len() as int);
            assert(k =~= prefix@ + rest);
            assert(q.0 + seq![0u8] + q.1 =~= k);
            assert(d + seq![0u8] + rest =~= prefix@ + rest);
            lemma_nul_split_unique(q.0, q.1, d, rest);
            assert(q.0 == d);
            assert(schema.pairs().contains(q));
        }
        let raw = crate::keys::split_bytes(&rows[j].0);
        proof {
            crate::follows::lemma_2(seq![q.0, q.1]);
            lemma_join_injective(raw@.map(|i: int, v: Vec<u8>| v@), seq![q.0, q.1]);
        }
        if raw.len() != 2 {
            proof {
                assert(false);
            }
            return Err(Error::MalformedKey(copy_bytes(&rows[j].0)));
        }
        let aka = copy_bytes(&raw[1]);
        proof {
            assert(aka@ == q.1);
        }
        let ghost before = *schema;
        schema.did_aka_index.delete(&rows[j].0);
        let mirror = crate::follows::join2(&aka, db);
        proof {
            assert(db@ == d);
            assert(aka@ == q.1);
            assert(q.0 == d);
            assert(mirror@ == aka@ + seq![0u8] + db@);
            assert(mirror@ =~= row_key(q.1, q.0));
        }
        schema.aka_did_index.delete(&mirror);
        proof {
            schema.model = Ghost(before.model@.remove(q));
            lemma_pair_image_remove(before.model@, q);
            assert(schema.did_aka_index@ == da_image(schema.model@));
            assert(schema.aka_did_index@ == ad_image(schema.model@));
            assert forall|p: (Seq<u8>, Seq<u8>)| #[trigger]
                schema.model@.contains(p) implies pair_ok(p) by {
                assert(before.model@.contains(p));
            }
            let done2 = done.insert(q);
            assert(schema.pairs() =~= m0.difference(done2));
            done = done2;
            assert forall|x: int|
                j + 1 <= x < rows@.len() implies !done.contains(
                pair_of(m0, #[trigger] rows@[x].0@),
            ) by {
                let ox = pair_of(m0, rows@[x].0@);
                assert(da_image(m0).contains_key(rows@[x].0@));
                assert(m0.contains(ox) && rows@[x].0@ == row_key(ox.0, ox.1));
                if ox == q {
                    assert(rows@[x].0@ == k);
                    assert(lex_lt(rows@[j as int].0@, rows@[x].0@));
                    crate::bytes::lemma_lex_lt_irreflexive(k);
                }
            }
        }
        j = j + 1;
    }
    proof {
        assert forall|p: (Seq<u8>, Seq<u8>)|
            #[trigger] m0.contains(p) && p.0 == d implies done.contains(p) by {
            let k = row_key(p.0, p.1);
            assert(m0.contains(p) && k == row_key(p.0, p.1));
            assert(da_image(m0).contains_key(k));
            assert(k =~= (d + seq![0u8]) + p.1);
            assert((d + seq![0u8] + p.1).subrange(0, prefix@.len() as int) =~= prefix@);
            let x = choose|x: int| 0 <= x < rows@.len() && rows@[x].0@ == k;
            let ox = pair_of(m0, k);
            assert(m0.contains(ox) && k == row_key(ox.0, ox.1));
            lemma_row_key_injective(ox.0, ox.1, p.0, p.1);
            assert(ox.0 == p.0 && ox.1 == p.1);
            assert(ox == p);
            assert(done.contains(ox));
        }
        assert(schema.pairs() =~= drop_did(m0, d));
    }
    Ok(())
}

/// The association behind a forward index key.
pub open spec fn pair_of(m: Set<(Seq<u8>, Seq<u8>)>, k: Seq<u8>) -> (Seq<u8>, Seq<u8>) {
    choose|p: (Seq<u8>, Seq<u8>)| #[trigger] m.contains(p) && k == row_key(p.0, p.1)
}

/// The association behind a reverse index key.
pub open spec fn pair_of_rev(m: Set<(Seq<u8>, Seq<u8>)>, k: Seq<u8>) -> (Seq<u8>, Seq<u8>) {
    choose|p: (Seq<u8>, Seq<u8>)| #[trigger] m.contains(p) && k == row_key(p.1, p.0)
}

/// The aliases of `did`: sound, complete, strictly ordered.
pub open spec fn alias_listing(
    m: Set<(Seq<u8>, Seq<u8>)>,
    d: Seq<u8>,
    out: Seq<String>,
) -> bool {
    &&& forall|j: int| 0 <= j < out.len() ==> m.contains((d, encode_utf8(#[trigger] out[j]@)))
    &&& forall|aka: Seq<u8>|
        #[trigger] m.contains((d, aka)) ==> exists|j: int|
            0 <= j < out.len() && encode_utf8(out[j]@) == aka
    &&& forall|i: int, j: int|
        0 <= i < j < out.len() ==> lex_lt(encode_utf8(out[i]@), encode_utf8(out[j]@))
}

/// The DIDs bearing `aka`: sound, complete, strictly ordered.
pub open spec fn did_listing(m: Set<(Seq<u8>, Seq<u8>)>, aka: Seq<u8>, out: Seq<String>) -> bool {
    &&& forall|j: int| 0 <= j < out.len() ==> m.contains((encode_utf8(#[trigger] out[j]@), aka))
    &&& forall|d: Seq<u8>|
        #[trigger] m.contains((d, aka)) ==> exists|j: int|
            0 <= j < out.len() && encode_utf8(out[j]@) == d
    &&& forall|i: int, j: int|
        0 <= i < j < out.len() ==> lex_lt(encode_utf8(out[i]@), encode_utf8(out[j]@))
}

/// List the aliases recorded for `did`, in order.
#[verifier::rlimit(50)]
pub fn get_akas(schema: &Schema, did: &str) -> (r: Result<Vec<String>, Error>)
    requires
        schema.wf(),
        nul_free(encode_utf8(did@)),
    ensures
        r matches Ok(v) && alias_listing(schema.pairs(), encode_utf8(did@), v@),
{
    let ghost d = encode_utf8(did@);
    let ghost m = schema.pairs();
    let db = did.as_bytes();
    let mut prefix = copy_bytes(db);
    prefix.push(0u8);
    proof {
        assert(prefix@ =~= d + seq![0u8]);
    }
    let rows = schema.did_aka_index.prefix_scan(&prefix);
    let mut out: Vec<String> = Vec::new();
    let n = rows.len();
    let mut j: usize = 0;
    while j < n
        invariant
            schema.wf(),
            d == encode_utf8(did@),
            m == schema.pairs(),
            nul_free(d),
            prefix@ == d + seq![0u8],
            n == rows@.len(),
            j <= n,
            forall|x: int|
                0 <= x < rows@.len() ==> da_image(m).contains_key(#[trigger] rows@[x].0@)
                    && has_prefix(rows@[x].0@, prefix@),
            forall|x: int, y: int| 0 <= x < y < rows@.len() ==> lex_lt(rows@[x].0@, rows@[y].0@),
            forall|k: Seq<u8>|
                #[trigger] da_image(m).contains_key(k) && has_prefix(k, prefix@) ==> exists|x: int|
                    0 <= x < rows@.len() && rows@[x].0@ == k,
            out@.len() == j,
            forall|x: int|
                0 <= x < j ==> m.contains((d, encode_utf8(#[trigger] out@[x]@))) && row_key(
                    d,
                    encode_utf8(out@[x]@),
                ) == rows@[x].0@,
        decreases n - j,
    {
        let ghost k = rows@[j as int].0@;
        let ghost q = pair_of(m, k);
        proof {
            assert(da_image(m).contains_key(k));
            assert(m.contains(q) && k == row_key(q.0, q.1));
            let rest = k.skip(prefix@.len() as int);
            assert(k =~= prefix@ + rest);
            assert(q.0 + seq![0u8] + q.1 =~= k);
            assert(d + seq![0u8] + rest =~= prefix@ + rest);
            lemma_nul_split_unique(q.0, q.1, d, rest);
            assert(q.0 == d);
        }
        let raw = crate::keys::split_bytes(&rows[j].0);
        proof {
            crate::follows::lemma_2(seq![q.0, q.1]);
            lemma_join_injective(raw@.map(|i: int, v: Vec<u8>| v@), seq![q.0, q.1]);
        }
        if raw.len() != 2 {
            proof {
                assert(false);
            }
            return Err(Error::MalformedKey(copy_bytes(&rows[j].0)));
        }
        let aka = match crate::text::bytes_to_string(copy_bytes(&raw[1])) {
            Some(x) => x,
            None => {
                proof {
                    assert(pair_ok(q));
                    assert(false);
                }
                return Err(Error::MalformedKey(copy_bytes(&rows[j].0)));
            },
        };
        proof {
            assert(aka@ == decode_utf8(q.1));
            vstd::utf8::decode_utf8_encode_utf8(q.1);
            assert(encode_utf8(aka@) == q.1);
        }
        out.push(aka);
        j = j + 1;
    }
    proof {
        assert forall|aka: Seq<u8>| #[trigger] m.contains((d, aka)) implies exists|x: int|
            0 <= x < out@.len() && encode_utf8(out@[x]@) == aka by {
            let k = row_key(d, aka);
            assert(m.contains((d, aka)) && k == row_key(d, aka));
            assert(da_image(m).contains_key(k));
            assert(k =~= (d + seq![0u8]) + aka);
            assert(((d + seq![0u8]) + aka).subrange(0, prefix@.len() as int) =~= prefix@);
            let x = choose|x: int| 0 <= x < rows@.len() && rows@[x].0@ == k;
            assert(m.contains((d, encode_utf8(out@[x]@))));
            assert(row_key(d, encode_utf8(out@[x]@)) == k);
            lemma_row_key_injective(d, encode_utf8(out@[x]@), d, aka);
            assert(0 <= x < out@.len() && encode_utf8(out@[x]@) == aka);
        }
        assert forall|i: int, j2: int| 0 <= i < j2 < out@.len() implies lex_lt(
            encode_utf8(out@[i]@),
            encode_utf8(out@[j2]@),
        ) by {
            assert(m.contains((d, encode_utf8(out@[i]@))));
            assert(m.contains((d, encode_utf8(out@[j2]@))));
            assert(lex_lt(rows@[i].0@, rows@[j2].0@));
            assert(rows@[i].0@ == row_key(d, encode_utf8(out@[i]@)));
            assert(rows@[j2].0@ == row_key(d, encode_utf8(out@[j2]@)));
            assert(row_key(d, encode_utf8(out@[i]@)) =~= (d + seq![0u8]) + encode_utf8(out@[i]@));
            assert(row_key(d, encode_utf8(out@[j2]@)) =~= (d + seq![0u8]) + encode_utf8(
                out@[j2]@,
            ));
            lemma_lex_prefix_cancel(d + seq![0u8], encode_utf8(out@[i]@), encode_utf8(out@[j2]@));
        }
        assert(alias_listing(m, d, out@));
        assert(alias_listing(schema.pairs(), encode_utf8(did@), out@));
    }
    Ok(out)
}

/// List the DIDs recorded for an alias, in order.
#[verifier::rlimit(50)]
pub fn get_dids(schema: &Schema, aka: &str) -> (r: Result<Vec<String>, Error>)
    requires
        schema.wf(),
        nul_free(encode_utf8(aka@)),
    ensures
        r matches Ok(v) && did_listing(schema.pairs(), encode_utf8(aka@), v@),
{
    let ghost a = encode_utf8(aka@);
    let ghost m = schema.pairs();
    let ab = aka.as_bytes();
    let mut prefix = copy_bytes(ab);
    prefix.push(0u8);
    proof {
        assert(prefix@ =~= a + seq![0u8]);
    }
    let rows = schema.aka_did_index.prefix_scan(&prefix);
    let mut out: Vec<String> = Vec::new();
    let n = rows.len();
    let mut j: usize = 0;
    while j < n
        invariant
            schema.wf(),
            a == encode_utf8(aka@),
            m == schema.pairs(),
            nul_free(a),
            prefix@ == a + seq![0u8],
            n == rows@.len(),
            j <= n,
            forall|x: int|
                0 <= x < rows@.len() ==> ad_image(m).contains_key(#[trigger] rows@[x].0@)
                    && has_prefix(rows@[x].0@, prefix@),
            forall|x: int, y: int| 0 <= x < y < rows@.len() ==> lex_lt(rows@[x].0@, rows@[y].0@),
            forall|k: Seq<u8>|
                #[trigger] ad_image(m).contains_key(k) && has_prefix(k, prefix@) ==> exists|x: int|
                    0 <= x < rows@.len() && rows@[x].0@ == k,
            out@.len() == j,
            forall|x: int|
                0 <= x < j ==> m.contains((encode_utf8(#[trigger] out@[x]@), a)) && row_key(
                    a,
                    encode_utf8(out@[x]@),
                ) == rows@[x].0@,
        decreases n - j,
    {
        let ghost k = rows@[j as int].0@;
        let ghost q = pair_of_rev(m, k);
        proof {
            assert(ad_image(m).contains_key(k));
            assert(m.contains(q) && k == row_key(q.1, q.0));
            let rest = k.skip(prefix@.len() as int);
            assert(k =~= prefix@ + rest);
            assert(q.1 + seq![0u8] + q.0 =~= k);
            assert(a + seq![0u8] + rest =~= prefix@ + rest);
            lemma_nul_split_unique(q.1, q.0, a, rest);
            assert(q.1 == a);
        }
        let raw = crate::keys::split_bytes(&rows[j].0);
        proof {
            crate::follows::lemma_2(seq![q.1, q.0]);
            lemma_join_injective(raw@.map(|i: int, v: Vec<u8>| v@), seq![q.1, q.0]);
        }
        if raw.len() != 2 {
            proof {
                assert(false);
            }
            return Err(Error::MalformedKey(copy_bytes(&rows[j].0)));
        }
        let d = match crate::text::bytes_to_string(copy_bytes(&raw[1])) {
            Some(x) => x,
            None => {
                proof {
                    assert(pair_ok(q));
                    assert(false);
                }
                return Err(Error::MalformedKey(copy_bytes(&rows[j].0)));
            },
        };
        proof {
            assert(d@ == decode_utf8(q.0));
            vstd::utf8::decode_utf8_encode_utf8(q.0);
            assert(encode_utf8(d@) == q.0);
        }
        out.push(d);
        j = j + 1;
    }
    proof {
        assert forall|d: Seq<u8>| #[trigger] m.contains((d, a)) implies exists|x: int|
            0 <= x < out@.len() && encode_utf8(out@[x]@) == d by {
            let k = row_key(a, d);
            assert(m.contains((d, a)) && k == row_key(a, d));
            assert(ad_image(m).contains_key(k));
            assert(k =~= (a + seq![0u8]) + d);
            assert(((a + seq![0u8]) + d).subrange(0, prefix@.len() as int) =~= prefix@);
            let x = choose|x: int| 0 <= x < rows@.len() && rows@[x].0@ == k;
            assert(m.contains((encode_utf8(out@[x]@), a)));
            assert(row_key(a, encode_utf8(out@[x]@)) == k);
            lemma_row_key_injective(a, encode_utf8(out@[x]@), a, d);
            assert(0 <= x < out@.len() && encode_utf8(out@[x]@) == d);
        }
        assert forall|i: int, j2: int| 0 <= i < j2 < out@.len() implies lex_lt(
            encode_utf8(out@[i]@),
            encode_utf8(out@[j2]@),
        ) by {
            assert(m.contains((encode_utf8(out@[i]@), a)));
            assert(m.contains((encode_utf8(out@[j2]@), a)));
            assert(lex_lt(rows@[i].0@, rows@[j2].0@));
            assert(rows@[i].0@ == row_key(a, encode_utf8(out@[i]@)));
            assert(rows@[j2].0@ == row_key(a, encode_utf8(out@[j2]@)));
            assert(row_key(a, encode_utf8(out@[i]@)) =~= (a + seq![0u8]) + encode_utf8(out@[i]@));
            assert(row_key(a, encode_utf8(out@[j2]@)) =~= (a + seq![0u8]) + encode_utf8(
                out@[j2]@,
            ));
            lemma_lex_prefix_cancel(a + seq![0u8], encode_utf8(out@[i]@), encode_utf8(out@[j2]@));
        }
        assert(did_listing(m, a, out@));
        assert(did_listing(schema.pairs(), encode_utf8(aka@), out@));
    }
    Ok(out)
}

/// Renaming keeps old aliases until an explicit delete: after adding a
/// second alias set, every earlier association is still present.
pub proof fn lemma_add_did_retains(
    m: Set<(Seq<u8>, Seq<u8>)>,
    d: Seq<u8>,
    first: Seq<&str>,
    second: Seq<&str>,
    p: (Seq<u8>, Seq<u8>),
)
    requires
        m.union(aka_pairs(d, first)).contains(p),
    ensures
        m.union(aka_pairs(d, first)).union(aka_pairs(d, second)).contains(p),
{
}

impl Schema {
    /// The rows of the forward index, for persistence: one `did NUL
    /// aka` key per association.
    pub fn export_rows(&self) -> (r: &Vec<(Vec<u8>, Vec<u8>)>)
        requires
            self.wf(),
        ensures
            forall|i: int|
                0 <= i < r@.len() ==> da_image(self.pairs()).contains_key(#[trigger] r@[i].0@),
            forall|k: Seq<u8>|
                #[trigger] da_image(self.pairs()).contains_key(k) ==> exists|i: int|
                    0 <= i < r@.len() && r@[i].0@ == k,
    {
        proof {
            self.did_aka_index.lemma_view_rows();
        }
        let r = self.did_aka_index.entries();
        proof {
            assert forall|k: Seq<u8>|
                #[trigger] da_image(self.pairs()).contains_key(k) implies exists|i: int|
                0 <= i < r@.len() && r@[i].0@ == k by {
                let i = self.did_aka_index.index_of(k);
                assert(r@[i].0@ == k);
            }
        }
        r
    }
}

} // verus!

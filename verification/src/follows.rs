//! The follows mirror store.
//!
//! An edge is the triple (actor, rkey, subject): `actor` follows
//! `subject` through the record named `rkey`. Three tables hold it:
//! a record row `rkey -> actor NUL subject` and two index rows keyed
//! `actor NUL subject NUL rkey` and `subject NUL actor NUL rkey`, which
//! serve forward and reverse prefix scans.

use vstd::prelude::*;
use vstd::utf8::{decode_utf8, encode_utf8, valid_utf8};

use crate::bytes::{has_prefix, lex_lt, nul_free};
use crate::keys::{join_parts, lemma_join_injective};
use crate::kv::{copy_bytes, KvStore};

verus! {

/// The error kinds of on-disk corruption: a row that does not decode
/// as the schema demands. The store's invariant makes them unreachable
/// through the verified operations; corruption of a persisted copy
/// surfaces at the layer that reads it back from disk.
#[derive(Debug)]
pub enum Error {
    MalformedKey(Vec<u8>),
    MalformedRecord(String),
}

/// The index key `actor NUL subject NUL rkey`.
pub open spec fn as_key(a: Seq<u8>, s: Seq<u8>, rk: Seq<u8>) -> Seq<u8> {
    a + seq![0u8] + s + seq![0u8] + rk
}

/// The index key `subject NUL actor NUL rkey`.
pub open spec fn sa_key(a: Seq<u8>, s: Seq<u8>, rk: Seq<u8>) -> Seq<u8> {
    s + seq![0u8] + a + seq![0u8] + rk
}

/// The record row value `actor NUL subject`.
pub open spec fn rec_val(a: Seq<u8>, s: Seq<u8>) -> Seq<u8> {
    a + seq![0u8] + s
}

/// All three parts of an edge are NUL-free valid UTF-8.
pub open spec fn edge_parts_ok(a: Seq<u8>, s: Seq<u8>, rk: Seq<u8>) -> bool {
    &&& nul_free(a) && nul_free(s) && nul_free(rk)
    &&& valid_utf8(a) && valid_utf8(s) && valid_utf8(rk)
}

pub proof fn lemma_3(x: Seq<Seq<u8>>)
    requires
        x.len() == 3,
    ensures
        join_parts(x) == x[0] + seq![0u8] + x[1] + seq![0u8] + x[2],
{
    reveal_with_fuel(join_parts, 4);
    assert(x.skip(1).len() == 2);
    assert(x.skip(1)[0] == x[1]);
    assert(x.skip(1).skip(1).len() == 1);
    assert(x.skip(1).skip(1)[0] == x[2]);
    assert(join_parts(x.skip(1).skip(1)) == x[2]);
    assert(join_parts(x.skip(1)) == x[1] + seq![0u8] + x[2]);
    assert(join_parts(x) == x[0] + seq![0u8] + (x[1] + seq![0u8] + x[2]));
    assert(x[0] + seq![0u8] + (x[1] + seq![0u8] + x[2]) =~= x[0] + seq![0u8] + x[1] + seq![0u8]
        + x[2]);
}

pub proof fn lemma_2(x: Seq<Seq<u8>>)
    requires
        x.len() == 2,
    ensures
        join_parts(x) == x[0] + seq![0u8] + x[1],
{
    reveal_with_fuel(join_parts, 3);
    assert(x.skip(1).len() == 1);
    assert(x.skip(1)[0] == x[1]);
}

/// Keys of three NUL-free parts decompose uniquely.
pub proof fn lemma_as_key_injective(
    a: Seq<u8>,
    s: Seq<u8>,
    rk: Seq<u8>,
    a2: Seq<u8>,
    s2: Seq<u8>,
    rk2: Seq<u8>,
)
    requires
        edge_parts_ok(a, s, rk),
        edge_parts_ok(a2, s2, rk2),
        as_key(a, s, rk) == as_key(a2, s2, rk2),
    ensures
        a == a2 && s == s2 && rk == rk2,
{
    let p = seq![a, s, rk];
    let q = seq![a2, s2, rk2];
    lemma_3(p);
    lemma_3(q);
    lemma_join_injective(p, q);
    assert(p[0] == q[0] && p[1] == q[1] && p[2] == q[2]);
}

/// Every recorded edge has NUL-free parts.
pub open spec fn parts_ok_map(m: Map<Seq<u8>, (Seq<u8>, Seq<u8>)>) -> bool {
    forall|rk: Seq<u8>| #[trigger] m.contains_key(rk) ==> edge_parts_ok(m[rk].0, m[rk].1, rk)
}

/// The forward index rows of an edge map: one key per edge, empty values.
pub open spec fn as_image(m: Map<Seq<u8>, (Seq<u8>, Seq<u8>)>) -> Map<Seq<u8>, Seq<u8>> {
    Map::new(
        |k: Seq<u8>| exists|rk: Seq<u8>| #[trigger] m.contains_key(rk) && k == as_key(m[rk].0, m[rk].1, rk),
        |k: Seq<u8>| Seq::empty(),
    )
}

/// The reverse index rows of an edge map.
pub open spec fn sa_image(m: Map<Seq<u8>, (Seq<u8>, Seq<u8>)>) -> Map<Seq<u8>, Seq<u8>> {
    Map::new(
        |k: Seq<u8>| exists|rk: Seq<u8>| #[trigger] m.contains_key(rk) && k == sa_key(m[rk].0, m[rk].1, rk),
        |k: Seq<u8>| Seq::empty(),
    )
}

/// Inserting a fresh edge adds one key to each index image.
proof fn lemma_image_insert(m: Map<Seq<u8>, (Seq<u8>, Seq<u8>)>, rk: Seq<u8>, a: Seq<u8>, s: Seq<u8>)
    requires
        parts_ok_map(m),
        edge_parts_ok(a, s, rk),
        !m.contains_key(rk),
    ensures
        as_image(m.insert(rk, (a, s))) == as_image(m).insert(as_key(a, s, rk), Seq::<u8>::empty()),
        sa_image(m.insert(rk, (a, s))) == sa_image(m).insert(sa_key(a, s, rk), Seq::<u8>::empty()),
{
    let m2 = m.insert(rk, (a, s));
    assert forall|k: Seq<u8>| #[trigger] as_image(m2).contains_key(k) implies as_image(m).insert(
        as_key(a, s, rk),
        Seq::<u8>::empty(),
    ).contains_key(k) by {
        let rk2 = choose|rk2: Seq<u8>| #[trigger] m2.contains_key(rk2) && k == as_key(m2[rk2].0, m2[rk2].1, rk2);
        if rk2 != rk {
            assert(m.contains_key(rk2) && k == as_key(m[rk2].0, m[rk2].1, rk2));
        }
    }
    assert forall|k: Seq<u8>| #[trigger] as_image(m).insert(
        as_key(a, s, rk),
        Seq::<u8>::empty(),
    ).contains_key(k) implies as_image(m2).contains_key(k) by {
        if k == as_key(a, s, rk) {
            assert(m2.contains_key(rk) && k == as_key(m2[rk].0, m2[rk].1, rk));
        } else {
            let rk2 = choose|rk2: Seq<u8>| #[trigger] m.contains_key(rk2) && k == as_key(m[rk2].0, m[rk2].1, rk2);
            assert(m2.contains_key(rk2) && k == as_key(m2[rk2].0, m2[rk2].1, rk2));
        }
    }
    assert(as_image(m2) =~= as_image(m).insert(as_key(a, s, rk), Seq::<u8>::empty()));
    assert forall|k: Seq<u8>| #[trigger] sa_image(m2).contains_key(k) implies sa_image(m).insert(
        sa_key(a, s, rk),
        Seq::<u8>::empty(),
    ).contains_key(k) by {
        let rk2 = choose|rk2: Seq<u8>| #[trigger] m2.contains_key(rk2) && k == sa_key(m2[rk2].0, m2[rk2].1, rk2);
        if rk2 != rk {
            assert(m.contains_key(rk2) && k == sa_key(m[rk2].0, m[rk2].1, rk2));
        }
    }
    assert forall|k: Seq<u8>| #[trigger] sa_image(m).insert(
        sa_key(a, s, rk),
        Seq::<u8>::empty(),
    ).contains_key(k) implies sa_image(m2).contains_key(k) by {
        if k == sa_key(a, s, rk) {
            assert(m2.contains_key(rk) && k == sa_key(m2[rk].0, m2[rk].1, rk));
        } else {
            let rk2 = choose|rk2: Seq<u8>| #[trigger] m.contains_key(rk2) && k == sa_key(m[rk2].0, m[rk2].1, rk2);
            assert(m2.contains_key(rk2) && k == sa_key(m2[rk2].0, m2[rk2].1, rk2));
        }
    }
    assert(sa_image(m2) =~= sa_image(m).insert(sa_key(a, s, rk), Seq::<u8>::empty()));
}

/// Removing an edge removes exactly its key from each index image.
proof fn lemma_image_remove(m: Map<Seq<u8>, (Seq<u8>, Seq<u8>)>, rk: Seq<u8>)
    requires
        parts_ok_map(m),
        m.contains_key(rk),
    ensures
        as_image(m.remove(rk)) == as_image(m).remove(as_key(m[rk].0, m[rk].1, rk)),
        sa_image(m.remove(rk)) == sa_image(m).remove(sa_key(m[rk].0, m[rk].1, rk)),
{
    let p = m[rk];
    let m2 = m.remove(rk);
    assert forall|k: Seq<u8>| #[trigger] as_image(m2).contains_key(k) implies as_image(m).remove(
        as_key(p.0, p.1, rk),
    ).contains_key(k) by {
        let rk2 = choose|rk2: Seq<u8>| #[trigger] m2.contains_key(rk2) && k == as_key(m2[rk2].0, m2[rk2].1, rk2);
        assert(m.contains_key(rk2) && k == as_key(m[rk2].0, m[rk2].1, rk2));
        if k == as_key(p.0, p.1, rk) {
            lemma_as_key_injective(m[rk2].0, m[rk2].1, rk2, p.0, p.1, rk);
        }
    }
    assert forall|k: Seq<u8>| #[trigger] as_image(m).remove(
        as_key(p.0, p.1, rk),
    ).contains_key(k) implies as_image(m2).contains_key(k) by {
        let rk2 = choose|rk2: Seq<u8>| #[trigger] m.contains_key(rk2) && k == as_key(m[rk2].0, m[rk2].1, rk2);
        if rk2 == rk {
            assert(k == as_key(p.0, p.1, rk));
        }
        assert(m2.contains_key(rk2) && k == as_key(m2[rk2].0, m2[rk2].1, rk2));
    }
    assert(as_image(m2) =~= as_image(m).remove(as_key(p.0, p.1, rk)));
    assert forall|k: Seq<u8>| #[trigger] sa_image(m2).contains_key(k) implies sa_image(m).remove(
        sa_key(p.0, p.1, rk),
    ).contains_key(k) by {
        let rk2 = choose|rk2: Seq<u8>| #[trigger] m2.contains_key(rk2) && k == sa_key(m2[rk2].0, m2[rk2].1, rk2);
        assert(m.contains_key(rk2) && k == sa_key(m[rk2].0, m[rk2].1, rk2));
        if k == sa_key(p.0, p.1, rk) {
            lemma_as_key_injective(m[rk2].1, m[rk2].0, rk2, p.1, p.0, rk);
        }
    }
    assert forall|k: Seq<u8>| #[trigger] sa_image(m).remove(
        sa_key(p.0, p.1, rk),
    ).contains_key(k) implies sa_image(m2).contains_key(k) by {
        let rk2 = choose|rk2: Seq<u8>| #[trigger] m.contains_key(rk2) && k == sa_key(m[rk2].0, m[rk2].1, rk2);
        if rk2 == rk {
            assert(k == sa_key(p.0, p.1, rk));
        }
        assert(m2.contains_key(rk2) && k == sa_key(m2[rk2].0, m2[rk2].1, rk2));
    }
    assert(sa_image(m2) =~= sa_image(m).remove(sa_key(p.0, p.1, rk)));
}

pub struct Schema {
    pub follows_records: KvStore,
    pub follows_actor_subject_rkey_index: KvStore,
    pub follows_subject_actor_rkey_index: KvStore,
    model: Ghost<Map<Seq<u8>, (Seq<u8>, Seq<u8>)>>,
}

impl Schema {
    /// The logical state: a map from record key to (actor, subject).
    pub closed spec fn edges(self) -> Map<Seq<u8>, (Seq<u8>, Seq<u8>)> {
        self.model@
    }

    /// Well-formed: the three tables hold exactly the rows of `edges()`.
    pub closed spec fn wf(self) -> bool {
        &&& self.follows_records.wf()
        &&& self.follows_actor_subject_rkey_index.wf()
        &&& self.follows_subject_actor_rkey_index.wf()
        &&& parts_ok_map(self.model@)
        &&& forall|rk: Seq<u8>|
            #[trigger] self.model@.contains_key(rk) ==> self.follows_records@.contains_pair(
                rk,
                rec_val(self.model@[rk].0, self.model@[rk].1),
            )
        &&& forall|rk: Seq<u8>|
            #[trigger] self.follows_records@.contains_key(rk) ==> self.model@.contains_key(rk)
        &&& self.follows_actor_subject_rkey_index@ == as_image(self.model@)
        &&& self.follows_subject_actor_rkey_index@ == sa_image(self.model@)
    }

    pub fn create() -> (r: Schema)
        ensures
            r.wf(),
            r.edges() == Map::<Seq<u8>, (Seq<u8>, Seq<u8>)>::empty(),
    {
        let r = Schema {
            follows_records: KvStore::new(),
            follows_actor_subject_rkey_index: KvStore::new(),
            follows_subject_actor_rkey_index: KvStore::new(),
            model: Ghost(Map::empty()),
        };
        proof {
            assert(r.follows_actor_subject_rkey_index@ =~= as_image(r.model@));
            assert(r.follows_subject_actor_rkey_index@ =~= sa_image(r.model@));
        }
        r
    }
}

impl Clone for Schema {
    /// A clone has the same table contents, hence the same edges.
    fn clone(&self) -> (r: Self)
        ensures
            r.wf() == self.wf(),
            r.edges() == self.edges(),
    {
        let r = Schema {
            follows_records: self.follows_records.clone(),
            follows_actor_subject_rkey_index: self.follows_actor_subject_rkey_index.clone(),
            follows_subject_actor_rkey_index: self.follows_subject_actor_rkey_index.clone(),
            model: Ghost(self.model@),
        };
        proof {
            if self.wf() {
                lemma_wf_same_views(*self, r);
            }
            if r.wf() {
                lemma_wf_same_views(r, *self);
            }
        }
        r
    }
}

/// Well-formedness depends only on the table views and the model.
proof fn lemma_wf_same_views(x: Schema, y: Schema)
    requires
        x.follows_records@ == y.follows_records@,
        x.follows_records.wf() == y.follows_records.wf(),
        x.follows_actor_subject_rkey_index@ == y.follows_actor_subject_rkey_index@,
        x.follows_actor_subject_rkey_index.wf() == y.follows_actor_subject_rkey_index.wf(),
        x.follows_subject_actor_rkey_index@ == y.follows_subject_actor_rkey_index@,
        x.follows_subject_actor_rkey_index.wf() == y.follows_subject_actor_rkey_index.wf(),
        x.model@ == y.model@,
        x.wf(),
    ensures
        y.wf(),
{
}

/// Build `x NUL y`.
pub(crate) fn join2(x: &[u8], y: &[u8]) -> (r: Vec<u8>)
    ensures
        r@ == x@ + seq![0u8] + y@,
{
    let mut r = copy_bytes(x);
    r.push(0u8);
    let mut i: usize = 0;
    let ghost mid = r@;
    while i < y.len()
        invariant
            i <= y@.len(),
            r@ == mid + y@.subrange(0, i as int),
        decreases y@.len() - i,
    {
        r.push(y[i]);
        proof {
            assert(r@ =~= mid + y@.subrange(0, i + 1));
        }
        i = i + 1;
    }
    proof {
        assert(r@ =~= x@ + seq![0u8] + y@);
    }
    r
}

/// Build `x NUL y NUL z`.
fn join3(x: &[u8], y: &[u8], z: &[u8]) -> (r: Vec<u8>)
    ensures
        r@ == x@ + seq![0u8] + y@ + seq![0u8] + z@,
{
    let xy = join2(x, y);
    let r = join2(&xy, z);
    proof {
        assert(r@ =~= x@ + seq![0u8] + y@ + seq![0u8] + z@);
    }
    r
}

/// Insert the three rows of an edge not yet recorded.
fn insert_edge(schema: &mut Schema, rk: &[u8], a: &[u8], s: &[u8])
    requires
        old(schema).wf(),
        edge_parts_ok(a@, s@, rk@),
        !old(schema).edges().contains_key(rk@),
    ensures
        final(schema).wf(),
        final(schema).edges() == old(schema).edges().insert(rk@, (a@, s@)),
    {
    let ghost o = *old(schema);
    let val = join2(a, s);
    schema.follows_records.put(copy_bytes(rk), val);
    let ask = join3(a, s, rk);
    let sak = join3(s, a, rk);
    schema.follows_actor_subject_rkey_index.put(ask, Vec::new());
    schema.follows_subject_actor_rkey_index.put(sak, Vec::new());
    proof {
        schema.model = Ghost(o.model@.insert(rk@, (a@, s@)));
        let n = *schema;
        let m = n.model@;
        lemma_image_insert(o.model@, rk@, a@, s@);
        assert(n.follows_actor_subject_rkey_index@ =~= as_image(m));
        assert(n.follows_subject_actor_rkey_index@ =~= sa_image(m));
        assert forall|rk2: Seq<u8>| #[trigger] m.contains_key(rk2) implies edge_parts_ok(
            m[rk2].0,
            m[rk2].1,
            rk2,
        ) && n.follows_records@.contains_pair(rk2, rec_val(m[rk2].0, m[rk2].1)) by {
            if rk2 != rk@ {
                assert(o.model@.contains_key(rk2));
            }
        }
    }
}

/// Remove the three rows of the edge recorded under `rk`.
fn remove_edge(schema: &mut Schema, rk: &[u8])
    requires
        old(schema).wf(),
        old(schema).edges().contains_key(rk@),
    ensures
        final(schema).wf(),
        final(schema).edges() == old(schema).edges().remove(rk@),
    {
    let ghost o = *old(schema);
    let ghost p = o.model@[rk@];
    let raw = match schema.follows_records.get(rk) {
        Some(v) => copy_bytes(v.as_slice()),
        None => {
            proof {
                assert(o.follows_records@.contains_pair(rk@, rec_val(p.0, p.1)));
            }
            // Unreachable under well-formedness: the record row exists.
            return ;
        },
    };
    proof {
        assert(raw@ == rec_val(p.0, p.1));
    }
    // Split the record row at its first NUL into actor and subject.
    let i = find_first_nul(&raw);
    proof {
        assert(raw@[p.0.len() as int] == 0u8);
        if i < p.0.len() {
            assert(raw@[i as int] == p.0[i as int]);
        }
        if i > p.0.len() {
            assert(raw@[p.0.len() as int] != 0u8);
        }
        assert(i == p.0.len());
        assert(raw@.len() == p.0.len() + 1 + p.1.len());
    }
    let a = copy_bytes(slice_range(&raw, 0, i));
    let raw_len = raw.len();
    assert(i < raw_len);
    let s = copy_bytes(slice_range(&raw, i + 1, raw_len));
    proof {
        assert(a@ =~= p.0);
        assert(s@ =~= p.1);
    }
    schema.follows_records.delete(rk);
    let ask = join3(&a, &s, rk);
    let sak = join3(&s, &a, rk);
    schema.follows_actor_subject_rkey_index.delete(&ask);
    schema.follows_subject_actor_rkey_index.delete(&sak);
    proof {
        schema.model = Ghost(o.model@.remove(rk@));
        let n = *schema;
        let m = n.model@;
        lemma_image_remove(o.model@, rk@);
        assert(n.follows_actor_subject_rkey_index@ =~= as_image(m));
        assert(n.follows_subject_actor_rkey_index@ =~= sa_image(m));
        assert forall|rk2: Seq<u8>| #[trigger] m.contains_key(rk2) implies edge_parts_ok(
            m[rk2].0,
            m[rk2].1,
            rk2,
        ) && n.follows_records@.contains_pair(rk2, rec_val(m[rk2].0, m[rk2].1)) by {
            assert(o.model@.contains_key(rk2));
        }
    }
}

/// Find the index of the first NUL byte.
fn find_first_nul(b: &Vec<u8>) -> (r: usize)
    ensures
        r <= b@.len(),
        forall|j: int| 0 <= j < r ==> b@[j] != 0u8,
        r < b@.len() ==> b@[r as int] == 0u8,
        r == b@.len() ==> nul_free(b@),
{
    let n = b.len();
    let mut i: usize = 0;
    loop
        invariant
            n == b@.len(),
            i <= n,
            forall|j: int| 0 <= j < i ==> b@[j] != 0u8,
        decreases n - i,
    {
        if i == n {
            return i;
        }
        if b[i] == 0u8 {
            return i;
        }
        i = i + 1;
    }
}

/// Copy `src[from..to]`.
fn slice_range<'a>(src: &'a Vec<u8>, from: usize, to: usize) -> (r: &'a [u8])
    requires
        from <= to <= src@.len(),
    ensures
        r@ == src@.subrange(from as int, to as int),
{
    vstd::slice::slice_subrange(src.as_slice(), from, to)
}

/// Record that `actor` follows `subject` under record key `rkey`.
///
/// Upserts the record row and both index rows; an existing edge with the
/// same record key is replaced.
#[verifier::rlimit(100)]
pub fn add_follow(schema: &mut Schema, rkey: &str, actor: &str, subject: &str) -> (r: Result<
    (),
    Error,
>)
    requires
        old(schema).wf(),
        nul_free(encode_utf8(rkey@)),
        nul_free(encode_utf8(actor@)),
        nul_free(encode_utf8(subject@)),
    ensures
        r is Ok,
        final(schema).wf(),
        final(schema).edges() == old(schema).edges().insert(
            encode_utf8(rkey@),
            (encode_utf8(actor@), encode_utf8(subject@)),
        ),
{
    let rk = rkey.as_bytes();
    let a = actor.as_bytes();
    let s = subject.as_bytes();
    proof {
        vstd::utf8::encode_utf8_valid_utf8(rkey@);
        vstd::utf8::encode_utf8_valid_utf8(actor@);
        vstd::utf8::encode_utf8_valid_utf8(subject@);
    }
    let ghost o = *old(schema);
    let present = schema.follows_records.contains(rk);
    if present {
        remove_edge(schema, rk);
    }
    insert_edge(schema, rk, a, s);
    proof {
        if present {
            assert(schema.edges() =~= o.edges().insert(rk@, (a@, s@)));
        }
    }
    Ok(())
}

/// Delete the edge recorded under `rkey`, if any.
pub fn delete_follow(schema: &mut Schema, rkey: &str) -> (r: Result<(), Error>)
    requires
        old(schema).wf(),
    ensures
        r is Ok,
        final(schema).wf(),
        final(schema).edges() == old(schema).edges().remove(encode_utf8(rkey@)),
{
    let rk = rkey.as_bytes();
    let present = schema.follows_records.contains(rk);
    if present {
        remove_edge(schema, rk);
    } else {
        proof {
            assert(schema.edges() =~= schema.edges().remove(rk@));
        }
    }
    Ok(())
}

/// Some record links `actor` to `subject`.
pub open spec fn following(m: Map<Seq<u8>, (Seq<u8>, Seq<u8>)>, a: Seq<u8>, s: Seq<u8>) -> bool {
    exists|rk: Seq<u8>| #[trigger] m.contains_key(rk) && m[rk] == (a, s)
}

/// The edges whose actor is not `a`.
pub open spec fn drop_actor(m: Map<Seq<u8>, (Seq<u8>, Seq<u8>)>, a: Seq<u8>) -> Map<
    Seq<u8>,
    (Seq<u8>, Seq<u8>),
> {
    Map::new(|rk: Seq<u8>| m.contains_key(rk) && m[rk].0 != a, |rk: Seq<u8>| m[rk])
}

/// The edges whose subject is not `a`.
pub open spec fn drop_subject(m: Map<Seq<u8>, (Seq<u8>, Seq<u8>)>, a: Seq<u8>) -> Map<
    Seq<u8>,
    (Seq<u8>, Seq<u8>),
> {
    Map::new(|rk: Seq<u8>| m.contains_key(rk) && m[rk].1 != a, |rk: Seq<u8>| m[rk])
}

/// The edges not touching `a` on either side.
pub open spec fn drop_touching(m: Map<Seq<u8>, (Seq<u8>, Seq<u8>)>, a: Seq<u8>) -> Map<
    Seq<u8>,
    (Seq<u8>, Seq<u8>),
> {
    Map::new(
        |rk: Seq<u8>| m.contains_key(rk) && m[rk].0 != a && m[rk].1 != a,
        |rk: Seq<u8>| m[rk],
    )
}

/// An index key with prefix `x NUL y NUL` decomposes with first parts x, y.
proof fn lemma_prefix_two_parts(
    a2: Seq<u8>,
    s2: Seq<u8>,
    rk2: Seq<u8>,
    x: Seq<u8>,
    y: Seq<u8>,
)
    requires
        edge_parts_ok(a2, s2, rk2),
        nul_free(x),
        nul_free(y),
        has_prefix(as_key(a2, s2, rk2), x + seq![0u8] + y + seq![0u8]),
    ensures
        a2 == x && s2 == y,
{
    let k = as_key(a2, s2, rk2);
    let p = x + seq![0u8] + y + seq![0u8];
    let rest = k.skip(p.len() as int);
    assert(k =~= p + rest);
    assert(a2 + seq![0u8] + (s2 + seq![0u8] + rk2) =~= k);
    assert(x + seq![0u8] + (y + seq![0u8] + rest) =~= p + rest);
    crate::keys::lemma_nul_split_unique(a2, s2 + seq![0u8] + rk2, x, y + seq![0u8] + rest);
    crate::keys::lemma_nul_split_unique(s2, rk2, y, rest);
}

/// An index key with prefix `x NUL` decomposes with first part x.
proof fn lemma_prefix_one_part(a2: Seq<u8>, s2: Seq<u8>, rk2: Seq<u8>, x: Seq<u8>)
    requires
        edge_parts_ok(a2, s2, rk2),
        nul_free(x),
        has_prefix(as_key(a2, s2, rk2), x + seq![0u8]),
    ensures
        a2 == x,
{
    let k = as_key(a2, s2, rk2);
    let p = x + seq![0u8];
    let rest = k.skip(p.len() as int);
    assert(k =~= p + rest);
    assert(a2 + seq![0u8] + (s2 + seq![0u8] + rk2) =~= k);
    assert(x + seq![0u8] + rest =~= p + rest);
    crate::keys::lemma_nul_split_unique(a2, s2 + seq![0u8] + rk2, x, rest);
}

/// A joined key starts with any of its part prefixes.
proof fn lemma_concat_prefix(p: Seq<u8>, t: Seq<u8>)
    ensures
        has_prefix(p + t, p),
{
    assert((p + t).subrange(0, p.len() as int) =~= p);
}

/// Does `actor` follow `subject` through any record?
pub fn is_following(schema: &Schema, actor: &str, subject: &str) -> (r: Result<bool, Error>)
    requires
        schema.wf(),
        nul_free(encode_utf8(actor@)),
        nul_free(encode_utf8(subject@)),
    ensures
        r matches Ok(b) && b == following(
            schema.edges(),
            encode_utf8(actor@),
            encode_utf8(subject@),
        ),
{
    let ghost a = encode_utf8(actor@);
    let ghost s = encode_utf8(subject@);
    let ghost m = schema.edges();
    let parts: [&str; 2] = [actor, subject];
    let prefix = crate::keys::make_key_prefix(parts.as_slice());
    proof {
        lemma_2(crate::keys::parts_bytes(parts@));
        assert(prefix@ =~= a + seq![0u8] + s + seq![0u8]);
    }
    let rows = schema.follows_actor_subject_rkey_index.prefix_scan(&prefix);
    let found = rows.len() > 0;
    proof {
        if found {
            let k = rows@[0].0@;
            assert(schema.follows_actor_subject_rkey_index@.contains_key(k));
            let rk2 = choose|rk2: Seq<u8>|
                #[trigger] m.contains_key(rk2) && k == as_key(m[rk2].0, m[rk2].1, rk2);
            lemma_prefix_two_parts(m[rk2].0, m[rk2].1, rk2, a, s);
            assert(m[rk2] == (a, s));
            assert(following(m, a, s));
        } else {
            if following(m, a, s) {
                let rk = choose|rk: Seq<u8>| #[trigger] m.contains_key(rk) && m[rk] == (a, s);
                let k = as_key(a, s, rk);
                assert(m.contains_key(rk) && k == as_key(m[rk].0, m[rk].1, rk));
                assert(schema.follows_actor_subject_rkey_index@.contains_key(k));
                assert(k =~= (a + seq![0u8] + s + seq![0u8]) + rk);
                lemma_concat_prefix(a + seq![0u8] + s + seq![0u8], rk);
                assert(has_prefix(k, prefix@));
            }
        }
    }
    Ok(found)
}

/// An exact description of a followee scan: the subjects together with
/// the record keys that yield them, complete and in index order.
pub open spec fn followee_listing(
    m: Map<Seq<u8>, (Seq<u8>, Seq<u8>)>,
    a: Seq<u8>,
    subs: Seq<String>,
    rks: Seq<Seq<u8>>,
) -> bool {
    &&& rks.len() == subs.len()
    &&& forall|j: int|
        0 <= j < rks.len() ==> #[trigger] m.contains_key(rks[j]) && m[rks[j]] == (
            a,
            encode_utf8(subs[j]@),
        )
    &&& forall|rk: Seq<u8>|
        #[trigger] m.contains_key(rk) && m[rk].0 == a ==> rks.contains(rk)
    &&& forall|i: int, j: int|
        0 <= i < j < rks.len() ==> lex_lt(
            as_key(a, encode_utf8(subs[i]@), rks[i]),
            as_key(a, encode_utf8(subs[j]@), rks[j]),
        )
}

/// The symmetric description of a follower scan.
pub open spec fn follower_listing(
    m: Map<Seq<u8>, (Seq<u8>, Seq<u8>)>,
    a: Seq<u8>,
    subs: Seq<String>,
    rks: Seq<Seq<u8>>,
) -> bool {
    &&& rks.len() == subs.len()
    &&& forall|j: int|
        0 <= j < rks.len() ==> #[trigger] m.contains_key(rks[j]) && m[rks[j]] == (
            encode_utf8(subs[j]@),
            a,
        )
    &&& forall|rk: Seq<u8>|
        #[trigger] m.contains_key(rk) && m[rk].1 == a ==> rks.contains(rk)
    &&& forall|i: int, j: int|
        0 <= i < j < rks.len() ==> lex_lt(
            sa_key(encode_utf8(subs[i]@), a, rks[i]),
            sa_key(encode_utf8(subs[j]@), a, rks[j]),
        )
}

/// There is a record-key listing behind the returned subjects.
pub open spec fn followee_result(
    m: Map<Seq<u8>, (Seq<u8>, Seq<u8>)>,
    a: Seq<u8>,
    subs: Seq<String>,
) -> bool {
    exists|rks: Seq<Seq<u8>>| followee_listing(m, a, subs, rks)
}

/// There is a record-key listing behind the returned followers.
pub open spec fn follower_result(
    m: Map<Seq<u8>, (Seq<u8>, Seq<u8>)>,
    a: Seq<u8>,
    subs: Seq<String>,
) -> bool {
    exists|rks: Seq<Seq<u8>>| follower_listing(m, a, subs, rks)
}

/// The subjects that `actor` follows, in index order.
#[verifier::rlimit(100)]
pub fn get_followees(schema: &Schema, actor: &str) -> (r: Result<Vec<String>, Error>)
    requires
        schema.wf(),
        nul_free(encode_utf8(actor@)),
    ensures
        r matches Ok(v) && followee_result(schema.edges(), encode_utf8(actor@), v@),
{
    let ghost a = encode_utf8(actor@);
    let ghost m = schema.edges();
    let parts: [&str; 1] = [actor];
    let prefix = crate::keys::make_key_prefix(parts.as_slice());
    proof {
        assert(crate::keys::parts_bytes(parts@).len() == 1);
        assert(prefix@ =~= a + seq![0u8]);
    }
    let rows = schema.follows_actor_subject_rkey_index.prefix_scan(&prefix);
    let mut out: Vec<String> = Vec::new();
    let ghost mut rks: Seq<Seq<u8>> = Seq::empty();
    let n = rows.len();
    let mut j: usize = 0;
    while j < n
        invariant
            schema.wf(),
            a == encode_utf8(actor@),
            m == schema.edges(),
            nul_free(a),
            prefix@ == a + seq![0u8],
            n == rows@.len(),
            j <= n,
            forall|x: int|
                0 <= x < rows@.len() ==> schema.follows_actor_subject_rkey_index@.contains_key(
                    #[trigger] rows@[x].0@,
                ) && has_prefix(rows@[x].0@, prefix@),
            forall|x: int, y: int| 0 <= x < y < rows@.len() ==> lex_lt(rows@[x].0@, rows@[y].0@),
            forall|k: Seq<u8>|
                #[trigger] schema.follows_actor_subject_rkey_index@.contains_key(k) && has_prefix(
                    k,
                    prefix@,
                ) ==> exists|x: int| 0 <= x < rows@.len() && rows@[x].0@ == k,
            out@.len() == j,
            rks.len() == j,
            forall|x: int|
                0 <= x < j ==> #[trigger] m.contains_key(rks[x]) && m[rks[x]] == (
                    a,
                    encode_utf8(out@[x]@),
                ) && as_key(a, encode_utf8(out@[x]@), rks[x]) == rows@[x].0@,
        decreases n - j,
    {
        let ghost k = rows@[j as int].0@;
        proof {
            assert(schema.follows_actor_subject_rkey_index@.contains_key(k));
        }
        let ghost rk2 = choose|rk2: Seq<u8>|
            #[trigger] m.contains_key(rk2) && k == as_key(m[rk2].0, m[rk2].1, rk2);
        proof {
            lemma_prefix_one_part(m[rk2].0, m[rk2].1, rk2, a);
            assert(m[rk2].0 == a);
        }
        let raw = crate::keys::split_bytes(&rows[j].0);
        proof {
            lemma_3(seq![m[rk2].0, m[rk2].1, rk2]);
            lemma_join_injective(
                raw@.map(|i: int, v: Vec<u8>| v@),
                seq![m[rk2].0, m[rk2].1, rk2],
            );
        }
        if raw.len() != 3 {
            return Err(Error::MalformedKey(copy_bytes(&rows[j].0)));
        }
        let sub = match crate::text::bytes_to_string(copy_bytes(&raw[1])) {
            Some(x) => x,
            None => {
                return Err(Error::MalformedKey(copy_bytes(&rows[j].0)));
            },
        };
        proof {
            assert(raw@.map(|i: int, v: Vec<u8>| v@)[1] == m[rk2].1);
            assert(sub@ == decode_utf8(m[rk2].1));
            vstd::utf8::decode_utf8_encode_utf8(m[rk2].1);
            assert(encode_utf8(sub@) == m[rk2].1);
            rks = rks.push(rk2);
        }
        out.push(sub);
        j = j + 1;
    }
    proof {
        assert forall|rk: Seq<u8>|
            #[trigger] m.contains_key(rk) && m[rk].0 == a implies rks.contains(rk) by {
            let k = as_key(m[rk].0, m[rk].1, rk);
            assert(m.contains_key(rk) && k == as_key(m[rk].0, m[rk].1, rk));
            assert(schema.follows_actor_subject_rkey_index@.contains_key(k));
            assert(k =~= (a + seq![0u8]) + (m[rk].1 + seq![0u8] + rk));
            lemma_concat_prefix(a + seq![0u8], m[rk].1 + seq![0u8] + rk);
            let x = choose|x: int| 0 <= x < rows@.len() && rows@[x].0@ == k;
            assert(m.contains_key(rks[x]));
            assert(m[rks[x]] == (a, encode_utf8(out@[x]@)));
            assert(edge_parts_ok(m[rks[x]].0, m[rks[x]].1, rks[x]));
            assert(edge_parts_ok(m[rk].0, m[rk].1, rk));
            assert(as_key(a, encode_utf8(out@[x]@), rks[x]) == rows@[x].0@);
            lemma_as_key_injective(
                a,
                encode_utf8(out@[x]@),
                rks[x],
                m[rk].0,
                m[rk].1,
                rk,
            );
            assert(rks[x] == rk);
            assert(rks.contains(rk));
        }
        assert forall|i: int, j2: int| 0 <= i < j2 < rks.len() implies lex_lt(
            as_key(a, encode_utf8(out@[i]@), rks[i]),
            as_key(a, encode_utf8(out@[j2]@), rks[j2]),
        ) by {
            assert(m.contains_key(rks[i]));
            assert(m.contains_key(rks[j2]));
            assert(as_key(a, encode_utf8(out@[i]@), rks[i]) == rows@[i].0@);
            assert(as_key(a, encode_utf8(out@[j2]@), rks[j2]) == rows@[j2].0@);
            assert(lex_lt(rows@[i].0@, rows@[j2].0@));
        }
        assert(followee_listing(m, a, out@, rks));
        assert(followee_result(m, a, out@));
        assert(followee_result(schema.edges(), encode_utf8(actor@), out@));
    }
    Ok(out)
}

/// Close a follower listing from its parts.
proof fn lemma_follower_close(
    m: Map<Seq<u8>, (Seq<u8>, Seq<u8>)>,
    a: Seq<u8>,
    subs: Seq<String>,
    rks: Seq<Seq<u8>>,
)
    requires
        rks.len() == subs.len(),
        forall|j: int|
            0 <= j < rks.len() ==> #[trigger] m.contains_key(rks[j]) && m[rks[j]] == (
                encode_utf8(subs[j]@),
                a,
            ),
        forall|rk: Seq<u8>| #[trigger] m.contains_key(rk) && m[rk].1 == a ==> rks.contains(rk),
        forall|i: int, j: int|
            0 <= i < j < rks.len() ==> lex_lt(
                sa_key(encode_utf8(subs[i]@), a, rks[i]),
                sa_key(encode_utf8(subs[j]@), a, rks[j]),
            ),
    ensures
        follower_listing(m, a, subs, rks),
{
}

/// The actors following `actor`, in index order.
#[verifier::rlimit(100)]
pub fn get_followers(schema: &Schema, actor: &str) -> (r: Result<Vec<String>, Error>)
    requires
        schema.wf(),
        nul_free(encode_utf8(actor@)),
    ensures
        r matches Ok(v) && follower_result(schema.edges(), encode_utf8(actor@), v@),
{
    let ghost a = encode_utf8(actor@);
    let ghost m = schema.edges();
    let parts: [&str; 1] = [actor];
    let prefix = crate::keys::make_key_prefix(parts.as_slice());
    proof {
        assert(crate::keys::parts_bytes(parts@).len() == 1);
        assert(prefix@ =~= a + seq![0u8]);
    }
    let rows = schema.follows_subject_actor_rkey_index.prefix_scan(&prefix);
    let mut out: Vec<String> = Vec::new();
    let ghost mut rks: Seq<Seq<u8>> = Seq::empty();
    let n = rows.len();
    let mut j: usize = 0;
    while j < n
        invariant
            schema.wf(),
            a == encode_utf8(actor@),
            m == schema.edges(),
            nul_free(a),
            prefix@ == a + seq![0u8],
            n == rows@.len(),
            j <= n,
            forall|x: int|
                0 <= x < rows@.len() ==> schema.follows_subject_actor_rkey_index@.contains_key(
                    #[trigger] rows@[x].0@,
                ) && has_prefix(rows@[x].0@, prefix@),
            forall|x: int, y: int| 0 <= x < y < rows@.len() ==> lex_lt(rows@[x].0@, rows@[y].0@),
            forall|k: Seq<u8>|
                #[trigger] schema.follows_subject_actor_rkey_index@.contains_key(k) && has_prefix(
                    k,
                    prefix@,
                ) ==> exists|x: int| 0 <= x < rows@.len() && rows@[x].0@ == k,
            out@.len() == j,
            rks.len() == j,
            forall|x: int|
                0 <= x < j ==> #[trigger] m.contains_key(rks[x]) && m[rks[x]] == (
                    encode_utf8(out@[x]@),
                    a,
                ) && sa_key(encode_utf8(out@[x]@), a, rks[x]) == rows@[x].0@,
        decreases n - j,
    {
        let ghost k = rows@[j as int].0@;
        proof {
            assert(schema.follows_subject_actor_rkey_index@.contains_key(k));
        }
        let ghost rk2 = choose|rk2: Seq<u8>|
            #[trigger] m.contains_key(rk2) && k == sa_key(m[rk2].0, m[rk2].1, rk2);
        proof {
            lemma_prefix_one_part(m[rk2].1, m[rk2].0, rk2, a);
            assert(m[rk2].1 == a);
        }
        let raw = crate::keys::split_bytes(&rows[j].0);
        proof {
            lemma_3(seq![m[rk2].1, m[rk2].0, rk2]);
            lemma_join_injective(
                raw@.map(|i: int, v: Vec<u8>| v@),
                seq![m[rk2].1, m[rk2].0, rk2],
            );
        }
        if raw.len() != 3 {
            return Err(Error::MalformedKey(copy_bytes(&rows[j].0)));
        }
        let sub = match crate::text::bytes_to_string(copy_bytes(&raw[1])) {
            Some(x) => x,
            None => {
                return Err(Error::MalformedKey(copy_bytes(&rows[j].0)));
            },
        };
        proof {
            assert(raw@.map(|i: int, v: Vec<u8>| v@)[1] == m[rk2].0);
            assert(sub@ == decode_utf8(m[rk2].0));
            vstd::utf8::decode_utf8_encode_utf8(m[rk2].0);
            assert(encode_utf8(sub@) == m[rk2].0);
            rks = rks.push(rk2);
        }
        out.push(sub);
        j = j + 1;
    }
    proof {
        assert forall|rk: Seq<u8>|
            #[trigger] m.contains_key(rk) && m[rk].1 == a implies rks.contains(rk) by {
            let k = sa_key(m[rk].0, m[rk].1, rk);
            assert(m.contains_key(rk) && k == sa_key(m[rk].0, m[rk].1, rk));
            assert(schema.follows_subject_actor_rkey_index@.contains_key(k));
            assert(k =~= (a + seq![0u8]) + (m[rk].0 + seq![0u8] + rk));
            lemma_concat_prefix(a + seq![0u8], m[rk].0 + seq![0u8] + rk);
            let x = choose|x: int| 0 <= x < rows@.len() && rows@[x].0@ == k;
            assert(m.contains_key(rks[x]));
            assert(m[rks[x]] == (encode_utf8(out@[x]@), a));
            assert(edge_parts_ok(m[rks[x]].0, m[rks[x]].1, rks[x]));
            assert(edge_parts_ok(m[rk].0, m[rk].1, rk));
            assert(sa_key(encode_utf8(out@[x]@), a, rks[x]) == rows@[x].0@);
            lemma_as_key_injective(
                a,
                encode_utf8(out@[x]@),
                rks[x],
                m[rk].1,
                m[rk].0,
                rk,
            );
            assert(rks[x] == rk);
            assert(rks.contains(rk));
        }
        assert forall|i: int, j2: int| 0 <= i < j2 < rks.len() implies lex_lt(
            sa_key(encode_utf8(out@[i]@), a, rks[i]),
            sa_key(encode_utf8(out@[j2]@), a, rks[j2]),
        ) by {
            assert(m.contains_key(rks[i]));
            assert(m.contains_key(rks[j2]));
            assert(sa_key(encode_utf8(out@[i]@), a, rks[i]) == rows@[i].0@);
            assert(sa_key(encode_utf8(out@[j2]@), a, rks[j2]) == rows@[j2].0@);
            assert(lex_lt(rows@[i].0@, rows@[j2].0@));
        }
        assert(rks.len() == out@.len());
        lemma_follower_close(m, a, out@, rks);
        assert(follower_result(m, a, out@));
        assert(follower_result(schema.edges(), encode_utf8(actor@), out@));
    }
    Ok(out)
}

/// Remove every edge whose actor is `a`.
#[verifier::rlimit(50)]
fn prune_outgoing(schema: &mut Schema, a: &[u8])
    requires
        old(schema).wf(),
        nul_free(a@),
    ensures
        final(schema).wf(),
        final(schema).edges() == drop_actor(old(schema).edges(), a@),
    {
    let ghost m0 = schema.edges();
    let mut prefix = copy_bytes(a);
    prefix.push(0u8);
    proof {
        assert(prefix@ =~= a@ + seq![0u8]);
    }
    let rows = schema.follows_actor_subject_rkey_index.prefix_scan(&prefix);
    let ghost mut done: Set<Seq<u8>> = Set::empty();
    let n = rows.len();
    let mut j: usize = 0;
    proof {
        assert(schema.edges() =~= m0.remove_keys(done));
    }
    while j < n
        invariant
            schema.wf(),
            nul_free(a@),
            prefix@ == a@ + seq![0u8],
            n == rows@.len(),
            j <= n,
            parts_ok_map(m0),
            forall|x: int|
                0 <= x < rows@.len() ==> as_image(m0).contains_key(#[trigger] rows@[x].0@)
                    && has_prefix(rows@[x].0@, prefix@),
            forall|x: int, y: int| 0 <= x < y < rows@.len() ==> lex_lt(rows@[x].0@, rows@[y].0@),
            forall|k: Seq<u8>|
                #[trigger] as_image(m0).contains_key(k) && has_prefix(k, prefix@) ==> exists|x: int|
                    0 <= x < rows@.len() && rows@[x].0@ == k,
            schema.edges() == m0.remove_keys(done),
            forall|rk: Seq<u8>| #[trigger] done.contains(rk) ==> m0.contains_key(rk) && m0[rk].0 == a@,
            forall|x: int|
                j <= x < rows@.len() ==> !done.contains(owner_of(m0, #[trigger] rows@[x].0@)),
            forall|x: int|
                0 <= x < j ==> done.contains(owner_of(m0, #[trigger] rows@[x].0@)),
        decreases n - j,
    {
        let ghost k = rows@[j as int].0@;
        let ghost rk2 = owner_of(m0, k);
        proof {
            assert(as_image(m0).contains_key(k));
            assert(m0.contains_key(rk2) && k == as_key(m0[rk2].0, m0[rk2].1, rk2));
            lemma_prefix_one_part(m0[rk2].0, m0[rk2].1, rk2, a@);
            assert(m0[rk2].0 == a@);
            assert(schema.edges().contains_key(rk2));
            assert(schema.edges()[rk2] == m0[rk2]);
        }
        let raw = crate::keys::split_bytes(&rows[j].0);
        proof {
            lemma_3(seq![m0[rk2].0, m0[rk2].1, rk2]);
            lemma_join_injective(
                raw@.map(|i: int, v: Vec<u8>| v@),
                seq![m0[rk2].0, m0[rk2].1, rk2],
            );
        }
        if raw.len() != 3 {
            proof {
                assert(false);
            }
            return ;
        }
        let rk = copy_bytes(&raw[2]);
        proof {
            assert(rk@ == rk2);
        }
        remove_edge(schema, &rk);
        proof {
            let done2 = done.insert(rk2);
            assert(schema.edges() =~= m0.remove_keys(done2));
            done = done2;
            assert forall|x: int|
                j + 1 <= x < rows@.len() implies !done.contains(
                owner_of(m0, #[trigger] rows@[x].0@),
            ) by {
                let ox = owner_of(m0, rows@[x].0@);
                assert(as_image(m0).contains_key(rows@[x].0@));
                assert(m0.contains_key(ox) && rows@[x].0@ == as_key(m0[ox].0, m0[ox].1, ox));
                if ox == rk2 {
                    assert(rows@[x].0@ == k);
                    assert(lex_lt(rows@[j as int].0@, rows@[x].0@));
                    crate::bytes::lemma_lex_lt_irreflexive(k);
                }
            }
        }
        j = j + 1;
    }
    proof {
        assert forall|rk: Seq<u8>|
            #[trigger] m0.contains_key(rk) && m0[rk].0 == a@ implies done.contains(rk) by {
            let k = as_key(m0[rk].0, m0[rk].1, rk);
            assert(m0.contains_key(rk) && k == as_key(m0[rk].0, m0[rk].1, rk));
            assert(as_image(m0).contains_key(k));
            assert(k =~= (a@ + seq![0u8]) + (m0[rk].1 + seq![0u8] + rk));
            lemma_concat_prefix(a@ + seq![0u8], m0[rk].1 + seq![0u8] + rk);
            let x = choose|x: int| 0 <= x < rows@.len() && rows@[x].0@ == k;
            let ox = owner_of(m0, k);
            assert(m0.contains_key(ox) && k == as_key(m0[ox].0, m0[ox].1, ox));
            assert(edge_parts_ok(m0[ox].0, m0[ox].1, ox));
            assert(edge_parts_ok(m0[rk].0, m0[rk].1, rk));
            lemma_as_key_injective(m0[ox].0, m0[ox].1, ox, m0[rk].0, m0[rk].1, rk);
            assert(done.contains(ox));
        }
        assert(schema.edges() =~= drop_actor(m0, a@));
    }
}

/// The record key of the edge behind an index key.
pub open spec fn owner_of(m: Map<Seq<u8>, (Seq<u8>, Seq<u8>)>, k: Seq<u8>) -> Seq<u8> {
    choose|rk: Seq<u8>| #[trigger] m.contains_key(rk) && k == as_key(m[rk].0, m[rk].1, rk)
}

/// The record key of the edge behind a reverse index key.
pub open spec fn owner_of_rev(m: Map<Seq<u8>, (Seq<u8>, Seq<u8>)>, k: Seq<u8>) -> Seq<u8> {
    choose|rk: Seq<u8>| #[trigger] m.contains_key(rk) && k == sa_key(m[rk].0, m[rk].1, rk)
}

/// Remove every edge whose subject is `a`.
#[verifier::rlimit(50)]
fn prune_incoming(schema: &mut Schema, a: &[u8])
    requires
        old(schema).wf(),
        nul_free(a@),
    ensures
        final(schema).wf(),
        final(schema).edges() == drop_subject(old(schema).edges(), a@),
    {
    let ghost m0 = schema.edges();
    let mut prefix = copy_bytes(a);
    prefix.push(0u8);
    proof {
        assert(prefix@ =~= a@ + seq![0u8]);
    }
    let rows = schema.follows_subject_actor_rkey_index.prefix_scan(&prefix);
    let ghost mut done: Set<Seq<u8>> = Set::empty();
    let n = rows.len();
    let mut j: usize = 0;
    proof {
        assert(schema.edges() =~= m0.remove_keys(done));
    }
    while j < n
        invariant
            schema.wf(),
            nul_free(a@),
            prefix@ == a@ + seq![0u8],
            n == rows@.len(),
            j <= n,
            parts_ok_map(m0),
            forall|x: int|
                0 <= x < rows@.len() ==> sa_image(m0).contains_key(#[trigger] rows@[x].0@)
                    && has_prefix(rows@[x].0@, prefix@),
            forall|x: int, y: int| 0 <= x < y < rows@.len() ==> lex_lt(rows@[x].0@, rows@[y].0@),
            forall|k: Seq<u8>|
                #[trigger] sa_image(m0).contains_key(k) && has_prefix(k, prefix@) ==> exists|x: int|
                    0 <= x < rows@.len() && rows@[x].0@ == k,
            schema.edges() == m0.remove_keys(done),
            forall|rk: Seq<u8>| #[trigger] done.contains(rk) ==> m0.contains_key(rk) && m0[rk].1 == a@,
            forall|x: int|
                j <= x < rows@.len() ==> !done.contains(owner_of_rev(m0, #[trigger] rows@[x].0@)),
            forall|x: int|
                0 <= x < j ==> done.contains(owner_of_rev(m0, #[trigger] rows@[x].0@)),
        decreases n - j,
    {
        let ghost k = rows@[j as int].0@;
        let ghost rk2 = owner_of_rev(m0, k);
        proof {
            assert(sa_image(m0).contains_key(k));
            assert(m0.contains_key(rk2) && k == sa_key(m0[rk2].0, m0[rk2].1, rk2));
            lemma_prefix_one_part(m0[rk2].1, m0[rk2].0, rk2, a@);
            assert(m0[rk2].1 == a@);
            assert(schema.edges().contains_key(rk2));
            assert(schema.edges()[rk2] == m0[rk2]);
        }
        let raw = crate::keys::split_bytes(&rows[j].0);
        proof {
            lemma_3(seq![m0[rk2].1, m0[rk2].0, rk2]);
            lemma_join_injective(
                raw@.map(|i: int, v: Vec<u8>| v@),
                seq![m0[rk2].1, m0[rk2].0, rk2],
            );
        }
        if raw.len() != 3 {
            proof {
                assert(false);
            }
            return ;
        }
        let rk = copy_bytes(&raw[2]);
        proof {
            assert(rk@ == rk2);
        }
        remove_edge(schema, &rk);
        proof {
            let done2 = done.insert(rk2);
            assert(schema.edges() =~= m0.remove_keys(done2));
            done = done2;
            assert forall|x: int|
                j + 1 <= x < rows@.len() implies !done.contains(
                owner_of_rev(m0, #[trigger] rows@[x].0@),
            ) by {
                let ox = owner_of_rev(m0, rows@[x].0@);
                assert(sa_image(m0).contains_key(rows@[x].0@));
                assert(m0.contains_key(ox) && rows@[x].0@ == sa_key(m0[ox].0, m0[ox].1, ox));
                if ox == rk2 {
                    assert(rows@[x].0@ == k);
                    assert(lex_lt(rows@[j as int].0@, rows@[x].0@));
                    crate::bytes::lemma_lex_lt_irreflexive(k);
                }
            }
        }
        j = j + 1;
    }
    proof {
        assert forall|rk: Seq<u8>|
            #[trigger] m0.contains_key(rk) && m0[rk].1 == a@ implies done.contains(rk) by {
            let k = sa_key(m0[rk].0, m0[rk].1, rk);
            assert(m0.contains_key(rk) && k == sa_key(m0[rk].0, m0[rk].1, rk));
            assert(sa_image(m0).contains_key(k));
            assert(k =~= (a@ + seq![0u8]) + (m0[rk].0 + seq![0u8] + rk));
            lemma_concat_prefix(a@ + seq![0u8], m0[rk].0 + seq![0u8] + rk);
            let x = choose|x: int| 0 <= x < rows@.len() && rows@[x].0@ == k;
            let ox = owner_of_rev(m0, k);
            assert(m0.contains_key(ox) && k == sa_key(m0[ox].0, m0[ox].1, ox));
            assert(edge_parts_ok(m0[ox].0, m0[ox].1, ox));
            assert(edge_parts_ok(m0[rk].0, m0[rk].1, rk));
            lemma_as_key_injective(m0[ox].1, m0[ox].0, ox, m0[rk].1, m0[rk].0, rk);
            assert(done.contains(ox));
        }
        assert(schema.edges() =~= drop_subject(m0, a@));
    }
}

/// Remove the actor and every edge touching it, incoming or outgoing.
pub fn delete_actor(schema: &mut Schema, actor: &str) -> (r: Result<(), Error>)
    requires
        old(schema).wf(),
        nul_free(encode_utf8(actor@)),
    ensures
        r is Ok,
        final(schema).wf(),
        final(schema).edges() == drop_touching(old(schema).edges(), encode_utf8(actor@)),
{
    let ghost m0 = schema.edges();
    let ghost a = encode_utf8(actor@);
    let ab = actor.as_bytes();
    prune_outgoing(schema, ab);
    prune_incoming(schema, ab);
    proof {
        assert(schema.edges() =~= drop_touching(m0, a));
    }
    Ok(())
}

/// Adding a follow makes the edge observable: `actor` now follows
/// `subject`.
pub proof fn lemma_add_follow_establishes(
    m: Map<Seq<u8>, (Seq<u8>, Seq<u8>)>,
    rk: Seq<u8>,
    a: Seq<u8>,
    s: Seq<u8>,
)
    ensures
        following(m.insert(rk, (a, s)), a, s),
{
    let m2 = m.insert(rk, (a, s));
    assert(m2.contains_key(rk) && m2[rk] == (a, s));
}

/// Adding the same follow twice leaves the same edges as adding it once.
pub proof fn lemma_add_follow_idempotent(
    m: Map<Seq<u8>, (Seq<u8>, Seq<u8>)>,
    rk: Seq<u8>,
    a: Seq<u8>,
    s: Seq<u8>,
)
    ensures
        m.insert(rk, (a, s)).insert(rk, (a, s)) == m.insert(rk, (a, s)),
{
    assert(m.insert(rk, (a, s)).insert(rk, (a, s)) =~= m.insert(rk, (a, s)));
}

/// Deleting the record restores the pre-follow state: if `actor` did not
/// follow `subject` before, it does not after an add then a delete.
pub proof fn lemma_delete_follow_restores(
    m: Map<Seq<u8>, (Seq<u8>, Seq<u8>)>,
    rk: Seq<u8>,
    a: Seq<u8>,
    s: Seq<u8>,
)
    requires
        !following(m, a, s),
    ensures
        !following(m.insert(rk, (a, s)).remove(rk), a, s),
{
    let m2 = m.insert(rk, (a, s)).remove(rk);
    if following(m2, a, s) {
        let rk2 = choose|rk2: Seq<u8>| #[trigger] m2.contains_key(rk2) && m2[rk2] == (a, s);
        assert(m.contains_key(rk2) && m[rk2] == (a, s));
    }
}

/// After an actor wipe no edge touches the actor: it follows no one, no
/// one follows it, and both of its listings are empty.
pub proof fn lemma_delete_actor_wipes(
    m: Map<Seq<u8>, (Seq<u8>, Seq<u8>)>,
    a: Seq<u8>,
    p: Seq<u8>,
)
    ensures
        !following(drop_touching(m, a), a, p),
        !following(drop_touching(m, a), p, a),
        forall|subs: Seq<String>, rks: Seq<Seq<u8>>|
            #[trigger] followee_listing(drop_touching(m, a), a, subs, rks) ==> subs.len() == 0,
        forall|subs: Seq<String>, rks: Seq<Seq<u8>>|
            #[trigger] follower_listing(drop_touching(m, a), a, subs, rks) ==> subs.len() == 0,
{
    let m2 = drop_touching(m, a);
    if following(m2, a, p) {
        let rk = choose|rk: Seq<u8>| #[trigger] m2.contains_key(rk) && m2[rk] == (a, p);
    }
    if following(m2, p, a) {
        let rk = choose|rk: Seq<u8>| #[trigger] m2.contains_key(rk) && m2[rk] == (p, a);
    }
    assert forall|subs: Seq<String>, rks: Seq<Seq<u8>>|
        #[trigger] followee_listing(m2, a, subs, rks) implies subs.len() == 0 by {
        assert(rks.len() == subs.len());
        if rks.len() > 0 {
            assert(m2.contains_key(rks[0]));
            assert(m2[rks[0]] == (a, encode_utf8(subs[0]@)));
            assert(m.contains_key(rks[0]) && m[rks[0]].0 != a);
            assert(false);
        }
    }
    assert forall|subs: Seq<String>, rks: Seq<Seq<u8>>|
        #[trigger] follower_listing(m2, a, subs, rks) implies subs.len() == 0 by {
        assert(rks.len() == subs.len());
        if rks.len() > 0 {
            assert(m2.contains_key(rks[0]));
            assert(m2[rks[0]] == (encode_utf8(subs[0]@), a));
            assert(m.contains_key(rks[0]) && m[rks[0]].1 != a);
            assert(false);
        }
    }
}

/// The edges after inserting a list of observed (rkey, subject) records
/// for one actor; records with a NUL byte are skipped.
pub open spec fn fold_records(
    m: Map<Seq<u8>, (Seq<u8>, Seq<u8>)>,
    a: Seq<u8>,
    recs: Seq<(String, String)>,
) -> Map<Seq<u8>, (Seq<u8>, Seq<u8>)>
    decreases recs.len(),
{
    if recs.len() == 0 {
        m
    } else {
        let prev = fold_records(m, a, recs.drop_last());
        let rk = encode_utf8(recs.last().0@);
        let s = encode_utf8(recs.last().1@);
        if nul_free(rk) && nul_free(s) {
            prev.insert(rk, (a, s))
        } else {
            prev
        }
    }
}

/// Replace the actor's outgoing edges by a full snapshot: existing
/// outgoing edges go away, then every observed record is inserted.
pub fn replace_actor_follows(
    schema: &mut Schema,
    actor: &str,
    records: &Vec<(String, String)>,
) -> (r: Result<(), Error>)
    requires
        old(schema).wf(),
        nul_free(encode_utf8(actor@)),
    ensures
        r is Ok,
        final(schema).wf(),
        final(schema).edges() == fold_records(
            drop_actor(old(schema).edges(), encode_utf8(actor@)),
            encode_utf8(actor@),
            records@,
        ),
{
    let ghost a = encode_utf8(actor@);
    prune_outgoing(schema, actor.as_bytes());
    let ghost base = schema.edges();
    let n = records.len();
    let mut i: usize = 0;
    proof {
        assert(records@.take(0) =~= Seq::<(String, String)>::empty());
    }
    while i < n
        invariant
            schema.wf(),
            a == encode_utf8(actor@),
            nul_free(a),
            n == records@.len(),
            i <= n,
            schema.edges() == fold_records(base, a, records@.take(i as int)),
        decreases n - i,
    {
        let rk_ok = crate::bytes::nul_free_check(records[i].0.as_str().as_bytes());
        let s_ok = crate::bytes::nul_free_check(records[i].1.as_str().as_bytes());
        if rk_ok && s_ok {
            let res = add_follow(schema, records[i].0.as_str(), actor, records[i].1.as_str());
            proof {
                assert(res is Ok);
            }
        }
        proof {
            assert(records@.take(i + 1).drop_last() =~= records@.take(i as int));
            assert(records@.take(i + 1).last() == records@[i as int]);
        }
        i = i + 1;
    }
    proof {
        assert(records@.take(n as int) =~= records@);
    }
    Ok(())
}

} // verus!

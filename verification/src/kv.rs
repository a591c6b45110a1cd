//! An ordered byte-string key/value map.
//!
//! This is the in-memory model of the store's transactional tables: rows
//! are kept strictly sorted by key in lexicographic order, keys are
//! unique, and prefix scans return rows in key order. Its view is the
//! mathematical map from keys to values.

use vstd::prelude::*;

use crate::bytes::{
    bytes_eq, has_prefix, lemma_lex_lt_irreflexive, lemma_lex_lt_transitive, lex_cmp, lex_lt,
    starts_with, Cmp,
};

verus! {

/// Rows in strictly increasing key order.
pub open spec fn sorted_rows(s: Seq<(Seq<u8>, Seq<u8>)>) -> bool {
    forall|i: int, j: int| 0 <= i < j < s.len() ==> lex_lt(s[i].0, s[j].0)
}

pub open spec fn keyed(s: Seq<(Seq<u8>, Seq<u8>)>, k: Seq<u8>) -> bool {
    exists|i: int| 0 <= i < s.len() && s[i].0 == k
}

pub struct KvStore {
    rows: Vec<(Vec<u8>, Vec<u8>)>,
}

impl KvStore {
    /// The rows as a sequence of (key, value) byte strings, in storage order.
    pub closed spec fn rows_spec(self) -> Seq<(Seq<u8>, Seq<u8>)> {
        self.rows@.map(|i: int, r: (Vec<u8>, Vec<u8>)| (r.0@, r.1@))
    }

    pub open spec fn wf(self) -> bool {
        sorted_rows(self.rows_spec())
    }

    /// A row index holding key `k`.
    pub open spec fn index_of(self, k: Seq<u8>) -> int {
        choose|i: int| 0 <= i < self.rows_spec().len() && self.rows_spec()[i].0 == k
    }

    /// No two rows share a key.
    pub proof fn lemma_key_unique(self, i: int, j: int)
        requires
            self.wf(),
            0 <= i < self.rows_spec().len(),
            0 <= j < self.rows_spec().len(),
            self.rows_spec()[i].0 == self.rows_spec()[j].0,
        ensures
            i == j,
    {
        if i < j {
            lemma_lex_lt_irreflexive(self.rows_spec()[i].0);
        }
        if j < i {
            lemma_lex_lt_irreflexive(self.rows_spec()[i].0);
        }
    }

    /// Rows and the map view list the same pairs.
    pub proof fn lemma_view_rows(self)
        requires
            self.wf(),
        ensures
            forall|i: int|
                0 <= i < self.rows_spec().len() ==> self@.contains_pair(
                    #[trigger] self.rows_spec()[i].0,
                    self.rows_spec()[i].1,
                ),
            forall|k: Seq<u8>|
                #[trigger] self@.contains_key(k) ==> {
                    let i = self.index_of(k);
                    0 <= i < self.rows_spec().len() && self.rows_spec()[i].0 == k
                        && self.rows_spec()[i].1 == self@[k]
                },
            forall|k: Seq<u8>| #[trigger] self@.contains_key(k) <==> keyed(self.rows_spec(), k),
    {
        assert forall|i: int|
            0 <= i < self.rows_spec().len() implies self@.contains_pair(
            #[trigger] self.rows_spec()[i].0,
            self.rows_spec()[i].1,
        ) by {
            let k = self.rows_spec()[i].0;
            assert(keyed(self.rows_spec(), k));
            let j = self.index_of(k);
            self.lemma_key_unique(i, j);
        }
    }
}

impl View for KvStore {
    type V = Map<Seq<u8>, Seq<u8>>;

    closed spec fn view(&self) -> Map<Seq<u8>, Seq<u8>> {
        Map::new(
            |k: Seq<u8>| keyed(self.rows_spec(), k),
            |k: Seq<u8>|
                {
                    let i = choose|i: int|
                        0 <= i < self.rows_spec().len() && self.rows_spec()[i].0 == k;
                    self.rows_spec()[i].1
                },
        )
    }
}

/// The value change of replacing the row at `i` (whose key is `k`) by `(k, v)`.
proof fn lemma_update_view(st_old: KvStore, st: KvStore, i: int, k: Seq<u8>, v: Seq<u8>)
    requires
        st_old.wf(),
        st.wf(),
        0 <= i < st_old.rows_spec().len(),
        st_old.rows_spec()[i].0 == k,
        st.rows_spec() == st_old.rows_spec().update(i, (k, v)),
    ensures
        st@ == st_old@.insert(k, v),
{
    let so = st_old.rows_spec();
    let sn = st.rows_spec();
    st_old.lemma_view_rows();
    st.lemma_view_rows();
    assert forall|k2: Seq<u8>| #[trigger]
        keyed(sn, k2) implies keyed(so, k2) by {
        let w = choose|w: int| 0 <= w < sn.len() && sn[w].0 == k2;
        assert(so[w].0 == k2);
    }
    assert forall|k2: Seq<u8>| #[trigger]
        keyed(so, k2) implies keyed(sn, k2) by {
        let w = choose|w: int| 0 <= w < so.len() && so[w].0 == k2;
        assert(sn[w].0 == k2);
    }
    assert forall|k2: Seq<u8>| #[trigger]
        st@.contains_key(k2) && k2 != k implies st@[k2] == st_old@[k2] by {
        let w = st.index_of(k2);
        let w2 = st_old.index_of(k2);
        assert(so[w2].0 == k2);
        assert(sn[w2].0 == k2);
        st.lemma_key_unique(w, w2);
        assert(w2 != i);
        assert(sn[w2].1 == so[w2].1);
    }
    assert(st@.contains_key(k));
    let wi = st.index_of(k);
    st.lemma_key_unique(wi, i);
    assert(st@[k] == v);
    assert(st@ =~= st_old@.insert(k, v));
}

/// The value change of inserting a fresh row `(k, v)` at position `i`.
proof fn lemma_insert_view(st_old: KvStore, st: KvStore, i: int, k: Seq<u8>, v: Seq<u8>)
    requires
        st_old.wf(),
        st.wf(),
        0 <= i <= st_old.rows_spec().len(),
        !keyed(st_old.rows_spec(), k),
        st.rows_spec() == st_old.rows_spec().insert(i, (k, v)),
    ensures
        st@ == st_old@.insert(k, v),
{
    let so = st_old.rows_spec();
    let sn = st.rows_spec();
    st_old.lemma_view_rows();
    st.lemma_view_rows();
    assert(sn[i] == (k, v));
    assert forall|k2: Seq<u8>| #[trigger]
        keyed(sn, k2) && k2 != k implies keyed(so, k2) by {
        let w = choose|w: int| 0 <= w < sn.len() && sn[w].0 == k2;
        if w < i {
            assert(so[w].0 == k2);
        } else {
            assert(w != i);
            assert(so[w - 1].0 == k2);
        }
    }
    assert forall|k2: Seq<u8>| #[trigger]
        keyed(so, k2) implies keyed(sn, k2) by {
        let w = choose|w: int| 0 <= w < so.len() && so[w].0 == k2;
        if w < i {
            assert(sn[w].0 == k2);
        } else {
            assert(sn[w + 1].0 == k2);
        }
    }
    assert(keyed(sn, k));
    assert forall|k2: Seq<u8>| #[trigger]
        st@.contains_key(k2) && k2 != k implies st_old@.contains_key(k2) && st@[k2]
        == st_old@[k2] by {
        let w = st.index_of(k2);
        let w2 = st_old.index_of(k2);
        assert(so[w2].0 == k2);
        if w2 < i {
            assert(sn[w2].0 == k2);
            st.lemma_key_unique(w, w2);
            assert(sn[w2].1 == so[w2].1);
        } else {
            assert(sn[w2 + 1].0 == k2);
            st.lemma_key_unique(w, w2 + 1);
            assert(sn[w2 + 1].1 == so[w2].1);
        }
    }
    let wi = st.index_of(k);
    st.lemma_key_unique(wi, i);
    assert(st@[k] == v);
    assert(st@ =~= st_old@.insert(k, v));
}

/// The value change of removing the row at `i` (whose key is `k`).
proof fn lemma_remove_view(st_old: KvStore, st: KvStore, i: int, k: Seq<u8>)
    requires
        st_old.wf(),
        st.wf(),
        0 <= i < st_old.rows_spec().len(),
        st_old.rows_spec()[i].0 == k,
        st.rows_spec() == st_old.rows_spec().remove(i),
    ensures
        st@ == st_old@.remove(k),
{
    let so = st_old.rows_spec();
    let sn = st.rows_spec();
    st_old.lemma_view_rows();
    st.lemma_view_rows();
    assert forall|k2: Seq<u8>| #[trigger]
        keyed(sn, k2) implies keyed(so, k2) && k2 != k by {
        let w = choose|w: int| 0 <= w < sn.len() && sn[w].0 == k2;
        if w < i {
            assert(so[w].0 == k2);
            if k2 == k {
                st_old.lemma_key_unique(w, i);
            }
        } else {
            assert(so[w + 1].0 == k2);
            if k2 == k {
                st_old.lemma_key_unique(w + 1, i);
            }
        }
    }
    assert forall|k2: Seq<u8>| #[trigger]
        keyed(so, k2) && k2 != k implies keyed(sn, k2) by {
        let w = choose|w: int| 0 <= w < so.len() && so[w].0 == k2;
        st_old.lemma_key_unique(w, w);
        if w < i {
            assert(sn[w].0 == k2);
        } else {
            assert(w != i);
            assert(sn[w - 1].0 == k2);
        }
    }
    assert forall|k2: Seq<u8>| #[trigger]
        st@.contains_key(k2) implies st_old@.contains_key(k2) && st@[k2] == st_old@[k2] && k2
        != k by {
        let w = st.index_of(k2);
        let w2 = st_old.index_of(k2);
        assert(so[w2].0 == k2);
        assert(w2 != i);
        if w2 < i {
            assert(sn[w2].0 == k2);
            st.lemma_key_unique(w, w2);
            assert(sn[w2].1 == so[w2].1);
        } else {
            assert(sn[w2 - 1].0 == k2);
            st.lemma_key_unique(w, w2 - 1);
            assert(sn[w2 - 1].1 == so[w2].1);
        }
    }
    assert(st@ =~= st_old@.remove(k));
}

/// Copy a byte slice into a fresh vector.
pub fn copy_bytes(src: &[u8]) -> (r: Vec<u8>)
    ensures
        r@ == src@,
{
    let mut r: Vec<u8> = Vec::new();
    let mut i: usize = 0;
    while i < src.len()
        invariant
            i <= src@.len(),
            r@ == src@.subrange(0, i as int),
        decreases src@.len() - i,
    {
        r.push(src[i]);
        proof {
            assert(r@ =~= src@.subrange(0, i + 1));
        }
        i = i + 1;
    }
    proof {
        assert(r@ =~= src@);
    }
    r
}

impl KvStore {
    pub fn new() -> (r: KvStore)
        ensures
            r.wf(),
            r@ == Map::<Seq<u8>, Seq<u8>>::empty(),
            r.rows_spec() == Seq::<(Seq<u8>, Seq<u8>)>::empty(),
    {
        let r = KvStore { rows: Vec::new() };
        proof {
            assert(r.rows_spec() =~= Seq::<(Seq<u8>, Seq<u8>)>::empty());
            assert(r@ =~= Map::<Seq<u8>, Seq<u8>>::empty());
        }
        r
    }

    pub fn len(&self) -> (n: usize)
        ensures
            n == self.rows_spec().len(),
    {
        self.rows.len()
    }

    pub fn is_empty(&self) -> (r: bool)
        ensures
            r <==> self.rows_spec() == Seq::<(Seq<u8>, Seq<u8>)>::empty(),
            r <==> self@ == Map::<Seq<u8>, Seq<u8>>::empty(),
    {
        let r = self.rows.len() == 0;
        proof {
            if r {
                assert(self.rows_spec() =~= Seq::<(Seq<u8>, Seq<u8>)>::empty());
                assert(self@ =~= Map::<Seq<u8>, Seq<u8>>::empty());
            } else {
                assert(keyed(self.rows_spec(), self.rows_spec()[0].0));
                assert(self@.contains_key(self.rows_spec()[0].0));
            }
        }
        r
    }

    /// The rows, in storage order, for whole-table iteration.
    pub fn entries(&self) -> (r: &Vec<(Vec<u8>, Vec<u8>)>)
        ensures
            r@.len() == self.rows_spec().len(),
            forall|i: int|
                0 <= i < r@.len() ==> (#[trigger] r@[i].0@, r@[i].1@) == self.rows_spec()[i],
    {
        &self.rows
    }

    pub fn get(&self, k: &[u8]) -> (r: Option<&Vec<u8>>)
        requires
            self.wf(),
        ensures
            match r {
                Some(v) => self@.contains_key(k@) && self@[k@] == v@,
                None => !self@.contains_key(k@),
            },
    {
        proof {
            self.lemma_view_rows();
        }
        let n = self.rows.len();
        let mut i: usize = 0;
        while i < n
            invariant
                n == self.rows_spec().len(),
                i <= n,
                self.wf(),
                forall|j: int| 0 <= j < i ==> #[trigger] self.rows_spec()[j].0 != k@,
            decreases n - i,
        {
            if bytes_eq(&self.rows[i].0, k) {
                proof {
                    assert(self.rows_spec()[i as int].0 == k@);
                    self.lemma_view_rows();
                    let w = self.index_of(k@);
                    self.lemma_key_unique(i as int, w);
                }
                return Some(&self.rows[i].1);
            }
            i = i + 1;
        }
        proof {
            if self@.contains_key(k@) {
                let w = self.index_of(k@);
                assert(self.rows_spec()[w].0 == k@);
            }
        }
        None
    }

    pub fn contains(&self, k: &[u8]) -> (r: bool)
        requires
            self.wf(),
        ensures
            r <==> self@.contains_key(k@),
    {
        self.get(k).is_some()
    }

    /// Find the first row at or above `k`: returns its position and
    /// whether the key at that position equals `k`.
    fn find_lower(&self, k: &[u8]) -> (r: (usize, bool))
        requires
            self.wf(),
        ensures
            r.0 <= self.rows_spec().len(),
            forall|j: int| 0 <= j < r.0 ==> lex_lt(#[trigger] self.rows_spec()[j].0, k@),
            r.1 ==> r.0 < self.rows_spec().len() && self.rows_spec()[r.0 as int].0 == k@,
            !r.1 ==> forall|j: int|
                r.0 <= j < self.rows_spec().len() ==> lex_lt(k@, #[trigger] self.rows_spec()[j].0),
    {
        let n = self.rows.len();
        let mut i: usize = 0;
        loop
            invariant
                self.wf(),
                n == self.rows_spec().len(),
                i <= n,
                forall|j: int| 0 <= j < i ==> lex_lt(#[trigger] self.rows_spec()[j].0, k@),
            decreases n - i,
        {
            if i == n {
                return (i, false);
            }
            match lex_cmp(&self.rows[i].0, k) {
                Cmp::Lt => {
                    i = i + 1;
                },
                Cmp::Eq => {
                    return (i, true);
                },
                Cmp::Gt => {
                    proof {
                        assert forall|j: int| i <= j < n implies lex_lt(
                            k@,
                            #[trigger] self.rows_spec()[j].0,
                        ) by {
                            if j > i {
                                assert(lex_lt(
                                    self.rows_spec()[i as int].0,
                                    self.rows_spec()[j].0,
                                ));
                                lemma_lex_lt_transitive(
                                    k@,
                                    self.rows_spec()[i as int].0,
                                    self.rows_spec()[j].0,
                                );
                            }
                        }
                    }
                    return (i, false);
                },
            }
        }
    }

    pub fn put(&mut self, k: Vec<u8>, v: Vec<u8>)
        requires
            old(self).wf(),
        ensures
            final(self).wf(),
            final(self)@ == old(self)@.insert(k@, v@),
    {
        let ghost st_old = *self;
        let ghost so = st_old.rows_spec();
        let (i, eq) = self.find_lower(&k);
        if eq {
            // Replace the value of an existing key.
            self.rows.remove(i);
            self.rows.insert(i, (k, v));
            proof {
                let sn = self.rows_spec();
                assert(sn =~= so.update(i as int, (k@, v@)));
                assert forall|a: int, b: int| 0 <= a < b < sn.len() implies lex_lt(
                    sn[a].0,
                    sn[b].0,
                ) by {
                    assert(lex_lt(so[a].0, so[b].0));
                }
                lemma_update_view(st_old, *self, i as int, k@, v@);
            }
        } else {
            // Insert a new row at position i: everything before is below
            // k, everything at or after is above k.
            proof {
                if keyed(so, k@) {
                    let w = choose|w: int| 0 <= w < so.len() && so[w].0 == k@;
                    lemma_lex_lt_irreflexive(k@);
                }
            }
            self.rows.insert(i, (k, v));
            proof {
                let sn = self.rows_spec();
                assert(sn =~= so.insert(i as int, (k@, v@)));
                assert forall|a: int, b: int| 0 <= a < b < sn.len() implies lex_lt(
                    sn[a].0,
                    sn[b].0,
                ) by {
                    if a < i && b > i {
                        assert(lex_lt(so[a].0, k@));
                        assert(lex_lt(k@, so[b - 1].0));
                        lemma_lex_lt_transitive(so[a].0, k@, so[b - 1].0);
                    } else if a == i {
                        assert(lex_lt(k@, so[b - 1].0));
                    } else if b == i {
                        assert(lex_lt(so[a].0, k@));
                    } else if b < i {
                        assert(lex_lt(so[a].0, so[b].0));
                    } else {
                        assert(lex_lt(so[a - 1].0, so[b - 1].0));
                    }
                }
                lemma_insert_view(st_old, *self, i as int, k@, v@);
            }
        }
    }

    pub fn delete(&mut self, k: &[u8])
        requires
            old(self).wf(),
        ensures
            final(self).wf(),
            final(self)@ == old(self)@.remove(k@),
    {
        let ghost st_old = *self;
        let ghost so = st_old.rows_spec();
        let (i, eq) = self.find_lower(k);
        if eq {
            self.rows.remove(i);
            proof {
                let sn = self.rows_spec();
                assert(sn =~= so.remove(i as int));
                assert forall|a: int, b: int| 0 <= a < b < sn.len() implies lex_lt(
                    sn[a].0,
                    sn[b].0,
                ) by {
                    let a2: int = if a < i {
                        a
                    } else {
                        a + 1
                    };
                    let b2: int = if b < i {
                        b
                    } else {
                        b + 1
                    };
                    assert(lex_lt(so[a2].0, so[b2].0));
                }
                lemma_remove_view(st_old, *self, i as int, k@);
            }
        } else {
            proof {
                st_old.lemma_view_rows();
                if self@.contains_key(k@) {
                    let w = self.index_of(k@);
                    assert(self.rows_spec()[w].0 == k@);
                    lemma_lex_lt_irreflexive(k@);
                }
                assert(self@ =~= st_old@.remove(k@));
            }
        }
    }

    /// Remove and return the row with the smallest key.
    pub fn pop_first(&mut self) -> (r: Option<(Vec<u8>, Vec<u8>)>)
        requires
            old(self).wf(),
        ensures
            final(self).wf(),
            match r {
                Some(p) => {
                    &&& old(self)@.contains_pair(p.0@, p.1@)
                    &&& final(self).rows_spec().len() == old(self).rows_spec().len() - 1
                    &&& final(self)@ == old(self)@.remove(p.0@)
                    &&& forall|k2: Seq<u8>|
                        #[trigger] old(self)@.contains_key(k2) ==> k2 == p.0@ || lex_lt(p.0@, k2)
                },
                None => {
                    &&& old(self)@ == Map::<Seq<u8>, Seq<u8>>::empty()
                    &&& final(self)@ == old(self)@
                },
            },
    {
        let ghost st_old = *self;
        proof {
            self.lemma_view_rows();
        }
        if self.rows.len() == 0 {
            proof {
                assert(self@ =~= Map::<Seq<u8>, Seq<u8>>::empty());
            }
            return None;
        }
        let row = self.rows.remove(0);
        proof {
            let so = st_old.rows_spec();
            let sn = self.rows_spec();
            assert(sn =~= so.remove(0));
            assert forall|a: int, b: int| 0 <= a < b < sn.len() implies lex_lt(
                sn[a].0,
                sn[b].0,
            ) by {
                assert(lex_lt(so[a + 1].0, so[b + 1].0));
            }
            lemma_remove_view(st_old, *self, 0, row.0@);
            assert forall|k2: Seq<u8>| #[trigger] st_old@.contains_key(k2) implies k2 == row.0@
                || lex_lt(row.0@, k2) by {
                let w = st_old.index_of(k2);
                assert(st_old.rows_spec()[w].0 == k2);
                if w > 0 {
                    assert(lex_lt(so[0].0, so[w].0));
                }
            }
        }
        Some(row)
    }

    /// All rows whose key starts with `prefix`, in increasing key order.
    pub fn prefix_scan(&self, prefix: &[u8]) -> (r: Vec<(Vec<u8>, Vec<u8>)>)
        requires
            self.wf(),
        ensures
            forall|j: int|
                0 <= j < r@.len() ==> self@.contains_pair(#[trigger] r@[j].0@, r@[j].1@)
                    && has_prefix(r@[j].0@, prefix@),
            forall|k: Seq<u8>|
                #[trigger] self@.contains_key(k) && has_prefix(k, prefix@) ==> exists|j: int|
                    0 <= j < r@.len() && r@[j].0@ == k,
            forall|a: int, b: int| 0 <= a < b < r@.len() ==> lex_lt(r@[a].0@, r@[b].0@),
    {
        proof {
            self.lemma_view_rows();
        }
        let n = self.rows.len();
        let mut r: Vec<(Vec<u8>, Vec<u8>)> = Vec::new();
        let ghost mut ws: Seq<int> = Seq::empty();
        let mut i: usize = 0;
        while i < n
            invariant
                n == self.rows_spec().len(),
                i <= n,
                self.wf(),
                ws.len() == r@.len(),
                forall|j: int|
                    0 <= j < ws.len() ==> 0 <= #[trigger] ws[j] < i && (r@[j].0@, r@[j].1@)
                        == self.rows_spec()[ws[j]] && has_prefix(r@[j].0@, prefix@),
                forall|a: int, b: int| 0 <= a < b < ws.len() ==> ws[a] < ws[b],
                forall|w: int|
                    0 <= w < i && has_prefix(#[trigger] self.rows_spec()[w].0, prefix@)
                        ==> exists|j: int| 0 <= j < ws.len() && ws[j] == w,
            decreases n - i,
        {
            let hit = starts_with(&self.rows[i].0, prefix);
            if hit {
                let key = copy_bytes(&self.rows[i].0);
                let val = copy_bytes(&self.rows[i].1);
                let ghost ws_old = ws;
                proof {
                    ws = ws.push(i as int);
                }
                r.push((key, val));
                proof {
                    assert forall|w: int|
                        0 <= w < i + 1 && has_prefix(#[trigger] self.rows_spec()[w].0, prefix@)
                            implies exists|j: int| 0 <= j < ws.len() && ws[j] == w by {
                        if w < i {
                            let j0 = choose|j0: int| 0 <= j0 < ws_old.len() && ws_old[j0] == w;
                            assert(ws[j0] == w);
                        } else {
                            assert(ws[ws.len() - 1] == w);
                        }
                    }
                }
            } else {
                proof {
                    assert forall|w: int|
                        0 <= w < i + 1 && has_prefix(#[trigger] self.rows_spec()[w].0, prefix@)
                            implies exists|j: int| 0 <= j < ws.len() && ws[j] == w by {
                        assert(w < i);
                    }
                }
            }
            i = i + 1;
        }
        proof {
            assert forall|j: int| 0 <= j < r@.len() implies self@.contains_pair(
                #[trigger] r@[j].0@,
                r@[j].1@,
            ) && has_prefix(r@[j].0@, prefix@) by {
                let w = ws[j];
                assert(self@.contains_pair(self.rows_spec()[w].0, self.rows_spec()[w].1));
            }
            assert forall|k: Seq<u8>|
                #[trigger] self@.contains_key(k) && has_prefix(k, prefix@) implies exists|j: int|
                0 <= j < r@.len() && r@[j].0@ == k by {
                let w = self.index_of(k);
                assert(self.rows_spec()[w].0 == k);
                assert(has_prefix(self.rows_spec()[w].0, prefix@));
                let j = choose|j: int| 0 <= j < ws.len() && ws[j] == w;
                assert(r@[j].0@ == k);
            }
            assert forall|a: int, b: int| 0 <= a < b < r@.len() implies lex_lt(
                r@[a].0@,
                r@[b].0@,
            ) by {
                assert(ws[a] < ws[b]);
                assert(lex_lt(self.rows_spec()[ws[a]].0, self.rows_spec()[ws[b]].0));
            }
        }
        r
    }
}

impl Clone for KvStore {
    /// A clone has the same rows, hence the same view.
    fn clone(&self) -> (r: Self)
        ensures
            r.rows_spec() == self.rows_spec(),
            r@ == self@,
            r.wf() == self.wf(),
    {
        let mut rows: Vec<(Vec<u8>, Vec<u8>)> = Vec::new();
        let n = self.rows.len();
        let mut i: usize = 0;
        while i < n
            invariant
                n == self.rows_spec().len(),
                i <= n,
                rows@.len() == i,
                forall|j: int|
                    0 <= j < i ==> (#[trigger] rows@[j].0@, rows@[j].1@) == self.rows_spec()[j],
            decreases n - i,
        {
            let key = copy_bytes(&self.rows[i].0);
            let val = copy_bytes(&self.rows[i].1);
            rows.push((key, val));
            i = i + 1;
        }
        let r = KvStore { rows };
        proof {
            assert(r.rows_spec() =~= self.rows_spec());
        }
        r
    }
}

/// The keys of a row list, as a set.
pub open spec fn key_set(s: Seq<(Seq<u8>, Seq<u8>)>) -> Set<Seq<u8>> {
    Set::new(|k: Seq<u8>| keyed(s, k))
}

/// Sorted rows have as many keys as rows.
proof fn lemma_key_set_card(s: Seq<(Seq<u8>, Seq<u8>)>)
    requires
        sorted_rows(s),
    ensures
        key_set(s).finite(),
        key_set(s).len() == s.len(),
    decreases s.len(),
{
    if s.len() == 0 {
        assert(key_set(s) =~= Set::<Seq<u8>>::empty());
    } else {
        let d = s.drop_last();
        assert(sorted_rows(d)) by {
            assert(forall|i: int, j: int|
                0 <= i < j < d.len() ==> lex_lt(#[trigger] s[i].0, #[trigger] s[j].0));
            assert(forall|i: int| 0 <= i < d.len() ==> #[trigger] d[i] == s[i]);
        }
        lemma_key_set_card(d);
        let last = s.last().0;
        assert(!keyed(d, last)) by {
            if keyed(d, last) {
                let i = choose|i: int| 0 <= i < d.len() && d[i].0 == last;
                assert(lex_lt(s[i].0, s[s.len() - 1].0));
                lemma_lex_lt_irreflexive(last);
            }
        }
        assert(key_set(s) =~= key_set(d).insert(last)) by {
            assert forall|k: Seq<u8>| #[trigger] keyed(s, k) implies keyed(d, k) || k == last by {
                let i = choose|i: int| 0 <= i < s.len() && s[i].0 == k;
                if i < s.len() - 1 {
                    assert(d[i].0 == k);
                }
            }
            assert forall|k: Seq<u8>| #[trigger] keyed(d, k) implies keyed(s, k) by {
                let i = choose|i: int| 0 <= i < d.len() && d[i].0 == k;
                assert(s[i].0 == k);
            }
            assert(keyed(s, last));
        }
    }
}

impl KvStore {
    /// The view has exactly one key per row.
    pub proof fn lemma_dom_card(self)
        requires
            self.wf(),
        ensures
            self@.dom().finite(),
            self@.dom().len() == self.rows_spec().len(),
    {
        assert(self@.dom() =~= key_set(self.rows_spec()));
        lemma_key_set_card(self.rows_spec());
    }
}

} // verus!

//! Byte-string ordering and prefix predicates.
//!
//! Keys of the mirror store are byte strings compared in lexicographic
//! order; prefix scans and the sorted row invariant of the store are
//! stated over the relations defined here.

use vstd::prelude::*;

verus! {

/// Strict lexicographic order on byte strings.
pub open spec fn lex_lt(a: Seq<u8>, b: Seq<u8>) -> bool
    decreases a.len(),
{
    if b.len() == 0 {
        false
    } else if a.len() == 0 {
        true
    } else if a[0] < b[0] {
        true
    } else if a[0] > b[0] {
        false
    } else {
        lex_lt(a.skip(1), b.skip(1))
    }
}

/// `p` is a prefix of `k`.
pub open spec fn has_prefix(k: Seq<u8>, p: Seq<u8>) -> bool {
    p.len() <= k.len() && k.subrange(0, p.len() as int) == p
}

/// No NUL byte occurs in `b`; DIDs, record keys and aliases are assumed
/// NUL-free so that NUL can join key parts unambiguously.
pub open spec fn nul_free(b: Seq<u8>) -> bool {
    forall|i: int| 0 <= i < b.len() ==> b[i] != 0u8
}

pub proof fn lemma_lex_lt_irreflexive(a: Seq<u8>)
    ensures
        !lex_lt(a, a),
    decreases a.len(),
{
    if a.len() > 0 {
        lemma_lex_lt_irreflexive(a.skip(1));
    }
}

pub proof fn lemma_lex_lt_asymmetric(a: Seq<u8>, b: Seq<u8>)
    ensures
        lex_lt(a, b) ==> !lex_lt(b, a),
    decreases a.len(),
{
    if a.len() > 0 && b.len() > 0 && a[0] == b[0] {
        lemma_lex_lt_asymmetric(a.skip(1), b.skip(1));
    }
}

pub proof fn lemma_lex_lt_transitive(a: Seq<u8>, b: Seq<u8>, c: Seq<u8>)
    ensures
        lex_lt(a, b) && lex_lt(b, c) ==> lex_lt(a, c),
    decreases a.len(),
{
    if a.len() > 0 && b.len() > 0 && c.len() > 0 {
        lemma_lex_lt_transitive(a.skip(1), b.skip(1), c.skip(1));
    }
}

/// A common prefix does not affect the relative order of two keys.
pub proof fn lemma_lex_prefix_cancel(p: Seq<u8>, u: Seq<u8>, v: Seq<u8>)
    ensures
        lex_lt(p + u, p + v) == lex_lt(u, v),
    decreases p.len(),
{
    if p.len() == 0 {
        assert(p + u =~= u);
        assert(p + v =~= v);
    } else {
        assert((p + u).len() > 0);
        assert((p + v).len() > 0);
        assert((p + u)[0] == p[0]);
        assert((p + v)[0] == p[0]);
        assert((p + u).skip(1) =~= p.skip(1) + u);
        assert((p + v).skip(1) =~= p.skip(1) + v);
        lemma_lex_prefix_cancel(p.skip(1), u, v);
    }
}

/// Three-way comparison result.
#[derive(Clone, Copy, Debug, PartialEq, Eq, Structural)]
pub enum Cmp {
    Lt,
    Eq,
    Gt,
}

/// Lexicographic three-way comparison of byte strings.
pub fn lex_cmp(a: &[u8], b: &[u8]) -> (r: Cmp)
    ensures
        r == Cmp::Lt <==> lex_lt(a@, b@),
        r == Cmp::Eq <==> a@ == b@,
        r == Cmp::Gt <==> lex_lt(b@, a@),
{
    proof {
        assert(a@.skip(0) =~= a@);
        assert(b@.skip(0) =~= b@);
    }
    let mut i: usize = 0;
    loop
        invariant
            i <= a@.len(),
            i <= b@.len(),
            a@.subrange(0, i as int) == b@.subrange(0, i as int),
            lex_lt(a@, b@) == lex_lt(a@.skip(i as int), b@.skip(i as int)),
            lex_lt(b@, a@) == lex_lt(b@.skip(i as int), a@.skip(i as int)),
            (a@ == b@) == (a@.skip(i as int) == b@.skip(i as int)),
        decreases a@.len() - i,
    {
        if i >= a.len() || i >= b.len() {
            let r = if a.len() < b.len() {
                Cmp::Lt
            } else if a.len() > b.len() {
                Cmp::Gt
            } else {
                Cmp::Eq
            };
            proof {
                if a@.len() == b@.len() && i >= a@.len() {
                    assert(a@ =~= a@.subrange(0, i as int));
                    assert(b@ =~= b@.subrange(0, i as int));
                    assert(a@ =~= b@);
                }
                lemma_lex_lt_irreflexive(a@);
                lemma_lex_lt_irreflexive(b@);
            }
            return r;
        }
        let x = a[i];
        let y = b[i];
        if x < y {
            proof {
                lemma_lex_lt_asymmetric(a@.skip(i as int), b@.skip(i as int));
            }
            return Cmp::Lt;
        }
        if x > y {
            proof {
                lemma_lex_lt_asymmetric(b@.skip(i as int), a@.skip(i as int));
            }
            return Cmp::Gt;
        }
        proof {
            assert(a@.skip(i as int).skip(1) =~= a@.skip(i + 1));
            assert(b@.skip(i as int).skip(1) =~= b@.skip(i + 1));
            assert(a@.subrange(0, i + 1) =~= b@.subrange(0, i + 1)) by {
                assert(forall|j: int|
                    0 <= j < i ==> a@.subrange(0, i as int)[j] == #[trigger] b@.subrange(
                        0,
                        i as int,
                    )[j]);
            }
            if a@.skip(i as int) == b@.skip(i as int) {
                assert(a@.skip(i + 1) =~= b@.skip(i + 1));
            }
            if a@.skip(i + 1) == b@.skip(i + 1) {
                assert forall|j: int|
                    0 <= j < a@.skip(i as int).len() implies a@.skip(i as int)[j] == b@.skip(
                    i as int,
                )[j] by {
                    if j > 0 {
                        assert(a@.skip(i + 1)[j - 1] == b@.skip(i + 1)[j - 1]);
                    }
                }
                assert(a@.skip(i as int) =~= b@.skip(i as int));
            }
        }
        i = i + 1;
    }
}

/// Byte-string equality.
pub fn bytes_eq(a: &[u8], b: &[u8]) -> (r: bool)
    ensures
        r <==> a@ == b@,
{
    matches!(lex_cmp(a, b), Cmp::Eq)
}

/// Does `k` start with `p`?
pub fn starts_with(k: &[u8], p: &[u8]) -> (r: bool)
    ensures
        r <==> has_prefix(k@, p@),
{
    if p.len() > k.len() {
        return false;
    }
    let mut i: usize = 0;
    while i < p.len()
        invariant
            i <= p@.len(),
            p@.len() <= k@.len(),
            forall|j: int| 0 <= j < i ==> k@[j] == p@[j],
        decreases p@.len() - i,
    {
        if k[i] != p[i] {
            assert(k@.subrange(0, p@.len() as int)[i as int] != p@[i as int]);
            return false;
        }
        i = i + 1;
    }
    assert(k@.subrange(0, p@.len() as int) =~= p@);
    true
}

/// Does `b` avoid the NUL byte?
pub fn nul_free_check(b: &[u8]) -> (r: bool)
    ensures
        r == nul_free(b@),
{
    let n = b.len();
    let mut i: usize = 0;
    while i < n
        invariant
            n == b@.len(),
            i <= n,
            forall|j: int| 0 <= j < i ==> b@[j] != 0u8,
        decreases n - i,
    {
        if b[i] == 0u8 {
            return false;
        }
        i = i + 1;
    }
    true
}

} // verus!

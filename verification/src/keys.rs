//! NUL-joined key encoding.
//!
//! Store keys are made of parts joined by a single NUL byte; DIDs,
//! record keys and aliases are assumed NUL-free, so the decomposition of
//! a key into parts is unique. Prefix scans append a trailing NUL to
//! avoid matching a longer first part.

use vstd::prelude::*;
use vstd::utf8::{decode_utf8, encode_utf8, valid_utf8};

use crate::bytes::nul_free;
use crate::kv::copy_bytes;
use crate::text::bytes_to_string;

verus! {

/// Parts joined by single NUL bytes.
pub open spec fn join_parts(parts: Seq<Seq<u8>>) -> Seq<u8>
    decreases parts.len(),
{
    if parts.len() == 0 {
        Seq::empty()
    } else if parts.len() == 1 {
        parts[0]
    } else {
        parts[0] + seq![0u8] + join_parts(parts.skip(1))
    }
}

/// The byte strings of a list of string slices.
pub open spec fn parts_bytes(parts: Seq<&str>) -> Seq<Seq<u8>> {
    parts.map(|i: int, p: &str| encode_utf8(p@))
}

pub proof fn lemma_join_push(parts: Seq<Seq<u8>>, x: Seq<u8>)
    ensures
        parts.len() == 0 ==> join_parts(parts.push(x)) == x,
        parts.len() > 0 ==> join_parts(parts.push(x)) == join_parts(parts) + seq![0u8] + x,
    decreases parts.len(),
{
    let p = parts.push(x);
    if parts.len() == 0 {
        assert(p.len() == 1);
        assert(p[0] == x);
    } else {
        assert(p[0] == parts[0]);
        assert(p.skip(1) =~= parts.skip(1).push(x));
        lemma_join_push(parts.skip(1), x);
        if parts.len() > 1 {
            assert((parts[0] + seq![0u8] + (join_parts(parts.skip(1)) + seq![0u8] + x)) =~= (parts[0]
                + seq![0u8] + join_parts(parts.skip(1)) + seq![0u8] + x));
        }
    }
}

/// A joined key of two or more NUL-free parts determines its parts.
pub proof fn lemma_join_injective(p: Seq<Seq<u8>>, q: Seq<Seq<u8>>)
    requires
        p.len() >= 1,
        q.len() >= 1,
        forall|i: int| 0 <= i < p.len() ==> nul_free(#[trigger] p[i]),
        forall|i: int| 0 <= i < q.len() ==> nul_free(#[trigger] q[i]),
        join_parts(p) == join_parts(q),
    ensures
        p == q,
    decreases p.len(),
{
    let b = join_parts(p);
    if p.len() == 1 && q.len() == 1 {
        assert(p =~= q);
    } else if p.len() == 1 {
        assert(b == q[0] + seq![0u8] + join_parts(q.skip(1)));
        assert(b[q[0].len() as int] == 0u8);
        assert(nul_free(p[0]));
        assert(b[q[0].len() as int] != 0u8);
    } else if q.len() == 1 {
        assert(b == p[0] + seq![0u8] + join_parts(p.skip(1)));
        assert(b[p[0].len() as int] == 0u8);
        assert(nul_free(q[0]));
        assert(b[p[0].len() as int] != 0u8);
    } else {
        let pl = p[0].len() as int;
        let ql = q[0].len() as int;
        assert(b == p[0] + seq![0u8] + join_parts(p.skip(1)));
        assert(b == q[0] + seq![0u8] + join_parts(q.skip(1)));
        if pl < ql {
            assert(b[pl] == 0u8);
            assert(b[pl] == q[0][pl]);
            assert(q[0][pl] != 0u8);
        } else if ql < pl {
            assert(b[ql] == 0u8);
            assert(b[ql] == p[0][ql]);
            assert(p[0][ql] != 0u8);
        }
        assert(pl == ql);
        assert(p[0] =~= q[0]) by {
            assert(forall|i: int| 0 <= i < pl ==> p[0][i] == b[i] && #[trigger] q[0][i] == b[i]);
        }
        assert(join_parts(p.skip(1)) =~= join_parts(q.skip(1))) by {
            let t1 = join_parts(p.skip(1));
            let t2 = join_parts(q.skip(1));
            assert(forall|i: int| 0 <= i < t1.len() ==> #[trigger] t1[i] == b[pl + 1 + i]);
            assert(forall|i: int| 0 <= i < t2.len() ==> #[trigger] t2[i] == b[ql + 1 + i]);
            assert(t1.len() == b.len() - pl - 1);
            assert(t2.len() == b.len() - ql - 1);
        }
        lemma_join_injective(p.skip(1), q.skip(1));
        assert(p =~= q) by {
            assert(forall|i: int|
                1 <= i < p.len() ==> #[trigger] p[i] == p.skip(1)[i - 1] && #[trigger] q[i]
                    == q.skip(1)[i - 1]);
        }
    }
}

/// A byte string splits at its first NUL in only one way.
pub proof fn lemma_nul_split_unique(x: Seq<u8>, u: Seq<u8>, y: Seq<u8>, v: Seq<u8>)
    requires
        nul_free(x),
        nul_free(y),
        x + seq![0u8] + u == y + seq![0u8] + v,
    ensures
        x == y,
        u == v,
{
    let b = x + seq![0u8] + u;
    let xl = x.len() as int;
    let yl = y.len() as int;
    if xl < yl {
        assert(b[xl] == 0u8);
        assert(b[xl] == y[xl]);
        assert(y[xl] != 0u8);
    } else if yl < xl {
        assert(b[yl] == 0u8) by {
            assert((y + seq![0u8] + v)[yl] == 0u8);
        }
        assert(b[yl] == x[yl]);
        assert(x[yl] != 0u8);
    }
    assert(xl == yl);
    assert(x =~= y) by {
        assert(forall|i: int| 0 <= i < xl ==> x[i] == b[i] && #[trigger] y[i] == b[i]);
    }
    assert(u =~= v) by {
        assert(forall|i: int|
            0 <= i < u.len() ==> #[trigger] u[i] == b[xl + 1 + i]);
        assert(forall|i: int|
            0 <= i < v.len() ==> #[trigger] v[i] == b[yl + 1 + i]);
        assert(u.len() == b.len() - xl - 1);
        assert(v.len() == b.len() - yl - 1);
    }
}

/// Join string parts with NUL bytes.
pub fn make_key(parts: &[&str]) -> (r: Vec<u8>)
    ensures
        r@ == join_parts(parts_bytes(parts@)),
{
    let ghost pb = parts_bytes(parts@);
    let mut r: Vec<u8> = Vec::new();
    let n = parts.len();
    let mut i: usize = 0;
    while i < n
        invariant
            n == parts@.len(),
            i <= n,
            pb == parts_bytes(parts@),
            pb.len() == n,
            r@ == join_parts(pb.take(i as int)),
        decreases n - i,
    {
        if i > 0 {
            r.push(0u8);
        }
        let pb_i: &[u8] = parts[i].as_bytes();
        let mut j: usize = 0;
        let ghost r_mid = r@;
        while j < pb_i.len()
            invariant
                j <= pb_i@.len(),
                r@ == r_mid + pb_i@.subrange(0, j as int),
            decreases pb_i@.len() - j,
        {
            r.push(pb_i[j]);
            proof {
                assert(r@ =~= r_mid + pb_i@.subrange(0, j + 1));
            }
            j = j + 1;
        }
        proof {
            assert(pb.take(i + 1) =~= pb.take(i as int).push(pb[i as int]));
            lemma_join_push(pb.take(i as int), pb[i as int]);
            assert(pb_i@.subrange(0, pb_i@.len() as int) =~= pb_i@);
            if i == 0 {
                assert(r@ =~= join_parts(pb.take(i + 1)));
            } else {
                assert(r@ =~= join_parts(pb.take(i as int)) + seq![0u8] + pb[i as int]);
            }
        }
        i = i + 1;
    }
    proof {
        assert(pb.take(n as int) =~= pb);
    }
    r
}

/// A scan prefix: the joined parts followed by a trailing NUL.
pub fn make_key_prefix(parts: &[&str]) -> (r: Vec<u8>)
    ensures
        r@ == join_parts(parts_bytes(parts@)) + seq![0u8],
{
    let mut r = make_key(parts);
    r.push(0u8);
    r
}

/// The stored record row for an edge: actor and subject joined by NUL.
pub fn make_record(actor: &str, subject: &str) -> (r: Vec<u8>)
    ensures
        r@ == encode_utf8(actor@) + seq![0u8] + encode_utf8(subject@),
{
    let parts: [&str; 2] = [actor, subject];
    let r = make_key(parts.as_slice());
    proof {
        reveal_with_fuel(join_parts, 3);
        let pb = parts_bytes(parts@);
        assert(pb.len() == 2);
        assert(pb.skip(1).len() == 1);
        assert(pb.skip(1)[0] == pb[1]);
        assert(r@ == pb[0] + seq![0u8] + join_parts(pb.skip(1)));
        assert(r@ == pb[0] + seq![0u8] + pb[1]);
    }
    r
}

/// Split a key on NUL bytes into its raw parts.
///
/// The result is the unique decomposition of `k` into NUL-free parts:
/// joining it back yields `k`.
pub fn split_bytes(k: &[u8]) -> (r: Vec<Vec<u8>>)
    ensures
        r@.len() >= 1,
        forall|i: int| 0 <= i < r@.len() ==> nul_free(#[trigger] r@[i]@),
        join_parts(r@.map(|i: int, v: Vec<u8>| v@)) == k@,
{
    let mut r: Vec<Vec<u8>> = Vec::new();
    let mut part: Vec<u8> = Vec::new();
    let n = k.len();
    let mut i: usize = 0;
    while i < n
        invariant
            n == k@.len(),
            i <= n,
            forall|j: int| 0 <= j < r@.len() ==> nul_free(#[trigger] r@[j]@),
            nul_free(part@),
            r@.len() == 0 ==> part@ == k@.subrange(0, i as int),
            r@.len() > 0 ==> join_parts(r@.map(|j: int, v: Vec<u8>| v@)) + seq![0u8] + part@
                == k@.subrange(0, i as int),
        decreases n - i,
    {
        let ghost parts_old = r@.map(|j: int, v: Vec<u8>| v@);
        let c = k[i];
        if c == 0u8 {
            let ghost part_old = part@;
            r.push(part);
            part = Vec::new();
            proof {
                let parts_new = r@.map(|j: int, v: Vec<u8>| v@);
                assert(parts_new =~= parts_old.push(part_old));
                lemma_join_push(parts_old, part_old);
                if parts_old.len() == 0 {
                    assert(join_parts(parts_new) == part_old);
                } else {
                    assert(join_parts(parts_new) == join_parts(parts_old) + seq![0u8] + part_old);
                }
                assert(join_parts(parts_new) + seq![0u8] + Seq::<u8>::empty() =~= k@.subrange(
                    0,
                    i + 1,
                ));
            }
        } else {
            part.push(c);
            proof {
                if r@.len() == 0 {
                    assert(part@ =~= k@.subrange(0, i + 1));
                } else {
                    assert(join_parts(r@.map(|j: int, v: Vec<u8>| v@)) + seq![0u8] + part@
                        =~= k@.subrange(0, i + 1));
                }
            }
        }
        i = i + 1;
    }
    let ghost parts_old = r@.map(|j: int, v: Vec<u8>| v@);
    let ghost part_old = part@;
    r.push(part);
    proof {
        let parts_new = r@.map(|j: int, v: Vec<u8>| v@);
        assert(parts_new =~= parts_old.push(part_old));
        lemma_join_push(parts_old, part_old);
        assert(k@.subrange(0, n as int) =~= k@);
        if parts_old.len() == 0 {
            assert(join_parts(parts_new) =~= k@);
        } else {
            assert(join_parts(parts_new) =~= k@);
        }
    }
    r
}

/// Split a key on NUL bytes and decode each part as UTF-8.
///
/// Returns `None` when some part is not valid UTF-8.
pub fn split_key(k: &[u8]) -> (r: Option<Vec<String>>)
    ensures
        r matches Some(v) ==> {
            &&& v@.len() >= 1
            &&& forall|i: int|
                0 <= i < v@.len() ==> valid_utf8(#[trigger] encode_utf8(v@[i]@)) && nul_free(
                    encode_utf8(v@[i]@),
                )
            &&& join_parts(v@.map(|i: int, s: String| encode_utf8(s@))) == k@
        },
        r is None ==> exists|p: Seq<Seq<u8>>|
            {
                &&& p.len() >= 1
                &&& forall|i: int| 0 <= i < p.len() ==> nul_free(#[trigger] p[i])
                &&& join_parts(p) == k@
                &&& exists|i: int| 0 <= i < p.len() && !valid_utf8(p[i])
            },
{
    let raw = split_bytes(k);
    let ghost raw_parts = raw@.map(|i: int, v: Vec<u8>| v@);
    let mut out: Vec<String> = Vec::new();
    let n = raw.len();
    let mut i: usize = 0;
    while i < n
        invariant
            n == raw@.len(),
            i <= n,
            raw_parts == raw@.map(|j: int, v: Vec<u8>| v@),
            raw_parts.len() >= 1,
            forall|j: int| 0 <= j < raw_parts.len() ==> nul_free(#[trigger] raw_parts[j]),
            join_parts(raw_parts) == k@,
            out@.len() == i,
            forall|j: int|
                0 <= j < i ==> valid_utf8(#[trigger] raw_parts[j]) && out@[j]@ == decode_utf8(
                    raw_parts[j],
                ),
        decreases n - i,
    {
        let part = copy_bytes(&raw[i]);
        match bytes_to_string(part) {
            Some(s) => {
                out.push(s);
            },
            None => {
                proof {
                    assert(!valid_utf8(raw_parts[i as int]));
                }
                return None;
            },
        }
        i = i + 1;
    }
    proof {
        assert forall|j: int|
            0 <= j < out@.len() implies #[trigger] encode_utf8(out@[j]@) == raw_parts[j] by {
            vstd::utf8::decode_utf8_encode_utf8(raw_parts[j]);
        }
        assert(out@.map(|j: int, s: String| encode_utf8(s@)) =~= raw_parts);
    }
    Some(out)
}

/// Split a record row at its first NUL into actor and subject.
///
/// Returns `None` when the row has no NUL or a half is not valid UTF-8.
pub fn parse_record(k: &[u8]) -> (r: Option<(String, String)>)
    ensures
        r matches Some(p) ==> {
            &&& nul_free(encode_utf8(p.0@))
            &&& k@ == encode_utf8(p.0@) + seq![0u8] + encode_utf8(p.1@)
        },
        r is None ==> nul_free(k@) || exists|a: Seq<u8>, b: Seq<u8>|
            {
                &&& k@ == a + seq![0u8] + b
                &&& nul_free(a)
                &&& (!valid_utf8(a) || !valid_utf8(b))
            },
{
    let n = k.len();
    let mut i: usize = 0;
    while i < n
        invariant
            n == k@.len(),
            i <= n,
            forall|j: int| 0 <= j < i ==> k@[j] != 0u8,
        decreases n - i,
    {
        if k[i] == 0u8 {
            // Found the first NUL: split here.
            let mut a: Vec<u8> = Vec::new();
            let mut j: usize = 0;
            while j < i
                invariant
                    j <= i <= n,
                    n == k@.len(),
                    a@ == k@.subrange(0, j as int),
                decreases i - j,
            {
                a.push(k[j]);
                proof {
                    assert(a@ =~= k@.subrange(0, j + 1));
                }
                j = j + 1;
            }
            let mut b: Vec<u8> = Vec::new();
            let mut j2: usize = i + 1;
            while j2 < n
                invariant
                    i + 1 <= j2 <= n,
                    n == k@.len(),
                    b@ == k@.subrange(i + 1, j2 as int),
                decreases n - j2,
            {
                b.push(k[j2]);
                proof {
                    assert(b@ =~= k@.subrange(i + 1, j2 + 1));
                }
                j2 = j2 + 1;
            }
            proof {
                assert(a@ + seq![0u8] + b@ =~= k@);
            }
            let ghost ga = a@;
            let ghost gb = b@;
            let sa = match bytes_to_string(a) {
                Some(s) => s,
                None => {
                    proof {
                        assert(k@ == ga + seq![0u8] + gb && nul_free(ga) && !valid_utf8(ga));
                    }
                    return None;
                },
            };
            let sb = match bytes_to_string(b) {
                Some(s) => s,
                None => {
                    proof {
                        assert(k@ == ga + seq![0u8] + gb && nul_free(ga) && !valid_utf8(gb));
                    }
                    return None;
                },
            };
            proof {
                vstd::utf8::decode_utf8_encode_utf8(ga);
                vstd::utf8::decode_utf8_encode_utf8(gb);
            }
            return Some((sa, sb));
        }
        i = i + 1;
    }
    None
}

} // verus!

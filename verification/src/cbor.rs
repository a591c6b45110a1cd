//! DAG-CBOR decoding.
//!
//! A single generic value decoder serves repository blocks, commit
//! records and change-stream frames. Nesting is bounded (matching the
//! usual serde recursion limit), indefinite lengths are rejected, and
//! text items must be valid UTF-8. Floating-point items are carried as
//! their raw bits and never interpreted.

use vstd::prelude::*;
use vstd::utf8::valid_utf8;

use crate::kv::copy_bytes;
use crate::text::utf8_valid;

verus! {

/// How deep nesting may go before the decoder gives up.
pub const MAX_DEPTH: u32 = 128;

/// The mathematical form of a decoded value.
pub enum SpecValue {
    UInt(u64),
    /// The integer `-1 - n`, for magnitude argument `n`.
    NInt(u64),
    Bytes(Seq<u8>),
    Text(Seq<u8>),
    Array(Seq<SpecValue>),
    Dict(Seq<(SpecValue, SpecValue)>),
    Tag(u64, Box<SpecValue>),
    Bool(bool),
    Null,
    /// A float, kept as its raw big-endian bits.
    Float(u64),
}

/// A decoded value.
pub enum Value {
    UInt(u64),
    /// The integer `-1 - n`, for magnitude argument `n`.
    NInt(u64),
    Bytes(Vec<u8>),
    Text(Vec<u8>),
    Array(Vec<Value>),
    Dict(Vec<(Value, Value)>),
    Tag(u64, Box<Value>),
    Bool(bool),
    Null,
    /// A float, kept as its raw big-endian bits.
    Float(u64),
}

/// `v` is the executable form of `sv`.
pub open spec fn rep(v: Value, sv: SpecValue) -> bool
    decreases sv,
{
    match sv {
        SpecValue::UInt(b) => v matches Value::UInt(a) && a == b,
        SpecValue::NInt(b) => v matches Value::NInt(a) && a == b,
        SpecValue::Bytes(b) => v matches Value::Bytes(a) && a@ == b,
        SpecValue::Text(b) => v matches Value::Text(a) && a@ == b,
        SpecValue::Array(ss) => v matches Value::Array(items) && items@.len() == ss.len()
            && forall|i: int| 0 <= i < ss.len() ==> rep(items@[i], #[trigger] ss[i]),
        SpecValue::Dict(ss) => v matches Value::Dict(items) && items@.len() == ss.len()
            && forall|i: int|
                0 <= i < ss.len() ==> rep(items@[i].0, #[trigger] ss[i].0) && rep(
                    items@[i].1,
                    ss[i].1,
                ),
        SpecValue::Tag(t, b) => v matches Value::Tag(t2, b2) && t2 == t && rep(*b2, *b),
        SpecValue::Bool(b) => v matches Value::Bool(a) && a == b,
        SpecValue::Null => v matches Value::Null,
        SpecValue::Float(b) => v matches Value::Float(a) && a == b,
    }
}

/// Extra bytes carried by an additional-information value, or -1 where
/// the form is not accepted (reserved and indefinite forms).
pub open spec fn spec_arg_len(ai: u8) -> int {
    if ai < 24 {
        0
    } else if ai == 24 {
        1
    } else if ai == 25 {
        2
    } else if ai == 26 {
        4
    } else if ai == 27 {
        8
    } else {
        -1
    }
}

/// The big-endian value of `l` bytes at `pos`.
pub open spec fn be_val(s: Seq<u8>, pos: int, l: int) -> int
    decreases l,
{
    if l <= 0 {
        0
    } else {
        be_val(s, pos, l - 1) * 256 + s[pos + l - 1]
    }
}

pub open spec fn pow256(l: int) -> int
    decreases l,
{
    if l <= 0 {
        1
    } else {
        256 * pow256(l - 1)
    }
}

pub proof fn lemma_be_val_bound(s: Seq<u8>, pos: int, l: int)
    requires
        0 <= pos,
        pos + l <= s.len(),
    ensures
        0 <= be_val(s, pos, l) < pow256(l),
    decreases l,
{
    if l <= 0 {
    } else {
        lemma_be_val_bound(s, pos, l - 1);
        assert(be_val(s, pos, l) == be_val(s, pos, l - 1) * 256 + s[pos + l - 1]);
        assert(be_val(s, pos, l - 1) * 256 <= (pow256(l - 1) - 1) * 256) by {
            assert(be_val(s, pos, l - 1) <= pow256(l - 1) - 1);
        }
    }
}

/// The initial byte and argument of an item: major type, argument
/// value, position after the header.
pub open spec fn spec_head(s: Seq<u8>, pos: int) -> Option<(u8, u64, int)> {
    if pos < 0 || pos >= s.len() {
        None
    } else {
        let b = s[pos];
        let major = b / 32;
        let ai = b % 32;
        let l = spec_arg_len(ai);
        if l == 0 {
            Some((major, ai as u64, pos + 1))
        } else if l < 0 {
            None
        } else if pos + 1 + l > s.len() {
            None
        } else {
            Some((major, be_val(s, pos + 1, l) as u64, pos + 1 + l))
        }
    }
}

/// One item, decoding children down to the given depth.
pub open spec fn spec_item(s: Seq<u8>, pos: int, depth: int) -> Option<(SpecValue, int)>
    decreases depth, 0int,
{
    if depth <= 0 {
        None
    } else {
        match spec_head(s, pos) {
            None => None,
            Some((major, arg, p2)) => {
                if major == 0 {
                    Some((SpecValue::UInt(arg), p2))
                } else if major == 1 {
                    Some((SpecValue::NInt(arg), p2))
                } else if major == 2 {
                    if arg as int > s.len() - p2 {
                        None
                    } else {
                        Some((SpecValue::Bytes(s.subrange(p2, p2 + arg)), p2 + arg))
                    }
                } else if major == 3 {
                    if arg as int > s.len() - p2 {
                        None
                    } else {
                        let t = s.subrange(p2, p2 + arg);
                        if valid_utf8(t) {
                            Some((SpecValue::Text(t), p2 + arg))
                        } else {
                            None
                        }
                    }
                } else if major == 4 {
                    match spec_list(s, p2, arg as int, Seq::empty(), depth - 1) {
                        None => None,
                        Some((items, p3)) => Some((SpecValue::Array(items), p3)),
                    }
                } else if major == 5 {
                    match spec_pairs(s, p2, arg as int, Seq::empty(), depth - 1) {
                        None => None,
                        Some((items, p3)) => Some((SpecValue::Dict(items), p3)),
                    }
                } else if major == 6 {
                    match spec_item(s, p2, depth - 1) {
                        None => None,
                        Some((v, p3)) => Some((SpecValue::Tag(arg, Box::new(v)), p3)),
                    }
                } else {
                    let ai = s[pos] % 32;
                    if ai == 20 {
                        Some((SpecValue::Bool(false), p2))
                    } else if ai == 21 {
                        Some((SpecValue::Bool(true), p2))
                    } else if ai == 22 {
                        Some((SpecValue::Null, p2))
                    } else if ai == 25 || ai == 26 || ai == 27 {
                        Some((SpecValue::Float(arg), p2))
                    } else {
                        None
                    }
                }
            },
        }
    }
}

/// `n` further array elements after `acc`.
pub open spec fn spec_list(
    s: Seq<u8>,
    pos: int,
    n: int,
    acc: Seq<SpecValue>,
    depth: int,
) -> Option<(Seq<SpecValue>, int)>
    decreases depth, n + 1,
{
    if n <= 0 {
        Some((acc, pos))
    } else if depth <= 0 {
        None
    } else {
        match spec_item(s, pos, depth) {
            None => None,
            Some((v, p2)) => spec_list(s, p2, n - 1, acc.push(v), depth),
        }
    }
}

/// `n` further map entries after `acc`.
pub open spec fn spec_pairs(
    s: Seq<u8>,
    pos: int,
    n: int,
    acc: Seq<(SpecValue, SpecValue)>,
    depth: int,
) -> Option<(Seq<(SpecValue, SpecValue)>, int)>
    decreases depth, n + 1,
{
    if n <= 0 {
        Some((acc, pos))
    } else if depth <= 0 {
        None
    } else {
        match spec_item(s, pos, depth) {
            None => None,
            Some((k, p2)) => match spec_item(s, p2, depth) {
                None => None,
                Some((v, p3)) => spec_pairs(s, p3, n - 1, acc.push((k, v)), depth),
            },
        }
    }
}

/// The whole input decodes to a single item with nothing left over.
pub open spec fn spec_decode(s: Seq<u8>) -> Option<SpecValue> {
    match spec_item(s, 0, MAX_DEPTH as int) {
        None => None,
        Some((v, p)) => if p == s.len() {
            Some(v)
        } else {
            None
        },
    }
}

fn decode_head(s: &[u8], pos: usize) -> (r: Option<(u8, u64, usize)>)
    ensures
        match r {
            Some(h) => spec_head(s@, pos as int) == Some((h.0, h.1, h.2 as int)) && pos < h.2
                <= s@.len(),
            None => spec_head(s@, pos as int) is None,
        },
{
    let n = s.len();
    if pos >= n {
        return None;
    }
    let b = s[pos];
    let major = b / 32;
    let ai = b % 32;
    if ai < 24 {
        return Some((major, ai as u64, pos + 1));
    }
    let l: usize = if ai == 24 {
        1
    } else if ai == 25 {
        2
    } else if ai == 26 {
        4
    } else if ai == 27 {
        8
    } else {
        return None;
    };
    if l > n - pos - 1 {
        return None;
    }
    let mut v: u64 = 0;
    let mut i: usize = 0;
    proof {
        reveal_with_fuel(pow256, 9);
    }
    while i < l
        invariant
            n == s@.len(),
            pos + 1 + l <= n,
            l <= 8,
            i <= l,
            v as int == be_val(s@, pos + 1, i as int),
            v < pow256(i as int),
        decreases l - i,
    {
        proof {
            reveal_with_fuel(pow256, 9);
            assert(pow256(i as int) <= pow256(7)) by {
                if i < 7 {
                    lemma_pow256_mono(i as int, 7);
                }
            }
        }
        v = v * 256 + (s[pos + 1 + i] as u64);
        i = i + 1;
    }
    proof {
        lemma_be_val_bound(s@, pos + 1 as int, l as int);
        assert(v == be_val(s@, pos + 1, l as int) as u64);
    }
    Some((major, v, pos + 1 + l))
}

proof fn lemma_pow256_mono(a: int, b: int)
    requires
        0 <= a <= b,
    ensures
        pow256(a) <= pow256(b),
    decreases b - a,
{
    if a < b {
        lemma_pow256_mono(a, b - 1);
        assert(pow256(b) == 256 * pow256(b - 1));
        lemma_pow256_pos(b - 1);
    }
}

proof fn lemma_pow256_pos(l: int)
    ensures
        pow256(l) >= 1,
    decreases l,
{
    if l > 0 {
        lemma_pow256_pos(l - 1);
    }
}

/// Decode one item at `pos`, descending at most `depth` levels.
pub fn decode_item(s: &[u8], pos: usize, depth: u32) -> (r: Option<(Value, usize)>)
    ensures
        match r {
            Some(p) => spec_item(s@, pos as int, depth as int) matches Some(q) && rep(p.0, q.0)
                && q.1 == p.1 && pos < p.1 <= s@.len(),
            None => spec_item(s@, pos as int, depth as int) is None,
        },
    decreases depth, 0int,
{
    if depth == 0 {
        return None;
    }
    let head = decode_head(s, pos);
    let (major, arg, p2) = match head {
        Some(h) => h,
        None => {
            return None;
        },
    };
    if major == 0 {
        Some((Value::UInt(arg), p2))
    } else if major == 1 {
        Some((Value::NInt(arg), p2))
    } else if major == 2 || major == 3 {
        if arg > (s.len() - p2) as u64 {
            return None;
        }
        let end = p2 + (arg as usize);
        let part = vstd::slice::slice_subrange(s, p2, end);
        if major == 3 && !utf8_valid(part) {
            return None;
        }
        let bytes = copy_bytes(part);
        if major == 2 {
            Some((Value::Bytes(bytes), end))
        } else {
            Some((Value::Text(bytes), end))
        }
    } else if major == 4 {
        let mut items: Vec<Value> = Vec::new();
        let ghost mut specs: Seq<SpecValue> = Seq::empty();
        let mut done: u64 = 0;
        let mut at: usize = p2;
        loop
            invariant
                1 <= depth,
                spec_head(s@, pos as int) == Some((4u8, arg, p2 as int)),
                done <= arg,
                pos < p2 <= at <= s@.len(),
                items@.len() == specs.len(),
                forall|i: int| 0 <= i < specs.len() ==> rep(items@[i], #[trigger] specs[i]),
                spec_list(s@, p2 as int, arg as int, Seq::empty(), depth - 1) == spec_list(
                    s@,
                    at as int,
                    arg - done,
                    specs,
                    depth - 1,
                ),
            decreases arg - done,
        {
            if done == arg {
                proof {
                    assert(spec_list(s@, at as int, 0, specs, depth - 1) == Some::<
                        (Seq<SpecValue>, int),
                    >((specs, at as int)));
                    assert(spec_item(s@, pos as int, depth as int) == Some::<(SpecValue, int)>((
                        SpecValue::Array(specs),
                        at as int,
                    )));
                }
                return Some((Value::Array(items), at));
            }
            match decode_item(s, at, depth - 1) {
                None => {
                    return None;
                },
                Some((v, p3)) => {
                    proof {
                        let q = choose|q: (SpecValue, int)|
                            spec_item(s@, at as int, depth - 1) == Some(q);
                        specs = specs.push(q.0);
                    }
                    items.push(v);
                    at = p3;
                    done = done + 1;
                },
            }
        }
    } else if major == 5 {
        let mut items: Vec<(Value, Value)> = Vec::new();
        let ghost mut specs: Seq<(SpecValue, SpecValue)> = Seq::empty();
        let mut done: u64 = 0;
        let mut at: usize = p2;
        loop
            invariant
                1 <= depth,
                spec_head(s@, pos as int) == Some((5u8, arg, p2 as int)),
                done <= arg,
                pos < p2 <= at <= s@.len(),
                items@.len() == specs.len(),
                forall|i: int|
                    0 <= i < specs.len() ==> rep(items@[i].0, #[trigger] specs[i].0) && rep(
                        items@[i].1,
                        specs[i].1,
                    ),
                spec_pairs(s@, p2 as int, arg as int, Seq::empty(), depth - 1) == spec_pairs(
                    s@,
                    at as int,
                    arg - done,
                    specs,
                    depth - 1,
                ),
            decreases arg - done,
        {
            if done == arg {
                proof {
                    assert(spec_pairs(s@, at as int, 0, specs, depth - 1) == Some::<
                        (Seq<(SpecValue, SpecValue)>, int),
                    >((specs, at as int)));
                    assert(spec_item(s@, pos as int, depth as int) == Some::<(SpecValue, int)>((
                        SpecValue::Dict(specs),
                        at as int,
                    )));
                }
                return Some((Value::Dict(items), at));
            }
            let (kv, p3) = match decode_item(s, at, depth - 1) {
                None => {
                    return None;
                },
                Some(x) => x,
            };
            let (vv, p4) = match decode_item(s, p3, depth - 1) {
                None => {
                    return None;
                },
                Some(x) => x,
            };
            proof {
                let qk = choose|q: (SpecValue, int)| spec_item(s@, at as int, depth - 1) == Some(q);
                let qv = choose|q: (SpecValue, int)| spec_item(s@, p3 as int, depth - 1) == Some(q);
                specs = specs.push((qk.0, qv.0));
            }
            items.push((kv, vv));
            at = p4;
            done = done + 1;
        }
    } else if major == 6 {
        match decode_item(s, p2, depth - 1) {
            None => None,
            Some((v, p3)) => Some((Value::Tag(arg, Box::new(v)), p3)),
        }
    } else {
        let b = s[pos];
        let ai = b % 32;
        if ai == 20 {
            Some((Value::Bool(false), p2))
        } else if ai == 21 {
            Some((Value::Bool(true), p2))
        } else if ai == 22 {
            Some((Value::Null, p2))
        } else if ai == 25 || ai == 26 || ai == 27 {
            Some((Value::Float(arg), p2))
        } else {
            None
        }
    }
}

/// Decode a whole buffer as one item; trailing bytes are an error.
pub fn decode(s: &[u8]) -> (r: Option<Value>)
    ensures
        match r {
            Some(v) => spec_decode(s@) matches Some(sv) && rep(v, sv),
            None => spec_decode(s@) is None,
        },
{
    match decode_item(s, 0, MAX_DEPTH) {
        None => None,
        Some((v, p)) => {
            if p == s.len() {
                Some(v)
            } else {
                None
            }
        },
    }
}

/// What the executable value's shape says about the mathematical one.
pub proof fn lemma_rep_inversion(v: Value, sv: SpecValue)
    requires
        rep(v, sv),
    ensures
        v matches Value::UInt(a) ==> sv == SpecValue::UInt(a),
        v matches Value::NInt(a) ==> sv == SpecValue::NInt(a),
        v matches Value::Bytes(a) ==> sv == SpecValue::Bytes(a@),
        v matches Value::Text(a) ==> sv == SpecValue::Text(a@),
        v matches Value::Bool(a) ==> sv == SpecValue::Bool(a),
        v matches Value::Null ==> sv == SpecValue::Null,
        v matches Value::Float(a) ==> sv == SpecValue::Float(a),
        v matches Value::Tag(t, b) ==> sv matches SpecValue::Tag(t2, b2) && t2 == t && rep(
            *b,
            *b2,
        ),
        v matches Value::Array(items) ==> sv matches SpecValue::Array(ss) && items@.len()
            == ss.len() && (forall|i: int| 0 <= i < ss.len() ==> rep(items@[i], #[trigger] ss[i])),
        v matches Value::Dict(items) ==> sv matches SpecValue::Dict(ss) && items@.len() == ss.len()
            && (forall|i: int|
            0 <= i < ss.len() ==> rep(items@[i].0, #[trigger] ss[i].0) && rep(
                items@[i].1,
                ss[i].1,
            )),
{
    match sv {
        SpecValue::UInt(_) => {},
        SpecValue::NInt(_) => {},
        SpecValue::Bytes(_) => {},
        SpecValue::Text(_) => {},
        SpecValue::Array(_) => {},
        SpecValue::Dict(_) => {},
        SpecValue::Tag(_, _) => {},
        SpecValue::Bool(_) => {},
        SpecValue::Null => {},
        SpecValue::Float(_) => {},
    }
}

/// The value at the first map entry whose key is the given text.
pub open spec fn dict_get(ss: Seq<(SpecValue, SpecValue)>, key: Seq<u8>) -> Option<SpecValue>
    decreases ss.len(),
{
    if ss.len() == 0 {
        None
    } else if ss[0].0 == SpecValue::Text(key) {
        Some(ss[0].1)
    } else {
        dict_get(ss.skip(1), key)
    }
}

/// Look a text key up in a decoded map.
pub fn dict_get_exec<'a>(
    items: &'a Vec<(Value, Value)>,
    key: &[u8],
    Ghost(ss): Ghost<Seq<(SpecValue, SpecValue)>>,
) -> (r: Option<&'a Value>)
    requires
        ss.len() == items@.len(),
        forall|i: int|
            0 <= i < ss.len() ==> rep(#[trigger] items@[i].0, ss[i].0) && rep(
                items@[i].1,
                ss[i].1,
            ),
    ensures
        match r {
            Some(v) => dict_get(ss, key@) matches Some(sv) && rep(*v, sv),
            None => dict_get(ss, key@) is None,
        },
{
    let n = items.len();
    let mut i: usize = 0;
    proof {
        assert(ss.skip(0) =~= ss);
    }
    while i < n
        invariant
            n == items@.len(),
            ss.len() == n,
            i <= n,
            forall|j: int|
                0 <= j < ss.len() ==> rep(#[trigger] items@[j].0, ss[j].0) && rep(
                    items@[j].1,
                    ss[j].1,
                ),
            dict_get(ss, key@) == dict_get(ss.skip(i as int), key@),
        decreases n - i,
    {
        proof {
            lemma_rep_inversion(items@[i as int].0, ss[i as int].0);
            assert(ss.skip(i as int)[0] == ss[i as int]);
            assert(ss.skip(i as int).skip(1) =~= ss.skip(i + 1));
        }
        let hit = match &items[i].0 {
            Value::Text(t) => crate::bytes::bytes_eq(t.as_slice(), key),
            _ => false,
        };
        if hit {
            proof {
                assert(ss[i as int].0 == SpecValue::Text(key@));
                assert(dict_get(ss.skip(i as int), key@) == Some(ss[i as int].1));
            }
            return Some(&items[i].1);
        }
        proof {
            assert(ss[i as int].0 != SpecValue::Text(key@));
        }
        i = i + 1;
    }
    proof {
        assert(ss.skip(n as int).len() == 0);
    }
    None
}

} // verus!

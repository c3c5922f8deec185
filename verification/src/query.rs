//! The query-string grammar of the front end: `key=value` pairs separated by
//! `&`, with `+` standing for a space and `%XY` for the byte `0xXY`.
//!
//! Malformed percent escapes pass through literally, empty segments are
//! dropped, a segment without `=` is a key with an empty value, and a later
//! pair wins over an earlier one with the same key.

use vstd::prelude::*;

use crate::params::B_PLUS;

verus! {

pub const B_AMP: u8 = 38;

pub const B_EQ: u8 = 61;

pub const B_PERCENT: u8 = 37;

pub const B_SPACE: u8 = 32;

/// Index of the first occurrence of `t` in `s`, or `s.len()` if there is none.
pub open spec fn find_byte(s: Seq<u8>, t: u8) -> int
    decreases s.len(),
{
    if s.len() == 0 {
        0
    } else if s[0] == t {
        0
    } else {
        1 + find_byte(s.skip(1), t)
    }
}

pub proof fn lemma_find_byte_range(s: Seq<u8>, t: u8)
    ensures
        0 <= find_byte(s, t) <= s.len(),
        find_byte(s, t) < s.len() ==> s[find_byte(s, t)] == t,
        forall|j: int| 0 <= j < find_byte(s, t) ==> #[trigger] s[j] != t,
    decreases s.len(),
{
    if s.len() > 0 && s[0] != t {
        lemma_find_byte_range(s.skip(1), t);
        assert(forall|j: int| 0 <= j < find_byte(s.skip(1), t) ==> #[trigger] s.skip(1)[j] != t);
        assert forall|j: int| 0 <= j < find_byte(s, t) implies #[trigger] s[j] != t by {
            if j > 0 {
                assert(s.skip(1)[j - 1] == s[j]);
            }
        }
    }
}

pub proof fn lemma_find_byte_at(s: Seq<u8>, t: u8, k: int)
    requires
        0 <= k <= s.len(),
        forall|j: int| 0 <= j < k ==> #[trigger] s[j] != t,
        k < s.len() ==> s[k] == t,
    ensures
        find_byte(s, t) == k,
    decreases k,
{
    if k == 0 {
    } else {
        assert(s[0] != t);
        let r = s.skip(1);
        assert forall|j: int| 0 <= j < k - 1 implies #[trigger] r[j] != t by {
            assert(r[j] == s[j + 1]);
        }
        assert(k - 1 < r.len() ==> r[k - 1] == s[k]);
        lemma_find_byte_at(r, t, k - 1);
    }
}

pub open spec fn is_hex_digit(b: u8) -> bool {
    ||| (48 <= b && b <= 57)
    ||| (65 <= b && b <= 70)
    ||| (97 <= b && b <= 102)
}

pub open spec fn hex_val(b: u8) -> int {
    if 48 <= b && b <= 57 {
        b as int - 48
    } else if 65 <= b && b <= 70 {
        b as int - 55
    } else {
        b as int - 87
    }
}

/// Whether the escape at the front of `s` is a well-formed `%XY`.
pub open spec fn starts_with_escape(s: Seq<u8>) -> bool {
    s.len() >= 3 && s[0] == B_PERCENT && is_hex_digit(s[1]) && is_hex_digit(s[2])
}

/// Form decoding: `+` to space, well-formed `%XY` to its byte, anything else
/// (a malformed escape included) kept as it stands.
pub open spec fn spec_decode(s: Seq<u8>) -> Seq<u8>
    decreases s.len(),
{
    if s.len() == 0 {
        Seq::empty()
    } else if s[0] == B_PLUS {
        seq![B_SPACE] + spec_decode(s.skip(1))
    } else if starts_with_escape(s) {
        seq![(hex_val(s[1]) * 16 + hex_val(s[2])) as u8] + spec_decode(s.skip(3))
    } else {
        seq![s[0]] + spec_decode(s.skip(1))
    }
}

/// A segment split at its first `=`, both halves decoded.
pub open spec fn pair_of(seg: Seq<u8>) -> (Seq<u8>, Seq<u8>) {
    let e = find_byte(seg, B_EQ);
    if e == seg.len() {
        (spec_decode(seg), Seq::<u8>::empty())
    } else {
        (spec_decode(seg.take(e)), spec_decode(seg.skip(e + 1)))
    }
}

/// The query's pairs, in order of appearance; empty segments vanish.
pub open spec fn spec_pairs(q: Seq<u8>) -> Seq<(Seq<u8>, Seq<u8>)>
    decreases q.len(),
    via spec_pairs_decreases
{
    let a = find_byte(q, B_AMP);
    if a == q.len() {
        if q.len() == 0 {
            Seq::empty()
        } else {
            seq![pair_of(q)]
        }
    } else {
        let rest = spec_pairs(q.skip(a + 1));
        if a == 0 {
            rest
        } else {
            seq![pair_of(q.take(a))] + rest
        }
    }
}

#[via_fn]
proof fn spec_pairs_decreases(q: Seq<u8>) {
    lemma_find_byte_range(q, B_AMP);
}

/// The value of the last pair carrying `key`, if any: a later duplicate
/// replaces an earlier one, as insertion into a map would.
pub open spec fn spec_lookup(pairs: Seq<(Seq<u8>, Seq<u8>)>, key: Seq<u8>) -> Option<Seq<u8>>
    decreases pairs.len(),
{
    if pairs.len() == 0 {
        None
    } else if pairs.last().0 == key {
        Some(pairs.last().1)
    } else {
        spec_lookup(pairs.drop_last(), key)
    }
}

/// One decoded `key=value` pair of a query string.
pub struct QueryPair {
    pub key: Vec<u8>,
    pub value: Vec<u8>,
}

pub open spec fn pairs_view(ps: Seq<QueryPair>) -> Seq<(Seq<u8>, Seq<u8>)> {
    ps.map_values(|p: QueryPair| (p.key@, p.value@))
}

fn hex_digit_value(b: u8) -> (v: u8)
    requires
        is_hex_digit(b),
    ensures
        v == hex_val(b),
{
    if 48 <= b && b <= 57 {
        b - 48
    } else if 65 <= b && b <= 70 {
        b - 55
    } else {
        b - 87
    }
}

/// Decodes `s[from..to]` by the form rules.
#[verifier::loop_isolation(false)]
fn decode_range(s: &[u8], from: usize, to: usize) -> (r: Vec<u8>)
    requires
        from <= to <= s@.len(),
    ensures
        r@ == spec_decode(s@.subrange(from as int, to as int)),
{
    let mut out: Vec<u8> = Vec::new();
    let mut i: usize = from;
    while i < to
        invariant
            from <= i <= to,
            spec_decode(s@.subrange(from as int, to as int)) == out@ + spec_decode(
                s@.subrange(i as int, to as int),
            ),
        decreases to - i,
    {
        let ghost rem = s@.subrange(i as int, to as int);
        let b = s[i];
        if b == B_PLUS {
            proof {
                assert(rem.skip(1) =~= s@.subrange((i + 1) as int, to as int));
                assert(out@ + spec_decode(rem) =~= (out@ + seq![B_SPACE]) + spec_decode(
                    rem.skip(1),
                ));
                assert(out@.push(B_SPACE) =~= out@ + seq![B_SPACE]);
            }
            out.push(B_SPACE);
            i = i + 1;
        } else if b == B_PERCENT && to - i > 2 && is_hex(s[i + 1]) && is_hex(s[i + 2]) {
            let v = hex_digit_value(s[i + 1]) * 16 + hex_digit_value(s[i + 2]);
            proof {
                assert(rem[1] == s@[i + 1] && rem[2] == s@[i + 2]);
                assert(starts_with_escape(rem));
                assert(rem.skip(3) =~= s@.subrange((i + 3) as int, to as int));
                assert(out@ + spec_decode(rem) =~= out@.push(v) + spec_decode(rem.skip(3)));
            }
            out.push(v);
            i = i + 3;
        } else {
            proof {
                assert(rem[0] == s@[i as int]);
                assert(!starts_with_escape(rem)) by {
                    if rem.len() >= 3 {
                        assert(rem[1] == s@[i + 1] && rem[2] == s@[i + 2]);
                    }
                }
                assert(rem.skip(1) =~= s@.subrange((i + 1) as int, to as int));
                assert(out@ + spec_decode(rem) =~= out@.push(rem[0]) + spec_decode(rem.skip(1)));
            }
            out.push(b);
            i = i + 1;
        }
    }
    proof {
        assert(spec_decode(s@.subrange(i as int, to as int)) =~= Seq::<u8>::empty());
        assert(out@ + Seq::<u8>::empty() =~= out@);
    }
    out
}

fn is_hex(b: u8) -> (r: bool)
    ensures
        r == is_hex_digit(b),
{
    (48 <= b && b <= 57) || (65 <= b && b <= 70) || (97 <= b && b <= 102)
}

/// End of the run without `t` that starts at `from`.
#[verifier::loop_isolation(false)]
fn scan_to_byte(s: &[u8], from: usize, t: u8) -> (e: usize)
    requires
        from <= s@.len(),
    ensures
        from <= e <= s@.len(),
        forall|j: int| from <= j < e ==> #[trigger] s@[j] != t,
        e < s@.len() ==> s@[e as int] == t,
{
    let n: usize = s.len();
    let mut i: usize = from;
    while i < n && s[i] != t
        invariant
            from <= i <= n,
            forall|j: int| from <= j < i ==> #[trigger] s@[j] != t,
        decreases n - i,
    {
        i = i + 1;
    }
    i
}

/// One segment `s[from..to]` as a decoded pair.
fn segment_pair(s: &[u8], from: usize, to: usize) -> (r: QueryPair)
    requires
        from <= to <= s@.len(),
    ensures
        (r.key@, r.value@) == pair_of(s@.subrange(from as int, to as int)),
{
    let ghost seg = s@.subrange(from as int, to as int);
    let e = scan_to_byte(s, from, B_EQ);
    let e = if e > to {
        to
    } else {
        e
    };
    proof {
        assert forall|j: int| 0 <= j < e - from implies #[trigger] seg[j] != B_EQ by {
            assert(seg[j] == s@[from + j]);
        }
        if e - from < seg.len() {
            assert(seg[e - from] == s@[e as int]);
        }
        lemma_find_byte_at(seg, B_EQ, e - from);
    }
    if e == to {
        proof {
            assert(seg.subrange(0, seg.len() as int) =~= seg);
        }
        let key = decode_range(s, from, to);
        QueryPair { key, value: Vec::new() }
    } else {
        proof {
            assert(seg.take(e - from) =~= s@.subrange(from as int, e as int));
            assert(seg.skip(e - from + 1) =~= s@.subrange((e + 1) as int, to as int));
        }
        let key = decode_range(s, from, e);
        let value = decode_range(s, e + 1, to);
        QueryPair { key, value }
    }
}

/// Splits a raw query string into its decoded pairs, in order.
#[verifier::loop_isolation(false)]
pub fn parse_query(q: &[u8]) -> (r: Vec<QueryPair>)
    ensures
        pairs_view(r@) == spec_pairs(q@),
{
    let n: usize = q.len();
    let mut out: Vec<QueryPair> = Vec::new();
    let mut i: usize = 0;
    proof {
        assert(q@.subrange(0, n as int) =~= q@);
        assert(pairs_view(out@) + spec_pairs(q@) =~= spec_pairs(q@));
    }
    while i < n
        invariant
            0 <= i <= n,
            spec_pairs(q@) == pairs_view(out@) + spec_pairs(q@.subrange(i as int, n as int)),
        decreases n - i,
    {
        let ghost rem = q@.subrange(i as int, n as int);
        let e = scan_to_byte(q, i, B_AMP);
        proof {
            assert forall|j: int| 0 <= j < e - i implies #[trigger] rem[j] != B_AMP by {
                assert(rem[j] == q@[i + j]);
            }
            if e - i < rem.len() {
                assert(rem[e - i] == q@[e as int]);
            }
            lemma_find_byte_at(rem, B_AMP, e - i);
        }
        if e > i {
            let p = segment_pair(q, i, e);
            proof {
                if e < n {
                    assert(rem.take(e - i) =~= q@.subrange(i as int, e as int));
                    assert(rem.skip(e - i + 1) =~= q@.subrange((e + 1) as int, n as int));
                    assert(pairs_view(out@.push(p)) =~= pairs_view(out@) + seq![
                        (p.key@, p.value@),
                    ]);
                    assert(spec_pairs(q@) == pairs_view(out@.push(p)) + spec_pairs(
                        q@.subrange((e + 1) as int, n as int),
                    ));
                } else {
                    assert(rem =~= q@.subrange(i as int, e as int));
                    assert(pairs_view(out@.push(p)) =~= pairs_view(out@) + seq![
                        (p.key@, p.value@),
                    ]);
                    assert(spec_pairs(q@.subrange(e as int, n as int)) =~= Seq::<(
                        Seq<u8>,
                        Seq<u8>,
                    )>::empty());
                    assert(spec_pairs(q@) == pairs_view(out@.push(p)) + spec_pairs(
                        q@.subrange(e as int, n as int),
                    ));
                }
            }
            out.push(p);
        } else {
            proof {
                assert(rem.skip(1) =~= q@.subrange((e + 1) as int, n as int));
            }
        }
        if e == n {
            i = n;
        } else {
            i = e + 1;
        }
    }
    proof {
        assert(spec_pairs(q@.subrange(i as int, n as int)) =~= Seq::<(Seq<u8>, Seq<u8>)>::empty());
        assert(pairs_view(out@) + Seq::<(Seq<u8>, Seq<u8>)>::empty() =~= pairs_view(out@));
    }
    out
}

fn bytes_eq(a: &[u8], b: &[u8]) -> (r: bool)
    ensures
        r == (a@ == b@),
{
    if a.len() != b.len() {
        return false;
    }
    let n: usize = a.len();
    let mut i: usize = 0;
    while i < n
        invariant
            0 <= i <= n,
            n == a@.len() == b@.len(),
            forall|j: int| 0 <= j < i ==> a@[j] == b@[j],
        decreases n - i,
    {
        if a[i] != b[i] {
            return false;
        }
        i = i + 1;
    }
    proof {
        assert(a@ =~= b@);
    }
    true
}

/// The value of the last pair carrying `key`, if any.
#[verifier::loop_isolation(false)]
pub fn lookup<'a>(pairs: &'a Vec<QueryPair>, key: &[u8]) -> (r: Option<&'a Vec<u8>>)
    ensures
        (match spec_lookup(pairs_view(pairs@), key@) {
            Some(v) => r matches Some(rv) && rv@ == v,
            None => r is None,
        }),
{
    let n: usize = pairs.len();
    proof {
        assert(pairs_view(pairs@.take(n as int)) =~= pairs_view(pairs@));
    }
    let mut i: usize = n;
    while i > 0
        invariant
            0 <= i <= n,
            spec_lookup(pairs_view(pairs@), key@) == spec_lookup(
                pairs_view(pairs@.take(i as int)),
                key@,
            ),
        decreases i,
    {
        i = i - 1;
        let ghost pre = pairs_view(pairs@.take((i + 1) as int));
        proof {
            assert(pre.last() == (pairs@[i as int].key@, pairs@[i as int].value@));
            assert(pre.drop_last() =~= pairs_view(pairs@.take(i as int)));
        }
        if bytes_eq(pairs[i].key.as_slice(), key) {
            return Some(&pairs[i].value);
        }
    }
    proof {
        assert(pairs_view(pairs@.take(0)) =~= Seq::<(Seq<u8>, Seq<u8>)>::empty());
    }
    None
}

} // verus!

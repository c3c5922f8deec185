//! Request parameters: fixed-point angles and the decimal grammar that the
//! front end accepts for them.
//!
//! Angles travel through the pipeline as integers counting millionths of a
//! degree, so that validation and dispatch are exact; only the renderer at
//! the very edge works in floating point.

use vstd::prelude::*;

use crate::query::{parse_query, lookup, spec_pairs, spec_lookup};

verus! {

/// A validated request: the point on the globe currently facing the sun,
/// in millionths of a degree.
#[derive(Clone, Copy, PartialEq, Eq, Structural, Debug)]
pub struct SunParams {
    pub lat_micro: i64,
    pub lon_micro: i64,
}

/// Largest accepted latitude magnitude: ninety degrees.
pub const LAT_LIMIT_MICRO: i64 = 90_000_000;

/// Largest accepted longitude magnitude: one hundred eighty degrees.
pub const LON_LIMIT_MICRO: i64 = 180_000_000;

/// The bytes of "lat".
pub open spec fn lat_key() -> Seq<u8> {
    seq![108u8, 97u8, 116u8]
}

/// The bytes of "lon".
pub open spec fn lon_key() -> Seq<u8> {
    seq![108u8, 111u8, 110u8]
}

/// The accepted value for `key` in query `q`: the key must be present, its
/// last value numeric, and the angle within `limit` either way.
pub open spec fn spec_angle(q: Seq<u8>, key: Seq<u8>, limit: int) -> Option<int> {
    spec_angle_of_pairs(spec_pairs(q), key, limit)
}

/// A query is accepted exactly when both angles are: a missing key, a
/// non-numeric value or an angle out of range rejects the whole request.
pub open spec fn spec_validate(q: Seq<u8>) -> Option<SunParams> {
    match (spec_angle(q, lat_key(), LAT_LIMIT_MICRO as int), spec_angle(
        q,
        lon_key(),
        LON_LIMIT_MICRO as int,
    )) {
        (Option::Some(lat), Option::Some(lon)) => Option::Some(
            SunParams { lat_micro: lat as i64, lon_micro: lon as i64 },
        ),
        _ => Option::None,
    }
}

/// One angle taken out of parsed pairs and checked, mirroring `spec_angle`.
fn checked_angle(pairs: &Vec<crate::query::QueryPair>, key: &[u8], limit: i64) -> (r: Option<i64>)
    requires
        limit >= 0,
    ensures
        (match spec_angle_of_pairs(crate::query::pairs_view(pairs@), key@, limit as int) {
            Some(w) => r matches Some(v) && v == w,
            None => r is None,
        }),
{
    match lookup(pairs, key) {
        None => None,
        Some(v) => match parse_micro(v.as_slice()) {
            None => None,
            Some(w) => if -limit <= w && w <= limit {
                Some(w)
            } else {
                None
            },
        },
    }
}

/// As `spec_angle`, but over already-split pairs.
pub open spec fn spec_angle_of_pairs(
    pairs: Seq<(Seq<u8>, Seq<u8>)>,
    key: Seq<u8>,
    limit: int,
) -> Option<int> {
    match spec_lookup(pairs, key) {
        Option::None => Option::None,
        Option::Some(v) => match spec_parse_micro(v) {
            Option::None => Option::None,
            Option::Some(w) => if -limit <= w && w <= limit {
                Option::Some(w)
            } else {
                Option::None
            },
        },
    }
}

/// Validates a raw query string: both `lat` and `lon` must be present,
/// numeric and within range, else the request is rejected before it can
/// reach the engine. Numeric means a plain signed decimal: exponent
/// notation, infinities and NaN are rejected — a deliberate narrowing of
/// the accepted numeral forms to those whose fixed-point value this module
/// states exactly.
pub fn validate_request(q: &[u8]) -> (r: Option<SunParams>)
    ensures
        r == spec_validate(q@),
{
    let pairs = parse_query(q);
    let lat_key_b: Vec<u8> = vec![108u8, 97u8, 116u8];
    let lon_key_b: Vec<u8> = vec![108u8, 111u8, 110u8];
    proof {
        assert(lat_key_b@ =~= lat_key());
        assert(lon_key_b@ =~= lon_key());
    }
    let lat = checked_angle(&pairs, lat_key_b.as_slice(), LAT_LIMIT_MICRO);
    let lon = checked_angle(&pairs, lon_key_b.as_slice(), LON_LIMIT_MICRO);
    match (lat, lon) {
        (Some(lat_micro), Some(lon_micro)) => Some(SunParams { lat_micro, lon_micro }),
        _ => None,
    }
}

/// One degree, in the fixed-point unit used throughout (millionths of a degree).
pub const MICRO_PER_DEGREE: i64 = 1_000_000;

/// Integer parts longer than this are rejected as outside any sane angle range.
pub const MAX_INT_DIGITS: usize = 12;

/// ASCII bytes the grammar speaks of.
pub const B_ZERO: u8 = 48;

pub const B_NINE: u8 = 57;

pub const B_DOT: u8 = 46;

pub const B_PLUS: u8 = 43;

pub const B_MINUS: u8 = 45;

pub open spec fn is_digit(b: u8) -> bool {
    B_ZERO <= b && b <= B_NINE
}

pub open spec fn digit_val(b: u8) -> int {
    b as int - B_ZERO as int
}

pub open spec fn all_digits(s: Seq<u8>) -> bool {
    forall|i: int| 0 <= i < s.len() ==> is_digit(#[trigger] s[i])
}

/// Value of a digit string read as a base-10 numeral (0 for the empty string).
pub open spec fn digits_val(s: Seq<u8>) -> int
    decreases s.len(),
{
    if s.len() == 0 {
        0
    } else {
        digits_val(s.drop_last()) * 10 + digit_val(s.last())
    }
}

pub open spec fn pow10(n: nat) -> int
    decreases n,
{
    if n == 0 {
        1
    } else {
        10 * pow10((n - 1) as nat)
    }
}

/// Index of the first `.` in `s`, or `s.len()` if there is none.
pub open spec fn dot_index(s: Seq<u8>) -> int
    decreases s.len(),
{
    if s.len() == 0 {
        0
    } else if s[0] == B_DOT {
        0
    } else {
        1 + dot_index(s.skip(1))
    }
}

/// The digits before the first dot.
pub open spec fn int_part(b: Seq<u8>) -> Seq<u8> {
    b.take(dot_index(b))
}

/// The characters after the first dot (empty if there is no dot).
pub open spec fn frac_part(b: Seq<u8>) -> Seq<u8> {
    if dot_index(b) == b.len() {
        Seq::empty()
    } else {
        b.skip(dot_index(b) + 1)
    }
}

/// The unsigned part of an accepted number: digits with an optional dot,
/// at least one digit overall, and a bounded count of integer digits.
pub open spec fn wf_number_body(b: Seq<u8>) -> bool {
    &&& all_digits(int_part(b))
    &&& all_digits(frac_part(b))
    &&& int_part(b).len() + frac_part(b).len() >= 1
    &&& int_part(b).len() <= MAX_INT_DIGITS
}

/// The string after an optional leading sign.
pub open spec fn number_body(s: Seq<u8>) -> Seq<u8> {
    if s.len() > 0 && (s[0] == B_PLUS || s[0] == B_MINUS) {
        s.skip(1)
    } else {
        s
    }
}

/// Contribution of the fraction digits, in millionths: digits beyond the
/// sixth are truncated (rounding toward zero).
pub open spec fn frac_micro(f: Seq<u8>) -> int {
    let k = if f.len() <= 6 {
        f.len() as int
    } else {
        6
    };
    digits_val(f.take(k)) * pow10((6 - k) as nat)
}

/// The number's value in millionths of a degree, truncated toward zero.
pub open spec fn micro_val(s: Seq<u8>) -> int {
    let b = number_body(s);
    let mag = digits_val(int_part(b)) * MICRO_PER_DEGREE + frac_micro(frac_part(b));
    if s.len() > 0 && s[0] == B_MINUS {
        -mag
    } else {
        mag
    }
}

/// What `parse_micro` accepts and returns: an optional sign, then digits
/// with at most one dot. No exponent form, no infinities, no NaN.
pub open spec fn spec_parse_micro(s: Seq<u8>) -> Option<int> {
    if wf_number_body(number_body(s)) {
        Some(micro_val(s))
    } else {
        None
    }
}

pub proof fn lemma_digits_val_bounds(s: Seq<u8>)
    requires
        all_digits(s),
    ensures
        0 <= digits_val(s) < pow10(s.len()),
    decreases s.len(),
{
    if s.len() > 0 {
        assert(all_digits(s.drop_last()));
        lemma_digits_val_bounds(s.drop_last());
        assert(is_digit(s.last()));
    }
}

fn pow10_small(k: usize) -> (r: u64)
    requires
        k <= 6,
    ensures
        r == pow10(k as nat),
        r <= 1_000_000,
{
    proof {
        reveal_with_fuel(pow10, 8);
    }
    if k == 0 {
        1
    } else if k == 1 {
        10
    } else if k == 2 {
        100
    } else if k == 3 {
        1_000
    } else if k == 4 {
        10_000
    } else if k == 5 {
        100_000
    } else {
        1_000_000
    }
}

/// End of the maximal run of digits starting at `from`.
#[verifier::loop_isolation(false)]
fn digit_run_end(s: &[u8], from: usize) -> (e: usize)
    requires
        from <= s@.len(),
    ensures
        from <= e <= s@.len(),
        all_digits(s@.subrange(from as int, e as int)),
        e < s@.len() ==> !is_digit(s@[e as int]),
{
    let n: usize = s.len();
    let mut i: usize = from;
    while i < n && B_ZERO <= s[i] && s[i] <= B_NINE
        invariant
            from <= i <= n,
            all_digits(s@.subrange(from as int, i as int)),
        decreases n - i,
    {
        proof {
            assert(s@.subrange(from as int, (i + 1) as int) =~= s@.subrange(
                from as int,
                i as int,
            ).push(s@[i as int]));
        }
        i = i + 1;
    }
    i
}

/// Value of the digit run `s[from..to]`, whose bounded length keeps the
/// result well under `u64`.
#[verifier::loop_isolation(false)]
fn digits_value(s: &[u8], from: usize, to: usize) -> (v: u64)
    requires
        from <= to <= s@.len(),
        to - from <= MAX_INT_DIGITS,
        all_digits(s@.subrange(from as int, to as int)),
    ensures
        v == digits_val(s@.subrange(from as int, to as int)),
        v < pow10((to - from) as nat),
        v < 1_000_000_000_000,
    decreases to - from,
{
    proof {
        reveal_with_fuel(pow10, 13);
    }
    let mut i: usize = from;
    let mut v: u64 = 0;
    while i < to
        invariant
            from <= i <= to,
            v == digits_val(s@.subrange(from as int, i as int)),
            v < pow10((i - from) as nat),
        decreases to - i,
    {
        let ghost pre = s@.subrange(from as int, i as int);
        proof {
            assert(is_digit(s@.subrange(from as int, to as int)[i - from]));
            assert(s@.subrange(from as int, (i + 1) as int) =~= pre.push(s@[i as int]));
            assert(pre.push(s@[i as int]).drop_last() =~= pre);
            lemma_pow10_increases((i - from + 1) as nat, 12);
        }
        v = v * 10 + (s[i] - B_ZERO) as u64;
        i = i + 1;
    }
    proof {
        lemma_pow10_increases((to - from) as nat, 12);
    }
    v
}

/// Parses an angle given as a signed decimal numeral into millionths of a
/// degree, truncating toward zero after the sixth fraction digit. Returns
/// `None` exactly on strings outside the grammar of `spec_parse_micro`.
#[verifier::rlimit(100)]
pub fn parse_micro(s: &[u8]) -> (r: Option<i64>)
    ensures
        (match spec_parse_micro(s@) {
            Some(w) => r matches Some(v) && v == w,
            None => r is None,
        }),
{
    let n: usize = s.len();
    let mut start: usize = 0;
    if n > 0 && (s[0] == B_PLUS || s[0] == B_MINUS) {
        start = 1;
    }
    let neg: bool = n > 0 && s[0] == B_MINUS;
    let ghost b = number_body(s@);
    proof {
        assert(b =~= s@.subrange(start as int, n as int));
    }
    let d1 = digit_run_end(s, start);
    let ghost run = s@.subrange(start as int, d1 as int);
    proof {
        assert forall|j: int| 0 <= j < d1 - start implies #[trigger] b[j] != B_DOT by {
            assert(is_digit(run[j]));
            assert(b[j] == s@[start + j]);
        }
    }
    if d1 - start > MAX_INT_DIGITS {
        // Too many integer digits, wherever the first dot may sit.
        proof {
            lemma_dot_too_deep(b, MAX_INT_DIGITS + 1 as int);
        }
        return None;
    }
    if d1 == n {
        // No dot: the whole body is the integer part.
        proof {
            lemma_dot_index_at(b, b.len() as int);
            assert(int_part(b) =~= run);
            assert(frac_part(b).len() == 0);
            assert(frac_part(b).take(0) =~= frac_part(b));
        }
        if d1 == start {
            return None;
        }
        let ival = digits_value(s, start, d1);
        let v = signed_micro(neg, ival, 0);
        proof {
            assert(ival == digits_val(int_part(b)));
            assert(frac_micro(frac_part(b)) == digits_val(frac_part(b).take(0)) * pow10(6));
            assert(v as int == micro_val(s@));
        }
        return Some(v);
    }
    if s[d1] != B_DOT {
        // A character that is neither digit nor dot sits in the integer part.
        proof {
            assert(b[d1 - start] == s@[d1 as int]);
            lemma_dot_index_at_least(b, d1 - start + 1);
            lemma_dot_index_range(b);
            assert(int_part(b)[d1 - start] == b[d1 - start]);
            assert(!is_digit(int_part(b)[d1 - start]));
        }
        return None;
    }
    proof {
        lemma_dot_index_at(b, d1 - start as int);
        assert(int_part(b) =~= run);
    }
    let fstart = d1 + 1;
    let ghost f = frac_part(b);
    proof {
        assert(f =~= s@.subrange(fstart as int, n as int));
    }
    let d2 = digit_run_end(s, fstart);
    if d2 < n {
        // A non-digit inside the fraction part.
        proof {
            assert(f[d2 - fstart] == s@[d2 as int]);
            assert(!is_digit(f[d2 - fstart]));
        }
        return None;
    }
    if d1 == start && fstart == n {
        // A bare (possibly signed) dot: no digit at all.
        return None;
    }
    let ival = digits_value(s, start, d1);
    let flen: usize = n - fstart;
    let fkept: usize = if flen <= 6 {
        flen
    } else {
        6
    };
    let fval = digits_value(s, fstart, fstart + fkept);
    let scale: u64 = pow10_small(6 - fkept);
    proof {
        assert(f.take(fkept as int) =~= s@.subrange(fstart as int, (fstart + fkept) as int));
        lemma_frac_micro_bound(f);
        assert(fval * scale == frac_micro(f) && fval * scale < 1_000_000) by (nonlinear_arith)
            requires
                fval == digits_val(f.take(fkept as int)),
                scale == pow10((6 - fkept) as nat),
                frac_micro(f) == digits_val(f.take(fkept as int)) * pow10((6 - fkept) as nat),
                0 <= frac_micro(f) < 1_000_000,
                fval >= 0,
                scale >= 0,
        ;
    }
    let fmicro: u64 = fval * scale;
    Some(signed_micro(neg, ival, fmicro))
}

/// Combines integer and fraction contributions with the sign; the bounds in
/// `requires` are exactly what the grammar's digit limits guarantee.
fn signed_micro(neg: bool, ival: u64, fmicro: u64) -> (r: i64)
    requires
        ival < 1_000_000_000_000,
        fmicro < 1_000_000,
    ensures
        r == (if neg {
            -(ival * MICRO_PER_DEGREE + fmicro)
        } else {
            ival * MICRO_PER_DEGREE + fmicro
        }),
{
    let mag: u64 = ival * 1_000_000 + fmicro;
    if neg {
        -(mag as i64)
    } else {
        mag as i64
    }
}

proof fn lemma_pow10_increases(m: nat, n: nat)
    requires
        m <= n,
    ensures
        pow10(m) <= pow10(n),
    decreases n,
{
    if m < n {
        lemma_pow10_increases(m, (n - 1) as nat);
        lemma_pow10_positive((n - 1) as nat);
    }
}

proof fn lemma_pow10_positive(n: nat)
    ensures
        pow10(n) >= 1,
    decreases n,
{
    if n > 0 {
        lemma_pow10_positive((n - 1) as nat);
    }
}

/// If the first `k` characters are not dots, the integer part has at least
/// `k` characters, which is beyond the accepted length when `k` exceeds it.
proof fn lemma_dot_index_at_least(b: Seq<u8>, k: int)
    requires
        0 <= k <= b.len(),
        forall|j: int| 0 <= j < k - 1 ==> #[trigger] b[j] != B_DOT,
        k >= 1 ==> b[k - 1] != B_DOT,
    ensures
        dot_index(b) >= k,
        int_part(b).len() >= k,
    decreases k,
{
    lemma_dot_index_range(b);
    if k >= 1 {
        assert(b[0] != B_DOT);
        let t = b.skip(1);
        assert forall|j: int| 0 <= j < k - 2 implies #[trigger] t[j] != B_DOT by {
            assert(t[j] == b[j + 1]);
        }
        assert(k - 1 >= 1 ==> t[k - 2] == b[k - 1]);
        lemma_dot_index_at_least(t, k - 1);
    }
}

proof fn lemma_dot_too_deep(b: Seq<u8>, k: int)
    requires
        0 <= k <= b.len(),
        forall|j: int| 0 <= j < k ==> #[trigger] b[j] != B_DOT,
        k > MAX_INT_DIGITS,
    ensures
        !wf_number_body(b),
{
    lemma_dot_index_at_least(b, k);
}

proof fn lemma_dot_index_range(b: Seq<u8>)
    ensures
        0 <= dot_index(b) <= b.len(),
        dot_index(b) < b.len() ==> b[dot_index(b)] == B_DOT,
    decreases b.len(),
{
    if b.len() > 0 && b[0] != B_DOT {
        lemma_dot_index_range(b.skip(1));
    }
}

proof fn lemma_frac_micro_bound(f: Seq<u8>)
    requires
        all_digits(f),
    ensures
        0 <= frac_micro(f) < 1_000_000,
{
    let k = if f.len() <= 6 {
        f.len() as int
    } else {
        6
    };
    assert(all_digits(f.take(k)));
    lemma_digits_val_bounds(f.take(k));
    lemma_pow10_positive((6 - k) as nat);
    lemma_pow10_mul(k as nat, (6 - k) as nat);
    reveal_with_fuel(pow10, 7);
    assert(0 <= digits_val(f.take(k)) * pow10((6 - k) as nat) < 1_000_000) by (nonlinear_arith)
        requires
            0 <= digits_val(f.take(k)) < pow10(k as nat),
            pow10((6 - k) as nat) >= 1,
            pow10(k as nat) * pow10((6 - k) as nat) == 1_000_000,
    ;
}

proof fn lemma_pow10_mul(m: nat, n: nat)
    ensures
        pow10(m) * pow10(n) == pow10(m + n),
    decreases m,
{
    if m == 0 {
    } else {
        lemma_pow10_mul((m - 1) as nat, n);
        assert(pow10(m) * pow10(n) == 10 * (pow10((m - 1) as nat) * pow10(n)))
            by (nonlinear_arith)
            requires pow10(m) == 10 * pow10((m - 1) as nat),
        ;
    }
}

pub proof fn lemma_dot_index_at(b: Seq<u8>, k: int)
    requires
        0 <= k <= b.len(),
        forall|j: int| 0 <= j < k ==> #[trigger] b[j] != B_DOT,
        k < b.len() ==> b[k] == B_DOT,
    ensures
        dot_index(b) == k,
    decreases k,
{
    if k == 0 {
    } else {
        assert(b[0] != B_DOT);
        let t = b.skip(1);
        assert(forall|j: int| 0 <= j < k - 1 ==> #[trigger] t[j] != B_DOT);
        assert(k - 1 < t.len() ==> t[k - 1] == B_DOT);
        lemma_dot_index_at(t, k - 1);
    }
}

} // verus!

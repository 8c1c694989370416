//! Deposition of a source's raised-cosine bump onto a discrete height field
//! whose two ends reflect.
use vstd::prelude::*;
use crate::source::{COORD_LIMIT, POSITION_SCALE};

verus! {

/// Fixed-point height of one: heights and bump samples are counted in units
/// of one part in this many.
pub const HEIGHT_SCALE: u64 = 65_536;

/// Largest supported field length.
pub const MAX_FIELD_LEN: usize = 1_048_576;

/// Largest supported number of samples in a bump shape.
pub const MAX_SHAPE_LEN: usize = 65_536;

/// Mirror reflection of a field index into `[0, n)`: an index left of the
/// field maps to `-k - 1`, one right of it to `2n - k - 1`.
pub open spec fn reflected(k: int, n: int) -> int {
    if k < 0 {
        -k - 1
    } else if k >= n {
        2 * n - k - 1
    } else {
        k
    }
}

/// Reflects a field index that lies within one field length of the field
/// back into range.
pub fn reflect_index(k: i64, n: usize) -> (r: usize)
    requires
        0 < n <= MAX_FIELD_LEN,
        -(n as int) <= k < 2 * n,
    ensures
        r == reflected(k as int, n as int),
        r < n,
{
    let n64 = n as i64;
    if k < 0 {
        (-k - 1) as usize
    } else if k >= n64 {
        (2 * n64 - k - 1) as usize
    } else {
        k as usize
    }
}

/// Division that rounds toward zero, as a cast from a real number to an
/// integer does.
pub open spec fn trunc_div(a: int, b: int) -> int {
    if a >= 0 {
        a / b
    } else {
        -((-a) / b)
    }
}

/// First field index swept for a bump centred at `p` with wave length `w`
/// (both in position units) on a field of `n` samples: the left end of the
/// support, `p - w / 4`, times `n`, truncated toward zero.
pub open spec fn support_start(p: int, w: int, n: int) -> int {
    trunc_div((4 * p - w) * n, 4 * POSITION_SCALE)
}

/// End (exclusive) of the swept field indices: the right end of the support,
/// `p + w / 4`, times `n`, truncated toward zero.
pub open spec fn support_end(p: int, w: int, n: int) -> int {
    trunc_div((4 * p + w) * n, 4 * POSITION_SCALE)
}

/// Twice the distance between the centre of sample `k` and the position `p`,
/// times `n` position scales: `|(2k + 1) S - 2 n p|`.
pub open spec fn scaled_distance(p: int, n: int, k: int) -> int {
    let d = (2 * k + 1) * POSITION_SCALE - 2 * n * p;
    if d >= 0 {
        d
    } else {
        -d
    }
}

/// A bump shape: samples of the falloff from the centre (first sample) to
/// the edge of the support (last sample, which is zero), none above one.
pub open spec fn valid_shape(shape: Seq<u64>) -> bool {
    &&& 2 <= shape.len() <= MAX_SHAPE_LEN
    &&& forall|i: int| 0 <= i < shape.len() ==> shape[i] <= HEIGHT_SCALE
    &&& shape[shape.len() - 1] == 0
}

/// Sample of the shape used at field index `k`: the distance to the centre
/// over the quarter wave length `w / 4`, scaled to the last sample index and
/// truncated, at most that last index.
pub open spec fn shape_index(p: int, w: int, n: int, last: int, k: int) -> int {
    let i = 2 * scaled_distance(p, n, k) * last / (n * w);
    if i < last {
        i
    } else {
        last
    }
}

/// Height deposited for field index `k` by a bump of height `amp`.
pub open spec fn bump_height(p: int, w: int, amp: int, n: int, shape: Seq<u64>, k: int) -> int {
    amp * shape[shape_index(p, w, n, shape.len() - 1, k)] / HEIGHT_SCALE as int
}

/// Sum of what the indices `s .. e` of a sweep deposit at field index `j`.
pub open spec fn swept_height(
    p: int,
    w: int,
    amp: int,
    n: int,
    shape: Seq<u64>,
    j: int,
    s: int,
    e: int,
) -> int
    decreases e - s,
{
    if e <= s {
        0
    } else {
        swept_height(p, w, amp, n, shape, j, s, e - 1) + if reflected(e - 1, n) == j {
            bump_height(p, w, amp, n, shape, e - 1)
        } else {
            0
        }
    }
}

/// Everything a bump at `p` with wave length `w` and height `amp` adds to
/// field index `j` of a field of `n` samples.
pub open spec fn wave_height_at(
    p: int,
    w: int,
    amp: int,
    n: int,
    shape: Seq<u64>,
    j: int,
) -> int {
    swept_height(p, w, amp, n, shape, j, support_start(p, w, n), support_end(p, w, n))
}

/// The inputs for which a bump can be deposited: a non-empty field, a valid
/// shape, a positive wave length, and a support that reaches at most one
/// field length beyond either end of the field.
pub open spec fn wave_inputs_ok(p: int, w: int, n: int, shape: Seq<u64>) -> bool {
    &&& 0 < n <= MAX_FIELD_LEN
    &&& valid_shape(shape)
    &&& 0 < w <= COORD_LIMIT
    &&& -COORD_LIMIT <= p <= COORD_LIMIT
    &&& -n <= support_start(p, w, n)
    &&& support_end(p, w, n) <= 2 * n
}

/// Whether `shape` is a valid bump shape.
pub fn is_valid_shape(shape: &Vec<u64>) -> (r: bool)
    ensures
        r == valid_shape(shape@),
{
    let len: usize = shape.len();
    if len < 2 || len > MAX_SHAPE_LEN || shape[len - 1] != 0 {
        return false;
    }
    for i in 0..len
        invariant
            len == shape.len(),
            forall|m: int| 0 <= m < i ==> shape[m] <= HEIGHT_SCALE,
    {
        if shape[i] > HEIGHT_SCALE {
            return false;
        }
    }
    true
}

proof fn lemma_scaled_distance_bound(p: int, n: int, k: int)
    requires
        0 < n <= MAX_FIELD_LEN,
        -COORD_LIMIT <= p <= COORD_LIMIT,
        -n <= k <= 2 * n,
    ensures
        0 <= scaled_distance(p, n, k) <= 0x10_0000_0000_0000_0000_0000,
{
    assert(-0x1000_0000_0000 <= (2 * k + 1) * POSITION_SCALE <= 0x1000_0000_0000)
        by (nonlinear_arith)
        requires
            0 < n <= MAX_FIELD_LEN,
            POSITION_SCALE == 1_048_576,
            -n <= k <= 2 * n,
    ;
    assert(-0x4_0000_0000_0000_0000_0000 <= 2 * n * p <= 0x4_0000_0000_0000_0000_0000)
        by (nonlinear_arith)
        requires
            0 < n <= MAX_FIELD_LEN,
            -COORD_LIMIT <= p <= COORD_LIMIT,
    ;
}

/// Height that field index `k` of the sweep receives from a bump at
/// `position` with wave length `wave_length` and height `max_height`.
pub fn sample_height(
    position: i64,
    wave_length: i64,
    max_height: u64,
    n: usize,
    shape: &Vec<u64>,
    k: i64,
) -> (h: u64)
    requires
        0 < n <= MAX_FIELD_LEN,
        valid_shape(shape@),
        0 < wave_length <= COORD_LIMIT,
        -COORD_LIMIT <= position <= COORD_LIMIT,
        -(n as int) <= k <= 2 * n,
    ensures
        h == bump_height(position as int, wave_length as int, max_height as int, n as int, shape@, k as int),
        h <= max_height,
{
    let ghost p = position as int;
    let ghost ni = n as int;
    proof {
        lemma_scaled_distance_bound(p, ni, k as int);
    }
    let d: i128 = (2 * (k as i128) + 1) * (POSITION_SCALE as i128) - 2 * (n as i128) * (position as i128);
    let dist: i128 = if d >= 0 { d } else { -d };
    assert(dist == scaled_distance(p, ni, k as int));
    let last: usize = shape.len() - 1;
    assert(0 < ni * wave_length <= 0x1000_0000_0000_0000_0000_0000) by (nonlinear_arith)
        requires
            0 < ni <= MAX_FIELD_LEN,
            0 < wave_length <= COORD_LIMIT,
    ;
    assert(0 <= 2 * dist * last <= 0x2000_0000_0000_0000_0000_0000_0000) by (nonlinear_arith)
        requires
            0 <= dist <= 0x10_0000_0000_0000_0000_0000,
            0 < last < MAX_SHAPE_LEN,
    ;
    let nw: i128 = (n as i128) * (wave_length as i128);
    let ratio: i128 = 2 * dist * (last as i128) / nw;
    let idx: usize = if ratio < last as i128 { ratio as usize } else { last };
    assert(idx == shape_index(p, wave_length as int, ni, last as int, k as int));
    let s: u64 = shape[idx];
    assert(max_height * s <= max_height * HEIGHT_SCALE) by (nonlinear_arith)
        requires
            s <= HEIGHT_SCALE,
    ;
    let prod: u128 = (max_height as u128) * (s as u128);
    let h: u128 = prod / (HEIGHT_SCALE as u128);
    assert(h <= max_height) by (nonlinear_arith)
        requires
            h == prod as int / HEIGHT_SCALE as int,
            prod <= max_height * HEIGHT_SCALE,
    ;
    h as u64
}

/// A bump never deposits a negative height, nor more than its own height.
pub proof fn lemma_bump_height_bounds(p: int, w: int, amp: int, n: int, shape: Seq<u64>, k: int)
    requires
        0 < n,
        0 < w,
        0 <= amp,
        valid_shape(shape),
    ensures
        0 <= bump_height(p, w, amp, n, shape, k) <= amp,
{
    let last = shape.len() - 1;
    let d = scaled_distance(p, n, k);
    assert(0 < n * w) by (nonlinear_arith)
        requires
            0 < n,
            0 < w,
    ;
    assert(0 <= 2 * d * last) by (nonlinear_arith)
        requires
            0 <= d,
            0 <= last,
    ;
    let i = shape_index(p, w, n, last, k);
    assert(0 <= i <= last);
    let s = shape[i] as int;
    assert(0 <= amp * s <= amp * HEIGHT_SCALE) by (nonlinear_arith)
        requires
            0 <= s <= HEIGHT_SCALE,
            0 <= amp,
    ;
    assert(0 <= amp * s / HEIGHT_SCALE as int <= amp) by (nonlinear_arith)
        requires
            0 <= amp * s <= amp * HEIGHT_SCALE,
    ;
}

/// A longer sweep deposits at least as much at each index as a shorter one.
proof fn lemma_swept_height_monotone(
    p: int,
    w: int,
    amp: int,
    n: int,
    shape: Seq<u64>,
    j: int,
    s: int,
    k: int,
    e: int,
)
    requires
        0 < n,
        0 < w,
        0 <= amp,
        valid_shape(shape),
        s <= k <= e,
    ensures
        0 <= swept_height(p, w, amp, n, shape, j, s, k) <= swept_height(p, w, amp, n, shape, j, s, e),
    decreases e - s,
{
    if e > k {
        lemma_swept_height_monotone(p, w, amp, n, shape, j, s, k, e - 1);
        lemma_bump_height_bounds(p, w, amp, n, shape, e - 1);
    } else if e > s {
        lemma_swept_height_monotone(p, w, amp, n, shape, j, s, k - 1, e - 1);
        lemma_bump_height_bounds(p, w, amp, n, shape, e - 1);
    }
}

/// A sweep index whose sample centre lies at least a quarter wave length
/// from the bump's centre deposits exactly nothing.
pub proof fn lemma_outside_support_is_zero(
    p: int,
    w: int,
    amp: int,
    n: int,
    shape: Seq<u64>,
    k: int,
)
    requires
        0 < n,
        0 < w,
        valid_shape(shape),
        2 * scaled_distance(p, n, k) >= n * w,
    ensures
        bump_height(p, w, amp, n, shape, k) == 0,
{
    let last = shape.len() - 1;
    let d = scaled_distance(p, n, k);
    assert(2 * d * last / (n * w) >= last) by (nonlinear_arith)
        requires
            2 * d >= n * w,
            0 < n,
            0 < w,
            0 <= last,
    {
        assert(2 * d * last >= n * w * last);
        assert((n * w * last) / (n * w) == last);
        vstd::arithmetic::div_mod::lemma_div_is_ordered(n * w * last, 2 * d * last, n * w);
    }
    assert(shape_index(p, w, n, last, k) == last);
}

/// Number of sweep indices in `s .. e` that reflect onto field index `j`,
/// counted over the three indices that can: `j` itself and its mirror images
/// past either end.
pub open spec fn mirror_hits(j: int, n: int, s: int, e: int) -> int {
    (if s <= j < e { 1int } else { 0 }) + (if s <= -j - 1 < e { 1int } else { 0 }) + (if s <= 2 * n
        - j - 1 < e {
        1int
    } else {
        0
    })
}

proof fn lemma_swept_height_hits(
    p: int,
    w: int,
    amp: int,
    n: int,
    shape: Seq<u64>,
    j: int,
    s: int,
    e: int,
)
    requires
        0 < n,
        0 < w,
        0 <= amp,
        valid_shape(shape),
        0 <= j < n,
        -n <= s,
        e <= 2 * n,
    ensures
        swept_height(p, w, amp, n, shape, j, s, e) <= amp * mirror_hits(j, n, s, e),
    decreases e - s,
{
    if e > s {
        lemma_swept_height_hits(p, w, amp, n, shape, j, s, e - 1);
        lemma_bump_height_bounds(p, w, amp, n, shape, e - 1);
        let a = mirror_hits(j, n, s, e - 1);
        let b = mirror_hits(j, n, s, e);
        if reflected(e - 1, n) == j {
            assert(b == a + 1);
        } else {
            assert(b >= a);
        }
        assert(amp * b == amp * a + amp * (b - a)) by (nonlinear_arith);
        assert(amp * (b - a) >= 0) by (nonlinear_arith)
            requires
                0 <= amp,
                b >= a,
        ;
        if reflected(e - 1, n) == j {
            assert(amp * (b - a) == amp) by (nonlinear_arith)
                requires
                    b - a == 1,
            ;
        }
    }
}

/// A bump adds at most three times its height to any one field sample: only
/// the sample's own index and its two mirror images reflect onto it.
pub proof fn lemma_wave_height_at_most_three(
    p: int,
    w: int,
    amp: int,
    n: int,
    shape: Seq<u64>,
    j: int,
)
    requires
        wave_inputs_ok(p, w, n, shape),
        0 <= amp,
        0 <= j < n,
    ensures
        0 <= wave_height_at(p, w, amp, n, shape, j) <= 3 * amp,
{
    let s = support_start(p, w, n);
    let e = support_end(p, w, n);
    lemma_swept_height_hits(p, w, amp, n, shape, j, s, e);
    if s <= e {
        lemma_swept_height_monotone(p, w, amp, n, shape, j, s, s, e);
    }
    let m = mirror_hits(j, n, s, e);
    assert(0 <= m <= 3);
    assert(amp * m <= 3 * amp) by (nonlinear_arith)
        requires
            0 <= amp,
            m <= 3,
    ;
}

/// A bump centred inside the domain, whose wave length is at most four
/// domain widths (a quarter wave of at most one width), sweeps no index more
/// than one field length beyond either end of the field.
pub proof fn lemma_centred_support_in_reach(p: int, w: int, n: int)
    requires
        0 <= p <= POSITION_SCALE,
        0 < w <= 4 * POSITION_SCALE,
        0 < n,
    ensures
        -n <= support_start(p, w, n),
        support_end(p, w, n) <= 2 * n,
{
    let b = 4 * POSITION_SCALE;
    let lo = (4 * p - w) * n;
    let hi = (4 * p + w) * n;
    assert(-lo <= b * n && hi <= 2 * b * n && 0 <= hi) by (nonlinear_arith)
        requires
            lo == (4 * p - w) * n,
            hi == (4 * p + w) * n,
            b == 4 * POSITION_SCALE,
            0 <= p <= POSITION_SCALE,
            0 < w <= b,
            0 < n,
    ;
    if lo < 0 {
        vstd::arithmetic::div_mod::lemma_div_is_ordered(-lo, b * n, b);
        vstd::arithmetic::div_mod::lemma_div_multiples_vanish(n, b);
        assert(b * n == n * b) by (nonlinear_arith);
    } else {
        assert(lo / b >= 0) by (nonlinear_arith)
            requires
                lo >= 0,
                b > 0,
        ;
    }
    vstd::arithmetic::div_mod::lemma_div_is_ordered(hi, 2 * b * n, b);
    vstd::arithmetic::div_mod::lemma_div_multiples_vanish(2 * n, b);
    assert(2 * b * n == b * (2 * n)) by (nonlinear_arith);
}

fn truncating_div(a: i128, b: i128) -> (r: i128)
    requires
        b > 0,
        a > i128::MIN,
    ensures
        r == trunc_div(a as int, b as int),
{
    if a >= 0 {
        a / b
    } else {
        -((-a) / b)
    }
}

/// Adds the bump of a source at `position`, with wave length `wave_length`
/// and height `max_height`, onto `height_field`: every index of the support
/// `[position - wave_length / 4, position + wave_length / 4)`, scaled to the
/// field and reflected into it, receives its sample of `shape`.
pub fn accumulate_wave_to_field(
    position: i64,
    wave_length: i64,
    max_height: u64,
    shape: &Vec<u64>,
    height_field: &mut Vec<u64>,
)
    requires
        wave_inputs_ok(position as int, wave_length as int, old(height_field).len() as int, shape@),
        forall|j: int|
            0 <= j < old(height_field).len() ==> old(height_field)[j] + wave_height_at(
                position as int,
                wave_length as int,
                max_height as int,
                old(height_field).len() as int,
                shape@,
                j,
            ) <= u64::MAX,
    ensures
        final(height_field).len() == old(height_field).len(),
        forall|j: int|
            0 <= j < final(height_field).len() ==> final(height_field)[j] == old(height_field)[j]
                + wave_height_at(
                position as int,
                wave_length as int,
                max_height as int,
                old(height_field).len() as int,
                shape@,
                j,
            ),
{
    let ghost p = position as int;
    let ghost w = wave_length as int;
    let ghost amp = max_height as int;
    let ghost old_field = height_field@;
    let n: usize = height_field.len();
    let ghost ni = n as int;
    let scale4: i128 = 4 * (POSITION_SCALE as i128);
    assert(-0x100_0000_0000_0000_0000_0000 <= (4 * p - w) * ni <= 0x100_0000_0000_0000_0000_0000
        && -0x100_0000_0000_0000_0000_0000 <= (4 * p + w) * ni <= 0x100_0000_0000_0000_0000_0000)
        by (nonlinear_arith)
        requires
            0 < ni <= MAX_FIELD_LEN,
            0 < w <= COORD_LIMIT,
            -COORD_LIMIT <= p <= COORD_LIMIT,
    ;
    let lo: i128 = (4 * (position as i128) - (wave_length as i128)) * (n as i128);
    let hi: i128 = (4 * (position as i128) + (wave_length as i128)) * (n as i128);
    let start: i128 = truncating_div(lo, scale4);
    let end: i128 = truncating_div(hi, scale4);
    let ghost s = start as int;
    let ghost e = end as int;
    let mut k: i128 = start;
    while k < end
        invariant
            wave_inputs_ok(p, w, ni, shape@),
            s == support_start(p, w, ni),
            e == support_end(p, w, ni),
            s == start,
            e == end,
            s <= k <= e || e < s == k,
            height_field.len() == ni,
            old_field.len() == ni,
            p == position,
            w == wave_length,
            amp == max_height,
            ni == n,
            forall|j: int|
                0 <= j < ni ==> old_field[j] + wave_height_at(p, w, amp, ni, shape@, j) <= u64::MAX,
            forall|j: int|
                0 <= j < ni ==> height_field[j] == old_field[j] + swept_height(
                    p,
                    w,
                    amp,
                    ni,
                    shape@,
                    j,
                    s,
                    k as int,
                ),
        decreases end - k,
    {
        let r: usize = reflect_index(k as i64, n);
        let h: u64 = sample_height(position, wave_length, max_height, n, shape, k as i64);
        proof {
            lemma_swept_height_monotone(p, w, amp, ni, shape@, r as int, s, k + 1, e);
        }
        let cur: u64 = height_field[r];
        height_field.set(r, cur + h);
        k = k + 1;
    }
    proof {
        if e < s {
            assert forall|j: int| 0 <= j < ni implies swept_height(p, w, amp, ni, shape@, j, s, s)
                == wave_height_at(p, w, amp, ni, shape@, j) by {
                assert(wave_height_at(p, w, amp, ni, shape@, j) == 0);
            }
        }
    }
}

} // verus!

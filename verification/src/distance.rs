//! Squared distances: between bytes, between 16-bit lanes, and of eight records at once.

use vstd::prelude::*;

use crate::layout::{read_i16, signed_field, DIMS, EXACT_RECORD_LEN, IVF_RECORD_LEN};

verus! {

/// The lanes of a 256-bit register of 16-bit numbers.
pub const LANES: usize = 16;

/// The records of a block.
pub const BLOCK_RECORDS: usize = 8;

/// The numbers of a block: component by component, each of eight records.
pub const BLOCK_DIMS_LEN: usize = 112;

pub open spec fn square(x: int) -> int {
    x * x
}

/// The squared distance over the first `n` bytes.
pub open spec fn byte_distance(q: Seq<u8>, c: Seq<u8>, n: nat) -> int
    decreases n,
{
    if n == 0 {
        0
    } else {
        byte_distance(q, c, (n - 1) as nat) + square(q[n - 1] - c[n - 1])
    }
}

pub proof fn lemma_square(x: int, bound: int)
    requires
        -bound <= x <= bound,
    ensures
        0 <= square(x) <= square(bound),
{
    assert(0 <= x * x <= bound * bound) by (nonlinear_arith)
        requires
            -bound <= x <= bound,
    ;
}

/// The squared distance of a padded query and a record, over the components; the last two
/// bytes of the query, which are meant to be zero, count in full.
pub fn squared_distance(query: &[u8; EXACT_RECORD_LEN], candidate: &[u8]) -> (r: u32)
    requires
        candidate@.len() >= EXACT_RECORD_LEN,
    ensures
        r == byte_distance(query@, candidate@, DIMS as nat) + square(query@[14] as int) + square(
            query@[15] as int,
        ),
{
    let mut total: u32 = 0;
    let mut i: usize = 0;
    while i < DIMS
        invariant
            i <= DIMS,
            candidate@.len() >= EXACT_RECORD_LEN,
            total == byte_distance(query@, candidate@, i as nat),
            total <= i * 65_025,
        decreases DIMS - i,
    {
        let diff: i32 = query[i] as i32 - candidate[i] as i32;
        proof {
            lemma_square(diff as int, 255);
        }
        total = total + (diff * diff) as u32;
        i = i + 1;
    }
    proof {
        lemma_square(query@[14] as int, 255);
        lemma_square(query@[15] as int, 255);
    }
    total + query[14] as u32 * query[14] as u32 + query[15] as u32 * query[15] as u32
}

/// The squared distances of a padded query and two records that follow each other.
pub fn squared_distance_pair_avx2(query: &[u8; EXACT_RECORD_LEN], candidates: &[u8]) -> (r: [u32;
    2])
    requires
        candidates@.len() >= 2 * EXACT_RECORD_LEN,
    ensures
        ({
            let rest = square(query@[14] as int) + square(query@[15] as int);
            &&& r@[0] == byte_distance(query@, candidates@, DIMS as nat) + rest
            &&& r@[1] == byte_distance(
                query@,
                candidates@.subrange(EXACT_RECORD_LEN as int, candidates@.len() as int),
                DIMS as nat,
            ) + rest
        }),
{
    let len: usize = candidates.len();
    [
        squared_distance(query, candidates),
        squared_distance(query, &candidates[EXACT_RECORD_LEN..len]),
    ]
}

/// The lowest 16 bits of a number, in two's complement.
pub open spec fn wrapped(x: int) -> int {
    (x + 0x8000) % 0x1_0000 - 0x8000
}

/// The squared distance over lanes `from` to `to`, the difference of each lane held in 16
/// bits, the candidate taken as far as the mask lets it through.
pub open spec fn lane_distance(q: Seq<i16>, m: Seq<i16>, c: Seq<u8>, from: int, to: int) -> int
    decreases to - from,
{
    if to <= from {
        0
    } else {
        lane_distance(q, m, c, from, to - 1) + square(
            wrapped(q[to - 1] - (signed_field(c, 2 * (to - 1)) as i16 & m[to - 1])),
        )
    }
}

/// A mask that lets everything through.
pub open spec fn open_mask() -> Seq<i16> {
    Seq::new(LANES as nat, |i: int| -1i16)
}

/// A mask that lets the components through, and neither label nor padding.
pub open spec fn component_mask() -> Seq<i16> {
    Seq::new(
        LANES as nat,
        |i: int|
            if i < DIMS {
                -1i16
            } else {
                0i16
            },
    )
}

/// The squared distance in two stages: the largest number of 64 bits if the lower eight
/// lanes, taken without a mask, already exceed the threshold.
pub open spec fn staged_distance(q: Seq<i16>, m: Seq<i16>, c: Seq<u8>, threshold: int) -> int {
    let low = lane_distance(q, open_mask(), c, 0, 8);
    if low > threshold {
        u64::MAX as int
    } else {
        low + lane_distance(q, m, c, 8, LANES as int)
    }
}

/// The squared distance over the first `n` components.
pub open spec fn point_distance(q: Seq<i16>, c: Seq<i16>, n: nat) -> int
    decreases n,
{
    if n == 0 {
        0
    } else {
        point_distance(q, c, (n - 1) as nat) + square(q[n - 1] - c[n - 1])
    }
}

/// The components of a record in a clustered index.
pub open spec fn record_components(c: Seq<u8>) -> Seq<i16> {
    Seq::new(DIMS as nat, |d: int| signed_field(c, 2 * d) as i16)
}

/// The components of a query in lanes, zeros behind them.
pub open spec fn padded_lanes(q: Seq<i16>) -> Seq<i16> {
    q + seq![0i16, 0i16]
}

/// The components of a query in lanes, zeros behind them.
pub fn load_query_i16_avx2(query: &[i16; DIMS]) -> (r: [i16; LANES])
    ensures
        r@ == padded_lanes(query@),
{
    let mut padded: [i16; LANES] = [0;LANES];
    let mut i: usize = 0;
    while i < DIMS
        invariant
            i <= DIMS,
            forall|j: int| 0 <= j < i ==> padded@[j] == query@[j],
            forall|j: int| i <= j < LANES ==> padded@[j] == 0,
        decreases DIMS - i,
    {
        padded[i] = query[i];
        i = i + 1;
    }
    assert(padded@ =~= padded_lanes(query@));
    padded
}

/// The mask that lets the components through, and neither label nor padding.
pub fn distance_mask_i16_avx2() -> (r: [i16; LANES])
    ensures
        r@ == component_mask(),
{
    let r: [i16; LANES] = [-1, -1, -1, -1, -1, -1, -1, -1, -1, -1, -1, -1, -1, -1, 0, 0];
    assert(r@ =~= component_mask());
    r
}

/// The squares of the differences of lanes `from` to `from + 8`, added in pairs.
fn squared_pairs(
    query: &[i16; LANES],
    mask: &[i16; LANES],
    candidate: &[u8],
    from: usize,
) -> (r: [u32; 4])
    requires
        candidate@.len() >= IVF_RECORD_LEN,
        from <= 8,
    ensures
        forall|j: int|
            0 <= j < 4 ==> #[trigger] r@[j] == lane_distance(
                query@,
                mask@,
                candidate@,
                from + 2 * j,
                from + 2 * j + 2,
            ),
{
    let mut r: [u32; 4] = [0;4];
    let mut j: usize = 0;
    while j < 4
        invariant
            j <= 4,
            from <= 8,
            candidate@.len() >= IVF_RECORD_LEN,
            forall|i: int|
                0 <= i < j ==> #[trigger] r@[i] == lane_distance(
                    query@,
                    mask@,
                    candidate@,
                    from + 2 * i,
                    from + 2 * i + 2,
                ),
        decreases 4 - j,
    {
        let at: usize = from + 2 * j;
        let a: u32 = squared_lane(query[at], mask[at], candidate, at);
        let b: u32 = squared_lane(query[at + 1], mask[at + 1], candidate, at + 1);
        proof {
            reveal_with_fuel(lane_distance, 3);
        }
        r[j] = a + b;
        j = j + 1;
    }
    r
}

/// The square of the difference in one lane.
fn squared_lane(q: i16, m: i16, candidate: &[u8], lane: usize) -> (r: u32)
    requires
        candidate@.len() >= IVF_RECORD_LEN,
        lane < LANES,
    ensures
        r == square(wrapped(q - (signed_field(candidate@, 2 * lane) as i16 & m))),
        r <= 0x4000_0000,
{
    let c: i16 = read_i16(candidate, 2 * lane);
    let diff: i32 = q as i32 - (c & m) as i32;
    let d: i32 = if diff > 0x7fff {
        diff - 0x1_0000
    } else if diff < -0x8000 {
        diff + 0x1_0000
    } else {
        diff
    };
    proof {
        assert(d == wrapped(diff as int));
        lemma_square(d as int, 0x8000);
    }
    (d * d) as u32
}

/// The sum of four lanes, each widened before it is added.
pub fn horizontal_sum_i32x4_to_u64(value: [u32; 4]) -> (r: u64)
    ensures
        r == value@[0] + value@[1] + value@[2] + value@[3],
{
    value[0] as u64 + value[1] as u64 + value[2] as u64 + value[3] as u64
}

/// The sum of eight lanes, each widened before it is added.
pub fn horizontal_sum_i32x8_to_u64(low: [u32; 4], high: [u32; 4]) -> (r: u64)
    ensures
        r == low@[0] + low@[1] + low@[2] + low@[3] + high@[0] + high@[1] + high@[2] + high@[3],
{
    horizontal_sum_i32x4_to_u64(low) + horizontal_sum_i32x4_to_u64(high)
}

pub proof fn lemma_lanes_join(q: Seq<i16>, m: Seq<i16>, c: Seq<u8>, from: int, mid: int, to: int)
    requires
        from <= mid <= to,
    ensures
        lane_distance(q, m, c, from, to) == lane_distance(q, m, c, from, mid) + lane_distance(
            q,
            m,
            c,
            mid,
            to,
        ),
    decreases to - mid,
{
    if mid < to {
        lemma_lanes_join(q, m, c, from, mid, to - 1);
    }
}

proof fn lemma_eight_lanes(q: Seq<i16>, m: Seq<i16>, c: Seq<u8>, from: int)
    ensures
        lane_distance(q, m, c, from, from + 8) == lane_distance(q, m, c, from, from + 2)
            + lane_distance(q, m, c, from + 2, from + 4) + lane_distance(q, m, c, from + 4, from + 6)
            + lane_distance(q, m, c, from + 6, from + 8),
{
    lemma_lanes_join(q, m, c, from, from + 6, from + 8);
    lemma_lanes_join(q, m, c, from, from + 4, from + 6);
    lemma_lanes_join(q, m, c, from, from + 2, from + 4);
}

/// The squared distance of a query in lanes and a record.
pub fn squared_distance_i16_avx2(
    query: &[i16; LANES],
    mask: &[i16; LANES],
    candidate: &[u8],
) -> (r: u64)
    requires
        candidate@.len() >= IVF_RECORD_LEN,
    ensures
        r == lane_distance(query@, mask@, candidate@, 0, LANES as int),
{
    let low: [u32; 4] = squared_pairs(query, mask, candidate, 0);
    let high: [u32; 4] = squared_pairs(query, mask, candidate, 8);
    proof {
        lemma_eight_lanes(query@, mask@, candidate@, 0);
        lemma_eight_lanes(query@, mask@, candidate@, 8);
        lemma_lanes_join(query@, mask@, candidate@, 0, 8, 16);
        assert(low@[0] == lane_distance(query@, mask@, candidate@, 0, 2));
        assert(high@[0] == lane_distance(query@, mask@, candidate@, 8, 10));
    }
    horizontal_sum_i32x8_to_u64(low, high)
}

/// The squared distances of a query in lanes and two records that follow each other.
pub fn squared_distance_i16_pair_avx2(
    query: &[i16; LANES],
    mask: &[i16; LANES],
    pair_bytes: &[u8],
) -> (r: [u64; 2])
    requires
        pair_bytes@.len() >= 2 * IVF_RECORD_LEN,
    ensures
        r@[0] == lane_distance(query@, mask@, pair_bytes@, 0, LANES as int),
        r@[1] == lane_distance(
            query@,
            mask@,
            pair_bytes@.subrange(IVF_RECORD_LEN as int, pair_bytes@.len() as int),
            0,
            LANES as int,
        ),
{
    let len: usize = pair_bytes.len();
    [
        squared_distance_i16_avx2(query, mask, pair_bytes),
        squared_distance_i16_avx2(query, mask, &pair_bytes[IVF_RECORD_LEN..len]),
    ]
}

/// The squared distance of a query in lanes and a record, in two stages: `u64::MAX` if the
/// lower eight lanes, taken without a mask, already exceed `threshold`.
pub fn squared_distance_i16_early_exit_avx2(
    query: &[i16; LANES],
    mask: &[i16; LANES],
    candidate: &[u8],
    threshold: u64,
) -> (r: u64)
    requires
        candidate@.len() >= IVF_RECORD_LEN,
    ensures
        r == staged_distance(query@, mask@, candidate@, threshold as int),
{
    let all: [i16; LANES] = [-1;LANES];
    assert(all@ =~= open_mask());
    let low: [u32; 4] = squared_pairs(query, &all, candidate, 0);
    let lo_sum: u64 = horizontal_sum_i32x4_to_u64(low);
    proof {
        lemma_eight_lanes(query@, all@, candidate@, 0);
        lemma_eight_lanes(query@, mask@, candidate@, 8);
        assert(low@[0] == lane_distance(query@, all@, candidate@, 0, 2));
    }
    if lo_sum > threshold {
        return u64::MAX;
    }
    let high: [u32; 4] = squared_pairs(query, mask, candidate, 8);
    proof {
        assert(high@[0] == lane_distance(query@, mask@, candidate@, 8, 10));
    }
    lo_sum + horizontal_sum_i32x4_to_u64(high)
}

/// A lane that the mask lets through, or not.
pub proof fn lemma_masks(x: i16)
    ensures
        x & -1i16 == x,
        x & 0i16 == 0,
{
    assert(x & -1i16 == x) by (bit_vector);
    assert(x & 0i16 == 0) by (bit_vector);
}

pub proof fn lemma_lanes_are_components(q: Seq<i16>, c: Seq<u8>, n: int)
    requires
        q.len() == DIMS,
        0 <= n <= LANES,
        forall|d: int|
            0 <= d < DIMS ==> -0x8000 <= q[d] - (#[trigger] record_components(c)[d]) <= 0x7fff,
    ensures
        lane_distance(padded_lanes(q), component_mask(), c, 0, n) == point_distance(
            q,
            record_components(c),
            if n < DIMS {
                n as nat
            } else {
                DIMS as nat
            },
        ),
    decreases n,
{
    if n > 0 {
        lemma_lanes_are_components(q, c, n - 1);
        let x = signed_field(c, 2 * (n - 1)) as i16;
        lemma_masks(x);
        if n <= DIMS {
            assert(record_components(c)[n - 1] == x);
            assert(wrapped(q[n - 1] - x) == q[n - 1] - x);
        } else {
            assert(padded_lanes(q)[n - 1] == 0);
            assert(wrapped(0) == 0);
            assert(square(0) == 0);
        }
    }
}

/// The distance in lanes is the distance of the components, whatever label and padding the
/// record has, as long as no component differs by more than 16 bits hold.
pub proof fn law_lanes_measure_the_components(q: Seq<i16>, c: Seq<u8>)
    requires
        q.len() == DIMS,
        forall|d: int|
            0 <= d < DIMS ==> -0x8000 <= q[d] - (#[trigger] record_components(c)[d]) <= 0x7fff,
    ensures
        lane_distance(padded_lanes(q), component_mask(), c, 0, LANES as int) == point_distance(
            q,
            record_components(c),
            DIMS as nat,
        ),
{
    lemma_lanes_are_components(q, c, LANES as int);
}

pub proof fn lemma_open_lanes(q: Seq<i16>, c: Seq<u8>, n: int)
    requires
        0 <= n <= DIMS,
    ensures
        lane_distance(q, open_mask(), c, 0, n) == lane_distance(q, component_mask(), c, 0, n),
    decreases n,
{
    if n > 0 {
        lemma_open_lanes(q, c, n - 1);
    }
}

proof fn lemma_lane_distance_bound(q: Seq<i16>, m: Seq<i16>, c: Seq<u8>, from: int, to: int)
    requires
        from <= to,
    ensures
        0 <= lane_distance(q, m, c, from, to) <= 0x4000_0000 * (to - from),
    decreases to - from,
{
    if from < to {
        lemma_lane_distance_bound(q, m, c, from, to - 1);
        let x = q[to - 1] - (signed_field(c, 2 * (to - 1)) as i16 & m[to - 1]);
        lemma_square(wrapped(x), 0x8000);
    }
}

/// To stop early changes nothing that matters: with the largest threshold the distance is
/// the same, and with any threshold it is within it exactly if the distance is.
pub proof fn law_early_exit_is_sound(q: Seq<i16>, c: Seq<u8>, threshold: int)
    requires
        0 <= threshold <= u64::MAX,
    ensures
        ({
            let full = lane_distance(q, component_mask(), c, 0, LANES as int);
            let staged = staged_distance(q, component_mask(), c, threshold);
            &&& staged == full || (staged == u64::MAX && full > threshold)
            &&& staged < threshold <==> full < threshold
            &&& threshold < u64::MAX ==> (staged <= threshold <==> full <= threshold)
            &&& staged_distance(q, component_mask(), c, u64::MAX as int) == full
        }),
{
    lemma_open_lanes(q, c, 8);
    lemma_lanes_join(q, component_mask(), c, 0, 8, LANES as int);
    lemma_lane_distance_bound(q, component_mask(), c, 0, 8);
    lemma_lane_distance_bound(q, component_mask(), c, 8, LANES as int);
}

} // verus!

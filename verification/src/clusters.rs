//! The sections of a clustered index: centroids, offsets, boxes and records.

use vstd::prelude::*;

use crate::block::{
    keep_24_bits, lemma_significant, lemma_significant_monotone, rounded_distance, significant,
};
use crate::distance::{lemma_square, point_distance, square};
use crate::layout::{
    field, read_i16, read_u32, read_u64, signed_field, DIMS, IVF_HEADER_LEN, IVF_LABEL_OFFSET,
    IVF_RECORD_LEN,
};
use crate::rounding::SIGNIFICAND_LIMIT;
use crate::single::{Single, ZERO};
use crate::vector::Vector;

verus! {

/// The most clusters an index can have.
pub const MAX_IVF_CLUSTERS: usize = 4096;

/// Where the cluster offsets begin, behind the centroids of `n` clusters.
pub open spec fn offsets_offset(n: int) -> int {
    IVF_HEADER_LEN + 56 * n
}

/// Where the lower corners of the boxes begin.
pub open spec fn bbox_min_offset(n: int) -> int {
    offsets_offset(n) + 8 * (n + 1)
}

/// Where the upper corners of the boxes begin.
pub open spec fn bbox_max_offset(n: int) -> int {
    bbox_min_offset(n) + 28 * n
}

/// Where the records begin.
pub open spec fn records_offset(n: int) -> int {
    bbox_max_offset(n) + 28 * n
}

/// Component `d` of the centroid of cluster `c`.
pub open spec fn centroid(data: Seq<u8>, c: int, d: int) -> Single {
    Single { bits: field(data, IVF_HEADER_LEN + 56 * c + 4 * d, 4) as u32 }
}

/// The offset `c` of an index of `n` clusters: the first record of cluster `c`.
pub open spec fn cluster_start(data: Seq<u8>, n: int, c: int) -> nat {
    field(data, offsets_offset(n) + 8 * c, 8)
}

/// The number of records of cluster `c`, as a number of 32 bits.
pub open spec fn cluster_size(data: Seq<u8>, n: int, c: int) -> nat {
    ((cluster_start(data, n, c + 1) - cluster_start(data, n, c)) % 0x1_0000_0000) as nat
}

/// Component `d` of the lower corner of the box of cluster `c`.
pub open spec fn box_low(data: Seq<u8>, n: int, c: int, d: int) -> int {
    signed_field(data, bbox_min_offset(n) + 28 * c + 2 * d)
}

/// Component `d` of the upper corner of the box of cluster `c`.
pub open spec fn box_high(data: Seq<u8>, n: int, c: int, d: int) -> int {
    signed_field(data, bbox_max_offset(n) + 28 * c + 2 * d)
}

/// The components of record `i`.
pub open spec fn ivf_components(data: Seq<u8>, n: int, i: int) -> Seq<i16> {
    Seq::new(
        DIMS as nat,
        |d: int| signed_field(data, records_offset(n) + IVF_RECORD_LEN * i + 2 * d) as i16,
    )
}

/// The label of record `i`.
pub open spec fn ivf_label(data: Seq<u8>, n: int, i: int) -> u8 {
    data[records_offset(n) + IVF_RECORD_LEN * i + IVF_LABEL_OFFSET]
}

/// The squared distance of a vector and a centroid over the first `k` components, in
/// single precision.
pub open spec fn centroid_distance_to(
    data: Seq<u8>,
    vector: Seq<Single>,
    c: int,
    k: nat,
) -> Single
    decreases k,
{
    if k == 0 {
        Single::from_bits(ZERO)
    } else {
        let delta = vector[k - 1].difference(centroid(data, c, k - 1));
        centroid_distance_to(data, vector, c, (k - 1) as nat).sum(delta.product(delta))
    }
}

/// How far `value` lies outside the interval from `low` to `high`.
pub open spec fn gap(value: int, low: int, high: int) -> int {
    if value < low {
        low - value
    } else if value > high {
        value - high
    } else {
        0
    }
}

/// The squared distance of a query and the box of cluster `c` over the first `k`
/// components.
pub open spec fn box_distance(data: Seq<u8>, n: int, q: Seq<i16>, c: int, k: nat) -> int
    decreases k,
{
    if k == 0 {
        0
    } else {
        box_distance(data, n, q, c, (k - 1) as nat) + square(
            gap(q[k - 1] as int, box_low(data, n, c, k - 1), box_high(data, n, c, k - 1)),
        )
    }
}

/// The same in single precision: each square and each sum is rounded to 24 bits.
pub open spec fn rounded_box_distance(data: Seq<u8>, n: int, q: Seq<i16>, c: int, k: nat) -> nat
    decreases k,
{
    if k == 0 {
        0
    } else {
        significant(
            (rounded_box_distance(data, n, q, c, (k - 1) as nat) + significant(
                square(
                    gap(q[k - 1] as int, box_low(data, n, c, k - 1), box_high(data, n, c, k - 1)),
                ) as nat,
            )) as nat,
        )
    }
}

/// A clustered index in memory.
pub struct ClusterFile<'a> {
    pub data: &'a [u8],
    pub count: usize,
    pub cluster_count: usize,
}

impl<'a> ClusterFile<'a> {
    /// The data hold the sections of `cluster_count` clusters and `count` records.
    pub open spec fn wf(self) -> bool {
        &&& 1 <= self.cluster_count <= MAX_IVF_CLUSTERS
        &&& self.data@.len() == records_offset(self.cluster_count as int) + self.count
            * IVF_RECORD_LEN
    }

    /// The squared distance of a vector and the centroid of a cluster.
    pub fn centroid_distance(&self, vector: &Vector, cluster_id: usize) -> (r: Single)
        requires
            self.wf(),
            cluster_id < self.cluster_count,
        ensures
            r == centroid_distance_to(self.data@, vector@, cluster_id as int, DIMS as nat),
    {
        let base: usize = IVF_HEADER_LEN + 56 * cluster_id;
        let mut total: Single = Single::from_bits(ZERO);
        let mut d: usize = 0;
        while d < DIMS
            invariant
                self.wf(),
                cluster_id < self.cluster_count,
                d <= DIMS,
                base == IVF_HEADER_LEN + 56 * cluster_id,
                total == centroid_distance_to(self.data@, vector@, cluster_id as int, d as nat),
            decreases DIMS - d,
        {
            let centroid: Single = Single::from_bits(read_u32(self.data, base + 4 * d));
            let delta: Single = vector[d].minus(centroid);
            total = total.plus(delta.times(delta));
            d = d + 1;
        }
        total
    }

    /// The first record of a cluster; of the cluster behind the last one, the end.
    pub fn cluster_offset(&self, cluster_id: usize) -> (r: u64)
        requires
            self.wf(),
            cluster_id <= self.cluster_count,
        ensures
            r == cluster_start(self.data@, self.cluster_count as int, cluster_id as int),
    {
        read_u64(self.data, IVF_HEADER_LEN + 56 * self.cluster_count + 8 * cluster_id)
    }

    /// The number of records of a cluster.
    pub fn cluster_len(&self, cluster_id: usize) -> (r: usize)
        requires
            self.wf(),
            cluster_id < self.cluster_count,
        ensures
            r == cluster_size(self.data@, self.cluster_count as int, cluster_id as int),
    {
        let start: u64 = self.cluster_offset(cluster_id);
        let end: u64 = self.cluster_offset(cluster_id + 1);
        let size: u64 = end.wrapping_sub(start) % 0x1_0000_0000;
        size as usize
    }

    /// How far a query lies outside the box of a cluster in one component.
    fn gap_at(&self, value: i16, cluster_id: usize, d: usize) -> (r: i64)
        requires
            self.wf(),
            cluster_id < self.cluster_count,
            d < DIMS,
        ensures
            r == gap(
                value as int,
                box_low(self.data@, self.cluster_count as int, cluster_id as int, d as int),
                box_high(self.data@, self.cluster_count as int, cluster_id as int, d as int),
            ),
            0 <= r <= 65_535,
    {
        let n: usize = self.cluster_count;
        let low_at: usize = IVF_HEADER_LEN + 56 * n + 8 * (n + 1) + 28 * cluster_id + 2 * d;
        let low: i16 = read_i16(self.data, low_at);
        let high: i16 = read_i16(self.data, low_at + 28 * n);
        if value < low {
            low as i64 - value as i64
        } else if value > high {
            value as i64 - high as i64
        } else {
            0
        }
    }

    /// The squared distance of a query and the box of a cluster, in single precision.
    pub fn bbox_lower_bound_f32(&self, query: &[i16; DIMS], cluster_id: usize) -> (r: u64)
        requires
            self.wf(),
            cluster_id < self.cluster_count,
        ensures
            r == rounded_box_distance(
                self.data@,
                self.cluster_count as int,
                query@,
                cluster_id as int,
                DIMS as nat,
            ),
    {
        let mut total: u64 = 0;
        let mut d: usize = 0;
        while d < DIMS
            invariant
                self.wf(),
                cluster_id < self.cluster_count,
                d <= DIMS,
                total == rounded_box_distance(
                    self.data@,
                    self.cluster_count as int,
                    query@,
                    cluster_id as int,
                    d as nat,
                ),
                total <= d * 5_000_000_000,
            decreases DIMS - d,
        {
            let delta: i64 = self.gap_at(query[d], cluster_id, d);
            proof {
                lemma_square(delta as int, 65_535);
                lemma_significant(square(delta as int) as nat);
                lemma_significant((total + significant(square(delta as int) as nat)) as nat);
            }
            total = keep_24_bits(total + keep_24_bits((delta * delta) as u64));
            d = d + 1;
        }
        total
    }

    /// The squared distance of a query and the box of a cluster.
    pub fn bbox_lower_bound(&self, query: &[i16; DIMS], cluster_id: usize) -> (r: u64)
        requires
            self.wf(),
            cluster_id < self.cluster_count,
        ensures
            r == box_distance(
                self.data@,
                self.cluster_count as int,
                query@,
                cluster_id as int,
                DIMS as nat,
            ),
    {
        let mut total: u64 = 0;
        let mut d: usize = 0;
        while d < DIMS
            invariant
                self.wf(),
                cluster_id < self.cluster_count,
                d <= DIMS,
                total == box_distance(
                    self.data@,
                    self.cluster_count as int,
                    query@,
                    cluster_id as int,
                    d as nat,
                ),
                total <= d * 5_000_000_000,
            decreases DIMS - d,
        {
            let delta: i64 = self.gap_at(query[d], cluster_id, d);
            proof {
                lemma_square(delta as int, 65_535);
            }
            total = total + (delta * delta) as u64;
            d = d + 1;
        }
        total
    }
}

/// A component within an interval is at least as far from a value as the interval is.
pub proof fn lemma_gap(value: int, low: int, high: int, x: int)
    requires
        low <= x <= high,
    ensures
        square(gap(value, low, high)) <= square(value - x),
{
    let g = gap(value, low, high);
    assert(g * g <= (value - x) * (value - x)) by (nonlinear_arith)
        requires
            0 <= g <= value - x || 0 <= g <= x - value,
    ;
}

/// Whether a point lies in the box of cluster `c`.
pub open spec fn is_in_box(data: Seq<u8>, n: int, c: int, point: Seq<i16>) -> bool {
    forall|d: int|
        0 <= d < DIMS ==> box_low(data, n, c, d) <= #[trigger] point[d] <= box_high(data, n, c, d)
}

proof fn lemma_box_distance(
    data: Seq<u8>,
    n: int,
    q: Seq<i16>,
    c: int,
    point: Seq<i16>,
    k: nat,
)
    requires
        is_in_box(data, n, c, point),
        k <= DIMS,
    ensures
        0 <= box_distance(data, n, q, c, k) <= point_distance(q, point, k),
    decreases k,
{
    if k > 0 {
        lemma_box_distance(data, n, q, c, point, (k - 1) as nat);
        let low = box_low(data, n, c, k - 1);
        let high = box_high(data, n, c, k - 1);
        assert(low <= point[k - 1] <= high);
        lemma_gap(q[k - 1] as int, low, high, point[k - 1] as int);
        lemma_square(gap(q[k - 1] as int, low, high), 65_536);
    }
}

/// No point of a box is nearer than the box.
pub proof fn law_box_distance_is_a_lower_bound(
    data: Seq<u8>,
    n: int,
    q: Seq<i16>,
    c: int,
    point: Seq<i16>,
)
    requires
        is_in_box(data, n, c, point),
    ensures
        box_distance(data, n, q, c, DIMS as nat) <= point_distance(q, point, DIMS as nat),
{
    lemma_box_distance(data, n, q, c, point, DIMS as nat);
}

proof fn lemma_rounded_box_distance(
    data: Seq<u8>,
    n: int,
    q: Seq<i16>,
    c: int,
    point: Seq<i16>,
    k: nat,
)
    requires
        is_in_box(data, n, c, point),
        k <= DIMS,
        forall|d: int|
            0 <= d < DIMS ==> {
                let s = square(#[trigger] gap_of(data, n, q, c, d)) as nat;
                significant(s) <= s
            },
    ensures
        rounded_box_distance(data, n, q, c, k) <= rounded_distance(q, point, k),
    decreases k,
{
    if k > 0 {
        lemma_rounded_box_distance(data, n, q, c, point, (k - 1) as nat);
        let low = box_low(data, n, c, k - 1);
        let high = box_high(data, n, c, k - 1);
        assert(low <= point[k - 1] <= high);
        let g = gap_of(data, n, q, c, k - 1);
        lemma_gap(q[k - 1] as int, low, high, point[k - 1] as int);
        lemma_square(g, 65_536);
        lemma_significant_monotone(
            (rounded_box_distance(data, n, q, c, (k - 1) as nat) + significant(
                square(g) as nat,
            )) as nat,
            (rounded_distance(q, point, (k - 1) as nat) + square(q[k - 1] - point[k - 1])) as nat,
        );
    }
}

/// How far a query lies outside the box of cluster `c` in component `d`.
pub open spec fn gap_of(data: Seq<u8>, n: int, q: Seq<i16>, c: int, d: int) -> int {
    gap(q[d] as int, box_low(data, n, c, d), box_high(data, n, c, d))
}

/// In single precision, too, no point of a box is nearer than the box, where no square of a
/// distance in one component is rounded up.
pub proof fn law_rounded_box_distance_is_a_lower_bound(
    data: Seq<u8>,
    n: int,
    q: Seq<i16>,
    c: int,
    point: Seq<i16>,
)
    requires
        is_in_box(data, n, c, point),
        forall|d: int|
            0 <= d < DIMS ==> {
                let s = square(#[trigger] gap_of(data, n, q, c, d)) as nat;
                significant(s) <= s
            },
    ensures
        rounded_box_distance(data, n, q, c, DIMS as nat) <= rounded_distance(
            q,
            point,
            DIMS as nat,
        ),
{
    lemma_rounded_box_distance(data, n, q, c, point, DIMS as nat);
}

/// What rounding a square and a sum adds to a box distance.
pub proof fn lemma_box_error(data: Seq<u8>, n: int, q: Seq<i16>, c: int, k: nat)
    requires
        k <= DIMS,
    ensures
        ({
            let exact = box_distance(data, n, q, c, k);
            let rounded = rounded_box_distance(data, n, q, c, k);
            0 <= exact && SIGNIFICAND_LIMIT * (rounded - exact) <= 3 * k * exact
        }),
    decreases k,
{
    if k > 0 {
        let j = (k - 1) as nat;
        lemma_box_error(data, n, q, c, j);
        let a = box_distance(data, n, q, c, j);
        let b = rounded_box_distance(data, n, q, c, j);
        let g = gap_of(data, n, q, c, k - 1);
        let x = square(g);
        assert(x >= 0) by (nonlinear_arith)
            requires
                x == g * g,
        ;
        let y = significant(x as nat);
        lemma_significant(x as nat);
        lemma_significant((b + y) as nat);
        let z = significant((b + y) as nat);
        let t = SIGNIFICAND_LIMIT as int;
        assert(t * (z - (a + x)) <= 3 * (j + 1) * (a + x)) by (nonlinear_arith)
            requires
                t == 0x100_0000,
                0 <= a,
                0 <= x,
                0 <= j < 14,
                t * (b - a) <= 3 * j * a,
                t * (y - x) <= x,
                t * (z - (b + y)) <= b + y,
        {
            assert(t * (b + y - (a + x)) <= (3 * j + 1) * (a + x));
            assert((3 * j + 1) * (a + x) <= t * (a + x));
            assert(b + y <= 2 * (a + x));
        }
    }
}

/// What rounding the sums takes away from a distance.
pub proof fn lemma_distance_error(q: Seq<i16>, point: Seq<i16>, k: nat)
    requires
        k <= DIMS,
    ensures
        ({
            let exact = point_distance(q, point, k);
            let rounded = rounded_distance(q, point, k);
            0 <= exact && SIGNIFICAND_LIMIT * (exact - rounded) <= k * exact
        }),
    decreases k,
{
    if k > 0 {
        let j = (k - 1) as nat;
        lemma_distance_error(q, point, j);
        let a = point_distance(q, point, j);
        let b = rounded_distance(q, point, j) as int;
        let x = square(q[k - 1] - point[k - 1]);
        lemma_square(q[k - 1] - point[k - 1], 65_535);
        lemma_significant((b + x) as nat);
        let z = significant((b + x) as nat) as int;
        let t = SIGNIFICAND_LIMIT as int;
        assert(t * (a + x - z) <= (j + 1) * (a + x)) by (nonlinear_arith)
            requires
                t == 0x100_0000,
                0 <= a,
                0 <= b,
                0 <= x,
                0 <= j < 14,
                t * (a - b) <= j * a,
                t * (b + x - z) <= b + x,
        {
            assert(t * (a - b) <= j * a);
            if b + x > a + x {
                // The sum so far is not below the exact one; what is taken away is small.
                assert(b > a);
                assert(t * (a + x - z) <= t * (a - b) + (b + x));
                assert(t * (a - b) + (b + x) <= a + x);
                assert(a + x <= (j + 1) * (a + x));
            } else {
                assert(t * (a + x - z) <= j * a + (b + x));
                assert(j * a <= j * (a + x));
                assert((j + 1) * (a + x) == j * (a + x) + (a + x));
            }
        }
    }
}

/// Whether a distance is short of another by rounding at most: by less than 60 in 2^24 parts.
pub open spec fn is_nearly_at_least(dist: int, other: int) -> bool {
    SIGNIFICAND_LIMIT * (other - dist) <= 60 * dist
}

/// In single precision no point of a box is nearer than the box, but for what rounding adds:
/// the distance of the box is too large by 42 in 2^24 parts at most, and no point is nearer by
/// more than 60 in 2^24 parts.
pub proof fn law_rounded_box_distance_is_nearly_a_lower_bound(
    data: Seq<u8>,
    n: int,
    q: Seq<i16>,
    c: int,
    point: Seq<i16>,
)
    requires
        is_in_box(data, n, c, point),
    ensures
        ({
            let exact = box_distance(data, n, q, c, DIMS as nat);
            let rounded = rounded_box_distance(data, n, q, c, DIMS as nat);
            &&& SIGNIFICAND_LIMIT * (rounded - exact) <= 42 * exact
            &&& is_nearly_at_least(rounded_distance(q, point, DIMS as nat) as int, rounded as int)
        }),
{
    lemma_box_error(data, n, q, c, DIMS as nat);
    lemma_distance_error(q, point, DIMS as nat);
    lemma_box_distance(data, n, q, c, point, DIMS as nat);
}

} // verus!

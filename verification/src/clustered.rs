//! The score of clustered search as the share of fraud among the five nearest of the records
//! that it looks at.

use vstd::prelude::*;
use vstd::arithmetic::power2::*;

use crate::block::{lemma_significant, rounded_distance, significant};
use crate::clusters::{
    bbox_max_offset, bbox_min_offset, box_distance, box_high, box_low, centroid_distance_to,
    cluster_size, cluster_start, gap, gap_of, is_in_box, is_nearly_at_least, ivf_components,
    lemma_box_error, lemma_distance_error, lemma_gap, records_offset, rounded_box_distance,
};
use crate::distance::{
    component_mask, lane_distance, law_lanes_measure_the_components, lemma_lanes_are_components,
    lemma_lanes_join, lemma_masks, lemma_open_lanes, lemma_square, padded_lanes, point_distance,
    record_components, square, staged_distance, wrapped,
};
use crate::index::{begins_as_index, held, ivf_error, lemma_magic, open_error, OpenError};
use crate::ivf::{
    after_clusters, all_questions, cluster_questions, first_best, first_probes, is_borderline,
    is_probed, ivf_query, ivf_score, more_probes, needs_repair, questions_in, ranking,
    repair_questions, repair_range, repaired_best, Plan, MAX_IVF_NPROBE,
};
use crate::layout::{field, signed_field};
use crate::neighbours::{
    all_candidates, are_the_nearest, at_most, is_fraud_share, lemma_no_share, lemma_order,
    lemma_signed_field, lemma_vote, precedes, sum_of_squares,
};
use crate::precision::{
    is_closest, law_infinities_are_kept, law_operations_find_the_closest,
    law_operations_round_once, rounds,
};
use crate::probing::{
    centroid_candidates, first_places, has_finite_distances, holds_records, is_nearly_beyond,
    is_plan, law_repair_passes_over_nothing_much_nearer, lemma_after_clusters, lemma_looked_at,
    lemma_looked_at_once, lemma_passed_over, lemma_probed_records_fit, lemma_ranking_is_distinct,
    lemma_ranking_is_selected, looked_at, probed_records, record_candidates,
};
use crate::recode::{blocks_before, is_cluster, place_components};
use crate::rounding::{lemma_parts, INFINITY_BITS};
use crate::single::{Single, ZERO};
use crate::topk::{frauds, labels_of, vacant, vote};
use crate::vector::{lemma_quantized_i16, quantized_i16};

verus! {

/// The first record of cluster `c` in an index of `n` clusters. The offsets of the clusters
/// stand behind a header of 32 bytes and the centroids, eight bytes each.
pub open spec fn first_record(data: Seq<u8>, n: int, c: int) -> int {
    field(data, 32 + 56 * n + 8 * c, 8) as int
}

/// Whether every cluster ends where the next one begins, and has fewer than 2^32 records.
pub open spec fn has_sound_offsets(data: Seq<u8>, n: int) -> bool {
    forall|c: int|
        0 <= c < n ==> #[trigger] first_record(data, n, c) <= first_record(data, n, c + 1)
            < first_record(data, n, c) + 0x1_0000_0000
}

/// The records of cluster `c`.
pub open spec fn records_of(data: Seq<u8>, n: int, c: int) -> Seq<int> {
    Seq::new(
        (first_record(data, n, c + 1) - first_record(data, n, c)) as nat,
        |r: int| first_record(data, n, c) + r,
    )
}

/// The records of several clusters, one cluster after the other.
pub open spec fn records_of_all(data: Seq<u8>, n: int, ids: Seq<usize>) -> Seq<int>
    decreases ids.len(),
{
    if ids.len() == 0 {
        Seq::empty()
    } else {
        records_of_all(data, n, ids.drop_last()) + records_of(data, n, ids.last() as int)
    }
}

/// Component `d` of record `i`. The records stand behind the header, the centroids, the
/// offsets and the boxes, 32 bytes each: fourteen numbers of 16 bits and then the label.
pub open spec fn record_component(data: Seq<u8>, n: int, i: int, d: int) -> int {
    signed_field(data, 40 + 120 * n + 32 * i + 2 * d)
}

/// The label of record `i`.
pub open spec fn record_label(data: Seq<u8>, n: int, i: int) -> u8 {
    data[40 + 120 * n + 32 * i + 28]
}

/// The distance of a vector and record `i`, as a search measures it.
pub open spec fn measured(data: Seq<u8>, n: int, vector: Seq<Single>, i: int) -> int {
    rounded_distance(ivf_query(vector), ivf_components(data, n, i), 14) as int
}

proof fn lemma_point_distance(q: Seq<i16>, c: Seq<i16>)
    ensures
        point_distance(q, c, 14) == sum_of_squares(|d: int| q[d] - c[d]),
{
    reveal(sum_of_squares);
    reveal_with_fuel(point_distance, 15);
}

/// The rounded distance is hardly more than the exact one, and as much where 24 bits hold it.
proof fn lemma_distance_excess(q: Seq<i16>, c: Seq<i16>, k: nat)
    requires
        k <= 14,
    ensures
        ({
            let exact = point_distance(q, c, k);
            let rounded = rounded_distance(q, c, k);
            &&& 0 <= exact
            &&& 0x100_0000 * (rounded - exact) <= 2 * k * exact
            &&& exact < 0x100_0000 ==> rounded == exact
        }),
    decreases k,
{
    if k > 0 {
        let j = (k - 1) as nat;
        lemma_distance_excess(q, c, j);
        let a = point_distance(q, c, j);
        let b = rounded_distance(q, c, j) as int;
        let x = square(q[k - 1] - c[k - 1]);
        lemma_square(q[k - 1] - c[k - 1], 65_535);
        lemma_significant((b + x) as nat);
        let z = significant((b + x) as nat) as int;
        let t = 0x100_0000int;
        assert(t * (z - (a + x)) <= 2 * (j + 1) * (a + x)) by (nonlinear_arith)
            requires
                t == 0x100_0000,
                0 <= a,
                0 <= b,
                0 <= x,
                0 <= j < 14,
                t * (b - a) <= 2 * j * a,
                t * (z - (b + x)) <= b + x,
        {
            assert(2 * j * a <= 28 * a);
            assert(b <= 2 * a) by {
                assert(t * b <= t * a + 28 * a);
            }
            assert(t * (z - (a + x)) <= 2 * j * a + 2 * a + x);
            assert(2 * (j + 1) * (a + x) == 2 * j * a + 2 * j * x + 2 * a + 2 * x);
            assert(2 * j * x >= 0);
        }
    }
}

/// A search measures the distance of every record in all fourteen components, in
/// ten-thousandths as `quantized_i16` gives them: what it finds is off by no more than 28 in
/// 2^24 parts, and exact where 24 bits hold it. So a record of the vector itself is at no
/// distance, whether components are missing or not.
pub proof fn law_records_are_measured_in_every_component(
    data: Seq<u8>,
    n: int,
    vector: Seq<Single>,
    i: int,
)
    requires
        vector.len() == 14,
    ensures
        ({
            let exact = sum_of_squares(
                |d: int| quantized_i16(vector[d]) - record_component(data, n, i, d),
            );
            let found = measured(data, n, vector, i);
            &&& 0 <= exact
            &&& 0x100_0000 * (found - exact) <= 28 * exact
            &&& 0x100_0000 * (exact - found) <= 28 * exact
            &&& exact < 0x100_0000 ==> found == exact
        }),
        (forall|d: int|
            0 <= d < 14 ==> quantized_i16(vector[d]) == #[trigger] record_component(data, n, i, d))
            ==> measured(data, n, vector, i) == 0,
{
    let q = ivf_query(vector);
    let c = ivf_components(data, n, i);
    let f = |d: int| q[d] - c[d];
    let g = |d: int| quantized_i16(vector[d]) - record_component(data, n, i, d);
    assert forall|d: int| 0 <= d < 14 implies #[trigger] f(d) == g(d) by {
        lemma_quantized_i16(vector[d]);
        lemma_signed_field(data, 40 + 120 * n + 32 * i + 2 * d);
        assert(records_offset(n) == 40 + 120 * n);
    }
    reveal(sum_of_squares);
    assert(sum_of_squares(f) == sum_of_squares(g));
    lemma_point_distance(q, c);
    lemma_distance_error(q, c, 14);
    lemma_distance_excess(q, c, 14);
    if forall|d: int|
        0 <= d < 14 ==> quantized_i16(vector[d]) == #[trigger] record_component(data, n, i, d) {
        assert forall|d: int| 0 <= d < 14 implies #[trigger] g(d) == 0 by {
            assert(quantized_i16(vector[d]) == record_component(data, n, i, d));
        }
        assert(sum_of_squares(g) == 0);
    }
}

/// The records of a cluster as candidates.
proof fn lemma_records_of(data: Seq<u8>, n: int, vector: Seq<Single>, c: int)
    requires
        has_sound_offsets(data, n),
        0 <= c < n,
    ensures
        ({
            let own = records_of(data, n, c);
            record_candidates(data, n, ivf_query(vector), c) == all_candidates(
                |k: int| measured(data, n, vector, own[k]),
                |k: int| record_label(data, n, own[k]),
                own.len(),
            )
        }),
{
    let q = ivf_query(vector);
    let own = records_of(data, n, c);
    let start = first_record(data, n, c);
    assert(start <= first_record(data, n, c + 1) < start + 0x1_0000_0000);
    assert(cluster_start(data, n, c) == start);
    assert(cluster_start(data, n, c + 1) == first_record(data, n, c + 1));
    assert(cluster_size(data, n, c) == own.len());
    assert(records_offset(n) == 40 + 120 * n);
    assert(record_candidates(data, n, q, c) =~= all_candidates(
        |k: int| measured(data, n, vector, own[k]),
        |k: int| record_label(data, n, own[k]),
        own.len(),
    ));
}

/// The records of several clusters as candidates.
proof fn lemma_records_of_all(data: Seq<u8>, n: int, vector: Seq<Single>, ids: Seq<usize>)
    requires
        has_sound_offsets(data, n),
        forall|p: int| 0 <= p < ids.len() ==> #[trigger] ids[p] < n,
    ensures
        ({
            let all = records_of_all(data, n, ids);
            probed_records(data, n, ivf_query(vector), ids) == all_candidates(
                |k: int| measured(data, n, vector, all[k]),
                |k: int| record_label(data, n, all[k]),
                all.len(),
            )
        }),
    decreases ids.len(),
{
    let q = ivf_query(vector);
    let all = records_of_all(data, n, ids);
    let named = all_candidates(
        |k: int| measured(data, n, vector, all[k]),
        |k: int| record_label(data, n, all[k]),
        all.len(),
    );
    if ids.len() > 0 {
        let c = ids.last() as int;
        assert(ids[ids.len() - 1] < n);
        assert forall|p: int| 0 <= p < ids.drop_last().len() implies #[trigger] ids.drop_last()[p]
            < n by {
            assert(ids[p] < n);
        }
        lemma_records_of_all(data, n, vector, ids.drop_last());
        lemma_records_of(data, n, vector, c);
        let head = records_of_all(data, n, ids.drop_last());
        let own = records_of(data, n, c);
        assert forall|k: int| 0 <= k < all.len() implies #[trigger] probed_records(
            data,
            n,
            q,
            ids,
        )[k] == named[k] by {
            if k < head.len() {
                assert(all[k] == head[k]);
            } else {
                assert(all[k] == own[k - head.len()]);
            }
        }
    }
    assert(probed_records(data, n, q, ids) =~= named);
}

/// What is found in clusters, and what it says of fraud.
proof fn lemma_found(
    data: Seq<u8>,
    n: int,
    vector: Seq<Single>,
    ids: Seq<usize>,
    count: nat,
) -> (five: Seq<int>)
    requires
        has_sound_offsets(data, n),
        forall|p: int| 0 <= p < ids.len() ==> #[trigger] ids[p] < n,
    ensures
        are_found(data, n, vector, ids, five),
        ({
            let best = after_clusters(data, n, ivf_query(vector), vacant(u64::MAX as int), ids);
            best.last().0 == if five.len() == 5 {
                measured(data, n, vector, records_of_all(data, n, ids)[five[4]])
            } else {
                u64::MAX as int
            }
        }),
        is_fraud_share(
            vote(
                count,
                labels_of(
                    after_clusters(data, n, ivf_query(vector), vacant(u64::MAX as int), ids),
                ),
            ),
            at_most(five, count),
            |k: int| record_label(data, n, records_of_all(data, n, ids)[k]),
        ),
        frauds(
            labels_of(after_clusters(data, n, ivf_query(vector), vacant(u64::MAX as int), ids)),
            5,
        ) == frauds_found(data, n, ids, five),
{
    let q = ivf_query(vector);
    let all = records_of_all(data, n, ids);
    let dist = |k: int| measured(data, n, vector, all[k]);
    let label = |k: int| record_label(data, n, all[k]);
    lemma_after_clusters(data, n, q, vacant(u64::MAX as int), ids);
    lemma_records_of_all(data, n, vector, ids);
    lemma_probed_records_fit(data, n, q, ids);
    let records = probed_records(data, n, q, ids);
    assert forall|k: int| 0 <= k < all.len() implies #[trigger] dist(k) < u64::MAX by {
        assert(records[k].0 == dist(k));
    }
    lemma_vote(dist, label, u64::MAX as int, all.len(), count)
}

/// Whether the five nearest of the records of some clusters are these, by their places among
/// them.
pub open spec fn are_found(
    data: Seq<u8>,
    n: int,
    vector: Seq<Single>,
    ids: Seq<usize>,
    five: Seq<int>,
) -> bool {
    let all = records_of_all(data, n, ids);
    are_the_nearest(five, all.len() as int, 5, |k: int| measured(data, n, vector, all[k]))
}

/// How many of them mark fraud.
pub open spec fn frauds_found(data: Seq<u8>, n: int, ids: Seq<usize>, five: Seq<int>) -> nat {
    let all = records_of_all(data, n, ids);
    let label = |k: int| record_label(data, n, all[k]);
    five.filter(|i: int| label(i) == 1).len()
}

/// The numbers of clusters.
pub open spec fn numbers(ids: Seq<usize>) -> Seq<int> {
    Seq::new(ids.len(), |p: int| ids[p] as int)
}

/// Fewer places hold the nearest of them.
proof fn lemma_fewer(order: Seq<int>, count: int, most: int, fewer: int, dist: spec_fn(int) -> int)
    requires
        are_the_nearest(order, count, most, dist),
        0 <= fewer <= most <= count,
    ensures
        are_the_nearest(order.take(fewer), count, fewer, dist),
{
    let head = order.take(fewer);
    assert forall|p: int, q: int| 0 <= p < q < head.len() implies #[trigger] precedes(
        dist,
        head[p],
        head[q],
    ) by {
        assert(precedes(dist, order[p], order[q]));
    }
    assert forall|p: int, i: int|
        0 <= p < head.len() && 0 <= i < count && !head.contains(i) implies #[trigger] precedes(
        dist,
        head[p],
        i,
    ) by {
        if order.contains(i) {
            let q = choose|q: int| 0 <= q < order.len() && order[q] == i;
            if q < fewer {
                assert(head[q] == i);
            }
            assert(precedes(dist, order[p], order[q]));
        } else {
            assert(precedes(dist, order[p], i));
        }
    }
}

/// The clusters of a ranking are those with the nearest centroids.
proof fn lemma_ranked_clusters(data: Seq<u8>, vector: Seq<Single>, limit: int, n: nat)
    requires
        1 <= limit <= MAX_IVF_NPROBE,
        limit <= n <= 4_096,
        has_finite_distances(data, vector, n),
    ensures
        ranking(data, vector, limit, n).ids.len() == MAX_IVF_NPROBE,
        are_the_nearest(
            numbers(ranking(data, vector, limit, n).ids.take(limit)),
            n as int,
            limit,
            |c: int| centroid_distance_to(data, vector, c, 14).rank(),
        ),
{
    let dist = |c: int| centroid_distance_to(data, vector, c, 14).rank();
    let label = |c: int| c as usize;
    let far = INFINITY_BITS as int;
    let start = first_places(ranking(data, vector, limit, 0), limit);
    let r = ranking(data, vector, limit, n);
    lemma_ranking_is_selected(data, vector, limit, n);
    assert(centroid_candidates(data, vector, n) =~= all_candidates(dist, label, n));
    assert forall|i: int| 0 <= i < start.len() implies #[trigger] start[i] == (far, 0usize) by {
        assert(Single::from_bits(INFINITY_BITS).rank() == far);
    }
    assert forall|c: int| 0 <= c < n implies #[trigger] dist(c) < far by {
        assert(centroid_distance_to(data, vector, c, 14).is_finite());
    }
    let order = lemma_order(start, dist, label, (far, 0usize), n);
    let ids = r.ids.take(limit);
    assert forall|p: int| 0 <= p < limit implies numbers(ids)[p] == order[p] by {
        let places = first_places(r, limit);
        assert(places[p] == (dist(order[p]), label(order[p])));
        assert(places[p].1 == r.ids[p]);
    }
    assert(numbers(ids) =~= order);
}

/// Whether clusters are probed as planned: the clusters with the nearest centroids, of those
/// at one distance the ones that come first.
pub open spec fn are_nearest_clusters(
    data: Seq<u8>,
    n: int,
    vector: Seq<Single>,
    ids: Seq<usize>,
) -> bool {
    are_the_nearest(
        numbers(ids),
        n,
        ids.len() as int,
        |c: int| centroid_distance_to(data, vector, c, 14).rank(),
    )
}

/// How many clusters are probed: more of them if two or three of the five nearest records of
/// the first ones mark fraud.
pub open spec fn probes_made(plan: Plan, found: nat) -> int {
    if found == 2 || found == 3 {
        plan.full_nprobe
    } else {
        plan.nprobe
    }
}

/// The probes come first among the clusters looked at.
proof fn lemma_probes_first(data: Seq<u8>, plan: Plan, vector: Seq<Single>, m: nat)
    ensures
        ({
            let probes = looked_at(data, plan, vector, 0);
            let all = looked_at(data, plan, vector, m);
            &&& probes.len() <= all.len()
            &&& all.take(probes.len() as int) == probes
        }),
    decreases m,
{
    let probes = looked_at(data, plan, vector, 0);
    let all = looked_at(data, plan, vector, m);
    if m > 0 {
        lemma_probes_first(data, plan, vector, (m - 1) as nat);
        let head = looked_at(data, plan, vector, (m - 1) as nat);
        assert(all.take(probes.len() as int) =~= head.take(probes.len() as int));
    } else {
        assert(all.take(probes.len() as int) =~= probes);
    }
}

/// The questions in a cluster: one in 512 records.
proof fn lemma_cluster_questions(data: Seq<u8>, n: int, c: int)
    requires
        has_sound_offsets(data, n),
        0 <= c < n,
    ensures
        records_of(data, n, c).len() <= 512 * cluster_questions(data, n, c) < records_of(
            data,
            n,
            c,
        ).len() + 512,
{
    let start = first_record(data, n, c);
    assert(start <= first_record(data, n, c + 1) < start + 0x1_0000_0000);
    assert(cluster_start(data, n, c) == start);
    assert(cluster_start(data, n, c + 1) == first_record(data, n, c + 1));
}

proof fn lemma_questions_in(data: Seq<u8>, n: int, ids: Seq<usize>)
    requires
        has_sound_offsets(data, n),
        forall|p: int| 0 <= p < ids.len() ==> #[trigger] ids[p] < n,
    ensures
        records_of_all(data, n, ids).len() <= 512 * questions_in(data, n, ids) <= records_of_all(
            data,
            n,
            ids,
        ).len() + 512 * ids.len(),
    decreases ids.len(),
{
    if ids.len() > 0 {
        assert(ids[ids.len() - 1] < n);
        assert forall|p: int| 0 <= p < ids.drop_last().len() implies #[trigger] ids.drop_last()[p]
            < n by {
            assert(ids[p] < n);
        }
        lemma_questions_in(data, n, ids.drop_last());
        lemma_cluster_questions(data, n, ids.last() as int);
    }
}

proof fn lemma_questions_of_two(data: Seq<u8>, n: int, a: Seq<usize>, b: Seq<usize>)
    ensures
        questions_in(data, n, a + b) == questions_in(data, n, a) + questions_in(data, n, b),
    decreases b.len(),
{
    if b.len() == 0 {
        assert(a + b =~= a);
    } else {
        lemma_questions_of_two(data, n, a, b.drop_last());
        assert((a + b).drop_last() =~= a + b.drop_last());
    }
}

/// All questions are those in the clusters looked at.
proof fn lemma_all_questions(data: Seq<u8>, plan: Plan, vector: Seq<Single>, m: nat)
    requires
        m <= 4_096,
    ensures
        questions_in(data, plan.n, looked_at(data, plan, vector, m)) == questions_in(
            data,
            plan.n,
            first_probes(data, plan, vector),
        ) + questions_in(data, plan.n, more_probes(data, plan, vector)) + repair_questions(
            data,
            plan,
            vector,
            m,
        ),
    decreases m,
{
    if m == 0 {
        lemma_questions_of_two(
            data,
            plan.n,
            first_probes(data, plan, vector),
            more_probes(data, plan, vector),
        );
    } else {
        lemma_all_questions(data, plan, vector, (m - 1) as nat);
        let head = looked_at(data, plan, vector, (m - 1) as nat);
        let all = looked_at(data, plan, vector, m);
        if needs_repair(
            data,
            plan,
            vector,
            repaired_best(data, plan, vector, (m - 1) as nat),
            m - 1,
        ) {
            assert(all.drop_last() =~= head);
            assert(all.last() == (m - 1) as usize);
        }
    }
}

/// The score of clustered search is the share of fraud among the five nearest of the records
/// that it looks at. These are the records of the `nprobe` clusters whose centroids are
/// nearest; if two or three of the five nearest there mark fraud, those of the `full_nprobe`
/// nearest; with repair, those of further clusters too. No cluster is looked at twice, and the
/// budget is asked once in 512 records of each.
#[verifier::rlimit(60)]
pub proof fn law_clustered_score_is_the_share_of_fraud(
    data: Seq<u8>,
    plan: Plan,
    vector: Seq<Single>,
)
    requires
        is_plan(plan),
        has_sound_offsets(data, plan.n),
        has_finite_distances(data, vector, plan.n as nat),
    ensures
        exists|ids: Seq<usize>, first: Seq<int>, five: Seq<int>|
            {
                let early = ids.take(plan.nprobe);
                let probes = probes_made(plan, frauds_found(data, plan.n, early, first));
                &&& #[trigger] are_found(data, plan.n, vector, ids, five)
                &&& is_fraud_share(
                    ivf_score(data, plan, vector),
                    at_most(five, plan.count),
                    |k: int| record_label(data, plan.n, records_of_all(data, plan.n, ids)[k]),
                )
                &&& #[trigger] are_found(data, plan.n, vector, ids.take(plan.nprobe), first)
                &&& probes <= ids.len()
                &&& are_nearest_clusters(data, plan.n, vector, ids.take(probes))
                &&& !plan.repair ==> ids.len() == probes
                &&& ids.no_duplicates()
                &&& forall|p: int| 0 <= p < ids.len() ==> #[trigger] ids[p] < plan.n
                &&& plan.count > 0 ==> records_of_all(data, plan.n, ids).len() <= 512
                    * all_questions(data, plan, vector) <= records_of_all(data, plan.n, ids).len()
                    + 512 * ids.len()
            },
{
    let n = plan.n;
    let q = ivf_query(vector);
    let m = repair_range(plan);
    let ids = looked_at(data, plan, vector, m);
    let a = first_probes(data, plan, vector);
    let b = more_probes(data, plan, vector);
    let all = ranking(data, vector, plan.full_nprobe, n as nat).ids;
    let start = vacant(u64::MAX as int);
    lemma_looked_at(data, plan, vector, m);
    lemma_looked_at_once(data, plan, vector, m);
    lemma_probes_first(data, plan, vector, m);
    lemma_all_questions(data, plan, vector, m);
    lemma_ranked_clusters(data, vector, plan.full_nprobe, n as nat);
    lemma_ranking_is_distinct(data, vector, plan.full_nprobe, n as nat);
    assert(a.len() == plan.nprobe);
    assert(a =~= ids.take(plan.nprobe)) by {
        assert(a =~= (a + b).take(plan.nprobe));
        assert(ids.take((a + b).len() as int).take(plan.nprobe) =~= ids.take(plan.nprobe));
    }
    assert forall|p: int| 0 <= p < ids.len() implies #[trigger] ids[p] < n by {
        let c = ids[p];
        assert(ids.contains(c));
        if is_probed(data, plan, vector, c) {
            if a.contains(c) {
                let i = choose|i: int| 0 <= i < a.len() && a[i] == c;
                assert(all[i] == c);
            } else {
                let i = choose|i: int| 0 <= i < b.len() && b[i] == c;
                assert(all[plan.nprobe + i] == c);
            }
        }
    }
    assert forall|p: int| 0 <= p < a.len() implies #[trigger] a[p] < n by {
        assert(ids[p] < n);
    }
    lemma_questions_in(data, n, ids);
    let first = lemma_found(data, n, vector, a, plan.count);
    let five = lemma_found(data, n, vector, ids, plan.count);
    let probes = probes_made(plan, frauds_found(data, n, a, first));
    assert(first_best(data, plan, vector) == after_clusters(data, n, q, start, a));
    let f = frauds_found(data, n, a, first);
    assert(is_borderline(first_best(data, plan, vector)) == (f == 2 || f == 3));
    assert((a + b) =~= all.take(probes));
    assert(ids.take(probes) =~= all.take(probes)) by {
        assert(ids.take((a + b).len() as int) == a + b);
    }
    let dist = |c: int| centroid_distance_to(data, vector, c, 14).rank();
    let order = numbers(all.take(plan.full_nprobe));
    lemma_fewer(order, n, plan.full_nprobe, probes, dist);
    assert(order.take(probes) =~= numbers(ids.take(probes)));
    if plan.count == 0 {
        assert(at_most(five, 0) =~= Seq::empty());
        lemma_no_share(
            at_most(five, 0),
            |k: int| record_label(data, n, records_of_all(data, n, ids)[k]),
        );
    }
    assert(are_found(data, n, vector, ids, five));
    assert(are_found(data, n, vector, ids.take(plan.nprobe), first));
}

/// Whether the box of cluster `c` holds its records. The lower corners of the boxes stand
/// behind the offsets of the clusters, then the upper ones, fourteen numbers of 16 bits each.
pub open spec fn is_boxed_in(data: Seq<u8>, n: int, c: int) -> bool {
    forall|r: int, d: int|
        0 <= r < records_of(data, n, c).len() && 0 <= d < 14 ==> signed_field(
            data,
            40 + 64 * n + 28 * c + 2 * d,
        ) <= #[trigger] record_component(data, n, records_of(data, n, c)[r], d) <= signed_field(
            data,
            40 + 92 * n + 28 * c + 2 * d,
        )
}

proof fn lemma_boxed_in(data: Seq<u8>, n: int, c: int)
    requires
        has_sound_offsets(data, n),
        0 <= c < n,
        is_boxed_in(data, n, c),
    ensures
        holds_records(data, n, c),
{
    let own = records_of(data, n, c);
    let start = first_record(data, n, c);
    assert(start <= first_record(data, n, c + 1) < start + 0x1_0000_0000);
    assert(cluster_start(data, n, c) == start);
    assert(cluster_size(data, n, c) == own.len());
    assert(records_offset(n) == 40 + 120 * n);
    assert forall|r: int| 0 <= r < cluster_size(data, n, c) implies is_in_box(
        data,
        n,
        c,
        #[trigger] place_components(data, n, c, r),
    ) by {
        let point = place_components(data, n, c, r);
        assert forall|d: int| 0 <= d < 14 implies box_low(data, n, c, d)
            <= #[trigger] point[d] <= box_high(data, n, c, d) by {
            assert(own[r] == start + r);
            let x = record_component(data, n, own[r], d);
            lemma_signed_field(data, 40 + 120 * n + 32 * own[r] + 2 * d);
            assert(point[d] == x);
        }
    }
}

proof fn lemma_box_fits(data: Seq<u8>, n: int, q: Seq<i16>, c: int, k: nat)
    requires
        k <= 14,
    ensures
        rounded_box_distance(data, n, q, c, k) <= 17_300_000_000 * k,
    decreases k,
{
    if k > 0 {
        let j = (k - 1) as nat;
        lemma_box_fits(data, n, q, c, j);
        lemma_signed_field(data, bbox_min_offset(n) + 28 * c + 2 * j);
        lemma_signed_field(data, bbox_max_offset(n) + 28 * c + 2 * j);
        let g = gap(
            q[j as int] as int,
            box_low(data, n, c, j as int),
            box_high(data, n, c, j as int),
        );
        lemma_square(g, 131_071);
        lemma_significant(square(g) as nat);
        lemma_significant(
            (rounded_box_distance(data, n, q, c, j) + significant(
                square(g) as nat,
            )) as nat,
        );
    }
}

/// Whether no record of cluster `c` is nearer than a distance by more than 60 in 2^24 parts.
pub open spec fn is_hardly_nearer(
    data: Seq<u8>,
    n: int,
    vector: Seq<Single>,
    c: int,
    last: int,
) -> bool {
    forall|r: int|
        0 <= r < records_of(data, n, c).len() ==> 0x100_0000 * (last - measured(
            data,
            n,
            vector,
            #[trigger] records_of(data, n, c)[r],
        )) <= 60 * measured(data, n, vector, records_of(data, n, c)[r])
}

/// Whether every other cluster may be left out where these five records were found in some:
/// there are five of them, and no record of another cluster is much nearer than the last.
pub open spec fn may_leave_out(
    data: Seq<u8>,
    n: int,
    vector: Seq<Single>,
    ids: Seq<usize>,
    five: Seq<int>,
) -> bool {
    forall|c: usize|
        c < n && !(#[trigger] ids.contains(c)) ==> five.len() == 5 && is_hardly_nearer(
            data,
            n,
            vector,
            c as int,
            measured(data, n, vector, records_of_all(data, n, ids)[five[4]]),
        )
}

/// With repair, clustered search leaves out nothing much nearer: five neighbours have been
/// found among the records that it looks at if any cluster is left out, and no record left
/// out is nearer than the last of them by more than 60 in 2^24 parts of its distance, where
/// the boxes of the clusters hold their records.
#[verifier::rlimit(60)]
pub proof fn law_repair_leaves_out_nothing_much_nearer(
    data: Seq<u8>,
    plan: Plan,
    vector: Seq<Single>,
)
    requires
        is_plan(plan),
        plan.repair,
        has_sound_offsets(data, plan.n),
        has_finite_distances(data, vector, plan.n as nat),
        forall|c: int| 0 <= c < plan.n ==> #[trigger] is_boxed_in(data, plan.n, c),
    ensures
        exists|ids: Seq<usize>, five: Seq<int>|
            {
                &&& #[trigger] are_found(data, plan.n, vector, ids, five)
                &&& plan.count > 0 ==> is_fraud_share(
                    ivf_score(data, plan, vector),
                    at_most(five, plan.count),
                    |k: int| record_label(data, plan.n, records_of_all(data, plan.n, ids)[k]),
                )
                &&& ids.no_duplicates()
                &&& may_leave_out(data, plan.n, vector, ids, five)
            },
{
    let n = plan.n;
    let q = ivf_query(vector);
    let m = n as nat;
    let ids = looked_at(data, plan, vector, m);
    let a = first_probes(data, plan, vector);
    let b = more_probes(data, plan, vector);
    let ranked = ranking(data, vector, plan.full_nprobe, m).ids;
    lemma_looked_at(data, plan, vector, m);
    lemma_looked_at_once(data, plan, vector, m);
    lemma_ranked_clusters(data, vector, plan.full_nprobe, m);
    lemma_ranking_is_distinct(data, vector, plan.full_nprobe, m);
    assert forall|p: int| 0 <= p < ids.len() implies #[trigger] ids[p] < n by {
        let c = ids[p];
        assert(ids.contains(c));
        if is_probed(data, plan, vector, c) {
            if a.contains(c) {
                let i = choose|i: int| 0 <= i < a.len() && a[i] == c;
                assert(ranked[i] == c);
            } else {
                let i = choose|i: int| 0 <= i < b.len() && b[i] == c;
                assert(ranked[plan.nprobe + i] == c);
            }
        }
    }
    let five = lemma_found(data, n, vector, ids, plan.count);
    let all = records_of_all(data, n, ids);
    lemma_may_leave_out(data, plan, vector, five);
    if plan.count > 0 {
        assert(ivf_score(data, plan, vector) == vote(
            plan.count,
            labels_of(repaired_best(data, plan, vector, m)),
        ));
        assert(is_fraud_share(
            ivf_score(data, plan, vector),
            at_most(five, plan.count),
            |k: int| record_label(data, plan.n, records_of_all(data, plan.n, ids)[k]),
        ));
    }
    assert(are_found(data, n, vector, ids, five));
}

/// The records of a cluster left out are beyond the last entry.
proof fn lemma_all_left_out(data: Seq<u8>, plan: Plan, vector: Seq<Single>, c: usize)
    requires
        is_plan(plan),
        has_sound_offsets(data, plan.n),
        c < plan.n,
        is_boxed_in(data, plan.n, c as int),
        !looked_at(data, plan, vector, plan.n as nat).contains(c),
    ensures
        is_hardly_nearer(
            data,
            plan.n,
            vector,
            c as int,
            repaired_best(data, plan, vector, plan.n as nat).last().0,
        ),
{
    let n = plan.n;
    let last = repaired_best(data, plan, vector, n as nat).last().0;
    assert forall|r: int| 0 <= r < records_of(data, n, c as int).len() implies 0x100_0000 * (last
        - measured(data, n, vector, #[trigger] records_of(data, n, c as int)[r])) <= 60 * measured(
        data,
        n,
        vector,
        records_of(data, n, c as int)[r],
    ) by {
        lemma_left_out(data, plan, vector, c, r);
    }
}

/// The clusters left out may be.
proof fn lemma_may_leave_out(data: Seq<u8>, plan: Plan, vector: Seq<Single>, five: Seq<int>)
    requires
        is_plan(plan),
        has_sound_offsets(data, plan.n),
        forall|c: int| 0 <= c < plan.n ==> #[trigger] is_boxed_in(data, plan.n, c),
        five.len() <= 5,
        repaired_best(data, plan, vector, plan.n as nat).last().0 == if five.len() == 5 {
            measured(
                data,
                plan.n,
                vector,
                records_of_all(
                    data,
                    plan.n,
                    looked_at(data, plan, vector, plan.n as nat),
                )[five[4]],
            )
        } else {
            u64::MAX as int
        },
    ensures
        may_leave_out(
            data,
            plan.n,
            vector,
            looked_at(data, plan, vector, plan.n as nat),
            five,
        ),
{
    let n = plan.n;
    let ids = looked_at(data, plan, vector, n as nat);
    let last = measured(data, n, vector, records_of_all(data, n, ids)[five[4]]);
    assert forall|c: usize| c < n && !(#[trigger] ids.contains(c)) implies five.len() == 5
        && is_hardly_nearer(data, n, vector, c as int, last) by {
        assert(is_boxed_in(data, n, c as int));
        lemma_box_fits(data, n, ivf_query(vector), c as int, 14);
        lemma_passed_over(data, plan, vector, n as nat, c);
        lemma_all_left_out(data, plan, vector, c);
    }
}

/// A record left out is beyond the last entry.
proof fn lemma_left_out(data: Seq<u8>, plan: Plan, vector: Seq<Single>, c: usize, r: int)
    requires
        is_plan(plan),
        has_sound_offsets(data, plan.n),
        c < plan.n,
        is_boxed_in(data, plan.n, c as int),
        !looked_at(data, plan, vector, plan.n as nat).contains(c),
        0 <= r < records_of(data, plan.n, c as int).len(),
    ensures
        is_nearly_at_least(
            measured(data, plan.n, vector, records_of(data, plan.n, c as int)[r]),
            repaired_best(data, plan, vector, plan.n as nat).last().0,
        ),
{
    let n = plan.n;
    let q = ivf_query(vector);
    let best = repaired_best(data, plan, vector, n as nat);
    let own = records_of(data, n, c as int);
    lemma_passed_over(data, plan, vector, n as nat, c);
    lemma_boxed_in(data, n, c as int);
    law_repair_passes_over_nothing_much_nearer(data, n, q, c as int, best.last().0);
    let start = first_record(data, n, c as int);
    assert(start <= first_record(data, n, c as int + 1) < start + 0x1_0000_0000);
    assert(cluster_start(data, n, c as int) == start);
    assert(cluster_size(data, n, c as int) == own.len());
    let point = place_components(data, n, c as int, r);
    assert(point == ivf_components(data, n, own[r]));
    assert(is_nearly_beyond(data, n, q, c as int, best.last().0));
}

/// The centroid of a cluster: fourteen numbers of single precision behind a header of 32
/// bytes.
pub open spec fn centroid_component(data: Seq<u8>, c: int, d: int) -> Single {
    Single { bits: field(data, 32 + 56 * c + 4 * d, 4) as u32 }
}

/// Whether the sum `after` comes of the sum `before` by the square of a difference, where the
/// difference, the square and the sum are each the closest numbers there are.
pub open spec fn adds_square(
    before: Single,
    after: Single,
    x: Single,
    y: Single,
    delta: Single,
    part: Single,
) -> bool {
    &&& is_closest(delta, x.value() - y.value(), 1)
    &&& is_closest(part, delta.value() * delta.value(), pow2(149) as int)
    &&& is_closest(after, before.value() + part.value(), 1)
}

/// The distance of a vector and a centroid adds up over all components, from nothing, by the
/// squares of their differences in single precision, as long as they are in range.
pub proof fn law_centroid_distance_adds_up(data: Seq<u8>, vector: Seq<Single>, c: int, d: int)
    requires
        0 <= d < 14,
        vector[d].is_finite(),
        centroid_component(data, c, d).is_finite(),
        centroid_distance_to(data, vector, c, (d + 1) as nat).is_finite(),
    ensures
        centroid_distance_to(data, vector, c, 0).value() == 0,
        centroid_distance_to(data, vector, c, d as nat).is_finite(),
        exists|delta: Single, part: Single| #[trigger]
            adds_square(
                centroid_distance_to(data, vector, c, d as nat),
                centroid_distance_to(data, vector, c, (d + 1) as nat),
                vector[d],
                centroid_component(data, c, d),
                delta,
                part,
            ),
{
    let x = vector[d];
    let y = centroid_component(data, c, d);
    let delta = x.difference(y);
    let part = delta.product(delta);
    let before = centroid_distance_to(data, vector, c, d as nat);
    let after = centroid_distance_to(data, vector, c, (d + 1) as nat);
    lemma_parts(0);
    lemma2_to64();
    assert(centroid_distance_to(data, vector, c, 0) == Single::from_bits(ZERO));
    assert(y == crate::clusters::centroid(data, c, d));
    assert(after == before.sum(part));
    lemma_finite_parts(delta, before);
    law_operations_find_the_closest(0, x, y);
    law_operations_find_the_closest(0, delta, delta);
    law_operations_find_the_closest(0, before, part);
    assert(adds_square(before, after, x, y, delta, part));
}

/// A finite sum has finite parts.
proof fn lemma_finite_parts(delta: Single, before: Single)
    requires
        before.sum(delta.product(delta)).is_finite(),
    ensures
        delta.is_finite(),
        delta.product(delta).is_finite(),
        before.is_finite(),
{
}

/// Whether the sum `after` comes of the sum `before` by the square of a difference, each of them
/// rounded once; what is out of range stays so.
pub open spec fn rounds_square(
    before: Single,
    after: Single,
    x: Single,
    y: Single,
    delta: Single,
    part: Single,
) -> bool {
    &&& rounds(delta, x.value() - y.value(), 1)
    &&& delta.is_finite() ==> rounds(part, delta.value() * delta.value(), pow2(149) as int)
    &&& delta.is_infinite() ==> part.is_infinite()
    &&& part.is_finite() ==> rounds(after, before.value() + part.value(), 1)
    &&& part.is_infinite() ==> after.is_infinite()
    &&& !delta.is_nan() && !part.is_nan()
}

/// The distance of a vector and a centroid is out of range only if a difference, its square or
/// the sum is, and no number only if one of the components is none.
pub proof fn law_centroid_distance_is_rounded(data: Seq<u8>, vector: Seq<Single>, c: int, d: int)
    requires
        0 <= d < 14,
    ensures
        ({
            let before = centroid_distance_to(data, vector, c, d as nat);
            let after = centroid_distance_to(data, vector, c, (d + 1) as nat);
            let x = vector[d];
            let y = centroid_component(data, c, d);
            &&& before.is_finite() && x.is_finite() && y.is_finite() ==> exists|
                delta: Single,
                part: Single,
            | #[trigger] rounds_square(before, after, x, y, delta, part)
            &&& x.is_nan() || y.is_nan() || before.is_nan() ==> after.is_nan()
        }),
{
    let x = vector[d];
    let y = centroid_component(data, c, d);
    let delta = x.difference(y);
    let part = delta.product(delta);
    let before = centroid_distance_to(data, vector, c, d as nat);
    let after = centroid_distance_to(data, vector, c, (d + 1) as nat);
    assert(y == crate::clusters::centroid(data, c, d));
    assert(after == before.sum(part));
    law_infinities_are_kept(x, y);
    law_infinities_are_kept(delta, delta);
    law_infinities_are_kept(before, part);
    law_infinities_are_kept(part, before);
    if before.is_finite() && x.is_finite() && y.is_finite() {
        law_operations_round_once(0, x, y);
        reveal(rounds);
        assert(!delta.is_nan());
        if delta.is_finite() {
            law_operations_round_once(0, delta, delta);
        }
        assert(!part.is_nan());
        if part.is_finite() {
            law_operations_round_once(0, before, part);
        }
        assert(rounds_square(before, after, x, y, delta, part));
    }
}

/// Component `d` of the lower corner of the box of cluster `c`.
pub open spec fn lower_corner(data: Seq<u8>, n: int, c: int, d: int) -> int {
    signed_field(data, 40 + 64 * n + 28 * c + 2 * d)
}

/// Component `d` of the upper corner of the box of cluster `c`.
pub open spec fn upper_corner(data: Seq<u8>, n: int, c: int, d: int) -> int {
    signed_field(data, 40 + 92 * n + 28 * c + 2 * d)
}

/// Whether a point lies between the corners of a box.
pub open spec fn lies_within(data: Seq<u8>, n: int, c: int, point: spec_fn(int) -> int) -> bool {
    forall|d: int|
        0 <= d < 14 ==> lower_corner(data, n, c, d) <= #[trigger] point(d) <= upper_corner(
            data,
            n,
            c,
            d,
        )
}

/// Within an interval, the nearest number is at the distance of the interval.
proof fn lemma_held_gap(value: int, low: int, high: int)
    requires
        low <= high,
    ensures
        ({
            let x = held(value, low, high);
            square(gap(value, low, high)) == square(value - x)
        }),
{
    let x = held(value, low, high);
    let g = gap(value, low, high);
    assert(g * g == (value - x) * (value - x)) by (nonlinear_arith)
        requires
            g == value - x || g == x - value,
    ;
}

/// What rounding takes away from a box distance.
proof fn lemma_box_shortfall(data: Seq<u8>, n: int, q: Seq<i16>, c: int, k: nat)
    requires
        k <= 14,
    ensures
        ({
            let exact = box_distance(data, n, q, c, k);
            let rounded = rounded_box_distance(data, n, q, c, k);
            0 <= exact && 0x100_0000 * (exact - rounded) <= 3 * k * exact
        }),
    decreases k,
{
    if k > 0 {
        let j = (k - 1) as nat;
        lemma_box_shortfall(data, n, q, c, j);
        let a = box_distance(data, n, q, c, j);
        let b = rounded_box_distance(data, n, q, c, j);
        let g = gap_of(data, n, q, c, k - 1);
        let x = square(g);
        assert(x >= 0) by (nonlinear_arith)
            requires
                x == g * g,
        ;
        let y = significant(x as nat);
        lemma_significant(x as nat);
        lemma_significant((b + y) as nat);
        let z = significant((b + y) as nat);
        let t = 0x100_0000int;
        assert(t * (a + x - z) <= 3 * (j + 1) * (a + x)) by (nonlinear_arith)
            requires
                t == 0x100_0000,
                0 <= a,
                0 <= x,
                0 <= b,
                0 <= y,
                0 <= j < 14,
                t * (a - b) <= 3 * j * a,
                t * (x - y) <= x,
                t * (b + y - z) <= b + y,
        {
            assert(t * (a + x - z) <= 3 * j * a + x + (b + y));
            if b + y <= 2 * (a + x) {
                assert(3 * j * a + x + 2 * (a + x) <= 3 * (j + 1) * (a + x));
            } else {
                assert(t * (a + x - z) <= t * (a + x) - (t - 1) * (b + y));
                assert((t - 1) * (b + y) >= (t - 1) * (2 * (a + x)));
            }
        }
    }
}

/// The distance of a box is that of its nearest point: no point between its corners is nearer
/// to the query, and one of them is as near. In single precision it is off by no more than 42
/// in 2^24 parts.
pub proof fn law_box_is_as_near_as_its_nearest_point(
    data: Seq<u8>,
    n: int,
    q: Seq<i16>,
    c: int,
    point: spec_fn(int) -> int,
)
    requires
        lies_within(data, n, c, point),
    ensures
        ({
            let near = box_distance(data, n, q, c, 14);
            let rounded = rounded_box_distance(data, n, q, c, 14);
            &&& near <= sum_of_squares(|d: int| q[d] - point(d))
            &&& exists|other: spec_fn(int) -> int| #[trigger]
                lies_within(data, n, c, other) && near == sum_of_squares(
                    |d: int| q[d] - other(d),
                )
            &&& 0x100_0000 * (near - rounded) <= 42 * near
            &&& 0x100_0000 * (rounded - near) <= 42 * near
        }),
{
    let other = |d: int|
        held(q[d] as int, lower_corner(data, n, c, d), upper_corner(data, n, c, d));
    let near = box_distance(data, n, q, c, 14);
    lemma_box_shortfall(data, n, q, c, 14);
    lemma_box_error(data, n, q, c, 14);
    assert forall|d: int| 0 <= d < 14 implies lower_corner(data, n, c, d) <= #[trigger] other(d)
        <= upper_corner(data, n, c, d) by {
        assert(lower_corner(data, n, c, d) <= point(d) <= upper_corner(data, n, c, d));
    }
    let f = |d: int| q[d] - other(d);
    let g = |d: int| q[d] - point(d);
    assert forall|d: int| 0 <= d < 14 implies box_low(data, n, c, d)
        == lower_corner(data, n, c, d) && box_high(data, n, c, d) == upper_corner(
        data,
        n,
        c,
        d,
    ) && #[trigger] square(gap_of(data, n, q, c, d)) == f(d) * f(d) && f(d) * f(d)
        <= g(d) * g(d) by {
        assert(lower_corner(data, n, c, d) <= point(d) <= upper_corner(data, n, c, d));
        lemma_held_gap(q[d] as int, lower_corner(data, n, c, d), upper_corner(data, n, c, d));
        lemma_gap(
            q[d] as int,
            lower_corner(data, n, c, d),
            upper_corner(data, n, c, d),
            point(d),
        );
    }
    lemma_box_sum(data, n, q, c, f);
    reveal(sum_of_squares);
    let s = |d: int| square(gap_of(data, n, q, c, d));
    assert forall|d: int| 0 <= d < 14 implies #[trigger] s(d) == f(d) * f(d) && s(d) <= g(d) * g(
        d,
    ) by {
        assert(square(gap_of(data, n, q, c, d)) == f(d) * f(d));
    }
    assert(s(0) <= g(0) * g(0) && s(1) <= g(1) * g(1) && s(2) <= g(2) * g(2) && s(3) <= g(3) * g(3)
        && s(4) <= g(4) * g(4) && s(5) <= g(5) * g(5) && s(6) <= g(6) * g(6) && s(7) <= g(7) * g(7)
        && s(8) <= g(8) * g(8) && s(9) <= g(9) * g(9) && s(10) <= g(10) * g(10) && s(11) <= g(11)
        * g(11) && s(12) <= g(12) * g(12) && s(13) <= g(13) * g(13));
    assert(lies_within(data, n, c, other));
}

proof fn lemma_box_sum(data: Seq<u8>, n: int, q: Seq<i16>, c: int, f: spec_fn(int) -> int)
    requires
        forall|d: int|
            0 <= d < 14 ==> #[trigger] square(gap_of(data, n, q, c, d)) == f(d)
                * f(d),
    ensures
        box_distance(data, n, q, c, 14) == sum_of_squares(f),
{
    reveal(sum_of_squares);
    reveal_with_fuel(box_distance, 15);
    assert(square(gap_of(data, n, q, c, 0)) == f(0) * f(0));
    assert(square(gap_of(data, n, q, c, 1)) == f(1) * f(1));
    assert(square(gap_of(data, n, q, c, 2)) == f(2) * f(2));
    assert(square(gap_of(data, n, q, c, 3)) == f(3) * f(3));
    assert(square(gap_of(data, n, q, c, 4)) == f(4) * f(4));
    assert(square(gap_of(data, n, q, c, 5)) == f(5) * f(5));
    assert(square(gap_of(data, n, q, c, 6)) == f(6) * f(6));
    assert(square(gap_of(data, n, q, c, 7)) == f(7) * f(7));
    assert(square(gap_of(data, n, q, c, 8)) == f(8) * f(8));
    assert(square(gap_of(data, n, q, c, 9)) == f(9) * f(9));
    assert(square(gap_of(data, n, q, c, 10)) == f(10) * f(10));
    assert(square(gap_of(data, n, q, c, 11)) == f(11) * f(11));
    assert(square(gap_of(data, n, q, c, 12)) == f(12) * f(12));
    assert(square(gap_of(data, n, q, c, 13)) == f(13) * f(13));
}

/// Whether a file is a clustered index by its first bytes and its length: version 3, fourteen
/// components, 1 to 4096 clusters, and as many bytes as the header, the clusters and the
/// records take.
pub open spec fn is_clustered_file(data: Seq<u8>) -> bool {
    let n = field(data, 24, 4);
    &&& begins_as_index(data)
    &&& field(data, 8, 4) == 3
    &&& field(data, 12, 4) == 14
    &&& data.len() >= 32
    &&& 1 <= n <= 4_096
    &&& data.len() == 40 + 120 * n + 32 * field(data, 16, 8)
}

/// A clustered index does not open if its header is cut off, if it has no clusters or more than
/// 4096, or if it has another length than its header, its clusters and its records take.
pub proof fn law_other_clustered_files_do_not_open(data: Seq<u8>)
    requires
        begins_as_index(data),
        field(data, 8, 4) == 3,
        field(data, 12, 4) == 14,
    ensures
        ({
            let n = field(data, 24, 4);
            let expected = 40 + 120 * n + 32 * field(data, 16, 8);
            &&& data.len() < 32 ==> open_error(data) == Some(OpenError::IvfTooShort)
            &&& data.len() >= 32 && (n == 0 || n > 4_096) ==> open_error(data) == Some(
                OpenError::UnsupportedClusterCount(n as u32),
            )
            &&& data.len() >= 32 && 1 <= n <= 4_096 && data.len() != expected ==> open_error(data)
                == Some(
                OpenError::InvalidIvfLength {
                    got: data.len() as usize,
                    expected: expected as u128,
                },
            )
        }),
{
    lemma_magic(data);
    assert(records_offset(field(data, 24, 4) as int) == 40 + 120 * field(data, 24, 4));
}

/// A clustered index opens if its clusters end where the next ones begin, and before the
/// records do. It does not if a cluster ends before it begins, or reaches behind the records.
pub proof fn law_clustered_files_open(data: Seq<u8>, c: int)
    requires
        is_clustered_file(data),
    ensures
        ({
            let count = field(data, 16, 8);
            let n = field(data, 24, 4) as int;
            &&& has_sound_offsets(data, n) && first_record(data, n, n) <= count && count
                <= 0x7_0000_0000 ==> open_error(data) is None
            &&& 0 <= c < n && first_record(data, n, c) > first_record(data, n, c + 1)
                ==> open_error(data) == Some(OpenError::InvalidClusterOffsets)
            &&& 0 <= c < n && has_sound_offsets(data, n) && first_record(data, n, c)
                < first_record(data, n, c + 1) && first_record(data, n, c + 1) > count
                ==> open_error(data) == Some(OpenError::InvalidClusterOffsets)
        }),
{
    let count = field(data, 16, 8);
    let n = field(data, 24, 4) as int;
    lemma_magic(data);
    assert(records_offset(n) == 40 + 120 * n);
    assert(open_error(data) == ivf_error(data));
    if has_sound_offsets(data, n) && first_record(data, n, n) <= count && count <= 0x7_0000_0000 {
        lemma_blocks_fit(data, n, n as nat);
        assert forall|k: int| 0 <= k < n implies #[trigger] is_cluster(
            data,
            n,
            count as int,
            k,
        ) by {
            lemma_starts_grow(data, n, k + 1, n);
            lemma_cluster_size(data, n, k);
        }
    }
    if 0 <= c < n && first_record(data, n, c) > first_record(data, n, c + 1) {
        assert(!is_cluster(data, n, count as int, c));
    }
    if 0 <= c < n && has_sound_offsets(data, n) && first_record(data, n, c) < first_record(
        data,
        n,
        c + 1,
    ) && first_record(data, n, c + 1) > count {
        lemma_cluster_size(data, n, c);
        assert(!is_cluster(data, n, count as int, c));
    }
}

/// The size of a cluster.
proof fn lemma_cluster_size(data: Seq<u8>, n: int, c: int)
    requires
        has_sound_offsets(data, n),
        0 <= c < n,
    ensures
        cluster_start(data, n, c) == first_record(data, n, c),
        cluster_start(data, n, c + 1) == first_record(data, n, c + 1),
        cluster_size(data, n, c) == first_record(data, n, c + 1) - first_record(data, n, c),
{
    let start = first_record(data, n, c);
    assert(start <= first_record(data, n, c + 1) < start + 0x1_0000_0000);
}

/// The blocks of clusters are few where their records are.
proof fn lemma_blocks_fit(data: Seq<u8>, n: int, m: nat)
    requires
        m <= n,
        has_sound_offsets(data, n),
    ensures
        8 * blocks_before(data, n, m) <= first_record(data, n, m as int) + 7 * m,
    decreases m,
{
    if m > 0 {
        lemma_blocks_fit(data, n, (m - 1) as nat);
        lemma_cluster_size(data, n, m - 1);
    }
}

proof fn lemma_starts_grow(data: Seq<u8>, n: int, a: int, b: int)
    requires
        0 <= a <= b <= n,
        has_sound_offsets(data, n),
    ensures
        first_record(data, n, a) <= first_record(data, n, b),
    decreases b - a,
{
    if a < b {
        lemma_starts_grow(data, n, a, b - 1);
        lemma_cluster_size(data, n, b - 1);
        assert(first_record(data, n, b - 1) <= first_record(data, n, b - 1 + 1));
    }
}

/// The distance in lanes counts every component of a record, and neither label nor padding,
/// where 16 bits hold the differences: it is the sum of their squares. In two stages it is the
/// same, unless those of the first eight components exceed the threshold; it is then the
/// largest number there is.
pub proof fn law_lanes_count_every_component(q: Seq<i16>, c: Seq<u8>, threshold: int)
    requires
        q.len() == 14,
        forall|d: int| 0 <= d < 14 ==> -0x8000 <= q[d] - #[trigger] signed_field(c, 2 * d) < 0x8000,
    ensures
        ({
            let f = |d: int| q[d] - signed_field(c, 2 * d);
            let low = sum_of_squares(
                |d: int|
                    if d < 8 {
                        q[d] - signed_field(c, 2 * d)
                    } else {
                        0
                    },
            );
            let lanes = padded_lanes(q);
            &&& lane_distance(lanes, component_mask(), c, 0, 16) == sum_of_squares(f)
            &&& staged_distance(lanes, component_mask(), c, threshold) == if low > threshold {
                u64::MAX as int
            } else {
                sum_of_squares(f)
            }
        }),
{
    let points = record_components(c);
    let f = |d: int| q[d] - signed_field(c, 2 * d);
    let g = |d: int| q[d] - points[d];
    let h = |d: int|
        if d < 8 {
            q[d] - signed_field(c, 2 * d)
        } else {
            0
        };
    assert forall|d: int| 0 <= d < 14 implies #[trigger] points[d] == signed_field(c, 2 * d) by {
        lemma_signed_field(c, 2 * d);
    }
    assert forall|d: int| 0 <= d < 14 implies -0x8000 <= q[d] - (#[trigger] points[d])
        <= 0x7fff by {
        assert(-0x8000 <= q[d] - signed_field(c, 2 * d) < 0x8000);
    }
    let lanes = padded_lanes(q);
    law_lanes_measure_the_components(q, c);
    lemma_lanes_are_components(q, c, 8);
    lemma_open_lanes(lanes, c, 8);
    lemma_lanes_join(lanes, component_mask(), c, 0, 8, 16);
    lemma_point_distance(q, points);
    reveal(sum_of_squares);
    assert forall|d: int| 0 <= d < 14 implies #[trigger] f(d) == g(d) by {}
    assert(sum_of_squares(f) == sum_of_squares(g));
    reveal_with_fuel(point_distance, 9);
    assert(h(0) == g(0) && h(1) == g(1) && h(2) == g(2) && h(3) == g(3) && h(4) == g(4) && h(5)
        == g(5) && h(6) == g(6) && h(7) == g(7));
    assert(h(8) == 0 && h(9) == 0 && h(10) == 0 && h(11) == 0 && h(12) == 0 && h(13) == 0);
    assert(0int * 0int == 0);
    lemma_eight_squares(q, points, h);
}

/// The squares of the first eight differences.
proof fn lemma_eight_squares(q: Seq<i16>, points: Seq<i16>, h: spec_fn(int) -> int)
    requires
        forall|d: int| 0 <= d < 8 ==> #[trigger] h(d) == q[d] - points[d],
        forall|d: int| 8 <= d < 14 ==> #[trigger] h(d) == 0,
    ensures
        point_distance(q, points, 8) == sum_of_squares(h),
{
    reveal(sum_of_squares);
    reveal_with_fuel(point_distance, 9);
    assert(forall|d: int| 0 <= d < 8 ==> square(q[d] - points[d]) == #[trigger] h(d) * h(d));
    assert(forall|d: int| 8 <= d < 14 ==> #[trigger] h(d) * h(d) == 0);
}

/// In every lane the difference is held in 16 bits: what counts is the square of a number that
/// differs from it by a multiple of 2^16. A lane that a mask closes counts as the query alone,
/// and lanes add up.
pub proof fn law_lanes_hold_sixteen_bits(q: Seq<i16>, c: Seq<u8>, i: int, a: int, b: int)
    requires
        0 <= i < 14,
        0 <= a <= b <= 16,
    ensures
        exists|x: int|
            -0x8000 <= x < 0x8000 && (q[i] - signed_field(c, 2 * i) - x) % 0x1_0000 == 0
                && lane_distance(q, component_mask(), c, i, i + 1) == #[trigger] square(x),
        lane_distance(q, component_mask(), c, 14, 15) == square(q[14] as int),
        lane_distance(q, component_mask(), c, 15, 16) == square(q[15] as int),
        lane_distance(q, component_mask(), c, 0, b) == lane_distance(q, component_mask(), c, 0, a)
            + lane_distance(q, component_mask(), c, a, b),
{
    let x = wrapped(q[i] - signed_field(c, 2 * i));
    let y = signed_field(c, 2 * i) as i16;
    lemma_signed_field(c, 2 * i);
    lemma_masks(y);
    lemma_masks(signed_field(c, 28) as i16);
    lemma_masks(signed_field(c, 30) as i16);
    lemma_lanes_join(q, component_mask(), c, 0, a, b);
    reveal_with_fuel(lane_distance, 2);
    assert(component_mask()[i] == -1);
    assert(lane_distance(q, component_mask(), c, i, i + 1) == square(x));
    assert(component_mask()[14] == 0 && component_mask()[15] == 0);
}

} // verus!

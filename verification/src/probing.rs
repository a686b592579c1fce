//! What a search in clusters finds.

use vstd::prelude::*;

use crate::block::{lemma_significant, rounded_distance, significant};
use crate::clusters::{
    centroid_distance_to, cluster_size, gap_of, is_in_box, is_nearly_at_least,
    law_rounded_box_distance_is_a_lower_bound, law_rounded_box_distance_is_nearly_a_lower_bound,
    rounded_box_distance, MAX_IVF_CLUSTERS,
};
use crate::distance::{lemma_square, square};
use crate::ivf::{
    after_clusters, cluster_candidates, first_best, first_probes, is_borderline, is_probed,
    ivf_query, ivf_score, lemma_rank_slot, more_probes, needs_repair, rank_slot, ranked, ranking,
    repaired_best, Plan, Ranking, MAX_IVF_NPROBE,
};
use crate::layout::DIMS;
use crate::recode::{padding, place_components};
use crate::rounding::INFINITY_BITS;
use crate::single::Single;
use crate::topk::{
    at_distance, by_distance, inserted, labels_of, lemma_by_distance, lemma_selected, lemma_selected_append,
    lemma_selected_are_first, ordered, selected, slot, vacant, vote, Candidate, K,
};
use crate::vector::lemma_quantized_i16;

verus! {

/// Whether components are those of a vector, in ten-thousandths.
pub open spec fn is_scaled(c: Seq<i16>) -> bool {
    c.len() == DIMS && forall|d: int| 0 <= d < DIMS ==> -10_000 <= #[trigger] c[d] <= 10_000
}

proof fn lemma_ivf_query(vector: Seq<Single>)
    ensures
        is_scaled(ivf_query(vector)),
{
    assert forall|d: int| 0 <= d < DIMS implies -10_000 <= #[trigger] ivf_query(vector)[d]
        <= 10_000 by {
        lemma_quantized_i16(vector[d]);
    }
}

proof fn lemma_record_is_near(q: Seq<i16>, c: Seq<i16>, n: nat)
    requires
        is_scaled(q),
        is_scaled(c),
        n <= DIMS,
    ensures
        rounded_distance(q, c, n) <= 400_100_000 * n,
    decreases n,
{
    if n > 0 {
        lemma_record_is_near(q, c, (n - 1) as nat);
        assert(-10_000 <= q[n - 1] <= 10_000);
        assert(-10_000 <= c[n - 1] <= 10_000);
        lemma_square(q[n - 1] - c[n - 1], 20_000);
        lemma_significant(
            (rounded_distance(q, c, (n - 1) as nat) + square(q[n - 1] - c[n - 1])) as nat,
        );
    }
}

proof fn lemma_padding_is_far(q: Seq<i16>, n: nat)
    requires
        is_scaled(q),
        n <= DIMS,
    ensures
        rounded_distance(q, padding(), n) >= 518_000_000 * n,
    decreases n,
{
    if n > 0 {
        lemma_padding_is_far(q, (n - 1) as nat);
        assert(-10_000 <= q[n - 1] <= 10_000);
        let x = q[n - 1] - i16::MAX;
        assert(padding()[n - 1] == i16::MAX);
        assert(x * x >= 22_767 * 22_767) by (nonlinear_arith)
            requires
                x <= -22_767,
        ;
        lemma_significant((rounded_distance(q, padding(), (n - 1) as nat) + square(x)) as nat);
    }
}

/// A place without a record is farther away than any record that is a vector in
/// ten-thousandths.
pub proof fn law_padding_is_farther_than_records(vector: Seq<Single>, c: Seq<i16>)
    requires
        is_scaled(c),
    ensures
        ({
            let q = ivf_query(vector);
            rounded_distance(q, c, DIMS as nat) < rounded_distance(q, padding(), DIMS as nat)
        }),
{
    lemma_ivf_query(vector);
    lemma_record_is_near(ivf_query(vector), c, DIMS as nat);
    lemma_padding_is_far(ivf_query(vector), DIMS as nat);
}

/// The records of cluster `c` as candidates.
pub open spec fn record_candidates(data: Seq<u8>, n: int, q: Seq<i16>, c: int) -> Seq<Candidate> {
    cluster_candidates(data, n, q, c, cluster_size(data, n, c))
}

/// The records of several clusters as candidates, one cluster after the other.
pub open spec fn probed_records(data: Seq<u8>, n: int, q: Seq<i16>, ids: Seq<usize>) -> Seq<
    Candidate,
>
    decreases ids.len(),
{
    if ids.len() == 0 {
        Seq::empty()
    } else {
        probed_records(data, n, q, ids.drop_last()) + record_candidates(
            data,
            n,
            q,
            ids.last() as int,
        )
    }
}

pub proof fn lemma_after_clusters(
    data: Seq<u8>,
    n: int,
    q: Seq<i16>,
    best: Seq<Candidate>,
    ids: Seq<usize>,
)
    ensures
        after_clusters(data, n, q, best, ids) == selected(best, probed_records(data, n, q, ids)),
    decreases ids.len(),
{
    if ids.len() > 0 {
        let head = ids.drop_last();
        lemma_after_clusters(data, n, q, best, head);
        lemma_selected_append(
            best,
            probed_records(data, n, q, head),
            record_candidates(data, n, q, ids.last() as int),
        );
    }
}

proof fn lemma_distance_fits(q: Seq<i16>, c: Seq<i16>, n: nat)
    requires
        n <= DIMS,
    ensures
        rounded_distance(q, c, n) <= 4_300_000_000 * n,
    decreases n,
{
    if n > 0 {
        lemma_distance_fits(q, c, (n - 1) as nat);
        lemma_square(q[n - 1] - c[n - 1], 65_535);
        lemma_significant(
            (rounded_distance(q, c, (n - 1) as nat) + square(q[n - 1] - c[n - 1])) as nat,
        );
    }
}

pub proof fn lemma_probed_records_fit(data: Seq<u8>, n: int, q: Seq<i16>, ids: Seq<usize>)
    ensures
        forall|i: int|
            0 <= i < probed_records(data, n, q, ids).len() ==> (#[trigger] probed_records(
                data,
                n,
                q,
                ids,
            )[i]).0 < u64::MAX,
    decreases ids.len(),
{
    if ids.len() > 0 {
        let head = ids.drop_last();
        let c = ids.last() as int;
        lemma_probed_records_fit(data, n, q, head);
        let before = probed_records(data, n, q, head);
        let own = record_candidates(data, n, q, c);
        let all = probed_records(data, n, q, ids);
        assert forall|i: int| 0 <= i < all.len() implies (#[trigger] all[i]).0 < u64::MAX by {
            if i < before.len() {
                assert(all[i] == before[i]);
            } else {
                let r = i - before.len();
                assert(all[i] == own[r]);
                lemma_distance_fits(q, place_components(data, n, c, r), DIMS as nat);
            }
        }
    }
}

/// Whether the entries are the nearest of some records: the first five in the order of their
/// distances, of those at one distance the ones that are looked at first.
pub open spec fn are_nearest(best: Seq<Candidate>, records: Seq<Candidate>) -> bool {
    &&& best.len() == K
    &&& forall|p: int|
        0 <= p < K ==> #[trigger] best[p] == if p < records.len() {
            by_distance(records)[p]
        } else {
            (u64::MAX as int, 0u8)
        }
    &&& ordered(by_distance(records))
    &&& by_distance(records).to_multiset() == records.to_multiset()
    &&& forall|dist: int|
        #[trigger] at_distance(by_distance(records), dist) == at_distance(records, dist)
}

/// Probing finds the nearest of all records of the clusters probed.
pub proof fn law_probes_find_the_nearest(data: Seq<u8>, n: int, q: Seq<i16>, ids: Seq<usize>)
    ensures
        are_nearest(
            after_clusters(data, n, q, vacant(u64::MAX as int), ids),
            probed_records(data, n, q, ids),
        ),
{
    let start = vacant(u64::MAX as int);
    let records = probed_records(data, n, q, ids);
    lemma_after_clusters(data, n, q, start, ids);
    lemma_probed_records_fit(data, n, q, ids);
    lemma_by_distance(records);
    lemma_selected_are_first(start, u64::MAX as int, 0u8, records);
}

/// The clusters with the distances of their centroids.
pub open spec fn centroid_candidates(data: Seq<u8>, vector: Seq<Single>, n: nat) -> Seq<
    (int, usize),
> {
    Seq::new(
        n,
        |c: int| (centroid_distance_to(data, vector, c, DIMS as nat).rank(), c as usize),
    )
}

/// Whether the centroids of the first `n` clusters are at finite distances.
pub open spec fn has_finite_distances(data: Seq<u8>, vector: Seq<Single>, n: nat) -> bool {
    forall|c: int|
        0 <= c < n ==> (#[trigger] centroid_distance_to(data, vector, c, DIMS as nat)).is_finite()
}

/// The first `limit` places of a ranking.
pub open spec fn first_places(r: Ranking, limit: int) -> Seq<(int, usize)> {
    Seq::new(limit as nat, |i: int| (r.dists[i].rank(), r.ids[i]))
}

proof fn lemma_rank_slot_is_slot(r: Ranking, limit: int, dist: Single, p: nat)
    requires
        p <= limit <= r.dists.len(),
        !dist.is_nan(),
        forall|i: int| 0 <= i < limit ==> !(#[trigger] r.dists[i]).is_nan(),
    ensures
        rank_slot(r.dists, dist, p) == slot(first_places(r, limit), dist.rank(), p),
    decreases p,
{
    if p > 0 {
        assert(!r.dists[p - 1].is_nan());
        assert(first_places(r, limit)[p - 1].0 == r.dists[p - 1].rank());
        if dist.less(r.dists[p - 1]) {
            lemma_rank_slot_is_slot(r, limit, dist, (p - 1) as nat);
        }
    }
}

proof fn lemma_ranked_is_inserted(r: Ranking, limit: int, dist: Single, id: usize)
    requires
        r.dists.len() == MAX_IVF_NPROBE,
        r.ids.len() == MAX_IVF_NPROBE,
        1 <= limit <= MAX_IVF_NPROBE,
        !dist.is_nan(),
        forall|i: int| 0 <= i < limit ==> !(#[trigger] r.dists[i]).is_nan(),
    ensures
        ({
            let s = ranked(r, dist, id, limit);
            &&& s.dists.len() == MAX_IVF_NPROBE
            &&& s.ids.len() == MAX_IVF_NPROBE
            &&& forall|i: int| 0 <= i < limit ==> !(#[trigger] s.dists[i]).is_nan()
            &&& first_places(s, limit) == inserted(first_places(r, limit), (dist.rank(), id))
        }),
{
    reveal(ranked);
    let last = limit - 1;
    let p = rank_slot(r.dists, dist, last as nat) as int;
    lemma_rank_slot(r.dists, dist, last as nat);
    lemma_rank_slot_is_slot(r, limit, dist, last as nat);
    let s = ranked(r, dist, id, limit);
    assert(!r.dists[last].is_nan());
    assert(first_places(r, limit)[last].0 == r.dists[last].rank());
    if dist.less(r.dists[last]) {
        assert forall|i: int| 0 <= i < limit implies !(#[trigger] s.dists[i]).is_nan() by {
            if i < p {
                assert(s.dists[i] == r.dists[i]);
            } else if i > p {
                assert(s.dists[i] == r.dists[i - 1]);
            }
        }
        assert(first_places(s, limit) =~= inserted(first_places(r, limit), (dist.rank(), id)));
    }
}

pub proof fn lemma_ranking_is_selected(data: Seq<u8>, vector: Seq<Single>, limit: int, n: nat)
    requires
        1 <= limit <= MAX_IVF_NPROBE,
        has_finite_distances(data, vector, n),
    ensures
        ({
            let r = ranking(data, vector, limit, n);
            &&& r.dists.len() == MAX_IVF_NPROBE
            &&& r.ids.len() == MAX_IVF_NPROBE
            &&& forall|i: int| 0 <= i < limit ==> !(#[trigger] r.dists[i]).is_nan()
            &&& first_places(r, limit) == selected(
                first_places(ranking(data, vector, limit, 0), limit),
                centroid_candidates(data, vector, n),
            )
        }),
    decreases n,
{
    let all = centroid_candidates(data, vector, n);
    if n == 0 {
    } else {
        let m = (n - 1) as nat;
        lemma_ranking_is_selected(data, vector, limit, m);
        assert(all.drop_last() =~= centroid_candidates(data, vector, m));
        let dist = centroid_distance_to(data, vector, n - 1, DIMS as nat);
        assert(dist.is_finite());
        lemma_ranked_is_inserted(
            ranking(data, vector, limit, m),
            limit,
            dist,
            (n - 1) as usize,
        );
    }
}

/// The clusters that are probed are those with the nearest centroids, in the order of their
/// distances; of those at one distance, the ones that come first. If there are fewer
/// clusters than places, the other places hold cluster 0.
pub proof fn law_ranking_holds_the_nearest_clusters(
    data: Seq<u8>,
    vector: Seq<Single>,
    limit: int,
    n: nat,
)
    requires
        1 <= limit <= MAX_IVF_NPROBE,
        has_finite_distances(data, vector, n),
    ensures
        ({
            let clusters = centroid_candidates(data, vector, n);
            let r = ranking(data, vector, limit, n);
            &&& forall|p: int|
                0 <= p < limit ==> #[trigger] r.ids[p] == if p < n {
                    by_distance(clusters)[p].1
                } else {
                    0
                }
            &&& ordered(by_distance(clusters))
            &&& by_distance(clusters).to_multiset() == clusters.to_multiset()
            &&& forall|dist: int|
                #[trigger] at_distance(by_distance(clusters), dist) == at_distance(clusters, dist)
        }),
{
    let clusters = centroid_candidates(data, vector, n);
    let start = first_places(ranking(data, vector, limit, 0), limit);
    let far = INFINITY_BITS as int;
    let r = ranking(data, vector, limit, n);
    lemma_ranking_is_selected(data, vector, limit, n);
    lemma_by_distance(clusters);
    assert forall|i: int| 0 <= i < start.len() implies #[trigger] start[i] == (far, 0usize) by {
        assert(Single::from_bits(INFINITY_BITS).rank() == far);
    }
    assert forall|i: int| 0 <= i < clusters.len() implies (#[trigger] clusters[i]).0 < far by {
        let dist = centroid_distance_to(data, vector, i, DIMS as nat);
        assert(dist.is_finite());
    }
    lemma_selected_are_first(start, far, 0usize, clusters);
    assert forall|p: int| 0 <= p < limit implies #[trigger] r.ids[p] == if p < n {
        by_distance(clusters)[p].1
    } else {
        0
    } by {
        assert(first_places(r, limit)[p].1 == r.ids[p]);
    }
}

/// With as many probes as there are clusters, every cluster is probed.
pub proof fn law_enough_probes_reach_every_cluster(
    data: Seq<u8>,
    plan: Plan,
    vector: Seq<Single>,
    c: usize,
)
    requires
        1 <= plan.n == plan.nprobe == plan.full_nprobe <= MAX_IVF_NPROBE,
        has_finite_distances(data, vector, plan.n as nat),
        c < plan.n,
    ensures
        first_probes(data, plan, vector).contains(c),
{
    let n = plan.n as nat;
    let clusters = centroid_candidates(data, vector, n);
    let list = by_distance(clusters);
    law_ranking_holds_the_nearest_clusters(data, vector, plan.n, n);
    lemma_ranking_is_selected(data, vector, plan.n, n);
    lemma_by_distance(clusters);
    broadcast use vstd::seq_lib::group_to_multiset_ensures;

    let x = clusters[c as int];
    assert(clusters.contains(x));
    assert(clusters.to_multiset().contains(x));
    assert(list.contains(x));
    let p = choose|p: int| 0 <= p < list.len() && list[p] == x;
    let ids = ranking(data, vector, plan.n, n).ids;
    assert(ids[p] == c);
    assert(first_probes(data, plan, vector)[p] == c);
}

/// A decision that is not close is made after the first probes.
pub proof fn law_confident_decisions_stop(data: Seq<u8>, plan: Plan, vector: Seq<Single>)
    requires
        plan.count > 0,
        !plan.repair,
        !is_borderline(first_best(data, plan, vector)),
    ensures
        ivf_score(data, plan, vector) == vote(
            plan.count,
            labels_of(first_best(data, plan, vector)),
        ),
{
    assert(more_probes(data, plan, vector) =~= Seq::empty());
}

/// Repair passes over nothing that is nearer: a cluster whose box is farther away than the
/// last entry holds no record that would enter, where no square of a distance to the box in
/// one component is rounded up.
pub proof fn law_repair_passes_over_nothing_nearer(
    data: Seq<u8>,
    n: int,
    q: Seq<i16>,
    best: Seq<Candidate>,
    c: int,
)
    requires
        best.len() > 0,
        rounded_box_distance(data, n, q, c, DIMS as nat) > best.last().0,
        is_boxed(data, n, q, c),
    ensures
        selected(best, record_candidates(data, n, q, c)) == best,
{
    lemma_nothing_enters(data, n, q, best, c, cluster_size(data, n, c));
}

proof fn lemma_nothing_enters(
    data: Seq<u8>,
    n: int,
    q: Seq<i16>,
    best: Seq<Candidate>,
    c: int,
    m: nat,
)
    requires
        best.len() > 0,
        m <= cluster_size(data, n, c),
        rounded_box_distance(data, n, q, c, DIMS as nat) > best.last().0,
        is_boxed(data, n, q, c),
    ensures
        selected(best, cluster_candidates(data, n, q, c, m)) == best,
    decreases m,
{
    if m > 0 {
        lemma_nothing_enters(data, n, q, best, c, (m - 1) as nat);
        let all = cluster_candidates(data, n, q, c, m);
        assert(all.drop_last() =~= cluster_candidates(data, n, q, c, (m - 1) as nat));
        assert(is_in_box(data, n, c, place_components(data, n, c, m - 1)));
        law_rounded_box_distance_is_a_lower_bound(
            data,
            n,
            q,
            c,
            place_components(data, n, c, m - 1),
        );
    }
}

/// The clusters among the first `m` that no probe reaches, in order.
pub open spec fn left_over(data: Seq<u8>, plan: Plan, vector: Seq<Single>, m: nat) -> Seq<usize>
    decreases m,
{
    if m == 0 {
        Seq::empty()
    } else {
        let head = left_over(data, plan, vector, (m - 1) as nat);
        if is_probed(data, plan, vector, (m - 1) as usize) {
            head
        } else {
            head.push((m - 1) as usize)
        }
    }
}

/// The clusters in the order in which a search with repair considers them: the first probes,
/// the further ones, and the clusters left over.
pub open spec fn considered(data: Seq<u8>, plan: Plan, vector: Seq<Single>, m: nat) -> Seq<usize> {
    first_probes(data, plan, vector) + more_probes(data, plan, vector) + left_over(
        data,
        plan,
        vector,
        m,
    )
}

/// Whether the box of cluster `c` holds its records, and no square of a distance from a query
/// to the box in one component is rounded up.
pub open spec fn is_boxed(data: Seq<u8>, n: int, q: Seq<i16>, c: int) -> bool {
    &&& holds_records(data, n, c)
    &&& forall|d: int|
        0 <= d < DIMS ==> {
            let s = square(#[trigger] gap_of(data, n, q, c, d)) as nat;
            significant(s) <= s
        }
}

/// Whether a plan is one of an index: within its bounds.
pub open spec fn is_plan(plan: Plan) -> bool {
    1 <= plan.nprobe <= plan.full_nprobe <= plan.n <= MAX_IVF_CLUSTERS && plan.full_nprobe
        <= MAX_IVF_NPROBE
}

proof fn lemma_after_two(
    data: Seq<u8>,
    n: int,
    q: Seq<i16>,
    best: Seq<Candidate>,
    a: Seq<usize>,
    b: Seq<usize>,
)
    ensures
        after_clusters(data, n, q, best, a + b) == after_clusters(
            data,
            n,
            q,
            after_clusters(data, n, q, best, a),
            b,
        ),
    decreases b.len(),
{
    if b.len() == 0 {
        assert(a + b =~= a);
    } else {
        assert((a + b).drop_last() =~= a + b.drop_last());
        lemma_after_two(data, n, q, best, a, b.drop_last());
    }
}

/// Passing over clusters is as good as looking at them.
proof fn lemma_repair(data: Seq<u8>, plan: Plan, vector: Seq<Single>, m: nat)
    requires
        is_plan(plan),
        m <= plan.n,
        forall|c: int|
            0 <= c < plan.n ==> #[trigger] is_boxed(data, plan.n, ivf_query(vector), c),
    ensures
        repaired_best(data, plan, vector, m) == after_clusters(
            data,
            plan.n,
            ivf_query(vector),
            vacant(u64::MAX as int),
            considered(data, plan, vector, m),
        ),
    decreases m,
{
    let q = ivf_query(vector);
    let start = vacant(u64::MAX as int);
    let first = first_probes(data, plan, vector);
    let more = more_probes(data, plan, vector);
    let all = considered(data, plan, vector, m);
    if m == 0 {
        lemma_after_two(data, plan.n, q, start, first, more);
        assert(all =~= first + more);
    } else {
        let c = m - 1;
        let head = considered(data, plan, vector, c as nat);
        lemma_repair(data, plan, vector, c as nat);
        let best = repaired_best(data, plan, vector, c as nat);
        if !is_probed(data, plan, vector, c as usize) {
            assert(all =~= head.push(c as usize));
            assert(all.drop_last() =~= head);
            if !needs_repair(data, plan, vector, best, c) {
                assert(is_boxed(data, plan.n, q, c));
                law_probes_find_the_nearest(data, plan.n, q, head);
                law_repair_passes_over_nothing_nearer(data, plan.n, q, best, c);
            }
        }
    }
}

/// The clusters of a ranking are different ones.
pub proof fn lemma_ranking_is_distinct(data: Seq<u8>, vector: Seq<Single>, limit: int, n: nat)
    requires
        1 <= limit <= MAX_IVF_NPROBE,
        limit <= n <= MAX_IVF_CLUSTERS,
        has_finite_distances(data, vector, n),
    ensures
        forall|a: int, b: int|
            0 <= a < b < limit ==> #[trigger] ranking(data, vector, limit, n).ids[a]
                != #[trigger] ranking(data, vector, limit, n).ids[b],
        forall|a: int|
            0 <= a < limit ==> #[trigger] ranking(data, vector, limit, n).ids[a] < n,
{
    let clusters = centroid_candidates(data, vector, n);
    let list = by_distance(clusters);
    let ids = ranking(data, vector, limit, n).ids;
    law_ranking_holds_the_nearest_clusters(data, vector, limit, n);
    lemma_by_distance(clusters);
    assert(clusters.no_duplicates()) by {
        assert forall|i: int, j: int|
            0 <= i < clusters.len() && 0 <= j < clusters.len() && i != j implies clusters[i]
            != clusters[j] by {
            assert(clusters[i].1 == i as usize && clusters[j].1 == j as usize);
        }
    }
    clusters.lemma_multiset_has_no_duplicates();
    list.lemma_multiset_has_no_duplicates_conv();
    broadcast use vstd::seq_lib::group_to_multiset_ensures;

    assert forall|p: int| 0 <= p < limit implies list[p] == clusters[ids[p] as int]
        && #[trigger] ids[p] < n by {
        assert(list.contains(list[p]));
        assert(clusters.to_multiset().contains(list[p]));
        assert(clusters.contains(list[p]));
        let i = choose|i: int| 0 <= i < clusters.len() && clusters[i] == list[p];
        assert(ids[p] == list[p].1);
    }
    assert forall|a: int, b: int| 0 <= a < b < limit implies #[trigger] ids[a]
        != #[trigger] ids[b] by {
        assert(list[a] != list[b]);
        assert(list[a] == clusters[ids[a] as int] && list[b] == clusters[ids[b] as int]);
    }
}

proof fn lemma_left_over(data: Seq<u8>, plan: Plan, vector: Seq<Single>, m: nat)
    requires
        m <= MAX_IVF_CLUSTERS,
    ensures
        left_over(data, plan, vector, m).no_duplicates(),
        forall|c: usize|
            #[trigger] left_over(data, plan, vector, m).contains(c) <==> c < m && !is_probed(
                data,
                plan,
                vector,
                c,
            ),
    decreases m,
{
    let all = left_over(data, plan, vector, m);
    if m > 0 {
        let x = (m - 1) as usize;
        let head = left_over(data, plan, vector, (m - 1) as nat);
        lemma_left_over(data, plan, vector, (m - 1) as nat);
        if !is_probed(data, plan, vector, x) {
            assert forall|c: usize| #[trigger] all.contains(c) <==> c < m && !is_probed(
                data,
                plan,
                vector,
                c,
            ) by {
                if head.contains(c) {
                    let i = choose|i: int| 0 <= i < head.len() && head[i] == c;
                    assert(all[i] == c);
                }
                if c == x {
                    assert(all[head.len() as int] == c);
                }
                if all.contains(c) {
                    let i = choose|i: int| 0 <= i < all.len() && all[i] == c;
                    if i < head.len() {
                        assert(head[i] == c);
                    }
                }
            }
            assert forall|i: int, j: int|
                0 <= i < all.len() && 0 <= j < all.len() && i != j implies all[i] != all[j] by {
                if i < head.len() {
                    assert(head.contains(head[i]));
                }
                if j < head.len() {
                    assert(head.contains(head[j]));
                }
            }
        }
    }
}

/// Every cluster is considered once.
proof fn lemma_considered(data: Seq<u8>, plan: Plan, vector: Seq<Single>)
    requires
        is_plan(plan),
        has_finite_distances(data, vector, plan.n as nat),
    ensures
        ({
            let all = considered(data, plan, vector, plan.n as nat);
            &&& all.no_duplicates()
            &&& forall|c: usize| #[trigger] all.contains(c) <==> c < plan.n
        }),
{
    let n = plan.n as nat;
    let ids = ranking(data, vector, plan.full_nprobe, n).ids;
    let first = first_probes(data, plan, vector);
    let more = more_probes(data, plan, vector);
    let rest = left_over(data, plan, vector, n);
    let all = considered(data, plan, vector, n);
    lemma_ranking_is_selected(data, vector, plan.full_nprobe, n);
    lemma_ranking_is_distinct(data, vector, plan.full_nprobe, n);
    lemma_left_over(data, plan, vector, n);
    let a = first.len() as int;
    let b = a + more.len();
    assert(first.len() == plan.nprobe);
    assert forall|i: int| 0 <= i < a implies #[trigger] all[i] == ids[i] && first.contains(
        ids[i],
    ) by {
        assert(first[i] == ids[i]);
    }
    assert forall|i: int| a <= i < b implies #[trigger] all[i] == ids[i] && more.contains(
        ids[i],
    ) by {
        assert(more[i - a] == ids[i]);
    }
    assert forall|i: int| b <= i < all.len() implies #[trigger] all[i] == rest[i - b]
        && rest.contains(rest[i - b]) by {}
    assert forall|i: int, j: int|
        0 <= i < all.len() && 0 <= j < all.len() && i != j implies all[i] != all[j] by {
        assert(i < b ==> is_probed(data, plan, vector, all[i]));
        assert(j < b ==> is_probed(data, plan, vector, all[j]));
    }
    assert forall|c: usize| #[trigger] all.contains(c) <==> c < n by {
        if all.contains(c) {
            let i = choose|i: int| 0 <= i < all.len() && all[i] == c;
            if i < b {
                assert(ids[i] < n);
            }
        }
        if c < n {
            if first.contains(c) {
                let i = choose|i: int| 0 <= i < first.len() && first[i] == c;
                assert(all[i] == c);
            } else if more.contains(c) {
                let i = choose|i: int| 0 <= i < more.len() && more[i] == c;
                assert(all[a + i] == c);
            } else {
                assert(rest.contains(c));
                let i = choose|i: int| 0 <= i < rest.len() && rest[i] == c;
                assert(all[b + i] == c);
            }
        }
    }
}

/// A search with repair finds the nearest of all records of the index: of every cluster
/// once, in the order in which they are considered. The boxes of the clusters hold their
/// records, no square of a distance from the query to a box in one component is rounded up,
/// and the centroids are at finite distances.
pub proof fn law_repair_finds_the_nearest_of_all(data: Seq<u8>, plan: Plan, vector: Seq<Single>)
    requires
        is_plan(plan),
        plan.repair,
        plan.count > 0,
        has_finite_distances(data, vector, plan.n as nat),
        forall|c: int|
            0 <= c < plan.n ==> #[trigger] is_boxed(data, plan.n, ivf_query(vector), c),
    ensures
        ({
            let order = considered(data, plan, vector, plan.n as nat);
            let best = repaired_best(data, plan, vector, plan.n as nat);
            &&& order.no_duplicates()
            &&& forall|c: usize| #[trigger] order.contains(c) <==> c < plan.n
            &&& are_nearest(best, probed_records(data, plan.n, ivf_query(vector), order))
            &&& ivf_score(data, plan, vector) == vote(plan.count, labels_of(best))
        }),
{
    lemma_considered(data, plan, vector);
    lemma_repair(data, plan, vector, plan.n as nat);
    law_probes_find_the_nearest(
        data,
        plan.n,
        ivf_query(vector),
        considered(data, plan, vector, plan.n as nat),
    );
}

/// The clusters that a search with repair looks at: the probes, and those of the first `m`
/// clusters that need it, in order.
pub open spec fn looked_at(data: Seq<u8>, plan: Plan, vector: Seq<Single>, m: nat) -> Seq<usize>
    decreases m,
{
    if m == 0 {
        first_probes(data, plan, vector) + more_probes(data, plan, vector)
    } else {
        let head = looked_at(data, plan, vector, (m - 1) as nat);
        let best = repaired_best(data, plan, vector, (m - 1) as nat);
        if needs_repair(data, plan, vector, best, m - 1) {
            head.push((m - 1) as usize)
        } else {
            head
        }
    }
}

/// Whether the box of cluster `c` holds its records.
pub open spec fn holds_records(data: Seq<u8>, n: int, c: int) -> bool {
    forall|r: int|
        0 <= r < cluster_size(data, n, c) ==> is_in_box(
            data,
            n,
            c,
            #[trigger] place_components(data, n, c, r),
        )
}

/// Whether no record of cluster `c` is nearer than an entry at distance `last`, but for what
/// rounding adds.
pub open spec fn is_nearly_beyond(data: Seq<u8>, n: int, q: Seq<i16>, c: int, last: int) -> bool {
    forall|r: int|
        0 <= r < cluster_size(data, n, c) ==> is_nearly_at_least(
            rounded_distance(q, #[trigger] place_components(data, n, c, r), DIMS as nat) as int,
            last,
        )
}

/// Repair passes over nothing that is nearer but by rounding: of a cluster whose box is
/// farther away than the last entry, no record is nearer than the entry by more than 60 in
/// 2^24 parts of its distance.
pub proof fn law_repair_passes_over_nothing_much_nearer(
    data: Seq<u8>,
    n: int,
    q: Seq<i16>,
    c: int,
    last: int,
)
    requires
        rounded_box_distance(data, n, q, c, DIMS as nat) > last,
        holds_records(data, n, c),
    ensures
        is_nearly_beyond(data, n, q, c, last),
{
    assert forall|r: int| 0 <= r < cluster_size(data, n, c) implies is_nearly_at_least(
        rounded_distance(q, #[trigger] place_components(data, n, c, r), DIMS as nat) as int,
        last,
    ) by {
        law_rounded_box_distance_is_nearly_a_lower_bound(
            data,
            n,
            q,
            c,
            place_components(data, n, c, r),
        );
    }
}

/// The entries are those of the clusters looked at, and only get nearer.
pub proof fn lemma_looked_at(data: Seq<u8>, plan: Plan, vector: Seq<Single>, m: nat)
    requires
        m <= plan.n <= MAX_IVF_CLUSTERS,
    ensures
        repaired_best(data, plan, vector, m) == after_clusters(
            data,
            plan.n,
            ivf_query(vector),
            vacant(u64::MAX as int),
            looked_at(data, plan, vector, m),
        ),
        ordered(repaired_best(data, plan, vector, m)),
        repaired_best(data, plan, vector, m).len() == K,
    decreases m,
{
    let q = ivf_query(vector);
    let start = vacant(u64::MAX as int);
    let all = looked_at(data, plan, vector, m);
    if m == 0 {
        lemma_after_two(
            data,
            plan.n,
            q,
            start,
            first_probes(data, plan, vector),
            more_probes(data, plan, vector),
        );
    } else {
        lemma_looked_at(data, plan, vector, (m - 1) as nat);
        let head = looked_at(data, plan, vector, (m - 1) as nat);
        if needs_repair(
            data,
            plan,
            vector,
            repaired_best(data, plan, vector, (m - 1) as nat),
            m - 1,
        ) {
            assert(all.drop_last() =~= head);
        }
    }
    lemma_after_clusters(data, plan.n, q, start, all);
    lemma_selected(start, probed_records(data, plan.n, q, all));
}

/// What was passed over is beyond the last entry, and stays so.
pub proof fn lemma_passed_over(data: Seq<u8>, plan: Plan, vector: Seq<Single>, m: nat, c: usize)
    requires
        c < m <= plan.n <= MAX_IVF_CLUSTERS,
        !looked_at(data, plan, vector, m).contains(c),
    ensures
        rounded_box_distance(data, plan.n, ivf_query(vector), c as int, DIMS as nat)
            > repaired_best(data, plan, vector, m).last().0,
    decreases m,
{
    let q = ivf_query(vector);
    let j = (m - 1) as nat;
    let head = looked_at(data, plan, vector, j);
    let all = looked_at(data, plan, vector, m);
    let best = repaired_best(data, plan, vector, j);
    lemma_looked_at(data, plan, vector, j);
    if head.contains(c) {
        let i = choose|i: int| 0 <= i < head.len() && head[i] == c;
        assert(all[i] == c);
    }
    if needs_repair(data, plan, vector, best, j as int) {
        assert(all[head.len() as int] == j as usize);
        lemma_selected(best, record_candidates(data, plan.n, q, j as int));
    }
    if c == j {
        if is_probed(data, plan, vector, c) {
            lemma_probed_are_looked_at(data, plan, vector, j, c);
        }
    } else {
        lemma_passed_over(data, plan, vector, j, c);
    }
}

proof fn lemma_probed_are_looked_at(
    data: Seq<u8>,
    plan: Plan,
    vector: Seq<Single>,
    m: nat,
    c: usize,
)
    requires
        is_probed(data, plan, vector, c),
    ensures
        looked_at(data, plan, vector, m).contains(c),
    decreases m,
{
    let all = looked_at(data, plan, vector, m);
    let first = first_probes(data, plan, vector);
    let more = more_probes(data, plan, vector);
    if m == 0 {
        if first.contains(c) {
            let i = choose|i: int| 0 <= i < first.len() && first[i] == c;
            assert(all[i] == c);
        } else {
            let i = choose|i: int| 0 <= i < more.len() && more[i] == c;
            assert(all[first.len() + i] == c);
        }
    } else {
        lemma_probed_are_looked_at(data, plan, vector, (m - 1) as nat, c);
        let head = looked_at(data, plan, vector, (m - 1) as nat);
        let i = choose|i: int| 0 <= i < head.len() && head[i] == c;
        assert(all[i] == c);
    }
}

/// No cluster is looked at twice.
pub proof fn lemma_looked_at_once(data: Seq<u8>, plan: Plan, vector: Seq<Single>, m: nat)
    requires
        is_plan(plan),
        m <= plan.n,
        has_finite_distances(data, vector, plan.n as nat),
    ensures
        looked_at(data, plan, vector, m).no_duplicates(),
        forall|c: usize| #[trigger]
            looked_at(data, plan, vector, m).contains(c) ==> is_probed(data, plan, vector, c) || c
                < m,
    decreases m,
{
    let all = looked_at(data, plan, vector, m);
    let first = first_probes(data, plan, vector);
    let more = more_probes(data, plan, vector);
    if m == 0 {
        lemma_considered(data, plan, vector);
        let longer = considered(data, plan, vector, plan.n as nat);
        assert forall|i: int, j: int|
            0 <= i < all.len() && 0 <= j < all.len() && i != j implies all[i] != all[j] by {
            assert(longer[i] == all[i] && longer[j] == all[j]);
        }
        assert forall|c: usize| #[trigger] all.contains(c) implies is_probed(
            data,
            plan,
            vector,
            c,
        ) by {
            let i = choose|i: int| 0 <= i < all.len() && all[i] == c;
            if i < first.len() {
                assert(first[i] == c);
            } else {
                assert(more[i - first.len()] == c);
            }
        }
    } else {
        let head = looked_at(data, plan, vector, (m - 1) as nat);
        let best = repaired_best(data, plan, vector, (m - 1) as nat);
        lemma_looked_at_once(data, plan, vector, (m - 1) as nat);
        if needs_repair(data, plan, vector, best, m - 1) {
            assert(!head.contains((m - 1) as usize));
            assert forall|i: int, j: int|
                0 <= i < all.len() && 0 <= j < all.len() && i != j implies all[i] != all[j] by {
                if i < head.len() {
                    assert(head.contains(head[i]));
                }
                if j < head.len() {
                    assert(head.contains(head[j]));
                }
            }
            assert forall|c: usize| #[trigger] all.contains(c) implies is_probed(
                data,
                plan,
                vector,
                c,
            ) || c < m by {
                let i = choose|i: int| 0 <= i < all.len() && all[i] == c;
                if i < head.len() {
                    assert(head[i] == c);
                    assert(head.contains(c));
                }
            }
        }
    }
}

/// A search with repair finds the nearest of all records of the index, but for what rounding
/// adds: its entries are the nearest of the records of the clusters that it looks at, and no
/// record of another cluster is nearer than the last entry by more than 60 in 2^24 parts of
/// its distance. The boxes of the clusters hold their records. No cluster is looked at twice
/// where the centroids are at finite distances.
pub proof fn law_repair_finds_the_nearest_but_for_rounding(
    data: Seq<u8>,
    plan: Plan,
    vector: Seq<Single>,
)
    requires
        is_plan(plan),
        plan.repair,
        plan.count > 0,
        forall|c: int| 0 <= c < plan.n ==> #[trigger] holds_records(data, plan.n, c),
    ensures
        ({
            let q = ivf_query(vector);
            let order = looked_at(data, plan, vector, plan.n as nat);
            let best = repaired_best(data, plan, vector, plan.n as nat);
            &&& are_nearest(best, probed_records(data, plan.n, q, order))
            &&& forall|c: usize|
                c < plan.n && !order.contains(c) ==> #[trigger] is_nearly_beyond(
                    data,
                    plan.n,
                    q,
                    c as int,
                    best.last().0,
                )
            &&& has_finite_distances(data, vector, plan.n as nat) ==> order.no_duplicates()
            &&& ivf_score(data, plan, vector) == vote(plan.count, labels_of(best))
        }),
{
    let q = ivf_query(vector);
    let n = plan.n as nat;
    if has_finite_distances(data, vector, n) {
        lemma_looked_at_once(data, plan, vector, n);
    }
    let order = looked_at(data, plan, vector, n);
    let best = repaired_best(data, plan, vector, n);
    lemma_looked_at(data, plan, vector, n);
    law_probes_find_the_nearest(data, plan.n, q, order);
    assert forall|c: usize| c < plan.n && !order.contains(c) implies #[trigger] is_nearly_beyond(
        data,
        plan.n,
        q,
        c as int,
        best.last().0,
    ) by {
        lemma_passed_over(data, plan, vector, n, c);
        assert(holds_records(data, plan.n, c as int));
        law_repair_passes_over_nothing_much_nearer(data, plan.n, q, c as int, best.last().0);
    }
}

} // verus!

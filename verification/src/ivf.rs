//! Search in the clusters whose centroids are nearest.
//!
//! A search looks at the `nprobe` nearest clusters. If two or three of the five neighbours
//! found there mark fraud, it goes on to `full_nprobe` clusters. With `repair` it then looks
//! at every other cluster whose box is not farther away than the last neighbour. A search
//! whose budget is used up on the way finds nothing.

use vstd::prelude::*;

use crate::block::{block_distance_8, column, rounded_distance};
use crate::budget::Budget;
use crate::clusters::{centroid_distance_to, cluster_size, rounded_box_distance, ClusterFile};
use crate::distance::{BLOCK_DIMS_LEN, BLOCK_RECORDS};
use crate::index::SearchResult;
use crate::layout::DIMS;
use crate::recode::{
    blocks_before, blocks_of, is_block, lemma_blocks_before, place_components, place_label, Blocks,
};
use crate::rounding::INFINITY_BITS;
use crate::single::{Single, ZERO};
use crate::topk::{
    fraud_count, frauds, inserted, insert_best_u64, labels_of, lemma_selected,
    lemma_selected_append, ordered, pairs_u64, score_from_labels, selected, vacant, vote, Candidate,
    K,
};
use crate::vector::{quantize_i16, quantized_i16, Vector};

verus! {

/// The most clusters a search probes.
pub const MAX_IVF_NPROBE: usize = 64;

/// The budget is asked once in so many blocks of a cluster.
pub const BLOCKS_PER_QUESTION: usize = 64;

/// The nearest clusters found so far: the distances of their centroids, and which they are.
pub struct Ranking {
    pub dists: Seq<Single>,
    pub ids: Seq<usize>,
}

/// Where a distance belongs, walking down from position `p`.
pub open spec fn rank_slot(dists: Seq<Single>, dist: Single, p: nat) -> nat
    decreases p,
{
    if p > 0 && dist.less(dists[p - 1]) {
        rank_slot(dists, dist, (p - 1) as nat)
    } else {
        p
    }
}

/// `seq` with `x` at place `p` and what stood from there to before `last` moved up by one.
pub open spec fn shifted_in<T>(s: Seq<T>, p: int, last: int, x: T) -> Seq<T> {
    s.subrange(0, p).push(x) + s.subrange(p, last) + s.subrange(last + 1, s.len() as int)
}

/// The first `limit` places after a cluster has been offered.
#[verifier::opaque]
pub open spec fn ranked(r: Ranking, dist: Single, id: usize, limit: int) -> Ranking {
    let last = limit - 1;
    let far = r.dists[last];
    if !dist.is_nan() && !far.is_nan() && !dist.less(far) {
        r
    } else {
        let p = rank_slot(r.dists, dist, last as nat) as int;
        Ranking {
            dists: shifted_in(r.dists, p, last, dist),
            ids: shifted_in(r.ids, p, last, id),
        }
    }
}

/// The ranking of the first `n` clusters.
pub open spec fn ranking(data: Seq<u8>, vector: Seq<Single>, limit: int, n: nat) -> Ranking
    decreases n,
{
    if n == 0 {
        Ranking {
            dists: Seq::new(MAX_IVF_NPROBE as nat, |i: int| Single::from_bits(INFINITY_BITS)),
            ids: Seq::new(MAX_IVF_NPROBE as nat, |i: int| 0usize),
        }
    } else {
        ranked(
            ranking(data, vector, limit, (n - 1) as nat),
            centroid_distance_to(data, vector, n - 1, DIMS as nat),
            (n - 1) as usize,
            limit,
        )
    }
}

/// A query in ten-thousandths.
pub open spec fn ivf_query(vector: Seq<Single>) -> Seq<i16> {
    Seq::new(DIMS as nat, |d: int| quantized_i16(vector[d]) as i16)
}

/// The first `m` records of cluster `c` as candidates.
pub open spec fn cluster_candidates(
    data: Seq<u8>,
    n: int,
    q: Seq<i16>,
    c: int,
    m: nat,
) -> Seq<Candidate> {
    Seq::new(
        m,
        |r: int|
            (
                rounded_distance(q, place_components(data, n, c, r), DIMS as nat) as int,
                place_label(data, n, c, r),
            ),
    )
}

/// The records of cluster `c` in its first `b` blocks.
pub open spec fn records_within(data: Seq<u8>, n: int, c: int, b: nat) -> nat {
    let size = cluster_size(data, n, c);
    if 8 * b < size {
        8 * b
    } else {
        size
    }
}

/// The entries after the records in the first `b` blocks of cluster `c`.
pub open spec fn after_blocks(
    data: Seq<u8>,
    n: int,
    q: Seq<i16>,
    best: Seq<Candidate>,
    c: int,
    b: nat,
) -> Seq<Candidate> {
    selected(best, cluster_candidates(data, n, q, c, records_within(data, n, c, b)))
}

/// The entries after the records of cluster `c`.
pub open spec fn after_cluster(
    data: Seq<u8>,
    n: int,
    q: Seq<i16>,
    best: Seq<Candidate>,
    c: int,
) -> Seq<Candidate> {
    selected(best, cluster_candidates(data, n, q, c, cluster_size(data, n, c)))
}

/// How often the budget is asked in cluster `c`.
pub open spec fn cluster_questions(data: Seq<u8>, n: int, c: int) -> nat {
    (blocks_of(data, n, c) + 63) / 64
}

/// The entries after several clusters.
pub open spec fn after_clusters(
    data: Seq<u8>,
    n: int,
    q: Seq<i16>,
    best: Seq<Candidate>,
    ids: Seq<usize>,
) -> Seq<Candidate>
    decreases ids.len(),
{
    if ids.len() == 0 {
        best
    } else {
        after_cluster(
            data,
            n,
            q,
            after_clusters(data, n, q, best, ids.drop_last()),
            ids.last() as int,
        )
    }
}

/// How often the budget is asked in several clusters.
pub open spec fn questions_in(data: Seq<u8>, n: int, ids: Seq<usize>) -> nat
    decreases ids.len(),
{
    if ids.len() == 0 {
        0
    } else {
        questions_in(data, n, ids.drop_last()) + cluster_questions(data, n, ids.last() as int)
    }
}

/// How an index is searched.
pub struct Plan {
    pub n: int,
    pub count: nat,
    pub nprobe: int,
    pub full_nprobe: int,
    pub repair: bool,
}

/// The clusters that are probed first.
pub open spec fn first_probes(data: Seq<u8>, plan: Plan, vector: Seq<Single>) -> Seq<usize> {
    ranking(data, vector, plan.full_nprobe, plan.n as nat).ids.subrange(0, plan.nprobe)
}

/// The entries after the first probes.
pub open spec fn first_best(data: Seq<u8>, plan: Plan, vector: Seq<Single>) -> Seq<Candidate> {
    after_clusters(
        data,
        plan.n,
        ivf_query(vector),
        vacant(u64::MAX as int),
        first_probes(data, plan, vector),
    )
}

/// Whether the first probes leave the decision open.
pub open spec fn is_borderline(best: Seq<Candidate>) -> bool {
    let n = frauds(labels_of(best), K as nat);
    n == 2 || n == 3
}

/// The clusters that are probed if the first ones leave the decision open.
pub open spec fn more_probes(data: Seq<u8>, plan: Plan, vector: Seq<Single>) -> Seq<usize> {
    if is_borderline(first_best(data, plan, vector)) {
        ranking(data, vector, plan.full_nprobe, plan.n as nat).ids.subrange(
            plan.nprobe,
            plan.full_nprobe,
        )
    } else {
        Seq::empty()
    }
}

/// The entries after all probes.
pub open spec fn probed_best(data: Seq<u8>, plan: Plan, vector: Seq<Single>) -> Seq<Candidate> {
    after_clusters(
        data,
        plan.n,
        ivf_query(vector),
        first_best(data, plan, vector),
        more_probes(data, plan, vector),
    )
}

/// Whether cluster `c` has been probed.
pub open spec fn is_probed(data: Seq<u8>, plan: Plan, vector: Seq<Single>, c: usize) -> bool {
    first_probes(data, plan, vector).contains(c) || more_probes(data, plan, vector).contains(c)
}

/// Whether cluster `c` is looked at for repair, given the entries so far.
pub open spec fn needs_repair(
    data: Seq<u8>,
    plan: Plan,
    vector: Seq<Single>,
    best: Seq<Candidate>,
    c: int,
) -> bool {
    !is_probed(data, plan, vector, c as usize) && rounded_box_distance(
        data,
        plan.n,
        ivf_query(vector),
        c,
        DIMS as nat,
    ) <= best.last().0
}

/// The entries after the first `m` clusters have been considered for repair.
pub open spec fn repaired_best(
    data: Seq<u8>,
    plan: Plan,
    vector: Seq<Single>,
    m: nat,
) -> Seq<Candidate>
    decreases m,
{
    if m == 0 {
        probed_best(data, plan, vector)
    } else {
        let best = repaired_best(data, plan, vector, (m - 1) as nat);
        if needs_repair(data, plan, vector, best, m - 1) {
            after_cluster(data, plan.n, ivf_query(vector), best, m - 1)
        } else {
            best
        }
    }
}

/// How often the budget is asked while the first `m` clusters are considered for repair.
pub open spec fn repair_questions(data: Seq<u8>, plan: Plan, vector: Seq<Single>, m: nat) -> nat
    decreases m,
{
    if m == 0 {
        0
    } else {
        let best = repaired_best(data, plan, vector, (m - 1) as nat);
        repair_questions(data, plan, vector, (m - 1) as nat) + if needs_repair(
            data,
            plan,
            vector,
            best,
            m - 1,
        ) {
            cluster_questions(data, plan.n, m - 1)
        } else {
            0
        }
    }
}

/// The clusters that are considered for repair.
pub open spec fn repair_range(plan: Plan) -> nat {
    if plan.repair {
        plan.n as nat
    } else {
        0
    }
}

/// How often a search asks its budget if it is never used up.
pub open spec fn all_questions(data: Seq<u8>, plan: Plan, vector: Seq<Single>) -> nat {
    if plan.count == 0 {
        0
    } else {
        questions_in(data, plan.n, first_probes(data, plan, vector)) + questions_in(
            data,
            plan.n,
            more_probes(data, plan, vector),
        ) + repair_questions(data, plan, vector, repair_range(plan))
    }
}

/// What a search finds whose budget is never used up.
pub open spec fn ivf_score(data: Seq<u8>, plan: Plan, vector: Seq<Single>) -> Single {
    if plan.count == 0 {
        Single::from_bits(ZERO)
    } else {
        vote(plan.count, labels_of(repaired_best(data, plan, vector, repair_range(plan))))
    }
}

/// Offers a cluster to the nearest ones.
pub fn insert_best_cluster(
    dist: Single,
    cluster_id: usize,
    limit: usize,
    best_dist: &mut [Single; MAX_IVF_NPROBE],
    best_cluster: &mut [usize; MAX_IVF_NPROBE],
)
    requires
        1 <= limit <= MAX_IVF_NPROBE,
    ensures
        (Ranking { dists: final(best_dist)@, ids: final(best_cluster)@ }) == ranked(
            Ranking { dists: old(best_dist)@, ids: old(best_cluster)@ },
            dist,
            cluster_id,
            limit as int,
        ),
{
    reveal(ranked);
    if dist.ge(best_dist[limit - 1]) {
        return ;
    }
    let ghost dists = best_dist@;
    let ghost ids = best_cluster@;
    let mut pos: usize = limit - 1;
    while pos > 0 && dist.lt(best_dist[pos - 1])
        invariant
            pos < limit <= MAX_IVF_NPROBE,
            dists == old(best_dist)@,
            ids == old(best_cluster)@,
            rank_slot(dists, dist, pos as nat) == rank_slot(dists, dist, (limit - 1) as nat),
            forall|j: int|
                0 <= j <= pos || limit <= j < MAX_IVF_NPROBE ==> #[trigger] best_dist@[j] == dists[j],
            forall|j: int|
                0 <= j <= pos || limit <= j < MAX_IVF_NPROBE ==> #[trigger] best_cluster@[j] == ids[j],
            forall|j: int| pos < j < limit ==> #[trigger] best_dist@[j] == dists[j - 1],
            forall|j: int| pos < j < limit ==> #[trigger] best_cluster@[j] == ids[j - 1],
        decreases pos,
    {
        best_dist[pos] = best_dist[pos - 1];
        best_cluster[pos] = best_cluster[pos - 1];
        pos = pos - 1;
    }
    best_dist[pos] = dist;
    best_cluster[pos] = cluster_id;
    proof {
        let last = limit - 1;
        assert(rank_slot(dists, dist, pos as nat) == pos);
        assert(best_dist@ =~= shifted_in(dists, pos as int, last, dist));
        assert(best_cluster@ =~= shifted_in(ids, pos as int, last, cluster_id));
    }
}

/// A clustered index that can be searched.
pub struct IvfIndex<'a> {
    pub file: ClusterFile<'a>,
    pub blocks: Blocks,
    pub nprobe: usize,
    pub full_nprobe: usize,
    pub repair: bool,
}

/// The next block of a cluster brings its records.
proof fn lemma_next_block(
    data: Seq<u8>,
    n: int,
    q: Seq<i16>,
    best: Seq<Candidate>,
    c: int,
    b: nat,
    new: Seq<Candidate>,
)
    requires
        records_within(data, n, c, b) == 8 * b,
        new.len() == records_within(data, n, c, b + 1) - 8 * b,
        forall|j: int|
            0 <= j < new.len() ==> #[trigger] new[j] == (
                rounded_distance(q, place_components(data, n, c, 8 * b + j), DIMS as nat) as int,
                place_label(data, n, c, 8 * b + j),
            ),
    ensures
        after_blocks(data, n, q, best, c, b + 1) == selected(
            after_blocks(data, n, q, best, c, b),
            new,
        ),
{
    let all = cluster_candidates(data, n, q, c, records_within(data, n, c, b + 1));
    let head = cluster_candidates(data, n, q, c, 8 * b);
    assert(all =~= head + new);
    lemma_selected_append(best, head, new);
}

/// A ranking holds nothing but what it held and what it was offered.
proof fn lemma_ranked_ids(r: Ranking, dist: Single, id: usize, limit: int, n: int)
    requires
        r.dists.len() == MAX_IVF_NPROBE,
        r.ids.len() == MAX_IVF_NPROBE,
        1 <= limit <= MAX_IVF_NPROBE,
        id < n,
        forall|i: int| 0 <= i < MAX_IVF_NPROBE ==> #[trigger] r.ids[i] < n,
    ensures
        forall|i: int| 0 <= i < MAX_IVF_NPROBE ==> #[trigger] ranked(r, dist, id, limit).ids[i] < n,
{
    reveal(ranked);
    let last = limit - 1;
    let p = rank_slot(r.dists, dist, last as nat) as int;
    lemma_rank_slot(r.dists, dist, last as nat);
    let ids = shifted_in(r.ids, p, last, id);
    assert forall|i: int| 0 <= i < MAX_IVF_NPROBE implies #[trigger] ids[i] < n by {
        if i < p {
            assert(ids[i] == r.ids[i]);
        } else if i == p {
            assert(ids[i] == id);
        } else if i <= last {
            assert(ids[i] == r.ids[i - 1]);
        } else {
            assert(ids[i] == r.ids[i]);
        }
    }
}

pub proof fn lemma_rank_slot(dists: Seq<Single>, dist: Single, p: nat)
    ensures
        rank_slot(dists, dist, p) <= p,
    decreases p,
{
    if p > 0 && dist.less(dists[p - 1]) {
        lemma_rank_slot(dists, dist, (p - 1) as nat);
    }
}

/// The first clusters take no more questions than all of them.
proof fn lemma_questions_in(data: Seq<u8>, n: int, ids: Seq<usize>, i: int)
    requires
        0 <= i <= ids.len(),
    ensures
        questions_in(data, n, ids.subrange(0, i)) <= questions_in(data, n, ids),
    decreases ids.len(),
{
    if i == ids.len() {
        assert(ids.subrange(0, i) =~= ids);
    } else {
        lemma_questions_in(data, n, ids.drop_last(), i);
        assert(ids.drop_last().subrange(0, i) =~= ids.subrange(0, i));
    }
}

proof fn lemma_repair_questions(
    data: Seq<u8>,
    plan: Plan,
    vector: Seq<Single>,
    a: nat,
    b: nat,
)
    requires
        a <= b,
    ensures
        repair_questions(data, plan, vector, a) <= repair_questions(data, plan, vector, b),
    decreases b,
{
    if a < b {
        lemma_repair_questions(data, plan, vector, a, (b - 1) as nat);
    }
}

/// What stands in place `j` of a block.
proof fn lemma_place(
    blocks: Blocks,
    data: Seq<u8>,
    n: int,
    c: int,
    b: int,
    at: int,
    j: int,
)
    requires
        is_block(blocks.dims@, blocks.labels@, data, n, c, b),
        at == blocks_before(data, n, c as nat) + b,
        0 <= j < 8,
    ensures
        column(
            blocks.dims@.subrange(at * BLOCK_DIMS_LEN, at * BLOCK_DIMS_LEN + BLOCK_DIMS_LEN),
            j,
        ) == place_components(data, n, c, 8 * b + j),
        blocks.labels@[8 * at + j] == place_label(data, n, c, 8 * b + j),
{
    assert(column(
        blocks.dims@.subrange(BLOCK_DIMS_LEN * at, BLOCK_DIMS_LEN * at + BLOCK_DIMS_LEN),
        j,
    ) == place_components(data, n, c, 8 * b + j));
}

impl<'a> IvfIndex<'a> {
    /// The blocks hold the records, and the settings are within their bounds.
    pub open spec fn wf(self) -> bool {
        &&& self.file.wf()
        &&& self.blocks.wf(self.file.data@, self.file.cluster_count as int)
        &&& 1 <= self.nprobe <= self.full_nprobe <= MAX_IVF_NPROBE
        &&& self.full_nprobe <= self.file.cluster_count
    }

    /// How the index is searched.
    pub open spec fn plan(self) -> Plan {
        Plan {
            n: self.file.cluster_count as int,
            count: self.file.count as nat,
            nprobe: self.nprobe as int,
            full_nprobe: self.full_nprobe as int,
            repair: self.repair,
        }
    }

    /// Offers the first `places` of a block, which hold records; those that are not nearer
    /// than the last entry was at the beginning are passed over.
    fn offer_block(
        &self,
        at: usize,
        places: usize,
        query: &[i16; DIMS],
        best_dist: &mut [u64; K],
        best_label: &mut [u8; K],
        Ghost(c): Ghost<int>,
        Ghost(b): Ghost<nat>,
        Ghost(start): Ghost<Seq<Candidate>>,
    )
        requires
            self.wf(),
            0 <= c < self.file.cluster_count,
            b < blocks_of(self.file.data@, self.file.cluster_count as int, c),
            at == blocks_before(self.file.data@, self.file.cluster_count as int, c as nat) + b,
            places == records_within(
                self.file.data@,
                self.file.cluster_count as int,
                c,
                b + 1,
            ) - 8 * b,
            ordered(start),
            start.len() == K,
            pairs_u64(old(best_dist)@, old(best_label)@) == after_blocks(
                self.file.data@,
                self.file.cluster_count as int,
                query@,
                start,
                c,
                b,
            ),
        ensures
            pairs_u64(final(best_dist)@, final(best_label)@) == after_blocks(
                self.file.data@,
                self.file.cluster_count as int,
                query@,
                start,
                c,
                b + 1,
            ),
    {
        let ghost data = self.file.data@;
        let ghost n = self.file.cluster_count as int;
        proof {
            lemma_blocks_before(data, n, (c + 1) as nat, n as nat);
            assert(is_block(self.blocks.dims@, self.blocks.labels@, data, n, c, b as int));
        }
        let dims_len: usize = self.blocks.dims.len();
        let labels_len: usize = self.blocks.labels.len();
        let from: usize = at * BLOCK_DIMS_LEN;
        let block: &[i16] = &self.blocks.dims.as_slice()[from..from + BLOCK_DIMS_LEN];
        assert(block@ =~= self.blocks.dims@.subrange(from as int, from + BLOCK_DIMS_LEN));
        let dists: [u64; BLOCK_RECORDS] = block_distance_8(block, query);
        let threshold: u64 = best_dist[K - 1];
        let ghost before = pairs_u64(best_dist@, best_label@);
        let ghost new = Seq::new(
            places as nat,
            |j: int|
                (
                    rounded_distance(
                        query@,
                        place_components(data, n, c, 8 * b + j),
                        DIMS as nat,
                    ) as int,
                    place_label(data, n, c, 8 * b + j),
                ),
        );
        proof {
            assert(records_within(data, n, c, b) == 8 * b);
            lemma_selected(start, cluster_candidates(data, n, query@, c, 8 * b));
            assert(new.subrange(0, 0) =~= Seq::empty());
            assert forall|i: int| 0 <= i < places implies #[trigger] new[i] == (
                dists@[i] as int,
                self.blocks.labels@[8 * at + i],
            ) by {
                lemma_place(self.blocks, data, n, c, b as int, at as int, i);
                assert(dists@[i] == rounded_distance(query@, column(block@, i), DIMS as nat));
            }
        }
        let mut j: usize = 0;
        while j < places
            invariant
                j <= places <= BLOCK_RECORDS,
                self.wf(),
                labels_len == self.blocks.labels@.len(),
                8 * at + 8 <= labels_len,
                new.len() == places,
                threshold == before.last().0,
                before.len() == K,
                ordered(before),
                forall|i: int|
                    0 <= i < places ==> #[trigger] new[i] == (
                        dists@[i] as int,
                        self.blocks.labels@[8 * at + i],
                    ),
                pairs_u64(best_dist@, best_label@) == selected(before, new.subrange(0, j as int)),
            decreases places - j,
        {
            let ghost now = pairs_u64(best_dist@, best_label@);
            proof {
                let next = new.subrange(0, j + 1);
                assert(next.drop_last() =~= new.subrange(0, j as int));
                assert(next.last() == new[j as int]);
                lemma_selected(before, new.subrange(0, j as int));
                assert(selected(before, next) == inserted(now, new[j as int]));
            }
            if dists[j] < threshold {
                insert_best_u64(
                    dists[j],
                    self.blocks.labels[at * BLOCK_RECORDS + j],
                    best_dist,
                    best_label,
                );
            }
            j = j + 1;
        }
        proof {
            assert(new.subrange(0, places as int) =~= new);
            lemma_next_block(data, n, query@, start, c, b, new);
        }
    }

    /// Looks at a cluster. `true` if the budget was used up.
    fn scan_cluster(
        &self,
        cluster_id: usize,
        query: &[i16; DIMS],
        best_dist: &mut [u64; K],
        best_label: &mut [u8; K],
        budget: &mut Budget,
    ) -> (r: bool)
        requires
            self.wf(),
            cluster_id < self.file.cluster_count,
            ordered(pairs_u64(old(best_dist)@, old(best_label)@)),
            old(budget).is_open(),
        ensures
            final(budget).continues(*old(budget)),
            final(budget).used_up() == r,
            ({
                let data = self.file.data@;
                let n = self.file.cluster_count as int;
                let c = cluster_id as int;
                let best = pairs_u64(old(best_dist)@, old(best_label)@);
                let now = pairs_u64(final(best_dist)@, final(best_label)@);
                let asked = final(budget).asked() - old(budget).asked();
                if r {
                    &&& 0 < asked <= cluster_questions(data, n, c)
                    &&& now == after_blocks(data, n, query@, best, c, (64 * (asked - 1)) as nat)
                } else {
                    &&& asked == cluster_questions(data, n, c)
                    &&& now == after_cluster(data, n, query@, best, c)
                }
            }),
    {
        let ghost data = self.file.data@;
        let ghost n = self.file.cluster_count as int;
        let ghost c = cluster_id as int;
        let ghost start = pairs_u64(best_dist@, best_label@);
        let first: usize = self.blocks.offsets[cluster_id] as usize;
        let end: usize = self.blocks.offsets[cluster_id + 1] as usize;
        let size: usize = self.file.cluster_len(cluster_id);
        assert(cluster_candidates(data, n, query@, c, 0) =~= Seq::empty());
        let mut at: usize = first;
        while at < end
            invariant
                self.wf(),
                data == self.file.data@,
                n == self.file.cluster_count,
                c == cluster_id < n,
                ordered(start),
                start == pairs_u64(old(best_dist)@, old(best_label)@),
                first == blocks_before(data, n, c as nat),
                end == first + blocks_of(data, n, c),
                size == cluster_size(data, n, c),
                first <= at <= end,
                !budget.used_up(),
                budget.continues(*old(budget)),
                budget.asked() == old(budget).asked() + (at - first + 63) / 64,
                pairs_u64(best_dist@, best_label@) == after_blocks(
                    data,
                    n,
                    query@,
                    start,
                    c,
                    (at - first) as nat,
                ),
            decreases end - at,
        {
            if (at - first) % BLOCKS_PER_QUESTION == 0 {
                if budget.ask() {
                    assert(64 * ((at - first + 63) / 64) == at - first);
                    return true;
                }
            }
            let rest: usize = size - BLOCK_RECORDS * (at - first);
            self.offer_block(
                at,
                if rest < BLOCK_RECORDS {
                    rest
                } else {
                    BLOCK_RECORDS
                },
                query,
                best_dist,
                best_label,
                Ghost(c),
                Ghost((at - first) as nat),
                Ghost(start),
            );
            at = at + 1;
        }
        false
    }

    /// Ranks the clusters by the distances of their centroids.
    fn rank_clusters(&self, vector: &Vector) -> (ids: [usize; MAX_IVF_NPROBE])
        requires
            self.wf(),
        ensures
            ids@ == ranking(
                self.file.data@,
                vector@,
                self.full_nprobe as int,
                self.file.cluster_count as nat,
            ).ids,
            forall|i: int| 0 <= i < MAX_IVF_NPROBE ==> #[trigger] ids@[i] < self.file.cluster_count,
    {
        let mut dists: [Single; MAX_IVF_NPROBE] = [Single::from_bits(INFINITY_BITS);MAX_IVF_NPROBE];
        let mut ids: [usize; MAX_IVF_NPROBE] = [0;MAX_IVF_NPROBE];
        let ghost data = self.file.data@;
        let ghost limit = self.full_nprobe as int;
        proof {
            assert(dists@ =~= ranking(data, vector@, limit, 0).dists);
            assert(ids@ =~= ranking(data, vector@, limit, 0).ids);
        }
        let mut c: usize = 0;
        while c < self.file.cluster_count
            invariant
                self.wf(),
                c <= self.file.cluster_count,
                data == self.file.data@,
                limit == self.full_nprobe,
                (Ranking { dists: dists@, ids: ids@ }) == ranking(data, vector@, limit, c as nat),
                forall|i: int|
                    0 <= i < MAX_IVF_NPROBE ==> #[trigger] ids@[i] < self.file.cluster_count,
            decreases self.file.cluster_count - c,
        {
            let ghost old_ranking = Ranking { dists: dists@, ids: ids@ };
            let dist: Single = self.file.centroid_distance(vector, c);
            insert_best_cluster(dist, c, self.full_nprobe, &mut dists, &mut ids);
            proof {
                lemma_ranked_ids(old_ranking, dist, c, limit, self.file.cluster_count as int);
                assert(ids@ == ranked(old_ranking, dist, c, limit).ids);
            }
            c = c + 1;
        }
        ids
    }

    /// Looks at the clusters in places `from` to `to` of a ranking. `true` if the budget was
    /// used up.
    fn probe(
        &self,
        ids: &[usize; MAX_IVF_NPROBE],
        from: usize,
        to: usize,
        query: &[i16; DIMS],
        best_dist: &mut [u64; K],
        best_label: &mut [u8; K],
        visited: &mut Vec<bool>,
        budget: &mut Budget,
    ) -> (r: bool)
        requires
            self.wf(),
            from <= to <= MAX_IVF_NPROBE,
            forall|i: int| 0 <= i < MAX_IVF_NPROBE ==> #[trigger] ids@[i] < self.file.cluster_count,
            old(visited)@.len() == self.file.cluster_count,
            ordered(pairs_u64(old(best_dist)@, old(best_label)@)),
            old(budget).is_open(),
        ensures
            final(budget).continues(*old(budget)),
            final(budget).used_up() == r,
            ({
                let data = self.file.data@;
                let n = self.file.cluster_count as int;
                let probes = ids@.subrange(from as int, to as int);
                let best = pairs_u64(old(best_dist)@, old(best_label)@);
                let now = pairs_u64(final(best_dist)@, final(best_label)@);
                let asked = final(budget).asked() - old(budget).asked();
                if r {
                    0 < asked <= questions_in(data, n, probes)
                } else {
                    &&& asked == questions_in(data, n, probes)
                    &&& now == after_clusters(data, n, query@, best, probes)
                    &&& ordered(now)
                    &&& final(visited)@.len() == n
                    &&& forall|c: int|
                        0 <= c < n ==> #[trigger] final(visited)@[c] == (old(visited)@[c]
                            || probes.contains(c as usize))
                }
            }),
    {
        let ghost data = self.file.data@;
        let ghost n = self.file.cluster_count as int;
        let ghost all = ids@.subrange(from as int, to as int);
        let ghost start = pairs_u64(best_dist@, best_label@);
        let mut i: usize = from;
        assert(all.subrange(0, 0) =~= Seq::empty());
        while i < to
            invariant
                self.wf(),
                data == self.file.data@,
                n == self.file.cluster_count,
                from <= i <= to <= MAX_IVF_NPROBE,
                all == ids@.subrange(from as int, to as int),
                forall|k: int| 0 <= k < MAX_IVF_NPROBE ==> #[trigger] ids@[k] < n,
                start == pairs_u64(old(best_dist)@, old(best_label)@),
                visited@.len() == n,
                forall|c: int|
                    0 <= c < n ==> #[trigger] visited@[c] == (old(visited)@[c] || all.subrange(
                        0,
                        i - from,
                    ).contains(c as usize)),
                ordered(pairs_u64(best_dist@, best_label@)),
                pairs_u64(best_dist@, best_label@) == after_clusters(
                    data,
                    n,
                    query@,
                    start,
                    all.subrange(0, i - from),
                ),
                budget.continues(*old(budget)),
                !budget.used_up(),
                budget.asked() == old(budget).asked() + questions_in(
                    data,
                    n,
                    all.subrange(0, i - from),
                ),
            decreases to - i,
        {
            let id: usize = ids[i];
            let ghost seen = all.subrange(0, i - from);
            let ghost next = all.subrange(0, i - from + 1);
            let ghost marks = visited@;
            visited.set(id, true);
            proof {
                assert(next.drop_last() =~= seen);
                assert(next.last() == id);
                assert(next =~= seen.push(id));
                assert forall|c: int| 0 <= c < n implies #[trigger] visited@[c] == (old(
                    visited,
                )@[c] || next.contains(c as usize)) by {
                    assert(visited@[c] == (marks[c] || c == id));
                    if c == id {
                        assert(next[i - from] == c as usize);
                    }
                    if seen.contains(c as usize) {
                        let k = choose|k: int| 0 <= k < seen.len() && seen[k] == c as usize;
                        assert(next[k] == c as usize);
                    }
                    if next.contains(c as usize) {
                        let k = choose|k: int| 0 <= k < next.len() && next[k] == c as usize;
                        if k < seen.len() {
                            assert(seen[k] == c as usize);
                        }
                    }
                }
                lemma_selected(
                    pairs_u64(best_dist@, best_label@),
                    cluster_candidates(data, n, query@, id as int, cluster_size(data, n, id as int)),
                );
            }
            let ghost asked = budget.asked();
            let used_up: bool = self.scan_cluster(id, query, best_dist, best_label, budget);
            if used_up {
                proof {
                    lemma_questions_in(data, n, all, i - from + 1);
                }
                return true;
            }
            i = i + 1;
        }
        assert(all.subrange(0, to - from) =~= all);
        false
    }

    /// Looks at every cluster that has not been visited and whose box is not farther away
    /// than the last neighbour. `true` if the budget was used up.
    fn repair_clusters(
        &self,
        vector: &Vector,
        query: &[i16; DIMS],
        best_dist: &mut [u64; K],
        best_label: &mut [u8; K],
        visited: &Vec<bool>,
        budget: &mut Budget,
    ) -> (r: bool)
        requires
            self.wf(),
            query@ == ivf_query(vector@),
            visited@.len() == self.file.cluster_count,
            forall|c: int|
                0 <= c < self.file.cluster_count ==> #[trigger] visited@[c] == is_probed(
                    self.file.data@,
                    self.plan(),
                    vector@,
                    c as usize,
                ),
            ordered(pairs_u64(old(best_dist)@, old(best_label)@)),
            pairs_u64(old(best_dist)@, old(best_label)@) == probed_best(
                self.file.data@,
                self.plan(),
                vector@,
            ),
            old(budget).is_open(),
        ensures
            final(budget).continues(*old(budget)),
            final(budget).used_up() == r,
            ({
                let data = self.file.data@;
                let n = self.file.cluster_count as nat;
                let asked = final(budget).asked() - old(budget).asked();
                if r {
                    0 < asked <= repair_questions(data, self.plan(), vector@, n)
                } else {
                    &&& asked == repair_questions(data, self.plan(), vector@, n)
                    &&& pairs_u64(final(best_dist)@, final(best_label)@) == repaired_best(
                        data,
                        self.plan(),
                        vector@,
                        n,
                    )
                }
            }),
    {
        let ghost data = self.file.data@;
        let ghost n = self.file.cluster_count as int;
        let ghost plan = self.plan();
        let mut c: usize = 0;
        while c < self.file.cluster_count
            invariant
                self.wf(),
                data == self.file.data@,
                n == self.file.cluster_count,
                plan == self.plan(),
                0 <= c <= n,
                query@ == ivf_query(vector@),
                visited@.len() == n,
                forall|i: int|
                    0 <= i < n ==> #[trigger] visited@[i] == is_probed(
                        data,
                        plan,
                        vector@,
                        i as usize,
                    ),
                ordered(pairs_u64(best_dist@, best_label@)),
                pairs_u64(best_dist@, best_label@) == repaired_best(data, plan, vector@, c as nat),
                budget.continues(*old(budget)),
                !budget.used_up(),
                budget.asked() == old(budget).asked() + repair_questions(
                    data,
                    plan,
                    vector@,
                    c as nat,
                ),
            decreases n - c,
        {
            let ghost best = pairs_u64(best_dist@, best_label@);
            let bound: u64 = self.file.bbox_lower_bound_f32(query, c);
            assert(best.last().0 == best_dist@[K - 1]);
            if !visited[c] && bound <= best_dist[K - 1] {
                proof {
                    assert(needs_repair(data, plan, vector@, best, c as int));
                    lemma_selected(
                        best,
                        cluster_candidates(
                            data,
                            n,
                            query@,
                            c as int,
                            cluster_size(data, n, c as int),
                        ),
                    );
                }
                if self.scan_cluster(c, query, best_dist, best_label, budget) {
                    proof {
                        lemma_repair_questions(data, plan, vector@, (c + 1) as nat, n as nat);
                    }
                    return true;
                }
            }
            c = c + 1;
        }
        false
    }

    /// Searches the index for the nearest neighbours of a vector.
    pub fn fraud_score(&self, vector: &Vector, budget: &mut Budget) -> (r: SearchResult)
        requires
            self.wf(),
            old(budget).is_fresh(),
        ensures
            final(budget).continues(*old(budget)),
            final(budget).used_up() ==> r == SearchResult::TimedOut && 0 < final(budget).asked()
                <= all_questions(
                self.file.data@,
                self.plan(),
                vector@,
            ),
            !final(budget).used_up() ==> r == SearchResult::Score(
                ivf_score(self.file.data@, self.plan(), vector@),
            ) && final(budget).asked() == all_questions(self.file.data@, self.plan(), vector@),
    {
        if self.file.count == 0 {
            return SearchResult::Score(Single::from_bits(ZERO));
        }
        let ghost data = self.file.data@;
        let ghost n = self.file.cluster_count as int;
        let ghost plan = self.plan();
        let query = quantize_i16(vector);
        assert(query@ =~= ivf_query(vector@));
        let mut best_dist: [u64; K] = [u64::MAX;K];
        let mut best_label: [u8; K] = [0;K];
        assert(pairs_u64(best_dist@, best_label@) =~= vacant(u64::MAX as int));
        let ids = self.rank_clusters(vector);
        let mut visited: Vec<bool> = vec![false;self.file.cluster_count];
        if self.probe(
            &ids,
            0,
            self.nprobe,
            &query,
            &mut best_dist,
            &mut best_label,
            &mut visited,
            budget,
        ) {
            return SearchResult::TimedOut;
        }
        assert(pairs_u64(best_dist@, best_label@) == first_best(data, plan, vector@));
        assert(labels_of(pairs_u64(best_dist@, best_label@)) =~= best_label@);
        let frauds: usize = fraud_count(&best_label);
        if self.full_nprobe > self.nprobe && (frauds == 2 || frauds == 3) {
            if self.probe(
                &ids,
                self.nprobe,
                self.full_nprobe,
                &query,
                &mut best_dist,
                &mut best_label,
                &mut visited,
                budget,
            ) {
                return SearchResult::TimedOut;
            }
        } else {
            assert(more_probes(data, plan, vector@) =~= Seq::empty());
        }
        assert(pairs_u64(best_dist@, best_label@) == probed_best(data, plan, vector@));
        if self.repair {
            if self.repair_clusters(
                vector,
                &query,
                &mut best_dist,
                &mut best_label,
                &visited,
                budget,
            ) {
                return SearchResult::TimedOut;
            }
        }
        assert(labels_of(pairs_u64(best_dist@, best_label@)) =~= best_label@);
        SearchResult::Score(score_from_labels(self.file.count, &best_label))
    }
}

/// A cluster is ranked by its distance: before those that are farther, and behind those that are
/// not, of which none changes its place; the last one drops out. One as far as the last is left
/// out. A distance that is no number takes the last place.
pub proof fn law_clusters_are_ranked_by_distance(
    r: Ranking,
    dist: Single,
    id: usize,
    limit: int,
    p: int,
)
    requires
        1 <= limit <= r.dists.len(),
        r.ids.len() == r.dists.len(),
        0 <= p < limit,
    ensures
        ({
            let after = ranked(r, dist, id, limit);
            &&& dist.is_nan() ==> after.dists == r.dists.update(limit - 1, dist) && after.ids
                == r.ids.update(limit - 1, id)
            &&& !dist.is_nan() && !r.dists[limit - 1].is_nan() && dist.rank() >= r.dists[limit
                - 1].rank() ==> after == r
            &&& (forall|i: int| p <= i < limit ==> dist.less(#[trigger] r.dists[i])) && (p > 0
                ==> !dist.less(r.dists[p - 1])) ==> ({
                &&& after.dists[p] == dist && after.ids[p] == id
                &&& forall|i: int|
                    0 <= i < p ==> #[trigger] after.dists[i] == r.dists[i] && after.ids[i]
                        == r.ids[i]
                &&& forall|i: int|
                    p < i < limit ==> #[trigger] after.dists[i] == r.dists[i - 1] && after.ids[i]
                        == r.ids[i - 1]
            })
        }),
{
    reveal(ranked);
    let last = limit - 1;
    if dist.is_nan() {
        assert(shifted_in(r.dists, last, last, dist) =~= r.dists.update(last, dist));
        assert(shifted_in(r.ids, last, last, id) =~= r.ids.update(last, id));
    }
    if (forall|i: int| p <= i < limit ==> dist.less(#[trigger] r.dists[i])) && (p > 0
        ==> !dist.less(r.dists[p - 1])) {
        assert(dist.less(r.dists[last]));
        lemma_slot_is(r.dists, dist, p as nat, last as nat);
    }
}

proof fn lemma_slot_is(dists: Seq<Single>, dist: Single, p: nat, k: nat)
    requires
        p <= k < dists.len(),
        forall|i: int| p <= i < k ==> dist.less(#[trigger] dists[i]),
        p > 0 ==> !dist.less(dists[p - 1]),
    ensures
        rank_slot(dists, dist, k) == p,
    decreases k,
{
    if k > p {
        assert(dist.less(dists[k - 1]));
        lemma_slot_is(dists, dist, p, (k - 1) as nat);
    }
}

} // verus!

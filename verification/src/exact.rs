//! Search by looking at every record.

use vstd::prelude::*;

use crate::budget::Budget;
use crate::distance::{byte_distance, squared_distance, squared_distance_pair_avx2};
use crate::index::SearchResult;
use crate::layout::{DIMS, EXACT_HEADER_LEN, EXACT_LABEL_OFFSET, EXACT_RECORD_LEN};
use crate::single::{Single, ZERO};
use crate::topk::{
    at_distance, by_distance, insert_best, labels_of, law_selected_are_the_nearest, ordered,
    pairs_u32, score_from_labels, selected, vacant, vote, Candidate, K,
};
use crate::vector::{quantize, quantized, Vector};

verus! {

/// The budget is asked once in so many records.
pub const RECORDS_PER_QUESTION: usize = 0x4000;

/// A query as a record without a label.
pub open spec fn exact_query(vector: Seq<Single>) -> Seq<u8> {
    Seq::new(DIMS as nat, |d: int| quantized(vector[d]) as u8) + seq![0u8, 0u8]
}

/// The record `i` of an exact index.
pub open spec fn exact_record(data: Seq<u8>, i: int) -> Seq<u8> {
    data.subrange(
        EXACT_HEADER_LEN + EXACT_RECORD_LEN * i,
        EXACT_HEADER_LEN + EXACT_RECORD_LEN * i + EXACT_RECORD_LEN,
    )
}

/// The first `n` records of an exact index, as candidates for a query.
pub open spec fn exact_candidates(data: Seq<u8>, q: Seq<u8>, n: nat) -> Seq<Candidate> {
    Seq::new(
        n,
        |i: int|
            (
                byte_distance(q, exact_record(data, i), DIMS as nat),
                exact_record(data, i)[EXACT_LABEL_OFFSET as int],
            ),
    )
}

/// The nearest of the first `n` records.
pub open spec fn exact_best(data: Seq<u8>, q: Seq<u8>, n: nat) -> Seq<Candidate> {
    selected(vacant(u32::MAX as int), exact_candidates(data, q, n))
}

/// The score that an exact index of `count` records gives a vector.
pub open spec fn exact_score(data: Seq<u8>, count: nat, vector: Seq<Single>) -> Single {
    if count == 0 {
        Single::from_bits(ZERO)
    } else {
        vote(count, labels_of(exact_best(data, exact_query(vector), count)))
    }
}

/// How often a search asks its budget until it has seen `n` records.
#[verifier::opaque]
pub open spec fn questions_for(n: nat) -> nat {
    (n + RECORDS_PER_QUESTION as nat - 1) as nat / RECORDS_PER_QUESTION as nat
}

/// An exact index in memory.
pub struct ExactIndex<'a> {
    pub data: &'a [u8],
    pub count: usize,
}

proof fn lemma_next_candidate(data: Seq<u8>, q: Seq<u8>, n: nat)
    ensures
        exact_best(data, q, n + 1) == crate::topk::inserted(
            exact_best(data, q, n),
            (
                byte_distance(q, exact_record(data, n as int), DIMS as nat),
                exact_record(data, n as int)[EXACT_LABEL_OFFSET as int],
            ),
        ),
{
    assert(exact_candidates(data, q, n + 1).drop_last() =~= exact_candidates(data, q, n));
}

/// A question is asked at the first record, and at every 16384th from there.
proof fn lemma_questions(i: nat, step: nat, n: nat)
    requires
        step == 1 || step == 4 && i % 4 == 0,
        i + step <= n,
    ensures
        questions_for(i + step) == questions_for(i) + if i % RECORDS_PER_QUESTION as nat == 0 {
            1nat
        } else {
            0
        },
        questions_for(i + step) <= questions_for(n),
{
    reveal(questions_for);
}

proof fn lemma_no_questions()
    ensures
        questions_for(0) == 0,
{
    reveal(questions_for);
}

/// A distance looks at the components only.
proof fn lemma_byte_distance_same(q: Seq<u8>, a: Seq<u8>, b: Seq<u8>, n: nat)
    requires
        forall|i: int| 0 <= i < n ==> a[i] == b[i],
    ensures
        byte_distance(q, a, n) == byte_distance(q, b, n),
    decreases n,
{
    if n > 0 {
        lemma_byte_distance_same(q, a, b, (n - 1) as nat);
    }
}

/// A query as a record without a label.
pub fn padded_quantize(vector: &Vector) -> (r: [u8; EXACT_RECORD_LEN])
    ensures
        r@ == exact_query(vector@),
{
    let q = quantize(vector);
    let mut padded: [u8; EXACT_RECORD_LEN] = [0;EXACT_RECORD_LEN];
    let mut d: usize = 0;
    while d < DIMS
        invariant
            d <= DIMS,
            forall|j: int| 0 <= j < DIMS ==> #[trigger] q@[j] == quantized(vector@[j]),
            forall|j: int| 0 <= j < d ==> padded@[j] == q@[j],
            forall|j: int| d <= j < EXACT_RECORD_LEN ==> padded@[j] == 0,
        decreases DIMS - d,
    {
        padded[d] = q[d];
        d = d + 1;
    }
    proof {
        assert forall|j: int| 0 <= j < DIMS implies padded@[j] == quantized(vector@[j]) as u8 by {
            assert(q@[j] == quantized(vector@[j]));
        }
        assert(padded@ =~= exact_query(vector@));
    }
    padded
}

impl<'a> ExactIndex<'a> {
    /// The data hold a header and `count` records.
    pub open spec fn wf(self) -> bool {
        self.data@.len() == EXACT_HEADER_LEN + self.count * EXACT_RECORD_LEN
    }

    /// Where record `idx` begins.
    fn offset(&self, idx: usize) -> (r: usize)
        requires
            self.wf(),
            idx <= self.count,
        ensures
            r == EXACT_HEADER_LEN + EXACT_RECORD_LEN * idx,
            r + EXACT_RECORD_LEN * (self.count - idx) == self.data@.len() <= usize::MAX,
    {
        let len: usize = self.data.len();
        EXACT_HEADER_LEN + EXACT_RECORD_LEN * idx
    }

    /// Looks at record `idx`.
    fn offer_one(
        &self,
        query: &[u8; EXACT_RECORD_LEN],
        idx: usize,
        best_dist: &mut [u32; K],
        best_label: &mut [u8; K],
    )
        requires
            self.wf(),
            idx < self.count,
            query@[14] == 0,
            query@[15] == 0,
            pairs_u32(old(best_dist)@, old(best_label)@) == exact_best(
                self.data@,
                query@,
                idx as nat,
            ),
        ensures
            pairs_u32(final(best_dist)@, final(best_label)@) == exact_best(
                self.data@,
                query@,
                (idx + 1) as nat,
            ),
    {
        let offset: usize = self.offset(idx);
        let record: &[u8] = &self.data[offset..offset + EXACT_RECORD_LEN];
        proof {
            assert(record@ =~= exact_record(self.data@, idx as int));
            lemma_next_candidate(self.data@, query@, idx as nat);
        }
        let dist: u32 = squared_distance(query, record);
        insert_best(dist, record[EXACT_LABEL_OFFSET], best_dist, best_label);
    }

    /// Looks at records `idx` and `idx + 1`.
    fn offer_two(
        &self,
        query: &[u8; EXACT_RECORD_LEN],
        idx: usize,
        best_dist: &mut [u32; K],
        best_label: &mut [u8; K],
    )
        requires
            self.wf(),
            idx + 1 < self.count,
            query@[14] == 0,
            query@[15] == 0,
            pairs_u32(old(best_dist)@, old(best_label)@) == exact_best(
                self.data@,
                query@,
                idx as nat,
            ),
        ensures
            pairs_u32(final(best_dist)@, final(best_label)@) == exact_best(
                self.data@,
                query@,
                (idx + 2) as nat,
            ),
    {
        let offset: usize = self.offset(idx);
        let pair: &[u8] = &self.data[offset..offset + 2 * EXACT_RECORD_LEN];
        let dists: [u32; 2] = squared_distance_pair_avx2(query, pair);
        proof {
            let a = exact_record(self.data@, idx as int);
            let b = exact_record(self.data@, idx + 1);
            assert forall|i: int| 0 <= i < EXACT_RECORD_LEN implies pair@[i] == a[i] by {}
            assert forall|i: int|
                0 <= i < EXACT_RECORD_LEN implies pair@[EXACT_RECORD_LEN + i] == b[i] by {}
            lemma_byte_distance_same(query@, pair@, a, DIMS as nat);
            lemma_byte_distance_same(
                query@,
                pair@.subrange(EXACT_RECORD_LEN as int, pair@.len() as int),
                b,
                DIMS as nat,
            );
            lemma_next_candidate(self.data@, query@, idx as nat);
            lemma_next_candidate(self.data@, query@, (idx + 1) as nat);
        }
        insert_best(dists[0], pair[EXACT_LABEL_OFFSET], best_dist, best_label);
        insert_best(dists[1], pair[EXACT_RECORD_LEN + EXACT_LABEL_OFFSET], best_dist, best_label);
    }

    /// Searches record by record.
    pub fn fraud_score_one_at_a_time(&self, vector: &Vector, budget: &mut Budget) -> (r:
        SearchResult)
        requires
            self.wf(),
            old(budget).is_fresh(),
        ensures
            final(budget).continues(*old(budget)),
            final(budget).used_up() ==> r == SearchResult::TimedOut && 0 < final(budget).asked()
                <= questions_for(self.count as nat),
            !final(budget).used_up() ==> r == SearchResult::Score(
                exact_score(self.data@, self.count as nat, vector@),
            ) && final(budget).asked() == questions_for(self.count as nat),
    {
        proof {
            lemma_no_questions();
        }
        if self.count == 0 {
            return SearchResult::Score(Single::from_bits(ZERO));
        }
        let query = padded_quantize(vector);
        let mut best_dist: [u32; K] = [u32::MAX;K];
        let mut best_label: [u8; K] = [0;K];
        assert(pairs_u32(best_dist@, best_label@) =~= exact_best(self.data@, query@, 0));
        let mut idx: usize = 0;
        while idx < self.count
            invariant
                self.wf(),
                0 <= idx <= self.count,
                query@ == exact_query(vector@),
                budget.continues(*old(budget)),
                !budget.used_up(),
                budget.asked() == questions_for(idx as nat),
                pairs_u32(best_dist@, best_label@) == exact_best(self.data@, query@, idx as nat),
            decreases self.count - idx,
        {
            proof {
                lemma_questions(idx as nat, 1, self.count as nat);
            }
            if idx % RECORDS_PER_QUESTION == 0 {
                if budget.ask() {
                    return SearchResult::TimedOut;
                }
            }
            self.offer_one(&query, idx, &mut best_dist, &mut best_label);
            idx = idx + 1;
        }
        assert(labels_of(pairs_u32(best_dist@, best_label@)) =~= best_label@);
        SearchResult::Score(score_from_labels(self.count, &best_label))
    }

    /// Searches four records at a time, then two, then one. The budget is asked among the
    /// fours only.
    #[verifier::rlimit(40)]
    pub fn fraud_score_avx2(&self, vector: &Vector, budget: &mut Budget) -> (r: SearchResult)
        requires
            self.wf(),
            old(budget).is_fresh(),
        ensures
            final(budget).continues(*old(budget)),
            final(budget).used_up() ==> r == SearchResult::TimedOut && 0 < final(budget).asked()
                <= questions_for((self.count / 4 * 4) as nat),
            !final(budget).used_up() ==> r == SearchResult::Score(
                exact_score(self.data@, self.count as nat, vector@),
            ) && final(budget).asked() == questions_for((self.count / 4 * 4) as nat),
    {
        proof {
            lemma_no_questions();
        }
        if self.count == 0 {
            return SearchResult::Score(Single::from_bits(ZERO));
        }
        let query = padded_quantize(vector);
        let mut best_dist: [u32; K] = [u32::MAX;K];
        let mut best_label: [u8; K] = [0;K];
        assert(pairs_u32(best_dist@, best_label@) =~= exact_best(self.data@, query@, 0));
        let mut idx: usize = 0;
        let ghost fours = (self.count / 4 * 4) as nat;
        while self.count - idx > 3
            invariant
                self.wf(),
                0 <= idx <= self.count,
                idx % 4 == 0,
                idx <= fours,
                fours == self.count / 4 * 4,
                query@ == exact_query(vector@),
                budget.continues(*old(budget)),
                !budget.used_up(),
                budget.asked() == questions_for(idx as nat),
                pairs_u32(best_dist@, best_label@) == exact_best(self.data@, query@, idx as nat),
            decreases self.count - idx,
        {
            proof {
                lemma_questions(idx as nat, 4, fours);
            }
            if idx % RECORDS_PER_QUESTION == 0 {
                if budget.ask() {
                    return SearchResult::TimedOut;
                }
            }
            self.offer_two(&query, idx, &mut best_dist, &mut best_label);
            self.offer_two(&query, idx + 2, &mut best_dist, &mut best_label);
            idx = idx + 4;
        }
        assert(idx == fours);
        while self.count - idx > 1
            invariant
                self.wf(),
                0 <= idx <= self.count,
                query@ == exact_query(vector@),
                pairs_u32(best_dist@, best_label@) == exact_best(self.data@, query@, idx as nat),
            decreases self.count - idx,
        {
            self.offer_two(&query, idx, &mut best_dist, &mut best_label);
            idx = idx + 2;
        }
        if idx < self.count {
            self.offer_one(&query, idx, &mut best_dist, &mut best_label);
        }
        assert(labels_of(pairs_u32(best_dist@, best_label@)) =~= best_label@);
        SearchResult::Score(score_from_labels(self.count, &best_label))
    }
}

pub proof fn lemma_byte_distance_bound(q: Seq<u8>, c: Seq<u8>, n: nat)
    ensures
        0 <= byte_distance(q, c, n) <= 65_025 * n,
    decreases n,
{
    if n > 0 {
        lemma_byte_distance_bound(q, c, (n - 1) as nat);
        crate::distance::lemma_square(q[n - 1] - c[n - 1], 255);
    }
}

/// Exact search finds the nearest records of all: its entries are the first five of the
/// records in the order of their distances, of those at one distance the ones that come
/// first in the file.
pub proof fn law_exact_search_finds_the_nearest(data: Seq<u8>, count: nat, vector: Seq<Single>)
    ensures
        ({
            let q = exact_query(vector);
            let candidates = exact_candidates(data, q, count);
            &&& exact_best(data, q, count).len() == K
            &&& forall|p: int|
                0 <= p < K ==> #[trigger] exact_best(data, q, count)[p] == if p < count {
                    by_distance(candidates)[p]
                } else {
                    (u32::MAX as int, 0u8)
                }
            &&& ordered(by_distance(candidates))
            &&& by_distance(candidates).to_multiset() == candidates.to_multiset()
            &&& forall|dist: int|
                #[trigger] at_distance(by_distance(candidates), dist) == at_distance(
                    candidates,
                    dist,
                )
        }),
{
    let q = exact_query(vector);
    let candidates = exact_candidates(data, q, count);
    assert forall|i: int| 0 <= i < candidates.len() implies (#[trigger] candidates[i]).0
        < u32::MAX by {
        lemma_byte_distance_bound(q, exact_record(data, i), DIMS as nat);
    }
    law_selected_are_the_nearest(candidates, u32::MAX as int);
}

/// A search asks its budget before it has seen a record, and once in 16384 records from
/// there on.
pub proof fn law_budget_is_asked_regularly(n: nat)
    ensures
        n <= 16_384 * questions_for(n) < n + 16_384,
{
    reveal(questions_for);
}

} // verus!

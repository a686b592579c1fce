//! What the service answers, from the bytes of a request to the text of its answer.

use vstd::prelude::*;
use vstd::arithmetic::power2::*;

use crate::clustered::{
    are_found, are_nearest_clusters, frauds_found, has_sound_offsets,
    law_clustered_score_is_the_share_of_fraud, probes_made, record_label, records_of_all,
};
use crate::fast_parse::request_components;
use crate::index::Index;
use crate::neighbours::{
    are_the_nearest, at_most, is_fraud_share, law_exact_score_is_the_share_of_fraud,
    sum_of_squares,
};
use crate::payload::FraudRequest;
use crate::probing::{has_finite_distances, is_plan};
use crate::scoring::{answer_text, answer_to, law_answer_says_the_share};
use crate::single::Single;
use crate::vector::{components, features_of, is_known, quantized};
use crate::written::{law_written_request_is_read_back, object_text, writes, Layout};

verus! {

/// Not more neighbours mark fraud than there are.
proof fn lemma_filter_len(five: Seq<int>, f: spec_fn(int) -> bool)
    ensures
        five.filter(f).len() <= five.len(),
    decreases five.len(),
{
    reveal(Seq::filter);
    if five.len() > 0 {
        lemma_filter_len(five.drop_last(), f);
    }
}

/// The answer to a score is that of the number of neighbours that mark fraud.
proof fn lemma_answer(index: Index, body: Seq<u8>, five: Seq<int>, label: spec_fn(int) -> u8)
    requires
        request_components(body) matches Some(vector) && is_fraud_share(
            index.score(vector),
            five,
            label,
        ),
        five.len() <= 5,
    ensures
        answer_to(index, body, false) == answer_text(
            five.filter(|i: int| label(i) == 1).len(),
        ),
        answer_to(index, body, true) == answer_text(0),
{
    let f = |i: int| label(i) == 1;
    let vector = request_components(body).unwrap();
    lemma_filter_len(five, f);
    law_answer_says_the_share(index.score(vector), five.filter(f).len());
}

/// An exact index answers a request by the five records that are nearest to it: its vector
/// and theirs are compared as bytes, component by component, and the answer says how many of
/// them are labelled 1. A search that comes to nothing is approved.
pub proof fn law_exact_index_answers_by_the_nearest(index: Index, body: Seq<u8>, vector: Seq<Single>)
    requires
        index.is_exact(),
        index.data().len() == 24 + 16 * index.count(),
        request_components(body) == Some(vector),
        vector.len() == 14,
    ensures
        exists|five: Seq<int>|
            #![trigger five.len()]
            are_the_nearest(
                five,
                index.count() as int,
                5,
                |i: int|
                    sum_of_squares(
                        |d: int| quantized(vector[d]) - index.data()[24 + 16 * i + d],
                    ),
            ) && answer_to(index, body, false) == answer_text(
                five.filter(|i: int| index.data()[24 + 16 * i + 14] == 1).len(),
            ),
        answer_to(index, body, true) == answer_text(0),
{
    let data = index.data();
    let count = index.count();
    let dist = |i: int| sum_of_squares(|d: int| quantized(vector[d]) - data[24 + 16 * i + d]);
    let label = |i: int| data[24 + 16 * i + 14];
    law_exact_score_is_the_share_of_fraud(data, count, vector);
    let five = choose|five: Seq<int>|
        #![trigger five.len()]
        are_the_nearest(five, count as int, 5, dist) && is_fraud_share(
            crate::exact::exact_score(data, count, vector),
            five,
            label,
        );
    assert(is_fraud_share(index.score(vector), five, label));
    lemma_answer(index, body, five, label);
    assert(five.filter(|i: int| label(i) == 1) == five.filter(
        |i: int| index.data()[24 + 16 * i + 14] == 1,
    )) by {
        lemma_same_filter(
            five,
            |i: int| label(i) == 1,
            |i: int| index.data()[24 + 16 * i + 14] == 1,
        );
    }
    assert(five.len() >= 0);
}

proof fn lemma_same_filter(s: Seq<int>, f: spec_fn(int) -> bool, g: spec_fn(int) -> bool)
    requires
        forall|i: int| #[trigger] f(i) == g(i),
    ensures
        s.filter(f) == s.filter(g),
    decreases s.len(),
{
    reveal(Seq::filter);
    if s.len() > 0 {
        lemma_same_filter(s.drop_last(), f, g);
        assert(f(s.last()) == g(s.last()));
    }
}

/// A clustered index answers a request by the five nearest of the records that it looks at:
/// those of the clusters whose centroids are nearest, of more of them if two or three of the
/// five nearest records there mark fraud, and with repair of further ones. A search that comes
/// to nothing is approved.
pub proof fn law_clustered_index_answers_by_the_nearest(
    index: Index,
    body: Seq<u8>,
    vector: Seq<Single>,
)
    requires
        !index.is_exact(),
        is_plan(index.plan()),
        has_sound_offsets(index.data(), index.plan().n),
        has_finite_distances(index.data(), vector, index.plan().n as nat),
        request_components(body) == Some(vector),
    ensures
        exists|ids: Seq<usize>, first: Seq<int>, five: Seq<int>|
            {
                let early = ids.take(index.plan().nprobe);
                let found = frauds_found(index.data(), index.plan().n, early, first);
                let probes = probes_made(index.plan(), found);
                &&& #[trigger] are_found(index.data(), index.plan().n, vector, ids, five)
                &&& #[trigger] are_found(
                    index.data(),
                    index.plan().n,
                    vector,
                    ids.take(index.plan().nprobe),
                    first,
                )
                &&& probes <= ids.len()
                &&& are_nearest_clusters(
                    index.data(),
                    index.plan().n,
                    vector,
                    ids.take(probes),
                )
                &&& !index.plan().repair ==> ids.len() == probes
                &&& answer_to(index, body, false) == answer_text(
                    frauds_found(
                        index.data(),
                        index.plan().n,
                        ids,
                        at_most(five, index.plan().count),
                    ),
                )
            },
        answer_to(index, body, true) == answer_text(0),
{
    let data = index.data();
    let plan = index.plan();
    let n = plan.n;
    law_clustered_score_is_the_share_of_fraud(data, plan, vector);
    let (ids, first, five) = choose|ids: Seq<usize>, first: Seq<int>, five: Seq<int>|
        {
            let early = ids.take(plan.nprobe);
            let probes = probes_made(plan, frauds_found(data, n, early, first));
            &&& #[trigger] are_found(data, n, vector, ids, five)
            &&& is_fraud_share(
                crate::ivf::ivf_score(data, plan, vector),
                at_most(five, plan.count),
                |k: int| record_label(data, n, records_of_all(data, n, ids)[k]),
            )
            &&& #[trigger] are_found(data, n, vector, ids.take(plan.nprobe), first)
            &&& probes <= ids.len()
            &&& are_nearest_clusters(data, n, vector, ids.take(probes))
            &&& !plan.repair ==> ids.len() == probes
            &&& ids.no_duplicates()
            &&& forall|p: int| 0 <= p < ids.len() ==> #[trigger] ids[p] < n
            &&& plan.count > 0 ==> records_of_all(data, n, ids).len() <= 512
                * crate::ivf::all_questions(data, plan, vector) <= records_of_all(
                data,
                n,
                ids,
            ).len() + 512 * ids.len()
        };
    let label = |k: int| record_label(data, n, records_of_all(data, n, ids)[k]);
    lemma_answer(index, body, at_most(five, plan.count), label);
    assert(are_found(index.data(), n, vector, ids, five));
    assert(are_found(index.data(), n, vector, ids.take(index.plan().nprobe), first));
}

/// A request that is written as a JSON text is answered by its vector, and what is no request
/// is approved.
pub proof fn law_written_requests_are_answered(index: Index, r: FraudRequest, w: Layout, body: Seq<u8>)
    requires
        writes(r, w),
        r.merchant.id@.len() > 0 || !is_known(r.customer.known_merchants@, r.merchant.id@),
    ensures
        request_components(object_text(w.root)) == Some(components(features_of(r))),
        request_components(body) is None ==> answer_to(index, body, false) == answer_text(0)
            && answer_to(index, body, true) == answer_text(0),
{
    law_written_request_is_read_back(r, w);
    crate::scoring::lemma_answer_text(0);
}

} // verus!

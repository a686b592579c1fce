//! The score as the share of fraud among the five nearest records.

use vstd::prelude::*;
use vstd::arithmetic::power2::*;

use crate::distance::byte_distance;
use crate::exact::{exact_candidates, exact_query, exact_record, exact_score};
use crate::measures::{lemma_closest_fraction, lemma_closest_zero};
use crate::precision::is_closest;
use crate::rounding::lemma_parts;
use crate::single::{Single, ZERO};
use crate::topk::{
    frauds, inserted, labels_of, lemma_selected, lemma_slot, ordered, selected, slot, vacant, vote,
    K,
};
use crate::vector::quantized;

verus! {

/// Whether record `i` comes before record `j`: it is nearer, or as near and earlier.
pub open spec fn precedes(dist: spec_fn(int) -> int, i: int, j: int) -> bool {
    dist(i) < dist(j) || (dist(i) == dist(j) && i < j)
}

/// Whether `order` names the nearest of `count`, the nearest first: as many as `most`, or all
/// where there are fewer.
pub open spec fn are_the_nearest(
    order: Seq<int>,
    count: int,
    most: int,
    dist: spec_fn(int) -> int,
) -> bool {
    &&& order.len() == if count < most {
        count
    } else {
        most
    }
    &&& forall|p: int| 0 <= p < order.len() ==> 0 <= #[trigger] order[p] < count
    &&& forall|p: int, q: int|
        0 <= p < q < order.len() ==> #[trigger] precedes(dist, order[p], order[q])
    &&& forall|p: int, i: int|
        0 <= p < order.len() && 0 <= i < count && !order.contains(i) ==> #[trigger] precedes(
            dist,
            order[p],
            i,
        )
}

/// Whether a score is the share of fraud among five neighbours: the number closest to a
/// fifth for each of them that is labelled 1.
pub open spec fn is_fraud_share(
    score: Single,
    neighbours: Seq<int>,
    label: spec_fn(int) -> u8,
) -> bool {
    is_closest(
        score,
        neighbours.filter(|i: int| label(i) == 1).len() * pow2(149) as int,
        5,
    )
}

/// The sum of the squares of fourteen differences.
#[verifier::opaque]
pub open spec fn sum_of_squares(f: spec_fn(int) -> int) -> int {
    f(0) * f(0) + f(1) * f(1) + f(2) * f(2) + f(3) * f(3) + f(4) * f(4) + f(5) * f(5) + f(6) * f(
        6,
    ) + f(7) * f(7) + f(8) * f(8) + f(9) * f(9) + f(10) * f(10) + f(11) * f(11) + f(12) * f(12)
        + f(13) * f(13)
}

/// Candidates one after the other.
pub open spec fn all_candidates<T>(
    dist: spec_fn(int) -> int,
    label: spec_fn(int) -> T,
    n: nat,
) -> Seq<(int, T)> {
    Seq::new(n, |i: int| (dist(i), label(i)))
}

/// Whether the entries are those of the given records, and the other places vacant.
pub open spec fn are_entries<T>(
    best: Seq<(int, T)>,
    order: Seq<int>,
    dist: spec_fn(int) -> int,
    label: spec_fn(int) -> T,
    vacancy: (int, T),
) -> bool {
    &&& order.len() <= best.len()
    &&& forall|p: int|
        0 <= p < best.len() ==> #[trigger] best[p] == if p < order.len() {
            (dist(order[p]), label(order[p]))
        } else {
            vacancy
        }
}

/// The entries after `n` candidates are the nearest of them.
pub proof fn lemma_order<T>(
    start: Seq<(int, T)>,
    dist: spec_fn(int) -> int,
    label: spec_fn(int) -> T,
    vacancy: (int, T),
    n: nat,
) -> (five: Seq<int>)
    requires
        start.len() > 0,
        forall|i: int| 0 <= i < start.len() ==> #[trigger] start[i] == vacancy,
        forall|i: int| 0 <= i < n ==> #[trigger] dist(i) < vacancy.0,
    ensures
        are_the_nearest(five, n as int, start.len() as int, dist),
        selected(start, all_candidates(dist, label, n)).len() == start.len(),
        are_entries(
            selected(start, all_candidates(dist, label, n)),
            five,
            dist,
            label,
            vacancy,
        ),
        n <= start.len() ==> forall|i: int| 0 <= i < n ==> #[trigger] five.contains(i),
    decreases n,
{
    let all = all_candidates(dist, label, n);
    if n == 0 {
        let five = Seq::<int>::empty();
        assert(all =~= Seq::empty());
        five
    } else {
        let m = (n - 1) as nat;
        let old = lemma_order(start, dist, label, vacancy, m);
        assert(all.drop_last() =~= all_candidates(dist, label, m));
        let best = selected(start, all.drop_last());
        let now = selected(start, all);
        lemma_selected(start, all.drop_last());
        let x = m as int;
        let c = (dist(x), label(x));
        assert(all.last() == c);
        assert(now == inserted(best, c));
        lemma_next_order(dist, label, vacancy, m, old, best)
    }
}

/// One more candidate.
proof fn lemma_next_order<T>(
    dist: spec_fn(int) -> int,
    label: spec_fn(int) -> T,
    vacancy: (int, T),
    m: nat,
    old: Seq<int>,
    best: Seq<(int, T)>,
) -> (five: Seq<int>)
    requires
        best.len() > 0,
        dist(m as int) < vacancy.0,
        are_the_nearest(old, m as int, best.len() as int, dist),
        are_entries(best, old, dist, label, vacancy),
        ordered(best),
        m <= best.len() ==> forall|i: int| 0 <= i < m ==> #[trigger] old.contains(i),
    ensures
        are_the_nearest(five, (m + 1) as int, best.len() as int, dist),
        are_entries(
            inserted(best, (dist(m as int), label(m as int))),
            five,
            dist,
            label,
            vacancy,
        ),
        inserted(best, (dist(m as int), label(m as int))).len() == best.len(),
        m < best.len() ==> forall|i: int| 0 <= i <= m ==> #[trigger] five.contains(i),
{
    let x = m as int;
    let c = (dist(x), label(x));
    let now = inserted(best, c);
    let k = best.len() as int;
    let last = k - 1;
    if c.0 >= best[last].0 {
        assert(old.len() == k);
        assert forall|p: int, i: int|
            0 <= p < k && 0 <= i < m + 1 && !old.contains(i) implies #[trigger] precedes(
            dist,
            old[p],
            i,
        ) by {
            if i == m {
                assert(best[p].0 <= best[last].0);
                assert(best[p].0 == dist(old[p]));
            }
        }
        old
    } else {
        let s = slot(best, c.0, last as nat) as int;
        lemma_slot(best, c.0, last as nat);
        let kept = if old.len() < k {
            old.len() as int
        } else {
            last
        };
        if s > 0 {
            assert(best[s - 1].0 <= c.0);
        }
        assert(s <= kept);
        let five = old.subrange(0, s).push(x) + old.subrange(s, kept);
        assert(five.len() == kept + 1);
        assert(now =~= best.subrange(0, s).push(c) + best.subrange(s, last));
        assert forall|p: int| 0 <= p < k implies #[trigger] now[p] == if p < five.len() {
            (dist(five[p]), label(five[p]))
        } else {
            vacancy
        } by {
            if p < s {
                assert(now[p] == best[p] && five[p] == old[p]);
            } else if p > s {
                assert(now[p] == best[p - 1]);
                if p < five.len() {
                    assert(five[p] == old[p - 1]);
                }
            }
        }
        assert forall|p: int| 0 <= p < five.len() implies 0 <= #[trigger] five[p] < m + 1 by {
            if p < s {
                assert(five[p] == old[p]);
            } else if p > s {
                assert(five[p] == old[p - 1]);
            }
        }
        assert forall|p: int| 0 <= p < s implies precedes(dist, #[trigger] old[p], x) by {
            assert(best[p].0 <= best[s - 1].0);
            assert(best[p].0 == dist(old[p]));
        }
        assert forall|p: int| s <= p < old.len() implies precedes(dist, x, #[trigger] old[p]) by {
            assert(best[p].0 == dist(old[p]));
            if p < last {
                assert(c.0 < best[p].0);
            }
        }
        assert forall|p: int, q: int| 0 <= p < q < five.len() implies #[trigger] precedes(
            dist,
            five[p],
            five[q],
        ) by {
            let a = if p < s {
                p
            } else {
                p - 1
            };
            let b = if q < s {
                q
            } else {
                q - 1
            };
            if p != s && q != s {
                assert(five[p] == old[a] && five[q] == old[b]);
                assert(precedes(dist, old[a], old[b]));
            } else if p == s {
                assert(five[q] == old[b]);
            } else {
                assert(five[p] == old[a]);
            }
        }
        assert forall|i: int| old.contains(i) && !five.contains(i) implies old.len() == k && i
            == old[last] by {
            let j = choose|j: int| 0 <= j < old.len() && old[j] == i;
            if j < s {
                assert(five[j] == i);
            } else if j < kept {
                assert(five[j + 1] == i);
            }
        }
        assert(five[s] == x);
        assert forall|p: int, i: int|
            0 <= p < five.len() && 0 <= i < m + 1 && !five.contains(i) implies #[trigger] precedes(
            dist,
            five[p],
            i,
        ) by {
            assert(i != x);
            let a = if p < s {
                p
            } else {
                p - 1
            };
            if old.contains(i) {
                assert(i == old[last]);
                if p != s {
                    assert(five[p] == old[a]);
                    assert(precedes(dist, old[a], old[last]));
                }
            } else {
                assert(old.len() == k);
                if p != s {
                    assert(five[p] == old[a]);
                    assert(precedes(dist, old[a], i));
                } else {
                    assert(precedes(dist, old[last], i));
                    assert(precedes(dist, x, old[last]));
                }
            }
        }
        if m < k {
            assert forall|i: int| 0 <= i <= m implies #[trigger] five.contains(i) by {
                if i < m {
                    assert(old.contains(i));
                    assert(old.len() < k);
                }
            }
        }
        five
    }
}

/// The frauds among the labels are the neighbours that are labelled 1.
proof fn lemma_frauds_among(
    labels: Seq<u8>,
    five: Seq<int>,
    label: spec_fn(int) -> u8,
    n: nat,
)
    requires
        five.len() <= n,
        forall|p: int|
            0 <= p < n ==> #[trigger] labels[p] == if p < five.len() {
                label(five[p])
            } else {
                0u8
            },
    ensures
        frauds(labels, n) == five.filter(|i: int| label(i) == 1).len(),
    decreases n,
{
    let f = |i: int| label(i) == 1;
    reveal(Seq::filter);
    if n > 0 {
        if five.len() == n {
            let head = five.drop_last();
            lemma_frauds_among(labels, head, label, (n - 1) as nat);
            assert(labels[n - 1] == label(five.last()));
        } else {
            lemma_frauds_among(labels, five, label, (n - 1) as nat);
            assert(labels[n - 1] == 0);
        }
    }
}

/// Not more of them than there are records.
pub open spec fn at_most(order: Seq<int>, count: nat) -> Seq<int> {
    if order.len() <= count {
        order
    } else {
        order.take(count as int)
    }
}

/// The vote of the nearest of `n` candidates.
pub proof fn lemma_vote(
    dist: spec_fn(int) -> int,
    label: spec_fn(int) -> u8,
    limit: int,
    n: nat,
    count: nat,
) -> (five: Seq<int>)
    requires
        forall|i: int| 0 <= i < n ==> #[trigger] dist(i) < limit,
    ensures
        are_the_nearest(five, n as int, 5, dist),
        are_entries(
            selected(vacant(limit), all_candidates(dist, label, n)),
            five,
            dist,
            label,
            (limit, 0u8),
        ),
        selected(vacant(limit), all_candidates(dist, label, n)).len() == 5,
        is_fraud_share(
            vote(count, labels_of(selected(vacant(limit), all_candidates(dist, label, n)))),
            at_most(five, count),
            label,
        ),
        frauds(
            labels_of(selected(vacant(limit), all_candidates(dist, label, n))),
            5,
        ) == five.filter(|i: int| label(i) == 1).len(),
{
    let start = vacant(limit);
    let five = lemma_order(start, dist, label, (limit, 0u8), n);
    let best = selected(start, all_candidates(dist, label, n));
    let labels = labels_of(best);
    let m: nat = if count < K {
        count
    } else {
        K as nat
    };
    assert forall|p: int| 0 <= p < 5 implies #[trigger] labels[p] == if p < five.len() {
        label(five[p])
    } else {
        0u8
    } by {
        assert(labels[p] == best[p].1);
    }
    lemma_frauds_among(labels, at_most(five, count), label, m);
    lemma_frauds_among(labels, five, label, 5);
    lemma_frauds_at_most(labels, m);
    lemma_closest_fraction(frauds(labels, m), 5);
    five
}

proof fn lemma_frauds_at_most(labels: Seq<u8>, n: nat)
    ensures
        frauds(labels, n) <= n,
    decreases n,
{
    if n > 0 {
        lemma_frauds_at_most(labels, (n - 1) as nat);
    }
}

/// The distance over all components.
proof fn lemma_byte_distance(q: Seq<u8>, c: Seq<u8>)
    ensures
        byte_distance(q, c, 14) == sum_of_squares(|d: int| q[d] - c[d]),
{
    reveal(sum_of_squares);
    reveal_with_fuel(byte_distance, 15);
}

/// Every component counts in the distance of two records, and all count alike: it is the sum
/// of their squared differences, the same both ways, and nothing only for records that agree
/// in all of them.
pub proof fn law_distance_counts_every_component(q: Seq<u8>, c: Seq<u8>)
    ensures
        byte_distance(q, c, 14) == sum_of_squares(|d: int| q[d] - c[d]),
        byte_distance(q, c, 14) == byte_distance(c, q, 14),
        byte_distance(q, c, 14) >= 0,
        (byte_distance(q, c, 14) == 0) == (forall|d: int| 0 <= d < 14 ==> q[d] == c[d]),
{
    lemma_byte_distance(q, c);
    lemma_distance_both_ways(q, c, 14);
    lemma_no_distance(q, c, 14);
}

proof fn lemma_distance_both_ways(q: Seq<u8>, c: Seq<u8>, n: nat)
    ensures
        byte_distance(q, c, n) == byte_distance(c, q, n),
    decreases n,
{
    if n > 0 {
        lemma_distance_both_ways(q, c, (n - 1) as nat);
        let x = q[n - 1] as int;
        let y = c[n - 1] as int;
        assert((x - y) * (x - y) == (y - x) * (y - x)) by (nonlinear_arith);
    }
}

proof fn lemma_no_distance(q: Seq<u8>, c: Seq<u8>, n: nat)
    ensures
        byte_distance(q, c, n) >= 0,
        (byte_distance(q, c, n) == 0) == (forall|d: int| 0 <= d < n ==> q[d] == c[d]),
    decreases n,
{
    if n > 0 {
        lemma_no_distance(q, c, (n - 1) as nat);
        let x = q[n - 1] - c[n - 1];
        assert(x * x >= 0) by (nonlinear_arith);
        assert((x * x == 0) == (x == 0)) by (nonlinear_arith);
        if byte_distance(q, c, n) == 0 {
            assert(x == 0);
            assert forall|d: int| 0 <= d < n implies q[d] == c[d] by {
                if d < n - 1 {
                    assert(byte_distance(q, c, (n - 1) as nat) == 0);
                }
            }
        }
    }
}

/// Without neighbours there is no fraud.
pub proof fn lemma_no_share(none: Seq<int>, label: spec_fn(int) -> u8)
    requires
        none.len() == 0,
    ensures
        is_fraud_share(Single::from_bits(ZERO), none, label),
{
    reveal(Seq::filter);
    lemma_parts(0);
    lemma2_to64();
    let n = none.filter(|i: int| label(i) == 1).len() as int;
    let p = pow2(149) as int;
    assert(n * p == 0) by (nonlinear_arith)
        requires
            n == 0,
    ;
    lemma_closest_zero(Single::from_bits(ZERO), 5);
}

/// The distance of a record of the file.
proof fn lemma_exact_distance(data: Seq<u8>, vector: Seq<Single>, i: int)
    requires
        0 <= i,
        24 + 16 * i + 16 <= data.len(),
        vector.len() == 14,
    ensures
        ({
            let dist = byte_distance(exact_query(vector), exact_record(data, i), 14);
            &&& dist == sum_of_squares(|d: int| quantized(vector[d]) - data[24 + 16 * i + d])
            &&& dist < u32::MAX
            &&& exact_record(data, i)[14] == data[24 + 16 * i + 14]
        }),
{
    reveal(sum_of_squares);
    let q = exact_query(vector);
    let c = exact_record(data, i);
    lemma_byte_distance(q, c);
    crate::exact::lemma_byte_distance_bound(q, c, 14);
    let f = |d: int| q[d] - c[d];
    let g = |d: int| quantized(vector[d]) - data[24 + 16 * i + d];
    assert forall|d: int| 0 <= d < 14 implies #[trigger] f(d) == g(d) by {
        crate::vector::lemma_quantized(vector[d]);
    }
}

/// The score of exact search is the share of fraud among the five nearest of all records of
/// the file. A record takes 16 bytes behind a header of 24: its fourteen components and then
/// its label. Its distance is the sum of the squared differences of its components and those
/// of the vector, as bytes; of records at one distance the earlier one counts as nearer.
pub proof fn law_exact_score_is_the_share_of_fraud(data: Seq<u8>, count: nat, vector: Seq<Single>)
    requires
        data.len() == 24 + 16 * count,
        vector.len() == 14,
    ensures
        exists|five: Seq<int>|
            #![trigger five.len()]
            are_the_nearest(
                five,
                count as int,
                5,
                |i: int|
                    sum_of_squares(|d: int| quantized(vector[d]) - data[24 + 16 * i + d]),
            ) && is_fraud_share(
                exact_score(data, count, vector),
                five,
                |i: int| data[24 + 16 * i + 14],
            ),
{
    let q = exact_query(vector);
    let dist = |i: int| sum_of_squares(|d: int| quantized(vector[d]) - data[24 + 16 * i + d]);
    let label = |i: int| data[24 + 16 * i + 14];
    let all = exact_candidates(data, q, count);
    let named = all_candidates(dist, label, count);
    assert forall|i: int| 0 <= i < count implies #[trigger] dist(i) < u32::MAX by {
        lemma_exact_distance(data, vector, i);
    }
    assert forall|i: int| 0 <= i < count implies all[i] == named[i] by {
        lemma_exact_distance(data, vector, i);
    }
    assert(all =~= named);
    let five = lemma_vote(dist, label, u32::MAX as int, count, count);
    assert(at_most(five, count) == five);
    if count == 0 {
        lemma_no_share(five, label);
    } else {
        assert(exact_score(data, count, vector) == vote(
            count,
            labels_of(selected(vacant(u32::MAX as int), named)),
        ));
    }
    assert(are_the_nearest(five, count as int, 5, dist));
    assert(is_fraud_share(exact_score(data, count, vector), five, label));
    assert(five.len() >= 0);
}

/// A field of two bytes is a number of 16 bits.
pub proof fn lemma_signed_field(s: Seq<u8>, at: int)
    ensures
        -0x8000 <= crate::layout::signed_field(s, at) < 0x8000,
{
    reveal_with_fuel(crate::layout::field, 3);
}

} // verus!

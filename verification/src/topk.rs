//! The nearest neighbours found so far, and the score that they give.

use vstd::prelude::*;

use crate::single::Single;

verus! {

/// How many neighbours vote.
pub const K: usize = 5;

/// A candidate: its distance and its label.
pub type Candidate = (int, u8);

/// Where a distance belongs, walking down from position `p`: behind the first entry met
/// that is not farther away.
pub open spec fn slot<T>(best: Seq<(int, T)>, dist: int, p: nat) -> nat
    decreases p,
{
    if p > 0 && dist < best[p - 1].0 {
        slot(best, dist, (p - 1) as nat)
    } else {
        p
    }
}

/// The entries after a candidate has been offered. It must be nearer than the last entry,
/// which it then drives out.
pub open spec fn inserted<T>(best: Seq<(int, T)>, c: (int, T)) -> Seq<(int, T)> {
    let last = best.len() - 1;
    if best.len() == 0 || c.0 >= best[last].0 {
        best
    } else {
        let p = slot(best, c.0, last as nat) as int;
        best.subrange(0, p).push(c) + best.subrange(p, last)
    }
}

/// The entries after candidates have been offered one after the other.
pub open spec fn selected<T>(best: Seq<(int, T)>, offered: Seq<(int, T)>) -> Seq<(int, T)>
    decreases offered.len(),
{
    if offered.len() == 0 {
        best
    } else {
        inserted(selected(best, offered.drop_last()), offered.last())
    }
}

/// `K` entries that any candidate below `limit` drives out.
pub open spec fn vacant(limit: int) -> Seq<Candidate> {
    Seq::new(K as nat, |i: int| (limit, 0u8))
}

/// Distances never decrease.
pub open spec fn ordered<T>(best: Seq<(int, T)>) -> bool {
    forall|i: int, j: int| 0 <= i <= j < best.len() ==> best[i].0 <= best[j].0
}

pub open spec fn labels_of(best: Seq<Candidate>) -> Seq<u8> {
    Seq::new(best.len(), |i: int| best[i].1)
}

/// The entries held in two arrays.
pub open spec fn pairs_u32(dists: Seq<u32>, labels: Seq<u8>) -> Seq<Candidate> {
    Seq::new(dists.len(), |i: int| (dists[i] as int, labels[i]))
}

/// The entries held in two arrays.
pub open spec fn pairs_u64(dists: Seq<u64>, labels: Seq<u8>) -> Seq<Candidate> {
    Seq::new(dists.len(), |i: int| (dists[i] as int, labels[i]))
}

/// How many of the first `n` labels mark fraud.
pub open spec fn frauds(labels: Seq<u8>, n: nat) -> nat
    decreases n,
{
    if n == 0 {
        0
    } else {
        frauds(labels, (n - 1) as nat) + if labels[n - 1] == 1 {
            1nat
        } else {
            0
        }
    }
}

/// `n` fifths.
pub open spec fn fifths(n: nat) -> Single {
    Single::integer(n).quotient(Single::integer(K as nat))
}

/// The score of the nearest neighbours in an index of `count` records.
pub open spec fn vote(count: nat, labels: Seq<u8>) -> Single {
    fifths(
        frauds(
            labels,
            if count < K {
                count
            } else {
                K as nat
            },
        ),
    )
}

pub proof fn lemma_slot<T>(best: Seq<(int, T)>, dist: int, p: nat)
    requires
        p <= best.len(),
    ensures
        slot(best, dist, p) <= p,
        forall|i: int| slot(best, dist, p) <= i < p ==> dist < #[trigger] best[i].0,
        slot(best, dist, p) > 0 ==> best[slot(best, dist, p) - 1].0 <= dist,
    decreases p,
{
    if p > 0 && dist < best[p - 1].0 {
        lemma_slot(best, dist, (p - 1) as nat);
    }
}

/// Offering a candidate keeps the number of entries and their order, and brings the last
/// one no farther.
pub proof fn lemma_inserted<T>(best: Seq<(int, T)>, c: (int, T))
    requires
        ordered(best),
    ensures
        inserted(best, c).len() == best.len(),
        ordered(inserted(best, c)),
        best.len() > 0 ==> inserted(best, c).last().0 <= best.last().0,
{
    if best.len() > 0 && c.0 < best.last().0 {
        let last = best.len() - 1;
        lemma_slot(best, c.0, last as nat);
        let p = slot(best, c.0, last as nat) as int;
        let r = inserted(best, c);
        assert forall|i: int, j: int| 0 <= i <= j < r.len() implies r[i].0 <= r[j].0 by {
            if i < p {
                assert(r[i] == best[i]);
                if j < p {
                    assert(r[j] == best[j]);
                } else if j == p {
                    assert(best[i].0 <= best[p - 1].0);
                } else {
                    assert(r[j] == best[j - 1]);
                }
            } else if i == p {
                if j > p {
                    assert(r[j] == best[j - 1]);
                }
            } else {
                assert(r[i] == best[i - 1] && r[j] == best[j - 1]);
            }
        }
    }
}

pub proof fn lemma_selected<T>(best: Seq<(int, T)>, offered: Seq<(int, T)>)
    requires
        ordered(best),
    ensures
        selected(best, offered).len() == best.len(),
        ordered(selected(best, offered)),
        best.len() > 0 ==> selected(best, offered).last().0 <= best.last().0,
    decreases offered.len(),
{
    if offered.len() > 0 {
        lemma_selected(best, offered.drop_last());
        lemma_inserted(selected(best, offered.drop_last()), offered.last());
    }
}

pub proof fn lemma_selected_append<T>(best: Seq<(int, T)>, a: Seq<(int, T)>, b: Seq<(int, T)>)
    ensures
        selected(best, a + b) == selected(selected(best, a), b),
    decreases b.len(),
{
    if b.len() == 0 {
        assert(a + b =~= a);
    } else {
        lemma_selected_append(best, a, b.drop_last());
        assert((a + b).drop_last() =~= a + b.drop_last());
    }
}

/// Offers a candidate to the nearest entries.
pub fn insert_best(dist: u32, label: u8, best_dist: &mut [u32; K], best_label: &mut [u8; K])
    ensures
        pairs_u32(final(best_dist)@, final(best_label)@) == inserted(
            pairs_u32(old(best_dist)@, old(best_label)@),
            (dist as int, label),
        ),
{
    let ghost before = pairs_u32(best_dist@, best_label@);
    if dist >= best_dist[K - 1] {
        return ;
    }
    let mut pos: usize = K - 1;
    while pos > 0 && dist < best_dist[pos - 1]
        invariant
            pos <= K - 1,
            before == pairs_u32(old(best_dist)@, old(best_label)@),
            slot(before, dist as int, pos as nat) == slot(before, dist as int, (K - 1) as nat),
            forall|j: int|
                0 <= j <= pos ==> best_dist@[j] == old(best_dist)@[j] && best_label@[j] == old(
                    best_label,
                )@[j],
            forall|j: int|
                pos < j < K ==> best_dist@[j] == old(best_dist)@[j - 1] && best_label@[j] == old(
                    best_label,
                )@[j - 1],
        decreases pos,
    {
        best_dist[pos] = best_dist[pos - 1];
        best_label[pos] = best_label[pos - 1];
        pos = pos - 1;
    }
    best_dist[pos] = dist;
    best_label[pos] = label;
    assert(slot(before, dist as int, pos as nat) == pos);
    assert(pairs_u32(best_dist@, best_label@) =~= inserted(before, (dist as int, label)));
}

/// Offers a candidate to the nearest entries.
pub fn insert_best_u64(dist: u64, label: u8, best_dist: &mut [u64; K], best_label: &mut [u8; K])
    ensures
        pairs_u64(final(best_dist)@, final(best_label)@) == inserted(
            pairs_u64(old(best_dist)@, old(best_label)@),
            (dist as int, label),
        ),
{
    let ghost before = pairs_u64(best_dist@, best_label@);
    if dist >= best_dist[K - 1] {
        return ;
    }
    let mut pos: usize = K - 1;
    while pos > 0 && dist < best_dist[pos - 1]
        invariant
            pos <= K - 1,
            before == pairs_u64(old(best_dist)@, old(best_label)@),
            slot(before, dist as int, pos as nat) == slot(before, dist as int, (K - 1) as nat),
            forall|j: int|
                0 <= j <= pos ==> best_dist@[j] == old(best_dist)@[j] && best_label@[j] == old(
                    best_label,
                )@[j],
            forall|j: int|
                pos < j < K ==> best_dist@[j] == old(best_dist)@[j - 1] && best_label@[j] == old(
                    best_label,
                )@[j - 1],
        decreases pos,
    {
        best_dist[pos] = best_dist[pos - 1];
        best_label[pos] = best_label[pos - 1];
        pos = pos - 1;
    }
    best_dist[pos] = dist;
    best_label[pos] = label;
    assert(slot(before, dist as int, pos as nat) == pos);
    assert(pairs_u64(best_dist@, best_label@) =~= inserted(before, (dist as int, label)));
}

/// How many of the first `n` labels mark fraud.
fn count_frauds(best_label: &[u8; K], n: usize) -> (r: usize)
    requires
        n <= K,
    ensures
        r == frauds(best_label@, n as nat),
        r <= n,
{
    let mut r: usize = 0;
    let mut i: usize = 0;
    while i < n
        invariant
            i <= n <= K,
            r == frauds(best_label@, i as nat),
            r <= i,
        decreases n - i,
    {
        if best_label[i] == 1 {
            r = r + 1;
        }
        i = i + 1;
    }
    r
}

/// How many of the labels mark fraud.
pub fn fraud_count(best_label: &[u8; K]) -> (r: usize)
    ensures
        r == frauds(best_label@, K as nat),
{
    count_frauds(best_label, K)
}

/// The share of fraud among the neighbours; an index of fewer than `K` records has fewer
/// neighbours, and the missing ones count as legitimate.
pub fn score_from_labels(count: usize, best_label: &[u8; K]) -> (r: Single)
    ensures
        r == vote(count as nat, best_label@),
{
    let neighbors: usize = if count < K {
        count
    } else {
        K
    };
    let n: usize = count_frauds(best_label, neighbors);
    Single::from_integer(n as u64).over(Single::from_integer(K as u64))
}

/// A list with a candidate put behind all that are not farther away, when none is driven
/// out.
pub open spec fn placed<T>(list: Seq<(int, T)>, c: (int, T)) -> Seq<(int, T)> {
    let p = slot(list, c.0, list.len()) as int;
    list.subrange(0, p).push(c) + list.subrange(p, list.len() as int)
}

/// All candidates, the nearest first.
pub open spec fn by_distance<T>(offered: Seq<(int, T)>) -> Seq<(int, T)>
    decreases offered.len(),
{
    if offered.len() == 0 {
        Seq::empty()
    } else {
        placed(by_distance(offered.drop_last()), offered.last())
    }
}

/// The candidates at a distance.
pub open spec fn at_distance<T>(list: Seq<(int, T)>, dist: int) -> Seq<(int, T)> {
    list.filter(|c: (int, T)| c.0 == dist)
}

pub proof fn lemma_slot_is<T>(best: Seq<(int, T)>, dist: int, p: nat, x: nat)
    requires
        x <= p <= best.len(),
        forall|i: int| x <= i < p ==> dist < #[trigger] best[i].0,
        x > 0 ==> best[x - 1].0 <= dist,
    ensures
        slot(best, dist, p) == x,
    decreases p,
{
    if x < p {
        assert(dist < best[p - 1].0);
        lemma_slot_is(best, dist, (p - 1) as nat, x);
    }
}

proof fn lemma_none_at_distance<T>(list: Seq<(int, T)>, dist: int)
    requires
        forall|i: int| 0 <= i < list.len() ==> (#[trigger] list[i]).0 != dist,
    ensures
        at_distance(list, dist) =~= Seq::<(int, T)>::empty(),
    decreases list.len(),
{
    reveal(Seq::filter);
    if list.len() > 0 {
        assert(list.last() == list[list.len() - 1]);
        lemma_none_at_distance(list.drop_last(), dist);
    }
}

proof fn lemma_placed<T>(list: Seq<(int, T)>, c: (int, T))
    requires
        ordered(list),
    ensures
        ordered(placed(list, c)),
        placed(list, c).len() == list.len() + 1,
        placed(list, c).to_multiset() == list.to_multiset().insert(c),
        forall|dist: int|
            #[trigger] at_distance(placed(list, c), dist) == at_distance(list.push(c), dist),
{
    lemma_slot(list, c.0, list.len());
    let p = slot(list, c.0, list.len()) as int;
    let a = list.subrange(0, p);
    let b = list.subrange(p, list.len() as int);
    let r = placed(list, c);
    assert forall|i: int, j: int| 0 <= i <= j < r.len() implies r[i].0 <= r[j].0 by {
        if i < p {
            assert(r[i] == list[i]);
            if j < p {
                assert(r[j] == list[j]);
            } else if j == p {
                assert(list[i].0 <= list[p - 1].0);
            } else {
                assert(r[j] == list[j - 1]);
            }
        } else if i == p {
            if j > p {
                assert(r[j] == list[j - 1]);
            }
        } else {
            assert(r[i] == list[i - 1] && r[j] == list[j - 1]);
        }
    }
    broadcast use vstd::seq_lib::group_to_multiset_ensures;

    assert(list =~= a + b);
    vstd::seq_lib::lemma_multiset_commutative(a, b);
    vstd::seq_lib::lemma_multiset_commutative(a.push(c), b);
    assert(r.to_multiset() =~= list.to_multiset().insert(c));
    assert forall|dist: int|
        #[trigger] at_distance(r, dist) == at_distance(list.push(c), dist) by {
        let is = |x: (int, T)| x.0 == dist;
        Seq::filter_distributes_over_add(a.push(c), b, is);
        Seq::filter_distributes_over_add(a, b, is);
        Seq::filter_distributes_over_add(a, seq![c], is);
        Seq::filter_distributes_over_add(list, seq![c], is);
        assert(a.push(c) =~= a + seq![c]);
        assert(list.push(c) =~= list + seq![c]);
        let one = seq![c].filter(is);
        assert(one.len() <= 1) by {
            reveal(Seq::filter);
            assert(seq![c].drop_last() =~= Seq::<(int, T)>::empty());
        }
        if dist == c.0 {
            lemma_none_at_distance(b, dist);
            assert(at_distance(r, dist) =~= at_distance(list.push(c), dist));
        } else {
            lemma_none_at_distance(seq![c], dist);
            assert(at_distance(r, dist) =~= at_distance(list.push(c), dist));
        }
    }
}

/// All candidates stand in order: none is lost, and those at one distance stay as they came.
pub proof fn lemma_by_distance<T>(offered: Seq<(int, T)>)
    ensures
        ordered(by_distance(offered)),
        by_distance(offered).len() == offered.len(),
        by_distance(offered).to_multiset() == offered.to_multiset(),
        forall|dist: int|
            #[trigger] at_distance(by_distance(offered), dist) == at_distance(offered, dist),
    decreases offered.len(),
{
    if offered.len() == 0 {
        assert(by_distance(offered) =~= offered);
    } else {
        let head = offered.drop_last();
        let c = offered.last();
        lemma_by_distance(head);
        lemma_placed(by_distance(head), c);
        assert(offered =~= head.push(c));
        broadcast use vstd::seq_lib::group_to_multiset_ensures;

        assert(offered.to_multiset() =~= head.to_multiset().insert(c));
        assert forall|dist: int|
            #[trigger] at_distance(by_distance(offered), dist) == at_distance(offered, dist) by {
            let is = |x: (int, T)| x.0 == dist;
            Seq::filter_distributes_over_add(by_distance(head), seq![c], is);
            Seq::filter_distributes_over_add(head, seq![c], is);
            assert(by_distance(head).push(c) =~= by_distance(head) + seq![c]);
            assert(offered =~= head + seq![c]);
            assert(at_distance(by_distance(head), dist) == at_distance(head, dist));
        }
    }
}

/// The entries that candidates leave of vacant ones: the first of them in the order of their
/// distances.
pub proof fn lemma_selected_are_first<T>(
    start: Seq<(int, T)>,
    limit: int,
    filler: T,
    offered: Seq<(int, T)>,
)
    requires
        start.len() > 0,
        forall|i: int| 0 <= i < start.len() ==> #[trigger] start[i] == (limit, filler),
        forall|i: int| 0 <= i < offered.len() ==> (#[trigger] offered[i]).0 < limit,
    ensures
        selected(start, offered).len() == start.len(),
        forall|p: int|
            0 <= p < start.len() ==> #[trigger] selected(start, offered)[p] == if p < offered.len() {
                by_distance(offered)[p]
            } else {
                (limit, filler)
            },
    decreases offered.len(),
{
    lemma_by_distance(offered);
    lemma_selected(start, offered);
    if offered.len() > 0 {
        let head = offered.drop_last();
        let c = offered.last();
        assert forall|i: int| 0 <= i < head.len() implies (#[trigger] head[i]).0 < limit by {
            assert(head[i] == offered[i]);
        }
        assert(c == offered[offered.len() - 1]);
        lemma_selected_are_first(start, limit, filler, head);
        lemma_selected(start, head);
        lemma_by_distance(head);
        let best = selected(start, head);
        let list = by_distance(head);
        lemma_slot(list, c.0, list.len());
        let x = slot(list, c.0, list.len());
        let k = start.len();
        let last = k - 1;
        assert(best[last] == if last < list.len() {
            list[last]
        } else {
            (limit, filler)
        });
        if c.0 >= best[last].0 {
            assert(list.len() >= k);
            if x <= last {
                assert(c.0 < list[last].0);
            }
            assert(x >= k);
            assert forall|p: int| 0 <= p < k implies #[trigger] selected(start, offered)[p]
                == by_distance(offered)[p] by {
                assert(best[p] == list[p]);
            }
        } else {
            if x >= k {
                assert(list[x - 1].0 <= c.0);
                assert(list[last].0 <= list[x - 1].0);
                assert(false);
            }
            assert forall|i: int| x <= i < last implies c.0 < #[trigger] best[i].0 by {
                if i < list.len() {
                    assert(best[i] == list[i]);
                    assert(c.0 < list[i].0);
                }
            }
            if x > 0 {
                assert(best[x - 1] == list[x - 1]);
            }
            lemma_slot_is(best, c.0, last as nat, x);
            let now = selected(start, offered);
            let all = by_distance(offered);
            assert forall|p: int| 0 <= p < k implies #[trigger] now[p] == if p < offered.len() {
                all[p]
            } else {
                (limit, filler)
            } by {
                if p < x {
                    assert(best[p] == list[p]);
                } else if p > x {
                    assert(now[p] == best[p - 1]);
                    if p < offered.len() {
                        assert(all[p] == list[p - 1]);
                    }
                }
            }
        }
    }
}

/// The entries are the nearest of all candidates that were offered, in the order of their
/// distances; of those at one distance, the ones that came first. Places without a
/// candidate stay vacant.
pub proof fn law_selected_are_the_nearest(offered: Seq<Candidate>, limit: int)
    requires
        forall|i: int| 0 <= i < offered.len() ==> (#[trigger] offered[i]).0 < limit,
    ensures
        selected(vacant(limit), offered).len() == K,
        forall|p: int|
            0 <= p < K ==> #[trigger] selected(vacant(limit), offered)[p] == if p < offered.len() {
                by_distance(offered)[p]
            } else {
                (limit, 0u8)
            },
        ordered(by_distance(offered)),
        by_distance(offered).to_multiset() == offered.to_multiset(),
        forall|dist: int|
            #[trigger] at_distance(by_distance(offered), dist) == at_distance(offered, dist),
{
    lemma_by_distance(offered);
    lemma_selected_are_first(vacant(limit), limit, 0u8, offered);
}

/// A score is a number of fifths, from none to five.
pub proof fn law_score_is_a_fifth(count: nat, labels: Seq<u8>)
    ensures
        exists|c: nat| c <= K && c <= count && vote(count, labels) == #[trigger] fifths(c),
{
    let n = if count < K {
        count
    } else {
        K as nat
    };
    lemma_frauds(labels, n);
    assert(vote(count, labels) == fifths(frauds(labels, n)));
}

proof fn lemma_frauds(labels: Seq<u8>, n: nat)
    ensures
        frauds(labels, n) <= n,
    decreases n,
{
    if n > 0 {
        lemma_frauds(labels, (n - 1) as nat);
    }
}

} // verus!

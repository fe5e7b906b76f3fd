//! The order in which the servers are reported: by mean latency, the lowest
//! first. A server without a successful request has no mean and comes after
//! every server that has one. Servers with equal means, and servers without
//! one, stay in the order in which they came.

use crate::histogram::{mean_below, total};
use crate::summary::ServerSummary;
use vstd::prelude::*;

verus! {

/// The mean latency of `a` is below that of `b`, or `a` has a mean and `b`
/// has none.
pub open spec fn ranks_before(a: ServerSummary, b: ServerSummary) -> bool {
    mean_below(a.histogram@, b.histogram@)
}

/// `ranking` holds the summaries in the order `order`: `order[i]` is the place
/// in `summaries` of the summary that stands at `i` in `ranking`. No place is
/// taken twice, no summary ranks before one that stands earlier, and of two
/// that rank equal the one that came first stands first.
pub open spec fn is_ranking(
    order: Seq<int>,
    summaries: Seq<ServerSummary>,
    ranking: Seq<ServerSummary>,
) -> bool {
    &&& order.len() == summaries.len()
    &&& ranking.len() == summaries.len()
    &&& forall|i: int|
        0 <= i < order.len() ==> 0 <= #[trigger] order[i] < summaries.len() && ranking[i]
            == summaries[order[i]]
    &&& forall|i: int, j: int|
        #![trigger order[i], order[j]]
        0 <= i < j < order.len() ==> order[i] != order[j]
    &&& forall|i: int, j: int|
        #![trigger ranking[i], ranking[j]]
        0 <= i < j < ranking.len() ==> !ranks_before(ranking[j], ranking[i])
    &&& forall|i: int, j: int|
        #![trigger order[i], order[j]]
        0 <= i < j < order.len() && !ranks_before(ranking[i], ranking[j]) ==> order[i]
            < order[j]
}

/// `ranking` is `summaries` in ascending order of mean latency, with equal
/// means in the order of `summaries`.
pub open spec fn ranked(summaries: Seq<ServerSummary>, ranking: Seq<ServerSummary>) -> bool {
    exists|order: Seq<int>| is_ranking(order, summaries, ranking)
}

/// Ranking keeps servers with equal means in the order in which they came: of
/// two summaries of which neither ranks before the other, the one that stands
/// earlier in `summaries` stands earlier in `ranking`.
pub proof fn lemma_ranking_stable(
    order: Seq<int>,
    summaries: Seq<ServerSummary>,
    ranking: Seq<ServerSummary>,
    i: int,
    j: int,
)
    requires
        is_ranking(order, summaries, ranking),
        0 <= i < ranking.len(),
        0 <= j < ranking.len(),
        order[i] < order[j],
        !ranks_before(summaries[order[i]], summaries[order[j]]),
        !ranks_before(summaries[order[j]], summaries[order[i]]),
    ensures
        i < j,
{
    if j < i {
        assert(ranking[j] == summaries[order[j]]);
        assert(ranking[i] == summaries[order[i]]);
        assert(order[j] < order[i]);
    }
}

/// A mean that is below another is below every mean that is not below that
/// other.
pub proof fn lemma_mean_below_carries(a: Seq<u64>, b: Seq<u64>, c: Seq<u64>)
    requires
        mean_below(a, b),
        !mean_below(c, b),
    ensures
        mean_below(a, c),
{
    if c.len() > 0 {
        let ta = total(a) as int;
        let tb = total(b) as int;
        let tc = total(c) as int;
        let na = a.len() as int;
        let nb = b.len() as int;
        let nc = c.len() as int;
        assert(b.len() > 0);
        assert(ta * nc < tc * na) by (nonlinear_arith)
            requires
                ta * nb < tb * na,
                tc * nb >= tb * nc,
                na > 0,
                nb > 0,
                nc > 0,
                ta >= 0,
                tb >= 0,
                tc >= 0,
        {
            assert(ta * nb * nc < tb * na * nc);
            assert(tb * nc * na <= tc * nb * na);
            assert(tb * na * nc == tb * nc * na);
            assert(ta * nb * nc == (ta * nc) * nb);
            assert(tc * nb * na == (tc * na) * nb);
        }
    }
}

/// Every two servers can be ranked, and the ranks never contradict each other:
/// no mean is below one that is below it, and a mean that is not below
/// another is not below any mean that this other is not below. This holds of
/// servers without a mean too.
pub proof fn lemma_ranks_are_consistent(a: Seq<u64>, b: Seq<u64>, c: Seq<u64>)
    ensures
        mean_below(a, b) ==> !mean_below(b, a),
        !mean_below(a, b) && !mean_below(b, c) ==> !mean_below(a, c),
{
    if !mean_below(a, b) && !mean_below(b, c) && mean_below(a, c) {
        lemma_mean_below_carries(a, c, b);
    }
}

/// Where the summary that stands at `at` in the new order stood before the
/// one at `from` was moved to `to`.
spec fn moved_from(at: int, from: int, to: int) -> int {
    if at < to {
        at
    } else if at == to {
        from
    } else if at <= from {
        at - 1
    } else {
        at
    }
}

/// Puts the summaries in ascending order of mean latency. Summaries with
/// equal means, and summaries without a mean, keep their order; those
/// without a mean come last.
pub fn rank(summaries: Vec<ServerSummary>) -> (ranking: Vec<ServerSummary>)
    ensures
        ranked(summaries@, ranking@),
{
    let mut ranking = summaries;
    let count = ranking.len();
    let ghost mut order: Seq<int> = Seq::new(count as nat, |k: int| k);
    let mut next: usize = 0;
    while next < count
        invariant
            next <= count,
            count == summaries@.len(),
            ranking@.len() == count,
            order.len() == count,
            forall|k: int|
                0 <= k < count ==> 0 <= #[trigger] order[k] < count && ranking@[k]
                    == summaries@[order[k]],
            forall|k: int| next <= k < count ==> #[trigger] order[k] == k,
            forall|k: int| 0 <= k < next ==> #[trigger] order[k] < next,
            forall|i: int, j: int|
                #![trigger order[i], order[j]]
                0 <= i < j < count ==> order[i] != order[j],
            forall|i: int, j: int|
                #![trigger ranking@[i], ranking@[j]]
                0 <= i < j < next ==> !ranks_before(ranking@[j], ranking@[i]),
            forall|i: int, j: int|
                #![trigger order[i], order[j]]
                0 <= i < j < next && !ranks_before(ranking@[i], ranking@[j]) ==> order[i]
                    < order[j],
        decreases count - next,
    {
        let mut to: usize = 0;
        while to < next && !ranking[next].histogram.has_lower_mean(&ranking[to].histogram)
            invariant
                to <= next < count,
                ranking@.len() == count,
                forall|k: int|
                    0 <= k < to ==> !ranks_before(ranking@[next as int], #[trigger] ranking@[k]),
            decreases next - to,
        {
            to = to + 1;
        }
        let ghost before = ranking@;
        let ghost order_before = order;
        if to < next {
            let moved = ranking.remove(next);
            ranking.insert(to, moved);
            proof {
                order = order.remove(next as int).insert(to as int, order[next as int]);
            }
        }
        proof {
            let from = next as int;
            let to = to as int;
            assert forall|k: int| 0 <= k < count implies #[trigger] ranking@[k]
                == before[moved_from(k, from, to)] && order[k] == order_before[moved_from(
                k,
                from,
                to,
            )] by {}
            assert forall|i: int, j: int|
                #![trigger order[i], order[j]]
                0 <= i < j < count implies order[i] != order[j] by {
                let si = moved_from(i, from, to);
                let sj = moved_from(j, from, to);
                if si < sj {
                    assert(order_before[si] != order_before[sj]);
                } else {
                    assert(order_before[sj] != order_before[si]);
                }
            }
            assert forall|i: int, j: int|
                #![trigger ranking@[i], ranking@[j]]
                0 <= i < j < next + 1 implies !ranks_before(ranking@[j], ranking@[i]) by {
                let si = moved_from(i, from, to);
                let sj = moved_from(j, from, to);
                if j == to {
                    assert(!ranks_before(before[from], before[si]));
                } else if i == to {
                    assert(ranks_before(before[from], before[to]));
                    if sj > to {
                        assert(!ranks_before(before[sj], before[to]));
                    }
                    lemma_mean_below_carries(
                        before[from].histogram@,
                        before[to].histogram@,
                        before[sj].histogram@,
                    );
                } else {
                    assert(!ranks_before(before[sj], before[si]));
                }
            }
            assert forall|i: int, j: int|
                #![trigger order[i], order[j]]
                0 <= i < j < next + 1 && !ranks_before(ranking@[i], ranking@[j]) implies order[i]
                    < order[j] by {
                let si = moved_from(i, from, to);
                let sj = moved_from(j, from, to);
                if j == to {
                    assert(order_before[si] < next);
                } else if i == to {
                    assert(ranks_before(before[from], before[to]));
                    if sj > to {
                        assert(!ranks_before(before[sj], before[to]));
                    }
                    lemma_mean_below_carries(
                        before[from].histogram@,
                        before[to].histogram@,
                        before[sj].histogram@,
                    );
                } else if j == from && to == from {
                    assert(order_before[si] < next);
                } else {
                    assert(order_before[si] < order_before[sj]);
                }
            }
            assert forall|k: int| 0 <= k < next + 1 implies #[trigger] order[k] < next + 1 by {
                let sk = moved_from(k, from, to);
                if sk < next {
                    assert(order_before[sk] < next);
                }
            }
        }
        next = next + 1;
    }
    assert(is_ranking(order, summaries@, ranking@));
    ranking
}

} // verus!

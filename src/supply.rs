use vstd::prelude::*;

use crate::auction::{
    ahead, allocation, bid_ahead, capped, clears, demand_ahead, is_first_marginal,
    is_marginal, is_winner, lemma_marginal_unique, lemma_settled_within_bid, precedes,
    positive_quantities, settled_result, AuctionModel,
};
use crate::types::{AuctionResult, Bid};

verus! {

/// Shares asked for by the bids of the first `k` bidders.
pub open spec fn total_demand(bids: Seq<Option<Bid>>, k: int) -> int
    decreases k,
{
    if k <= 0 {
        0
    } else {
        total_demand(bids, k - 1) + if bids[k - 1] is Some {
            bids[k - 1]->Some_0.quantity as int
        } else {
            0
        }
    }
}

/// Shares that bidder `i`'s bid is reached for, before the supply runs out.
pub open spec fn fill(bids: Seq<Option<Bid>>, shares: u64, i: int) -> int {
    if is_winner(bids, shares, i) {
        allocation(bids, shares, i)
    } else {
        0
    }
}

/// The sum of `fill` over the first `k` bidders.
pub open spec fn filled(bids: Seq<Option<Bid>>, shares: u64, k: int) -> int
    decreases k,
{
    if k <= 0 {
        0
    } else {
        filled(bids, shares, k - 1) + fill(bids, shares, k - 1)
    }
}

/// Number of bidders among the first `k` with a bid.
pub open spec fn count_bids(bids: Seq<Option<Bid>>, k: int) -> nat
    decreases k,
{
    if k <= 0 {
        0
    } else {
        count_bids(bids, k - 1) + if bids[k - 1] is Some {
            1nat
        } else {
            0nat
        }
    }
}

/// Shares awarded by `Success` results among the first `k`.
pub open spec fn awarded(results: Seq<AuctionResult>, k: int) -> int
    decreases k,
{
    if k <= 0 {
        0
    } else {
        awarded(results, k - 1) + match results[k - 1] {
            AuctionResult::Success { quantity, .. } => quantity as int,
            _ => 0,
        }
    }
}

/// Bidder `l`'s bid goes after every other bid among the first `k` bidders.
pub open spec fn ranked_last(bids: Seq<Option<Bid>>, l: int, k: int) -> bool {
    &&& 0 <= l < k
    &&& bids[l] is Some
    &&& forall|j: int| 0 <= j < k && j != l && (#[trigger] bids[j]) is Some ==> bid_ahead(bids, j, l)
}

proof fn lemma_last_ranked_exists(bids: Seq<Option<Bid>>, k: int) -> (l: int)
    requires
        positive_quantities(bids),
        0 <= k <= bids.len(),
        count_bids(bids, k) > 0,
    ensures
        ranked_last(bids, l, k),
    decreases k,
{
    let t = k - 1;
    if count_bids(bids, t) == 0 {
        assert forall|j: int| 0 <= j < t implies !(#[trigger] bids[j] is Some) by {
            lemma_count_zero(bids, t, j);
        }
        t
    } else {
        let l0 = lemma_last_ranked_exists(bids, t);
        if bids[t] is None || bid_ahead(bids, t, l0) {
            l0
        } else {
            assert forall|j: int| 0 <= j < k && j != t && (#[trigger] bids[j]) is Some implies bid_ahead(
                bids,
                j,
                t,
            ) by {
                if j != l0 {
                    lemma_precedes_trans_at(bids, j, l0, t);
                }
            }
            t
        }
    }
}

proof fn lemma_count_zero(bids: Seq<Option<Bid>>, k: int, j: int)
    requires
        count_bids(bids, k) == 0,
        0 <= j < k,
    ensures
        bids[j] is None,
    decreases k,
{
    if j < k - 1 {
        lemma_count_zero(bids, k - 1, j);
    }
}

proof fn lemma_precedes_trans_at(bids: Seq<Option<Bid>>, a: int, b: int, c: int)
    requires
        positive_quantities(bids),
        0 <= a < bids.len(),
        0 <= b < bids.len(),
        0 <= c < bids.len(),
        bid_ahead(bids, a, b),
        bid_ahead(bids, b, c),
    ensures
        bid_ahead(bids, a, c),
{
    crate::auction::lemma_precedes_trans(
        bids[a]->Some_0,
        a,
        bids[b]->Some_0,
        b,
        bids[c]->Some_0,
        c,
    );
}

proof fn lemma_empty_sums(bids: Seq<Option<Bid>>, shares: u64, k: int)
    requires
        0 <= k <= bids.len(),
        count_bids(bids, k) == 0,
    ensures
        total_demand(bids, k) == 0,
        filled(bids, shares, k) == 0,
    decreases k,
{
    if k > 0 {
        lemma_empty_sums(bids, shares, k - 1);
    }
}

/// Taking away the last-ranked bid leaves what is ahead of every other bid unchanged.
proof fn lemma_remove_keeps_ahead(bids: Seq<Option<Bid>>, l: int, i: int, k: int)
    requires
        positive_quantities(bids),
        ranked_last(bids, l, bids.len() as int),
        0 <= i < bids.len(),
        i != l,
        0 <= k <= bids.len(),
    ensures
        demand_ahead(bids.update(l, None), i, k) == demand_ahead(bids, i, k),
    decreases k,
{
    if k > 0 {
        lemma_remove_keeps_ahead(bids, l, i, k - 1);
        let j = k - 1;
        if j == l && bids[i] is Some && bid_ahead(bids, l, i) {
            assert(bid_ahead(bids, i, l));
            lemma_precedes_trans_at(bids, i, l, i);
        }
    }
}

/// Ahead of the last-ranked bid stands every other bid.
proof fn lemma_ahead_of_last(bids: Seq<Option<Bid>>, l: int, k: int)
    requires
        ranked_last(bids, l, bids.len() as int),
        0 <= k <= bids.len(),
    ensures
        demand_ahead(bids, l, k) == total_demand(bids.update(l, None), k),
    decreases k,
{
    if k > 0 {
        lemma_ahead_of_last(bids, l, k - 1);
        let j = k - 1;
        if j != l && bids[j] is Some {
            assert(bid_ahead(bids, j, l));
        }
    }
}

proof fn lemma_remove_totals(bids: Seq<Option<Bid>>, shares: u64, l: int, k: int)
    requires
        positive_quantities(bids),
        ranked_last(bids, l, bids.len() as int),
        0 <= k <= bids.len(),
    ensures
        total_demand(bids, k) == total_demand(bids.update(l, None), k) + if l < k {
            bids[l]->Some_0.quantity as int
        } else {
            0
        },
        count_bids(bids, k) == count_bids(bids.update(l, None), k) + if l < k {
            1int
        } else {
            0int
        },
        filled(bids, shares, k) == filled(bids.update(l, None), shares, k) + if l < k {
            fill(bids, shares, l)
        } else {
            0
        },
    decreases k,
{
    if k > 0 {
        lemma_remove_totals(bids, shares, l, k - 1);
        let j = k - 1;
        let m = bids.update(l, None);
        if j != l {
            lemma_remove_keeps_ahead(bids, l, j, bids.len() as int);
            assert(ahead(m, j) == ahead(bids, j));
            assert(fill(m, shares, j) == fill(bids, shares, j));
        } else {
            assert(fill(m, shares, j) == 0);
        }
    }
}

/// Filling bids in rank order places the smaller of the demand and the supply; and when
/// the demand reaches a positive supply, some bid is marginal.
proof fn lemma_fill_total(bids: Seq<Option<Bid>>, shares: u64)
    requires
        positive_quantities(bids),
    ensures
        filled(bids, shares, bids.len() as int) == capped(
            total_demand(bids, bids.len() as int),
            shares,
        ),
        total_demand(bids, bids.len() as int) >= shares > 0 ==> exists|p: int|
            0 <= p < bids.len() && #[trigger] is_marginal(bids, shares, p),
    decreases count_bids(bids, bids.len() as int),
{
    let n = bids.len() as int;
    if count_bids(bids, n) == 0 {
        lemma_empty_sums(bids, shares, n);
    } else {
        let l = lemma_last_ranked_exists(bids, n);
        let m = bids.update(l, None);
        lemma_remove_totals(bids, shares, l, n);
        lemma_ahead_of_last(bids, l, n);
        assert(positive_quantities(m));
        lemma_fill_total(m, shares);
        if total_demand(m, n) >= shares > 0 {
            let p = choose|p: int| 0 <= p < n && #[trigger] is_marginal(m, shares, p);
            assert(p != l);
            lemma_remove_keeps_ahead(bids, l, p, n);
            assert(is_marginal(bids, shares, p));
        } else if total_demand(bids, n) >= shares > 0 {
            assert(is_marginal(bids, shares, l));
        }
    }
}

proof fn lemma_awarded_is_filled(bids: Seq<Option<Bid>>, shares: u64, k: int)
    requires
        positive_quantities(bids),
        0 <= k <= bids.len(),
    ensures
        awarded(Seq::new(bids.len(), |i: int| settled_result(bids, shares, i)), k) == if clears(
            bids,
            shares,
        ) {
            filled(bids, shares, k)
        } else {
            0
        },
    decreases k,
{
    if k > 0 {
        lemma_awarded_is_filled(bids, shares, k - 1);
        if clears(bids, shares) && is_winner(bids, shares, k - 1) {
            lemma_settled_within_bid(bids, shares, k - 1);
        }
    }
}

/// Tabulation awards no more shares than are offered, and awards all of them whenever
/// the bids ask for at least that many.
pub proof fn lemma_supply_bound(m: AuctionModel)
    requires
        !m.settled,
        m.results.len() == m.bids.len(),
        positive_quantities(m.bids),
    ensures
        awarded(m.settle().results, m.results.len() as int) <= m.shares,
        total_demand(m.bids, m.bids.len() as int) >= m.shares ==> awarded(
            m.settle().results,
            m.results.len() as int,
        ) == m.shares,
{
    let bids = m.bids;
    let n = bids.len() as int;
    lemma_fill_total(bids, m.shares);
    lemma_awarded_is_filled(bids, m.shares, n);
    assert(m.settle().results == Seq::new(bids.len(), |i: int| settled_result(bids, m.shares, i)));
    if total_demand(bids, n) >= m.shares > 0 {
        let p = choose|p: int| 0 <= p < n && #[trigger] is_marginal(bids, m.shares, p);
        assert forall|j: int| 0 <= j < p implies !#[trigger] is_marginal(bids, m.shares, j) by {
            if is_marginal(bids, m.shares, j) {
                lemma_marginal_unique(bids, m.shares, j, p);
            }
        }
        assert(is_first_marginal(bids, m.shares, p));
    }
}

} // verus!

use vstd::prelude::*;

use vstd::arithmetic::div_mod::{lemma_div_is_ordered, lemma_div_multiples_vanish, lemma_div_pos_is_pos};

use crate::ranid::{in_token_range, issued_wf, lemma_token_of_injective, token_of, RanIDs};
use crate::types::{
    ranks_above, unit_price_above, unit_price_equal, wide_mul, AuctionResult, Bid, BidResult,
    WindmillError,
};

verus! {

/// What an auction holds, as mathematical values. Index `i` of `tokens`, `results` and
/// `bids` describes the `i`-th bidder to join.
pub struct AuctionModel {
    /// Bids submitted at or after this instant (microseconds) are late.
    pub deadline: i64,
    /// The number of shares offered.
    pub shares: u64,
    pub tokens: Seq<String>,
    pub results: Seq<AuctionResult>,
    pub bids: Seq<Option<Bid>>,
    pub settled: bool,
    /// Whether a bid submitted at or after the deadline settles the auction.
    pub settles_on_late: bool,
}

/// The settlement order: `a` (of the `ia`-th bidder) goes before `b` (of the `ib`-th)
/// when it ranks above it, or ranks equal to it and its bidder joined earlier.
pub open spec fn precedes(a: Bid, ia: int, b: Bid, ib: int) -> bool {
    ranks_above(a, b) || (unit_price_equal(a, b) && a.timestamp == b.timestamp && ia < ib)
}

/// Both bidders have a bid and bidder `j`'s goes before bidder `i`'s.
pub open spec fn bid_ahead(bids: Seq<Option<Bid>>, j: int, i: int) -> bool {
    &&& bids[j] is Some
    &&& bids[i] is Some
    &&& precedes(bids[j]->Some_0, j, bids[i]->Some_0, i)
}

/// Shares asked for by the bids among the first `k` bidders that go before bidder `i`'s.
pub open spec fn demand_ahead(bids: Seq<Option<Bid>>, i: int, k: int) -> int
    decreases k,
{
    if k <= 0 {
        0
    } else {
        demand_ahead(bids, i, k - 1) + if bid_ahead(bids, k - 1, i) {
            bids[k - 1]->Some_0.quantity as int
        } else {
            0
        }
    }
}

/// Shares asked for by all bids that go before bidder `i`'s.
pub open spec fn ahead(bids: Seq<Option<Bid>>, i: int) -> int {
    demand_ahead(bids, i, bids.len() as int)
}

/// Bidder `i` has a bid that is reached before the supply runs out.
pub open spec fn is_winner(bids: Seq<Option<Bid>>, shares: u64, i: int) -> bool {
    bids[i] is Some && ahead(bids, i) < shares
}

/// Bidder `i`'s bid is reached and exhausts the supply: the marginal bid.
pub open spec fn is_marginal(bids: Seq<Option<Bid>>, shares: u64, i: int) -> bool {
    is_winner(bids, shares, i) && ahead(bids, i) + bids[i]->Some_0.quantity >= shares
}

/// Bidder `m` holds the marginal bid, and no earlier bidder does.
pub open spec fn is_first_marginal(bids: Seq<Option<Bid>>, shares: u64, m: int) -> bool {
    &&& 0 <= m < bids.len()
    &&& is_marginal(bids, shares, m)
    &&& forall|j: int| 0 <= j < m ==> !#[trigger] is_marginal(bids, shares, j)
}

/// The auction clears: some bid exhausts the supply.
pub open spec fn clears(bids: Seq<Option<Bid>>, shares: u64) -> bool {
    exists|m: int| is_first_marginal(bids, shares, m)
}

/// The marginal bid of an auction that clears.
pub open spec fn marginal_bid(bids: Seq<Option<Bid>>, shares: u64) -> Bid {
    bids[choose|m: int| is_first_marginal(bids, shares, m)]->Some_0
}

/// Shares allocated to winner `i`: all it asked for, or what is left of the supply.
pub open spec fn allocation(bids: Seq<Option<Bid>>, shares: u64, i: int) -> int {
    let rest = shares - ahead(bids, i);
    let q = bids[i]->Some_0.quantity as int;
    if q < rest {
        q
    } else {
        rest
    }
}

/// Payment for `quantity` shares at the unit price of bid `m`, rounded down.
pub open spec fn payment(quantity: int, m: Bid) -> int {
    quantity * m.price / m.quantity as int
}

/// The result that tabulation gives bidder `i`.
pub open spec fn settled_result(bids: Seq<Option<Bid>>, shares: u64, i: int) -> AuctionResult {
    if clears(bids, shares) && is_winner(bids, shares, i) {
        let q = allocation(bids, shares, i);
        AuctionResult::Success {
            quantity: q as u64,
            price: payment(q, marginal_bid(bids, shares)) as u64,
        }
    } else {
        AuctionResult::Failure
    }
}


/// Cross-multiplied unit prices compare transitively when quantities are positive.
proof fn lemma_cross_trans(pa: int, qa: int, pb: int, qb: int, pc: int, qc: int)
    requires
        qa > 0,
        qb > 0,
        qc > 0,
        pa * qb >= pb * qa,
        pb * qc >= pc * qb,
    ensures
        pa * qc >= pc * qa,
        (pa * qb > pb * qa || pb * qc > pc * qb) ==> pa * qc > pc * qa,
{
    assert(qc * (pa * qb) >= qc * (pb * qa)) by (nonlinear_arith)
        requires
            qc > 0,
            pa * qb >= pb * qa,
    ;
    assert(qa * (pb * qc) >= qa * (pc * qb)) by (nonlinear_arith)
        requires
            qa > 0,
            pb * qc >= pc * qb,
    ;
    assert(qb * (pa * qc) >= qb * (pc * qa)) by (nonlinear_arith)
        requires
            qc * (pa * qb) >= qc * (pb * qa),
            qa * (pb * qc) >= qa * (pc * qb),
    ;
    assert(pa * qc >= pc * qa) by (nonlinear_arith)
        requires
            qb > 0,
            qb * (pa * qc) >= qb * (pc * qa),
    ;
    if pa * qb > pb * qa || pb * qc > pc * qb {
        assert(qb * (pa * qc) > qb * (pc * qa)) by (nonlinear_arith)
            requires
                qa > 0,
                qc > 0,
                pa * qb >= pb * qa,
                pb * qc >= pc * qb,
                pa * qb > pb * qa || pb * qc > pc * qb,
        ;
        assert(pa * qc > pc * qa) by (nonlinear_arith)
            requires
                qb > 0,
                qb * (pa * qc) > qb * (pc * qa),
        ;
    }
}

/// The settlement order is transitive.
pub(crate) proof fn lemma_precedes_trans(a: Bid, ia: int, b: Bid, ib: int, c: Bid, ic: int)
    requires
        a.quantity > 0,
        b.quantity > 0,
        c.quantity > 0,
        precedes(a, ia, b, ib),
        precedes(b, ib, c, ic),
    ensures
        precedes(a, ia, c, ic),
{
    lemma_cross_trans(
        a.price as int,
        a.quantity as int,
        b.price as int,
        b.quantity as int,
        c.price as int,
        c.quantity as int,
    );
}

/// Every bid present has a positive quantity.
pub open spec fn positive_quantities(bids: Seq<Option<Bid>>) -> bool {
    forall|i: int| 0 <= i < bids.len() && (#[trigger] bids[i]) is Some ==> bids[i]->Some_0.quantity > 0
}

/// When bidder `j`'s bid goes before bidder `i`'s, everything ahead of `j`'s bid, and
/// `j`'s bid itself, is ahead of `i`'s.
proof fn lemma_ahead_of_predecessor(bids: Seq<Option<Bid>>, i: int, j: int, k: int)
    requires
        positive_quantities(bids),
        0 <= i < bids.len(),
        0 <= j < bids.len(),
        0 <= k <= bids.len(),
        bid_ahead(bids, j, i),
    ensures
        demand_ahead(bids, i, k) >= demand_ahead(bids, j, k) + if j < k {
            bids[j]->Some_0.quantity as int
        } else {
            0
        },
    decreases k,
{
    if k > 0 {
        lemma_ahead_of_predecessor(bids, i, j, k - 1);
        let l = k - 1;
        if bid_ahead(bids, l, j) {
            lemma_precedes_trans(bids[l]->Some_0, l, bids[j]->Some_0, j, bids[i]->Some_0, i);
        }
    }
}

/// `a` shares at a unit price no higher than `pi / qi` cost at most `pi`.
proof fn lemma_payment_bound(a: int, qi: int, pi: int, pm: int, qm: int)
    requires
        0 <= a <= qi,
        qm > 0,
        pm >= 0,
        pm * qi <= pi * qm,
    ensures
        0 <= a * pm / qm <= pi,
{
    assert(a * pm <= qm * pi) by (nonlinear_arith)
        requires
            0 <= a <= qi,
            pm >= 0,
            pm * qi <= pi * qm,
    ;
    assert(a * pm >= 0) by (nonlinear_arith)
        requires
            a >= 0,
            pm >= 0,
    ;
    lemma_div_is_ordered(a * pm, qm * pi, qm);
    lemma_div_multiples_vanish(pi, qm);
    lemma_div_pos_is_pos(a * pm, qm);
}

/// In an auction that clears, the clearing unit price (the marginal bid's) is never
/// above a winner's own unit price.
pub proof fn lemma_clearing_price_within_winner(bids: Seq<Option<Bid>>, shares: u64, i: int)
    requires
        positive_quantities(bids),
        0 <= i < bids.len(),
        clears(bids, shares),
        is_winner(bids, shares, i),
    ensures
        !unit_price_above(marginal_bid(bids, shares), bids[i]->Some_0),
{
    let m = choose|m: int| is_first_marginal(bids, shares, m);
    if unit_price_above(bids[m]->Some_0, bids[i]->Some_0) {
        lemma_ahead_of_predecessor(bids, i, m, bids.len() as int);
    }
}

/// A winner of an auction that clears is allocated at most what it asked for, pays at
/// most what it bid, and is allocated at least one share.
pub proof fn lemma_settled_within_bid(bids: Seq<Option<Bid>>, shares: u64, i: int)
    requires
        positive_quantities(bids),
        0 <= i < bids.len(),
        clears(bids, shares),
        is_winner(bids, shares, i),
    ensures
        0 < allocation(bids, shares, i) <= bids[i]->Some_0.quantity,
        0 <= payment(allocation(bids, shares, i), marginal_bid(bids, shares))
            <= bids[i]->Some_0.price,
{
    let m = choose|m: int| is_first_marginal(bids, shares, m);
    let bm = bids[m]->Some_0;
    let bi = bids[i]->Some_0;
    lemma_clearing_price_within_winner(bids, shares, i);
    lemma_payment_bound(
        allocation(bids, shares, i),
        bi.quantity as int,
        bi.price as int,
        bm.price as int,
        bm.quantity as int,
    );
}

/// At most one bid is marginal.
pub proof fn lemma_marginal_unique(bids: Seq<Option<Bid>>, shares: u64, m1: int, m2: int)
    requires
        positive_quantities(bids),
        0 <= m1 < bids.len(),
        0 <= m2 < bids.len(),
        is_marginal(bids, shares, m1),
        is_marginal(bids, shares, m2),
    ensures
        m1 == m2,
{
    if m1 != m2 {
        let b1 = bids[m1]->Some_0;
        let b2 = bids[m2]->Some_0;
        if precedes(b1, m1, b2, m2) {
            lemma_ahead_of_predecessor(bids, m2, m1, bids.len() as int);
        } else {
            lemma_ahead_of_predecessor(bids, m1, m2, bids.len() as int);
        }
    }
}

/// A `Success` result stays within the bidder's bid: no more shares than asked for,
/// no more paid than bid.
pub open spec fn within_bid(result: AuctionResult, bid: Option<Bid>) -> bool {
    result matches AuctionResult::Success { quantity, price } ==> {
        &&& bid is Some
        &&& quantity <= bid->Some_0.quantity
        &&& price <= bid->Some_0.price
    }
}

/// `x`, but no more than `shares`.
pub open spec fn capped(x: int, shares: u64) -> int {
    if x < shares {
        x
    } else {
        shares as int
    }
}

/// A submitted bid becomes its bidder's standing bid, and leaves every other bidder's
/// standing bid as it was.
pub proof fn lemma_submit_replaces(m: AuctionModel, bid: Bid, key: Seq<char>)
    requires
        m.bids.len() == m.tokens.len(),
        m.joined(bid.id@),
    ensures
        m.submit(bid).bid_of(bid.id@) == Some(bid),
        key != bid.id@ ==> m.submit(bid).bid_of(key) == m.bid_of(key),
{
    let m1 = m.submit(bid);
    assert(m1.tokens == m.tokens);
    assert(m1.joined(bid.id@));
    assert(m1.slot(bid.id@) == m.slot(bid.id@));
    if key != bid.id@ && m.joined(key) {
        assert(m1.joined(key));
        assert(m1.slot(key) == m.slot(key));
        assert(m.tokens[m.slot(key)]@ == key);
        assert(m.slot(key) != m.slot(bid.id@));
    }
}

/// Tabulating twice leaves the auction as tabulating once does.
pub proof fn lemma_tabulate_idempotent(m: AuctionModel)
    ensures
        m.settle().settle() == m.settle(),
{
}

/// Of two bids submitted in turn by one bidder, the later is the one that stands.
pub proof fn lemma_last_bid_stands(m: AuctionModel, first: Bid, second: Bid)
    requires
        m.bids.len() == m.tokens.len(),
        m.joined(first.id@),
        second.id@ == first.id@,
    ensures
        m.submit(first).submit(second).bid_of(second.id@) == Some(second),
{
    let m1 = m.submit(first);
    let m2 = m1.submit(second);
    assert(m1.tokens == m.tokens);
    assert(m2.tokens == m.tokens);
    assert(m1.joined(second.id@));
    assert(m2.joined(second.id@));
    assert(m1.slot(second.id@) == m.slot(first.id@));
    assert(m2.slot(second.id@) == m.slot(first.id@));
    assert(0 <= m.slot(first.id@) < m.bids.len());
}

impl AuctionModel {
    /// `key` names a bidder that joined.
    pub open spec fn joined(self, key: Seq<char>) -> bool {
        exists|i: int| 0 <= i < self.tokens.len() && #[trigger] self.tokens[i]@ == key
    }

    /// The index of the bidder that `key` names.
    pub open spec fn slot(self, key: Seq<char>) -> int {
        choose|i: int| 0 <= i < self.tokens.len() && #[trigger] self.tokens[i]@ == key
    }


    /// The standing bid of the bidder that `key` names.
    pub open spec fn bid_of(self, key: Seq<char>) -> Option<Bid> {
        if self.joined(key) {
            self.bids[self.slot(key)]
        } else {
            None
        }
    }

    /// The result of the bidder that `key` names.
    pub open spec fn result_of(self, key: Seq<char>) -> Option<AuctionResult> {
        if self.joined(key) {
            Some(self.results[self.slot(key)])
        } else {
            None
        }
    }

    /// The auction after a new bidder, named `token`, joined.
    pub open spec fn enrol(self, token: String) -> AuctionModel {
        AuctionModel {
            tokens: self.tokens.push(token),
            results: self.results.push(AuctionResult::InProgress),
            bids: self.bids.push(None),
            ..self
        }
    }

    /// The auction after `bid` replaced the standing bid of its bidder.
    pub open spec fn submit(self, bid: Bid) -> AuctionModel {
        AuctionModel { bids: self.bids.update(self.slot(bid.id@), Some(bid)), ..self }
    }

    /// The auction after tabulation: a settled auction is left as it is.
    pub open spec fn settle(self) -> AuctionModel {
        if self.settled {
            self
        } else {
            AuctionModel {
                results: Seq::new(
                    self.results.len(),
                    |i: int| settled_result(self.bids, self.shares, i),
                ),
                settled: true,
                ..self
            }
        }
    }
}

/// A single-round, sealed-bid, uniform-price share auction.
#[derive(Clone)]
pub struct Auction {
    time: i64,
    shares: u64,
    tokens: Vec<String>,
    results: Vec<AuctionResult>,
    bids: Vec<Option<Bid>>,
    ids: RanIDs,
    completed: bool,
    settle_on_late: bool,
}

impl View for Auction {
    type V = AuctionModel;

    closed spec fn view(&self) -> AuctionModel {
        AuctionModel {
            deadline: self.time,
            shares: self.shares,
            tokens: self.tokens@,
            results: self.results@,
            bids: self.bids@,
            settled: self.completed,
            settles_on_late: self.settle_on_late,
        }
    }
}

impl Auction {
    /// The ledger's invariant.
    pub closed spec fn wf(&self) -> bool {
        &&& self.tokens@.len() == self.ids@.len()
        &&& self.results@.len() == self.ids@.len()
        &&& self.bids@.len() == self.ids@.len()
        &&& issued_wf(self.ids@)
        &&& forall|i: int|
            0 <= i < self.ids@.len() ==> #[trigger] self.tokens@[i]@ == token_of(
                self.ids@[i] as int,
            )
        &&& forall|i: int|
            0 <= i < self.bids@.len() && (#[trigger] self.bids@[i]) is Some ==> {
                let b = self.bids@[i]->Some_0;
                &&& b.id@ == self.tokens@[i]@
                &&& b.quantity > 0
                &&& b.timestamp < self.time
            }
        &&& forall|i: int|
            0 <= i < self.results@.len() ==> within_bid(
                #[trigger] self.results@[i],
                self.bids@[i],
            )
    }

    /// An open auction for `shares` shares that takes bids until `time`.
    pub fn new(time: i64, shares: u64) -> (r: Auction)
        ensures
            r.wf(),
            r@.deadline == time,
            r@.shares == shares,
            r@.tokens.len() == 0,
            r@.results.len() == 0,
            r@.bids.len() == 0,
            !r@.settled,
            r@.settles_on_late,
    {
        Auction {
            time,
            shares,
            tokens: Vec::new(),
            results: Vec::new(),
            bids: Vec::new(),
            ids: RanIDs::default(),
            completed: false,
            settle_on_late: true,
        }
    }

    /// Chooses whether a bid submitted at or after the deadline settles the auction (the
    /// default) or is only refused, leaving settlement to an explicit `tabulate`.
    pub fn set_settle_on_late_bid(&mut self, on: bool)
        requires
            old(self).wf(),
        ensures
            final(self).wf(),
            final(self)@ == (AuctionModel { settles_on_late: on, ..old(self)@ }),
    {
        self.settle_on_late = on;
    }

    /// Tokens of different bidders differ.
    pub proof fn lemma_tokens_distinct(&self)
        requires
            self.wf(),
        ensures
            forall|i: int, j: int|
                0 <= i < self@.tokens.len() && 0 <= j < self@.tokens.len() && i != j
                    ==> #[trigger] self@.tokens[i]@ != #[trigger] self@.tokens[j]@,
    {
        assert forall|i: int, j: int|
            0 <= i < self.tokens@.len() && 0 <= j < self.tokens@.len() && i != j
                implies #[trigger] self.tokens@[i]@ != #[trigger] self.tokens@[j]@ by {
            if self.tokens@[i]@ == self.tokens@[j]@ {
                lemma_token_of_injective(self.ids@[i] as int, self.ids@[j] as int);
            }
        }
    }

    /// What the invariant says of the auction's model: one result and one bid slot per
    /// bidder, and every standing bid asks for at least one share.
    pub proof fn lemma_model_valid(&self)
        requires
            self.wf(),
        ensures
            self@.results.len() == self@.tokens.len(),
            self@.bids.len() == self@.tokens.len(),
            positive_quantities(self@.bids),
    {
    }

    /// Every bid that won shares was submitted before the deadline: a late bid never wins.
    pub proof fn lemma_late_bids_never_win(&self, key: Seq<char>)
        requires
            self.wf(),
            self@.result_of(key) matches Some(AuctionResult::Success { quantity, price }),
        ensures
            self@.bid_of(key) matches Some(b) && b.timestamp < self@.deadline,
    {
        let i = self@.slot(key);
        assert(within_bid(self.results@[i], self.bids@[i]));
    }

    /// A winner never receives more shares than it asked for, nor pays more than it bid.
    pub proof fn lemma_winner_bound(&self, key: Seq<char>)
        requires
            self.wf(),
            self@.result_of(key) matches Some(AuctionResult::Success { quantity, price }),
        ensures
            self@.result_of(key) matches Some(AuctionResult::Success { quantity, price })
                && self@.bid_of(key) matches Some(b) && quantity <= b.quantity && price
                <= b.price,
    {
        let i = self@.slot(key);
        assert(within_bid(self.results@[i], self.bids@[i]));
    }

    /// The bidder at index `i` is the one its token names.
    proof fn lemma_slot(&self, i: int)
        requires
            self.wf(),
            0 <= i < self.tokens@.len(),
        ensures
            self@.joined(self.tokens@[i]@),
            self@.slot(self.tokens@[i]@) == i,
    {
        self.lemma_tokens_distinct();
        let key = self.tokens@[i]@;
        assert(self@.tokens[i]@ == key);
        let k = self@.slot(key);
        assert(self.tokens@[k]@ == key);
    }

    /// The index of the bidder that `key` names, if any.
    fn find(&self, key: &String) -> (r: Option<usize>)
        requires
            self.wf(),
        ensures
            r matches Some(i) ==> i < self.tokens@.len() && self@.joined(key@) && self@.slot(
                key@,
            ) == i,
            r is None ==> !self@.joined(key@),
    {
        let mut i: usize = 0;
        while i < self.tokens.len()
            invariant
                self.wf(),
                0 <= i <= self.tokens@.len(),
                forall|k: int| 0 <= k < i ==> self.tokens@[k]@ != key@,
            decreases self.tokens@.len() - i,
        {
            if self.tokens[i] == *key {
                proof {
                    self.lemma_slot(i as int);
                }
                return Some(i);
            }
            i += 1;
        }
        None
    }

    /// Admits a new bidder: issues it a fresh token and gives it an `InProgress` result.
    /// Fails with `WindmillError::Incomplete`, changing nothing, only when every token
    /// that the generator can spell already names a bidder.
    pub fn join(&mut self) -> (r: Result<String, WindmillError>)
        requires
            old(self).wf(),
        ensures
            final(self).wf(),
            r matches Ok(t) ==> !old(self)@.joined(t@) && final(self)@ == old(self)@.enrol(t)
                && exists|x: int| in_token_range(x) && #[trigger] token_of(x) == t@,
            r matches Err(e) ==> e == WindmillError::Incomplete && final(self)@ == old(self)@,
            r is Err ==> forall|x: int| in_token_range(x) ==> #[trigger] old(self)@.joined(token_of(x)),
    {
        let nt = match self.ids.get() {
            Ok(t) => t,
            Err(e) => {
                proof {
                    assert forall|x: int| in_token_range(x) implies #[trigger] old(self)@.joined(
                        token_of(x),
                    ) by {
                        let y = x as u32;
                        assert(in_token_range(y as int));
                        assert(old(self).ids@.contains(y));
                        let i = choose|i: int|
                            0 <= i < old(self).ids@.len() && old(self).ids@[i] == y;
                        assert(old(self).tokens@[i]@ == token_of(y as int));
                        assert(old(self)@.tokens[i]@ == token_of(x));
                    }
                }
                return Err(e);
            },
        };
        let ghost x = choose|x: u32|
            in_token_range(x as int) && !old(self).ids@.contains(x) && self.ids@ == old(
                self,
            ).ids@.push(x) && #[trigger] token_of(x as int) == nt@;
        proof {
            assert forall|i: int| 0 <= i < old(self).tokens@.len() implies #[trigger] old(
                self,
            ).tokens@[i]@ != nt@ by {
                assert(old(self).ids@[i] != x);
                if old(self).tokens@[i]@ == nt@ {
                    lemma_token_of_injective(old(self).ids@[i] as int, x as int);
                }
            }
        }
        self.tokens.push(nt.clone());
        self.results.push(AuctionResult::InProgress);
        self.bids.push(None);
        proof {
            assert(self@ == old(self)@.enrol(nt));
            assert(self.ids@[self.ids@.len() - 1] == x);
            assert(in_token_range(x as int) && token_of(x as int) == nt@);
        }
        Ok(nt)
    }

    /// Submits `bid` for its bidder. A bidder that never joined is refused with
    /// `WindmillError::BadRequest`. A bidder whose result is no longer `InProgress` is
    /// told `PastTime`, and nothing changes. A bid submitted at or after the deadline is
    /// told `PastTime`, is not kept, and settles the auction unless that was switched off
    /// with `set_settle_on_late_bid`. Any other bid replaces the
    /// bidder's standing bid and is told `Submitted`.
    pub fn bid(&mut self, bid: Bid) -> (r: Result<BidResult, WindmillError>)
        requires
            old(self).wf(),
            bid.quantity > 0,
        ensures
            final(self).wf(),
            !old(self)@.joined(bid.id@) ==> r == Err::<BidResult, WindmillError>(
                WindmillError::BadRequest,
            ) && final(self)@ == old(self)@,
            old(self)@.joined(bid.id@) && old(self)@.result_of(bid.id@) != Some(
                AuctionResult::InProgress,
            ) ==> r == Ok::<BidResult, WindmillError>(BidResult::PastTime) && final(self)@
                == old(self)@,
            old(self)@.result_of(bid.id@) == Some(AuctionResult::InProgress) && bid.timestamp
                >= old(self)@.deadline ==> r == Ok::<BidResult, WindmillError>(
                BidResult::PastTime,
            ) && final(self)@ == if old(self)@.settles_on_late {
                old(self)@.settle()
            } else {
                old(self)@
            },
            bid.timestamp >= old(self)@.deadline ==> r != Ok::<BidResult, WindmillError>(
                BidResult::Submitted,
            ) && final(self)@.bids == old(self)@.bids,
            old(self)@.result_of(bid.id@) == Some(AuctionResult::InProgress) && bid.timestamp
                >= old(self)@.deadline && !old(self)@.settled && old(self)@.settles_on_late
                && old(self)@.bid_of(bid.id@) is None ==> final(self)@.result_of(bid.id@) == Some(
                AuctionResult::Failure,
            ),
            old(self)@.result_of(bid.id@) == Some(AuctionResult::InProgress) && bid.timestamp
                < old(self)@.deadline ==> r == Ok::<BidResult, WindmillError>(
                BidResult::Submitted,
            ) && final(self)@ == old(self)@.submit(bid),
    {
        match self.find(&bid.id) {
            None => Err(WindmillError::BadRequest),
            Some(i) => {
                match self.results[i] {
                    AuctionResult::InProgress => {
                        if bid.timestamp < self.time {
                            self.bids.set(i, Some(bid));
                            proof {
                                assert(self@.bids =~= old(self)@.submit(bid).bids);
                            }
                            Ok(BidResult::Submitted)
                        } else {
                            if self.settle_on_late {
                                self.tabulate();
                                proof {
                                    assert(self@.tokens == old(self)@.tokens);
                                    assert(self@.slot(bid.id@) == old(self)@.slot(bid.id@));
                                }
                            }
                            Ok(BidResult::PastTime)
                        }
                    },
                    _ => Ok(BidResult::PastTime),
                }
            },
        }
    }

    /// Whether bid `a` of bidder `ia` goes before bid `b` of bidder `ib`.
    fn goes_before(a: &Bid, ia: usize, b: &Bid, ib: usize) -> (r: bool)
        ensures
            r == precedes(*a, ia as int, *b, ib as int),
    {
        a.outranks(b) || (a.same_rank(b) && ia < ib)
    }

    /// The shares asked for ahead of bidder `i`'s bid, capped at the supply.
    fn capped_ahead(&self, i: usize) -> (r: u64)
        requires
            self.wf(),
            i < self.bids@.len(),
            self.bids@[i as int] is Some,
        ensures
            r == capped(ahead(self.bids@, i as int), self.shares),
    {
        let bi = match &self.bids[i] {
            Some(b) => b,
            None => {
                proof {
                    assert(false);
                }
                return 0;
            },
        };
        let mut acc: u64 = 0;
        let mut j: usize = 0;
        while j < self.bids.len()
            invariant
                self.wf(),
                0 <= j <= self.bids@.len(),
                i < self.bids@.len(),
                self.bids@[i as int] == Some(*bi),
                demand_ahead(self.bids@, i as int, j as int) >= 0,
                acc == capped(demand_ahead(self.bids@, i as int, j as int), self.shares),
            decreases self.bids@.len() - j,
        {
            match &self.bids[j] {
                Some(bj) => {
                    if Self::goes_before(bj, j, bi, i) {
                        if bj.quantity >= self.shares - acc {
                            acc = self.shares;
                        } else {
                            acc = acc + bj.quantity;
                        }
                    }
                },
                None => {},
            }
            j += 1;
        }
        acc
    }

    /// Whether bidder `j` holds the marginal bid.
    fn marginal_at(&self, j: usize) -> (r: bool)
        requires
            self.wf(),
            j < self.bids@.len(),
        ensures
            r == is_marginal(self.bids@, self.shares, j as int),
    {
        match &self.bids[j] {
            Some(b) => {
                let c = self.capped_ahead(j);
                c < self.shares && b.quantity >= self.shares - c
            },
            None => false,
        }
    }

    /// The first bidder holding the marginal bid, or `None` when the auction does not clear.
    fn first_marginal(&self) -> (r: Option<usize>)
        requires
            self.wf(),
        ensures
            r matches Some(m) ==> is_first_marginal(self.bids@, self.shares, m as int),
            r is None ==> !clears(self.bids@, self.shares),
    {
        let mut j: usize = 0;
        while j < self.bids.len()
            invariant
                self.wf(),
                0 <= j <= self.bids@.len(),
                forall|k: int| 0 <= k < j ==> !#[trigger] is_marginal(self.bids@, self.shares, k),
            decreases self.bids@.len() - j,
        {
            if self.marginal_at(j) {
                return Some(j);
            }
            j += 1;
        }
        None
    }

    /// The result tabulation gives bidder `i`, where `marginal` is the first marginal bidder.
    fn result_at(&self, i: usize, marginal: Option<usize>) -> (r: AuctionResult)
        requires
            self.wf(),
            i < self.bids@.len(),
            marginal matches Some(m) ==> is_first_marginal(self.bids@, self.shares, m as int),
            marginal is None ==> !clears(self.bids@, self.shares),
        ensures
            r == settled_result(self.bids@, self.shares, i as int),
            within_bid(r, self.bids@[i as int]),
    {
        let m = match marginal {
            Some(m) => m,
            None => {
                return AuctionResult::Failure;
            },
        };
        let bi = match &self.bids[i] {
            Some(b) => b,
            None => {
                return AuctionResult::Failure;
            },
        };
        let c = self.capped_ahead(i);
        if c >= self.shares {
            return AuctionResult::Failure;
        }
        let bm = match &self.bids[m] {
            Some(b) => b,
            None => {
                proof {
                    assert(false);
                }
                return AuctionResult::Failure;
            },
        };
        let rest = self.shares - c;
        let q = if bi.quantity < rest {
            bi.quantity
        } else {
            rest
        };
        proof {
            let bids = self.bids@;
            assert(is_first_marginal(bids, self.shares, m as int));
            let m2 = choose|m2: int| is_first_marginal(bids, self.shares, m2);
            assert(is_first_marginal(bids, self.shares, m2));
            if m2 < m {
                assert(!is_marginal(bids, self.shares, m2));
            }
            if m < m2 {
                assert(!is_marginal(bids, self.shares, m as int));
            }
            assert(marginal_bid(bids, self.shares) == *bm);
            lemma_settled_within_bid(bids, self.shares, i as int);
        }
        let pay: u128 = wide_mul(q, bm.price) / (bm.quantity as u128);
        AuctionResult::Success { quantity: q, price: pay as u64 }
    }

    /// Settles the auction: fixes every bidder's result. A settled auction is left as it
    /// is. Returns whether the auction is settled, which it always is afterwards.
    pub fn tabulate(&mut self) -> (r: bool)
        requires
            old(self).wf(),
        ensures
            final(self).wf(),
            final(self)@ == old(self)@.settle(),
            r,
    {
        if !self.completed {
            let marginal = self.first_marginal();
            let mut i: usize = 0;
            while i < self.results.len()
                invariant
                    self.wf(),
                    0 <= i <= self.results@.len(),
                    self.time == old(self).time,
                    self.shares == old(self).shares,
                    self.tokens@ == old(self).tokens@,
                    self.bids@ == old(self).bids@,
                    self.ids@ == old(self).ids@,
                    self.completed == old(self).completed,
                    self.settle_on_late == old(self).settle_on_late,
                    self.results@.len() == old(self).results@.len(),
                    marginal matches Some(m) ==> is_first_marginal(self.bids@, self.shares, m as int),
                    marginal is None ==> !clears(self.bids@, self.shares),
                    forall|k: int|
                        0 <= k < i ==> #[trigger] self.results@[k] == settled_result(
                            self.bids@,
                            self.shares,
                            k,
                        ),
                decreases self.results@.len() - i,
            {
                let res = self.result_at(i, marginal);
                self.results.set(i, res);
                i += 1;
            }
            self.completed = true;
            proof {
                assert(self.results@ =~= old(self)@.settle().results);
            }
        }
        self.completed
    }

    /// Every admitted bidder's token with its result, in the order they joined.
    pub fn standings(&self) -> (r: Vec<(String, AuctionResult)>)
        requires
            self.wf(),
        ensures
            r@.len() == self@.tokens.len(),
            forall|i: int|
                0 <= i < r@.len() ==> (#[trigger] r@[i]).0@ == self@.tokens[i]@ && r@[i].1
                    == self@.results[i],
    {
        let mut out: Vec<(String, AuctionResult)> = Vec::new();
        let mut i: usize = 0;
        while i < self.tokens.len()
            invariant
                self.wf(),
                0 <= i <= self.tokens@.len(),
                out@.len() == i,
                forall|k: int|
                    0 <= k < i ==> (#[trigger] out@[k]).0@ == self.tokens@[k]@ && out@[k].1
                        == self.results@[k],
            decreases self.tokens@.len() - i,
        {
            out.push((self.tokens[i].clone(), self.results[i]));
            i += 1;
        }
        out
    }

    /// The standing bid of the bidder that `key` names, if it joined and has bid.
    pub fn check_bid(&self, key: &String) -> (r: Option<&Bid>)
        requires
            self.wf(),
        ensures
            r matches Some(b) ==> self@.bid_of(key@) == Some(*b),
            r is None ==> self@.bid_of(key@) is None,
    {
        match self.find(key) {
            Some(i) => match &self.bids[i] {
                Some(b) => Some(b),
                None => None,
            },
            None => None,
        }
    }

    /// The result of the bidder that `key` names, if it joined.
    pub fn check_result(&self, key: &String) -> (r: Option<&AuctionResult>)
        requires
            self.wf(),
        ensures
            r matches Some(res) ==> self@.result_of(key@) == Some(*res),
            r is None ==> self@.result_of(key@) is None,
    {
        match self.find(key) {
            Some(i) => Some(&self.results[i]),
            None => None,
        }
    }
}

} // verus!

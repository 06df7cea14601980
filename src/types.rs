use vstd::prelude::*;

verus! {

/// Errors reported by the auction ledger.
#[derive(Debug, PartialEq, Eq, Clone, Copy, Structural)]
pub enum WindmillError {
    /// The identifier generator could not produce a fresh bidder token.
    Incomplete,
    /// The request names a bidder token that never joined this auction.
    BadRequest,
    /// The auction is closed.
    ClosedAuction,
}

impl WindmillError {
    /// A human-readable description of the error.
    pub fn description(&self) -> (r: &'static str)
        ensures
            *self == WindmillError::Incomplete ==> r@ == "Incomplete user profile."@,
            *self == WindmillError::BadRequest ==> r@ == "Bad Request."@,
            *self == WindmillError::ClosedAuction ==> r@ == "Auction is closed."@,
    {
        match self {
            WindmillError::Incomplete => "Incomplete user profile.",
            WindmillError::BadRequest => "Bad Request.",
            WindmillError::ClosedAuction => "Auction is closed.",
        }
    }
}

/// A sealed bid: `quantity` shares for a total of `price`, in the minor unit of the
/// auction's currency, submitted at `timestamp` (microseconds since the Unix epoch).
#[derive(Debug, Clone)]
pub struct Bid {
    pub id: String,
    pub quantity: u64,
    pub price: u64,
    pub timestamp: i64,
}

/// `a`'s unit price (price / quantity) is strictly above `b`'s; compared exactly, by
/// cross-multiplication, which is faithful whenever both quantities are positive.
pub open spec fn unit_price_above(a: Bid, b: Bid) -> bool {
    a.price * b.quantity > b.price * a.quantity
}

/// `a` and `b` have the same unit price.
pub open spec fn unit_price_equal(a: Bid, b: Bid) -> bool {
    a.price * b.quantity == b.price * a.quantity
}

/// The ranking rule between bids: higher unit price first, then earlier submission.
pub open spec fn ranks_above(a: Bid, b: Bid) -> bool {
    unit_price_above(a, b) || (unit_price_equal(a, b) && a.timestamp < b.timestamp)
}

/// The exact product of two 64-bit values.
pub(crate) fn wide_mul(a: u64, b: u64) -> (r: u128)
    ensures
        r == a * b,
{
    proof {
        assert(a * b <= u64::MAX * u64::MAX) by (nonlinear_arith)
            requires
                a <= u64::MAX,
                b <= u64::MAX,
        ;
    }
    (a as u128) * (b as u128)
}

/// The ranking rule as an ordering: `Greater` for the bid that ranks higher.
pub open spec fn rank_cmp(a: Bid, b: Bid) -> std::cmp::Ordering {
    if ranks_above(a, b) {
        std::cmp::Ordering::Greater
    } else if ranks_above(b, a) {
        std::cmp::Ordering::Less
    } else {
        std::cmp::Ordering::Equal
    }
}

impl PartialEq for Bid {
    /// Bids are equal when their unit prices and timestamps are.
    fn eq(&self, other: &Bid) -> (r: bool) {
        self.same_rank(other)
    }
}

impl vstd::std_specs::cmp::PartialEqSpecImpl for Bid {
    open spec fn obeys_eq_spec() -> bool {
        true
    }

    open spec fn eq_spec(&self, other: &Bid) -> bool {
        unit_price_equal(*self, *other) && self.timestamp == other.timestamp
    }
}

impl PartialOrd for Bid {
    /// Orders bids by the ranking rule, the higher-ranked one being greater.
    fn partial_cmp(&self, other: &Bid) -> (r: Option<std::cmp::Ordering>) {
        if self.outranks(other) {
            Some(std::cmp::Ordering::Greater)
        } else if other.outranks(self) {
            Some(std::cmp::Ordering::Less)
        } else {
            Some(std::cmp::Ordering::Equal)
        }
    }
}

impl vstd::std_specs::cmp::PartialOrdSpecImpl for Bid {
    open spec fn obeys_partial_cmp_spec() -> bool {
        true
    }

    open spec fn partial_cmp_spec(&self, other: &Bid) -> Option<std::cmp::Ordering> {
        Some(rank_cmp(*self, *other))
    }
}

impl Bid {
    /// Whether `self` ranks strictly above `other` for settlement.
    pub fn outranks(&self, other: &Bid) -> (r: bool)
        ensures
            r == ranks_above(*self, *other),
    {
        let lhs: u128 = wide_mul(self.price, other.quantity);
        let rhs: u128 = wide_mul(other.price, self.quantity);
        lhs > rhs || (lhs == rhs && self.timestamp < other.timestamp)
    }

    /// Bids are equal for the ranking rule when unit price and timestamp coincide.
    pub fn same_rank(&self, other: &Bid) -> (r: bool)
        ensures
            r == (unit_price_equal(*self, *other) && self.timestamp == other.timestamp),
    {
        let lhs: u128 = wide_mul(self.price, other.quantity);
        let rhs: u128 = wide_mul(other.price, self.quantity);
        lhs == rhs && self.timestamp == other.timestamp
    }
}

/// The standing of one admitted bidder.
#[derive(Debug, PartialEq, Eq, Clone, Copy, Structural)]
pub enum AuctionResult {
    /// `quantity` shares allocated for a total payment of `price` (minor units): the
    /// quantity times the clearing unit price, rounded down to a whole minor unit.
    Success { quantity: u64, price: u64 },
    InProgress,
    Failure,
}

/// The outcome of submitting a bid.
#[derive(Debug, PartialEq, Eq, Clone, Copy, Structural)]
pub enum BidResult {
    PastTime,
    Submitted,
}

} // verus!

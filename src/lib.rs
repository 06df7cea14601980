//! A single-round, sealed-bid, uniform-clearing-price share auction.
//!
//! Bidders join an [`auction::Auction`], receive a token from a per-auction
//! [`ranid::RanIDs`] generator, and submit bids before a deadline. Tabulation ranks bids
//! by unit price, then by submission time, fills them from the top until the offered
//! shares run out, and charges every winner the marginal bid's unit price.

pub mod types;
pub mod ranid;
pub mod auction;

pub use auction::Auction;
pub use ranid::RanIDs;
pub mod supply;

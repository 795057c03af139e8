//! Decision logic and bookkeeping of an attention market: sealed-bid
//! auctions, an urgency-ordered work queue, and scarce resources shared among
//! consumers.
//!
//! Amounts and priorities enter the auctions and the queue as *ranks*:
//! unsigned integers that order the underlying quantities exactly as the
//! quantities order themselves (equal quantities have equal ranks). Every
//! decision taken there depends on that order alone, so the proofs are stated
//! over ranks. The resources carry their amounts as values of any type and
//! only keep track of who holds what.
pub mod order;
pub mod auction;
pub mod queue;
pub mod ledger;
pub mod scarcity;

//! Sealed-bid auctions: second-price (Vickrey) with and without a reserve.
//!
//! Bids are given by their ranks; the outcome names bids by their index in
//! the order in which they were offered.
use vstd::prelude::*;
use crate::order::{leads, runs_up, lists, first_max, first_max_except, lemma_leads_unique, lemma_runs_up_unique};

verus! {

/// What the winner of an auction pays.
#[derive(PartialEq, Eq, Structural, Debug, Clone, Copy)]
pub enum Price {
    /// The amount offered by the bid at this index.
    Bid(usize),
    /// The reserve of the auction.
    Reserve,
}

/// Outcome of a sealed-bid auction.
#[derive(Debug, Clone)]
pub struct AuctionResult {
    /// Index of the winning bid.
    pub winner: usize,
    /// What the winner pays.
    pub price: Price,
    /// Indices of the bids that took part, in the order they were offered.
    pub bids: Vec<usize>,
}

/// The rank of what is paid under `price`.
pub open spec fn price_rank(s: Seq<u64>, reserve: u64, price: Price) -> int {
    match price {
        Price::Bid(p) => s[p as int] as int,
        Price::Reserve => reserve as int,
    }
}

/// `a` lists, in increasing order, exactly the positions of `s` whose rank
/// reaches `reserve`.
pub open spec fn admitted(s: Seq<u64>, reserve: u64, a: Seq<usize>) -> bool {
    &&& forall|k: int| 0 <= k < a.len() ==> #[trigger] a[k] < s.len() && s[a[k] as int] >= reserve
    &&& forall|k: int, l: int| 0 <= k < l < a.len() ==> #[trigger] a[k] < #[trigger] a[l]
    &&& forall|i: int| 0 <= i < s.len() && s[i] >= reserve ==> #[trigger] lists(a, i)
}

/// Every position of a sequence of length `n`, in order.
pub open spec fn all_positions(n: nat) -> Seq<usize> {
    Seq::new(n, |i: int| i as usize)
}

/// `o` is the outcome of a second-price auction over the bids ranked by `s`:
/// the first highest bid wins; it pays the highest other bid (the first such
/// one), or its own bid when it is alone; every bid takes part.
pub open spec fn is_second_price_outcome(s: Seq<u64>, o: AuctionResult) -> bool {
    &&& leads(s, o.winner as int)
    &&& o.bids@ == all_positions(s.len())
    &&& if s.len() == 1 {
        o.price == Price::Bid(o.winner)
    } else {
        o.price matches Price::Bid(p) && runs_up(s, o.winner as int, p as int)
    }
}

/// `o` is the outcome of a second-price auction with reserve `reserve` over
/// the bids ranked by `s`: only bids reaching the reserve take part; the first
/// highest bid wins; a lone participant pays the reserve, otherwise the winner
/// pays the highest other bid (the first such one).
pub open spec fn is_reserve_outcome(s: Seq<u64>, reserve: u64, o: AuctionResult) -> bool {
    &&& o.bids@.len() > 0
    &&& admitted(s, reserve, o.bids@)
    &&& leads(s, o.winner as int)
    &&& if o.bids@.len() == 1 {
        o.price == Price::Reserve
    } else {
        o.price matches Price::Bid(p) && runs_up(s, o.winner as int, p as int)
    }
}

/// Runs a second-price sealed-bid auction: the highest bid wins (the earliest
/// offered among equal highest bids) and pays the second-highest bid, or its
/// own bid when it is the only one. No bids, no result.
pub fn second_price_auction(ranks: &Vec<u64>) -> (r: Option<AuctionResult>)
    ensures
        r is None <==> ranks@.len() == 0,
        r matches Some(o) ==> is_second_price_outcome(ranks@, o),
{
    let n = ranks.len();
    if n == 0 {
        return None;
    }
    let winner = first_max(ranks);
    let price = if n > 1 {
        Price::Bid(first_max_except(ranks, winner))
    } else {
        Price::Bid(winner)
    };
    let mut bids: Vec<usize> = Vec::new();
    let mut i: usize = 0;
    while i < n
        invariant
            i <= n,
            n == ranks@.len(),
            bids@ == all_positions(i as nat),
        decreases n - i,
    {
        bids.push(i);
        i = i + 1;
        assert(bids@ =~= all_positions(i as nat));
    }
    Some(AuctionResult { winner, price, bids })
}

/// Runs a second-price sealed-bid auction with a reserve: bids below the
/// reserve are dropped; a single remaining bid wins at the reserve; otherwise
/// the highest remaining bid wins and pays the larger of the second-highest
/// remaining bid and the reserve. No remaining bid, no result.
pub fn vickrey_auction(ranks: &Vec<u64>, reserve: u64) -> (r: Option<AuctionResult>)
    ensures
        r is None <==> forall|i: int| 0 <= i < ranks@.len() ==> ranks@[i] < reserve,
        r matches Some(o) ==> is_reserve_outcome(ranks@, reserve, o),
{
    let n = ranks.len();
    let mut above: Vec<usize> = Vec::new();
    let mut i: usize = 0;
    while i < n
        invariant
            i <= n,
            n == ranks@.len(),
            forall|k: int| 0 <= k < above@.len() ==> #[trigger] above@[k] < i && ranks@[above@[k] as int] >= reserve,
            forall|k: int, l: int| 0 <= k < l < above@.len() ==> #[trigger] above@[k] < #[trigger] above@[l],
            forall|x: int| 0 <= x < i && ranks@[x] >= reserve ==> #[trigger] lists(above@, x),
        decreases n - i,
    {
        if ranks[i] >= reserve {
            let ghost prev = above@;
            above.push(i);
            proof {
                assert forall|x: int| 0 <= x < i + 1 && ranks@[x] >= reserve implies #[trigger] lists(above@, x) by {
                    if x == i {
                        assert(above@[prev.len() as int] == x);
                    } else {
                        assert(lists(prev, x));
                        let m = choose|m: int| 0 <= m < prev.len() && prev[m] == x;
                        assert(above@[m] == x);
                    }
                }
            }
        }
        i = i + 1;
    }
    if above.len() == 0 {
        proof {
            assert forall|x: int| 0 <= x < ranks@.len() implies ranks@[x] < reserve by {
                if ranks@[x] >= reserve {
                    assert(lists(above@, x));
                }
            }
        }
        return None;
    }
    assert(above@[0] < ranks@.len());
    let winner = first_max(ranks);
    assert(ranks@[winner as int] >= ranks@[above@[0] as int]);
    if above.len() == 1 {
        return Some(AuctionResult { winner, price: Price::Reserve, bids: above });
    }
    assert(above@[0] < above@[1] < ranks@.len());
    let second = first_max_except(ranks, winner);
    proof {
        // One of the first two participants is not the winner, and it reaches the reserve.
        let other = if above@[0] as int == winner as int { above@[1] } else { above@[0] };
        assert(ranks@[second as int] >= ranks@[other as int]);
    }
    let price = if reserve > ranks[second] { Price::Reserve } else { Price::Bid(second) };
    Some(AuctionResult { winner, price, bids: above })
}

/// The winner of a second-price auction never pays more than it bid.
pub proof fn lemma_second_price_at_most_winning_bid(s: Seq<u64>, o: AuctionResult)
    requires
        is_second_price_outcome(s, o),
    ensures
        o.price matches Price::Bid(p) && s[p as int] <= s[o.winner as int],
{
}

/// The winner of an auction with a reserve pays at least the reserve and never
/// more than it bid.
pub proof fn lemma_reserve_price_bounds(s: Seq<u64>, reserve: u64, o: AuctionResult)
    requires
        is_reserve_outcome(s, reserve, o),
    ensures
        reserve <= price_rank(s, reserve, o.price) <= s[o.winner as int],
{
    let a = o.bids@;
    assert(a[0] < s.len() && s[a[0] as int] >= reserve);
    assert(s[o.winner as int] >= s[a[0] as int]);
    if let Price::Bid(p) = o.price {
        assert(a[0] < a[1]);
        let other = if a[0] as int == o.winner as int { a[1] } else { a[0] };
        assert(s[other as int] >= reserve);
        assert(s[p as int] >= s[other as int]);
    }
}

/// A strictly increasing list of positions of `s` that contains every one of
/// them is the list of all positions.
proof fn lemma_listing_all_positions(s: Seq<u64>, a: Seq<usize>)
    requires
        admitted(s, 0, a),
    ensures
        a == all_positions(s.len()),
{
    assert forall|k: int| 0 <= k < a.len() implies a[k] == k by {
        lemma_listing_all_positions_at(s, a, k);
    }
    if a.len() < s.len() {
        assert(lists(a, s.len() - 1));
        let m = choose|m: int| 0 <= m < a.len() && a[m] == s.len() - 1;
        assert(a[m] == m);
    }
    if a.len() > s.len() {
        assert(a[s.len() as int] == s.len());
    }
    assert(a =~= all_positions(s.len()));
}

proof fn lemma_listing_all_positions_at(s: Seq<u64>, a: Seq<usize>, k: int)
    requires
        admitted(s, 0, a),
        0 <= k < a.len(),
    ensures
        a[k] == k,
    decreases k,
{
    if k > 0 {
        lemma_listing_all_positions_at(s, a, k - 1);
        assert(a[k - 1] < a[k]);
    }
    assert(a[k] < s.len());
    assert(lists(a, k));
    let m = choose|m: int| 0 <= m < a.len() && a[m] == k;
    if m < k {
        lemma_listing_all_positions_at(s, a, m);
        assert(a[m] < a[k]);
    } else if m > k {
        assert(a[k] < a[m]);
    }
}

/// When every bid reaches the reserve and there are at least two bids, the
/// auction with a reserve has exactly the outcome of the plain second-price
/// auction: the reserve does not bind.
pub proof fn lemma_reserve_not_binding(s: Seq<u64>, reserve: u64, with_reserve: AuctionResult, plain: AuctionResult)
    requires
        s.len() >= 2,
        forall|i: int| 0 <= i < s.len() ==> s[i] >= reserve,
        is_reserve_outcome(s, reserve, with_reserve),
        is_second_price_outcome(s, plain),
    ensures
        with_reserve.winner == plain.winner,
        with_reserve.price == plain.price,
        with_reserve.bids@ == plain.bids@,
{
    let a = with_reserve.bids@;
    assert(admitted(s, 0, a)) by {
        assert forall|i: int| 0 <= i < s.len() && s[i] >= 0 implies #[trigger] lists(a, i) by {
            assert(s[i] >= reserve);
        }
    }
    lemma_listing_all_positions(s, a);
    lemma_leads_unique(s, with_reserve.winner as int, plain.winner as int);
    assert(a.len() == s.len());
    if let Price::Bid(p) = with_reserve.price {
        if let Price::Bid(q) = plain.price {
            lemma_runs_up_unique(s, plain.winner as int, p as int, q as int);
        }
    }
}

} // verus!

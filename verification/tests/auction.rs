// Ranks below are the bid amounts themselves: whole amounts order as their ranks do.
use attention::auction::{second_price_auction, vickrey_auction, Price};

fn paid(ranks: &[u64], reserve: u64, price: Price) -> u64 {
    match price {
        Price::Bid(i) => ranks[i],
        Price::Reserve => reserve,
    }
}

#[test]
fn test_auction_single_bid() {
    let bidders = ["a"];
    let ranks = vec![10];
    let r = second_price_auction(&ranks).unwrap();
    assert_eq!(bidders[r.winner], "a");
    assert_eq!(paid(&ranks, 0, r.price), 10); // own bid when alone
    assert_eq!(r.price, Price::Bid(0));
}

#[test]
fn test_auction_two_bids() {
    let bidders = ["a", "b"];
    let ranks = vec![100, 80];
    let r = second_price_auction(&ranks).unwrap();
    assert_eq!(bidders[r.winner], "a");
    assert_eq!(paid(&ranks, 0, r.price), 80); // second price
}

#[test]
fn test_auction_multiple_bids() {
    let bidders = ["a", "b", "c"];
    let ranks = vec![50, 100, 75];
    let r = second_price_auction(&ranks).unwrap();
    assert_eq!(bidders[r.winner], "b");
    assert_eq!(paid(&ranks, 0, r.price), 75);
    assert_eq!(r.bids, vec![0, 1, 2]);
}

#[test]
fn test_auction_empty() {
    assert!(second_price_auction(&vec![]).is_none());
}

#[test]
fn test_vickrey_with_reserve() {
    let bidders = ["a", "b"];
    let ranks = vec![50, 80];
    let r = vickrey_auction(&ranks, 60).unwrap();
    assert_eq!(bidders[r.winner], "b");
    assert_eq!(paid(&ranks, 60, r.price), 60); // a lone bid above the reserve pays the reserve
    assert_eq!(r.price, Price::Reserve);
    assert_eq!(r.bids, vec![1]);
}

#[test]
fn test_vickrey_all_below_reserve() {
    assert!(vickrey_auction(&vec![10], 50).is_none());
}

#[test]
fn test_auction_tie_breaking() {
    let bidders = ["a", "b"];
    let ranks = vec![100, 100];
    let r = second_price_auction(&ranks).unwrap();
    assert_eq!(paid(&ranks, 0, r.price), 100); // second price = same as first
    assert_eq!(bidders[r.winner], "a");
    assert_eq!(r.price, Price::Bid(1));
}

#[test]
fn first_of_equal_highest_bids_wins() {
    let ranks = vec![5, 9, 3, 9];
    let r = second_price_auction(&ranks).unwrap();
    assert_eq!(r.winner, 1);
    assert_eq!(r.price, Price::Bid(3));
}

#[test]
fn vickrey_drops_bids_below_reserve() {
    let ranks = vec![70, 90, 40, 80];
    let r = vickrey_auction(&ranks, 60).unwrap();
    assert_eq!(r.winner, 1);
    assert_eq!(r.price, Price::Bid(3));
    assert_eq!(r.bids, vec![0, 1, 3]);
}

#[test]
fn vickrey_bid_equal_to_reserve_takes_part() {
    let ranks = vec![60, 61];
    let r = vickrey_auction(&ranks, 60).unwrap();
    assert_eq!(r.winner, 1);
    assert_eq!(r.price, Price::Bid(0));
    assert_eq!(paid(&ranks, 60, r.price), 60);
}

#[test]
fn vickrey_without_bids_gives_none() {
    assert!(vickrey_auction(&vec![], 0).is_none());
}

#[test]
fn reserve_below_every_bid_matches_second_price() {
    let ranks = vec![12, 40, 33, 40];
    let with_reserve = vickrey_auction(&ranks, 10).unwrap();
    let plain = second_price_auction(&ranks).unwrap();
    assert_eq!(with_reserve.winner, plain.winner);
    assert_eq!(with_reserve.price, plain.price);
    assert_eq!(with_reserve.bids, plain.bids);
}

#[test]
fn price_between_reserve_and_winning_bid() {
    let ranks = vec![15, 70, 65, 20];
    let r = vickrey_auction(&ranks, 18).unwrap();
    let price = paid(&ranks, 18, r.price);
    assert!(18 <= price && price <= ranks[r.winner]);
    assert_eq!(price, 65);
}

#[test]
fn winner_never_pays_more_than_its_bid() {
    for ranks in [vec![3, 1, 2], vec![4, 4], vec![0], vec![9, 2, 9, 8]] {
        let r = second_price_auction(&ranks).unwrap();
        assert!(paid(&ranks, 0, r.price) <= ranks[r.winner]);
    }
}

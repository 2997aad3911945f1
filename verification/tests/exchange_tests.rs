use matching_engine::exchange::Exchange;
use matching_engine::types::Asset;
use matching_engine::types::Order;
use matching_engine::types::OrderError;
use matching_engine::types::RestingState;
use matching_engine::types::Side;

fn order(side: Side, price: u32, volume: u32, id: u32) -> Order {
    Order {
        asset: Asset::DRESSING,
        side,
        user_id: id,
        price,
        volume,
        order_id: id,
    }
}

#[test]
fn resting_buy_creates_one_bid_level() {
    let mut ex = Exchange::new(Asset::DRESSING);
    let out = ex.place_order(&order(Side::BUY, 10, 5, 1)).unwrap();
    assert_eq!(out.trades.len(), 0);
    assert_eq!(out.resting, RestingState::FullyRested(5));
    assert_eq!(ex.bids.best_price(), Some(10));
    assert_eq!(ex.asks.best_price(), None);
    let bids = ex.bids.iterate_from_best();
    assert_eq!(bids.len(), 1);
    assert_eq!(bids[0].0, 10);
    assert_eq!(bids[0].1, vec![(1, 1, 5)]);
    assert!(ex.asks.iterate_from_best().is_empty());
    let rested = ex.cancel_order(&1).unwrap();
    assert_eq!(rested.price, 10);
    assert_eq!(rested.volume, 5);
    assert_eq!(rested.side, Side::BUY);
}

#[test]
fn books_sort_best_first() {
    let mut ex = Exchange::new(Asset::DRESSING);
    ex.place_order(&order(Side::BUY, 10, 1, 1)).unwrap();
    ex.place_order(&order(Side::BUY, 12, 1, 2)).unwrap();
    ex.place_order(&order(Side::BUY, 11, 1, 3)).unwrap();
    ex.place_order(&order(Side::SELL, 20, 1, 4)).unwrap();
    ex.place_order(&order(Side::SELL, 22, 1, 5)).unwrap();
    ex.place_order(&order(Side::SELL, 21, 1, 6)).unwrap();
    let bid_prices: Vec<u32> = ex.bids.iterate_from_best().iter().map(|l| l.0).collect();
    assert_eq!(bid_prices, vec![12, 11, 10]);
    let ask_prices: Vec<u32> = ex.asks.iterate_from_best().iter().map(|l| l.0).collect();
    assert_eq!(ask_prices, vec![20, 21, 22]);
}

#[test]
fn crossing_buy_trades_at_maker_price_and_rests_remainder() {
    let mut ex = Exchange::new(Asset::DRESSING);
    ex.place_order(&order(Side::SELL, 10, 3, 1)).unwrap();
    let out = ex.place_order(&order(Side::BUY, 12, 5, 2)).unwrap();
    assert_eq!(out.trades.len(), 1);
    let t = &out.trades[0];
    assert_eq!(t.price, 10);
    assert_eq!(t.volume, 3);
    assert_eq!(t.buyer_id, 2);
    assert_eq!(t.seller_id, 1);
    assert_eq!(t.asset, Asset::DRESSING);
    assert_eq!(out.resting, RestingState::PartiallyRested(2));
    assert_eq!(ex.bids.best_price(), Some(12));
    assert_eq!(ex.asks.best_price(), None);
    let rested = ex.cancel_order(&2).unwrap();
    assert_eq!(rested.volume, 2);
    assert_eq!(rested.price, 12);
}

#[test]
fn equal_price_levels_match_oldest_first() {
    let mut ex = Exchange::new(Asset::DRESSING);
    ex.place_order(&order(Side::SELL, 9, 2, 1)).unwrap();
    ex.place_order(&order(Side::SELL, 9, 4, 2)).unwrap();
    let out = ex.place_order(&order(Side::BUY, 9, 5, 3)).unwrap();
    assert_eq!(out.trades.len(), 2);
    assert_eq!(out.trades[0].volume, 2);
    assert_eq!(out.trades[0].seller_id, 1);
    assert_eq!(out.trades[0].price, 9);
    assert_eq!(out.trades[1].volume, 3);
    assert_eq!(out.trades[1].seller_id, 2);
    assert_eq!(out.trades[1].price, 9);
    assert_eq!(out.resting, RestingState::NotRested);
    // id 1 was fully consumed; id 2 still rests with one unit left
    let asks = ex.asks.iterate_from_best();
    assert_eq!(asks.len(), 1);
    assert_eq!(asks[0].0, 9);
    assert_eq!(asks[0].1, vec![(2, 2, 1)]);
    assert_eq!(ex.cancel_order(&1), Err(OrderError::OrderNotFound));
    let leftover = ex.cancel_order(&2).unwrap();
    assert_eq!(leftover.volume, 1);
}

#[test]
fn better_priced_level_matches_before_worse() {
    let mut ex = Exchange::new(Asset::DRESSING);
    ex.place_order(&order(Side::SELL, 12, 1, 1)).unwrap();
    ex.place_order(&order(Side::SELL, 10, 1, 2)).unwrap();
    let out = ex.place_order(&order(Side::BUY, 12, 2, 3)).unwrap();
    assert_eq!(out.trades.len(), 2);
    assert_eq!(out.trades[0].price, 10);
    assert_eq!(out.trades[0].seller_id, 2);
    assert_eq!(out.trades[1].price, 12);
    assert_eq!(out.trades[1].seller_id, 1);
    assert_eq!(out.resting, RestingState::NotRested);
}

#[test]
fn sell_crosses_best_bid_first() {
    let mut ex = Exchange::new(Asset::DRESSING);
    ex.place_order(&order(Side::BUY, 10, 2, 1)).unwrap();
    ex.place_order(&order(Side::BUY, 11, 2, 2)).unwrap();
    let out = ex.place_order(&order(Side::SELL, 10, 3, 3)).unwrap();
    assert_eq!(out.trades.len(), 2);
    assert_eq!(out.trades[0].price, 11);
    assert_eq!(out.trades[0].buyer_id, 2);
    assert_eq!(out.trades[0].seller_id, 3);
    assert_eq!(out.trades[0].volume, 2);
    assert_eq!(out.trades[1].price, 10);
    assert_eq!(out.trades[1].buyer_id, 1);
    assert_eq!(out.trades[1].volume, 1);
    assert_eq!(out.resting, RestingState::NotRested);
    assert_eq!(ex.bids.best_price(), Some(10));
}

#[test]
fn trade_ids_count_up_across_calls() {
    let mut ex = Exchange::new(Asset::RYE);
    let mut o1 = order(Side::SELL, 10, 1, 1);
    o1.asset = Asset::RYE;
    let mut o2 = order(Side::SELL, 10, 1, 2);
    o2.asset = Asset::RYE;
    ex.place_order(&o1).unwrap();
    ex.place_order(&o2).unwrap();
    let mut b1 = order(Side::BUY, 10, 1, 3);
    b1.asset = Asset::RYE;
    let mut b2 = order(Side::BUY, 10, 1, 4);
    b2.asset = Asset::RYE;
    let out1 = ex.place_order(&b1).unwrap();
    let out2 = ex.place_order(&b2).unwrap();
    assert_eq!(out1.trades[0].id, 0);
    assert_eq!(out2.trades[0].id, 1);
}

#[test]
fn partial_fill_keeps_front_order_in_place() {
    let mut ex = Exchange::new(Asset::DRESSING);
    ex.place_order(&order(Side::SELL, 10, 5, 1)).unwrap();
    ex.place_order(&order(Side::SELL, 10, 5, 2)).unwrap();
    let out = ex.place_order(&order(Side::BUY, 10, 3, 3)).unwrap();
    assert_eq!(out.trades.len(), 1);
    assert_eq!(out.trades[0].seller_id, 1);
    assert_eq!(out.trades[0].volume, 3);
    // the partially filled order id 1 is still first in line
    let out2 = ex.place_order(&order(Side::BUY, 10, 3, 4)).unwrap();
    assert_eq!(out2.trades.len(), 2);
    assert_eq!(out2.trades[0].seller_id, 1);
    assert_eq!(out2.trades[0].volume, 2);
    assert_eq!(out2.trades[1].seller_id, 2);
    assert_eq!(out2.trades[1].volume, 1);
}

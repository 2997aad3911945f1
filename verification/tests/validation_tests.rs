use matching_engine::exchange::Exchange;
use matching_engine::types::Asset;
use matching_engine::types::Order;
use matching_engine::types::OrderError;
use matching_engine::types::RestingState;
use matching_engine::types::Side;
use matching_engine::types::MAX_PRICE;
use matching_engine::types::MAX_VOLUME;
use matching_engine::types::MIN_PRICE;
use matching_engine::types::MIN_VOLUME;

fn order(side: Side, price: u32, volume: u32, id: u32) -> Order {
    Order {
        asset: Asset::DRESSING,
        side,
        user_id: id,
        price,
        volume,
        order_id: id,
    }
}

#[test]
fn price_below_minimum_is_rejected_without_mutation() {
    let mut ex = Exchange::new(Asset::DRESSING);
    ex.place_order(&order(Side::SELL, 10, 3, 1)).unwrap();
    let r = ex.place_order(&order(Side::BUY, MIN_PRICE - 1, 5, 2));
    assert_eq!(r.unwrap_err(), OrderError::InvalidPrice);
    // the book is untouched: the resting sell still has its full volume
    assert_eq!(ex.asks.best_price(), Some(10));
    let rested = ex.cancel_order(&1).unwrap();
    assert_eq!(rested.volume, 3);
}

#[test]
fn price_above_maximum_is_rejected() {
    let mut ex = Exchange::new(Asset::DRESSING);
    let r = ex.place_order(&order(Side::BUY, MAX_PRICE + 1, 5, 1));
    assert_eq!(r.unwrap_err(), OrderError::InvalidPrice);
    assert_eq!(ex.bids.best_price(), None);
}

#[test]
fn volume_above_maximum_is_rejected_without_mutation() {
    let mut ex = Exchange::new(Asset::DRESSING);
    ex.place_order(&order(Side::SELL, 10, 3, 1)).unwrap();
    let r = ex.place_order(&order(Side::BUY, 10, MAX_VOLUME + 1, 2));
    assert_eq!(r.unwrap_err(), OrderError::InvalidVolume);
    assert_eq!(ex.asks.best_price(), Some(10));
    let rested = ex.cancel_order(&1).unwrap();
    assert_eq!(rested.volume, 3);
}

#[test]
fn volume_below_minimum_is_rejected() {
    let mut ex = Exchange::new(Asset::DRESSING);
    let r = ex.place_order(&order(Side::BUY, 10, MIN_VOLUME - 1, 1));
    assert_eq!(r.unwrap_err(), OrderError::InvalidVolume);
}

#[test]
fn extreme_accepted_bounds_rest() {
    let mut ex = Exchange::new(Asset::DRESSING);
    let out = ex.place_order(&order(Side::BUY, MAX_PRICE, MAX_VOLUME, 1)).unwrap();
    assert_eq!(out.resting, RestingState::FullyRested(MAX_VOLUME));
    let out2 = ex.place_order(&order(Side::SELL, MAX_PRICE, MIN_VOLUME, 2)).unwrap();
    assert_eq!(out2.trades.len(), 1);
    assert_eq!(out2.trades[0].volume, MIN_VOLUME);
}

#[test]
fn mismatched_asset_is_rejected() {
    let mut ex = Exchange::new(Asset::SWISS);
    let r = ex.place_order(&order(Side::BUY, 10, 5, 1));
    assert_eq!(r.unwrap_err(), OrderError::AssetMismatch);
    let mut pastrami = order(Side::BUY, 10, 5, 1);
    pastrami.asset = Asset::PASTRAMI;
    let r2 = ex.place_order(&pastrami);
    assert_eq!(r2.unwrap_err(), OrderError::AssetMismatch);
}

#[test]
fn duplicate_resting_id_is_rejected() {
    let mut ex = Exchange::new(Asset::DRESSING);
    ex.place_order(&order(Side::BUY, 10, 5, 1)).unwrap();
    let r = ex.place_order(&order(Side::SELL, 20, 5, 1));
    assert_eq!(r.unwrap_err(), OrderError::DuplicateOrderId);
    // a fully consumed id may be used again
    let mut ex2 = Exchange::new(Asset::DRESSING);
    ex2.place_order(&order(Side::SELL, 10, 5, 7)).unwrap();
    ex2.place_order(&order(Side::BUY, 10, 5, 8)).unwrap();
    let out = ex2.place_order(&order(Side::BUY, 10, 5, 7)).unwrap();
    assert_eq!(out.resting, RestingState::FullyRested(5));
}

#[test]
fn cancelling_twice_succeeds_then_misses() {
    let mut ex = Exchange::new(Asset::DRESSING);
    ex.place_order(&order(Side::SELL, 15, 4, 1)).unwrap();
    let first = ex.cancel_order(&1);
    assert!(first.is_ok());
    assert_eq!(first.unwrap().volume, 4);
    let second = ex.cancel_order(&1);
    assert_eq!(second.unwrap_err(), OrderError::OrderNotFound);
}

#[test]
fn cancelling_unknown_id_misses() {
    let mut ex = Exchange::new(Asset::DRESSING);
    assert_eq!(ex.cancel_order(&42).unwrap_err(), OrderError::OrderNotFound);
}

#[test]
fn cancelled_order_no_longer_matches() {
    let mut ex = Exchange::new(Asset::DRESSING);
    ex.place_order(&order(Side::SELL, 10, 2, 1)).unwrap();
    ex.place_order(&order(Side::SELL, 10, 4, 2)).unwrap();
    ex.cancel_order(&1).unwrap();
    let out = ex.place_order(&order(Side::BUY, 10, 2, 3)).unwrap();
    assert_eq!(out.trades.len(), 1);
    assert_eq!(out.trades[0].seller_id, 2);
    assert_eq!(out.trades[0].volume, 2);
}

#[test]
fn pruned_level_leaves_no_best_price() {
    let mut ex = Exchange::new(Asset::DRESSING);
    ex.place_order(&order(Side::SELL, 10, 2, 1)).unwrap();
    ex.place_order(&order(Side::BUY, 10, 2, 2)).unwrap();
    assert_eq!(ex.asks.best_price(), None);
    assert_eq!(ex.bids.best_price(), None);
}

//! The exchange facade: one bid book and one ask book for a single asset,
//! a monotonic trade-id counter, and the validated entry points
//! `place_order` and `cancel_order`.

use vstd::prelude::*;

use crate::book::book_insert;
use crate::book::book_remove;
use crate::book::book_wf;
use crate::book::id_in_book;
use crate::book::queue_has;
use crate::book::queue_index_of;
use crate::book::Book;
use crate::engine::match_incoming;
use crate::engine::match_rec;
use crate::types::opposite;
use crate::types::price_ok;
use crate::types::volume_ok;
use crate::types::Asset;
use crate::types::Order;
use crate::types::OrderError;
use crate::types::PlacementOutcome;
use crate::types::RestingState;
use crate::types::Side;
use crate::types::Trade;
use crate::types::MAX_PRICE;
use crate::types::MAX_VOLUME;
use crate::types::MIN_PRICE;
use crate::types::MIN_VOLUME;

verus! {

/// Matches an incoming order against the opposite book and rests any
/// unfilled remainder in its own book.
fn place_core(
    own: &mut Book,
    opp: &mut Book,
    taker: Side,
    price: u32,
    volume: u32,
    order_id: u32,
    user_id: u32,
    asset: Asset,
    start_id: u32,
) -> (r: (Vec<Trade>, u32))
    requires
        old(own).wf(),
        old(opp).wf(),
        old(own).side == taker,
        old(opp).side == opposite(taker),
        price_ok(price),
        volume_ok(volume),
        !id_in_book(old(own).model(), order_id),
        start_id + volume <= u32::MAX,
    ensures
        final(own).wf(),
        final(opp).wf(),
        final(own).side == taker,
        final(opp).side == opposite(taker),
        ({
            let mr = match_rec(old(opp).model(), taker, price, volume, asset, user_id, start_id);
            &&& r.0@ == mr.0
            &&& r.1 == mr.2
            &&& final(opp).model() == mr.1
            &&& final(own).model() == (if mr.2 > 0 {
                book_insert(old(own).model(), taker, price, (order_id, user_id, mr.2))
            } else {
                old(own).model()
            })
        }),
        r.0@.len() <= volume,
        r.1 <= volume,
        forall|id: u32| id_in_book(final(opp).model(), id) ==> id_in_book(old(opp).model(), id),
        forall|id: u32|
            id_in_book(final(own).model(), id) <==> id_in_book(old(own).model(), id) || (r.1 > 0
                && id == order_id),
{
    let (trades, rem) = match_incoming(opp, taker, price, volume, asset, user_id, start_id);
    if rem > 0 {
        own.insert_order(price, order_id, user_id, rem);
    }
    (trades, rem)
}

/// The matching core of a single-asset venue: owns both books and produces
/// the trades that incoming orders cause.
pub struct Exchange {
    pub asset: Asset,
    pub bids: Book,
    pub asks: Book,
    pub next_trade_id: u32,
}

impl Exchange {
    /// Well-formedness: both books are well formed for their sides and no
    /// order id rests on both sides at once.
    pub open spec fn wf(self) -> bool {
        &&& self.bids.wf()
        &&& self.bids.side == Side::BUY
        &&& self.asks.wf()
        &&& self.asks.side == Side::SELL
        &&& forall|id: u32|
            !((#[trigger] id_in_book(self.bids.model(), id)) && id_in_book(
                self.asks.model(),
                id,
            ))
    }

    /// Whether an order with the given id currently rests in either book.
    pub open spec fn id_resting(self, order_id: u32) -> bool {
        id_in_book(self.bids.model(), order_id) || id_in_book(self.asks.model(), order_id)
    }

    /// A new exchange for the given asset, with both books empty and trade
    /// ids starting at zero.
    pub fn new(asset: Asset) -> (r: Exchange)
        ensures
            r.wf(),
            r.asset == asset,
            r.bids.model() == Seq::<(u32, Seq<(u32, u32, u32)>)>::empty(),
            r.asks.model() == Seq::<(u32, Seq<(u32, u32, u32)>)>::empty(),
            r.next_trade_id == 0,
    {
        Exchange {
            asset,
            bids: Book::new(Side::BUY),
            asks: Book::new(Side::SELL),
            next_trade_id: 0,
        }
    }

    /// Validates an incoming order, matches it against the opposite book and
    /// rests any unfilled remainder; trades carry consecutive ids from the
    /// exchange's counter.
    ///
    /// Rejections (bad price, bad volume, wrong asset, or an id already
    /// resting) happen strictly before any book mutation.
    pub fn place_order(&mut self, order: &Order) -> (r: Result<PlacementOutcome, OrderError>)
        requires
            old(self).wf(),
            old(self).next_trade_id + MAX_VOLUME <= u32::MAX,
        ensures
            final(self).wf(),
            final(self).asset == old(self).asset,
            match r {
                Result::Ok(outcome) => ({
                    let taker = order.side;
                    let opp0 = if taker == Side::BUY {
                        old(self).asks.model()
                    } else {
                        old(self).bids.model()
                    };
                    let own0 = if taker == Side::BUY {
                        old(self).bids.model()
                    } else {
                        old(self).asks.model()
                    };
                    let oppf = if taker == Side::BUY {
                        final(self).asks.model()
                    } else {
                        final(self).bids.model()
                    };
                    let ownf = if taker == Side::BUY {
                        final(self).bids.model()
                    } else {
                        final(self).asks.model()
                    };
                    let mr = match_rec(
                        opp0,
                        taker,
                        order.price,
                        order.volume,
                        old(self).asset,
                        order.user_id,
                        old(self).next_trade_id,
                    );
                    &&& price_ok(order.price)
                    &&& volume_ok(order.volume)
                    &&& order.asset == old(self).asset
                    &&& !old(self).id_resting(order.order_id)
                    &&& outcome.trades@ == mr.0
                    &&& oppf == mr.1
                    &&& ownf == (if mr.2 > 0 {
                        book_insert(own0, taker, order.price, (order.order_id, order.user_id, mr.2))
                    } else {
                        own0
                    })
                    &&& final(self).next_trade_id == old(self).next_trade_id + mr.0.len()
                    &&& outcome.resting == (if mr.2 == 0 {
                        RestingState::NotRested
                    } else if mr.2 == order.volume {
                        RestingState::FullyRested(mr.2)
                    } else {
                        RestingState::PartiallyRested(mr.2)
                    })
                }),
                Result::Err(e) => *final(self) == *old(self) && match e {
                    OrderError::InvalidPrice => !price_ok(order.price),
                    OrderError::InvalidVolume => price_ok(order.price) && !volume_ok(order.volume),
                    OrderError::AssetMismatch => price_ok(order.price) && volume_ok(order.volume)
                        && order.asset != old(self).asset,
                    OrderError::DuplicateOrderId => price_ok(order.price) && volume_ok(order.volume)
                        && order.asset == old(self).asset && old(self).id_resting(order.order_id),
                    OrderError::OrderNotFound => false,
                },
            },
    {
        if order.price < MIN_PRICE || order.price > MAX_PRICE {
            return Result::Err(OrderError::InvalidPrice);
        }
        if order.volume < MIN_VOLUME || order.volume > MAX_VOLUME {
            return Result::Err(OrderError::InvalidVolume);
        }
        if order.asset != self.asset {
            return Result::Err(OrderError::AssetMismatch);
        }
        if self.bids.contains_id(order.order_id) || self.asks.contains_id(order.order_id) {
            return Result::Err(OrderError::DuplicateOrderId);
        }
        let asset = self.asset;
        let start_id = self.next_trade_id;
        let (trades, rem) = match order.side {
            Side::BUY => place_core(
                &mut self.bids,
                &mut self.asks,
                Side::BUY,
                order.price,
                order.volume,
                order.order_id,
                order.user_id,
                asset,
                start_id,
            ),
            Side::SELL => place_core(
                &mut self.asks,
                &mut self.bids,
                Side::SELL,
                order.price,
                order.volume,
                order.order_id,
                order.user_id,
                asset,
                start_id,
            ),
        };
        self.next_trade_id = self.next_trade_id + (trades.len() as u32);
        let resting = if rem == 0 {
            RestingState::NotRested
        } else if rem == order.volume {
            RestingState::FullyRested(rem)
        } else {
            RestingState::PartiallyRested(rem)
        };
        proof {
            assert forall|id: u32|
                !((#[trigger] id_in_book(self.bids.model(), id)) && id_in_book(
                    self.asks.model(),
                    id,
                )) by {
                if id_in_book(self.bids.model(), id) && id_in_book(self.asks.model(), id) {
                    if id == order.order_id {
                        assert(old(self).id_resting(id));
                    } else {
                        assert(id_in_book(old(self).bids.model(), id));
                        assert(id_in_book(old(self).asks.model(), id));
                    }
                }
            }
        }
        Result::Ok(PlacementOutcome { trades, resting })
    }

    /// What a successful cancellation means: the returned order was resting
    /// in the book of its side with exactly these fields, it no longer rests
    /// anywhere, and only that book changed, by removing it.
    pub open spec fn cancel_ok(pre: Exchange, post: Exchange, order_id: u32, order: Order) -> bool {
        &&& pre.id_resting(order_id)
        &&& !post.id_resting(order_id)
        &&& order.order_id == order_id
        &&& order.asset == pre.asset
        &&& volume_ok(order.volume)
        &&& price_ok(order.price)
        &&& (order.side == Side::BUY ==> id_in_book(pre.bids.model(), order_id)
            && post.bids.model() == book_remove(pre.bids.model(), order_id) && post.asks.model()
            == pre.asks.model() && (exists|i: int, k: int|
            0 <= i < pre.bids.model().len() && 0 <= k < pre.bids.model()[i].1.len()
                && pre.bids.model()[i].0 == order.price && (#[trigger] pre.bids.model()[i].1[k])
                == (order_id, order.user_id, order.volume)))
        &&& (order.side == Side::SELL ==> id_in_book(pre.asks.model(), order_id)
            && post.asks.model() == book_remove(pre.asks.model(), order_id) && post.bids.model()
            == pre.bids.model() && (exists|i: int, k: int|
            0 <= i < pre.asks.model().len() && 0 <= k < pre.asks.model()[i].1.len()
                && pre.asks.model()[i].0 == order.price && (#[trigger] pre.asks.model()[i].1[k])
                == (order_id, order.user_id, order.volume)))
    }

    /// Removes the resting order with the given id from whichever book holds
    /// it, returning it; reports `OrderNotFound` when the id does not rest.
    #[verifier::rlimit(100)]
    pub fn cancel_order(&mut self, order_id: &u32) -> (r: Result<Order, OrderError>)
        requires
            old(self).wf(),
        ensures
            final(self).wf(),
            final(self).asset == old(self).asset,
            final(self).next_trade_id == old(self).next_trade_id,
            match r {
                Result::Ok(order) => Exchange::cancel_ok(*old(self), *final(self), *order_id, order),
                Result::Err(e) => e == OrderError::OrderNotFound && !old(self).id_resting(*order_id)
                    && *final(self) == *old(self),
            },
    {
        match self.bids.remove_order(*order_id) {
            Some((price, user_id, volume)) => {
                let removed = Order {
                    asset: self.asset,
                    side: Side::BUY,
                    user_id,
                    price,
                    volume,
                    order_id: *order_id,
                };
                proof {
                    let m0 = old(self).bids.model();
                    let (i, k) = choose|i: int, k: int|
                        0 <= i < m0.len() && 0 <= k < m0[i].1.len() && m0[i].0 == price && (
                        #[trigger] m0[i].1[k]) == (*order_id, user_id, volume);
                    assert(m0[i].1[k] == (*order_id, user_id, volume));
                    assert(volume_ok(m0[i].1[k].2) && price_ok(m0[i].0));
                    assert(!id_in_book(old(self).asks.model(), *order_id));
                    assert(Exchange::cancel_ok(*old(self), *self, *order_id, removed));
                }
                Result::Ok(removed)
            },
            None => match self.asks.remove_order(*order_id) {
                Some((price, user_id, volume)) => {
                    let removed = Order {
                        asset: self.asset,
                        side: Side::SELL,
                        user_id,
                        price,
                        volume,
                        order_id: *order_id,
                    };
                    proof {
                        let m0 = old(self).asks.model();
                        let (i, k) = choose|i: int, k: int|
                            0 <= i < m0.len() && 0 <= k < m0[i].1.len() && m0[i].0 == price && (
                            #[trigger] m0[i].1[k]) == (*order_id, user_id, volume);
                        assert(m0[i].1[k] == (*order_id, user_id, volume));
                        assert(volume_ok(m0[i].1[k].2) && price_ok(m0[i].0));
                        assert(Exchange::cancel_ok(*old(self), *self, *order_id, removed));
                    }
                    Result::Ok(removed)
                },
                None => Result::Err(OrderError::OrderNotFound),
            },
        }
    }
}

/// Cancellation law: once an order id has been removed from a well-formed
/// book it no longer rests there, so a second cancellation of the same id
/// must report a miss rather than succeed again.
pub proof fn lemma_cancelled_id_absent(
    book: Seq<(u32, Seq<(u32, u32, u32)>)>,
    side: Side,
    order_id: u32,
)
    requires
        book_wf(book, side),
    ensures
        !id_in_book(book_remove(book, order_id), order_id),
    decreases book.len(),
{
    if book.len() == 0 {
    } else if queue_has(book[0].1, order_id) {
        let q = book[0].1;
        let k0 = queue_index_of(q, order_id);
        assert(0 <= k0 < q.len() && q[k0].0 == order_id);
        let q2 = q.remove(k0);
        q.remove_ensures(k0);
        let n = book_remove(book, order_id);
        if q2.len() == 0 {
            if id_in_book(n, order_id) {
                let (i, k) = choose|i: int, k: int|
                    0 <= i < n.len() && 0 <= k < n[i].1.len() && (#[trigger] n[i].1[k]).0
                        == order_id;
                assert(book[i + 1].1[k].0 == order_id);
                assert(false);
            }
        } else {
            if id_in_book(n, order_id) {
                let (i, k) = choose|i: int, k: int|
                    0 <= i < n.len() && 0 <= k < n[i].1.len() && (#[trigger] n[i].1[k]).0
                        == order_id;
                if i == 0 {
                    let ok = if k < k0 {
                        k
                    } else {
                        k + 1
                    };
                    assert(book[0].1[ok].0 == order_id);
                    assert(ok == k0);
                    assert(false);
                } else {
                    assert(book[i].1[k].0 == order_id);
                    assert(i == 0);
                    assert(false);
                }
            }
        }
    } else {
        crate::book::lemma_wf_tail(book, side);
        lemma_cancelled_id_absent(book.drop_first(), side, order_id);
        let n = book_remove(book, order_id);
        let tailr = book_remove(book.drop_first(), order_id);
        if id_in_book(n, order_id) {
            let (i, k) = choose|i: int, k: int|
                0 <= i < n.len() && 0 <= k < n[i].1.len() && (#[trigger] n[i].1[k]).0 == order_id;
            if i == 0 {
                assert(n[0] == book[0]);
                assert(queue_has(book[0].1, order_id));
                assert(false);
            } else {
                assert(n[i] == tailr[i - 1]);
                assert(id_in_book(tailr, order_id));
                assert(false);
            }
        }
    }
}

} // verus!

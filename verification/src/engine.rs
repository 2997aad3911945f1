//! The matching algorithm: an incoming order consumes crossing liquidity
//! from the opposite book, best price first and oldest order first, emitting
//! one trade per resting order it touches.

use vstd::prelude::*;

use crate::book::better;
use crate::book::book_wf;
use crate::book::id_in_book;
use crate::book::Book;
use crate::types::crosses;
use crate::types::opposite;
use crate::types::volume_ok;
use crate::types::Asset;
use crate::types::Side;
use crate::types::Trade;

verus! {

/// What matching an incoming order against the opposite book produces: the
/// emitted trades in order, the book it leaves behind, and the unfilled
/// remainder.
///
/// While volume remains and the best opposite price crosses the limit, the
/// oldest order at that price is matched at its own (maker) price for the
/// smaller of the two volumes; a fully consumed maker leaves its queue and an
/// emptied level is pruned, while a partially consumed maker stays at the
/// front with the difference.  Trade ids count up from `next_id`.
pub open spec fn match_rec(
    book: Seq<(u32, Seq<(u32, u32, u32)>)>,
    taker: Side,
    limit: u32,
    remaining: u32,
    asset: Asset,
    taker_user: u32,
    next_id: u32,
) -> (Seq<Trade>, Seq<(u32, Seq<(u32, u32, u32)>)>, u32)
    decreases book.len(), (if book.len() > 0 { book[0].1.len() } else { 0 }),
{
    if remaining == 0 || book.len() == 0 || !crosses(taker, limit, book[0].0) || book[0].1.len()
        == 0 {
        (Seq::<Trade>::empty(), book, remaining)
    } else {
        let price = book[0].0;
        let q = book[0].1;
        let e = q[0];
        let matched = if remaining < e.2 {
            remaining
        } else {
            e.2
        };
        let t = Trade {
            asset,
            buyer_id: if taker == Side::BUY {
                taker_user
            } else {
                e.1
            },
            seller_id: if taker == Side::BUY {
                e.1
            } else {
                taker_user
            },
            price,
            volume: matched,
            id: next_id,
        };
        if e.2 > remaining {
            let q2 = q.update(0, (e.0, e.1, (e.2 - remaining) as u32));
            (seq![t], book.update(0, (price, q2)), 0u32)
        } else {
            let q2 = q.drop_first();
            let book2 = if q2.len() == 0 {
                book.drop_first()
            } else {
                book.update(0, (price, q2))
            };
            let rest = match_rec(
                book2,
                taker,
                limit,
                (remaining - e.2) as u32,
                asset,
                taker_user,
                (next_id + 1) as u32,
            );
            (seq![t] + rest.0, rest.1, rest.2)
        }
    }
}

/// Runs the matching loop of an incoming order against the opposite book,
/// mutating it in place; returns the emitted trades and the unfilled
/// remainder, exactly as [`match_rec`] describes.
#[verifier::loop_isolation(false)]
#[verifier::rlimit(100)]
pub fn match_incoming(
    opp: &mut Book,
    taker: Side,
    limit: u32,
    volume: u32,
    asset: Asset,
    taker_user: u32,
    start_id: u32,
) -> (r: (Vec<Trade>, u32))
    requires
        old(opp).wf(),
        old(opp).side == opposite(taker),
        start_id + volume <= u32::MAX,
    ensures
        final(opp).wf(),
        final(opp).side == old(opp).side,
        ({
            let mr = match_rec(old(opp).model(), taker, limit, volume, asset, taker_user, start_id);
            r.0@ == mr.0 && final(opp).model() == mr.1 && r.1 == mr.2
        }),
        r.0@.len() <= volume,
        r.1 <= volume,
        forall|id: u32| id_in_book(final(opp).model(), id) ==> id_in_book(old(opp).model(), id),
{
    let ghost m_init = old(opp).model();
    let ghost mr_total = match_rec(m_init, taker, limit, volume, asset, taker_user, start_id);
    let mut trades: Vec<Trade> = Vec::new();
    let mut remaining = volume;
    let mut tid = start_id;
    while remaining > 0 && opp.best_crosses(taker, limit)
        invariant
            opp.wf(),
            opp.side == opposite(taker),
            remaining <= volume,
            tid == start_id + trades@.len(),
            trades@.len() <= volume - remaining,
            forall|id: u32| id_in_book(opp.model(), id) ==> id_in_book(m_init, id),
            ({
                let sub = match_rec(opp.model(), taker, limit, remaining, asset, taker_user, tid);
                mr_total.0 == trades@ + sub.0 && mr_total.1 == sub.1 && mr_total.2 == sub.2
            }),
        decreases remaining,
    {
        let ghost m_pre = opp.model();
        let ghost trades_pre = trades@;
        let (price, oid, uid, vol) = opp.front_of_best();
        proof {
            assert(m_pre[0].1.len() > 0);
            assert(volume_ok((m_pre[0].1[0]).2));
        }
        let matched = if remaining < vol {
            remaining
        } else {
            vol
        };
        let t = match taker {
            Side::BUY => Trade {
                asset,
                buyer_id: taker_user,
                seller_id: uid,
                price,
                volume: matched,
                id: tid,
            },
            Side::SELL => Trade {
                asset,
                buyer_id: uid,
                seller_id: taker_user,
                price,
                volume: matched,
                id: tid,
            },
        };
        trades.push(t);
        tid = tid + 1;
        if vol > remaining {
            opp.reduce_front_order(vol - remaining);
            remaining = 0;
        } else {
            opp.pop_front_order();
            remaining = remaining - vol;
        }
        proof {
            let sub_pre = match_rec(m_pre, taker, limit, (remaining + matched) as u32, asset, taker_user, (tid - 1) as u32);
            let sub_now = match_rec(opp.model(), taker, limit, remaining, asset, taker_user, tid);
            if vol > matched {
                assert(sub_pre.0 =~= seq![t]);
                assert(trades@ + sub_now.0 =~= trades_pre + sub_pre.0);
            } else {
                assert(sub_pre.0 == seq![t] + sub_now.0);
                assert(trades@ + sub_now.0 =~= trades_pre + sub_pre.0);
            }
        }
    }
    proof {
        let sub = match_rec(opp.model(), taker, limit, remaining, asset, taker_user, tid);
        assert(sub.0 =~= Seq::<Trade>::empty());
        assert(trades@ + sub.0 =~= trades@);
    }
    (trades, remaining)
}

/// The total volume carried by a sequence of trades.
pub open spec fn trade_volume_sum(ts: Seq<Trade>) -> int
    decreases ts.len(),
{
    if ts.len() == 0 {
        0
    } else {
        ts[0].volume + trade_volume_sum(ts.drop_first())
    }
}

proof fn lemma_trade_volume_sum_cons(t: Trade, ts: Seq<Trade>)
    ensures
        trade_volume_sum(seq![t] + ts) == t.volume + trade_volume_sum(ts),
{
    let s = seq![t] + ts;
    assert(s.len() > 0 && s[0] == t);
    assert(s.drop_first() =~= ts);
}

/// The book left by one matching step is still well formed.
proof fn lemma_wf_after_step(book: Seq<(u32, Seq<(u32, u32, u32)>)>, side: Side)
    requires
        book_wf(book, side),
        book.len() > 0,
        book[0].1.len() > 0,
    ensures
        book[0].1.len() == 1 ==> book_wf(book.drop_first(), side),
        book[0].1.len() > 1 ==> book_wf(
            book.update(0, (book[0].0, book[0].1.drop_first())),
            side,
        ),
{
    let q = book[0].1;
    if q.len() == 1 {
        crate::book::lemma_wf_tail(book, side);
    } else {
        crate::book::lemma_wf_remove_entry(book, side, 0, 0);
        assert(q.remove(0) =~= q.drop_first());
    }
}

/// Volume conservation law: the volumes of the trades emitted for one
/// incoming order sum to exactly the volume it had minus what is left of it,
/// every trade moves at least one unit, and no prefix of the trades moves
/// more than the incoming volume — so each trade's volume is at most the
/// incoming order's remaining volume just before that trade.
pub proof fn lemma_volume_conservation(
    book: Seq<(u32, Seq<(u32, u32, u32)>)>,
    taker: Side,
    limit: u32,
    remaining: u32,
    asset: Asset,
    taker_user: u32,
    next_id: u32,
)
    requires
        book_wf(book, opposite(taker)),
    ensures
        ({
            let mr = match_rec(book, taker, limit, remaining, asset, taker_user, next_id);
            &&& trade_volume_sum(mr.0) + mr.2 == remaining
            &&& forall|n: int| 0 <= n < mr.0.len() ==> 1 <= (#[trigger] mr.0[n]).volume
            &&& forall|n: int|
                0 <= n <= mr.0.len() ==> trade_volume_sum(#[trigger] mr.0.subrange(0, n))
                    <= remaining
        }),
    decreases book.len(), (if book.len() > 0 { book[0].1.len() } else { 0 }),
{
    let mr = match_rec(book, taker, limit, remaining, asset, taker_user, next_id);
    if remaining == 0 || book.len() == 0 || !crosses(taker, limit, book[0].0) || book[0].1.len()
        == 0 {
        assert(trade_volume_sum(mr.0) == 0);
        assert forall|n: int| 0 <= n <= mr.0.len() implies trade_volume_sum(
            #[trigger] mr.0.subrange(0, n),
        ) <= remaining by {
            assert(mr.0.subrange(0, n) =~= mr.0);
        }
    } else {
        let q = book[0].1;
        let e = q[0];
        assert(volume_ok((book[0].1[0]).2));
        if e.2 > remaining {
            let t = mr.0[0];
            lemma_trade_volume_sum_cons(t, Seq::<Trade>::empty());
            assert(mr.0 =~= seq![t] + Seq::<Trade>::empty());
            assert(trade_volume_sum(mr.0) == remaining);
            assert forall|n: int| 0 <= n <= mr.0.len() implies trade_volume_sum(
                #[trigger] mr.0.subrange(0, n),
            ) <= remaining by {
                if n == 0 {
                    assert(mr.0.subrange(0, 0) =~= Seq::<Trade>::empty());
                } else {
                    assert(mr.0.subrange(0, n) =~= mr.0);
                }
            }
        } else {
            let q2 = q.drop_first();
            let book2 = if q2.len() == 0 {
                book.drop_first()
            } else {
                book.update(0, (book[0].0, q2))
            };
            lemma_wf_after_step(book, opposite(taker));
            let rem2 = (remaining - e.2) as u32;
            lemma_volume_conservation(book2, taker, limit, rem2, asset, taker_user, (next_id + 1) as u32);
            let rest = match_rec(book2, taker, limit, rem2, asset, taker_user, (next_id + 1) as u32);
            let t = mr.0[0];
            assert(mr.0 =~= seq![t] + rest.0);
            lemma_trade_volume_sum_cons(t, rest.0);
            assert forall|n: int| 0 <= n < mr.0.len() implies 1 <= (#[trigger] mr.0[n]).volume by {
                if n > 0 {
                    assert(mr.0[n] == rest.0[n - 1]);
                }
            }
            assert forall|n: int| 0 <= n <= mr.0.len() implies trade_volume_sum(
                #[trigger] mr.0.subrange(0, n),
            ) <= remaining by {
                if n == 0 {
                    assert(mr.0.subrange(0, 0) =~= Seq::<Trade>::empty());
                } else {
                    assert(mr.0.subrange(0, n) =~= seq![t] + rest.0.subrange(0, n - 1));
                    lemma_trade_volume_sum_cons(t, rest.0.subrange(0, n - 1));
                    assert(trade_volume_sum(rest.0.subrange(0, n - 1)) <= rem2);
                }
            }
        }
    }
}

/// The user id of the resting (maker) side of a trade, given the side the
/// incoming (taker) order had.
pub open spec fn maker_user_of(t: Trade, taker: Side) -> u32 {
    if taker == Side::BUY {
        t.seller_id
    } else {
        t.buyer_id
    }
}

/// The other half of volume conservation: every emitted trade executes at
/// the price of a resting order whose user is the trade's maker and whose
/// resting volume covers the trade — a maker is never charged for more than
/// it offered.
pub proof fn lemma_trade_within_maker_volume(
    book: Seq<(u32, Seq<(u32, u32, u32)>)>,
    taker: Side,
    limit: u32,
    remaining: u32,
    asset: Asset,
    taker_user: u32,
    next_id: u32,
)
    requires
        book_wf(book, opposite(taker)),
    ensures
        ({
            let mr = match_rec(book, taker, limit, remaining, asset, taker_user, next_id);
            forall|n: int|
                0 <= n < mr.0.len() ==> exists|i: int, k: int|
                    0 <= i < book.len() && 0 <= k < book[i].1.len() && book[i].0 == (
                    #[trigger] mr.0[n]).price && (#[trigger] book[i].1[k]).1 == maker_user_of(
                        mr.0[n],
                        taker,
                    ) && mr.0[n].volume <= book[i].1[k].2
        }),
    decreases book.len(), (if book.len() > 0 { book[0].1.len() } else { 0 }),
{
    let mr = match_rec(book, taker, limit, remaining, asset, taker_user, next_id);
    if remaining == 0 || book.len() == 0 || !crosses(taker, limit, book[0].0) || book[0].1.len()
        == 0 {
    } else {
        let q = book[0].1;
        let e = q[0];
        if e.2 > remaining {
            assert forall|n: int| 0 <= n < mr.0.len() implies exists|i: int, k: int|
                0 <= i < book.len() && 0 <= k < book[i].1.len() && book[i].0 == (
                #[trigger] mr.0[n]).price && (#[trigger] book[i].1[k]).1 == maker_user_of(
                    mr.0[n],
                    taker,
                ) && mr.0[n].volume <= book[i].1[k].2 by {
                assert(book[0].1[0].1 == maker_user_of(mr.0[0], taker));
            }
        } else {
            let q2 = q.drop_first();
            let book2 = if q2.len() == 0 {
                book.drop_first()
            } else {
                book.update(0, (book[0].0, q2))
            };
            lemma_wf_after_step(book, opposite(taker));
            lemma_trade_within_maker_volume(
                book2,
                taker,
                limit,
                (remaining - e.2) as u32,
                asset,
                taker_user,
                (next_id + 1) as u32,
            );
            let rest = match_rec(
                book2,
                taker,
                limit,
                (remaining - e.2) as u32,
                asset,
                taker_user,
                (next_id + 1) as u32,
            );
            assert(mr.0 == seq![mr.0[0]] + rest.0);
            assert forall|n: int| 0 <= n < mr.0.len() implies exists|i: int, k: int|
                0 <= i < book.len() && 0 <= k < book[i].1.len() && book[i].0 == (
                #[trigger] mr.0[n]).price && (#[trigger] book[i].1[k]).1 == maker_user_of(
                    mr.0[n],
                    taker,
                ) && mr.0[n].volume <= book[i].1[k].2 by {
                if n == 0 {
                    assert(book[0].1[0].1 == maker_user_of(mr.0[0], taker));
                } else {
                    let t = rest.0[n - 1];
                    assert(mr.0[n] == t);
                    let (i2, k2) = choose|i2: int, k2: int|
                        0 <= i2 < book2.len() && 0 <= k2 < book2[i2].1.len() && book2[i2].0
                            == t.price && (#[trigger] book2[i2].1[k2]).1 == maker_user_of(t, taker)
                            && t.volume <= book2[i2].1[k2].2;
                    if q2.len() == 0 {
                        assert(book2[i2] == book[i2 + 1]);
                        assert(book[i2 + 1].1[k2].1 == maker_user_of(mr.0[n], taker));
                    } else {
                        if i2 == 0 {
                            assert(book2[0].1[k2] == book[0].1[k2 + 1]);
                            assert(book[0].1[k2 + 1].1 == maker_user_of(mr.0[n], taker));
                        } else {
                            assert(book2[i2] == book[i2]);
                            assert(book[i2].1[k2].1 == maker_user_of(mr.0[n], taker));
                        }
                    }
                }
            }
        }
    }
}

/// Price half of price-time priority, seen from the trades: an incoming
/// order consumes liquidity in increasing distance from the best price, so
/// no later trade executes at a strictly better maker price than an earlier
/// one.
pub proof fn lemma_trades_best_price_first(
    book: Seq<(u32, Seq<(u32, u32, u32)>)>,
    taker: Side,
    limit: u32,
    remaining: u32,
    asset: Asset,
    taker_user: u32,
    next_id: u32,
)
    requires
        book_wf(book, opposite(taker)),
    ensures
        ({
            let mr = match_rec(book, taker, limit, remaining, asset, taker_user, next_id);
            forall|n: int, m: int|
                0 <= n < m < mr.0.len() ==> !better(
                    opposite(taker),
                    (#[trigger] mr.0[m]).price,
                    (#[trigger] mr.0[n]).price,
                )
        }),
    decreases book.len(), (if book.len() > 0 { book[0].1.len() } else { 0 }),
{
    let side = opposite(taker);
    let mr = match_rec(book, taker, limit, remaining, asset, taker_user, next_id);
    if remaining == 0 || book.len() == 0 || !crosses(taker, limit, book[0].0) || book[0].1.len()
        == 0 {
    } else {
        let q = book[0].1;
        let e = q[0];
        if e.2 > remaining {
        } else {
            let q2 = q.drop_first();
            let book2 = if q2.len() == 0 {
                book.drop_first()
            } else {
                book.update(0, (book[0].0, q2))
            };
            let rem2 = (remaining - e.2) as u32;
            let id2 = (next_id + 1) as u32;
            lemma_wf_after_step(book, side);
            lemma_trades_best_price_first(book2, taker, limit, rem2, asset, taker_user, id2);
            lemma_trade_within_maker_volume(book2, taker, limit, rem2, asset, taker_user, id2);
            let rest = match_rec(book2, taker, limit, rem2, asset, taker_user, id2);
            assert(mr.0 == seq![mr.0[0]] + rest.0);
            assert forall|n: int, m: int| 0 <= n < m < mr.0.len() implies !better(
                side,
                (#[trigger] mr.0[m]).price,
                (#[trigger] mr.0[n]).price,
            ) by {
                if n == 0 {
                    // the later trade's price is the price of some level that
                    // survived the first match step, none of which beats the
                    // best original price
                    let t = rest.0[m - 1];
                    assert(mr.0[m] == t);
                    let (i2, k2) = choose|i2: int, k2: int|
                        0 <= i2 < book2.len() && 0 <= k2 < book2[i2].1.len() && book2[i2].0
                            == t.price && (#[trigger] book2[i2].1[k2]).1 == maker_user_of(t, taker)
                            && t.volume <= book2[i2].1[k2].2;
                    if q2.len() == 0 {
                        assert(book2[i2].0 == book[i2 + 1].0);
                        assert(better(side, book[0].0, book[i2 + 1].0));
                    } else {
                        if i2 > 0 {
                            assert(book2[i2].0 == book[i2].0);
                            assert(better(side, book[0].0, book[i2].0));
                        }
                    }
                    assert(!better(side, t.price, book[0].0));
                } else {
                    assert(mr.0[n] == rest.0[n - 1] && mr.0[m] == rest.0[m - 1]);
                }
            }
        }
    }
}

/// What one queue may look like after matching consumed it from the front:
/// a suffix of the original entries, where the oldest survivor keeps its
/// identity and has lost none or some of its volume.
pub open spec fn queue_suffix_reduced(q: Seq<(u32, u32, u32)>, q2: Seq<(u32, u32, u32)>) -> bool {
    let c = q.len() - q2.len();
    &&& q2.len() <= q.len()
    &&& (forall|k: int| 0 < k < q2.len() ==> #[trigger] q2[k] == q[k + c])
    &&& (q2.len() > 0 ==> q2[0].0 == q[c].0 && q2[0].1 == q[c].1 && q2[0].2 <= q[c].2)
}

/// What a book may look like after matching: whole levels disappear only
/// from the best-priced end, the surviving levels keep their order, and the
/// best surviving level is a front-consumed remnant of its original queue.
pub open spec fn consumed_from_front(
    book: Seq<(u32, Seq<(u32, u32, u32)>)>,
    book2: Seq<(u32, Seq<(u32, u32, u32)>)>,
) -> bool {
    let d = book.len() - book2.len();
    &&& book2.len() <= book.len()
    &&& (forall|i: int| 0 < i < book2.len() ==> #[trigger] book2[i] == book[i + d])
    &&& (book2.len() > 0 ==> book2[0].0 == book[d].0 && queue_suffix_reduced(
        book[d].1,
        book2[0].1,
    ))
}

/// Price-time priority law: matching eats the opposite book from the best
/// price outward and each price level strictly from the front of its queue,
/// so of two equal-priced resting orders the one that arrived first is
/// always consumed first, and a later order is never touched while an
/// earlier one still rests.
pub proof fn lemma_price_time_priority(
    book: Seq<(u32, Seq<(u32, u32, u32)>)>,
    taker: Side,
    limit: u32,
    remaining: u32,
    asset: Asset,
    taker_user: u32,
    next_id: u32,
)
    requires
        book_wf(book, opposite(taker)),
    ensures
        consumed_from_front(
            book,
            match_rec(book, taker, limit, remaining, asset, taker_user, next_id).1,
        ),
    decreases book.len(), (if book.len() > 0 { book[0].1.len() } else { 0 }),
{
    let mr = match_rec(book, taker, limit, remaining, asset, taker_user, next_id);
    if remaining == 0 || book.len() == 0 || !crosses(taker, limit, book[0].0) || book[0].1.len()
        == 0 {
    } else {
        let q = book[0].1;
        let e = q[0];
        assert(volume_ok((book[0].1[0]).2));
        if e.2 > remaining {
            let q2 = q.update(0, (e.0, e.1, (e.2 - remaining) as u32));
            assert(queue_suffix_reduced(q, q2));
        } else {
            let q2 = q.drop_first();
            let book2 = if q2.len() == 0 {
                book.drop_first()
            } else {
                book.update(0, (book[0].0, q2))
            };
            lemma_wf_after_step(book, opposite(taker));
            lemma_price_time_priority(
                book2,
                taker,
                limit,
                (remaining - e.2) as u32,
                asset,
                taker_user,
                (next_id + 1) as u32,
            );
            let b3 = mr.1;
            let d2 = book2.len() - b3.len();
            let d = book.len() - b3.len();
            if q2.len() == 0 {
                assert forall|i: int| 0 < i < b3.len() implies #[trigger] b3[i] == book[i + d] by {
                    assert(b3[i] == book2[i + d2]);
                    assert(book2[i + d2] == book[i + d2 + 1]);
                }
                if b3.len() > 0 {
                    assert(book2[d2] == book[d]);
                }
            } else {
                assert forall|i: int| 0 < i < b3.len() implies #[trigger] b3[i] == book[i + d] by {
                    assert(b3[i] == book2[i + d2]);
                }
                if b3.len() > 0 {
                    if d2 == 0 {
                        assert(queue_suffix_reduced(book2[0].1, b3[0].1));
                        assert(book2[0].1 == q2);
                        let c2 = q2.len() - b3[0].1.len();
                        assert forall|k: int| 0 < k < b3[0].1.len() implies #[trigger] b3[0].1[k]
                            == q[k + (q.len() - b3[0].1.len())] by {
                            assert(b3[0].1[k] == q2[k + c2]);
                            assert(q2[k + c2] == q[k + c2 + 1]);
                        }
                        assert(queue_suffix_reduced(q, b3[0].1));
                    } else {
                        assert(book2[d2] == book[d2]);
                        assert(queue_suffix_reduced(book[d].1, b3[0].1));
                    }
                }
            }
        }
    }
}

} // verus!


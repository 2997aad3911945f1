//! One side's order book: price levels sorted best-first, each holding a
//! FIFO queue of resting orders.

use vstd::prelude::*;

use crate::queue::queue_contains;
use crate::queue::queue_entries;
use crate::queue::queue_front;
use crate::queue::queue_len;
use crate::queue::queue_new;
use crate::queue::queue_pop_front;
use crate::queue::queue_push_back;
use crate::queue::queue_remove;
use crate::queue::queue_replace;
use crate::queue::queue_to_vec;
use crate::types::crosses;
use crate::types::price_ok;
use crate::types::volume_ok;
use crate::types::Side;
use vstd::pervasive::unreached;

verus! {

/// All resting orders of one side sharing one exact price.
pub struct Level {
    pub price: u32,
    pub queue: hashlink::LinkedHashMap<u32, (u32, u32)>,
}

impl Level {
    /// The level as its price paired with its `(order_id, user_id, volume)`
    /// entries in arrival order.
    pub open spec fn model(self) -> (u32, Seq<(u32, u32, u32)>) {
        (self.price, queue_entries(self.queue))
    }
}

/// Whether price `a` is strictly better than price `b` for resting orders of
/// the given side: higher for bids, lower for asks.
pub open spec fn better(side: Side, a: u32, b: u32) -> bool {
    match side {
        Side::BUY => a > b,
        Side::SELL => a < b,
    }
}

/// Whether some entry of one price level carries the given order id.
pub open spec fn queue_has(q: Seq<(u32, u32, u32)>, order_id: u32) -> bool {
    exists|k: int| 0 <= k < q.len() && (#[trigger] q[k]).0 == order_id
}

/// The position of the entry with the given order id in one price level.
pub open spec fn queue_index_of(q: Seq<(u32, u32, u32)>, order_id: u32) -> int {
    choose|k: int| 0 <= k < q.len() && (#[trigger] q[k]).0 == order_id
}

/// Whether an order with the given id rests somewhere in the book.
pub open spec fn id_in_book(book: Seq<(u32, Seq<(u32, u32, u32)>)>, order_id: u32) -> bool {
    exists|i: int, k: int|
        0 <= i < book.len() && 0 <= k < book[i].1.len() && (#[trigger] book[i].1[k]).0 == order_id
}

/// Well-formedness of a book model for one side: levels strictly sorted
/// best-first, no empty level, prices and volumes inside the accepted
/// bounds, and no order id appearing twice.
pub open spec fn book_wf(book: Seq<(u32, Seq<(u32, u32, u32)>)>, side: Side) -> bool {
    &&& forall|i: int, j: int|
        0 <= i < j < book.len() ==> better(side, (#[trigger] book[i]).0, (#[trigger] book[j]).0)
    &&& forall|i: int| 0 <= i < book.len() ==> (#[trigger] book[i]).1.len() > 0
    &&& forall|i: int| 0 <= i < book.len() ==> price_ok((#[trigger] book[i]).0)
    &&& forall|i: int, k: int|
        0 <= i < book.len() && 0 <= k < book[i].1.len() ==> volume_ok(
            (#[trigger] book[i].1[k]).2,
        )
    &&& forall|i: int, k: int, j: int, l: int|
        0 <= i < book.len() && 0 <= k < book[i].1.len() && 0 <= j < book.len() && 0 <= l
            < book[j].1.len() && (#[trigger] book[i].1[k]).0 == (#[trigger] book[j].1[l]).0 ==> i
            == j && k == l
}

/// The book after a new resting order joins it: appended to the queue at its
/// price if that level exists, else a fresh level at the sorted position.
pub open spec fn book_insert(
    book: Seq<(u32, Seq<(u32, u32, u32)>)>,
    side: Side,
    price: u32,
    e: (u32, u32, u32),
) -> Seq<(u32, Seq<(u32, u32, u32)>)>
    decreases book.len(),
{
    if book.len() == 0 {
        seq![(price, seq![e])]
    } else if book[0].0 == price {
        book.update(0, (price, book[0].1.push(e)))
    } else if better(side, price, book[0].0) {
        seq![(price, seq![e])] + book
    } else {
        seq![book[0]] + book_insert(book.drop_first(), side, price, e)
    }
}

/// The book after the order with the given id leaves it; the level is pruned
/// when its queue empties, and a book without that id is unchanged.
pub open spec fn book_remove(book: Seq<(u32, Seq<(u32, u32, u32)>)>, order_id: u32) -> Seq<
    (u32, Seq<(u32, u32, u32)>),
>
    decreases book.len(),
{
    if book.len() == 0 {
        book
    } else if queue_has(book[0].1, order_id) {
        let q2 = book[0].1.remove(queue_index_of(book[0].1, order_id));
        if q2.len() == 0 {
            book.drop_first()
        } else {
            book.update(0, (book[0].0, q2))
        }
    } else {
        seq![book[0]] + book_remove(book.drop_first(), order_id)
    }
}

/// Removing an id that does not rest in the book leaves it unchanged.
pub proof fn lemma_book_remove_noop(book: Seq<(u32, Seq<(u32, u32, u32)>)>, order_id: u32)
    requires
        !id_in_book(book, order_id),
    ensures
        book_remove(book, order_id) == book,
    decreases book.len(),
{
    if book.len() == 0 {
    } else {
        assert(!queue_has(book[0].1, order_id)) by {
            if queue_has(book[0].1, order_id) {
                let k = queue_index_of(book[0].1, order_id);
                assert(0 <= k < book[0].1.len() && book[0].1[k].0 == order_id);
            }
        }
        assert(!id_in_book(book.drop_first(), order_id)) by {
            if id_in_book(book.drop_first(), order_id) {
                let (i, k) = choose|i: int, k: int|
                    0 <= i < book.drop_first().len() && 0 <= k < book.drop_first()[i].1.len() && (
                    #[trigger] book.drop_first()[i].1[k]).0 == order_id;
                assert(book[i + 1].1[k].0 == order_id);
            }
        }
        lemma_book_remove_noop(book.drop_first(), order_id);
        assert(seq![book[0]] + book.drop_first() =~= book);
    }
}

/// Pinpoints `book_insert` when the insertion position is known: all levels
/// before `idx` are better-priced than the new order, and the level at `idx`
/// (if any) is not.
pub proof fn lemma_book_insert_at(
    book: Seq<(u32, Seq<(u32, u32, u32)>)>,
    side: Side,
    price: u32,
    e: (u32, u32, u32),
    idx: int,
)
    requires
        0 <= idx <= book.len(),
        forall|j: int| 0 <= j < idx ==> better(side, (#[trigger] book[j]).0, price),
        idx < book.len() ==> !better(side, book[idx].0, price),
    ensures
        book_insert(book, side, price, e) == (if idx < book.len() && book[idx].0 == price {
            book.update(idx, (price, book[idx].1.push(e)))
        } else {
            book.insert(idx, (price, seq![e]))
        }),
    decreases book.len(),
{
    if idx == 0 {
        if book.len() == 0 {
            assert(book_insert(book, side, price, e) =~= book.insert(0, (price, seq![e])));
        } else if book[0].0 == price {
        } else {
            assert(better(side, price, book[0].0));
            assert(seq![(price, seq![e])] + book =~= book.insert(0, (price, seq![e])));
        }
    } else {
        let tail = book.drop_first();
        assert(better(side, book[0].0, price));
        assert(forall|j: int| 0 <= j < idx - 1 ==> better(side, (#[trigger] tail[j]).0, price));
        lemma_book_insert_at(tail, side, price, e, idx - 1);
        if idx < book.len() && book[idx].0 == price {
            assert(tail[idx - 1].0 == price);
            assert(seq![book[0]] + tail.update(idx - 1, (price, tail[idx - 1].1.push(e)))
                =~= book.update(idx, (price, book[idx].1.push(e))));
        } else {
            assert(seq![book[0]] + tail.insert(idx - 1, (price, seq![e])) =~= book.insert(
                idx,
                (price, seq![e]),
            ));
        }
    }
}

/// Pinpoints `book_remove` when the position of the leaving order is known.
pub proof fn lemma_book_remove_at(
    book: Seq<(u32, Seq<(u32, u32, u32)>)>,
    side: Side,
    order_id: u32,
    idx: int,
)
    requires
        book_wf(book, side),
        0 <= idx < book.len(),
        forall|j: int| 0 <= j < idx ==> !queue_has((#[trigger] book[j]).1, order_id),
        queue_has(book[idx].1, order_id),
    ensures
        book_remove(book, order_id) == ({
            let q2 = book[idx].1.remove(queue_index_of(book[idx].1, order_id));
            if q2.len() == 0 {
                book.remove(idx)
            } else {
                book.update(idx, (book[idx].0, q2))
            }
        }),
    decreases book.len(),
{
    if idx == 0 {
        let q2 = book[0].1.remove(queue_index_of(book[0].1, order_id));
        if q2.len() == 0 {
            assert(book.drop_first() =~= book.remove(0));
        }
    } else {
        let tail = book.drop_first();
        assert(!queue_has(book[0].1, order_id));
        lemma_wf_tail(book, side);
        assert(forall|j: int|
            0 <= j < idx - 1 ==> !queue_has((#[trigger] tail[j]).1, order_id));
        assert(tail[idx - 1] == book[idx]);
        lemma_book_remove_at(tail, side, order_id, idx - 1);
        let q2 = book[idx].1.remove(queue_index_of(book[idx].1, order_id));
        if q2.len() == 0 {
            assert(seq![book[0]] + tail.remove(idx - 1) =~= book.remove(idx));
        } else {
            assert(seq![book[0]] + tail.update(idx - 1, (book[idx].0, q2)) =~= book.update(
                idx,
                (book[idx].0, q2),
            ));
        }
    }
}

/// A well-formed book stays well formed when its best level is dropped.
pub proof fn lemma_wf_tail(book: Seq<(u32, Seq<(u32, u32, u32)>)>, side: Side)
    requires
        book_wf(book, side),
        book.len() > 0,
    ensures
        book_wf(book.drop_first(), side),
{
    let tail = book.drop_first();
    assert forall|i: int, k: int, j: int, l: int|
        0 <= i < tail.len() && 0 <= k < tail[i].1.len() && 0 <= j < tail.len() && 0 <= l
            < tail[j].1.len() && (#[trigger] tail[i].1[k]).0 == (#[trigger] tail[j].1[l]).0
        implies i == j && k == l by {
        assert(tail[i].1[k] == book[i + 1].1[k]);
        assert(tail[j].1[l] == book[j + 1].1[l]);
    }
    assert forall|i: int| 0 <= i < tail.len() implies (#[trigger] tail[i]).1.len() > 0 && price_ok(
        tail[i].0,
    ) by {
        assert(tail[i] == book[i + 1]);
    }
    assert forall|i: int, k: int| 0 <= i < tail.len() && 0 <= k < tail[i].1.len() implies volume_ok(
        (#[trigger] tail[i].1[k]).2,
    ) by {
        assert(tail[i].1[k] == book[i + 1].1[k]);
    }
    assert forall|i: int, j: int| 0 <= i < j < tail.len() implies better(
        side,
        (#[trigger] tail[i]).0,
        (#[trigger] tail[j]).0,
    ) by {
        assert(tail[i] == book[i + 1] && tail[j] == book[j + 1]);
    }
}

/// Removing one entry keeps the book well formed; no id appears that was not
/// there before, and the removed id is gone.
pub proof fn lemma_wf_remove_entry(
    book: Seq<(u32, Seq<(u32, u32, u32)>)>,
    side: Side,
    i0: int,
    k0: int,
)
    requires
        book_wf(book, side),
        0 <= i0 < book.len(),
        0 <= k0 < book[i0].1.len(),
    ensures
        ({
            let q2 = book[i0].1.remove(k0);
            let n = if q2.len() == 0 {
                book.remove(i0)
            } else {
                book.update(i0, (book[i0].0, q2))
            };
            &&& book_wf(n, side)
            &&& forall|id: u32| id_in_book(n, id) ==> id_in_book(book, id)
            &&& !id_in_book(n, book[i0].1[k0].0)
        }),
{
    let q = book[i0].1;
    let q2 = q.remove(k0);
    q.remove_ensures(k0);
    if q2.len() == 0 {
        let n = book.remove(i0);
        book.remove_ensures(i0);
        assert forall|i: int, k: int, j: int, l: int|
            0 <= i < n.len() && 0 <= k < n[i].1.len() && 0 <= j < n.len() && 0 <= l < n[j].1.len()
                && (#[trigger] n[i].1[k]).0 == (#[trigger] n[j].1[l]).0 implies i == j && k
            == l by {
            let oi = if i < i0 { i } else { i + 1 };
            let oj = if j < i0 { j } else { j + 1 };
            assert(n[i] == book[oi] && n[j] == book[oj]);
        }
        assert forall|i: int, j: int| 0 <= i < j < n.len() implies better(
            side,
            (#[trigger] n[i]).0,
            (#[trigger] n[j]).0,
        ) by {
            let oi = if i < i0 { i } else { i + 1 };
            let oj = if j < i0 { j } else { j + 1 };
            assert(n[i] == book[oi] && n[j] == book[oj]);
        }
        assert forall|i: int| 0 <= i < n.len() implies (#[trigger] n[i]).1.len() > 0 && price_ok(
            n[i].0,
        ) by {
            let oi = if i < i0 { i } else { i + 1 };
            assert(n[i] == book[oi]);
        }
        assert forall|i: int, k: int| 0 <= i < n.len() && 0 <= k < n[i].1.len() implies volume_ok(
            (#[trigger] n[i].1[k]).2,
        ) by {
            let oi = if i < i0 { i } else { i + 1 };
            assert(n[i] == book[oi]);
        }
        assert forall|id: u32| id_in_book(n, id) implies id_in_book(book, id) by {
            let (i, k) = choose|i: int, k: int|
                0 <= i < n.len() && 0 <= k < n[i].1.len() && (#[trigger] n[i].1[k]).0 == id;
            let oi = if i < i0 { i } else { i + 1 };
            assert(book[oi].1[k].0 == id);
        }
        assert(!id_in_book(n, book[i0].1[k0].0)) by {
            let id = book[i0].1[k0].0;
            if id_in_book(n, id) {
                let (i, k) = choose|i: int, k: int|
                    0 <= i < n.len() && 0 <= k < n[i].1.len() && (#[trigger] n[i].1[k]).0 == id;
                let oi = if i < i0 { i } else { i + 1 };
                assert(book[oi].1[k].0 == id);
                assert(oi == i0 && k == k0);
                assert(false);
            }
        }
    } else {
        let n = book.update(i0, (book[i0].0, q2));
        assert forall|i: int, k: int, j: int, l: int|
            0 <= i < n.len() && 0 <= k < n[i].1.len() && 0 <= j < n.len() && 0 <= l < n[j].1.len()
                && (#[trigger] n[i].1[k]).0 == (#[trigger] n[j].1[l]).0 implies i == j && k
            == l by {
            let ok = if i != i0 { k } else if k < k0 { k } else { k + 1 };
            let ol = if j != i0 { l } else if l < k0 { l } else { l + 1 };
            assert(n[i].1[k] == book[i].1[ok]);
            assert(n[j].1[l] == book[j].1[ol]);
        }
        assert forall|i: int, k: int| 0 <= i < n.len() && 0 <= k < n[i].1.len() implies volume_ok(
            (#[trigger] n[i].1[k]).2,
        ) by {
            let ok = if i != i0 { k } else if k < k0 { k } else { k + 1 };
            assert(n[i].1[k] == book[i].1[ok]);
        }
        assert forall|id: u32| id_in_book(n, id) implies id_in_book(book, id) by {
            let (i, k) = choose|i: int, k: int|
                0 <= i < n.len() && 0 <= k < n[i].1.len() && (#[trigger] n[i].1[k]).0 == id;
            let ok = if i != i0 { k } else if k < k0 { k } else { k + 1 };
            assert(book[i].1[ok].0 == id);
        }
        assert(!id_in_book(n, book[i0].1[k0].0)) by {
            let id = book[i0].1[k0].0;
            if id_in_book(n, id) {
                let (i, k) = choose|i: int, k: int|
                    0 <= i < n.len() && 0 <= k < n[i].1.len() && (#[trigger] n[i].1[k]).0 == id;
                let ok = if i != i0 { k } else if k < k0 { k } else { k + 1 };
                assert(book[i].1[ok].0 == id);
                assert(i == i0 && ok == k0);
                assert(false);
            }
        }
    }
}

/// Appending a fresh order to an existing level keeps the book well formed.
pub proof fn lemma_wf_push_entry(
    book: Seq<(u32, Seq<(u32, u32, u32)>)>,
    side: Side,
    i0: int,
    e: (u32, u32, u32),
)
    requires
        book_wf(book, side),
        0 <= i0 < book.len(),
        volume_ok(e.2),
        !id_in_book(book, e.0),
    ensures
        ({
            let n = book.update(i0, (book[i0].0, book[i0].1.push(e)));
            &&& book_wf(n, side)
            &&& forall|id: u32|
                id_in_book(n, id) <==> id_in_book(book, id) || id == e.0
        }),
{
    let q = book[i0].1;
    let n = book.update(i0, (book[i0].0, q.push(e)));
    assert forall|i: int, k: int, j: int, l: int|
        0 <= i < n.len() && 0 <= k < n[i].1.len() && 0 <= j < n.len() && 0 <= l < n[j].1.len() && (
        #[trigger] n[i].1[k]).0 == (#[trigger] n[j].1[l]).0 implies i == j && k == l by {
        let inew = i == i0 && k == q.len();
        let jnew = j == i0 && l == q.len();
        if inew && jnew {
        } else if inew {
            assert(n[j].1[l] == book[j].1[l]);
            assert(id_in_book(book, e.0));
            assert(false);
        } else if jnew {
            assert(n[i].1[k] == book[i].1[k]);
            assert(id_in_book(book, e.0));
            assert(false);
        } else {
            assert(n[i].1[k] == book[i].1[k]);
            assert(n[j].1[l] == book[j].1[l]);
        }
    }
    assert forall|i: int, k: int| 0 <= i < n.len() && 0 <= k < n[i].1.len() implies volume_ok(
        (#[trigger] n[i].1[k]).2,
    ) by {
        if i == i0 && k == q.len() {
        } else {
            assert(n[i].1[k] == book[i].1[k]);
        }
    }
    assert forall|id: u32| id_in_book(n, id) <==> id_in_book(book, id) || id == e.0 by {
        if id_in_book(n, id) {
            let (i, k) = choose|i: int, k: int|
                0 <= i < n.len() && 0 <= k < n[i].1.len() && (#[trigger] n[i].1[k]).0 == id;
            if i == i0 && k == q.len() {
                assert(id == e.0);
            } else {
                assert(book[i].1[k].0 == id);
            }
        }
        if id_in_book(book, id) {
            let (i, k) = choose|i: int, k: int|
                0 <= i < book.len() && 0 <= k < book[i].1.len() && (#[trigger] book[i].1[k]).0
                    == id;
            assert(n[i].1[k].0 == id);
        }
        if id == e.0 {
            assert(n[i0].1[q.len() as int].0 == id);
        }
    }
}

/// Inserting a fresh level at its sorted position keeps the book well formed.
pub proof fn lemma_wf_new_level(
    book: Seq<(u32, Seq<(u32, u32, u32)>)>,
    side: Side,
    idx: int,
    price: u32,
    e: (u32, u32, u32),
)
    requires
        book_wf(book, side),
        0 <= idx <= book.len(),
        price_ok(price),
        volume_ok(e.2),
        !id_in_book(book, e.0),
        forall|j: int| 0 <= j < idx ==> better(side, (#[trigger] book[j]).0, price),
        forall|j: int| idx <= j < book.len() ==> better(side, price, (#[trigger] book[j]).0),
    ensures
        ({
            let n = book.insert(idx, (price, seq![e]));
            &&& book_wf(n, side)
            &&& forall|id: u32|
                id_in_book(n, id) <==> id_in_book(book, id) || id == e.0
        }),
{
    let n = book.insert(idx, (price, seq![e]));
    book.insert_ensures(idx, (price, seq![e]));
    assert forall|i: int, j: int| 0 <= i < j < n.len() implies better(
        side,
        (#[trigger] n[i]).0,
        (#[trigger] n[j]).0,
    ) by {
        let oi = if i < idx { i } else { i - 1 };
        let oj = if j < idx { j } else { j - 1 };
        if i != idx {
            assert(n[i] == book[oi]);
        }
        if j != idx {
            assert(n[j] == book[oj]);
        }
    }
    assert forall|i: int| 0 <= i < n.len() implies (#[trigger] n[i]).1.len() > 0 && price_ok(
        n[i].0,
    ) by {
        if i != idx {
            let oi = if i < idx { i } else { i - 1 };
            assert(n[i] == book[oi]);
        }
    }
    assert forall|i: int, k: int| 0 <= i < n.len() && 0 <= k < n[i].1.len() implies volume_ok(
        (#[trigger] n[i].1[k]).2,
    ) by {
        if i != idx {
            let oi = if i < idx { i } else { i - 1 };
            assert(n[i] == book[oi]);
        }
    }
    assert forall|i: int, k: int, j: int, l: int|
        0 <= i < n.len() && 0 <= k < n[i].1.len() && 0 <= j < n.len() && 0 <= l < n[j].1.len() && (
        #[trigger] n[i].1[k]).0 == (#[trigger] n[j].1[l]).0 implies i == j && k == l by {
        let oi = if i < idx { i } else { i - 1 };
        let oj = if j < idx { j } else { j - 1 };
        if i == idx && j == idx {
        } else if i == idx {
            assert(n[j] == book[oj]);
            assert(id_in_book(book, e.0));
            assert(false);
        } else if j == idx {
            assert(n[i] == book[oi]);
            assert(id_in_book(book, e.0));
            assert(false);
        } else {
            assert(n[i] == book[oi] && n[j] == book[oj]);
        }
    }
    assert forall|id: u32| id_in_book(n, id) <==> id_in_book(book, id) || id == e.0 by {
        if id_in_book(n, id) {
            let (i, k) = choose|i: int, k: int|
                0 <= i < n.len() && 0 <= k < n[i].1.len() && (#[trigger] n[i].1[k]).0 == id;
            if i == idx {
                assert(id == e.0);
            } else {
                let oi = if i < idx { i } else { i - 1 };
                assert(n[i] == book[oi]);
                assert(book[oi].1[k].0 == id);
            }
        }
        if id_in_book(book, id) {
            let (i, k) = choose|i: int, k: int|
                0 <= i < book.len() && 0 <= k < book[i].1.len() && (#[trigger] book[i].1[k]).0
                    == id;
            let ni = if i < idx { i } else { i + 1 };
            assert(n[ni] == book[i]);
            assert(n[ni].1[k].0 == id);
        }
        if id == e.0 {
            assert(n[idx].1[0].0 == id);
        }
    }
}

/// Rewriting one resting order's volume in place keeps the book well formed
/// and its set of resting ids unchanged.
pub proof fn lemma_wf_set_volume(
    book: Seq<(u32, Seq<(u32, u32, u32)>)>,
    side: Side,
    i0: int,
    k0: int,
    v: u32,
)
    requires
        book_wf(book, side),
        0 <= i0 < book.len(),
        0 <= k0 < book[i0].1.len(),
        volume_ok(v),
    ensures
        ({
            let e = book[i0].1[k0];
            let n = book.update(i0, (book[i0].0, book[i0].1.update(k0, (e.0, e.1, v))));
            &&& book_wf(n, side)
            &&& forall|id: u32| id_in_book(n, id) <==> id_in_book(book, id)
        }),
{
    let e = book[i0].1[k0];
    let n = book.update(i0, (book[i0].0, book[i0].1.update(k0, (e.0, e.1, v))));
    assert forall|i: int, k: int, j: int, l: int|
        0 <= i < n.len() && 0 <= k < n[i].1.len() && 0 <= j < n.len() && 0 <= l < n[j].1.len() && (
        #[trigger] n[i].1[k]).0 == (#[trigger] n[j].1[l]).0 implies i == j && k == l by {
        assert(n[i].1[k].0 == book[i].1[k].0);
        assert(n[j].1[l].0 == book[j].1[l].0);
    }
    assert forall|i: int, k: int| 0 <= i < n.len() && 0 <= k < n[i].1.len() implies volume_ok(
        (#[trigger] n[i].1[k]).2,
    ) by {
        if i == i0 && k == k0 {
        } else {
            assert(n[i].1[k] == book[i].1[k]);
        }
    }
    assert forall|id: u32| id_in_book(n, id) <==> id_in_book(book, id) by {
        if id_in_book(n, id) {
            let (i, k) = choose|i: int, k: int|
                0 <= i < n.len() && 0 <= k < n[i].1.len() && (#[trigger] n[i].1[k]).0 == id;
            assert(book[i].1[k].0 == id);
        }
        if id_in_book(book, id) {
            let (i, k) = choose|i: int, k: int|
                0 <= i < book.len() && 0 <= k < book[i].1.len() && (#[trigger] book[i].1[k]).0
                    == id;
            assert(n[i].1[k].0 == id);
        }
    }
}

/// One side of the exchange: a best-first sorted vector of price levels.
pub struct Book {
    pub side: Side,
    pub levels: Vec<Level>,
}

/// Whether price `a` is strictly better than `b` for the given side.
pub fn price_better(side: Side, a: u32, b: u32) -> (r: bool)
    ensures
        r == better(side, a, b),
{
    match side {
        Side::BUY => a > b,
        Side::SELL => a < b,
    }
}

impl Book {
    /// The book as a sequence of level models, best price first.
    pub open spec fn model(self) -> Seq<(u32, Seq<(u32, u32, u32)>)> {
        Seq::new(self.levels@.len(), |i: int| self.levels@[i].model())
    }

    /// Well-formedness of this book for its own side.
    pub open spec fn wf(self) -> bool {
        book_wf(self.model(), self.side)
    }

    /// A new, empty book for the given side.
    pub fn new(side: Side) -> (r: Book)
        ensures
            r.wf(),
            r.side == side,
            r.model() == Seq::<(u32, Seq<(u32, u32, u32)>)>::empty(),
    {
        let r = Book { side, levels: Vec::new() };
        proof {
            assert(r.model() =~= Seq::<(u32, Seq<(u32, u32, u32)>)>::empty());
        }
        r
    }

    /// The best resting price: the highest bid or the lowest ask.
    pub fn best_price(&self) -> (r: Option<u32>)
        ensures
            match r {
                Some(p) => self.model().len() > 0 && p == self.model()[0].0,
                None => self.model().len() == 0,
            },
    {
        if self.levels.len() == 0 {
            None
        } else {
            Some(self.levels[0].price)
        }
    }

    /// Whether the book still offers liquidity that an incoming order with
    /// the given side and limit price may consume.
    pub fn best_crosses(&self, taker: Side, limit: u32) -> (r: bool)
        ensures
            r == (self.model().len() > 0 && crosses(taker, limit, self.model()[0].0)),
    {
        if self.levels.len() == 0 {
            false
        } else {
            let p = self.levels[0].price;
            match taker {
                Side::BUY => p <= limit,
                Side::SELL => p >= limit,
            }
        }
    }

    /// The oldest resting order at the best price, as
    /// `(price, order_id, user_id, volume)`.
    pub fn front_of_best(&self) -> (r: (u32, u32, u32, u32))
        requires
            self.wf(),
            self.model().len() > 0,
        ensures
            r.0 == self.model()[0].0,
            (r.1, r.2, r.3) == self.model()[0].1[0],
    {
        let lvl = &self.levels[0];
        proof {
            assert(self.model()[0].1.len() > 0);
            assert(queue_entries(lvl.queue).len() > 0);
        }
        match queue_front(&lvl.queue) {
            Some((oid, uid, vol)) => (lvl.price, oid, uid, vol),
            None => unreached(),
        }
    }

    /// The book's contents from the best price outward: each level's price
    /// with its resting `(order_id, user_id, volume)` entries in arrival
    /// order.
    #[verifier::loop_isolation(false)]
    pub fn iterate_from_best(&self) -> (r: Vec<(u32, Vec<(u32, u32, u32)>)>)
        ensures
            r@.len() == self.model().len(),
            forall|i: int|
                0 <= i < r@.len() ==> (#[trigger] r@[i]).0 == self.model()[i].0 && r@[i].1@
                    == self.model()[i].1,
    {
        let mut out: Vec<(u32, Vec<(u32, u32, u32)>)> = Vec::new();
        let mut idx: usize = 0;
        while idx < self.levels.len()
            invariant
                0 <= idx <= self.levels.len(),
                out@.len() == idx,
                forall|i: int|
                    0 <= i < idx ==> (#[trigger] out@[i]).0 == self.model()[i].0 && out@[i].1@
                        == self.model()[i].1,
            decreases self.levels.len() - idx,
        {
            let lvl = &self.levels[idx];
            let entries = queue_to_vec(&lvl.queue);
            out.push((lvl.price, entries));
            idx = idx + 1;
        }
        out
    }

    /// Whether an order with the given id rests in this book.
    pub fn contains_id(&self, order_id: u32) -> (r: bool)
        ensures
            r == id_in_book(self.model(), order_id),
    {
        let mut idx: usize = 0;
        while idx < self.levels.len()
            invariant
                0 <= idx <= self.levels.len(),
                forall|i: int, k: int|
                    0 <= i < idx && 0 <= k < self.model()[i].1.len() ==> (#[trigger] self.model()[i].1[k]).0
                        != order_id,
            decreases self.levels.len() - idx,
        {
            if queue_contains(&self.levels[idx].queue, order_id) {
                proof {
                    let i = choose|i: int|
                        0 <= i < queue_entries(self.levels@[idx as int].queue).len()
                            && queue_entries(self.levels@[idx as int].queue)[i].0 == order_id;
                    assert(self.model()[idx as int].1[i].0 == order_id);
                }
                return true;
            }
            idx = idx + 1;
        }
        proof {
            if id_in_book(self.model(), order_id) {
                let (i, k) = choose|i: int, k: int|
                    0 <= i < self.model().len() && 0 <= k < self.model()[i].1.len() && (
                    #[trigger] self.model()[i].1[k]).0 == order_id;
                assert(false);
            }
        }
        false
    }

    /// Rests a new order in this book: appended to the queue at its price,
    /// with a fresh level created at the sorted position if needed.
    #[verifier::loop_isolation(false)]
    #[verifier::rlimit(100)]
    pub fn insert_order(&mut self, price: u32, order_id: u32, user_id: u32, volume: u32)
        requires
            old(self).wf(),
            price_ok(price),
            volume_ok(volume),
            !id_in_book(old(self).model(), order_id),
        ensures
            final(self).wf(),
            final(self).side == old(self).side,
            final(self).model() == book_insert(
                old(self).model(),
                old(self).side,
                price,
                (order_id, user_id, volume),
            ),
            forall|id: u32|
                id_in_book(final(self).model(), id) <==> id_in_book(old(self).model(), id) || id
                    == order_id,
    {
        let ghost m0 = self.model();
        let ghost e = (order_id, user_id, volume);
        let mut idx: usize = 0;
        while idx < self.levels.len() && price_better(self.side, self.levels[idx].price, price)
            invariant
                0 <= idx <= self.levels.len(),
                *self == *old(self),
                forall|j: int| 0 <= j < idx ==> better(self.side, (#[trigger] m0[j]).0, price),
            decreases self.levels.len() - idx,
        {
            idx = idx + 1;
        }
        if idx < self.levels.len() && self.levels[idx].price == price {
            let mut lvl = self.levels.remove(idx);
            proof {
                assert forall|k: int|
                    0 <= k < queue_entries(lvl.queue).len() implies (#[trigger] queue_entries(
                    lvl.queue,
                )[k]).0 != order_id by {
                    if queue_entries(lvl.queue)[k].0 == order_id {
                        assert(m0[idx as int].1[k].0 == order_id);
                    }
                }
            }
            queue_push_back(&mut lvl.queue, order_id, user_id, volume);
            let ghost lvl2 = lvl;
            self.levels.insert(idx, lvl);
            proof {
                let s0 = old(self).levels@;
                s0.remove_ensures(idx as int);
                s0.remove(idx as int).insert_ensures(idx as int, lvl2);
                assert(self.model() =~= m0.update(
                    idx as int,
                    (price, m0[idx as int].1.push(e)),
                ));
                lemma_wf_push_entry(m0, self.side, idx as int, e);
                lemma_book_insert_at(m0, self.side, price, e, idx as int);
            }
        } else {
            let mut q = queue_new();
            queue_push_back(&mut q, order_id, user_id, volume);
            let lvl = Level { price, queue: q };
            let ghost lvl2 = lvl;
            self.levels.insert(idx, lvl);
            proof {
                let s0 = old(self).levels@;
                s0.insert_ensures(idx as int, lvl2);
                assert(queue_entries(lvl2.queue) =~= seq![e]);
                assert(self.model() =~= m0.insert(idx as int, (price, seq![e])));
                assert forall|j: int| idx <= j < m0.len() implies better(
                    self.side,
                    price,
                    (#[trigger] m0[j]).0,
                ) by {
                    assert(!better(self.side, m0[idx as int].0, price));
                    assert(m0[idx as int].0 != price);
                    if j > idx {
                        assert(better(self.side, m0[idx as int].0, m0[j].0));
                    }
                }
                lemma_wf_new_level(m0, self.side, idx as int, price, e);
                lemma_book_insert_at(m0, self.side, price, e, idx as int);
            }
        }
    }

    /// Removes the resting order with the given id, returning its
    /// `(price, user_id, volume)`; the level is pruned if it empties.
    #[verifier::loop_isolation(false)]
    #[verifier::rlimit(100)]
    pub fn remove_order(&mut self, order_id: u32) -> (r: Option<(u32, u32, u32)>)
        requires
            old(self).wf(),
        ensures
            final(self).wf(),
            final(self).side == old(self).side,
            final(self).model() == book_remove(old(self).model(), order_id),
            !id_in_book(final(self).model(), order_id),
            forall|id: u32|
                id_in_book(final(self).model(), id) ==> id_in_book(old(self).model(), id),
            match r {
                Some(t) => id_in_book(old(self).model(), order_id) && (exists|i: int, k: int|
                    0 <= i < old(self).model().len() && 0 <= k < old(self).model()[i].1.len()
                        && old(self).model()[i].0 == t.0 && (#[trigger] old(self).model()[i].1[k])
                        == (order_id, t.1, t.2)),
                None => !id_in_book(old(self).model(), order_id) && *final(self) == *old(self),
            },
    {
        let ghost m0 = self.model();
        let mut idx: usize = 0;
        while idx < self.levels.len()
            invariant
                0 <= idx <= self.levels.len(),
                *self == *old(self),
                forall|j: int| 0 <= j < idx ==> !queue_has((#[trigger] m0[j]).1, order_id),
            decreases self.levels.len() - idx,
        {
            if queue_contains(&self.levels[idx].queue, order_id) {
                let mut lvl = self.levels.remove(idx);
                let price = lvl.price;
                match queue_remove(&mut lvl.queue, order_id) {
                    Some((uid, vol)) => {
                        let ghost q = m0[idx as int].1;
                        let ghost k0 = queue_index_of(q, order_id);
                        proof {
                            let ki = choose|i: int|
                                0 <= i < q.len() && q[i] == (order_id, uid, vol)
                                    && queue_entries(lvl.queue) == q.remove(i);
                            assert(q[ki].0 == order_id);
                            assert(m0[idx as int].1[ki].0 == order_id);
                            assert(q[k0].0 == order_id);
                            assert(m0[idx as int].1[k0].0 == order_id);
                            assert(ki == k0);
                        }
                        let ghost lvl2 = lvl;
                        let qlen = queue_len(&lvl.queue);
                        if qlen > 0 {
                            self.levels.insert(idx, lvl);
                        }
                        proof {
                            let s0 = old(self).levels@;
                            s0.remove_ensures(idx as int);
                            q.remove_ensures(k0);
                            if q.remove(k0).len() == 0 {
                                assert(self.model() =~= m0.remove(idx as int));
                            } else {
                                s0.remove(idx as int).insert_ensures(idx as int, lvl2);
                                assert(self.model() =~= m0.update(
                                    idx as int,
                                    (m0[idx as int].0, q.remove(k0)),
                                ));
                            }
                            lemma_wf_remove_entry(m0, self.side, idx as int, k0);
                            lemma_book_remove_at(m0, self.side, order_id, idx as int);
                            assert(m0[idx as int].1[k0] == (order_id, uid, vol));
                        }
                        return Some((price, uid, vol));
                    },
                    None => unreached(),
                }
            }
            idx = idx + 1;
        }
        proof {
            if id_in_book(m0, order_id) {
                let (i, k) = choose|i: int, k: int|
                    0 <= i < m0.len() && 0 <= k < m0[i].1.len() && (#[trigger] m0[i].1[k]).0
                        == order_id;
                assert(queue_has(m0[i].1, order_id));
                assert(false);
            }
            lemma_book_remove_noop(m0, order_id);
        }
        None
    }

    /// Removes the oldest resting order at the best price, pruning the level
    /// if it empties.
    pub fn pop_front_order(&mut self)
        requires
            old(self).wf(),
            old(self).model().len() > 0,
        ensures
            final(self).wf(),
            final(self).side == old(self).side,
            final(self).model() == ({
                let m0 = old(self).model();
                let q2 = m0[0].1.drop_first();
                if q2.len() == 0 {
                    m0.drop_first()
                } else {
                    m0.update(0, (m0[0].0, q2))
                }
            }),
            forall|id: u32|
                id_in_book(final(self).model(), id) ==> id_in_book(old(self).model(), id),
    {
        let ghost m0 = self.model();
        let mut lvl = self.levels.remove(0);
        proof {
            assert(m0[0].1.len() > 0);
            assert(queue_entries(lvl.queue).len() > 0);
        }
        match queue_pop_front(&mut lvl.queue) {
            Some(_) => {},
            None => unreached(),
        }
        let ghost lvl2 = lvl;
        let qlen = queue_len(&lvl.queue);
        if qlen > 0 {
            self.levels.insert(0, lvl);
        }
        proof {
            let s0 = old(self).levels@;
            let q = m0[0].1;
            s0.remove_ensures(0);
            q.remove_ensures(0);
            assert(q.remove(0) =~= q.drop_first());
            if q.drop_first().len() == 0 {
                assert(self.model() =~= m0.remove(0));
                assert(m0.remove(0) =~= m0.drop_first());
            } else {
                s0.remove(0).insert_ensures(0, lvl2);
                assert(queue_entries(lvl2.queue) == q.drop_first());
                assert(self.model() =~= m0.update(0, (m0[0].0, q.drop_first())));
            }
            lemma_wf_remove_entry(m0, self.side, 0, 0);
        }
    }

    /// Rewrites the remaining volume of the oldest resting order at the best
    /// price, keeping its place in the queue.
    pub fn reduce_front_order(&mut self, new_volume: u32)
        requires
            old(self).wf(),
            old(self).model().len() > 0,
            volume_ok(new_volume),
        ensures
            final(self).wf(),
            final(self).side == old(self).side,
            final(self).model() == ({
                let m0 = old(self).model();
                let e = m0[0].1[0];
                m0.update(0, (m0[0].0, m0[0].1.update(0, (e.0, e.1, new_volume))))
            }),
            forall|id: u32|
                id_in_book(final(self).model(), id) <==> id_in_book(old(self).model(), id),
    {
        let ghost m0 = self.model();
        let mut lvl = self.levels.remove(0);
        proof {
            assert(m0[0].1.len() > 0);
            assert(queue_entries(lvl.queue).len() > 0);
        }
        match queue_front(&lvl.queue) {
            Some((oid, uid, _)) => {
                queue_replace(&mut lvl.queue, oid, uid, new_volume);
                let ghost lvl2 = lvl;
                self.levels.insert(0, lvl);
                proof {
                    let s0 = old(self).levels@;
                    let q = m0[0].1;
                    s0.remove_ensures(0);
                    s0.remove(0).insert_ensures(0, lvl2);
                    let e = q[0];
                    assert forall|k: int| 0 <= k < q.len() && k != 0 implies (#[trigger] q[k]).0
                        != oid by {
                        assert(m0[0].1[k].0 == q[k].0);
                        if q[k].0 == oid {
                            assert(m0[0].1[0].0 == oid);
                        }
                    }
                    assert(queue_entries(lvl2.queue) =~= q.update(0, (e.0, e.1, new_volume)));
                    assert(self.model() =~= m0.update(
                        0,
                        (m0[0].0, q.update(0, (e.0, e.1, new_volume))),
                    ));
                    lemma_wf_set_volume(m0, self.side, 0, 0, new_volume);
                }
            },
            None => unreached(),
        }
    }
}

} // verus!

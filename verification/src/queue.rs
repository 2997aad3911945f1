//! The FIFO queue of resting orders at one price level.
//!
//! The queue is `hashlink`'s insertion-ordered hash map, keyed by order id
//! with `(user_id, volume)` values.  Verus sees it through the uninterpreted
//! contents function [`queue_entries`], which gives the entries as a sequence
//! of `(order_id, user_id, volume)` triples in arrival order; the wrappers
//! below state how each `hashlink` call changes that sequence.

use vstd::prelude::*;

verus! {

#[verifier::external_type_specification]
#[verifier::external_body]
#[verifier::reject_recursive_types(K)]
#[verifier::reject_recursive_types(V)]
#[verifier::reject_recursive_types(S)]
pub struct ExLinkedHashMap<K, V, S>(hashlink::LinkedHashMap<K, V, S>);

#[verifier::external_type_specification]
#[verifier::external_body]
pub struct ExDefaultHashBuilder(hashlink::DefaultHashBuilder);

/// The entries of a price-level queue as `(order_id, user_id, volume)`
/// triples, first arrival first.
pub uninterp spec fn queue_entries(m: hashlink::LinkedHashMap<u32, (u32, u32)>) -> Seq<(u32, u32, u32)>;

/// Relies on `hashlink::LinkedHashMap::new`: a fresh map holds no entries.
#[verifier::external_body]
pub fn queue_new() -> (r: hashlink::LinkedHashMap<u32, (u32, u32)>)
    ensures
        queue_entries(r) == Seq::<(u32, u32, u32)>::empty(),
{
    hashlink::LinkedHashMap::new()
}

/// Relies on `hashlink::LinkedHashMap::len`: the number of entries held.
#[verifier::external_body]
pub fn queue_len(m: &hashlink::LinkedHashMap<u32, (u32, u32)>) -> (r: usize)
    ensures
        r == queue_entries(*m).len(),
{
    m.len()
}

/// Relies on `hashlink::LinkedHashMap::contains_key`: whether some entry has
/// the given key.
#[verifier::external_body]
pub fn queue_contains(m: &hashlink::LinkedHashMap<u32, (u32, u32)>, order_id: u32) -> (r: bool)
    ensures
        r == (exists|i: int|
            0 <= i < queue_entries(*m).len() && queue_entries(*m)[i].0 == order_id),
{
    m.contains_key(&order_id)
}

/// Relies on `hashlink::LinkedHashMap::insert`: a pair with a fresh key is
/// appended at the back of the insertion order.
#[verifier::external_body]
pub fn queue_push_back(
    m: &mut hashlink::LinkedHashMap<u32, (u32, u32)>,
    order_id: u32,
    user_id: u32,
    volume: u32,
)
    requires
        forall|i: int|
            0 <= i < queue_entries(*old(m)).len() ==> queue_entries(*old(m))[i].0 != order_id,
    ensures
        queue_entries(*final(m)) == queue_entries(*old(m)).push((order_id, user_id, volume)),
{
    m.insert(order_id, (user_id, volume));
}

/// Relies on `hashlink::LinkedHashMap::front`: the first entry in insertion
/// order, if any.
#[verifier::external_body]
pub fn queue_front(m: &hashlink::LinkedHashMap<u32, (u32, u32)>) -> (r: Option<(u32, u32, u32)>)
    ensures
        match r {
            Some(e) => queue_entries(*m).len() > 0 && e == queue_entries(*m)[0],
            None => queue_entries(*m).len() == 0,
        },
{
    match m.front() {
        Some((k, v)) => Some((*k, v.0, v.1)),
        None => None,
    }
}

/// Relies on `hashlink::LinkedHashMap::pop_front`: removes and returns the
/// first entry in insertion order, if any.
#[verifier::external_body]
pub fn queue_pop_front(m: &mut hashlink::LinkedHashMap<u32, (u32, u32)>) -> (r: Option<(
    u32,
    u32,
    u32,
)>)
    ensures
        match r {
            Some(e) => queue_entries(*old(m)).len() > 0 && e == queue_entries(*old(m))[0]
                && queue_entries(*final(m)) == queue_entries(*old(m)).drop_first(),
            None => queue_entries(*old(m)).len() == 0 && queue_entries(*final(m)) == queue_entries(
                *old(m),
            ),
        },
{
    match m.pop_front() {
        Some((k, v)) => Some((k, v.0, v.1)),
        None => None,
    }
}

/// Relies on `hashlink::LinkedHashMap::iter`: entries are visited in
/// insertion order, first arrival first.
#[verifier::external_body]
pub fn queue_to_vec(m: &hashlink::LinkedHashMap<u32, (u32, u32)>) -> (r: Vec<(u32, u32, u32)>)
    ensures
        r@ == queue_entries(*m),
{
    m.iter().map(|(k, v)| (*k, v.0, v.1)).collect()
}

/// Relies on `hashlink::LinkedHashMap::replace`: an existing key's value is
/// overwritten in place, without moving the entry in the insertion order.
#[verifier::external_body]
pub fn queue_replace(
    m: &mut hashlink::LinkedHashMap<u32, (u32, u32)>,
    order_id: u32,
    user_id: u32,
    volume: u32,
)
    requires
        exists|i: int|
            0 <= i < queue_entries(*old(m)).len() && queue_entries(*old(m))[i].0 == order_id,
    ensures
        queue_entries(*final(m)) == queue_entries(*old(m)).map(
            |i: int, e: (u32, u32, u32)|
                if e.0 == order_id {
                    (order_id, user_id, volume)
                } else {
                    e
                },
        ),
{
    m.replace(order_id, (user_id, volume));
}

/// Relies on `hashlink::LinkedHashMap::remove`: the entry with the given key
/// leaves the map; the remaining entries keep their relative order.
#[verifier::external_body]
pub fn queue_remove(m: &mut hashlink::LinkedHashMap<u32, (u32, u32)>, order_id: u32) -> (r: Option<
    (u32, u32),
>)
    ensures
        match r {
            Some(v) => exists|i: int|
                0 <= i < queue_entries(*old(m)).len() && queue_entries(*old(m))[i] == (
                    order_id,
                    v.0,
                    v.1,
                ) && queue_entries(*final(m)) == queue_entries(*old(m)).remove(i),
            None => (forall|i: int|
                0 <= i < queue_entries(*old(m)).len() ==> queue_entries(*old(m))[i].0 != order_id)
                && queue_entries(*final(m)) == queue_entries(*old(m)),
        },
{
    m.remove(&order_id)
}

} // verus!

//! The price-level realization of the order book: each side groups its
//! orders into per-price first-in-first-out queues, kept as a sequence of
//! levels sorted by price (bids descending, asks ascending). The contract
//! is the same order-sequence contract the flat realization meets, stated
//! over the flattened levels, so the two are interchangeable.

use vstd::prelude::*;

use crate::book::ask_pos;
use crate::book::bid_pos;
use crate::book::find_id;
use crate::book::has_id;
use crate::book::ids_unique;
use crate::book::lemma_ask_pos;
use crate::book::lemma_bid_pos;
use crate::book::lemma_find_id;
use crate::book::lemma_has_id_iff;
use crate::book::lemma_insert_ask_wf;
use crate::book::lemma_insert_bid_wf;
use crate::book::lemma_remove_ask_wf;
use crate::book::lemma_remove_bid_wf;
use crate::book::lemma_update_qty_ask_wf;
use crate::book::lemma_update_qty_wf;
use crate::book::OrderBook;
use crate::errors::VenueError;
use crate::order::Order;
use crate::order::Side;
use crate::vector_book::index_of_id;
use crate::vector_book::lemma_volume_at_nonneg;
use crate::vector_book::side_volume_clamped;
use crate::vector_book::top_of_side;

verus! {

/// One price level: the orders resting at exactly this price, oldest
/// first.
struct PriceLevel {
    price: u64,
    orders: Vec<Order>,
}

/// All resting orders of a side, levels flattened in order.
spec fn flatten_levels(ls: Seq<PriceLevel>) -> Seq<Order>
    decreases ls.len(),
{
    if ls.len() == 0 {
        Seq::empty()
    } else {
        ls[0].orders@ + flatten_levels(ls.drop_first())
    }
}

/// The level structure: no empty level, every order at its level's price,
/// level prices strictly ordered (descending on the bid side).
spec fn levels_wf(ls: Seq<PriceLevel>, descending: bool) -> bool {
    &&& forall|k: int| 0 <= k < ls.len() ==> (#[trigger] ls[k]).orders@.len() > 0
    &&& forall|k: int, j: int|
        0 <= k < ls.len() && 0 <= j < ls[k].orders@.len() ==> (#[trigger] ls[k].orders@[j]).price
            == ls[k].price
    &&& forall|k1: int, k2: int|
        #![trigger ls[k1], ls[k2]]
        0 <= k1 < k2 < ls.len() ==> if descending {
            ls[k1].price > ls[k2].price
        } else {
            ls[k1].price < ls[k2].price
        }
}

pub struct LevelOrderBook {
    bids: Vec<PriceLevel>,
    asks: Vec<PriceLevel>,
}

impl LevelOrderBook {
    #[verifier::type_invariant]
    spec fn inv(self) -> bool {
        levels_wf(self.bids@, true) && levels_wf(self.asks@, false)
    }
}

// ---------------------------------------------------------------------------
// Flattening lemmas
// ---------------------------------------------------------------------------

proof fn lemma_flatten_split(ls: Seq<PriceLevel>, k: int)
    requires
        0 <= k <= ls.len(),
    ensures
        flatten_levels(ls) == flatten_levels(ls.take(k)) + flatten_levels(ls.skip(k)),
    decreases k,
{
    if k == 0 {
        assert(ls.take(0) =~= Seq::<PriceLevel>::empty());
        assert(ls.skip(0) =~= ls);
        assert(flatten_levels(ls) =~= flatten_levels(ls.take(0)) + flatten_levels(ls.skip(0)));
    } else {
        lemma_flatten_split(ls.drop_first(), k - 1);
        assert(ls.take(k)[0] == ls[0]);
        assert(ls.take(k).drop_first() =~= ls.drop_first().take(k - 1));
        assert(ls.skip(k) =~= ls.drop_first().skip(k - 1));
        assert(flatten_levels(ls) =~= flatten_levels(ls.take(k)) + flatten_levels(ls.skip(k)));
    }
}

/// The flat sequence around one level: everything before it, its queue,
/// everything after it.
proof fn lemma_flatten_decompose(ls: Seq<PriceLevel>, k: int)
    requires
        0 <= k < ls.len(),
    ensures
        flatten_levels(ls) == flatten_levels(ls.take(k)) + ls[k].orders@ + flatten_levels(
            ls.skip(k + 1),
        ),
{
    lemma_flatten_split(ls, k);
    lemma_flatten_split(ls.skip(k), 1);
    assert(ls.skip(k).take(1) =~= seq![ls[k]]);
    assert(seq![ls[k]].drop_first() =~= Seq::<PriceLevel>::empty());
    assert(flatten_levels(Seq::<PriceLevel>::empty()) =~= Seq::<Order>::empty());
    assert(flatten_levels(seq![ls[k]]) =~= ls[k].orders@);
    assert(ls.skip(k).skip(1) =~= ls.skip(k + 1));
    assert(flatten_levels(ls) =~= flatten_levels(ls.take(k)) + ls[k].orders@ + flatten_levels(
        ls.skip(k + 1),
    ));
}

/// Every flattened order satisfies whatever holds of every order of every
/// level.
proof fn lemma_flatten_all(ls: Seq<PriceLevel>, pred: spec_fn(Order) -> bool)
    requires
        forall|k: int, j: int|
            0 <= k < ls.len() && 0 <= j < ls[k].orders@.len() ==> pred(#[trigger] ls[k].orders@[j]),
    ensures
        forall|i: int| 0 <= i < flatten_levels(ls).len() ==> pred(#[trigger] flatten_levels(ls)[i]),
    decreases ls.len(),
{
    if ls.len() > 0 {
        assert forall|k: int, j: int|
            0 <= k < ls.drop_first().len() && 0 <= j
                < ls.drop_first()[k].orders@.len() implies pred(
            #[trigger] ls.drop_first()[k].orders@[j]) by {
            assert(ls.drop_first()[k] == ls[k + 1]);
            assert(pred(ls[k + 1].orders@[j]));
        }
        lemma_flatten_all(ls.drop_first(), pred);
        assert forall|i: int| 0 <= i < flatten_levels(ls).len() implies pred(
            #[trigger] flatten_levels(ls)[i],
        ) by {
            if i < ls[0].orders@.len() {
                assert(flatten_levels(ls)[i] == ls[0].orders@[i]);
                assert(pred(ls[0].orders@[i]));
            } else {
                assert(flatten_levels(ls)[i] == flatten_levels(ls.drop_first())[i
                    - ls[0].orders@.len()]);
            }
        }
    }
}

/// The first flattened order is the head of the first level's queue.
proof fn lemma_flatten_first(ls: Seq<PriceLevel>)
    requires
        ls.len() > 0,
        ls[0].orders@.len() > 0,
    ensures
        flatten_levels(ls).len() >= ls[0].orders@.len(),
        flatten_levels(ls)[0] == ls[0].orders@[0],
{
    assert(flatten_levels(ls)[0] == ls[0].orders@[0]);
}

/// Entering an order right after the run of levels that beat its price is
/// the side's priority position in the flat view.
proof fn lemma_insert_position(ls: Seq<PriceLevel>, k: int, within: int, p: u64, descending: bool)
    requires
        levels_wf(ls, descending),
        0 <= k <= ls.len(),
        forall|j: int|
            0 <= j < k ==> (if descending {
                (#[trigger] ls[j]).price >= p
            } else {
                ls[j].price <= p
            }),
        k < ls.len() ==> (if descending {
            ls[k].price < p
        } else {
            ls[k].price > p
        }),
        within == flatten_levels(ls.take(k)).len(),
    ensures
        descending ==> within == bid_pos(flatten_levels(ls), p),
        !descending ==> within == ask_pos(flatten_levels(ls), p),
{
    let flat = flatten_levels(ls);
    lemma_flatten_split(ls, k);
    let head = flatten_levels(ls.take(k));
    let tail = flatten_levels(ls.skip(k));
    assert forall|kk: int, j: int|
        0 <= kk < ls.take(k).len() && 0 <= j < ls.take(k)[kk].orders@.len() implies (if descending {
        (#[trigger] ls.take(k)[kk].orders@[j]).price >= p
    } else {
        ls.take(k)[kk].orders@[j].price <= p
    }) by {
        assert(ls.take(k)[kk] == ls[kk]);
        assert(ls[kk].orders@[j].price == ls[kk].price);
    }
    if descending {
        lemma_flatten_all(ls.take(k), |o: Order| o.price >= p);
    } else {
        lemma_flatten_all(ls.take(k), |o: Order| o.price <= p);
    }
    assert forall|i: int| 0 <= i < within implies (if descending {
        (#[trigger] flat[i]).price >= p
    } else {
        flat[i].price <= p
    }) by {
        assert(flat[i] == head[i]);
        if descending {
            assert((|o: Order| o.price >= p)(head[i]));
        } else {
            assert((|o: Order| o.price <= p)(head[i]));
        }
    }
    if within < flat.len() {
        assert(k < ls.len());
        assert(ls.skip(k).len() > 0);
        assert(ls.skip(k)[0] == ls[k]);
        lemma_flatten_first(ls.skip(k));
        assert(flat[within] == tail[0]);
        assert(ls[k].orders@[0].price == ls[k].price);
    }
    if descending {
        lemma_bid_pos(flat, p);
        let pos = bid_pos(flat, p);
        if pos < within {
            assert(flat[pos as int].price >= p);
        }
        if pos > within {
            assert(flat[within].price >= p);
        }
    } else {
        lemma_ask_pos(flat, p);
        let pos = ask_pos(flat, p);
        if pos < within {
            assert(flat[pos as int].price <= p);
        }
        if pos > within {
            assert(flat[within].price <= p);
        }
    }
}

// ---------------------------------------------------------------------------
// Executable helpers over one side
// ---------------------------------------------------------------------------

/// All of one side's orders as one flat vector, priority order.
fn flat_orders(ls: &Vec<PriceLevel>) -> (r: Vec<Order>)
    ensures
        r@ == flatten_levels(ls@),
{
    let mut r: Vec<Order> = Vec::new();
    let mut k: usize = 0;
    while k < ls.len()
        invariant
            k <= ls@.len(),
            r@ == flatten_levels(ls@.take(k as int)),
        decreases ls@.len() - k,
    {
        proof {
            lemma_flatten_split(ls@.take(k + 1 as int), k as int);
            assert(ls@.take(k + 1 as int).take(k as int) =~= ls@.take(k as int));
            assert(ls@.take(k + 1 as int).skip(k as int) =~= seq![ls@[k as int]]);
            assert(seq![ls@[k as int]].drop_first() =~= Seq::<PriceLevel>::empty());
            assert(flatten_levels(Seq::<PriceLevel>::empty()) =~= Seq::<Order>::empty());
            assert(flatten_levels(seq![ls@[k as int]]) =~= ls@[k as int].orders@);
        }
        r.extend_from_slice(ls[k].orders.as_slice());
        k += 1;
    }
    proof {
        assert(ls@.take(ls@.len() as int) =~= ls@);
    }
    r
}

/// Index of the first bid level whose price no longer beats `p`.
fn bid_level_index(ls: &Vec<PriceLevel>, p: u64) -> (r: usize)
    ensures
        r <= ls@.len(),
        forall|k: int| 0 <= k < r ==> (#[trigger] ls@[k]).price > p,
        r < ls@.len() ==> ls@[r as int].price <= p,
{
    let mut k: usize = 0;
    while k < ls.len() && ls[k].price > p
        invariant
            k <= ls@.len(),
            forall|j: int| 0 <= j < k ==> (#[trigger] ls@[j]).price > p,
        decreases ls@.len() - k,
    {
        k += 1;
    }
    k
}

/// Index of the first ask level whose price no longer beats `p`.
fn ask_level_index(ls: &Vec<PriceLevel>, p: u64) -> (r: usize)
    ensures
        r <= ls@.len(),
        forall|k: int| 0 <= k < r ==> (#[trigger] ls@[k]).price < p,
        r < ls@.len() ==> ls@[r as int].price >= p,
{
    let mut k: usize = 0;
    while k < ls.len() && ls[k].price < p
        invariant
            k <= ls@.len(),
            forall|j: int| 0 <= j < k ==> (#[trigger] ls@[j]).price < p,
        decreases ls@.len() - k,
    {
        k += 1;
    }
    k
}

/// Enter an order into one side at its price-time position.
#[verifier::rlimit(60)]
fn add_to_levels(ls: &mut Vec<PriceLevel>, order: Order, descending: bool)
    requires
        levels_wf(old(ls)@, descending),
    ensures
        levels_wf(final(ls)@, descending),
        descending ==> flatten_levels(final(ls)@) == flatten_levels(old(ls)@).insert(
            bid_pos(flatten_levels(old(ls)@), order.price) as int,
            order,
        ),
        !descending ==> flatten_levels(final(ls)@) == flatten_levels(old(ls)@).insert(
            ask_pos(flatten_levels(old(ls)@), order.price) as int,
            order,
        ),
{
    let ghost ls0 = ls@;
    let ghost flat0 = flatten_levels(ls0);
    let p = order.price;
    let k = if descending {
        bid_level_index(ls, p)
    } else {
        ask_level_index(ls, p)
    };
    if k < ls.len() && ls[k].price == p {
        // the price level exists: the order queues at its end
        let mut lv = ls.remove(k);
        lv.orders.push(order);
        ls.insert(k, lv);
        proof {
            ls0.remove_ensures(k as int);
            ls0.remove(k as int).insert_ensures(k as int, ls@[k as int]);
            assert(ls@.take(k as int) =~= ls0.take(k as int));
            assert(ls@.skip(k + 1 as int) =~= ls0.skip(k + 1 as int));
            assert(ls@[k as int].orders@ =~= ls0[k as int].orders@.push(order));
            // the structure is preserved
            assert forall|j: int| 0 <= j < ls@.len() implies (#[trigger] ls@[j]).price
                == ls0[j].price && ls@[j].orders@.len() > 0 by {
                if j != k {
                    assert(ls@[j] == ls0[j]);
                }
            }
            assert forall|kk: int, j: int|
                0 <= kk < ls@.len() && 0 <= j < ls@[kk].orders@.len() implies (
            #[trigger] ls@[kk].orders@[j]).price == ls@[kk].price by {
                if kk != k {
                    assert(ls@[kk] == ls0[kk]);
                } else if j < ls0[k as int].orders@.len() {
                    assert(ls@[kk].orders@[j] == ls0[k as int].orders@[j]);
                } else {
                    assert(ls@[kk].orders@[j] == order);
                }
            }
            assert(levels_wf(ls@, descending));
            // the flat view gains the order at the side's priority position
            lemma_flatten_decompose(ls0, k as int);
            lemma_flatten_decompose(ls@, k as int);
            let head = flatten_levels(ls0.take(k as int));
            let mid = ls0[k as int].orders@;
            let rest = flatten_levels(ls0.skip(k + 1 as int));
            let g = head.len() + mid.len();
            lemma_flatten_split(ls0.take(k + 1 as int), k as int);
            assert(ls0.take(k + 1 as int).take(k as int) =~= ls0.take(k as int));
            assert(ls0.take(k + 1 as int).skip(k as int) =~= seq![ls0[k as int]]);
            assert(seq![ls0[k as int]].drop_first() =~= Seq::<PriceLevel>::empty());
            assert(flatten_levels(Seq::<PriceLevel>::empty()) =~= Seq::<Order>::empty());
            assert(flatten_levels(seq![ls0[k as int]]) =~= mid);
            assert(flatten_levels(ls0.take(k + 1 as int)).len() == g);
            assert forall|j: int| 0 <= j < k + 1 implies (if descending {
                (#[trigger] ls0[j]).price >= p
            } else {
                ls0[j].price <= p
            }) by {}
            lemma_insert_position(ls0, k + 1 as int, g as int, p, descending);
            flat0.insert_ensures(g as int, order);
            assert(flatten_levels(ls@) =~= flat0.insert(g as int, order));
        }
    } else {
        // no level at this price: a fresh one enters between the levels
        // that beat it and the rest
        let mut orders: Vec<Order> = Vec::new();
        orders.push(order);
        ls.insert(k, PriceLevel { price: p, orders });
        proof {
            ls0.insert_ensures(k as int, ls@[k as int]);
            assert(ls@.take(k as int) =~= ls0.take(k as int));
            assert(ls@.skip(k + 1 as int) =~= ls0.skip(k as int));
            assert(ls@[k as int].orders@ =~= seq![order]);
            assert forall|kk: int, j: int|
                0 <= kk < ls@.len() && 0 <= j < ls@[kk].orders@.len() implies (
            #[trigger] ls@[kk].orders@[j]).price == ls@[kk].price by {
                if kk < k {
                    assert(ls@[kk] == ls0[kk]);
                } else if kk > k {
                    assert(ls@[kk] == ls0[kk - 1]);
                }
            }
            assert forall|k1: int, k2: int|
                #![trigger ls@[k1], ls@[k2]]
                0 <= k1 < k2 < ls@.len() implies (if descending {
                ls@[k1].price > ls@[k2].price
            } else {
                ls@[k1].price < ls@[k2].price
            }) by {
                if k1 < k {
                    assert(ls@[k1] == ls0[k1]);
                } else if k1 > k {
                    assert(ls@[k1] == ls0[k1 - 1]);
                }
                if k2 < k {
                    assert(ls@[k2] == ls0[k2]);
                } else if k2 > k {
                    assert(ls@[k2] == ls0[k2 - 1]);
                }
            }
            assert forall|j: int| 0 <= j < ls@.len() implies (#[trigger] ls@[j]).orders@.len()
                > 0 by {
                if j < k {
                    assert(ls@[j] == ls0[j]);
                } else if j > k {
                    assert(ls@[j] == ls0[j - 1]);
                }
            }
            assert(levels_wf(ls@, descending));
            lemma_flatten_decompose(ls@, k as int);
            lemma_flatten_split(ls0, k as int);
            let head = flatten_levels(ls0.take(k as int));
            let g = head.len();
            lemma_insert_position(ls0, k as int, g as int, p, descending);
            flat0.insert_ensures(g as int, order);
            assert(flatten_levels(ls@) =~= flat0.insert(g as int, order));
        }
    }
}

/// Remove the order with this id from one side, if it rests there.
#[verifier::rlimit(60)]
fn remove_from_levels(ls: &mut Vec<PriceLevel>, id: u64, descending: bool) -> (found: bool)
    requires
        levels_wf(old(ls)@, descending),
        ids_unique(flatten_levels(old(ls)@)),
    ensures
        levels_wf(final(ls)@, descending),
        found == has_id(flatten_levels(old(ls)@), id),
        found ==> flatten_levels(final(ls)@) == flatten_levels(old(ls)@).remove(
            find_id(flatten_levels(old(ls)@), id),
        ),
        !found ==> final(ls)@ == old(ls)@,
{
    let ghost ls0 = ls@;
    let ghost flat0 = flatten_levels(ls0);
    let mut k: usize = 0;
    while k < ls.len()
        invariant
            ls0 == old(ls)@,
            ls@ == ls0,
            levels_wf(ls0, descending),
            ids_unique(flat0),
            flat0 == flatten_levels(ls0),
            k <= ls0.len(),
            forall|j: int, t: int|
                0 <= j < k && 0 <= t < ls0[j].orders@.len() ==> (
                #[trigger] ls0[j].orders@[t]).id != id,
        decreases ls0.len() - k,
    {
        let j = index_of_id(&ls[k].orders, id);
        if j < ls[k].orders.len() {
            proof {
                lemma_find_id(ls0[k as int].orders@, id);
                lemma_has_id_iff(ls0[k as int].orders@, id);
                assert(ls0[k as int].orders@[j as int].id == id);
                lemma_flatten_decompose(ls0, k as int);
                let head = flatten_levels(ls0.take(k as int));
                let mid = ls0[k as int].orders@;
                let rest = flatten_levels(ls0.skip(k + 1 as int));
                let g = head.len() + j;
                assert(flat0[g as int] == mid[j as int]);
                lemma_has_id_iff(flat0, id);
                lemma_find_id(flat0, id);
                let f = find_id(flat0, id);
                assert(flat0[f].id == id);
                if f < g {
                    assert(flat0[f].id != flat0[g as int].id);
                }
                if f > g {
                    assert(flat0[g as int].id != flat0[f].id);
                }
                assert(f == g);
            }
            let ghost g = flatten_levels(ls0.take(k as int)).len() + j;
            if ls[k].orders.len() == 1 {
                // the level empties and leaves
                ls.remove(k);
                proof {
                    ls0.remove_ensures(k as int);
                    assert(ls@ =~= ls0.remove(k as int));
                    assert(ls@.take(k as int) =~= ls0.take(k as int));
                    assert(ls@.skip(k as int) =~= ls0.skip(k + 1 as int));
                    assert forall|k1: int, k2: int|
                        #![trigger ls@[k1], ls@[k2]]
                        0 <= k1 < k2 < ls@.len() implies (if descending {
                        ls@[k1].price > ls@[k2].price
                    } else {
                        ls@[k1].price < ls@[k2].price
                    }) by {
                        if k1 < k {
                            assert(ls@[k1] == ls0[k1]);
                        } else {
                            assert(ls@[k1] == ls0[k1 + 1]);
                        }
                        if k2 < k {
                            assert(ls@[k2] == ls0[k2]);
                        } else {
                            assert(ls@[k2] == ls0[k2 + 1]);
                        }
                    }
                    assert forall|j2: int| 0 <= j2 < ls@.len() implies (
                    #[trigger] ls@[j2]).orders@.len() > 0 by {
                        if j2 < k {
                            assert(ls@[j2] == ls0[j2]);
                        } else {
                            assert(ls@[j2] == ls0[j2 + 1]);
                        }
                    }
                    assert forall|kk: int, j2: int|
                        0 <= kk < ls@.len() && 0 <= j2 < ls@[kk].orders@.len() implies (
                    #[trigger] ls@[kk].orders@[j2]).price == ls@[kk].price by {
                        if kk < k {
                            assert(ls@[kk] == ls0[kk]);
                        } else {
                            assert(ls@[kk] == ls0[kk + 1]);
                        }
                    }
                    assert(levels_wf(ls@, descending));
                    lemma_flatten_split(ls@, k as int);
                    let head = flatten_levels(ls0.take(k as int));
                    let rest = flatten_levels(ls0.skip(k + 1 as int));
                    flat0.remove_ensures(g as int);
                    assert(flatten_levels(ls@) =~= flat0.remove(g as int));
                }
            } else {
                // the order leaves its queue, the level stays
                let mut lv = ls.remove(k);
                lv.orders.remove(j);
                ls.insert(k, lv);
                proof {
                    ls0.remove_ensures(k as int);
                    ls0.remove(k as int).insert_ensures(k as int, ls@[k as int]);
                    assert(ls@.take(k as int) =~= ls0.take(k as int));
                    assert(ls@.skip(k + 1 as int) =~= ls0.skip(k + 1 as int));
                    assert(ls@[k as int].orders@ =~= ls0[k as int].orders@.remove(j as int));
                    assert(ls@[k as int].price == ls0[k as int].price);
                    ls0[k as int].orders@.remove_ensures(j as int);
                    assert forall|jj: int| 0 <= jj < ls@.len() implies (#[trigger] ls@[jj]).price
                        == ls0[jj].price && ls@[jj].orders@.len() > 0 by {
                        if jj != k {
                            assert(ls@[jj] == ls0[jj]);
                        }
                    }
                    assert forall|kk: int, j2: int|
                        0 <= kk < ls@.len() && 0 <= j2 < ls@[kk].orders@.len() implies (
                    #[trigger] ls@[kk].orders@[j2]).price == ls@[kk].price by {
                        if kk != k {
                            assert(ls@[kk] == ls0[kk]);
                        } else if j2 < j {
                            assert(ls@[kk].orders@[j2] == ls0[k as int].orders@[j2]);
                        } else {
                            assert(ls@[kk].orders@[j2] == ls0[k as int].orders@[j2 + 1]);
                        }
                    }
                    assert(levels_wf(ls@, descending));
                    lemma_flatten_decompose(ls@, k as int);
                    flat0.remove_ensures(g as int);
                    assert(flatten_levels(ls@) =~= flat0.remove(g as int));
                }
            }
            return true;
        }
        proof {
            lemma_find_id(ls0[k as int].orders@, id);
            lemma_has_id_iff(ls0[k as int].orders@, id);
        }
        k += 1;
    }
    proof {
        lemma_flatten_all(ls0, |o: Order| o.id != id);
        lemma_has_id_iff(flat0, id);
        if has_id(flat0, id) {
            let i = choose|i: int| 0 <= i < flat0.len() && (#[trigger] flat0[i]).id == id;
            assert((|o: Order| o.id != id)(flat0[i]));
        }
    }
    false
}

/// Remove the first resting order of one side.
fn pop_top(ls: &mut Vec<PriceLevel>, descending: bool)
    requires
        levels_wf(old(ls)@, descending),
        old(ls)@.len() > 0,
    ensures
        levels_wf(final(ls)@, descending),
        flatten_levels(final(ls)@) == flatten_levels(old(ls)@).remove(0),
{
    let ghost ls0 = ls@;
    let ghost flat0 = flatten_levels(ls0);
    proof {
        lemma_flatten_decompose(ls0, 0);
        assert(ls0.take(0) =~= Seq::<PriceLevel>::empty());
        flat0.remove_ensures(0);
    }
    if ls[0].orders.len() == 1 {
        ls.remove(0);
        proof {
            ls0.remove_ensures(0);
            assert(ls@ =~= ls0.skip(1));
            assert forall|k1: int, k2: int|
                #![trigger ls@[k1], ls@[k2]]
                0 <= k1 < k2 < ls@.len() implies (if descending {
                ls@[k1].price > ls@[k2].price
            } else {
                ls@[k1].price < ls@[k2].price
            }) by {
                assert(ls@[k1] == ls0[k1 + 1]);
                assert(ls@[k2] == ls0[k2 + 1]);
            }
            assert forall|j: int| 0 <= j < ls@.len() implies (#[trigger] ls@[j]).orders@.len()
                > 0 by {
                assert(ls@[j] == ls0[j + 1]);
            }
            assert forall|kk: int, j: int|
                0 <= kk < ls@.len() && 0 <= j < ls@[kk].orders@.len() implies (
            #[trigger] ls@[kk].orders@[j]).price == ls@[kk].price by {
                assert(ls@[kk] == ls0[kk + 1]);
            }
            assert(levels_wf(ls@, descending));
            assert(flatten_levels(ls@) =~= flat0.remove(0));
        }
    } else {
        let mut lv = ls.remove(0);
        lv.orders.remove(0);
        ls.insert(0, lv);
        proof {
            ls0.remove_ensures(0);
            ls0.remove(0).insert_ensures(0, ls@[0]);
            assert(ls@.skip(1) =~= ls0.skip(1));
            assert(ls@[0].orders@ =~= ls0[0].orders@.remove(0));
            assert(ls@[0].price == ls0[0].price);
            ls0[0].orders@.remove_ensures(0);
            assert forall|j: int| 0 <= j < ls@.len() implies (#[trigger] ls@[j]).price
                == ls0[j].price && ls@[j].orders@.len() > 0 by {
                if j != 0 {
                    assert(ls@[j] == ls0[j]);
                }
            }
            assert forall|kk: int, j: int|
                0 <= kk < ls@.len() && 0 <= j < ls@[kk].orders@.len() implies (
            #[trigger] ls@[kk].orders@[j]).price == ls@[kk].price by {
                if kk != 0 {
                    assert(ls@[kk] == ls0[kk]);
                } else {
                    assert(ls@[0].orders@[j] == ls0[0].orders@[j + 1]);
                }
            }
            assert(levels_wf(ls@, descending));
            lemma_flatten_decompose(ls@, 0);
            assert(ls@.take(0) =~= Seq::<PriceLevel>::empty());
            assert(flatten_levels(ls@) =~= flat0.remove(0));
        }
    }
}

/// Reduce the first resting order of one side to a new quantity in place.
fn reduce_top(ls: &mut Vec<PriceLevel>, quantity: u64, descending: bool)
    requires
        levels_wf(old(ls)@, descending),
        old(ls)@.len() > 0,
    ensures
        levels_wf(final(ls)@, descending),
        ({
            let flat = flatten_levels(old(ls)@);
            flatten_levels(final(ls)@) == flat.update(
                0,
                Order {
                    id: flat[0].id,
                    side: flat[0].side,
                    quantity,
                    price: flat[0].price,
                },
            )
        }),
{
    let ghost ls0 = ls@;
    let ghost flat0 = flatten_levels(ls0);
    proof {
        lemma_flatten_decompose(ls0, 0);
        assert(ls0.take(0) =~= Seq::<PriceLevel>::empty());
        lemma_flatten_first(ls0);
    }
    let mut lv = ls.remove(0);
    let o = lv.orders[0];
    lv.orders.set(0, Order { id: o.id, side: o.side, quantity, price: o.price });
    ls.insert(0, lv);
    proof {
        ls0.remove_ensures(0);
        ls0.remove(0).insert_ensures(0, ls@[0]);
        assert(ls@.skip(1) =~= ls0.skip(1));
        assert(ls@[0].orders@ =~= ls0[0].orders@.update(
            0,
            Order { id: o.id, side: o.side, quantity, price: o.price },
        ));
        assert(ls@[0].price == ls0[0].price);
        assert forall|j: int| 0 <= j < ls@.len() implies (#[trigger] ls@[j]).price == ls0[j].price
            && ls@[j].orders@.len() > 0 by {
            if j != 0 {
                assert(ls@[j] == ls0[j]);
            }
        }
        assert forall|kk: int, j: int|
            0 <= kk < ls@.len() && 0 <= j < ls@[kk].orders@.len() implies (
        #[trigger] ls@[kk].orders@[j]).price == ls@[kk].price by {
            if kk != 0 {
                assert(ls@[kk] == ls0[kk]);
            } else if j != 0 {
                assert(ls@[0].orders@[j] == ls0[0].orders@[j]);
            }
        }
        assert(levels_wf(ls@, descending));
        lemma_flatten_decompose(ls@, 0);
        assert(ls@.take(0) =~= Seq::<PriceLevel>::empty());
        assert(flatten_levels(ls@) =~= flat0.update(
            0,
            Order { id: flat0[0].id, side: flat0[0].side, quantity, price: flat0[0].price },
        ));
    }
}

// ---------------------------------------------------------------------------
// The book contract
// ---------------------------------------------------------------------------

impl OrderBook for LevelOrderBook {
    closed spec fn bid_view(&self) -> Seq<Order> {
        flatten_levels(self.bids@)
    }

    closed spec fn ask_view(&self) -> Seq<Order> {
        flatten_levels(self.asks@)
    }

    fn new() -> (r: LevelOrderBook) {
        let r = LevelOrderBook { bids: Vec::new(), asks: Vec::new() };
        proof {
            assert(r.bids@ =~= Seq::<PriceLevel>::empty());
            assert(r.asks@ =~= Seq::<PriceLevel>::empty());
        }
        r
    }

    fn add_bid_order(&mut self, order: Order) {
        proof {
            use_type_invariant(&*self);
            lemma_bid_pos(self.bid_view(), order.price);
            lemma_insert_bid_wf(self.bid_view(), self.ask_view(), order);
        }
        let mut side: Vec<PriceLevel> = Vec::new();
        core::mem::swap(&mut side, &mut self.bids);
        add_to_levels(&mut side, order, true);
        core::mem::swap(&mut side, &mut self.bids);
    }

    fn add_ask_order(&mut self, order: Order) {
        proof {
            use_type_invariant(&*self);
            lemma_ask_pos(self.ask_view(), order.price);
            lemma_insert_ask_wf(self.bid_view(), self.ask_view(), order);
        }
        let mut side: Vec<PriceLevel> = Vec::new();
        core::mem::swap(&mut side, &mut self.asks);
        add_to_levels(&mut side, order, false);
        core::mem::swap(&mut side, &mut self.asks);
    }

    fn remove_bid_order(&mut self, id: u64) -> (r: Result<(), VenueError>) {
        proof {
            use_type_invariant(&*self);
            lemma_find_id(self.bid_view(), id);
        }
        let ghost bids0 = self.bid_view();
        let mut side: Vec<PriceLevel> = Vec::new();
        core::mem::swap(&mut side, &mut self.bids);
        let found = remove_from_levels(&mut side, id, true);
        core::mem::swap(&mut side, &mut self.bids);
        if found {
            proof {
                lemma_remove_bid_wf(bids0, self.ask_view(), find_id(bids0, id));
            }
            Ok(())
        } else {
            Err(VenueError::NotFound)
        }
    }

    fn remove_ask_order(&mut self, id: u64) -> (r: Result<(), VenueError>) {
        proof {
            use_type_invariant(&*self);
            lemma_find_id(self.ask_view(), id);
        }
        let ghost asks0 = self.ask_view();
        let mut side: Vec<PriceLevel> = Vec::new();
        core::mem::swap(&mut side, &mut self.asks);
        let found = remove_from_levels(&mut side, id, false);
        core::mem::swap(&mut side, &mut self.asks);
        if found {
            proof {
                lemma_remove_ask_wf(self.bid_view(), asks0, find_id(asks0, id));
            }
            Ok(())
        } else {
            Err(VenueError::NotFound)
        }
    }

    fn amend_bid_order(&mut self, id: u64, quantity: u64, price: u64) -> (r: Result<
        (),
        VenueError,
    >) {
        let ghost bids0 = self.bid_view();
        let ghost asks0 = self.ask_view();
        proof {
            lemma_find_id(bids0, id);
        }
        match self.remove_bid_order(id) {
            Ok(()) => {
                proof {
                    let idx = find_id(bids0, id);
                    bids0.remove_ensures(idx);
                    lemma_has_id_iff(self.bid_view(), id);
                    assert forall|k: int| 0 <= k < self.bid_view().len() implies (
                    #[trigger] self.bid_view()[k]).id != id by {
                        if k < idx {
                            assert(self.bid_view()[k] == bids0[k]);
                        } else {
                            assert(self.bid_view()[k] == bids0[k + 1]);
                        }
                    }
                    lemma_has_id_iff(self.ask_view(), id);
                    if exists|j: int| 0 <= j < asks0.len() && (#[trigger] asks0[j]).id == id {
                        let j = choose|j: int|
                            0 <= j < asks0.len() && (#[trigger] asks0[j]).id == id;
                        assert(bids0[idx].id == asks0[j].id);
                        assert(false);
                    }
                }
                self.add_bid_order(Order { id, side: Side::Buy, quantity, price });
                Ok(())
            },
            Err(e) => Err(e),
        }
    }

    fn amend_ask_order(&mut self, id: u64, quantity: u64, price: u64) -> (r: Result<
        (),
        VenueError,
    >) {
        let ghost bids0 = self.bid_view();
        let ghost asks0 = self.ask_view();
        proof {
            lemma_find_id(asks0, id);
        }
        match self.remove_ask_order(id) {
            Ok(()) => {
                proof {
                    let idx = find_id(asks0, id);
                    asks0.remove_ensures(idx);
                    lemma_has_id_iff(self.ask_view(), id);
                    assert forall|k: int| 0 <= k < self.ask_view().len() implies (
                    #[trigger] self.ask_view()[k]).id != id by {
                        if k < idx {
                            assert(self.ask_view()[k] == asks0[k]);
                        } else {
                            assert(self.ask_view()[k] == asks0[k + 1]);
                        }
                    }
                    lemma_has_id_iff(self.bid_view(), id);
                    if exists|j: int| 0 <= j < bids0.len() && (#[trigger] bids0[j]).id == id {
                        let j = choose|j: int|
                            0 <= j < bids0.len() && (#[trigger] bids0[j]).id == id;
                        assert(bids0[j].id == asks0[idx].id);
                        assert(false);
                    }
                }
                self.add_ask_order(Order { id, side: Side::Sell, quantity, price });
                Ok(())
            },
            Err(e) => Err(e),
        }
    }

    fn match_orders(&mut self) -> (r: Result<(u64, u64, u64, u64), VenueError>) {
        proof {
            use_type_invariant(&*self);
        }
        if self.bids.len() == 0 || self.asks.len() == 0 {
            return Err(VenueError::NoMatch);
        }
        proof {
            lemma_flatten_first(self.bids@);
            lemma_flatten_first(self.asks@);
        }
        let b = self.bids[0].orders[0];
        let a = self.asks[0].orders[0];
        if b.price >= a.price {
            let q = if b.quantity <= a.quantity {
                b.quantity
            } else {
                a.quantity
            };
            if b.quantity > a.quantity {
                let reduced = Order {
                    id: b.id,
                    side: b.side,
                    quantity: b.quantity - a.quantity,
                    price: b.price,
                };
                proof {
                    lemma_update_qty_wf(self.bid_view(), self.ask_view(), 0, reduced);
                }
                let mut side: Vec<PriceLevel> = Vec::new();
                core::mem::swap(&mut side, &mut self.bids);
                reduce_top(&mut side, reduced.quantity, true);
                core::mem::swap(&mut side, &mut self.bids);
                proof {
                    lemma_remove_ask_wf(self.bid_view(), self.ask_view(), 0);
                }
                let mut side: Vec<PriceLevel> = Vec::new();
                core::mem::swap(&mut side, &mut self.asks);
                pop_top(&mut side, false);
                core::mem::swap(&mut side, &mut self.asks);
            } else if a.quantity > b.quantity {
                let reduced = Order {
                    id: a.id,
                    side: a.side,
                    quantity: a.quantity - b.quantity,
                    price: a.price,
                };
                proof {
                    lemma_update_qty_ask_wf(self.bid_view(), self.ask_view(), 0, reduced);
                }
                let mut side: Vec<PriceLevel> = Vec::new();
                core::mem::swap(&mut side, &mut self.asks);
                reduce_top(&mut side, reduced.quantity, false);
                core::mem::swap(&mut side, &mut self.asks);
                proof {
                    lemma_remove_bid_wf(self.bid_view(), self.ask_view(), 0);
                }
                let mut side: Vec<PriceLevel> = Vec::new();
                core::mem::swap(&mut side, &mut self.bids);
                pop_top(&mut side, true);
                core::mem::swap(&mut side, &mut self.bids);
            } else {
                proof {
                    lemma_remove_bid_wf(self.bid_view(), self.ask_view(), 0);
                }
                let mut side: Vec<PriceLevel> = Vec::new();
                core::mem::swap(&mut side, &mut self.bids);
                pop_top(&mut side, true);
                core::mem::swap(&mut side, &mut self.bids);
                proof {
                    lemma_remove_ask_wf(self.bid_view(), self.ask_view(), 0);
                }
                let mut side: Vec<PriceLevel> = Vec::new();
                core::mem::swap(&mut side, &mut self.asks);
                pop_top(&mut side, false);
                core::mem::swap(&mut side, &mut self.asks);
            }
            Ok((b.id, a.id, q, a.price))
        } else {
            Err(VenueError::NoMatch)
        }
    }

    fn best_bid(&self) -> (r: Option<u64>) {
        proof {
            use_type_invariant(&*self);
        }
        if self.bids.len() > 0 {
            proof {
                lemma_flatten_first(self.bids@);
            }
            Some(self.bids[0].price)
        } else {
            None
        }
    }

    fn best_ask(&self) -> (r: Option<u64>) {
        proof {
            use_type_invariant(&*self);
        }
        if self.asks.len() > 0 {
            proof {
                lemma_flatten_first(self.asks@);
            }
            Some(self.asks[0].price)
        } else {
            None
        }
    }

    fn get_bids(&self) -> (r: Vec<Order>) {
        let flat = flat_orders(&self.bids);
        top_of_side(&flat)
    }

    fn get_asks(&self) -> (r: Vec<Order>) {
        let flat = flat_orders(&self.asks);
        top_of_side(&flat)
    }

    fn get_volume_at_limit(&self, price: u64) -> (r: u64) {
        let flat_bids = flat_orders(&self.bids);
        let flat_asks = flat_orders(&self.asks);
        let b = side_volume_clamped(&flat_bids, price, 0);
        let r = side_volume_clamped(&flat_asks, price, b);
        proof {
            lemma_volume_at_nonneg(self.bid_view(), price);
            lemma_volume_at_nonneg(self.ask_view(), price);
        }
        r
    }

    fn get_order_by_id(&self, id: u64) -> (r: Result<Order, VenueError>) {
        let flat_bids = flat_orders(&self.bids);
        let i = index_of_id(&flat_bids, id);
        proof {
            lemma_find_id(self.bid_view(), id);
        }
        if i < flat_bids.len() {
            return Ok(flat_bids[i]);
        }
        let flat_asks = flat_orders(&self.asks);
        let j = index_of_id(&flat_asks, id);
        proof {
            lemma_find_id(self.ask_view(), id);
        }
        if j < flat_asks.len() {
            return Ok(flat_asks[j]);
        }
        Err(VenueError::NotFound)
    }

    fn get_market_price(&self) -> (r: Result<u64, VenueError>) {
        proof {
            use_type_invariant(&*self);
        }
        if self.bids.len() > 0 && self.asks.len() > 0 {
            proof {
                lemma_flatten_first(self.bids@);
                lemma_flatten_first(self.asks@);
            }
            let b = self.bids[0].price;
            let a = self.asks[0].price;
            let m = ((b as u128 + a as u128) / 2) as u64;
            Ok(m)
        } else {
            Err(VenueError::NoPrice)
        }
    }
}

} // verus!

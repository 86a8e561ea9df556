//! The flat-sequence realization of the order book: each side is one
//! dynamic array kept in priority order by inserting every order at its
//! priority position (a stable placement, so arrival order is preserved
//! among equal prices).

use vstd::prelude::*;

use crate::book::ask_pos;
use crate::book::bid_pos;
use crate::book::find_id;
use crate::book::has_id;
use crate::book::lemma_ask_pos;
use crate::book::lemma_bid_pos;
use crate::book::lemma_find_id;
use crate::book::lemma_has_id_iff;
use crate::book::lemma_insert_ask_wf;
use crate::book::lemma_insert_bid_wf;
use crate::book::lemma_remove_ask_wf;
use crate::book::lemma_remove_bid_wf;
use crate::book::lemma_update_qty_ask_wf;
use crate::book::lemma_update_qty_wf;
use crate::book::padded_top;
use crate::book::volume_at;
use crate::book::OrderBook;
use crate::errors::VenueError;
use crate::order::Order;
use crate::order::Side;
use crate::DEPTH;

verus! {

pub struct VectorOrderBook {
    pub bids: Vec<Order>,
    pub asks: Vec<Order>,
}

impl VectorOrderBook {
    /// Index of the first bid whose price is below `p`: the priority
    /// position for a new bid at `p`.
    fn bid_insert_index(&self, p: u64) -> (r: usize)
        ensures
            r as nat == bid_pos(self.bids@, p),
    {
        let mut i: usize = 0;
        while i < self.bids.len() && self.bids[i].price >= p
            invariant
                i <= self.bids@.len(),
                forall|k: int| 0 <= k < i ==> (#[trigger] self.bids@[k]).price >= p,
            decreases self.bids@.len() - i,
        {
            i += 1;
        }
        proof {
            lemma_bid_pos(self.bids@, p);
            let pos = bid_pos(self.bids@, p);
            if (i as nat) < pos {
                assert(self.bids@[i as int].price >= p);
            }
            if (i as nat) > pos {
                assert(self.bids@[pos as int].price >= p);
            }
        }
        i
    }

    /// Index of the first ask whose price is above `p`: the priority
    /// position for a new ask at `p`.
    fn ask_insert_index(&self, p: u64) -> (r: usize)
        ensures
            r as nat == ask_pos(self.asks@, p),
    {
        let mut i: usize = 0;
        while i < self.asks.len() && self.asks[i].price <= p
            invariant
                i <= self.asks@.len(),
                forall|k: int| 0 <= k < i ==> (#[trigger] self.asks@[k]).price <= p,
            decreases self.asks@.len() - i,
        {
            i += 1;
        }
        proof {
            lemma_ask_pos(self.asks@, p);
            let pos = ask_pos(self.asks@, p);
            if (i as nat) < pos {
                assert(self.asks@[i as int].price <= p);
            }
            if (i as nat) > pos {
                assert(self.asks@[pos as int].price <= p);
            }
        }
        i
    }
}

/// Index of the first order in `s` carrying `id`, or `s.len()` if none does.
pub(crate) fn index_of_id(s: &Vec<Order>, id: u64) -> (r: usize)
    ensures
        has_id(s@, id) ==> r as int == find_id(s@, id),
        !has_id(s@, id) ==> r as int == s@.len(),
{
    let mut i: usize = 0;
    while i < s.len() && s[i].id != id
        invariant
            i <= s@.len(),
            forall|k: int| 0 <= k < i ==> (#[trigger] s@[k]).id != id,
        decreases s@.len() - i,
    {
        i += 1;
    }
    proof {
        lemma_find_id(s@, id);
        let f = find_id(s@, id);
        if i < s@.len() {
            // found at i: the spec index can be neither earlier nor later
            if f == -1 {
                assert(s@[i as int].id != id);
            }
            if 0 <= f < i {
                assert(s@[f].id != id);
            }
            if f > i {
                assert(s@[i as int].id != id);
            }
        }
    }
    i
}

impl OrderBook for VectorOrderBook {
    open spec fn bid_view(&self) -> Seq<Order> {
        self.bids@
    }

    open spec fn ask_view(&self) -> Seq<Order> {
        self.asks@
    }

    fn new() -> (r: VectorOrderBook) {
        VectorOrderBook { bids: Vec::new(), asks: Vec::new() }
    }

    fn add_bid_order(&mut self, order: Order) {
        let i = self.bid_insert_index(order.price);
        proof {
            lemma_bid_pos(self.bids@, order.price);
            lemma_insert_bid_wf(self.bids@, self.asks@, order);
        }
        self.bids.insert(i, order);
    }

    fn add_ask_order(&mut self, order: Order) {
        let i = self.ask_insert_index(order.price);
        proof {
            lemma_ask_pos(self.asks@, order.price);
            lemma_insert_ask_wf(self.bids@, self.asks@, order);
        }
        self.asks.insert(i, order);
    }

    fn remove_bid_order(&mut self, id: u64) -> (r: Result<(), VenueError>) {
        let i = index_of_id(&self.bids, id);
        proof {
            lemma_find_id(self.bids@, id);
        }
        if i < self.bids.len() {
            proof {
                lemma_remove_bid_wf(self.bids@, self.asks@, i as int);
            }
            self.bids.remove(i);
            Ok(())
        } else {
            Err(VenueError::NotFound)
        }
    }

    fn remove_ask_order(&mut self, id: u64) -> (r: Result<(), VenueError>) {
        let i = index_of_id(&self.asks, id);
        proof {
            lemma_find_id(self.asks@, id);
        }
        if i < self.asks.len() {
            proof {
                lemma_remove_ask_wf(self.bids@, self.asks@, i as int);
            }
            self.asks.remove(i);
            Ok(())
        } else {
            Err(VenueError::NotFound)
        }
    }

    fn amend_bid_order(&mut self, id: u64, quantity: u64, price: u64) -> (r: Result<
        (),
        VenueError,
    >) {
        let ghost bids0 = self.bids@;
        let ghost asks0 = self.asks@;
        proof {
            lemma_find_id(bids0, id);
        }
        match self.remove_bid_order(id) {
            Ok(()) => {
                proof {
                    let idx = find_id(bids0, id);
                    bids0.remove_ensures(idx);
                    // the removed order held the only occurrence of `id`
                    lemma_has_id_iff(self.bids@, id);
                    assert forall|k: int| 0 <= k < self.bids@.len() implies (
                    #[trigger] self.bids@[k]).id != id by {
                        if k < idx {
                            assert(self.bids@[k] == bids0[k]);
                        } else {
                            assert(self.bids@[k] == bids0[k + 1]);
                        }
                    }
                    lemma_has_id_iff(self.asks@, id);
                    if exists|j: int| 0 <= j < asks0.len() && (#[trigger] asks0[j]).id == id {
                        let j = choose|j: int|
                            0 <= j < asks0.len() && (#[trigger] asks0[j]).id == id;
                        assert(bids0[idx].id == asks0[j].id);
                        assert(false);
                    }
                }
                self.add_bid_order(Order { id, side: Side::Buy, quantity, price });
                Ok(())
            },
            Err(e) => Err(e),
        }
    }

    fn amend_ask_order(&mut self, id: u64, quantity: u64, price: u64) -> (r: Result<
        (),
        VenueError,
    >) {
        let ghost bids0 = self.bids@;
        let ghost asks0 = self.asks@;
        proof {
            lemma_find_id(asks0, id);
        }
        match self.remove_ask_order(id) {
            Ok(()) => {
                proof {
                    let idx = find_id(asks0, id);
                    asks0.remove_ensures(idx);
                    lemma_has_id_iff(self.asks@, id);
                    assert forall|k: int| 0 <= k < self.asks@.len() implies (
                    #[trigger] self.asks@[k]).id != id by {
                        if k < idx {
                            assert(self.asks@[k] == asks0[k]);
                        } else {
                            assert(self.asks@[k] == asks0[k + 1]);
                        }
                    }
                    lemma_has_id_iff(self.bids@, id);
                    if exists|j: int| 0 <= j < bids0.len() && (#[trigger] bids0[j]).id == id {
                        let j = choose|j: int|
                            0 <= j < bids0.len() && (#[trigger] bids0[j]).id == id;
                        assert(bids0[j].id == asks0[idx].id);
                        assert(false);
                    }
                }
                self.add_ask_order(Order { id, side: Side::Sell, quantity, price });
                Ok(())
            },
            Err(e) => Err(e),
        }
    }

    fn match_orders(&mut self) -> (r: Result<(u64, u64, u64, u64), VenueError>) {
        if self.bids.len() == 0 || self.asks.len() == 0 {
            return Err(VenueError::NoMatch);
        }
        let b = self.bids[0];
        let a = self.asks[0];
        if b.price >= a.price {
            let q = if b.quantity <= a.quantity {
                b.quantity
            } else {
                a.quantity
            };
            if b.quantity > a.quantity {
                let reduced = Order {
                    id: b.id,
                    side: b.side,
                    quantity: b.quantity - a.quantity,
                    price: b.price,
                };
                proof {
                    lemma_update_qty_wf(self.bids@, self.asks@, 0, reduced);
                }
                self.bids.set(0, reduced);
                proof {
                    lemma_remove_ask_wf(self.bids@, self.asks@, 0);
                }
                self.asks.remove(0);
            } else if a.quantity > b.quantity {
                let reduced = Order {
                    id: a.id,
                    side: a.side,
                    quantity: a.quantity - b.quantity,
                    price: a.price,
                };
                proof {
                    lemma_update_qty_ask_wf(self.bids@, self.asks@, 0, reduced);
                }
                self.asks.set(0, reduced);
                proof {
                    lemma_remove_bid_wf(self.bids@, self.asks@, 0);
                }
                self.bids.remove(0);
            } else {
                proof {
                    lemma_remove_bid_wf(self.bids@, self.asks@, 0);
                }
                self.bids.remove(0);
                proof {
                    lemma_remove_ask_wf(self.bids@, self.asks@, 0);
                }
                self.asks.remove(0);
            }
            Ok((b.id, a.id, q, a.price))
        } else {
            Err(VenueError::NoMatch)
        }
    }

    fn best_bid(&self) -> (r: Option<u64>) {
        if self.bids.len() > 0 {
            Some(self.bids[0].price)
        } else {
            None
        }
    }

    fn best_ask(&self) -> (r: Option<u64>) {
        if self.asks.len() > 0 {
            Some(self.asks[0].price)
        } else {
            None
        }
    }

    fn get_bids(&self) -> (r: Vec<Order>) {
        let r = top_of_side(&self.bids);
        r
    }

    fn get_asks(&self) -> (r: Vec<Order>) {
        let r = top_of_side(&self.asks);
        r
    }

    fn get_volume_at_limit(&self, price: u64) -> (r: u64) {
        let b = side_volume_clamped(&self.bids, price, 0);
        let r = side_volume_clamped(&self.asks, price, b);
        proof {
            lemma_volume_at_nonneg(self.bids@, price);
            lemma_volume_at_nonneg(self.asks@, price);
        }
        r
    }

    fn get_order_by_id(&self, id: u64) -> (r: Result<Order, VenueError>) {
        let i = index_of_id(&self.bids, id);
        proof {
            lemma_find_id(self.bids@, id);
        }
        if i < self.bids.len() {
            return Ok(self.bids[i]);
        }
        let j = index_of_id(&self.asks, id);
        proof {
            lemma_find_id(self.asks@, id);
        }
        if j < self.asks.len() {
            return Ok(self.asks[j]);
        }
        Err(VenueError::NotFound)
    }

    fn get_market_price(&self) -> (r: Result<u64, VenueError>) {
        if self.bids.len() > 0 && self.asks.len() > 0 {
            let b = self.bids[0].price;
            let a = self.asks[0].price;
            let m = ((b as u128 + a as u128) / 2) as u64;
            Ok(m)
        } else {
            Err(VenueError::NoPrice)
        }
    }
}

/// The first `DEPTH` entries of one side, zero-padded.
pub(crate) fn top_of_side(s: &Vec<Order>) -> (r: Vec<Order>)
    ensures
        r@ == padded_top(s@),
{
    let mut r: Vec<Order> = Vec::new();
    let mut i: usize = 0;
    while i < DEPTH
        invariant
            i <= DEPTH,
            r@.len() == i,
            forall|k: int| 0 <= k < i ==> #[trigger] r@[k] == padded_top(s@)[k],
        decreases DEPTH - i,
    {
        if i < s.len() {
            r.push(s[i]);
        } else {
            r.push(Order::zero());
        }
        i += 1;
    }
    proof {
        assert(r@ =~= padded_top(s@));
    }
    r
}

pub(crate) proof fn lemma_volume_at_nonneg(s: Seq<Order>, p: u64)
    ensures
        volume_at(s, p) >= 0,
    decreases s.len(),
{
    if s.len() > 0 {
        lemma_volume_at_nonneg(s.drop_first(), p);
    }
}

/// Add one side's resting volume at `p` onto `acc`, saturating at
/// `u64::MAX`: the result is the clamped total.
pub(crate) fn side_volume_clamped(s: &Vec<Order>, p: u64, acc: u64) -> (r: u64)
    ensures
        r as int == if acc + volume_at(s@, p) > u64::MAX as int {
            u64::MAX as int
        } else {
            acc + volume_at(s@, p)
        },
{
    proof {
        lemma_volume_at_nonneg(s@, p);
        assert(s@.skip(0) =~= s@);
    }
    let mut total: u64 = acc;
    let mut i: usize = 0;
    while i < s.len()
        invariant
            i <= s@.len(),
            total as int == if acc + (volume_at(s@, p) - volume_at(s@.skip(i as int), p))
                > u64::MAX as int {
                u64::MAX as int
            } else {
                acc + (volume_at(s@, p) - volume_at(s@.skip(i as int), p))
            },
            volume_at(s@.skip(i as int), p) >= 0,
            volume_at(s@, p) - volume_at(s@.skip(i as int), p) >= 0,
        decreases s@.len() - i,
    {
        proof {
            assert(s@.skip(i as int).drop_first() =~= s@.skip(i as int + 1));
            assert(s@.skip(i as int)[0] == s@[i as int]);
            lemma_volume_at_nonneg(s@.skip(i as int + 1), p);
        }
        if s[i].price == p {
            let q = s[i].quantity;
            if q <= u64::MAX - total {
                total = total + q;
            } else {
                total = u64::MAX;
            }
        }
        i += 1;
    }
    proof {
        assert(s@.skip(s@.len() as int) =~= Seq::<Order>::empty());
    }
    total
}

} // verus!

//! The order-book contract: the state of a book is a pair of order
//! sequences in priority order (bids descending by price, asks ascending,
//! first-in-first-out among equal prices), and every operation is specified
//! against those sequences. Two interchangeable realizations implement it.

use vstd::prelude::*;

use crate::errors::VenueError;
use crate::order::Order;
use crate::order::Side;
use crate::DEPTH;

verus! {

/// Bids rest best-first: prices never increase along the sequence.
pub open spec fn sorted_desc(s: Seq<Order>) -> bool {
    forall|i: int, j: int| #![trigger s[i], s[j]] 0 <= i <= j < s.len() ==> s[i].price >= s[j].price
}

/// Asks rest best-first: prices never decrease along the sequence.
pub open spec fn sorted_asc(s: Seq<Order>) -> bool {
    forall|i: int, j: int| #![trigger s[i], s[j]] 0 <= i <= j < s.len() ==> s[i].price <= s[j].price
}

/// Every order on the sequence carries the given side and a positive
/// remaining quantity (an order never rests at quantity zero).
pub open spec fn side_ok(s: Seq<Order>, side: Side) -> bool {
    forall|i: int| #![trigger s[i]] 0 <= i < s.len() ==> s[i].side == side && s[i].quantity > 0
}

pub open spec fn ids_unique(s: Seq<Order>) -> bool {
    forall|i: int, j: int| #![trigger s[i], s[j]] 0 <= i < j < s.len() ==> s[i].id != s[j].id
}

pub open spec fn ids_disjoint(a: Seq<Order>, b: Seq<Order>) -> bool {
    forall|i: int, j: int| #![trigger a[i], b[j]]
        0 <= i < a.len() && 0 <= j < b.len() ==> a[i].id != b[j].id
}

/// Well-formedness of a book state: each side is in priority order, holds
/// only orders of its own side with positive quantity, and an id identifies
/// at most one resting order across both sides.
pub open spec fn book_wf(bids: Seq<Order>, asks: Seq<Order>) -> bool {
    &&& sorted_desc(bids)
    &&& sorted_asc(asks)
    &&& side_ok(bids, Side::Buy)
    &&& side_ok(asks, Side::Sell)
    &&& ids_unique(bids)
    &&& ids_unique(asks)
    &&& ids_disjoint(bids, asks)
}

/// Where a new bid at price `p` enters: after every resting bid whose price
/// is at least `p` (so ties keep arrival order), before the rest.
pub open spec fn bid_pos(s: Seq<Order>, p: u64) -> nat
    decreases s.len(),
{
    if s.len() == 0 {
        0
    } else if s[0].price >= p {
        (1 + bid_pos(s.drop_first(), p)) as nat
    } else {
        0
    }
}

/// Where a new ask at price `p` enters: after every resting ask whose price
/// is at most `p`, before the rest.
pub open spec fn ask_pos(s: Seq<Order>, p: u64) -> nat
    decreases s.len(),
{
    if s.len() == 0 {
        0
    } else if s[0].price <= p {
        (1 + ask_pos(s.drop_first(), p)) as nat
    } else {
        0
    }
}

/// Index of the first order with the given id, or -1 if none rests here.
pub open spec fn find_id(s: Seq<Order>, id: u64) -> int
    decreases s.len(),
{
    if s.len() == 0 {
        -1
    } else if s[0].id == id {
        0
    } else {
        let rest = find_id(s.drop_first(), id);
        if rest == -1 {
            -1
        } else {
            rest + 1
        }
    }
}

pub open spec fn has_id(s: Seq<Order>, id: u64) -> bool {
    find_id(s, id) >= 0
}

/// Total resting quantity at exactly price `p` on one side.
pub open spec fn volume_at(s: Seq<Order>, p: u64) -> int
    decreases s.len(),
{
    if s.len() == 0 {
        0
    } else {
        (if s[0].price == p {
            s[0].quantity as int
        } else {
            0
        }) + volume_at(s.drop_first(), p)
    }
}

/// A match is possible exactly when both sides rest and the best bid's
/// price reaches the best ask's price.
pub open spec fn crossable(bids: Seq<Order>, asks: Seq<Order>) -> bool {
    bids.len() > 0 && asks.len() > 0 && bids[0].price >= asks[0].price
}

/// The first `DEPTH` orders of a side, padded with all-zero entries.
pub open spec fn padded_top(s: Seq<Order>) -> Seq<Order> {
    Seq::new(
        DEPTH as nat,
        |i: int|
            if i < s.len() {
                s[i]
            } else {
                Order::zero_spec()
            },
    )
}

pub proof fn lemma_bid_pos(s: Seq<Order>, p: u64)
    ensures
        bid_pos(s, p) <= s.len(),
        forall|i: int| 0 <= i < bid_pos(s, p) ==> (#[trigger] s[i]).price >= p,
        bid_pos(s, p) < s.len() ==> s[bid_pos(s, p) as int].price < p,
    decreases s.len(),
{
    if s.len() > 0 && s[0].price >= p {
        lemma_bid_pos(s.drop_first(), p);
        assert forall|i: int| 0 <= i < bid_pos(s, p) implies (#[trigger] s[i]).price >= p by {
            if i > 0 {
                assert(s.drop_first()[i - 1] == s[i]);
            }
        }
        if bid_pos(s, p) < s.len() {
            assert(s.drop_first()[bid_pos(s.drop_first(), p) as int] == s[bid_pos(s, p) as int]);
        }
    }
}

pub proof fn lemma_ask_pos(s: Seq<Order>, p: u64)
    ensures
        ask_pos(s, p) <= s.len(),
        forall|i: int| 0 <= i < ask_pos(s, p) ==> (#[trigger] s[i]).price <= p,
        ask_pos(s, p) < s.len() ==> s[ask_pos(s, p) as int].price > p,
    decreases s.len(),
{
    if s.len() > 0 && s[0].price <= p {
        lemma_ask_pos(s.drop_first(), p);
        assert forall|i: int| 0 <= i < ask_pos(s, p) implies (#[trigger] s[i]).price <= p by {
            if i > 0 {
                assert(s.drop_first()[i - 1] == s[i]);
            }
        }
        if ask_pos(s, p) < s.len() {
            assert(s.drop_first()[ask_pos(s.drop_first(), p) as int] == s[ask_pos(s, p) as int]);
        }
    }
}

pub proof fn lemma_find_id(s: Seq<Order>, id: u64)
    ensures
        -1 <= find_id(s, id) < s.len(),
        find_id(s, id) >= 0 ==> s[find_id(s, id)].id == id,
        forall|i: int| 0 <= i < find_id(s, id) ==> (#[trigger] s[i]).id != id,
        find_id(s, id) == -1 ==> forall|i: int| 0 <= i < s.len() ==> (#[trigger] s[i]).id != id,
    decreases s.len(),
{
    if s.len() > 0 && s[0].id != id {
        lemma_find_id(s.drop_first(), id);
        assert forall|i: int| 0 <= i < find_id(s, id) implies (#[trigger] s[i]).id != id by {
            if i > 0 {
                assert(s.drop_first()[i - 1] == s[i]);
            }
        }
        if find_id(s.drop_first(), id) == -1 {
            assert forall|i: int| 0 <= i < s.len() implies (#[trigger] s[i]).id != id by {
                if i > 0 {
                    assert(s.drop_first()[i - 1] == s[i]);
                }
            }
        } else {
            assert(s.drop_first()[find_id(s.drop_first(), id)] == s[find_id(s, id)]);
        }
    }
}

/// An id rests on a side exactly when some index holds it.
pub proof fn lemma_has_id_iff(s: Seq<Order>, id: u64)
    ensures
        has_id(s, id) <==> exists|i: int| 0 <= i < s.len() && (#[trigger] s[i]).id == id,
{
    lemma_find_id(s, id);
    if has_id(s, id) {
        assert(s[find_id(s, id)].id == id);
    }
}

/// Inserting a fresh, positive-quantity bid at its priority position keeps
/// the book well formed.
pub proof fn lemma_insert_bid_wf(bids: Seq<Order>, asks: Seq<Order>, o: Order)
    requires
        book_wf(bids, asks),
        o.side == Side::Buy,
        o.quantity > 0,
        !has_id(bids, o.id),
        !has_id(asks, o.id),
    ensures
        book_wf(bids.insert(bid_pos(bids, o.price) as int, o), asks),
{
    let k = bid_pos(bids, o.price) as int;
    lemma_bid_pos(bids, o.price);
    lemma_has_id_iff(bids, o.id);
    lemma_has_id_iff(asks, o.id);
    bids.insert_ensures(k, o);
    let s = bids.insert(k, o);
    assert forall|i: int, j: int| #![trigger s[i], s[j]] 0 <= i <= j < s.len() implies s[i].price
        >= s[j].price by {
        if i < k && j > k {
            assert(s[i] == bids[i]);
            assert(s[j] == bids[j - 1]);
        }
    }
    assert(sorted_desc(s));
    assert forall|i: int| #![trigger s[i]] 0 <= i < s.len() implies s[i].side == Side::Buy
        && s[i].quantity > 0 by {
        if i < k {
            assert(s[i] == bids[i]);
        } else if i > k {
            assert(s[i] == bids[i - 1]);
        }
    }
    assert forall|i: int, j: int| #![trigger s[i], s[j]] 0 <= i < j < s.len() implies s[i].id
        != s[j].id by {
        if i < k {
            assert(s[i] == bids[i]);
        } else if i > k {
            assert(s[i] == bids[i - 1]);
        }
        if j < k {
            assert(s[j] == bids[j]);
        } else if j > k {
            assert(s[j] == bids[j - 1]);
        }
    }
    assert forall|i: int, j: int| #![trigger s[i], asks[j]]
        0 <= i < s.len() && 0 <= j < asks.len() implies s[i].id != asks[j].id by {
        if i < k {
            assert(s[i] == bids[i]);
        } else if i > k {
            assert(s[i] == bids[i - 1]);
        }
    }
}

/// Inserting a fresh, positive-quantity ask at its priority position keeps
/// the book well formed.
pub proof fn lemma_insert_ask_wf(bids: Seq<Order>, asks: Seq<Order>, o: Order)
    requires
        book_wf(bids, asks),
        o.side == Side::Sell,
        o.quantity > 0,
        !has_id(bids, o.id),
        !has_id(asks, o.id),
    ensures
        book_wf(bids, asks.insert(ask_pos(asks, o.price) as int, o)),
{
    let k = ask_pos(asks, o.price) as int;
    lemma_ask_pos(asks, o.price);
    lemma_has_id_iff(bids, o.id);
    lemma_has_id_iff(asks, o.id);
    asks.insert_ensures(k, o);
    let s = asks.insert(k, o);
    assert forall|i: int, j: int| #![trigger s[i], s[j]] 0 <= i <= j < s.len() implies s[i].price
        <= s[j].price by {
        if i < k && j > k {
            assert(s[i] == asks[i]);
            assert(s[j] == asks[j - 1]);
        }
    }
    assert(sorted_asc(s));
    assert forall|i: int| #![trigger s[i]] 0 <= i < s.len() implies s[i].side == Side::Sell
        && s[i].quantity > 0 by {
        if i < k {
            assert(s[i] == asks[i]);
        } else if i > k {
            assert(s[i] == asks[i - 1]);
        }
    }
    assert forall|i: int, j: int| #![trigger s[i], s[j]] 0 <= i < j < s.len() implies s[i].id
        != s[j].id by {
        if i < k {
            assert(s[i] == asks[i]);
        } else if i > k {
            assert(s[i] == asks[i - 1]);
        }
        if j < k {
            assert(s[j] == asks[j]);
        } else if j > k {
            assert(s[j] == asks[j - 1]);
        }
    }
    assert forall|i: int, j: int| #![trigger bids[i], s[j]]
        0 <= i < bids.len() && 0 <= j < s.len() implies bids[i].id != s[j].id by {
        if j < k {
            assert(s[j] == asks[j]);
        } else if j > k {
            assert(s[j] == asks[j - 1]);
        }
    }
}

/// Removing any resting bid keeps the book well formed.
pub proof fn lemma_remove_bid_wf(bids: Seq<Order>, asks: Seq<Order>, idx: int)
    requires
        book_wf(bids, asks),
        0 <= idx < bids.len(),
    ensures
        book_wf(bids.remove(idx), asks),
{
    bids.remove_ensures(idx);
    let s = bids.remove(idx);
    assert forall|i: int| #![trigger s[i]] 0 <= i < s.len() implies s[i].side == Side::Buy
        && s[i].quantity > 0 by {
        if i < idx {
            assert(s[i] == bids[i]);
        } else {
            assert(s[i] == bids[i + 1]);
        }
    }
    assert forall|i: int, j: int| #![trigger s[i], s[j]] 0 <= i <= j < s.len() implies s[i].price
        >= s[j].price by {
        if i < idx {
            assert(s[i] == bids[i]);
        } else {
            assert(s[i] == bids[i + 1]);
        }
        if j < idx {
            assert(s[j] == bids[j]);
        } else {
            assert(s[j] == bids[j + 1]);
        }
    }
    assert forall|i: int, j: int| #![trigger s[i], s[j]] 0 <= i < j < s.len() implies s[i].id
        != s[j].id by {
        if i < idx {
            assert(s[i] == bids[i]);
        } else {
            assert(s[i] == bids[i + 1]);
        }
        if j < idx {
            assert(s[j] == bids[j]);
        } else {
            assert(s[j] == bids[j + 1]);
        }
    }
    assert forall|i: int, j: int| #![trigger s[i], asks[j]]
        0 <= i < s.len() && 0 <= j < asks.len() implies s[i].id != asks[j].id by {
        if i < idx {
            assert(s[i] == bids[i]);
        } else {
            assert(s[i] == bids[i + 1]);
        }
    }
}

/// Removing any resting ask keeps the book well formed.
pub proof fn lemma_remove_ask_wf(bids: Seq<Order>, asks: Seq<Order>, idx: int)
    requires
        book_wf(bids, asks),
        0 <= idx < asks.len(),
    ensures
        book_wf(bids, asks.remove(idx)),
{
    asks.remove_ensures(idx);
    let s = asks.remove(idx);
    assert forall|i: int| #![trigger s[i]] 0 <= i < s.len() implies s[i].side == Side::Sell
        && s[i].quantity > 0 by {
        if i < idx {
            assert(s[i] == asks[i]);
        } else {
            assert(s[i] == asks[i + 1]);
        }
    }
    assert forall|i: int, j: int| #![trigger s[i], s[j]] 0 <= i <= j < s.len() implies s[i].price
        <= s[j].price by {
        if i < idx {
            assert(s[i] == asks[i]);
        } else {
            assert(s[i] == asks[i + 1]);
        }
        if j < idx {
            assert(s[j] == asks[j]);
        } else {
            assert(s[j] == asks[j + 1]);
        }
    }
    assert forall|i: int, j: int| #![trigger s[i], s[j]] 0 <= i < j < s.len() implies s[i].id
        != s[j].id by {
        if i < idx {
            assert(s[i] == asks[i]);
        } else {
            assert(s[i] == asks[i + 1]);
        }
        if j < idx {
            assert(s[j] == asks[j]);
        } else {
            assert(s[j] == asks[j + 1]);
        }
    }
    assert forall|i: int, j: int| #![trigger bids[i], s[j]]
        0 <= i < bids.len() && 0 <= j < s.len() implies bids[i].id != s[j].id by {
        if j < idx {
            assert(s[j] == asks[j]);
        } else {
            assert(s[j] == asks[j + 1]);
        }
    }
}

/// Reducing the quantity of a resting order in place (same id, side and
/// price, still positive) keeps the book well formed.
pub proof fn lemma_update_qty_wf(bids: Seq<Order>, asks: Seq<Order>, idx: int, o: Order)
    requires
        book_wf(bids, asks),
        0 <= idx < bids.len(),
        o.id == bids[idx].id,
        o.side == bids[idx].side,
        o.price == bids[idx].price,
        o.quantity > 0,
    ensures
        book_wf(bids.update(idx, o), asks),
{
    let s = bids.update(idx, o);
    assert forall|i: int| #![trigger s[i]] 0 <= i < s.len() implies s[i].side == Side::Buy
        && s[i].quantity > 0 by {}
    assert(sorted_desc(s));
    assert(ids_unique(s));
    assert(ids_disjoint(s, asks));
}

/// The mirror of [`lemma_update_qty_wf`] for the ask side.
pub proof fn lemma_update_qty_ask_wf(bids: Seq<Order>, asks: Seq<Order>, idx: int, o: Order)
    requires
        book_wf(bids, asks),
        0 <= idx < asks.len(),
        o.id == asks[idx].id,
        o.side == asks[idx].side,
        o.price == asks[idx].price,
        o.quantity > 0,
    ensures
        book_wf(bids, asks.update(idx, o)),
{
    let s = asks.update(idx, o);
    assert forall|i: int| #![trigger s[i]] 0 <= i < s.len() implies s[i].side == Side::Sell
        && s[i].quantity > 0 by {}
    assert(sorted_asc(s));
    assert(ids_unique(s));
    assert(ids_disjoint(bids, s));
}

/// The contract every order-book realization meets. `bid_view` and
/// `ask_view` are the resting orders of each side in priority order; all
/// operations are specified against them.
pub trait OrderBook: Sized {
    spec fn bid_view(&self) -> Seq<Order>;

    spec fn ask_view(&self) -> Seq<Order>;

    fn new() -> (r: Self)
        ensures
            r.bid_view().len() == 0,
            r.ask_view().len() == 0,
    ;

    /// Rest a buy order at its price-time priority position.
    fn add_bid_order(&mut self, order: Order)
        requires
            book_wf(old(self).bid_view(), old(self).ask_view()),
            order.side == Side::Buy,
            order.quantity > 0,
            !has_id(old(self).bid_view(), order.id),
            !has_id(old(self).ask_view(), order.id),
        ensures
            final(self).bid_view() == old(self).bid_view().insert(
                bid_pos(old(self).bid_view(), order.price) as int,
                order,
            ),
            final(self).ask_view() == old(self).ask_view(),
            book_wf(final(self).bid_view(), final(self).ask_view()),
    ;

    /// Rest a sell order at its price-time priority position.
    fn add_ask_order(&mut self, order: Order)
        requires
            book_wf(old(self).bid_view(), old(self).ask_view()),
            order.side == Side::Sell,
            order.quantity > 0,
            !has_id(old(self).bid_view(), order.id),
            !has_id(old(self).ask_view(), order.id),
        ensures
            final(self).ask_view() == old(self).ask_view().insert(
                ask_pos(old(self).ask_view(), order.price) as int,
                order,
            ),
            final(self).bid_view() == old(self).bid_view(),
            book_wf(final(self).bid_view(), final(self).ask_view()),
    ;

    /// Remove the resting bid with the given id, if any.
    fn remove_bid_order(&mut self, id: u64) -> (r: Result<(), VenueError>)
        requires
            book_wf(old(self).bid_view(), old(self).ask_view()),
        ensures
            final(self).ask_view() == old(self).ask_view(),
            book_wf(final(self).bid_view(), final(self).ask_view()),
            has_id(old(self).bid_view(), id) ==> r == Ok::<(), VenueError>(())
                && final(self).bid_view() == old(self).bid_view().remove(
                find_id(old(self).bid_view(), id),
            ),
            !has_id(old(self).bid_view(), id) ==> r == Err::<(), VenueError>(VenueError::NotFound)
                && final(self).bid_view() == old(self).bid_view(),
    ;

    /// Remove the resting ask with the given id, if any.
    fn remove_ask_order(&mut self, id: u64) -> (r: Result<(), VenueError>)
        requires
            book_wf(old(self).bid_view(), old(self).ask_view()),
        ensures
            final(self).bid_view() == old(self).bid_view(),
            book_wf(final(self).bid_view(), final(self).ask_view()),
            has_id(old(self).ask_view(), id) ==> r == Ok::<(), VenueError>(())
                && final(self).ask_view() == old(self).ask_view().remove(
                find_id(old(self).ask_view(), id),
            ),
            !has_id(old(self).ask_view(), id) ==> r == Err::<(), VenueError>(VenueError::NotFound)
                && final(self).ask_view() == old(self).ask_view(),
    ;

    /// Give the resting bid with this id a new quantity and price; it is
    /// re-queued at the priority position of its new price.
    fn amend_bid_order(&mut self, id: u64, quantity: u64, price: u64) -> (r: Result<
        (),
        VenueError,
    >)
        requires
            book_wf(old(self).bid_view(), old(self).ask_view()),
            quantity > 0,
        ensures
            final(self).ask_view() == old(self).ask_view(),
            book_wf(final(self).bid_view(), final(self).ask_view()),
            has_id(old(self).bid_view(), id) ==> r == Ok::<(), VenueError>(())
                && final(self).bid_view() == amended_side(
                old(self).bid_view(),
                id,
                Side::Buy,
                quantity,
                price,
            ),
            !has_id(old(self).bid_view(), id) ==> r == Err::<(), VenueError>(VenueError::NotFound)
                && final(self).bid_view() == old(self).bid_view(),
    ;

    /// The mirror of `amend_bid_order` for the ask side.
    fn amend_ask_order(&mut self, id: u64, quantity: u64, price: u64) -> (r: Result<
        (),
        VenueError,
    >)
        requires
            book_wf(old(self).bid_view(), old(self).ask_view()),
            quantity > 0,
        ensures
            final(self).bid_view() == old(self).bid_view(),
            book_wf(final(self).bid_view(), final(self).ask_view()),
            has_id(old(self).ask_view(), id) ==> r == Ok::<(), VenueError>(())
                && final(self).ask_view() == amended_ask_side(
                old(self).ask_view(),
                id,
                quantity,
                price,
            ),
            !has_id(old(self).ask_view(), id) ==> r == Err::<(), VenueError>(VenueError::NotFound)
                && final(self).ask_view() == old(self).ask_view(),
    ;

    /// Attempt exactly one match at the top of book. When the book crosses,
    /// the trade executes at the resting ask's price for the smaller of the
    /// two top quantities; the smaller side leaves the book, the larger is
    /// reduced in place (both leave on equal quantities). Returns
    /// `(bid id, ask id, quantity, price)`.
    fn match_orders(&mut self) -> (r: Result<(u64, u64, u64, u64), VenueError>)
        requires
            book_wf(old(self).bid_view(), old(self).ask_view()),
        ensures
            book_wf(final(self).bid_view(), final(self).ask_view()),
            !crossable(old(self).bid_view(), old(self).ask_view()) ==> r == Err::<
                (u64, u64, u64, u64),
                VenueError,
            >(VenueError::NoMatch) && final(self).bid_view() == old(self).bid_view()
                && final(self).ask_view() == old(self).ask_view(),
            crossable(old(self).bid_view(), old(self).ask_view()) ==> match_post(
                old(self).bid_view(),
                old(self).ask_view(),
                final(self).bid_view(),
                final(self).ask_view(),
                r,
            ),
    ;

    /// Best (highest) resting bid price, if any bid rests.
    fn best_bid(&self) -> (r: Option<u64>)
        ensures
            self.bid_view().len() > 0 ==> r == Some(self.bid_view()[0].price),
            self.bid_view().len() == 0 ==> r == None::<u64>,
    ;

    /// Best (lowest) resting ask price, if any ask rests.
    fn best_ask(&self) -> (r: Option<u64>)
        ensures
            self.ask_view().len() > 0 ==> r == Some(self.ask_view()[0].price),
            self.ask_view().len() == 0 ==> r == None::<u64>,
    ;

    /// The top `DEPTH` bids, best first, padded with all-zero entries.
    fn get_bids(&self) -> (r: Vec<Order>)
        ensures
            r@ == padded_top(self.bid_view()),
    ;

    /// The top `DEPTH` asks, best first, padded with all-zero entries.
    fn get_asks(&self) -> (r: Vec<Order>)
        ensures
            r@ == padded_top(self.ask_view()),
    ;

    /// Total resting quantity at exactly price `price`, both sides
    /// together, saturating at `u64::MAX`.
    fn get_volume_at_limit(&self, price: u64) -> (r: u64)
        ensures
            r as int == vol_clamped(self.bid_view(), self.ask_view(), price),
    ;

    /// The resting order with the given id, from whichever side holds it.
    fn get_order_by_id(&self, id: u64) -> (r: Result<Order, VenueError>)
        ensures
            has_id(self.bid_view(), id) ==> r == Ok::<Order, VenueError>(
                self.bid_view()[find_id(self.bid_view(), id)],
            ),
            !has_id(self.bid_view(), id) && has_id(self.ask_view(), id) ==> r == Ok::<
                Order,
                VenueError,
            >(self.ask_view()[find_id(self.ask_view(), id)]),
            !has_id(self.bid_view(), id) && !has_id(self.ask_view(), id) ==> r == Err::<
                Order,
                VenueError,
            >(VenueError::NotFound),
    ;

    /// The mid price: the mean of the best bid and best ask prices, rounded
    /// down to the price unit below when the mean lands between units.
    fn get_market_price(&self) -> (r: Result<u64, VenueError>)
        ensures
            self.bid_view().len() > 0 && self.ask_view().len() > 0 ==> r == Ok::<u64, VenueError>(
                (((self.bid_view()[0].price + self.ask_view()[0].price) as int) / 2) as u64,
            ),
            !(self.bid_view().len() > 0 && self.ask_view().len() > 0) ==> r == Err::<
                u64,
                VenueError,
            >(VenueError::NoPrice),
    ;
}

/// Price-time ordering, bid side: in a well-formed book the first resting
/// bid carries the maximum price of all resting bids, whatever sequence of
/// inserts, amends and removals produced the book.
pub proof fn lemma_best_bid_is_max(bids: Seq<Order>, asks: Seq<Order>)
    requires
        book_wf(bids, asks),
        bids.len() > 0,
    ensures
        forall|i: int| 0 <= i < bids.len() ==> bids[0].price >= (#[trigger] bids[i]).price,
{
    assert forall|i: int| 0 <= i < bids.len() implies bids[0].price >= (
    #[trigger] bids[i]).price by {
        assert(bids[0].price >= bids[i].price);
    }
}

/// Price-time ordering, ask side: the first resting ask carries the
/// minimum price of all resting asks.
pub proof fn lemma_best_ask_is_min(bids: Seq<Order>, asks: Seq<Order>)
    requires
        book_wf(bids, asks),
        asks.len() > 0,
    ensures
        forall|i: int| 0 <= i < asks.len() ==> asks[0].price <= (#[trigger] asks[i]).price,
{
    assert forall|i: int| 0 <= i < asks.len() implies asks[0].price <= (
    #[trigger] asks[i]).price by {
        assert(asks[0].price <= asks[i].price);
    }
}

/// The bid side after an amend: the old order leaves, an order with the
/// same id and the new quantity and price enters at its priority position.
pub open spec fn amended_side(s: Seq<Order>, id: u64, side: Side, quantity: u64, price: u64) -> Seq<
    Order,
> {
    let removed = s.remove(find_id(s, id));
    removed.insert(
        bid_pos(removed, price) as int,
        Order { id, side, quantity, price },
    )
}

/// The ask side after an amend.
pub open spec fn amended_ask_side(s: Seq<Order>, id: u64, quantity: u64, price: u64) -> Seq<
    Order,
> {
    let removed = s.remove(find_id(s, id));
    removed.insert(
        ask_pos(removed, price) as int,
        Order { id, side: Side::Sell, quantity, price },
    )
}

/// Both sides' resting volume at a price, saturating at `u64::MAX`.
pub open spec fn vol_clamped(bids: Seq<Order>, asks: Seq<Order>, price: u64) -> int {
    let total = volume_at(bids, price) + volume_at(asks, price);
    if total > u64::MAX as int {
        u64::MAX as int
    } else {
        total
    }
}

/// What one successful match does: executed quantity is the smaller top
/// quantity, the price is the resting ask's, the exhausted orders leave and
/// a remainder stays in place, never at quantity zero.
pub open spec fn match_post(
    old_bids: Seq<Order>,
    old_asks: Seq<Order>,
    new_bids: Seq<Order>,
    new_asks: Seq<Order>,
    r: Result<(u64, u64, u64, u64), VenueError>,
) -> bool {
    let b0 = old_bids[0];
    let a0 = old_asks[0];
    let q = if b0.quantity <= a0.quantity {
        b0.quantity
    } else {
        a0.quantity
    };
    &&& r == Ok::<(u64, u64, u64, u64), VenueError>((b0.id, a0.id, q, a0.price))
    &&& (if b0.quantity > a0.quantity {
        new_bids == old_bids.update(0, Order { quantity: (b0.quantity - a0.quantity) as u64, ..b0 })
    } else {
        new_bids == old_bids.remove(0)
    })
    &&& (if a0.quantity > b0.quantity {
        new_asks == old_asks.update(0, Order { quantity: (a0.quantity - b0.quantity) as u64, ..a0 })
    } else {
        new_asks == old_asks.remove(0)
    })
}

} // verus!

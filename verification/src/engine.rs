//! The matching engine: owns one order book, allocates order ids,
//! executes lifecycle operations (new / amend / cancel / status / market
//! data) and records fill and trade history.

use vstd::prelude::*;

use crate::book::amended_ask_side;
use crate::codec::enc_price;
use crate::codec::enc_u64;
use crate::codec::push_price;
use crate::codec::push_u64;
use crate::roundtrip::lemma_enc_price_shape;
use crate::roundtrip::lemma_enc_u64_shape;
use crate::book::amended_side;
use crate::book::ask_pos;
use crate::book::bid_pos;
use crate::book::book_wf;
use crate::book::crossable;
use crate::book::find_id;
use crate::book::has_id;
use crate::book::lemma_ask_pos;
use crate::book::lemma_bid_pos;
use crate::book::lemma_find_id;
use crate::book::lemma_has_id_iff;
use crate::book::match_post;
use crate::book::padded_top;
use crate::book::vol_clamped;
use crate::book::OrderBook;
use crate::errors::VenueError;
use crate::order::Order;
use crate::order::OrderStatus;
use crate::order::Side;
use crate::order::Trade;
use crate::DEPTH;

verus! {

/// Every order id on the sequence has been allocated: at least 1 and not
/// above the engine's id counter.
pub open spec fn ids_bounded(s: Seq<Order>, bound: u64) -> bool {
    forall|i: int| 0 <= i < s.len() ==> 1 <= (#[trigger] s[i]).id <= bound
}

proof fn lemma_ids_bounded_insert(s: Seq<Order>, k: int, o: Order, bound: u64)
    requires
        0 <= k <= s.len(),
        ids_bounded(s, bound),
        1 <= o.id <= bound,
    ensures
        ids_bounded(s.insert(k, o), bound),
{
    s.insert_ensures(k, o);
    assert forall|i: int| 0 <= i < s.insert(k, o).len() implies 1 <= (#[trigger] s.insert(k, o)[i]).id
        <= bound by {
        if i < k {
            assert(s.insert(k, o)[i] == s[i]);
        } else if i > k {
            assert(s.insert(k, o)[i] == s[i - 1]);
        }
    }
}

proof fn lemma_ids_bounded_remove(s: Seq<Order>, k: int, bound: u64)
    requires
        0 <= k < s.len(),
        ids_bounded(s, bound),
    ensures
        ids_bounded(s.remove(k), bound),
{
    s.remove_ensures(k);
    assert forall|i: int| 0 <= i < s.remove(k).len() implies 1 <= (#[trigger] s.remove(k)[i]).id
        <= bound by {
        if i < k {
            assert(s.remove(k)[i] == s[i]);
        } else {
            assert(s.remove(k)[i] == s[i + 1]);
        }
    }
}

/// The most recent `DEPTH` trades, newest first, padded with all-zero
/// entries when fewer have executed.
pub open spec fn padded_recent(s: Seq<Trade>) -> Seq<Trade> {
    Seq::new(
        DEPTH as nat,
        |i: int|
            if i < s.len() {
                s[s.len() - 1 - i]
            } else {
                Trade::zero_spec()
            },
    )
}

/// Parse the textual side token accepted at the boundary.
pub fn parse_side(s: &str) -> (r: Option<Side>)
    ensures
        s@ == "Buy"@ ==> r == Some(Side::Buy),
        s@ == "Sell"@ ==> r == Some(Side::Sell),
        s@ != "Buy"@ && s@ != "Sell"@ ==> r == None::<Side>,
{
    proof {
        reveal_strlit("Buy");
        reveal_strlit("Sell");
    }
    let n = s.unicode_len();
    if n == 3 && s.get_char(0) == 'B' && s.get_char(1) == 'u' && s.get_char(2) == 'y' {
        proof {
            assert(s@ =~= "Buy"@);
        }
        Some(Side::Buy)
    } else if n == 4 && s.get_char(0) == 'S' && s.get_char(1) == 'e' && s.get_char(2) == 'l'
        && s.get_char(3) == 'l' {
        proof {
            assert(s@ =~= "Sell"@);
        }
        Some(Side::Sell)
    } else {
        None
    }
}

/// Relies on time::OffsetDateTime::now_utc and unix_timestamp for the
/// current wall-clock time in whole seconds since the Unix epoch. Nothing
/// is assumed of the value: callers state what holds for every timestamp.
#[verifier::external_body]
fn now_unix_timestamp() -> i64 {
    time::OffsetDateTime::now_utc().unix_timestamp()
}

pub struct Engine<T: OrderBook> {
    pub book: T,
    /// Monotonic id counter; the most recently allocated order id.
    pub id: u64,
    /// Append-only ids of orders that took part in a match.
    pub history: Vec<u64>,
    /// Append-only executed trades, oldest first.
    pub trade_history: Vec<Trade>,
}

impl<T: OrderBook> Engine<T> {
    /// The engine's invariant: a well-formed book whose resting ids were
    /// all allocated by this engine, as were the ids in fill history.
    pub open spec fn wf(&self) -> bool {
        &&& book_wf(self.book.bid_view(), self.book.ask_view())
        &&& ids_bounded(self.book.bid_view(), self.id)
        &&& ids_bounded(self.book.ask_view(), self.id)
        &&& forall|i: int| 0 <= i < self.history@.len() ==> 1 <= #[trigger] self.history@[i]
            <= self.id
    }

    pub fn new() -> (r: Engine<T>)
        ensures
            r.wf(),
            r.id == 0,
            r.book.bid_view().len() == 0,
            r.book.ask_view().len() == 0,
            r.history@.len() == 0,
            r.trade_history@.len() == 0,
    {
        Engine { book: T::new(), id: 0, history: Vec::new(), trade_history: Vec::new() }
    }

    /// Accept a new order: parse the side token, allocate the next id and
    /// rest the order at its price-time priority position.
    pub fn add_order(&mut self, side: &str, quantity: u64, price: u64) -> (r: Result<
        u64,
        VenueError,
    >)
        requires
            old(self).wf(),
            quantity > 0,
            old(self).id < u64::MAX,
        ensures
            final(self).wf(),
            final(self).history@ == old(self).history@,
            final(self).trade_history@ == old(self).trade_history@,
            side@ == "Buy"@ ==> {
                &&& r == Ok::<u64, VenueError>((old(self).id + 1) as u64)
                &&& final(self).id == old(self).id + 1
                &&& final(self).book.bid_view() == old(self).book.bid_view().insert(
                    bid_pos(old(self).book.bid_view(), price) as int,
                    Order { id: (old(self).id + 1) as u64, side: Side::Buy, quantity, price },
                )
                &&& final(self).book.ask_view() == old(self).book.ask_view()
            },
            side@ == "Sell"@ ==> {
                &&& r == Ok::<u64, VenueError>((old(self).id + 1) as u64)
                &&& final(self).id == old(self).id + 1
                &&& final(self).book.ask_view() == old(self).book.ask_view().insert(
                    ask_pos(old(self).book.ask_view(), price) as int,
                    Order { id: (old(self).id + 1) as u64, side: Side::Sell, quantity, price },
                )
                &&& final(self).book.bid_view() == old(self).book.bid_view()
            },
            side@ != "Buy"@ && side@ != "Sell"@ ==> {
                &&& r == Err::<u64, VenueError>(VenueError::InvalidSide)
                &&& final(self).id == old(self).id
                &&& final(self).book.bid_view() == old(self).book.bid_view()
                &&& final(self).book.ask_view() == old(self).book.ask_view()
            },
    {
        let parsed = parse_side(side);
        match parsed {
            Some(Side::Buy) => {
                self.id = self.id + 1;
                let order = Order { id: self.id, side: Side::Buy, quantity, price };
                proof {
                    lemma_has_id_iff(self.book.bid_view(), order.id);
                    lemma_has_id_iff(self.book.ask_view(), order.id);
                    lemma_bid_pos(self.book.bid_view(), price);
                }
                let ghost bids0 = self.book.bid_view();
                self.book.add_bid_order(order);
                proof {
                    lemma_ids_bounded_insert(
                        bids0,
                        bid_pos(bids0, price) as int,
                        order,
                        self.id,
                    );
                }
                Ok(self.id)
            },
            Some(Side::Sell) => {
                self.id = self.id + 1;
                let order = Order { id: self.id, side: Side::Sell, quantity, price };
                proof {
                    lemma_has_id_iff(self.book.bid_view(), order.id);
                    lemma_has_id_iff(self.book.ask_view(), order.id);
                    lemma_ask_pos(self.book.ask_view(), price);
                }
                let ghost asks0 = self.book.ask_view();
                self.book.add_ask_order(order);
                proof {
                    lemma_ids_bounded_insert(
                        asks0,
                        ask_pos(asks0, price) as int,
                        order,
                        self.id,
                    );
                }
                Ok(self.id)
            },
            None => Err(VenueError::InvalidSide),
        }
    }

    /// Change quantity and price of a resting order, keeping its id. The
    /// buy side is tried first, then the sell side.
    pub fn amend_order(&mut self, id: u64, quantity: u64, price: u64) -> (r: Result<
        u64,
        VenueError,
    >)
        requires
            old(self).wf(),
            quantity > 0,
        ensures
            final(self).wf(),
            final(self).id == old(self).id,
            final(self).history@ == old(self).history@,
            final(self).trade_history@ == old(self).trade_history@,
            has_id(old(self).book.bid_view(), id) ==> {
                &&& r == Ok::<u64, VenueError>(id)
                &&& final(self).book.bid_view() == amended_side(
                    old(self).book.bid_view(),
                    id,
                    Side::Buy,
                    quantity,
                    price,
                )
                &&& final(self).book.ask_view() == old(self).book.ask_view()
            },
            !has_id(old(self).book.bid_view(), id) && has_id(old(self).book.ask_view(), id) ==> {
                &&& r == Ok::<u64, VenueError>(id)
                &&& final(self).book.ask_view() == amended_ask_side(
                    old(self).book.ask_view(),
                    id,
                    quantity,
                    price,
                )
                &&& final(self).book.bid_view() == old(self).book.bid_view()
            },
            !has_id(old(self).book.bid_view(), id) && !has_id(old(self).book.ask_view(), id) ==> {
                &&& r == Err::<u64, VenueError>(VenueError::NotFound)
                &&& final(self).book.bid_view() == old(self).book.bid_view()
                &&& final(self).book.ask_view() == old(self).book.ask_view()
            },
    {
        let ghost bids0 = self.book.bid_view();
        let ghost asks0 = self.book.ask_view();
        match self.book.amend_bid_order(id, quantity, price) {
            Ok(()) => {
                proof {
                    lemma_amended_bounded(bids0, id, Side::Buy, quantity, price, self.id);
                }
                Ok(id)
            },
            Err(_) => {
                match self.book.amend_ask_order(id, quantity, price) {
                    Ok(()) => {
                        proof {
                            lemma_amended_ask_bounded(asks0, id, quantity, price, self.id);
                        }
                        Ok(id)
                    },
                    Err(_) => Err(VenueError::NotFound),
                }
            },
        }
    }

    /// Remove a resting order, leaving no history entry. The buy side is
    /// tried first, then the sell side.
    pub fn cancel_order(&mut self, id: u64) -> (r: Result<(), VenueError>)
        requires
            old(self).wf(),
        ensures
            final(self).wf(),
            final(self).id == old(self).id,
            final(self).history@ == old(self).history@,
            final(self).trade_history@ == old(self).trade_history@,
            has_id(old(self).book.bid_view(), id) ==> {
                &&& r == Ok::<(), VenueError>(())
                &&& final(self).book.bid_view() == old(self).book.bid_view().remove(
                    find_id(old(self).book.bid_view(), id),
                )
                &&& final(self).book.ask_view() == old(self).book.ask_view()
            },
            !has_id(old(self).book.bid_view(), id) && has_id(old(self).book.ask_view(), id) ==> {
                &&& r == Ok::<(), VenueError>(())
                &&& final(self).book.ask_view() == old(self).book.ask_view().remove(
                    find_id(old(self).book.ask_view(), id),
                )
                &&& final(self).book.bid_view() == old(self).book.bid_view()
            },
            !has_id(old(self).book.bid_view(), id) && !has_id(old(self).book.ask_view(), id) ==> {
                &&& r == Err::<(), VenueError>(VenueError::NotFound)
                &&& final(self).book.bid_view() == old(self).book.bid_view()
                &&& final(self).book.ask_view() == old(self).book.ask_view()
            },
    {
        let ghost bids0 = self.book.bid_view();
        let ghost asks0 = self.book.ask_view();
        match self.book.remove_bid_order(id) {
            Ok(()) => {
                proof {
                    lemma_find_id(bids0, id);
                    lemma_ids_bounded_remove(bids0, find_id(bids0, id), self.id);
                }
                Ok(())
            },
            Err(_) => {
                match self.book.remove_ask_order(id) {
                    Ok(()) => {
                        proof {
                            lemma_find_id(asks0, id);
                            lemma_ids_bounded_remove(asks0, find_id(asks0, id), self.id);
                        }
                        Ok(())
                    },
                    Err(_) => Err(VenueError::NotFound),
                }
            },
        }
    }

    /// Attempt one match at the top of book; on success append both
    /// participant ids to fill history and the executed trade, stamped
    /// with the wall clock, to trade history.
    pub fn match_orders(&mut self) -> (r: Result<(u64, u64), VenueError>)
        requires
            old(self).wf(),
        ensures
            final(self).wf(),
            final(self).id == old(self).id,
            !crossable(old(self).book.bid_view(), old(self).book.ask_view()) ==> {
                &&& r == Err::<(u64, u64), VenueError>(VenueError::NoMatch)
                &&& final(self).book.bid_view() == old(self).book.bid_view()
                &&& final(self).book.ask_view() == old(self).book.ask_view()
                &&& final(self).history@ == old(self).history@
                &&& final(self).trade_history@ == old(self).trade_history@
            },
            crossable(old(self).book.bid_view(), old(self).book.ask_view()) ==> {
                let b0 = old(self).book.bid_view()[0];
                let a0 = old(self).book.ask_view()[0];
                let q = if b0.quantity <= a0.quantity {
                    b0.quantity
                } else {
                    a0.quantity
                };
                &&& r == Ok::<(u64, u64), VenueError>((q, a0.price))
                &&& match_post(
                    old(self).book.bid_view(),
                    old(self).book.ask_view(),
                    final(self).book.bid_view(),
                    final(self).book.ask_view(),
                    Ok((b0.id, a0.id, q, a0.price)),
                )
                &&& final(self).history@ == old(self).history@.push(b0.id).push(a0.id)
                &&& final(self).trade_history@.len() == old(self).trade_history@.len() + 1
                &&& final(self).trade_history@.drop_last() == old(self).trade_history@
                &&& final(self).trade_history@.last().quantity == q
                &&& final(self).trade_history@.last().price == a0.price
            },
    {
        let ghost bids0 = self.book.bid_view();
        let ghost asks0 = self.book.ask_view();
        match self.book.match_orders() {
            Ok((bid_id, ask_id, quantity, price)) => {
                proof {
                    if bids0[0].quantity <= asks0[0].quantity {
                        lemma_ids_bounded_remove(bids0, 0, self.id);
                    }
                    if asks0[0].quantity <= bids0[0].quantity {
                        lemma_ids_bounded_remove(asks0, 0, self.id);
                    }
                }
                self.history.push(bid_id);
                self.history.push(ask_id);
                let t = now_unix_timestamp();
                let ts: u64 = if t < 0 {
                    0
                } else {
                    t as u64
                };
                self.trade_history.push(Trade { quantity, price, timestamp: ts });
                proof {
                    let b0 = bids0[0];
                    let a0 = asks0[0];
                    let q = if b0.quantity <= a0.quantity {
                        b0.quantity
                    } else {
                        a0.quantity
                    };
                    assert(self.trade_history@ == old(self).trade_history@.push(
                        Trade { quantity: q, price: a0.price, timestamp: ts },
                    ));
                    assert(self.trade_history@.drop_last() =~= old(self).trade_history@);
                }
                Ok((quantity, price))
            },
            Err(e) => Err(e),
        }
    }

    /// The top `DEPTH` levels of each side, zero-padded: `(bids, asks)`.
    pub fn get_book(&self) -> (r: (Vec<Order>, Vec<Order>))
        ensures
            r.0@ == padded_top(self.book.bid_view()),
            r.1@ == padded_top(self.book.ask_view()),
    {
        let bids = self.book.get_bids();
        let asks = self.book.get_asks();
        (bids, asks)
    }

    /// Total resting quantity at exactly `price`, both sides together,
    /// saturating at `u64::MAX`.
    pub fn get_volume_at_limit(&self, price: u64) -> (r: u64)
        ensures
            r as int == vol_clamped(self.book.bid_view(), self.book.ask_view(), price),
    {
        self.book.get_volume_at_limit(price)
    }

    /// The human-readable status of an id: the one-line description of the
    /// resting order, `Filled` for an id only in fill history, and an
    /// error for an id this engine has no trace of.
    pub fn get_order_status(&self, id: u64) -> (r: Result<String, VenueError>)
        ensures
            has_id(self.book.bid_view(), id) || has_id(self.book.ask_view(), id) ==> (r matches Ok(
                s,
            ) && s@ == status_line(
                resting_order(self.book.bid_view(), self.book.ask_view(), id),
            ).map_values(|b: u8| b as char)),
            !has_id(self.book.bid_view(), id) && !has_id(self.book.ask_view(), id)
                && self.history@.contains(id) ==> (r matches Ok(s) && s@ == "Filled"@),
            !has_id(self.book.bid_view(), id) && !has_id(self.book.ask_view(), id)
                && !self.history@.contains(id) ==> r == Err::<String, VenueError>(
                VenueError::NotFound,
            ),
    {
        match self.book.get_order_by_id(id) {
            Ok(o) => {
                proof {
                    lemma_find_id(self.book.bid_view(), id);
                    lemma_find_id(self.book.ask_view(), id);
                }
                let mut b: Vec<u8> = Vec::new();
                b.push(78);
                b.push(101);
                b.push(119);
                b.push(32);
                b.push(45);
                b.push(45);
                b.push(32);
                match o.side {
                    Side::Buy => {
                        b.push(66);
                        b.push(117);
                        b.push(121);
                    },
                    Side::Sell => {
                        b.push(83);
                        b.push(101);
                        b.push(108);
                        b.push(108);
                    },
                }
                b.push(32);
                proof {
                    assert(b@ =~= status_head(o.side));
                }
                push_u64(&mut b, o.quantity);
                b.push(32);
                b.push(64);
                b.push(32);
                push_price(&mut b, o.price);
                b.push(32);
                b.push(40);
                push_u64(&mut b, o.id);
                b.push(41);
                proof {
                    assert(b@ =~= status_line(o));
                    lemma_status_line_ascii(o);
                }
                Ok(ascii_string(b))
            },
            Err(_) => {
                if contains_u64(&self.history, id) {
                    Ok("Filled".to_owned())
                } else {
                    Err(VenueError::NotFound)
                }
            },
        }
    }

    /// Lifecycle status of an id: `New` while resting, else `Filled` if it
    /// appears in fill history, else `Rejected` (unknown or canceled ids
    /// are indistinguishable here: neither leaves a trace).
    pub fn get_execution_status(&self, id: u64) -> (r: Result<OrderStatus, VenueError>)
        ensures
            has_id(self.book.bid_view(), id) || has_id(self.book.ask_view(), id) ==> r == Ok::<
                OrderStatus,
                VenueError,
            >(OrderStatus::New),
            !has_id(self.book.bid_view(), id) && !has_id(self.book.ask_view(), id)
                && self.history@.contains(id) ==> r == Ok::<OrderStatus, VenueError>(
                OrderStatus::Filled,
            ),
            !has_id(self.book.bid_view(), id) && !has_id(self.book.ask_view(), id)
                && !self.history@.contains(id) ==> r == Ok::<OrderStatus, VenueError>(
                OrderStatus::Rejected,
            ),
    {
        match self.book.get_order_by_id(id) {
            Ok(_) => {
                proof {
                    lemma_find_id(self.book.bid_view(), id);
                    lemma_find_id(self.book.ask_view(), id);
                }
                Ok(OrderStatus::New)
            },
            Err(_) => {
                if contains_u64(&self.history, id) {
                    Ok(OrderStatus::Filled)
                } else {
                    Ok(OrderStatus::Rejected)
                }
            },
        }
    }

    /// The mid price (mean of best bid and best ask, rounded down), if
    /// both sides rest.
    pub fn get_market_price(&self) -> (r: Result<u64, VenueError>)
        ensures
            self.book.bid_view().len() > 0 && self.book.ask_view().len() > 0 ==> r == Ok::<
                u64,
                VenueError,
            >((((self.book.bid_view()[0].price + self.book.ask_view()[0].price) as int) / 2) as u64),
            !(self.book.bid_view().len() > 0 && self.book.ask_view().len() > 0) ==> r == Err::<
                u64,
                VenueError,
            >(VenueError::NoPrice),
    {
        self.book.get_market_price()
    }

    /// The `DEPTH` most recent trades, newest first, zero-padded.
    pub fn get_trade_history(&self) -> (r: Vec<Trade>)
        ensures
            r@ == padded_recent(self.trade_history@),
    {
        let n = self.trade_history.len();
        let mut r: Vec<Trade> = Vec::new();
        let mut i: usize = 0;
        while i < DEPTH
            invariant
                i <= DEPTH,
                n == self.trade_history@.len(),
                r@.len() == i,
                forall|k: int| 0 <= k < i ==> #[trigger] r@[k] == padded_recent(
                    self.trade_history@,
                )[k],
            decreases DEPTH - i,
        {
            if i < n {
                r.push(self.trade_history[n - 1 - i]);
            } else {
                r.push(Trade::zero());
            }
            i += 1;
        }
        proof {
            assert(r@ =~= padded_recent(self.trade_history@));
        }
        r
    }
}

/// Id monotonicity: every id this engine has handed out, resting or in
/// fill history, is at most its counter, and each new order gets exactly
/// the counter plus one — so ids grow `1, 2, 3, ...` across placements and
/// are never reused after a cancel or a fill.
pub proof fn lemma_ids_never_reused<T: OrderBook>(n: Engine<T>)
    requires
        n.wf(),
    ensures
        forall|i: int| 0 <= i < n.book.bid_view().len() ==> 1 <= (
        #[trigger] n.book.bid_view()[i]).id <= n.id,
        forall|i: int| 0 <= i < n.book.ask_view().len() ==> 1 <= (
        #[trigger] n.book.ask_view()[i]).id <= n.id,
        forall|i: int| 0 <= i < n.history@.len() ==> 1 <= #[trigger] n.history@[i] <= n.id,
{
}

/// The resting order an id addresses, bid side first.
pub open spec fn resting_order(bids: Seq<Order>, asks: Seq<Order>, id: u64) -> Order {
    if has_id(bids, id) {
        bids[find_id(bids, id)]
    } else {
        asks[find_id(asks, id)]
    }
}

/// `New -- Buy ` or `New -- Sell `, as bytes.
pub open spec fn status_head(side: Side) -> Seq<u8> {
    match side {
        Side::Buy => seq![78u8, 101u8, 119u8, 32u8, 45u8, 45u8, 32u8, 66u8, 117u8, 121u8, 32u8],
        Side::Sell => seq![
            78u8, 101u8, 119u8, 32u8, 45u8, 45u8, 32u8, 83u8, 101u8, 108u8, 108u8, 32u8,
        ],
    }
}

/// The one-line description of a resting order:
/// `New -- <side> <quantity> @ <price> (<id>)`.
pub open spec fn status_line(o: Order) -> Seq<u8> {
    status_head(o.side) + enc_u64(o.quantity as nat) + seq![32u8, 64u8, 32u8] + enc_price(
        o.price as nat,
    ) + seq![32u8, 40u8] + enc_u64(o.id as nat) + seq![41u8]
}

/// Relies on String::from_utf8: bytes below 128 are one-byte UTF-8 code
/// points, so the string's characters are exactly those bytes.
#[verifier::external_body]
fn ascii_string(bytes: Vec<u8>) -> (r: String)
    requires
        forall|i: int| 0 <= i < bytes@.len() ==> bytes@[i] < 128,
    ensures
        r@ == bytes@.map_values(|b: u8| b as char),
{
    String::from_utf8(bytes).unwrap_or_default()
}

proof fn lemma_status_line_ascii(o: Order)
    ensures
        forall|i: int| 0 <= i < status_line(o).len() ==> #[trigger] status_line(o)[i] < 128,
{
    lemma_enc_u64_shape(o.quantity as nat);
    lemma_enc_price_shape(o.price as nat);
    lemma_enc_u64_shape(o.id as nat);
    let head = status_head(o.side);
    let q = enc_u64(o.quantity as nat);
    let mid = seq![32u8, 64u8, 32u8];
    let p = enc_price(o.price as nat);
    let tail = seq![32u8, 40u8];
    let idd = enc_u64(o.id as nat);
    assert forall|i: int| 0 <= i < status_line(o).len() implies #[trigger] status_line(o)[i]
        < 128 by {
        let s = status_line(o);
        let b0 = head.len();
        let b1 = b0 + q.len();
        let b2 = b1 + 3;
        let b3 = b2 + p.len();
        let b4 = b3 + 2;
        let b5 = b4 + idd.len();
        if i < b0 {
            assert(s[i] == head[i]);
            assert(head[i] < 128);
        } else if i < b1 {
            assert(s[i] == q[i - b0]);
        } else if i < b2 {
            assert(s[i] == mid[i - b1]);
        } else if i < b3 {
            assert(s[i] == p[i - b2]);
        } else if i < b4 {
            assert(s[i] == tail[i - b3]);
        } else if i < b5 {
            assert(s[i] == idd[i - b4]);
        } else {
            assert(s[i] == 41);
        }
    }
}

/// Whether the id sequence holds `x`.
fn contains_u64(v: &Vec<u64>, x: u64) -> (r: bool)
    ensures
        r == v@.contains(x),
{
    let mut i: usize = 0;
    while i < v.len()
        invariant
            i <= v@.len(),
            forall|k: int| 0 <= k < i ==> v@[k] != x,
        decreases v@.len() - i,
    {
        if v[i] == x {
            return true;
        }
        i += 1;
    }
    false
}

/// An amended bid side still carries only allocated ids.
proof fn lemma_amended_bounded(
    s: Seq<Order>,
    id: u64,
    side: Side,
    quantity: u64,
    price: u64,
    bound: u64,
)
    requires
        has_id(s, id),
        ids_bounded(s, bound),
    ensures
        ids_bounded(amended_side(s, id, side, quantity, price), bound),
{
    lemma_find_id(s, id);
    let idx = find_id(s, id);
    lemma_ids_bounded_remove(s, idx, bound);
    let rem = s.remove(idx);
    lemma_bid_pos(rem, price);
    lemma_ids_bounded_insert(
        rem,
        bid_pos(rem, price) as int,
        Order { id, side, quantity, price },
        bound,
    );
}

/// An amended ask side still carries only allocated ids.
proof fn lemma_amended_ask_bounded(s: Seq<Order>, id: u64, quantity: u64, price: u64, bound: u64)
    requires
        has_id(s, id),
        ids_bounded(s, bound),
    ensures
        ids_bounded(amended_ask_side(s, id, quantity, price), bound),
{
    lemma_find_id(s, id);
    let idx = find_id(s, id);
    lemma_ids_bounded_remove(s, idx, bound);
    let rem = s.remove(idx);
    lemma_ask_pos(rem, price);
    lemma_ids_bounded_insert(
        rem,
        ask_pos(rem, price) as int,
        Order { id, side: Side::Sell, quantity, price },
        bound,
    );
}

} // verus!

//! The dispatch table: one inbound message, one engine operation under the
//! caller's lock, one response message. Every engine-side failure becomes a
//! `Reject` response; a request whose field list does not fit its type's
//! shape yields no response at all (the connection is dropped), exactly as
//! a payload that failed to decode.

use vstd::prelude::*;

use crate::book::amended_ask_side;
use crate::book::amended_side;
use crate::book::ask_pos;
use crate::book::bid_pos;
use crate::book::find_id;
use crate::book::has_id;
use crate::book::padded_top;
use crate::book::vol_clamped;
use crate::book::OrderBook;
use crate::engine::padded_recent;
use crate::engine::Engine;
use crate::errors::VenueError;
use crate::fix::message_wf;
use crate::fix::FieldV;
use crate::fix::FixMessage;
use crate::fix::MessageField;
use crate::fix::MessageType;
use crate::fix::MessageV;
use crate::fix::OrderData;
use crate::order::Order;
use crate::order::OrderStatus;
use crate::order::Side;
use crate::DEPTH;

verus! {

// ---------------------------------------------------------------------------
// The shapes a request's field list must have
// ---------------------------------------------------------------------------

pub open spec fn new_order_shape(fs: Seq<FieldV>) -> bool {
    fs.len() == 3 && fs[0] is Side && fs[1] is Quantity && fs[2] is Price
}

pub open spec fn amend_shape(fs: Seq<FieldV>) -> bool {
    fs.len() == 3 && fs[0] is OrderId && fs[1] is Quantity && fs[2] is Price
}

pub open spec fn id_shape(fs: Seq<FieldV>) -> bool {
    fs.len() == 1 && fs[0] is OrderId
}

// ---------------------------------------------------------------------------
// The responses
// ---------------------------------------------------------------------------

pub open spec fn report_id(id: u64) -> MessageV {
    MessageV { msg_type: MessageType::ExecutionReport, fields: seq![FieldV::OrderId(id)] }
}

pub open spec fn report_status(id: u64, st: OrderStatus) -> MessageV {
    MessageV {
        msg_type: MessageType::ExecutionReport,
        fields: seq![FieldV::OrderId(id), FieldV::Status(st)],
    }
}

pub open spec fn reject_of(reason: Seq<u8>) -> MessageV {
    MessageV { msg_type: MessageType::Reject, fields: seq![FieldV::Reason(reason)] }
}

pub open spec fn reason_invalid_quantity() -> Seq<u8> {
    seq![
        73u8, 110u8, 118u8, 97u8, 108u8, 105u8, 100u8, 32u8, 113u8, 117u8, 97u8, 110u8, 116u8,
        105u8, 116u8, 121u8,
    ]
}

pub open spec fn reason_not_found() -> Seq<u8> {
    seq![79u8, 114u8, 100u8, 101u8, 114u8, 32u8, 110u8, 111u8, 116u8, 32u8, 102u8, 111u8, 117u8, 110u8, 100u8]
}

pub open spec fn reason_no_price() -> Seq<u8> {
    seq![
        78u8, 111u8, 32u8, 112u8, 114u8, 105u8, 99u8, 101u8, 32u8, 97u8, 118u8, 97u8, 105u8,
        108u8, 97u8, 98u8, 108u8, 101u8,
    ]
}

pub open spec fn reason_invalid_type() -> Seq<u8> {
    seq![
        73u8, 110u8, 118u8, 97u8, 108u8, 105u8, 100u8, 32u8, 109u8, 101u8, 115u8, 115u8, 97u8,
        103u8, 101u8, 32u8, 116u8, 121u8, 112u8, 101u8,
    ]
}

pub open spec fn reason_id_limit() -> Seq<u8> {
    seq![73u8, 100u8, 32u8, 108u8, 105u8, 109u8, 105u8, 116u8, 32u8, 114u8, 101u8, 97u8, 99u8, 104u8, 101u8, 100u8]
}

// ---------------------------------------------------------------------------
// Market-data request flags and response
// ---------------------------------------------------------------------------

/// The price the first volume-at-limit field asks about, if any.
pub open spec fn first_vol(fs: Seq<FieldV>) -> Option<u64>
    decreases fs.len(),
{
    if fs.len() == 0 {
        None
    } else {
        match fs[0] {
            FieldV::VolumeAtLimit(p) => Some(p),
            _ => first_vol(fs.drop_first()),
        }
    }
}

pub open spec fn wants_price(fs: Seq<FieldV>) -> bool {
    exists|i: int| 0 <= i < fs.len() && (#[trigger] fs[i]) is MarketPrice
}

pub open spec fn wants_trades(fs: Seq<FieldV>) -> bool {
    exists|i: int| 0 <= i < fs.len() && (#[trigger] fs[i]) is MarketTrades
}

pub open spec fn wants_book(fs: Seq<FieldV>) -> bool {
    exists|i: int| 0 <= i < fs.len() && (#[trigger] fs[i]) is MarketBook
}

/// The wire form of one padded side of the book: quantity and price only.
pub open spec fn side_entries(s: Seq<Order>, side: Side) -> Seq<OrderData> {
    Seq::new(
        DEPTH as nat,
        |i: int|
            OrderData {
                id: 0,
                side,
                quantity: padded_top(s)[i].quantity,
                price: padded_top(s)[i].price,
            },
    )
}

/// The mid price both sides' tops imply, rounded down.
pub open spec fn mid_of(bids: Seq<Order>, asks: Seq<Order>) -> u64 {
    (((bids[0].price + asks[0].price) as int) / 2) as u64
}

/// The field list of a market-data response: one field per requested
/// datum, in the fixed order volume, price, trades, book.
pub open spec fn md_fields<T: OrderBook>(n: Engine<T>, req: Seq<FieldV>) -> Seq<FieldV> {
    (match first_vol(req) {
        Some(p) => seq![
            FieldV::Quantity(vol_clamped(n.book.bid_view(), n.book.ask_view(), p) as u64),
        ],
        None => Seq::empty(),
    }) + (if wants_price(req) {
        seq![FieldV::Price(mid_of(n.book.bid_view(), n.book.ask_view()))]
    } else {
        Seq::empty()
    }) + (if wants_trades(req) {
        seq![FieldV::Trades(padded_recent(n.trade_history@))]
    } else {
        Seq::empty()
    }) + (if wants_book(req) {
        seq![
            FieldV::Book(
                side_entries(n.book.bid_view(), Side::Buy),
                side_entries(n.book.ask_view(), Side::Sell),
            ),
        ]
    } else {
        Seq::empty()
    })
}

/// The engine state is untouched: every book view and history is the old
/// one and no id was allocated.
pub open spec fn unchanged<T: OrderBook>(pre: Engine<T>, post: Engine<T>) -> bool {
    &&& post.id == pre.id
    &&& post.book.bid_view() == pre.book.bid_view()
    &&& post.book.ask_view() == pre.book.ask_view()
    &&& post.history@ == pre.history@
    &&& post.trade_history@ == pre.trade_history@
}

// ---------------------------------------------------------------------------
// Reason builders
// ---------------------------------------------------------------------------

fn reason_vec(which: VenueError) -> (r: Vec<u8>)
    ensures
        which == VenueError::NotFound ==> r@ == reason_not_found(),
        which == VenueError::NoPrice ==> r@ == reason_no_price(),
        which == VenueError::InvalidSide ==> r@ == reason_invalid_type(),
        which == VenueError::NoMatch ==> r@ == reason_invalid_type(),
{
    let mut v: Vec<u8> = Vec::new();
    match which {
        VenueError::NotFound => {
            v.push(79);
            v.push(114);
            v.push(100);
            v.push(101);
            v.push(114);
            v.push(32);
            v.push(110);
            v.push(111);
            v.push(116);
            v.push(32);
            v.push(102);
            v.push(111);
            v.push(117);
            v.push(110);
            v.push(100);
            proof {
                assert(v@ =~= reason_not_found());
            }
        },
        VenueError::NoPrice => {
            v.push(78);
            v.push(111);
            v.push(32);
            v.push(112);
            v.push(114);
            v.push(105);
            v.push(99);
            v.push(101);
            v.push(32);
            v.push(97);
            v.push(118);
            v.push(97);
            v.push(105);
            v.push(108);
            v.push(97);
            v.push(98);
            v.push(108);
            v.push(101);
            proof {
                assert(v@ =~= reason_no_price());
            }
        },
        _ => {
            v.push(73);
            v.push(110);
            v.push(118);
            v.push(97);
            v.push(108);
            v.push(105);
            v.push(100);
            v.push(32);
            v.push(109);
            v.push(101);
            v.push(115);
            v.push(115);
            v.push(97);
            v.push(103);
            v.push(101);
            v.push(32);
            v.push(116);
            v.push(121);
            v.push(112);
            v.push(101);
            proof {
                assert(v@ =~= reason_invalid_type());
            }
        },
    }
    v
}

fn reason_quantity_vec() -> (r: Vec<u8>)
    ensures
        r@ == reason_invalid_quantity(),
{
    let mut v: Vec<u8> = Vec::new();
    v.push(73);
    v.push(110);
    v.push(118);
    v.push(97);
    v.push(108);
    v.push(105);
    v.push(100);
    v.push(32);
    v.push(113);
    v.push(117);
    v.push(97);
    v.push(110);
    v.push(116);
    v.push(105);
    v.push(116);
    v.push(121);
    proof {
        assert(v@ =~= reason_invalid_quantity());
    }
    v
}

fn reason_id_limit_vec() -> (r: Vec<u8>)
    ensures
        r@ == reason_id_limit(),
{
    let mut v: Vec<u8> = Vec::new();
    v.push(73);
    v.push(100);
    v.push(32);
    v.push(108);
    v.push(105);
    v.push(109);
    v.push(105);
    v.push(116);
    v.push(32);
    v.push(114);
    v.push(101);
    v.push(97);
    v.push(99);
    v.push(104);
    v.push(101);
    v.push(100);
    proof {
        assert(v@ =~= reason_id_limit());
    }
    v
}

fn reject_with(reason: Vec<u8>) -> (r: FixMessage)
    ensures
        r@ == reject_of(reason@),
{
    let mut fields: Vec<MessageField> = Vec::new();
    fields.push(MessageField::Reason(reason));
    let m = FixMessage { msg_type: MessageType::Reject, fields };
    proof {
        assert(m@.fields =~= reject_of(m.fields@[0]->Reason_0@).fields);
    }
    m
}

fn report_with_id(id: u64) -> (r: FixMessage)
    ensures
        r@ == report_id(id),
{
    let mut fields: Vec<MessageField> = Vec::new();
    fields.push(MessageField::OrderId(id));
    let m = FixMessage { msg_type: MessageType::ExecutionReport, fields };
    proof {
        assert(m@.fields =~= report_id(id).fields);
    }
    m
}

// ---------------------------------------------------------------------------
// Dispatch
// ---------------------------------------------------------------------------

/// Serve one decoded request against the engine and produce the response
/// to send back, or `None` when the field list does not fit the request
/// type, in which case nothing was done and the connection is dropped.
pub fn dispatch<T: OrderBook>(n: &mut Engine<T>, msg: &FixMessage) -> (r: Option<FixMessage>)
    requires
        old(n).wf(),
    ensures
        final(n).wf(),
        (r matches Some(m) ==> message_wf(m@)),
        msg@.msg_type == MessageType::NewOrder ==> {
            if !new_order_shape(msg@.fields) {
                r is None && unchanged(*old(n), *final(n))
            } else {
                let side = msg@.fields[0]->Side_0;
                let quantity = msg@.fields[1]->Quantity_0;
                let price = msg@.fields[2]->Price_0;
                if quantity == 0 {
                    r matches Some(m) && m@ == reject_of(reason_invalid_quantity()) && unchanged(
                        *old(n),
                        *final(n),
                    )
                } else if old(n).id == u64::MAX {
                    r matches Some(m) && m@ == reject_of(reason_id_limit()) && unchanged(
                        *old(n),
                        *final(n),
                    )
                } else {
                    let o = Order {
                        id: (old(n).id + 1) as u64,
                        side,
                        quantity,
                        price,
                    };
                    &&& r matches Some(m) && m@ == report_id((old(n).id + 1) as u64)
                    &&& final(n).id == old(n).id + 1
                    &&& final(n).history@ == old(n).history@
                    &&& final(n).trade_history@ == old(n).trade_history@
                    &&& (side == Side::Buy ==> final(n).book.bid_view() == old(
                        n,
                    ).book.bid_view().insert(bid_pos(old(n).book.bid_view(), price) as int, o)
                        && final(n).book.ask_view() == old(n).book.ask_view())
                    &&& (side == Side::Sell ==> final(n).book.ask_view() == old(
                        n,
                    ).book.ask_view().insert(ask_pos(old(n).book.ask_view(), price) as int, o)
                        && final(n).book.bid_view() == old(n).book.bid_view())
                }
            }
        },
        msg@.msg_type == MessageType::OrderReplaceRequest ==> {
            if !amend_shape(msg@.fields) {
                r is None && unchanged(*old(n), *final(n))
            } else {
                let id = msg@.fields[0]->OrderId_0;
                let quantity = msg@.fields[1]->Quantity_0;
                let price = msg@.fields[2]->Price_0;
                if quantity == 0 {
                    r matches Some(m) && m@ == reject_of(reason_invalid_quantity()) && unchanged(
                        *old(n),
                        *final(n),
                    )
                } else if has_id(old(n).book.bid_view(), id) {
                    &&& r matches Some(m) && m@ == report_id(id)
                    &&& final(n).book.bid_view() == amended_side(
                        old(n).book.bid_view(),
                        id,
                        Side::Buy,
                        quantity,
                        price,
                    )
                    &&& final(n).book.ask_view() == old(n).book.ask_view()
                    &&& final(n).id == old(n).id
                    &&& final(n).history@ == old(n).history@
                    &&& final(n).trade_history@ == old(n).trade_history@
                } else if has_id(old(n).book.ask_view(), id) {
                    &&& r matches Some(m) && m@ == report_id(id)
                    &&& final(n).book.ask_view() == amended_ask_side(
                        old(n).book.ask_view(),
                        id,
                        quantity,
                        price,
                    )
                    &&& final(n).book.bid_view() == old(n).book.bid_view()
                    &&& final(n).id == old(n).id
                    &&& final(n).history@ == old(n).history@
                    &&& final(n).trade_history@ == old(n).trade_history@
                } else {
                    r matches Some(m) && m@ == reject_of(reason_not_found()) && unchanged(
                        *old(n),
                        *final(n),
                    )
                }
            }
        },
        msg@.msg_type == MessageType::OrderCancelRequest ==> {
            if !id_shape(msg@.fields) {
                r is None && unchanged(*old(n), *final(n))
            } else {
                let id = msg@.fields[0]->OrderId_0;
                if has_id(old(n).book.bid_view(), id) {
                    &&& r matches Some(m) && m@ == report_id(id)
                    &&& final(n).book.bid_view() == old(n).book.bid_view().remove(
                        find_id(old(n).book.bid_view(), id),
                    )
                    &&& final(n).book.ask_view() == old(n).book.ask_view()
                    &&& final(n).id == old(n).id
                    &&& final(n).history@ == old(n).history@
                    &&& final(n).trade_history@ == old(n).trade_history@
                } else if has_id(old(n).book.ask_view(), id) {
                    &&& r matches Some(m) && m@ == report_id(id)
                    &&& final(n).book.ask_view() == old(n).book.ask_view().remove(
                        find_id(old(n).book.ask_view(), id),
                    )
                    &&& final(n).book.bid_view() == old(n).book.bid_view()
                    &&& final(n).id == old(n).id
                    &&& final(n).history@ == old(n).history@
                    &&& final(n).trade_history@ == old(n).trade_history@
                } else {
                    r matches Some(m) && m@ == reject_of(reason_not_found()) && unchanged(
                        *old(n),
                        *final(n),
                    )
                }
            }
        },
        msg@.msg_type == MessageType::OrderStatusRequest ==> unchanged(*old(n), *final(n)) && {
            if !id_shape(msg@.fields) {
                r is None
            } else {
                let id = msg@.fields[0]->OrderId_0;
                let resting = has_id(old(n).book.bid_view(), id) || has_id(
                    old(n).book.ask_view(),
                    id,
                );
                let st = if resting {
                    OrderStatus::New
                } else if old(n).history@.contains(id) {
                    OrderStatus::Filled
                } else {
                    OrderStatus::Rejected
                };
                r matches Some(m) && m@ == report_status(id, st)
            }
        },
        msg@.msg_type == MessageType::MarketDataRequest ==> unchanged(*old(n), *final(n)) && {
            if wants_price(msg@.fields) && !(old(n).book.bid_view().len() > 0 && old(
                n,
            ).book.ask_view().len() > 0) {
                r matches Some(m) && m@ == reject_of(reason_no_price())
            } else {
                r matches Some(m) && m@ == (MessageV {
                    msg_type: MessageType::MarketData,
                    fields: md_fields(*old(n), msg@.fields),
                })
            }
        },
        (msg@.msg_type == MessageType::ExecutionReport || msg@.msg_type == MessageType::MarketData
            || msg@.msg_type == MessageType::Reject) ==> unchanged(*old(n), *final(n)) && (
        r matches Some(m) && m@ == reject_of(reason_invalid_type())),
{
    match msg.msg_type {
        MessageType::NewOrder => dispatch_new_order(n, msg),
        MessageType::OrderReplaceRequest => dispatch_amend(n, msg),
        MessageType::OrderCancelRequest => dispatch_cancel(n, msg),
        MessageType::OrderStatusRequest => dispatch_status(n, msg),
        MessageType::MarketDataRequest => dispatch_market_data(n, msg),
        _ => Some(reject_with(reason_vec(VenueError::NoMatch))),
    }
}

fn dispatch_new_order<T: OrderBook>(n: &mut Engine<T>, msg: &FixMessage) -> (r: Option<FixMessage>)
    requires
        old(n).wf(),
        msg@.msg_type == MessageType::NewOrder,
    ensures
        final(n).wf(),
        (r matches Some(m) ==> message_wf(m@)),
        ({
            if !new_order_shape(msg@.fields) {
                r is None && unchanged(*old(n), *final(n))
            } else {
                let side = msg@.fields[0]->Side_0;
                let quantity = msg@.fields[1]->Quantity_0;
                let price = msg@.fields[2]->Price_0;
                if quantity == 0 {
                    r matches Some(m) && m@ == reject_of(reason_invalid_quantity()) && unchanged(
                        *old(n),
                        *final(n),
                    )
                } else if old(n).id == u64::MAX {
                    r matches Some(m) && m@ == reject_of(reason_id_limit()) && unchanged(
                        *old(n),
                        *final(n),
                    )
                } else {
                    let o = Order {
                        id: (old(n).id + 1) as u64,
                        side,
                        quantity,
                        price,
                    };
                    &&& r matches Some(m) && m@ == report_id((old(n).id + 1) as u64)
                    &&& final(n).id == old(n).id + 1
                    &&& final(n).history@ == old(n).history@
                    &&& final(n).trade_history@ == old(n).trade_history@
                    &&& (side == Side::Buy ==> final(n).book.bid_view() == old(
                        n,
                    ).book.bid_view().insert(bid_pos(old(n).book.bid_view(), price) as int, o)
                        && final(n).book.ask_view() == old(n).book.ask_view())
                    &&& (side == Side::Sell ==> final(n).book.ask_view() == old(
                        n,
                    ).book.ask_view().insert(ask_pos(old(n).book.ask_view(), price) as int, o)
                        && final(n).book.bid_view() == old(n).book.bid_view())
                }
            }
        }),
{
    if msg.fields.len() != 3 {
        return None;
    }
    let (side, quantity, price) = match (&msg.fields[0], &msg.fields[1], &msg.fields[2]) {
        (MessageField::Side(s), MessageField::Quantity(q), MessageField::Price(p)) => (
            *s,
            *q,
            *p,
        ),
        _ => {
            return None;
        },
    };
    proof {
        assert(msg@.fields[0] == msg.fields@[0]@);
        assert(msg@.fields[1] == msg.fields@[1]@);
        assert(msg@.fields[2] == msg.fields@[2]@);
    }
    if quantity == 0 {
        return Some(reject_with(reason_quantity_vec()));
    }
    if n.id == u64::MAX {
        return Some(reject_with(reason_id_limit_vec()));
    }
    let token: &str = match side {
        Side::Buy => "Buy",
        Side::Sell => "Sell",
    };
    proof {
        reveal_strlit("Buy");
        reveal_strlit("Sell");
        assert("Buy"@.len() == 3);
        assert("Sell"@.len() == 4);
    }
    match n.add_order(token, quantity, price) {
        Ok(id) => Some(report_with_id(id)),
        Err(_) => Some(reject_with(reason_vec(VenueError::InvalidSide))),
    }
}

fn dispatch_amend<T: OrderBook>(n: &mut Engine<T>, msg: &FixMessage) -> (r: Option<FixMessage>)
    requires
        old(n).wf(),
        msg@.msg_type == MessageType::OrderReplaceRequest,
    ensures
        final(n).wf(),
        (r matches Some(m) ==> message_wf(m@)),
        ({
            if !amend_shape(msg@.fields) {
                r is None && unchanged(*old(n), *final(n))
            } else {
                let id = msg@.fields[0]->OrderId_0;
                let quantity = msg@.fields[1]->Quantity_0;
                let price = msg@.fields[2]->Price_0;
                if quantity == 0 {
                    r matches Some(m) && m@ == reject_of(reason_invalid_quantity()) && unchanged(
                        *old(n),
                        *final(n),
                    )
                } else if has_id(old(n).book.bid_view(), id) {
                    &&& r matches Some(m) && m@ == report_id(id)
                    &&& final(n).book.bid_view() == amended_side(
                        old(n).book.bid_view(),
                        id,
                        Side::Buy,
                        quantity,
                        price,
                    )
                    &&& final(n).book.ask_view() == old(n).book.ask_view()
                    &&& final(n).id == old(n).id
                    &&& final(n).history@ == old(n).history@
                    &&& final(n).trade_history@ == old(n).trade_history@
                } else if has_id(old(n).book.ask_view(), id) {
                    &&& r matches Some(m) && m@ == report_id(id)
                    &&& final(n).book.ask_view() == amended_ask_side(
                        old(n).book.ask_view(),
                        id,
                        quantity,
                        price,
                    )
                    &&& final(n).book.bid_view() == old(n).book.bid_view()
                    &&& final(n).id == old(n).id
                    &&& final(n).history@ == old(n).history@
                    &&& final(n).trade_history@ == old(n).trade_history@
                } else {
                    r matches Some(m) && m@ == reject_of(reason_not_found()) && unchanged(
                        *old(n),
                        *final(n),
                    )
                }
            }
        }),
{
    if msg.fields.len() != 3 {
        return None;
    }
    let (id, quantity, price) = match (&msg.fields[0], &msg.fields[1], &msg.fields[2]) {
        (MessageField::OrderId(i), MessageField::Quantity(q), MessageField::Price(p)) => (
            *i,
            *q,
            *p,
        ),
        _ => {
            return None;
        },
    };
    proof {
        assert(msg@.fields[0] == msg.fields@[0]@);
        assert(msg@.fields[1] == msg.fields@[1]@);
        assert(msg@.fields[2] == msg.fields@[2]@);
    }
    if quantity == 0 {
        return Some(reject_with(reason_quantity_vec()));
    }
    match n.amend_order(id, quantity, price) {
        Ok(rid) => Some(report_with_id(rid)),
        Err(_) => Some(reject_with(reason_vec(VenueError::NotFound))),
    }
}

fn dispatch_cancel<T: OrderBook>(n: &mut Engine<T>, msg: &FixMessage) -> (r: Option<FixMessage>)
    requires
        old(n).wf(),
        msg@.msg_type == MessageType::OrderCancelRequest,
    ensures
        final(n).wf(),
        (r matches Some(m) ==> message_wf(m@)),
        ({
            if !id_shape(msg@.fields) {
                r is None && unchanged(*old(n), *final(n))
            } else {
                let id = msg@.fields[0]->OrderId_0;
                if has_id(old(n).book.bid_view(), id) {
                    &&& r matches Some(m) && m@ == report_id(id)
                    &&& final(n).book.bid_view() == old(n).book.bid_view().remove(
                        find_id(old(n).book.bid_view(), id),
                    )
                    &&& final(n).book.ask_view() == old(n).book.ask_view()
                    &&& final(n).id == old(n).id
                    &&& final(n).history@ == old(n).history@
                    &&& final(n).trade_history@ == old(n).trade_history@
                } else if has_id(old(n).book.ask_view(), id) {
                    &&& r matches Some(m) && m@ == report_id(id)
                    &&& final(n).book.ask_view() == old(n).book.ask_view().remove(
                        find_id(old(n).book.ask_view(), id),
                    )
                    &&& final(n).book.bid_view() == old(n).book.bid_view()
                    &&& final(n).id == old(n).id
                    &&& final(n).history@ == old(n).history@
                    &&& final(n).trade_history@ == old(n).trade_history@
                } else {
                    r matches Some(m) && m@ == reject_of(reason_not_found()) && unchanged(
                        *old(n),
                        *final(n),
                    )
                }
            }
        }),
{
    if msg.fields.len() != 1 {
        return None;
    }
    let id = match &msg.fields[0] {
        MessageField::OrderId(i) => *i,
        _ => {
            return None;
        },
    };
    proof {
        assert(msg@.fields[0] == msg.fields@[0]@);
    }
    match n.cancel_order(id) {
        Ok(()) => Some(report_with_id(id)),
        Err(_) => Some(reject_with(reason_vec(VenueError::NotFound))),
    }
}

fn dispatch_status<T: OrderBook>(n: &mut Engine<T>, msg: &FixMessage) -> (r: Option<FixMessage>)
    requires
        old(n).wf(),
        msg@.msg_type == MessageType::OrderStatusRequest,
    ensures
        final(n).wf(),
        unchanged(*old(n), *final(n)),
        (r matches Some(m) ==> message_wf(m@)),
        ({
            if !id_shape(msg@.fields) {
                r is None
            } else {
                let id = msg@.fields[0]->OrderId_0;
                let resting = has_id(old(n).book.bid_view(), id) || has_id(
                    old(n).book.ask_view(),
                    id,
                );
                let st = if resting {
                    OrderStatus::New
                } else if old(n).history@.contains(id) {
                    OrderStatus::Filled
                } else {
                    OrderStatus::Rejected
                };
                r matches Some(m) && m@ == report_status(id, st)
            }
        }),
{
    if msg.fields.len() != 1 {
        return None;
    }
    let id = match &msg.fields[0] {
        MessageField::OrderId(i) => *i,
        _ => {
            return None;
        },
    };
    proof {
        assert(msg@.fields[0] == msg.fields@[0]@);
    }
    let st = match n.get_execution_status(id) {
        Ok(st) => st,
        Err(_) => OrderStatus::Rejected,
    };
    let mut fields: Vec<MessageField> = Vec::new();
    fields.push(MessageField::OrderId(id));
    fields.push(MessageField::Status(st));
    let m = FixMessage { msg_type: MessageType::ExecutionReport, fields };
    proof {
        assert(m@.fields =~= report_status(id, st).fields);
    }
    Some(m)
}

fn dispatch_market_data<T: OrderBook>(n: &mut Engine<T>, msg: &FixMessage) -> (r: Option<
    FixMessage,
>)
    requires
        old(n).wf(),
        msg@.msg_type == MessageType::MarketDataRequest,
    ensures
        final(n).wf(),
        unchanged(*old(n), *final(n)),
        (r matches Some(m) ==> message_wf(m@)),
        ({
            if wants_price(msg@.fields) && !(old(n).book.bid_view().len() > 0 && old(
                n,
            ).book.ask_view().len() > 0) {
                r matches Some(m) && m@ == reject_of(reason_no_price())
            } else {
                r matches Some(m) && m@ == (MessageV {
                    msg_type: MessageType::MarketData,
                    fields: md_fields(*old(n), msg@.fields),
                })
            }
        }),
{
    // gather the request flags
    let mut vol: Option<u64> = None;
    let mut price_flag: bool = false;
    let mut trades_flag: bool = false;
    let mut book_flag: bool = false;
    let mut i: usize = 0;
    while i < msg.fields.len()
        invariant
            i <= msg.fields@.len(),
            msg@.fields.len() == msg.fields@.len(),
            forall|k: int| 0 <= k < msg.fields@.len() ==> msg@.fields[k] == (
            #[trigger] msg.fields@[k])@,
            vol == first_vol(msg@.fields.take(i as int)),
            price_flag == wants_price(msg@.fields.take(i as int)),
            trades_flag == wants_trades(msg@.fields.take(i as int)),
            book_flag == wants_book(msg@.fields.take(i as int)),
        decreases msg.fields@.len() - i,
    {
        proof {
            lemma_flags_extend(msg@.fields, i as int);
        }
        match &msg.fields[i] {
            MessageField::VolumeAtLimit(p) => {
                if vol.is_none() {
                    vol = Some(*p);
                }
            },
            MessageField::MarketPrice(_) => {
                price_flag = true;
            },
            MessageField::MarketTrades(_) => {
                trades_flag = true;
            },
            MessageField::MarketBook(_) => {
                book_flag = true;
            },
            _ => {},
        }
        i += 1;
    }
    proof {
        assert(msg@.fields.take(msg.fields@.len() as int) =~= msg@.fields);
    }
    let mut fields: Vec<MessageField> = Vec::new();
    match vol {
        Some(p) => {
            let v = n.get_volume_at_limit(p);
            fields.push(MessageField::Quantity(v));
        },
        None => {},
    }
    if price_flag {
        match n.get_market_price() {
            Ok(mid) => {
                fields.push(MessageField::Price(mid));
            },
            Err(_) => {
                return Some(reject_with(reason_vec(VenueError::NoPrice)));
            },
        }
    }
    if trades_flag {
        let trades = n.get_trade_history();
        fields.push(MessageField::Trades(trades));
    }
    if book_flag {
        let (bids, asks) = n.get_book();
        let wire_bids = to_entries(&bids, Side::Buy);
        let wire_asks = to_entries(&asks, Side::Sell);
        proof {
            assert(wire_bids@ =~= side_entries(n.book.bid_view(), Side::Buy));
            assert(wire_asks@ =~= side_entries(n.book.ask_view(), Side::Sell));
        }
        fields.push(MessageField::Book(wire_bids, wire_asks));
    }
    let m = FixMessage { msg_type: MessageType::MarketData, fields };
    proof {
        assert(m@.fields =~= md_fields(*old(n), msg@.fields));
    }
    Some(m)
}

/// One padded book side reduced to its wire entries.
fn to_entries(s: &Vec<Order>, side: Side) -> (r: Vec<OrderData>)
    requires
        s@.len() == DEPTH,
    ensures
        r@.len() == DEPTH,
        forall|i: int| 0 <= i < DEPTH ==> #[trigger] r@[i] == (OrderData {
            id: 0,
            side,
            quantity: s@[i].quantity,
            price: s@[i].price,
        }),
{
    let mut r: Vec<OrderData> = Vec::new();
    let mut i: usize = 0;
    while i < s.len()
        invariant
            s@.len() == DEPTH,
            i <= DEPTH,
            r@.len() == i,
            forall|k: int| 0 <= k < i ==> #[trigger] r@[k] == (OrderData {
                id: 0,
                side,
                quantity: s@[k].quantity,
                price: s@[k].price,
            }),
        decreases s@.len() - i,
    {
        let o = s[i];
        r.push(OrderData { id: 0, side, quantity: o.quantity, price: o.price });
        i += 1;
    }
    r
}

proof fn lemma_flags_extend(fs: Seq<FieldV>, i: int)
    requires
        0 <= i < fs.len(),
    ensures
        first_vol(fs.take(i + 1)) == (if first_vol(fs.take(i)) is Some {
            first_vol(fs.take(i))
        } else if fs[i] is VolumeAtLimit {
            Some(fs[i]->VolumeAtLimit_0)
        } else {
            None::<u64>
        }),
        wants_price(fs.take(i + 1)) == (wants_price(fs.take(i)) || fs[i] is MarketPrice),
        wants_trades(fs.take(i + 1)) == (wants_trades(fs.take(i)) || fs[i] is MarketTrades),
        wants_book(fs.take(i + 1)) == (wants_book(fs.take(i)) || fs[i] is MarketBook),
{
    assert(fs.take(i + 1) =~= fs.take(i).push(fs[i]));
    lemma_first_vol_push(fs.take(i), fs[i]);
    lemma_wants_push(fs.take(i), fs[i]);
}

proof fn lemma_first_vol_push(fs: Seq<FieldV>, f: FieldV)
    ensures
        first_vol(fs.push(f)) == (if first_vol(fs) is Some {
            first_vol(fs)
        } else if f is VolumeAtLimit {
            Some(f->VolumeAtLimit_0)
        } else {
            None::<u64>
        }),
    decreases fs.len(),
{
    if fs.len() == 0 {
        assert(fs.push(f)[0] == f);
        assert(fs.push(f).drop_first() =~= Seq::<FieldV>::empty());
        assert(first_vol(Seq::<FieldV>::empty()) is None);
    } else {
        assert(fs.push(f)[0] == fs[0]);
        assert(fs.push(f).drop_first() =~= fs.drop_first().push(f));
        lemma_first_vol_push(fs.drop_first(), f);
    }
}

proof fn lemma_wants_push(fs: Seq<FieldV>, f: FieldV)
    ensures
        wants_price(fs.push(f)) == (wants_price(fs) || f is MarketPrice),
        wants_trades(fs.push(f)) == (wants_trades(fs) || f is MarketTrades),
        wants_book(fs.push(f)) == (wants_book(fs) || f is MarketBook),
{
    let s = fs.push(f);
    assert(s[fs.len() as int] == f);
    assert forall|i: int| 0 <= i < fs.len() implies #[trigger] s[i] == fs[i] by {}
    if wants_price(fs) {
        let i = choose|i: int| 0 <= i < fs.len() && (#[trigger] fs[i]) is MarketPrice;
        assert(s[i] is MarketPrice);
    }
    if wants_price(s) {
        let i = choose|i: int| 0 <= i < s.len() && (#[trigger] s[i]) is MarketPrice;
        if i < fs.len() {
            assert(fs[i] is MarketPrice);
        }
    }
    if wants_trades(fs) {
        let i = choose|i: int| 0 <= i < fs.len() && (#[trigger] fs[i]) is MarketTrades;
        assert(s[i] is MarketTrades);
    }
    if wants_trades(s) {
        let i = choose|i: int| 0 <= i < s.len() && (#[trigger] s[i]) is MarketTrades;
        if i < fs.len() {
            assert(fs[i] is MarketTrades);
        }
    }
    if wants_book(fs) {
        let i = choose|i: int| 0 <= i < fs.len() && (#[trigger] fs[i]) is MarketBook;
        assert(s[i] is MarketBook);
    }
    if wants_book(s) {
        let i = choose|i: int| 0 <= i < s.len() && (#[trigger] s[i]) is MarketBook;
        if i < fs.len() {
            assert(fs[i] is MarketBook);
        }
    }
}

} // verus!

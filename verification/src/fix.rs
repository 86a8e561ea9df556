//! The structured form of a wire message: a type code and an ordered list
//! of tagged fields. The codec maps between this form and its textual
//! payload; well-formedness here says exactly which messages the wire
//! grammar can carry and recover unchanged.

use vstd::prelude::*;

use crate::order::OrderStatus;
use crate::order::Side;
use crate::order::Trade;
use crate::DEPTH;

verus! {

#[derive(Clone, Copy, Debug, PartialEq, Eq, Structural)]
pub enum MessageType {
    NewOrder,
    ExecutionReport,
    OrderReplaceRequest,
    OrderCancelRequest,
    OrderStatusRequest,
    MarketDataRequest,
    MarketData,
    Reject,
}

/// One book-snapshot entry. Only quantity and price travel on the wire:
/// a decoded entry carries id 0 and the side implied by its position.
#[derive(Clone, Copy, Debug, PartialEq, Eq, Structural)]
pub struct OrderData {
    pub id: u64,
    pub side: Side,
    pub quantity: u64,
    pub price: u64,
}

/// One tagged field of a message. Prices are in hundredths of the quote
/// unit; a reason is raw text bytes.
#[derive(Clone, Debug, PartialEq)]
pub enum MessageField {
    OrderId(u64),
    Side(Side),
    Quantity(u64),
    Price(u64),
    Status(OrderStatus),
    VolumeAtLimit(u64),
    Trades(Vec<Trade>),
    Book(Vec<OrderData>, Vec<OrderData>),
    MarketPrice(bool),
    MarketTrades(bool),
    MarketBook(bool),
    Reason(Vec<u8>),
}

/// The mathematical form of a field, with sequences for the lists.
pub enum FieldV {
    OrderId(u64),
    Side(Side),
    Quantity(u64),
    Price(u64),
    Status(OrderStatus),
    VolumeAtLimit(u64),
    Trades(Seq<Trade>),
    Book(Seq<OrderData>, Seq<OrderData>),
    MarketPrice(bool),
    MarketTrades(bool),
    MarketBook(bool),
    Reason(Seq<u8>),
}

impl View for MessageField {
    type V = FieldV;

    open spec fn view(&self) -> FieldV {
        match self {
            MessageField::OrderId(n) => FieldV::OrderId(*n),
            MessageField::Side(s) => FieldV::Side(*s),
            MessageField::Quantity(n) => FieldV::Quantity(*n),
            MessageField::Price(p) => FieldV::Price(*p),
            MessageField::Status(s) => FieldV::Status(*s),
            MessageField::VolumeAtLimit(p) => FieldV::VolumeAtLimit(*p),
            MessageField::Trades(ts) => FieldV::Trades(ts@),
            MessageField::Book(b, a) => FieldV::Book(b@, a@),
            MessageField::MarketPrice(b) => FieldV::MarketPrice(*b),
            MessageField::MarketTrades(b) => FieldV::MarketTrades(*b),
            MessageField::MarketBook(b) => FieldV::MarketBook(*b),
            MessageField::Reason(r) => FieldV::Reason(r@),
        }
    }
}

/// A complete wire message: type code plus ordered field list.
#[derive(Clone, Debug, PartialEq)]
pub struct FixMessage {
    pub msg_type: MessageType,
    pub fields: Vec<MessageField>,
}

/// The mathematical form of a message.
#[verifier::ext_equal]
pub struct MessageV {
    pub msg_type: MessageType,
    pub fields: Seq<FieldV>,
}

pub open spec fn fields_view(fields: Seq<MessageField>) -> Seq<FieldV> {
    Seq::new(fields.len(), |i: int| fields[i]@)
}

impl View for FixMessage {
    type V = MessageV;

    open spec fn view(&self) -> MessageV {
        MessageV { msg_type: self.msg_type, fields: fields_view(self.fields@) }
    }
}

/// A decoded book entry: only quantity and price are carried, the id is
/// zero and the side is the one its position implies.
pub open spec fn entry_wf(o: OrderData, side: Side) -> bool {
    o.id == 0 && o.side == side
}

/// Which fields the wire grammar can carry and recover unchanged: list
/// fields hold one to `DEPTH` entries, book entries carry no id or stray
/// side, and a reason avoids the two delimiter bytes.
pub open spec fn field_wf(f: FieldV) -> bool {
    match f {
        FieldV::Trades(ts) => 1 <= ts.len() <= DEPTH,
        FieldV::Book(bids, asks) => {
            &&& 1 <= bids.len() <= DEPTH
            &&& 1 <= asks.len() <= DEPTH
            &&& forall|i: int| 0 <= i < bids.len() ==> entry_wf(#[trigger] bids[i], Side::Buy)
            &&& forall|i: int| 0 <= i < asks.len() ==> entry_wf(#[trigger] asks[i], Side::Sell)
        },
        FieldV::Reason(r) => forall|i: int| 0 <= i < r.len() ==> (#[trigger] r[i]) != 124 && r[i]
            != 61,
        _ => true,
    }
}

pub open spec fn message_wf(m: MessageV) -> bool {
    forall|i: int| 0 <= i < m.fields.len() ==> field_wf(#[trigger] m.fields[i])
}

} // verus!

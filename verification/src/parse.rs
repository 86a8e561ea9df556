//! The strict payload parser, as specification. Every function works on
//! absolute positions `[lo, hi)` inside one byte sequence. Numeric values
//! follow the wire's decimal grammar: integers may carry leading zeros,
//! prices carry zero, one or two fractional digits — so several spellings
//! of one value decode alike, while anything outside the grammar refuses
//! the whole message. Tags are matched literally, as text.

use vstd::prelude::*;

use crate::fix::FieldV;
use crate::fix::MessageType;
use crate::fix::MessageV;
use crate::fix::OrderData;
use crate::order::OrderStatus;
use crate::order::Side;
use crate::order::Trade;
use crate::DEPTH;

verus! {

pub open spec fn is_digit(b: u8) -> bool {
    48 <= b <= 57
}

/// Value of the decimal digits at `[lo, hi)`.
pub open spec fn val_range(s: Seq<u8>, lo: int, hi: int) -> int
    decreases hi - lo,
{
    if lo >= hi {
        0
    } else {
        val_range(s, lo, hi - 1) * 10 + (s[hi - 1] - 48)
    }
}

/// A run of decimal digits, leading zeros allowed.
pub open spec fn digits_range(s: Seq<u8>, lo: int, hi: int) -> bool {
    &&& 0 <= lo < hi <= s.len()
    &&& forall|i: int| lo <= i < hi ==> is_digit(#[trigger] s[i])
}

/// The canonical decimal form of a `u64`: at least one digit, no leading
/// zero, value in range. This is the form the encoder emits, and the only
/// form a tag may take (tags are matched as text).
pub open spec fn canon_u64_range(s: Seq<u8>, lo: int, hi: int) -> bool {
    &&& digits_range(s, lo, hi)
    &&& (hi - lo == 1 || s[lo] != 48)
    &&& val_range(s, lo, hi) <= u64::MAX
}

/// An integer value: any digit run whose value fits, leading zeros
/// tolerated.
pub open spec fn parse_u64_range(s: Seq<u8>, lo: int, hi: int) -> Option<u64> {
    if digits_range(s, lo, hi) && val_range(s, lo, hi) <= u64::MAX {
        Some(val_range(s, lo, hi) as u64)
    } else {
        None
    }
}

/// A tag: the canonical digit run only.
pub open spec fn parse_tag_range(s: Seq<u8>, lo: int, hi: int) -> Option<u64> {
    if canon_u64_range(s, lo, hi) {
        Some(val_range(s, lo, hi) as u64)
    } else {
        None
    }
}

/// A price value in hundredths: a digit run for the units, optionally one
/// dot (byte 46) and one or two fractional digits.
pub open spec fn parse_price_range(s: Seq<u8>, lo: int, hi: int) -> Option<u64> {
    let dot = find_in(s, lo, hi, 46);
    if dot == hi {
        match parse_u64_range(s, lo, hi) {
            Some(u) => if u * 100 <= u64::MAX {
                Some((u * 100) as u64)
            } else {
                None
            },
            None => None,
        }
    } else {
        if dot + 1 < hi && hi - dot <= 3 && (forall|i: int|
            dot + 1 <= i < hi ==> is_digit(#[trigger] s[i])) {
            match parse_u64_range(s, lo, dot) {
                Some(u) => {
                    let frac = if hi - dot == 2 {
                        (s[dot + 1] - 48) * 10
                    } else {
                        (s[dot + 1] - 48) * 10 + (s[dot + 2] - 48)
                    };
                    if u * 100 + frac <= u64::MAX {
                        Some((u * 100 + frac) as u64)
                    } else {
                        None
                    }
                },
                None => None,
            }
        } else {
            None
        }
    }
}

pub open spec fn parse_bool_range(s: Seq<u8>, lo: int, hi: int) -> Option<bool> {
    if 0 <= lo && hi <= s.len() && hi - lo == 4 && s[lo] == 116 && s[lo + 1] == 114 && s[lo + 2]
        == 117 && s[lo + 3] == 101 {
        Some(true)
    } else if 0 <= lo && hi <= s.len() && hi - lo == 5 && s[lo] == 102 && s[lo + 1] == 97 && s[lo
        + 2] == 108 && s[lo + 3] == 115 && s[lo + 4] == 101 {
        Some(false)
    } else {
        None
    }
}

pub open spec fn parse_side_range(s: Seq<u8>, lo: int, hi: int) -> Option<Side> {
    if 0 <= lo && hi <= s.len() && hi - lo == 1 && s[lo] == 66 {
        Some(Side::Buy)
    } else if 0 <= lo && hi <= s.len() && hi - lo == 1 && s[lo] == 83 {
        Some(Side::Sell)
    } else {
        None
    }
}

pub open spec fn parse_status_range(s: Seq<u8>, lo: int, hi: int) -> Option<OrderStatus> {
    if 0 <= lo && hi <= s.len() && hi - lo == 1 && s[lo] == 78 {
        Some(OrderStatus::New)
    } else if 0 <= lo && hi <= s.len() && hi - lo == 1 && s[lo] == 70 {
        Some(OrderStatus::Filled)
    } else if 0 <= lo && hi <= s.len() && hi - lo == 1 && s[lo] == 82 {
        Some(OrderStatus::Rejected)
    } else {
        None
    }
}

/// First index in `[lo, hi)` holding byte `b`, or `hi`.
pub open spec fn find_in(s: Seq<u8>, lo: int, hi: int, b: u8) -> int
    decreases hi - lo,
{
    if lo >= hi {
        hi
    } else if s[lo] == b {
        lo
    } else {
        find_in(s, lo + 1, hi, b)
    }
}

pub proof fn lemma_find_in(s: Seq<u8>, lo: int, hi: int, b: u8)
    requires
        lo <= hi,
    ensures
        lo <= find_in(s, lo, hi, b) <= hi,
        forall|i: int| lo <= i < find_in(s, lo, hi, b) ==> #[trigger] s[i] != b,
        find_in(s, lo, hi, b) < hi ==> s[find_in(s, lo, hi, b)] == b,
    decreases hi - lo,
{
    if lo < hi && s[lo] != b {
        lemma_find_in(s, lo + 1, hi, b);
    }
}

/// `find_in` is pinned by its two properties: a run without `b`, then `b`
/// or the end.
pub proof fn lemma_find_in_is(s: Seq<u8>, lo: int, hi: int, b: u8, at: int)
    requires
        lo <= at <= hi,
        forall|i: int| lo <= i < at ==> #[trigger] s[i] != b,
        at < hi ==> s[at] == b,
    ensures
        find_in(s, lo, hi, b) == at,
{
    lemma_find_in(s, lo, hi, b);
    let f = find_in(s, lo, hi, b);
    if f < at {
        assert(s[f] != b);
    }
    if f > at {
        assert(s[at] != b);
    }
}

/// One trade, `quantity@price@timestamp` (byte 64 is `@`).
pub open spec fn parse_trade_range(s: Seq<u8>, lo: int, hi: int) -> Option<Trade> {
    let a1 = find_in(s, lo, hi, 64);
    let a2 = find_in(s, a1 + 1, hi, 64);
    if lo <= a1 < hi && a2 < hi {
        match (
            parse_u64_range(s, lo, a1),
            parse_price_range(s, a1 + 1, a2),
            parse_u64_range(s, a2 + 1, hi),
        ) {
            (Some(q), Some(p), Some(ts)) => Some(Trade { quantity: q, price: p, timestamp: ts }),
            _ => None,
        }
    } else {
        None
    }
}

/// One or more trades joined by byte 44 (`,`).
pub open spec fn parse_trades_range(s: Seq<u8>, lo: int, hi: int) -> Option<Seq<Trade>>
    decreases hi - lo,
{
    let c = find_in(s, lo, hi, 44);
    if c == hi {
        match parse_trade_range(s, lo, hi) {
            Some(t) => Some(seq![t]),
            None => None,
        }
    } else if lo < c < hi {
        match parse_trade_range(s, lo, c) {
            Some(t) => match parse_trades_range(s, c + 1, hi) {
                Some(ts) => Some(seq![t] + ts),
                None => None,
            },
            None => None,
        }
    } else {
        None
    }
}

/// One book entry, `quantity@price`, with the side its position implies.
pub open spec fn parse_entry_range(s: Seq<u8>, lo: int, hi: int, side: Side) -> Option<OrderData> {
    let a1 = find_in(s, lo, hi, 64);
    if lo <= a1 < hi {
        match (parse_u64_range(s, lo, a1), parse_price_range(s, a1 + 1, hi)) {
            (Some(q), Some(p)) => Some(OrderData { id: 0, side, quantity: q, price: p }),
            _ => None,
        }
    } else {
        None
    }
}

/// One or more book entries joined by byte 44 (`,`).
pub open spec fn parse_entries_range(s: Seq<u8>, lo: int, hi: int, side: Side) -> Option<
    Seq<OrderData>,
>
    decreases hi - lo,
{
    let c = find_in(s, lo, hi, 44);
    if c == hi {
        match parse_entry_range(s, lo, hi, side) {
            Some(o) => Some(seq![o]),
            None => None,
        }
    } else if lo < c < hi {
        match parse_entry_range(s, lo, c, side) {
            Some(o) => match parse_entries_range(s, c + 1, hi, side) {
                Some(os) => Some(seq![o] + os),
                None => None,
            },
            None => None,
        }
    } else {
        None
    }
}

/// The value of a field, parsed by its tag's grammar.
pub open spec fn parse_value_range(tag: nat, s: Seq<u8>, lo: int, hi: int) -> Option<FieldV> {
    if tag == 1 {
        match parse_u64_range(s, lo, hi) {
            Some(n) => Some(FieldV::OrderId(n)),
            None => None,
        }
    } else if tag == 2 {
        match parse_side_range(s, lo, hi) {
            Some(sd) => Some(FieldV::Side(sd)),
            None => None,
        }
    } else if tag == 3 {
        match parse_u64_range(s, lo, hi) {
            Some(n) => Some(FieldV::Quantity(n)),
            None => None,
        }
    } else if tag == 4 {
        match parse_price_range(s, lo, hi) {
            Some(p) => Some(FieldV::Price(p)),
            None => None,
        }
    } else if tag == 5 {
        match parse_status_range(s, lo, hi) {
            Some(st) => Some(FieldV::Status(st)),
            None => None,
        }
    } else if tag == 6 {
        match parse_price_range(s, lo, hi) {
            Some(p) => Some(FieldV::VolumeAtLimit(p)),
            None => None,
        }
    } else if tag == 7 {
        match parse_trades_range(s, lo, hi) {
            Some(ts) => if ts.len() <= DEPTH {
                Some(FieldV::Trades(ts))
            } else {
                None
            },
            None => None,
        }
    } else if tag == 8 {
        let colon = find_in(s, lo, hi, 58);
        if lo <= colon < hi {
            match parse_entries_range(s, lo, colon, Side::Buy) {
                Some(bids) => match parse_entries_range(s, colon + 1, hi, Side::Sell) {
                    Some(asks) => if bids.len() <= DEPTH && asks.len() <= DEPTH {
                        Some(FieldV::Book(bids, asks))
                    } else {
                        None
                    },
                    None => None,
                },
                None => None,
            }
        } else {
            None
        }
    } else if tag == 9 {
        match parse_bool_range(s, lo, hi) {
            Some(b) => Some(FieldV::MarketPrice(b)),
            None => None,
        }
    } else if tag == 10 {
        match parse_bool_range(s, lo, hi) {
            Some(b) => Some(FieldV::MarketTrades(b)),
            None => None,
        }
    } else if tag == 11 {
        match parse_bool_range(s, lo, hi) {
            Some(b) => Some(FieldV::MarketBook(b)),
            None => None,
        }
    } else if tag == 12 {
        if 0 <= lo <= hi <= s.len() && (forall|i: int|
            lo <= i < hi ==> (#[trigger] s[i]) != 61 && s[i] != 124) {
            Some(FieldV::Reason(s.subrange(lo, hi)))
        } else {
            None
        }
    } else {
        None
    }
}

/// One `tag=value` item starting at `pos`; the value runs to the next
/// byte 124 (`|`) or the end. Returns the field and the end position.
pub open spec fn dec_field(s: Seq<u8>, pos: int) -> Option<(FieldV, int)> {
    let e = find_in(s, pos, s.len() as int, 61);
    if e < s.len() {
        match parse_tag_range(s, pos, e) {
            Some(tag) => if 1 <= tag <= 12 {
                let vend = find_in(s, e + 1, s.len() as int, 124);
                match parse_value_range(tag as nat, s, e + 1, vend) {
                    Some(f) => Some((f, vend)),
                    None => None,
                }
            } else {
                None
            },
            None => None,
        }
    } else {
        None
    }
}

/// The field items from `pos` to the end: each is introduced by byte 124.
pub open spec fn dec_fields(s: Seq<u8>, pos: int) -> Option<Seq<FieldV>>
    decreases s.len() - pos,
{
    if pos >= s.len() {
        Some(Seq::empty())
    } else if s[pos] != 124 {
        None
    } else {
        match dec_field(s, pos + 1) {
            Some((f, end)) => if pos + 1 < end <= s.len() {
                match dec_fields(s, end) {
                    Some(fs) => Some(seq![f] + fs),
                    None => None,
                }
            } else {
                None
            },
            None => None,
        }
    }
}

pub open spec fn msg_type_of(b: u8) -> Option<MessageType> {
    if b == 78 {
        Some(MessageType::NewOrder)
    } else if b == 69 {
        Some(MessageType::ExecutionReport)
    } else if b == 79 {
        Some(MessageType::OrderReplaceRequest)
    } else if b == 67 {
        Some(MessageType::OrderCancelRequest)
    } else if b == 83 {
        Some(MessageType::OrderStatusRequest)
    } else if b == 77 {
        Some(MessageType::MarketDataRequest)
    } else if b == 68 {
        Some(MessageType::MarketData)
    } else if b == 82 {
        Some(MessageType::Reject)
    } else {
        None
    }
}

/// The strict reading of a whole payload: a known type code byte, then
/// the field items; any flaw refuses the whole message.
pub open spec fn dec_message(s: Seq<u8>) -> Option<MessageV> {
    if s.len() == 0 {
        None
    } else {
        match msg_type_of(s[0]) {
            Some(t) => match dec_fields(s, 1) {
                Some(fs) => Some(MessageV { msg_type: t, fields: fs }),
                None => None,
            },
            None => None,
        }
    }
}

/// Half of the protocol law on failure: any payload whose first byte is
/// not a known type code is refused whole — never a partial message.
pub proof fn lemma_unknown_type_refused(s: Seq<u8>)
    requires
        s.len() == 0 || msg_type_of(s[0]) is None,
    ensures
        dec_message(s) is None,
{
}

/// The other half of the failure law, for any field item of any payload:
/// the whole run of fields is refused when the item lacks its tag
/// separator, spells an unknown tag, or carries a value that fails its
/// tag's grammar.
pub proof fn lemma_malformed_field_refused(s: Seq<u8>, pos: int)
    requires
        0 <= pos < s.len(),
        s[pos] == 124,
    ensures
        ({
            let e = find_in(s, pos + 1, s.len() as int, 61);
            let vend = find_in(s, e + 1, s.len() as int, 124);
            &&& (e == s.len() ==> dec_fields(s, pos) is None)
            &&& (e < s.len() && parse_tag_range(s, pos + 1, e) is None ==> dec_fields(s, pos)
                is None)
            &&& (e < s.len() && (parse_tag_range(s, pos + 1, e) matches Some(tag) && !(1 <= tag
                <= 12)) ==> dec_fields(s, pos) is None)
            &&& (e < s.len() && (parse_tag_range(s, pos + 1, e) matches Some(tag) && 1 <= tag <= 12
                && parse_value_range(tag as nat, s, e + 1, vend) is None) ==> dec_fields(s, pos)
                is None)
        }),
{
}

} // verus!

//! The stateless wire codec. A message travels as a textual payload
//! `<type-code>|<tag>=<value>|...` (byte 124 `|` separates fields, byte 61
//! `=` separates a tag from its value), framed by a four-byte big-endian
//! length prefix. Encoding is total and emits each number in its shortest
//! decimal form; decoding is strict about the grammar (any unknown type
//! code or tag, malformed field or unparseable value refuses the whole
//! message) but tolerant about numeric spelling: integers may carry
//! leading zeros and a price carries zero, one or two fractional digits.

use vstd::prelude::*;

use crate::fix::fields_view;
use crate::fix::FieldV;
use crate::fix::FixMessage;
use crate::fix::MessageField;
use crate::fix::MessageType;
use crate::fix::MessageV;
use crate::fix::OrderData;
use crate::order::OrderStatus;
use crate::order::Side;
use crate::order::Trade;
use crate::parse::digits_range;
use crate::parse::parse_tag_range;
use crate::parse::dec_field;
use crate::parse::dec_fields;
use crate::parse::dec_message;
use crate::parse::find_in;
use crate::parse::is_digit;
use crate::parse::lemma_find_in_is;
use crate::parse::msg_type_of;
use crate::parse::parse_bool_range;
use crate::parse::parse_entries_range;
use crate::parse::parse_entry_range;
use crate::parse::parse_price_range;
use crate::parse::parse_side_range;
use crate::parse::parse_status_range;
use crate::parse::parse_trade_range;
use crate::parse::parse_trades_range;
use crate::parse::parse_u64_range;
use crate::parse::parse_value_range;
use crate::parse::val_range;
use crate::DEPTH;

verus! {

// ---------------------------------------------------------------------------
// Canonical encoding, as specification
// ---------------------------------------------------------------------------

/// Decimal digits of `n`, most significant first, no leading zero.
pub open spec fn enc_u64(n: nat) -> Seq<u8>
    decreases n,
{
    if n < 10 {
        seq![(48 + n) as u8]
    } else {
        enc_u64(n / 10).push((48 + n % 10) as u8)
    }
}

/// A price in hundredths rendered in its shortest decimal form: whole
/// units alone, or one fractional digit, or two, as the value needs.
pub open spec fn enc_price(p: nat) -> Seq<u8> {
    if p % 100 == 0 {
        enc_u64(p / 100)
    } else if p % 10 == 0 {
        enc_u64(p / 100) + seq![46u8, (48 + (p / 10) % 10) as u8]
    } else {
        enc_u64(p / 100) + seq![46u8, (48 + (p / 10) % 10) as u8, (48 + p % 10) as u8]
    }
}

pub open spec fn enc_bool(b: bool) -> Seq<u8> {
    if b {
        seq![116u8, 114u8, 117u8, 101u8]
    } else {
        seq![102u8, 97u8, 108u8, 115u8, 101u8]
    }
}

pub open spec fn side_byte(s: Side) -> u8 {
    match s {
        Side::Buy => 66,
        Side::Sell => 83,
    }
}

pub open spec fn status_byte(s: OrderStatus) -> u8 {
    match s {
        OrderStatus::New => 78,
        OrderStatus::Filled => 70,
        OrderStatus::Rejected => 82,
    }
}

pub open spec fn type_byte(t: MessageType) -> u8 {
    match t {
        MessageType::NewOrder => 78,
        MessageType::ExecutionReport => 69,
        MessageType::OrderReplaceRequest => 79,
        MessageType::OrderCancelRequest => 67,
        MessageType::OrderStatusRequest => 83,
        MessageType::MarketDataRequest => 77,
        MessageType::MarketData => 68,
        MessageType::Reject => 82,
    }
}

/// One trade as `quantity@price@timestamp` (byte 64 is `@`).
pub open spec fn enc_trade(t: Trade) -> Seq<u8> {
    enc_u64(t.quantity as nat) + seq![64u8] + enc_price(t.price as nat) + seq![64u8] + enc_u64(
        t.timestamp as nat,
    )
}

/// Trades joined by byte 44 (`,`), newest first.
pub open spec fn enc_trades(ts: Seq<Trade>) -> Seq<u8>
    decreases ts.len(),
{
    if ts.len() == 0 {
        Seq::empty()
    } else if ts.len() == 1 {
        enc_trade(ts[0])
    } else {
        enc_trade(ts[0]) + seq![44u8] + enc_trades(ts.drop_first())
    }
}

/// One book entry as `quantity@price`.
pub open spec fn enc_entry(o: OrderData) -> Seq<u8> {
    enc_u64(o.quantity as nat) + seq![64u8] + enc_price(o.price as nat)
}

/// Book entries joined by byte 44 (`,`), best price first.
pub open spec fn enc_entries(s: Seq<OrderData>) -> Seq<u8>
    decreases s.len(),
{
    if s.len() == 0 {
        Seq::empty()
    } else if s.len() == 1 {
        enc_entry(s[0])
    } else {
        enc_entry(s[0]) + seq![44u8] + enc_entries(s.drop_first())
    }
}

pub open spec fn tag_of(f: FieldV) -> nat {
    match f {
        FieldV::OrderId(_) => 1,
        FieldV::Side(_) => 2,
        FieldV::Quantity(_) => 3,
        FieldV::Price(_) => 4,
        FieldV::Status(_) => 5,
        FieldV::VolumeAtLimit(_) => 6,
        FieldV::Trades(_) => 7,
        FieldV::Book(_, _) => 8,
        FieldV::MarketPrice(_) => 9,
        FieldV::MarketTrades(_) => 10,
        FieldV::MarketBook(_) => 11,
        FieldV::Reason(_) => 12,
    }
}

pub open spec fn enc_value(f: FieldV) -> Seq<u8> {
    match f {
        FieldV::OrderId(n) => enc_u64(n as nat),
        FieldV::Side(s) => seq![side_byte(s)],
        FieldV::Quantity(n) => enc_u64(n as nat),
        FieldV::Price(p) => enc_price(p as nat),
        FieldV::Status(s) => seq![status_byte(s)],
        FieldV::VolumeAtLimit(p) => enc_price(p as nat),
        FieldV::Trades(ts) => enc_trades(ts),
        FieldV::Book(bids, asks) => enc_entries(bids) + seq![58u8] + enc_entries(asks),
        FieldV::MarketPrice(b) => enc_bool(b),
        FieldV::MarketTrades(b) => enc_bool(b),
        FieldV::MarketBook(b) => enc_bool(b),
        FieldV::Reason(r) => r,
    }
}

pub open spec fn enc_field(f: FieldV) -> Seq<u8> {
    enc_u64(tag_of(f)) + seq![61u8] + enc_value(f)
}

pub open spec fn enc_fields(fs: Seq<FieldV>) -> Seq<u8>
    decreases fs.len(),
{
    if fs.len() == 0 {
        Seq::empty()
    } else {
        seq![124u8] + enc_field(fs[0]) + enc_fields(fs.drop_first())
    }
}

/// The canonical payload of a message: its type code byte, then `|` and
/// one `tag=value` item for each field in order.
pub open spec fn enc_message(m: MessageV) -> Seq<u8> {
    seq![type_byte(m.msg_type)] + enc_fields(m.fields)
}

// ---------------------------------------------------------------------------
// Joining lemmas used by the iterative encoder
// ---------------------------------------------------------------------------

proof fn lemma_enc_trades_snoc(s: Seq<Trade>, t: Trade)
    requires
        s.len() >= 1,
    ensures
        enc_trades(s.push(t)) == enc_trades(s) + seq![44u8] + enc_trade(t),
    decreases s.len(),
{
    assert(s.push(t)[0] == s[0]);
    assert(s.push(t).drop_first() =~= s.drop_first().push(t));
    if s.len() == 1 {
        assert(s.drop_first().push(t) =~= seq![t]);
        assert(enc_trades(seq![t]) == enc_trade(t));
        assert(enc_trades(s.push(t)) =~= enc_trades(s) + seq![44u8] + enc_trade(t));
    } else {
        lemma_enc_trades_snoc(s.drop_first(), t);
        assert(enc_trades(s.push(t)) =~= enc_trades(s) + seq![44u8] + enc_trade(t));
    }
}

proof fn lemma_enc_entries_snoc(s: Seq<OrderData>, o: OrderData)
    requires
        s.len() >= 1,
    ensures
        enc_entries(s.push(o)) == enc_entries(s) + seq![44u8] + enc_entry(o),
    decreases s.len(),
{
    assert(s.push(o)[0] == s[0]);
    assert(s.push(o).drop_first() =~= s.drop_first().push(o));
    if s.len() == 1 {
        assert(s.drop_first().push(o) =~= seq![o]);
        assert(enc_entries(seq![o]) == enc_entry(o));
        assert(enc_entries(s.push(o)) =~= enc_entries(s) + seq![44u8] + enc_entry(o));
    } else {
        lemma_enc_entries_snoc(s.drop_first(), o);
        assert(enc_entries(s.push(o)) =~= enc_entries(s) + seq![44u8] + enc_entry(o));
    }
}

proof fn lemma_enc_fields_snoc(fs: Seq<FieldV>, f: FieldV)
    ensures
        enc_fields(fs.push(f)) == enc_fields(fs) + seq![124u8] + enc_field(f),
    decreases fs.len(),
{
    if fs.len() == 0 {
        assert(fs.push(f)[0] == f);
        assert(fs.push(f).drop_first() =~= Seq::<FieldV>::empty());
        assert(enc_fields(fs.push(f).drop_first()) == Seq::<u8>::empty());
        assert(enc_fields(fs.push(f)) == seq![124u8] + enc_field(f) + Seq::<u8>::empty());
        assert(enc_fields(fs.push(f)) =~= enc_fields(fs) + seq![124u8] + enc_field(f));
    } else {
        assert(fs.push(f)[0] == fs[0]);
        assert(fs.push(f).drop_first() =~= fs.drop_first().push(f));
        lemma_enc_fields_snoc(fs.drop_first(), f);
        assert(enc_fields(fs.push(f)) =~= enc_fields(fs) + seq![124u8] + enc_field(f));
    }
}

// ---------------------------------------------------------------------------
// Executable encoder
// ---------------------------------------------------------------------------

pub(crate) fn push_u64(out: &mut Vec<u8>, n: u64)
    ensures
        final(out)@ == old(out)@ + enc_u64(n as nat),
    decreases n,
{
    if n >= 10 {
        push_u64(out, n / 10);
    }
    out.push(48 + (n % 10) as u8);
    proof {
        assert(out@ =~= old(out)@ + enc_u64(n as nat));
    }
}

pub(crate) fn push_price(out: &mut Vec<u8>, p: u64)
    ensures
        final(out)@ == old(out)@ + enc_price(p as nat),
{
    push_u64(out, p / 100);
    if p % 100 != 0 {
        out.push(46);
        out.push(48 + ((p / 10) % 10) as u8);
        if p % 10 != 0 {
            out.push(48 + (p % 10) as u8);
        }
    }
    proof {
        assert(out@ =~= old(out)@ + enc_price(p as nat));
    }
}

fn push_bool(out: &mut Vec<u8>, b: bool)
    ensures
        final(out)@ == old(out)@ + enc_bool(b),
{
    if b {
        out.push(116);
        out.push(114);
        out.push(117);
        out.push(101);
    } else {
        out.push(102);
        out.push(97);
        out.push(108);
        out.push(115);
        out.push(101);
    }
    proof {
        assert(out@ =~= old(out)@ + enc_bool(b));
    }
}

fn push_trade(out: &mut Vec<u8>, t: &Trade)
    ensures
        final(out)@ == old(out)@ + enc_trade(*t),
{
    push_u64(out, t.quantity);
    out.push(64);
    push_price(out, t.price);
    out.push(64);
    push_u64(out, t.timestamp);
    proof {
        assert(out@ =~= old(out)@ + enc_trade(*t));
    }
}

fn push_trades(out: &mut Vec<u8>, ts: &Vec<Trade>)
    ensures
        final(out)@ == old(out)@ + enc_trades(ts@),
{
    let mut i: usize = 0;
    while i < ts.len()
        invariant
            i <= ts@.len(),
            i == 0 ==> out@ == old(out)@,
            i >= 1 ==> out@ == old(out)@ + enc_trades(ts@.take(i as int)),
        decreases ts@.len() - i,
    {
        if i > 0 {
            out.push(44);
        }
        push_trade(out, &ts[i]);
        proof {
            assert(ts@.take(i + 1 as int) =~= ts@.take(i as int).push(ts@[i as int]));
            if i == 0 {
                assert(ts@.take(1) =~= seq![ts@[0]]);
                assert(enc_trades(seq![ts@[0]]) == enc_trade(ts@[0]));
                assert(out@ =~= old(out)@ + enc_trades(ts@.take(1)));
            } else {
                lemma_enc_trades_snoc(ts@.take(i as int), ts@[i as int]);
                assert(out@ =~= old(out)@ + enc_trades(ts@.take(i + 1 as int)));
            }
        }
        i += 1;
    }
    proof {
        if ts@.len() == 0 {
            assert(out@ =~= old(out)@ + enc_trades(ts@));
        } else {
            assert(ts@.take(ts@.len() as int) =~= ts@);
        }
    }
}

fn push_entries(out: &mut Vec<u8>, s: &Vec<OrderData>)
    ensures
        final(out)@ == old(out)@ + enc_entries(s@),
{
    let mut i: usize = 0;
    while i < s.len()
        invariant
            i <= s@.len(),
            i == 0 ==> out@ == old(out)@,
            i >= 1 ==> out@ == old(out)@ + enc_entries(s@.take(i as int)),
        decreases s@.len() - i,
    {
        if i > 0 {
            out.push(44);
        }
        let o = s[i];
        push_u64(out, o.quantity);
        out.push(64);
        push_price(out, o.price);
        proof {
            assert(s@.take(i + 1 as int) =~= s@.take(i as int).push(s@[i as int]));
            if i == 0 {
                assert(s@.take(1) =~= seq![s@[0]]);
                assert(enc_entries(seq![s@[0]]) == enc_entry(s@[0]));
                assert(out@ =~= old(out)@ + enc_entries(s@.take(1)));
            } else {
                lemma_enc_entries_snoc(s@.take(i as int), s@[i as int]);
                assert(out@ =~= old(out)@ + enc_entries(s@.take(i + 1 as int)));
            }
        }
        i += 1;
    }
    proof {
        if s@.len() == 0 {
            assert(out@ =~= old(out)@ + enc_entries(s@));
        } else {
            assert(s@.take(s@.len() as int) =~= s@);
        }
    }
}

fn push_field(out: &mut Vec<u8>, f: &MessageField)
    ensures
        final(out)@ == old(out)@ + enc_field(f@),
{
    match f {
        MessageField::OrderId(n) => {
            push_u64(out, 1);
            out.push(61);
            push_u64(out, *n);
        },
        MessageField::Side(s) => {
            push_u64(out, 2);
            out.push(61);
            out.push(
                match s {
                    Side::Buy => 66,
                    Side::Sell => 83,
                },
            );
        },
        MessageField::Quantity(n) => {
            push_u64(out, 3);
            out.push(61);
            push_u64(out, *n);
        },
        MessageField::Price(p) => {
            push_u64(out, 4);
            out.push(61);
            push_price(out, *p);
        },
        MessageField::Status(s) => {
            push_u64(out, 5);
            out.push(61);
            out.push(
                match s {
                    OrderStatus::New => 78,
                    OrderStatus::Filled => 70,
                    OrderStatus::Rejected => 82,
                },
            );
        },
        MessageField::VolumeAtLimit(p) => {
            push_u64(out, 6);
            out.push(61);
            push_price(out, *p);
        },
        MessageField::Trades(ts) => {
            push_u64(out, 7);
            out.push(61);
            push_trades(out, ts);
        },
        MessageField::Book(bids, asks) => {
            push_u64(out, 8);
            out.push(61);
            push_entries(out, bids);
            out.push(58);
            push_entries(out, asks);
        },
        MessageField::MarketPrice(b) => {
            push_u64(out, 9);
            out.push(61);
            push_bool(out, *b);
        },
        MessageField::MarketTrades(b) => {
            push_u64(out, 10);
            out.push(61);
            push_bool(out, *b);
        },
        MessageField::MarketBook(b) => {
            push_u64(out, 11);
            out.push(61);
            push_bool(out, *b);
        },
        MessageField::Reason(r) => {
            push_u64(out, 12);
            out.push(61);
            let mut j: usize = 0;
            while j < r.len()
                invariant
                    j <= r@.len(),
                    out@ == old(out)@ + enc_u64(12) + seq![61u8] + r@.take(j as int),
                decreases r@.len() - j,
            {
                out.push(r[j]);
                proof {
                    assert(r@.take(j + 1 as int) =~= r@.take(j as int).push(r@[j as int]));
                    assert(out@ =~= old(out)@ + enc_u64(12) + seq![61u8] + r@.take(j + 1 as int));
                }
                j += 1;
            }
            proof {
                assert(r@.take(r@.len() as int) =~= r@);
            }
        },
    }
    proof {
        assert(out@ =~= old(out)@ + enc_field(f@));
    }
}

/// Encode a message into its canonical payload. Total: every message has
/// an encoding (only well-formed ones decode back, see
/// [`lemma_round_trip`]).
pub fn encode_message(m: &FixMessage) -> (r: Vec<u8>)
    ensures
        r@ == enc_message(m@),
{
    let mut out: Vec<u8> = Vec::new();
    out.push(
        match m.msg_type {
            MessageType::NewOrder => 78,
            MessageType::ExecutionReport => 69,
            MessageType::OrderReplaceRequest => 79,
            MessageType::OrderCancelRequest => 67,
            MessageType::OrderStatusRequest => 83,
            MessageType::MarketDataRequest => 77,
            MessageType::MarketData => 68,
            MessageType::Reject => 82,
        },
    );
    let mut i: usize = 0;
    while i < m.fields.len()
        invariant
            i <= m.fields@.len(),
            m@.fields.len() == m.fields@.len(),
            forall|k: int| 0 <= k < m.fields@.len() ==> m@.fields[k] == #[trigger] m.fields@[k]@,
            out@ == seq![type_byte(m@.msg_type)] + enc_fields(m@.fields.take(i as int)),
        decreases m.fields@.len() - i,
    {
        out.push(124);
        push_field(&mut out, &m.fields[i]);
        proof {
            assert(m@.fields.take(i + 1 as int) =~= m@.fields.take(i as int).push(
                m@.fields[i as int],
            ));
            lemma_enc_fields_snoc(m@.fields.take(i as int), m@.fields[i as int]);
            assert(out@ =~= seq![type_byte(m@.msg_type)] + enc_fields(m@.fields.take(i + 1 as int)));
        }
        i += 1;
    }
    proof {
        assert(m@.fields.take(m.fields@.len() as int) =~= m@.fields);
    }
    out
}

// ---------------------------------------------------------------------------
// Framing: a payload travels behind a four-byte big-endian length prefix,
// written and read in that one byte order on every host.
// ---------------------------------------------------------------------------

/// The four bytes of `n`, most significant first.
pub open spec fn be_bytes(n: u32) -> Seq<u8> {
    seq![
        ((n as int) / 0x1000000) as u8,
        (((n as int) / 0x10000) % 256) as u8,
        (((n as int) / 256) % 256) as u8,
        ((n as int) % 256) as u8,
    ]
}

/// The value the four bytes spell, most significant first.
pub open spec fn be_val(b: Seq<u8>) -> int {
    b[0] * 0x1000000 + b[1] * 0x10000 + b[2] * 256 + b[3]
}

/// The length prefix written before a payload of `n` bytes.
pub fn frame_len_prefix(n: u32) -> (r: Vec<u8>)
    ensures
        r@ == be_bytes(n),
        r@.len() == 4,
{
    let mut v: Vec<u8> = Vec::new();
    v.push((n / 0x1000000) as u8);
    v.push(((n / 0x10000) % 256) as u8);
    v.push(((n / 256) % 256) as u8);
    v.push((n % 256) as u8);
    proof {
        assert(v@ =~= be_bytes(n));
    }
    v
}

/// The payload length a received prefix announces.
pub fn frame_len_value(b: &[u8]) -> (r: u32)
    requires
        b@.len() == 4,
    ensures
        r as int == be_val(b@),
{
    (b[0] as u32) * 0x1000000 + (b[1] as u32) * 0x10000 + (b[2] as u32) * 256 + (b[3] as u32)
}

/// Writing a length and reading it back is the identity, independent of
/// any host byte order.
pub proof fn lemma_frame_len_round_trip(n: u32)
    ensures
        be_val(be_bytes(n)) == n,
{
    vstd::arithmetic::div_mod::lemma_fundamental_div_mod(n as int, 0x1000000);
    vstd::arithmetic::div_mod::lemma_breakdown(n as int, 0x10000, 0x100);
    vstd::arithmetic::div_mod::lemma_breakdown(n as int, 0x100, 0x100);
    vstd::arithmetic::div_mod::lemma_breakdown(n as int, 0x100, 0x10000);
}

// ---------------------------------------------------------------------------
// Executable decoder, equal to the strict parser
// ---------------------------------------------------------------------------

pub(crate) proof fn lemma_val_range_nonneg(s: Seq<u8>, lo: int, hi: int)
    requires
        forall|i: int| lo <= i < hi ==> is_digit(#[trigger] s[i]),
    ensures
        val_range(s, lo, hi) >= 0,
    decreases hi - lo,
{
    if lo < hi {
        lemma_val_range_nonneg(s, lo, hi - 1);
    }
}

pub(crate) proof fn lemma_val_range_monotone(s: Seq<u8>, lo: int, mid: int, hi: int)
    requires
        lo <= mid <= hi,
        forall|i: int| lo <= i < hi ==> is_digit(#[trigger] s[i]),
    ensures
        val_range(s, lo, hi) >= val_range(s, lo, mid),
    decreases hi - mid,
{
    if mid < hi {
        lemma_val_range_monotone(s, lo, mid, hi - 1);
        lemma_val_range_nonneg(s, lo, hi - 1);
    }
}

/// First index in `[lo, hi)` of `data` holding byte `b`, or `hi`.
fn find_b(data: &[u8], lo: usize, hi: usize, b: u8) -> (r: usize)
    requires
        lo <= hi <= data@.len(),
    ensures
        r as int == find_in(data@, lo as int, hi as int, b),
        lo <= r <= hi,
{
    let mut i: usize = lo;
    while i < hi
        invariant
            lo <= i <= hi,
            hi <= data@.len(),
            forall|k: int| lo <= k < i ==> #[trigger] data@[k] != b,
        decreases hi - i,
    {
        if data[i] == b {
            proof {
                lemma_find_in_is(data@, lo as int, hi as int, b, i as int);
            }
            return i;
        }
        i += 1;
    }
    proof {
        lemma_find_in_is(data@, lo as int, hi as int, b, hi as int);
    }
    hi
}

fn parse_u64_seg(data: &[u8], lo: usize, hi: usize) -> (r: Option<u64>)
    requires
        lo <= hi <= data@.len(),
    ensures
        r == parse_u64_range(data@, lo as int, hi as int),
{
    if lo >= hi {
        return None;
    }
    let mut acc: u128 = 0;
    let mut i: usize = lo;
    while i < hi
        invariant
            lo <= i <= hi,
            hi <= data@.len(),
            forall|k: int| lo <= k < i ==> is_digit(#[trigger] data@[k]),
            acc == val_range(data@, lo as int, i as int),
            acc <= u64::MAX,
        decreases hi - i,
    {
        let b = data[i];
        if b < 48 || b > 57 {
            return None;
        }
        acc = acc * 10 + (b - 48) as u128;
        i += 1;
        if acc > u64::MAX as u128 {
            proof {
                if digits_range(data@, lo as int, hi as int) {
                    lemma_val_range_monotone(data@, lo as int, i as int, hi as int);
                }
            }
            return None;
        }
    }
    Some(acc as u64)
}

/// A tag is read in its literal, canonical spelling only.
fn parse_tag_seg(data: &[u8], lo: usize, hi: usize) -> (r: Option<u64>)
    requires
        lo <= hi <= data@.len(),
    ensures
        r == parse_tag_range(data@, lo as int, hi as int),
{
    if lo < hi && data[lo] == 48 && hi - lo > 1 {
        return None;
    }
    parse_u64_seg(data, lo, hi)
}

fn parse_price_seg(data: &[u8], lo: usize, hi: usize) -> (r: Option<u64>)
    requires
        lo <= hi <= data@.len(),
    ensures
        r == parse_price_range(data@, lo as int, hi as int),
{
    let dot = find_b(data, lo, hi, 46);
    if dot == hi {
        // no fractional part: the whole value is units
        let units = match parse_u64_seg(data, lo, hi) {
            Some(u) => u,
            None => {
                return None;
            },
        };
        proof {
            lemma_val_range_nonneg(data@, lo as int, hi as int);
        }
        let v: u128 = units as u128 * 100;
        if v > u64::MAX as u128 {
            return None;
        }
        return Some(v as u64);
    }
    // one or two fractional digits after the dot
    if dot + 1 >= hi || hi - dot > 3 {
        return None;
    }
    let d1 = data[dot + 1];
    if d1 < 48 || d1 > 57 {
        return None;
    }
    let mut frac: u64 = (d1 - 48) as u64 * 10;
    if hi - dot == 3 {
        let d0 = data[dot + 2];
        if d0 < 48 || d0 > 57 {
            return None;
        }
        frac = frac + (d0 - 48) as u64;
    }
    proof {
        assert forall|i: int| dot + 1 <= i < hi implies is_digit(#[trigger] data@[i]) by {}
    }
    let units = match parse_u64_seg(data, lo, dot) {
        Some(u) => u,
        None => {
            return None;
        },
    };
    proof {
        lemma_val_range_nonneg(data@, lo as int, dot as int);
    }
    let v: u128 = units as u128 * 100 + frac as u128;
    if v > u64::MAX as u128 {
        return None;
    }
    Some(v as u64)
}

fn parse_bool_seg(data: &[u8], lo: usize, hi: usize) -> (r: Option<bool>)
    requires
        lo <= hi <= data@.len(),
    ensures
        r == parse_bool_range(data@, lo as int, hi as int),
{
    if hi - lo == 4 && data[lo] == 116 && data[lo + 1] == 114 && data[lo + 2] == 117 && data[lo
        + 3] == 101 {
        Some(true)
    } else if hi - lo == 5 && data[lo] == 102 && data[lo + 1] == 97 && data[lo + 2] == 108
        && data[lo + 3] == 115 && data[lo + 4] == 101 {
        Some(false)
    } else {
        None
    }
}

fn parse_trade_seg(data: &[u8], lo: usize, hi: usize) -> (r: Option<Trade>)
    requires
        lo <= hi <= data@.len(),
    ensures
        r == parse_trade_range(data@, lo as int, hi as int),
{
    let a1 = find_b(data, lo, hi, 64);
    if a1 >= hi {
        return None;
    }
    let a2 = find_b(data, a1 + 1, hi, 64);
    if a2 >= hi {
        return None;
    }
    let q = match parse_u64_seg(data, lo, a1) {
        Some(q) => q,
        None => {
            return None;
        },
    };
    let p = match parse_price_seg(data, a1 + 1, a2) {
        Some(p) => p,
        None => {
            return None;
        },
    };
    let ts = match parse_u64_seg(data, a2 + 1, hi) {
        Some(ts) => ts,
        None => {
            return None;
        },
    };
    Some(Trade { quantity: q, price: p, timestamp: ts })
}

fn parse_trades_seg(data: &[u8], lo: usize, hi: usize) -> (r: Option<Vec<Trade>>)
    requires
        lo <= hi <= data@.len(),
    ensures
        match r {
            Some(v) => parse_trades_range(data@, lo as int, hi as int) == Some(v@),
            None => parse_trades_range(data@, lo as int, hi as int) is None,
        },
    decreases hi - lo,
{
    let c = find_b(data, lo, hi, 44);
    if c == hi {
        match parse_trade_seg(data, lo, hi) {
            Some(t) => {
                let mut v: Vec<Trade> = Vec::new();
                v.push(t);
                proof {
                    assert(v@ =~= seq![t]);
                }
                Some(v)
            },
            None => None,
        }
    } else if c > lo {
        match parse_trade_seg(data, lo, c) {
            Some(t) => {
                match parse_trades_seg(data, c + 1, hi) {
                    Some(rest) => {
                        let ghost rest0 = rest@;
                        let mut v = rest;
                        v.insert(0, t);
                        proof {
                            rest0.insert_ensures(0, t);
                            assert(v@ =~= seq![t] + rest0);
                        }
                        Some(v)
                    },
                    None => None,
                }
            },
            None => None,
        }
    } else {
        None
    }
}

fn parse_entry_seg(data: &[u8], lo: usize, hi: usize, side: Side) -> (r: Option<OrderData>)
    requires
        lo <= hi <= data@.len(),
    ensures
        r == parse_entry_range(data@, lo as int, hi as int, side),
{
    let a1 = find_b(data, lo, hi, 64);
    if a1 >= hi {
        return None;
    }
    let q = match parse_u64_seg(data, lo, a1) {
        Some(q) => q,
        None => {
            return None;
        },
    };
    let p = match parse_price_seg(data, a1 + 1, hi) {
        Some(p) => p,
        None => {
            return None;
        },
    };
    Some(OrderData { id: 0, side, quantity: q, price: p })
}

fn parse_entries_seg(data: &[u8], lo: usize, hi: usize, side: Side) -> (r: Option<Vec<OrderData>>)
    requires
        lo <= hi <= data@.len(),
    ensures
        match r {
            Some(v) => parse_entries_range(data@, lo as int, hi as int, side) == Some(v@),
            None => parse_entries_range(data@, lo as int, hi as int, side) is None,
        },
    decreases hi - lo,
{
    let c = find_b(data, lo, hi, 44);
    if c == hi {
        match parse_entry_seg(data, lo, hi, side) {
            Some(o) => {
                let mut v: Vec<OrderData> = Vec::new();
                v.push(o);
                proof {
                    assert(v@ =~= seq![o]);
                }
                Some(v)
            },
            None => None,
        }
    } else if c > lo {
        match parse_entry_seg(data, lo, c, side) {
            Some(o) => {
                match parse_entries_seg(data, c + 1, hi, side) {
                    Some(rest) => {
                        let ghost rest0 = rest@;
                        let mut v = rest;
                        v.insert(0, o);
                        proof {
                            rest0.insert_ensures(0, o);
                            assert(v@ =~= seq![o] + rest0);
                        }
                        Some(v)
                    },
                    None => None,
                }
            },
            None => None,
        }
    } else {
        None
    }
}

fn parse_value_seg(tag: u64, data: &[u8], lo: usize, hi: usize) -> (r: Option<MessageField>)
    requires
        1 <= tag <= 12,
        lo <= hi <= data@.len(),
    ensures
        match r {
            Some(f) => parse_value_range(tag as nat, data@, lo as int, hi as int) == Some(f@),
            None => parse_value_range(tag as nat, data@, lo as int, hi as int) is None,
        },
{
    if tag == 1 {
        match parse_u64_seg(data, lo, hi) {
            Some(n) => Some(MessageField::OrderId(n)),
            None => None,
        }
    } else if tag == 2 {
        if hi - lo == 1 && data[lo] == 66 {
            Some(MessageField::Side(Side::Buy))
        } else if hi - lo == 1 && data[lo] == 83 {
            Some(MessageField::Side(Side::Sell))
        } else {
            proof {
                assert(parse_side_range(data@, lo as int, hi as int) is None);
            }
            None
        }
    } else if tag == 3 {
        match parse_u64_seg(data, lo, hi) {
            Some(n) => Some(MessageField::Quantity(n)),
            None => None,
        }
    } else if tag == 4 {
        match parse_price_seg(data, lo, hi) {
            Some(p) => Some(MessageField::Price(p)),
            None => None,
        }
    } else if tag == 5 {
        if hi - lo == 1 && data[lo] == 78 {
            Some(MessageField::Status(OrderStatus::New))
        } else if hi - lo == 1 && data[lo] == 70 {
            Some(MessageField::Status(OrderStatus::Filled))
        } else if hi - lo == 1 && data[lo] == 82 {
            Some(MessageField::Status(OrderStatus::Rejected))
        } else {
            proof {
                assert(parse_status_range(data@, lo as int, hi as int) is None);
            }
            None
        }
    } else if tag == 6 {
        match parse_price_seg(data, lo, hi) {
            Some(p) => Some(MessageField::VolumeAtLimit(p)),
            None => None,
        }
    } else if tag == 7 {
        match parse_trades_seg(data, lo, hi) {
            Some(ts) => {
                if ts.len() <= DEPTH {
                    Some(MessageField::Trades(ts))
                } else {
                    None
                }
            },
            None => None,
        }
    } else if tag == 8 {
        let colon = find_b(data, lo, hi, 58);
        if colon >= hi {
            return None;
        }
        let bids = match parse_entries_seg(data, lo, colon, Side::Buy) {
            Some(v) => v,
            None => {
                return None;
            },
        };
        let asks = match parse_entries_seg(data, colon + 1, hi, Side::Sell) {
            Some(v) => v,
            None => {
                return None;
            },
        };
        if bids.len() <= DEPTH && asks.len() <= DEPTH {
            Some(MessageField::Book(bids, asks))
        } else {
            None
        }
    } else if tag == 9 {
        match parse_bool_seg(data, lo, hi) {
            Some(b) => Some(MessageField::MarketPrice(b)),
            None => None,
        }
    } else if tag == 10 {
        match parse_bool_seg(data, lo, hi) {
            Some(b) => Some(MessageField::MarketTrades(b)),
            None => None,
        }
    } else if tag == 11 {
        match parse_bool_seg(data, lo, hi) {
            Some(b) => Some(MessageField::MarketBook(b)),
            None => None,
        }
    } else {
        let mut v: Vec<u8> = Vec::new();
        let mut i: usize = lo;
        while i < hi
            invariant
                tag == 12,
                lo <= i <= hi,
                hi <= data@.len(),
                v@ == data@.subrange(lo as int, i as int),
                forall|k: int| lo <= k < i ==> (#[trigger] data@[k]) != 61 && data@[k] != 124,
            decreases hi - i,
        {
            let b = data[i];
            if b == 61 || b == 124 {
                proof {
                    assert(data@[i as int] == 61 || data@[i as int] == 124);
                    assert(!(forall|k: int|
                        lo as int <= k < hi as int ==> (#[trigger] data@[k]) != 61 && data@[k]
                            != 124));
                }
                return None;
            }
            v.push(b);
            proof {
                assert(data@.subrange(lo as int, i + 1 as int) =~= data@.subrange(
                    lo as int,
                    i as int,
                ).push(data@[i as int]));
            }
            i += 1;
        }
        Some(MessageField::Reason(v))
    }
}

/// Decode a payload. The result is exactly what the strict parser reads:
/// one whole message or nothing, never a partial message. Numeric values
/// may be spelled with leading zeros or shortened decimals; every
/// spelling reads as the same message.
pub fn decode_message(data: &[u8]) -> (r: Option<FixMessage>)
    ensures
        match r {
            Some(m) => dec_message(data@) == Some(m@),
            None => dec_message(data@) is None,
        },
{
    if data.len() == 0 {
        return None;
    }
    let tb = data[0];
    let msg_type = if tb == 78 {
        MessageType::NewOrder
    } else if tb == 69 {
        MessageType::ExecutionReport
    } else if tb == 79 {
        MessageType::OrderReplaceRequest
    } else if tb == 67 {
        MessageType::OrderCancelRequest
    } else if tb == 83 {
        MessageType::OrderStatusRequest
    } else if tb == 77 {
        MessageType::MarketDataRequest
    } else if tb == 68 {
        MessageType::MarketData
    } else if tb == 82 {
        MessageType::Reject
    } else {
        return None;
    };
    let mut fields: Vec<MessageField> = Vec::new();
    let mut pos: usize = 1;
    while pos < data.len()
        invariant
            1 <= pos <= data@.len(),
            msg_type_of(data@[0]) == Some(msg_type),
            match dec_fields(data@, pos as int) {
                Some(fs) => dec_fields(data@, 1) == Some(fields_view(fields@) + fs),
                None => dec_fields(data@, 1) is None,
            },
        decreases data@.len() - pos,
    {
        if data[pos] != 124 {
            return None;
        }
        let e = find_b(data, pos + 1, data.len(), 61);
        if e == data.len() {
            return None;
        }
        let tag = match parse_tag_seg(data, pos + 1, e) {
            Some(t) => t,
            None => {
                return None;
            },
        };
        if tag < 1 || tag > 12 {
            return None;
        }
        let vend = find_b(data, e + 1, data.len(), 124);
        let f = match parse_value_seg(tag, data, e + 1, vend) {
            Some(f) => f,
            None => {
                return None;
            },
        };
        proof {
            assert(dec_field(data@, pos + 1 as int) == Some((f@, vend as int)));
            let ghost fv0 = fields_view(fields@);
            assert(fields_view(fields@.push(f)) =~= fv0.push(f@));
            if dec_fields(data@, vend as int) is Some {
                let fs = dec_fields(data@, vend as int)->Some_0;
                assert(dec_fields(data@, pos as int) == Some(seq![f@] + fs));
                assert(fv0 + (seq![f@] + fs) =~= fv0.push(f@) + fs);
            }
        }
        fields.push(f);
        pos = vend;
    }
    proof {
        assert(dec_fields(data@, pos as int) == Some(Seq::<FieldV>::empty()));
        assert(fields_view(fields@) + Seq::<FieldV>::empty() =~= fields_view(fields@));
    }
    let m = FixMessage { msg_type, fields };
    proof {
        assert(dec_message(data@) matches Some(mv) && mv =~= m@);
    }
    Some(m)
}

} // verus!

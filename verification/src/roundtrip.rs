//! Round-trip of the wire codec: the strict parser reads every canonical
//! encoding of a well-formed message back to exactly that message. Together
//! with the codec contracts this gives `decode(encode(m)) == Some(m)`.

use vstd::prelude::*;

use crate::codec::enc_bool;
use crate::codec::enc_entries;
use crate::codec::enc_entry;
use crate::codec::enc_field;
use crate::codec::enc_fields;
use crate::codec::enc_message;
use crate::codec::enc_price;
use crate::codec::enc_trade;
use crate::codec::enc_trades;
use crate::codec::enc_u64;
use crate::codec::enc_value;
use crate::codec::tag_of;
use crate::codec::type_byte;
use crate::fix::entry_wf;
use crate::fix::field_wf;
use crate::fix::message_wf;
use crate::fix::FieldV;
use crate::fix::MessageV;
use crate::fix::OrderData;
use crate::order::Side;
use crate::order::Trade;
use crate::parse::canon_u64_range;
use crate::parse::digits_range;
use crate::parse::parse_tag_range;
use crate::parse::dec_field;
use crate::parse::dec_fields;
use crate::parse::dec_message;
use crate::parse::find_in;
use crate::parse::is_digit;
use crate::parse::lemma_find_in_is;
use crate::parse::msg_type_of;
use crate::parse::parse_entries_range;
use crate::parse::parse_entry_range;
use crate::parse::parse_price_range;
use crate::parse::parse_trade_range;
use crate::parse::parse_trades_range;
use crate::parse::parse_u64_range;
use crate::parse::parse_value_range;
use crate::parse::val_range;
use crate::DEPTH;

verus! {

/// `t` occupies `s` from `lo` on.
pub open spec fn embeds(s: Seq<u8>, lo: int, t: Seq<u8>) -> bool {
    &&& 0 <= lo
    &&& lo + t.len() <= s.len()
    &&& forall|k: int| 0 <= k < t.len() ==> s[lo + k] == #[trigger] t[k]
}

proof fn lemma_embeds_byte(s: Seq<u8>, lo: int, b: u8)
    requires
        embeds(s, lo, seq![b]),
    ensures
        s[lo] == b,
{
    assert(s[lo] == seq![b][0]);
}

proof fn lemma_embeds_split(s: Seq<u8>, lo: int, a: Seq<u8>, b: Seq<u8>)
    requires
        embeds(s, lo, a + b),
    ensures
        embeds(s, lo, a),
        embeds(s, lo + a.len(), b),
{
    assert forall|k: int| 0 <= k < a.len() implies s[lo + k] == #[trigger] a[k] by {
        assert((a + b)[k] == a[k]);
    }
    assert forall|k: int| 0 <= k < b.len() implies s[lo + a.len() + k] == #[trigger] b[k] by {
        assert((a + b)[a.len() + k] == b[k]);
    }
}

// ---------------------------------------------------------------------------
// Shape of the encodings: lengths, digits, absent delimiter bytes
// ---------------------------------------------------------------------------

pub(crate) proof fn lemma_enc_u64_shape(n: nat)
    ensures
        enc_u64(n).len() >= 1,
        forall|k: int| 0 <= k < enc_u64(n).len() ==> is_digit(#[trigger] enc_u64(n)[k]),
        n == 0 ==> enc_u64(n) == seq![48u8],
        n >= 1 ==> enc_u64(n)[0] != 48,
    decreases n,
{
    if n >= 10 {
        lemma_enc_u64_shape(n / 10);
        assert(enc_u64(n)[0] == enc_u64(n / 10)[0]);
        assert forall|k: int| 0 <= k < enc_u64(n).len() implies is_digit(
            #[trigger] enc_u64(n)[k],
        ) by {
            if k < enc_u64(n / 10).len() {
                assert(enc_u64(n)[k] == enc_u64(n / 10)[k]);
            }
        }
    }
}

pub(crate) proof fn lemma_enc_price_shape(p: nat)
    ensures
        enc_price(p).len() >= 1,
        forall|k: int| 0 <= k < enc_price(p).len() ==> is_digit(#[trigger] enc_price(p)[k])
            || enc_price(p)[k] == 46,
{
    lemma_enc_u64_shape(p / 100);
    let u = enc_u64(p / 100);
    assert forall|k: int| 0 <= k < enc_price(p).len() implies is_digit(#[trigger] enc_price(p)[k])
        || enc_price(p)[k] == 46 by {
        if k < u.len() {
            assert(enc_price(p)[k] == u[k]);
        }
    }
}

proof fn lemma_enc_trade_shape(t: Trade)
    ensures
        enc_trade(t).len() >= 5,
        forall|k: int| 0 <= k < enc_trade(t).len() ==> is_digit(#[trigger] enc_trade(t)[k])
            || enc_trade(t)[k] == 46 || enc_trade(t)[k] == 64,
{
    lemma_enc_u64_shape(t.quantity as nat);
    lemma_enc_price_shape(t.price as nat);
    lemma_enc_u64_shape(t.timestamp as nat);
    let a = enc_u64(t.quantity as nat);
    let b = enc_price(t.price as nat);
    let c = enc_u64(t.timestamp as nat);
    assert forall|k: int| 0 <= k < enc_trade(t).len() implies is_digit(#[trigger] enc_trade(t)[k])
        || enc_trade(t)[k] == 46 || enc_trade(t)[k] == 64 by {
        if k < a.len() {
            assert(enc_trade(t)[k] == a[k]);
        } else if k == a.len() {
            assert(enc_trade(t)[k] == 64);
        } else if k < a.len() + 1 + b.len() {
            assert(enc_trade(t)[k] == b[k - a.len() - 1]);
        } else if k == a.len() + 1 + b.len() {
            assert(enc_trade(t)[k] == 64);
        } else {
            assert(enc_trade(t)[k] == c[k - a.len() - 2 - b.len()]);
        }
    }
}

proof fn lemma_enc_trades_shape(ts: Seq<Trade>)
    ensures
        forall|k: int| 0 <= k < enc_trades(ts).len() ==> is_digit(#[trigger] enc_trades(ts)[k])
            || enc_trades(ts)[k] == 46 || enc_trades(ts)[k] == 64 || enc_trades(ts)[k] == 44,
    decreases ts.len(),
{
    if ts.len() == 1 {
        lemma_enc_trade_shape(ts[0]);
    } else if ts.len() >= 2 {
        lemma_enc_trade_shape(ts[0]);
        lemma_enc_trades_shape(ts.drop_first());
        let a = enc_trade(ts[0]);
        let b = enc_trades(ts.drop_first());
        assert forall|k: int| 0 <= k < enc_trades(ts).len() implies is_digit(
            #[trigger] enc_trades(ts)[k],
        ) || enc_trades(ts)[k] == 46 || enc_trades(ts)[k] == 64 || enc_trades(ts)[k] == 44 by {
            if k < a.len() {
                assert(enc_trades(ts)[k] == a[k]);
            } else if k == a.len() {
                assert(enc_trades(ts)[k] == 44);
            } else {
                assert(enc_trades(ts)[k] == b[k - a.len() - 1]);
            }
        }
    }
}

proof fn lemma_enc_entry_shape(o: OrderData)
    ensures
        enc_entry(o).len() >= 3,
        forall|k: int| 0 <= k < enc_entry(o).len() ==> is_digit(#[trigger] enc_entry(o)[k])
            || enc_entry(o)[k] == 46 || enc_entry(o)[k] == 64,
{
    lemma_enc_u64_shape(o.quantity as nat);
    lemma_enc_price_shape(o.price as nat);
    let a = enc_u64(o.quantity as nat);
    let b = enc_price(o.price as nat);
    assert forall|k: int| 0 <= k < enc_entry(o).len() implies is_digit(#[trigger] enc_entry(o)[k])
        || enc_entry(o)[k] == 46 || enc_entry(o)[k] == 64 by {
        if k < a.len() {
            assert(enc_entry(o)[k] == a[k]);
        } else if k == a.len() {
            assert(enc_entry(o)[k] == 64);
        } else {
            assert(enc_entry(o)[k] == b[k - a.len() - 1]);
        }
    }
}

proof fn lemma_enc_entries_shape(s: Seq<OrderData>)
    ensures
        forall|k: int| 0 <= k < enc_entries(s).len() ==> is_digit(#[trigger] enc_entries(s)[k])
            || enc_entries(s)[k] == 46 || enc_entries(s)[k] == 64 || enc_entries(s)[k] == 44,
    decreases s.len(),
{
    if s.len() == 1 {
        lemma_enc_entry_shape(s[0]);
    } else if s.len() >= 2 {
        lemma_enc_entry_shape(s[0]);
        lemma_enc_entries_shape(s.drop_first());
        let a = enc_entry(s[0]);
        let b = enc_entries(s.drop_first());
        assert forall|k: int| 0 <= k < enc_entries(s).len() implies is_digit(
            #[trigger] enc_entries(s)[k],
        ) || enc_entries(s)[k] == 46 || enc_entries(s)[k] == 64 || enc_entries(s)[k] == 44 by {
            if k < a.len() {
                assert(enc_entries(s)[k] == a[k]);
            } else if k == a.len() {
                assert(enc_entries(s)[k] == 44);
            } else {
                assert(enc_entries(s)[k] == b[k - a.len() - 1]);
            }
        }
    }
}

/// No field value contains the field or tag delimiter bytes.
proof fn lemma_enc_value_no_delim(f: FieldV)
    requires
        field_wf(f),
    ensures
        forall|k: int| 0 <= k < enc_value(f).len() ==> (#[trigger] enc_value(f)[k]) != 124
            && enc_value(f)[k] != 61,
{
    match f {
        FieldV::OrderId(n) => {
            lemma_enc_u64_shape(n as nat);
        },
        FieldV::Side(_) => {},
        FieldV::Quantity(n) => {
            lemma_enc_u64_shape(n as nat);
        },
        FieldV::Price(p) => {
            lemma_enc_price_shape(p as nat);
        },
        FieldV::Status(_) => {},
        FieldV::VolumeAtLimit(p) => {
            lemma_enc_price_shape(p as nat);
        },
        FieldV::Trades(ts) => {
            lemma_enc_trades_shape(ts);
        },
        FieldV::Book(bids, asks) => {
            lemma_enc_entries_shape(bids);
            lemma_enc_entries_shape(asks);
            let a = enc_entries(bids);
            let b = enc_entries(asks);
            assert forall|k: int| 0 <= k < enc_value(f).len() implies (
            #[trigger] enc_value(f)[k]) != 124 && enc_value(f)[k] != 61 by {
                if k < a.len() {
                    assert(enc_value(f)[k] == a[k]);
                } else if k == a.len() {
                    assert(enc_value(f)[k] == 58);
                } else {
                    assert(enc_value(f)[k] == b[k - a.len() - 1]);
                }
            }
        },
        FieldV::MarketPrice(_) => {},
        FieldV::MarketTrades(_) => {},
        FieldV::MarketBook(_) => {},
        FieldV::Reason(_) => {},
    }
}

// ---------------------------------------------------------------------------
// Completeness of the leaf parsers on canonical encodings
// ---------------------------------------------------------------------------

proof fn lemma_val_of_enc(s: Seq<u8>, lo: int, n: nat)
    requires
        embeds(s, lo, enc_u64(n)),
    ensures
        val_range(s, lo, lo + enc_u64(n).len()) == n,
    decreases n,
{
    lemma_enc_u64_shape(n);
    if n < 10 {
        assert(s[lo] == enc_u64(n)[0]);
        assert(val_range(s, lo, lo) == 0);
        assert(val_range(s, lo, lo + 1) == s[lo] - 48);
    } else {
        assert(enc_u64(n) =~= enc_u64(n / 10) + seq![(48 + n % 10) as u8]);
        lemma_embeds_split(s, lo, enc_u64(n / 10), seq![(48 + n % 10) as u8]);
        lemma_val_of_enc(s, lo, n / 10);
        assert(s[lo + enc_u64(n).len() - 1] == enc_u64(n)[enc_u64(n).len() - 1]);
        assert(enc_u64(n)[enc_u64(n).len() - 1] == (48 + n % 10) as u8);
        assert(val_range(s, lo, lo + enc_u64(n).len()) == (n / 10) * 10 + n % 10);
        vstd::arithmetic::div_mod::lemma_fundamental_div_mod(n as int, 10);
    }
}

proof fn lemma_parse_u64_of_enc(s: Seq<u8>, lo: int, n: u64)
    requires
        embeds(s, lo, enc_u64(n as nat)),
    ensures
        parse_u64_range(s, lo, lo + enc_u64(n as nat).len()) == Some(n),
{
    lemma_enc_u64_shape(n as nat);
    lemma_val_of_enc(s, lo, n as nat);
    let hi = lo + enc_u64(n as nat).len();
    assert forall|i: int| lo <= i < hi implies is_digit(#[trigger] s[i]) by {
        assert(s[i] == enc_u64(n as nat)[i - lo]);
    }
    assert(digits_range(s, lo, hi));
}

proof fn lemma_parse_tag_of_enc(s: Seq<u8>, lo: int, n: u64)
    requires
        embeds(s, lo, enc_u64(n as nat)),
        1 <= n,
    ensures
        parse_tag_range(s, lo, lo + enc_u64(n as nat).len()) == Some(n),
{
    lemma_parse_u64_of_enc(s, lo, n);
    lemma_enc_u64_shape(n as nat);
    let hi = lo + enc_u64(n as nat).len();
    assert(s[lo] == enc_u64(n as nat)[0]);
    assert(canon_u64_range(s, lo, hi));
}

proof fn lemma_parse_price_of_enc(s: Seq<u8>, lo: int, p: u64)
    requires
        embeds(s, lo, enc_price(p as nat)),
    ensures
        parse_price_range(s, lo, lo + enc_price(p as nat).len()) == Some(p),
{
    let u = enc_u64((p as nat) / 100);
    lemma_enc_u64_shape((p as nat) / 100);
    let hi = lo + enc_price(p as nat).len();
    vstd::arithmetic::div_mod::lemma_fundamental_div_mod(p as int, 100);
    if p % 100 == 0 {
        // whole units: no dot anywhere in the value
        assert forall|i: int| lo <= i < hi implies #[trigger] s[i] != 46 && is_digit(s[i]) by {
            assert(s[i] == enc_price(p as nat)[i - lo]);
        }
        lemma_find_in_is(s, lo, hi, 46, hi);
        lemma_parse_u64_of_enc(s, lo, (p / 100) as u64);
        lemma_val_of_enc(s, lo, (p as nat) / 100);
    } else if p % 10 == 0 {
        let tail = seq![46u8, (48 + ((p as nat) / 10) % 10) as u8];
        assert(enc_price(p as nat) =~= u + tail);
        lemma_embeds_split(s, lo, u, tail);
        let dot = lo + u.len();
        assert forall|i: int| lo <= i < dot implies #[trigger] s[i] != 46 by {
            assert(s[i] == u[i - lo]);
        }
        assert(s[dot] == tail[0]);
        lemma_find_in_is(s, lo, hi, 46, dot);
        assert(s[dot + 1] == tail[1]);
        lemma_parse_u64_of_enc(s, lo, (p / 100) as u64);
        lemma_val_of_enc(s, lo, (p as nat) / 100);
        assert(((p as int) / 10) % 10 * 10 == (p as int) % 100) by (nonlinear_arith)
            requires
                (p as int) % 10 == 0,
                p as int >= 0,
        ;
    } else {
        let tail = seq![46u8, (48 + ((p as nat) / 10) % 10) as u8, (48 + (p as nat) % 10) as u8];
        assert(enc_price(p as nat) =~= u + tail);
        lemma_embeds_split(s, lo, u, tail);
        let dot = lo + u.len();
        assert forall|i: int| lo <= i < dot implies #[trigger] s[i] != 46 by {
            assert(s[i] == u[i - lo]);
        }
        assert(s[dot] == tail[0]);
        lemma_find_in_is(s, lo, hi, 46, dot);
        assert(s[dot + 1] == tail[1]);
        assert(s[dot + 2] == tail[2]);
        lemma_parse_u64_of_enc(s, lo, (p / 100) as u64);
        lemma_val_of_enc(s, lo, (p as nat) / 100);
        assert(((p as int) / 10) % 10 * 10 + (p as int) % 10 == (p as int) % 100)
            by (nonlinear_arith)
            requires
                p as int >= 0,
        ;
    }
}

proof fn lemma_parse_trade_of_enc(s: Seq<u8>, lo: int, t: Trade)
    requires
        embeds(s, lo, enc_trade(t)),
    ensures
        parse_trade_range(s, lo, lo + enc_trade(t).len()) == Some(t),
{
    let a = enc_u64(t.quantity as nat);
    let b = enc_price(t.price as nat);
    let c = enc_u64(t.timestamp as nat);
    let hi = lo + enc_trade(t).len();
    lemma_enc_u64_shape(t.quantity as nat);
    lemma_enc_price_shape(t.price as nat);
    lemma_enc_u64_shape(t.timestamp as nat);
    assert(enc_trade(t) =~= a + (seq![64u8] + b + seq![64u8] + c));
    lemma_embeds_split(s, lo, a, seq![64u8] + b + seq![64u8] + c);
    assert(seq![64u8] + b + seq![64u8] + c =~= seq![64u8] + (b + seq![64u8] + c));
    lemma_embeds_split(s, lo + a.len(), seq![64u8], b + seq![64u8] + c);
    assert(b + seq![64u8] + c =~= b + (seq![64u8] + c));
    lemma_embeds_split(s, lo + a.len() + 1, b, seq![64u8] + c);
    lemma_embeds_split(s, lo + a.len() + 1 + b.len(), seq![64u8], c);
    // positions of the two separators
    let a1 = lo + a.len();
    let a2 = lo + a.len() + 1 + b.len();
    assert forall|i: int| lo <= i < a1 implies #[trigger] s[i] != 64 by {
        assert(s[i] == a[i - lo]);
    }
    lemma_embeds_byte(s, a1, 64);
    lemma_find_in_is(s, lo, hi, 64, a1);
    assert forall|i: int| a1 + 1 <= i < a2 implies #[trigger] s[i] != 64 by {
        assert(s[i] == b[i - a1 - 1]);
    }
    lemma_embeds_byte(s, a2, 64);
    lemma_find_in_is(s, a1 + 1, hi, 64, a2);
    lemma_parse_u64_of_enc(s, lo, t.quantity);
    lemma_parse_price_of_enc(s, a1 + 1, t.price);
    lemma_parse_u64_of_enc(s, a2 + 1, t.timestamp);
}

proof fn lemma_parse_trades_of_enc(s: Seq<u8>, lo: int, ts: Seq<Trade>)
    requires
        1 <= ts.len(),
        embeds(s, lo, enc_trades(ts)),
    ensures
        parse_trades_range(s, lo, lo + enc_trades(ts).len()) == Some(ts),
    decreases ts.len(),
{
    let hi = lo + enc_trades(ts).len();
    lemma_enc_trade_shape(ts[0]);
    if ts.len() == 1 {
        assert forall|i: int| lo <= i < hi implies #[trigger] s[i] != 44 by {
            assert(s[i] == enc_trade(ts[0])[i - lo]);
        }
        lemma_find_in_is(s, lo, hi, 44, hi);
        lemma_parse_trade_of_enc(s, lo, ts[0]);
        assert(seq![ts[0]] =~= ts);
    } else {
        let a = enc_trade(ts[0]);
        let rest = enc_trades(ts.drop_first());
        assert(enc_trades(ts) =~= a + (seq![44u8] + rest));
        lemma_embeds_split(s, lo, a, seq![44u8] + rest);
        lemma_embeds_split(s, lo + a.len(), seq![44u8], rest);
        let c = lo + a.len();
        assert forall|i: int| lo <= i < c implies #[trigger] s[i] != 44 by {
            assert(s[i] == a[i - lo]);
        }
        lemma_embeds_byte(s, c, 44);
        lemma_find_in_is(s, lo, hi, 44, c);
        lemma_parse_trade_of_enc(s, lo, ts[0]);
        lemma_parse_trades_of_enc(s, c + 1, ts.drop_first());
        assert(seq![ts[0]] + ts.drop_first() =~= ts);
    }
}

proof fn lemma_parse_entry_of_enc(s: Seq<u8>, lo: int, o: OrderData, side: Side)
    requires
        entry_wf(o, side),
        embeds(s, lo, enc_entry(o)),
    ensures
        parse_entry_range(s, lo, lo + enc_entry(o).len(), side) == Some(o),
{
    let a = enc_u64(o.quantity as nat);
    let b = enc_price(o.price as nat);
    let hi = lo + enc_entry(o).len();
    lemma_enc_u64_shape(o.quantity as nat);
    assert(enc_entry(o) =~= a + (seq![64u8] + b));
    lemma_embeds_split(s, lo, a, seq![64u8] + b);
    lemma_embeds_split(s, lo + a.len(), seq![64u8], b);
    let a1 = lo + a.len();
    assert forall|i: int| lo <= i < a1 implies #[trigger] s[i] != 64 by {
        assert(s[i] == a[i - lo]);
    }
    lemma_embeds_byte(s, a1, 64);
    lemma_find_in_is(s, lo, hi, 64, a1);
    lemma_parse_u64_of_enc(s, lo, o.quantity);
    lemma_parse_price_of_enc(s, a1 + 1, o.price);
}

proof fn lemma_parse_entries_of_enc(s: Seq<u8>, lo: int, os: Seq<OrderData>, side: Side)
    requires
        1 <= os.len(),
        forall|i: int| 0 <= i < os.len() ==> entry_wf(#[trigger] os[i], side),
        embeds(s, lo, enc_entries(os)),
    ensures
        parse_entries_range(s, lo, lo + enc_entries(os).len(), side) == Some(os),
    decreases os.len(),
{
    let hi = lo + enc_entries(os).len();
    lemma_enc_entry_shape(os[0]);
    if os.len() == 1 {
        assert forall|i: int| lo <= i < hi implies #[trigger] s[i] != 44 by {
            assert(s[i] == enc_entry(os[0])[i - lo]);
        }
        lemma_find_in_is(s, lo, hi, 44, hi);
        lemma_parse_entry_of_enc(s, lo, os[0], side);
        assert(seq![os[0]] =~= os);
    } else {
        let a = enc_entry(os[0]);
        let rest = enc_entries(os.drop_first());
        assert(enc_entries(os) =~= a + (seq![44u8] + rest));
        lemma_embeds_split(s, lo, a, seq![44u8] + rest);
        lemma_embeds_split(s, lo + a.len(), seq![44u8], rest);
        let c = lo + a.len();
        assert forall|i: int| lo <= i < c implies #[trigger] s[i] != 44 by {
            assert(s[i] == a[i - lo]);
        }
        lemma_embeds_byte(s, c, 44);
        lemma_find_in_is(s, lo, hi, 44, c);
        lemma_parse_entry_of_enc(s, lo, os[0], side);
        lemma_parse_entries_of_enc(s, c + 1, os.drop_first(), side);
        assert(seq![os[0]] + os.drop_first() =~= os);
    }
}

proof fn lemma_parse_value_of_enc(s: Seq<u8>, lo: int, f: FieldV)
    requires
        field_wf(f),
        embeds(s, lo, enc_value(f)),
    ensures
        parse_value_range(tag_of(f), s, lo, lo + enc_value(f).len()) == Some(f),
{
    let hi = lo + enc_value(f).len();
    match f {
        FieldV::OrderId(n) => {
            lemma_parse_u64_of_enc(s, lo, n);
        },
        FieldV::Side(sd) => {
            assert(s[lo] == enc_value(f)[0]);
        },
        FieldV::Quantity(n) => {
            lemma_parse_u64_of_enc(s, lo, n);
        },
        FieldV::Price(p) => {
            lemma_parse_price_of_enc(s, lo, p);
        },
        FieldV::Status(st) => {
            assert(s[lo] == enc_value(f)[0]);
        },
        FieldV::VolumeAtLimit(p) => {
            lemma_parse_price_of_enc(s, lo, p);
        },
        FieldV::Trades(ts) => {
            lemma_parse_trades_of_enc(s, lo, ts);
        },
        FieldV::Book(bids, asks) => {
            let a = enc_entries(bids);
            let b = enc_entries(asks);
            assert(enc_value(f) =~= a + (seq![58u8] + b));
            lemma_embeds_split(s, lo, a, seq![58u8] + b);
            lemma_embeds_split(s, lo + a.len(), seq![58u8], b);
            let colon = lo + a.len();
            lemma_enc_entries_shape(bids);
            assert forall|i: int| lo <= i < colon implies #[trigger] s[i] != 58 by {
                assert(s[i] == a[i - lo]);
            }
            lemma_embeds_byte(s, colon, 58);
            lemma_find_in_is(s, lo, hi, 58, colon);
            lemma_parse_entries_of_enc(s, lo, bids, Side::Buy);
            lemma_parse_entries_of_enc(s, colon + 1, asks, Side::Sell);
        },
        FieldV::MarketPrice(b) => {
            assert forall|k: int| 0 <= k < enc_bool(b).len() implies s[lo + k] == #[trigger] enc_bool(
                b,
            )[k] by {}
        },
        FieldV::MarketTrades(b) => {
            assert forall|k: int| 0 <= k < enc_bool(b).len() implies s[lo + k]
                == #[trigger] enc_bool(b)[k] by {}
        },
        FieldV::MarketBook(b) => {
            assert forall|k: int| 0 <= k < enc_bool(b).len() implies s[lo + k]
                == #[trigger] enc_bool(b)[k] by {}
        },
        FieldV::Reason(r) => {
            assert forall|i: int| lo <= i < hi implies (#[trigger] s[i]) != 61 && s[i] != 124 by {
                assert(s[i] == r[i - lo]);
            }
            assert(s.subrange(lo, hi) =~= r);
        },
    }
}

proof fn lemma_dec_field_of_enc(s: Seq<u8>, pos: int, f: FieldV)
    requires
        field_wf(f),
        embeds(s, pos, enc_field(f)),
        pos + enc_field(f).len() == s.len() || s[pos + enc_field(f).len()] == 124,
    ensures
        dec_field(s, pos) == Some((f, pos + enc_field(f).len())),
{
    let tagseq = enc_u64(tag_of(f));
    let v = enc_value(f);
    let flen = enc_field(f).len();
    lemma_enc_u64_shape(tag_of(f));
    lemma_enc_value_no_delim(f);
    assert(enc_field(f) =~= tagseq + (seq![61u8] + v));
    lemma_embeds_split(s, pos, tagseq, seq![61u8] + v);
    lemma_embeds_split(s, pos + tagseq.len(), seq![61u8], v);
    let e = pos + tagseq.len();
    assert forall|i: int| pos <= i < e implies #[trigger] s[i] != 61 by {
        assert(s[i] == tagseq[i - pos]);
    }
    lemma_embeds_byte(s, e, 61);
    lemma_find_in_is(s, pos, s.len() as int, 61, e);
    assert(1 <= tag_of(f) <= 12);
    lemma_parse_tag_of_enc(s, pos, tag_of(f) as u64);
    let vend = e + 1 + v.len();
    assert forall|i: int| e + 1 <= i < vend implies #[trigger] s[i] != 124 by {
        assert(s[i] == v[i - e - 1]);
    }
    assert(vend == pos + flen);
    lemma_find_in_is(s, e + 1, s.len() as int, 124, vend);
    lemma_parse_value_of_enc(s, e + 1, f);
}

proof fn lemma_dec_fields_of_enc(s: Seq<u8>, pos: int, fs: Seq<FieldV>)
    requires
        forall|i: int| 0 <= i < fs.len() ==> field_wf(#[trigger] fs[i]),
        embeds(s, pos, enc_fields(fs)),
        pos + enc_fields(fs).len() == s.len(),
    ensures
        dec_fields(s, pos) == Some(fs),
    decreases fs.len(),
{
    if fs.len() == 0 {
        assert(fs =~= Seq::<FieldV>::empty());
    } else {
        let f0 = fs[0];
        let fhead = enc_field(f0);
        let frest = enc_fields(fs.drop_first());
        assert(enc_fields(fs) =~= seq![124u8] + (fhead + frest));
        lemma_embeds_split(s, pos, seq![124u8], fhead + frest);
        lemma_embeds_split(s, pos + 1, fhead, frest);
        lemma_embeds_byte(s, pos, 124);
        let end = pos + 1 + fhead.len();
        if fs.len() == 1 {
            assert(frest.len() == 0);
            assert(end == s.len());
        } else {
            assert(frest == seq![124u8] + enc_field(fs.drop_first()[0]) + enc_fields(
                fs.drop_first().drop_first(),
            ));
            assert(s[end] == frest[0]);
        }
        lemma_dec_field_of_enc(s, pos + 1, f0);
        lemma_enc_u64_shape(tag_of(f0));
        lemma_dec_fields_of_enc(s, end, fs.drop_first());
        assert(seq![f0] + fs.drop_first() =~= fs);
    }
}

/// Round trip of the codec: decoding the canonical payload of any
/// well-formed message yields exactly that message.
pub proof fn lemma_round_trip(m: MessageV)
    requires
        message_wf(m),
    ensures
        dec_message(enc_message(m)) == Some(m),
{
    let s = enc_message(m);
    assert(s[0] == type_byte(m.msg_type));
    assert(msg_type_of(type_byte(m.msg_type)) == Some(m.msg_type));
    lemma_embeds_split(s, 0, seq![type_byte(m.msg_type)], enc_fields(m.fields));
    assert(s =~= seq![type_byte(m.msg_type)] + enc_fields(m.fields));
    lemma_dec_fields_of_enc(s, 1, m.fields);
    assert(dec_message(s) matches Some(mv) && mv =~= m);
}

/// The canonical encoding is one-to-one on well-formed messages.
pub proof fn lemma_enc_injective(m1: MessageV, m2: MessageV)
    requires
        message_wf(m1),
        message_wf(m2),
        enc_message(m1) == enc_message(m2),
    ensures
        m1 == m2,
{
    lemma_round_trip(m1);
    lemma_round_trip(m2);
}

// ---------------------------------------------------------------------------
// Decoded messages are well formed: list fields keep their bounds, book
// entries carry no id or stray side, and a reason avoids the delimiters
// ---------------------------------------------------------------------------

proof fn lemma_parse_trades_wf(s: Seq<u8>, lo: int, hi: int, ts: Seq<Trade>)
    requires
        parse_trades_range(s, lo, hi) == Some(ts),
    ensures
        ts.len() >= 1,
{
    let c = find_in(s, lo, hi, 44);
    if c == hi {
        let t = parse_trade_range(s, lo, hi)->Some_0;
        assert(ts == seq![t]);
    } else {
        let t = parse_trade_range(s, lo, c)->Some_0;
        let rest = parse_trades_range(s, c + 1, hi)->Some_0;
        assert(ts == seq![t] + rest);
    }
}

proof fn lemma_parse_entries_wf(s: Seq<u8>, lo: int, hi: int, os: Seq<OrderData>, side: Side)
    requires
        parse_entries_range(s, lo, hi, side) == Some(os),
    ensures
        os.len() >= 1,
        forall|i: int| 0 <= i < os.len() ==> entry_wf(#[trigger] os[i], side),
    decreases hi - lo,
{
    let c = find_in(s, lo, hi, 44);
    if c == hi {
        let o = parse_entry_range(s, lo, hi, side)->Some_0;
        assert(os == seq![o]);
        assert(entry_wf(o, side));
    } else {
        let o = parse_entry_range(s, lo, c, side)->Some_0;
        let rest = parse_entries_range(s, c + 1, hi, side)->Some_0;
        lemma_parse_entries_wf(s, c + 1, hi, rest, side);
        assert(os == seq![o] + rest);
        assert(entry_wf(o, side));
        assert forall|i: int| 0 <= i < os.len() implies entry_wf(#[trigger] os[i], side) by {
            if i > 0 {
                assert(os[i] == rest[i - 1]);
            }
        }
    }
}

proof fn lemma_parse_value_wf(tag: nat, s: Seq<u8>, lo: int, hi: int, f: FieldV)
    requires
        parse_value_range(tag, s, lo, hi) == Some(f),
    ensures
        field_wf(f),
{
    if tag == 7 {
        let ts = parse_trades_range(s, lo, hi)->Some_0;
        lemma_parse_trades_wf(s, lo, hi, ts);
    } else if tag == 8 {
        let colon = find_in(s, lo, hi, 58);
        let bids = parse_entries_range(s, lo, colon, Side::Buy)->Some_0;
        let asks = parse_entries_range(s, colon + 1, hi, Side::Sell)->Some_0;
        lemma_parse_entries_wf(s, lo, colon, bids, Side::Buy);
        lemma_parse_entries_wf(s, colon + 1, hi, asks, Side::Sell);
    } else if tag == 12 {
        let r = s.subrange(lo, hi);
        assert forall|i: int| 0 <= i < r.len() implies (#[trigger] r[i]) != 124 && r[i] != 61 by {
            assert(r[i] == s[lo + i]);
        }
    }
}

proof fn lemma_dec_fields_wf(s: Seq<u8>, pos: int, fs: Seq<FieldV>)
    requires
        0 <= pos <= s.len(),
        dec_fields(s, pos) == Some(fs),
    ensures
        forall|i: int| 0 <= i < fs.len() ==> field_wf(#[trigger] fs[i]),
    decreases s.len() - pos,
{
    if pos < s.len() {
        let (f, end) = dec_field(s, pos + 1)->Some_0;
        let rest = dec_fields(s, end)->Some_0;
        let e = find_in(s, pos + 1, s.len() as int, 61);
        let tag = parse_tag_range(s, pos + 1, e)->Some_0;
        let vend = find_in(s, e + 1, s.len() as int, 124);
        lemma_parse_value_wf(tag as nat, s, e + 1, vend, f);
        lemma_dec_fields_wf(s, end, rest);
        assert(fs == seq![f] + rest);
        assert forall|i: int| 0 <= i < fs.len() implies field_wf(#[trigger] fs[i]) by {
            if i > 0 {
                assert(fs[i] == rest[i - 1]);
            }
        }
    }
}

/// Every message the decoder returns is well formed, so it can travel
/// again: its own encoding decodes back to it by [`lemma_round_trip`].
pub proof fn lemma_dec_message_wf(s: Seq<u8>, m: MessageV)
    requires
        dec_message(s) == Some(m),
    ensures
        message_wf(m),
{
    lemma_dec_fields_wf(s, 1, m.fields);
}

} // verus!

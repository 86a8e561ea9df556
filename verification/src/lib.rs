//! Core of a single-instrument trading venue: a limit order book with
//! price-time-priority matching, an engine that sequences order lifecycle
//! operations and records trade history, and the length-framed tag-value
//! wire codec used to exchange order instructions and market data.
//!
//! Prices are held as integers in hundredths of the quote unit (every price
//! is normalized to two decimal places at the boundary), so all book and
//! engine arithmetic is exact.

use vstd::prelude::*;

mod book;
mod codec;
mod dispatch;
mod engine;
mod errors;
mod fix;
mod level_book;
mod order;
mod parse;
mod roundtrip;
mod vector_book;

pub use book::book_wf;
pub use book::crossable;
pub use book::lemma_best_ask_is_min;
pub use book::lemma_best_bid_is_max;
pub use book::OrderBook;
pub use codec::decode_message;
pub use codec::enc_message;
pub use codec::encode_message;
pub use codec::frame_len_prefix;
pub use codec::frame_len_value;
pub use codec::lemma_frame_len_round_trip;
pub use dispatch::dispatch;
pub use engine::lemma_ids_never_reused;
pub use engine::parse_side;
pub use engine::Engine;
pub use errors::VenueError;
pub use fix::message_wf;
pub use fix::FixMessage;
pub use fix::MessageField;
pub use fix::MessageType;
pub use fix::OrderData;
pub use level_book::LevelOrderBook;
pub use order::Order;
pub use order::OrderStatus;
pub use order::Side;
pub use order::Trade;
pub use parse::dec_message;
pub use parse::lemma_malformed_field_refused;
pub use parse::lemma_unknown_type_refused;
pub use roundtrip::lemma_dec_message_wf;
pub use roundtrip::lemma_enc_injective;
pub use roundtrip::lemma_round_trip;
pub use vector_book::VectorOrderBook;

verus! {

/// Number of price levels / entries reported in a book snapshot, and the
/// number of trades kept visible in recent history.
pub const DEPTH: usize = 10;

} // verus!

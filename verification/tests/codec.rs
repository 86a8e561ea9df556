use venue_core::decode_message;
use venue_core::encode_message;
use venue_core::frame_len_prefix;
use venue_core::frame_len_value;
use venue_core::FixMessage;
use venue_core::MessageField;
use venue_core::MessageType;
use venue_core::OrderData;
use venue_core::Side;
use venue_core::OrderStatus;
use venue_core::Trade;

fn round_trips(m: FixMessage) {
    let bytes = encode_message(&m);
    let back = decode_message(&bytes).expect("a well-formed message decodes");
    assert_eq!(back, m);
}

#[test]
fn encode_exact_bytes() {
    let m = FixMessage {
        msg_type: MessageType::NewOrder,
        fields: vec![
            MessageField::Side(Side::Buy),
            MessageField::Quantity(50),
            MessageField::Price(10000),
        ],
    };
    assert_eq!(encode_message(&m), b"N|2=B|3=50|4=100".to_vec());
    let whole = FixMessage {
        msg_type: MessageType::NewOrder,
        fields: vec![
            MessageField::Side(Side::Buy),
            MessageField::Quantity(100),
            MessageField::Price(9900),
        ],
    };
    assert_eq!(encode_message(&whole), b"N|2=B|3=100|4=99".to_vec());
    let m2 = FixMessage {
        msg_type: MessageType::NewOrder,
        fields: vec![
            MessageField::Side(Side::Sell),
            MessageField::Quantity(7),
            MessageField::Price(9950),
        ],
    };
    // shortest decimal form on the wire: 99.5, not 99.50
    assert_eq!(encode_message(&m2), b"N|2=S|3=7|4=99.5".to_vec());
    let m3 = FixMessage {
        msg_type: MessageType::NewOrder,
        fields: vec![MessageField::Price(12345)],
    };
    assert_eq!(encode_message(&m3), b"N|4=123.45".to_vec());
    let r = FixMessage {
        msg_type: MessageType::Reject,
        fields: vec![MessageField::Reason(b"Order not found".to_vec())],
    };
    assert_eq!(encode_message(&r), b"R|12=Order not found".to_vec());
}

#[test]
fn round_trip_every_message_type() {
    round_trips(FixMessage {
        msg_type: MessageType::NewOrder,
        fields: vec![
            MessageField::Side(Side::Buy),
            MessageField::Quantity(100),
            MessageField::Price(9950),
        ],
    });
    round_trips(FixMessage {
        msg_type: MessageType::ExecutionReport,
        fields: vec![MessageField::OrderId(7), MessageField::Status(OrderStatus::New)],
    });
    round_trips(FixMessage {
        msg_type: MessageType::OrderReplaceRequest,
        fields: vec![
            MessageField::OrderId(3),
            MessageField::Quantity(25),
            MessageField::Price(101),
        ],
    });
    round_trips(FixMessage {
        msg_type: MessageType::OrderCancelRequest,
        fields: vec![MessageField::OrderId(u64::MAX)],
    });
    round_trips(FixMessage {
        msg_type: MessageType::OrderStatusRequest,
        fields: vec![MessageField::OrderId(1)],
    });
    round_trips(FixMessage {
        msg_type: MessageType::MarketDataRequest,
        fields: vec![
            MessageField::VolumeAtLimit(10000),
            MessageField::MarketPrice(true),
            MessageField::MarketTrades(false),
            MessageField::MarketBook(true),
        ],
    });
    round_trips(FixMessage { msg_type: MessageType::MarketData, fields: vec![] });
    round_trips(FixMessage {
        msg_type: MessageType::Reject,
        fields: vec![MessageField::Reason(b"no reason at all".to_vec())],
    });
}

#[test]
fn round_trip_trades_and_book() {
    let trades = vec![
        Trade { quantity: 50, price: 9900, timestamp: 1700000000 },
        Trade { quantity: 7, price: 10050, timestamp: 1700000001 },
        Trade { quantity: 0, price: 0, timestamp: 0 },
    ];
    round_trips(FixMessage {
        msg_type: MessageType::MarketData,
        fields: vec![MessageField::Trades(trades)],
    });
    let bid = |quantity: u64, price: u64| OrderData { id: 0, side: Side::Buy, quantity, price };
    let ask = |quantity: u64, price: u64| OrderData { id: 0, side: Side::Sell, quantity, price };
    round_trips(FixMessage {
        msg_type: MessageType::MarketData,
        fields: vec![
            MessageField::Book(
                vec![bid(50, 10000), bid(20, 9900), bid(0, 0)],
                vec![ask(30, 10100), ask(0, 0)],
            ),
        ],
    });
    // every status value survives
    for st in [OrderStatus::New, OrderStatus::Filled, OrderStatus::Rejected] {
        round_trips(FixMessage {
            msg_type: MessageType::ExecutionReport,
            fields: vec![MessageField::OrderId(9), MessageField::Status(st)],
        });
    }
    for b in [true, false] {
        round_trips(FixMessage {
            msg_type: MessageType::MarketDataRequest,
            fields: vec![MessageField::MarketTrades(b)],
        });
    }
}

#[test]
fn decode_rejects_malformed() {
    // empty payload
    assert_eq!(decode_message(b""), None);
    // unknown type code
    assert_eq!(decode_message(b"X|1=5"), None);
    // unknown tag aborts the whole message
    assert_eq!(decode_message(b"N|13=5"), None);
    assert_eq!(decode_message(b"N|0=5"), None);
    // a field needs exactly one `=`
    assert_eq!(decode_message(b"N|1"), None);
    assert_eq!(decode_message(b"N|1=2=3"), None);
    // values must parse as their expected type
    assert_eq!(decode_message(b"N|1=abc"), None);
    assert_eq!(decode_message(b"N|2=X"), None);
    assert_eq!(decode_message(b"N|4=1.234"), None);
    assert_eq!(decode_message(b"N|4=1."), None);
    assert_eq!(decode_message(b"N|4=.5"), None);
    assert_eq!(decode_message(b"N|9=yes"), None);
    // values must fit
    assert_eq!(decode_message(b"N|1=18446744073709551616"), None);
    // but the largest id is fine
    assert!(decode_message(b"N|1=18446744073709551615").is_some());
    // tags are matched literally: a zero-padded tag is unknown
    assert_eq!(decode_message(b"N|01=5"), None);
    // a well-formed prefix does not excuse a bad later field
    assert_eq!(decode_message(b"E|1=5|13=1"), None);
}

#[test]
fn decode_tolerates_numeric_spellings() {
    // a price may carry zero, one or two fractional digits
    let whole = decode_message(b"N|2=B|3=100|4=99").unwrap();
    assert_eq!(
        whole.fields,
        vec![
            MessageField::Side(Side::Buy),
            MessageField::Quantity(100),
            MessageField::Price(9900),
        ]
    );
    let one = decode_message(b"N|4=99.5").unwrap();
    assert_eq!(one.fields, vec![MessageField::Price(9950)]);
    let two = decode_message(b"N|4=99.50").unwrap();
    assert_eq!(two.fields, vec![MessageField::Price(9950)]);
    // integers tolerate leading zeros
    let padded = decode_message(b"N|1=007").unwrap();
    assert_eq!(padded.fields, vec![MessageField::OrderId(7)]);
    let zeros = decode_message(b"N|4=099.50").unwrap();
    assert_eq!(zeros.fields, vec![MessageField::Price(9950)]);
    // book entries take the same latitude
    let book = decode_message(b"D|8=50@99:25@101.5").unwrap();
    match &book.fields[0] {
        MessageField::Book(bids, asks) => {
            assert_eq!(bids[0].quantity, 50);
            assert_eq!(bids[0].price, 9900);
            assert_eq!(asks[0].quantity, 25);
            assert_eq!(asks[0].price, 10150);
        },
        other => panic!("expected a book field, got {:?}", other),
    }
    // every spelling re-encodes in the shortest form
    let m = decode_message(b"M|6=100.50|9=true").unwrap();
    assert_eq!(m.fields, vec![MessageField::VolumeAtLimit(10050), MessageField::MarketPrice(true)]);
    assert_eq!(encode_message(&m), b"M|6=100.5|9=true".to_vec());
}

#[test]
fn decode_is_strict_about_lists() {
    // eleven trades exceed the history depth
    let mut payload = b"D|7=".to_vec();
    let entries: Vec<String> = (0..11).map(|i| format!("{}@1.00@5", i + 1)).collect();
    payload.extend_from_slice(entries.join(",").as_bytes());
    assert_eq!(decode_message(&payload), None);
    // an empty trade list is not a list
    assert_eq!(decode_message(b"D|7="), None);
    // a book needs both sides
    assert_eq!(decode_message(b"D|8=1@1.00"), None);
    assert_eq!(decode_message(b"D|8=1@1.00:"), None);
}

#[test]
fn decoded_messages_travel_again() {
    // whatever decodes is well formed, so it survives another trip
    let m = decode_message(b"E|1=007|5=F").unwrap();
    assert_eq!(
        m.fields,
        vec![MessageField::OrderId(7), MessageField::Status(OrderStatus::Filled)]
    );
    let again = decode_message(&encode_message(&m)).unwrap();
    assert_eq!(again, m);
}

#[test]
fn frame_length_round_trips() {
    for n in [0u32, 1, 255, 256, 65535, 65536, 123456789, u32::MAX] {
        let prefix = frame_len_prefix(n);
        assert_eq!(prefix.len(), 4);
        assert_eq!(frame_len_value(&prefix), n);
    }
    // big-endian on the wire: most significant byte first
    assert_eq!(frame_len_prefix(1), vec![0, 0, 0, 1]);
    assert_eq!(frame_len_prefix(0x01020304), vec![1, 2, 3, 4]);
}

use venue_core::dispatch;
use venue_core::Engine;
use venue_core::LevelOrderBook;
use venue_core::FixMessage;
use venue_core::MessageField;
use venue_core::MessageType;
use venue_core::OrderStatus;
use venue_core::Side;
use venue_core::VectorOrderBook;

fn new_order(side: Side, quantity: u64, price: u64) -> FixMessage {
    FixMessage {
        msg_type: MessageType::NewOrder,
        fields: vec![
            MessageField::Side(side),
            MessageField::Quantity(quantity),
            MessageField::Price(price),
        ],
    }
}

#[test]
fn new_order_reports_the_id() {
    let mut n = Engine::<VectorOrderBook>::new();
    let r = dispatch(&mut n, &new_order(Side::Buy, 50, 10000)).unwrap();
    assert_eq!(r.msg_type, MessageType::ExecutionReport);
    assert_eq!(r.fields, vec![MessageField::OrderId(1)]);
    let r2 = dispatch(&mut n, &new_order(Side::Sell, 10, 10100)).unwrap();
    assert_eq!(r2.fields, vec![MessageField::OrderId(2)]);
}

#[test]
fn zero_quantity_is_rejected() {
    let mut n = Engine::<VectorOrderBook>::new();
    let r = dispatch(&mut n, &new_order(Side::Buy, 0, 10000)).unwrap();
    assert_eq!(r.msg_type, MessageType::Reject);
    assert_eq!(r.fields, vec![MessageField::Reason(b"Invalid quantity".to_vec())]);
}

#[test]
fn bad_shape_drops_the_request() {
    let mut n = Engine::<VectorOrderBook>::new();
    let bad = FixMessage {
        msg_type: MessageType::NewOrder,
        fields: vec![MessageField::OrderId(1)],
    };
    assert!(dispatch(&mut n, &bad).is_none());
    let bad2 = FixMessage { msg_type: MessageType::OrderCancelRequest, fields: vec![] };
    assert!(dispatch(&mut n, &bad2).is_none());
}

#[test]
fn amend_and_cancel_respond() {
    let mut n = Engine::<VectorOrderBook>::new();
    dispatch(&mut n, &new_order(Side::Buy, 50, 10000)).unwrap();
    let amend = FixMessage {
        msg_type: MessageType::OrderReplaceRequest,
        fields: vec![
            MessageField::OrderId(1),
            MessageField::Quantity(25),
            MessageField::Price(9900),
        ],
    };
    let r = dispatch(&mut n, &amend).unwrap();
    assert_eq!(r.msg_type, MessageType::ExecutionReport);
    assert_eq!(r.fields, vec![MessageField::OrderId(1)]);
    let cancel = FixMessage {
        msg_type: MessageType::OrderCancelRequest,
        fields: vec![MessageField::OrderId(1)],
    };
    let r2 = dispatch(&mut n, &cancel).unwrap();
    assert_eq!(r2.msg_type, MessageType::ExecutionReport);
    // the id is gone now
    let r3 = dispatch(&mut n, &cancel).unwrap();
    assert_eq!(r3.msg_type, MessageType::Reject);
    assert_eq!(r3.fields, vec![MessageField::Reason(b"Order not found".to_vec())]);
}

#[test]
fn status_reports_the_lifecycle() {
    let mut n = Engine::<VectorOrderBook>::new();
    dispatch(&mut n, &new_order(Side::Buy, 50, 10000)).unwrap();
    let status = |id: u64| FixMessage {
        msg_type: MessageType::OrderStatusRequest,
        fields: vec![MessageField::OrderId(id)],
    };
    let r = dispatch(&mut n, &status(1)).unwrap();
    assert_eq!(
        r.fields,
        vec![MessageField::OrderId(1), MessageField::Status(OrderStatus::New)]
    );
    let r2 = dispatch(&mut n, &status(42)).unwrap();
    assert_eq!(
        r2.fields,
        vec![MessageField::OrderId(42), MessageField::Status(OrderStatus::Rejected)]
    );
    dispatch(&mut n, &new_order(Side::Sell, 50, 10000)).unwrap();
    n.match_orders().unwrap();
    let r3 = dispatch(&mut n, &status(1)).unwrap();
    assert_eq!(
        r3.fields,
        vec![MessageField::OrderId(1), MessageField::Status(OrderStatus::Filled)]
    );
}

#[test]
fn market_data_serves_each_requested_field() {
    let mut n = Engine::<VectorOrderBook>::new();
    dispatch(&mut n, &new_order(Side::Buy, 50, 10000)).unwrap();
    dispatch(&mut n, &new_order(Side::Sell, 30, 10100)).unwrap();
    let req = FixMessage {
        msg_type: MessageType::MarketDataRequest,
        fields: vec![
            MessageField::VolumeAtLimit(10000),
            MessageField::MarketPrice(true),
            MessageField::MarketBook(true),
        ],
    };
    let r = dispatch(&mut n, &req).unwrap();
    assert_eq!(r.msg_type, MessageType::MarketData);
    assert_eq!(r.fields.len(), 3);
    assert_eq!(r.fields[0], MessageField::Quantity(50));
    assert_eq!(r.fields[1], MessageField::Price(10050));
    match &r.fields[2] {
        MessageField::Book(bids, asks) => {
            assert_eq!(bids.len(), 10);
            assert_eq!(asks.len(), 10);
            assert_eq!(bids[0].quantity, 50);
            assert_eq!(bids[0].price, 10000);
            assert_eq!(asks[0].quantity, 30);
            assert_eq!(asks[0].price, 10100);
            // wire entries carry no id
            assert_eq!(bids[0].id, 0);
        },
        other => panic!("expected a book field, got {:?}", other),
    }
}

#[test]
fn market_price_on_empty_book_rejects() {
    let mut n = Engine::<VectorOrderBook>::new();
    let req = FixMessage {
        msg_type: MessageType::MarketDataRequest,
        fields: vec![MessageField::MarketPrice(true)],
    };
    let r = dispatch(&mut n, &req).unwrap();
    assert_eq!(r.msg_type, MessageType::Reject);
    assert_eq!(r.fields, vec![MessageField::Reason(b"No price available".to_vec())]);
}

#[test]
fn market_trades_field_reports_history() {
    let mut n = Engine::<VectorOrderBook>::new();
    dispatch(&mut n, &new_order(Side::Buy, 50, 10000)).unwrap();
    dispatch(&mut n, &new_order(Side::Sell, 50, 10000)).unwrap();
    n.match_orders().unwrap();
    let req = FixMessage {
        msg_type: MessageType::MarketDataRequest,
        fields: vec![MessageField::MarketTrades(true)],
    };
    let r = dispatch(&mut n, &req).unwrap();
    match &r.fields[0] {
        MessageField::Trades(ts) => {
            assert_eq!(ts.len(), 10);
            assert_eq!(ts[0].quantity, 50);
            assert_eq!(ts[0].price, 10000);
            assert_eq!(ts[1].quantity, 0);
        },
        other => panic!("expected a trades field, got {:?}", other),
    }
}

#[test]
fn dispatch_serves_the_level_book_alike() {
    let mut n = Engine::<LevelOrderBook>::new();
    let r = dispatch(&mut n, &new_order(Side::Buy, 50, 10000)).unwrap();
    assert_eq!(r.fields, vec![MessageField::OrderId(1)]);
    dispatch(&mut n, &new_order(Side::Sell, 20, 10100)).unwrap();
    let req = FixMessage {
        msg_type: MessageType::MarketDataRequest,
        fields: vec![MessageField::VolumeAtLimit(10100), MessageField::MarketPrice(true)],
    };
    let r = dispatch(&mut n, &req).unwrap();
    assert_eq!(r.fields[0], MessageField::Quantity(20));
    assert_eq!(r.fields[1], MessageField::Price(10050));
}

#[test]
fn responses_to_requests_are_rejects_for_response_types() {
    let mut n = Engine::<VectorOrderBook>::new();
    for t in [MessageType::ExecutionReport, MessageType::MarketData, MessageType::Reject] {
        let r = dispatch(&mut n, &FixMessage { msg_type: t, fields: vec![] }).unwrap();
        assert_eq!(r.msg_type, MessageType::Reject);
        assert_eq!(
            r.fields,
            vec![MessageField::Reason(b"Invalid message type".to_vec())]
        );
    }
}

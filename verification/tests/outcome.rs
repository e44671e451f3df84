use ob::domain::{
    opposite_side, Instrument, InstrumentId, Order, OrderError, OrderKind, OrderSide, OrderStatus, RestingOrder,
    Symbol,
};
use ob::matching::{
    BookError, CommandQueueError, EngineCommand, EngineFault, Exchange, ExchangeError, InstrumentRegistry,
    InstrumentRegistryError, RejectReason, RejectionReport,
};
use ob::service::ServiceError;

fn limit(id: u64, side: OrderSide, price: i64, qty: u64) -> Order {
    Order {
        resting: RestingOrder { id, user_id: id, original_qty: qty, open_qty: qty, accepted_sequence: 0 },
        limit_price: Some(price),
        kind: OrderKind::Limit,
        side,
    }
}

#[test]
fn admission_refusals_become_rejection_reports() {
    let cases = [
        (BookError::InvalidOrder(OrderError::ZeroQuantity), RejectReason::InvalidOrder(OrderError::ZeroQuantity)),
        (BookError::DuplicateOrder(7), RejectReason::DuplicateOrder(7)),
        (BookError::Full, RejectReason::BookFull),
        (BookError::QuantityOverflow, RejectReason::QuantityOverflow),
    ];
    for (error, reason) in cases {
        assert_eq!(
            RejectionReport::from_admission_error(9, &error),
            Ok(RejectionReport { order_id: 9, status: OrderStatus::Rejected, reason })
        );
    }
}

#[test]
fn other_book_errors_are_engine_faults() {
    assert_eq!(
        RejectionReport::from_admission_error(9, &BookError::SequenceExhausted),
        Err(EngineFault::SequenceExhausted)
    );
    assert_eq!(
        RejectionReport::from_admission_error(9, &BookError::OrderNotFound(3)),
        Err(EngineFault::OrderNotFound(3))
    );
    assert_eq!(EngineFault::from_post_admission(BookError::Full), EngineFault::PostAdmission(BookError::Full));
    assert_eq!(EngineFault::from_post_admission(BookError::SequenceExhausted), EngineFault::SequenceExhausted);
    assert_eq!(EngineFault::from_post_admission(BookError::OrderNotFound(4)), EngineFault::OrderNotFound(4));
    assert_eq!(EngineFault::from_cancel_error(BookError::OrderNotFound(5)), EngineFault::OrderNotFound(5));
    assert_eq!(
        EngineFault::from_cancel_error(BookError::SequenceExhausted),
        EngineFault::PostAdmission(BookError::SequenceExhausted)
    );
}

#[test]
fn commands_are_checked_before_queueing() {
    assert_eq!(EngineCommand::Submit(limit(1, OrderSide::Buy, 10, 1)).validate_basic(), Ok(()));
    assert_eq!(
        EngineCommand::Submit(limit(1, OrderSide::Buy, 10, 0)).validate_basic(),
        Err(CommandQueueError::InvalidOrder(OrderError::ZeroQuantity))
    );
    assert_eq!(EngineCommand::Cancel(1).validate_basic(), Ok(()));
    assert_eq!(CommandQueueError::from(OrderError::InvalidLimitPrice), CommandQueueError::InvalidOrder(OrderError::InvalidLimitPrice));
    assert_eq!(ServiceError::from(BookError::Full), ServiceError::Book(BookError::Full));
}

#[test]
fn sides_are_opposite_and_limits_cross_at_equal_prices() {
    assert_eq!(opposite_side(OrderSide::Buy), OrderSide::Sell);
    assert_eq!(opposite_side(OrderSide::Sell), OrderSide::Buy);
    assert!(limit(1, OrderSide::Buy, 100, 1).crosses(100));
    assert!(!limit(1, OrderSide::Buy, 100, 1).crosses(101));
    assert!(limit(1, OrderSide::Sell, 100, 1).crosses(101));
    assert!(!limit(1, OrderSide::Sell, 100, 1).crosses(99));
}

fn instrument(id: u64) -> Instrument {
    Instrument {
        id: InstrumentId(id),
        max_order_quantity: 1_000,
        name: format!("instrument {id}"),
        ticker: "BTC-USD".to_string(),
        tick_size: 1,
        lot_size: 1,
        book_cap: 16,
    }
}

#[test]
fn registry_refuses_duplicates_and_reports_missing_ids() {
    let mut registry = InstrumentRegistry::new();
    assert!(registry.is_empty());
    assert_eq!(registry.register(instrument(1)), Ok(()));
    assert_eq!(
        registry.register(instrument(1)),
        Err(InstrumentRegistryError::DuplicateInstrument(InstrumentId(1)))
    );
    assert_eq!(registry.len(), 1);
    assert_eq!(registry.register(instrument(2)), Ok(()));
    assert_eq!(registry.len(), 2);
    assert!(registry.contains(InstrumentId(1)));
    assert_eq!(registry.get(InstrumentId(1)).unwrap().name, "instrument 1");
    assert_eq!(registry.get(InstrumentId(3)).err(), Some(InstrumentRegistryError::NotFound(InstrumentId(3))));
    assert_eq!(u64::from(InstrumentId::from(5u64)), 5);
}

#[test]
fn exchange_reads_of_unknown_symbols_are_refused() {
    let btc = Symbol::parse("BTC-USD").unwrap();
    let eth = Symbol::parse("ETH-USD").unwrap();
    let mut exchange = Exchange::new(2);
    exchange.prepare_symbols(&[btc]);

    assert_eq!(exchange.cancel(eth, 1), Err(ExchangeError::UnknownSymbol(eth)));
    assert_eq!(exchange.top_of_book(eth), Err(ExchangeError::UnknownSymbol(eth)));
    assert_eq!(exchange.depth(eth, 3).err(), Some(ExchangeError::UnknownSymbol(eth)));
    assert_eq!(exchange.snapshot(eth).err(), Some(ExchangeError::UnknownSymbol(eth)));
    assert_eq!(exchange.cancel(btc, 1), Err(ExchangeError::Book(BookError::OrderNotFound(1))));

    exchange.submit(btc, limit(1, OrderSide::Buy, 100, 3)).unwrap();
    let books = exchange.into_books();
    assert_eq!(books.len(), 1);
    assert_eq!(books[0].0, btc);
    assert_eq!(books[0].1.top_of_book().bid.map(|level| level.quantity), Some(3));
}

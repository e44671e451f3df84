use ob::domain::{Order, OrderError, OrderId, OrderKind, OrderSide, Price, Quantity, RestingOrder, Sequence, UserId};
use ob::matching::{Book, BookError, ExecutionReport};

fn order(id: u64, user: u64, side: OrderSide, kind: OrderKind, price: Option<i64>, qty: u64) -> Order {
    Order {
        resting: RestingOrder {
            id: OrderId::from(id),
            user_id: UserId::from(user),
            original_qty: Quantity::from(qty),
            open_qty: Quantity::from(qty),
            accepted_sequence: Sequence::from(0u64),
        },
        limit_price: price.map(Price::from),
        kind,
        side,
    }
}

fn limit(id: u64, side: OrderSide, price: i64, qty: u64) -> Order {
    order(id, id, side, OrderKind::Limit, Some(price), qty)
}

fn market(id: u64, side: OrderSide, qty: u64) -> Order {
    order(id, id, side, OrderKind::Market, None, qty)
}

/// Submits at an explicit sequence and checks that the aggregated levels still
/// account for every resting order.
fn submit(book: &mut Book, incoming: Order, sequence: u64) -> Result<ExecutionReport, BookError> {
    let result = book.submit(incoming, Sequence::from(sequence));
    let snapshot = book.snapshot();
    let counted: usize = snapshot
        .bids
        .iter()
        .chain(snapshot.asks.iter())
        .map(|level| level.order_count)
        .sum();
    assert_eq!(counted, book.resting_count());
    assert!(snapshot.bids.iter().chain(snapshot.asks.iter()).all(|level| level.order_count > 0));
    result
}

/// A projection of a report's fills for order-sensitive asserts.
fn fills(report: &ExecutionReport) -> Vec<(OrderId, u64, i64)> {
    report
        .trades
        .iter()
        .map(|trade| (trade.maker_order_id, trade.quantity, trade.price))
        .collect()
}

fn level_quantity(book: &Book, side: OrderSide, price: i64) -> Quantity {
    book.level(side, Price::from(price)).unwrap().quantity
}

#[test]
fn empty_book_rests_an_unmatched_limit_order() {
    let mut book = Book::new(4);

    let report = submit(&mut book, limit(1, OrderSide::Buy, 100, 5), 1).unwrap();

    assert!(report.trades.is_empty());
    assert_eq!(report.remaining_quantity, Quantity::from(5u64));
    assert_eq!(book.resting_count(), 1);
    assert_eq!(level_quantity(&book, OrderSide::Buy, 100), Quantity::from(5u64));
}

#[test]
fn crossing_limit_fully_consumes_a_single_maker() {
    let mut book = Book::new(4);
    submit(&mut book, limit(1, OrderSide::Sell, 100, 5), 1).unwrap();

    let report = submit(&mut book, limit(2, OrderSide::Buy, 100, 5), 2).unwrap();

    assert_eq!(report.remaining_quantity, Quantity::from(0u64));
    assert_eq!(fills(&report), vec![(OrderId::from(1u64), 5, 100)]);
    // Maker fully filled and the taker fully filled: nothing rests.
    assert!(book.level_count(OrderSide::Sell) == 0 && book.level_count(OrderSide::Buy) == 0);
    assert_eq!(book.resting_count(), 0);
}

#[test]
fn taker_remainder_rests_after_exhausting_liquidity() {
    let mut book = Book::new(4);
    submit(&mut book, limit(1, OrderSide::Sell, 100, 3), 1).unwrap();

    let report = submit(&mut book, limit(2, OrderSide::Buy, 100, 8), 2).unwrap();

    assert_eq!(fills(&report), vec![(OrderId::from(1u64), 3, 100)]);
    assert_eq!(report.remaining_quantity, Quantity::from(5u64));
    // The 5-lot remainder rests on the bid side at its own limit price.
    assert_eq!(book.level_count(OrderSide::Sell), 0);
    assert_eq!(level_quantity(&book, OrderSide::Buy, 100), Quantity::from(5u64));
}

#[test]
fn maker_remainder_stays_resting_when_taker_is_smaller() {
    let mut book = Book::new(4);
    submit(&mut book, limit(1, OrderSide::Sell, 100, 10), 1).unwrap();

    let report = submit(&mut book, limit(2, OrderSide::Buy, 100, 4), 2).unwrap();

    assert_eq!(fills(&report), vec![(OrderId::from(1u64), 4, 100)]);
    assert_eq!(report.remaining_quantity, Quantity::from(0u64));
    assert_eq!(level_quantity(&book, OrderSide::Sell, 100), Quantity::from(6u64));
    assert_eq!(book.level_count(OrderSide::Buy), 0);
}

#[test]
fn price_time_priority_is_fifo_within_a_level() {
    let mut book = Book::new(4);
    submit(&mut book, limit(1, OrderSide::Sell, 100, 5), 1).unwrap();
    submit(&mut book, limit(2, OrderSide::Sell, 100, 5), 2).unwrap();

    let report = submit(&mut book, limit(3, OrderSide::Buy, 100, 7), 3).unwrap();

    // Oldest resting order (id 1) is filled before id 2.
    assert_eq!(
        fills(&report),
        vec![(OrderId::from(1u64), 5, 100), (OrderId::from(2u64), 2, 100)]
    );
    assert_eq!(level_quantity(&book, OrderSide::Sell, 100), Quantity::from(3u64));
}

#[test]
fn best_price_is_selected_and_replanned_across_levels() {
    let mut book = Book::new(6);
    submit(&mut book, limit(1, OrderSide::Sell, 101, 3), 1).unwrap();
    submit(&mut book, limit(2, OrderSide::Sell, 100, 2), 2).unwrap();

    let report = submit(&mut book, limit(3, OrderSide::Buy, 101, 4), 3).unwrap();

    // Best (lowest) ask 100 is taken first, then the book re-plans onto 101.
    assert_eq!(
        fills(&report),
        vec![(OrderId::from(2u64), 2, 100), (OrderId::from(1u64), 2, 101)]
    );
    assert_eq!(level_quantity(&book, OrderSide::Sell, 101), Quantity::from(1u64));
}

#[test]
fn seller_matches_highest_bid_first() {
    let mut book = Book::new(6);
    submit(&mut book, limit(1, OrderSide::Buy, 99, 2), 1).unwrap();
    submit(&mut book, limit(2, OrderSide::Buy, 100, 2), 2).unwrap();

    let report = submit(&mut book, limit(3, OrderSide::Sell, 99, 3), 3).unwrap();

    assert_eq!(
        fills(&report),
        vec![(OrderId::from(2u64), 2, 100), (OrderId::from(1u64), 1, 99)]
    );
}

#[test]
fn non_crossing_limit_does_not_match_and_rests() {
    let mut book = Book::new(4);
    submit(&mut book, limit(1, OrderSide::Sell, 101, 5), 1).unwrap();

    let report = submit(&mut book, limit(2, OrderSide::Buy, 100, 5), 2).unwrap();

    assert!(report.trades.is_empty());
    assert_eq!(report.remaining_quantity, Quantity::from(5u64));
    assert_eq!(level_quantity(&book, OrderSide::Sell, 101), Quantity::from(5u64));
    assert_eq!(level_quantity(&book, OrderSide::Buy, 100), Quantity::from(5u64));
}

#[test]
fn market_order_ignores_price_and_never_rests_its_remainder() {
    let mut book = Book::new(4);
    submit(&mut book, limit(1, OrderSide::Sell, 100, 3), 1).unwrap();

    let report = submit(&mut book, market(2, OrderSide::Buy, 8), 2).unwrap();

    assert_eq!(fills(&report), vec![(OrderId::from(1u64), 3, 100)]);
    // Remainder is discarded, not rested: market orders leave no trace.
    assert_eq!(report.remaining_quantity, Quantity::from(5u64));
    assert!(book.level_count(OrderSide::Sell) == 0 && book.level_count(OrderSide::Buy) == 0);
    assert_eq!(book.resting_count(), 0);
}

#[test]
fn market_order_against_empty_book_is_dropped_whole() {
    let mut book = Book::new(4);

    let report = submit(&mut book, market(1, OrderSide::Buy, 5), 1).unwrap();

    assert!(report.trades.is_empty());
    assert_eq!(report.remaining_quantity, Quantity::from(5u64));
    assert_eq!(book.resting_count(), 0);
}

#[test]
fn duplicate_active_order_id_is_rejected() {
    let mut book = Book::new(4);
    submit(&mut book, limit(1, OrderSide::Buy, 100, 5), 1).unwrap();

    let result = submit(&mut book, limit(1, OrderSide::Buy, 100, 5), 2);

    assert_eq!(result, Err(BookError::DuplicateOrder(OrderId::from(1u64))));
}

#[test]
fn order_id_may_be_reused_once_fully_filled() {
    let mut book = Book::new(4);
    submit(&mut book, limit(1, OrderSide::Sell, 100, 5), 1).unwrap();
    // id 1 fully fills and leaves the book, freeing its identifier.
    submit(&mut book, limit(2, OrderSide::Buy, 100, 5), 2).unwrap();

    let report = submit(&mut book, limit(1, OrderSide::Sell, 100, 4), 3);

    assert!(report.is_ok());
}

#[test]
fn invalid_order_is_rejected_without_touching_the_book() {
    let mut book = Book::new(4);

    let result = submit(&mut book, limit(1, OrderSide::Buy, 100, 0), 1);

    assert_eq!(result, Err(BookError::InvalidOrder(OrderError::ZeroQuantity)));
    assert_eq!(book.resting_count(), 0);
}

#[test]
fn resting_beyond_capacity_reports_full() {
    let mut book = Book::new(1);
    submit(&mut book, limit(1, OrderSide::Buy, 100, 5), 1).unwrap();

    let result = submit(&mut book, limit(2, OrderSide::Buy, 99, 5), 2);

    assert_eq!(result, Err(BookError::Full));
    // The rejected order left no residue behind.
    assert_eq!(book.resting_count(), 1);
    assert!(book.level(OrderSide::Buy, Price::from(99)).is_none());
}

#[test]
fn released_capacity_is_reusable() {
    let mut book = Book::new(1);
    submit(&mut book, limit(1, OrderSide::Sell, 100, 1), 1).unwrap();
    submit(&mut book, market(2, OrderSide::Buy, 1), 2).unwrap();

    // The single slot is free again after id 1 was consumed.
    let report = submit(&mut book, limit(3, OrderSide::Sell, 100, 1), 3).unwrap();

    assert!(report.trades.is_empty());
    assert_eq!(book.resting_count(), 1);
}

#[test]
fn aggregate_level_quantity_overflow_is_rejected_atomically() {
    let mut book = Book::new(4);
    submit(&mut book, limit(1, OrderSide::Sell, 100, u64::MAX), 1).unwrap();

    let result = submit(&mut book, limit(2, OrderSide::Sell, 100, 1), 2);

    assert_eq!(result, Err(BookError::QuantityOverflow));
    // The overflowing order did not allocate or mutate the level.
    assert_eq!(book.level(OrderSide::Sell, Price::from(100)).unwrap().order_count, 1);
    assert_eq!(book.resting_count(), 1);
}

#[test]
fn removing_the_head_preserves_the_rest_of_the_queue() {
    let mut book = Book::new(6);
    submit(&mut book, limit(1, OrderSide::Sell, 100, 2), 1).unwrap();
    submit(&mut book, limit(2, OrderSide::Sell, 100, 2), 2).unwrap();
    submit(&mut book, limit(3, OrderSide::Sell, 100, 2), 3).unwrap();

    // Consume the head (id 1) exactly.
    submit(&mut book, limit(4, OrderSide::Buy, 100, 2), 4).unwrap();

    let level = book.level(OrderSide::Sell, Price::from(100)).unwrap();
    assert_eq!(level.order_count, 2);
    assert_eq!(level.quantity, Quantity::from(4u64));
    // Remaining queue still matches in time priority: id 2 then id 3.
    let report = submit(&mut book, limit(5, OrderSide::Buy, 100, 4), 5).unwrap();
    assert_eq!(
        fills(&report),
        vec![(OrderId::from(2u64), 2, 100), (OrderId::from(3u64), 2, 100)]
    );
}

#[test]
fn trade_carries_sequence_parties_and_taker_side() {
    let mut book = Book::new(4);
    submit(&mut book, limit(1, OrderSide::Sell, 100, 5), 1).unwrap();

    let report = submit(&mut book, limit(2, OrderSide::Buy, 100, 5), 42).unwrap();

    let trade = &report.trades[0];
    assert_eq!(trade.sequence, Sequence::from(42u64));
    assert_eq!(trade.maker_order_id, OrderId::from(1u64));
    assert_eq!(trade.taker_order_id, OrderId::from(2u64));
    assert_eq!(trade.maker_id, UserId::from(1u64));
    assert_eq!(trade.taker_id, UserId::from(2u64));
    assert_eq!(trade.taker_side, OrderSide::Buy);
    assert_eq!(trade.price, Price::from(100));
}

#[test]
fn self_trade_is_currently_permitted() {
    // Documents present behavior: the book has no self-trade prevention,
    // so a user may match against their own resting order.
    let mut book = Book::new(4);
    submit(
        &mut book,
        order(1, 7, OrderSide::Sell, OrderKind::Limit, Some(100), 5),
        1,
    )
    .unwrap();

    let report = submit(
        &mut book,
        order(2, 7, OrderSide::Buy, OrderKind::Limit, Some(100), 5),
        2,
    )
    .unwrap();

    assert_eq!(report.trades.len(), 1);
    assert_eq!(report.trades[0].maker_id, report.trades[0].taker_id);
}

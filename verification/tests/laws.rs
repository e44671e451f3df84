use ob::domain::{Order, OrderError, OrderId, OrderKind, OrderSide, Quantity, RestingOrder, Sequence};
use ob::matching::{Book, BookError, BookSnapshot, Engine, PriceLevelView};

fn order(id: u64, side: OrderSide, kind: OrderKind, price: Option<i64>, qty: u64) -> Order {
    Order {
        resting: RestingOrder {
            id,
            user_id: id + 1000,
            original_qty: qty,
            open_qty: qty,
            accepted_sequence: 0,
        },
        limit_price: price,
        kind,
        side,
    }
}

fn limit(id: u64, side: OrderSide, price: i64, qty: u64) -> Order {
    order(id, side, OrderKind::Limit, Some(price), qty)
}

fn market(id: u64, side: OrderSide, qty: u64) -> Order {
    order(id, side, OrderKind::Market, None, qty)
}

fn levels(snapshot: &BookSnapshot) -> (Vec<(i64, u64, usize)>, Vec<(i64, u64, usize)>) {
    let project = |side: &Vec<PriceLevelView>| {
        side.iter()
            .map(|level| (level.price, level.quantity, level.order_count))
            .collect::<Vec<_>>()
    };
    (project(&snapshot.bids), project(&snapshot.asks))
}

fn seeded_book() -> Book {
    let mut book = Book::new(3);
    book.submit(limit(1, OrderSide::Sell, 100, 4), 1).unwrap();
    book.submit(limit(2, OrderSide::Sell, 101, 6), 2).unwrap();
    book.submit(limit(3, OrderSide::Buy, 98, 2), 3).unwrap();
    book
}

#[test]
fn refused_duplicate_leaves_the_book_as_it_was() {
    let mut book = seeded_book();
    let before = levels(&book.snapshot());

    // Id 3 rests already; the order would cross both asks if it were admitted.
    let answer = book.submit(limit(3, OrderSide::Buy, 101, 10), 4);

    assert_eq!(answer, Err(BookError::DuplicateOrder(3)));
    assert_eq!(levels(&book.snapshot()), before);
    assert_eq!(book.resting_count(), 3);
}

#[test]
fn refused_invalid_order_leaves_the_book_as_it_was() {
    let mut book = seeded_book();
    let before = levels(&book.snapshot());

    let mut zero = limit(9, OrderSide::Buy, 101, 0);
    assert_eq!(book.submit(zero, 4), Err(BookError::InvalidOrder(OrderError::ZeroQuantity)));
    zero.resting.original_qty = 5;
    zero.resting.open_qty = 6;
    assert_eq!(book.submit(zero, 4), Err(BookError::InvalidOrder(OrderError::InvalidOpenQuantity)));
    let free_limit = order(9, OrderSide::Buy, OrderKind::Limit, Some(0), 5);
    assert_eq!(book.submit(free_limit, 4), Err(BookError::InvalidOrder(OrderError::InvalidLimitPrice)));
    let unpriced_limit = order(9, OrderSide::Buy, OrderKind::Limit, None, 5);
    assert_eq!(book.submit(unpriced_limit, 4), Err(BookError::InvalidOrder(OrderError::InvalidLimitPrice)));

    assert_eq!(levels(&book.snapshot()), before);
}

#[test]
fn refused_full_book_undoes_nothing_and_fills_nothing() {
    let mut book = seeded_book();
    let before = levels(&book.snapshot());

    // Capacity 3 is used up and the order does not cross: its remainder cannot rest.
    let answer = book.submit(limit(4, OrderSide::Buy, 99, 1), 4);

    assert_eq!(answer, Err(BookError::Full));
    assert_eq!(levels(&book.snapshot()), before);
}

#[test]
fn accepted_submit_accounts_for_every_lot() {
    let mut book = seeded_book();

    let report = book.submit(limit(7, OrderSide::Buy, 101, 13), 4).unwrap();

    let filled: u64 = report.trades.iter().map(|trade| trade.quantity).sum();
    assert_eq!(filled + report.remaining_quantity, 13);
    assert_eq!(report.remaining_quantity, 3);
    for trade in &report.trades {
        assert!(trade.price <= 101);
        assert_eq!(trade.taker_order_id, 7);
        assert_eq!(trade.taker_id, 1007);
        assert_eq!(trade.taker_side, OrderSide::Buy);
        assert_eq!(trade.sequence, 4);
        assert!(trade.quantity > 0);
    }
    // The remainder rests at the order's own price.
    assert!(book.contains_order(7));
    assert_eq!(book.level(OrderSide::Buy, 101).unwrap().quantity, 3);
}

#[test]
fn market_remainder_never_rests() {
    let mut book = seeded_book();

    let report = book.submit(market(8, OrderSide::Buy, 50), 4).unwrap();

    assert_eq!(report.remaining_quantity, 40);
    assert!(!book.contains_order(8));
    assert_eq!(book.level_count(OrderSide::Sell), 0);
    assert_eq!(book.level_count(OrderSide::Buy), 1);
}

#[test]
fn cancel_takes_out_exactly_the_named_order_and_frees_its_slot() {
    let mut book = seeded_book();

    let report = book.cancel(2).unwrap();
    assert_eq!(report.order_id, 2);
    assert_eq!(report.canceled_quantity, 6);
    assert!(!book.contains_order(2));
    assert!(book.contains_order(1) && book.contains_order(3));
    assert_eq!(book.resting_count(), 2);

    // The freed slot takes a new resting order.
    book.submit(limit(4, OrderSide::Buy, 99, 1), 4).unwrap();
    assert_eq!(book.resting_count(), 3);
}

#[test]
fn cancel_of_an_unknown_id_changes_nothing() {
    let mut book = seeded_book();
    let before = levels(&book.snapshot());

    assert_eq!(book.cancel(42), Err(BookError::OrderNotFound(42)));
    assert_eq!(levels(&book.snapshot()), before);
}

#[test]
fn engine_stamps_one_sequence_per_accepted_submit() {
    let mut engine = Engine::new(8);
    engine.submit(limit(1, OrderSide::Sell, 100, 1)).unwrap();
    engine.submit(limit(2, OrderSide::Sell, 100, 1)).unwrap();
    // Refused: neither the book nor the sequence moves.
    assert_eq!(
        engine.submit(limit(2, OrderSide::Sell, 100, 1)),
        Err(BookError::DuplicateOrder(2))
    );

    let first = engine.submit(market(3, OrderSide::Buy, 1)).unwrap();
    let second = engine.submit(market(4, OrderSide::Buy, 1)).unwrap();

    assert_eq!(first.trades.len(), 1);
    assert_eq!(second.trades.len(), 1);
    assert_eq!(first.trades[0].sequence, 3);
    assert_eq!(second.trades[0].sequence, 4);
    assert_eq!(first.trades[0].maker_order_id, 1);
    assert_eq!(second.trades[0].maker_order_id, 2);
}

#[test]
fn a_filled_order_does_not_rest_and_its_id_is_free_again() {
    let mut book = Book::new(2);
    book.submit(limit(1, OrderSide::Sell, 100, 5), 1).unwrap();

    let report = book.submit(limit(2, OrderSide::Buy, 100, 5), 2).unwrap();

    assert_eq!(report.remaining_quantity, Quantity::from(0u64));
    assert!(!book.contains_order(1) && !book.contains_order(2));
    book.submit(limit(1, OrderSide::Buy, 90, 1), 3).unwrap();
    assert!(book.contains_order(1));
}

#[test]
fn top_of_book_picks_highest_bid_and_lowest_ask() {
    let mut book = Book::new(8);
    book.submit(limit(1, OrderSide::Buy, 97, 1), 1).unwrap();
    book.submit(limit(2, OrderSide::Buy, 99, 2), 2).unwrap();
    book.submit(limit(3, OrderSide::Buy, 98, 3), 3).unwrap();
    book.submit(limit(4, OrderSide::Sell, 103, 4), 4).unwrap();
    book.submit(limit(5, OrderSide::Sell, 101, 5), 5).unwrap();
    book.submit(limit(6, OrderSide::Sell, 102, 6), 6).unwrap();

    let top = book.top_of_book();

    assert_eq!(top.bid.map(|level| (level.price, level.quantity)), Some((99, 2)));
    assert_eq!(top.ask.map(|level| (level.price, level.quantity)), Some((101, 5)));
    let empty = Book::new(1).top_of_book();
    assert_eq!(empty.bid, None);
    assert_eq!(empty.ask, None);
}

#[test]
fn trades_carry_the_sequence_of_their_submit() {
    let mut book = Book::new(2);
    book.submit(limit(1, OrderSide::Sell, 100, 5), Sequence::from(17u64)).unwrap();
    let report = book.submit(limit(2, OrderSide::Buy, 100, 1), 18).unwrap();
    assert_eq!(report.trades[0].sequence, 18);
    assert_eq!(report.trades[0].maker_order_id, OrderId::from(1u64));
}

#[test]
fn fills_start_at_the_oldest_best_order_and_never_improve() {
    let mut book = Book::new(8);
    book.submit(limit(1, OrderSide::Sell, 102, 1), 1).unwrap();
    book.submit(limit(2, OrderSide::Sell, 100, 1), 2).unwrap();
    book.submit(limit(3, OrderSide::Sell, 101, 1), 3).unwrap();
    book.submit(limit(4, OrderSide::Sell, 100, 1), 4).unwrap();

    let report = book.submit(market(5, OrderSide::Buy, 4), 5).unwrap();

    let fills: Vec<(u64, i64)> = report.trades.iter().map(|trade| (trade.maker_order_id, trade.price)).collect();
    assert_eq!(fills, vec![(2, 100), (4, 100), (3, 101), (1, 102)]);
}

#[test]
fn resting_then_cancelling_restores_the_book() {
    let mut engine = Engine::new(8);
    engine.submit(limit(1, OrderSide::Sell, 105, 4)).unwrap();
    engine.submit(limit(2, OrderSide::Buy, 100, 3)).unwrap();
    engine.submit(limit(3, OrderSide::Buy, 99, 2)).unwrap();
    let snapshot = levels(&engine.snapshot());
    let top = engine.top_of_book();

    for (id, side, price) in [(10, OrderSide::Buy, 100), (11, OrderSide::Buy, 101), (12, OrderSide::Sell, 104)] {
        let report = engine.submit(limit(id, side, price, 7)).unwrap();
        assert!(report.trades.is_empty());
        let canceled = engine.cancel(id).unwrap();
        assert_eq!(canceled.canceled_quantity, 7);
        assert_eq!(levels(&engine.snapshot()), snapshot);
        assert_eq!(engine.top_of_book(), top);
    }
}

#[test]
fn depth_is_a_prefix_of_the_snapshot() {
    let mut book = Book::new(16);
    for (id, price) in [(1, 97), (2, 99), (3, 98), (4, 96)] {
        book.submit(limit(id, OrderSide::Buy, price, id), id).unwrap();
    }
    for (id, price) in [(5, 103), (6, 101), (7, 102)] {
        book.submit(limit(id, OrderSide::Sell, price, id), id).unwrap();
    }
    let (full_bids, full_asks) = levels(&book.snapshot());
    for n in 0..6 {
        let (bids, asks) = levels(&book.depth(n));
        assert_eq!(bids, full_bids[..n.min(full_bids.len())].to_vec());
        assert_eq!(asks, full_asks[..n.min(full_asks.len())].to_vec());
    }
    assert!(levels(&book.depth(0)).0.is_empty());
}

#[test]
fn engines_fed_the_same_calls_answer_alike() {
    let calls = [
        limit(1, OrderSide::Sell, 100, 5),
        limit(2, OrderSide::Sell, 101, 5),
        limit(3, OrderSide::Buy, 101, 7),
        market(4, OrderSide::Sell, 2),
        limit(2, OrderSide::Sell, 101, 1),
    ];
    let mut first = Engine::new(4);
    let mut second = Engine::new(4);
    for call in calls {
        assert_eq!(first.submit(call), second.submit(call));
    }
    assert_eq!(first.cancel(2), second.cancel(2));
    assert_eq!(first.top_of_book(), second.top_of_book());
    assert_eq!(levels(&first.snapshot()), levels(&second.snapshot()));
    assert_eq!(levels(&first.depth(1)), levels(&second.depth(1)));
}

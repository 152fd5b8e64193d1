use orderbook::{BookError, Fill, LevelSnapshot, Order, OrderType, Orderbook};

fn level(price: i32, open_quantity: i32, open_sizes: Vec<i32>) -> LevelSnapshot {
    LevelSnapshot { price, open_quantity, open_sizes }
}

fn side_total(book: &Orderbook, side: OrderType) -> i64 {
    book.top_levels(side, usize::MAX).iter().map(|l| l.open_quantity as i64).sum()
}

#[test]
fn limit_buy_on_empty_book_rests() {
    let mut book = Orderbook::new();
    let r = book.limit_buy(5, 8);
    assert_eq!(r.requested_quantity, 5);
    assert_eq!(r.filled_quantity, 0);
    assert!(r.fills.is_empty());
    assert_eq!(book.top_levels(OrderType::BUY, 5), vec![level(8, 5, vec![5])]);
    assert!(book.top_levels(OrderType::SELL, 5).is_empty());
}

#[test]
fn second_limit_buy_joins_level_in_arrival_order() {
    let mut book = Orderbook::new();
    book.limit_buy(5, 8);
    let r = book.limit_buy(3, 8);
    assert_eq!(r.filled_quantity, 0);
    assert_eq!(book.top_levels(OrderType::BUY, 5), vec![level(8, 8, vec![5, 3])]);
}

#[test]
fn limit_sell_crosses_front_order() {
    let mut book = Orderbook::new();
    book.limit_buy(5, 8);
    book.limit_buy(3, 8);
    let r = book.limit_sell(4, 8);
    assert_eq!(r.filled_quantity, 4);
    assert_eq!(r.fills, vec![Fill { quantity: 4, price: 8 }]);
    assert_eq!(r.average_price_hundredths().unwrap(), 800);
    assert_eq!(book.top_levels(OrderType::BUY, 5), vec![level(8, 4, vec![1, 3])]);
    assert!(book.top_levels(OrderType::SELL, 5).is_empty());
}

#[test]
fn market_buy_on_empty_book_fails() {
    let mut book = Orderbook::new();
    match book.market_buy(2) {
        Err(BookError::InsufficientLiquidity(rep)) => {
            assert_eq!(rep.requested_quantity, 2);
            assert_eq!(rep.filled_quantity, 0);
            assert_eq!(rep.total_notional, 0);
            assert!(rep.fills.is_empty());
        }
        other => panic!("unexpected result {:?}", other),
    }
    assert!(book.top_levels(OrderType::BUY, 5).is_empty());
    assert!(book.top_levels(OrderType::SELL, 5).is_empty());
}

#[test]
fn spread_of_bid_ten_and_ask_twelve() {
    let mut book = Orderbook::new();
    book.limit_buy(1, 10);
    book.limit_sell(1, 12);
    assert_eq!(book.spread_bps().unwrap(), 2000);
}

#[test]
fn limit_buy_below_only_ask_rests_untouched() {
    let mut book = Orderbook::new();
    book.limit_sell(15, 20);
    let r = book.limit_buy(10, 14);
    assert_eq!(r.filled_quantity, 0);
    assert!(matches!(r.average_price_hundredths(), Err(BookError::DivisionUndefined)));
    assert_eq!(book.top_levels(OrderType::BUY, 5), vec![level(14, 10, vec![10])]);
    assert_eq!(book.top_levels(OrderType::SELL, 5), vec![level(20, 15, vec![15])]);
}

#[test]
fn fifo_fills_earlier_order_completely_first() {
    let mut book = Orderbook::new();
    book.limit_buy(3, 8);
    book.limit_buy(4, 8);
    let r = book.market_sell(5).unwrap();
    assert_eq!(r.fills, vec![Fill { quantity: 5, price: 8 }]);
    assert_eq!(book.top_levels(OrderType::BUY, 5), vec![level(8, 2, vec![2])]);
}

#[test]
fn fifo_partial_fill_stays_at_front() {
    let mut book = Orderbook::new();
    book.limit_sell(3, 9);
    book.limit_sell(4, 9);
    book.limit_buy(2, 9);
    assert_eq!(book.top_levels(OrderType::SELL, 5), vec![level(9, 5, vec![1, 4])]);
    book.limit_buy(1, 9);
    assert_eq!(book.top_levels(OrderType::SELL, 5), vec![level(9, 4, vec![4])]);
}

#[test]
fn market_buy_takes_best_price_first() {
    let mut book = Orderbook::new();
    book.limit_sell(2, 12);
    book.limit_sell(3, 10);
    book.limit_sell(5, 11);
    let r = book.market_buy(6).unwrap();
    assert_eq!(
        r.fills,
        vec![Fill { quantity: 3, price: 10 }, Fill { quantity: 3, price: 11 }]
    );
    assert_eq!(r.filled_quantity, 6);
    assert_eq!(r.total_notional, 63);
    assert_eq!(r.average_price_hundredths().unwrap(), 1050);
    assert_eq!(
        book.top_levels(OrderType::SELL, 5),
        vec![level(11, 2, vec![2]), level(12, 2, vec![2])]
    );
}

#[test]
fn market_sell_takes_highest_bid_first() {
    let mut book = Orderbook::new();
    book.limit_buy(4, 7);
    book.limit_buy(1, 9);
    let r = book.market_sell(3).unwrap();
    assert_eq!(
        r.fills,
        vec![Fill { quantity: 1, price: 9 }, Fill { quantity: 2, price: 7 }]
    );
    assert_eq!(r.total_notional, 23);
    assert_eq!(book.top_levels(OrderType::BUY, 5), vec![level(7, 2, vec![2])]);
}

#[test]
fn market_sell_short_of_liquidity_keeps_partial_fills() {
    let mut book = Orderbook::new();
    book.limit_buy(2, 5);
    match book.market_sell(5) {
        Err(BookError::InsufficientLiquidity(rep)) => {
            assert_eq!(rep.filled_quantity, 2);
            assert_eq!(rep.total_notional, 10);
            assert_eq!(rep.fills, vec![Fill { quantity: 2, price: 5 }]);
        }
        other => panic!("unexpected result {:?}", other),
    }
    assert!(book.top_levels(OrderType::BUY, 5).is_empty());
}

#[test]
fn limit_buy_crosses_then_rests_remainder() {
    let mut book = Orderbook::new();
    book.limit_sell(3, 10);
    book.limit_sell(4, 12);
    let r = book.limit_buy(5, 11);
    assert_eq!(r.filled_quantity, 3);
    assert_eq!(r.fills, vec![Fill { quantity: 3, price: 10 }]);
    assert_eq!(r.average_price_hundredths().unwrap(), 1000);
    assert_eq!(book.top_levels(OrderType::BUY, 5), vec![level(11, 2, vec![2])]);
    assert_eq!(book.top_levels(OrderType::SELL, 5), vec![level(12, 4, vec![4])]);
}

#[test]
fn limit_sell_rests_between_existing_levels() {
    let mut book = Orderbook::new();
    book.limit_sell(1, 10);
    book.limit_sell(1, 14);
    book.limit_sell(2, 12);
    assert_eq!(
        book.top_levels(OrderType::SELL, 5),
        vec![level(10, 1, vec![1]), level(12, 2, vec![2]), level(14, 1, vec![1])]
    );
}

#[test]
fn filled_quantity_equals_liquidity_consumed() {
    let mut book = Orderbook::new();
    book.limit_sell(4, 10);
    book.limit_sell(6, 11);
    book.limit_buy(2, 9);
    let asks_before = side_total(&book, OrderType::SELL);
    let bids_before = side_total(&book, OrderType::BUY);
    let r = book.limit_buy(7, 11);
    let asks_after = side_total(&book, OrderType::SELL);
    assert_eq!(asks_before - asks_after, r.filled_quantity as i64);
    assert_eq!(side_total(&book, OrderType::BUY), bids_before);
    let m = book.market_sell(2).unwrap();
    assert_eq!(bids_before - side_total(&book, OrderType::BUY), m.filled_quantity as i64);
}

#[test]
fn snapshot_twice_is_identical() {
    let mut book = Orderbook::new();
    book.populate_orderbook();
    let a = book.top_levels(OrderType::SELL, 3);
    let b = book.top_levels(OrderType::SELL, 3);
    assert_eq!(a, b);
    assert_eq!(book.spread_bps().unwrap(), book.spread_bps().unwrap());
}

#[test]
fn top_levels_limits_depth() {
    let mut book = Orderbook::new();
    book.limit_buy(1, 3);
    book.limit_buy(2, 5);
    book.limit_buy(3, 4);
    assert_eq!(
        book.top_levels(OrderType::BUY, 2),
        vec![level(5, 2, vec![2]), level(4, 3, vec![3])]
    );
    assert!(book.top_levels(OrderType::BUY, 0).is_empty());
}

#[test]
fn queries_on_one_sided_book_fail() {
    let mut book = Orderbook::new();
    assert!(matches!(book.spread_bps(), Err(BookError::EmptyBookSide)));
    assert!(matches!(book.best_price(OrderType::BUY), Err(BookError::EmptyBookSide)));
    book.limit_buy(1, 10);
    assert_eq!(book.best_price(OrderType::BUY).unwrap(), 10);
    assert!(matches!(book.spread_bps(), Err(BookError::EmptyBookSide)));
    assert!(matches!(book.best_price(OrderType::SELL), Err(BookError::EmptyBookSide)));
}

#[test]
fn spread_rounds_toward_zero() {
    let mut book = Orderbook::new();
    book.limit_buy(1, 3);
    book.limit_sell(1, 4);
    assert_eq!(book.spread_bps().unwrap(), 3333);
}

#[test]
fn populate_seeds_expected_book() {
    let mut book = Orderbook::new();
    book.populate_orderbook();
    assert_eq!(
        book.top_levels(OrderType::BUY, 3),
        vec![level(15, 3, vec![3]), level(14, 12, vec![12]), level(10, 10, vec![10])]
    );
    assert_eq!(
        book.top_levels(OrderType::SELL, 3),
        vec![level(16, 3, vec![3]), level(17, 3, vec![3]), level(18, 10, vec![4, 6])]
    );
    assert_eq!(book.top_levels(OrderType::BUY, 20).len(), 9);
    assert_eq!(book.top_levels(OrderType::SELL, 20).len(), 8);
    assert_eq!(book.spread_bps().unwrap(), 666);
}

#[test]
fn market_buy_of_zero_trades_nothing() {
    let mut book = Orderbook::new();
    book.limit_sell(3, 10);
    let r = book.market_buy(0).unwrap();
    assert_eq!(r.filled_quantity, 0);
    assert!(matches!(r.average_price_hundredths(), Err(BookError::DivisionUndefined)));
    assert_eq!(book.top_levels(OrderType::SELL, 5), vec![level(10, 3, vec![3])]);
}

#[test]
fn order_new_keeps_fields() {
    let o = Order::new(OrderType::SELL, 7, 2, 11);
    assert_eq!(o.order_type, OrderType::SELL);
    assert_eq!(o.size, 7);
    assert_eq!(o.filled, 2);
    assert_eq!(o.price, 11);
}

use hft::market::market_match;
use hft::orders::{Order, OrderType, Price, RegisteredOrder, RegisteredOrders};
use hft::sorted_vec_orders::SortedOrders;

fn registered(
    reg: &mut RegisteredOrders,
    rate: Price,
    quantity: u32,
    order_type: OrderType,
) -> RegisteredOrder {
    reg.add_get_order(Order { order_type, rate, quantity }, 0)
}

fn books(
    reg: &RegisteredOrders,
    mut buys: Vec<RegisteredOrder>,
    mut sells: Vec<RegisteredOrder>,
) -> (SortedOrders, SortedOrders) {
    let mut bid_book = SortedOrders::new(OrderType::Buy);
    let mut ask_book = SortedOrders::new(OrderType::Sell);
    bid_book.add_remove_batch(&mut buys, reg);
    ask_book.add_remove_batch(&mut sells, reg);
    (bid_book, ask_book)
}

#[test]
fn no_cross_yields_no_trade() {
    let mut reg = RegisteredOrders::default();
    let buys: Vec<_> = (1..=10)
        .map(|i| registered(&mut reg, i, 1, OrderType::Buy))
        .collect();
    let sells: Vec<_> = (100..=110)
        .map(|i| registered(&mut reg, i, 1, OrderType::Sell))
        .collect();
    let (bid_book, ask_book) = books(&reg, buys, sells);

    let result = market_match(bid_book, ask_book);
    assert_eq!(result.traded_rate, None);
    assert_eq!(result.trades.len(), 0);
    assert_eq!(result.traded_volume, 0);
    assert_eq!(result.bids_matched, 0);
    assert_eq!(result.asks_matched, 0);
    assert_eq!(result.open_bids.len(), 10);
    assert_eq!(result.open_asks.len(), 11);
    assert_eq!(result.open_bids.first().unwrap().rate, 10);
    assert_eq!(result.open_asks.first().unwrap().rate, 100);
}

#[test]
fn single_order_per_side_matches_fully() {
    let mut reg = RegisteredOrders::default();
    let buys = vec![registered(&mut reg, 100, 5, OrderType::Buy)];
    let sells = vec![registered(&mut reg, 90, 5, OrderType::Sell)];
    let (bid_book, ask_book) = books(&reg, buys, sells);

    let result = market_match(bid_book, ask_book);
    assert_eq!(result.bids_matched + result.asks_matched, 2);
    assert_eq!(result.traded_rate, Some(95));
    assert_eq!(result.traded_volume, 5);
    assert_eq!(result.trades.len(), 2);
    for trade in result.trades.iter() {
        assert_eq!(trade.rate, 95);
        assert_eq!(trade.quantity, 5);
    }
    assert_eq!(result.open_bids.len(), 0);
    assert_eq!(result.open_asks.len(), 0);
}

#[test]
fn partial_boundary_balances_volumes() {
    let mut reg = RegisteredOrders::default();
    let buys: Vec<_> = (1..=10)
        .rev()
        .map(|i| registered(&mut reg, i, 10, OrderType::Buy))
        .collect();
    let sells: Vec<_> = (1..=10)
        .map(|i| registered(&mut reg, i, 7, OrderType::Sell))
        .collect();
    let (bid_book, ask_book) = books(&reg, buys, sells);

    let result = market_match(bid_book, ask_book);
    let rate = result.traded_rate.expect("the books cross");
    let buy_sum: u64 = result
        .trades
        .iter()
        .filter(|t| t.order.order_type == OrderType::Buy)
        .map(|t| t.quantity as u64)
        .sum();
    let sell_sum: u64 = result
        .trades
        .iter()
        .filter(|t| t.order.order_type == OrderType::Sell)
        .map(|t| t.quantity as u64)
        .sum();
    assert_eq!(buy_sum, result.traded_volume);
    assert_eq!(sell_sum, result.traded_volume);
    assert_eq!(result.traded_volume, 40);
    assert_eq!(rate, 7);
    let partials: Vec<_> = result
        .trades
        .iter()
        .filter(|t| t.quantity < t.order.quantity)
        .collect();
    assert_eq!(partials.len(), 1);
    assert!(result.trades.iter().all(|t| t.rate == rate));
    // The walk stopped on a bid and the buy side was not shrunk, so no open
    // bid is priced above the clearing rate.
    for k in 0..result.open_bids.len() {
        assert!(result.open_bids.order_at(k).rate <= rate);
    }
}

#[test]
fn open_asks_uncrossed_when_walk_stops_on_sell() {
    let mut reg = RegisteredOrders::default();
    let buys = vec![registered(&mut reg, 100, 5, OrderType::Buy)];
    let sells: Vec<_> = [(90, 3), (200, 3)]
        .iter()
        .map(|&(r, q)| registered(&mut reg, r, q, OrderType::Sell))
        .collect();
    let (bid_book, ask_book) = books(&reg, buys, sells);

    let result = market_match(bid_book, ask_book);
    let rate = result.traded_rate.expect("the books cross");
    assert_eq!(rate, 95);
    assert_eq!(result.traded_volume, 3);
    // The walk stopped on an ask and the sell side was not shrunk, so no
    // open ask is priced below the clearing rate.
    for k in 0..result.open_asks.len() {
        assert!(result.open_asks.order_at(k).rate >= rate);
    }
}

#[test]
fn trades_all_clear_at_one_rate() {
    let mut reg = RegisteredOrders::default();
    let buys: Vec<_> = [104, 101, 97, 95]
        .iter()
        .map(|&i| registered(&mut reg, i, 3, OrderType::Buy))
        .collect();
    let sells: Vec<_> = [93, 96, 99, 200]
        .iter()
        .map(|&i| registered(&mut reg, i, 4, OrderType::Sell))
        .collect();
    let (bid_book, ask_book) = books(&reg, buys, sells);

    let result = market_match(bid_book, ask_book);
    let rate = result.traded_rate.expect("the books cross");
    assert!(result.trades.iter().all(|t| t.rate == rate));
    assert!(result.trades.iter().all(|t| t.quantity <= t.order.quantity));
    // No order clears at a worse rate than it quoted.
    for t in result.trades.iter() {
        if t.order.order_type == OrderType::Buy {
            assert!(t.order.rate >= rate);
        } else {
            assert!(t.order.rate <= rate);
        }
    }
    let buy_sum: u64 = result
        .trades
        .iter()
        .filter(|t| t.order.order_type == OrderType::Buy)
        .map(|t| t.quantity as u64)
        .sum();
    let sell_sum: u64 = result
        .trades
        .iter()
        .filter(|t| t.order.order_type == OrderType::Sell)
        .map(|t| t.quantity as u64)
        .sum();
    assert_eq!(buy_sum, result.traded_volume);
    assert_eq!(sell_sum, result.traded_volume);
}

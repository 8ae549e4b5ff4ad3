use hft::market::market_match;
use hft::orders::{Order, OrderType, Price, RegisteredOrder, RegisteredOrders};
use hft::sorted_vec_orders::SortedOrders;

fn test_order(
    registered: &mut RegisteredOrders,
    rate: Price,
    quantity: u32,
    order_type: OrderType,
) -> RegisteredOrder {
    let order = Order { order_type, quantity, rate };
    registered.add_get_order(order, 0)
}

fn test_data(buy_quantity: u32, sell_quantity: u32) -> (SortedOrders, SortedOrders) {
    let mut orders = RegisteredOrders::default();
    let mut buy_samples: Vec<_> = (1..=100)
        .map(|i| test_order(&mut orders, i, buy_quantity, OrderType::Buy))
        .collect();
    let mut sell_samples: Vec<_> = (1..=100)
        .map(|i| test_order(&mut orders, i, sell_quantity, OrderType::Sell))
        .collect();
    let mut buy_orders = SortedOrders::new(OrderType::Buy);
    let mut sell_orders = SortedOrders::new(OrderType::Sell);
    buy_orders.add_remove_batch(&mut buy_samples, &orders);
    sell_orders.add_remove_batch(&mut sell_samples, &orders);
    (buy_orders, sell_orders)
}

#[test]
fn market_match_result_quantity_1() {
    let (bid_orders, ask_orders) = test_data(1, 1);
    assert_eq!(bid_orders.first().unwrap().rate, 100);
    assert_eq!(ask_orders.first().unwrap().rate, 1);

    let result = market_match(bid_orders, ask_orders);
    assert_eq!(result.traded_rate, Some(51));
    assert_eq!(result.traded_volume, 50);

    let (bids, asks): (Vec<_>, Vec<_>) = result
        .trades
        .iter()
        .partition(|deal| deal.order.order_type == OrderType::Buy);
    assert!(bids
        .iter()
        .all(|deal| Some(deal.rate) <= result.traded_rate));
    assert!(asks
        .iter()
        .all(|deal| Some(deal.rate) >= result.traded_rate));
    assert_eq!(
        bids.iter().map(|deal| deal.quantity).sum::<u32>(),
        asks.iter().map(|deal| deal.quantity).sum::<u32>()
    );
}

#[test]
fn market_match_result_big_quantity_buy_side() {
    let (bid_orders, ask_orders) = test_data(10, 1);

    let result = market_match(bid_orders, ask_orders);
    assert_eq!(result.traded_rate, Some(92));
    assert_eq!(result.traded_volume, 90);
    let (bids, asks): (Vec<_>, Vec<_>) = result
        .trades
        .iter()
        .partition(|deal| deal.order.order_type == OrderType::Buy);
    assert!(bids
        .iter()
        .all(|deal| Some(deal.rate) <= result.traded_rate));
    assert!(asks
        .iter()
        .all(|deal| Some(deal.rate) >= result.traded_rate));
    assert_eq!(
        bids.iter().map(|deal| deal.quantity).sum::<u32>(),
        asks.iter().map(|deal| deal.quantity).sum::<u32>()
    );
}

#[test]
fn market_match_result_big_quantity_sell_side() {
    let (bid_orders, ask_orders) = test_data(1, 10);

    let result = market_match(bid_orders, ask_orders);
    assert_eq!(result.traded_rate, Some(9));
    assert_eq!(result.traded_volume, 90);

    let (bids, asks): (Vec<_>, Vec<_>) = result
        .trades
        .iter()
        .partition(|deal| deal.order.order_type == OrderType::Buy);
    assert!(bids
        .iter()
        .all(|deal| Some(deal.rate) <= result.traded_rate));
    assert!(asks
        .iter()
        .all(|deal| Some(deal.rate) >= result.traded_rate));
    assert_eq!(
        bids.iter().map(|deal| deal.quantity).sum::<u32>(),
        asks.iter().map(|deal| deal.quantity).sum::<u32>()
    );
}

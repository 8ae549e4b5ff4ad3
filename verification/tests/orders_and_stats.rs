use hft::orders::{Order, OrderType, RegisteredOrders};
use hft::stats::Stats;
use nanorand::WyRand;

#[test]
fn from_draws_follows_the_band_and_spread() {
    // raw 1005 squeezed into [100, 1000) gives 1005 % 900 + 100 = 205; a buy
    // sits half the spread below it, a sell half above.
    let buy = Order::from_draws(true, 1005, 42, 100, 1000, 50);
    assert_eq!(buy.order_type, OrderType::Buy);
    assert_eq!(buy.rate, 180);
    assert_eq!(buy.quantity, 42);
    let sell = Order::from_draws(false, 1005, 7, 100, 1000, 50);
    assert_eq!(sell.order_type, OrderType::Sell);
    assert_eq!(sell.rate, 230);
    assert_eq!(sell.quantity, 7);
}

#[test]
fn random_orders_stay_in_the_configured_band() {
    let mut rng = WyRand::new_seed(7);
    for _ in 0..200 {
        let order = Order::random(&mut rng, 850_00, 1_150_00, 100_00);
        assert!(order.quantity >= 1 && order.quantity < 1000);
        assert!(order.rate >= 850_00 - 50_00);
        assert!(order.rate < 1_150_00 + 50_00);
    }
}

#[test]
fn init_from_order_copies_every_field() {
    let mut reg = RegisteredOrders::new();
    let registered = reg.add_get_order(
        Order { order_type: OrderType::Sell, rate: -17, quantity: 9 },
        3,
    );
    assert_eq!(registered.order_type, OrderType::Sell);
    assert_eq!(registered.rate, -17);
    assert_eq!(registered.quantity, 9);
    assert_eq!(registered.epoch, 3);
    assert_eq!(reg.get(registered.id).unwrap(), &registered);
}

#[test]
fn stats_records_periods_in_order() {
    let mut stats = Stats::default();
    stats.add_period(1_500, 100_000, 12, 30, 4);
    stats.add_period(900, 99_000, 7, 25, 2);
    assert_eq!(stats.processing_times().as_slice(), &[1_500, 900]);
    assert_eq!(stats.period_times().as_slice(), &[100_000, 99_000]);
    assert_eq!(stats.trade_counts().as_slice(), &[12, 7]);
    assert_eq!(stats.add_counts().as_slice(), &[30, 25]);
    assert_eq!(stats.cancel_counts().as_slice(), &[4, 2]);
}

use hft::orders::{Order, OrderType, RegisteredOrders};
use hft::sorted_vec_orders::SortedOrders;
use nanorand::WyRand;

#[test]
fn sorted_orders() {
    for order_type in &[OrderType::Buy, OrderType::Sell] {
        let mut registered = RegisteredOrders::default();
        let mut orders = SortedOrders::new(*order_type);
        let mut rng = WyRand::new_seed(1);
        let mut samples: Vec<_> = (0..)
            .map(|i: u32| (i, Order::random(&mut rng, 100, 1000, 500)))
            .filter(|(_, order)| order.order_type == *order_type)
            .map(|(_, order)| registered.add_get_order(order, 0))
            .take(10_000)
            .collect();
        orders.add_remove_batch(&mut samples, &registered);
        assert_eq!(
            orders
                .entries()
                .iter()
                .zip(orders.entries().iter().skip(1))
                .find(|(a, b)| {
                    if *order_type == OrderType::Buy {
                        a.rate < b.rate
                    } else {
                        b.rate < a.rate
                    }
                }),
            None
        );
        assert_eq!(orders.len(), 10_000);
        let mut samples: Vec<_> = (20_000..)
            .map(|i: u32| (i, Order::random(&mut rng, 100, 1000, 500)))
            .filter(|(_, order)| order.order_type == *order_type)
            .map(|(_, order)| registered.add_get_order(order, 1))
            .take(10_000)
            .collect();
        registered.retain_rate_below(900);
        orders.add_remove_batch(&mut samples, &registered);
        for order in orders.entries().iter() {
            assert!(registered.contains_key(order.id));
        }
        assert_eq!(orders.len(), registered.len());
    }
}

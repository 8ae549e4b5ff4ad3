use hft::orders::{CancelSet, Order, OrderType, RegisteredOrder, RegisteredOrders};

fn buy(rate: i32, quantity: u32) -> Order {
    Order { order_type: OrderType::Buy, rate, quantity }
}

#[test]
fn registry_round_trip_restores_len() {
    let mut reg = RegisteredOrders::new();
    let kept = reg.add_get_order(buy(10, 1), 0);
    let before = reg.len();
    let transient = reg.add_get_order(buy(20, 2), 0);
    assert_eq!(reg.len(), before + 1);
    let removed = reg.remove_order(transient.id);
    assert!(removed.is_some());
    assert_eq!(removed.unwrap().rate, 20);
    assert_eq!(reg.len(), before);
    assert!(reg.contains_key(kept.id));
    assert_eq!(reg.get(kept.id).unwrap().rate, 10);
}

#[test]
fn stale_handle_never_resolves_after_slot_reuse() {
    let mut reg = RegisteredOrders::new();
    let first = reg.add_get_order(buy(10, 1), 0);
    assert!(reg.remove_order(first.id).is_some());
    // The freed slot is reused, but under a new generation.
    let second = reg.add_get_order(buy(30, 3), 1);
    assert_ne!(first.id, second.id);
    assert!(reg.get(first.id).is_none());
    assert!(!reg.contains_key(first.id));
    assert!(reg.remove_order(first.id).is_none());
    assert_eq!(reg.get(second.id).unwrap().rate, 30);
    assert_eq!(reg.len(), 1);
}

#[test]
fn modify_overwrites_live_and_ignores_stale() {
    let mut reg = RegisteredOrders::new();
    let order = reg.add_get_order(buy(10, 8), 0);
    let mut changed = order;
    changed.quantity = 3;
    reg.modify_order(changed);
    assert_eq!(reg.get(order.id).unwrap().quantity, 3);

    let gone = reg.add_get_order(buy(11, 1), 0);
    reg.remove_order(gone.id).unwrap();
    let mut ghost_write: RegisteredOrder = order;
    ghost_write.id = gone.id;
    reg.modify_order(ghost_write);
    assert!(reg.get(gone.id).is_none());
    assert_eq!(reg.len(), 1);
}

#[test]
fn retain_rate_below_drops_expensive_orders() {
    let mut reg = RegisteredOrders::new();
    let cheap = reg.add_get_order(buy(5, 1), 0);
    let dear = reg.add_get_order(buy(500, 1), 0);
    let edge = reg.add_get_order(buy(100, 1), 0);
    reg.retain_rate_below(100);
    assert!(reg.contains_key(cheap.id));
    assert!(!reg.contains_key(dear.id));
    assert!(!reg.contains_key(edge.id));
    assert_eq!(reg.len(), 1);
}

#[test]
fn cancel_set_records_and_forgets() {
    let mut reg = RegisteredOrders::new();
    let a = reg.add_get_order(buy(1, 1), 0);
    let b = reg.add_get_order(buy(2, 1), 0);
    let mut cancels = CancelSet::new();
    assert_eq!(cancels.len(), 0);
    cancels.insert(a.id);
    assert!(cancels.contains(a.id));
    assert!(!cancels.contains(b.id));
    assert_eq!(cancels.len(), 1);
    cancels.clear();
    assert!(!cancels.contains(a.id));
    assert_eq!(cancels.len(), 0);
}

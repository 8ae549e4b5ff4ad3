use hft::orders::{CancelSet, Order, OrderType, Price, RegisteredOrder, RegisteredOrders};
use hft::sorted_vec_orders::SortedOrders;

fn reg_order(
    reg: &mut RegisteredOrders,
    rate: Price,
    quantity: u32,
    order_type: OrderType,
) -> RegisteredOrder {
    reg.add_get_order(Order { order_type, rate, quantity }, 0)
}

fn assert_sorted(book: &SortedOrders, order_type: OrderType) {
    let entries = book.entries();
    for pair in entries.iter().zip(entries.iter().skip(1)) {
        if order_type == OrderType::Buy {
            assert!(pair.0.rate >= pair.1.rate);
        } else {
            assert!(pair.0.rate <= pair.1.rate);
        }
    }
}

#[test]
fn add_batch_sorts_each_side() {
    let mut reg = RegisteredOrders::default();
    let rates: [Price; 7] = [5, -3, 9, 1, 9, 0, 7];
    for order_type in [OrderType::Buy, OrderType::Sell] {
        let mut batch: Vec<_> = rates
            .iter()
            .map(|&r| reg_order(&mut reg, r, 2, order_type))
            .collect();
        let mut book = SortedOrders::new(order_type);
        book.add_batch(&mut batch);
        assert!(batch.is_empty());
        assert_eq!(book.len(), 7);
        assert_sorted(&book, order_type);
        let expected_first = if order_type == OrderType::Buy { 9 } else { -3 };
        assert_eq!(book.first().unwrap().rate, expected_first);
    }
}

#[test]
fn add_batch_keeps_existing_entries() {
    let mut reg = RegisteredOrders::default();
    let mut first: Vec<_> = [4, 2].iter().map(|&r| reg_order(&mut reg, r, 1, OrderType::Buy)).collect();
    let mut second: Vec<_> = [3, 5].iter().map(|&r| reg_order(&mut reg, r, 1, OrderType::Buy)).collect();
    let mut book = SortedOrders::new(OrderType::Buy);
    book.add_batch(&mut first);
    book.add_batch(&mut second);
    assert_eq!(book.len(), 4);
    let rates: Vec<_> = book.entries().iter().map(|o| o.rate).collect();
    assert_eq!(rates, vec![5, 4, 3, 2]);
}

#[test]
fn remove_batch_drops_cancelled_entries_in_order() {
    let mut reg = RegisteredOrders::default();
    let mut batch: Vec<_> = [10, 8, 6, 4]
        .iter()
        .map(|&r| reg_order(&mut reg, r, 1, OrderType::Buy))
        .collect();
    let cancelled = batch[1].id;
    let mut book = SortedOrders::new(OrderType::Buy);
    book.add_batch(&mut batch);
    let mut cancels = CancelSet::new();
    cancels.insert(cancelled);
    book.remove_batch(&cancels);
    assert_eq!(book.len(), 3);
    let rates: Vec<_> = book.entries().iter().map(|o| o.rate).collect();
    assert_eq!(rates, vec![10, 6, 4]);
}

#[test]
fn add_remove_hash_set_batch_merges_and_filters() {
    let mut reg = RegisteredOrders::default();
    let mut current: Vec<_> = [9, 5, 1]
        .iter()
        .map(|&r| reg_order(&mut reg, r, 1, OrderType::Sell))
        .collect();
    let mut book = SortedOrders::new(OrderType::Sell);
    book.add_batch(&mut current);

    let mut incoming: Vec<_> = [7, 3]
        .iter()
        .map(|&r| reg_order(&mut reg, r, 1, OrderType::Sell))
        .collect();
    let dropped_old = book.first().unwrap().id;
    let dropped_new = incoming[1].id;
    let mut cancels = CancelSet::new();
    cancels.insert(dropped_old);
    cancels.insert(dropped_new);
    book.add_remove_hash_set_batch(&mut incoming, &mut cancels);
    assert!(incoming.is_empty());
    assert_eq!(cancels.len(), 0);
    let rates: Vec<_> = book.entries().iter().map(|o| o.rate).collect();
    assert_eq!(rates, vec![5, 7, 9]);
}

#[test]
fn drain_prefix_takes_the_best_priced_entries() {
    let mut reg = RegisteredOrders::default();
    let mut batch: Vec<_> = [1, 2, 3, 4, 5]
        .iter()
        .map(|&r| reg_order(&mut reg, r, 1, OrderType::Sell))
        .collect();
    let mut book = SortedOrders::new(OrderType::Sell);
    book.add_batch(&mut batch);
    let drained = book.drain_prefix(2);
    let drained_rates: Vec<_> = drained.iter().map(|o| o.rate).collect();
    assert_eq!(drained_rates, vec![1, 2, 3]);
    let rest: Vec<_> = book.entries().iter().map(|o| o.rate).collect();
    assert_eq!(rest, vec![4, 5]);
    assert_sorted(&book, OrderType::Sell);
}

#[test]
fn pop_returns_the_worst_priced_entry() {
    let mut reg = RegisteredOrders::default();
    let mut batch: Vec<_> = [6, 2, 4]
        .iter()
        .map(|&r| reg_order(&mut reg, r, 1, OrderType::Buy))
        .collect();
    let mut book = SortedOrders::new(OrderType::Buy);
    book.add_batch(&mut batch);
    assert_eq!(book.pop().unwrap().rate, 2);
    assert_eq!(book.pop().unwrap().rate, 4);
    assert_eq!(book.pop().unwrap().rate, 6);
    assert!(book.pop().is_none());
    assert_eq!(book.side(), OrderType::Buy);
}

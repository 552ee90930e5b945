use order_book::api::Order;
use order_book::price_level_b_tree_order_book::PriceLevelBTreeOrderBook;
use order_book::test_suite;
use order_book::test_suite::OrderMatcher;
use order_book::test_suite::Verdict;

#[test]
fn default_is_empty() {
    assert_eq!(
        test_suite::default_is_empty::<PriceLevelBTreeOrderBook>(),
        Verdict::Passed
    );
}

#[test]
fn add_query_remove_single_buy_order() {
    assert_eq!(
        test_suite::add_query_remove_single_buy_order::<PriceLevelBTreeOrderBook>(),
        Verdict::Passed
    );
}

#[test]
fn add_query_remove_single_sell_order() {
    assert_eq!(
        test_suite::add_query_remove_single_sell_order::<PriceLevelBTreeOrderBook>(),
        Verdict::Passed
    );
}

#[test]
fn single_resident_buy_is_fully_executed() {
    assert_eq!(
        test_suite::single_resident_buy_is_fully_executed::<PriceLevelBTreeOrderBook>(),
        Verdict::Passed
    );
}

#[test]
fn single_resident_sell_is_fully_executed() {
    assert_eq!(
        test_suite::single_resident_sell_is_fully_executed::<PriceLevelBTreeOrderBook>(),
        Verdict::Passed
    );
}

#[test]
fn buys_reported_with_price_time_priority() {
    assert_eq!(
        test_suite::buys_reported_with_price_time_priority::<PriceLevelBTreeOrderBook>(),
        Verdict::Passed
    );
}

#[test]
fn sells_reported_with_price_time_priority() {
    assert_eq!(
        test_suite::sells_reported_with_price_time_priority::<PriceLevelBTreeOrderBook>(),
        Verdict::Passed
    );
}

#[test]
fn buys_execute_with_price_time_priority() {
    assert_eq!(
        test_suite::buys_execute_with_price_time_priority::<PriceLevelBTreeOrderBook>(),
        Verdict::Passed
    );
}

#[test]
fn sells_execute_with_price_time_priority() {
    assert_eq!(
        test_suite::sells_execute_with_price_time_priority::<PriceLevelBTreeOrderBook>(),
        Verdict::Passed
    );
}

#[test]
fn is_empty_sees_both_sides() {
    let mut book = PriceLevelBTreeOrderBook::default();
    assert!(test_suite::is_empty(&book));
    let quantity = order_book::positive::Positive::new(1).unwrap();
    let entered = order_book::api::UnconditionalOrderBookApi::unconditional_sell(&mut book, quantity, 9);
    assert!(entered.is_entered_order_book());
    assert!(!test_suite::is_empty(&book));
}

#[test]
fn matcher_looks_at_expected_fields_only() {
    let order = Order { quantity: 3, unit_price: 7, id: 11 };
    assert!(OrderMatcher::with_id(11).eq(&order));
    assert!(!OrderMatcher::with_id(12).eq(&order));
    let any = OrderMatcher { quantity: None, unit_price: None, id: None };
    assert!(any.eq(&order));
    let full = OrderMatcher { quantity: Some(3), unit_price: Some(7), id: Some(11) };
    assert!(full.eq(&order));
    let wrong_quantity = OrderMatcher { quantity: Some(4), unit_price: Some(7), id: Some(11) };
    assert!(!wrong_quantity.eq(&order));
    let wrong_price = OrderMatcher { quantity: None, unit_price: Some(8), id: None };
    assert!(!wrong_price.eq(&order));
}

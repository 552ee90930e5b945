use order_book::api::BuyEntryOrExecution;
use order_book::api::BuyOrSell;
use order_book::api::Cancelled;
use order_book::api::ConditionalBuyArgs;
use order_book::api::ConditionalSellArgs;
use order_book::api::NoSuchOrder;
use order_book::api::Order;
use order_book::api::OrderBookApi;
use order_book::api::ReportingOrderBookApi;
use order_book::api::SellEntryOrExecution;
use order_book::api::UnconditionalOrderBookApi;
use order_book::positive::Positive;
use order_book::price_level_b_tree_order_book::PriceLevelBTreeOrderBook;
use std::cell::Cell;
use std::ops::ControlFlow;

fn qty(n: u64) -> Positive {
    Positive::new(n).unwrap()
}

fn spread(n: u64) -> Option<Positive> {
    Some(Positive::new(n).unwrap())
}

fn never() -> u128 {
    panic!("no identifier is needed for an order that trades")
}

/// Books a buy under a chosen identifier.
fn rest_buy(book: &mut PriceLevelBTreeOrderBook, id: u128, quantity: u64, price: u64) {
    let outcome = book.conditional_buy_with(
        qty(quantity),
        price,
        |_: ConditionalBuyArgs<'_>| ControlFlow::<(), ()>::Continue(()),
        move || id,
    );
    assert_eq!(outcome, Ok(BuyEntryOrExecution::EnteredOrderBook { id }));
}

/// Books a sell under a chosen identifier.
fn rest_sell(book: &mut PriceLevelBTreeOrderBook, id: u128, quantity: u64, price: u64) {
    let outcome = book.conditional_sell_with(
        qty(quantity),
        price,
        |_: ConditionalSellArgs<'_>| ControlFlow::<(), ()>::Continue(()),
        move || id,
    );
    assert_eq!(outcome, Ok(SellEntryOrExecution::EnteredOrderBook { id }));
}

fn order(quantity: u64, unit_price: u64, id: u128) -> Order {
    Order { quantity, unit_price, id }
}

#[test]
fn fresh_book_lists_nothing() {
    let book = PriceLevelBTreeOrderBook::default();
    assert_eq!(book.buys(), vec![]);
    assert_eq!(book.sells(), vec![]);
    assert_eq!(book.query(0), Err(NoSuchOrder));
}

#[test]
fn buy_that_rests_is_found_and_cancelled() {
    let mut book = PriceLevelBTreeOrderBook::default();
    let id = book
        .unconditional_buy(qty(4), 17)
        .into_entered_order_book()
        .unwrap();
    assert_eq!(book.query(id), Ok(BuyOrSell::Buy { quantity: 4, unit_price: 17 }));
    assert_eq!(book.buys(), vec![order(4, 17, id)]);
    assert_eq!(book.cancel(id), Ok(Cancelled));
    assert_eq!(book.query(id), Err(NoSuchOrder));
    assert_eq!(book.cancel(id), Err(NoSuchOrder));
    assert_eq!(book.buys(), vec![]);
    assert_eq!(book.sells(), vec![]);
}

#[test]
fn sell_that_rests_is_found_and_cancelled() {
    let mut book = PriceLevelBTreeOrderBook::default();
    let id = book
        .unconditional_sell(qty(6), 23)
        .into_entered_order_book()
        .unwrap();
    assert_eq!(book.query(id), Ok(BuyOrSell::Sell { quantity: 6, unit_price: 23 }));
    assert_eq!(book.sells(), vec![order(6, 23, id)]);
    assert_eq!(book.cancel(id), Ok(Cancelled));
    assert_eq!(book.query(id), Err(NoSuchOrder));
    assert_eq!(book.buys(), vec![]);
    assert_eq!(book.sells(), vec![]);
}

#[test]
fn resident_buy_is_extinguished_by_equal_sell_at_lower_price() {
    let mut book = PriceLevelBTreeOrderBook::default();
    rest_buy(&mut book, 1, 5, 10);
    assert_eq!(
        book.unconditional_sell(qty(5), 7),
        SellEntryOrExecution::MutualFullExecution { buyer: 1, spread: spread(3) }
    );
    assert_eq!(book.buys(), vec![]);
    assert_eq!(book.sells(), vec![]);
    assert_eq!(book.query(1), Err(NoSuchOrder));
}

#[test]
fn resident_sell_is_extinguished_by_equal_buy_at_its_price() {
    let mut book = PriceLevelBTreeOrderBook::default();
    rest_sell(&mut book, 1, 5, 10);
    assert_eq!(
        book.unconditional_buy(qty(5), 10),
        BuyEntryOrExecution::MutualFullExecution { seller: 1, spread: None }
    );
    assert_eq!(book.buys(), vec![]);
    assert_eq!(book.sells(), vec![]);
}

#[test]
fn sells_meet_buys_by_price_then_time() {
    let mut book = PriceLevelBTreeOrderBook::default();
    rest_buy(&mut book, 1, 1, 2);
    rest_buy(&mut book, 2, 1, 2);
    rest_buy(&mut book, 3, 1, 1);
    assert_eq!(
        book.unconditional_sell(qty(1), 1),
        SellEntryOrExecution::MutualFullExecution { buyer: 1, spread: spread(1) }
    );
    assert_eq!(
        book.unconditional_sell(qty(1), 1),
        SellEntryOrExecution::MutualFullExecution { buyer: 2, spread: spread(1) }
    );
    assert_eq!(
        book.unconditional_sell(qty(1), 1),
        SellEntryOrExecution::MutualFullExecution { buyer: 3, spread: None }
    );
    assert_eq!(book.buys(), vec![]);
}

#[test]
fn buys_meet_sells_by_price_then_time() {
    let mut book = PriceLevelBTreeOrderBook::default();
    rest_sell(&mut book, 1, 1, 5);
    rest_sell(&mut book, 2, 1, 3);
    rest_sell(&mut book, 3, 1, 3);
    assert_eq!(
        book.unconditional_buy(qty(1), 9),
        BuyEntryOrExecution::MutualFullExecution { seller: 2, spread: spread(6) }
    );
    assert_eq!(
        book.unconditional_buy(qty(1), 9),
        BuyEntryOrExecution::MutualFullExecution { seller: 3, spread: spread(6) }
    );
    assert_eq!(
        book.unconditional_buy(qty(1), 9),
        BuyEntryOrExecution::MutualFullExecution { seller: 1, spread: spread(4) }
    );
    assert_eq!(book.sells(), vec![]);
}

#[test]
fn listings_go_by_price_then_time() {
    let mut book = PriceLevelBTreeOrderBook::default();
    rest_buy(&mut book, 10, 1, 5);
    rest_buy(&mut book, 11, 2, 7);
    rest_buy(&mut book, 12, 3, 5);
    rest_buy(&mut book, 13, 4, 6);
    rest_buy(&mut book, 14, 5, 7);
    rest_sell(&mut book, 20, 1, 12);
    rest_sell(&mut book, 21, 2, 10);
    rest_sell(&mut book, 22, 3, 12);
    rest_sell(&mut book, 23, 4, 11);
    rest_sell(&mut book, 24, 5, 10);
    assert_eq!(
        book.buys(),
        vec![
            order(2, 7, 11),
            order(5, 7, 14),
            order(4, 6, 13),
            order(1, 5, 10),
            order(3, 5, 12),
        ]
    );
    assert_eq!(
        book.sells(),
        vec![
            order(2, 10, 21),
            order(5, 10, 24),
            order(4, 11, 23),
            order(1, 12, 20),
            order(3, 12, 22),
        ]
    );
}

#[test]
fn smaller_buy_leaves_the_seller_at_the_front() {
    let mut book = PriceLevelBTreeOrderBook::default();
    rest_sell(&mut book, 1, 10, 5);
    rest_sell(&mut book, 2, 10, 5);
    assert_eq!(
        book.unconditional_buy(qty(3), 8),
        BuyEntryOrExecution::BuyerFullyExecuted {
            seller: 1,
            spread: spread(3),
            sellers_remaining: 7,
        }
    );
    assert_eq!(book.query(1), Ok(BuyOrSell::Sell { quantity: 7, unit_price: 5 }));
    assert_eq!(book.sells(), vec![order(7, 5, 1), order(10, 5, 2)]);
    assert_eq!(book.buys(), vec![]);
    assert_eq!(
        book.unconditional_buy(qty(7), 5),
        BuyEntryOrExecution::MutualFullExecution { seller: 1, spread: None }
    );
    assert_eq!(book.sells(), vec![order(10, 5, 2)]);
}

#[test]
fn larger_buy_is_served_once_and_not_booked() {
    let mut book = PriceLevelBTreeOrderBook::default();
    rest_sell(&mut book, 1, 4, 5);
    rest_sell(&mut book, 2, 9, 6);
    assert_eq!(
        book.unconditional_buy(qty(10), 6),
        BuyEntryOrExecution::SellerFullyExecuted {
            seller: 1,
            spread: spread(1),
            buyers_remaining: 6,
        }
    );
    assert_eq!(book.query(1), Err(NoSuchOrder));
    assert_eq!(book.sells(), vec![order(9, 6, 2)]);
    assert_eq!(book.buys(), vec![]);
}

#[test]
fn smaller_sell_leaves_the_buyer_at_the_front() {
    let mut book = PriceLevelBTreeOrderBook::default();
    rest_buy(&mut book, 1, 10, 9);
    rest_buy(&mut book, 2, 10, 9);
    assert_eq!(
        book.unconditional_sell(qty(4), 9),
        SellEntryOrExecution::SellerFullyExecuted {
            buyer: 1,
            spread: None,
            buyers_remaining: 6,
        }
    );
    assert_eq!(book.query(1), Ok(BuyOrSell::Buy { quantity: 6, unit_price: 9 }));
    assert_eq!(book.buys(), vec![order(6, 9, 1), order(10, 9, 2)]);
    assert_eq!(book.sells(), vec![]);
}

#[test]
fn larger_sell_is_served_once_and_not_booked() {
    let mut book = PriceLevelBTreeOrderBook::default();
    rest_buy(&mut book, 1, 4, 9);
    rest_buy(&mut book, 2, 9, 8);
    assert_eq!(
        book.unconditional_sell(qty(11), 2),
        SellEntryOrExecution::BuyerFullyExecuted {
            buyer: 1,
            spread: spread(7),
            sellers_remaining: 7,
        }
    );
    assert_eq!(book.query(1), Err(NoSuchOrder));
    assert_eq!(book.buys(), vec![order(9, 8, 2)]);
    assert_eq!(book.sells(), vec![]);
}

#[test]
fn remainder_and_traded_quantity_add_up() {
    for (incoming, resting) in [(1u64, 9u64), (9, 1), (3, 4), (4, 3), (1, u64::MAX), (u64::MAX, 1)] {
        let mut book = PriceLevelBTreeOrderBook::default();
        rest_sell(&mut book, 1, resting, 5);
        let traded = incoming.min(resting);
        match book.unconditional_buy(qty(incoming), 5) {
            BuyEntryOrExecution::BuyerFullyExecuted { seller, spread, sellers_remaining } => {
                assert!(incoming < resting);
                assert_eq!(seller, 1);
                assert_eq!(spread, None);
                assert_eq!(sellers_remaining + traded, resting);
                assert_eq!(
                    book.query(1),
                    Ok(BuyOrSell::Sell { quantity: sellers_remaining, unit_price: 5 })
                );
            }
            BuyEntryOrExecution::SellerFullyExecuted { seller, spread, buyers_remaining } => {
                assert!(incoming > resting);
                assert_eq!(seller, 1);
                assert_eq!(spread, None);
                assert_eq!(buyers_remaining + traded, incoming);
                assert_eq!(book.query(1), Err(NoSuchOrder));
            }
            other => panic!("the quantities differ, yet the outcome was {:?}", other),
        }
        assert_eq!(book.buys(), vec![]);
    }
}

#[test]
fn buy_below_the_best_ask_rests() {
    let mut book = PriceLevelBTreeOrderBook::default();
    rest_sell(&mut book, 1, 4, 5);
    rest_buy(&mut book, 2, 4, 4);
    assert_eq!(book.buys(), vec![order(4, 4, 2)]);
    assert_eq!(book.sells(), vec![order(4, 5, 1)]);
}

#[test]
fn sell_above_the_best_bid_rests() {
    let mut book = PriceLevelBTreeOrderBook::default();
    rest_buy(&mut book, 1, 4, 5);
    rest_sell(&mut book, 2, 4, 6);
    assert_eq!(book.buys(), vec![order(4, 5, 1)]);
    assert_eq!(book.sells(), vec![order(4, 6, 2)]);
}

#[test]
fn aborted_buy_changes_nothing() {
    let mut book = PriceLevelBTreeOrderBook::default();
    rest_sell(&mut book, 1, 4, 5);
    rest_sell(&mut book, 2, 4, 5);
    rest_sell(&mut book, 3, 4, 4);
    rest_sell(&mut book, 4, 4, 4);
    let calls = Cell::new(0u32);
    let seen = Cell::new(0u128);
    let outcome = book.conditional_buy_with(
        qty(2),
        9,
        |args: ConditionalBuyArgs<'_>| {
            calls.set(calls.get() + 1);
            seen.set(*args.seller_id);
            ControlFlow::Break("not today")
        },
        never,
    );
    assert_eq!(outcome, Err("not today"));
    assert_eq!(calls.get(), 1);
    assert_eq!(seen.get(), 3);
    assert_eq!(
        book.sells(),
        vec![order(4, 4, 3), order(4, 4, 4), order(4, 5, 1), order(4, 5, 2)]
    );
    assert_eq!(book.buys(), vec![]);
    assert_eq!(book.query(3), Ok(BuyOrSell::Sell { quantity: 4, unit_price: 4 }));
}

#[test]
fn aborted_sell_changes_nothing() {
    let mut book = PriceLevelBTreeOrderBook::default();
    rest_buy(&mut book, 1, 4, 5);
    rest_buy(&mut book, 2, 4, 6);
    rest_buy(&mut book, 3, 4, 6);
    let calls = Cell::new(0u32);
    let seen = Cell::new(0u128);
    let outcome = book.conditional_sell(qty(9), 1, |args: ConditionalSellArgs<'_>| {
        calls.set(calls.get() + 1);
        seen.set(*args.buyer_id);
        ControlFlow::Break(77u8)
    });
    assert_eq!(outcome, Err(77u8));
    assert_eq!(calls.get(), 1);
    assert_eq!(seen.get(), 2);
    assert_eq!(book.buys(), vec![order(4, 6, 2), order(4, 6, 3), order(4, 5, 1)]);
    assert_eq!(book.sells(), vec![]);
}

#[test]
fn condition_that_continues_lets_the_trade_happen_once() {
    let mut book = PriceLevelBTreeOrderBook::default();
    rest_sell(&mut book, 1, 4, 5);
    let calls = Cell::new(0u32);
    let outcome = book.conditional_buy(qty(4), 5, |args: ConditionalBuyArgs<'_>| {
        calls.set(calls.get() + 1);
        assert_eq!(*args.seller_id, 1);
        ControlFlow::<(), ()>::Continue(())
    });
    assert_eq!(
        outcome,
        Ok(BuyEntryOrExecution::MutualFullExecution { seller: 1, spread: None })
    );
    assert_eq!(calls.get(), 1);
    assert_eq!(book.sells(), vec![]);
}

#[test]
fn condition_is_not_asked_when_nothing_can_trade() {
    let mut book = PriceLevelBTreeOrderBook::default();
    rest_sell(&mut book, 1, 4, 5);
    let outcome = book.conditional_buy(qty(4), 4, |_: ConditionalBuyArgs<'_>| -> ControlFlow<(), ()> {
        panic!("no trade is about to occur")
    });
    let id = outcome.unwrap().into_entered_order_book().unwrap();
    assert_eq!(book.buys(), vec![order(4, 4, id)]);
    let outcome = book.conditional_sell(qty(4), 5, |_: ConditionalSellArgs<'_>| -> ControlFlow<(), ()> {
        panic!("no trade is about to occur")
    });
    let later = outcome.unwrap().into_entered_order_book().unwrap();
    assert_eq!(book.sells(), vec![order(4, 5, 1), order(4, 5, later)]);
}

#[test]
fn identifier_is_drawn_once_for_an_order_that_rests() {
    let mut book = PriceLevelBTreeOrderBook::default();
    let draws = Cell::new(0u32);
    let outcome = book.conditional_sell_with(
        qty(1),
        3,
        |_: ConditionalSellArgs<'_>| ControlFlow::<(), ()>::Continue(()),
        || {
            draws.set(draws.get() + 1);
            99
        },
    );
    assert_eq!(outcome, Ok(SellEntryOrExecution::EnteredOrderBook { id: 99 }));
    assert_eq!(draws.get(), 1);
    let outcome = book.conditional_buy_with(
        qty(1),
        3,
        |_: ConditionalBuyArgs<'_>| ControlFlow::<(), ()>::Continue(()),
        never,
    );
    assert_eq!(
        outcome,
        Ok(BuyEntryOrExecution::MutualFullExecution { seller: 99, spread: None })
    );
}

#[test]
fn taken_identifier_is_reported_and_nothing_is_booked() {
    let mut book = PriceLevelBTreeOrderBook::default();
    rest_buy(&mut book, 1, 4, 5);
    rest_sell(&mut book, 2, 4, 8);
    let outcome = book.conditional_buy_with(
        qty(7),
        6,
        |_: ConditionalBuyArgs<'_>| ControlFlow::<(), ()>::Continue(()),
        || 2,
    );
    assert_eq!(outcome, Ok(BuyEntryOrExecution::IdentifierCollision { id: 2 }));
    let outcome = book.conditional_sell_with(
        qty(7),
        7,
        |_: ConditionalSellArgs<'_>| ControlFlow::<(), ()>::Continue(()),
        || 1,
    );
    assert_eq!(outcome, Ok(SellEntryOrExecution::IdentifierCollision { id: 1 }));
    assert_eq!(book.buys(), vec![order(4, 5, 1)]);
    assert_eq!(book.sells(), vec![order(4, 8, 2)]);
    assert_eq!(book.query(1), Ok(BuyOrSell::Buy { quantity: 4, unit_price: 5 }));
    assert_eq!(book.query(2), Ok(BuyOrSell::Sell { quantity: 4, unit_price: 8 }));
}

#[test]
fn identifier_of_a_departed_order_can_be_given_again() {
    let mut book = PriceLevelBTreeOrderBook::default();
    rest_buy(&mut book, 1, 4, 5);
    assert_eq!(book.cancel(1), Ok(Cancelled));
    rest_sell(&mut book, 1, 2, 3);
    assert_eq!(book.query(1), Ok(BuyOrSell::Sell { quantity: 2, unit_price: 3 }));
}

#[test]
fn cancel_takes_one_order_and_keeps_the_rest_in_order() {
    let mut book = PriceLevelBTreeOrderBook::default();
    rest_buy(&mut book, 1, 1, 5);
    rest_buy(&mut book, 2, 2, 5);
    rest_buy(&mut book, 3, 3, 5);
    rest_buy(&mut book, 4, 4, 4);
    rest_sell(&mut book, 5, 5, 9);
    assert_eq!(book.cancel(2), Ok(Cancelled));
    assert_eq!(book.buys(), vec![order(1, 5, 1), order(3, 5, 3), order(4, 4, 4)]);
    assert_eq!(book.cancel(4), Ok(Cancelled));
    assert_eq!(book.buys(), vec![order(1, 5, 1), order(3, 5, 3)]);
    assert_eq!(book.cancel(5), Ok(Cancelled));
    assert_eq!(book.sells(), vec![]);
    assert_eq!(book.cancel(6), Err(NoSuchOrder));
    assert_eq!(book.cancel(2), Err(NoSuchOrder));
    assert_eq!(book.query(2), Err(NoSuchOrder));
    assert_eq!(book.query(3), Ok(BuyOrSell::Buy { quantity: 3, unit_price: 5 }));
    assert_eq!(
        book.unconditional_sell(qty(1), 5),
        SellEntryOrExecution::MutualFullExecution { buyer: 1, spread: None }
    );
    assert_eq!(
        book.unconditional_sell(qty(3), 5),
        SellEntryOrExecution::MutualFullExecution { buyer: 3, spread: None }
    );
    assert_eq!(book.buys(), vec![]);
}

#[test]
fn cancelling_does_not_trade() {
    let mut book = PriceLevelBTreeOrderBook::default();
    rest_buy(&mut book, 1, 1, 5);
    rest_sell(&mut book, 2, 1, 6);
    rest_sell(&mut book, 3, 1, 7);
    assert_eq!(book.cancel(2), Ok(Cancelled));
    assert_eq!(book.buys(), vec![order(1, 5, 1)]);
    assert_eq!(book.sells(), vec![order(1, 7, 3)]);
}

#[test]
fn best_bid_stays_below_best_ask() {
    let mut book = PriceLevelBTreeOrderBook::default();
    let mut price = 50u64;
    for step in 0..40u64 {
        price = (price * 31 + 7) % 23 + 1;
        let quantity = qty(step % 5 + 1);
        if step % 3 == 0 {
            book.unconditional_sell(quantity, price);
        } else {
            book.unconditional_buy(quantity, price);
        }
        if step % 7 == 6 {
            if let Some(first) = book.buys().first() {
                assert_eq!(book.cancel(first.id), Ok(Cancelled));
            }
        }
        let buys = book.buys();
        let sells = book.sells();
        if let (Some(bid), Some(ask)) = (buys.first(), sells.first()) {
            assert!(bid.unit_price < ask.unit_price);
        }
        assert!(buys.windows(2).all(|pair| pair[0].unit_price >= pair[1].unit_price));
        assert!(sells.windows(2).all(|pair| pair[0].unit_price <= pair[1].unit_price));
        assert!(buys.iter().chain(sells.iter()).all(|order| order.quantity > 0));
        for listed in buys.iter() {
            assert_eq!(
                book.query(listed.id),
                Ok(BuyOrSell::Buy { quantity: listed.quantity, unit_price: listed.unit_price })
            );
        }
        for listed in sells.iter() {
            assert_eq!(
                book.query(listed.id),
                Ok(BuyOrSell::Sell { quantity: listed.quantity, unit_price: listed.unit_price })
            );
        }
    }
}

#[test]
fn identifiers_are_random_uuids() {
    let mut book = PriceLevelBTreeOrderBook::default();
    let mut ids = Vec::new();
    for price in 1..=20u64 {
        let id = book
            .unconditional_buy(qty(1), price)
            .into_entered_order_book()
            .unwrap();
        let uuid = uuid::Uuid::from_u128(id);
        assert_eq!(uuid.get_version_num(), 4);
        assert_eq!(uuid.get_variant(), uuid::Variant::RFC4122);
        ids.push(id);
    }
    let id = book
        .unconditional_sell(qty(1), 30)
        .into_entered_order_book()
        .unwrap();
    assert_eq!(uuid::Uuid::from_u128(id).get_version_num(), 4);
    ids.push(id);
    ids.sort();
    ids.dedup();
    assert_eq!(ids.len(), 21);
}

#[test]
fn clone_is_a_second_book_in_the_same_state() {
    let mut book = PriceLevelBTreeOrderBook::default();
    rest_buy(&mut book, 1, 4, 5);
    rest_sell(&mut book, 2, 4, 8);
    let mut copy = book.clone();
    assert_eq!(copy.buys(), book.buys());
    assert_eq!(copy.sells(), book.sells());
    assert_eq!(copy.cancel(1), Ok(Cancelled));
    assert_eq!(copy.buys(), vec![]);
    assert_eq!(book.buys(), vec![order(4, 5, 1)]);
    assert_eq!(copy.query(2), Ok(BuyOrSell::Sell { quantity: 4, unit_price: 8 }));
}

#[test]
fn prices_at_the_ends_of_the_range_are_listed() {
    let mut book = PriceLevelBTreeOrderBook::default();
    rest_buy(&mut book, 1, 1, 0);
    rest_sell(&mut book, 2, 1, u64::MAX);
    rest_sell(&mut book, 3, 1, 1);
    assert_eq!(book.buys(), vec![order(1, 0, 1)]);
    assert_eq!(book.sells(), vec![order(1, 1, 3), order(1, u64::MAX, 2)]);
    assert_eq!(
        book.unconditional_buy(qty(1), u64::MAX),
        BuyEntryOrExecution::MutualFullExecution { seller: 3, spread: spread(u64::MAX - 1) }
    );
    assert_eq!(
        book.unconditional_sell(qty(1), 0),
        SellEntryOrExecution::MutualFullExecution { buyer: 1, spread: None }
    );
}

#[test]
fn outcomes_tell_their_kind() {
    let entered = BuyEntryOrExecution::EnteredOrderBook { id: 5 };
    assert!(entered.is_entered_order_book());
    assert!(!entered.is_mutual_full_execution());
    assert_eq!(entered.into_entered_order_book(), Ok(5));
    let mutual = BuyEntryOrExecution::MutualFullExecution { seller: 6, spread: spread(2) };
    assert!(mutual.is_mutual_full_execution());
    assert_eq!(mutual.into_entered_order_book(), Err(mutual));
    assert_eq!(mutual.into_mutual_full_execution(), Ok((6, spread(2))));
    let buyer_done = BuyEntryOrExecution::BuyerFullyExecuted { seller: 7, spread: None, sellers_remaining: 3 };
    assert!(buyer_done.is_buyer_fully_executed());
    assert_eq!(buyer_done.into_buyer_fully_executed(), Ok((7, None, 3)));
    assert_eq!(buyer_done.into_seller_fully_executed(), Err(buyer_done));
    let seller_done = SellEntryOrExecution::SellerFullyExecuted { buyer: 8, spread: None, buyers_remaining: 4 };
    assert!(seller_done.is_seller_fully_executed());
    assert!(!seller_done.is_buyer_fully_executed());
    assert_eq!(seller_done.into_seller_fully_executed(), Ok((8, None, 4)));
    let taken = SellEntryOrExecution::IdentifierCollision { id: 9 };
    assert!(taken.is_identifier_collision());
    assert!(!taken.is_entered_order_book());
    assert_eq!(taken.into_entered_order_book(), Err(taken));
    assert_eq!(SellEntryOrExecution::EnteredOrderBook { id: 1 }.into_entered_order_book(), Ok(1));
    assert_eq!(
        SellEntryOrExecution::MutualFullExecution { buyer: 2, spread: None }.into_mutual_full_execution(),
        Ok((2, None))
    );
    assert_eq!(
        SellEntryOrExecution::BuyerFullyExecuted { buyer: 2, spread: None, sellers_remaining: 1 }
            .into_buyer_fully_executed(),
        Ok((2, None, 1))
    );
    assert_eq!(
        BuyEntryOrExecution::SellerFullyExecuted { seller: 2, spread: None, buyers_remaining: 1 }
            .into_seller_fully_executed(),
        Ok((2, None, 1))
    );
    assert!(BuyEntryOrExecution::IdentifierCollision { id: 1 }.is_identifier_collision());
}

#[test]
fn resident_orders_tell_their_side() {
    let buy = BuyOrSell::Buy { quantity: 1, unit_price: 2 };
    let sell = BuyOrSell::Sell { quantity: 3, unit_price: 4 };
    assert!(buy.is_buy());
    assert!(!buy.is_sell());
    assert!(sell.is_sell());
    assert!(!sell.is_buy());
    assert_eq!(buy.into_buy(), Ok((1, 2)));
    assert_eq!(buy.into_sell(), Err(buy));
    assert_eq!(sell.into_sell(), Ok((3, 4)));
    assert_eq!(sell.into_buy(), Err(sell));
}

#[test]
fn no_such_order_says_so() {
    assert_eq!(NoSuchOrder.message(), "No order found with that ID");
}

//! What holds of every book, proved from the rules of matching.

use crate::api::BuyEntryOrExecution;
use crate::api::BuyOrSell;
use crate::api::Order;
use crate::api::OrderId;
use crate::api::Price;
use crate::api::Quantity;
use crate::api::SellEntryOrExecution;
use crate::listing::ascending;
use crate::listing::descending;
use crate::listing::lemma_ascending_joined;
use crate::listing::lemma_ascending_none;
use crate::listing::lemma_ascending_sorted;
use crate::listing::lemma_descending_joined;
use crate::listing::lemma_descending_none;
use crate::listing::lemma_descending_sorted;
use crate::listing::price_limit;
use crate::model::at_price;
use crate::model::filled;
use crate::model::highest;
use crate::model::improvement;
use crate::model::is_highest;
use crate::model::is_lowest;
use crate::model::joined;
use crate::model::left;
use crate::model::lemma_filled;
use crate::model::lemma_highest;
use crate::model::lemma_joined;
use crate::model::lemma_location;
use crate::model::lemma_lowest;
use crate::model::lemma_rests_on;
use crate::model::lowest;
use crate::model::price_of;
use crate::model::quantity_of;
use crate::model::rests_on;
use crate::model::side_valid;
use crate::model::stands_at;
use crate::model::BookModel;
use crate::model::Side;
use vstd::prelude::*;

verus! {

/// A finite set of prices that is not empty has a lowest and a highest.
proof fn lemma_extremes(prices: Set<Price>)
    requires
        prices.finite(),
        prices.len() > 0,
    ensures
        exists|low: Price| prices.contains(low) && forall|other: Price| prices.contains(other) ==> low <= other,
        exists|high: Price| prices.contains(high) && forall|other: Price| prices.contains(other) ==> other <= high,
    decreases prices.len(),
{
    let one = prices.choose();
    let rest = prices.remove(one);
    if rest.len() == 0 {
        assert forall|other: Price| prices.contains(other) implies other == one by {
            if other != one {
                assert(rest.contains(other));
            }
        }
        assert(prices.contains(one) && forall|other: Price| prices.contains(other) ==> one <= other);
        assert(prices.contains(one) && forall|other: Price| prices.contains(other) ==> other <= one);
    } else {
        lemma_extremes(rest);
        let low = choose|low: Price| rest.contains(low) && forall|other: Price| rest.contains(other) ==> low <= other;
        let high = choose|high: Price| rest.contains(high) && forall|other: Price| rest.contains(other) ==> other <= high;
        let lower = if one <= low { one } else { low };
        let higher = if one >= high { one } else { high };
        assert forall|other: Price| prices.contains(other) implies lower <= other && other <= higher by {
            if other != one {
                assert(rest.contains(other));
            }
        }
        assert(prices.contains(lower) && forall|other: Price| prices.contains(other) ==> lower <= other);
        assert(prices.contains(higher) && forall|other: Price| prices.contains(other) ==> other <= higher);
    }
}

/// A valid side that holds an order has a lowest and a highest price.
pub proof fn lemma_best_prices(side: Side, price: Price)
    requires
        side_valid(side),
        side.contains_key(price),
    ensures
        is_lowest(side, lowest(side)),
        is_highest(side, highest(side)),
{
    assert(side.dom().contains(price));
    if side.dom().len() == 0 {
        assert(side.dom() =~= Set::<Price>::empty());
    }
    lemma_extremes(side.dom());
    let low = choose|low: Price| side.dom().contains(low) && forall|other: Price| side.dom().contains(other) ==> low <= other;
    assert(is_lowest(side, low));
    let high = choose|high: Price| side.dom().contains(high) && forall|other: Price| side.dom().contains(other) ==> other <= high;
    assert(is_highest(side, high));
}

/// A new book is valid and holds nothing: its listings are empty, and no
/// identifier is that of a resident order.
pub proof fn lemma_empty_book()
    ensures
        BookModel::empty().valid(),
        BookModel::empty().buys() == Seq::<Order>::empty(),
        BookModel::empty().sells() == Seq::<Order>::empty(),
        forall|id: OrderId| !BookModel::empty().resident(id),
        forall|id: OrderId| BookModel::empty().lookup(id) is None,
        forall|price: Price|
            !BookModel::empty().buy_crosses(price) && !BookModel::empty().sell_crosses(price),
{
    let book = BookModel::empty();
    lemma_descending_none(book.bids, 0, price_limit());
    lemma_ascending_none(book.asks, 0, price_limit());
}

/// A book is empty exactly when both of its listings are.
pub proof fn lemma_empty_listings(book: BookModel)
    ensures
        book.buys().len() == 0 && book.sells().len() == 0 <==> (forall|price: Price|
            !(book.bids.contains_key(price) && book.bids[price].len() > 0)
                && !(book.asks.contains_key(price) && book.asks[price].len() > 0)),
{
    let limit = price_limit();
    if forall|price: Price|
        !(book.bids.contains_key(price) && book.bids[price].len() > 0) && !(book.asks.contains_key(
            price,
        ) && book.asks[price].len() > 0) {
        lemma_listing_nothing(book.bids, 0, limit);
        lemma_listing_nothing(book.asks, 0, limit);
    }
    assert forall|price: Price| book.bids.contains_key(price) && book.bids[price].len() > 0
        implies book.buys().len() > 0 by {
        lemma_listing_something(book.bids, 0, limit, price);
    }
    assert forall|price: Price| book.asks.contains_key(price) && book.asks[price].len() > 0
        implies book.sells().len() > 0 by {
        lemma_listing_something(book.asks, 0, limit, price);
    }
}

/// A range of prices whose levels hold no order lists nothing.
proof fn lemma_listing_nothing(side: Side, lo: int, hi: int)
    requires
        forall|price: Price| !(side.contains_key(price) && side[price].len() > 0),
    ensures
        ascending(side, lo, hi).len() == 0,
        descending(side, lo, hi).len() == 0,
    decreases hi - lo,
{
    if lo < hi {
        lemma_listing_nothing(side, lo, hi - 1);
    }
}

/// A range of prices with an order in it lists something.
proof fn lemma_listing_something(side: Side, lo: int, hi: int, price: Price)
    requires
        lo <= price < hi,
        side.contains_key(price),
        side[price].len() > 0,
    ensures
        ascending(side, lo, hi).len() > 0,
        descending(side, lo, hi).len() > 0,
    decreases hi - lo,
{
    if price < hi - 1 {
        lemma_listing_something(side, lo, hi - 1, price);
    }
}

/// A buy that came to rest is found again as it was submitted. Cancelling it
/// gives back the book as it was before, in which the identifier is unknown.
pub proof fn lemma_buy_round_trip(book: BookModel, id: OrderId, quantity: Quantity, price: Price)
    requires
        book.valid(),
        !book.resident(id),
        quantity > 0,
    ensures
        book.buy_entry(id) == (BuyEntryOrExecution::EnteredOrderBook { id }),
        book.after_buy_entry(id, quantity, price).lookup(id) == Some(
            BuyOrSell::Buy { quantity, unit_price: price },
        ),
        book.after_buy_entry(id, quantity, price).after_cancel(id) == book,
        book.lookup(id) is None,
{
    let entered = book.after_buy_entry(id, quantity, price);
    lemma_joined(book.bids, price, id, quantity);
    let place = entered.bids[price].len() - 1;
    lemma_location(entered.bids, id, price, place);
    lemma_left_joined(book.bids, price, id, quantity);
    assert(entered.after_cancel(id) =~= book);
}

/// A sell that came to rest is found again as it was submitted. Cancelling
/// it gives back the book as it was before, in which the identifier is
/// unknown.
pub proof fn lemma_sell_round_trip(book: BookModel, id: OrderId, quantity: Quantity, price: Price)
    requires
        book.valid(),
        !book.resident(id),
        quantity > 0,
    ensures
        book.sell_entry(id) == (SellEntryOrExecution::EnteredOrderBook { id }),
        book.after_sell_entry(id, quantity, price).lookup(id) == Some(
            BuyOrSell::Sell { quantity, unit_price: price },
        ),
        book.after_sell_entry(id, quantity, price).after_cancel(id) == book,
        book.lookup(id) is None,
{
    let entered = book.after_sell_entry(id, quantity, price);
    lemma_joined(book.asks, price, id, quantity);
    let place = entered.asks[price].len() - 1;
    lemma_location(entered.asks, id, price, place);
    lemma_left_joined(book.asks, price, id, quantity);
    assert(!rests_on(entered.bids, id));
    assert(entered.after_cancel(id) =~= book);
}

/// The order that joined a side last leaves it as it was.
proof fn lemma_left_joined(side: Side, price: Price, id: OrderId, quantity: Quantity)
    requires
        side_valid(side),
        !rests_on(side, id),
        quantity > 0,
    ensures
        left(joined(side, price, id, quantity), id) == side,
{
    let after = joined(side, price, id, quantity);
    lemma_joined(side, price, id, quantity);
    let place = after[price].len() - 1;
    lemma_location(after, id, price, place);
    if side.contains_key(price) {
        assert(after[price].remove(place) =~= side[price]);
    }
    assert(left(after, id) =~= side);
}

/// One resident buy is used up by a sell of its quantity at its price or
/// below: buyer and seller are both served in full, and the book is empty.
pub proof fn lemma_single_buy_extinguished(
    id: OrderId,
    quantity: Quantity,
    bid: Price,
    ask: Price,
)
    requires
        quantity > 0,
        ask <= bid,
    ensures
        ({
            let book = BookModel::empty().after_buy_entry(id, quantity, bid);
            &&& book.valid()
            &&& book.sell_crosses(ask)
            &&& book.sell_counterparty() == id
            &&& book.sell_execution(quantity, ask) == (SellEntryOrExecution::MutualFullExecution {
                buyer: id,
                spread: improvement(bid, ask),
            })
            &&& book.after_sell_execution(quantity) == BookModel::empty()
        }),
{
    lemma_empty_book();
    let start = BookModel::empty();
    start.lemma_after_buy_entry_valid(id, quantity, bid);
    let book = start.after_buy_entry(id, quantity, bid);
    assert(book.bids.contains_key(bid));
    assert(is_highest(book.bids, bid));
    lemma_highest(book.bids, bid);
    assert(book.bids[bid] =~= seq![(id, quantity)]);
    assert(book.after_sell_execution(quantity) =~= BookModel::empty());
}

/// One resident sell is used up by a buy of its quantity at its price or
/// above: buyer and seller are both served in full, and the book is empty.
pub proof fn lemma_single_sell_extinguished(
    id: OrderId,
    quantity: Quantity,
    ask: Price,
    bid: Price,
)
    requires
        quantity > 0,
        ask <= bid,
    ensures
        ({
            let book = BookModel::empty().after_sell_entry(id, quantity, ask);
            &&& book.valid()
            &&& book.buy_crosses(bid)
            &&& book.buy_counterparty() == id
            &&& book.buy_execution(quantity, bid) == (BuyEntryOrExecution::MutualFullExecution {
                seller: id,
                spread: improvement(ask, bid),
            })
            &&& book.after_buy_execution(quantity) == BookModel::empty()
        }),
{
    lemma_empty_book();
    let start = BookModel::empty();
    start.lemma_after_sell_entry_valid(id, quantity, ask);
    let book = start.after_sell_entry(id, quantity, ask);
    assert(book.asks.contains_key(ask));
    assert(is_lowest(book.asks, ask));
    lemma_lowest(book.asks, ask);
    assert(book.asks[ask] =~= seq![(id, quantity)]);
    assert(book.after_buy_execution(quantity) =~= BookModel::empty());
}

/// The buys are listed by falling price, the sells by rising price, and
/// every listed order rests in the level of its price.
pub proof fn lemma_listings_sorted(book: BookModel)
    ensures
        forall|i: int, k: int|
            0 <= i <= k < book.buys().len() ==> (#[trigger] book.buys()[i]).unit_price >= (
            #[trigger] book.buys()[k]).unit_price,
        forall|i: int, k: int|
            0 <= i <= k < book.sells().len() ==> (#[trigger] book.sells()[i]).unit_price <= (
            #[trigger] book.sells()[k]).unit_price,
        forall|i: int|
            0 <= i < book.buys().len() ==> stands_somewhere(book.bids, #[trigger] book.buys()[i]),
        forall|i: int|
            0 <= i < book.sells().len() ==> stands_somewhere(book.asks, #[trigger] book.sells()[i]),
{
    lemma_descending_sorted(book.bids, 0, price_limit());
    lemma_ascending_sorted(book.asks, 0, price_limit());
    assert forall|i: int| 0 <= i < book.buys().len() implies stands_somewhere(
        book.bids,
        #[trigger] book.buys()[i],
    ) by {
        let order = book.buys()[i];
        let j = choose|j: int|
            0 <= j < book.bids[order.unit_price].len() && #[trigger] book.bids[order.unit_price][j]
                == (order.id, order.quantity);
        assert(stands_at(book.bids, order.id, order.unit_price, j));
    }
    assert forall|i: int| 0 <= i < book.sells().len() implies stands_somewhere(
        book.asks,
        #[trigger] book.sells()[i],
    ) by {
        let order = book.sells()[i];
        let j = choose|j: int|
            0 <= j < book.asks[order.unit_price].len() && #[trigger] book.asks[order.unit_price][j]
                == (order.id, order.quantity);
        assert(stands_at(book.asks, order.id, order.unit_price, j));
    }
}

/// The order rests on the side with the quantity and at the price shown.
pub open spec fn stands_somewhere(side: Side, order: Order) -> bool {
    exists|j: int|
        #[trigger] stands_at(side, order.id, order.unit_price, j) && side[order.unit_price][j].1
            == order.quantity
}

/// A buy that comes to rest is listed behind every buy at its price or
/// above, so behind every older buy at its own price, and ahead of every
/// buy below its price; the rest of the listing stays in its order.
pub proof fn lemma_buy_listed_by_price_then_time(
    book: BookModel,
    id: OrderId,
    quantity: Quantity,
    price: Price,
)
    requires
        !book.resident(id),
    ensures
        exists|place: int|
            {
                &&& 0 <= place <= book.buys().len()
                &&& #[trigger] book.buys().insert(place, Order { quantity, unit_price: price, id })
                    == book.after_buy_entry(id, quantity, price).buys()
                &&& forall|i: int| 0 <= i < place ==> (#[trigger] book.buys()[i]).unit_price >= price
                &&& forall|i: int|
                    place <= i < book.buys().len() ==> (#[trigger] book.buys()[i]).unit_price
                        < price
            },
{
    let limit = price_limit();
    lemma_descending_joined(book.bids, price, id, quantity);
    lemma_descending_sorted(book.bids, price as int, limit);
    lemma_descending_sorted(book.bids, 0, price as int);
    let ahead = descending(book.bids, price as int, limit);
    let behind = descending(book.bids, 0, price as int);
    let place = ahead.len() as int;
    assert(book.buys() == ahead + behind);
    assert forall|i: int| 0 <= i < place implies (#[trigger] book.buys()[i]).unit_price >= price by {
        assert(book.buys()[i] == ahead[i]);
    }
    assert forall|i: int| place <= i < book.buys().len() implies (
    #[trigger] book.buys()[i]).unit_price < price by {
        assert(book.buys()[i] == behind[i - place]);
    }
    assert(book.buys().insert(place, Order { quantity, unit_price: price, id })
        == book.after_buy_entry(id, quantity, price).buys());
}

/// A sell that comes to rest is listed behind every sell at its price or
/// below, so behind every older sell at its own price, and ahead of every
/// sell above its price; the rest of the listing stays in its order.
pub proof fn lemma_sell_listed_by_price_then_time(
    book: BookModel,
    id: OrderId,
    quantity: Quantity,
    price: Price,
)
    requires
        !book.resident(id),
    ensures
        exists|place: int|
            {
                &&& 0 <= place <= book.sells().len()
                &&& #[trigger] book.sells().insert(place, Order { quantity, unit_price: price, id })
                    == book.after_sell_entry(id, quantity, price).sells()
                &&& forall|i: int|
                    0 <= i < place ==> (#[trigger] book.sells()[i]).unit_price <= price
                &&& forall|i: int|
                    place <= i < book.sells().len() ==> (#[trigger] book.sells()[i]).unit_price
                        > price
            },
{
    let limit = price_limit();
    lemma_ascending_joined(book.asks, price, id, quantity);
    lemma_ascending_sorted(book.asks, 0, price + 1);
    lemma_ascending_sorted(book.asks, price + 1, limit);
    let ahead = ascending(book.asks, 0, price + 1);
    let behind = ascending(book.asks, price + 1, limit);
    let place = ahead.len() as int;
    assert(book.sells() == ahead + behind);
    assert forall|i: int| 0 <= i < place implies (#[trigger] book.sells()[i]).unit_price
        <= price by {
        assert(book.sells()[i] == ahead[i]);
    }
    assert forall|i: int| place <= i < book.sells().len() implies (
    #[trigger] book.sells()[i]).unit_price > price by {
        assert(book.sells()[i] == behind[i - place]);
    }
    assert(book.sells().insert(place, Order { quantity, unit_price: price, id })
        == book.after_sell_entry(id, quantity, price).sells());
}

/// A buy that trades meets the oldest order at the lowest ask. Where the two
/// quantities differ, the smaller is traded: the party with the smaller
/// quantity is served in full, and what is reported as left is what the
/// other party still wants. A seller who is served in full leaves the book;
/// one who is not stays, at the same price, with what is left.
pub proof fn lemma_buy_conserves(book: BookModel, quantity: Quantity, price: Price)
    requires
        book.valid(),
        book.buy_crosses(price),
        quantity > 0,
    ensures
        ({
            let ask = lowest(book.asks);
            let (seller, offered) = book.asks[ask][0];
            let after = book.after_buy_execution(quantity);
            &&& is_lowest(book.asks, ask)
            &&& ask <= price
            &&& book.lookup(seller) == Some(BuyOrSell::Sell { quantity: offered, unit_price: ask })
            &&& after.valid()
            &&& after.bids == book.bids
            &&& match book.buy_execution(quantity, price) {
                BuyEntryOrExecution::BuyerFullyExecuted { seller: met, spread, sellers_remaining } => {
                    &&& quantity < offered
                    &&& met == seller
                    &&& spread == improvement(ask, price)
                    &&& sellers_remaining + quantity == offered
                    &&& after.lookup(seller) == Some(
                        BuyOrSell::Sell { quantity: sellers_remaining, unit_price: ask },
                    )
                },
                BuyEntryOrExecution::MutualFullExecution { seller: met, spread } => {
                    &&& quantity == offered
                    &&& met == seller
                    &&& spread == improvement(ask, price)
                    &&& !after.resident(seller)
                },
                BuyEntryOrExecution::SellerFullyExecuted { seller: met, spread, buyers_remaining } => {
                    &&& quantity > offered
                    &&& met == seller
                    &&& spread == improvement(ask, price)
                    &&& buyers_remaining + offered == quantity
                    &&& !after.resident(seller)
                },
                _ => false,
            }
            &&& forall|other: OrderId|
                other != seller ==> after.lookup(other) == #[trigger] book.lookup(other)
        }),
{
    let witness = choose|ask: Price| book.asks.contains_key(ask) && ask <= price;
    lemma_best_prices(book.asks, witness);
    let ask = lowest(book.asks);
    let (seller, offered) = book.asks[ask][0];
    let after = book.after_buy_execution(quantity);
    assert(stands_at(book.asks, seller, ask, 0));
    lemma_location(book.asks, seller, ask, 0);
    book.lemma_after_buy_execution_valid(quantity);
    lemma_filled(book.asks, ask, quantity);
    lemma_lookup_after_fill(book.asks, ask, quantity);
    assert(!rests_on(book.bids, seller)) by {
        if rests_on(book.bids, seller) {
            lemma_rests_on(book.bids, seller);
        }
    }
    assert forall|other: OrderId| other != seller implies after.lookup(other)
        == #[trigger] book.lookup(other) by {
        if rests_on(book.asks, other) && rests_on(book.bids, other) {
            lemma_rests_on(book.asks, other);
            lemma_rests_on(book.bids, other);
        }
    }
}

/// A sell that trades meets the oldest order at the highest bid. Where the
/// two quantities differ, the smaller is traded: the party with the smaller
/// quantity is served in full, and what is reported as left is what the
/// other party still wants. A buyer who is served in full leaves the book;
/// one who is not stays, at the same price, with what is left.
pub proof fn lemma_sell_conserves(book: BookModel, quantity: Quantity, price: Price)
    requires
        book.valid(),
        book.sell_crosses(price),
        quantity > 0,
    ensures
        ({
            let bid = highest(book.bids);
            let (buyer, wanted) = book.bids[bid][0];
            let after = book.after_sell_execution(quantity);
            &&& is_highest(book.bids, bid)
            &&& bid >= price
            &&& book.lookup(buyer) == Some(BuyOrSell::Buy { quantity: wanted, unit_price: bid })
            &&& after.valid()
            &&& after.asks == book.asks
            &&& match book.sell_execution(quantity, price) {
                SellEntryOrExecution::SellerFullyExecuted { buyer: met, spread, buyers_remaining } => {
                    &&& quantity < wanted
                    &&& met == buyer
                    &&& spread == improvement(bid, price)
                    &&& buyers_remaining + quantity == wanted
                    &&& after.lookup(buyer) == Some(
                        BuyOrSell::Buy { quantity: buyers_remaining, unit_price: bid },
                    )
                },
                SellEntryOrExecution::MutualFullExecution { buyer: met, spread } => {
                    &&& quantity == wanted
                    &&& met == buyer
                    &&& spread == improvement(bid, price)
                    &&& !after.resident(buyer)
                },
                SellEntryOrExecution::BuyerFullyExecuted { buyer: met, spread, sellers_remaining } => {
                    &&& quantity > wanted
                    &&& met == buyer
                    &&& spread == improvement(bid, price)
                    &&& sellers_remaining + wanted == quantity
                    &&& !after.resident(buyer)
                },
                _ => false,
            }
            &&& forall|other: OrderId|
                other != buyer ==> after.lookup(other) == #[trigger] book.lookup(other)
        }),
{
    let witness = choose|bid: Price| book.bids.contains_key(bid) && bid >= price;
    lemma_best_prices(book.bids, witness);
    let bid = highest(book.bids);
    let (buyer, wanted) = book.bids[bid][0];
    let after = book.after_sell_execution(quantity);
    assert(stands_at(book.bids, buyer, bid, 0));
    lemma_location(book.bids, buyer, bid, 0);
    book.lemma_after_sell_execution_valid(quantity);
    lemma_filled(book.bids, bid, quantity);
    lemma_lookup_after_fill(book.bids, bid, quantity);
    assert(!rests_on(book.asks, buyer)) by {
        if rests_on(book.asks, buyer) {
            lemma_rests_on(book.asks, buyer);
        }
    }
    assert forall|other: OrderId| other != buyer implies after.lookup(other)
        == #[trigger] book.lookup(other) by {
        if rests_on(book.asks, other) && rests_on(book.bids, other) {
            lemma_rests_on(book.asks, other);
            lemma_rests_on(book.bids, other);
        }
    }
}

/// Where every order of a side rests after a trade at `price`.
proof fn lemma_lookup_after_fill(side: Side, price: Price, quantity: Quantity)
    requires
        side_valid(side),
        side.contains_key(price),
        quantity > 0,
    ensures
        ({
            let after = filled(side, price, quantity);
            let (met, resting) = side[price][0];
            &&& forall|other: OrderId|
                other != met ==> (rests_on(after, other) <==> #[trigger] rests_on(side, other))
            &&& forall|other: OrderId|
                other != met && rests_on(side, other) ==> price_of(after, other)
                    == #[trigger] price_of(side, other)
            &&& forall|other: OrderId|
                other != met && rests_on(side, other) ==> quantity_of(after, other)
                    == #[trigger] quantity_of(side, other)
            &&& rests_on(after, met) <==> quantity < resting
            &&& quantity < resting ==> price_of(after, met) == price
                && quantity_of(after, met) == resting - quantity
        }),
{
    let after = filled(side, price, quantity);
    let (met, resting) = side[price][0];
    lemma_filled(side, price, quantity);
    assert(stands_at(side, met, price, 0));
    assert(at_price(side, met, price));
    assert forall|other: OrderId| other != met implies (rests_on(after, other) <==> #[trigger] rests_on(
        side,
        other,
    )) by {
        if rests_on(after, other) {
            lemma_rests_on(after, other);
            let p = price_of(after, other);
            assert(at_price(side, other, p));
            let j = choose|j: int| stands_at(side, other, p, j);
            assert(stands_at(side, other, p, j));
        }
        if rests_on(side, other) {
            lemma_rests_on(side, other);
            let p = price_of(side, other);
            assert(at_price(after, other, p));
            let j = choose|j: int| stands_at(after, other, p, j);
            assert(stands_at(after, other, p, j));
        }
    }
    assert forall|other: OrderId| other != met && rests_on(side, other) implies price_of(
        after,
        other,
    ) == #[trigger] price_of(side, other) by {
        lemma_rests_on(side, other);
        let p = price_of(side, other);
        assert(at_price(after, other, p));
        let j = choose|j: int| stands_at(after, other, p, j);
        lemma_location(after, other, p, j);
    }
    if quantity < resting {
        assert(at_price(after, met, price));
        let j = choose|j: int| stands_at(after, met, price, j);
        lemma_location(after, met, price, j);
    } else {
        if rests_on(after, met) {
            lemma_rests_on(after, met);
        }
    }
}

/// In a valid book every buy is priced below every sell: the best bid is
/// below the best ask, unless a side is empty.
pub proof fn lemma_no_cross(book: BookModel)
    requires
        book.valid(),
    ensures
        forall|bid: Price, ask: Price|
            is_highest(book.bids, bid) && is_lowest(book.asks, ask) ==> bid < ask,
        forall|i: int, k: int|
            0 <= i < book.buys().len() && 0 <= k < book.sells().len() ==> (
            #[trigger] book.buys()[i]).unit_price < (#[trigger] book.sells()[k]).unit_price,
{
    lemma_descending_sorted(book.bids, 0, price_limit());
    lemma_ascending_sorted(book.asks, 0, price_limit());
}

/// Whatever is done to a valid book leaves a valid book, so that no
/// sequence of operations makes a buy meet or cross a sell.
pub proof fn lemma_operations_keep_valid(
    book: BookModel,
    id: OrderId,
    quantity: Quantity,
    price: Price,
)
    requires
        book.valid(),
        quantity > 0,
    ensures
        book.after_cancel(id).valid(),
        book.buy_crosses(price) ==> book.after_buy_execution(quantity).valid(),
        !book.buy_crosses(price) ==> book.after_buy_entry(id, quantity, price).valid(),
        book.sell_crosses(price) ==> book.after_sell_execution(quantity).valid(),
        !book.sell_crosses(price) ==> book.after_sell_entry(id, quantity, price).valid(),
{
    book.lemma_after_cancel_valid(id);
    if book.buy_crosses(price) {
        let witness = choose|ask: Price| book.asks.contains_key(ask) && ask <= price;
        lemma_best_prices(book.asks, witness);
        book.lemma_after_buy_execution_valid(quantity);
    } else {
        book.lemma_after_buy_entry_valid(id, quantity, price);
    }
    if book.sell_crosses(price) {
        let witness = choose|bid: Price| book.bids.contains_key(bid) && bid >= price;
        lemma_best_prices(book.bids, witness);
        book.lemma_after_sell_execution_valid(quantity);
    } else {
        book.lemma_after_sell_entry_valid(id, quantity, price);
    }
}

} // verus!

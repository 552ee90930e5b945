//! A book that keeps each side as an ordered map from price to level, and an
//! index from each resident order to its level.

use crate::api::BuyEntryOrExecution;
use crate::api::BuyOrSell;
use crate::api::Cancelled;
use crate::api::ConditionalBuyArgs;
use crate::api::ConditionalSellArgs;
use crate::api::NoSuchOrder;
use crate::api::Order;
use crate::api::OrderBookApi;
use crate::api::OrderId;
use crate::api::Price;
use crate::api::Quantity;
use crate::api::ReportingOrderBookApi;
use crate::api::SellEntryOrExecution;
use crate::listing::ascending;
use crate::listing::descending;
use crate::listing::lemma_ascending_none;
use crate::listing::lemma_ascending_split;
use crate::listing::lemma_descending_none;
use crate::listing::lemma_descending_split;
use crate::listing::level_orders;
use crate::listing::orders_at;
use crate::listing::price_limit;
use crate::model::at_price;
use crate::model::filled;
use crate::model::highest;
use crate::model::improvement;
use crate::model::is_highest;
use crate::model::is_lowest;
use crate::model::joined;
use crate::model::left;
use crate::model::lemma_filled;
use crate::model::lemma_highest;
use crate::model::lemma_joined;
use crate::model::lemma_left;
use crate::model::lemma_location;
use crate::model::lemma_lowest;
use crate::model::lemma_rests_on;
use crate::model::lowest;
use crate::model::quantity_of;
use crate::model::rests_on;
use crate::model::side_valid;
use crate::model::stands_at;
use crate::model::BookModel;
use crate::model::Side;
use crate::positive::Positive;
use crate::util::lemma_greatest_key_is_largest;
use crate::util::lemma_increasing_keys;
use crate::util::lemma_least_key_is_smallest;
use crate::util::BTreeMapExt;
use crate::util::NonEmpty;
use std::collections::BTreeMap;
use std::collections::HashMap;
use std::collections::VecDeque;
use std::ops::ControlFlow;
use vstd::prelude::*;
use vstd::std_specs::btree::spec_keys_iter;
use vstd::std_specs::iter::IteratorSpec;

verus! {

broadcast use {
    vstd::std_specs::btree::group_btree_axioms,
    vstd::std_specs::hash::group_hash_axioms,
    vstd::laws_cmp::group_laws_cmp,
};

/// The levels of one side, by price.
type Levels = BTreeMap<Price, NonEmpty<VecDeque<(OrderId, Quantity)>>>;

/// Where the index says an order rests.
#[derive(Debug, Clone, Copy, PartialEq, Eq, Hash)]
enum BuyOrSellAtPriceLevel {
    Buy(Price),
    Sell(Price),
}

/// The side that a map of levels stands for.
spec fn side_of(levels: Levels) -> Side {
    levels@.map_values(|level: NonEmpty<VecDeque<(OrderId, Quantity)>>| level@)
}

/// The index knows every resident order with its side and price, and
/// nothing else.
spec fn indexed(index: Map<OrderId, BuyOrSellAtPriceLevel>, book: BookModel) -> bool {
    &&& forall|id: OrderId, price: Price| #[trigger]
        at_price(book.bids, id, price) ==> index.contains_key(id) && index[id]
            == BuyOrSellAtPriceLevel::Buy(price)
    &&& forall|id: OrderId, price: Price| #[trigger]
        at_price(book.asks, id, price) ==> index.contains_key(id) && index[id]
            == BuyOrSellAtPriceLevel::Sell(price)
    &&& forall|id: OrderId| #[trigger]
        index.contains_key(id) ==> match index[id] {
            BuyOrSellAtPriceLevel::Buy(price) => at_price(book.bids, id, price),
            BuyOrSellAtPriceLevel::Sell(price) => at_price(book.asks, id, price),
        }
}

/// The index holds exactly the resident orders.
proof fn lemma_indexed_resident(
    index: Map<OrderId, BuyOrSellAtPriceLevel>,
    book: BookModel,
    id: OrderId,
)
    requires
        indexed(index, book),
    ensures
        index.contains_key(id) <==> book.resident(id),
        index.contains_key(id) ==> match index[id] {
            BuyOrSellAtPriceLevel::Buy(price) => rests_on(book.bids, id) && at_price(
                book.bids,
                id,
                price,
            ),
            BuyOrSellAtPriceLevel::Sell(price) => rests_on(book.asks, id) && at_price(
                book.asks,
                id,
                price,
            ),
        },
{
    if rests_on(book.bids, id) {
        lemma_rests_on(book.bids, id);
    }
    if rests_on(book.asks, id) {
        lemma_rests_on(book.asks, id);
    }
    if index.contains_key(id) {
        match index[id] {
            BuyOrSellAtPriceLevel::Buy(price) => {
                let j = choose|j: int| stands_at(book.bids, id, price, j);
                assert(stands_at(book.bids, id, price, j));
            },
            BuyOrSellAtPriceLevel::Sell(price) => {
                let j = choose|j: int| stands_at(book.asks, id, price, j);
                assert(stands_at(book.asks, id, price, j));
            },
        }
    }
}

/// How far two prices are apart, if they are.
fn spread_between(resting: Price, incoming: Price) -> (r: Option<Positive>)
    ensures
        r == improvement(resting, incoming),
{
    let apart = if resting < incoming {
        incoming - resting
    } else {
        resting - incoming
    };
    match Positive::new(apart) {
        Ok(spread) => Some(spread),
        Err(_) => None,
    }
}

/// Puts an order at the end of the level of its price; the first order at a
/// price opens the level.
fn join_level(levels: &mut Levels, price: Price, id: OrderId, quantity: Quantity)
    ensures
        side_of(*final(levels)) == joined(side_of(*old(levels)), price, id, quantity),
{
    match levels.remove(&price) {
        Some(mut level) => {
            level.push_back((id, quantity));
            levels.insert_uncontended(price, level);
        },
        None => {
            levels.insert_uncontended(price, NonEmpty::vecdeque((id, quantity)));
        },
    }
    assert(side_of(*levels) =~= joined(side_of(*old(levels)), price, id, quantity));
}

/// Trades `quantity` against the oldest order of the level at `price` and
/// hands out that order as it was. An order that is used up leaves its
/// level, and the level goes with its last order.
fn fill_front(levels: &mut Levels, price: Price, quantity: Quantity) -> (r: (OrderId, Quantity))
    requires
        side_valid(side_of(*old(levels))),
        side_of(*old(levels)).contains_key(price),
    ensures
        r == side_of(*old(levels))[price][0],
        side_of(*final(levels)) == filled(side_of(*old(levels)), price, quantity),
{
    assert(old(levels)@.contains_key(price));
    assert(side_of(*old(levels))[price] == old(levels)@[price]@);
    let level = levels.remove(&price).unwrap();
    let ghost resting_level = level@;
    let (remaining_level, (id, resting)) = level.pop_front();
    if quantity < resting {
        let remainder = resting - quantity;
        let restored = match remaining_level {
            Some(mut rest) => {
                rest.push_front((id, remainder));
                rest
            },
            None => NonEmpty::vecdeque((id, remainder)),
        };
        assert(restored@ =~= resting_level.update(0, (id, remainder)));
        levels.insert_uncontended(price, restored);
    } else {
        match remaining_level {
            Some(rest) => {
                levels.insert_uncontended(price, rest);
            },
            None => {},
        }
    }
    assert(side_of(*levels) =~= filled(side_of(*old(levels)), price, quantity));
    (id, resting)
}

/// Takes the order `id` out of the level at `price`; the level goes with its
/// last order.
fn leave_level(levels: &mut Levels, price: Price, id: OrderId)
    requires
        side_valid(side_of(*old(levels))),
        at_price(side_of(*old(levels)), id, price),
    ensures
        side_of(*final(levels)) == left(side_of(*old(levels)), id),
{
    let ghost side = side_of(*old(levels));
    let ghost place = choose|j: int| stands_at(side, id, price, j);
    proof {
        lemma_location(side, id, price, place);
    }
    assert(old(levels)@.contains_key(price));
    assert(side[price] == old(levels)@[price]@);
    let level = levels.remove(&price).unwrap();
    let ghost resting_level = level@;
    let by_id = |entry: &(OrderId, Quantity)| -> (found: bool)
        ensures
            found == (entry.0 == id),
        { entry.0 == id };
    assert(!call_ensures(by_id, (&resting_level[place],), false));
    let (remaining_level, _) = level.pop_once_by(by_id);
    proof {
        let k = choose|k: int|
            {
                &&& 0 <= k < resting_level.len()
                &&& call_ensures(by_id, (&#[trigger] resting_level[k],), true)
                &&& (remaining_level is None <==> resting_level.len() == 1)
                &&& (remaining_level matches Some(rest) ==> rest@ == resting_level.remove(k))
            };
        assert(stands_at(side, id, price, k));
    }
    match remaining_level {
        Some(rest) => {
            levels.insert_uncontended(price, rest);
        },
        None => {},
    }
    assert(side_of(*levels) =~= left(side, id));
}

/// The quantity that is left of the order `id` in the level at `price`.
fn quantity_at(levels: &Levels, price: Price, id: OrderId) -> (r: Quantity)
    requires
        side_valid(side_of(*levels)),
        at_price(side_of(*levels), id, price),
    ensures
        r == quantity_of(side_of(*levels), id),
{
    let ghost side = side_of(*levels);
    assert(levels@.contains_key(price));
    assert(side[price] == levels@[price]@);
    let level = levels.get(&price).unwrap();
    for entry in it: level.iter()
        invariant
            it.seq() == level@.as_ref(),
            side == side_of(*levels),
            side_valid(side),
            side.contains_key(price),
            side[price] == level@,
            forall|j: int| 0 <= j < it.index() ==> (#[trigger] level@[j]).0 != id,
    {
        if entry.0 == id {
            proof {
                let j = it.index();
                assert(*entry == level@[j]);
                assert(stands_at(side, id, price, j));
                lemma_location(side, id, price, j);
            }
            return entry.1;
        }
    }
    proof {
        let j = choose|j: int| stands_at(side, id, price, j);
        assert(level@[j].0 == id);
    }
    vstd::pervasive::unreached()
}

/// The lowest price of a side and the oldest order at it.
fn lowest_front(levels: &Levels) -> (r: Option<(Price, OrderId)>)
    requires
        side_valid(side_of(*levels)),
    ensures
        match r {
            Some((price, id)) => is_lowest(side_of(*levels), price) && id == side_of(
                *levels,
            )[price][0].0,
            None => forall|price: Price| !side_of(*levels).contains_key(price),
        },
{
    match BTreeMapExt::min(levels) {
        Some(price) => {
            proof {
                lemma_least_key_is_smallest(levels@, *price);
                assert(side_of(*levels)[*price] == levels@[*price]@);
            }
            let level = levels.get(price).unwrap();
            Some((*price, level.front().0))
        },
        None => None,
    }
}

/// The highest price of a side and the oldest order at it.
fn highest_front(levels: &Levels) -> (r: Option<(Price, OrderId)>)
    requires
        side_valid(side_of(*levels)),
    ensures
        match r {
            Some((price, id)) => is_highest(side_of(*levels), price) && id == side_of(
                *levels,
            )[price][0].0,
            None => forall|price: Price| !side_of(*levels).contains_key(price),
        },
{
    match BTreeMapExt::max(levels) {
        Some(price) => {
            proof {
                lemma_greatest_key_is_largest(levels@, *price);
                assert(side_of(*levels)[*price] == levels@[*price]@);
            }
            let level = levels.get(price).unwrap();
            Some((*price, level.front().0))
        },
        None => None,
    }
}

/// The prices at which a side has a level, the lowest first.
fn prices_of(levels: &Levels) -> (r: Vec<Price>)
    ensures
        forall|i: int, j: int| 0 <= i < j < r@.len() ==> r@[i] < r@[j],
        forall|i: int| 0 <= i < r@.len() ==> side_of(*levels).contains_key(#[trigger] r@[i]),
        forall|price: Price|
            side_of(*levels).contains_key(price) ==> exists|i: int|
                0 <= i < r@.len() && #[trigger] r@[i] == price,
{
    let mut out: Vec<Price> = Vec::new();
    for price in it: levels.keys()
        invariant
            it.seq() == spec_keys_iter(levels).remaining(),
            out@.len() == it.index(),
            forall|i: int| 0 <= i < out@.len() ==> #[trigger] out@[i] == *it.seq()[i],
    {
        out.push(*price);
    }
    proof {
        let keys = spec_keys_iter(levels).remaining();
        assert(out@ =~= keys.unref());
        lemma_increasing_keys(keys);
        assert forall|i: int| 0 <= i < out@.len() implies side_of(*levels).contains_key(
            #[trigger] out@[i],
        ) by {
            assert(keys.unref().to_set().contains(out@[i]));
        }
        assert forall|price: Price| side_of(*levels).contains_key(price) implies exists|i: int|
            0 <= i < out@.len() && #[trigger] out@[i] == price by {
            assert(keys.unref().to_set().contains(price));
            assert(keys.unref().contains(price));
        }
    }
    out
}

/// Adds the orders of a level to a listing, oldest first.
fn list_level(
    out: &mut Vec<Order>,
    price: Price,
    level: &NonEmpty<VecDeque<(OrderId, Quantity)>>,
)
    ensures
        final(out)@ == old(out)@ + level_orders(price, level@),
{
    let ghost listed = out@;
    for entry in it: level.iter()
        invariant
            it.seq() == level@.as_ref(),
            out@ == listed + level_orders(price, level@).subrange(0, it.index()),
    {
        out.push(Order { quantity: entry.1, unit_price: price, id: entry.0 });
        assert(out@ =~= listed + level_orders(price, level@).subrange(0, it.index() + 1));
    }
    assert(out@ =~= listed + level_orders(price, level@));
}

/// The price up to which a walk through ascending prices has listed when it
/// stands before place `i`.
spec fn reached_up(prices: Seq<Price>, i: int) -> int {
    if i < prices.len() {
        prices[i] as int
    } else {
        price_limit()
    }
}

/// The price down to which a walk through descending prices has listed when
/// `i` prices are still to come.
spec fn reached_down(prices: Seq<Price>, i: int) -> int {
    if i > 0 {
        prices[i - 1] + 1
    } else {
        0
    }
}

/// The orders of a side, the lowest price first.
fn list_ascending(levels: &Levels) -> (r: Vec<Order>)
    ensures
        r@ == ascending(side_of(*levels), 0, price_limit()),
{
    let ghost side = side_of(*levels);
    let prices = prices_of(levels);
    let mut out: Vec<Order> = Vec::new();
    let mut i: usize = 0;
    proof {
        lemma_ascending_none(side, 0, reached_up(prices@, 0));
    }
    while i < prices.len()
        invariant
            side == side_of(*levels),
            0 <= i <= prices@.len(),
            forall|a: int, b: int| 0 <= a < b < prices@.len() ==> prices@[a] < prices@[b],
            forall|a: int| 0 <= a < prices@.len() ==> side.contains_key(#[trigger] prices@[a]),
            forall|price: Price|
                side.contains_key(price) ==> exists|a: int|
                    0 <= a < prices@.len() && #[trigger] prices@[a] == price,
            out@ == ascending(side, 0, reached_up(prices@, i as int)),
        decreases prices@.len() - i,
    {
        let price = prices[i];
        assert(levels@.contains_key(price));
        assert(side[price] == levels@[price]@);
        let level = levels.get(&price).unwrap();
        list_level(&mut out, price, level);
        proof {
            let next = reached_up(prices@, i + 1);
            assert(out@ == ascending(side, 0, price + 1));
            lemma_ascending_split(side, 0, price + 1, next);
            assert forall|other: Price| price + 1 <= other < next implies !side.contains_key(
                other,
            ) by {
                if side.contains_key(other) {
                    let a = choose|a: int| 0 <= a < prices@.len() && #[trigger] prices@[a] == other;
                    if a <= i {
                        assert(a == i || prices@[a] < prices@[i as int]);
                    } else {
                        assert(a == i + 1 || prices@[i + 1] < prices@[a]);
                    }
                }
            }
            lemma_ascending_none(side, price + 1, next);
            assert(out@ =~= ascending(side, 0, next));
        }
        i += 1;
    }
    out
}

/// The orders of a side, the highest price first.
fn list_descending(levels: &Levels) -> (r: Vec<Order>)
    ensures
        r@ == descending(side_of(*levels), 0, price_limit()),
{
    let ghost side = side_of(*levels);
    let prices = prices_of(levels);
    let mut out: Vec<Order> = Vec::new();
    let mut i: usize = prices.len();
    proof {
        lemma_descending_none(side, reached_down(prices@, i as int), price_limit());
    }
    while i > 0
        invariant
            side == side_of(*levels),
            0 <= i <= prices@.len(),
            forall|a: int, b: int| 0 <= a < b < prices@.len() ==> prices@[a] < prices@[b],
            forall|a: int| 0 <= a < prices@.len() ==> side.contains_key(#[trigger] prices@[a]),
            forall|price: Price|
                side.contains_key(price) ==> exists|a: int|
                    0 <= a < prices@.len() && #[trigger] prices@[a] == price,
            out@ == descending(side, reached_down(prices@, i as int), price_limit()),
        decreases i,
    {
        i -= 1;
        let price = prices[i];
        assert(levels@.contains_key(price));
        assert(side[price] == levels@[price]@);
        let level = levels.get(&price).unwrap();
        list_level(&mut out, price, level);
        proof {
            let next = reached_down(prices@, i as int);
            lemma_descending_split(side, price as int, price + 1, price_limit());
            assert(descending(side, price as int, price + 1) =~= orders_at(side, price as int)) by {
                assert(descending(side, price as int, price as int) =~= Seq::<Order>::empty());
            }
            assert(out@ == descending(side, price as int, price_limit()));
            lemma_descending_split(side, next, price as int, price_limit());
            assert forall|other: Price| next <= other < price implies !side.contains_key(
                other,
            ) by {
                if side.contains_key(other) {
                    let a = choose|a: int| 0 <= a < prices@.len() && #[trigger] prices@[a] == other;
                    if a >= i {
                        assert(a == i || prices@[i as int] < prices@[a]);
                    } else {
                        assert(a == i - 1 || prices@[a] < prices@[i - 1]);
                    }
                }
            }
            lemma_descending_none(side, next, price as int);
            assert(out@ =~= descending(side, next, price_limit()));
        }
    }
    out
}

/// Both sides of a book and the index of its orders.
#[derive(Debug)]
struct Sides {
    buys: Levels,
    sells: Levels,
    ids_to_price_level: HashMap<OrderId, BuyOrSellAtPriceLevel>,
}

impl Sides {
    /// The state that the maps stand for.
    spec fn model(&self) -> BookModel {
        BookModel { bids: side_of(self.buys), asks: side_of(self.sells) }
    }

    /// The state is valid and the index agrees with it.
    spec fn wf(&self) -> bool {
        &&& self.model().valid()
        &&& indexed(self.ids_to_price_level@, self.model())
    }

    fn new() -> (r: Sides)
        ensures
            r.wf(),
            r.model() == BookModel::empty(),
    {
        let r = Sides {
            buys: BTreeMap::new(),
            sells: BTreeMap::new(),
            ids_to_price_level: HashMap::new(),
        };
        assert(r.model().bids =~= Map::<Price, Seq<(OrderId, Quantity)>>::empty());
        assert(r.model().asks =~= Map::<Price, Seq<(OrderId, Quantity)>>::empty());
        r
    }

    /// The ask that a buy at `unit_price` trades at, with the seller.
    fn crossing_ask(&self, unit_price: Price) -> (r: Option<(Price, OrderId)>)
        requires
            self.wf(),
        ensures
            r is Some <==> self.model().buy_crosses(unit_price),
            r matches Some((ask, seller)) ==> ask == lowest(self.model().asks) && is_lowest(
                self.model().asks,
                ask,
            ) && seller == self.model().buy_counterparty(),
    {
        match lowest_front(&self.sells) {
            Some((ask, seller)) => {
                proof {
                    lemma_lowest(self.model().asks, ask);
                    self.model().lemma_buy_crosses(unit_price, ask);
                }
                if ask <= unit_price {
                    Some((ask, seller))
                } else {
                    None
                }
            },
            None => None,
        }
    }

    /// The bid that a sell at `unit_price` trades at, with the buyer.
    fn crossing_bid(&self, unit_price: Price) -> (r: Option<(Price, OrderId)>)
        requires
            self.wf(),
        ensures
            r is Some <==> self.model().sell_crosses(unit_price),
            r matches Some((bid, buyer)) ==> bid == highest(self.model().bids) && is_highest(
                self.model().bids,
                bid,
            ) && buyer == self.model().sell_counterparty(),
    {
        match highest_front(&self.buys) {
            Some((bid, buyer)) => {
                proof {
                    lemma_highest(self.model().bids, bid);
                    self.model().lemma_sell_crosses(unit_price, bid);
                }
                if bid >= unit_price {
                    Some((bid, buyer))
                } else {
                    None
                }
            },
            None => None,
        }
    }

    /// Trades a buy against the oldest order at the lowest ask.
    fn execute_buy(&mut self, quantity: Quantity, unit_price: Price, ask: Price) -> (r:
        BuyEntryOrExecution)
        requires
            old(self).wf(),
            is_lowest(old(self).model().asks, ask),
            quantity > 0,
        ensures
            final(self).wf(),
            r == old(self).model().buy_execution(quantity, unit_price),
            final(self).model() == old(self).model().after_buy_execution(quantity),
    {
        let ghost before = self.model();
        proof {
            lemma_lowest(before.asks, ask);
            lemma_filled(before.asks, ask, quantity);
            before.lemma_after_buy_execution_valid(quantity);
        }
        let (seller, offered) = fill_front(&mut self.sells, ask, quantity);
        let spread = spread_between(ask, unit_price);
        assert(self.model() == before.after_buy_execution(quantity));
        proof {
            assert(stands_at(before.asks, seller, ask, 0));
        }
        if quantity < offered {
            BuyEntryOrExecution::BuyerFullyExecuted {
                seller,
                spread,
                sellers_remaining: offered - quantity,
            }
        } else {
            self.ids_to_price_level.remove(&seller);
            proof {
                assert forall|id: OrderId, price: Price| #[trigger]
                    at_price(before.bids, id, price) implies id != seller by {
                    let j = choose|j: int| stands_at(before.bids, id, price, j);
                    assert(stands_at(before.bids, id, price, j));
                }
            }
            if quantity == offered {
                BuyEntryOrExecution::MutualFullExecution { seller, spread }
            } else {
                BuyEntryOrExecution::SellerFullyExecuted {
                    seller,
                    spread,
                    buyers_remaining: quantity - offered,
                }
            }
        }
    }

    /// Trades a sell against the oldest order at the highest bid.
    fn execute_sell(&mut self, quantity: Quantity, unit_price: Price, bid: Price) -> (r:
        SellEntryOrExecution)
        requires
            old(self).wf(),
            is_highest(old(self).model().bids, bid),
            quantity > 0,
        ensures
            final(self).wf(),
            r == old(self).model().sell_execution(quantity, unit_price),
            final(self).model() == old(self).model().after_sell_execution(quantity),
    {
        let ghost before = self.model();
        proof {
            lemma_highest(before.bids, bid);
            lemma_filled(before.bids, bid, quantity);
            before.lemma_after_sell_execution_valid(quantity);
        }
        let (buyer, wanted) = fill_front(&mut self.buys, bid, quantity);
        let spread = spread_between(bid, unit_price);
        assert(self.model() == before.after_sell_execution(quantity));
        proof {
            assert(stands_at(before.bids, buyer, bid, 0));
        }
        if quantity < wanted {
            SellEntryOrExecution::SellerFullyExecuted {
                buyer,
                spread,
                buyers_remaining: wanted - quantity,
            }
        } else {
            self.ids_to_price_level.remove(&buyer);
            proof {
                assert forall|id: OrderId, price: Price| #[trigger]
                    at_price(before.asks, id, price) implies id != buyer by {
                    let j = choose|j: int| stands_at(before.asks, id, price, j);
                    assert(stands_at(before.asks, id, price, j));
                }
            }
            if quantity == wanted {
                SellEntryOrExecution::MutualFullExecution { buyer, spread }
            } else {
                SellEntryOrExecution::BuyerFullyExecuted {
                    buyer,
                    spread,
                    sellers_remaining: quantity - wanted,
                }
            }
        }
    }

    /// Books a buy that cannot trade under `id`, unless `id` is taken.
    fn enter_buy(&mut self, id: OrderId, quantity: Quantity, unit_price: Price) -> (r:
        BuyEntryOrExecution)
        requires
            old(self).wf(),
            !old(self).model().buy_crosses(unit_price),
            quantity > 0,
        ensures
            final(self).wf(),
            r == old(self).model().buy_entry(id),
            final(self).model() == old(self).model().after_buy_entry(id, quantity, unit_price),
    {
        let ghost before = self.model();
        proof {
            lemma_indexed_resident(self.ids_to_price_level@, before, id);
            before.lemma_after_buy_entry_valid(id, quantity, unit_price);
        }
        if self.ids_to_price_level.contains_key(&id) {
            BuyEntryOrExecution::IdentifierCollision { id }
        } else {
            proof {
                lemma_joined(before.bids, unit_price, id, quantity);
            }
            join_level(&mut self.buys, unit_price, id, quantity);
            self.ids_to_price_level.insert(id, BuyOrSellAtPriceLevel::Buy(unit_price));
            assert(self.model() == before.after_buy_entry(id, quantity, unit_price));
            proof {
                assert forall|x: OrderId, price: Price| #[trigger]
                    at_price(before.bids, x, price) implies x != id by {
                    let j = choose|j: int| stands_at(before.bids, x, price, j);
                    assert(stands_at(before.bids, x, price, j));
                }
                assert forall|x: OrderId, price: Price| #[trigger]
                    at_price(before.asks, x, price) implies x != id by {
                    let j = choose|j: int| stands_at(before.asks, x, price, j);
                    assert(stands_at(before.asks, x, price, j));
                }
            }
            BuyEntryOrExecution::EnteredOrderBook { id }
        }
    }

    /// Books a sell that cannot trade under `id`, unless `id` is taken.
    fn enter_sell(&mut self, id: OrderId, quantity: Quantity, unit_price: Price) -> (r:
        SellEntryOrExecution)
        requires
            old(self).wf(),
            !old(self).model().sell_crosses(unit_price),
            quantity > 0,
        ensures
            final(self).wf(),
            r == old(self).model().sell_entry(id),
            final(self).model() == old(self).model().after_sell_entry(id, quantity, unit_price),
    {
        let ghost before = self.model();
        proof {
            lemma_indexed_resident(self.ids_to_price_level@, before, id);
            before.lemma_after_sell_entry_valid(id, quantity, unit_price);
        }
        if self.ids_to_price_level.contains_key(&id) {
            SellEntryOrExecution::IdentifierCollision { id }
        } else {
            proof {
                lemma_joined(before.asks, unit_price, id, quantity);
            }
            join_level(&mut self.sells, unit_price, id, quantity);
            self.ids_to_price_level.insert(id, BuyOrSellAtPriceLevel::Sell(unit_price));
            assert(self.model() == before.after_sell_entry(id, quantity, unit_price));
            proof {
                assert forall|x: OrderId, price: Price| #[trigger]
                    at_price(before.bids, x, price) implies x != id by {
                    let j = choose|j: int| stands_at(before.bids, x, price, j);
                    assert(stands_at(before.bids, x, price, j));
                }
                assert forall|x: OrderId, price: Price| #[trigger]
                    at_price(before.asks, x, price) implies x != id by {
                    let j = choose|j: int| stands_at(before.asks, x, price, j);
                    assert(stands_at(before.asks, x, price, j));
                }
            }
            SellEntryOrExecution::EnteredOrderBook { id }
        }
    }

    /// Finds an order through the index and reads its quantity in its level.
    fn query(&self, id: OrderId) -> (r: Result<BuyOrSell, NoSuchOrder>)
        requires
            self.wf(),
        ensures
            r == match self.model().lookup(id) {
                Some(order) => Ok::<BuyOrSell, NoSuchOrder>(order),
                None => Err::<BuyOrSell, NoSuchOrder>(NoSuchOrder),
            },
    {
        let ghost book = self.model();
        proof {
            lemma_indexed_resident(self.ids_to_price_level@, book, id);
        }
        match self.ids_to_price_level.get(&id) {
            Some(slot) => match *slot {
                BuyOrSellAtPriceLevel::Buy(price) => {
                    let quantity = quantity_at(&self.buys, price, id);
                    proof {
                        let j = choose|j: int| stands_at(book.bids, id, price, j);
                        lemma_location(book.bids, id, price, j);
                    }
                    Ok(BuyOrSell::Buy { quantity, unit_price: price })
                },
                BuyOrSellAtPriceLevel::Sell(price) => {
                    let quantity = quantity_at(&self.sells, price, id);
                    proof {
                        let j = choose|j: int| stands_at(book.asks, id, price, j);
                        lemma_location(book.asks, id, price, j);
                        if rests_on(book.bids, id) {
                            lemma_rests_on(book.bids, id);
                        }
                    }
                    Ok(BuyOrSell::Sell { quantity, unit_price: price })
                },
            },
            None => Err(NoSuchOrder),
        }
    }

    /// Takes an order out of the index and out of its level.
    fn cancel(&mut self, id: OrderId) -> (r: Result<Cancelled, NoSuchOrder>)
        requires
            old(self).wf(),
        ensures
            final(self).wf(),
            final(self).model() == old(self).model().after_cancel(id),
            r == if old(self).model().resident(id) {
                Ok::<Cancelled, NoSuchOrder>(Cancelled)
            } else {
                Err::<Cancelled, NoSuchOrder>(NoSuchOrder)
            },
    {
        let ghost before = self.model();
        proof {
            lemma_indexed_resident(self.ids_to_price_level@, before, id);
            before.lemma_after_cancel_valid(id);
        }
        match self.ids_to_price_level.remove(&id) {
            Some(BuyOrSellAtPriceLevel::Buy(price)) => {
                proof {
                    lemma_left(before.bids, id);
                }
                leave_level(&mut self.buys, price, id);
                assert(self.model() == before.after_cancel(id));
                proof {
                    assert forall|x: OrderId, p: Price| #[trigger]
                        at_price(before.asks, x, p) implies x != id by {
                        let j = choose|j: int| stands_at(before.asks, x, p, j);
                        assert(stands_at(before.asks, x, p, j));
                        lemma_rests_on(before.bids, id);
                    }
                }
                Ok(Cancelled)
            },
            Some(BuyOrSellAtPriceLevel::Sell(price)) => {
                proof {
                    if rests_on(before.bids, id) {
                        lemma_rests_on(before.bids, id);
                        let j = choose|j: int| stands_at(before.asks, id, price, j);
                        assert(stands_at(before.asks, id, price, j));
                    }
                    lemma_left(before.asks, id);
                }
                leave_level(&mut self.sells, price, id);
                assert(self.model() == before.after_cancel(id));
                proof {
                    assert forall|x: OrderId, p: Price| #[trigger]
                        at_price(before.bids, x, p) implies x != id by {
                        let j = choose|j: int| stands_at(before.bids, x, p, j);
                        assert(stands_at(before.bids, x, p, j));
                    }
                }
                Ok(Cancelled)
            },
            None => Err(NoSuchOrder),
        }
    }
}

/// The identifier is laid out as a random UUID: its version field says 4
/// and its variant field says that the layout is the standard one.
pub open spec fn is_random_uuid(id: OrderId) -> bool {
    id & 0x0000_0000_0000_f000_c000_0000_0000_0000u128
        == 0x0000_0000_0000_4000_8000_0000_0000_0000u128
}

/// Calls `Uuid::new_v4` of the `uuid` crate, and `Uuid::as_u128` for the
/// number that the identifier stands for.
///
/// Believed of them: every identifier made this way has the version and the
/// variant of a random UUID. Nothing is promised of the other bits, which
/// come from the random source of the operating system; two calls may well
/// give the same identifier. Where that source fails, `new_v4` does not
/// return.
#[verifier::external_body]
fn random_order_id() -> (id: OrderId)
    ensures
        is_random_uuid(id),
{
    uuid::Uuid::new_v4().as_u128()
}

/// A book that keeps the levels of each side in an ordered map.
///
/// The best price of a side is found at one end of its map, and an order is
/// found through an index from identifiers to levels, so that no operation
/// walks the book. Identifiers are random UUIDs.
#[derive(Debug)]
pub struct PriceLevelBTreeOrderBook {
    sides: Sides,
}

impl View for PriceLevelBTreeOrderBook {
    type V = BookModel;

    closed spec fn view(&self) -> BookModel {
        self.sides.model()
    }
}

impl Clone for PriceLevelBTreeOrderBook {
    /// A second book in the same state.
    fn clone(&self) -> (r: Self)
        ensures
            r@ == self@,
    {
        proof {
            use_type_invariant(self);
        }
        let sides = Sides {
            buys: self.sides.buys.clone(),
            sells: self.sides.sells.clone(),
            ids_to_price_level: self.sides.ids_to_price_level.clone(),
        };
        PriceLevelBTreeOrderBook { sides }
    }
}

impl Default for PriceLevelBTreeOrderBook {
    /// The book without any order.
    fn default() -> (r: Self)
        ensures
            r@ == BookModel::empty(),
            r@.valid(),
    {
        PriceLevelBTreeOrderBook { sides: Sides::new() }
    }
}

impl PriceLevelBTreeOrderBook {
    #[verifier::type_invariant]
    spec fn consistent(self) -> bool {
        self.sides.wf()
    }

    /// Takes the maps out for a change and leaves an empty book behind.
    fn take_sides(&mut self) -> (sides: Sides)
        ensures
            sides.wf(),
            sides.model() == old(self)@,
    {
        proof {
            use_type_invariant(&*self);
        }
        let mut sides = Sides::new();
        std::mem::swap(&mut self.sides, &mut sides);
        sides
    }

    /// Submits a buy as [`OrderBookApi::conditional_buy`] does, and asks
    /// `identify` for the identifier of an order that comes to rest.
    ///
    /// `identify` is called once if the buy cannot trade, and not at all if
    /// it can.
    pub fn conditional_buy_with<BuyAbortReasonT, ConditionT, IdentifyT>(
        &mut self,
        quantity: Positive,
        unit_price: Price,
        condition: ConditionT,
        identify: IdentifyT,
    ) -> (r: Result<BuyEntryOrExecution, BuyAbortReasonT>) where
        ConditionT: FnOnce(ConditionalBuyArgs<'_>) -> ControlFlow<BuyAbortReasonT, ()>,
        IdentifyT: FnOnce() -> OrderId,

        requires
            old(self)@.buy_crosses(unit_price) ==> call_requires(
                condition,
                ((ConditionalBuyArgs { seller_id: &old(self)@.buy_counterparty() }),),
            ),
            !old(self)@.buy_crosses(unit_price) ==> call_requires(identify, ()),
        ensures
            final(self)@.valid(),
            old(self)@.buy_crosses(unit_price) ==> match r {
                Ok(outcome) => {
                    &&& call_ensures(
                        condition,
                        ((ConditionalBuyArgs { seller_id: &old(self)@.buy_counterparty() }),),
                        ControlFlow::Continue(()),
                    )
                    &&& outcome == old(self)@.buy_execution(quantity@, unit_price)
                    &&& final(self)@ == old(self)@.after_buy_execution(quantity@)
                },
                Err(reason) => {
                    &&& call_ensures(
                        condition,
                        ((ConditionalBuyArgs { seller_id: &old(self)@.buy_counterparty() }),),
                        ControlFlow::Break(reason),
                    )
                    &&& final(self)@ == old(self)@
                },
            },
            !old(self)@.buy_crosses(unit_price) ==> exists|id: OrderId|
                {
                    &&& call_ensures(identify, (), id)
                    &&& r == Ok::<BuyEntryOrExecution, BuyAbortReasonT>(
                        #[trigger] old(self)@.buy_entry(id),
                    )
                    &&& final(self)@ == old(self)@.after_buy_entry(id, quantity@, unit_price)
                },
    {
        proof {
            use_type_invariant(&*self);
        }
        let quantity = quantity.into_inner();
        match self.sides.crossing_ask(unit_price) {
            Some((ask, seller)) => {
                match condition(ConditionalBuyArgs { seller_id: &seller }) {
                    ControlFlow::Break(reason) => Err(reason),
                    ControlFlow::Continue(go_on) => {
                        assert(go_on == ());
                        let mut sides = self.take_sides();
                        let outcome = sides.execute_buy(quantity, unit_price, ask);
                        self.sides = sides;
                        Ok(outcome)
                    },
                }
            },
            None => {
                let id = identify();
                let mut sides = self.take_sides();
                let outcome = sides.enter_buy(id, quantity, unit_price);
                self.sides = sides;
                Ok(outcome)
            },
        }
    }

    /// Submits a sell as [`OrderBookApi::conditional_sell`] does, and asks
    /// `identify` for the identifier of an order that comes to rest.
    ///
    /// `identify` is called once if the sell cannot trade, and not at all if
    /// it can.
    pub fn conditional_sell_with<SellAbortReasonT, ConditionT, IdentifyT>(
        &mut self,
        quantity: Positive,
        unit_price: Price,
        condition: ConditionT,
        identify: IdentifyT,
    ) -> (r: Result<SellEntryOrExecution, SellAbortReasonT>) where
        ConditionT: FnOnce(ConditionalSellArgs<'_>) -> ControlFlow<SellAbortReasonT, ()>,
        IdentifyT: FnOnce() -> OrderId,

        requires
            old(self)@.sell_crosses(unit_price) ==> call_requires(
                condition,
                ((ConditionalSellArgs { buyer_id: &old(self)@.sell_counterparty() }),),
            ),
            !old(self)@.sell_crosses(unit_price) ==> call_requires(identify, ()),
        ensures
            final(self)@.valid(),
            old(self)@.sell_crosses(unit_price) ==> match r {
                Ok(outcome) => {
                    &&& call_ensures(
                        condition,
                        ((ConditionalSellArgs { buyer_id: &old(self)@.sell_counterparty() }),),
                        ControlFlow::Continue(()),
                    )
                    &&& outcome == old(self)@.sell_execution(quantity@, unit_price)
                    &&& final(self)@ == old(self)@.after_sell_execution(quantity@)
                },
                Err(reason) => {
                    &&& call_ensures(
                        condition,
                        ((ConditionalSellArgs { buyer_id: &old(self)@.sell_counterparty() }),),
                        ControlFlow::Break(reason),
                    )
                    &&& final(self)@ == old(self)@
                },
            },
            !old(self)@.sell_crosses(unit_price) ==> exists|id: OrderId|
                {
                    &&& call_ensures(identify, (), id)
                    &&& r == Ok::<SellEntryOrExecution, SellAbortReasonT>(
                        #[trigger] old(self)@.sell_entry(id),
                    )
                    &&& final(self)@ == old(self)@.after_sell_entry(id, quantity@, unit_price)
                },
    {
        proof {
            use_type_invariant(&*self);
        }
        let quantity = quantity.into_inner();
        match self.sides.crossing_bid(unit_price) {
            Some((bid, buyer)) => {
                match condition(ConditionalSellArgs { buyer_id: &buyer }) {
                    ControlFlow::Break(reason) => Err(reason),
                    ControlFlow::Continue(go_on) => {
                        assert(go_on == ());
                        let mut sides = self.take_sides();
                        let outcome = sides.execute_sell(quantity, unit_price, bid);
                        self.sides = sides;
                        Ok(outcome)
                    },
                }
            },
            None => {
                let id = identify();
                let mut sides = self.take_sides();
                let outcome = sides.enter_sell(id, quantity, unit_price);
                self.sides = sides;
                Ok(outcome)
            },
        }
    }
}

impl ReportingOrderBookApi for PriceLevelBTreeOrderBook {
    fn buys(&self) -> (r: Vec<Order>) {
        proof {
            use_type_invariant(self);
        }
        list_descending(&self.sides.buys)
    }

    fn sells(&self) -> (r: Vec<Order>) {
        proof {
            use_type_invariant(self);
        }
        list_ascending(&self.sides.sells)
    }
}

impl OrderBookApi for PriceLevelBTreeOrderBook {
    /// An order that comes to rest is identified by a random UUID.
    fn conditional_buy<BuyAbortReasonT, ConditionT>(
        &mut self,
        quantity: Positive,
        unit_price: Price,
        condition: ConditionT,
    ) -> (r: Result<BuyEntryOrExecution, BuyAbortReasonT>) where
        ConditionT: FnOnce(ConditionalBuyArgs<'_>) -> ControlFlow<BuyAbortReasonT, ()>,

        ensures
            r matches Ok(BuyEntryOrExecution::EnteredOrderBook { id }) ==> is_random_uuid(id),
    {
        self.conditional_buy_with(quantity, unit_price, condition, random_order_id)
    }

    /// An order that comes to rest is identified by a random UUID.
    fn conditional_sell<SellAbortReasonT, ConditionT>(
        &mut self,
        quantity: Positive,
        unit_price: Price,
        condition: ConditionT,
    ) -> (r: Result<SellEntryOrExecution, SellAbortReasonT>) where
        ConditionT: FnOnce(ConditionalSellArgs<'_>) -> ControlFlow<SellAbortReasonT, ()>,

        ensures
            r matches Ok(SellEntryOrExecution::EnteredOrderBook { id }) ==> is_random_uuid(id),
    {
        self.conditional_sell_with(quantity, unit_price, condition, random_order_id)
    }

    fn query(&self, id: OrderId) -> (r: Result<BuyOrSell, NoSuchOrder>) {
        proof {
            use_type_invariant(self);
        }
        self.sides.query(id)
    }

    fn cancel(&mut self, id: OrderId) -> (r: Result<Cancelled, NoSuchOrder>) {
        let mut sides = self.take_sides();
        let outcome = sides.cancel(id);
        self.sides = sides;
        outcome
    }
}

} // verus!

//! The mathematical state of a book, and the rules of matching stated on it.
//!
//! A side of the book maps each price to its level: the orders resting at
//! that price, oldest first, each an identifier with the quantity that is
//! left of it.

use crate::api::BuyEntryOrExecution;
use crate::api::BuyOrSell;
use crate::api::OrderId;
use crate::api::Price;
use crate::api::Quantity;
use crate::api::SellEntryOrExecution;
use crate::positive::Positive;
use vstd::prelude::*;

verus! {

/// The orders resting at one price, oldest first.
pub type Level = Seq<(OrderId, Quantity)>;

/// One side of a book: the level of each price at which an order rests.
pub type Side = Map<Price, Level>;

/// The order `id` is the one at place `j` of the level at `price`.
pub open spec fn stands_at(side: Side, id: OrderId, price: Price, j: int) -> bool {
    &&& side.contains_key(price)
    &&& 0 <= j < side[price].len()
    &&& side[price][j].0 == id
}

/// The order `id` rests somewhere on this side.
pub open spec fn rests_on(side: Side, id: OrderId) -> bool {
    exists|price: Price, j: int| stands_at(side, id, price, j)
}

/// The order `id` rests in the level at `price`.
pub open spec fn at_price(side: Side, id: OrderId, price: Price) -> bool {
    exists|j: int| stands_at(side, id, price, j)
}

/// Where `id` rests, if this side has it: the price and the place in its level.
pub open spec fn location_of(side: Side, id: OrderId) -> (Price, int) {
    choose|price: Price, j: int| stands_at(side, id, price, j)
}

/// The price at which `id` rests, if this side has it.
pub open spec fn price_of(side: Side, id: OrderId) -> Price {
    location_of(side, id).0
}

/// The place of `id` in its level, if this side has it.
pub open spec fn place_of(side: Side, id: OrderId) -> int {
    location_of(side, id).1
}

/// The quantity that is left of `id`, if this side has it.
pub open spec fn quantity_of(side: Side, id: OrderId) -> Quantity {
    side[price_of(side, id)][place_of(side, id)].1
}

/// The levels are finitely many, none is empty, no quantity is zero, and no
/// identifier occurs twice.
pub open spec fn side_valid(side: Side) -> bool {
    &&& side.dom().finite()
    &&& forall|price: Price| side.contains_key(price) ==> (#[trigger] side[price]).len() > 0
    &&& forall|price: Price, j: int|
        side.contains_key(price) && 0 <= j < side[price].len() ==> (#[trigger] side[price][j]).1 > 0
    &&& forall|id: OrderId, price_a: Price, place_a: int, price_b: Price, place_b: int|
        #[trigger] stands_at(side, id, price_a, place_a) && #[trigger] stands_at(side, id, price_b, place_b) ==> price_a == price_b
            && place_a == place_b
}

/// `price` has a level, and no level has a lower price.
pub open spec fn is_lowest(side: Side, price: Price) -> bool {
    &&& side.contains_key(price)
    &&& forall|other: Price| side.contains_key(other) ==> price <= other
}

/// `price` has a level, and no level has a higher price.
pub open spec fn is_highest(side: Side, price: Price) -> bool {
    &&& side.contains_key(price)
    &&& forall|other: Price| side.contains_key(other) ==> other <= price
}

/// The lowest price of a side that has a level.
pub open spec fn lowest(side: Side) -> Price {
    choose|price: Price| is_lowest(side, price)
}

/// The highest price of a side that has a level.
pub open spec fn highest(side: Side) -> Price {
    choose|price: Price| is_highest(side, price)
}

/// The side after an order has joined the end of the level at `price`.
pub open spec fn joined(side: Side, price: Price, id: OrderId, quantity: Quantity) -> Side {
    side.insert(
        price,
        if side.contains_key(price) {
            side[price].push((id, quantity))
        } else {
            seq![(id, quantity)]
        },
    )
}

/// The side after `quantity` has been traded against the oldest order of the
/// level at `price`: that order keeps what is left of it, or leaves, and the
/// level goes with its last order.
pub open spec fn filled(side: Side, price: Price, quantity: Quantity) -> Side {
    let level = side[price];
    let (id, resting) = level[0];
    if quantity < resting {
        side.insert(price, level.update(0, (id, (resting - quantity) as Quantity)))
    } else if level.len() == 1 {
        side.remove(price)
    } else {
        side.insert(price, level.drop_first())
    }
}

/// The side after `id` has left it; the level goes with its last order.
pub open spec fn left(side: Side, id: OrderId) -> Side {
    let price = price_of(side, id);
    let level = side[price];
    if level.len() == 1 {
        side.remove(price)
    } else {
        side.insert(price, level.remove(place_of(side, id)))
    }
}

/// The price improvement of a trade: how far the price of the resting order
/// and that of the incoming order are apart, if they are.
pub open spec fn improvement(resting: Price, incoming: Price) -> Option<Positive> {
    if resting == incoming {
        None
    } else if resting < incoming {
        Some(Positive::of((incoming - resting) as u64))
    } else {
        Some(Positive::of((resting - incoming) as u64))
    }
}

/// The state of a book.
#[verifier::ext_equal]
pub struct BookModel {
    /// The resident buy orders.
    pub bids: Side,
    /// The resident sell orders.
    pub asks: Side,
}

impl BookModel {
    /// The book without any order.
    pub open spec fn empty() -> BookModel {
        BookModel { bids: Map::empty(), asks: Map::empty() }
    }

    /// What holds of a book at all times: both sides are valid, no identifier
    /// is on both, and every buy is priced below every sell.
    pub open spec fn valid(self) -> bool {
        &&& side_valid(self.bids)
        &&& side_valid(self.asks)
        &&& forall|id: OrderId, price_a: Price, place_a: int, price_b: Price, place_b: int|
            !(#[trigger] stands_at(self.bids, id, price_a, place_a) && #[trigger] stands_at(
                self.asks,
                id,
                price_b,
                place_b,
            ))
        &&& forall|bid: Price, ask: Price|
            self.bids.contains_key(bid) && self.asks.contains_key(ask) ==> bid < ask
    }

    /// The order `id` rests in the book.
    pub open spec fn resident(self, id: OrderId) -> bool {
        rests_on(self.bids, id) || rests_on(self.asks, id)
    }

    /// What a query for `id` shows.
    pub open spec fn lookup(self, id: OrderId) -> Option<BuyOrSell> {
        if rests_on(self.bids, id) {
            Some(
                BuyOrSell::Buy {
                    quantity: quantity_of(self.bids, id),
                    unit_price: price_of(self.bids, id),
                },
            )
        } else if rests_on(self.asks, id) {
            Some(
                BuyOrSell::Sell {
                    quantity: quantity_of(self.asks, id),
                    unit_price: price_of(self.asks, id),
                },
            )
        } else {
            None
        }
    }

    /// The book after `id` has been cancelled; a book that does not hold
    /// `id` stays as it is.
    pub open spec fn after_cancel(self, id: OrderId) -> BookModel {
        if rests_on(self.bids, id) {
            BookModel { bids: left(self.bids, id), asks: self.asks }
        } else if rests_on(self.asks, id) {
            BookModel { bids: self.bids, asks: left(self.asks, id) }
        } else {
            self
        }
    }

    /// A buy at `price` can trade: some sell asks for no more.
    pub open spec fn buy_crosses(self, price: Price) -> bool {
        exists|ask: Price| self.asks.contains_key(ask) && ask <= price
    }

    /// A sell at `price` can trade: some buy bids no less.
    pub open spec fn sell_crosses(self, price: Price) -> bool {
        exists|bid: Price| self.bids.contains_key(bid) && bid >= price
    }

    /// The seller that a buy trades with: the oldest at the lowest price.
    pub open spec fn buy_counterparty(self) -> OrderId {
        self.asks[lowest(self.asks)][0].0
    }

    /// The buyer that a sell trades with: the oldest at the highest price.
    pub open spec fn sell_counterparty(self) -> OrderId {
        self.bids[highest(self.bids)][0].0
    }

    /// The outcome of a buy that trades.
    pub open spec fn buy_execution(self, quantity: Quantity, price: Price) -> BuyEntryOrExecution {
        let ask = lowest(self.asks);
        let (seller, offered) = self.asks[ask][0];
        let spread = improvement(ask, price);
        if quantity < offered {
            BuyEntryOrExecution::BuyerFullyExecuted {
                seller,
                spread,
                sellers_remaining: (offered - quantity) as Quantity,
            }
        } else if quantity == offered {
            BuyEntryOrExecution::MutualFullExecution { seller, spread }
        } else {
            BuyEntryOrExecution::SellerFullyExecuted {
                seller,
                spread,
                buyers_remaining: (quantity - offered) as Quantity,
            }
        }
    }

    /// The outcome of a sell that trades.
    pub open spec fn sell_execution(self, quantity: Quantity, price: Price) -> SellEntryOrExecution {
        let bid = highest(self.bids);
        let (buyer, wanted) = self.bids[bid][0];
        let spread = improvement(bid, price);
        if quantity < wanted {
            SellEntryOrExecution::SellerFullyExecuted {
                buyer,
                spread,
                buyers_remaining: (wanted - quantity) as Quantity,
            }
        } else if quantity == wanted {
            SellEntryOrExecution::MutualFullExecution { buyer, spread }
        } else {
            SellEntryOrExecution::BuyerFullyExecuted {
                buyer,
                spread,
                sellers_remaining: (quantity - wanted) as Quantity,
            }
        }
    }

    /// The book after a buy of `quantity` has traded.
    pub open spec fn after_buy_execution(self, quantity: Quantity) -> BookModel {
        BookModel { bids: self.bids, asks: filled(self.asks, lowest(self.asks), quantity) }
    }

    /// The book after a sell of `quantity` has traded.
    pub open spec fn after_sell_execution(self, quantity: Quantity) -> BookModel {
        BookModel { bids: filled(self.bids, highest(self.bids), quantity), asks: self.asks }
    }

    /// The outcome of a buy that cannot trade and was given `id`.
    pub open spec fn buy_entry(self, id: OrderId) -> BuyEntryOrExecution {
        if self.resident(id) {
            BuyEntryOrExecution::IdentifierCollision { id }
        } else {
            BuyEntryOrExecution::EnteredOrderBook { id }
        }
    }

    /// The outcome of a sell that cannot trade and was given `id`.
    pub open spec fn sell_entry(self, id: OrderId) -> SellEntryOrExecution {
        if self.resident(id) {
            SellEntryOrExecution::IdentifierCollision { id }
        } else {
            SellEntryOrExecution::EnteredOrderBook { id }
        }
    }

    /// The book after a buy that cannot trade was given `id`: the order has
    /// joined its level, unless `id` was taken.
    pub open spec fn after_buy_entry(self, id: OrderId, quantity: Quantity, price: Price) -> BookModel {
        if self.resident(id) {
            self
        } else {
            BookModel { bids: joined(self.bids, price, id, quantity), asks: self.asks }
        }
    }

    /// The book after a sell that cannot trade was given `id`: the order has
    /// joined its level, unless `id` was taken.
    pub open spec fn after_sell_entry(self, id: OrderId, quantity: Quantity, price: Price) -> BookModel {
        if self.resident(id) {
            self
        } else {
            BookModel { bids: self.bids, asks: joined(self.asks, price, id, quantity) }
        }
    }
}

/// On a valid side an order rests at one place only, and that place is the
/// one that `location_of` names.
pub proof fn lemma_location(side: Side, id: OrderId, price: Price, j: int)
    requires
        side_valid(side),
        stands_at(side, id, price, j),
    ensures
        rests_on(side, id),
        at_price(side, id, price),
        location_of(side, id) == (price, j),
        price_of(side, id) == price,
        place_of(side, id) == j,
        quantity_of(side, id) == side[price][j].1,
{
    let (p, k) = location_of(side, id);
    assert(stands_at(side, id, p, k));
}

/// A side that has an order has it at the place that `location_of` names.
pub proof fn lemma_rests_on(side: Side, id: OrderId)
    requires
        rests_on(side, id),
    ensures
        stands_at(side, id, price_of(side, id), place_of(side, id)),
        at_price(side, id, price_of(side, id)),
{
}

/// A side has one lowest price at most.
pub proof fn lemma_lowest(side: Side, price: Price)
    requires
        is_lowest(side, price),
    ensures
        lowest(side) == price,
{
    assert(is_lowest(side, lowest(side)));
}

/// A side has one highest price at most.
pub proof fn lemma_highest(side: Side, price: Price)
    requires
        is_highest(side, price),
    ensures
        highest(side) == price,
{
    assert(is_highest(side, highest(side)));
}

/// An order that joins a valid side under a new identifier leaves it valid;
/// it is then the only newcomer, at the price it came for.
pub proof fn lemma_joined(side: Side, price: Price, id: OrderId, quantity: Quantity)
    requires
        side_valid(side),
        !rests_on(side, id),
        quantity > 0,
    ensures
        side_valid(joined(side, price, id, quantity)),
        joined(side, price, id, quantity).dom() == side.dom().insert(price),
        forall|x: OrderId, p: Price|
            #![trigger at_price(joined(side, price, id, quantity), x, p)]
            #![trigger at_price(side, x, p)]
            at_price(joined(side, price, id, quantity), x, p) <==> at_price(side, x, p) || (x == id
                && p == price),
        stands_at(
            joined(side, price, id, quantity),
            id,
            price,
            joined(side, price, id, quantity)[price].len() - 1,
        ),
        quantity_of(joined(side, price, id, quantity), id) == quantity,
{
    let after = joined(side, price, id, quantity);
    let last = after[price].len() - 1;
    assert(after.dom() =~= side.dom().insert(price));
    assert(after[price][last] == (id, quantity));
    assert(stands_at(after, id, price, last));
    assert forall|x: OrderId, p: Price, j: int| #[trigger] stands_at(after, x, p, j) implies (x == id
        && p == price && j == last) || stands_at(side, x, p, j) by {
        if p == price {
            if j != last {
                assert(side.contains_key(price));
                assert(after[price][j] == side[price][j]);
            }
        } else {
            assert(after[p] == side[p]);
        }
    }
    assert forall|x: OrderId, p: Price, j: int| #[trigger] stands_at(side, x, p, j) implies stands_at(
        after,
        x,
        p,
        j,
    ) by {
        if p == price {
            assert(after[price][j] == side[price][j]);
        } else {
            assert(after[p] == side[p]);
        }
    }
    assert forall|x: OrderId, p: Price| at_price(after, x, p) <==> at_price(side, x, p) || (x == id
        && p == price) by {
        if at_price(after, x, p) {
            let j = choose|j: int| stands_at(after, x, p, j);
            if !(x == id && p == price) {
                assert(stands_at(side, x, p, j));
            }
        }
        if at_price(side, x, p) {
            let j = choose|j: int| stands_at(side, x, p, j);
            assert(stands_at(after, x, p, j));
        }
    }
    assert forall|p: Price| after.contains_key(p) implies (#[trigger] after[p]).len() > 0 by {
        if p != price {
            assert(after[p] == side[p]);
        }
    }
    assert forall|p: Price, j: int| after.contains_key(p) && 0 <= j < after[p].len() implies (
    #[trigger] after[p][j]).1 > 0 by {
        if p == price {
            if j != last {
                assert(after[price][j] == side[price][j]);
            }
        } else {
            assert(after[p] == side[p]);
        }
    }
    assert forall|x: OrderId, price_a: Price, place_a: int, price_b: Price, place_b: int| #[trigger]
        stands_at(after, x, price_a, place_a) && #[trigger] stands_at(after, x, price_b, place_b) implies price_a == price_b && place_a
        == place_b by {
        if x == id {
            if !(price_a == price && place_a == last) {
                assert(stands_at(side, x, price_a, place_a));
                assert(rests_on(side, id));
            }
            if !(price_b == price && place_b == last) {
                assert(stands_at(side, x, price_b, place_b));
                assert(rests_on(side, id));
            }
        } else {
            assert(stands_at(side, x, price_a, place_a));
            assert(stands_at(side, x, price_b, place_b));
        }
    }
    lemma_location(after, id, price, last);
}

/// A trade against the oldest order of a level leaves a valid side valid.
/// When the order is used up it leaves the side; every other order stays
/// where it was.
pub proof fn lemma_filled(side: Side, price: Price, quantity: Quantity)
    requires
        side_valid(side),
        side.contains_key(price),
        quantity > 0,
    ensures
        side_valid(filled(side, price, quantity)),
        filled(side, price, quantity).dom().subset_of(side.dom()),
        forall|x: OrderId, p: Price|
            #![trigger at_price(filled(side, price, quantity), x, p)]
            #![trigger at_price(side, x, p)]
            at_price(filled(side, price, quantity), x, p) <==> at_price(side, x, p) && (quantity
                < side[price][0].1 || x != side[price][0].0),
        quantity < side[price][0].1 ==> quantity_of(filled(side, price, quantity), side[price][0].0)
            == side[price][0].1 - quantity,
        forall|x: OrderId|
            rests_on(side, x) && x != side[price][0].0 ==> quantity_of(
                filled(side, price, quantity),
                x,
            ) == #[trigger] quantity_of(side, x),
{
    let after = filled(side, price, quantity);
    let level = side[price];
    let (id, resting) = level[0];
    assert(stands_at(side, id, price, 0));
    let partial = quantity < resting;
    let shift = |p: Price, j: int| if !partial && p == price { j + 1 } else { j };
    assert forall|x: OrderId, p: Price, j: int| #[trigger] stands_at(after, x, p, j) implies stands_at(
        side,
        x,
        p,
        shift(p, j),
    ) && (partial || x != id) by {
        if p == price {
            if partial {
                if j != 0 {
                    assert(after[price][j] == level[j]);
                }
            } else {
                assert(level.len() > 1);
                assert(after[price][j] == level[j + 1]);
                assert(stands_at(side, x, p, j + 1));
            }
        } else {
            assert(after[p] == side[p]);
        }
    }
    assert forall|x: OrderId, p: Price, j: int| #[trigger]
        stands_at(side, x, p, j) && (partial || x != id) implies stands_at(
        after,
        x,
        p,
        if !partial && p == price {
            j - 1
        } else {
            j
        },
    ) by {
        if p == price {
            if partial {
                if j != 0 {
                    assert(after[price][j] == level[j]);
                }
            } else {
                assert(j != 0);
                assert(level.len() > 1);
                assert(after[price][j - 1] == level[j]);
            }
        } else {
            assert(after[p] == side[p]);
        }
    }
    assert forall|x: OrderId, p: Price| at_price(after, x, p) <==> at_price(side, x, p) && (partial
        || x != id) by {
        if at_price(after, x, p) {
            let j = choose|j: int| stands_at(after, x, p, j);
            assert(stands_at(side, x, p, shift(p, j)));
        }
        if at_price(side, x, p) && (partial || x != id) {
            let j = choose|j: int| stands_at(side, x, p, j);
            assert(stands_at(after, x, p, if !partial && p == price {
                j - 1
            } else {
                j
            }));
        }
    }
    assert forall|p: Price| after.contains_key(p) implies (#[trigger] after[p]).len() > 0 by {
        if p != price {
            assert(after[p] == side[p]);
        }
    }
    assert forall|p: Price, j: int| after.contains_key(p) && 0 <= j < after[p].len() implies (
    #[trigger] after[p][j]).1 > 0 by {
        if p == price {
            if partial {
                if j != 0 {
                    assert(after[price][j] == level[j]);
                }
            } else {
                assert(after[price][j] == level[j + 1]);
            }
        } else {
            assert(after[p] == side[p]);
        }
    }
    assert forall|x: OrderId, price_a: Price, place_a: int, price_b: Price, place_b: int| #[trigger]
        stands_at(after, x, price_a, place_a) && #[trigger] stands_at(after, x, price_b, place_b) implies price_a == price_b && place_a
        == place_b by {
        assert(stands_at(side, x, price_a, shift(price_a, place_a)));
        assert(stands_at(side, x, price_b, shift(price_b, place_b)));
    }
    if partial {
        assert(after[price][0] == (id, (resting - quantity) as Quantity));
        assert(stands_at(after, id, price, 0));
        lemma_location(after, id, price, 0);
    }
    assert forall|x: OrderId| rests_on(side, x) && x != id implies quantity_of(after, x)
        == #[trigger] quantity_of(side, x) by {
        lemma_rests_on(side, x);
        let p = price_of(side, x);
        let j = place_of(side, x);
        lemma_location(side, x, p, j);
        let k = if !partial && p == price {
            j - 1
        } else {
            j
        };
        assert(stands_at(after, x, p, k));
        lemma_location(after, x, p, k);
        if p == price {
            if partial {
                assert(after[price][j] == level[j]);
            } else {
                assert(after[price][j - 1] == level[j]);
            }
        } else {
            assert(after[p] == side[p]);
        }
    }
}

/// An order that leaves a valid side leaves it valid; every other order
/// stays at its price with its quantity.
pub proof fn lemma_left(side: Side, id: OrderId)
    requires
        side_valid(side),
        rests_on(side, id),
    ensures
        side_valid(left(side, id)),
        left(side, id).dom().subset_of(side.dom()),
        forall|x: OrderId, p: Price|
            #![trigger at_price(left(side, id), x, p)]
            #![trigger at_price(side, x, p)]
            at_price(left(side, id), x, p) <==> at_price(side, x, p) && x != id,
        !rests_on(left(side, id), id),
        forall|x: OrderId|
            rests_on(side, x) && x != id ==> quantity_of(left(side, id), x) == #[trigger] quantity_of(
                side,
                x,
            ),
{
    let after = left(side, id);
    lemma_rests_on(side, id);
    let price = price_of(side, id);
    let place = place_of(side, id);
    let level = side[price];
    let shift = |p: Price, j: int| if p == price && j >= place { j + 1 } else { j };
    let unshift = |p: Price, j: int| if p == price && j > place { j - 1 } else { j };
    assert forall|x: OrderId, p: Price, j: int| #[trigger] stands_at(after, x, p, j) implies stands_at(
        side,
        x,
        p,
        shift(p, j),
    ) && x != id by {
        if p == price {
            assert(level.len() > 1);
            assert(after[price][j] == level[shift(p, j)]);
            assert(stands_at(side, x, p, shift(p, j)));
        } else {
            assert(after[p] == side[p]);
        }
    }
    assert forall|x: OrderId, p: Price, j: int| #[trigger] stands_at(side, x, p, j) && x
        != id implies stands_at(after, x, p, unshift(p, j)) by {
        if p == price {
            assert(j != place);
            assert(level.len() > 1);
            assert(after[price][unshift(p, j)] == level[j]);
        } else {
            assert(after[p] == side[p]);
        }
    }
    assert forall|x: OrderId, p: Price| at_price(after, x, p) <==> at_price(side, x, p) && x
        != id by {
        if at_price(after, x, p) {
            let j = choose|j: int| stands_at(after, x, p, j);
            assert(stands_at(side, x, p, shift(p, j)));
        }
        if at_price(side, x, p) && x != id {
            let j = choose|j: int| stands_at(side, x, p, j);
            assert(stands_at(after, x, p, unshift(p, j)));
        }
    }
    assert(!rests_on(after, id)) by {
        if rests_on(after, id) {
            lemma_rests_on(after, id);
        }
    }
    assert forall|p: Price| after.contains_key(p) implies (#[trigger] after[p]).len() > 0 by {
        if p != price {
            assert(after[p] == side[p]);
        }
    }
    assert forall|p: Price, j: int| after.contains_key(p) && 0 <= j < after[p].len() implies (
    #[trigger] after[p][j]).1 > 0 by {
        if p == price {
            assert(after[price][j] == level[shift(p, j)]);
        } else {
            assert(after[p] == side[p]);
        }
    }
    assert forall|x: OrderId, price_a: Price, place_a: int, price_b: Price, place_b: int| #[trigger]
        stands_at(after, x, price_a, place_a) && #[trigger] stands_at(after, x, price_b, place_b) implies price_a == price_b && place_a
        == place_b by {
        assert(stands_at(side, x, price_a, shift(price_a, place_a)));
        assert(stands_at(side, x, price_b, shift(price_b, place_b)));
    }
    assert forall|x: OrderId| rests_on(side, x) && x != id implies quantity_of(after, x)
        == #[trigger] quantity_of(side, x) by {
        lemma_rests_on(side, x);
        let p = price_of(side, x);
        let j = place_of(side, x);
        lemma_location(side, x, p, j);
        assert(stands_at(after, x, p, unshift(p, j)));
        lemma_location(after, x, p, unshift(p, j));
        if p == price {
            assert(after[price][unshift(p, j)] == level[j]);
        } else {
            assert(after[p] == side[p]);
        }
    }
}

impl BookModel {
    /// A buy crosses exactly when the lowest ask is within its price.
    pub proof fn lemma_buy_crosses(self, price: Price, ask: Price)
        requires
            is_lowest(self.asks, ask),
        ensures
            self.buy_crosses(price) <==> ask <= price,
    {
    }

    /// A sell crosses exactly when the highest bid is within its price.
    pub proof fn lemma_sell_crosses(self, price: Price, bid: Price)
        requires
            is_highest(self.bids, bid),
        ensures
            self.sell_crosses(price) <==> bid >= price,
    {
    }

    /// A trade of a buy leaves a valid book valid.
    pub proof fn lemma_after_buy_execution_valid(self, quantity: Quantity)
        requires
            self.valid(),
            is_lowest(self.asks, lowest(self.asks)),
            quantity > 0,
        ensures
            self.after_buy_execution(quantity).valid(),
    {
        let ask = lowest(self.asks);
        let after = self.after_buy_execution(quantity);
        lemma_filled(self.asks, ask, quantity);
        assert forall|id: OrderId, price_a: Price, place_a: int, price_b: Price, place_b: int|
            !(#[trigger] stands_at(after.bids, id, price_a, place_a) && #[trigger] stands_at(
                after.asks,
                id,
                price_b,
                place_b,
            )) by {
            if stands_at(after.bids, id, price_a, place_a) && stands_at(after.asks, id, price_b, place_b) {
                assert(at_price(after.asks, id, price_b));
                assert(at_price(self.asks, id, price_b));
                let k = choose|k: int| stands_at(self.asks, id, price_b, k);
                assert(stands_at(self.asks, id, price_b, k));
            }
        }
    }

    /// A trade of a sell leaves a valid book valid.
    pub proof fn lemma_after_sell_execution_valid(self, quantity: Quantity)
        requires
            self.valid(),
            is_highest(self.bids, highest(self.bids)),
            quantity > 0,
        ensures
            self.after_sell_execution(quantity).valid(),
    {
        let bid = highest(self.bids);
        let after = self.after_sell_execution(quantity);
        lemma_filled(self.bids, bid, quantity);
        assert forall|id: OrderId, price_a: Price, place_a: int, price_b: Price, place_b: int|
            !(#[trigger] stands_at(after.bids, id, price_a, place_a) && #[trigger] stands_at(
                after.asks,
                id,
                price_b,
                place_b,
            )) by {
            if stands_at(after.bids, id, price_a, place_a) && stands_at(after.asks, id, price_b, place_b) {
                assert(at_price(after.bids, id, price_a));
                assert(at_price(self.bids, id, price_a));
                let k = choose|k: int| stands_at(self.bids, id, price_a, k);
                assert(stands_at(self.bids, id, price_a, k));
            }
        }
    }

    /// A buy that cannot trade leaves a valid book valid, whatever
    /// identifier it was given.
    pub proof fn lemma_after_buy_entry_valid(self, id: OrderId, quantity: Quantity, price: Price)
        requires
            self.valid(),
            !self.buy_crosses(price),
            quantity > 0,
        ensures
            self.after_buy_entry(id, quantity, price).valid(),
    {
        if !self.resident(id) {
            let after = self.after_buy_entry(id, quantity, price);
            lemma_joined(self.bids, price, id, quantity);
            assert forall|x: OrderId, price_a: Price, place_a: int, price_b: Price, place_b: int|
                !(#[trigger] stands_at(after.bids, x, price_a, place_a) && #[trigger] stands_at(
                    after.asks,
                    x,
                    price_b,
                    place_b,
                )) by {
                if stands_at(after.bids, x, price_a, place_a) && stands_at(after.asks, x, price_b, place_b) {
                    assert(at_price(after.bids, x, price_a));
                    if x == id {
                        assert(rests_on(self.asks, id));
                    } else {
                        assert(at_price(self.bids, x, price_a));
                        let k = choose|k: int| stands_at(self.bids, x, price_a, k);
                        assert(stands_at(self.bids, x, price_a, k));
                    }
                }
            }
            assert forall|bid: Price, ask: Price|
                after.bids.contains_key(bid) && after.asks.contains_key(ask) implies bid < ask by {
                if bid == price {
                    if ask <= price {
                        assert(self.buy_crosses(price));
                    }
                }
            }
        }
    }

    /// A sell that cannot trade leaves a valid book valid, whatever
    /// identifier it was given.
    pub proof fn lemma_after_sell_entry_valid(self, id: OrderId, quantity: Quantity, price: Price)
        requires
            self.valid(),
            !self.sell_crosses(price),
            quantity > 0,
        ensures
            self.after_sell_entry(id, quantity, price).valid(),
    {
        if !self.resident(id) {
            let after = self.after_sell_entry(id, quantity, price);
            lemma_joined(self.asks, price, id, quantity);
            assert forall|x: OrderId, price_a: Price, place_a: int, price_b: Price, place_b: int|
                !(#[trigger] stands_at(after.bids, x, price_a, place_a) && #[trigger] stands_at(
                    after.asks,
                    x,
                    price_b,
                    place_b,
                )) by {
                if stands_at(after.bids, x, price_a, place_a) && stands_at(after.asks, x, price_b, place_b) {
                    assert(at_price(after.asks, x, price_b));
                    if x == id {
                        assert(rests_on(self.bids, id));
                    } else {
                        assert(at_price(self.asks, x, price_b));
                        let k = choose|k: int| stands_at(self.asks, x, price_b, k);
                        assert(stands_at(self.asks, x, price_b, k));
                    }
                }
            }
            assert forall|bid: Price, ask: Price|
                after.bids.contains_key(bid) && after.asks.contains_key(ask) implies bid < ask by {
                if ask == price {
                    if bid >= price {
                        assert(self.sell_crosses(price));
                    }
                }
            }
        }
    }

    /// A cancellation leaves a valid book valid.
    pub proof fn lemma_after_cancel_valid(self, id: OrderId)
        requires
            self.valid(),
        ensures
            self.after_cancel(id).valid(),
            !self.after_cancel(id).resident(id),
    {
        let after = self.after_cancel(id);
        if rests_on(self.bids, id) {
            lemma_left(self.bids, id);
            lemma_rests_on(self.bids, id);
            assert forall|x: OrderId, price_a: Price, place_a: int, price_b: Price, place_b: int|
                !(#[trigger] stands_at(after.bids, x, price_a, place_a) && #[trigger] stands_at(
                    after.asks,
                    x,
                    price_b,
                    place_b,
                )) by {
                if stands_at(after.bids, x, price_a, place_a) && stands_at(after.asks, x, price_b, place_b) {
                    assert(at_price(after.bids, x, price_a));
                    assert(at_price(self.bids, x, price_a));
                    let k = choose|k: int| stands_at(self.bids, x, price_a, k);
                    assert(stands_at(self.bids, x, price_a, k));
                }
            }
            if rests_on(after.asks, id) {
                lemma_rests_on(self.asks, id);
            }
        } else if rests_on(self.asks, id) {
            lemma_left(self.asks, id);
            assert forall|x: OrderId, price_a: Price, place_a: int, price_b: Price, place_b: int|
                !(#[trigger] stands_at(after.bids, x, price_a, place_a) && #[trigger] stands_at(
                    after.asks,
                    x,
                    price_b,
                    place_b,
                )) by {
                if stands_at(after.bids, x, price_a, place_a) && stands_at(after.asks, x, price_b, place_b) {
                    assert(at_price(after.asks, x, price_b));
                    assert(at_price(self.asks, x, price_b));
                    let k = choose|k: int| stands_at(self.asks, x, price_b, k);
                    assert(stands_at(self.asks, x, price_b, k));
                }
            }
        }
    }
}

} // verus!

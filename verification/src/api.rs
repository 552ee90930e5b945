//! What a book offers, and every outcome that its operations can have.

use crate::model::BookModel;
use crate::positive::Positive;
use std::ops::ControlFlow;
use vstd::prelude::*;

verus! {

/// How much of the instrument an order asks for or offers.
pub type Quantity = u64;

/// What one unit of the instrument costs.
pub type Price = u64;

/// Tells one resident order from every other.
pub type OrderId = u128;

/// What the condition of a buy gets to see: the seller it would trade with.
pub struct ConditionalBuyArgs<'a> {
    pub seller_id: &'a OrderId,
}

/// What the condition of a sell gets to see: the buyer it would trade with.
pub struct ConditionalSellArgs<'a> {
    pub buyer_id: &'a OrderId,
}

/// How the submission of a buy ended.
#[derive(Debug, Clone, Copy, PartialEq, Eq, Hash)]
pub enum BuyEntryOrExecution {
    /// Nothing could be traded; the order now rests in the book as `id`.
    EnteredOrderBook { id: OrderId },
    /// Buyer and seller wanted the same quantity; the seller has left the book.
    MutualFullExecution { seller: OrderId, spread: Option<Positive> },
    /// The buyer got everything; the seller stays with `sellers_remaining`.
    BuyerFullyExecuted { seller: OrderId, spread: Option<Positive>, sellers_remaining: Quantity },
    /// The seller sold everything and has left the book; `buyers_remaining`
    /// of the buy is unserved and does not enter the book.
    SellerFullyExecuted { seller: OrderId, spread: Option<Positive>, buyers_remaining: Quantity },
    /// Nothing could be traded, and the identifier drawn for the order
    /// belongs to a resident order already; the book is unchanged.
    IdentifierCollision { id: OrderId },
}

/// How the submission of a sell ended.
#[derive(Debug, Clone, Copy, PartialEq, Eq, Hash)]
pub enum SellEntryOrExecution {
    /// Nothing could be traded; the order now rests in the book as `id`.
    EnteredOrderBook { id: OrderId },
    /// Buyer and seller wanted the same quantity; the buyer has left the book.
    MutualFullExecution { buyer: OrderId, spread: Option<Positive> },
    /// The buyer got everything and has left the book; `sellers_remaining`
    /// of the sell is unserved and does not enter the book.
    BuyerFullyExecuted { buyer: OrderId, spread: Option<Positive>, sellers_remaining: Quantity },
    /// The seller sold everything; the buyer stays with `buyers_remaining`.
    SellerFullyExecuted { buyer: OrderId, spread: Option<Positive>, buyers_remaining: Quantity },
    /// Nothing could be traded, and the identifier drawn for the order
    /// belongs to a resident order already; the book is unchanged.
    IdentifierCollision { id: OrderId },
}

/// No resident order has the identifier that was asked for.
#[derive(Debug, Clone, Copy, PartialEq, Eq, Hash)]
pub struct NoSuchOrder;

/// The order has left the book.
#[derive(Debug, Clone, Copy, PartialEq, Eq, Hash)]
pub struct Cancelled;

/// A resident order as a query shows it.
#[derive(Debug, Clone, Copy, PartialEq, Eq, Hash)]
pub enum BuyOrSell {
    Buy { quantity: Quantity, unit_price: Price },
    Sell { quantity: Quantity, unit_price: Price },
}

/// A resident order as a listing shows it.
#[derive(Debug, Clone, Copy, PartialEq, Eq, Hash)]
pub struct Order {
    pub quantity: Quantity,
    pub unit_price: Price,
    pub id: OrderId,
}

impl BuyEntryOrExecution {
    pub fn is_entered_order_book(&self) -> (r: bool)
        ensures
            r == (self is EnteredOrderBook),
    {
        match self {
            BuyEntryOrExecution::EnteredOrderBook { .. } => true,
            _ => false,
        }
    }

    pub fn is_mutual_full_execution(&self) -> (r: bool)
        ensures
            r == (self is MutualFullExecution),
    {
        match self {
            BuyEntryOrExecution::MutualFullExecution { .. } => true,
            _ => false,
        }
    }

    pub fn is_buyer_fully_executed(&self) -> (r: bool)
        ensures
            r == (self is BuyerFullyExecuted),
    {
        match self {
            BuyEntryOrExecution::BuyerFullyExecuted { .. } => true,
            _ => false,
        }
    }

    pub fn is_seller_fully_executed(&self) -> (r: bool)
        ensures
            r == (self is SellerFullyExecuted),
    {
        match self {
            BuyEntryOrExecution::SellerFullyExecuted { .. } => true,
            _ => false,
        }
    }

    pub fn is_identifier_collision(&self) -> (r: bool)
        ensures
            r == (self is IdentifierCollision),
    {
        match self {
            BuyEntryOrExecution::IdentifierCollision { .. } => true,
            _ => false,
        }
    }

    /// The identifier under which the order rests, or the outcome itself if
    /// the order did not come to rest.
    pub fn into_entered_order_book(self) -> (r: Result<OrderId, Self>)
        ensures
            r == match self {
                BuyEntryOrExecution::EnteredOrderBook { id } => Ok::<OrderId, Self>(id),
                _ => Err::<OrderId, Self>(self),
            },
    {
        match self {
            BuyEntryOrExecution::EnteredOrderBook { id } => Ok(id),
            _ => Err(self),
        }
    }

    /// The seller and the spread of a trade that served both in full, or
    /// the outcome itself if it was another.
    pub fn into_mutual_full_execution(self) -> (r: Result<(OrderId, Option<Positive>), Self>)
        ensures
            r == match self {
                BuyEntryOrExecution::MutualFullExecution { seller, spread } => Ok::<
                    (OrderId, Option<Positive>),
                    Self,
                >((seller, spread)),
                _ => Err::<(OrderId, Option<Positive>), Self>(self),
            },
    {
        match self {
            BuyEntryOrExecution::MutualFullExecution { seller, spread } => Ok((seller, spread)),
            _ => Err(self),
        }
    }

    /// The seller, the spread and what the seller has left after a trade
    /// that served the buyer in full, or the outcome itself if it was
    /// another.
    pub fn into_buyer_fully_executed(self) -> (r: Result<
        (OrderId, Option<Positive>, Quantity),
        Self,
    >)
        ensures
            r == match self {
                BuyEntryOrExecution::BuyerFullyExecuted { seller, spread, sellers_remaining } => Ok::<
                    (OrderId, Option<Positive>, Quantity),
                    Self,
                >((seller, spread, sellers_remaining)),
                _ => Err::<(OrderId, Option<Positive>, Quantity), Self>(self),
            },
    {
        match self {
            BuyEntryOrExecution::BuyerFullyExecuted { seller, spread, sellers_remaining } => Ok(
                (seller, spread, sellers_remaining),
            ),
            _ => Err(self),
        }
    }

    /// The seller, the spread and what the buyer has left after a trade
    /// that served the seller in full, or the outcome itself if it was
    /// another.
    pub fn into_seller_fully_executed(self) -> (r: Result<
        (OrderId, Option<Positive>, Quantity),
        Self,
    >)
        ensures
            r == match self {
                BuyEntryOrExecution::SellerFullyExecuted { seller, spread, buyers_remaining } => Ok::<
                    (OrderId, Option<Positive>, Quantity),
                    Self,
                >((seller, spread, buyers_remaining)),
                _ => Err::<(OrderId, Option<Positive>, Quantity), Self>(self),
            },
    {
        match self {
            BuyEntryOrExecution::SellerFullyExecuted { seller, spread, buyers_remaining } => Ok(
                (seller, spread, buyers_remaining),
            ),
            _ => Err(self),
        }
    }
}

impl SellEntryOrExecution {
    pub fn is_entered_order_book(&self) -> (r: bool)
        ensures
            r == (self is EnteredOrderBook),
    {
        match self {
            SellEntryOrExecution::EnteredOrderBook { .. } => true,
            _ => false,
        }
    }

    pub fn is_mutual_full_execution(&self) -> (r: bool)
        ensures
            r == (self is MutualFullExecution),
    {
        match self {
            SellEntryOrExecution::MutualFullExecution { .. } => true,
            _ => false,
        }
    }

    pub fn is_buyer_fully_executed(&self) -> (r: bool)
        ensures
            r == (self is BuyerFullyExecuted),
    {
        match self {
            SellEntryOrExecution::BuyerFullyExecuted { .. } => true,
            _ => false,
        }
    }

    pub fn is_seller_fully_executed(&self) -> (r: bool)
        ensures
            r == (self is SellerFullyExecuted),
    {
        match self {
            SellEntryOrExecution::SellerFullyExecuted { .. } => true,
            _ => false,
        }
    }

    pub fn is_identifier_collision(&self) -> (r: bool)
        ensures
            r == (self is IdentifierCollision),
    {
        match self {
            SellEntryOrExecution::IdentifierCollision { .. } => true,
            _ => false,
        }
    }

    /// The identifier under which the order rests, or the outcome itself if
    /// the order did not come to rest.
    pub fn into_entered_order_book(self) -> (r: Result<OrderId, Self>)
        ensures
            r == match self {
                SellEntryOrExecution::EnteredOrderBook { id } => Ok::<OrderId, Self>(id),
                _ => Err::<OrderId, Self>(self),
            },
    {
        match self {
            SellEntryOrExecution::EnteredOrderBook { id } => Ok(id),
            _ => Err(self),
        }
    }

    /// The buyer and the spread of a trade that served both in full, or
    /// the outcome itself if it was another.
    pub fn into_mutual_full_execution(self) -> (r: Result<(OrderId, Option<Positive>), Self>)
        ensures
            r == match self {
                SellEntryOrExecution::MutualFullExecution { buyer, spread } => Ok::<
                    (OrderId, Option<Positive>),
                    Self,
                >((buyer, spread)),
                _ => Err::<(OrderId, Option<Positive>), Self>(self),
            },
    {
        match self {
            SellEntryOrExecution::MutualFullExecution { buyer, spread } => Ok((buyer, spread)),
            _ => Err(self),
        }
    }

    /// The buyer, the spread and what the seller has left after a trade
    /// that served the buyer in full, or the outcome itself if it was
    /// another.
    pub fn into_buyer_fully_executed(self) -> (r: Result<
        (OrderId, Option<Positive>, Quantity),
        Self,
    >)
        ensures
            r == match self {
                SellEntryOrExecution::BuyerFullyExecuted { buyer, spread, sellers_remaining } => Ok::<
                    (OrderId, Option<Positive>, Quantity),
                    Self,
                >((buyer, spread, sellers_remaining)),
                _ => Err::<(OrderId, Option<Positive>, Quantity), Self>(self),
            },
    {
        match self {
            SellEntryOrExecution::BuyerFullyExecuted { buyer, spread, sellers_remaining } => Ok(
                (buyer, spread, sellers_remaining),
            ),
            _ => Err(self),
        }
    }

    /// The buyer, the spread and what the buyer has left after a trade
    /// that served the seller in full, or the outcome itself if it was
    /// another.
    pub fn into_seller_fully_executed(self) -> (r: Result<
        (OrderId, Option<Positive>, Quantity),
        Self,
    >)
        ensures
            r == match self {
                SellEntryOrExecution::SellerFullyExecuted { buyer, spread, buyers_remaining } => Ok::<
                    (OrderId, Option<Positive>, Quantity),
                    Self,
                >((buyer, spread, buyers_remaining)),
                _ => Err::<(OrderId, Option<Positive>, Quantity), Self>(self),
            },
    {
        match self {
            SellEntryOrExecution::SellerFullyExecuted { buyer, spread, buyers_remaining } => Ok(
                (buyer, spread, buyers_remaining),
            ),
            _ => Err(self),
        }
    }
}

impl BuyOrSell {
    pub fn is_buy(&self) -> (r: bool)
        ensures
            r == (self is Buy),
    {
        match self {
            BuyOrSell::Buy { .. } => true,
            _ => false,
        }
    }

    pub fn is_sell(&self) -> (r: bool)
        ensures
            r == (self is Sell),
    {
        match self {
            BuyOrSell::Sell { .. } => true,
            _ => false,
        }
    }

    /// The quantity and the price of a buy, or the order itself if it is a
    /// sell.
    pub fn into_buy(self) -> (r: Result<(Quantity, Price), Self>)
        ensures
            r == match self {
                BuyOrSell::Buy { quantity, unit_price } => Ok::<(Quantity, Price), Self>(
                    (quantity, unit_price),
                ),
                _ => Err::<(Quantity, Price), Self>(self),
            },
    {
        match self {
            BuyOrSell::Buy { quantity, unit_price } => Ok((quantity, unit_price)),
            _ => Err(self),
        }
    }

    /// The quantity and the price of a sell, or the order itself if it is a
    /// buy.
    pub fn into_sell(self) -> (r: Result<(Quantity, Price), Self>)
        ensures
            r == match self {
                BuyOrSell::Sell { quantity, unit_price } => Ok::<(Quantity, Price), Self>(
                    (quantity, unit_price),
                ),
                _ => Err::<(Quantity, Price), Self>(self),
            },
    {
        match self {
            BuyOrSell::Sell { quantity, unit_price } => Ok((quantity, unit_price)),
            _ => Err(self),
        }
    }
}

impl NoSuchOrder {
    /// What went wrong, in words.
    pub fn message(&self) -> (r: String)
        ensures
            r@ == "No order found with that ID"@,
    {
        "No order found with that ID".to_owned()
    }
}

/// The operations of a book: submitting, querying and cancelling orders.
///
/// The view of a book is its state. Every operation leaves a valid state
/// behind, and says which.
pub trait OrderBookApi: View<V = BookModel> {
    /// Submits a buy of `quantity` at no more than `unit_price` a unit.
    ///
    /// If the lowest ask is within `unit_price`, the buy can trade with the
    /// oldest order at that ask. `condition` is then called, once, with the
    /// identifier of that seller. If it breaks, its reason comes back and the
    /// book is unchanged; if it continues, the trade is made, once. If the
    /// buy cannot trade, `condition` is not called: the order is given a new
    /// identifier and joins the book, unless that identifier is taken.
    fn conditional_buy<BuyAbortReasonT, ConditionT>(
        &mut self,
        quantity: Positive,
        unit_price: Price,
        condition: ConditionT,
    ) -> (r: Result<BuyEntryOrExecution, BuyAbortReasonT>) where
        ConditionT: FnOnce(ConditionalBuyArgs<'_>) -> ControlFlow<BuyAbortReasonT, ()>,

        requires
            old(self)@.buy_crosses(unit_price) ==> call_requires(
                condition,
                ((ConditionalBuyArgs { seller_id: &old(self)@.buy_counterparty() }),),
            ),
        ensures
            final(self)@.valid(),
            old(self)@.buy_crosses(unit_price) ==> match r {
                Ok(outcome) => {
                    &&& call_ensures(
                        condition,
                        ((ConditionalBuyArgs { seller_id: &old(self)@.buy_counterparty() }),),
                        ControlFlow::Continue(()),
                    )
                    &&& outcome == old(self)@.buy_execution(quantity@, unit_price)
                    &&& final(self)@ == old(self)@.after_buy_execution(quantity@)
                },
                Err(reason) => {
                    &&& call_ensures(
                        condition,
                        ((ConditionalBuyArgs { seller_id: &old(self)@.buy_counterparty() }),),
                        ControlFlow::Break(reason),
                    )
                    &&& final(self)@ == old(self)@
                },
            },
            !old(self)@.buy_crosses(unit_price) ==> exists|id: OrderId|
                {
                    &&& r == Ok::<BuyEntryOrExecution, BuyAbortReasonT>(
                        #[trigger] old(self)@.buy_entry(id),
                    )
                    &&& final(self)@ == old(self)@.after_buy_entry(id, quantity@, unit_price)
                },
    ;

    /// Submits a sell of `quantity` at no less than `unit_price` a unit.
    ///
    /// If the highest bid is within `unit_price`, the sell can trade with the
    /// oldest order at that bid. `condition` is then called, once, with the
    /// identifier of that buyer. If it breaks, its reason comes back and the
    /// book is unchanged; if it continues, the trade is made, once. If the
    /// sell cannot trade, `condition` is not called: the order is given a new
    /// identifier and joins the book, unless that identifier is taken.
    fn conditional_sell<SellAbortReasonT, ConditionT>(
        &mut self,
        quantity: Positive,
        unit_price: Price,
        condition: ConditionT,
    ) -> (r: Result<SellEntryOrExecution, SellAbortReasonT>) where
        ConditionT: FnOnce(ConditionalSellArgs<'_>) -> ControlFlow<SellAbortReasonT, ()>,

        requires
            old(self)@.sell_crosses(unit_price) ==> call_requires(
                condition,
                ((ConditionalSellArgs { buyer_id: &old(self)@.sell_counterparty() }),),
            ),
        ensures
            final(self)@.valid(),
            old(self)@.sell_crosses(unit_price) ==> match r {
                Ok(outcome) => {
                    &&& call_ensures(
                        condition,
                        ((ConditionalSellArgs { buyer_id: &old(self)@.sell_counterparty() }),),
                        ControlFlow::Continue(()),
                    )
                    &&& outcome == old(self)@.sell_execution(quantity@, unit_price)
                    &&& final(self)@ == old(self)@.after_sell_execution(quantity@)
                },
                Err(reason) => {
                    &&& call_ensures(
                        condition,
                        ((ConditionalSellArgs { buyer_id: &old(self)@.sell_counterparty() }),),
                        ControlFlow::Break(reason),
                    )
                    &&& final(self)@ == old(self)@
                },
            },
            !old(self)@.sell_crosses(unit_price) ==> exists|id: OrderId|
                {
                    &&& r == Ok::<SellEntryOrExecution, SellAbortReasonT>(
                        #[trigger] old(self)@.sell_entry(id),
                    )
                    &&& final(self)@ == old(self)@.after_sell_entry(id, quantity@, unit_price)
                },
    ;

    /// Shows the side, the quantity that is left and the price of a resident
    /// order.
    fn query(&self, id: OrderId) -> (r: Result<BuyOrSell, NoSuchOrder>)
        ensures
            self@.valid(),
            r == match self@.lookup(id) {
                Some(order) => Ok::<BuyOrSell, NoSuchOrder>(order),
                None => Err::<BuyOrSell, NoSuchOrder>(NoSuchOrder),
            },
    ;

    /// Takes a resident order out of the book, whole. Nothing is traded.
    fn cancel(&mut self, id: OrderId) -> (r: Result<Cancelled, NoSuchOrder>)
        ensures
            final(self)@.valid(),
            final(self)@ == old(self)@.after_cancel(id),
            r == if old(self)@.resident(id) {
                Ok::<Cancelled, NoSuchOrder>(Cancelled)
            } else {
                Err::<Cancelled, NoSuchOrder>(NoSuchOrder)
            },
    ;
}

/// Listings of the resident orders, for looking into a book.
pub trait ReportingOrderBookApi: OrderBookApi {
    /// The resident buys, the most generous first; of two at one price the
    /// older first.
    fn buys(&self) -> (r: Vec<Order>)
        ensures
            self@.valid(),
            r@ == self@.buys(),
    ;

    /// The resident sells, the cheapest first; of two at one price the older
    /// first.
    fn sells(&self) -> (r: Vec<Order>)
        ensures
            self@.valid(),
            r@ == self@.sells(),
    ;
}

/// Submission without a condition: a trade that is possible is made.
pub trait UnconditionalOrderBookApi: OrderBookApi {
    /// Submits a buy of `quantity` at no more than `unit_price` a unit.
    fn unconditional_buy(&mut self, quantity: Positive, unit_price: Price) -> (r:
        BuyEntryOrExecution)
        ensures
            final(self)@.valid(),
            old(self)@.buy_crosses(unit_price) ==> {
                &&& r == old(self)@.buy_execution(quantity@, unit_price)
                &&& final(self)@ == old(self)@.after_buy_execution(quantity@)
            },
            !old(self)@.buy_crosses(unit_price) ==> exists|id: OrderId|
                {
                    &&& r == #[trigger] old(self)@.buy_entry(id)
                    &&& final(self)@ == old(self)@.after_buy_entry(id, quantity@, unit_price)
                },
    ;

    /// Submits a sell of `quantity` at no less than `unit_price` a unit.
    fn unconditional_sell(&mut self, quantity: Positive, unit_price: Price) -> (r:
        SellEntryOrExecution)
        ensures
            final(self)@.valid(),
            old(self)@.sell_crosses(unit_price) ==> {
                &&& r == old(self)@.sell_execution(quantity@, unit_price)
                &&& final(self)@ == old(self)@.after_sell_execution(quantity@)
            },
            !old(self)@.sell_crosses(unit_price) ==> exists|id: OrderId|
                {
                    &&& r == #[trigger] old(self)@.sell_entry(id)
                    &&& final(self)@ == old(self)@.after_sell_entry(id, quantity@, unit_price)
                },
    ;
}

/// Every book can take a submission without a condition: it is a submission
/// whose condition always continues, and such a one is never aborted.
impl<T: OrderBookApi> UnconditionalOrderBookApi for T {
    fn unconditional_buy(&mut self, quantity: Positive, unit_price: Price) -> (r:
        BuyEntryOrExecution) {
        let always = |args: ConditionalBuyArgs<'_>| -> (decision: ControlFlow<(), ()>)
            ensures
                decision is Continue,
            { ControlFlow::Continue(()) };
        match self.conditional_buy(quantity, unit_price, always) {
            Ok(outcome) => outcome,
            Err(reason) => {
                assert(false);
                vstd::pervasive::unreached()
            },
        }
    }

    fn unconditional_sell(&mut self, quantity: Positive, unit_price: Price) -> (r:
        SellEntryOrExecution) {
        let always = |args: ConditionalSellArgs<'_>| -> (decision: ControlFlow<(), ()>)
            ensures
                decision is Continue,
            { ControlFlow::Continue(()) };
        match self.conditional_sell(quantity, unit_price, always) {
            Ok(outcome) => outcome,
            Err(reason) => {
                assert(false);
                vstd::pervasive::unreached()
            },
        }
    }
}

} // verus!

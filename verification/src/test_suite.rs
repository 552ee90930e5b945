//! Scenarios that every book must pass, written against the operations of a
//! book alone, so that they can be run on any implementation.
//!
//! Each scenario starts from `T::default()`, plays a few submissions and
//! compares what the book answers with what the rules of matching demand.
//! A book that keeps the contracts of its operations cannot fail one.

use crate::api::BuyEntryOrExecution;
use crate::api::BuyOrSell;
use crate::api::Order;
use crate::api::OrderBookApi;
use crate::api::OrderId;
use crate::api::Price;
use crate::api::Quantity;
use crate::api::ReportingOrderBookApi;
use crate::api::SellEntryOrExecution;
use crate::api::UnconditionalOrderBookApi;
use crate::laws::lemma_buy_listed_by_price_then_time;
use crate::laws::lemma_buy_round_trip;
use crate::laws::lemma_empty_book;
use crate::laws::lemma_sell_listed_by_price_then_time;
use crate::laws::lemma_sell_round_trip;
use crate::laws::lemma_single_buy_extinguished;
use crate::laws::lemma_single_sell_extinguished;
use crate::model::is_highest;
use crate::model::is_lowest;
use crate::model::lemma_highest;
use crate::model::lemma_location;
use crate::model::lemma_lowest;
use crate::model::lemma_rests_on;
use crate::model::rests_on;
use crate::model::stands_at;
use crate::model::BookModel;
use crate::positive::Positive;
use vstd::prelude::*;

verus! {

broadcast use {Positive::lemma_of_view, Positive::lemma_view_of};

/// How a scenario ended.
#[derive(Debug, Clone, Copy, PartialEq, Eq, Hash)]
pub enum Verdict {
    /// The book answered as the rules of matching demand.
    Passed,
    /// The book gave an answer that the rules of matching forbid.
    Failed,
    /// The book drew the identifier of a resident order for a new one, so
    /// that the scenario could not be played to its end.
    Inconclusive,
}

/// Every book that `T::default` makes is empty.
pub open spec fn default_is_empty_book<T: OrderBookApi + Default>() -> bool {
    forall|book: T| #[trigger] call_ensures(T::default, (), book) ==> book@ == BookModel::empty()
}

/// What a scenario expects of a listed order; a field left out fits any
/// order.
#[derive(Debug, Clone, Copy)]
pub struct OrderMatcher {
    pub quantity: Option<Quantity>,
    pub unit_price: Option<Price>,
    pub id: Option<OrderId>,
}

impl OrderMatcher {
    /// What expects the identifier and nothing else.
    pub open spec fn expecting(id: OrderId) -> OrderMatcher {
        OrderMatcher { quantity: None, unit_price: None, id: Some(id) }
    }

    /// Expects the identifier and nothing else.
    pub fn with_id(id: OrderId) -> (r: OrderMatcher)
        ensures
            r == OrderMatcher::expecting(id),
    {
        OrderMatcher { quantity: None, unit_price: None, id: Some(id) }
    }

    /// The order fits in every field that is expected.
    pub open spec fn fits(self, other: Order) -> bool {
        &&& self.quantity matches Some(quantity) ==> quantity == other.quantity
        &&& self.unit_price matches Some(unit_price) ==> unit_price == other.unit_price
        &&& self.id matches Some(id) ==> id == other.id
    }

    /// Whether the order fits in every field that is expected.
    pub fn eq(&self, other: &Order) -> (r: bool)
        ensures
            r == self.fits(*other),
    {
        if let Some(quantity) = self.quantity {
            if quantity != other.quantity {
                return false;
            }
        }
        if let Some(unit_price) = self.unit_price {
            if unit_price != other.unit_price {
                return false;
            }
        }
        if let Some(id) = self.id {
            if id != other.id {
                return false;
            }
        }
        true
    }
}

/// Whether a listing has the expected orders, place by place.
fn listing_fits(expected: &Vec<OrderMatcher>, listed: &Vec<Order>) -> (r: bool)
    ensures
        r == (expected@.len() == listed@.len() && forall|i: int|
            0 <= i < expected@.len() ==> (#[trigger] expected@[i]).fits(listed@[i])),
{
    if expected.len() != listed.len() {
        return false;
    }
    let mut i: usize = 0;
    while i < expected.len()
        invariant
            expected@.len() == listed@.len(),
            0 <= i <= expected@.len(),
            forall|k: int| 0 <= k < i ==> (#[trigger] expected@[k]).fits(listed@[k]),
        decreases expected@.len() - i,
    {
        if !expected[i].eq(&listed[i]) {
            return false;
        }
        i += 1;
    }
    true
}

fn one() -> (r: u64)
    ensures
        r == 1,
{
    1
}

fn two() -> (r: u64)
    ensures
        r == 2,
{
    one() + one()
}

/// Whether a spread is what is expected: the number, or none for zero.
fn spread_is(spread: Option<Positive>, expected: u64) -> (r: bool)
    ensures
        r == (spread == if expected == 0 {
            None
        } else {
            Some(Positive::of(expected))
        }),
{
    match spread {
        Some(apart) => apart.into_inner() == expected,
        None => expected == 0,
    }
}

/// Whether the book lists no order on either side.
pub fn is_empty<T>(order_book: &T) -> (r: bool) where T: ReportingOrderBookApi
    ensures
        r == (order_book@.buys().len() == 0 && order_book@.sells().len() == 0),
        order_book@.valid(),
{
    order_book.buys().len() == 0 && order_book.sells().len() == 0
}

/// How a scenario ends before its time when a buy of one unit at `price`,
/// given `id`, does not come to rest: the buy traded, which it must not, or
/// `id` was taken. `None` when the buy rests.
pub open spec fn unrested_buy(start: BookModel, id: OrderId, price: Price) -> Option<Verdict> {
    if start.buy_crosses(price) {
        Some(Verdict::Failed)
    } else if start.resident(id) {
        Some(Verdict::Inconclusive)
    } else {
        None
    }
}

/// How a scenario ends before its time when a sell of one unit at `price`,
/// given `id`, does not come to rest: the sell traded, which it must not, or
/// `id` was taken. `None` when the sell rests.
pub open spec fn unrested_sell(start: BookModel, id: OrderId, price: Price) -> Option<Verdict> {
    if start.sell_crosses(price) {
        Some(Verdict::Failed)
    } else if start.resident(id) {
        Some(Verdict::Inconclusive)
    } else {
        None
    }
}

/// The verdict on a scenario that has been played to its end.
pub open spec fn verdict_on(as_demanded: bool) -> Verdict {
    if as_demanded {
        Verdict::Passed
    } else {
        Verdict::Failed
    }
}

/// The book lists no order on either side.
pub open spec fn lists_nothing(book: BookModel) -> bool {
    book.buys().len() == 0 && book.sells().len() == 0
}

/// The listing shows these identifiers, in this order, and no other.
pub open spec fn lists_ids(listing: Seq<Order>, ids: Seq<OrderId>) -> bool {
    &&& listing.len() == ids.len()
    &&& forall|i: int| 0 <= i < ids.len() ==> (#[trigger] listing[i]).id == ids[i]
}

/// A sell of one unit at price 1 trades in full with `buyer`, at `spread`.
pub open spec fn sells_in_full(book: BookModel, buyer: OrderId, spread: Option<Positive>) -> bool {
    &&& book.sell_crosses(1)
    &&& book.sell_execution(1, 1) == (SellEntryOrExecution::MutualFullExecution { buyer, spread })
}

/// A buy of one unit at price 2 trades in full with `seller`, at `spread`.
pub open spec fn buys_in_full(book: BookModel, seller: OrderId, spread: Option<Positive>) -> bool {
    &&& book.buy_crosses(2)
    &&& book.buy_execution(1, 2) == (BuyEntryOrExecution::MutualFullExecution { seller, spread })
}

/// Submits a buy that is meant to come to rest, and hands out its
/// identifier; if it does not rest, the verdict that this means for the
/// scenario.
fn buy_unexecuted<T>(order_book: &mut T, quantity: Quantity, unit_price: Price) -> (r: Result<
    OrderId,
    Verdict,
>) where T: OrderBookApi
    requires
        quantity > 0,
    ensures
        final(order_book)@.valid(),
        match r {
            Ok(id) => {
                &&& unrested_buy(old(order_book)@, id, unit_price) is None
                &&& final(order_book)@ == old(order_book)@.after_buy_entry(id, quantity, unit_price)
            },
            Err(verdict) => exists|id: OrderId|
                {
                    &&& #[trigger] unrested_buy(old(order_book)@, id, unit_price) == Some(verdict)
                    &&& verdict == Verdict::Inconclusive ==> final(order_book)@ == old(
                        order_book,
                    )@
                },
        },
{
    let ghost before = order_book@;
    let quantity = match Positive::new(quantity) {
        Ok(quantity) => quantity,
        Err(_) => {
            return Err(vstd::pervasive::unreached());
        },
    };
    match order_book.unconditional_buy(quantity, unit_price) {
        BuyEntryOrExecution::EnteredOrderBook { id } => Ok(id),
        BuyEntryOrExecution::IdentifierCollision { id } => {
            assert(unrested_buy(before, id, unit_price) == Some(Verdict::Inconclusive));
            Err(Verdict::Inconclusive)
        },
        _ => {
            assert(unrested_buy(before, 0, unit_price) == Some(Verdict::Failed));
            Err(Verdict::Failed)
        },
    }
}

/// Submits a sell that is meant to come to rest, and hands out its
/// identifier; if it does not rest, the verdict that this means for the
/// scenario.
fn sell_unexecuted<T>(order_book: &mut T, quantity: Quantity, unit_price: Price) -> (r: Result<
    OrderId,
    Verdict,
>) where T: OrderBookApi
    requires
        quantity > 0,
    ensures
        final(order_book)@.valid(),
        match r {
            Ok(id) => {
                &&& unrested_sell(old(order_book)@, id, unit_price) is None
                &&& final(order_book)@ == old(order_book)@.after_sell_entry(
                    id,
                    quantity,
                    unit_price,
                )
            },
            Err(verdict) => exists|id: OrderId|
                {
                    &&& #[trigger] unrested_sell(old(order_book)@, id, unit_price) == Some(verdict)
                    &&& verdict == Verdict::Inconclusive ==> final(order_book)@ == old(
                        order_book,
                    )@
                },
        },
{
    let ghost before = order_book@;
    let quantity = match Positive::new(quantity) {
        Ok(quantity) => quantity,
        Err(_) => {
            return Err(vstd::pervasive::unreached());
        },
    };
    match order_book.unconditional_sell(quantity, unit_price) {
        SellEntryOrExecution::EnteredOrderBook { id } => Ok(id),
        SellEntryOrExecution::IdentifierCollision { id } => {
            assert(unrested_sell(before, id, unit_price) == Some(Verdict::Inconclusive));
            Err(Verdict::Inconclusive)
        },
        _ => {
            assert(unrested_sell(before, 0, unit_price) == Some(Verdict::Failed));
            Err(Verdict::Failed)
        },
    }
}

/// Whether a sell traded in full with `buyer`, with the spread expected.
fn sold_in_full_to(outcome: SellEntryOrExecution, buyer: OrderId, spread: u64) -> (r: bool)
    ensures
        r == (outcome == SellEntryOrExecution::MutualFullExecution {
            buyer,
            spread: if spread == 0 {
                None
            } else {
                Some(Positive::of(spread))
            },
        }),
{
    match outcome {
        SellEntryOrExecution::MutualFullExecution { buyer: met, spread: made } => met == buyer
            && spread_is(made, spread),
        _ => false,
    }
}

/// Whether a buy traded in full with `seller`, with the spread expected.
fn bought_in_full_from(outcome: BuyEntryOrExecution, seller: OrderId, spread: u64) -> (r: bool)
    ensures
        r == (outcome == BuyEntryOrExecution::MutualFullExecution {
            seller,
            spread: if spread == 0 {
                None
            } else {
                Some(Positive::of(spread))
            },
        }),
{
    match outcome {
        BuyEntryOrExecution::MutualFullExecution { seller: met, spread: made } => met == seller
            && spread_is(made, spread),
        _ => false,
    }
}

/// How `default_is_empty` ends on a book that starts as `start`.
pub open spec fn default_is_empty_verdict(start: BookModel) -> Verdict {
    verdict_on(lists_nothing(start))
}

/// A new book lists nothing.
pub fn default_is_empty<T>() -> (verdict: Verdict) where T: ReportingOrderBookApi + Default
    ensures
        exists|book: T|
            call_ensures(T::default, (), book) && verdict == #[trigger] default_is_empty_verdict(
                book@,
            ),
        default_is_empty_book::<T>() ==> verdict == Verdict::Passed,
{
    proof {
        lemma_empty_book();
    }
    let order_book = T::default();
    let verdict = if is_empty(&order_book) {
        Verdict::Passed
    } else {
        Verdict::Failed
    };
    assert(verdict == default_is_empty_verdict(order_book@));
    verdict
}

/// How `add_query_remove_single_buy_order` ends on a book that starts as
/// `start` and gives `id` to the buy.
pub open spec fn add_query_remove_single_buy_order_verdict(start: BookModel, id: OrderId) -> Verdict {
    match unrested_buy(start, id, 1) {
        Some(verdict) => verdict,
        None => verdict_on(lists_nothing(start.after_buy_entry(id, 1, 1).after_cancel(id))),
    }
}

/// A buy that comes to rest is found as it was submitted; once cancelled it
/// is unknown, and the book is empty.
pub fn add_query_remove_single_buy_order<T>() -> (verdict: Verdict) where
    T: ReportingOrderBookApi + Default,

    ensures
        exists|book: T, id: OrderId|
            call_ensures(T::default, (), book) && verdict
                == #[trigger] add_query_remove_single_buy_order_verdict(book@, id),
        default_is_empty_book::<T>() ==> verdict == Verdict::Passed,
{
    proof {
        lemma_empty_book();
    }
    let mut order_book = T::default();
    let ghost made = order_book;
    let id = match buy_unexecuted(&mut order_book, one(), one()) {
        Ok(id) => id,
        Err(verdict) => {
            proof {
                let taken = choose|id: OrderId| #[trigger] unrested_buy(made@, id, 1) == Some(verdict);
                assert(verdict == add_query_remove_single_buy_order_verdict(made@, taken));
            }
            return verdict;
        },
    };
    proof {
        let rested = order_book@;
        let place = rested.bids[1].len() - 1;
        assert(stands_at(rested.bids, id, 1, place));
        lemma_location(rested.bids, id, 1, place);
        rested.lemma_after_cancel_valid(id);
        if default_is_empty_book::<T>() {
            lemma_buy_round_trip(BookModel::empty(), id, 1, 1);
        }
    }
    match order_book.query(id) {
        Ok(BuyOrSell::Buy { quantity, unit_price }) => {
            if quantity != one() || unit_price != one() {
                return Verdict::Failed;
            }
        },
        _ => {
            return Verdict::Failed;
        },
    }
    if order_book.cancel(id).is_err() {
        return Verdict::Failed;
    }
    if order_book.query(id).is_ok() {
        return Verdict::Failed;
    }
    let verdict = if is_empty(&order_book) {
        Verdict::Passed
    } else {
        Verdict::Failed
    };
    assert(verdict == add_query_remove_single_buy_order_verdict(made@, id));
    verdict
}

/// How `add_query_remove_single_sell_order` ends on a book that starts as
/// `start` and gives `id` to the sell.
pub open spec fn add_query_remove_single_sell_order_verdict(start: BookModel, id: OrderId) -> Verdict {
    match unrested_sell(start, id, 1) {
        Some(verdict) => verdict,
        None => verdict_on(lists_nothing(start.after_sell_entry(id, 1, 1).after_cancel(id))),
    }
}

/// A sell that comes to rest is found as it was submitted; once cancelled it
/// is unknown, and the book is empty.
pub fn add_query_remove_single_sell_order<T>() -> (verdict: Verdict) where
    T: ReportingOrderBookApi + Default,

    ensures
        exists|book: T, id: OrderId|
            call_ensures(T::default, (), book) && verdict
                == #[trigger] add_query_remove_single_sell_order_verdict(book@, id),
        default_is_empty_book::<T>() ==> verdict == Verdict::Passed,
{
    proof {
        lemma_empty_book();
    }
    let mut order_book = T::default();
    let ghost made = order_book;
    let id = match sell_unexecuted(&mut order_book, one(), one()) {
        Ok(id) => id,
        Err(verdict) => {
            proof {
                let taken = choose|id: OrderId| #[trigger] unrested_sell(made@, id, 1) == Some(verdict);
                assert(verdict == add_query_remove_single_sell_order_verdict(made@, taken));
            }
            return verdict;
        },
    };
    proof {
        let rested = order_book@;
        let place = rested.asks[1].len() - 1;
        assert(stands_at(rested.asks, id, 1, place));
        lemma_location(rested.asks, id, 1, place);
        if rests_on(rested.bids, id) {
            lemma_rests_on(rested.bids, id);
        }
        rested.lemma_after_cancel_valid(id);
        if default_is_empty_book::<T>() {
            lemma_sell_round_trip(BookModel::empty(), id, 1, 1);
        }
    }
    match order_book.query(id) {
        Ok(BuyOrSell::Sell { quantity, unit_price }) => {
            if quantity != one() || unit_price != one() {
                return Verdict::Failed;
            }
        },
        _ => {
            return Verdict::Failed;
        },
    }
    if order_book.cancel(id).is_err() {
        return Verdict::Failed;
    }
    if order_book.query(id).is_ok() {
        return Verdict::Failed;
    }
    let verdict = if is_empty(&order_book) {
        Verdict::Passed
    } else {
        Verdict::Failed
    };
    assert(verdict == add_query_remove_single_sell_order_verdict(made@, id));
    verdict
}

/// How `single_resident_buy_is_fully_executed` ends on a book that starts
/// as `start` and gives `id` to the buy.
pub open spec fn single_resident_buy_is_fully_executed_verdict(
    start: BookModel,
    id: OrderId,
) -> Verdict {
    match unrested_buy(start, id, 1) {
        Some(verdict) => verdict,
        None => {
            let rested = start.after_buy_entry(id, 1, 1);
            verdict_on(
                sells_in_full(rested, id, None) && lists_nothing(rested.after_sell_execution(1)),
            )
        },
    }
}

/// A single resident buy is used up by a sell of its quantity at its price.
pub fn single_resident_buy_is_fully_executed<T>() -> (verdict: Verdict) where
    T: ReportingOrderBookApi + Default,

    ensures
        exists|book: T, id: OrderId|
            call_ensures(T::default, (), book) && verdict
                == #[trigger] single_resident_buy_is_fully_executed_verdict(book@, id),
        default_is_empty_book::<T>() ==> verdict == Verdict::Passed,
{
    proof {
        lemma_empty_book();
    }
    let mut order_book = T::default();
    let ghost made = order_book;
    let resident_buy = match buy_unexecuted(&mut order_book, one(), one()) {
        Ok(id) => id,
        Err(verdict) => {
            proof {
                let taken = choose|id: OrderId| #[trigger] unrested_buy(made@, id, 1) == Some(verdict);
                assert(verdict == single_resident_buy_is_fully_executed_verdict(made@, taken));
            }
            return verdict;
        },
    };
    proof {
        assert(order_book@.bids.contains_key(1));
        assert(order_book@.sell_crosses(1));
        if default_is_empty_book::<T>() {
            lemma_single_buy_extinguished(resident_buy, 1, 1, 1);
        }
    }
    let outcome = order_book.unconditional_sell(Positive::one(), one());
    if !sold_in_full_to(outcome, resident_buy, 0) {
        assert(Verdict::Failed == single_resident_buy_is_fully_executed_verdict(made@, resident_buy));
        return Verdict::Failed;
    }
    let verdict = if is_empty(&order_book) {
        Verdict::Passed
    } else {
        Verdict::Failed
    };
    assert(verdict == single_resident_buy_is_fully_executed_verdict(made@, resident_buy));
    verdict
}

/// How `single_resident_sell_is_fully_executed` ends on a book that starts
/// as `start` and gives `id` to the sell.
pub open spec fn single_resident_sell_is_fully_executed_verdict(
    start: BookModel,
    id: OrderId,
) -> Verdict {
    match unrested_sell(start, id, 1) {
        Some(verdict) => verdict,
        None => {
            let rested = start.after_sell_entry(id, 1, 1);
            verdict_on(
                rested.buy_crosses(1) && rested.buy_execution(1, 1) == (
                BuyEntryOrExecution::MutualFullExecution { seller: id, spread: None })
                    && lists_nothing(rested.after_buy_execution(1)),
            )
        },
    }
}

/// A single resident sell is used up by a buy of its quantity at its price.
pub fn single_resident_sell_is_fully_executed<T>() -> (verdict: Verdict) where
    T: ReportingOrderBookApi + Default,

    ensures
        exists|book: T, id: OrderId|
            call_ensures(T::default, (), book) && verdict
                == #[trigger] single_resident_sell_is_fully_executed_verdict(book@, id),
        default_is_empty_book::<T>() ==> verdict == Verdict::Passed,
{
    proof {
        lemma_empty_book();
    }
    let mut order_book = T::default();
    let ghost made = order_book;
    let resident_sell = match sell_unexecuted(&mut order_book, one(), one()) {
        Ok(id) => id,
        Err(verdict) => {
            proof {
                let taken = choose|id: OrderId| #[trigger] unrested_sell(made@, id, 1) == Some(verdict);
                assert(verdict == single_resident_sell_is_fully_executed_verdict(made@, taken));
            }
            return verdict;
        },
    };
    proof {
        assert(order_book@.asks.contains_key(1));
        assert(order_book@.buy_crosses(1));
        if default_is_empty_book::<T>() {
            lemma_single_sell_extinguished(resident_sell, 1, 1, 1);
        }
    }
    let outcome = order_book.unconditional_buy(Positive::one(), one());
    if !bought_in_full_from(outcome, resident_sell, 0) {
        assert(Verdict::Failed == single_resident_sell_is_fully_executed_verdict(made@, resident_sell));
        return Verdict::Failed;
    }
    let verdict = if is_empty(&order_book) {
        Verdict::Passed
    } else {
        Verdict::Failed
    };
    assert(verdict == single_resident_sell_is_fully_executed_verdict(made@, resident_sell));
    verdict
}

/// The book after three buys of one unit have come to rest, one after
/// the other, at the prices 2, 1 and 2.
pub open spec fn buys_reported_with_price_time_priority_rested(start: BookModel, a: OrderId, b: OrderId, c: OrderId) -> BookModel {
    start.after_buy_entry(a, 1, 2).after_buy_entry(b, 1, 1).after_buy_entry(
        c,
        1,
        2,
    )
}

/// How `buys_reported_with_price_time_priority` ends on a book that starts
/// as `start` and gives `a`, `b` and `c` to the three buys.
pub open spec fn buys_reported_with_price_time_priority_verdict(start: BookModel, a: OrderId, b: OrderId, c: OrderId) -> Verdict {
    let first = start.after_buy_entry(a, 1, 2);
    let second = first.after_buy_entry(b, 1, 1);
    match unrested_buy(start, a, 2) {
        Some(verdict) => verdict,
        None => match unrested_buy(first, b, 1) {
            Some(verdict) => verdict,
            None => match unrested_buy(second, c, 2) {
                Some(verdict) => verdict,
                None => {
                    let rested = buys_reported_with_price_time_priority_rested(start, a, b, c);
                    verdict_on(lists_ids(rested.buys(), seq![a, c, b]))
                },
            },
        },
    }
}

/// Buys are listed by falling price, and of two at one price the older
/// first.
pub fn buys_reported_with_price_time_priority<T>() -> (verdict: Verdict) where
    T: ReportingOrderBookApi + Default,

    ensures
        exists|book: T, a: OrderId, b: OrderId, c: OrderId|
            call_ensures(T::default, (), book) && verdict == #[trigger] buys_reported_with_price_time_priority_verdict(
                book@,
                a,
                b,
                c,
            ),
        default_is_empty_book::<T>() ==> verdict != Verdict::Failed,
{
    proof {
        lemma_empty_book();
    }
    let mut order_book = T::default();
    let ghost made = order_book;
    let ghost fresh = order_book@;
    let ghost before_generous = order_book@;
    let generous = match buy_unexecuted(&mut order_book, one(), two()) {
        Ok(id) => id,
        Err(verdict) => {
            proof {
                let taken = choose|id: OrderId|
                    #[trigger] unrested_buy(before_generous, id, 2) == Some(verdict);
                assert(verdict == buys_reported_with_price_time_priority_verdict(made@, taken, 0, 0));
            }
            return verdict;
        },
    };
    let ghost first = order_book@;
    let ghost before_miserly = order_book@;
    let miserly = match buy_unexecuted(&mut order_book, one(), one()) {
        Ok(id) => id,
        Err(verdict) => {
            proof {
                let taken = choose|id: OrderId|
                    #[trigger] unrested_buy(before_miserly, id, 1) == Some(verdict);
                assert(verdict == buys_reported_with_price_time_priority_verdict(made@, generous, taken, 0));
            }
            return verdict;
        },
    };
    let ghost second = order_book@;
    let ghost before_generous_and_late = order_book@;
    let generous_and_late = match buy_unexecuted(&mut order_book, one(), two()) {
        Ok(id) => id,
        Err(verdict) => {
            proof {
                let taken = choose|id: OrderId|
                    #[trigger] unrested_buy(before_generous_and_late, id, 2) == Some(verdict);
                assert(verdict == buys_reported_with_price_time_priority_verdict(made@, generous, miserly, taken));
            }
            return verdict;
        },
    };
    proof {
        if default_is_empty_book::<T>() {
            let a = Order { quantity: 1, unit_price: 2, id: generous };
            let b = Order { quantity: 1, unit_price: 1, id: miserly };
            let c = Order { quantity: 1, unit_price: 2, id: generous_and_late };
            lemma_buy_listed_by_price_then_time(fresh, generous, 1, 2);
            assert(first.buys() =~= seq![a]);
            lemma_buy_listed_by_price_then_time(first, miserly, 1, 1);
            let place = choose|place: int|
                {
                    &&& 0 <= place <= first.buys().len()
                    &&& #[trigger] first.buys().insert(place, b) == second.buys()
                    &&& forall|i: int|
                        0 <= i < place ==> (#[trigger] first.buys()[i]).unit_price >= 1
                    &&& forall|i: int|
                        place <= i < first.buys().len() ==> (#[trigger] first.buys()[i]).unit_price
                            < 1
                };
            assert(place == 1) by {
                if place == 0 {
                    assert(first.buys()[0].unit_price < 1);
                }
            }
            assert(second.buys() =~= seq![a, b]);
            lemma_buy_listed_by_price_then_time(second, generous_and_late, 1, 2);
            let late = choose|late: int|
                {
                    &&& 0 <= late <= second.buys().len()
                    &&& #[trigger] second.buys().insert(late, c) == order_book@.buys()
                    &&& forall|i: int|
                        0 <= i < late ==> (#[trigger] second.buys()[i]).unit_price >= 2
                    &&& forall|i: int|
                        late <= i < second.buys().len() ==> (#[trigger] second.buys()[i]).unit_price
                            < 2
                };
            assert(late == 1) by {
                if late == 0 {
                    assert(second.buys()[0].unit_price < 2);
                }
                if late == 2 {
                    assert(second.buys()[1].unit_price >= 2);
                }
            }
            assert(order_book@.buys() =~= seq![a, c, b]);
        }
    }
    let mut expected: Vec<OrderMatcher> = Vec::new();
    expected.push(OrderMatcher::with_id(generous));
    expected.push(OrderMatcher::with_id(generous_and_late));
    expected.push(OrderMatcher::with_id(miserly));
    let listed = order_book.buys();
    let fits = listing_fits(&expected, &listed);
    proof {
        let ids = seq![generous, generous_and_late, miserly];
        assert(expected@ =~= seq![
            OrderMatcher::expecting(generous),
            OrderMatcher::expecting(generous_and_late),
            OrderMatcher::expecting(miserly),
        ]);
        if fits {
            assert forall|i: int| 0 <= i < ids.len() implies (#[trigger] listed@[i]).id == ids[i] by {
                assert(expected@[i].fits(listed@[i]));
            }
        }
        if lists_ids(listed@, ids) {
            assert forall|i: int| 0 <= i < expected@.len() implies (#[trigger] expected@[i]).fits(
                listed@[i],
            ) by {
                assert(listed@[i].id == ids[i]);
            }
        }
        assert(fits == lists_ids(listed@, ids));
    }
    let verdict = if fits {
        Verdict::Passed
    } else {
        Verdict::Failed
    };
    assert(verdict == buys_reported_with_price_time_priority_verdict(made@, generous, miserly, generous_and_late));
    verdict
}

/// The book after three sells of one unit have come to rest, one after
/// the other, at the prices 1, 2 and 1.
pub open spec fn sells_reported_with_price_time_priority_rested(start: BookModel, a: OrderId, b: OrderId, c: OrderId) -> BookModel {
    start.after_sell_entry(a, 1, 1).after_sell_entry(b, 1, 2).after_sell_entry(
        c,
        1,
        1,
    )
}

/// How `sells_reported_with_price_time_priority` ends on a book that starts
/// as `start` and gives `a`, `b` and `c` to the three sells.
pub open spec fn sells_reported_with_price_time_priority_verdict(start: BookModel, a: OrderId, b: OrderId, c: OrderId) -> Verdict {
    let first = start.after_sell_entry(a, 1, 1);
    let second = first.after_sell_entry(b, 1, 2);
    match unrested_sell(start, a, 1) {
        Some(verdict) => verdict,
        None => match unrested_sell(first, b, 2) {
            Some(verdict) => verdict,
            None => match unrested_sell(second, c, 1) {
                Some(verdict) => verdict,
                None => {
                    let rested = sells_reported_with_price_time_priority_rested(start, a, b, c);
                    verdict_on(lists_ids(rested.sells(), seq![a, c, b]))
                },
            },
        },
    }
}

/// Sells are listed by rising price, and of two at one price the older
/// first.
pub fn sells_reported_with_price_time_priority<T>() -> (verdict: Verdict) where
    T: ReportingOrderBookApi + Default,

    ensures
        exists|book: T, a: OrderId, b: OrderId, c: OrderId|
            call_ensures(T::default, (), book) && verdict == #[trigger] sells_reported_with_price_time_priority_verdict(
                book@,
                a,
                b,
                c,
            ),
        default_is_empty_book::<T>() ==> verdict != Verdict::Failed,
{
    proof {
        lemma_empty_book();
    }
    let mut order_book = T::default();
    let ghost made = order_book;
    let ghost fresh = order_book@;
    let ghost before_cheap = order_book@;
    let cheap = match sell_unexecuted(&mut order_book, one(), one()) {
        Ok(id) => id,
        Err(verdict) => {
            proof {
                let taken = choose|id: OrderId|
                    #[trigger] unrested_sell(before_cheap, id, 1) == Some(verdict);
                assert(verdict == sells_reported_with_price_time_priority_verdict(made@, taken, 0, 0));
            }
            return verdict;
        },
    };
    let ghost first = order_book@;
    let ghost before_expensive = order_book@;
    let expensive = match sell_unexecuted(&mut order_book, one(), two()) {
        Ok(id) => id,
        Err(verdict) => {
            proof {
                let taken = choose|id: OrderId|
                    #[trigger] unrested_sell(before_expensive, id, 2) == Some(verdict);
                assert(verdict == sells_reported_with_price_time_priority_verdict(made@, cheap, taken, 0));
            }
            return verdict;
        },
    };
    let ghost second = order_book@;
    let ghost before_cheap_and_late = order_book@;
    let cheap_and_late = match sell_unexecuted(&mut order_book, one(), one()) {
        Ok(id) => id,
        Err(verdict) => {
            proof {
                let taken = choose|id: OrderId|
                    #[trigger] unrested_sell(before_cheap_and_late, id, 1) == Some(verdict);
                assert(verdict == sells_reported_with_price_time_priority_verdict(made@, cheap, expensive, taken));
            }
            return verdict;
        },
    };
    proof {
        if default_is_empty_book::<T>() {
            let a = Order { quantity: 1, unit_price: 1, id: cheap };
            let b = Order { quantity: 1, unit_price: 2, id: expensive };
            let c = Order { quantity: 1, unit_price: 1, id: cheap_and_late };
            lemma_sell_listed_by_price_then_time(fresh, cheap, 1, 1);
            assert(first.sells() =~= seq![a]);
            lemma_sell_listed_by_price_then_time(first, expensive, 1, 2);
            let place = choose|place: int|
                {
                    &&& 0 <= place <= first.sells().len()
                    &&& #[trigger] first.sells().insert(place, b) == second.sells()
                    &&& forall|i: int|
                        0 <= i < place ==> (#[trigger] first.sells()[i]).unit_price <= 2
                    &&& forall|i: int|
                        place <= i < first.sells().len() ==> (
                        #[trigger] first.sells()[i]).unit_price > 2
                };
            assert(place == 1) by {
                if place == 0 {
                    assert(first.sells()[0].unit_price > 2);
                }
            }
            assert(second.sells() =~= seq![a, b]);
            lemma_sell_listed_by_price_then_time(second, cheap_and_late, 1, 1);
            let late = choose|late: int|
                {
                    &&& 0 <= late <= second.sells().len()
                    &&& #[trigger] second.sells().insert(late, c) == order_book@.sells()
                    &&& forall|i: int|
                        0 <= i < late ==> (#[trigger] second.sells()[i]).unit_price <= 1
                    &&& forall|i: int|
                        late <= i < second.sells().len() ==> (
                        #[trigger] second.sells()[i]).unit_price > 1
                };
            assert(late == 1) by {
                if late == 0 {
                    assert(second.sells()[0].unit_price > 1);
                }
                if late == 2 {
                    assert(second.sells()[1].unit_price <= 1);
                }
            }
            assert(order_book@.sells() =~= seq![a, c, b]);
        }
    }
    let mut expected: Vec<OrderMatcher> = Vec::new();
    expected.push(OrderMatcher::with_id(cheap));
    expected.push(OrderMatcher::with_id(cheap_and_late));
    expected.push(OrderMatcher::with_id(expensive));
    let listed = order_book.sells();
    let fits = listing_fits(&expected, &listed);
    proof {
        let ids = seq![cheap, cheap_and_late, expensive];
        assert(expected@ =~= seq![
            OrderMatcher::expecting(cheap),
            OrderMatcher::expecting(cheap_and_late),
            OrderMatcher::expecting(expensive),
        ]);
        if fits {
            assert forall|i: int| 0 <= i < ids.len() implies (#[trigger] listed@[i]).id == ids[i] by {
                assert(expected@[i].fits(listed@[i]));
            }
        }
        if lists_ids(listed@, ids) {
            assert forall|i: int| 0 <= i < expected@.len() implies (#[trigger] expected@[i]).fits(
                listed@[i],
            ) by {
                assert(listed@[i].id == ids[i]);
            }
        }
        assert(fits == lists_ids(listed@, ids));
    }
    let verdict = if fits {
        Verdict::Passed
    } else {
        Verdict::Failed
    };
    assert(verdict == sells_reported_with_price_time_priority_verdict(made@, cheap, expensive, cheap_and_late));
    verdict
}

/// The book after three buys of one unit have come to rest, one after
/// the other, at the prices 2, 1 and 2.
pub open spec fn buys_execute_with_price_time_priority_rested(start: BookModel, a: OrderId, b: OrderId, c: OrderId) -> BookModel {
    start.after_buy_entry(a, 1, 2).after_buy_entry(b, 1, 1).after_buy_entry(
        c,
        1,
        2,
    )
}

/// How `buys_execute_with_price_time_priority` ends on a book that starts
/// as `start` and gives `a`, `b` and `c` to the three buys.
pub open spec fn buys_execute_with_price_time_priority_verdict(start: BookModel, a: OrderId, b: OrderId, c: OrderId) -> Verdict {
    let first = start.after_buy_entry(a, 1, 2);
    let second = first.after_buy_entry(b, 1, 1);
    match unrested_buy(start, a, 2) {
        Some(verdict) => verdict,
        None => match unrested_buy(first, b, 1) {
            Some(verdict) => verdict,
            None => match unrested_buy(second, c, 2) {
                Some(verdict) => verdict,
                None => {
                    let rested = buys_execute_with_price_time_priority_rested(start, a, b, c);
                    verdict_on({
                        let once = rested.after_sell_execution(1);
                        let twice = once.after_sell_execution(1);
                        &&& sells_in_full(rested, a, Some(Positive::of(1)))
                        &&& sells_in_full(once, c, Some(Positive::of(1)))
                        &&& sells_in_full(twice, b, None)
                    })
                },
            },
        },
    }
}

/// Sells meet the most generous buy first, and of two at one price the
/// older; the spread is how far the prices are apart.
pub fn buys_execute_with_price_time_priority<T>() -> (verdict: Verdict) where
    T: ReportingOrderBookApi + Default,

    ensures
        exists|book: T, a: OrderId, b: OrderId, c: OrderId|
            call_ensures(T::default, (), book) && verdict == #[trigger] buys_execute_with_price_time_priority_verdict(
                book@,
                a,
                b,
                c,
            ),
        default_is_empty_book::<T>() ==> verdict != Verdict::Failed,
{
    let mut order_book = T::default();
    let ghost made = order_book;
    let ghost before_generous = order_book@;
    let generous = match buy_unexecuted(&mut order_book, one(), two()) {
        Ok(id) => id,
        Err(verdict) => {
            proof {
                let taken = choose|id: OrderId|
                    #[trigger] unrested_buy(before_generous, id, 2) == Some(verdict);
                if default_is_empty_book::<T>() {
                    lemma_buys_execute_on_empty_book(taken, 0, 0);
                }
                assert(verdict == buys_execute_with_price_time_priority_verdict(made@, taken, 0, 0));
            }
            return verdict;
        },
    };
    let ghost before_miserly = order_book@;
    let miserly = match buy_unexecuted(&mut order_book, one(), one()) {
        Ok(id) => id,
        Err(verdict) => {
            proof {
                let taken = choose|id: OrderId|
                    #[trigger] unrested_buy(before_miserly, id, 1) == Some(verdict);
                if default_is_empty_book::<T>() {
                    lemma_buys_execute_on_empty_book(generous, taken, 0);
                }
                assert(verdict == buys_execute_with_price_time_priority_verdict(made@, generous, taken, 0));
            }
            return verdict;
        },
    };
    let ghost before_generous_and_late = order_book@;
    let generous_and_late = match buy_unexecuted(&mut order_book, one(), two()) {
        Ok(id) => id,
        Err(verdict) => {
            proof {
                let taken = choose|id: OrderId|
                    #[trigger] unrested_buy(before_generous_and_late, id, 2) == Some(verdict);
                if default_is_empty_book::<T>() {
                    lemma_buys_execute_on_empty_book(generous, miserly, taken);
                }
                assert(verdict == buys_execute_with_price_time_priority_verdict(made@, generous, miserly, taken));
            }
            return verdict;
        },
    };
    let first = order_book.unconditional_sell(Positive::one(), one());
    if !sold_in_full_to(first, generous, 1) {
        proof {
            if default_is_empty_book::<T>() {
                lemma_buys_execute_on_empty_book(generous, miserly, generous_and_late);
            }
        }
        assert(Verdict::Failed == buys_execute_with_price_time_priority_verdict(made@, generous, miserly, generous_and_late));
        return Verdict::Failed;
    }
    let second = order_book.unconditional_sell(Positive::one(), one());
    if !sold_in_full_to(second, generous_and_late, 1) {
        proof {
            if default_is_empty_book::<T>() {
                lemma_buys_execute_on_empty_book(generous, miserly, generous_and_late);
            }
        }
        assert(Verdict::Failed == buys_execute_with_price_time_priority_verdict(made@, generous, miserly, generous_and_late));
        return Verdict::Failed;
    }
    let third = order_book.unconditional_sell(Positive::one(), one());
    let verdict = if sold_in_full_to(third, miserly, 0) {
        Verdict::Passed
    } else {
        Verdict::Failed
    };
    proof {
        if default_is_empty_book::<T>() {
            lemma_buys_execute_on_empty_book(generous, miserly, generous_and_late);
        }
    }
    assert(verdict == buys_execute_with_price_time_priority_verdict(made@, generous, miserly, generous_and_late));
    verdict
}

/// The book after three sells of one unit have come to rest, one after
/// the other, at the prices 1, 2 and 1.
pub open spec fn sells_execute_with_price_time_priority_rested(start: BookModel, a: OrderId, b: OrderId, c: OrderId) -> BookModel {
    start.after_sell_entry(a, 1, 1).after_sell_entry(b, 1, 2).after_sell_entry(
        c,
        1,
        1,
    )
}

/// How `sells_execute_with_price_time_priority` ends on a book that starts
/// as `start` and gives `a`, `b` and `c` to the three sells.
pub open spec fn sells_execute_with_price_time_priority_verdict(start: BookModel, a: OrderId, b: OrderId, c: OrderId) -> Verdict {
    let first = start.after_sell_entry(a, 1, 1);
    let second = first.after_sell_entry(b, 1, 2);
    match unrested_sell(start, a, 1) {
        Some(verdict) => verdict,
        None => match unrested_sell(first, b, 2) {
            Some(verdict) => verdict,
            None => match unrested_sell(second, c, 1) {
                Some(verdict) => verdict,
                None => {
                    let rested = sells_execute_with_price_time_priority_rested(start, a, b, c);
                    verdict_on({
                        let once = rested.after_buy_execution(1);
                        let twice = once.after_buy_execution(1);
                        &&& buys_in_full(rested, a, Some(Positive::of(1)))
                        &&& buys_in_full(once, c, Some(Positive::of(1)))
                        &&& buys_in_full(twice, b, None)
                    })
                },
            },
        },
    }
}

/// Buys meet the cheapest sell first, and of two at one price the older;
/// the spread is how far the prices are apart.
pub fn sells_execute_with_price_time_priority<T>() -> (verdict: Verdict) where
    T: ReportingOrderBookApi + Default,

    ensures
        exists|book: T, a: OrderId, b: OrderId, c: OrderId|
            call_ensures(T::default, (), book) && verdict == #[trigger] sells_execute_with_price_time_priority_verdict(
                book@,
                a,
                b,
                c,
            ),
        default_is_empty_book::<T>() ==> verdict != Verdict::Failed,
{
    let mut order_book = T::default();
    let ghost made = order_book;
    let ghost before_cheap = order_book@;
    let cheap = match sell_unexecuted(&mut order_book, one(), one()) {
        Ok(id) => id,
        Err(verdict) => {
            proof {
                let taken = choose|id: OrderId|
                    #[trigger] unrested_sell(before_cheap, id, 1) == Some(verdict);
                if default_is_empty_book::<T>() {
                    lemma_sells_execute_on_empty_book(taken, 0, 0);
                }
                assert(verdict == sells_execute_with_price_time_priority_verdict(made@, taken, 0, 0));
            }
            return verdict;
        },
    };
    let ghost before_expensive = order_book@;
    let expensive = match sell_unexecuted(&mut order_book, one(), two()) {
        Ok(id) => id,
        Err(verdict) => {
            proof {
                let taken = choose|id: OrderId|
                    #[trigger] unrested_sell(before_expensive, id, 2) == Some(verdict);
                if default_is_empty_book::<T>() {
                    lemma_sells_execute_on_empty_book(cheap, taken, 0);
                }
                assert(verdict == sells_execute_with_price_time_priority_verdict(made@, cheap, taken, 0));
            }
            return verdict;
        },
    };
    let ghost before_cheap_and_late = order_book@;
    let cheap_and_late = match sell_unexecuted(&mut order_book, one(), one()) {
        Ok(id) => id,
        Err(verdict) => {
            proof {
                let taken = choose|id: OrderId|
                    #[trigger] unrested_sell(before_cheap_and_late, id, 1) == Some(verdict);
                if default_is_empty_book::<T>() {
                    lemma_sells_execute_on_empty_book(cheap, expensive, taken);
                }
                assert(verdict == sells_execute_with_price_time_priority_verdict(made@, cheap, expensive, taken));
            }
            return verdict;
        },
    };
    let first = order_book.unconditional_buy(Positive::one(), two());
    if !bought_in_full_from(first, cheap, 1) {
        proof {
            if default_is_empty_book::<T>() {
                lemma_sells_execute_on_empty_book(cheap, expensive, cheap_and_late);
            }
        }
        assert(Verdict::Failed == sells_execute_with_price_time_priority_verdict(made@, cheap, expensive, cheap_and_late));
        return Verdict::Failed;
    }
    let second = order_book.unconditional_buy(Positive::one(), two());
    if !bought_in_full_from(second, cheap_and_late, 1) {
        proof {
            if default_is_empty_book::<T>() {
                lemma_sells_execute_on_empty_book(cheap, expensive, cheap_and_late);
            }
        }
        assert(Verdict::Failed == sells_execute_with_price_time_priority_verdict(made@, cheap, expensive, cheap_and_late));
        return Verdict::Failed;
    }
    let third = order_book.unconditional_buy(Positive::one(), two());
    let verdict = if bought_in_full_from(third, expensive, 0) {
        Verdict::Passed
    } else {
        Verdict::Failed
    };
    proof {
        if default_is_empty_book::<T>() {
            lemma_sells_execute_on_empty_book(cheap, expensive, cheap_and_late);
        }
    }
    assert(verdict == sells_execute_with_price_time_priority_verdict(made@, cheap, expensive, cheap_and_late));
    verdict
}

/// On a book that starts empty, `buys_execute_with_price_time_priority`
/// does not fail: the three buys rest unless an identifier is taken, and
/// the three sells then meet them by price and by time.
pub proof fn lemma_buys_execute_on_empty_book(a: OrderId, b: OrderId, c: OrderId)
    ensures
        buys_execute_with_price_time_priority_verdict(BookModel::empty(), a, b, c)
            != Verdict::Failed,
{
    lemma_empty_book();
    let start = BookModel::empty();
    let first = start.after_buy_entry(a, 1, 2);
    let second = first.after_buy_entry(b, 1, 1);
    if unrested_buy(start, a, 2) is None && unrested_buy(first, b, 1) is None && unrested_buy(
        second,
        c,
        2,
    ) is None {
        let rested = buys_execute_with_price_time_priority_rested(start, a, b, c);
        let early = seq![(a, 1u64)];
        let lower = seq![(b, 1u64)];
        let upper = seq![(a, 1u64), (c, 1u64)];
        assert(first.bids =~= map![2u64 => early]);
        assert(second.bids =~= map![2u64 => early, 1u64 => lower]);
        assert(early.push((c, 1u64)) =~= upper);
        assert(rested.bids =~= map![2u64 => upper, 1u64 => lower]);
        assert(is_highest(rested.bids, 2));
        lemma_highest(rested.bids, 2);
        assert(rested.sell_crosses(1));
        let once = rested.after_sell_execution(1);
        assert(upper.drop_first() =~= seq![(c, 1u64)]);
        assert(once.bids =~= map![2u64 => seq![(c, 1u64)], 1u64 => lower]);
        assert(is_highest(once.bids, 2));
        lemma_highest(once.bids, 2);
        assert(once.sell_crosses(1));
        let twice = once.after_sell_execution(1);
        assert(twice.bids =~= map![1u64 => lower]);
        assert(is_highest(twice.bids, 1));
        lemma_highest(twice.bids, 1);
        assert(twice.sell_crosses(1));
        assert(sells_in_full(rested, a, Some(Positive::of(1))));
        assert(sells_in_full(once, c, Some(Positive::of(1))));
        assert(sells_in_full(twice, b, None));
    }
}

/// On a book that starts empty, `sells_execute_with_price_time_priority`
/// does not fail: the three sells rest unless an identifier is taken, and
/// the three buys then meet them by price and by time.
pub proof fn lemma_sells_execute_on_empty_book(a: OrderId, b: OrderId, c: OrderId)
    ensures
        sells_execute_with_price_time_priority_verdict(BookModel::empty(), a, b, c)
            != Verdict::Failed,
{
    lemma_empty_book();
    let start = BookModel::empty();
    let first = start.after_sell_entry(a, 1, 1);
    let second = first.after_sell_entry(b, 1, 2);
    if unrested_sell(start, a, 1) is None && unrested_sell(first, b, 2) is None && unrested_sell(
        second,
        c,
        1,
    ) is None {
        let rested = sells_execute_with_price_time_priority_rested(start, a, b, c);
        let early = seq![(a, 1u64)];
        let upper = seq![(b, 1u64)];
        let lower = seq![(a, 1u64), (c, 1u64)];
        assert(first.asks =~= map![1u64 => early]);
        assert(second.asks =~= map![1u64 => early, 2u64 => upper]);
        assert(early.push((c, 1u64)) =~= lower);
        assert(rested.asks =~= map![1u64 => lower, 2u64 => upper]);
        assert(is_lowest(rested.asks, 1));
        lemma_lowest(rested.asks, 1);
        assert(rested.buy_crosses(2));
        let once = rested.after_buy_execution(1);
        assert(lower.drop_first() =~= seq![(c, 1u64)]);
        assert(once.asks =~= map![1u64 => seq![(c, 1u64)], 2u64 => upper]);
        assert(is_lowest(once.asks, 1));
        lemma_lowest(once.asks, 1);
        assert(once.buy_crosses(2));
        let twice = once.after_buy_execution(1);
        assert(twice.asks =~= map![2u64 => upper]);
        assert(is_lowest(twice.asks, 2));
        lemma_lowest(twice.asks, 2);
        assert(twice.buy_crosses(2));
        assert(buys_in_full(rested, a, Some(Positive::of(1))));
        assert(buys_in_full(once, c, Some(Positive::of(1))));
        assert(buys_in_full(twice, b, None));
    }
}

} // verus!

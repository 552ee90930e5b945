//! The orders of a side laid out as a listing shows them: level after level,
//! the best price first, and within a level the oldest order first.

use crate::api::Order;
use crate::api::OrderId;
use crate::api::Price;
use crate::api::Quantity;
use crate::model::joined;
use crate::model::BookModel;
use crate::model::Level;
use crate::model::Side;
use vstd::prelude::*;

verus! {

/// One more than the highest price there is.
pub open spec fn price_limit() -> int {
    u64::MAX + 1
}

/// The orders of a level as a listing shows them, oldest first.
pub open spec fn level_orders(price: Price, level: Level) -> Seq<Order> {
    Seq::new(
        level.len(),
        |j: int| Order { quantity: level[j].1, unit_price: price, id: level[j].0 },
    )
}

/// The orders that rest at `price`, oldest first; none where no level is.
pub open spec fn orders_at(side: Side, price: int) -> Seq<Order> {
    if 0 <= price < price_limit() && side.contains_key(price as Price) {
        level_orders(price as Price, side[price as Price])
    } else {
        Seq::empty()
    }
}

/// The orders at the prices from `lo` up to, but without, `hi`: the lowest
/// price first.
pub open spec fn ascending(side: Side, lo: int, hi: int) -> Seq<Order>
    decreases hi - lo,
{
    if hi <= lo {
        Seq::empty()
    } else {
        ascending(side, lo, hi - 1) + orders_at(side, hi - 1)
    }
}

/// The orders at the prices from `lo` up to, but without, `hi`: the highest
/// price first.
pub open spec fn descending(side: Side, lo: int, hi: int) -> Seq<Order>
    decreases hi - lo,
{
    if hi <= lo {
        Seq::empty()
    } else {
        orders_at(side, hi - 1) + descending(side, lo, hi - 1)
    }
}

impl BookModel {
    /// The resident buys as a listing shows them: the most generous first,
    /// and of two at one price the older first.
    pub open spec fn buys(self) -> Seq<Order> {
        descending(self.bids, 0, price_limit())
    }

    /// The resident sells as a listing shows them: the cheapest first, and
    /// of two at one price the older first.
    pub open spec fn sells(self) -> Seq<Order> {
        ascending(self.asks, 0, price_limit())
    }
}

/// A range of prices can be listed in two parts.
pub proof fn lemma_ascending_split(side: Side, lo: int, mid: int, hi: int)
    requires
        lo <= mid <= hi,
    ensures
        ascending(side, lo, hi) == ascending(side, lo, mid) + ascending(side, mid, hi),
    decreases hi - mid,
{
    if mid == hi {
        assert(ascending(side, mid, hi) =~= Seq::<Order>::empty());
        assert(ascending(side, lo, hi) =~= ascending(side, lo, mid) + ascending(side, mid, hi));
    } else {
        lemma_ascending_split(side, lo, mid, hi - 1);
        assert(ascending(side, lo, hi) =~= ascending(side, lo, mid) + ascending(side, mid, hi));
    }
}

/// A range of prices can be listed in two parts.
pub proof fn lemma_descending_split(side: Side, lo: int, mid: int, hi: int)
    requires
        lo <= mid <= hi,
    ensures
        descending(side, lo, hi) == descending(side, mid, hi) + descending(side, lo, mid),
    decreases hi - mid,
{
    if mid == hi {
        assert(descending(side, mid, hi) =~= Seq::<Order>::empty());
        assert(descending(side, lo, hi) =~= descending(side, mid, hi) + descending(side, lo, mid));
    } else {
        lemma_descending_split(side, lo, mid, hi - 1);
        assert(descending(side, lo, hi) =~= descending(side, mid, hi) + descending(side, lo, mid));
    }
}

/// A range of prices without a level lists nothing.
pub proof fn lemma_ascending_none(side: Side, lo: int, hi: int)
    requires
        forall|price: Price| lo <= price < hi ==> !side.contains_key(price),
    ensures
        ascending(side, lo, hi) == Seq::<Order>::empty(),
    decreases hi - lo,
{
    if lo < hi {
        lemma_ascending_none(side, lo, hi - 1);
        assert(orders_at(side, hi - 1) =~= Seq::<Order>::empty());
        assert(ascending(side, lo, hi) =~= Seq::<Order>::empty());
    }
}

/// A range of prices without a level lists nothing.
pub proof fn lemma_descending_none(side: Side, lo: int, hi: int)
    requires
        forall|price: Price| lo <= price < hi ==> !side.contains_key(price),
    ensures
        descending(side, lo, hi) == Seq::<Order>::empty(),
    decreases hi - lo,
{
    if lo < hi {
        lemma_descending_none(side, lo, hi - 1);
        assert(orders_at(side, hi - 1) =~= Seq::<Order>::empty());
        assert(descending(side, lo, hi) =~= Seq::<Order>::empty());
    }
}

/// Two sides with the same levels in a range of prices list the same there.
pub proof fn lemma_ascending_same(a: Side, b: Side, lo: int, hi: int)
    requires
        forall|price: Price|
            #![trigger a.contains_key(price)]
            #![trigger b.contains_key(price)]
            lo <= price < hi ==> (a.contains_key(price) <==> b.contains_key(price)) && (
            a.contains_key(price) ==> a[price] == b[price]),
    ensures
        ascending(a, lo, hi) == ascending(b, lo, hi),
    decreases hi - lo,
{
    if lo < hi {
        lemma_ascending_same(a, b, lo, hi - 1);
        assert(orders_at(a, hi - 1) == orders_at(b, hi - 1));
    }
}

/// Two sides with the same levels in a range of prices list the same there.
pub proof fn lemma_descending_same(a: Side, b: Side, lo: int, hi: int)
    requires
        forall|price: Price|
            #![trigger a.contains_key(price)]
            #![trigger b.contains_key(price)]
            lo <= price < hi ==> (a.contains_key(price) <==> b.contains_key(price)) && (
            a.contains_key(price) ==> a[price] == b[price]),
    ensures
        descending(a, lo, hi) == descending(b, lo, hi),
    decreases hi - lo,
{
    if lo < hi {
        lemma_descending_same(a, b, lo, hi - 1);
        assert(orders_at(a, hi - 1) == orders_at(b, hi - 1));
    }
}

/// Every order of an ascending listing rests in the level of its price, and
/// prices never fall along the listing.
pub proof fn lemma_ascending_sorted(side: Side, lo: int, hi: int)
    requires
        0 <= lo,
        hi <= price_limit(),
    ensures
        forall|i: int|
            0 <= i < ascending(side, lo, hi).len() ==> {
                let order = #[trigger] ascending(side, lo, hi)[i];
                &&& lo <= order.unit_price < hi
                &&& side.contains_key(order.unit_price)
                &&& exists|j: int|
                    0 <= j < side[order.unit_price].len() && #[trigger] side[order.unit_price][j]
                        == (order.id, order.quantity)
            },
        forall|i: int, k: int|
            0 <= i <= k < ascending(side, lo, hi).len() ==> (#[trigger] ascending(
                side,
                lo,
                hi,
            )[i]).unit_price <= (#[trigger] ascending(side, lo, hi)[k]).unit_price,
    decreases hi - lo,
{
    if lo < hi {
        lemma_ascending_sorted(side, lo, hi - 1);
        let head = ascending(side, lo, hi - 1);
        let tail = orders_at(side, hi - 1);
        let all = ascending(side, lo, hi);
        assert(all == head + tail);
        assert forall|i: int| 0 <= i < all.len() implies {
            let order = #[trigger] all[i];
            &&& lo <= order.unit_price < hi
            &&& side.contains_key(order.unit_price)
            &&& exists|j: int|
                0 <= j < side[order.unit_price].len() && #[trigger] side[order.unit_price][j] == (
                    order.id,
                    order.quantity,
                )
        } by {
            if i < head.len() {
                assert(all[i] == head[i]);
            } else {
                let j = i - head.len();
                assert(all[i] == tail[j]);
                let price = (hi - 1) as Price;
                assert(side[price][j] == (all[i].id, all[i].quantity));
            }
        }
        assert forall|i: int, k: int| 0 <= i <= k < all.len() implies (#[trigger] all[i]).unit_price
            <= (#[trigger] all[k]).unit_price by {
            if k < head.len() {
                assert(all[i] == head[i]);
                assert(all[k] == head[k]);
            } else {
                assert(all[k] == tail[k - head.len()]);
                if i < head.len() {
                    assert(all[i] == head[i]);
                } else {
                    assert(all[i] == tail[i - head.len()]);
                }
            }
        }
    }
}

/// Every order of a descending listing rests in the level of its price, and
/// prices never rise along the listing.
pub proof fn lemma_descending_sorted(side: Side, lo: int, hi: int)
    requires
        0 <= lo,
        hi <= price_limit(),
    ensures
        forall|i: int|
            0 <= i < descending(side, lo, hi).len() ==> {
                let order = #[trigger] descending(side, lo, hi)[i];
                &&& lo <= order.unit_price < hi
                &&& side.contains_key(order.unit_price)
                &&& exists|j: int|
                    0 <= j < side[order.unit_price].len() && #[trigger] side[order.unit_price][j]
                        == (order.id, order.quantity)
            },
        forall|i: int, k: int|
            0 <= i <= k < descending(side, lo, hi).len() ==> (#[trigger] descending(
                side,
                lo,
                hi,
            )[i]).unit_price >= (#[trigger] descending(side, lo, hi)[k]).unit_price,
    decreases hi - lo,
{
    if lo < hi {
        lemma_descending_sorted(side, lo, hi - 1);
        let head = orders_at(side, hi - 1);
        let tail = descending(side, lo, hi - 1);
        let all = descending(side, lo, hi);
        assert(all == head + tail);
        assert forall|i: int| 0 <= i < all.len() implies {
            let order = #[trigger] all[i];
            &&& lo <= order.unit_price < hi
            &&& side.contains_key(order.unit_price)
            &&& exists|j: int|
                0 <= j < side[order.unit_price].len() && #[trigger] side[order.unit_price][j] == (
                    order.id,
                    order.quantity,
                )
        } by {
            if i < head.len() {
                assert(all[i] == head[i]);
                let price = (hi - 1) as Price;
                assert(side[price][i] == (all[i].id, all[i].quantity));
            } else {
                assert(all[i] == tail[i - head.len()]);
            }
        }
        assert forall|i: int, k: int| 0 <= i <= k < all.len() implies (#[trigger] all[i]).unit_price
            >= (#[trigger] all[k]).unit_price by {
            if i < head.len() {
                assert(all[i] == head[i]);
                if k < head.len() {
                    assert(all[k] == head[k]);
                } else {
                    assert(all[k] == tail[k - head.len()]);
                }
            } else {
                assert(all[i] == tail[i - head.len()]);
                assert(all[k] == tail[k - head.len()]);
            }
        }
    }
}

/// An order that joins a side enters the ascending listing behind every
/// order at its price or below, and ahead of every order above.
pub proof fn lemma_ascending_joined(side: Side, price: Price, id: OrderId, quantity: Quantity)
    ensures
        ascending(joined(side, price, id, quantity), 0, price_limit()) == ascending(
            side,
            0,
            price_limit(),
        ).insert(
            ascending(side, 0, price + 1).len() as int,
            Order { quantity, unit_price: price, id },
        ),
        ascending(side, 0, price_limit()) == ascending(side, 0, price + 1) + ascending(
            side,
            price + 1,
            price_limit(),
        ),
{
    let after = joined(side, price, id, quantity);
    let order = Order { quantity, unit_price: price, id };
    let limit = price_limit();
    lemma_ascending_split(side, 0, price + 1, limit);
    lemma_ascending_split(after, 0, price + 1, limit);
    lemma_ascending_same(side, after, 0, price as int);
    lemma_ascending_same(side, after, price + 1, limit);
    assert(orders_at(after, price as int) =~= orders_at(side, price as int).push(order));
    let below = ascending(side, 0, price as int);
    let at = orders_at(side, price as int);
    let above = ascending(side, price + 1, limit);
    assert(ascending(side, 0, price + 1) == below + at);
    assert(ascending(after, 0, price + 1) == below + at.push(order));
    assert((below + at.push(order)) + above =~= ((below + at) + above).insert(
        (below + at).len() as int,
        order,
    ));
}

/// An order that joins a side enters the descending listing behind every
/// order at its price or above, and ahead of every order below.
pub proof fn lemma_descending_joined(side: Side, price: Price, id: OrderId, quantity: Quantity)
    ensures
        descending(joined(side, price, id, quantity), 0, price_limit()) == descending(
            side,
            0,
            price_limit(),
        ).insert(
            descending(side, price as int, price_limit()).len() as int,
            Order { quantity, unit_price: price, id },
        ),
        descending(side, 0, price_limit()) == descending(side, price as int, price_limit())
            + descending(side, 0, price as int),
{
    let after = joined(side, price, id, quantity);
    let order = Order { quantity, unit_price: price, id };
    let limit = price_limit();
    lemma_descending_split(side, 0, price as int, limit);
    lemma_descending_split(after, 0, price as int, limit);
    lemma_descending_split(side, price as int, price + 1, limit);
    lemma_descending_split(after, price as int, price + 1, limit);
    lemma_descending_same(side, after, 0, price as int);
    lemma_descending_same(side, after, price + 1, limit);
    assert(orders_at(after, price as int) =~= orders_at(side, price as int).push(order));
    let above = descending(side, price + 1, limit);
    let at = orders_at(side, price as int);
    let below = descending(side, 0, price as int);
    assert(descending(side, price as int, price + 1) =~= at) by {
        assert(descending(side, price as int, price as int) =~= Seq::<Order>::empty());
    }
    assert(descending(after, price as int, price + 1) =~= at.push(order)) by {
        assert(descending(after, price as int, price as int) =~= Seq::<Order>::empty());
    }
    assert(descending(side, price as int, limit) == above + at);
    assert(descending(after, price as int, limit) == above + at.push(order));
    assert((above + at.push(order)) + below =~= ((above + at) + below).insert(
        (above + at).len() as int,
        order,
    ));
}

} // verus!

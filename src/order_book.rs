use vstd::prelude::*;

use crate::callback::{Callback, CbType, FillFlags, RejectReason};
use crate::comparable_price::{price_before_eq, price_matches, price_order, ComparablePrice};
use crate::matching_engine::MAX_MAKERS;
use crate::order::BookOrder;
use crate::order_tracker::OrderTracker;
use crate::types::{OrderConditions, Price, Quantity, MARKET_ORDER_PRICE, PRICE_UNCHANGED};

verus! {

/// `a` comes no later than `b` in a ladder of `buy_side`, and is strictly
/// earlier when the two differ in kind.
pub proof fn lemma_price_order(buy_side: bool, a: Price, b: Price, c: Price)
    ensures
        price_before_eq(buy_side, a, a),
        price_before_eq(buy_side, a, b) || price_before_eq(buy_side, b, a),
        price_before_eq(buy_side, a, b) && price_before_eq(buy_side, b, a) ==> a == b,
        price_before_eq(buy_side, a, b) && price_before_eq(buy_side, b, c) ==> price_before_eq(buy_side, a, c),
{
}

/// The prices that an inbound order on `buy_side` at `p` trades with come
/// first in the opposite ladder: if it trades at `x`, it trades at every
/// price that comes before `x` there.
pub proof fn lemma_matches_prefix(buy_side: bool, p: Price, x: Price, y: Price)
    requires
        price_matches(buy_side, p, x),
        price_before_eq(!buy_side, y, x),
    ensures
        price_matches(buy_side, p, y),
{
}

/// A ladder of resting orders on `buy_side`, read best first by limit price
/// and oldest first within a price; every tracker is open, reserves nothing
/// and is of that side.
pub open spec fn ladder_wf(t: Seq<OrderTracker>, buy_side: bool) -> bool {
    &&& forall|i: int| 0 <= i < t.len() ==> tracker_ok(#[trigger] t[i], buy_side)
    &&& forall|i: int, j: int| 0 <= i < j < t.len() ==> price_before_eq(buy_side, (#[trigger] t[i]).order.price, (#[trigger] t[j]).order.price)
}

/// A ladder of stop orders on `buy_side`, read in the order they trigger:
/// buy stops by rising stop price, sell stops by falling stop price.
pub open spec fn stop_ladder_wf(t: Seq<OrderTracker>, buy_side: bool) -> bool {
    &&& forall|i: int| 0 <= i < t.len() ==> tracker_ok(#[trigger] t[i], buy_side) && t[i].order.stop_price != 0
    &&& forall|i: int, j: int| 0 <= i < j < t.len() ==> price_before_eq(!buy_side, (#[trigger] t[i]).order.stop_price, (#[trigger] t[j]).order.stop_price)
}

pub open spec fn tracker_ok(t: OrderTracker, buy_side: bool) -> bool {
    &&& t.wf()
    &&& t.reserved == 0
    &&& t.open_qty > 0
    &&& t.order.is_buy == buy_side
}

pub open spec fn pending_wf(t: Seq<OrderTracker>) -> bool {
    forall|i: int| 0 <= i < t.len() ==> tracker_ok(#[trigger] t[i], t[i].order.is_buy)
}

/// Every fill reported was at the price of the resting order it matched.
pub open spec fn fills_at_maker_price(cbs: Seq<Callback>) -> bool {
    forall|i: int|
        0 <= i < cbs.len() && (#[trigger] cbs[i]).cb_type == CbType::OrderFill ==> cbs[i].matched_order is Some
            && cbs[i].price == cbs[i].matched_order->0.price
}

/// No resting bid and resting ask that both lack the all-or-none condition
/// would trade with each other.
pub open spec fn uncrossed(bids: Seq<OrderTracker>, asks: Seq<OrderTracker>) -> bool {
    forall|i: int, j: int|
        0 <= i < bids.len() && 0 <= j < asks.len() && !(#[trigger] bids[i]).spec_all_or_none()
            && !(#[trigger] asks[j]).spec_all_or_none() ==> !price_matches(true, bids[i].order.price, asks[j].order.price)
}

/// `after` is `before` with `t` put in behind every tracker that comes no
/// later than it and ahead of every one that comes after it.
pub open spec fn placed_in_ladder(before: Seq<OrderTracker>, after: Seq<OrderTracker>, t: OrderTracker, buy_side: bool) -> bool {
    exists|i: int|
        0 <= i <= before.len() && after == before.insert(i, t) && (forall|k: int|
            0 <= k < i ==> price_before_eq(buy_side, (#[trigger] before[k]).order.price, t.order.price)) && (forall|k: int|
            i <= k < before.len() ==> !price_before_eq(buy_side, (#[trigger] before[k]).order.price, t.order.price))
}

/// The matching engine of one symbol.
pub struct OrderBook {
    pub symbol: String,
    pub bids: Vec<OrderTracker>,
    pub asks: Vec<OrderTracker>,
    pub stop_bids: Vec<OrderTracker>,
    pub stop_asks: Vec<OrderTracker>,
    pub pending_orders: Vec<OrderTracker>,
    pub callbacks: Vec<Callback>,
    pub market_price: Price,
}

impl OrderBook {
    /// The book between requests: each ladder well formed and in order, no
    /// triggered order waiting, every fill reported at the resting order's
    /// price, and no two resting orders without the all-or-none condition
    /// that would trade with each other.
    pub open spec fn wf(&self) -> bool {
        &&& ladder_wf(self.bids@, true)
        &&& ladder_wf(self.asks@, false)
        &&& stop_ladder_wf(self.stop_bids@, true)
        &&& stop_ladder_wf(self.stop_asks@, false)
        &&& self.pending_orders@.len() == 0
        &&& fills_at_maker_price(self.callbacks@)
        &&& uncrossed(self.bids@, self.asks@)
    }

    pub fn new(symbol: String) -> (r: Self)
        ensures
            r.wf(),
            r.symbol@ == symbol@,
            r.bids@.len() == 0,
            r.asks@.len() == 0,
            r.stop_bids@.len() == 0,
            r.stop_asks@.len() == 0,
            r.callbacks@.len() == 0,
            r.market_price == 0,
    {
        OrderBook {
            symbol,
            bids: Vec::new(),
            asks: Vec::new(),
            stop_bids: Vec::new(),
            stop_asks: Vec::new(),
            pending_orders: Vec::new(),
            callbacks: Vec::new(),
            market_price: 0,
        }
    }

    pub fn set_symbol(&mut self, symbol: String)
        ensures
            final(self).symbol@ == symbol@,
            final(self).bids == old(self).bids,
            final(self).asks == old(self).asks,
            final(self).stop_bids == old(self).stop_bids,
            final(self).stop_asks == old(self).stop_asks,
            final(self).pending_orders == old(self).pending_orders,
            final(self).callbacks == old(self).callbacks,
            final(self).market_price == old(self).market_price,
    {
        self.symbol = symbol;
    }

    pub fn symbol(&self) -> (r: &str)
        ensures
            r@ == self.symbol@,
    {
        self.symbol.as_str()
    }

    /// The market price: that of the last fill, or zero when undefined.
    pub fn market_price(&self) -> (r: Price)
        ensures
            r == self.market_price,
    {
        self.market_price
    }

    /// Hands over the callbacks queued so far, oldest first, and empties the
    /// queue.
    pub fn take_callbacks(&mut self) -> (r: Vec<Callback>)
        requires
            old(self).wf(),
        ensures
            final(self).wf(),
            r@ == old(self).callbacks@,
            final(self).callbacks@.len() == 0,
            final(self).bids == old(self).bids,
            final(self).asks == old(self).asks,
            final(self).stop_bids == old(self).stop_bids,
            final(self).stop_asks == old(self).stop_asks,
            final(self).market_price == old(self).market_price,
    {
        let mut out: Vec<Callback> = Vec::new();
        std::mem::swap(&mut out, &mut self.callbacks);
        out
    }
}

/// Puts `t` into `ladder` behind every tracker at a price no worse than its
/// own, so that the ladder stays best first and oldest first.
fn insert_by_price(ladder: &mut Vec<OrderTracker>, t: OrderTracker, buy_side: bool)
    requires
        ladder_wf(old(ladder)@, buy_side),
        tracker_ok(t, buy_side),
    ensures
        ladder_wf(final(ladder)@, buy_side),
        placed_in_ladder(old(ladder)@, final(ladder)@, t, buy_side),
{
    let n = ladder.len();
    let cp = ComparablePrice::new(buy_side, t.order.price);
    let mut i: usize = 0;
    while i < n && !(ComparablePrice::new(buy_side, ladder[i].order.price) > cp)
        invariant
            n == ladder@.len(),
            i <= n,
            cp.spec_price() == t.order.price,
            cp.spec_is_buy() == buy_side,
            ladder_wf(ladder@, buy_side),
            forall|k: int| 0 <= k < i ==> price_before_eq(buy_side, (#[trigger] ladder@[k]).order.price, t.order.price),
        decreases n - i,
    {
        i = i + 1;
    }
    let ghost l0 = ladder@;
    ladder.insert(i, t);
    proof {
        assert forall|k: int| i <= k < l0.len() implies !price_before_eq(buy_side, (#[trigger] l0[k]).order.price, t.order.price) by {
            lemma_price_order(buy_side, l0[i as int].order.price, l0[k].order.price, t.order.price);
            if k > i {
                assert(price_before_eq(buy_side, l0[i as int].order.price, l0[k].order.price));
            }
        }
        assert forall|a: int, b: int| 0 <= a < b < ladder@.len() implies price_before_eq(buy_side, (#[trigger] ladder@[a]).order.price, (#[trigger] ladder@[b]).order.price) by {
            if b < i {
            } else if b == i {
            } else if a == i {
                lemma_price_order(buy_side, t.order.price, l0[b - 1].order.price, t.order.price);
            } else if a < i {
                lemma_price_order(buy_side, l0[a].order.price, t.order.price, l0[b - 1].order.price);
                lemma_price_order(buy_side, t.order.price, l0[b - 1].order.price, t.order.price);
            } else {
                assert(price_before_eq(buy_side, l0[a - 1].order.price, l0[b - 1].order.price));
            }
        }
        assert(placed_in_ladder(l0, ladder@, t, buy_side));
    }
}

/// Puts the stop order `t` into a stop ladder behind every stop that
/// triggers no later than it.
fn insert_by_stop(ladder: &mut Vec<OrderTracker>, t: OrderTracker, buy_side: bool)
    requires
        stop_ladder_wf(old(ladder)@, buy_side),
        tracker_ok(t, buy_side),
        t.order.stop_price != 0,
    ensures
        stop_ladder_wf(final(ladder)@, buy_side),
        stop_placed(old(ladder)@, final(ladder)@, t, buy_side),
{
    let n = ladder.len();
    let cp = ComparablePrice::new(!buy_side, t.order.stop_price);
    let mut i: usize = 0;
    while i < n && !(ComparablePrice::new(!buy_side, ladder[i].order.stop_price) > cp)
        invariant
            n == ladder@.len(),
            i <= n,
            cp.spec_price() == t.order.stop_price,
            cp.spec_is_buy() == !buy_side,
            stop_ladder_wf(ladder@, buy_side),
            forall|k: int| 0 <= k < i ==> price_before_eq(!buy_side, (#[trigger] ladder@[k]).order.stop_price, t.order.stop_price),
        decreases n - i,
    {
        i = i + 1;
    }
    let ghost l0 = ladder@;
    ladder.insert(i, t);
    proof {
        assert forall|a: int, b: int| 0 <= a < b < ladder@.len() implies price_before_eq(!buy_side, (#[trigger] ladder@[a]).order.stop_price, (#[trigger] ladder@[b]).order.stop_price) by {
            if b < i {
            } else if b == i {
            } else if a == i {
                lemma_price_order(!buy_side, t.order.stop_price, l0[b - 1].order.stop_price, t.order.stop_price);
                lemma_price_order(!buy_side, l0[i as int].order.stop_price, l0[b - 1].order.stop_price, t.order.stop_price);
                if b - 1 > i {
                    assert(price_before_eq(!buy_side, l0[i as int].order.stop_price, l0[b - 1].order.stop_price));
                }
            } else if a < i {
                lemma_price_order(!buy_side, l0[a].order.stop_price, t.order.stop_price, l0[b - 1].order.stop_price);
                lemma_price_order(!buy_side, t.order.stop_price, l0[b - 1].order.stop_price, t.order.stop_price);
                lemma_price_order(!buy_side, l0[i as int].order.stop_price, l0[b - 1].order.stop_price, t.order.stop_price);
                if b - 1 > i {
                    assert(price_before_eq(!buy_side, l0[i as int].order.stop_price, l0[b - 1].order.stop_price));
                }
            } else {
                assert(price_before_eq(!buy_side, l0[a - 1].order.stop_price, l0[b - 1].order.stop_price));
            }
        }
        assert(ladder@ == l0.insert(i as int, t));
        assert forall|k: int| i <= k < l0.len() implies !price_before_eq(!buy_side, (#[trigger] l0[k]).order.stop_price, t.order.stop_price) by {
            lemma_price_order(!buy_side, l0[i as int].order.stop_price, l0[k].order.stop_price, t.order.stop_price);
            if k > i {
                assert(price_before_eq(!buy_side, l0[i as int].order.stop_price, l0[k].order.stop_price));
            }
        }
        assert(stop_placed(l0, ladder@, t, buy_side));
    }
}

/// `after` is the stop ladder `before` with `t` put in behind every stop
/// that triggers no later than it and ahead of every one that triggers
/// later.
pub open spec fn stop_placed(before: Seq<OrderTracker>, after: Seq<OrderTracker>, t: OrderTracker, buy_side: bool) -> bool {
    exists|i: int|
        0 <= i <= before.len() && after == before.insert(i, t) && (forall|k: int|
            0 <= k < i ==> price_before_eq(!buy_side, (#[trigger] before[k]).order.stop_price, t.order.stop_price)) && (forall|k: int|
            i <= k < before.len() ==> !price_before_eq(!buy_side, (#[trigger] before[k]).order.stop_price, t.order.stop_price))
}

/// The tracker that `add` makes of `order` under `conditions`.
pub open spec fn inbound_of(order: BookOrder, conditions: OrderConditions) -> OrderTracker {
    OrderTracker { order, open_qty: order.order_qty, reserved: 0, conditions: OrderTracker::merged_conditions(order, conditions) }
}

/// One fill of an inbound order against a resting one, at the resting
/// order's price.
#[derive(Clone, Copy, Debug)]
pub struct Execution {
    pub matched_order: BookOrder,
    pub qty: Quantity,
    pub inbound_filled: bool,
    pub matched_filled: bool,
}

/// What the executions of `es` filled, summed.
pub open spec fn exec_total(es: Seq<Execution>) -> int
    decreases es.len(),
{
    if es.len() == 0 {
        0
    } else {
        exec_total(es.drop_last()) + es.last().qty
    }
}

/// Every tracker of `after` stands for an order of `before`, with the same
/// order and conditions.
pub open spec fn drawn_from(after: Seq<OrderTracker>, before: Seq<OrderTracker>) -> bool {
    forall|k: int| 0 <= k < after.len() ==> in_ladder(#[trigger] after[k], before)
}

/// Whether `ladder` holds a tracker of the order of `t`, with its conditions.
pub open spec fn in_ladder(t: OrderTracker, ladder: Seq<OrderTracker>) -> bool {
    exists|j: int| 0 <= j < ladder.len() && #[trigger] same_order(t, ladder[j])
}

/// Two trackers of one order with the same conditions.
pub open spec fn same_order(a: OrderTracker, b: OrderTracker) -> bool {
    a.order == b.order && a.conditions == b.conditions
}

pub proof fn lemma_drawn_from_refl(s: Seq<OrderTracker>)
    ensures
        drawn_from(s, s),
{
    assert forall|k: int| 0 <= k < s.len() implies in_ladder(#[trigger] s[k], s) by {
        assert(same_order(s[k], s[k]));
    }
}

/// What an inbound order on `buy_side` at `price` of `user` may fill
/// against: each fill took something, from another user's order on the
/// other side at a price the inbound trades with.
pub open spec fn execs_ok(es: Seq<Execution>, buy_side: bool, price: Price, user: u64) -> bool {
    forall|k: int|
        0 <= k < es.len() ==> {
            &&& (#[trigger] es[k]).qty > 0
            &&& es[k].matched_order.user_id != user
            &&& es[k].matched_order.is_buy == !buy_side
            &&& price_matches(buy_side, price, es[k].matched_order.price)
        }
}

/// Whether `o` is the order of some tracker of `ladder`.
pub open spec fn order_rested_in(o: BookOrder, ladder: Seq<OrderTracker>) -> bool {
    exists|j: int| 0 <= j < ladder.len() && (#[trigger] ladder[j]).order == o
}

/// The orders of the trackers of `s`.
pub open spec fn orders_of(s: Seq<OrderTracker>) -> Set<BookOrder> {
    Set::new(|o: BookOrder| order_rested_in(o, s))
}

pub proof fn lemma_orders_concat(a: Seq<OrderTracker>, b: Seq<OrderTracker>)
    ensures
        orders_of(a + b) == orders_of(a).union(orders_of(b)),
{
    assert forall|o: BookOrder| orders_of(a + b).contains(o) <==> orders_of(a).union(orders_of(b)).contains(o) by {
        if order_rested_in(o, a + b) {
            let j = choose|j: int| 0 <= j < (a + b).len() && (#[trigger] (a + b)[j]).order == o;
            if j < a.len() {
                assert(a[j] == (a + b)[j]);
            } else {
                assert(b[j - a.len()] == (a + b)[j]);
            }
        }
        if order_rested_in(o, a) {
            let j = choose|j: int| 0 <= j < a.len() && (#[trigger] a[j]).order == o;
            assert((a + b)[j] == a[j]);
        }
        if order_rested_in(o, b) {
            let j = choose|j: int| 0 <= j < b.len() && (#[trigger] b[j]).order == o;
            assert((a + b)[a.len() + j] == b[j]);
        }
    }
    assert(orders_of(a + b) =~= orders_of(a).union(orders_of(b)));
}

pub proof fn lemma_orders_drawn(a: Seq<OrderTracker>, b: Seq<OrderTracker>)
    requires
        drawn_from(a, b),
    ensures
        orders_of(a).subset_of(orders_of(b)),
{
    assert forall|o: BookOrder| orders_of(a).contains(o) implies orders_of(b).contains(o) by {
        let j = choose|j: int| 0 <= j < a.len() && (#[trigger] a[j]).order == o;
        assert(in_ladder(a[j], b));
        let m = choose|m: int| 0 <= m < b.len() && #[trigger] same_order(a[j], b[m]);
        assert(b[m].order == o);
    }
}

pub proof fn lemma_orders_suffix(a: Seq<OrderTracker>, b: Seq<OrderTracker>)
    requires
        suffix_of(a, b),
    ensures
        orders_of(a).subset_of(orders_of(b)),
{
    assert forall|o: BookOrder| orders_of(a).contains(o) implies orders_of(b).contains(o) by {
        let j = choose|j: int| 0 <= j < a.len() && (#[trigger] a[j]).order == o;
        assert(a[j] == b[b.len() - a.len() + j]);
    }
}

pub proof fn lemma_orders_insert(a: Seq<OrderTracker>, i: int, t: OrderTracker)
    requires
        0 <= i <= a.len(),
    ensures
        orders_of(a.insert(i, t)) == orders_of(a).insert(t.order),
{
    let c = a.insert(i, t);
    assert forall|o: BookOrder| orders_of(c).contains(o) <==> orders_of(a).insert(t.order).contains(o) by {
        if order_rested_in(o, c) {
            let j = choose|j: int| 0 <= j < c.len() && (#[trigger] c[j]).order == o;
            if j < i {
                assert(c[j] == a[j]);
            } else if j > i {
                assert(c[j] == a[j - 1]);
            }
        }
        if order_rested_in(o, a) {
            let j = choose|j: int| 0 <= j < a.len() && (#[trigger] a[j]).order == o;
            if j < i {
                assert(c[j] == a[j]);
            } else {
                assert(c[j + 1] == a[j]);
            }
        }
        if o == t.order {
            assert(c[i] == t);
        }
    }
    assert(orders_of(c) =~= orders_of(a).insert(t.order));
}

pub proof fn lemma_orders_subrange(a: Seq<OrderTracker>, x: int, y: int)
    requires
        0 <= x <= y <= a.len(),
    ensures
        orders_of(a.subrange(x, y)).subset_of(orders_of(a)),
{
    assert forall|o: BookOrder| orders_of(a.subrange(x, y)).contains(o) implies orders_of(a).contains(o) by {
        let j = choose|j: int| 0 <= j < y - x && (#[trigger] a.subrange(x, y)[j]).order == o;
        assert(a.subrange(x, y)[j] == a[x + j]);
    }
}

/// Every callback of `cas` is of an order of `stops`, and every fill among
/// them is against an order of `pool`.
pub open spec fn cascade_ok(cas: Seq<Callback>, stops: Set<BookOrder>, pool: Set<BookOrder>) -> bool {
    forall|k: int|
        0 <= k < cas.len() ==> {
            &&& (#[trigger] cas[k]).order is Some
            &&& stops.contains(cas[k].order->0)
            &&& cas[k].cb_type == CbType::OrderFill ==> cas[k].matched_order is Some && pool.contains(cas[k].matched_order->0)
        }
}

pub proof fn lemma_cascade_ok_concat(a: Seq<Callback>, b: Seq<Callback>, stops: Set<BookOrder>, pool: Set<BookOrder>)
    requires
        cascade_ok(a, stops, pool),
        cascade_ok(b, stops, pool),
    ensures
        cascade_ok(a + b, stops, pool),
{
    assert forall|k: int| 0 <= k < (a + b).len() implies {
        &&& (#[trigger] (a + b)[k]).order is Some
        &&& stops.contains((a + b)[k].order->0)
        &&& (a + b)[k].cb_type == CbType::OrderFill ==> (a + b)[k].matched_order is Some && pool.contains((a + b)[k].matched_order->0)
    } by {
        if k >= a.len() {
            assert((a + b)[k] == b[k - a.len()]);
        } else {
            assert((a + b)[k] == a[k]);
        }
    }
}

pub proof fn lemma_cascade_ok_widen(a: Seq<Callback>, s1: Set<BookOrder>, p1: Set<BookOrder>, s2: Set<BookOrder>, p2: Set<BookOrder>)
    requires
        cascade_ok(a, s1, p1),
        s1.subset_of(s2),
        p1.subset_of(p2),
    ensures
        cascade_ok(a, s2, p2),
{
}

/// What a submission leaves on the ladders are orders that were there or
/// the inbound one; its reports are of the inbound order, with fills
/// against orders that rested opposite.
pub proof fn lemma_submit_orders(
    own0: Seq<OrderTracker>,
    opp0: Seq<OrderTracker>,
    own1: Seq<OrderTracker>,
    opp1: Seq<OrderTracker>,
    t: OrderTracker,
    es: Seq<Execution>,
    t1: OrderTracker,
    intr: bool,
    canc: bool,
)
    requires
        submit_effect(own0, opp0, own1, opp1, t, es, t1, intr, canc),
    ensures
        orders_of(own1).subset_of(orders_of(own0).insert(t.order)),
        orders_of(opp1).subset_of(orders_of(opp0)),
        cascade_ok(fill_callbacks(t.order, es) + cancel_tail(t.order, canc), set![t.order], orders_of(opp0)),
{
    lemma_orders_drawn(opp1, opp0);
    if !canc && t1.open_qty > 0 {
        let i = choose|i: int|
            0 <= i <= own0.len() && own1 == own0.insert(i, t1) && (forall|k: int|
                0 <= k < i ==> price_before_eq(t.order.is_buy, (#[trigger] own0[k]).order.price, t1.order.price)) && (forall|k: int|
                i <= k < own0.len() ==> !price_before_eq(t.order.is_buy, (#[trigger] own0[k]).order.price, t1.order.price));
        lemma_orders_insert(own0, i, t1);
    }
    let f = fill_callbacks(t.order, es);
    assert forall|k: int| 0 <= k < f.len() implies {
        &&& (#[trigger] f[k]).order is Some
        &&& set![t.order].contains(f[k].order->0)
        &&& f[k].cb_type == CbType::OrderFill ==> f[k].matched_order is Some && orders_of(opp0).contains(f[k].matched_order->0)
    } by {
        assert(order_rested_in(es[k].matched_order, opp0));
    }
    assert(cascade_ok(cancel_tail(t.order, canc), set![t.order], orders_of(opp0)));
    lemma_cascade_ok_concat(f, cancel_tail(t.order, canc), set![t.order], orders_of(opp0));
}

/// Whether `opp` holds an order of the same user as `t` at a price `t`
/// trades with.
pub open spec fn same_user_reached(opp: Seq<OrderTracker>, t: OrderTracker) -> bool {
    exists|k: int|
        0 <= k < opp.len() && (#[trigger] opp[k]).order.user_id == t.order.user_id && price_matches(
            t.order.is_buy,
            t.order.price,
            opp[k].order.price,
        )
}

/// Every fill of `es` is against an order that rested in `opp`.
pub open spec fn fills_from(es: Seq<Execution>, opp: Seq<OrderTracker>) -> bool {
    forall|k: int| 0 <= k < es.len() ==> order_rested_in((#[trigger] es[k]).matched_order, opp)
}

/// The fills of `es` come best price first for an inbound order on
/// `buy_side`.
pub open spec fn execs_best_first(es: Seq<Execution>, buy_side: bool) -> bool {
    forall|i: int, j: int| 0 <= i < j < es.len() ==> price_before_eq(!buy_side, (#[trigger] es[i]).matched_order.price, (#[trigger] es[j]).matched_order.price)
}

/// Walks `opp`, the ladder opposite to `inbound`, best first and oldest
/// first, filling the inbound order against each resting order it trades
/// with. A resting all-or-none order that the inbound cannot fill whole is
/// passed over. The walk stops at the first price the inbound does not
/// trade with, and stops short (returning `true`) at a resting order of the
/// inbound's own user or when `MAX_MAKERS` orders were consumed.
#[verifier::spinoff_prover]
#[verifier::rlimit(100)]
fn match_pass(opp: &mut Vec<OrderTracker>, inbound: &mut OrderTracker) -> (r: (Vec<Execution>, bool))
    requires
        ladder_wf(old(opp)@, !old(inbound).order.is_buy),
        old(inbound).wf(),
        old(inbound).reserved == 0,
    ensures
        ladder_wf(final(opp)@, !old(inbound).order.is_buy),
        drawn_from(final(opp)@, old(opp)@),
        r.0@.len() == 0 ==> final(opp)@ == old(opp)@,
        0 <= exec_total(r.0@) <= old(inbound).open_qty,
        *final(inbound) == (OrderTracker { open_qty: (old(inbound).open_qty - exec_total(r.0@)) as u64, ..*old(inbound) }),
        execs_ok(r.0@, old(inbound).order.is_buy, old(inbound).order.price, old(inbound).order.user_id),
        r.0@.len() <= MAX_MAKERS,
        execs_best_first(r.0@, old(inbound).order.is_buy),
        fills_from(r.0@, old(opp)@),
        r.1 ==> final(inbound).open_qty > 0,
        r.1 ==> r.0@.len() == MAX_MAKERS || same_user_reached(old(opp)@, *old(inbound)),
        !r.1 && final(inbound).open_qty > 0 ==> forall|k: int|
            0 <= k < final(opp)@.len() && price_matches(old(inbound).order.is_buy, old(inbound).order.price, (#[trigger] final(opp)@[k]).order.price)
                ==> final(opp)@[k].spec_all_or_none(),
{
    let buy = inbound.order.is_buy;
    let cp = ComparablePrice::new(buy, inbound.order.price);
    let ghost opp0 = opp@;
    let ghost in0 = *inbound;
    let mut execs: Vec<Execution> = Vec::new();
    let mut interrupted = false;
    let mut done = false;
    let mut i: usize = 0;
    proof {
        lemma_drawn_from_refl(opp0);
    }
    while !done && i < opp.len() && inbound.open_qty > 0
        invariant
            cp.spec_price() == in0.order.price,
            cp.spec_is_buy() == buy,
            buy == in0.order.is_buy,
            ladder_wf(opp@, !buy),
            drawn_from(opp@, opp0),
            execs@.len() == 0 ==> opp@ == opp0,
            i <= opp@.len(),
            inbound.open_qty > 0 ==> forall|k: int| 0 <= k < i ==> (#[trigger] opp@[k]).spec_all_or_none() && price_matches(buy, in0.order.price, opp@[k].order.price),
            0 <= exec_total(execs@) <= in0.open_qty,
            *inbound == (OrderTracker { open_qty: (in0.open_qty - exec_total(execs@)) as u64, ..in0 }),
            execs_ok(execs@, buy, in0.order.price, in0.order.user_id),
            execs@.len() <= MAX_MAKERS,
            execs_best_first(execs@, buy),
            execs@.len() > 0 ==> forall|k: int| i <= k < opp@.len() ==> price_before_eq(!buy, execs@.last().matched_order.price, (#[trigger] opp@[k]).order.price),
            interrupted ==> done && inbound.open_qty > 0,
            interrupted ==> execs@.len() == MAX_MAKERS || same_user_reached(opp0, in0),
            fills_from(execs@, opp0),
            done && !interrupted ==> forall|k: int| i <= k < opp@.len() ==> !price_matches(buy, in0.order.price, (#[trigger] opp@[k]).order.price),
        decreases opp@.len() - i + (if done { 0int } else { 1 }),
    {
        let maker = opp[i];
        if !cp.matches(maker.order.price) {
            done = true;
            proof {
                assert forall|k: int| i <= k < opp@.len() implies !price_matches(buy, in0.order.price, (#[trigger] opp@[k]).order.price) by {
                    if k > i && price_matches(buy, in0.order.price, opp@[k].order.price) {
                        lemma_matches_prefix(buy, in0.order.price, opp@[k].order.price, opp@[i as int].order.price);
                    }
                }
            }
        } else if maker.order.user_id == inbound.order.user_id || execs.len() >= MAX_MAKERS as usize {
            done = true;
            interrupted = true;
            proof {
                if maker.order.user_id == in0.order.user_id {
                    assert(in_ladder(opp@[i as int], opp0));
                    let j = choose|j: int| 0 <= j < opp0.len() && #[trigger] same_order(opp@[i as int], opp0[j]);
                    assert(opp0[j].order.user_id == in0.order.user_id);
                    assert(same_user_reached(opp0, in0));
                }
            }
        } else if maker.all_or_none() && maker.open_qty > inbound.open_qty {
            i = i + 1;
        } else {
            let qty = if inbound.open_qty < maker.open_qty {
                inbound.open_qty
            } else {
                maker.open_qty
            };
            let ghost e0 = execs@;
            let _ = inbound.fill(qty);
            let mut m = maker;
            let _ = m.fill(qty);
            let e = Execution {
                matched_order: m.order,
                qty,
                inbound_filled: inbound.open_qty == 0,
                matched_filled: m.open_qty == 0,
            };
            proof {
                assert(in_ladder(opp@[i as int], opp0));
                let j = choose|j: int| 0 <= j < opp0.len() && #[trigger] same_order(opp@[i as int], opp0[j]);
                assert(opp0[j].order == e.matched_order);
            }
            execs.push(e);
            proof {
                assert(execs@.drop_last() =~= e0);
                assert forall|k: int| 0 <= k < execs@.len() implies order_rested_in((#[trigger] execs@[k]).matched_order, opp0) by {
                    if k < e0.len() {
                        assert(execs@[k] == e0[k]);
                    }
                }
                assert forall|a: int, b: int| 0 <= a < b < execs@.len() implies price_before_eq(!buy, (#[trigger] execs@[a]).matched_order.price, (#[trigger] execs@[b]).matched_order.price) by {
                    if b < e0.len() {
                        assert(execs@[a] == e0[a] && execs@[b] == e0[b]);
                    } else {
                        assert(execs@[a] == e0[a]);
                        if a < e0.len() - 1 {
                            assert(price_before_eq(!buy, e0[a].matched_order.price, e0[e0.len() - 1].matched_order.price));
                            lemma_price_order(!buy, e0[a].matched_order.price, e0.last().matched_order.price, maker.order.price);
                        }
                    }
                }
                assert forall|k: int| 0 <= k < execs@.len() implies {
                    &&& (#[trigger] execs@[k]).qty > 0
                    &&& execs@[k].matched_order.user_id != in0.order.user_id
                    &&& execs@[k].matched_order.is_buy == !buy
                    &&& price_matches(buy, in0.order.price, execs@[k].matched_order.price)
                } by {
                    if k < e0.len() {
                        assert(execs@[k] == e0[k]);
                    }
                }
            }
            let ghost o1 = opp@;
            proof {
                assert forall|k: int| i <= k < o1.len() implies price_before_eq(!buy, execs@.last().matched_order.price, (#[trigger] o1[k]).order.price) by {
                    lemma_price_order(!buy, maker.order.price, maker.order.price, maker.order.price);
                }
            }
            if m.open_qty == 0 {
                opp.remove(i);
                proof {
                    assert forall|k: int| 0 <= k < opp@.len() implies in_ladder(#[trigger] opp@[k], opp0) by {
                        if k < i {
                            assert(opp@[k] == o1[k]);
                        } else {
                            assert(opp@[k] == o1[k + 1]);
                        }
                    }
                }
            } else {
                opp.set(i, m);
                i = i + 1;
                proof {
                    assert forall|k: int| 0 <= k < opp@.len() implies in_ladder(#[trigger] opp@[k], opp0) by {
                        let j = choose|j: int| 0 <= j < opp0.len() && #[trigger] same_order(o1[k], opp0[j]);
                        assert(same_order(opp@[k], opp0[j]));
                    }
                }
            }
        }
    }
    (execs, interrupted)
}

fn copy_ladder(t: &Vec<OrderTracker>) -> (r: Vec<OrderTracker>)
    ensures
        r@ == t@,
{
    let mut r: Vec<OrderTracker> = Vec::new();
    let mut i: usize = 0;
    while i < t.len()
        invariant
            i <= t@.len(),
            r@ == t@.subrange(0, i as int),
        decreases t@.len() - i,
    {
        r.push(t[i]);
        i = i + 1;
        proof {
            assert(r@ =~= t@.subrange(0, i as int));
        }
    }
    proof {
        assert(r@ =~= t@);
    }
    r
}

/// `match_pass`, except that an all-or-none inbound order fills whole or
/// not at all: its walk is first tried on a copy of the ladder and kept
/// only when it filled the order.
fn match_inbound(opp: &mut Vec<OrderTracker>, inbound: &mut OrderTracker) -> (r: (Vec<Execution>, bool))
    requires
        ladder_wf(old(opp)@, !old(inbound).order.is_buy),
        old(inbound).wf(),
        old(inbound).reserved == 0,
    ensures
        ladder_wf(final(opp)@, !old(inbound).order.is_buy),
        drawn_from(final(opp)@, old(opp)@),
        r.0@.len() == 0 ==> final(opp)@ == old(opp)@,
        0 <= exec_total(r.0@) <= old(inbound).open_qty,
        *final(inbound) == (OrderTracker { open_qty: (old(inbound).open_qty - exec_total(r.0@)) as u64, ..*old(inbound) }),
        execs_ok(r.0@, old(inbound).order.is_buy, old(inbound).order.price, old(inbound).order.user_id),
        r.0@.len() <= MAX_MAKERS,
        execs_best_first(r.0@, old(inbound).order.is_buy),
        fills_from(r.0@, old(opp)@),
        r.1 ==> final(inbound).open_qty > 0,
        r.1 ==> r.0@.len() == MAX_MAKERS || same_user_reached(old(opp)@, *old(inbound)) || (old(inbound).spec_all_or_none() && r.0@.len() == 0),
        old(inbound).spec_all_or_none() ==> final(inbound).open_qty == 0 || r.0@.len() == 0,
        !r.1 && final(inbound).open_qty > 0 && !old(inbound).spec_all_or_none() ==> forall|k: int|
            0 <= k < final(opp)@.len() && price_matches(old(inbound).order.is_buy, old(inbound).order.price, (#[trigger] final(opp)@[k]).order.price)
                ==> final(opp)@[k].spec_all_or_none(),
{
    if inbound.all_or_none() {
        let mut trial = copy_ladder(opp);
        let mut t = *inbound;
        let (execs, interrupted) = match_pass(&mut trial, &mut t);
        if t.open_qty == 0 {
            *opp = trial;
            *inbound = t;
            (execs, interrupted)
        } else {
            proof {
                lemma_drawn_from_refl(opp@);
            }
            (Vec::new(), interrupted)
        }
    } else {
        match_pass(opp, inbound)
    }
}

/// Resting orders that were only reduced or removed stay uncrossed.
pub proof fn lemma_uncrossed_drawn(b: Seq<OrderTracker>, a: Seq<OrderTracker>, b2: Seq<OrderTracker>, a2: Seq<OrderTracker>)
    requires
        uncrossed(b, a),
        drawn_from(b2, b),
        drawn_from(a2, a),
    ensures
        uncrossed(b2, a2),
{
    assert forall|i: int, j: int|
        0 <= i < b2.len() && 0 <= j < a2.len() && !(#[trigger] b2[i]).spec_all_or_none() && !(#[trigger] a2[j]).spec_all_or_none()
            implies !price_matches(true, b2[i].order.price, a2[j].order.price) by {
        assert(in_ladder(b2[i], b));
        assert(in_ladder(a2[j], a));
        let x = choose|x: int| 0 <= x < b.len() && #[trigger] same_order(b2[i], b[x]);
        let y = choose|y: int| 0 <= y < a.len() && #[trigger] same_order(a2[j], a[y]);
        assert(!b[x].spec_all_or_none() && !a[y].spec_all_or_none());
    }
}

/// A bid put into the book stays uncrossed when it is all-or-none or trades
/// with no ask that is not.
pub proof fn lemma_uncrossed_insert_bid(b: Seq<OrderTracker>, a: Seq<OrderTracker>, i: int, t: OrderTracker)
    requires
        uncrossed(b, a),
        0 <= i <= b.len(),
        t.spec_all_or_none() || forall|j: int| 0 <= j < a.len() && !(#[trigger] a[j]).spec_all_or_none() ==> !price_matches(true, t.order.price, a[j].order.price),
    ensures
        uncrossed(b.insert(i, t), a),
{
    let b2 = b.insert(i, t);
    assert forall|x: int, j: int|
        0 <= x < b2.len() && 0 <= j < a.len() && !(#[trigger] b2[x]).spec_all_or_none() && !(#[trigger] a[j]).spec_all_or_none()
            implies !price_matches(true, b2[x].order.price, a[j].order.price) by {
        if x < i {
            assert(b2[x] == b[x]);
        } else if x > i {
            assert(b2[x] == b[x - 1]);
        }
    }
}

/// An ask put into the book stays uncrossed when it is all-or-none or
/// trades with no bid that is not.
pub proof fn lemma_uncrossed_insert_ask(b: Seq<OrderTracker>, a: Seq<OrderTracker>, i: int, t: OrderTracker)
    requires
        uncrossed(b, a),
        0 <= i <= a.len(),
        t.spec_all_or_none() || forall|j: int| 0 <= j < b.len() && !(#[trigger] b[j]).spec_all_or_none() ==> !price_matches(false, t.order.price, b[j].order.price),
    ensures
        uncrossed(b, a.insert(i, t)),
{
    let a2 = a.insert(i, t);
    assert forall|j: int, x: int|
        0 <= j < b.len() && 0 <= x < a2.len() && !(#[trigger] b[j]).spec_all_or_none() && !(#[trigger] a2[x]).spec_all_or_none()
            implies !price_matches(true, b[j].order.price, a2[x].order.price) by {
        if x < i {
            assert(a2[x] == a[x]);
        } else if x > i {
            assert(a2[x] == a[x - 1]);
        }
    }
}

/// The fill callback of `e` for the inbound `order`.
pub open spec fn fill_callback(order: BookOrder, e: Execution) -> Callback {
    Callback {
        cb_type: CbType::OrderFill,
        order: Some(order),
        matched_order: Some(e.matched_order),
        quantity: e.qty,
        price: e.matched_order.price,
        flags: FillFlags::spec_of(e.inbound_filled, e.matched_filled).spec_bits(),
        ..Callback::blank()
    }
}

pub open spec fn fill_callbacks(order: BookOrder, es: Seq<Execution>) -> Seq<Callback> {
    es.map_values(|e: Execution| fill_callback(order, e))
}

pub open spec fn trigger_callbacks(ts: Seq<OrderTracker>) -> Seq<Callback> {
    ts.map_values(|t: OrderTracker| Callback { cb_type: CbType::OrderTriggerStop, order: Some(t.order), ..Callback::blank() })
}

/// The price of the last fill among `cbs`, if there is one.
pub open spec fn last_fill_price(cbs: Seq<Callback>) -> Option<Price>
    decreases cbs.len(),
{
    if cbs.len() == 0 {
        None
    } else if cbs.last().cb_type == CbType::OrderFill {
        Some(cbs.last().price)
    } else {
        last_fill_price(cbs.drop_last())
    }
}

/// The market price went from `m0` to `m1` while `cbs` were reported: it is
/// the price of the last fill among them, or unchanged when there was none.
pub open spec fn follows_fills(m0: Price, cbs: Seq<Callback>, m1: Price) -> bool {
    match last_fill_price(cbs) {
        Some(p) => m1 == p,
        None => m1 == m0,
    }
}

pub proof fn lemma_last_fill_concat(s: Seq<Callback>, t: Seq<Callback>)
    ensures
        last_fill_price(s + t) == (if last_fill_price(t) is Some {
            last_fill_price(t)
        } else {
            last_fill_price(s)
        }),
    decreases t.len(),
{
    if t.len() == 0 {
        assert(s + t =~= s);
    } else {
        assert((s + t).drop_last() =~= s + t.drop_last());
        lemma_last_fill_concat(s, t.drop_last());
    }
}

pub proof fn lemma_last_fill_of_fills(order: BookOrder, es: Seq<Execution>)
    ensures
        last_fill_price(fill_callbacks(order, es)) == (if es.len() > 0 {
            Some(es.last().matched_order.price)
        } else {
            None::<Price>
        }),
{
}

pub proof fn lemma_last_fill_of_triggers(ts: Seq<OrderTracker>)
    ensures
        last_fill_price(trigger_callbacks(ts)) is None,
    decreases ts.len(),
{
    if ts.len() > 0 {
        assert(trigger_callbacks(ts).drop_last() =~= trigger_callbacks(ts.drop_last()));
        lemma_last_fill_of_triggers(ts.drop_last());
    }
}

/// Setting the market price of `old` to `price` reached its first `b` buy
/// stops and first `a` sell stops, exactly those that the price crossed:
/// the report of the request starts with one trigger for each, in that
/// order. When no triggered order then filled, every other stop waits on
/// as before.
pub open spec fn stops_reached(old: OrderBook, fin: OrderBook, price: Price, b: int, a: int) -> bool {
    let n = new_callbacks(old.callbacks@, fin.callbacks@);
    &&& 0 <= b <= old.stop_bids@.len()
    &&& 0 <= a <= old.stop_asks@.len()
    &&& forall|k: int| 0 <= k < b ==> (#[trigger] old.stop_bids@[k]).order.stop_price <= price
    &&& forall|k: int| 0 <= k < a ==> (#[trigger] old.stop_asks@[k]).order.stop_price >= price
    &&& !scans_buy_stops(old.market_price, price) ==> b == 0
    &&& !scans_sell_stops(old.market_price, price) ==> a == 0
    &&& scans_buy_stops(old.market_price, price) && b < old.stop_bids@.len() ==> old.stop_bids@[b].order.stop_price > price
    &&& scans_sell_stops(old.market_price, price) && a < old.stop_asks@.len() ==> old.stop_asks@[a].order.stop_price < price
    &&& n.len() >= b + a
    &&& n.subrange(0, b + a) == trigger_callbacks(old.stop_bids@.subrange(0, b)) + trigger_callbacks(old.stop_asks@.subrange(0, a))
    &&& last_fill_price(n) is None ==> fin.stop_bids@ == old.stop_bids@.subrange(b, old.stop_bids@.len() as int)
        && fin.stop_asks@ == old.stop_asks@.subrange(a, old.stop_asks@.len() as int)
}

/// Moving the market price of `old` to `price` reaches no waiting stop.
pub open spec fn crosses_no_stop(old: OrderBook, price: Price) -> bool {
    &&& !(scans_buy_stops(old.market_price, price) && old.stop_bids@.len() > 0 && old.stop_bids@[0].order.stop_price <= price)
    &&& !(scans_sell_stops(old.market_price, price) && old.stop_asks@.len() > 0 && old.stop_asks@[0].order.stop_price >= price)
}

/// The orders of the stop orders of `b`, waiting or triggered.
pub open spec fn stop_orders(b: OrderBook) -> Set<BookOrder> {
    orders_of(b.stop_bids@ + b.stop_asks@ + b.pending_orders@)
}

/// The orders that rest in `b` or wait there as stops.
pub open spec fn order_pool(b: OrderBook) -> Set<BookOrder> {
    orders_of(b.bids@ + b.asks@).union(stop_orders(b))
}

/// `a` and `b` hold the same orders, callbacks and market price.
pub open spec fn same_book(a: OrderBook, b: OrderBook) -> bool {
    &&& a.symbol@ == b.symbol@
    &&& a.bids@ == b.bids@
    &&& a.asks@ == b.asks@
    &&& a.stop_bids@ == b.stop_bids@
    &&& a.stop_asks@ == b.stop_asks@
    &&& a.pending_orders@ == b.pending_orders@
    &&& a.callbacks@ == b.callbacks@
    &&& a.market_price == b.market_price
}

/// Whether a market price move from `old` to `p` makes buy stops trigger.
pub open spec fn scans_buy_stops(old: Price, p: Price) -> bool {
    p > old || old == 0
}

/// Whether a market price move from `old` to `p` makes sell stops trigger.
pub open spec fn scans_sell_stops(old: Price, p: Price) -> bool {
    p < old || old == 0
}

impl OrderBook {
    /// The book between two steps of a request: as `wf`, but triggered
    /// stop orders may wait in `pending_orders`.
    pub open spec fn wf_busy(&self) -> bool {
        &&& ladder_wf(self.bids@, true)
        &&& ladder_wf(self.asks@, false)
        &&& stop_ladder_wf(self.stop_bids@, true)
        &&& stop_ladder_wf(self.stop_asks@, false)
        &&& pending_wf(self.pending_orders@)
        &&& fills_at_maker_price(self.callbacks@)
        &&& uncrossed(self.bids@, self.asks@)
    }

    pub open spec fn stop_count(&self) -> nat {
        self.stop_bids@.len() + self.stop_asks@.len() + self.pending_orders@.len()
    }

    /// Sets the market price to `price` and moves the stop orders it
    /// triggers, in trigger order, to the pending queue, reporting each.
    #[verifier::spinoff_prover]
    #[verifier::rlimit(100)]
    fn update_market_price(&mut self, price: Price)
        requires
            old(self).wf_busy(),
        ensures
            final(self).wf_busy(),
            final(self).market_price == price,
            final(self).bids == old(self).bids,
            final(self).asks == old(self).asks,
            final(self).symbol == old(self).symbol,
            final(self).stop_count() == old(self).stop_count(),
            ({
                let nb = old(self).stop_bids@.len() - final(self).stop_bids@.len();
                let na = old(self).stop_asks@.len() - final(self).stop_asks@.len();
                &&& 0 <= nb && 0 <= na
                &&& final(self).stop_bids@ == old(self).stop_bids@.subrange(nb, old(self).stop_bids@.len() as int)
                &&& final(self).stop_asks@ == old(self).stop_asks@.subrange(na, old(self).stop_asks@.len() as int)
                &&& forall|k: int| 0 <= k < nb ==> (#[trigger] old(self).stop_bids@[k]).order.stop_price <= price
                &&& forall|k: int| 0 <= k < na ==> (#[trigger] old(self).stop_asks@[k]).order.stop_price >= price
                &&& !scans_buy_stops(old(self).market_price, price) ==> nb == 0
                &&& !scans_sell_stops(old(self).market_price, price) ==> na == 0
                &&& scans_buy_stops(old(self).market_price, price) && final(self).stop_bids@.len() > 0 ==> final(self).stop_bids@[0].order.stop_price > price
                &&& scans_sell_stops(old(self).market_price, price) && final(self).stop_asks@.len() > 0 ==> final(self).stop_asks@[0].order.stop_price < price
                &&& final(self).pending_orders@ == old(self).pending_orders@ + old(self).stop_bids@.subrange(0, nb) + old(self).stop_asks@.subrange(0, na)
                &&& final(self).callbacks@ == old(self).callbacks@ + trigger_callbacks(old(self).stop_bids@.subrange(0, nb))
                    + trigger_callbacks(old(self).stop_asks@.subrange(0, na))
            }),
            price == old(self).market_price && (price != 0 || old(self).stop_asks@.len() == 0) ==> same_book(*final(self), *old(self)),
    {
        let old_price = self.market_price;
        self.market_price = price;
        let ghost s0 = *old(self);
        if price > old_price || old_price == MARKET_ORDER_PRICE {
            let ghost s1 = *self;
            let mut n: usize = 0;
            let len0 = self.stop_bids.len();
            while self.stop_bids.len() > 0 && self.stop_bids[0].order.stop_price <= price
                invariant
                    self.wf_busy(),
                    self.market_price == price,
                    self.bids == s1.bids,
                    self.asks == s1.asks,
                    self.symbol == s1.symbol,
                    self.stop_asks == s1.stop_asks,
                    n <= s1.stop_bids@.len(),
                    len0 == s1.stop_bids@.len(),
                    self.stop_bids@ == s1.stop_bids@.subrange(n as int, s1.stop_bids@.len() as int),
                    forall|k: int| 0 <= k < n ==> (#[trigger] s1.stop_bids@[k]).order.stop_price <= price,
                    self.pending_orders@ == s1.pending_orders@ + s1.stop_bids@.subrange(0, n as int),
                    self.callbacks@ == s1.callbacks@ + trigger_callbacks(s1.stop_bids@.subrange(0, n as int)),
                decreases self.stop_bids@.len(),
            {
                let ghost it = *self;
                let t = self.stop_bids.remove(0);
                self.callbacks.push(Callback::trigger_stop(t.order));
                self.pending_orders.push(t);
                n = n + 1;
                proof {
                    assert(self.stop_bids@ =~= s1.stop_bids@.subrange(n as int, s1.stop_bids@.len() as int));
                    assert(s1.stop_bids@.subrange(0, n as int) =~= s1.stop_bids@.subrange(0, n - 1).push(t));
                    assert(self.pending_orders@ =~= s1.pending_orders@ + s1.stop_bids@.subrange(0, n as int));
                    assert(trigger_callbacks(s1.stop_bids@.subrange(0, n as int)) =~= trigger_callbacks(s1.stop_bids@.subrange(0, n - 1)).push(
                        Callback { cb_type: CbType::OrderTriggerStop, order: Some(t.order), ..Callback::blank() }));
                    assert(self.callbacks@ =~= s1.callbacks@ + trigger_callbacks(s1.stop_bids@.subrange(0, n as int)));
                    assert forall|k: int| 0 <= k < self.stop_bids@.len() implies tracker_ok(#[trigger] self.stop_bids@[k], true) && self.stop_bids@[k].order.stop_price != 0 by {
                        assert(self.stop_bids@[k] == s1.stop_bids@[k + n]);
                    }
                    assert forall|a: int, b: int| 0 <= a < b < self.stop_bids@.len() implies price_before_eq(false, (#[trigger] self.stop_bids@[a]).order.stop_price, (#[trigger] self.stop_bids@[b]).order.stop_price) by {
                        assert(self.stop_bids@[a] == s1.stop_bids@[a + n]);
                        assert(self.stop_bids@[b] == s1.stop_bids@[b + n]);
                    }
                    assert forall|k: int| 0 <= k < self.pending_orders@.len() implies tracker_ok(#[trigger] self.pending_orders@[k], self.pending_orders@[k].order.is_buy) by {
                        if k < self.pending_orders@.len() - 1 {
                            assert(self.pending_orders@[k] == it.pending_orders@[k]);
                        }
                    }
                    assert forall|k: int| 0 <= k < self.callbacks@.len() && (#[trigger] self.callbacks@[k]).cb_type == CbType::OrderFill implies self.callbacks@[k].matched_order is Some
                        && self.callbacks@[k].price == self.callbacks@[k].matched_order->0.price by {
                        assert(self.callbacks@[k] == it.callbacks@[k]);
                    }
                }
            }
        }
        proof {
            if s0.stop_bids@.len() > self.stop_bids@.len() {
                assert(s0.stop_bids@[0].order.stop_price != 0);
                assert(s0.stop_bids@[0].order.stop_price <= price);
                assert(price > 0);
            }
        }
        let ghost s2 = *self;
        if price < old_price || old_price == MARKET_ORDER_PRICE {
            let mut n: usize = 0;
            let len0 = self.stop_asks.len();
            while self.stop_asks.len() > 0 && self.stop_asks[0].order.stop_price >= price
                invariant
                    self.wf_busy(),
                    self.market_price == price,
                    self.bids == s2.bids,
                    self.asks == s2.asks,
                    self.symbol == s2.symbol,
                    self.stop_bids == s2.stop_bids,
                    n <= s2.stop_asks@.len(),
                    len0 == s2.stop_asks@.len(),
                    self.stop_asks@ == s2.stop_asks@.subrange(n as int, s2.stop_asks@.len() as int),
                    forall|k: int| 0 <= k < n ==> (#[trigger] s2.stop_asks@[k]).order.stop_price >= price,
                    self.pending_orders@ == s2.pending_orders@ + s2.stop_asks@.subrange(0, n as int),
                    self.callbacks@ == s2.callbacks@ + trigger_callbacks(s2.stop_asks@.subrange(0, n as int)),
                decreases self.stop_asks@.len(),
            {
                let ghost it = *self;
                let t = self.stop_asks.remove(0);
                self.callbacks.push(Callback::trigger_stop(t.order));
                self.pending_orders.push(t);
                n = n + 1;
                proof {
                    assert(self.stop_asks@ =~= s2.stop_asks@.subrange(n as int, s2.stop_asks@.len() as int));
                    assert(s2.stop_asks@.subrange(0, n as int) =~= s2.stop_asks@.subrange(0, n - 1).push(t));
                    assert(self.pending_orders@ =~= s2.pending_orders@ + s2.stop_asks@.subrange(0, n as int));
                    assert(trigger_callbacks(s2.stop_asks@.subrange(0, n as int)) =~= trigger_callbacks(s2.stop_asks@.subrange(0, n - 1)).push(
                        Callback { cb_type: CbType::OrderTriggerStop, order: Some(t.order), ..Callback::blank() }));
                    assert(self.callbacks@ =~= s2.callbacks@ + trigger_callbacks(s2.stop_asks@.subrange(0, n as int)));
                    assert forall|k: int| 0 <= k < self.stop_asks@.len() implies tracker_ok(#[trigger] self.stop_asks@[k], false) && self.stop_asks@[k].order.stop_price != 0 by {
                        assert(self.stop_asks@[k] == s2.stop_asks@[k + n]);
                    }
                    assert forall|a: int, b: int| 0 <= a < b < self.stop_asks@.len() implies price_before_eq(true, (#[trigger] self.stop_asks@[a]).order.stop_price, (#[trigger] self.stop_asks@[b]).order.stop_price) by {
                        assert(self.stop_asks@[a] == s2.stop_asks@[a + n]);
                        assert(self.stop_asks@[b] == s2.stop_asks@[b + n]);
                    }
                    assert forall|k: int| 0 <= k < self.pending_orders@.len() implies tracker_ok(#[trigger] self.pending_orders@[k], self.pending_orders@[k].order.is_buy) by {
                        if k < self.pending_orders@.len() - 1 {
                            assert(self.pending_orders@[k] == it.pending_orders@[k]);
                        }
                    }
                    assert forall|k: int| 0 <= k < self.callbacks@.len() && (#[trigger] self.callbacks@[k]).cb_type == CbType::OrderFill implies self.callbacks@[k].matched_order is Some
                        && self.callbacks@[k].price == self.callbacks@[k].matched_order->0.price by {
                        assert(self.callbacks@[k] == it.callbacks@[k]);
                    }
                }
            }
        }
        proof {
            let nb = s0.stop_bids@.len() - self.stop_bids@.len();
            let na = s0.stop_asks@.len() - self.stop_asks@.len();
            if nb == 0 {
                assert(s0.stop_bids@.subrange(0, 0) =~= Seq::<OrderTracker>::empty());
                assert(trigger_callbacks(s0.stop_bids@.subrange(0, 0)) =~= Seq::<Callback>::empty());
                assert(s0.stop_bids@.subrange(0, s0.stop_bids@.len() as int) =~= s0.stop_bids@);
            }
            if na == 0 {
                assert(s0.stop_asks@.subrange(0, 0) =~= Seq::<OrderTracker>::empty());
                assert(trigger_callbacks(s0.stop_asks@.subrange(0, 0)) =~= Seq::<Callback>::empty());
                assert(s0.stop_asks@.subrange(0, s0.stop_asks@.len() as int) =~= s0.stop_asks@);
            }
            assert(self.pending_orders@ =~= s0.pending_orders@ + s0.stop_bids@.subrange(0, nb) + s0.stop_asks@.subrange(0, na));
            assert(self.callbacks@ =~= s0.callbacks@ + trigger_callbacks(s0.stop_bids@.subrange(0, nb)) + trigger_callbacks(s0.stop_asks@.subrange(0, na)));
            if price == s0.market_price && (price != 0 || s0.stop_asks@.len() == 0) {
                assert(nb == 0);
                assert(na == 0);
                assert(self.pending_orders@ =~= s0.pending_orders@);
                assert(self.callbacks@ =~= s0.callbacks@);
                assert(self.stop_bids@ =~= s0.stop_bids@);
                assert(self.stop_asks@ =~= s0.stop_asks@);
            }
        }
    }
}

/// What submitting the inbound tracker `t` does to its own ladder (`own0`
/// to `own1`) and the opposite one (`opp0` to `opp1`): it fills `es`, best
/// price first, each against an order that rested opposite, and ends as
/// `t1`. The walk stops short (`intr`) only at the maker limit, at an order
/// of the same user, or for an all-or-none order that could not fill whole.
/// The rest is canceled (`canc`) when the walk stopped short or the order is
/// immediate-or-cancel; otherwise it rests behind every order at a price no
/// worse, and, unless it is all-or-none, no order it trades with is left
/// opposite but all-or-none ones.
pub open spec fn submit_effect(
    own0: Seq<OrderTracker>,
    opp0: Seq<OrderTracker>,
    own1: Seq<OrderTracker>,
    opp1: Seq<OrderTracker>,
    t: OrderTracker,
    es: Seq<Execution>,
    t1: OrderTracker,
    intr: bool,
    canc: bool,
) -> bool {
    let buy = t.order.is_buy;
    &&& execs_ok(es, buy, t.order.price, t.order.user_id)
    &&& execs_best_first(es, buy)
    &&& fills_from(es, opp0)
    &&& es.len() <= MAX_MAKERS
    &&& 0 <= exec_total(es) <= t.open_qty
    &&& t1 == (OrderTracker { open_qty: (t.open_qty - exec_total(es)) as u64, ..t })
    &&& canc == (intr || (t.spec_immediate_or_cancel() && t1.open_qty > 0))
    &&& intr ==> t1.open_qty > 0 && (es.len() == MAX_MAKERS || same_user_reached(opp0, t) || (t.spec_all_or_none()
        && es.len() == 0))
    &&& t.spec_all_or_none() ==> t1.open_qty == 0 || es.len() == 0
    &&& drawn_from(opp1, opp0)
    &&& es.len() == 0 ==> opp1 == opp0
    &&& !canc && t1.open_qty > 0 ==> placed_in_ladder(own0, own1, t1, buy)
    &&& !canc && t1.open_qty > 0 && !t.spec_all_or_none() ==> forall|k: int|
        0 <= k < opp1.len() && price_matches(buy, t.order.price, (#[trigger] opp1[k]).order.price) ==> opp1[k].spec_all_or_none()
    &&& canc || t1.open_qty == 0 ==> own1 == own0
}

/// The cancel callback of an inbound order whose rest is dropped.
pub open spec fn cancel_callback(order: BookOrder, open_qty: Quantity) -> Callback {
    Callback { cb_type: CbType::OrderCancel, order: Some(order), quantity: open_qty, ..Callback::blank() }
}

pub proof fn lemma_no_fill_single(c: Callback)
    requires
        c.cb_type != CbType::OrderFill,
    ensures
        last_fill_price(seq![c]) is None,
{
    assert(seq![c].drop_last() =~= Seq::<Callback>::empty());
    assert(seq![c].last() == c);
    assert(last_fill_price(Seq::<Callback>::empty()) is None);
}

impl OrderBook {
    /// The regular ladder of the `buy_side` side.
    pub open spec fn own_ladder(&self, buy_side: bool) -> Seq<OrderTracker> {
        if buy_side {
            self.bids@
        } else {
            self.asks@
        }
    }

    /// Matches the inbound tracker `t` against the opposite ladder and
    /// reports each fill. The rest is then canceled (reported with no open
    /// quantity) when the match stopped short or the order is
    /// immediate-or-cancel, and otherwise rests on the order's own side.
    /// Returns the fills, the inbound tracker after them, and whether the
    /// rest was canceled.
    fn submit(&mut self, t: OrderTracker) -> (r: (Vec<Execution>, OrderTracker, bool, bool))
        requires
            old(self).wf_busy(),
            tracker_ok(t, t.order.is_buy),
        ensures
            submit_effect(
                old(self).own_ladder(t.order.is_buy),
                old(self).own_ladder(!t.order.is_buy),
                final(self).own_ladder(t.order.is_buy),
                final(self).own_ladder(!t.order.is_buy),
                t,
                r.0@,
                r.1,
                r.3,
                r.2,
            ),
            final(self).wf_busy(),
            final(self).stop_bids == old(self).stop_bids,
            final(self).stop_asks == old(self).stop_asks,
            final(self).pending_orders == old(self).pending_orders,
            final(self).market_price == old(self).market_price,
            final(self).symbol == old(self).symbol,
            execs_ok(r.0@, t.order.is_buy, t.order.price, t.order.user_id),
            execs_best_first(r.0@, t.order.is_buy),
            0 <= exec_total(r.0@) <= t.open_qty,
            r.0@.len() <= MAX_MAKERS,
            r.1 == (OrderTracker { open_qty: (t.open_qty - exec_total(r.0@)) as u64, ..t }),
            final(self).callbacks@ == old(self).callbacks@ + fill_callbacks(t.order, r.0@) + (if r.2 {
                seq![cancel_callback(t.order, 0)]
            } else {
                Seq::<Callback>::empty()
            }),
            r.2 ==> r.1.open_qty > 0,
            t.spec_immediate_or_cancel() && r.1.open_qty > 0 ==> r.2,
            t.spec_all_or_none() ==> r.1.open_qty == 0 || r.0@.len() == 0,
            drawn_from(final(self).own_ladder(!t.order.is_buy), old(self).own_ladder(!t.order.is_buy)),
            r.0@.len() == 0 ==> final(self).own_ladder(!t.order.is_buy) == old(self).own_ladder(!t.order.is_buy),
            !r.2 && r.1.open_qty > 0 ==> placed_in_ladder(old(self).own_ladder(t.order.is_buy), final(self).own_ladder(t.order.is_buy), r.1, t.order.is_buy),
            r.2 || r.1.open_qty == 0 ==> final(self).own_ladder(t.order.is_buy) == old(self).own_ladder(t.order.is_buy),
    {
        let buy = t.order.is_buy;
        let mut inbound = t;
        let ghost b0 = self.bids@;
        let ghost a0 = self.asks@;
        let (execs, interrupted) = if buy {
            match_inbound(&mut self.asks, &mut inbound)
        } else {
            match_inbound(&mut self.bids, &mut inbound)
        };
        proof {
            if buy {
                lemma_drawn_from_refl(b0);
                lemma_uncrossed_drawn(b0, a0, self.bids@, self.asks@);
            } else {
                lemma_drawn_from_refl(a0);
                lemma_uncrossed_drawn(b0, a0, self.bids@, self.asks@);
            }
        }
        let ghost s1 = *self;
        let mut i: usize = 0;
        while i < execs.len()
            invariant
                i <= execs@.len(),
                self.bids == s1.bids,
                self.asks == s1.asks,
                self.stop_bids == s1.stop_bids,
                self.stop_asks == s1.stop_asks,
                self.pending_orders == s1.pending_orders,
                self.market_price == s1.market_price,
                self.symbol == s1.symbol,
                inbound.order == t.order,
                fills_at_maker_price(self.callbacks@),
                self.callbacks@ == s1.callbacks@ + fill_callbacks(t.order, execs@.subrange(0, i as int)),
            decreases execs@.len() - i,
        {
            let e = execs[i];
            let ghost c0 = self.callbacks@;
            self.callbacks.push(
                Callback::fill(inbound.order, e.matched_order, e.qty, e.matched_order.price, FillFlags::of(e.inbound_filled, e.matched_filled)),
            );
            i = i + 1;
            proof {
                assert(execs@.subrange(0, i as int) =~= execs@.subrange(0, i - 1).push(e));
                assert(fill_callbacks(t.order, execs@.subrange(0, i as int)) =~= fill_callbacks(t.order, execs@.subrange(0, i - 1)).push(
                    fill_callback(t.order, e)));
                assert(self.callbacks@ =~= s1.callbacks@ + fill_callbacks(t.order, execs@.subrange(0, i as int)));
                assert forall|k: int| 0 <= k < self.callbacks@.len() && (#[trigger] self.callbacks@[k]).cb_type == CbType::OrderFill implies self.callbacks@[k].matched_order is Some
                    && self.callbacks@[k].price == self.callbacks@[k].matched_order->0.price by {
                    if k < c0.len() {
                        assert(self.callbacks@[k] == c0[k]);
                    }
                }
            }
        }
        proof {
            assert(execs@.subrange(0, execs@.len() as int) =~= execs@);
        }
        let canceled = interrupted || (inbound.immediate_or_cancel() && inbound.open_qty > 0);
        if canceled {
            let ghost c0 = self.callbacks@;
            self.callbacks.push(Callback::cancel(inbound.order, 0));
            proof {
                assert forall|k: int| 0 <= k < self.callbacks@.len() && (#[trigger] self.callbacks@[k]).cb_type == CbType::OrderFill implies self.callbacks@[k].matched_order is Some
                    && self.callbacks@[k].price == self.callbacks@[k].matched_order->0.price by {
                    if k < c0.len() {
                        assert(self.callbacks@[k] == c0[k]);
                    }
                }
            }
        } else if inbound.open_qty > 0 {
            let ghost bb = self.bids@;
            let ghost aa = self.asks@;
            if buy {
                insert_by_price(&mut self.bids, inbound, true);
                proof {
                    let j = choose|j: int| 0 <= j <= bb.len() && self.bids@ == bb.insert(j, inbound) && (forall|k: int|
                        0 <= k < j ==> price_before_eq(true, (#[trigger] bb[k]).order.price, inbound.order.price)) && (forall|k: int|
                        j <= k < bb.len() ==> !price_before_eq(true, (#[trigger] bb[k]).order.price, inbound.order.price));
                    lemma_uncrossed_insert_bid(bb, aa, j, inbound);
                }
            } else {
                insert_by_price(&mut self.asks, inbound, false);
                proof {
                    let j = choose|j: int| 0 <= j <= aa.len() && self.asks@ == aa.insert(j, inbound) && (forall|k: int|
                        0 <= k < j ==> price_before_eq(false, (#[trigger] aa[k]).order.price, inbound.order.price)) && (forall|k: int|
                        j <= k < aa.len() ==> !price_before_eq(false, (#[trigger] aa[k]).order.price, inbound.order.price));
                    lemma_uncrossed_insert_ask(bb, aa, j, inbound);
                }
            }
        }
        proof {
            if !canceled {
                assert(self.callbacks@ =~= s1.callbacks@ + fill_callbacks(t.order, execs@) + Seq::<Callback>::empty());
            }
        }
        proof {
            if buy {
                assert(old(self).own_ladder(!buy) == a0);
            } else {
                assert(old(self).own_ladder(!buy) == b0);
            }
        }
        (execs, inbound, canceled, interrupted)
    }
}

/// Callbacks that follow the handling of an inbound order: fills, cancels
/// and stop triggers only.
pub open spec fn cascade_kinds(s: Seq<Callback>) -> bool {
    forall|k: int|
        0 <= k < s.len() ==> (#[trigger] s[k]).cb_type == CbType::OrderFill || s[k].cb_type == CbType::OrderCancel
            || s[k].cb_type == CbType::OrderTriggerStop
}

pub proof fn lemma_cascade_concat(a: Seq<Callback>, b: Seq<Callback>)
    requires
        cascade_kinds(a),
        cascade_kinds(b),
    ensures
        cascade_kinds(a + b),
{
    assert forall|k: int| 0 <= k < (a + b).len() implies (#[trigger] (a + b)[k]).cb_type == CbType::OrderFill || (a + b)[k].cb_type
        == CbType::OrderCancel || (a + b)[k].cb_type == CbType::OrderTriggerStop by {
        if k >= a.len() {
            assert((a + b)[k] == b[k - a.len()]);
        }
    }
}

pub proof fn lemma_fills_cascade(order: BookOrder, es: Seq<Execution>, canceled: bool)
    ensures
        cascade_kinds(fill_callbacks(order, es) + cancel_tail(order, canceled)),
{
    assert(cascade_kinds(fill_callbacks(order, es)));
    lemma_cascade_concat(fill_callbacks(order, es), cancel_tail(order, canceled));
}

/// The cancel reported after the fills when the rest is dropped.
pub open spec fn cancel_tail(order: BookOrder, canceled: bool) -> Seq<Callback> {
    if canceled {
        seq![cancel_callback(order, 0)]
    } else {
        Seq::<Callback>::empty()
    }
}

pub open spec fn book_update_cb() -> Callback {
    Callback { cb_type: CbType::BookUpdate, ..Callback::blank() }
}

/// What follows the callbacks `c0` in `c1`.
pub open spec fn new_callbacks(c0: Seq<Callback>, c1: Seq<Callback>) -> Seq<Callback> {
    c1.subrange(c0.len() as int, c1.len() as int)
}

/// `c1` is `c0` with more callbacks after it.
pub open spec fn extends(c0: Seq<Callback>, c1: Seq<Callback>) -> bool {
    c0.len() <= c1.len() && c1.subrange(0, c0.len() as int) == c0
}

pub proof fn lemma_new_callbacks_append(c0: Seq<Callback>, t: Seq<Callback>)
    ensures
        extends(c0, c0 + t),
        new_callbacks(c0, c0 + t) == t,
{
    assert((c0 + t).subrange(0, c0.len() as int) =~= c0);
    assert(new_callbacks(c0, c0 + t) =~= t);
}

pub proof fn lemma_new_callbacks_chain(c0: Seq<Callback>, c1: Seq<Callback>, c2: Seq<Callback>)
    requires
        extends(c0, c1),
        extends(c1, c2),
    ensures
        extends(c0, c2),
        new_callbacks(c0, c2) == new_callbacks(c0, c1) + new_callbacks(c1, c2),
{
    assert(c2.subrange(0, c0.len() as int) =~= c2.subrange(0, c1.len() as int).subrange(0, c0.len() as int));
    assert(new_callbacks(c0, c2) =~= new_callbacks(c0, c1) + new_callbacks(c1, c2));
}

/// `a` is what is left of `b` after some of its first trackers left.
pub open spec fn suffix_of(a: Seq<OrderTracker>, b: Seq<OrderTracker>) -> bool {
    a.len() <= b.len() && a == b.subrange(b.len() - a.len(), b.len() as int)
}

pub proof fn lemma_suffix_trans(a: Seq<OrderTracker>, b: Seq<OrderTracker>, c: Seq<OrderTracker>)
    requires
        suffix_of(a, b),
        suffix_of(b, c),
    ensures
        suffix_of(a, c),
{
    assert(a =~= c.subrange(c.len() - a.len(), c.len() as int));
}

pub proof fn lemma_suffix_refl(a: Seq<OrderTracker>)
    ensures
        suffix_of(a, a),
{
    assert(a =~= a.subrange(0, a.len() as int));
}

impl OrderBook {
    /// Moves the market price to the price of each fill of `es`, in turn,
    /// triggering stop orders as it goes.
    #[verifier::spinoff_prover]
    #[verifier::rlimit(100)]
    fn apply_prices(&mut self, es: &Vec<Execution>)
        requires
            old(self).wf_busy(),
        ensures
            final(self).wf_busy(),
            final(self).bids == old(self).bids,
            final(self).asks == old(self).asks,
            final(self).symbol == old(self).symbol,
            final(self).stop_count() == old(self).stop_count(),
            suffix_of(final(self).stop_bids@, old(self).stop_bids@),
            suffix_of(final(self).stop_asks@, old(self).stop_asks@),
            extends(old(self).callbacks@, final(self).callbacks@),
            last_fill_price(new_callbacks(old(self).callbacks@, final(self).callbacks@)) is None,
            forall|k: int| 0 <= k < new_callbacks(old(self).callbacks@, final(self).callbacks@).len() ==> (#[trigger] new_callbacks(old(self).callbacks@, final(self).callbacks@)[k]).cb_type == CbType::OrderTriggerStop,
            final(self).callbacks@.len() - old(self).callbacks@.len() == final(self).pending_orders@.len() - old(self).pending_orders@.len(),
            cascade_ok(new_callbacks(old(self).callbacks@, final(self).callbacks@), orders_of(old(self).stop_bids@ + old(self).stop_asks@), Set::empty()),
            orders_of(final(self).stop_bids@ + final(self).stop_asks@ + final(self).pending_orders@).subset_of(
                orders_of(old(self).stop_bids@ + old(self).stop_asks@ + old(self).pending_orders@),
            ),
            es@.len() > 0 ==> final(self).market_price == es@.last().matched_order.price,
            es@.len() == 0 ==> *final(self) == *old(self),
    {
        let ghost c0 = self.callbacks@;
        let mut i: usize = 0;
        proof {
            lemma_new_callbacks_append(c0, Seq::empty());
            assert(c0 + Seq::<Callback>::empty() =~= c0);
            assert(new_callbacks(c0, c0) =~= Seq::<Callback>::empty());
            lemma_suffix_refl(self.stop_bids@);
            lemma_suffix_refl(self.stop_asks@);
        }
        while i < es.len()
            invariant
                i <= es@.len(),
                self.wf_busy(),
                self.bids == old(self).bids,
                self.asks == old(self).asks,
                self.symbol == old(self).symbol,
                self.stop_count() == old(self).stop_count(),
                suffix_of(self.stop_bids@, old(self).stop_bids@),
                suffix_of(self.stop_asks@, old(self).stop_asks@),
                c0 == old(self).callbacks@,
                extends(c0, self.callbacks@),
                last_fill_price(new_callbacks(c0, self.callbacks@)) is None,
                forall|k: int| 0 <= k < new_callbacks(c0, self.callbacks@).len() ==> (#[trigger] new_callbacks(c0, self.callbacks@)[k]).cb_type == CbType::OrderTriggerStop,
                self.callbacks@.len() - c0.len() == self.pending_orders@.len() - old(self).pending_orders@.len(),
                cascade_ok(new_callbacks(c0, self.callbacks@), orders_of(old(self).stop_bids@ + old(self).stop_asks@), Set::empty()),
                orders_of(self.stop_bids@ + self.stop_asks@ + self.pending_orders@).subset_of(
                    orders_of(old(self).stop_bids@ + old(self).stop_asks@ + old(self).pending_orders@),
                ),
                i > 0 ==> self.market_price == es@[i - 1].matched_order.price,
                i == 0 ==> *self == *old(self),
            decreases es@.len() - i,
        {
            let ghost c1 = self.callbacks@;
            let ghost s1 = *self;
            self.update_market_price(es[i].matched_order.price);
            proof {
                let nb = s1.stop_bids@.len() - self.stop_bids@.len();
                let na = s1.stop_asks@.len() - self.stop_asks@.len();
                let tb = trigger_callbacks(s1.stop_bids@.subrange(0, nb));
                let ta = trigger_callbacks(s1.stop_asks@.subrange(0, na));
                lemma_suffix_trans(self.stop_bids@, s1.stop_bids@, old(self).stop_bids@);
                lemma_suffix_trans(self.stop_asks@, s1.stop_asks@, old(self).stop_asks@);
                assert(self.callbacks@ == c1 + (tb + ta)) by {
                    assert(c1 + tb + ta =~= c1 + (tb + ta));
                }
                lemma_new_callbacks_append(c1, tb + ta);
                lemma_new_callbacks_chain(c0, c1, self.callbacks@);
                lemma_last_fill_of_triggers(s1.stop_bids@.subrange(0, nb));
                lemma_last_fill_of_triggers(s1.stop_asks@.subrange(0, na));
                lemma_last_fill_concat(tb, ta);
                lemma_last_fill_concat(new_callbacks(c0, c1), tb + ta);
                let nw = new_callbacks(c0, self.callbacks@);
                assert forall|k: int| 0 <= k < nw.len() implies (#[trigger] nw[k]).cb_type == CbType::OrderTriggerStop by {
                    let n1 = new_callbacks(c0, c1);
                    if k >= n1.len() {
                        let k2 = k - n1.len();
                        if k2 < tb.len() {
                            assert(nw[k] == tb[k2]);
                        } else {
                            assert(nw[k] == ta[k2 - tb.len()]);
                        }
                    } else {
                        assert(nw[k] == n1[k]);
                    }
                }
                let sb = s1.stop_bids@;
                let sa = s1.stop_asks@;
                let ob = old(self).stop_bids@;
                let oa = old(self).stop_asks@;
                lemma_orders_concat(ob, oa);
                lemma_orders_concat(sb, sa);
                lemma_orders_suffix(sb, ob);
                lemma_orders_suffix(sa, oa);
                lemma_orders_subrange(sb, 0, nb);
                lemma_orders_subrange(sa, 0, na);
                lemma_orders_subrange(sb, nb, sb.len() as int);
                lemma_orders_subrange(sa, na, sa.len() as int);
                assert forall|k: int| 0 <= k < nw.len() implies {
                    &&& (#[trigger] nw[k]).order is Some
                    &&& orders_of(ob + oa).contains(nw[k].order->0)
                    &&& nw[k].cb_type == CbType::OrderFill ==> nw[k].matched_order is Some && Set::<BookOrder>::empty().contains(nw[k].matched_order->0)
                } by {
                    let n1 = new_callbacks(c0, c1);
                    if k >= n1.len() {
                        let k2 = k - n1.len();
                        if k2 < tb.len() {
                            assert(nw[k] == tb[k2]);
                            assert(sb.subrange(0, nb)[k2] == sb[k2]);
                            assert(order_rested_in(sb[k2].order, sb));
                        } else {
                            let k3 = k2 - tb.len();
                            assert(nw[k] == ta[k3]);
                            assert(order_rested_in(sa[k3].order, sa));
                        }
                    } else {
                        assert(nw[k] == n1[k]);
                    }
                }
                let p1 = s1.pending_orders@;
                lemma_orders_concat(self.stop_bids@, self.stop_asks@);
                lemma_orders_concat(self.stop_bids@ + self.stop_asks@, self.pending_orders@);
                lemma_orders_concat(sb + sa, p1);
                lemma_orders_concat(p1, sb.subrange(0, nb));
                lemma_orders_concat(p1 + sb.subrange(0, nb), sa.subrange(0, na));
                assert(self.stop_bids@ == sb.subrange(nb, sb.len() as int));
                assert(self.stop_asks@ == sa.subrange(na, sa.len() as int));
            }
            i = i + 1;
        }
    }

    /// Submits the triggered stop orders, oldest first, until none is left;
    /// their fills may trigger more.
    #[verifier::spinoff_prover]
    #[verifier::rlimit(100)]
    fn drain_pending(&mut self)
        requires
            old(self).wf_busy(),
        ensures
            final(self).wf(),
            final(self).symbol == old(self).symbol,
            extends(old(self).callbacks@, final(self).callbacks@),
            follows_fills(old(self).market_price, new_callbacks(old(self).callbacks@, final(self).callbacks@), final(self).market_price),
            old(self).pending_orders@.len() == 0 ==> *final(self) == *old(self),
            suffix_of(final(self).stop_bids@, old(self).stop_bids@),
            suffix_of(final(self).stop_asks@, old(self).stop_asks@),
            cascade_kinds(new_callbacks(old(self).callbacks@, final(self).callbacks@)),
            last_fill_price(new_callbacks(old(self).callbacks@, final(self).callbacks@)) is None ==> final(self).stop_bids@
                == old(self).stop_bids@ && final(self).stop_asks@ == old(self).stop_asks@,
            cascade_ok(new_callbacks(old(self).callbacks@, final(self).callbacks@), stop_orders(*old(self)), order_pool(*old(self))),
            orders_of(final(self).bids@ + final(self).asks@).subset_of(order_pool(*old(self))),
    {
        let ghost c0 = self.callbacks@;
        let ghost m0 = self.market_price;
        proof {
            lemma_new_callbacks_append(c0, Seq::empty());
            assert(c0 + Seq::<Callback>::empty() =~= c0);
            lemma_suffix_refl(self.stop_bids@);
            lemma_suffix_refl(self.stop_asks@);
            assert(new_callbacks(c0, c0) =~= Seq::<Callback>::empty());
        }
        while self.pending_orders.len() > 0
            invariant
                self.wf_busy(),
                self.symbol == old(self).symbol,
                c0 == old(self).callbacks@,
                m0 == old(self).market_price,
                extends(c0, self.callbacks@),
                follows_fills(m0, new_callbacks(c0, self.callbacks@), self.market_price),
                stop_orders(*self).subset_of(stop_orders(*old(self))),
                orders_of(self.bids@ + self.asks@).subset_of(order_pool(*old(self))),
                cascade_ok(new_callbacks(c0, self.callbacks@), stop_orders(*old(self)), order_pool(*old(self))),
                old(self).pending_orders@.len() == 0 ==> *self == *old(self),
                suffix_of(self.stop_bids@, old(self).stop_bids@),
                suffix_of(self.stop_asks@, old(self).stop_asks@),
                cascade_kinds(new_callbacks(c0, self.callbacks@)),
                last_fill_price(new_callbacks(c0, self.callbacks@)) is None ==> self.stop_bids@ == old(self).stop_bids@
                    && self.stop_asks@ == old(self).stop_asks@,
            decreases self.stop_count(),
        {
            let ghost p0 = self.pending_orders@;
            let ghost bi = *self;
            let t = self.pending_orders.remove(0);
            proof {
                assert(t == p0[0]);
                assert forall|k: int| 0 <= k < self.pending_orders@.len() implies tracker_ok(#[trigger] self.pending_orders@[k], self.pending_orders@[k].order.is_buy) by {
                    assert(self.pending_orders@[k] == p0[k + 1]);
                }
            }
            let ghost c1 = self.callbacks@;
            let ghost m1 = self.market_price;
            let ghost br = *self;
            let (execs, t1, canceled, intr) = self.submit(t);
            let ghost c2 = self.callbacks@;
            let ghost s3 = *self;
            self.apply_prices(&execs);
            proof {
                lemma_suffix_trans(self.stop_bids@, s3.stop_bids@, old(self).stop_bids@);
                lemma_suffix_trans(self.stop_asks@, s3.stop_asks@, old(self).stop_asks@);
                let f = fill_callbacks(t.order, execs@);
                let tail = if canceled {
                    seq![cancel_callback(t.order, 0)]
                } else {
                    Seq::<Callback>::empty()
                };
                assert(c2 == c1 + (f + tail)) by {
                    assert(c1 + f + tail =~= c1 + (f + tail));
                }
                lemma_new_callbacks_append(c1, f + tail);
                lemma_new_callbacks_chain(c1, c2, self.callbacks@);
                lemma_new_callbacks_chain(c0, c1, self.callbacks@);
                lemma_last_fill_of_fills(t.order, execs@);
                if canceled {
                    lemma_no_fill_single(cancel_callback(t.order, 0));
                } else {
                    assert(last_fill_price(tail) is None);
                }
                lemma_last_fill_concat(f, tail);
                lemma_last_fill_concat(f + tail, new_callbacks(c2, self.callbacks@));
                lemma_last_fill_concat(new_callbacks(c0, c1), new_callbacks(c1, self.callbacks@));
                lemma_fills_cascade(t.order, execs@, canceled);
                assert(tail == cancel_tail(t.order, canceled));
                let ap = new_callbacks(c2, self.callbacks@);
                assert(cascade_kinds(ap)) by {
                    assert forall|k: int| 0 <= k < ap.len() implies (#[trigger] ap[k]).cb_type == CbType::OrderFill || ap[k].cb_type
                        == CbType::OrderCancel || ap[k].cb_type == CbType::OrderTriggerStop by {
                        assert(ap[k].cb_type == CbType::OrderTriggerStop);
                    }
                }
                lemma_cascade_concat(f + tail, ap);
                lemma_cascade_concat(new_callbacks(c0, c1), new_callbacks(c1, self.callbacks@));
                if execs@.len() == 0 {
                    assert(*self == s3);
                }
                let so = stop_orders(*old(self));
                let po = order_pool(*old(self));
                lemma_orders_concat(bi.stop_bids@ + bi.stop_asks@, p0);
                lemma_orders_concat(br.stop_bids@ + br.stop_asks@, br.pending_orders@);
                lemma_orders_subrange(p0, 1, p0.len() as int);
                assert(br.pending_orders@ =~= p0.subrange(1, p0.len() as int));
                assert(order_rested_in(t.order, p0)) by {
                    assert(p0[0].order == t.order);
                }
                assert(so.contains(t.order));
                assert(stop_orders(br).subset_of(so));
                lemma_submit_orders(br.own_ladder(t.order.is_buy), br.own_ladder(!t.order.is_buy), s3.own_ladder(t.order.is_buy),
                    s3.own_ladder(!t.order.is_buy), t, execs@, t1, intr, canceled);
                lemma_orders_concat(br.bids@, br.asks@);
                lemma_orders_concat(s3.bids@, s3.asks@);
                lemma_orders_concat(bi.bids@, bi.asks@);
                assert(br.bids == bi.bids && br.asks == bi.asks);
                assert(orders_of(s3.bids@ + s3.asks@).subset_of(po));
                assert(orders_of(br.own_ladder(!t.order.is_buy)).subset_of(po));
                lemma_cascade_ok_widen(f + tail, set![t.order], orders_of(br.own_ladder(!t.order.is_buy)), so, po);
                lemma_orders_concat(s3.stop_bids@ + s3.stop_asks@, s3.pending_orders@);
                assert(s3.stop_bids == br.stop_bids && s3.stop_asks == br.stop_asks && s3.pending_orders == br.pending_orders);
                lemma_cascade_ok_widen(ap, orders_of(s3.stop_bids@ + s3.stop_asks@), Set::empty(), so, po);
                lemma_cascade_ok_concat(f + tail, ap, so, po);
                assert(new_callbacks(c1, self.callbacks@) == (f + tail) + ap);
                lemma_cascade_ok_concat(new_callbacks(c0, c1), new_callbacks(c1, self.callbacks@), so, po);
                assert(self.bids == s3.bids && self.asks == s3.asks);
            }
        }
    }
}

/// Whether a stop order may wait in a stop ladder at market price `market`:
/// when the market price is undefined or has not yet reached its stop price.
pub open spec fn stop_admits(market: Price, order: BookOrder) -> bool {
    if order.is_buy {
        market == 0 || market < order.stop_price
    } else {
        market == 0 || market > order.stop_price
    }
}

/// The first tracker of `ladder` of the order with id `id`.
fn find_index(ladder: &Vec<OrderTracker>, id: u64) -> (r: Option<usize>)
    ensures
        r is None ==> forall|k: int| 0 <= k < ladder@.len() ==> (#[trigger] ladder@[k]).order.order_id != id,
        r is Some ==> r->0 < ladder@.len() && ladder@[r->0 as int].order.order_id == id && forall|k: int|
            0 <= k < r->0 ==> (#[trigger] ladder@[k]).order.order_id != id,
{
    let mut i: usize = 0;
    while i < ladder.len()
        invariant
            i <= ladder@.len(),
            forall|k: int| 0 <= k < i ==> (#[trigger] ladder@[k]).order.order_id != id,
        decreases ladder@.len() - i,
    {
        if ladder[i].order.order_id == id {
            return Some(i);
        }
        i = i + 1;
    }
    None
}

pub proof fn lemma_remove_drawn(t: Seq<OrderTracker>, i: int)
    requires
        0 <= i < t.len(),
    ensures
        drawn_from(t.remove(i), t),
{
    let r = t.remove(i);
    assert forall|k: int| 0 <= k < r.len() implies in_ladder(#[trigger] r[k], t) by {
        if k < i {
            assert(same_order(r[k], t[k]));
        } else {
            assert(same_order(r[k], t[k + 1]));
        }
    }
}

pub proof fn lemma_ladder_remove(t: Seq<OrderTracker>, i: int, buy_side: bool)
    requires
        ladder_wf(t, buy_side),
        0 <= i < t.len(),
    ensures
        ladder_wf(t.remove(i), buy_side),
{
    let r = t.remove(i);
    assert forall|a: int, b: int| 0 <= a < b < r.len() implies price_before_eq(buy_side, (#[trigger] r[a]).order.price, (#[trigger] r[b]).order.price) by {
        let a0 = if a < i { a } else { a + 1 };
        let b0 = if b < i { b } else { b + 1 };
        assert(r[a] == t[a0] && r[b] == t[b0]);
    }
    assert forall|k: int| 0 <= k < r.len() implies tracker_ok(#[trigger] r[k], buy_side) by {
        if k >= i {
            assert(r[k] == t[k + 1]);
        }
    }
}

pub proof fn lemma_stop_ladder_remove(t: Seq<OrderTracker>, i: int, buy_side: bool)
    requires
        stop_ladder_wf(t, buy_side),
        0 <= i < t.len(),
    ensures
        stop_ladder_wf(t.remove(i), buy_side),
{
    let r = t.remove(i);
    assert forall|a: int, b: int| 0 <= a < b < r.len() implies price_before_eq(!buy_side, (#[trigger] r[a]).order.stop_price, (#[trigger] r[b]).order.stop_price) by {
        let a0 = if a < i { a } else { a + 1 };
        let b0 = if b < i { b } else { b + 1 };
        assert(r[a] == t[a0] && r[b] == t[b0]);
    }
    assert forall|k: int| 0 <= k < r.len() implies tracker_ok(#[trigger] r[k], buy_side) && r[k].order.stop_price != 0 by {
        if k >= i {
            assert(r[k] == t[k + 1]);
        }
    }
}

impl OrderBook {
    /// Puts the stop order `t` into its stop ladder when the market price
    /// admits it; says whether it did.
    fn add_stop_order(&mut self, t: OrderTracker) -> (r: bool)
        requires
            old(self).wf(),
            tracker_ok(t, t.order.is_buy),
            t.order.stop_price != 0,
        ensures
            final(self).wf(),
            r == stop_admits(old(self).market_price, t.order),
            !r ==> *final(self) == *old(self),
            final(self).bids == old(self).bids,
            final(self).asks == old(self).asks,
            final(self).callbacks == old(self).callbacks,
            final(self).market_price == old(self).market_price,
            final(self).symbol == old(self).symbol,
            r && t.order.is_buy ==> stop_placed(old(self).stop_bids@, final(self).stop_bids@, t, true),
            r && !t.order.is_buy ==> stop_placed(old(self).stop_asks@, final(self).stop_asks@, t, false),
            r && t.order.is_buy ==> final(self).stop_asks == old(self).stop_asks,
            r && !t.order.is_buy ==> final(self).stop_bids == old(self).stop_bids,
    {
        let stop = t.order.stop_price;
        let market = self.market_price;
        if t.order.is_buy {
            if market == MARKET_ORDER_PRICE || market < stop {
                insert_by_stop(&mut self.stop_bids, t, true);
                return true;
            }
        } else {
            if market == MARKET_ORDER_PRICE || market > stop {
                insert_by_stop(&mut self.stop_asks, t, false);
                return true;
            }
        }
        false
    }

    /// Adds an order to the book under `conditions` (joined with the
    /// order's own flags) and reports its effects as callbacks: a reject for
    /// a zero quantity; else an accept (of a stop order, when its stop waits)
    /// or an accept whose quantity is what the order filled, its fills, a
    /// cancel of an unfilled immediate-or-cancel rest or of a match that
    /// stopped short, the effects of stop orders that its fills triggered,
    /// and a book update. Returns whether the order filled at all.
    pub fn add(&mut self, order: BookOrder, conditions: OrderConditions) -> (r: bool)
        requires
            old(self).wf(),
        ensures
            final(self).wf(),
            final(self).symbol == old(self).symbol,
            extends(old(self).callbacks@, final(self).callbacks@),
            follows_fills(old(self).market_price, new_callbacks(old(self).callbacks@, final(self).callbacks@), final(self).market_price),
            order.order_qty == 0 ==> !r && final(self).callbacks@ == old(self).callbacks@.push(
                Callback { cb_type: CbType::OrderReject, order: Some(order), reject_reason: Some(RejectReason::SizeNotPositive), ..Callback::blank() },
            ) && final(self).bids == old(self).bids && final(self).asks == old(self).asks && final(self).stop_bids
                == old(self).stop_bids && final(self).stop_asks == old(self).stop_asks && final(self).market_price
                == old(self).market_price,
            order.order_qty > 0 && order.stop_price != 0 && stop_admits(old(self).market_price, order) ==> {
                &&& !r
                &&& new_callbacks(old(self).callbacks@, final(self).callbacks@) == seq![
                    Callback { cb_type: CbType::OrderAcceptStop, order: Some(order), ..Callback::blank() },
                    book_update_cb(),
                ]
                &&& final(self).bids == old(self).bids
                &&& final(self).asks == old(self).asks
                &&& final(self).market_price == old(self).market_price
                &&& stop_placed(stop_ladder_of(*old(self), order.is_buy), stop_ladder_of(*final(self), order.is_buy), inbound_of(order, conditions), order.is_buy)
                &&& stop_ladder_of(*final(self), !order.is_buy) == stop_ladder_of(*old(self), !order.is_buy)
            },
            order.order_qty > 0 && !(order.stop_price != 0 && stop_admits(old(self).market_price, order)) ==> exists|
                es: Seq<Execution>,
                t1: OrderTracker,
                intr: bool,
                canc: bool,
                own1: Seq<OrderTracker>,
                opp1: Seq<OrderTracker>,
                cas: Seq<Callback>,
            |
                #[trigger] request_outcome(*old(self), *final(self), new_callbacks(old(self).callbacks@, final(self).callbacks@),
                    accept_cb(order, exec_total(es)), old(self).own_ladder(order.is_buy), inbound_of(order, conditions), es, t1, intr, canc,
                    own1, opp1, cas) && r == (es.len() > 0),
    {
        if order.order_qty() == 0 {
            self.callbacks.push(Callback::reject(order, RejectReason::SizeNotPositive));
            proof {
                lemma_new_callbacks_append(old(self).callbacks@, seq![self.callbacks@.last()]);
                assert(self.callbacks@ =~= old(self).callbacks@ + seq![self.callbacks@.last()]);
                lemma_no_fill_single(self.callbacks@.last());
                assert forall|k: int| 0 <= k < self.callbacks@.len() && (#[trigger] self.callbacks@[k]).cb_type == CbType::OrderFill implies self.callbacks@[k].matched_order is Some
                    && self.callbacks@[k].price == self.callbacks@[k].matched_order->0.price by {
                    assert(self.callbacks@[k] == old(self).callbacks@[k]);
                }
            }
            return false;
        }
        let ghost c0 = self.callbacks@;
        let ghost m0 = self.market_price;
        let inbound = OrderTracker::new(order, conditions);
        let is_stop = order.stop_price() != 0 && self.add_stop_order(inbound);
        if !is_stop {
            proof {
                assert(inbound == inbound_of(order, conditions));
            }
            return self.accept_and_match(order, inbound);
        }
        self.callbacks.push(Callback::accept_stop(order));
        proof {
            lemma_new_callbacks_append(c0, seq![self.callbacks@.last()]);
            assert(self.callbacks@ =~= c0 + seq![self.callbacks@.last()]);
            lemma_no_fill_single(self.callbacks@.last());
            assert forall|k: int| 0 <= k < self.callbacks@.len() && (#[trigger] self.callbacks@[k]).cb_type == CbType::OrderFill implies self.callbacks@[k].matched_order is Some
                && self.callbacks@[k].price == self.callbacks@[k].matched_order->0.price by {
                assert(self.callbacks@[k] == c0[k]);
            }
        }
        let ghost c4 = self.callbacks@;
        self.drain_pending();
        let ghost c5 = self.callbacks@;
        self.callbacks.push(Callback::book_update());
        proof {
            let bu = Callback { cb_type: CbType::BookUpdate, ..Callback::blank() };
            lemma_new_callbacks_append(c5, seq![bu]);
            assert(self.callbacks@ =~= c5 + seq![bu]);
            lemma_new_callbacks_chain(c0, c4, c5);
            lemma_new_callbacks_chain(c0, c5, self.callbacks@);
            lemma_no_fill_single(bu);
            lemma_last_fill_concat(new_callbacks(c0, c5), seq![bu]);
            assert forall|k: int| 0 <= k < self.callbacks@.len() && (#[trigger] self.callbacks@[k]).cb_type == CbType::OrderFill implies self.callbacks@[k].matched_order is Some
                && self.callbacks@[k].price == self.callbacks@[k].matched_order->0.price by {
                assert(self.callbacks@[k] == c5[k]);
            }
        }
        false
    }

    /// Accepts the inbound tracker of `order` and matches it: the accept,
    /// patched with what filled, its fills, a cancel of a rest that is
    /// dropped, the stop orders triggered and submitted, a book update.
    #[verifier::spinoff_prover]
    #[verifier::rlimit(100)]
    fn accept_and_match(&mut self, order: BookOrder, inbound: OrderTracker) -> (r: bool)
        requires
            old(self).wf(),
            tracker_ok(inbound, order.is_buy),
            inbound.order == order,
            inbound.open_qty == order.order_qty,
        ensures
            final(self).wf(),
            final(self).symbol == old(self).symbol,
            extends(old(self).callbacks@, final(self).callbacks@),
            follows_fills(old(self).market_price, new_callbacks(old(self).callbacks@, final(self).callbacks@), final(self).market_price),
            exists|es: Seq<Execution>, t1: OrderTracker, intr: bool, canc: bool, own1: Seq<OrderTracker>, opp1: Seq<OrderTracker>, cas: Seq<Callback>|
                #[trigger] request_outcome(*old(self), *final(self), new_callbacks(old(self).callbacks@, final(self).callbacks@),
                    accept_cb(order, exec_total(es)), old(self).own_ladder(order.is_buy), inbound, es, t1, intr, canc, own1, opp1, cas)
                    && r == (es.len() > 0),
    {
        let ghost c0 = self.callbacks@;
        let ghost s0 = *self;
        let accept_cb_index = self.callbacks.len();
        self.callbacks.push(Callback::accept(order));
        proof {
            assert forall|k: int| 0 <= k < self.callbacks@.len() && (#[trigger] self.callbacks@[k]).cb_type == CbType::OrderFill implies self.callbacks@[k].matched_order is Some
                && self.callbacks@[k].price == self.callbacks@[k].matched_order->0.price by {
                assert(self.callbacks@[k] == c0[k]);
            }
        }
        let ghost c1 = self.callbacks@;
        let ghost b1 = *self;
        let (matched, filled) = self.submit_and_settle(inbound);
        let ghost c2 = self.callbacks@;
        let ghost b2 = *self;
        let mut cb = self.callbacks[accept_cb_index];
        cb.quantity = filled;
        self.callbacks.set(accept_cb_index, cb);
        proof {
            let m = new_callbacks(c1, c2);
            let (es, t1, intr, canc, own1, opp1, cas) = choose|es: Seq<Execution>, t1: OrderTracker, intr: bool, canc: bool, own1: Seq<OrderTracker>, opp1: Seq<OrderTracker>, cas: Seq<Callback>|
                #[trigger] request_tail(b1, b2, m, b1.own_ladder(inbound.order.is_buy), inbound, es, t1, intr, canc, own1, opp1, cas)
                    && matched == (es.len() > 0) && filled == exec_total(es);
            assert(c1 =~= c0 + seq![Callback { cb_type: CbType::OrderAccept, order: Some(order), ..Callback::blank() }]);
            assert(c2 =~= c1 + m);
            assert(c2[c0.len() as int] == c1[c0.len() as int]);
            assert(self.callbacks@ == c2.update(c0.len() as int, cb));
            assert(self.callbacks@ =~= c0 + (seq![cb] + m));
            lemma_new_callbacks_append(c0, seq![cb] + m);
            let n = new_callbacks(c0, self.callbacks@);
            assert(n =~= seq![cb] + m);
            assert(n.subrange(1, n.len() as int) =~= m);
            assert(cb == accept_cb(order, exec_total(es)));
            assert(b1.own_ladder(!inbound.order.is_buy) == s0.own_ladder(!inbound.order.is_buy));
            assert(request_tail(s0, *self, m, s0.own_ladder(order.is_buy), inbound, es, t1, intr, canc, own1, opp1, cas));
            assert(request_outcome(s0, *self, n, accept_cb(order, exec_total(es)), s0.own_ladder(order.is_buy), inbound, es, t1, intr,
                canc, own1, opp1, cas));
            lemma_no_fill_single(cb);
            lemma_last_fill_concat(seq![cb], m);
            assert forall|k: int| 0 <= k < self.callbacks@.len() && (#[trigger] self.callbacks@[k]).cb_type == CbType::OrderFill implies self.callbacks@[k].matched_order is Some
                && self.callbacks@[k].price == self.callbacks@[k].matched_order->0.price by {
                if k != accept_cb_index {
                    assert(self.callbacks@[k] == c2[k]);
                }
            }
        }
        matched
    }
}

/// The whole effect of one request that submits the tracker `t`, reported
/// as `n`: first `head`, then the fills `es` of `t`, a cancel of its rest
/// if it is dropped, the effects `cas` of stop orders its fills triggered
/// (fills, cancels and triggers only), and a book update. The submission
/// took its own ladder from `own0` and the opposite one of `old` to `own1`
/// and `opp1` as
/// `submit_effect` says; when it triggered nothing, `fin` keeps those
/// ladders and the stop ladders of `old`.
pub open spec fn request_outcome(
    old: OrderBook,
    fin: OrderBook,
    n: Seq<Callback>,
    head: Callback,
    own0: Seq<OrderTracker>,
    t: OrderTracker,
    es: Seq<Execution>,
    t1: OrderTracker,
    intr: bool,
    canc: bool,
    own1: Seq<OrderTracker>,
    opp1: Seq<OrderTracker>,
    cas: Seq<Callback>,
) -> bool {
    &&& n.len() >= 1
    &&& n[0] == head
    &&& request_tail(old, fin, n.subrange(1, n.len() as int), own0, t, es, t1, intr, canc, own1, opp1, cas)
}

/// `request_outcome` without its first callback.
pub open spec fn request_tail(
    old: OrderBook,
    fin: OrderBook,
    n: Seq<Callback>,
    own0: Seq<OrderTracker>,
    t: OrderTracker,
    es: Seq<Execution>,
    t1: OrderTracker,
    intr: bool,
    canc: bool,
    own1: Seq<OrderTracker>,
    opp1: Seq<OrderTracker>,
    cas: Seq<Callback>,
) -> bool {
    &&& submit_effect(own0, old.own_ladder(!t.order.is_buy), own1, opp1, t, es, t1, intr, canc)
    &&& n == fill_callbacks(t.order, es) + cancel_tail(t.order, canc) + cas + seq![book_update_cb()]
    &&& cascade_kinds(cas)
    &&& cas.len() == 0 ==> fin.own_ladder(t.order.is_buy) == own1 && fin.own_ladder(!t.order.is_buy) == opp1
        && fin.stop_bids@ == old.stop_bids@ && fin.stop_asks@ == old.stop_asks@
    &&& es.len() == 0 ==> cas.len() == 0
    &&& cas.len() > 0 ==> cas[0].cb_type == CbType::OrderTriggerStop
    &&& suffix_of(fin.stop_bids@, old.stop_bids@)
    &&& suffix_of(fin.stop_asks@, old.stop_asks@)
    &&& cascade_ok(cas, orders_of(old.stop_bids@ + old.stop_asks@), orders_of(own1 + opp1).union(orders_of(old.stop_bids@ + old.stop_asks@)))
    &&& orders_of(fin.bids@ + fin.asks@).subset_of(orders_of(own1 + opp1).union(orders_of(old.stop_bids@ + old.stop_asks@)))
}

/// The accept of `order` reporting `filled` as filled.
pub open spec fn accept_cb(order: BookOrder, filled: int) -> Callback {
    Callback { cb_type: CbType::OrderAccept, order: Some(order), quantity: filled as u64, ..Callback::blank() }
}

pub proof fn lemma_suffix_same_len(a: Seq<OrderTracker>, b: Seq<OrderTracker>)
    requires
        suffix_of(a, b),
        a.len() == b.len(),
    ensures
        a == b,
{
    assert(a =~= b);
}

pub proof fn lemma_exec_total_pos(es: Seq<Execution>)
    requires
        forall|k: int| 0 <= k < es.len() ==> (#[trigger] es[k]).qty > 0,
    ensures
        (exec_total(es) > 0) == (es.len() > 0),
        exec_total(es) >= 0,
    decreases es.len(),
{
    if es.len() > 0 {
        assert forall|k: int| 0 <= k < es.drop_last().len() implies (#[trigger] es.drop_last()[k]).qty > 0 by {
            assert(es.drop_last()[k] == es[k]);
        }
        lemma_exec_total_pos(es.drop_last());
        assert(es.last() == es[es.len() - 1]);
    }
}

/// Whether `ladder` holds a tracker of the order with id `id`.
pub open spec fn has_id(ladder: Seq<OrderTracker>, id: u64) -> bool {
    exists|k: int| 0 <= k < ladder.len() && (#[trigger] ladder[k]).order.order_id == id
}

/// `i` is the first place of `ladder` that holds the order with id `id`.
pub open spec fn first_of(ladder: Seq<OrderTracker>, id: u64, i: int) -> bool {
    &&& 0 <= i < ladder.len()
    &&& ladder[i].order.order_id == id
    &&& forall|k: int| 0 <= k < i ==> (#[trigger] ladder[k]).order.order_id != id
}

pub open spec fn stop_ladder_of(book: OrderBook, buy_side: bool) -> Seq<OrderTracker> {
    if buy_side {
        book.stop_bids@
    } else {
        book.stop_asks@
    }
}

impl OrderBook {
    /// Cancels `order`: takes it off its side's ladder and reports the
    /// cancel with what was open, or else takes its stop off the stop ladder
    /// and reports that; each followed by a book update. An order found in
    /// neither gets a cancel reject.
    pub fn cancel(&mut self, order: &BookOrder)
        requires
            old(self).wf(),
        ensures
            final(self).wf(),
            final(self).symbol == old(self).symbol,
            final(self).market_price == old(self).market_price,
            extends(old(self).callbacks@, final(self).callbacks@),
            last_fill_price(new_callbacks(old(self).callbacks@, final(self).callbacks@)) is None,
            ({
                let own = old(self).own_ladder(order.is_buy);
                let stops = stop_ladder_of(*old(self), order.is_buy);
                let n = new_callbacks(old(self).callbacks@, final(self).callbacks@);
                let bu = Callback { cb_type: CbType::BookUpdate, ..Callback::blank() };
                &&& forall|i: int| first_of(own, order.order_id, i) ==> {
                    &&& final(self).own_ladder(order.is_buy) == own.remove(i)
                    &&& final(self).own_ladder(!order.is_buy) == old(self).own_ladder(!order.is_buy)
                    &&& final(self).stop_bids == old(self).stop_bids
                    &&& final(self).stop_asks == old(self).stop_asks
                    &&& n == seq![cancel_callback(*order, own[i].open_qty), bu]
                }
                &&& !has_id(own, order.order_id) && order.stop_price != 0 ==> forall|i: int| first_of(stops, order.order_id, i) ==> {
                    &&& stop_ladder_of(*final(self), order.is_buy) == stops.remove(i)
                    &&& stop_ladder_of(*final(self), !order.is_buy) == stop_ladder_of(*old(self), !order.is_buy)
                    &&& final(self).bids == old(self).bids
                    &&& final(self).asks == old(self).asks
                    &&& n == seq![Callback { cb_type: CbType::OrderCancelStop, order: Some(*order), ..Callback::blank() }, bu]
                }
                &&& !has_id(own, order.order_id) && (order.stop_price == 0 || !has_id(stops, order.order_id)) ==> {
                    &&& final(self).bids == old(self).bids
                    &&& final(self).asks == old(self).asks
                    &&& final(self).stop_bids == old(self).stop_bids
                    &&& final(self).stop_asks == old(self).stop_asks
                    &&& n == seq![Callback { cb_type: CbType::OrderCancelReject, order: Some(*order), reject_reason: Some(RejectReason::NotFound), ..Callback::blank() }]
                }
            }),
    {
        let ghost c0 = self.callbacks@;
        let buy = order.is_buy;
        let idx = if buy {
            find_index(&self.bids, order.order_id)
        } else {
            find_index(&self.asks, order.order_id)
        };
        let mut pushed: Vec<Callback> = Vec::new();
        match idx {
            Some(i) => {
                let ghost l0 = self.own_ladder(buy);
                let t = if buy {
                    self.bids.remove(i)
                } else {
                    self.asks.remove(i)
                };
                proof {
                    lemma_ladder_remove(l0, i as int, buy);
                    lemma_remove_drawn(l0, i as int);
                    lemma_drawn_from_refl(self.own_ladder(!buy));
                    lemma_uncrossed_drawn(old(self).bids@, old(self).asks@, self.bids@, self.asks@);
                    assert forall|j: int| first_of(l0, order.order_id, j) implies j == i by {
                        if j < i {
                        } else if j > i {
                            assert(l0[i as int].order.order_id == order.order_id);
                        }
                    }
                }
                pushed.push(Callback::cancel(*order, t.open_qty));
                pushed.push(Callback::book_update());
            },
            None => {
                let sidx = if order.stop_price != 0 {
                    if buy {
                        find_index(&self.stop_bids, order.order_id)
                    } else {
                        find_index(&self.stop_asks, order.order_id)
                    }
                } else {
                    None
                };
                match sidx {
                    Some(j) => {
                        let ghost l0 = stop_ladder_of(*self, buy);
                        if buy {
                            self.stop_bids.remove(j);
                        } else {
                            self.stop_asks.remove(j);
                        }
                        proof {
                            lemma_stop_ladder_remove(l0, j as int, buy);
                            assert forall|x: int| first_of(l0, order.order_id, x) implies x == j by {
                                if x < j {
                                } else if x > j {
                                    assert(l0[j as int].order.order_id == order.order_id);
                                }
                            }
                        }
                        pushed.push(Callback::cancel_stop(*order));
                        pushed.push(Callback::book_update());
                    },
                    None => {
                        pushed.push(Callback::cancel_reject(*order, RejectReason::NotFound));
                    },
                }
            },
        }
        let ghost c1 = self.callbacks@;
        self.append_callbacks(pushed);
        proof {
            lemma_new_callbacks_append(c0, pushed@);
        }
    }

    /// Queues `cbs`, none of them a fill, in order.
    fn append_callbacks(&mut self, cbs: Vec<Callback>)
        requires
            forall|k: int| 0 <= k < cbs@.len() ==> (#[trigger] cbs@[k]).cb_type != CbType::OrderFill,
            fills_at_maker_price(old(self).callbacks@),
        ensures
            final(self).callbacks@ == old(self).callbacks@ + cbs@,
            fills_at_maker_price(final(self).callbacks@),
            last_fill_price(cbs@) is None,
            final(self).bids == old(self).bids,
            final(self).asks == old(self).asks,
            final(self).stop_bids == old(self).stop_bids,
            final(self).stop_asks == old(self).stop_asks,
            final(self).pending_orders == old(self).pending_orders,
            final(self).market_price == old(self).market_price,
            final(self).symbol == old(self).symbol,
    {
        let ghost c0 = self.callbacks@;
        let mut i: usize = 0;
        while i < cbs.len()
            invariant
                i <= cbs@.len(),
                forall|k: int| 0 <= k < cbs@.len() ==> (#[trigger] cbs@[k]).cb_type != CbType::OrderFill,
                self.callbacks@ == c0 + cbs@.subrange(0, i as int),
                fills_at_maker_price(self.callbacks@),
                self.bids == old(self).bids,
                self.asks == old(self).asks,
                self.stop_bids == old(self).stop_bids,
                self.stop_asks == old(self).stop_asks,
                self.pending_orders == old(self).pending_orders,
                self.market_price == old(self).market_price,
                self.symbol == old(self).symbol,
                c0 == old(self).callbacks@,
            decreases cbs@.len() - i,
        {
            let ghost it = self.callbacks@;
            self.callbacks.push(cbs[i]);
            i = i + 1;
            proof {
                assert(self.callbacks@ =~= c0 + cbs@.subrange(0, i as int));
                assert forall|k: int| 0 <= k < self.callbacks@.len() && (#[trigger] self.callbacks@[k]).cb_type == CbType::OrderFill implies self.callbacks@[k].matched_order is Some
                    && self.callbacks@[k].price == self.callbacks@[k].matched_order->0.price by {
                    assert(self.callbacks@[k] == it[k]);
                }
            }
        }
        proof {
            assert(cbs@.subrange(0, cbs@.len() as int) =~= cbs@);
            lemma_no_fills_none(cbs@);
        }
    }
}

pub proof fn lemma_no_fills_none(s: Seq<Callback>)
    requires
        forall|k: int| 0 <= k < s.len() ==> (#[trigger] s[k]).cb_type != CbType::OrderFill,
    ensures
        last_fill_price(s) is None,
    decreases s.len(),
{
    if s.len() > 0 {
        assert(s.last() == s[s.len() - 1]);
        lemma_no_fills_none(s.drop_last());
    }
}

/// The replace callback of `order`, whose tracker `t` is replaced.
pub open spec fn replace_head(order: BookOrder, t: OrderTracker, size_delta: i64, new_price: Price) -> Callback {
    Callback {
        cb_type: CbType::OrderReplace,
        order: Some(order),
        quantity: t.open_qty,
        delta: clamped_delta(size_delta, t.open_qty) as i64,
        price: if new_price == 0 { t.order.price } else { new_price },
        ..Callback::blank()
    }
}

/// The tracker `t` with its size changed by `size_delta` (cut down to what
/// is open) and its price set to `new_price` unless that is zero.
pub open spec fn replaced(t: OrderTracker, size_delta: i64, new_price: Price) -> OrderTracker {
    let d = clamped_delta(size_delta, t.open_qty);
    OrderTracker {
        order: BookOrder {
            price: if new_price == 0 { t.order.price } else { new_price },
            order_qty: (t.order.order_qty + d) as u64,
            ..t.order
        },
        open_qty: (t.open_qty + d) as u64,
        ..t
    }
}

/// `size_delta` cut down, when it would take more than `open`, to take
/// just what is open.
pub open spec fn clamped_delta(size_delta: i64, open: Quantity) -> int {
    if size_delta < 0 && open < -size_delta {
        -open
    } else {
        size_delta as int
    }
}

impl OrderBook {
    /// Submits the tracker `t` as a fresh inbound order, moves the market
    /// price to its fills, submits the stop orders they trigger and reports
    /// a book update.
    #[verifier::spinoff_prover]
    #[verifier::rlimit(100)]
    fn submit_and_settle(&mut self, t: OrderTracker) -> (r: (bool, Quantity))
        requires
            old(self).wf(),
            tracker_ok(t, t.order.is_buy),
        ensures
            final(self).wf(),
            final(self).symbol == old(self).symbol,
            extends(old(self).callbacks@, final(self).callbacks@),
            follows_fills(old(self).market_price, new_callbacks(old(self).callbacks@, final(self).callbacks@), final(self).market_price),
            ({
                let n = new_callbacks(old(self).callbacks@, final(self).callbacks@);
                &&& exists|es: Seq<Execution>, t1: OrderTracker, intr: bool, canc: bool, own1: Seq<OrderTracker>, opp1: Seq<OrderTracker>, cas: Seq<Callback>|
                    #[trigger] request_tail(*old(self), *final(self), n, old(self).own_ladder(t.order.is_buy), t, es, t1, intr, canc, own1, opp1, cas)
                        && r.0 == (es.len() > 0) && r.1 == exec_total(es)
            }),
    {
        let ghost c0 = self.callbacks@;
        let ghost b1 = *self;
        let (execs, t1, canceled, interrupted) = self.submit(t);
        let ghost b2 = *self;
        let matched = execs.len() > 0;
        let ghost c3 = self.callbacks@;
        let ghost b3 = *self;
        self.apply_prices(&execs);
        let ghost c4 = self.callbacks@;
        let ghost b4 = *self;
        self.drain_pending();
        let ghost c5 = self.callbacks@;
        let ghost b5 = *self;
        self.callbacks.push(Callback::book_update());
        proof {
            let bu = Callback { cb_type: CbType::BookUpdate, ..Callback::blank() };
            let f = fill_callbacks(t.order, execs@);
            let cas = new_callbacks(c3, c4) + new_callbacks(c4, c5);
            assert(request_tail(b1, *self, new_callbacks(c0, self.callbacks@), b1.own_ladder(t.order.is_buy), t, execs@, t1, interrupted,
                canceled, b2.own_ladder(t.order.is_buy), b2.own_ladder(!t.order.is_buy), cas)) by {
                let ap = new_callbacks(c3, c4);
                lemma_new_callbacks_append(c0, f + cancel_tail(t.order, canceled));
                assert(c3 =~= c0 + (f + cancel_tail(t.order, canceled)));
                lemma_new_callbacks_chain(c0, c3, c4);
                lemma_new_callbacks_chain(c0, c4, c5);
                lemma_new_callbacks_append(c5, seq![bu]);
                assert(self.callbacks@ =~= c5 + seq![bu]);
                lemma_new_callbacks_chain(c0, c5, self.callbacks@);
                assert(new_callbacks(c0, self.callbacks@) =~= f + cancel_tail(t.order, canceled) + cas + seq![bu]);
                assert(cascade_kinds(ap)) by {
                    assert forall|k: int| 0 <= k < ap.len() implies (#[trigger] ap[k]).cb_type == CbType::OrderFill || ap[k].cb_type
                        == CbType::OrderCancel || ap[k].cb_type == CbType::OrderTriggerStop by {
                        assert(ap[k].cb_type == CbType::OrderTriggerStop);
                    }
                }
                lemma_cascade_concat(ap, new_callbacks(c4, c5));
                if cas.len() == 0 {
                    assert(c4.len() == c3.len());
                    assert(b4.pending_orders@.len() == b3.pending_orders@.len());
                    lemma_suffix_same_len(b4.stop_bids@, b3.stop_bids@);
                    lemma_suffix_same_len(b4.stop_asks@, b3.stop_asks@);
                    assert(b5 == b4);
                }
                if execs@.len() == 0 {
                    assert(b4 == b3);
                    assert(b5 == b4);
                    assert(cas =~= Seq::<Callback>::empty());
                }
                if cas.len() > 0 {
                    if ap.len() > 0 {
                        assert(cas[0] == ap[0]);
                    } else {
                        assert(b4.pending_orders@.len() == 0);
                        assert(b5 == b4);
                    }
                }
                lemma_suffix_trans(b5.stop_bids@, b4.stop_bids@, b3.stop_bids@);
                lemma_suffix_trans(b5.stop_asks@, b4.stop_asks@, b3.stop_asks@);
                let own1 = b2.own_ladder(t.order.is_buy);
                let opp1 = b2.own_ladder(!t.order.is_buy);
                let st = orders_of(b1.stop_bids@ + b1.stop_asks@);
                let pool = orders_of(own1 + opp1).union(st);
                lemma_orders_concat(own1, opp1);
                lemma_orders_concat(b2.bids@, b2.asks@);
                lemma_orders_concat(b3.stop_bids@ + b3.stop_asks@, b3.pending_orders@);
                assert(b3.pending_orders@ =~= Seq::<OrderTracker>::empty());
                assert(orders_of(Seq::<OrderTracker>::empty()) =~= Set::<BookOrder>::empty());
                assert(b3.stop_bids == b1.stop_bids && b3.stop_asks == b1.stop_asks);
                assert(stop_orders(b4).subset_of(st));
                lemma_orders_concat(b4.bids@, b4.asks@);
                assert(b4.bids == b2.bids && b4.asks == b2.asks);
                assert(orders_of(b4.bids@ + b4.asks@).subset_of(pool));
                assert(order_pool(b4).subset_of(pool));
                lemma_cascade_ok_widen(ap, orders_of(b3.stop_bids@ + b3.stop_asks@), Set::empty(), st, pool);
                lemma_cascade_ok_widen(new_callbacks(c4, c5), stop_orders(b4), order_pool(b4), st, pool);
                lemma_cascade_ok_concat(ap, new_callbacks(c4, c5), st, pool);
                assert(self.bids == b5.bids && self.asks == b5.asks);
            }
            lemma_exec_total_pos(execs@);
            let tail = if canceled {
                seq![cancel_callback(t.order, 0)]
            } else {
                Seq::<Callback>::empty()
            };
            assert(c3 =~= c0 + (f + tail));
            lemma_new_callbacks_append(c0, f + tail);
            lemma_new_callbacks_chain(c0, c3, c4);
            lemma_new_callbacks_chain(c0, c4, c5);
            lemma_new_callbacks_append(c5, seq![bu]);
            assert(self.callbacks@ =~= c5 + seq![bu]);
            lemma_new_callbacks_chain(c0, c5, self.callbacks@);
            lemma_last_fill_of_fills(t.order, execs@);
            if canceled {
                lemma_no_fill_single(cancel_callback(t.order, 0));
            } else {
                assert(last_fill_price(tail) is None);
            }
            lemma_no_fill_single(bu);
            lemma_last_fill_concat(f, tail);
            lemma_last_fill_concat(f + tail, new_callbacks(c3, c4));
            lemma_last_fill_concat(new_callbacks(c0, c4), new_callbacks(c4, c5));
            lemma_last_fill_concat(new_callbacks(c0, c5), seq![bu]);
            let n = new_callbacks(c0, self.callbacks@);
            assert forall|k: int| 0 <= k < self.callbacks@.len() && (#[trigger] self.callbacks@[k]).cb_type == CbType::OrderFill implies self.callbacks@[k].matched_order is Some
                && self.callbacks@[k].price == self.callbacks@[k].matched_order->0.price by {
                assert(self.callbacks@[k] == c5[k]);
            }
        }
        (matched, t.open_qty - t1.open_qty)
    }

    /// Changes the open quantity of `order` by `size_delta` (cut down to
    /// what is open) and its price to `new_price` (kept when
    /// `PRICE_UNCHANGED`), reporting the replace. The order leaves its place;
    /// with nothing left open it is reported canceled, else it is matched
    /// anew at its price and rests behind the orders already there. An order
    /// not on its side's ladder gets a replace reject. Returns whether the
    /// order filled at all.
    #[verifier::spinoff_prover]
    #[verifier::rlimit(100)]
    pub fn replace(&mut self, order: &BookOrder, size_delta: i64, new_price: Price) -> (r: bool)
        requires
            old(self).wf(),
            size_delta > 0 ==> forall|k: int|
                0 <= k < old(self).own_ladder(order.is_buy).len() && (#[trigger] old(self).own_ladder(order.is_buy)[k]).order.order_id
                    == order.order_id ==> old(self).own_ladder(order.is_buy)[k].order.order_qty + size_delta <= Quantity::MAX,
        ensures
            final(self).wf(),
            final(self).symbol == old(self).symbol,
            extends(old(self).callbacks@, final(self).callbacks@),
            follows_fills(old(self).market_price, new_callbacks(old(self).callbacks@, final(self).callbacks@), final(self).market_price),
            ({
                let own = old(self).own_ladder(order.is_buy);
                let n = new_callbacks(old(self).callbacks@, final(self).callbacks@);
                let bu = Callback { cb_type: CbType::BookUpdate, ..Callback::blank() };
                &&& !has_id(own, order.order_id) ==> {
                    &&& !r
                    &&& final(self).bids == old(self).bids
                    &&& final(self).asks == old(self).asks
                    &&& final(self).stop_bids == old(self).stop_bids
                    &&& final(self).stop_asks == old(self).stop_asks
                    &&& final(self).market_price == old(self).market_price
                    &&& n == seq![Callback { cb_type: CbType::OrderReplaceReject, order: Some(*order), reject_reason: Some(RejectReason::NotFound), ..Callback::blank() }]
                }
                &&& forall|i: int| #[trigger] first_of(own, order.order_id, i) ==> {
                    let t = own[i];
                    let head = replace_head(*order, t, size_delta, new_price);
                    &&& t.open_qty + clamped_delta(size_delta, t.open_qty) == 0 ==> {
                        &&& !r
                        &&& n == seq![head, cancel_callback(*order, 0), bu]
                        &&& final(self).own_ladder(order.is_buy) == own.remove(i)
                        &&& final(self).own_ladder(!order.is_buy) == old(self).own_ladder(!order.is_buy)
                        &&& final(self).stop_bids == old(self).stop_bids
                        &&& final(self).stop_asks == old(self).stop_asks
                        &&& final(self).market_price == old(self).market_price
                    }
                    &&& t.open_qty + clamped_delta(size_delta, t.open_qty) > 0 ==> exists|
                        es: Seq<Execution>,
                        t1: OrderTracker,
                        intr: bool,
                        canc: bool,
                        own1: Seq<OrderTracker>,
                        opp1: Seq<OrderTracker>,
                        cas: Seq<Callback>,
                    |
                        #[trigger] request_outcome(*old(self), *final(self), n, head, own.remove(i), replaced(t, size_delta, new_price), es, t1, intr,
                            canc, own1, opp1, cas) && r == (es.len() > 0)
                }
            }),
    {
        let ghost c0 = self.callbacks@;
        let buy = order.is_buy;
        let idx = if buy {
            find_index(&self.bids, order.order_id)
        } else {
            find_index(&self.asks, order.order_id)
        };
        let i = match idx {
            Some(i) => i,
            None => {
                let mut pushed: Vec<Callback> = Vec::new();
                pushed.push(Callback::replace_reject(*order, RejectReason::NotFound));
                self.append_callbacks(pushed);
                proof {
                    lemma_new_callbacks_append(c0, pushed@);
                }
                return false;
            },
        };
        let ghost l0 = self.own_ladder(buy);
        proof {
            assert forall|j: int| first_of(l0, order.order_id, j) implies j == i by {
                if j < i {
                } else if j > i {
                    assert(l0[i as int].order.order_id == order.order_id);
                }
            }
        }
        let tracker = if buy {
            self.bids[i]
        } else {
            self.asks[i]
        };
        let open = tracker.open_qty;
        let mut delta = size_delta;
        if delta < 0 && (open as i128) < -(delta as i128) {
            delta = -(open as i64);
            if delta == 0 {
                let mut pushed: Vec<Callback> = Vec::new();
                pushed.push(Callback::replace_reject(*order, RejectReason::AlreadyFilled));
                self.append_callbacks(pushed);
                return false;
            }
        }
        let price = if new_price == PRICE_UNCHANGED {
            tracker.order.price
        } else {
            new_price
        };
        let mut pushed: Vec<Callback> = Vec::new();
        pushed.push(Callback::replace(*order, open, delta, price));
        let new_open: u64 = if delta >= 0 {
            open + (delta as u64)
        } else {
            open - ((-(delta as i128)) as u64)
        };
        let new_qty: u64 = if delta >= 0 {
            tracker.order.order_qty + (delta as u64)
        } else {
            tracker.order.order_qty - ((-(delta as i128)) as u64)
        };
        if buy {
            self.bids.remove(i);
        } else {
            self.asks.remove(i);
        }
        proof {
            lemma_ladder_remove(l0, i as int, buy);
            lemma_remove_drawn(l0, i as int);
            lemma_drawn_from_refl(self.own_ladder(!buy));
            lemma_uncrossed_drawn(old(self).bids@, old(self).asks@, self.bids@, self.asks@);
        }
        if new_open == 0 {
            pushed.push(Callback::cancel(*order, 0));
            pushed.push(Callback::book_update());
            self.append_callbacks(pushed);
            proof {
                lemma_new_callbacks_append(c0, pushed@);
                assert(pushed@ =~= seq![pushed@[0], cancel_callback(*order, 0), Callback { cb_type: CbType::BookUpdate, ..Callback::blank() }]);
            }
            return false;
        }
        self.append_callbacks(pushed);
        let ghost c1 = self.callbacks@;
        let rest = OrderTracker {
            order: BookOrder { price, order_qty: new_qty, ..tracker.order },
            open_qty: new_open,
            ..tracker
        };
        let ghost b1 = *self;
        let (matched, _) = self.submit_and_settle(rest);
        proof {
            lemma_new_callbacks_append(c0, pushed@);
            lemma_new_callbacks_chain(c0, c1, self.callbacks@);
            lemma_last_fill_concat(pushed@, new_callbacks(c1, self.callbacks@));
            let m = new_callbacks(c1, self.callbacks@);
            let n = new_callbacks(c0, self.callbacks@);
            let (es, t1, intr, canc, own1, opp1, cas) = choose|es: Seq<Execution>, t1: OrderTracker, intr: bool, canc: bool, own1: Seq<OrderTracker>, opp1: Seq<OrderTracker>, cas: Seq<Callback>|
                #[trigger] request_tail(b1, *self, m, b1.own_ladder(rest.order.is_buy), rest, es, t1, intr, canc, own1, opp1, cas)
                    && matched == (es.len() > 0);
            assert(n =~= pushed@ + m);
            assert(n.subrange(1, n.len() as int) =~= m);
            assert(rest == replaced(tracker, size_delta, new_price));
            assert(pushed@[0] == replace_head(*order, tracker, size_delta, new_price));
            assert(b1.own_ladder(buy) == l0.remove(i as int));
            assert(b1.own_ladder(!buy) == old(self).own_ladder(!buy));
            assert(request_tail(*old(self), *self, m, l0.remove(i as int), rest, es, t1, intr, canc, own1, opp1, cas));
            assert(request_outcome(*old(self), *self, n, replace_head(*order, tracker, size_delta, new_price), l0.remove(i as int), rest, es,
                t1, intr, canc, own1, opp1, cas));
        }
        matched
    }

    /// Sets the market price and submits the stop orders it triggers, with
    /// whatever those trigger in turn. Setting the price it already has
    /// changes nothing.
    #[verifier::spinoff_prover]
    #[verifier::rlimit(100)]
    pub fn set_market_price(&mut self, price: Price)
        requires
            old(self).wf(),
        ensures
            final(self).wf(),
            final(self).symbol == old(self).symbol,
            extends(old(self).callbacks@, final(self).callbacks@),
            follows_fills(price, new_callbacks(old(self).callbacks@, final(self).callbacks@), final(self).market_price),
            price == old(self).market_price && (price != 0 || old(self).stop_asks@.len() == 0) ==> same_book(*final(self), *old(self)),
            suffix_of(final(self).stop_bids@, old(self).stop_bids@),
            suffix_of(final(self).stop_asks@, old(self).stop_asks@),
            scans_buy_stops(old(self).market_price, price) ==> forall|k: int|
                0 <= k < final(self).stop_bids@.len() ==> (#[trigger] final(self).stop_bids@[k]).order.stop_price > price,
            scans_sell_stops(old(self).market_price, price) ==> forall|k: int|
                0 <= k < final(self).stop_asks@.len() ==> (#[trigger] final(self).stop_asks@[k]).order.stop_price < price,
            exists|b: int, a: int| #[trigger] stops_reached(*old(self), *final(self), price, b, a),
            crosses_no_stop(*old(self), price) ==> same_book(*final(self), OrderBook { market_price: price, ..*old(self) }),
    {
        let ghost c0 = self.callbacks@;
        let ghost s0 = *self;
        self.update_market_price(price);
        let ghost s1 = *self;
        let ghost c1 = self.callbacks@;
        self.drain_pending();
        proof {
            assert(extends(c0, c1)) by {
                lemma_new_callbacks_append(c0, new_callbacks(c0, c1));
                assert(c1.subrange(0, c0.len() as int) =~= c0);
            }
            lemma_new_callbacks_chain(c0, c1, self.callbacks@);
            lemma_last_fill_concat(new_callbacks(c0, c1), new_callbacks(c1, self.callbacks@));
            let nb = s0.stop_bids@.len() - s1.stop_bids@.len();
            let na = s0.stop_asks@.len() - s1.stop_asks@.len();
            assert(suffix_of(s1.stop_bids@, s0.stop_bids@));
            assert(suffix_of(s1.stop_asks@, s0.stop_asks@));
            lemma_suffix_trans(self.stop_bids@, s1.stop_bids@, s0.stop_bids@);
            lemma_suffix_trans(self.stop_asks@, s1.stop_asks@, s0.stop_asks@);
            let tb = trigger_callbacks(s0.stop_bids@.subrange(0, nb));
            let ta = trigger_callbacks(s0.stop_asks@.subrange(0, na));
            assert(new_callbacks(c0, c1) =~= tb + ta);
            assert(new_callbacks(c0, self.callbacks@).subrange(0, nb + na) =~= tb + ta);
            if scans_buy_stops(s0.market_price, price) {
                assert forall|k: int| 0 <= k < self.stop_bids@.len() implies (#[trigger] self.stop_bids@[k]).order.stop_price > price by {
                    let off = s1.stop_bids@.len() - self.stop_bids@.len();
                    assert(self.stop_bids@[k] == s1.stop_bids@[off + k]);
                    if off + k > 0 {
                        assert(price_before_eq(false, s1.stop_bids@[0].order.stop_price, s1.stop_bids@[off + k].order.stop_price));
                    }
                }
            }
            if scans_sell_stops(s0.market_price, price) {
                assert forall|k: int| 0 <= k < self.stop_asks@.len() implies (#[trigger] self.stop_asks@[k]).order.stop_price < price by {
                    let off = s1.stop_asks@.len() - self.stop_asks@.len();
                    assert(self.stop_asks@[k] == s1.stop_asks@[off + k]);
                    if off + k > 0 {
                        assert(price_before_eq(true, s1.stop_asks@[0].order.stop_price, s1.stop_asks@[off + k].order.stop_price));
                    }
                }
            }
            assert(last_fill_price(new_callbacks(c0, c1)) is None) by {
                assert forall|k: int| 0 <= k < new_callbacks(c0, c1).len() implies (#[trigger] new_callbacks(c0, c1)[k]).cb_type != CbType::OrderFill by {
                    assert(new_callbacks(c0, c1)[k] == c1[c0.len() + k]);
                }
                lemma_no_fills_none(new_callbacks(c0, c1));
            }
            if last_fill_price(new_callbacks(c0, self.callbacks@)) is None {
                lemma_last_fill_concat(new_callbacks(c0, c1), new_callbacks(c1, self.callbacks@));
                assert(last_fill_price(new_callbacks(c1, self.callbacks@)) is None);
            }
            if nb < s0.stop_bids@.len() && scans_buy_stops(s0.market_price, price) {
                assert(s1.stop_bids@[0] == s0.stop_bids@[nb]);
            }
            if na < s0.stop_asks@.len() && scans_sell_stops(s0.market_price, price) {
                assert(s1.stop_asks@[0] == s0.stop_asks@[na]);
            }
            assert(stops_reached(s0, *self, price, nb, na));
            if crosses_no_stop(s0, price) {
                if nb > 0 {
                    assert(s0.stop_bids@[0].order.stop_price <= price);
                }
                if na > 0 {
                    assert(s0.stop_asks@[0].order.stop_price >= price);
                }
                assert(s1.pending_orders@.len() == 0);
                assert(s1.callbacks@ =~= s0.callbacks@);
                assert(s1.stop_bids@ =~= s0.stop_bids@);
                assert(s1.stop_asks@ =~= s0.stop_asks@);
            }
        }
    }
}


/// The open quantity of the trackers of `ladder` resting at `price`, summed.
pub open spec fn level_qty(ladder: Seq<OrderTracker>, price: Price) -> int
    decreases ladder.len(),
{
    if ladder.len() == 0 {
        0
    } else {
        level_qty(ladder.drop_last(), price) + if ladder.last().order.price == price {
            ladder.last().spec_open_qty()
        } else {
            0
        }
    }
}

impl OrderBook {
    /// The tracker of `order` on its side's ladder, if it rests there.
    pub fn find_order(&self, order: &BookOrder) -> (r: Option<OrderTracker>)
        ensures
            r is None <==> !has_id(self.own_ladder(order.is_buy), order.order_id),
            r is Some ==> exists|i: int| first_of(self.own_ladder(order.is_buy), order.order_id, i) && r->0 == self.own_ladder(order.is_buy)[i],
    {
        let ladder = if order.is_buy {
            &self.bids
        } else {
            &self.asks
        };
        match find_index(ladder, order.order_id) {
            Some(i) => {
                proof {
                    assert(first_of(self.own_ladder(order.is_buy), order.order_id, i as int));
                }
                Some(ladder[i])
            },
            None => None,
        }
    }

    /// The open quantity resting at `price` on the `buy_side` side.
    pub fn total_qty_at_level(&self, buy_side: bool, price: Price) -> (r: u128)
        requires
            self.wf(),
        ensures
            r == level_qty(self.own_ladder(buy_side), price),
    {
        let ladder = if buy_side {
            &self.bids
        } else {
            &self.asks
        };
        let mut sum: u128 = 0;
        let mut i: usize = 0;
        while i < ladder.len()
            invariant
                i <= ladder@.len(),
                ladder@ == self.own_ladder(buy_side),
                ladder_wf(ladder@, buy_side),
                sum == level_qty(ladder@.subrange(0, i as int), price),
                sum <= i * 0x1_0000_0000_0000_0000,
            decreases ladder@.len() - i,
        {
            let t = ladder[i];
            proof {
                assert(ladder@.subrange(0, i + 1).drop_last() =~= ladder@.subrange(0, i as int));
                assert(tracker_ok(ladder@[i as int], buy_side));
            }
            if t.order.price == price {
                sum = sum + (t.open_qty as u128);
            }
            i = i + 1;
        }
        proof {
            assert(ladder@.subrange(0, ladder@.len() as int) =~= ladder@);
        }
        sum
    }

    /// The prices at which orders rest on the `buy_side` side, best first,
    /// each once.
    pub fn level_prices(&self, buy_side: bool) -> (r: Vec<Price>)
        requires
            self.wf(),
        ensures
            forall|a: int, b: int| 0 <= a < b < r@.len() ==> r@[a] != r@[b] && price_before_eq(buy_side, #[trigger] r@[a], #[trigger] r@[b]),
            forall|k: int| #![trigger r@[k]] 0 <= k < r@.len() ==> exists|j: int| 0 <= j < self.own_ladder(buy_side).len() && #[trigger] self.own_ladder(buy_side)[j].order.price == r@[k],
            forall|j: int| 0 <= j < self.own_ladder(buy_side).len() ==> r@.contains(#[trigger] self.own_ladder(buy_side)[j].order.price),
    {
        let ladder = if buy_side {
            &self.bids
        } else {
            &self.asks
        };
        let mut out: Vec<Price> = Vec::new();
        let mut i: usize = 0;
        while i < ladder.len()
            invariant
                i <= ladder@.len(),
                ladder@ == self.own_ladder(buy_side),
                ladder_wf(ladder@, buy_side),
                i > 0 <==> out@.len() > 0,
                i > 0 ==> out@.last() == ladder@[i - 1].order.price,
                forall|a: int, b: int| 0 <= a < b < out@.len() ==> out@[a] != out@[b] && price_before_eq(buy_side, #[trigger] out@[a], #[trigger] out@[b]),
                forall|k: int| #![trigger out@[k]] 0 <= k < out@.len() ==> exists|j: int| 0 <= j < i && #[trigger] ladder@[j].order.price == out@[k],
                forall|j: int| 0 <= j < i ==> out@.contains(#[trigger] ladder@[j].order.price),
            decreases ladder@.len() - i,
        {
            let p = ladder[i].order.price;
            let ghost o0 = out@;
            if i == 0 || out[out.len() - 1] != p {
                out.push(p);
                proof {
                    assert forall|a: int, b: int| 0 <= a < b < out@.len() implies out@[a] != out@[b] && price_before_eq(buy_side, #[trigger] out@[a], #[trigger] out@[b]) by {
                        if b == out@.len() - 1 && i > 0 {
                            let ja = choose|j: int| 0 <= j < i && #[trigger] ladder@[j].order.price == o0[a];
                            assert(price_before_eq(buy_side, ladder@[ja].order.price, ladder@[i as int].order.price));
                            lemma_price_order(buy_side, o0[a], o0.last(), p);
                            if a < o0.len() - 1 {
                                assert(price_before_eq(buy_side, o0[a], o0[o0.len() - 1]));
                                assert(o0[a] != o0[o0.len() - 1]);
                                lemma_price_order(buy_side, o0[a], o0.last(), o0[a]);
                                assert(price_before_eq(buy_side, o0.last(), p));
                                lemma_price_order(buy_side, o0.last(), p, o0[a]);
                                lemma_price_order(buy_side, o0[a], p, o0.last());
                            }
                            assert(price_before_eq(buy_side, ladder@[i - 1].order.price, ladder@[i as int].order.price));
                        } else if b < out@.len() - 1 {
                            assert(out@[a] == o0[a] && out@[b] == o0[b]);
                        }
                    }
                    assert forall|k: int| #![trigger out@[k]] 0 <= k < out@.len() implies exists|j: int| 0 <= j < i + 1 && #[trigger] ladder@[j].order.price == out@[k] by {
                        if k < o0.len() {
                            assert(out@[k] == o0[k]);
                        } else {
                            assert(ladder@[i as int].order.price == out@[k]);
                        }
                    }
                    assert forall|j: int| 0 <= j < i + 1 implies out@.contains(#[trigger] ladder@[j].order.price) by {
                        if j < i {
                            assert(o0.contains(ladder@[j].order.price));
                            let x = choose|x: int| 0 <= x < o0.len() && o0[x] == ladder@[j].order.price;
                            assert(out@[x] == o0[x]);
                        } else {
                            assert(out@[out@.len() - 1] == p);
                        }
                    }
                }
            } else {
                proof {
                    assert forall|j: int| 0 <= j < i + 1 implies out@.contains(#[trigger] ladder@[j].order.price) by {
                        if j == i {
                            assert(out@[out@.len() - 1] == p);
                        }
                    }
                    assert forall|k: int| #![trigger out@[k]] 0 <= k < out@.len() implies exists|j: int| 0 <= j < i + 1 && #[trigger] ladder@[j].order.price == out@[k] by {
                        let j = choose|j: int| 0 <= j < i && #[trigger] ladder@[j].order.price == out@[k];
                    }
                }
            }
            i = i + 1;
        }
        out
    }
}

/// With no all-or-none order resting on either side, the book is not
/// crossed: both best prices are limit prices, the best bid below the best
/// ask.
pub proof fn lemma_best_bid_below_best_ask(book: OrderBook)
    requires
        book.wf(),
        book.bids@.len() > 0,
        book.asks@.len() > 0,
        forall|k: int| 0 <= k < book.bids@.len() ==> !(#[trigger] book.bids@[k]).spec_all_or_none(),
        forall|k: int| 0 <= k < book.asks@.len() ==> !(#[trigger] book.asks@[k]).spec_all_or_none(),
    ensures
        book.bids@[0].order.price != MARKET_ORDER_PRICE,
        book.asks@[0].order.price != MARKET_ORDER_PRICE,
        book.bids@[0].order.price < book.asks@[0].order.price,
{
    assert(!book.bids@[0].spec_all_or_none());
    assert(!book.asks@[0].spec_all_or_none());
}

/// Adding an order that rests whole, then canceling it, gives back the
/// book's ladders as they were, and the order is no longer found. `b0` is
/// the book before the add and `b1` after it, as `add` states when it
/// reports just the accept and the book update (`n`); `b2` is the book after
/// the cancel, as `cancel` states when it finds the order.
pub proof fn lemma_add_then_cancel(
    b0: OrderBook,
    b1: OrderBook,
    b2: OrderBook,
    order: BookOrder,
    conditions: OrderConditions,
    n: Seq<Callback>,
    es: Seq<Execution>,
    t1: OrderTracker,
    intr: bool,
    canc: bool,
    own1: Seq<OrderTracker>,
    opp1: Seq<OrderTracker>,
    cas: Seq<Callback>,
)
    requires
        order.order_qty > 0,
        !has_id(b0.own_ladder(order.is_buy), order.order_id),
        request_outcome(b0, b1, n, accept_cb(order, exec_total(es)), b0.own_ladder(order.is_buy), inbound_of(order, conditions), es, t1,
            intr, canc, own1, opp1, cas),
        n.len() == 2,
        forall|i: int| #[trigger] first_of(b1.own_ladder(order.is_buy), order.order_id, i) ==> {
            &&& b2.own_ladder(order.is_buy) == b1.own_ladder(order.is_buy).remove(i)
            &&& b2.own_ladder(!order.is_buy) == b1.own_ladder(!order.is_buy)
            &&& b2.stop_bids == b1.stop_bids
            &&& b2.stop_asks == b1.stop_asks
        },
    ensures
        b2.bids@ == b0.bids@,
        b2.asks@ == b0.asks@,
        b2.stop_bids@ == b0.stop_bids@,
        b2.stop_asks@ == b0.stop_asks@,
        !has_id(b2.own_ladder(order.is_buy), order.order_id),
{
    let t = inbound_of(order, conditions);
    let m = n.subrange(1, 2);
    let f = fill_callbacks(t.order, es);
    let tail = cancel_tail(t.order, canc);
    assert(m == f + tail + cas + seq![book_update_cb()]);
    assert(m.len() == f.len() + tail.len() + cas.len() + 1);
    assert(es.len() == 0);
    assert(!canc);
    assert(cas.len() == 0);
    let before = b0.own_ladder(order.is_buy);
    let mid = b1.own_ladder(order.is_buy);
    assert(exec_total(es) == 0);
    assert(t1 == t);
    assert(placed_in_ladder(before, own1, t, order.is_buy));
    assert(mid == own1);
    let i = choose|i: int|
        0 <= i <= before.len() && mid == before.insert(i, t) && (forall|k: int|
            0 <= k < i ==> price_before_eq(order.is_buy, (#[trigger] before[k]).order.price, t.order.price)) && (forall|k: int|
            i <= k < before.len() ==> !price_before_eq(order.is_buy, (#[trigger] before[k]).order.price, t.order.price));
    assert forall|k: int| 0 <= k < i implies (#[trigger] mid[k]).order.order_id != order.order_id by {
        assert(mid[k] == before[k]);
    }
    assert(first_of(mid, order.order_id, i));
    assert(mid.remove(i) =~= before);
    assert(b1.own_ladder(!order.is_buy) == b0.own_ladder(!order.is_buy));
    if order.is_buy {
        assert(b2.bids@ == b0.bids@);
        assert(b2.asks@ == b0.asks@);
    } else {
        assert(b2.bids@ == b0.bids@);
        assert(b2.asks@ == b0.asks@);
    }
}

/// Setting the market price twice to the same value: once the first call
/// leaves the market price at that value (no triggered order filled), the
/// second changes nothing. `b0`, `b1`, `b2` are the book before, between
/// and after the calls, as `set_market_price` states them.
pub proof fn lemma_set_market_price_twice(b0: OrderBook, b1: OrderBook, b2: OrderBook, p: Price)
    requires
        follows_fills(p, new_callbacks(b0.callbacks@, b1.callbacks@), b1.market_price),
        last_fill_price(new_callbacks(b0.callbacks@, b1.callbacks@)) is None,
        p == b1.market_price && (p != 0 || b1.stop_asks@.len() == 0) ==> same_book(b2, b1),
        p == 0 ==> b1.stop_asks@.len() == 0,
    ensures
        same_book(b2, b1),
        b1.market_price == p,
{
}

} // verus!

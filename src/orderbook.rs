use vstd::prelude::*;

use linked_hash_map::LinkedHashMap;

use crate::order::{Order, Side};
use std::collections::HashMap;

use crate::types::{Amount, OrderId, OrderIdToPrice, Price, Table};

verus! {

/// The insertion-ordered hash map of `linked_hash_map`, held opaque; what it
/// holds is `queue_of`.
#[verifier::external_type_specification]
#[verifier::external_body]
#[verifier::reject_recursive_types(K)]
#[verifier::reject_recursive_types(V)]
#[verifier::reject_recursive_types(S)]
pub struct ExLinkedHashMap<K, V, S>(LinkedHashMap<K, V, S>);

/// The entries of a linked map of orders, oldest first.
pub uninterp spec fn queue_of(m: LinkedHashMap<OrderId, Order>) -> Seq<(OrderId, Order)>;

/// Relies on `LinkedHashMap::new`: the new map holds no entry.
#[verifier::external_body]
fn queue_new() -> (r: LinkedHashMap<OrderId, Order>)
    ensures
        queue_of(r) == Seq::<(OrderId, Order)>::empty(),
{
    LinkedHashMap::new()
}

/// Relies on `LinkedHashMap::insert`: a key not yet present goes in at the
/// back, after every entry already there, and nothing is returned.
#[verifier::external_body]
fn queue_insert(m: &mut LinkedHashMap<OrderId, Order>, k: OrderId, v: Order) -> (r: Option<Order>)
    requires
        forall|i: int| 0 <= i < queue_of(*old(m)).len() ==> queue_of(*old(m))[i].0 != k,
    ensures
        queue_of(*final(m)) == queue_of(*old(m)).push((k, v)),
        r is None,
{
    m.insert(k, v)
}

/// Relies on `LinkedHashMap::is_empty`: whether the map holds no entry.
#[verifier::external_body]
fn queue_is_empty(m: &LinkedHashMap<OrderId, Order>) -> (r: bool)
    ensures
        r == (queue_of(*m).len() == 0),
{
    m.is_empty()
}

/// Relies on `LinkedHashMap::front`: the oldest entry, if any.
#[verifier::external_body]
fn queue_front(m: &LinkedHashMap<OrderId, Order>) -> (r: Option<(OrderId, Order)>)
    ensures
        queue_of(*m).len() == 0 ==> r is None,
        queue_of(*m).len() > 0 ==> r == Some(queue_of(*m)[0]),
{
    m.front().map(|(k, v)| (*k, *v))
}

/// Relies on `LinkedHashMap::pop_front`: removes and returns the oldest entry.
#[verifier::external_body]
fn queue_pop_front(m: &mut LinkedHashMap<OrderId, Order>) -> (r: Option<(OrderId, Order)>)
    ensures
        queue_of(*old(m)).len() == 0 ==> r is None && queue_of(*final(m)) == queue_of(*old(m)),
        queue_of(*old(m)).len() > 0 ==> r == Some(queue_of(*old(m))[0]) && queue_of(*final(m))
            == queue_of(*old(m)).drop_first(),
{
    m.pop_front()
}

/// Relies on `LinkedHashMap::get_mut`: the value under a present key, to be
/// changed in place without moving the entry.
#[verifier::external_body]
fn queue_get_mut<'a>(m: &'a mut LinkedHashMap<OrderId, Order>, k: &OrderId) -> (r: &'a mut Order)
    requires
        queue_of(*old(m)).len() > 0,
        queue_of(*old(m))[0].0 == *k,
    ensures
        *r == queue_of(*old(m))[0].1,
        queue_of(*final(m)) == queue_of(*old(m)).update(0, (*k, *final(r))),
{
    m.get_mut(k).unwrap()
}

/// What the orders of a queue have left to fill, summed.
pub open spec fn queue_total(q: Seq<(OrderId, Order)>) -> int
    decreases q.len(),
{
    if q.len() == 0 {
        0
    } else {
        q[0].1.unfilled_amount + queue_total(q.drop_first())
    }
}

pub proof fn lemma_queue_total_push(q: Seq<(OrderId, Order)>, e: (OrderId, Order))
    ensures
        queue_total(q.push(e)) == queue_total(q) + e.1.unfilled_amount,
    decreases q.len(),
{
    if q.len() > 0 {
        assert(q.push(e).drop_first() =~= q.drop_first().push(e));
        lemma_queue_total_push(q.drop_first(), e);
    } else {
        assert(q.push(e).drop_first() =~= q);
    }
}

pub proof fn lemma_queue_total_nonneg(q: Seq<(OrderId, Order)>)
    ensures
        queue_total(q) >= 0,
        q.len() > 0 ==> queue_total(q) >= q[0].1.unfilled_amount,
    decreases q.len(),
{
    if q.len() > 0 {
        lemma_queue_total_nonneg(q.drop_first());
    }
}

/// The orders resting at one price, oldest first, with their total.
#[derive(Debug)]
pub struct Level {
    pub orders: LinkedHashMap<OrderId, Order>,
    pub amount: Amount,
    pub price: Price,
}

impl Level {
    pub open spec fn queue(&self) -> Seq<(OrderId, Order)> {
        queue_of(self.orders)
    }

    /// Every order is keyed by its id, rests at the level's price with
    /// something left to fill, and `amount` is what they have left in all.
    pub open spec fn wf(&self) -> bool {
        &&& self.amount == queue_total(self.queue())
        &&& self.entries_wf()
    }

    pub open spec fn entries_wf(&self) -> bool {
        &&& forall|i: int|
            0 <= i < self.queue().len() ==> {
                &&& #[trigger] self.queue()[i].0 == self.queue()[i].1.order_id
                &&& self.queue()[i].1.price == self.price
                &&& self.queue()[i].1.unfilled_amount > 0
            }
        &&& forall|i: int, j: int|
            0 <= i < j < self.queue().len() ==> #[trigger] self.queue()[i].0 != #[trigger] self.queue()[j].0
    }

    pub open spec fn holds_id(&self, id: OrderId) -> bool {
        exists|i: int| 0 <= i < self.queue().len() && #[trigger] self.queue()[i].0 == id
    }

    /// A level holding `order` alone.
    pub fn insert_level(order: Order) -> (r: Self)
        requires
            order.unfilled_amount > 0,
        ensures
            r.wf(),
            r.queue() == seq![(order.order_id, order)],
            r.amount == order.unfilled_amount,
            r.price == order.price,
    {
        let mut orders = queue_new();
        let amount = order.unfilled_amount;
        let price = order.price;
        let _ = queue_insert(&mut orders, order.order_id, order);
        proof {
            lemma_queue_total_push(Seq::empty(), (order.order_id, order));
            assert(Seq::<(OrderId, Order)>::empty().push((order.order_id, order)) =~= seq![(order.order_id, order)]);
        }
        Level { orders, amount, price }
    }

    pub fn is_empty(&self) -> (r: bool)
        ensures
            r == (self.queue().len() == 0),
    {
        queue_is_empty(&self.orders)
    }

    /// Takes `amount` off the level's total.
    pub fn decr_size(&mut self, amount: &Amount)
        requires
            *amount <= old(self).amount,
        ensures
            final(self).amount == old(self).amount - *amount,
            final(self).orders == old(self).orders,
            final(self).price == old(self).price,
    {
        self.amount = self.amount - *amount;
    }

    /// The oldest order, if any.
    pub fn front(&self) -> (r: Option<(OrderId, Order)>)
        ensures
            self.queue().len() == 0 ==> r is None,
            self.queue().len() > 0 ==> r == Some(self.queue()[0]),
    {
        queue_front(&self.orders)
    }

    /// Removes the oldest order; the caller lowers the total by what it had
    /// left.
    pub fn pop_front(&mut self) -> (r: (OrderId, Order))
        requires
            old(self).wf(),
            old(self).queue().len() > 0,
        ensures
            r == old(self).queue()[0],
            final(self).queue() == old(self).queue().drop_first(),
            final(self).price == old(self).price,
            final(self).amount == old(self).amount,
            final(self).entries_wf(),
            queue_total(final(self).queue()) == old(self).amount - r.1.unfilled_amount,
    {
        let r = queue_pop_front(&mut self.orders);
        proof {
            let q = old(self).queue();
            assert forall|i: int| 0 <= i < self.queue().len() implies {
                &&& #[trigger] self.queue()[i].0 == self.queue()[i].1.order_id
                &&& self.queue()[i].1.price == self.price
                &&& self.queue()[i].1.unfilled_amount > 0
            } by {
                assert(self.queue()[i] == q[i + 1]);
                assert(q[i + 1].0 == q[i + 1].1.order_id);
            }
            assert forall|i: int, j: int| 0 <= i < j < self.queue().len() implies #[trigger] self.queue()[i].0 != #[trigger] self.queue()[j].0 by {
                assert(q[i + 1].0 != q[j + 1].0);
            }
        }
        match r {
            Some(e) => e,
            None => (0, Order { user_id: 0, order_id: 0, price: 0, unfilled_amount: 0 }),
        }
    }

    /// Takes `qty` off what the oldest order has left, keeping its place;
    /// the caller lowers the total by `qty`.
    pub fn fill_front(&mut self, qty: Amount)
        requires
            old(self).wf(),
            old(self).queue().len() > 0,
            0 < qty < old(self).queue()[0].1.unfilled_amount,
        ensures
            final(self).queue() == old(self).queue().update(
                0,
                (old(self).queue()[0].0, Order { unfilled_amount: (old(self).queue()[0].1.unfilled_amount - qty) as u64, ..old(self).queue()[0].1 }),
            ),
            final(self).price == old(self).price,
            final(self).amount == old(self).amount,
            final(self).entries_wf(),
            queue_total(final(self).queue()) == old(self).amount - qty,
    {
        let ghost q = self.queue();
        let (k, _) = match queue_front(&self.orders) {
            Some(e) => e,
            None => {
                return ;
            },
        };
        let o = queue_get_mut(&mut self.orders, &k);
        o.fill(qty);
        proof {
            let q2 = self.queue();
            assert(q2.drop_first() =~= q.drop_first());
            assert(q[0].0 == q[0].1.order_id);
            assert forall|i: int| 0 <= i < q2.len() implies {
                &&& #[trigger] q2[i].0 == q2[i].1.order_id
                &&& q2[i].1.price == self.price
                &&& q2[i].1.unfilled_amount > 0
            } by {
                assert(q[i].0 == q[i].1.order_id);
            }
            assert forall|i: int, j: int| 0 <= i < j < q2.len() implies #[trigger] q2[i].0 != #[trigger] q2[j].0 by {
                assert(q[i].0 != q[j].0);
            }
        }
    }

    /// Adds `order` at the back of the level.
    pub fn push_order(&mut self, order: Order)
        requires
            old(self).wf(),
            order.price == old(self).price,
            order.unfilled_amount > 0,
            !old(self).holds_id(order.order_id),
            old(self).amount + order.unfilled_amount <= Amount::MAX,
        ensures
            final(self).wf(),
            final(self).queue() == old(self).queue().push((order.order_id, order)),
            final(self).amount == old(self).amount + order.unfilled_amount,
            final(self).price == old(self).price,
    {
        proof {
            assert forall|i: int| 0 <= i < self.queue().len() implies self.queue()[i].0 != order.order_id by {
                if self.queue()[i].0 == order.order_id {
                    assert(self.holds_id(order.order_id));
                }
            }
            lemma_queue_total_push(self.queue(), (order.order_id, order));
        }
        let _ = queue_insert(&mut self.orders, order.order_id, order);
        self.amount = self.amount + order.unfilled_amount;
        proof {
            let q = self.queue();
            assert forall|i: int, j: int| 0 <= i < j < q.len() implies #[trigger] q[i].0 != #[trigger] q[j].0 by {
                if j == q.len() - 1 {
                    assert(old(self).queue()[i].0 != order.order_id);
                } else {
                    assert(old(self).queue()[i].0 != old(self).queue()[j].0);
                }
            }
        }
    }
}

/// Levels sorted by strictly rising price, none empty, each well formed, and
/// every order id at most `max_id`.
pub open spec fn table_wf(t: Seq<Level>, max_id: OrderId) -> bool {
    &&& forall|i: int|
        0 <= i < t.len() ==> {
            &&& (#[trigger] t[i]).wf()
            &&& t[i].queue().len() > 0
            &&& forall|k: int| 0 <= k < t[i].queue().len() ==> #[trigger] t[i].queue()[k].0 <= max_id
        }
    &&& forall|i: int, j: int| 0 <= i < j < t.len() ==> (#[trigger] t[i]).price < (#[trigger] t[j]).price
}

pub proof fn lemma_table_wf_mono(t: Seq<Level>, a: OrderId, b: OrderId)
    requires
        table_wf(t, a),
        a <= b,
    ensures
        table_wf(t, b),
{
    assert forall|i: int| 0 <= i < t.len() implies forall|k: int| 0 <= k < (#[trigger] t[i]).queue().len() ==> #[trigger] t[i].queue()[k].0 <= b by {
        assert forall|k: int| 0 <= k < t[i].queue().len() implies #[trigger] t[i].queue()[k].0 <= b by {
            assert(t[i].queue()[k].0 <= a);
        }
    }
}

/// Whether a level of `t` rests at `price`.
pub open spec fn table_has_price(t: Seq<Level>, price: Price) -> bool {
    exists|i: int| 0 <= i < t.len() && (#[trigger] t[i]).price == price
}

/// Whether adding `amount` at `price` keeps that level's total in range.
pub open spec fn table_has_room(t: Seq<Level>, price: Price, amount: Amount) -> bool {
    forall|i: int| 0 <= i < t.len() && (#[trigger] t[i]).price == price ==> t[i].amount + amount <= Amount::MAX
}

pub proof fn lemma_level_nonempty_amount(l: Level)
    requires
        l.wf(),
    ensures
        l.queue().len() > 0 <==> l.amount > 0,
{
    lemma_queue_total_nonneg(l.queue());
    if l.queue().len() > 0 {
        assert(l.queue()[0].0 == l.queue()[0].1.order_id);
    } else {
        assert(queue_total(l.queue()) == 0);
    }
}

/// A limit book: asks and bids, each as levels of rising price, so that the
/// best ask comes first and the best bid last.
#[derive(Debug)]
pub struct OrderBook {
    pub asks: Vec<Level>,
    pub bids: Vec<Level>,
    pub order_id_to_price: OrderIdToPrice,
    pub price: Price,
    pub id: u64,
}

impl OrderBook {
    /// Both tables well formed, with no order id above the last one handed out.
    pub open spec fn wf(&self) -> bool {
        &&& table_wf(self.asks@, self.id)
        &&& table_wf(self.bids@, self.id)
    }

    pub open spec fn side_table(&self, side: Side) -> Seq<Level> {
        match side {
            Side::Bid => self.bids@,
            Side::Ask => self.asks@,
        }
    }

    pub fn new(init_price: Price) -> (r: Self)
        ensures
            r.wf(),
            r.asks@.len() == 0,
            r.bids@.len() == 0,
            r.order_id_to_price@ == Map::<OrderId, Price>::empty(),
            r.price == init_price,
            r.id == 0,
    {
        OrderBook {
            asks: Vec::new(),
            bids: Vec::new(),
            order_id_to_price: HashMap::new(),
            price: init_price,
            id: 0,
        }
    }

    /// Hands out the next order id.
    pub fn incr_then_fetch_order_id(&mut self) -> (r: OrderId)
        requires
            old(self).id < u64::MAX,
        ensures
            r == old(self).id + 1,
            *final(self) == (OrderBook { id: r, ..*old(self) }),
    {
        self.id = self.id + 1;
        self.id
    }

    /// Rests `order` at the back of its level on `side`, making the level if
    /// there is none at its price yet. The id counter moves up to the
    /// order's id if it was behind, so that ids handed out later stay new.
    pub fn place_order(&mut self, order: Order, side: Side)
        requires
            old(self).wf(),
            order.unfilled_amount > 0,
            forall|i: int| 0 <= i < old(self).side_table(side).len() ==> !(#[trigger] old(self).side_table(side)[i]).holds_id(order.order_id),
            table_has_room(old(self).side_table(side), order.price, order.unfilled_amount),
        ensures
            final(self).wf(),
            final(self).id == if order.order_id > old(self).id { order.order_id } else { old(self).id },
            final(self).price == old(self).price,
            final(self).order_id_to_price@ == old(self).order_id_to_price@.insert(order.order_id, order.price),
            side == Side::Bid ==> final(self).asks@ == old(self).asks@,
            side == Side::Ask ==> final(self).bids@ == old(self).bids@,
            table_placed(old(self).side_table(side), final(self).side_table(side), order),
    {
        if order.order_id > self.id {
            proof {
                lemma_table_wf_mono(self.bids@, self.id, order.order_id);
                lemma_table_wf_mono(self.asks@, self.id, order.order_id);
            }
            self.id = order.order_id;
        }
        match side {
            Side::Bid => Self::insert_into(&mut self.bids, &mut self.order_id_to_price, order, Ghost(self.id)),
            Side::Ask => Self::insert_into(&mut self.asks, &mut self.order_id_to_price, order, Ghost(self.id)),
        }
    }

    /// The index of the best level on the side opposite to a taker of
    /// `ask_or_bid`, when the taker's price reaches it: the lowest ask for a
    /// bid at or above it, the highest bid for an ask at or below it.
    pub fn get_best_if_match(&self, ask_or_bid: Side, taker_price: &Price) -> (r: Option<usize>)
        ensures
            ask_or_bid == Side::Bid ==> r == (if self.asks@.len() > 0 && *taker_price >= self.asks@[0].price {
                Some(0usize)
            } else {
                None
            }),
            ask_or_bid == Side::Ask ==> (r is Some) == (self.bids@.len() > 0 && *taker_price <= self.bids@.last().price),
            ask_or_bid == Side::Ask && r is Some ==> r->0 == self.bids@.len() - 1,
    {
        match ask_or_bid {
            Side::Bid => {
                if self.asks.len() > 0 && *taker_price >= self.asks[0].price {
                    Some(0)
                } else {
                    None
                }
            },
            Side::Ask => {
                let n = self.bids.len();
                if n > 0 && *taker_price <= self.bids[n - 1].price {
                    Some(n - 1)
                } else {
                    None
                }
            },
        }
    }

    pub fn get_best_ask(&self) -> (r: Option<Price>)
        ensures
            r == (if self.asks@.len() > 0 { Some(self.asks@[0].price) } else { None }),
    {
        if self.asks.len() > 0 {
            Some(self.asks[0].price)
        } else {
            None
        }
    }

    pub fn get_best_bid(&self) -> (r: Option<Price>)
        ensures
            r == (if self.bids@.len() > 0 { Some(self.bids@.last().price) } else { None }),
    {
        let n = self.bids.len();
        if n > 0 {
            Some(self.bids[n - 1].price)
        } else {
            None
        }
    }

    pub(crate) fn get_size_from(tape: &Table, price: &Price) -> (r: Option<Amount>)
        requires
            forall|i: int, j: int| 0 <= i < j < tape@.len() ==> (#[trigger] tape@[i]).price < (#[trigger] tape@[j]).price,
        ensures
            r == table_amount_at(tape@, *price),
    {
        let mut i: usize = 0;
        while i < tape.len()
            invariant
                i <= tape@.len(),
                forall|a: int, b: int| 0 <= a < b < tape@.len() ==> (#[trigger] tape@[a]).price < (#[trigger] tape@[b]).price,
                forall|k: int| 0 <= k < i ==> (#[trigger] tape@[k]).price != *price,
            decreases tape@.len() - i,
        {
            if tape[i].price == *price {
                proof {
                    assert forall|k: int| 0 <= k < tape@.len() && (#[trigger] tape@[k]).price == *price implies k == i by {
                        if k < i {
                        } else if k > i {
                            assert(tape@[i as int].price < tape@[k].price);
                        }
                    }
                }
                return Some(tape[i].amount);
            }
            i = i + 1;
        }
        None
    }

    /// The total at `price`, looked up among the asks when the price is at
    /// or above the best ask and among the bids otherwise.
    pub fn get_page_size(&self, price: &Price) -> (r: Option<Amount>)
        requires
            self.wf(),
        ensures
            r == (if self.asks@.len() > 0 && *price >= self.asks@[0].price {
                table_amount_at(self.asks@, *price)
            } else if self.bids@.len() > 0 {
                table_amount_at(self.bids@, *price)
            } else if self.asks@.len() > 0 {
                table_amount_at(self.asks@, *price)
            } else {
                None
            }),
    {
        match (self.get_best_ask(), self.get_best_bid()) {
            (Some(best_ask), Some(_)) => {
                if *price >= best_ask {
                    Self::get_size_from(&self.asks, price)
                } else {
                    Self::get_size_from(&self.bids, price)
                }
            },
            (None, Some(_)) => Self::get_size_from(&self.bids, price),
            (Some(_), None) => Self::get_size_from(&self.asks, price),
            _ => None,
        }
    }

    fn insert_into(table: &mut Table, order_id_to_price: &mut OrderIdToPrice, order: Order, Ghost(max_id): Ghost<OrderId>)
        requires
            table_wf(old(table)@, max_id),
            order.unfilled_amount > 0,
            order.order_id <= max_id,
            forall|i: int| 0 <= i < old(table)@.len() ==> !(#[trigger] old(table)@[i]).holds_id(order.order_id),
            table_has_room(old(table)@, order.price, order.unfilled_amount),
        ensures
            table_wf(final(table)@, max_id),
            final(order_id_to_price)@ == old(order_id_to_price)@.insert(order.order_id, order.price),
            table_placed(old(table)@, final(table)@, order),
    {
        order_id_to_price.insert(order.order_id, order.price);
        let n = table.len();
        let mut i: usize = 0;
        while i < n && table[i].price < order.price
            invariant
                n == table@.len(),
                i <= n,
                table_wf(table@, max_id),
                forall|k: int| 0 <= k < i ==> (#[trigger] table@[k]).price < order.price,
            decreases n - i,
        {
            i = i + 1;
        }
        let ghost t0 = table@;
        if i < n && table[i].price == order.price {
            let mut page = table.remove(i);
            assert(t0[i as int] == page);
            page.push_order(order);
            proof {
                assert forall|k: int| 0 <= k < page.queue().len() implies #[trigger] page.queue()[k].0 <= max_id by {
                    if k < page.queue().len() - 1 {
                        assert(t0[i as int].queue()[k] == page.queue()[k]);
                    }
                }
            }
            table.insert(i, page);
            proof {
                assert(table@ =~= t0.update(i as int, page));
                assert(table_wf(table@, max_id));
                assert(table@[i as int].price == order.price);
                assert(table_placed(t0, table@, order));
            }
        } else {
            let page = Level::insert_level(order);
            table.insert(i, page);
            proof {
                assert(table@ =~= t0.insert(i as int, page));
                assert forall|a: int, b: int| 0 <= a < b < table@.len() implies (#[trigger] table@[a]).price < (#[trigger] table@[b]).price by {
                    if b < i {
                    } else if b == i {
                        assert(t0[a].price < order.price);
                    } else if a == i {
                        assert(i < n);
                        assert(t0[i as int].price >= order.price);
                        assert(t0[i as int].price != order.price);
                        if b > i + 1 {
                            assert(t0[i as int].price < t0[b - 1].price);
                        }
                    } else if a < i {
                    } else {
                        assert(t0[a - 1].price < t0[b - 1].price);
                    }
                }
                assert(!table_has_price(t0, order.price)) by {
                    if table_has_price(t0, order.price) {
                        let k = choose|k: int| 0 <= k < t0.len() && (#[trigger] t0[k]).price == order.price;
                        if k >= i {
                            assert(t0[i as int].price != order.price);
                            assert(t0[i as int].price < t0[k].price);
                        }
                    }
                }
                assert(table@[i as int].price == order.price);
                assert(table_placed(t0, table@, order));
            }
        }
    }
}

/// The total of the level of `t` at `price`, if there is one.
pub open spec fn table_amount_at(t: Seq<Level>, price: Price) -> Option<Amount> {
    if table_has_price(t, price) {
        Some(t[choose|i: int| 0 <= i < t.len() && (#[trigger] t[i]).price == price].amount)
    } else {
        None
    }
}

/// `after` is `before` with `order` resting at the back of the level at its
/// price, that level made new where `before` had none.
pub open spec fn table_placed(before: Seq<Level>, after: Seq<Level>, order: Order) -> bool {
    exists|i: int|
        0 <= i < after.len() && (#[trigger] after[i]).price == order.price && {
            ||| (i < before.len() && before[i].price == order.price && after[i].queue() == before[i].queue().push((order.order_id, order))
                && after[i].amount == before[i].amount + order.unfilled_amount && after == before.update(i, after[i]))
            ||| (i <= before.len() && !table_has_price(before, order.price) && after[i].queue() == seq![(order.order_id, order)]
                && after == before.insert(i, after[i]))
        }
}

} // verus!

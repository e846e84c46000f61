use vstd::prelude::*;

use std::collections::BTreeMap;

use crate::order::{Order, Side};
use crate::orderbook::{
    lemma_table_wf_mono, table_has_price, lemma_level_nonempty_amount, lemma_queue_total_nonneg, queue_total, table_has_room, table_placed,
    table_wf, Level, OrderBook,
};
use crate::types::{Amount, OrderId, Price, Table, UserId};

verus! {

/// How many resting orders one taker may consume.
pub const MAX_MAKERS: u32 = 20;

#[derive(Debug, Eq, PartialEq, Clone, Copy, Structural)]
pub enum State {
    Placed,
    Canceled,
    Filled,
    PartiallyFilled,
    ConditionallyCanceled,
}

#[derive(Debug, Eq, PartialEq, Clone, Copy, Structural)]
pub enum Role {
    Taker,
    Maker,
}

impl Role {
    pub open spec fn spec_code(self) -> u32 {
        match self {
            Role::Maker => 0,
            Role::Taker => 1,
        }
    }

    /// The wire code of the role.
    pub fn code(self) -> (r: u32)
        ensures
            r == self.spec_code(),
    {
        match self {
            Role::Maker => 0,
            Role::Taker => 1,
        }
    }
}

impl State {
    pub open spec fn spec_code(self) -> u8 {
        match self {
            State::Placed => 0,
            State::Canceled => 1,
            State::Filled => 2,
            State::PartiallyFilled => 3,
            State::ConditionallyCanceled => 4,
        }
    }

    /// The wire code of the state.
    pub fn code(self) -> (r: u8)
        ensures
            r == self.spec_code(),
    {
        match self {
            State::Placed => 0,
            State::Canceled => 1,
            State::Filled => 2,
            State::PartiallyFilled => 3,
            State::ConditionallyCanceled => 4,
        }
    }
}

impl From<Role> for u32 {
    fn from(role: Role) -> (r: u32) {
        role.code()
    }
}

impl vstd::std_specs::convert::FromSpecImpl<Role> for u32 {
    open spec fn obeys_from_spec() -> bool {
        true
    }

    open spec fn from_spec(role: Role) -> u32 {
        role.spec_code()
    }
}

impl From<State> for u8 {
    fn from(state: State) -> (r: u8) {
        state.code()
    }
}

impl vstd::std_specs::convert::FromSpecImpl<State> for u8 {
    open spec fn obeys_from_spec() -> bool {
        true
    }

    open spec fn from_spec(state: State) -> u8 {
        state.spec_code()
    }
}

impl From<State> for u32 {
    fn from(state: State) -> (r: u32) {
        state.code() as u32
    }
}

impl vstd::std_specs::convert::FromSpecImpl<State> for u32 {
    open spec fn obeys_from_spec() -> bool {
        true
    }

    open spec fn from_spec(state: State) -> u32 {
        state.spec_code() as u32
    }
}

#[derive(Debug, Eq, PartialEq, Clone, Copy)]
pub struct Taker {
    pub user_id: UserId,
    pub order_id: u64,
    pub price: Price,
    pub unfilled: Amount,
    pub ask_or_bid: Side,
    pub state: State,
}

impl Taker {
    pub fn taker(order: Order, ask_or_bid: Side, state: State) -> (r: Self)
        ensures
            r == (Taker {
                user_id: order.user_id,
                order_id: order.order_id,
                price: order.price,
                unfilled: order.unfilled_amount,
                ask_or_bid,
                state,
            }),
    {
        Taker {
            user_id: order.user_id,
            order_id: order.order_id,
            price: order.price,
            unfilled: order.unfilled_amount,
            ask_or_bid,
            state,
        }
    }

    pub fn taker_filled(user_id: UserId, order_id: u64, price: Price, ask_or_bid: Side) -> (r: Self)
        ensures
            r == (Taker { user_id, order_id, price, unfilled: 0, ask_or_bid, state: State::Filled }),
    {
        Taker { user_id, order_id, price, unfilled: 0, ask_or_bid, state: State::Filled }
    }

    pub fn taker_placed(user_id: UserId, order_id: u64, price: Price, unfilled: Amount, ask_or_bid: Side) -> (r: Self)
        ensures
            r == (Taker { user_id, order_id, price, unfilled, ask_or_bid, state: State::PartiallyFilled }),
    {
        Taker { user_id, order_id, price, unfilled, ask_or_bid, state: State::PartiallyFilled }
    }

    pub fn cancel(user_id: UserId, order_id: u64, price: Price, unfilled: Amount, ask_or_bid: Side) -> (r: Self)
        ensures
            r == (Taker { user_id, order_id, price, unfilled, ask_or_bid, state: State::Canceled }),
    {
        Taker { user_id, order_id, price, unfilled, ask_or_bid, state: State::Canceled }
    }
}

#[derive(Debug, Eq, PartialEq, Clone, Copy)]
pub struct Maker {
    pub user_id: UserId,
    pub order_id: u64,
    pub price: Price,
    pub filled: Amount,
    pub state: State,
}

impl Maker {
    pub fn maker_filled(user_id: UserId, order_id: u64, price: Price, filled: Amount) -> (r: Self)
        ensures
            r == (Maker { user_id, order_id, price, filled, state: State::Filled }),
    {
        Maker { user_id, order_id, price, filled, state: State::Filled }
    }

    pub fn maker_so_far(user_id: UserId, order_id: u64, price: Price, filled: Amount) -> (r: Self)
        ensures
            r == (Maker { user_id, order_id, price, filled, state: State::PartiallyFilled }),
    {
        Maker { user_id, order_id, price, filled, state: State::PartiallyFilled }
    }
}

/// The outcome of one limit order: the resting orders it consumed, in the
/// order consumed, the taker's own end state, and for each price touched the
/// level's total before and after.
#[derive(Debug, Eq, PartialEq, Clone)]
pub struct Match {
    pub maker: Vec<Maker>,
    pub taker: Taker,
    pub page_delta: BTreeMap<Price, (Amount, Amount)>,
}

/// What the makers of `ms` took, summed.
pub open spec fn makers_total(ms: Seq<Maker>) -> int
    decreases ms.len(),
{
    if ms.len() == 0 {
        0
    } else {
        makers_total(ms.drop_last()) + ms.last().filled
    }
}

proof fn lemma_makers_total_push(ms: Seq<Maker>, m: Maker)
    ensures
        makers_total(ms.push(m)) == makers_total(ms) + m.filled,
{
    assert(ms.push(m).drop_last() =~= ms);
}

proof fn lemma_makers_total_pos(ms: Seq<Maker>)
    requires
        forall|k: int| 0 <= k < ms.len() ==> (#[trigger] ms[k]).filled > 0,
    ensures
        ms.len() > 0 ==> makers_total(ms) > 0,
        makers_total(ms) >= 0,
    decreases ms.len(),
{
    if ms.len() > 0 {
        assert forall|k: int| 0 <= k < ms.drop_last().len() implies (#[trigger] ms.drop_last()[k]).filled > 0 by {
            assert(ms.drop_last()[k] == ms[k]);
        }
        lemma_makers_total_pos(ms.drop_last());
        assert(ms.last() == ms[ms.len() - 1]);
    }
}

/// `ms` were taken, in order, from the front of `q` by a taker of `user`:
/// each is the entry of `q` at its place, of another user; each but the last
/// was filled whole, the last whole or in part.
pub open spec fn takes_front(q: Seq<(OrderId, Order)>, ms: Seq<Maker>, user: UserId) -> bool {
    &&& ms.len() <= q.len()
    &&& forall|k: int|
        0 <= k < ms.len() ==> {
            &&& (#[trigger] ms[k]).order_id == q[k].0
            &&& ms[k].user_id == q[k].1.user_id
            &&& ms[k].price == q[k].1.price
            &&& ms[k].user_id != user
            &&& 0 < ms[k].filled
            &&& {
                ||| (ms[k].state == State::Filled && ms[k].filled == q[k].1.unfilled_amount)
                ||| (k == ms.len() - 1 && ms[k].state == State::PartiallyFilled && ms[k].filled
                    < q[k].1.unfilled_amount)
            }
        }
}

/// What is left of `q` once the makers of `ms` were taken from its front.
pub open spec fn queue_after(q: Seq<(OrderId, Order)>, ms: Seq<Maker>) -> Seq<(OrderId, Order)> {
    if ms.len() > 0 && ms.last().state == State::PartiallyFilled {
        let k = ms.len() - 1;
        q.subrange(k, q.len() as int).update(
            0,
            (q[k].0, Order { unfilled_amount: (q[k].1.unfilled_amount - ms.last().filled) as u64, ..q[k].1 }),
        )
    } else {
        q.subrange(ms.len() as int, q.len() as int)
    }
}

/// Fills `taker` against the orders of `page`, oldest first, while it has
/// something left, the level is not empty and `limit` allows one more maker.
/// It stops short, and says so, when the limit is spent or the oldest order
/// is the taker's own user's.
fn take(page: &mut Level, taker: &mut Order, limit: &mut u32) -> (r: (Vec<Maker>, bool))
    requires
        old(page).wf(),
    ensures
        final(page).wf(),
        final(page).price == old(page).price,
        takes_front(old(page).queue(), r.0@, old(taker).user_id),
        final(page).queue() == queue_after(old(page).queue(), r.0@),
        final(page).amount == old(page).amount - makers_total(r.0@),
        0 <= makers_total(r.0@) <= old(taker).unfilled_amount,
        *final(taker) == (Order { unfilled_amount: (old(taker).unfilled_amount - makers_total(r.0@)) as u64, ..*old(taker) }),
        r.0@.len() <= *old(limit),
        *final(limit) == *old(limit) - r.0@.len(),
        r.1 == (final(taker).unfilled_amount > 0 && final(page).queue().len() > 0),
        r.1 ==> *final(limit) == 0 || final(page).queue()[0].1.user_id == old(taker).user_id,
        r.0@.len() == 0 ==> *final(page) == *old(page),
{
    let ghost q0 = page.queue();
    let ghost a0 = page.amount;
    let ghost t0 = *taker;
    let ghost l0 = *limit;
    let mut matches = Vec::<Maker>::new();
    proof {
        assert(q0.subrange(0, q0.len() as int) =~= q0);
    }
    while !taker.is_filled() && !page.is_empty()
        invariant
            page.wf(),
            page.price == old(page).price,
            q0 == old(page).queue(),
            t0 == *old(taker),
            l0 == *old(limit),
            takes_front(q0, matches@, t0.user_id),
            forall|k: int| 0 <= k < matches@.len() ==> (#[trigger] matches@[k]).state == State::Filled,
            page.queue() == q0.subrange(matches@.len() as int, q0.len() as int),
            page.amount == a0 - makers_total(matches@),
            a0 == old(page).amount,
            *taker == (Order { unfilled_amount: (t0.unfilled_amount - makers_total(matches@)) as u64, ..t0 }),
            0 <= makers_total(matches@) <= t0.unfilled_amount,
            matches@.len() <= l0,
            *limit == l0 - matches@.len(),
            matches@.len() == 0 ==> *page == *old(page),
        decreases page.queue().len(),
    {
        if *limit == 0u32 {
            return (matches, true);
        }
        let (front_id, front) = match page.front() {
            Some(e) => e,
            None => {
                return (matches, false);
            },
        };
        proof {
            assert(page.queue()[0].0 == page.queue()[0].1.order_id);
        }
        if front.user_id == taker.user_id {
            return (matches, true);
        }
        proof {
            lemma_queue_total_nonneg(page.queue());
        }
        let ghost k = matches@.len() as int;
        let ghost m0 = matches@;
        assert(page.queue()[0] == q0[k]);
        if taker.unfilled_amount >= front.unfilled_amount {
            let _ = page.pop_front();
            let m = Maker::maker_filled(front.user_id, front.order_id, front.price, front.unfilled_amount);
            taker.fill(m.filled);
            page.decr_size(&m.filled);
            *limit = *limit - 1;
            proof {
                lemma_makers_total_push(matches@, m);
            }
            matches.push(m);
            proof {
                assert(page.queue() =~= q0.subrange(matches@.len() as int, q0.len() as int));
                assert forall|j: int| 0 <= j < matches@.len() implies (#[trigger] matches@[j]).state == State::Filled by {
                    if j < k {
                        assert(matches@[j] == m0[j]);
                    }
                }
                assert(takes_front(q0, matches@, t0.user_id)) by {
                    assert forall|j: int| 0 <= j < matches@.len() implies (#[trigger] matches@[j]).order_id == q0[j].0 by {
                        if j < k {
                            assert(matches@[j] == m0[j]);
                        }
                    }
                }
            }
        } else {
            let fill_qty = taker.unfilled_amount;
            page.fill_front(fill_qty);
            let m = Maker::maker_so_far(front.user_id, front.order_id, front.price, fill_qty);
            taker.fill(m.filled);
            page.decr_size(&m.filled);
            *limit = *limit - 1;
            proof {
                lemma_makers_total_push(matches@, m);
            }
            matches.push(m);
            proof {
                assert(matches@.last() == m);
                assert(page.queue() =~= queue_after(q0, matches@));
                assert forall|j: int| 0 <= j < matches@.len() implies (#[trigger] matches@[j]).order_id == q0[j].0 by {
                    if j < k {
                        assert(matches@[j] == m0[j]);
                    }
                }
                lemma_level_nonempty_amount(*page);
            }
            return (matches, false);
        }
    }
    proof {
        if matches@.len() > 0 {
            assert(matches@.last().state == State::Filled);
        }
        assert(page.queue() =~= queue_after(q0, matches@));
    }
    (matches, false)
}

/// Whether a taker on `side` at `taker_price` reaches a level at `level_price`.
pub open spec fn reaches(side: Side, taker_price: Price, level_price: Price) -> bool {
    match side {
        Side::Bid => level_price <= taker_price,
        Side::Ask => level_price >= taker_price,
    }
}

/// Whether a taker on `side` meets price `a` no later than price `b`.
pub open spec fn no_later(side: Side, a: Price, b: Price) -> bool {
    match side {
        Side::Bid => a <= b,
        Side::Ask => a >= b,
    }
}

pub open spec fn opposite(side: Side) -> Side {
    match side {
        Side::Bid => Side::Ask,
        Side::Ask => Side::Bid,
    }
}

/// The index of the best level of a table on the side opposite to `side`.
pub open spec fn best_index(t: Seq<Level>, side: Side) -> int {
    match side {
        Side::Bid => 0,
        Side::Ask => t.len() - 1,
    }
}

/// Takes from the level at `idx` of `table`, dropping the level if it ends
/// empty. Returns the makers, whether the taking stopped short, and the
/// level's total before and after.
fn take_at(table: &mut Table, idx: usize, taker: &mut Order, limit: &mut u32, Ghost(max_id): Ghost<OrderId>) -> (r: (Vec<Maker>, bool, Amount, Amount))
    requires
        table_wf(old(table)@, max_id),
        idx < old(table)@.len(),
    ensures
        table_wf(final(table)@, max_id),
        takes_front(old(table)@[idx as int].queue(), r.0@, old(taker).user_id),
        0 <= makers_total(r.0@) <= old(taker).unfilled_amount,
        *final(taker) == (Order { unfilled_amount: (old(taker).unfilled_amount - makers_total(r.0@)) as u64, ..*old(taker) }),
        r.0@.len() <= *old(limit),
        *final(limit) == *old(limit) - r.0@.len(),
        r.2 == old(table)@[idx as int].amount,
        r.3 == r.2 - makers_total(r.0@),
        r.3 == 0 ==> final(table)@ == old(table)@.remove(idx as int),
        r.3 == 0 ==> queue_after(old(table)@[idx as int].queue(), r.0@).len() == 0,
        r.0@.len() == 0 && r.3 > 0 ==> final(table)@ == old(table)@,
        r.3 > 0 ==> final(table)@.len() == old(table)@.len() && final(table)@[idx as int].price == old(table)@[idx as int].price
            && final(table)@ == old(table)@.update(idx as int, final(table)@[idx as int])
            && final(table)@[idx as int].queue() == queue_after(old(table)@[idx as int].queue(), r.0@)
            && final(table)@[idx as int].amount == r.3,
        r.1 == (final(taker).unfilled_amount > 0 && r.3 > 0),
        r.1 ==> *final(limit) == 0 || final(table)@[idx as int].queue()[0].1.user_id == old(taker).user_id,
        !r.1 && r.3 > 0 ==> final(taker).unfilled_amount == 0,
{
    let ghost t0 = table@;
    let mut page = table.remove(idx);
    assert(page == t0[idx as int]);
    let before = page.amount;
    let (traded, interrupted) = take(&mut page, taker, limit);
    let after = page.amount;
    proof {
        lemma_level_nonempty_amount(page);
    }
    if page.is_empty() {
        proof {
            assert(table@ =~= t0.remove(idx as int));
        }
    } else {
        table.insert(idx, page);
        proof {
            assert(table@ =~= t0.update(idx as int, page));
            if traded@.len() == 0 {
                assert(table@ =~= t0);
            }
            let q0 = t0[idx as int].queue();
            let q1 = page.queue();
            assert forall|k: int| 0 <= k < q1.len() implies #[trigger] q1[k].0 <= max_id by {
                if traded@.len() > 0 && traded@.last().state == State::PartiallyFilled {
                    let n = traded@.len() - 1;
                    if k == 0 {
                        assert(q0[n].0 <= max_id);
                    } else {
                        assert(q1[k] == q0[n + k]);
                        assert(q0[n + k].0 <= max_id);
                    }
                } else {
                    assert(q1[k] == q0[traded@.len() + k]);
                    assert(q0[traded@.len() + k].0 <= max_id);
                }
            }
            assert(table_wf(table@, max_id));
        }
    }
    (traded, interrupted, before, after)
}

/// The total of the level of `t` at `price`, or zero when there is none.
pub open spec fn level_amount_or_zero(t: Seq<Level>, price: Price) -> Amount {
    match crate::orderbook::table_amount_at(t, price) {
        Some(a) => a,
        None => 0,
    }
}

/// The makers of a taker that consumed the whole queue `q`.
pub open spec fn queue_makers(q: Seq<(OrderId, Order)>) -> Seq<Maker> {
    q.map_values(
        |e: (OrderId, Order)|
            Maker { user_id: e.1.user_id, order_id: e.0, price: e.1.price, filled: e.1.unfilled_amount, state: State::Filled },
    )
}

/// The index in `t` of the `j`-th level (from zero) that a taker on `side`
/// meets.
pub open spec fn walked_index(t: Seq<Level>, side: Side, j: int) -> int {
    match side {
        Side::Bid => j,
        Side::Ask => t.len() - 1 - j,
    }
}

/// The makers of a taker on `side` that consumed the first `j` levels it
/// meets in `t`, whole.
pub open spec fn full_takes(t: Seq<Level>, side: Side, j: nat) -> Seq<Maker>
    decreases j,
{
    if j == 0 {
        Seq::empty()
    } else {
        full_takes(t, side, (j - 1) as nat) + queue_makers(t[walked_index(t, side, j - 1)].queue())
    }
}

/// `t` without the first `j` levels that a taker on `side` meets.
pub open spec fn consumed(t: Seq<Level>, side: Side, j: int) -> Seq<Level> {
    match side {
        Side::Bid => t.subrange(j, t.len() as int),
        Side::Ask => t.subrange(0, t.len() - j),
    }
}

/// A taker of `user` on `side` walked the opposite table from `before` to
/// `after`, with makers `makers`: it consumed the first `j` levels it met
/// whole, then took `last` from the front of the next one, which stays with
/// what `queue_after` leaves; every other level is as it was.
pub open spec fn limit_walk(
    before: Seq<Level>,
    after: Seq<Level>,
    side: Side,
    user: UserId,
    makers: Seq<Maker>,
    j: nat,
    last: Seq<Maker>,
) -> bool {
    let rest = consumed(before, side, j as int);
    let b = best_index(rest, side);
    &&& j <= before.len()
    &&& makers == full_takes(before, side, j) + last
    &&& last.len() == 0 ==> after == rest
    &&& last.len() > 0 ==> {
        &&& rest.len() > 0
        &&& takes_front(rest[b].queue(), last, user)
        &&& after.len() == rest.len()
        &&& forall|k: int| 0 <= k < rest.len() && k != b ==> after[k] == rest[k]
        &&& after[b].queue() == queue_after(rest[b].queue(), last)
        &&& after[b].price == rest[b].price
        &&& after[b].amount == rest[b].amount - makers_total(last)
    }
}

/// No resting bid is at or above a resting ask.
pub open spec fn uncrossed_tables(bids: Seq<Level>, asks: Seq<Level>) -> bool {
    forall|i: int, j: int| 0 <= i < bids.len() && 0 <= j < asks.len() ==> (#[trigger] bids[i]).price < (#[trigger] asks[j]).price
}

/// Every level of `after` is at the price of a level of `before`.
pub open spec fn prices_from(after: Seq<Level>, before: Seq<Level>) -> bool {
    forall|k: int| 0 <= k < after.len() ==> exists|m: int| 0 <= m < before.len() && (#[trigger] before[m]).price == (#[trigger] after[k]).price
}

proof fn lemma_walk_prices(before: Seq<Level>, after: Seq<Level>, side: Side, user: UserId, makers: Seq<Maker>, j: nat, last: Seq<Maker>)
    requires
        limit_walk(before, after, side, user, makers, j, last),
    ensures
        prices_from(after, before),
{
    let rest = consumed(before, side, j as int);
    assert forall|k: int| 0 <= k < after.len() implies exists|m: int| 0 <= m < before.len() && (#[trigger] before[m]).price == (#[trigger] after[k]).price by {
        let b = best_index(rest, side);
        let kr = if last.len() > 0 && k == b { b } else { k };
        assert(after[k].price == rest[kr].price);
        match side {
            Side::Bid => {
                assert(rest[kr] == before[kr + j]);
            },
            Side::Ask => {
                assert(rest[kr] == before[kr]);
            },
        }
    }
}

proof fn lemma_uncrossed_keep(b0: Seq<Level>, a0: Seq<Level>, b1: Seq<Level>, a1: Seq<Level>, side: Side)
    requires
        side == Side::Bid ==> b1 == b0 && prices_from(a1, a0),
        side == Side::Ask ==> a1 == a0 && prices_from(b1, b0),
    ensures
        uncrossed_tables(b0, a0) ==> uncrossed_tables(b1, a1),
{
    if uncrossed_tables(b0, a0) {
        assert forall|i: int, j: int| 0 <= i < b1.len() && 0 <= j < a1.len() implies (#[trigger] b1[i]).price < (#[trigger] a1[j]).price by {
            if side == Side::Bid {
                let m = choose|m: int| 0 <= m < a0.len() && (#[trigger] a0[m]).price == a1[j].price;
                assert(b0[i].price < a0[m].price);
            } else {
                let m = choose|m: int| 0 <= m < b0.len() && (#[trigger] b0[m]).price == b1[i].price;
                assert(b0[m].price < a0[j].price);
            }
        }
    }
}

proof fn lemma_uncrossed_placed(b0: Seq<Level>, a0: Seq<Level>, b1: Seq<Level>, a1: Seq<Level>, side: Side, order: Order)
    requires
        side == Side::Bid ==> table_placed(b0, b1, order) && prices_from(a1, a0) && forall|k: int|
            0 <= k < a1.len() ==> !reaches(side, order.price, #[trigger] a1[k].price),
        side == Side::Ask ==> table_placed(a0, a1, order) && prices_from(b1, b0) && forall|k: int|
            0 <= k < b1.len() ==> !reaches(side, order.price, #[trigger] b1[k].price),
    ensures
        uncrossed_tables(b0, a0) ==> uncrossed_tables(b1, a1),
{
    if uncrossed_tables(b0, a0) {
        assert forall|i: int, j: int| 0 <= i < b1.len() && 0 <= j < a1.len() implies (#[trigger] b1[i]).price < (#[trigger] a1[j]).price by {
            if side == Side::Bid {
                let m = choose|m: int| 0 <= m < a0.len() && (#[trigger] a0[m]).price == a1[j].price;
                let x = choose|x: int| 0 <= x < b1.len() && (#[trigger] b1[x]).price == order.price && {
                    ||| (x < b0.len() && b0[x].price == order.price && b1[x].queue() == b0[x].queue().push((order.order_id, order))
                        && b1[x].amount == b0[x].amount + order.unfilled_amount && b1 == b0.update(x, b1[x]))
                    ||| (x <= b0.len() && !table_has_price(b0, order.price) && b1[x].queue() == seq![(order.order_id, order)] && b1 == b0.insert(x, b1[x]))
                };
                if b1[i].price != order.price {
                    if x < b0.len() && b0[x].price == order.price && b1 == b0.update(x, b1[x]) {
                        assert(b1[i] == b0[i]);
                        assert(b0[i].price < a0[m].price);
                    } else {
                        assert(b1 == b0.insert(x, b1[x]));
                        assert(i != x);
                        assert(b1.len() == b0.len() + 1);
                        if i < x {
                            assert(b1[i] == b0[i]);
                            assert(b0[i].price < a0[m].price);
                        } else {
                            assert(b1[i] == b0[i - 1]);
                            assert(b0[i - 1].price < a0[m].price);
                        }
                    }
                }
            } else {
                let m = choose|m: int| 0 <= m < b0.len() && (#[trigger] b0[m]).price == b1[i].price;
                let x = choose|x: int| 0 <= x < a1.len() && (#[trigger] a1[x]).price == order.price && {
                    ||| (x < a0.len() && a0[x].price == order.price && a1[x].queue() == a0[x].queue().push((order.order_id, order))
                        && a1[x].amount == a0[x].amount + order.unfilled_amount && a1 == a0.update(x, a1[x]))
                    ||| (x <= a0.len() && !table_has_price(a0, order.price) && a1[x].queue() == seq![(order.order_id, order)] && a1 == a0.insert(x, a1[x]))
                };
                if a1[j].price != order.price {
                    if x < a0.len() && a0[x].price == order.price && a1 == a0.update(x, a1[x]) {
                        assert(a1[j] == a0[j]);
                        assert(b0[m].price < a0[j].price);
                    } else {
                        assert(a1 == a0.insert(x, a1[x]));
                        assert(j != x);
                        if j < x {
                            assert(a1[j] == a0[j]);
                            assert(b0[m].price < a0[j].price);
                        } else {
                            assert(a1[j] == a0[j - 1]);
                            assert(b0[m].price < a0[j - 1].price);
                        }
                    }
                }
            }
        }
    }
}

proof fn lemma_whole_queue_taken(q: Seq<(OrderId, Order)>, ms: Seq<Maker>, user: UserId)
    requires
        takes_front(q, ms, user),
        queue_after(q, ms).len() == 0,
    ensures
        ms == queue_makers(q),
{
    if ms.len() > 0 && ms.last().state == State::PartiallyFilled {
        assert(queue_after(q, ms).len() == q.len() - (ms.len() - 1));
    }
    assert forall|k: int| 0 <= k < ms.len() implies (#[trigger] ms[k]) == queue_makers(q)[k] by {
        if k == ms.len() - 1 {
            assert(ms.last() == ms[k]);
        }
    }
    assert(ms =~= queue_makers(q));
}

/// Whether every maker of `ms` is of another user than `user`, reached by a
/// taker on `side` at `price`, took something, and the makers come in the
/// order of their prices as the taker met them.
pub open spec fn makers_ok(ms: Seq<Maker>, side: Side, user: UserId, price: Price) -> bool {
    &&& forall|k: int|
        0 <= k < ms.len() ==> {
            &&& (#[trigger] ms[k]).user_id != user
            &&& reaches(side, price, ms[k].price)
            &&& ms[k].filled > 0
        }
    &&& forall|i: int, j: int| 0 <= i < j < ms.len() ==> no_later(side, (#[trigger] ms[i]).price, (#[trigger] ms[j]).price)
}

/// Matches a limit order of `user_id` for `amount` at `price` on side
/// `ask_or_bid` against the book, best price first and oldest first within
/// a price, and rests what is left on its own side.
///
/// The taker gets the next order id. It stops, conditionally canceled, when
/// it would consume a resting order of its own user or more than
/// `MAX_MAKERS` resting orders; what it has left then does not rest.
#[verifier::spinoff_prover]
#[verifier::rlimit(100)]
pub fn execute_limit(book: &mut OrderBook, user_id: UserId, price: Price, amount: Amount, ask_or_bid: Side) -> (r: Match)
    requires
        old(book).wf(),
        old(book).id < u64::MAX,
        table_has_room(old(book).side_table(ask_or_bid), price, amount),
    ensures
        final(book).wf(),
        final(book).id == old(book).id + 1,
        r.maker@.len() > 0 ==> final(book).price == r.maker@.last().price,
        r.maker@.len() == 0 ==> final(book).price == old(book).price,
        forall|k: int| 0 <= k < r.maker@.len() ==> r.page_delta@.contains_key((#[trigger] r.maker@[k]).price),
        forall|p: Price|
            #[trigger] r.page_delta@.contains_key(p) ==> (exists|k: int| 0 <= k < r.maker@.len() && (#[trigger] r.maker@[k]).price == p) || ((
            r.taker.state == State::Placed || r.taker.state == State::PartiallyFilled) && p == price),
        r.taker.state == State::Placed || r.taker.state == State::PartiallyFilled ==> r.page_delta@.contains_key(price),
        (r.taker.state == State::Placed || r.taker.state == State::PartiallyFilled) && (forall|k: int|
            0 <= k < r.maker@.len() ==> (#[trigger] r.maker@[k]).price != price) ==> r.page_delta@[price] == (
            level_amount_or_zero(old(book).side_table(ask_or_bid), price),
            (level_amount_or_zero(old(book).side_table(ask_or_bid), price) + r.taker.unfilled) as u64,
        ),
        uncrossed_tables(old(book).bids@, old(book).asks@) ==> uncrossed_tables(final(book).bids@, final(book).asks@),
        exists|j: nat, last: Seq<Maker>|
            #[trigger] limit_walk(old(book).side_table(opposite(ask_or_bid)), final(book).side_table(opposite(ask_or_bid)), ask_or_bid, user_id, r.maker@, j, last),
        r.taker.order_id == final(book).id,
        r.taker.user_id == user_id,
        r.taker.price == price,
        r.taker.ask_or_bid == ask_or_bid,
        r.taker.unfilled + makers_total(r.maker@) == amount,
        r.maker@.len() <= MAX_MAKERS,
        makers_ok(r.maker@, ask_or_bid, user_id, price),
        forall|k: int| 0 <= k < r.maker@.len() && (#[trigger] r.maker@[k]).state == State::Filled ==> !final(book).order_id_to_price@.contains_key(r.maker@[k].order_id),
        r.taker.state == State::Placed || r.taker.state == State::PartiallyFilled ==> final(book).order_id_to_price@.contains_key(r.taker.order_id)
            && final(book).order_id_to_price@[r.taker.order_id] == price,
        r.taker.state == State::Filled || r.taker.state == State::Placed || r.taker.state == State::PartiallyFilled
            || r.taker.state == State::ConditionallyCanceled,
        (r.taker.state == State::Filled) == (r.taker.unfilled == 0),
        r.taker.state == State::Placed ==> r.maker@.len() == 0,
        r.taker.state == State::PartiallyFilled ==> r.maker@.len() > 0,
        r.taker.state == State::Placed || r.taker.state == State::PartiallyFilled ==> {
            &&& table_placed(
                old(book).side_table(ask_or_bid),
                final(book).side_table(ask_or_bid),
                Order { user_id, order_id: r.taker.order_id, price, unfilled_amount: r.taker.unfilled },
            )
            &&& forall|i: int|
                0 <= i < final(book).side_table(opposite(ask_or_bid)).len() ==> !reaches(
                    ask_or_bid,
                    price,
                    #[trigger] final(book).side_table(opposite(ask_or_bid))[i].price,
                )
        },
        r.taker.state == State::Filled || r.taker.state == State::ConditionallyCanceled ==> final(book).side_table(ask_or_bid)
            == old(book).side_table(ask_or_bid),
        r.taker.state == State::ConditionallyCanceled ==> r.maker@.len() == MAX_MAKERS || {
            let t = final(book).side_table(opposite(ask_or_bid));
            &&& t.len() > 0
            &&& reaches(ask_or_bid, price, t[best_index(t, ask_or_bid)].price)
            &&& t[best_index(t, ask_or_bid)].queue()[0].1.user_id == user_id
        },
{
    let ghost id0 = book.id;
    let ghost own0 = book.side_table(ask_or_bid);
    let order_id = book.incr_then_fetch_order_id();
    let mut max_makers: u32 = MAX_MAKERS;
    let mut page_delta = BTreeMap::<Price, (Amount, Amount)>::new();
    let mut makers = Vec::<Maker>::new();
    let mut order = Order::new(user_id, order_id, price, amount);
    let ghost opp_start = book.side_table(opposite(ask_or_bid));
    let ghost mut walked: nat = 0;
    let ghost mut last: Seq<Maker> = Seq::empty();
    proof {
        assert(consumed(opp_start, ask_or_bid, 0) =~= opp_start);
        assert(makers@ =~= full_takes(opp_start, ask_or_bid, 0) + last);
    }
    loop
        invariant
            opp_start == old(book).side_table(opposite(ask_or_bid)),
            limit_walk(opp_start, book.side_table(opposite(ask_or_bid)), ask_or_bid, user_id, makers@, walked, last),
            forall|k: int| 0 <= k < makers@.len() ==> page_delta@.contains_key((#[trigger] makers@[k]).price),
            forall|p: Price|
                #[trigger] page_delta@.contains_key(p) ==> exists|k: int| 0 <= k < makers@.len() && (#[trigger] makers@[k]).price == p,
            last.len() > 0 ==> order.unfilled_amount == 0,
            book.wf(),
            book.id == id0 + 1,
            id0 == old(book).id,
            makers@.len() > 0 ==> book.price == makers@.last().price,
            makers@.len() == 0 ==> book.price == old(book).price,
            order.order_id == id0 + 1,
            order.user_id == user_id,
            order.price == price,
            book.side_table(ask_or_bid) == own0,
            own0 == old(book).side_table(ask_or_bid),
            table_wf(own0, id0),
            table_wf(book.side_table(opposite(ask_or_bid)), id0),
            table_has_room(own0, price, amount),
            order.unfilled_amount + makers_total(makers@) == amount,
            makers_total(makers@) >= 0,
            makers@.len() + max_makers == MAX_MAKERS,
            makers_ok(makers@, ask_or_bid, user_id, price),
            forall|k: int| 0 <= k < makers@.len() ==> (#[trigger] makers@[k]).order_id <= id0,
            forall|k: int| 0 <= k < makers@.len() && (#[trigger] makers@[k]).state == State::Filled ==> !book.order_id_to_price@.contains_key(makers@[k].order_id),
            makers@.len() > 0 ==> forall|i: int|
                0 <= i < book.side_table(opposite(ask_or_bid)).len() ==> no_later(
                    ask_or_bid,
                    makers@.last().price,
                    #[trigger] book.side_table(opposite(ask_or_bid))[i].price,
                ),
            order.unfilled_amount > 0 ==> forall|p: Price| #[trigger] page_delta@.contains_key(p) ==> page_delta@[p].1 == 0,
        decreases book.side_table(opposite(ask_or_bid)).len() + (if order.unfilled_amount > 0 { 1int } else { 0 }),
    {
        if order.is_filled() {
            proof {
                lemma_walk_prices(opp_start, book.side_table(opposite(ask_or_bid)), ask_or_bid, user_id, makers@, walked, last);
                lemma_uncrossed_keep(old(book).bids@, old(book).asks@, book.bids@, book.asks@, ask_or_bid);
            }
            return Match { maker: makers, taker: Taker::taker(order, ask_or_bid, State::Filled), page_delta };
        }
        let ghost opp0 = book.side_table(opposite(ask_or_bid));
        match book.get_best_if_match(ask_or_bid, &order.price) {
            Some(idx) => {
                proof {
                    match ask_or_bid {
                        Side::Bid => {
                            assert(opp0 == book.asks@);
                            assert(idx == 0);
                        },
                        Side::Ask => {
                            assert(opp0 == book.bids@);
                            assert(idx == opp0.len() - 1);
                        },
                    }
                }
                let ghost lvl = opp0[idx as int];
                let level_price = match ask_or_bid {
                    Side::Bid => book.asks[idx].price,
                    Side::Ask => book.bids[idx].price,
                };
                let ghost m_before = makers@;
                let (traded, interrupted, before, after) = match ask_or_bid {
                    Side::Bid => take_at(&mut book.asks, idx, &mut order, &mut max_makers, Ghost(id0)),
                    Side::Ask => take_at(&mut book.bids, idx, &mut order, &mut max_makers, Ghost(id0)),
                };
                let ghost opp1 = book.side_table(opposite(ask_or_bid));
                proof {
                    match ask_or_bid {
                        Side::Bid => {
                            assert(opp1 == book.asks@);
                        },
                        Side::Ask => {
                            assert(opp1 == book.bids@);
                        },
                    }
                }
                let taking_at_page = before - after;
                let ghost pd0 = page_delta@;
                if taking_at_page != 0 {
                    page_delta.insert(level_price, (before, after));
                }
                let ghost book1 = *book;
                proof {
                    assert forall|k: int| 0 <= k < traded@.len() implies (#[trigger] traded@[k]).order_id <= id0 by {
                        assert(lvl.queue()[k].0 <= id0);
                    }
                }
                let mut i: usize = 0;
                while i < traded.len()
                    invariant
                        book.asks == book1.asks,
                        book.bids == book1.bids,
                        book.id == book1.id,
                        book.price == book1.price,
                        i <= traded@.len(),
                        makers@ == m_before + traded@.subrange(0, i as int),
                        forall|k: int| 0 <= k < traded@.len() ==> (#[trigger] traded@[k]).order_id <= id0,
                        forall|k: int| 0 <= k < makers@.len() ==> (#[trigger] makers@[k]).order_id <= id0,
                        forall|k: int| 0 <= k < makers@.len() && (#[trigger] makers@[k]).state == State::Filled ==> !book.order_id_to_price@.contains_key(makers@[k].order_id),
                        makers_total(makers@) == makers_total(m_before) + makers_total(traded@.subrange(0, i as int)),
                    decreases traded@.len() - i,
                {
                    let m = traded[i];
                    let ghost mk0 = makers@;
                    if m.state == State::Filled {
                        book.order_id_to_price.remove(&m.order_id);
                    }
                    proof {
                        lemma_makers_total_push(makers@, m);
                        lemma_makers_total_push(traded@.subrange(0, i as int), m);
                        assert(traded@.subrange(0, i as int).push(m) =~= traded@.subrange(0, i + 1));
                    }
                    makers.push(m);
                    i = i + 1;
                    proof {
                        assert forall|k: int| 0 <= k < makers@.len() implies (#[trigger] makers@[k]).order_id <= id0 by {
                            if k < mk0.len() {
                                assert(makers@[k] == mk0[k]);
                            }
                        }
                        assert forall|k: int| 0 <= k < makers@.len() && (#[trigger] makers@[k]).state == State::Filled implies !book.order_id_to_price@.contains_key(makers@[k].order_id) by {
                            if k < mk0.len() {
                                assert(makers@[k] == mk0[k]);
                            }
                        }
                    }
                }
                if traded.len() > 0 {
                    book.price = traded[traded.len() - 1].price;
                    proof {
                        assert(makers@.last() == traded@.last());
                    }
                }
                proof {
                    assert(traded@.subrange(0, traded@.len() as int) =~= traded@);
                    lemma_merge_makers(m_before, traded@, ask_or_bid, user_id, price, opp0, idx as int, id0);
                    lemma_table_wf_mono(book.side_table(opposite(ask_or_bid)), id0, (id0 + 1) as u64);
                    if after > 0 {
                        assert(opp1[idx as int].price == lvl.price);
                    }
                    assert(last.len() == 0);
                    assert(opp0 == consumed(opp_start, ask_or_bid, walked as int));
                    assert(m_before == full_takes(opp_start, ask_or_bid, walked)) by {
                        assert(m_before =~= full_takes(opp_start, ask_or_bid, walked) + last);
                    }
                    assert(makers@ == m_before + traded@);
                    assert(idx == best_index(opp0, ask_or_bid));
                    assert(lvl == opp_start[walked_index(opp_start, ask_or_bid, walked as int)]);
                    assert(book.side_table(opposite(ask_or_bid)) == opp1);
                    if after == 0 {
                        lemma_whole_queue_taken(lvl.queue(), traded@, user_id);
                        assert(opp1 =~= consumed(opp_start, ask_or_bid, walked + 1int));
                        assert(full_takes(opp_start, ask_or_bid, (walked + 1) as nat) == full_takes(opp_start, ask_or_bid, walked)
                            + queue_makers(lvl.queue()));
                        assert(opp0.len() == opp_start.len() - walked);
                        walked = (walked + 1) as nat;
                        assert(walked <= opp_start.len());
                        assert(makers@ =~= full_takes(opp_start, ask_or_bid, walked) + last);
                        assert(book.side_table(opposite(ask_or_bid)) == consumed(opp_start, ask_or_bid, walked as int));
                        assert(limit_walk(opp_start, book.side_table(opposite(ask_or_bid)), ask_or_bid, user_id, makers@, walked, last));
                    } else if traded@.len() == 0 {
                        assert(opp1 == opp0);
                    } else {
                        last = traded@;
                        let rest = consumed(opp_start, ask_or_bid, walked as int);
                        assert(rest == opp0);
                        assert(best_index(rest, ask_or_bid) == idx);
                        assert(takes_front(rest[idx as int].queue(), last, user_id));
                        assert(opp1.len() == rest.len());
                        assert(opp1[idx as int].queue() == queue_after(rest[idx as int].queue(), last));
                        assert(opp1[idx as int].amount == rest[idx as int].amount - makers_total(last));
                        assert forall|k: int| 0 <= k < rest.len() && k != idx implies opp1[k] == rest[k] by {
                            assert(opp1 == opp0.update(idx as int, opp1[idx as int]));
                        }
                        assert(makers@ == full_takes(opp_start, ask_or_bid, walked) + last);
                        assert(opp1[idx as int].price == rest[idx as int].price);
                        assert(limit_walk(opp_start, book.side_table(opposite(ask_or_bid)), ask_or_bid, user_id, makers@, walked, last));
                    }
                    assert(limit_walk(opp_start, book.side_table(opposite(ask_or_bid)), ask_or_bid, user_id, makers@, walked, last));
                    lemma_makers_total_pos(traded@);
                    let mb = m_before.len();
                    assert forall|k: int| 0 <= k < makers@.len() implies page_delta@.contains_key((#[trigger] makers@[k]).price) by {
                        if k >= mb {
                            assert(makers@[k] == traded@[k - mb]);
                            assert(traded@[k - mb].price == opp0[idx as int].price);
                        } else {
                            assert(makers@[k] == m_before[k]);
                        }
                    }
                    assert forall|p: Price| #[trigger] page_delta@.contains_key(p) implies exists|k: int|
                        0 <= k < makers@.len() && (#[trigger] makers@[k]).price == p by {
                        if p == level_price && taking_at_page != 0 {
                            assert(makers@[mb as int] == traded@[0]);
                            assert(traded@[0].price == opp0[idx as int].price);
                        } else {
                            let k = choose|k: int| 0 <= k < m_before.len() && (#[trigger] m_before[k]).price == p;
                            assert(makers@[k] == m_before[k]);
                        }
                    }
                }
                if interrupted {
                    proof {
                        lemma_walk_prices(opp_start, book.side_table(opposite(ask_or_bid)), ask_or_bid, user_id, makers@, walked, last);
                        lemma_uncrossed_keep(old(book).bids@, old(book).asks@, book.bids@, book.asks@, ask_or_bid);
                    }
                    return Match {
                        taker: Taker::taker(order, ask_or_bid, State::ConditionallyCanceled),
                        maker: makers,
                        page_delta,
                    };
                }
            },
            None => {
                let size_before = match OrderBook::get_size_from(
                    match ask_or_bid {
                        Side::Bid => &book.bids,
                        Side::Ask => &book.asks,
                    },
                    &order.price,
                ) {
                    Some(a) => a,
                    None => 0,
                };
                proof {
                    match ask_or_bid {
                        Side::Bid => {
                            assert(own0 == book.bids@);
                        },
                        Side::Ask => {
                            assert(own0 == book.asks@);
                        },
                    }
                    if crate::orderbook::table_has_price(own0, price) {
                        let c = choose|i: int| 0 <= i < own0.len() && (#[trigger] own0[i]).price == price;
                        assert(own0[c].amount + amount <= Amount::MAX);
                    }
                    assert forall|i: int| 0 <= i < own0.len() implies !(#[trigger] own0[i]).holds_id(order.order_id) by {
                        if own0[i].holds_id(order.order_id) {
                            let k = choose|k: int| 0 <= k < own0[i].queue().len() && #[trigger] own0[i].queue()[k].0 == order.order_id;
                            assert(own0[i].queue()[k].0 <= id0);
                        }
                    }
                    let t = book.side_table(opposite(ask_or_bid));
                    assert forall|i: int| 0 <= i < t.len() implies !reaches(ask_or_bid, price, #[trigger] t[i].price) by {
                        match ask_or_bid {
                            Side::Bid => {
                                if i > 0 {
                                    assert(t[0].price < t[i].price);
                                }
                            },
                            Side::Ask => {
                                if i < t.len() - 1 {
                                    assert(t[i].price < t[t.len() - 1].price);
                                }
                            },
                        }
                    }
                }
                match page_delta.get(&order.price) {
                    Some(v) => {
                        let v0 = v.0;
                        assert(v.1 == 0);
                        page_delta.insert(order.price, (v0, order.unfilled_amount));
                    },
                    None => {
                        page_delta.insert(order.price, (size_before, size_before + order.unfilled_amount));
                        assert(size_before == level_amount_or_zero(own0, price));
                    },
                }
                let ghost pre = book.side_table(opposite(ask_or_bid));
                book.place_order(order, ask_or_bid);
                proof {
                    match ask_or_bid {
                        Side::Bid => {
                            assert(book.side_table(opposite(ask_or_bid)) == pre);
                        },
                        Side::Ask => {
                            assert(book.side_table(opposite(ask_or_bid)) == pre);
                        },
                    }
                }
                proof {
                    assert forall|k: int| 0 <= k < makers@.len() && (#[trigger] makers@[k]).state == State::Filled implies !book.order_id_to_price@.contains_key(makers@[k].order_id) by {
                        assert(makers@[k].order_id != order.order_id);
                    }
                }
                let state = if makers.len() == 0 {
                    State::Placed
                } else {
                    State::PartiallyFilled
                };
                proof {
                    lemma_walk_prices(opp_start, book.side_table(opposite(ask_or_bid)), ask_or_bid, user_id, makers@, walked, last);
                    lemma_uncrossed_placed(old(book).bids@, old(book).asks@, book.bids@, book.asks@, ask_or_bid, order);
                }
                return Match { taker: Taker::taker(order, ask_or_bid, state), maker: makers, page_delta };
            },
        }
    }
}


/// Makers taken from the best level of `opp` keep `makers_ok` and come no
/// earlier than any level still there.
proof fn lemma_merge_makers(
    m0: Seq<Maker>,
    traded: Seq<Maker>,
    side: Side,
    user: UserId,
    price: Price,
    opp: Seq<Level>,
    idx: int,
    max_id: OrderId,
)
    requires
        table_wf(opp, max_id),
        opp.len() > 0,
        idx == best_index(opp, side),
        reaches(side, price, opp[idx].price),
        makers_ok(m0, side, user, price),
        m0.len() > 0 ==> forall|i: int| 0 <= i < opp.len() ==> no_later(side, m0.last().price, #[trigger] opp[i].price),
        takes_front(opp[idx].queue(), traded, user),
    ensures
        makers_ok(m0 + traded, side, user, price),
        forall|k: int| 0 <= k < traded.len() ==> (#[trigger] traded[k]).price == opp[idx].price,
        (m0 + traded).len() > 0 ==> forall|i: int| 0 <= i < opp.len() ==> no_later(side, (m0 + traded).last().price, #[trigger] opp[i].price),
{
    let lvl = opp[idx];
    assert(lvl.wf());
    assert forall|k: int| 0 <= k < traded.len() implies (#[trigger] traded[k]).price == lvl.price by {
        assert(lvl.queue()[k].0 == lvl.queue()[k].1.order_id);
    }
    assert forall|i: int| 0 <= i < opp.len() implies no_later(side, lvl.price, #[trigger] opp[i].price) by {
        match side {
            Side::Bid => {
                if i > 0 {
                    assert(opp[0].price < opp[i].price);
                }
            },
            Side::Ask => {
                if i < opp.len() - 1 {
                    assert(opp[i].price < opp[opp.len() - 1].price);
                }
            },
        }
    }
    let ms = m0 + traded;
    assert forall|k: int| 0 <= k < ms.len() implies {
        &&& (#[trigger] ms[k]).user_id != user
        &&& reaches(side, price, ms[k].price)
        &&& ms[k].filled > 0
    } by {
        if k >= m0.len() {
            assert(ms[k] == traded[k - m0.len()]);
        }
    }
    assert forall|i: int, j: int| 0 <= i < j < ms.len() implies no_later(side, (#[trigger] ms[i]).price, (#[trigger] ms[j]).price) by {
        if j < m0.len() {
        } else if i < m0.len() {
            assert(ms[j] == traded[j - m0.len()]);
            if i < m0.len() - 1 {
                assert(no_later(side, m0[i].price, m0[m0.len() - 1].price));
            }
            assert(no_later(side, m0.last().price, opp[idx].price));
        } else {
            assert(ms[j] == traded[j - m0.len()]);
            assert(ms[i] == traded[i - m0.len()]);
        }
    }
    if ms.len() > 0 && traded.len() > 0 {
        assert(ms.last() == traded[traded.len() - 1]);
    }
    if traded.len() == 0 {
        assert(ms =~= m0);
    }
}

} // verus!

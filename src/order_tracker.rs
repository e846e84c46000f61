use vstd::prelude::*;

use crate::order::BookOrder;
use crate::types::{OrderConditions, Quantity, OC_ALL_OR_NONE, OC_IMMEDIATE_OR_CANCEL};

verus! {

/// The engine's state of one order: what is open, what is set aside while
/// an all-or-none match is probed, and the order's conditions.
#[derive(Clone, Copy, Debug)]
pub struct OrderTracker {
    pub order: BookOrder,
    pub open_qty: Quantity,
    pub reserved: i64,
    pub conditions: OrderConditions,
}

impl OrderTracker {
    /// Nothing reserved beyond what is open, and no more open than ordered.
    pub open spec fn wf(&self) -> bool {
        &&& 0 <= self.reserved <= self.open_qty
        &&& self.open_qty <= self.order.order_qty
    }

    pub open spec fn spec_open_qty(&self) -> int {
        self.open_qty - self.reserved
    }

    pub open spec fn spec_all_or_none(&self) -> bool {
        self.conditions & OC_ALL_OR_NONE != 0
    }

    pub open spec fn spec_immediate_or_cancel(&self) -> bool {
        self.conditions & OC_IMMEDIATE_OR_CANCEL != 0
    }

    /// `conditions` joined with the order's own flags.
    pub open spec fn merged_conditions(order: BookOrder, conditions: OrderConditions) -> OrderConditions {
        let c1 = if order.all_or_none { conditions | OC_ALL_OR_NONE } else { conditions };
        if order.immediate_or_cancel { c1 | OC_IMMEDIATE_OR_CANCEL } else { c1 }
    }

    /// A tracker with the whole order open, its conditions joined with the
    /// order's own all-or-none and immediate-or-cancel flags.
    pub fn new(order: BookOrder, conditions: OrderConditions) -> (r: Self)
        ensures
            r.wf(),
            r.order == order,
            r.open_qty == order.order_qty,
            r.reserved == 0,
            r.conditions == Self::merged_conditions(order, conditions),
            r.spec_all_or_none() == (conditions & OC_ALL_OR_NONE != 0 || order.all_or_none),
            r.spec_immediate_or_cancel() == (conditions & OC_IMMEDIATE_OR_CANCEL != 0 || order.immediate_or_cancel),
            r.conditions & !3u32 == conditions & !3u32,
    {
        let open_qty = order.order_qty();
        let mut tracker = OrderTracker { order, open_qty, reserved: 0, conditions };
        if tracker.order.all_or_none() {
            let c = tracker.conditions;
            tracker.conditions = c | OC_ALL_OR_NONE;
            assert((c | 1) & 1 != 0 && (c | 1) & 2 == c & 2 && (c | 1) & !3u32 == c & !3u32) by (bit_vector);
        }
        if tracker.order.immediate_or_cancel() {
            let c = tracker.conditions;
            tracker.conditions = c | OC_IMMEDIATE_OR_CANCEL;
            assert((c | 2) & 2 != 0 && (c | 2) & 1 == c & 1 && (c | 2) & !3u32 == c & !3u32) by (bit_vector);
        }
        tracker
    }

    /// Sets `delta` more aside (less, when negative) and returns what is
    /// then open.
    pub fn reserve(&mut self, delta: i64) -> (r: Quantity)
        requires
            0 <= old(self).reserved + delta <= old(self).open_qty,
            old(self).reserved + delta <= i64::MAX,
        ensures
            *final(self) == (OrderTracker { reserved: (old(self).reserved + delta) as i64, ..*old(self) }),
            r == final(self).spec_open_qty(),
    {
        self.reserved = self.reserved + delta;
        self.open_qty - (self.reserved as u64)
    }

    /// Changes the open quantity by `delta`; fails, changing nothing, when
    /// that would take more than is open.
    pub fn change_qty(&mut self, delta: i64) -> (r: Result<(), &'static str>)
        requires
            delta > 0 ==> old(self).open_qty + delta <= Quantity::MAX,
        ensures
            r is Err <==> (delta < 0 && old(self).open_qty < -delta),
            r is Err ==> *final(self) == *old(self),
            r is Ok ==> *final(self) == (OrderTracker { open_qty: (old(self).open_qty + delta) as u64, ..*old(self) }),
    {
        if delta < 0 {
            let take: u64 = (-(delta as i128)) as u64;
            if self.open_qty < take {
                return Err("Replace size reduction larger than open quantity");
            }
            self.open_qty = self.open_qty - take;
        } else {
            self.open_qty = self.open_qty + (delta as u64);
        }
        Ok(())
    }

    /// Takes `qty` off what is open; fails, changing nothing, when more than
    /// is open.
    pub fn fill(&mut self, qty: Quantity) -> (r: Result<(), &'static str>)
        ensures
            r is Err <==> qty > old(self).open_qty,
            r is Err ==> *final(self) == *old(self),
            r is Ok ==> *final(self) == (OrderTracker { open_qty: (old(self).open_qty - qty) as u64, ..*old(self) }),
    {
        if qty > self.open_qty {
            return Err("Fill size larger than open quantity");
        }
        self.open_qty = self.open_qty - qty;
        Ok(())
    }

    pub fn filled(&self) -> (r: bool)
        ensures
            r == (self.open_qty == 0),
    {
        self.open_qty == 0
    }

    /// What has been filled: the order's quantity less what is open,
    /// reserved or not.
    pub fn filled_qty(&self) -> (r: Quantity)
        requires
            self.wf(),
        ensures
            r == self.order.order_qty - self.open_qty,
    {
        self.order.order_qty() - self.open_qty
    }

    pub fn open_qty(&self) -> (r: Quantity)
        requires
            self.wf(),
        ensures
            r == self.spec_open_qty(),
    {
        self.open_qty - (self.reserved as u64)
    }

    pub fn ptr(&self) -> (r: &BookOrder)
        ensures
            *r == self.order,
    {
        &self.order
    }

    pub fn all_or_none(&self) -> (r: bool)
        ensures
            r == self.spec_all_or_none(),
    {
        self.conditions & OC_ALL_OR_NONE != 0
    }

    pub fn immediate_or_cancel(&self) -> (r: bool)
        ensures
            r == self.spec_immediate_or_cancel(),
    {
        self.conditions & OC_IMMEDIATE_OR_CANCEL != 0
    }
}

} // verus!

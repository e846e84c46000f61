use vstd::prelude::*;

use crate::types::{Amount, OrderId, Price, Quantity, UserId};

verus! {

/// An order resting in a level of the limit book.
#[derive(Clone, Copy, Debug, PartialEq, Eq, Structural)]
pub struct Order {
    pub user_id: UserId,
    pub order_id: OrderId,
    pub price: Price,
    pub unfilled_amount: Amount,
}

#[derive(Clone, Copy, Debug, PartialEq, Eq, Structural)]
pub enum Side {
    Bid,
    Ask,
}

#[derive(Clone, Copy, Debug, PartialEq, Eq, Structural)]
pub enum Status {
    Open,
    Filled,
    Cancelled,
}

impl Order {
    pub fn new(user_id: UserId, order_id: OrderId, price: Price, unfilled_amount: Amount) -> (r: Self)
        ensures
            r == (Order { user_id, order_id, price, unfilled_amount }),
    {
        Order { user_id, order_id, price, unfilled_amount }
    }

    pub fn is_filled(&self) -> (r: bool)
        ensures
            r == (self.unfilled_amount == 0),
    {
        self.unfilled_amount == 0
    }

    /// Takes `amount` off what is left to fill.
    pub fn fill(&mut self, amount: Amount)
        requires
            amount <= old(self).unfilled_amount,
        ensures
            *final(self) == (Order { unfilled_amount: (old(self).unfilled_amount - amount) as u64, ..*old(self) }),
    {
        self.unfilled_amount = self.unfilled_amount - amount;
    }
}

/// A client order as the full engine sees it. A stop price of zero means the
/// order is no stop order; a price of zero means the market price.
#[derive(Clone, Copy, Debug, PartialEq, Eq, Structural)]
pub struct BookOrder {
    pub order_id: OrderId,
    pub user_id: UserId,
    pub is_buy: bool,
    pub price: Price,
    pub stop_price: Price,
    pub order_qty: Quantity,
    pub all_or_none: bool,
    pub immediate_or_cancel: bool,
}

impl BookOrder {
    pub fn new(
        order_id: OrderId,
        user_id: UserId,
        is_buy: bool,
        price: Price,
        stop_price: Price,
        order_qty: Quantity,
        all_or_none: bool,
        immediate_or_cancel: bool,
    ) -> (r: Self)
        ensures
            r == (BookOrder { order_id, user_id, is_buy, price, stop_price, order_qty, all_or_none, immediate_or_cancel }),
    {
        BookOrder { order_id, user_id, is_buy, price, stop_price, order_qty, all_or_none, immediate_or_cancel }
    }

    pub fn is_buy(&self) -> (r: bool)
        ensures
            r == self.is_buy,
    {
        self.is_buy
    }

    pub fn price(&self) -> (r: Price)
        ensures
            r == self.price,
    {
        self.price
    }

    pub fn stop_price(&self) -> (r: Price)
        ensures
            r == self.stop_price,
    {
        self.stop_price
    }

    pub fn order_qty(&self) -> (r: Quantity)
        ensures
            r == self.order_qty,
    {
        self.order_qty
    }

    pub fn all_or_none(&self) -> (r: bool)
        ensures
            r == self.all_or_none,
    {
        self.all_or_none
    }

    pub fn immediate_or_cancel(&self) -> (r: bool)
        ensures
            r == self.immediate_or_cancel,
    {
        self.immediate_or_cancel
    }
}

} // verus!

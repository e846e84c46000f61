use vstd::prelude::*;

use std::cmp::Ordering;

use crate::types::{Price, MARKET_ORDER_PRICE};

verus! {

/// Whether a `buy_side` order at `price` trades with a counterparty at `rhs`:
/// always when either is at the market price, else when the buyer's price is
/// at or above the seller's.
pub open spec fn price_matches(buy_side: bool, price: Price, rhs: Price) -> bool {
    if buy_side {
        price == 0 || rhs == 0 || rhs <= price
    } else {
        price == 0 || rhs == 0 || price <= rhs
    }
}

/// How `a` stands to `b` in a ladder of `buy_side` read best first: the
/// market price before any other, then the highest bid or the lowest ask.
pub open spec fn price_order(buy_side: bool, a: Price, b: Price) -> Ordering {
    if a == b {
        Ordering::Equal
    } else if a == 0 {
        Ordering::Less
    } else if b == 0 {
        Ordering::Greater
    } else if buy_side {
        if b < a {
            Ordering::Less
        } else {
            Ordering::Greater
        }
    } else {
        if a < b {
            Ordering::Less
        } else {
            Ordering::Greater
        }
    }
}

/// Whether `a` comes no later than `b` in a ladder of `buy_side`.
pub open spec fn price_before_eq(buy_side: bool, a: Price, b: Price) -> bool {
    price_order(buy_side, a, b) != Ordering::Greater
}

/// A price seen from one side of the book.
#[derive(Clone, Copy, Debug)]
pub struct ComparablePrice {
    price: Price,
    buy_side: bool,
}

impl ComparablePrice {
    pub closed spec fn spec_price(self) -> Price {
        self.price
    }

    pub closed spec fn spec_is_buy(self) -> bool {
        self.buy_side
    }

    pub fn new(buy_side: bool, price: Price) -> (r: Self)
        ensures
            r.spec_price() == price,
            r.spec_is_buy() == buy_side,
    {
        ComparablePrice { price, buy_side }
    }

    /// Whether an order at this price trades with a counterparty at `rhs`.
    pub fn matches(&self, rhs: Price) -> (r: bool)
        ensures
            r == price_matches(self.spec_is_buy(), self.spec_price(), rhs),
    {
        if self.price == rhs {
            return true;
        }
        if self.buy_side {
            rhs < self.price || self.price == MARKET_ORDER_PRICE || rhs == MARKET_ORDER_PRICE
        } else {
            self.price < rhs || rhs == MARKET_ORDER_PRICE || self.price == MARKET_ORDER_PRICE
        }
    }

    pub fn price(&self) -> (r: Price)
        ensures
            r == self.spec_price(),
    {
        self.price
    }

    pub fn is_buy(&self) -> (r: bool)
        ensures
            r == self.spec_is_buy(),
    {
        self.buy_side
    }

    pub fn is_market(&self) -> (r: bool)
        ensures
            r == (self.spec_price() == MARKET_ORDER_PRICE),
    {
        self.price == MARKET_ORDER_PRICE
    }
}

impl PartialEq for ComparablePrice {
    fn eq(&self, other: &ComparablePrice) -> (r: bool) {
        self.price == other.price
    }
}

impl vstd::std_specs::cmp::PartialEqSpecImpl for ComparablePrice {
    open spec fn obeys_eq_spec() -> bool {
        true
    }

    open spec fn eq_spec(&self, other: &ComparablePrice) -> bool {
        self.spec_price() == other.spec_price()
    }
}

impl PartialOrd for ComparablePrice {
    /// Orders prices best first from this price's side.
    fn partial_cmp(&self, other: &ComparablePrice) -> (r: Option<Ordering>) {
        let rhs = other.price;
        if self.price == rhs {
            Some(Ordering::Equal)
        } else if self.price == MARKET_ORDER_PRICE {
            Some(Ordering::Less)
        } else if rhs == MARKET_ORDER_PRICE {
            Some(Ordering::Greater)
        } else if self.buy_side {
            if rhs < self.price {
                Some(Ordering::Less)
            } else {
                Some(Ordering::Greater)
            }
        } else {
            if self.price < rhs {
                Some(Ordering::Less)
            } else {
                Some(Ordering::Greater)
            }
        }
    }
}

impl vstd::std_specs::cmp::PartialOrdSpecImpl for ComparablePrice {
    open spec fn obeys_partial_cmp_spec() -> bool {
        true
    }

    open spec fn partial_cmp_spec(&self, other: &ComparablePrice) -> Option<Ordering> {
        Some(price_order(self.spec_is_buy(), self.spec_price(), other.spec_price()))
    }
}

} // verus!

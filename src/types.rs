use vstd::prelude::*;

use std::collections::HashMap;

use crate::orderbook::Level;

verus! {

/// A price in ticks; `MARKET_ORDER_PRICE` (0) stands for the market price.
pub type Price = u64;

/// A quantity in lots; zero means nothing is open.
pub type Quantity = u64;

pub type Cost = u64;

pub type FillId = u32;

pub type ChangeId = u32;

/// A set of `OrderCondition` bits.
pub type OrderConditions = u32;

pub type UserId = u64;

pub type OrderId = u64;

pub type Amount = u64;

pub type OrderIdToPrice = HashMap<OrderId, Price>;

pub type Table = Vec<Level>;

/// The conditions an order may carry, each a bit of `OrderConditions`.
#[derive(Debug, Clone, Copy, PartialEq, Eq, Structural)]
pub enum OrderCondition {
    NoConditions,
    AllOrNone,
    ImmediateOrCancel,
    FillOrKill,
    Stop,
}

impl OrderCondition {
    pub open spec fn spec_bits(self) -> u32 {
        match self {
            OrderCondition::NoConditions => 0,
            OrderCondition::AllOrNone => 1,
            OrderCondition::ImmediateOrCancel => 2,
            OrderCondition::FillOrKill => 3,
            OrderCondition::Stop => 4,
        }
    }

    /// The bit pattern of this condition.
    pub fn bits(self) -> (r: u32)
        ensures
            r == self.spec_bits(),
    {
        match self {
            OrderCondition::NoConditions => 0,
            OrderCondition::AllOrNone => 1,
            OrderCondition::ImmediateOrCancel => 2,
            OrderCondition::FillOrKill => 3,
            OrderCondition::Stop => 4,
        }
    }
}

pub const OC_NO_CONDITIONS: u32 = 0;

pub const OC_ALL_OR_NONE: u32 = 1;

pub const OC_IMMEDIATE_OR_CANCEL: u32 = 2;

pub const OC_FILL_OR_KILL: u32 = 3;

pub const OC_STOP: u32 = 4;

pub const MARKET_ORDER_PRICE: Price = 0;

pub const PRICE_UNCHANGED: Price = 0;

pub const QUANTITY_MAX: Quantity = 0xffff_ffff_ffff_ffff;

pub const SIZE_UNCHANGED: i64 = 0;

} // verus!

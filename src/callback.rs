use vstd::prelude::*;

use crate::order::BookOrder;
use crate::types::{Price, Quantity};

verus! {

#[derive(Debug, Clone, Copy, PartialEq, Eq, Structural)]
pub enum CbType {
    Unknown,
    OrderAccept,
    OrderAcceptStop,
    OrderTriggerStop,
    OrderReject,
    OrderFill,
    OrderCancel,
    OrderCancelStop,
    OrderCancelReject,
    OrderReplace,
    OrderReplaceReject,
    BookUpdate,
}

/// Which side of a fill it filled completely.
#[derive(Debug, Clone, Copy, PartialEq, Eq, Structural)]
pub enum FillFlags {
    NeitherFilled,
    InboundFilled,
    MatchedFilled,
    BothFilled,
}

impl FillFlags {
    pub open spec fn spec_bits(self) -> u8 {
        match self {
            FillFlags::NeitherFilled => 0,
            FillFlags::InboundFilled => 1,
            FillFlags::MatchedFilled => 2,
            FillFlags::BothFilled => 4,
        }
    }

    pub fn bits(self) -> (r: u8)
        ensures
            r == self.spec_bits(),
    {
        match self {
            FillFlags::NeitherFilled => 0,
            FillFlags::InboundFilled => 1,
            FillFlags::MatchedFilled => 2,
            FillFlags::BothFilled => 4,
        }
    }

    /// The flags of a fill after which the inbound and the matched order are
    /// (or are not) filled completely.
    pub open spec fn spec_of(inbound_filled: bool, matched_filled: bool) -> FillFlags {
        if inbound_filled && matched_filled {
            FillFlags::BothFilled
        } else if inbound_filled {
            FillFlags::InboundFilled
        } else if matched_filled {
            FillFlags::MatchedFilled
        } else {
            FillFlags::NeitherFilled
        }
    }

    pub fn of(inbound_filled: bool, matched_filled: bool) -> (r: FillFlags)
        ensures
            r == Self::spec_of(inbound_filled, matched_filled),
    {
        if inbound_filled && matched_filled {
            FillFlags::BothFilled
        } else if inbound_filled {
            FillFlags::InboundFilled
        } else if matched_filled {
            FillFlags::MatchedFilled
        } else {
            FillFlags::NeitherFilled
        }
    }
}

/// Why a request was turned down.
#[derive(Debug, Clone, Copy, PartialEq, Eq, Structural)]
pub enum RejectReason {
    SizeNotPositive,
    NotFound,
    AlreadyFilled,
}

impl RejectReason {
    /// The reason as the listeners read it.
    pub fn text(&self) -> (r: &'static str)
        ensures
            r@ == match *self {
                RejectReason::SizeNotPositive => "size must be positive"@,
                RejectReason::NotFound => "not found"@,
                RejectReason::AlreadyFilled => "order is already filled"@,
            },
    {
        match self {
            RejectReason::SizeNotPositive => "size must be positive",
            RejectReason::NotFound => "not found",
            RejectReason::AlreadyFilled => "order is already filled",
        }
    }
}

/// One observable effect of a request. Only the fields of its type are set;
/// the others stay zero or absent.
#[derive(Debug, Clone, Copy, PartialEq, Eq, Structural)]
pub struct Callback {
    pub cb_type: CbType,
    pub order: Option<BookOrder>,
    pub matched_order: Option<BookOrder>,
    pub quantity: Quantity,
    pub price: Price,
    pub flags: u8,
    pub delta: i64,
    pub reject_reason: Option<RejectReason>,
}

impl Callback {
    pub open spec fn blank() -> Callback {
        Callback {
            cb_type: CbType::Unknown,
            order: None,
            matched_order: None,
            quantity: 0,
            price: 0,
            flags: 0,
            delta: 0,
            reject_reason: None,
        }
    }

    pub fn new() -> (r: Self)
        ensures
            r == Self::blank(),
    {
        Callback {
            cb_type: CbType::Unknown,
            order: None,
            matched_order: None,
            quantity: 0,
            price: 0,
            flags: 0,
            delta: 0,
            reject_reason: None,
        }
    }

    pub fn accept(order: BookOrder) -> (r: Self)
        ensures
            r == (Callback { cb_type: CbType::OrderAccept, order: Some(order), ..Self::blank() }),
    {
        Callback { cb_type: CbType::OrderAccept, order: Some(order), ..Self::new() }
    }

    pub fn accept_stop(order: BookOrder) -> (r: Self)
        ensures
            r == (Callback { cb_type: CbType::OrderAcceptStop, order: Some(order), ..Self::blank() }),
    {
        Callback { cb_type: CbType::OrderAcceptStop, order: Some(order), ..Self::new() }
    }

    pub fn trigger_stop(order: BookOrder) -> (r: Self)
        ensures
            r == (Callback { cb_type: CbType::OrderTriggerStop, order: Some(order), ..Self::blank() }),
    {
        Callback { cb_type: CbType::OrderTriggerStop, order: Some(order), ..Self::new() }
    }

    pub fn reject(order: BookOrder, reason: RejectReason) -> (r: Self)
        ensures
            r == (Callback { cb_type: CbType::OrderReject, order: Some(order), reject_reason: Some(reason), ..Self::blank() }),
    {
        Callback { cb_type: CbType::OrderReject, order: Some(order), reject_reason: Some(reason), ..Self::new() }
    }

    pub fn fill(
        inbound_order: BookOrder,
        matched_order: BookOrder,
        fill_qty: Quantity,
        fill_price: Price,
        fill_flags: FillFlags,
    ) -> (r: Self)
        ensures
            r == (Callback {
                cb_type: CbType::OrderFill,
                order: Some(inbound_order),
                matched_order: Some(matched_order),
                quantity: fill_qty,
                price: fill_price,
                flags: fill_flags.spec_bits(),
                ..Self::blank()
            }),
    {
        Callback {
            cb_type: CbType::OrderFill,
            order: Some(inbound_order),
            matched_order: Some(matched_order),
            quantity: fill_qty,
            price: fill_price,
            flags: fill_flags.bits(),
            ..Self::new()
        }
    }

    pub fn cancel(order: BookOrder, open_qty: Quantity) -> (r: Self)
        ensures
            r == (Callback { cb_type: CbType::OrderCancel, order: Some(order), quantity: open_qty, ..Self::blank() }),
    {
        Callback { cb_type: CbType::OrderCancel, order: Some(order), quantity: open_qty, ..Self::new() }
    }

    pub fn cancel_stop(order: BookOrder) -> (r: Self)
        ensures
            r == (Callback { cb_type: CbType::OrderCancelStop, order: Some(order), ..Self::blank() }),
    {
        Callback { cb_type: CbType::OrderCancelStop, order: Some(order), ..Self::new() }
    }

    pub fn cancel_reject(order: BookOrder, reason: RejectReason) -> (r: Self)
        ensures
            r == (Callback { cb_type: CbType::OrderCancelReject, order: Some(order), reject_reason: Some(reason), ..Self::blank() }),
    {
        Callback { cb_type: CbType::OrderCancelReject, order: Some(order), reject_reason: Some(reason), ..Self::new() }
    }

    pub fn replace(order: BookOrder, curr_open_qty: Quantity, size_delta: i64, new_price: Price) -> (r: Self)
        ensures
            r == (Callback {
                cb_type: CbType::OrderReplace,
                order: Some(order),
                quantity: curr_open_qty,
                delta: size_delta,
                price: new_price,
                ..Self::blank()
            }),
    {
        Callback {
            cb_type: CbType::OrderReplace,
            order: Some(order),
            quantity: curr_open_qty,
            delta: size_delta,
            price: new_price,
            ..Self::new()
        }
    }

    pub fn replace_reject(order: BookOrder, reason: RejectReason) -> (r: Self)
        ensures
            r == (Callback { cb_type: CbType::OrderReplaceReject, order: Some(order), reject_reason: Some(reason), ..Self::blank() }),
    {
        Callback { cb_type: CbType::OrderReplaceReject, order: Some(order), reject_reason: Some(reason), ..Self::new() }
    }

    pub fn book_update() -> (r: Self)
        ensures
            r == (Callback { cb_type: CbType::BookUpdate, ..Self::blank() }),
    {
        Callback { cb_type: CbType::BookUpdate, ..Self::new() }
    }
}

} // verus!

//! Errors reported by the broker.
use vstd::prelude::*;

verus! {

/// Why the broker refused an order operation.
#[derive(Debug, Clone, Copy, PartialEq, Eq, Structural)]
pub enum BrokerError {
    /// The free balance does not cover the margin of the requested order.
    InsufficientMargin,
    /// No open position carries the requested id.
    PositionNotFound,
}

/// The text shown to the trader for each error.
pub open spec fn broker_error_text(e: BrokerError) -> Seq<char> {
    match e {
        BrokerError::InsufficientMargin => "保证金不足"@,
        BrokerError::PositionNotFound => "持仓不存在"@,
    }
}

impl BrokerError {
    /// The message that the broker prints for this error.
    pub fn message(&self) -> (text: String)
        ensures
            text@ == broker_error_text(*self),
    {
        match self {
            BrokerError::InsufficientMargin => String::from_str("保证金不足"),
            BrokerError::PositionNotFound => String::from_str("持仓不存在"),
        }
    }
}

} // verus!

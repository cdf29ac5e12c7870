//! Why the engine refuses a command.

use vstd::prelude::*;

verus! {

/// Why the engine refused a command. A refused command changes nothing.
#[derive(Clone, Copy, Debug, PartialEq, Eq, Structural)]
pub enum EngineError {
    /// The command names a user that was never initialized.
    UnknownUser,
    /// The deposit names an asset that the market does not trade.
    UnknownAsset,
    /// An amount does not fit in 64 bits: the cost of a bid, or what a user
    /// would have available or locked.
    Overflow,
    /// The user's available balance does not cover the order's reserve.
    InsufficientFunds,
    /// No resting order has this id.
    OrderNotFound,
    /// The order belongs to another user.
    NotOwner,
    /// The order's price or quantity is zero.
    InvalidOrder,
    /// The identifier offered for a new user or order is already taken.
    IdInUse,
}

impl EngineError {
    /// What the engine says of a command that it refuses for this reason.
    pub open spec fn wording(self) -> Seq<char> {
        match self {
            EngineError::UnknownUser => "user not found"@,
            EngineError::UnknownAsset => "unknown asset!"@,
            EngineError::Overflow => "amount overflow"@,
            EngineError::InsufficientFunds => "insufficient funds"@,
            EngineError::OrderNotFound => "order not found"@,
            EngineError::NotOwner => "order belongs to another user"@,
            EngineError::InvalidOrder => "price and quantity must be positive"@,
            EngineError::IdInUse => "id already in use"@,
        }
    }

    /// What the engine says of a command that it refuses for this reason.
    pub fn message(&self) -> (text: String)
        ensures
            text@ == self.wording(),
    {
        match self {
            EngineError::UnknownUser => "user not found".to_string(),
            EngineError::UnknownAsset => "unknown asset!".to_string(),
            EngineError::Overflow => "amount overflow".to_string(),
            EngineError::InsufficientFunds => "insufficient funds".to_string(),
            EngineError::OrderNotFound => "order not found".to_string(),
            EngineError::NotOwner => "order belongs to another user".to_string(),
            EngineError::InvalidOrder => "price and quantity must be positive".to_string(),
            EngineError::IdInUse => "id already in use".to_string(),
        }
    }
}

} // verus!

//! The command surface's argument model: which action a caller asks the
//! ledger to perform. Parsing and printing live outside the library; these
//! types only carry the parsed request.

use vstd::prelude::*;

use crate::model::{
    Order, OrderByReceiverOrSenderOrAmount, OrderBySenderOrAmount, OrderByTokenOrSenderOrAmount,
    TokenAmount, TokenID, UserID,
};

verus! {

/// Top-level arguments: the one action to perform.
pub struct Args {
    pub command: Action,
}

/// One request against the ledger engine.
pub enum Action {
    /// Register a new user.
    CreateUser { name: String },
    /// Get user information by user name, or all users.
    UserList { name: Option<String> },
    /// Register a new token explicitly.
    CreateToken { name: String },
    /// Get token information by token name, or all tokens.
    TokenList { name: Option<String> },
    /// Send tokens from one user to another.
    Transaction { sender_id: UserID, receiver_id: UserID, token_id: TokenID, amount: TokenAmount },
    /// How much of a specific token a specific user received from each
    /// other user.
    LsUserToken {
        user_id: UserID,
        token_id: TokenID,
        order: Order,
        order_by: Option<OrderBySenderOrAmount>,
    },
    /// How much of every token a specific user received from each other
    /// user.
    LsTokensByUser { user_id: UserID, order: Order, order_by: Option<OrderByTokenOrSenderOrAmount> },
    /// How much of a specific token every user received from each other
    /// user.
    LsUsersByToken {
        token_id: TokenID,
        order: Order,
        order_by: Option<OrderByReceiverOrSenderOrAmount>,
    },
}

} // verus!

//! Rows of the local ledger and the envelope the HTTP surface answers with.
//! Timestamps are Unix seconds (UTC); calendar dates are day numbers counted
//! from the Common Era, 1 January of year 1 being day 1.
use vstd::prelude::*;
use crate::money::Amount;

verus! {

/// A local account. Accounts created by reconciliation carry the aggregation
/// server's identifier in `simplefin_id`; manually created ones carry none.
#[derive(Debug)]
pub struct Account {
    pub id: String,
    pub name: String,
    pub institution: String,
    pub account_type: String,
    pub balance: Amount,
    pub last_updated: i64,
    pub created_at: i64,
    pub simplefin_id: Option<String>,
    pub available_balance: Option<Amount>,
    pub is_credit_card: Option<bool>,
}

/// The fields a client supplies to create an account by hand.
#[derive(Debug)]
pub struct CreateAccountRequest {
    pub name: String,
    pub institution: String,
    pub account_type: String,
    pub balance: Amount,
}

/// A local transaction; `simplefin_id` is the deduplication key of imported ones.
#[derive(Debug)]
pub struct Transaction {
    pub id: String,
    pub account_id: String,
    pub amount: Amount,
    pub description: String,
    pub transaction_date: i32,
    pub category: Option<String>,
    pub created_at: i64,
    pub simplefin_id: Option<String>,
    pub posted_date: Option<i64>,
    pub payee: Option<String>,
    pub memo: Option<String>,
    pub pending: Option<bool>,
}

/// The fields a client supplies to record a transaction by hand.
#[derive(Debug)]
pub struct CreateTransactionRequest {
    pub account_id: String,
    pub amount: Amount,
    pub description: String,
    pub transaction_date: i32,
    pub category: Option<String>,
}

/// One append-only sample of an account's balance.
#[derive(Debug)]
pub struct BalanceHistory {
    pub id: String,
    pub account_id: String,
    pub balance: Amount,
    pub timestamp: i64,
}

/// The envelope every HTTP answer is wrapped in.
#[derive(Debug)]
pub struct ApiResponse<T> {
    pub success: bool,
    pub data: Option<T>,
    pub error: Option<String>,
}

impl<T> ApiResponse<T> {
    /// A successful answer carrying `data`.
    pub fn success(data: T) -> (r: Self)
        ensures
            r.success,
            r.data == Some(data),
            r.error is None,
    {
        ApiResponse { success: true, data: Some(data), error: None }
    }

    /// A failed answer carrying `message`.
    pub fn error(message: String) -> (r: Self)
        ensures
            !r.success,
            r.data is None,
            r.error == Some(message),
    {
        ApiResponse { success: false, data: None, error: Some(message) }
    }
}

/// The view of an optional string.
pub open spec fn opt_view(o: Option<String>) -> Option<Seq<char>> {
    match o {
        Some(s) => Some(s@),
        None => None,
    }
}

} // verus!

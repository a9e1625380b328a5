//! Outcome shapes for transaction operations.
//!
//! Each operation's outcome is a small enum a transport layer can map onto
//! its own status codes: the value on success, the validation errors on bad
//! input, or a not-found report.

use vstd::prelude::*;

use crate::store::{Transaction, UpdateTransactionError};
use crate::transactions::NewTransactionError;

verus! {

/// A plain error message.
#[derive(Debug)]
pub struct ErrorRep {
    pub message: String,
}

/// The outcome of fetching a single transaction.
#[derive(Debug)]
pub enum GetTransactionResponse {
    Found(Transaction),
    NotFound(ErrorRep),
}

impl GetTransactionResponse {
    /// Wrap a lookup result: the transaction when it was found, a not-found
    /// report otherwise.
    pub fn from_lookup(found: Option<Transaction>) -> (r: Self)
        ensures
            match found {
                Some(t) => r matches GetTransactionResponse::Found(rt) && rt == t,
                None => r matches GetTransactionResponse::NotFound(e) && e.message@
                    == "Transaction not found."@,
            },
    {
        match found {
            Some(t) => GetTransactionResponse::Found(t),
            None => GetTransactionResponse::NotFound(
                ErrorRep { message: "Transaction not found.".to_owned() },
            ),
        }
    }
}

/// The outcome of creating a transaction.
#[derive(Debug)]
pub enum CreateTransactionResponse {
    Created(Transaction),
    BadRequest(Vec<NewTransactionError>),
}

impl CreateTransactionResponse {
    /// Wrap a construction result: the created transaction, or the
    /// validation errors that rejected the input.
    pub fn from_result(result: Result<Transaction, Vec<NewTransactionError>>) -> (r: Self)
        ensures
            match result {
                Ok(t) => r matches CreateTransactionResponse::Created(rt) && rt == t,
                Err(es) => r matches CreateTransactionResponse::BadRequest(re) && re == es,
            },
    {
        match result {
            Ok(t) => CreateTransactionResponse::Created(t),
            Err(es) => CreateTransactionResponse::BadRequest(es),
        }
    }
}

/// The outcome of updating a transaction.
#[derive(Debug)]
pub enum UpdateTransactionResponse {
    Updated(Transaction),
    NotFound(ErrorRep),
    Failed(UpdateTransactionError),
}

impl UpdateTransactionResponse {
    /// Wrap an update result: the updated transaction, a not-found report
    /// when no transaction has the id and owner, or the storage failure.
    pub fn from_result(result: Result<Transaction, UpdateTransactionError>) -> (r: Self)
        ensures
            match result {
                Ok(t) => r matches UpdateTransactionResponse::Updated(rt) && rt == t,
                Err(e) => match e {
                    UpdateTransactionError::TransactionNotFound => r
                        matches UpdateTransactionResponse::NotFound(m) && m.message@
                        == "No transaction found with the provided ID."@,
                    _ => r matches UpdateTransactionResponse::Failed(re) && re == e,
                },
            },
    {
        match result {
            Ok(t) => UpdateTransactionResponse::Updated(t),
            Err(UpdateTransactionError::TransactionNotFound) => UpdateTransactionResponse::NotFound(
                ErrorRep { message: "No transaction found with the provided ID.".to_owned() },
            ),
            Err(e) => UpdateTransactionResponse::Failed(e),
        }
    }
}

} // verus!

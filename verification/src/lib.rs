//! Replays a sequential log of financial transactions against a set of
//! per-client accounts and produces the resulting balances.
//!
//! The core is the account state machine and its fixed-point decimal
//! amount type: together they enforce the accounting invariants - the
//! total always equals available plus held funds, balances never go
//! negative, arithmetic never wraps, and no deposit is disputed twice -
//! that make the output trustworthy. A registry routes transactions to
//! accounts by client id and renders the final balances in ascending
//! client order.

pub mod amount;
pub mod client;
pub mod clients;
pub mod transaction;

pub use amount::Amount;
pub use amount::AmountParseError;
pub use client::Client;
pub use client::ClientError;
pub use client::DepositRecord;
pub use clients::Clients;
pub use clients::SummaryRow;
pub use clients::summarize_transactions;
pub use transaction::ClientId;
pub use transaction::Deposit;
pub use transaction::Transaction;
pub use transaction::TransactionData;
pub use transaction::TransactionId;
pub use transaction::Withdrawal;

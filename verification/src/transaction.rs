use vstd::prelude::*;
use crate::amount::Amount;

verus! {

/// An opaque unsigned identifier for one account, one per client.
#[derive(Debug, Clone, Copy, PartialEq, Eq, Structural)]
pub struct ClientId(pub u16);

/// An opaque unsigned identifier for a transaction, used to correlate a
/// dispute, resolve or chargeback with the deposit it targets.
#[derive(Debug, Clone, Copy, PartialEq, Eq, Structural)]
pub struct TransactionId(pub u32);

impl TransactionId {
    pub fn new(value: u32) -> (r: Self)
        ensures
            r.0 == value,
    {
        TransactionId(value)
    }
}

/// One record of the transaction log: the client it concerns and what it asks.
#[derive(Debug, Clone, Copy, PartialEq, Eq, Structural)]
pub struct Transaction {
    pub client_id: ClientId,
    pub data: TransactionData,
}

/// The five kinds of transaction. Dispute, resolve and chargeback carry no
/// amount of their own; the amount is recovered from the targeted deposit.
#[derive(Debug, Clone, Copy, PartialEq, Eq, Structural)]
pub enum TransactionData {
    Deposit { transaction_id: TransactionId, amount: Amount },
    Withdrawal { transaction_id: TransactionId, amount: Amount },
    Dispute { transaction_id: TransactionId },
    Resolve { transaction_id: TransactionId },
    Chargeback { transaction_id: TransactionId },
}

/// A deposit order: a transaction identifier together with the deposited amount.
#[derive(Debug, Clone, Copy, PartialEq, Eq, Structural)]
pub struct Deposit {
    pub transaction_id: TransactionId,
    pub amount: Amount,
}

/// A withdrawal order: a transaction identifier together with the withdrawn amount.
#[derive(Debug, Clone, Copy, PartialEq, Eq, Structural)]
pub struct Withdrawal {
    pub transaction_id: TransactionId,
    pub amount: Amount,
}

} // verus!

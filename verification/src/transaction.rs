//! Transaction records entering the engine and the stored form kept for
//! later disputes.

use vstd::prelude::*;

use crate::amount::Amount;

verus! {

/// The five kinds of transaction record the engine accepts.
#[derive(Clone, Copy, Debug, PartialEq, Eq, Structural)]
pub enum TransactionType {
    Deposit,
    Withdrawal,
    Dispute,
    Resolve,
    Chargeback,
}

/// One record of the input stream, already parsed into plain values.  For
/// deposits and withdrawals `amount` must be present; for dispute, resolve
/// and chargeback records the input format carries no amount, so the engine
/// receives `None`.
#[derive(Clone, Copy, Debug, PartialEq, Eq, Structural)]
pub struct TransactionRecord {
    pub tx_type: TransactionType,
    /// The client the record speaks about.
    pub client: u16,
    /// The transaction id: globally unique across all clients for
    /// deposits and withdrawals.
    pub tx: u32,
    pub amount: Option<Amount>,
}

/// A stored deposit or withdrawal that dispute, resolve and chargeback
/// records may reference by transaction id.  The amount is immutable once
/// stored; only the `disputed` flag changes over the record's lifetime.
#[derive(Clone, Copy, Debug, PartialEq, Eq, Structural)]
pub struct StoredTransaction {
    /// Always `Deposit` or `Withdrawal`; only those are stored.
    pub tx_type: TransactionType,
    /// The client that owns the transaction.
    pub client: u16,
    /// The original amount, non-negative for stored records.
    pub amount: Amount,
    /// True while the transaction is under an active dispute.
    pub disputed: bool,
}

impl StoredTransaction {
    /// A freshly stored transaction: not under dispute.
    pub fn new(tx_type: TransactionType, client: u16, amount: Amount) -> (t: StoredTransaction)
        ensures
            t == (StoredTransaction { tx_type, client, amount, disputed: false }),
    {
        StoredTransaction { tx_type, client, amount, disputed: false }
    }
}

} // verus!

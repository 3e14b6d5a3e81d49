//! The ledger engine: routes each incoming record to the right account and
//! dispute transition.
//!
//! The engine owns two maps — client id to account, and transaction id to
//! stored transaction — and processes one record at a time.  Its behaviour
//! is specified by the pure transition function [`ledger_step`] on
//! [`LedgerModel`], and [`Engine::process`] is proved to follow it exactly.
//! Failures are per-record: a failing record changes nothing and the stream
//! goes on.

use std::collections::HashMap;

use vstd::prelude::*;

use crate::account::{
    Account, AccountError, AccountModel, deposit_step, hold_step, release_step, chargeback_step,
    withdraw_step,
};
use crate::amount::Amount;
use crate::transaction::{StoredTransaction, TransactionRecord, TransactionType};

verus! {

/// Why the engine refused a record.  `AccountError` wraps a refusal by the
/// account itself.
#[derive(Clone, Copy, Debug, PartialEq, Eq, Structural)]
pub enum EngineError {
    /// A deposit or withdrawal record arrived without an amount.
    MissingAmount { tx: u32, tx_type: TransactionType },
    /// A deposit or withdrawal reused a transaction id already stored, by
    /// any client.
    DuplicateTransaction { tx: u32 },
    /// A dispute, resolve or chargeback referenced an unknown transaction
    /// id.
    TransactionNotFound { tx: u32 },
    /// The account owning a stored transaction is missing (defensive; a
    /// well-formed ledger never produces it).
    ClientNotFound { client: u16 },
    /// The record's client is not the owner of the stored transaction.
    ClientMismatch { tx: u32, expected: u16, actual: u16 },
    /// A dispute referenced a transaction already under dispute.
    AlreadyDisputed { tx: u32 },
    /// A resolve or chargeback referenced a transaction not under dispute.
    NotUnderDispute { tx: u32 },
    /// A dispute referenced a stored withdrawal; only deposits can be
    /// disputed.
    CannotDisputeWithdrawal { tx: u32 },
    /// The account refused the fund movement.
    AccountError { tx: u32, client: u16, error: AccountError },
}

/// The mathematical image of the whole ledger: the two maps the engine
/// owns, with accounts abstracted to [`AccountModel`].
#[verifier::ext_equal]
pub ghost struct LedgerModel {
    pub accounts: Map<u16, AccountModel>,
    pub txs: Map<u32, StoredTransaction>,
}

impl LedgerModel {
    /// The account stored under `c` is well formed, owned by `c`, and its
    /// total is bounded by the number of stored transactions times the
    /// largest single amount — which keeps every balance far below the
    /// capacity of an `i128` unit count.
    pub open spec fn account_ok(self, c: u16) -> bool {
        &&& self.accounts[c].wf()
        &&& self.accounts[c].client == c
        &&& self.accounts[c].total() <= self.txs.len() * (i64::MAX as int)
    }

    /// The transaction stored under `t` is a deposit or a withdrawal with a
    /// non-negative amount, its owner has an account, and only deposits are
    /// ever under dispute.
    pub open spec fn tx_ok(self, t: u32) -> bool {
        &&& self.txs[t].tx_type is Deposit || self.txs[t].tx_type is Withdrawal
        &&& self.txs[t].amount.units >= 0
        &&& self.accounts.contains_key(self.txs[t].client)
        &&& self.txs[t].disputed ==> self.txs[t].tx_type is Deposit
    }

    /// The held funds of the account stored under `c` are exactly the sum
    /// of its disputed transactions' amounts: every dispute is backed.
    pub open spec fn held_backed(self, c: u16) -> bool {
        self.accounts[c].held == disputed_total(self.txs, c)
    }

    /// The ledger invariant, preserved by every transition.
    pub open spec fn wf(self) -> bool {
        &&& self.accounts.dom().finite()
        &&& self.txs.dom().finite()
        &&& forall|c: u16| self.accounts.contains_key(c) ==> #[trigger] self.account_ok(c)
        &&& forall|t: u32| self.txs.contains_key(t) ==> #[trigger] self.tx_ok(t)
        &&& forall|c: u16| self.accounts.contains_key(c) ==> #[trigger] self.held_backed(c)
    }
}

/// What a deposit record does to the ledger.  An amount is required; a
/// stored transaction id, by any client, is a duplicate; otherwise the
/// account is created if absent, asked to deposit, and the transaction is
/// stored only when the deposit succeeded.
pub open spec fn ledger_deposit_step(
    s: LedgerModel,
    client: u16,
    tx: u32,
    amount: Option<Amount>,
) -> (LedgerModel, Result<(), EngineError>) {
    match amount {
        Option::None => (
            s,
            Err(EngineError::MissingAmount { tx, tx_type: TransactionType::Deposit }),
        ),
        Option::Some(amt) => {
            if s.txs.contains_key(tx) {
                (s, Err(EngineError::DuplicateTransaction { tx }))
            } else {
                let s1 = if s.accounts.contains_key(client) {
                    s
                } else {
                    LedgerModel {
                        accounts: s.accounts.insert(client, AccountModel::new_model(client)),
                        ..s
                    }
                };
                let stepped = deposit_step(s1.accounts[client], amt);
                match stepped.1 {
                    Ok(()) => (
                        LedgerModel {
                            accounts: s1.accounts.insert(client, stepped.0),
                            txs: s1.txs.insert(
                                tx,
                                StoredTransaction {
                                    tx_type: TransactionType::Deposit,
                                    client,
                                    amount: amt,
                                    disputed: false,
                                },
                            ),
                        },
                        Ok(()),
                    ),
                    Err(e) => (s1, Err(EngineError::AccountError { tx, client, error: e })),
                }
            }
        },
    }
}

/// What a withdrawal record does to the ledger.  Like a deposit, but the
/// account is asked to withdraw, so a failing withdrawal still materializes
/// an empty account.
pub open spec fn ledger_withdrawal_step(
    s: LedgerModel,
    client: u16,
    tx: u32,
    amount: Option<Amount>,
) -> (LedgerModel, Result<(), EngineError>) {
    match amount {
        Option::None => (
            s,
            Err(EngineError::MissingAmount { tx, tx_type: TransactionType::Withdrawal }),
        ),
        Option::Some(amt) => {
            if s.txs.contains_key(tx) {
                (s, Err(EngineError::DuplicateTransaction { tx }))
            } else {
                let s1 = if s.accounts.contains_key(client) {
                    s
                } else {
                    LedgerModel {
                        accounts: s.accounts.insert(client, AccountModel::new_model(client)),
                        ..s
                    }
                };
                let stepped = withdraw_step(s1.accounts[client], amt);
                match stepped.1 {
                    Ok(()) => (
                        LedgerModel {
                            accounts: s1.accounts.insert(client, stepped.0),
                            txs: s1.txs.insert(
                                tx,
                                StoredTransaction {
                                    tx_type: TransactionType::Withdrawal,
                                    client,
                                    amount: amt,
                                    disputed: false,
                                },
                            ),
                        },
                        Ok(()),
                    ),
                    Err(e) => (s1, Err(EngineError::AccountError { tx, client, error: e })),
                }
            }
        },
    }
}

/// What a dispute record does to the ledger: after the identity checks, the
/// stored amount moves from available to held and the transaction is marked
/// disputed — only if the hold succeeds.
pub open spec fn ledger_dispute_step(s: LedgerModel, client: u16, tx: u32) -> (LedgerModel, Result<
    (),
    EngineError,
>) {
    if !s.txs.contains_key(tx) {
        (s, Err(EngineError::TransactionNotFound { tx }))
    } else if s.txs[tx].client != client {
        (s, Err(EngineError::ClientMismatch { tx, expected: s.txs[tx].client, actual: client }))
    } else if s.txs[tx].disputed {
        (s, Err(EngineError::AlreadyDisputed { tx }))
    } else if !(s.txs[tx].tx_type is Deposit) {
        (s, Err(EngineError::CannotDisputeWithdrawal { tx }))
    } else if !s.accounts.contains_key(client) {
        (s, Err(EngineError::ClientNotFound { client }))
    } else {
        let stepped = hold_step(s.accounts[client], s.txs[tx].amount);
        match stepped.1 {
            Ok(()) => (
                LedgerModel {
                    accounts: s.accounts.insert(client, stepped.0),
                    txs: s.txs.insert(
                        tx,
                        StoredTransaction { disputed: true, ..s.txs[tx] },
                    ),
                },
                Ok(()),
            ),
            Err(e) => (s, Err(EngineError::AccountError { tx, client, error: e })),
        }
    }
}

/// What a resolve record does to the ledger: after the identity checks, a
/// disputed transaction's amount moves from held back to available and the
/// dispute flag is cleared — only if the release succeeds.
pub open spec fn ledger_resolve_step(s: LedgerModel, client: u16, tx: u32) -> (LedgerModel, Result<
    (),
    EngineError,
>) {
    if !s.txs.contains_key(tx) {
        (s, Err(EngineError::TransactionNotFound { tx }))
    } else if s.txs[tx].client != client {
        (s, Err(EngineError::ClientMismatch { tx, expected: s.txs[tx].client, actual: client }))
    } else if !s.txs[tx].disputed {
        (s, Err(EngineError::NotUnderDispute { tx }))
    } else if !s.accounts.contains_key(client) {
        (s, Err(EngineError::ClientNotFound { client }))
    } else {
        let stepped = release_step(s.accounts[client], s.txs[tx].amount);
        match stepped.1 {
            Ok(()) => (
                LedgerModel {
                    accounts: s.accounts.insert(client, stepped.0),
                    txs: s.txs.insert(
                        tx,
                        StoredTransaction { disputed: false, ..s.txs[tx] },
                    ),
                },
                Ok(()),
            ),
            Err(e) => (s, Err(EngineError::AccountError { tx, client, error: e })),
        }
    }
}

/// What a chargeback record does to the ledger: after the identity checks,
/// a disputed transaction's held amount is removed for good, the account is
/// locked, and the dispute flag is cleared — only if the chargeback
/// succeeds.
pub open spec fn ledger_chargeback_step(s: LedgerModel, client: u16, tx: u32) -> (
    LedgerModel,
    Result<(), EngineError>,
) {
    if !s.txs.contains_key(tx) {
        (s, Err(EngineError::TransactionNotFound { tx }))
    } else if s.txs[tx].client != client {
        (s, Err(EngineError::ClientMismatch { tx, expected: s.txs[tx].client, actual: client }))
    } else if !s.txs[tx].disputed {
        (s, Err(EngineError::NotUnderDispute { tx }))
    } else if !s.accounts.contains_key(client) {
        (s, Err(EngineError::ClientNotFound { client }))
    } else {
        let stepped = chargeback_step(s.accounts[client], s.txs[tx].amount);
        match stepped.1 {
            Ok(()) => (
                LedgerModel {
                    accounts: s.accounts.insert(client, stepped.0),
                    txs: s.txs.insert(
                        tx,
                        StoredTransaction { disputed: false, ..s.txs[tx] },
                    ),
                },
                Ok(()),
            ),
            Err(e) => (s, Err(EngineError::AccountError { tx, client, error: e })),
        }
    }
}

/// What one record does to the ledger, whatever its kind.
pub open spec fn ledger_step(s: LedgerModel, record: TransactionRecord) -> (LedgerModel, Result<
    (),
    EngineError,
>) {
    match record.tx_type {
        TransactionType::Deposit => ledger_deposit_step(s, record.client, record.tx, record.amount),
        TransactionType::Withdrawal => ledger_withdrawal_step(
            s,
            record.client,
            record.tx,
            record.amount,
        ),
        TransactionType::Dispute => ledger_dispute_step(s, record.client, record.tx),
        TransactionType::Resolve => ledger_resolve_step(s, record.client, record.tx),
        TransactionType::Chargeback => ledger_chargeback_step(s, record.client, record.tx),
    }
}


/// The ids of the stored transactions of client `c` that are currently
/// under dispute.
pub open spec fn disputed_ids(txs: Map<u32, StoredTransaction>, c: u16) -> Set<u32> {
    Set::new(|t: u32| txs.contains_key(t) && txs[t].disputed && txs[t].client == c)
}

/// Adds the amount stored under a transaction id; the folding function for
/// sums over sets of ids.
pub open spec fn add_amount_of(txs: Map<u32, StoredTransaction>) -> spec_fn(int, u32) -> int {
    |acc: int, t: u32| acc + txs[t].amount.units
}

/// The sum of the amounts of client `c`'s disputed transactions.
pub open spec fn disputed_total(txs: Map<u32, StoredTransaction>, c: u16) -> int {
    disputed_ids(txs, c).fold(0, add_amount_of(txs))
}

proof fn lemma_add_amount_commutative(txs: Map<u32, StoredTransaction>)
    ensures
        vstd::set::fold::is_fun_commutative(add_amount_of(txs)),
{
}

proof fn lemma_disputed_ids_finite(txs: Map<u32, StoredTransaction>, c: u16)
    requires
        txs.dom().finite(),
    ensures
        disputed_ids(txs, c).finite(),
{
    assert(disputed_ids(txs, c).subset_of(txs.dom()));
    vstd::set_lib::lemma_set_subset_finite(txs.dom(), disputed_ids(txs, c));
}

/// Summing over one more id adds that id's amount.
proof fn lemma_sum_insert(s: Set<u32>, txs: Map<u32, StoredTransaction>, t: u32)
    requires
        s.finite(),
        !s.contains(t),
    ensures
        s.insert(t).fold(0, add_amount_of(txs)) == s.fold(0, add_amount_of(txs))
            + txs[t].amount.units,
{
    lemma_add_amount_commutative(txs);
    vstd::set::fold::lemma_fold_insert(s, 0, add_amount_of(txs), t);
}

/// Summing over one id fewer subtracts that id's amount.
proof fn lemma_sum_remove(s: Set<u32>, txs: Map<u32, StoredTransaction>, t: u32)
    requires
        s.finite(),
        s.contains(t),
    ensures
        s.fold(0, add_amount_of(txs)) == s.remove(t).fold(0, add_amount_of(txs))
            + txs[t].amount.units,
{
    lemma_sum_insert(s.remove(t), txs, t);
    assert(s.remove(t).insert(t) =~= s);
}

/// Two transaction maps that agree on the amounts of a set of ids give the
/// same sum over that set.
proof fn lemma_sum_congruence(
    s: Set<u32>,
    txs1: Map<u32, StoredTransaction>,
    txs2: Map<u32, StoredTransaction>,
)
    requires
        s.finite(),
        forall|t: u32| s.contains(t) ==> txs1[t].amount == txs2[t].amount,
    ensures
        s.fold(0, add_amount_of(txs1)) == s.fold(0, add_amount_of(txs2)),
{
    let pred = |s2: Set<u32>|
        (forall|t: u32| s2.contains(t) ==> txs1[t].amount == txs2[t].amount) ==> s2.fold(
            0,
            add_amount_of(txs1),
        ) == s2.fold(0, add_amount_of(txs2));
    assert(pred(Set::<u32>::empty())) by {
        vstd::set::fold::lemma_fold_empty(0, add_amount_of(txs1));
        vstd::set::fold::lemma_fold_empty(0, add_amount_of(txs2));
    }
    assert forall|s2: Set<u32>, a: u32|
        pred(s2) && s2.finite() && !s2.contains(a) implies #[trigger] pred(s2.insert(a)) by {
        if forall|t: u32| s2.insert(a).contains(t) ==> txs1[t].amount == txs2[t].amount {
            assert forall|t: u32| s2.contains(t) implies txs1[t].amount == txs2[t].amount by {
                assert(s2.insert(a).contains(t));
            }
            lemma_sum_insert(s2, txs1, a);
            lemma_sum_insert(s2, txs2, a);
            assert(s2.insert(a).contains(a));
        }
    }
    vstd::set::fold::lemma_finite_set_induct(s, pred);
}

/// A sum of non-negative amounts is non-negative.
proof fn lemma_sum_nonneg(s: Set<u32>, txs: Map<u32, StoredTransaction>)
    requires
        s.finite(),
        forall|t: u32| s.contains(t) ==> txs[t].amount.units >= 0,
    ensures
        s.fold(0, add_amount_of(txs)) >= 0,
{
    let pred = |s2: Set<u32>|
        (forall|t: u32| s2.contains(t) ==> txs[t].amount.units >= 0) ==> s2.fold(
            0,
            add_amount_of(txs),
        ) >= 0;
    assert(pred(Set::<u32>::empty())) by {
        vstd::set::fold::lemma_fold_empty(0, add_amount_of(txs));
    }
    assert forall|s2: Set<u32>, a: u32|
        pred(s2) && s2.finite() && !s2.contains(a) implies #[trigger] pred(s2.insert(a)) by {
        if forall|t: u32| s2.insert(a).contains(t) ==> txs[t].amount.units >= 0 {
            assert forall|t: u32| s2.contains(t) implies txs[t].amount.units >= 0 by {
                assert(s2.insert(a).contains(t));
            }
            lemma_sum_insert(s2, txs, a);
            assert(s2.insert(a).contains(a));
        }
    }
    vstd::set::fold::lemma_finite_set_induct(s, pred);
}

/// A sum of non-negative amounts covers each one of them.
proof fn lemma_sum_member_bound(s: Set<u32>, txs: Map<u32, StoredTransaction>, t: u32)
    requires
        s.finite(),
        s.contains(t),
        forall|u: u32| s.contains(u) ==> txs[u].amount.units >= 0,
    ensures
        s.fold(0, add_amount_of(txs)) >= txs[t].amount.units,
{
    lemma_sum_remove(s, txs, t);
    lemma_sum_nonneg(s.remove(t), txs);
}

/// The abstraction of the engine's account map: each account seen through
/// its model.
pub open spec fn account_view_map(m: Map<u16, Account>) -> Map<u16, AccountModel> {
    Map::new(|c: u16| m.contains_key(c), |c: u16| m[c]@)
}

/// Inserting into the account map and abstracting commute.
pub broadcast proof fn lemma_account_view_map_insert(m: Map<u16, Account>, c: u16, a: Account)
    ensures
        #[trigger] account_view_map(m.insert(c, a)) == account_view_map(m).insert(c, a@),
{
    assert(account_view_map(m.insert(c, a)) =~= account_view_map(m).insert(c, a@));
}

/// The payments engine: one per run.  It exclusively owns the per-client
/// accounts and the stored transactions; `clients` records the order in
/// which accounts were created and always lists exactly the keys of
/// `accounts`.
pub struct Engine {
    /// Client accounts indexed by client id.
    pub accounts: HashMap<u16, Account>,
    /// The stored transactions that disputes may reference.
    pub transactions: HashMap<u32, StoredTransaction>,
    /// The account keys in order of creation, each exactly once.
    pub clients: Vec<u16>,
}

impl View for Engine {
    type V = LedgerModel;

    open spec fn view(&self) -> LedgerModel {
        LedgerModel { accounts: account_view_map(self.accounts@), txs: self.transactions@ }
    }
}

impl Engine {
    /// The engine is well formed: its model satisfies the ledger invariant
    /// and `clients` lists exactly the account keys, without duplicates.
    pub open spec fn wf(&self) -> bool {
        &&& self@.wf()
        &&& self.clients@.no_duplicates()
        &&& forall|i: int|
            0 <= i < self.clients@.len() ==> self@.accounts.contains_key(
                #[trigger] self.clients@[i],
            )
        &&& forall|c: u16| self@.accounts.contains_key(c) ==> self.clients@.contains(c)
    }

    /// A fresh engine: no accounts, no stored transactions.
    pub fn new() -> (e: Engine)
        ensures
            e.wf(),
            e@.accounts == Map::<u16, AccountModel>::empty(),
            e@.txs == Map::<u32, StoredTransaction>::empty(),
            e.clients@ == Seq::<u16>::empty(),
    {
        let e = Engine {
            accounts: HashMap::new(),
            transactions: HashMap::new(),
            clients: Vec::new(),
        };
        proof {
            assert(e@.accounts =~= Map::<u16, AccountModel>::empty());
            assert(e.clients@ =~= Seq::<u16>::empty());
        }
        e
    }

    /// Process one record; follows [`ledger_step`].  A failing record
    /// leaves the ledger unchanged and the error says exactly why.
    pub fn process(&mut self, record: TransactionRecord) -> (r: Result<(), EngineError>)
        requires
            old(self).wf(),
        ensures
            final(self).wf(),
            final(self)@ == ledger_step(old(self)@, record).0,
            r == ledger_step(old(self)@, record).1,
    {
        match record.tx_type {
            TransactionType::Deposit => self.proc_deposit(record),
            TransactionType::Withdrawal => self.proc_withdrawal(record),
            TransactionType::Dispute => self.proc_dispute(record),
            TransactionType::Resolve => self.proc_resolve(record),
            TransactionType::Chargeback => self.proc_chargeback(record),
        }
    }

    fn proc_deposit(&mut self, record: TransactionRecord) -> (r: Result<(), EngineError>)
        requires
            old(self).wf(),
            (record.tx_type is Deposit),
        ensures
            final(self).wf(),
            final(self)@ == ledger_deposit_step(
                old(self)@,
                record.client,
                record.tx,
                record.amount,
            ).0,
            r == ledger_deposit_step(old(self)@, record.client, record.tx, record.amount).1,
    {
        let ghost s0 = self@;
        let amount = match record.amount {
            Option::Some(a) => a,
            Option::None => {
                return Err(
                    EngineError::MissingAmount {
                        tx: record.tx,
                        tx_type: TransactionType::Deposit,
                    },
                );
            },
        };
        if self.transactions.contains_key(&record.tx) {
            return Err(EngineError::DuplicateTransaction { tx: record.tx });
        }
        if !self.accounts.contains_key(&record.client) {
            self.accounts.insert(record.client, Account::new(record.client));
            self.clients.push(record.client);
            proof {
                broadcast use lemma_account_view_map_insert;

                lemma_register_client(s0, old(self).clients@, record.client);
                lemma_creation_wf(s0, record.client);
            }
        }
        let ghost s1 = self@;
        let ghost clients1 = self.clients@;
        proof {
            broadcast use lemma_account_view_map_insert;

            assert(self.wf());
        }
        let tx_count = self.transactions.len();
        let mut account = *self.accounts.get(&record.client).unwrap();
        proof {
            lemma_balance_fits(s1, record.client, tx_count as nat);
        }
        let dep_result = account.deposit(amount);
        match dep_result {
            Ok(()) => {
                self.accounts.insert(record.client, account);
                self.transactions.insert(
                    record.tx,
                    StoredTransaction::new(TransactionType::Deposit, record.client, amount),
                );
                proof {
                    broadcast use lemma_account_view_map_insert;

                    lemma_step_preserves_wf(s0, record);
                    assert(self@ =~= ledger_deposit_step(s0, record.client, record.tx, record.amount).0);
                    lemma_clients_unchanged_wf(s1, self@, clients1, self.clients@);
                    assert(self.wf());
                }
                Ok(())
            },
            Err(e) => {
                proof {
                    broadcast use lemma_account_view_map_insert;

                    assert(self@ =~= ledger_deposit_step(s0, record.client, record.tx, record.amount).0);
                }
                Err(EngineError::AccountError { tx: record.tx, client: record.client, error: e })
            },
        }
    }

    fn proc_withdrawal(&mut self, record: TransactionRecord) -> (r: Result<(), EngineError>)
        requires
            old(self).wf(),
            (record.tx_type is Withdrawal),
        ensures
            final(self).wf(),
            final(self)@ == ledger_withdrawal_step(
                old(self)@,
                record.client,
                record.tx,
                record.amount,
            ).0,
            r == ledger_withdrawal_step(old(self)@, record.client, record.tx, record.amount).1,
    {
        let ghost s0 = self@;
        let amount = match record.amount {
            Option::Some(a) => a,
            Option::None => {
                return Err(
                    EngineError::MissingAmount {
                        tx: record.tx,
                        tx_type: TransactionType::Withdrawal,
                    },
                );
            },
        };
        if self.transactions.contains_key(&record.tx) {
            return Err(EngineError::DuplicateTransaction { tx: record.tx });
        }
        if !self.accounts.contains_key(&record.client) {
            self.accounts.insert(record.client, Account::new(record.client));
            self.clients.push(record.client);
            proof {
                broadcast use lemma_account_view_map_insert;

                lemma_register_client(s0, old(self).clients@, record.client);
                lemma_creation_wf(s0, record.client);
            }
        }
        let ghost s1 = self@;
        let ghost clients1 = self.clients@;
        proof {
            broadcast use lemma_account_view_map_insert;

            assert(self.wf());
        }
        let mut account = *self.accounts.get(&record.client).unwrap();
        proof {
            assert(s1.account_ok(record.client));
        }
        let wd_result = account.withdraw(amount);
        match wd_result {
            Ok(()) => {
                self.accounts.insert(record.client, account);
                self.transactions.insert(
                    record.tx,
                    StoredTransaction::new(TransactionType::Withdrawal, record.client, amount),
                );
                proof {
                    broadcast use lemma_account_view_map_insert;

                    lemma_step_preserves_wf(s0, record);
                    assert(self@ =~= ledger_withdrawal_step(s0, record.client, record.tx, record.amount).0);
                    lemma_clients_unchanged_wf(s1, self@, clients1, self.clients@);
                    assert(self.wf());
                }
                Ok(())
            },
            Err(e) => {
                proof {
                    broadcast use lemma_account_view_map_insert;

                    assert(self@ =~= ledger_withdrawal_step(s0, record.client, record.tx, record.amount).0);
                }
                Err(EngineError::AccountError { tx: record.tx, client: record.client, error: e })
            },
        }
    }

    fn proc_dispute(&mut self, record: TransactionRecord) -> (r: Result<(), EngineError>)
        requires
            old(self).wf(),
            (record.tx_type is Dispute),
        ensures
            final(self).wf(),
            final(self)@ == ledger_dispute_step(old(self)@, record.client, record.tx).0,
            r == ledger_dispute_step(old(self)@, record.client, record.tx).1,
    {
        let ghost s0 = self@;
        let stored = match self.transactions.get(&record.tx) {
            Option::Some(t) => *t,
            Option::None => {
                return Err(EngineError::TransactionNotFound { tx: record.tx });
            },
        };
        if stored.client != record.client {
            return Err(
                EngineError::ClientMismatch {
                    tx: record.tx,
                    expected: stored.client,
                    actual: record.client,
                },
            );
        }
        if stored.disputed {
            return Err(EngineError::AlreadyDisputed { tx: record.tx });
        }
        if stored.tx_type != TransactionType::Deposit {
            return Err(EngineError::CannotDisputeWithdrawal { tx: record.tx });
        }
        let account_ref = match self.accounts.get(&record.client) {
            Option::Some(a) => a,
            Option::None => {
                return Err(EngineError::ClientNotFound { client: record.client });
            },
        };
        let tx_count = self.transactions.len();
        let mut account = *account_ref;
        proof {
            lemma_balance_fits(s0, record.client, tx_count as nat);
        }
        let hold_result = account.hold(stored.amount);
        match hold_result {
            Ok(()) => {
                self.accounts.insert(record.client, account);
                let mut updated = stored;
                updated.disputed = true;
                self.transactions.insert(record.tx, updated);
                proof {
                    broadcast use lemma_account_view_map_insert;

                    lemma_step_preserves_wf(s0, record);
                    assert(self@ =~= ledger_dispute_step(s0, record.client, record.tx).0);
                    lemma_clients_unchanged_wf(s0, self@, old(self).clients@, self.clients@);
                    assert(self.wf());
                }
                Ok(())
            },
            Err(e) => {
                Err(EngineError::AccountError { tx: record.tx, client: record.client, error: e })
            },
        }
    }

    fn proc_resolve(&mut self, record: TransactionRecord) -> (r: Result<(), EngineError>)
        requires
            old(self).wf(),
            (record.tx_type is Resolve),
        ensures
            final(self).wf(),
            final(self)@ == ledger_resolve_step(old(self)@, record.client, record.tx).0,
            r == ledger_resolve_step(old(self)@, record.client, record.tx).1,
    {
        let ghost s0 = self@;
        let stored = match self.transactions.get(&record.tx) {
            Option::Some(t) => *t,
            Option::None => {
                return Err(EngineError::TransactionNotFound { tx: record.tx });
            },
        };
        if stored.client != record.client {
            return Err(
                EngineError::ClientMismatch {
                    tx: record.tx,
                    expected: stored.client,
                    actual: record.client,
                },
            );
        }
        if !stored.disputed {
            return Err(EngineError::NotUnderDispute { tx: record.tx });
        }
        let account_ref = match self.accounts.get(&record.client) {
            Option::Some(a) => a,
            Option::None => {
                return Err(EngineError::ClientNotFound { client: record.client });
            },
        };
        let tx_count = self.transactions.len();
        let mut account = *account_ref;
        proof {
            lemma_balance_fits(s0, record.client, tx_count as nat);
        }
        let release_result = account.release(stored.amount);
        match release_result {
            Ok(()) => {
                self.accounts.insert(record.client, account);
                let mut updated = stored;
                updated.disputed = false;
                self.transactions.insert(record.tx, updated);
                proof {
                    broadcast use lemma_account_view_map_insert;

                    lemma_step_preserves_wf(s0, record);
                    assert(self@ =~= ledger_resolve_step(s0, record.client, record.tx).0);
                    lemma_clients_unchanged_wf(s0, self@, old(self).clients@, self.clients@);
                    assert(self.wf());
                }
                Ok(())
            },
            Err(e) => {
                Err(EngineError::AccountError { tx: record.tx, client: record.client, error: e })
            },
        }
    }

    fn proc_chargeback(&mut self, record: TransactionRecord) -> (r: Result<(), EngineError>)
        requires
            old(self).wf(),
            (record.tx_type is Chargeback),
        ensures
            final(self).wf(),
            final(self)@ == ledger_chargeback_step(old(self)@, record.client, record.tx).0,
            r == ledger_chargeback_step(old(self)@, record.client, record.tx).1,
    {
        let ghost s0 = self@;
        let stored = match self.transactions.get(&record.tx) {
            Option::Some(t) => *t,
            Option::None => {
                return Err(EngineError::TransactionNotFound { tx: record.tx });
            },
        };
        if stored.client != record.client {
            return Err(
                EngineError::ClientMismatch {
                    tx: record.tx,
                    expected: stored.client,
                    actual: record.client,
                },
            );
        }
        if !stored.disputed {
            return Err(EngineError::NotUnderDispute { tx: record.tx });
        }
        let account_ref = match self.accounts.get(&record.client) {
            Option::Some(a) => a,
            Option::None => {
                return Err(EngineError::ClientNotFound { client: record.client });
            },
        };
        let mut account = *account_ref;
        proof {
            assert(s0.account_ok(record.client));
        }
        let cb_result = account.chargeback(stored.amount);
        match cb_result {
            Ok(()) => {
                self.accounts.insert(record.client, account);
                let mut updated = stored;
                updated.disputed = false;
                self.transactions.insert(record.tx, updated);
                proof {
                    broadcast use lemma_account_view_map_insert;

                    lemma_step_preserves_wf(s0, record);
                    assert(self@ =~= ledger_chargeback_step(s0, record.client, record.tx).0);
                    lemma_clients_unchanged_wf(s0, self@, old(self).clients@, self.clients@);
                    assert(self.wf());
                }
                Ok(())
            },
            Err(e) => {
                Err(EngineError::AccountError { tx: record.tx, client: record.client, error: e })
            },
        }
    }

    /// Every account ever referenced, in order of creation.  Each entry is
    /// exactly the account the ledger holds for its client, every client of
    /// the ledger appears, and no client appears twice.  Sorting for output
    /// is the caller's concern.
    pub fn accounts(&self) -> (v: Vec<Account>)
        requires
            self.wf(),
        ensures
            v@.len() == self.clients@.len(),
            forall|i: int|
                0 <= i < v@.len() ==> self@.accounts.contains_key(#[trigger] v@[i].client)
                    && v@[i]@ == self@.accounts[v@[i].client],
            forall|c: u16|
                self@.accounts.contains_key(c) ==> exists|i: int|
                    0 <= i < v@.len() && (#[trigger] v@[i]).client == c,
            forall|i: int, j: int| 0 <= i < j < v@.len() ==> v@[i].client != v@[j].client,
    {
        let mut v: Vec<Account> = Vec::new();
        let mut idx: usize = 0;
        while idx < self.clients.len()
            invariant
                self.wf(),
                idx <= self.clients@.len(),
                v@.len() == idx,
                forall|i: int|
                    0 <= i < idx ==> (#[trigger] v@[i]).client == self.clients@[i] && v@[i]@
                        == self@.accounts[self.clients@[i]],
            decreases self.clients@.len() - idx,
        {
            let c = self.clients[idx];
            let account = *self.accounts.get(&c).unwrap();
            proof {
                assert(self@.account_ok(c));
            }
            v.push(account);
            idx += 1;
        }
        proof {
            assert forall|i: int|
                0 <= i < v@.len() implies self@.accounts.contains_key(#[trigger] v@[i].client)
                && v@[i]@ == self@.accounts[v@[i].client] by {
                assert(v@[i].client == self.clients@[i]);
            }
            assert forall|c: u16| self@.accounts.contains_key(c) implies exists|i: int|
                0 <= i < v@.len() && (#[trigger] v@[i]).client == c by {
                assert(self.clients@.contains(c));
                let i = choose|i: int| 0 <= i < self.clients@.len() && self.clients@[i] == c;
                assert(v@[i].client == c);
            }
            assert forall|i: int, j: int| 0 <= i < j < v@.len() implies v@[i].client
                != v@[j].client by {
                assert(v@[i].client == self.clients@[i]);
                assert(v@[j].client == self.clients@[j]);
            }
        }
        v
    }
}

impl Default for Engine {
    /// The same fresh engine as [`Engine::new`].
    fn default() -> (e: Engine)
        ensures
            e.wf(),
            e@.accounts == Map::<u16, AccountModel>::empty(),
            e@.txs == Map::<u32, StoredTransaction>::empty(),
    {
        Engine::new()
    }
}

/// The balance bound the ledger invariant gives: with `n` stored
/// transactions, no balance of a well-formed ledger can come near the
/// capacity of an `i128` unit count.
proof fn lemma_balance_fits(s: LedgerModel, client: u16, n: nat)
    requires
        s.wf(),
        s.accounts.contains_key(client),
        s.txs.len() == n,
        n <= usize::MAX,
    ensures
        s.accounts[client].wf(),
        s.accounts[client].total() + i64::MAX < i128::MAX,
        s.accounts[client].available <= s.accounts[client].total(),
        s.accounts[client].held <= s.accounts[client].total(),
{
    assert(s.account_ok(client));
    let l = i64::MAX as int;
    assert(s.accounts[client].total() <= n * l);
    assert(n * l + l == (n + 1) * l) by (nonlinear_arith);
    assert((n + 1) * l <= (usize::MAX as int + 1) * l) by (nonlinear_arith)
        requires
            n + 1 <= usize::MAX as int + 1,
            l >= 0,
    ;
    assert((usize::MAX as int + 1) * l + l < i128::MAX) by (nonlinear_arith)
        requires
            l == i64::MAX as int,
    ;
}

/// Creating a missing account preserves the ledger invariant: the fresh
/// account is empty, owns no transactions, and nothing else changes.
proof fn lemma_creation_wf(s: LedgerModel, client: u16)
    requires
        s.wf(),
        !s.accounts.contains_key(client),
    ensures
        (LedgerModel {
            accounts: s.accounts.insert(client, AccountModel::new_model(client)),
            ..s
        }).wf(),
{
    let s1 = LedgerModel {
        accounts: s.accounts.insert(client, AccountModel::new_model(client)),
        ..s
    };
    let n = s.txs.len() as int;
    let l = i64::MAX as int;
    assert(n * l >= 0) by (nonlinear_arith)
        requires
            n >= 0,
            l >= 0,
    ;
    assert forall|c: u16| s1.accounts.contains_key(c) implies #[trigger] s1.account_ok(c) by {
        if c != client {
            assert(s.account_ok(c));
        }
    }
    assert forall|t: u32| s1.txs.contains_key(t) implies #[trigger] s1.tx_ok(t) by {
        assert(s.tx_ok(t));
    }
    // The new client owns no stored transaction, so nothing of its is
    // disputed and its zero held funds match the empty sum.
    assert forall|c: u16| s1.accounts.contains_key(c) implies #[trigger] s1.held_backed(c) by {
        if c == client {
            assert forall|t: u32| !(#[trigger] disputed_ids(s.txs, client).contains(t)) by {
                if s.txs.contains_key(t) {
                    assert(s.tx_ok(t));
                }
            }
            assert(disputed_ids(s.txs, client) =~= Set::<u32>::empty());
            vstd::set::fold::lemma_fold_empty(0, add_amount_of(s.txs));
        } else {
            assert(s.held_backed(c));
        }
    }
}

/// The `clients` bookkeeping survives a state change that does not add or
/// remove accounts.
proof fn lemma_clients_unchanged_wf(
    before: LedgerModel,
    after: LedgerModel,
    clients_before: Seq<u16>,
    clients_after: Seq<u16>,
)
    requires
        clients_after == clients_before,
        clients_before.no_duplicates(),
        forall|i: int|
            0 <= i < clients_before.len() ==> before.accounts.contains_key(
                #[trigger] clients_before[i],
            ),
        forall|c: u16| before.accounts.contains_key(c) ==> clients_before.contains(c),
        forall|c: u16| after.accounts.contains_key(c) <==> before.accounts.contains_key(c),
    ensures
        clients_after.no_duplicates(),
        forall|i: int|
            0 <= i < clients_after.len() ==> after.accounts.contains_key(
                #[trigger] clients_after[i],
            ),
        forall|c: u16| after.accounts.contains_key(c) ==> clients_after.contains(c),
{
}

/// Registering a brand-new client keeps the `clients` bookkeeping exact:
/// the key is appended once and the list still matches the account map.
proof fn lemma_register_client(s: LedgerModel, clients: Seq<u16>, client: u16)
    requires
        clients.no_duplicates(),
        forall|i: int| 0 <= i < clients.len() ==> s.accounts.contains_key(#[trigger] clients[i]),
        forall|c: u16| s.accounts.contains_key(c) ==> clients.contains(c),
        !s.accounts.contains_key(client),
    ensures
        clients.push(client).no_duplicates(),
        forall|i: int|
            0 <= i < clients.push(client).len() ==> s.accounts.insert(
                client,
                AccountModel::new_model(client),
            ).contains_key(#[trigger] clients.push(client)[i]),
        forall|c: u16|
            s.accounts.insert(client, AccountModel::new_model(client)).contains_key(c)
                ==> clients.push(client).contains(c),
{
    let pushed = clients.push(client);
    assert forall|i: int| 0 <= i < clients.len() implies clients[i] != client by {
        assert(s.accounts.contains_key(clients[i]));
    }
    assert(pushed.no_duplicates());
    assert forall|i: int|
        0 <= i < pushed.len() implies s.accounts.insert(
        client,
        AccountModel::new_model(client),
    ).contains_key(#[trigger] pushed[i]) by {
        if i < clients.len() {
            assert(pushed[i] == clients[i]);
        } else {
            assert(pushed[i] == client);
        }
    }
    assert forall|c: u16|
        s.accounts.insert(client, AccountModel::new_model(client)).contains_key(
            c,
        ) implies pushed.contains(c) by {
        if c == client {
            assert(pushed[clients.len() as int] == client);
        } else {
            assert(clients.contains(c));
            let i = choose|i: int| 0 <= i < clients.len() && clients[i] == c;
            assert(pushed[i] == c);
        }
    }
}

/// Every transition preserves the ledger invariant.  In particular every
/// account of every reachable ledger keeps `available >= 0` and
/// `held >= 0` at every point in time.
pub proof fn lemma_step_preserves_wf(s: LedgerModel, record: TransactionRecord)
    requires
        s.wf(),
    ensures
        ledger_step(s, record).0.wf(),
{
    match record.tx_type {
        TransactionType::Deposit => lemma_cash_step_wf(s, record.client, record.tx, record.amount, true),
        TransactionType::Withdrawal => lemma_cash_step_wf(s, record.client, record.tx, record.amount, false),
        TransactionType::Dispute => lemma_dispute_like_wf(s, record.client, record.tx),
        TransactionType::Resolve => lemma_dispute_like_wf(s, record.client, record.tx),
        TransactionType::Chargeback => lemma_dispute_like_wf(s, record.client, record.tx),
    }
}

/// Deposits and withdrawals preserve the invariant: the touched balance
/// grows by at most one amount while the stored-transaction count grows by
/// one.
proof fn lemma_cash_step_wf(s: LedgerModel, client: u16, tx: u32, amount: Option<Amount>, dep: bool)
    requires
        s.wf(),
    ensures
        dep ==> ledger_deposit_step(s, client, tx, amount).0.wf(),
        !dep ==> ledger_withdrawal_step(s, client, tx, amount).0.wf(),
{
    if amount is Some && !s.txs.contains_key(tx) {
        let amt = amount.unwrap();
        if !s.accounts.contains_key(client) {
            lemma_creation_wf(s, client);
        }
        let s1 = if s.accounts.contains_key(client) {
            s
        } else {
            LedgerModel {
                accounts: s.accounts.insert(client, AccountModel::new_model(client)),
                ..s
            }
        };
        assert(s1.wf());
        let stepped = if dep {
            deposit_step(s1.accounts[client], amt)
        } else {
            withdraw_step(s1.accounts[client], amt)
        };
        if stepped.1 is Ok {
            let kind = if dep {
                TransactionType::Deposit
            } else {
                TransactionType::Withdrawal
            };
            let s2 = LedgerModel {
                accounts: s1.accounts.insert(client, stepped.0),
                txs: s1.txs.insert(
                    tx,
                    StoredTransaction { tx_type: kind, client, amount: amt, disputed: false },
                ),
            };
            let l = i64::MAX as int;
            let n = s.txs.len();
            assert(s2.txs.len() == n + 1);
            assert(n * l + l == (n + 1) * l) by (nonlinear_arith);
            assert(n * l >= 0) by (nonlinear_arith)
                requires
                    n >= 0,
                    l >= 0,
            ;
            assert(s1.account_ok(client));
            assert(stepped.0.total() <= s1.accounts[client].total() + amt.units);
            assert forall|c: u16| s2.accounts.contains_key(c) implies #[trigger] s2.account_ok(
                c,
            ) by {
                if c == client {
                    assert(s2.accounts[c] == stepped.0);
                } else {
                    assert(s1.account_ok(c));
                    assert(s1.accounts[c].total() <= n * l);
                }
            }
            assert forall|t: u32| s2.txs.contains_key(t) implies #[trigger] s2.tx_ok(t) by {
                if t != tx {
                    assert(s1.tx_ok(t));
                }
            }
            // The new transaction is not disputed and touches no held
            // funds, so every account's held sum is unchanged.
            assert forall|c: u16| s2.accounts.contains_key(c) implies #[trigger] s2.held_backed(
                c,
            ) by {
                let ids = disputed_ids(s1.txs, c);
                assert(disputed_ids(s2.txs, c) =~= ids);
                lemma_disputed_ids_finite(s1.txs, c);
                assert forall|t: u32| ids.contains(t) implies s2.txs[t].amount
                    == s1.txs[t].amount by {
                    assert(s1.txs.contains_key(t));
                }
                lemma_sum_congruence(ids, s2.txs, s1.txs);
                assert(s1.held_backed(c));
            }
            assert(s2.wf());
        }
    }
}

/// Disputes, resolves and chargebacks preserve the invariant: holds keep
/// the total, releases keep the total, chargebacks shrink it, and the
/// dispute flag only ever marks stored deposits.
proof fn lemma_dispute_like_wf(s: LedgerModel, client: u16, tx: u32)
    ensures
        s.wf() ==> ledger_dispute_step(s, client, tx).0.wf(),
        s.wf() ==> ledger_resolve_step(s, client, tx).0.wf(),
        s.wf() ==> ledger_chargeback_step(s, client, tx).0.wf(),
{
    if s.wf() && s.txs.contains_key(tx) && s.txs[tx].client == client
        && s.accounts.contains_key(client) {
        let st = s.txs[tx];
        assert(s.tx_ok(tx));
        assert(s.account_ok(client));
        let before = s.accounts[client];
        if !st.disputed && st.tx_type is Deposit && hold_step(before, st.amount).1 is Ok {
            lemma_dispute_like_wf_one(
                s,
                client,
                tx,
                hold_step(before, st.amount).0,
                StoredTransaction { disputed: true, ..st },
            );
        }
        if st.disputed && release_step(before, st.amount).1 is Ok {
            lemma_dispute_like_wf_one(
                s,
                client,
                tx,
                release_step(before, st.amount).0,
                StoredTransaction { disputed: false, ..st },
            );
        }
        if st.disputed && chargeback_step(before, st.amount).1 is Ok {
            lemma_dispute_like_wf_one(
                s,
                client,
                tx,
                chargeback_step(before, st.amount).0,
                StoredTransaction { disputed: false, ..st },
            );
        }
    }
}

/// One dispute-like update — the owning account replaced by a stepped
/// account whose total did not grow, the stored transaction's flag
/// rewritten — preserves the invariant.
proof fn lemma_dispute_like_wf_one(
    s: LedgerModel,
    client: u16,
    tx: u32,
    account: AccountModel,
    updated: StoredTransaction,
)
    requires
        s.wf(),
        s.txs.contains_key(tx),
        s.txs[tx].client == client,
        s.accounts.contains_key(client),
        account.wf(),
        account.client == s.accounts[client].client,
        account.total() <= s.accounts[client].total(),
        updated.tx_type == s.txs[tx].tx_type,
        updated.client == s.txs[tx].client,
        updated.amount == s.txs[tx].amount,
        updated.disputed ==> (updated.tx_type is Deposit),
        updated.disputed != s.txs[tx].disputed,
        updated.disputed ==> account.held == s.accounts[client].held + s.txs[tx].amount.units,
        !updated.disputed ==> account.held == s.accounts[client].held - s.txs[tx].amount.units,
    ensures
        (LedgerModel {
            accounts: s.accounts.insert(client, account),
            txs: s.txs.insert(tx, updated),
        }).wf(),
{
    let s2 = LedgerModel {
        accounts: s.accounts.insert(client, account),
        txs: s.txs.insert(tx, updated),
    };
    assert(s2.txs.len() == s.txs.len());
    assert forall|c: u16| s2.accounts.contains_key(c) implies #[trigger] s2.account_ok(c) by {
        if c == client {
            assert(s.account_ok(client));
        } else {
            assert(s.account_ok(c));
        }
    }
    assert forall|t: u32| s2.txs.contains_key(t) implies #[trigger] s2.tx_ok(t) by {
        if t == tx {
            assert(s.tx_ok(tx));
        } else {
            assert(s.tx_ok(t));
        }
    }
    // Held funds stay in step with the disputed sums: the owner's sum
    // gains or loses exactly the rewritten transaction's amount, and no
    // other client's sum changes.
    assert forall|c: u16| s2.accounts.contains_key(c) implies #[trigger] s2.held_backed(c) by {
        let ids = disputed_ids(s.txs, c);
        lemma_disputed_ids_finite(s.txs, c);
        assert(s.held_backed(c));
        if c == client {
            if updated.disputed {
                assert(!ids.contains(tx));
                assert(disputed_ids(s2.txs, c) =~= ids.insert(tx));
                lemma_sum_insert(ids, s2.txs, tx);
                assert forall|t: u32| ids.contains(t) implies s2.txs[t].amount
                    == s.txs[t].amount by {
                    assert(s.txs.contains_key(t));
                }
                lemma_sum_congruence(ids, s2.txs, s.txs);
                assert(s2.txs[tx].amount == s.txs[tx].amount);
            } else {
                assert(ids.contains(tx));
                assert(disputed_ids(s2.txs, c) =~= ids.remove(tx));
                lemma_sum_remove(ids, s.txs, tx);
                assert forall|t: u32| ids.remove(tx).contains(t) implies s2.txs[t].amount
                    == s.txs[t].amount by {
                    assert(s.txs.contains_key(t));
                }
                lemma_sum_congruence(ids.remove(tx), s2.txs, s.txs);
            }
        } else {
            assert(disputed_ids(s2.txs, c) =~= ids);
            assert forall|t: u32| ids.contains(t) implies s2.txs[t].amount == s.txs[t].amount by {
                assert(s.txs.contains_key(t));
            }
            lemma_sum_congruence(ids, s2.txs, s.txs);
        }
    }
}

/// Lock monotonicity: once an account is locked, no later record — of any
/// kind, for any client — can unlock it.
pub proof fn lemma_lock_monotonic(s: LedgerModel, record: TransactionRecord, client: u16)
    requires
        s.accounts.contains_key(client),
        s.accounts[client].locked,
    ensures
        ledger_step(s, record).0.accounts.contains_key(client),
        ledger_step(s, record).0.accounts[client].locked,
{
}

/// Dispute re-entrancy: on a stored, undisputed deposit whose owner has
/// the funds available, dispute then resolve then dispute succeed in turn;
/// the second dispute restores exactly the state the first one reached,
/// the held amount included.
pub proof fn lemma_dispute_reentrant(s: LedgerModel, client: u16, tx: u32)
    requires
        s.wf(),
        s.txs.contains_key(tx),
        s.txs[tx].client == client,
        (s.txs[tx].tx_type is Deposit),
        !s.txs[tx].disputed,
        s.accounts.contains_key(client),
        s.accounts[client].available >= s.txs[tx].amount.units,
    ensures
        ({
            let first = ledger_dispute_step(s, client, tx);
            let second = ledger_resolve_step(first.0, client, tx);
            let third = ledger_dispute_step(second.0, client, tx);
            &&& first.1 is Ok
            &&& second.1 is Ok
            &&& third.1 is Ok
            &&& third.0 == first.0
            &&& first.0.accounts[client].held == s.accounts[client].held + s.txs[tx].amount.units
        }),
{
    assert(s.tx_ok(tx));
    assert(s.account_ok(client));
    let first = ledger_dispute_step(s, client, tx);
    let second = ledger_resolve_step(first.0, client, tx);
    let third = ledger_dispute_step(second.0, client, tx);
    assert(second.0.accounts =~= s.accounts.insert(client, second.0.accounts[client]));
    assert(third.0.accounts =~= first.0.accounts);
    assert(third.0.txs =~= first.0.txs);
    assert(third.0 =~= first.0);
}

/// A transaction id, once stored, stays stored, and its kind, owner and
/// amount never change; only the dispute flag moves.
pub proof fn lemma_stored_tx_preserved(s: LedgerModel, record: TransactionRecord, tx: u32)
    requires
        s.txs.contains_key(tx),
    ensures
        ledger_step(s, record).0.txs.contains_key(tx),
        ledger_step(s, record).0.txs[tx].tx_type == s.txs[tx].tx_type,
        ledger_step(s, record).0.txs[tx].client == s.txs[tx].client,
        ledger_step(s, record).0.txs[tx].amount == s.txs[tx].amount,
{
}

/// Global id uniqueness, the refusal half: while a transaction id is
/// stored, any deposit or withdrawal record reusing it — whatever its
/// client — is rejected as a duplicate and changes nothing.
pub proof fn lemma_duplicate_id_rejected(s: LedgerModel, record: TransactionRecord)
    requires
        s.txs.contains_key(record.tx),
        (record.tx_type is Deposit || record.tx_type is Withdrawal),
        (record.amount is Some),
    ensures
        ledger_step(s, record).1 == Err::<(), EngineError>(
            EngineError::DuplicateTransaction { tx: record.tx },
        ),
        ledger_step(s, record).0 == s,
{
}

/// Every dispute is backed: while a transaction is under dispute, its
/// owner's held funds cover its amount, so the matching resolve and the
/// matching chargeback always succeed.
pub proof fn lemma_disputed_always_backed(s: LedgerModel, client: u16, tx: u32)
    requires
        s.wf(),
        s.txs.contains_key(tx),
        s.txs[tx].client == client,
        s.txs[tx].disputed,
    ensures
        s.accounts.contains_key(client),
        s.accounts[client].held >= s.txs[tx].amount.units,
        (ledger_resolve_step(s, client, tx).1 is Ok),
        (ledger_chargeback_step(s, client, tx).1 is Ok),
{
    assert(s.tx_ok(tx));
    assert(s.account_ok(client));
    assert(s.held_backed(client));
    let ids = disputed_ids(s.txs, client);
    lemma_disputed_ids_finite(s.txs, client);
    assert(ids.contains(tx));
    assert forall|u: u32| ids.contains(u) implies s.txs[u].amount.units >= 0 by {
        assert(s.tx_ok(u));
    }
    lemma_sum_member_bound(ids, s.txs, tx);
}

/// Global id uniqueness, the acceptance half: a deposit or withdrawal that
/// succeeds stores its transaction id, so any later reuse is a duplicate.
pub proof fn lemma_accepted_tx_stored(s: LedgerModel, record: TransactionRecord)
    requires
        (record.tx_type is Deposit || record.tx_type is Withdrawal),
        (ledger_step(s, record).1 is Ok),
    ensures
        ledger_step(s, record).0.txs.contains_key(record.tx),
{
}

} // verus!

//! One client's account: available and held funds and the lock flag.
//!
//! The meaning of every operation is given by a pure transition function on
//! [`AccountModel`], a mathematical image of the account whose balances are
//! unbounded integers (in ten-thousandths).  The executable methods are
//! proved to follow those transition functions exactly, to keep both
//! balances non-negative, and never to clear the lock flag.

use vstd::prelude::*;

use crate::amount::Amount;

verus! {

/// Why an account operation was refused.  The balances reported by
/// `InsufficientFunds` and `InsufficientHeldFunds` are unit counts
/// (ten-thousandths), like [`Amount::units`].
#[derive(Clone, Copy, Debug, PartialEq, Eq, Structural)]
pub enum AccountError {
    /// The account is locked and refuses client-initiated cash movement.
    AccountLocked,
    /// The record carried a negative amount.
    NegativeAmount,
    /// A withdrawal or hold asked for more than is available.
    InsufficientFunds { requested: Amount, available: i128 },
    /// A release or chargeback asked for more than is held.
    InsufficientHeldFunds { requested: Amount, held: i128 },
}

/// The mathematical image of an account: balances as unbounded integers,
/// counted in ten-thousandths.
pub ghost struct AccountModel {
    pub client: u16,
    pub available: int,
    pub held: int,
    pub locked: bool,
}

impl AccountModel {
    /// Both balances are non-negative; this holds of every account at every
    /// point in time.
    pub open spec fn wf(self) -> bool {
        self.available >= 0 && self.held >= 0
    }

    /// The total funds of the account; always derived, never stored.
    pub open spec fn total(self) -> int {
        self.available + self.held
    }

    /// A freshly created account: empty and unlocked.
    pub open spec fn new_model(client: u16) -> AccountModel {
        AccountModel { client, available: 0, held: 0, locked: false }
    }
}

/// What a deposit does: fails on a locked account or a negative amount,
/// otherwise adds the amount to the available funds.
pub open spec fn deposit_step(a: AccountModel, amount: Amount) -> (AccountModel, Result<
    (),
    AccountError,
>) {
    if a.locked {
        (a, Err(AccountError::AccountLocked))
    } else if amount.units < 0 {
        (a, Err(AccountError::NegativeAmount))
    } else {
        (AccountModel { available: a.available + amount.units, ..a }, Ok(()))
    }
}

/// What a withdrawal does: fails on a locked account, a negative amount or
/// insufficient available funds, otherwise subtracts the amount from the
/// available funds.
pub open spec fn withdraw_step(a: AccountModel, amount: Amount) -> (AccountModel, Result<
    (),
    AccountError,
>) {
    if a.locked {
        (a, Err(AccountError::AccountLocked))
    } else if amount.units < 0 {
        (a, Err(AccountError::NegativeAmount))
    } else if a.available < amount.units {
        (
            a,
            Err(
                AccountError::InsufficientFunds {
                    requested: amount,
                    available: a.available as i128,
                },
            ),
        )
    } else {
        (AccountModel { available: a.available - amount.units, ..a }, Ok(()))
    }
}

/// What a hold does: moves the amount from available to held funds.  A lock
/// does not block it, so disputes stay processable on locked accounts.
pub open spec fn hold_step(a: AccountModel, amount: Amount) -> (AccountModel, Result<
    (),
    AccountError,
>) {
    if amount.units < 0 {
        (a, Err(AccountError::NegativeAmount))
    } else if a.available < amount.units {
        (
            a,
            Err(
                AccountError::InsufficientFunds {
                    requested: amount,
                    available: a.available as i128,
                },
            ),
        )
    } else {
        (
            AccountModel {
                available: a.available - amount.units,
                held: a.held + amount.units,
                ..a
            },
            Ok(()),
        )
    }
}

/// What a release does: moves the amount from held back to available funds.
/// Not blocked by a lock.
pub open spec fn release_step(a: AccountModel, amount: Amount) -> (AccountModel, Result<
    (),
    AccountError,
>) {
    if amount.units < 0 {
        (a, Err(AccountError::NegativeAmount))
    } else if a.held < amount.units {
        (a, Err(AccountError::InsufficientHeldFunds { requested: amount, held: a.held as i128 }))
    } else {
        (
            AccountModel {
                available: a.available + amount.units,
                held: a.held - amount.units,
                ..a
            },
            Ok(()),
        )
    }
}

/// What a chargeback does: permanently removes the amount from the held
/// funds and locks the account.  Not blocked by an existing lock.
pub open spec fn chargeback_step(a: AccountModel, amount: Amount) -> (AccountModel, Result<
    (),
    AccountError,
>) {
    if amount.units < 0 {
        (a, Err(AccountError::NegativeAmount))
    } else if a.held < amount.units {
        (a, Err(AccountError::InsufficientHeldFunds { requested: amount, held: a.held as i128 }))
    } else {
        (AccountModel { held: a.held - amount.units, locked: true, ..a }, Ok(()))
    }
}

/// A client's account.  Balances are unit counts in ten-thousandths, kept
/// as `i128` so that any number of accepted transactions fits (the engine
/// maintains that bound; see `LedgerModel::wf`).
#[derive(Clone, Copy, Debug)]
pub struct Account {
    /// Stable identity, assigned on first reference.
    pub client: u16,
    /// Withdrawable funds, in ten-thousandths; never negative.
    pub available: i128,
    /// Funds earmarked by active disputes, in ten-thousandths; never
    /// negative.
    pub held: i128,
    /// Set permanently by a successful chargeback.
    pub locked: bool,
}

impl View for Account {
    type V = AccountModel;

    open spec fn view(&self) -> AccountModel {
        AccountModel {
            client: self.client,
            available: self.available as int,
            held: self.held as int,
            locked: self.locked,
        }
    }
}

impl Account {
    /// A fresh account for `client`: zero balances, unlocked.
    pub fn new(client: u16) -> (a: Account)
        ensures
            a@ == AccountModel::new_model(client),
    {
        Account { client, available: 0, held: 0, locked: false }
    }

    /// The total funds of the account.
    pub fn total(&self) -> (t: i128)
        requires
            self@.available + self@.held <= i128::MAX,
            self@.wf(),
        ensures
            t == self@.total(),
    {
        self.available + self.held
    }

    /// Add funds; follows [`deposit_step`].  Preserves well-formedness and
    /// never clears the lock.
    pub fn deposit(&mut self, amount: Amount) -> (r: Result<(), AccountError>)
        requires
            !old(self)@.locked && amount.units >= 0 ==> old(self)@.available + amount.units
                <= i128::MAX,
        ensures
            final(self)@ == deposit_step(old(self)@, amount).0,
            r == deposit_step(old(self)@, amount).1,
            old(self)@.wf() ==> final(self)@.wf(),
            old(self)@.locked ==> final(self)@.locked,
    {
        if self.locked {
            return Err(AccountError::AccountLocked);
        }
        if amount.units < 0 {
            return Err(AccountError::NegativeAmount);
        }
        self.available = self.available + amount.units as i128;
        Ok(())
    }

    /// Remove funds; follows [`withdraw_step`].
    pub fn withdraw(&mut self, amount: Amount) -> (r: Result<(), AccountError>)
        requires
            old(self)@.wf(),
        ensures
            final(self)@ == withdraw_step(old(self)@, amount).0,
            r == withdraw_step(old(self)@, amount).1,
            final(self)@.wf(),
            old(self)@.locked ==> final(self)@.locked,
    {
        if self.locked {
            return Err(AccountError::AccountLocked);
        }
        if amount.units < 0 {
            return Err(AccountError::NegativeAmount);
        }
        if self.available < amount.units as i128 {
            return Err(
                AccountError::InsufficientFunds { requested: amount, available: self.available },
            );
        }
        self.available = self.available - amount.units as i128;
        Ok(())
    }

    /// Earmark funds for a dispute; follows [`hold_step`].
    pub fn hold(&mut self, amount: Amount) -> (r: Result<(), AccountError>)
        requires
            old(self)@.wf(),
            0 <= amount.units <= old(self)@.available ==> old(self)@.held + amount.units
                <= i128::MAX,
        ensures
            final(self)@ == hold_step(old(self)@, amount).0,
            r == hold_step(old(self)@, amount).1,
            final(self)@.wf(),
            old(self)@.locked ==> final(self)@.locked,
    {
        if amount.units < 0 {
            return Err(AccountError::NegativeAmount);
        }
        if self.available < amount.units as i128 {
            return Err(
                AccountError::InsufficientFunds { requested: amount, available: self.available },
            );
        }
        self.available = self.available - amount.units as i128;
        self.held = self.held + amount.units as i128;
        Ok(())
    }

    /// Return held funds to available; follows [`release_step`].
    pub fn release(&mut self, amount: Amount) -> (r: Result<(), AccountError>)
        requires
            old(self)@.wf(),
            0 <= amount.units <= old(self)@.held ==> old(self)@.available + amount.units
                <= i128::MAX,
        ensures
            final(self)@ == release_step(old(self)@, amount).0,
            r == release_step(old(self)@, amount).1,
            final(self)@.wf(),
            old(self)@.locked ==> final(self)@.locked,
    {
        if amount.units < 0 {
            return Err(AccountError::NegativeAmount);
        }
        if self.held < amount.units as i128 {
            return Err(AccountError::InsufficientHeldFunds { requested: amount, held: self.held });
        }
        self.held = self.held - amount.units as i128;
        self.available = self.available + amount.units as i128;
        Ok(())
    }

    /// Remove held funds for good and lock the account; follows
    /// [`chargeback_step`].
    pub fn chargeback(&mut self, amount: Amount) -> (r: Result<(), AccountError>)
        requires
            old(self)@.wf(),
        ensures
            final(self)@ == chargeback_step(old(self)@, amount).0,
            r == chargeback_step(old(self)@, amount).1,
            final(self)@.wf(),
            old(self)@.locked ==> final(self)@.locked,
    {
        if amount.units < 0 {
            return Err(AccountError::NegativeAmount);
        }
        if self.held < amount.units as i128 {
            return Err(AccountError::InsufficientHeldFunds { requested: amount, held: self.held });
        }
        self.held = self.held - amount.units as i128;
        self.locked = true;
        Ok(())
    }
}

/// The rendering-ready snapshot of one account, with the derived total
/// spelled out.  Balances are unit counts in ten-thousandths.
#[derive(Clone, Copy, Debug, PartialEq, Eq, Structural)]
pub struct AccountOutput {
    pub client: u16,
    pub available: i128,
    pub held: i128,
    pub total: i128,
    pub locked: bool,
}

impl AccountOutput {
    /// The snapshot of `account`, with `total` computed as available plus
    /// held.
    pub fn from(account: &Account) -> (o: AccountOutput)
        requires
            account@.available + account@.held <= i128::MAX,
            account@.wf(),
        ensures
            o.client == account@.client,
            o.available == account@.available,
            o.held == account@.held,
            o.total == account@.total(),
            o.locked == account@.locked,
    {
        AccountOutput {
            client: account.client,
            available: account.available,
            held: account.held,
            total: account.total(),
            locked: account.locked,
        }
    }
}

/// One account operation, for stating laws over whole runs of operations.
pub ghost enum AccountOp {
    Deposit(Amount),
    Withdraw(Amount),
    Hold(Amount),
    Release(Amount),
    Chargeback(Amount),
}

/// The transition of a single [`AccountOp`].
pub open spec fn op_step(a: AccountModel, op: AccountOp) -> (AccountModel, Result<
    (),
    AccountError,
>) {
    match op {
        AccountOp::Deposit(amount) => deposit_step(a, amount),
        AccountOp::Withdraw(amount) => withdraw_step(a, amount),
        AccountOp::Hold(amount) => hold_step(a, amount),
        AccountOp::Release(amount) => release_step(a, amount),
        AccountOp::Chargeback(amount) => chargeback_step(a, amount),
    }
}

/// The account after a whole run of operations, failed ones included.
pub open spec fn apply_ops(a: AccountModel, ops: Seq<AccountOp>) -> AccountModel
    decreases ops.len(),
{
    if ops.len() == 0 {
        a
    } else {
        apply_ops(op_step(a, ops[0]).0, ops.subrange(1, ops.len() as int))
    }
}

/// The net units gained over a run of operations: the sum of the amounts of
/// the successful deposits minus the sum of the amounts of the successful
/// withdrawals.  Holds and releases contribute nothing.
pub open spec fn net_units(a: AccountModel, ops: Seq<AccountOp>) -> int
    decreases ops.len(),
{
    if ops.len() == 0 {
        0
    } else {
        let stepped = op_step(a, ops[0]);
        let gain: int = if stepped.1 is Ok {
            match ops[0] {
                AccountOp::Deposit(amount) => amount.units as int,
                AccountOp::Withdraw(amount) => -(amount.units as int),
                _ => 0,
            }
        } else {
            0
        };
        gain + net_units(stepped.0, ops.subrange(1, ops.len() as int))
    }
}

/// Conservation: over any run of deposit, withdrawal, hold and release
/// operations (no chargebacks), the account's total changes by exactly the
/// successful deposits minus the successful withdrawals.
pub proof fn lemma_conservation(a: AccountModel, ops: Seq<AccountOp>)
    requires
        forall|i: int| 0 <= i < ops.len() ==> !(#[trigger] ops[i] is Chargeback),
    ensures
        apply_ops(a, ops).total() == a.total() + net_units(a, ops),
    decreases ops.len(),
{
    if ops.len() > 0 {
        let rest = ops.subrange(1, ops.len() as int);
        assert(forall|i: int| 0 <= i < rest.len() ==> rest[i] == ops[i + 1]);
        lemma_conservation(op_step(a, ops[0]).0, rest);
    }
}

} // verus!

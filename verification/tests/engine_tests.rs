//! Engine-level tests: whole records routed through `Engine::process`.
//! Amounts are unit counts in ten-thousandths: 1_000_000 units is 100.

use payments_engine::amount::Amount;
use payments_engine::engine::{Engine, EngineError};
use payments_engine::transaction::{TransactionRecord, TransactionType};

fn deposit(client: u16, tx: u32, units: i64) -> TransactionRecord {
    TransactionRecord {
        tx_type: TransactionType::Deposit,
        client,
        tx,
        amount: Some(Amount { units }),
    }
}

fn withdrawal(client: u16, tx: u32, units: i64) -> TransactionRecord {
    TransactionRecord {
        tx_type: TransactionType::Withdrawal,
        client,
        tx,
        amount: Some(Amount { units }),
    }
}

fn dispute(client: u16, tx: u32) -> TransactionRecord {
    TransactionRecord { tx_type: TransactionType::Dispute, client, tx, amount: None }
}

fn resolve(client: u16, tx: u32) -> TransactionRecord {
    TransactionRecord { tx_type: TransactionType::Resolve, client, tx, amount: None }
}

fn chargeback(client: u16, tx: u32) -> TransactionRecord {
    TransactionRecord { tx_type: TransactionType::Chargeback, client, tx, amount: None }
}

#[test]
fn test_basic_deposit_withdrawal() {
    let mut engine = Engine::new();

    engine.process(deposit(1, 1, 1_000_000)).unwrap();
    engine.process(deposit(1, 2, 500_000)).unwrap();
    engine.process(withdrawal(1, 3, 750_000)).unwrap();

    let account = engine.accounts.get(&1).unwrap();
    assert_eq!(account.available, 750_000);
    assert_eq!(account.total(), 750_000);
}

#[test]
fn test_withdrawal_insufficient_funds() {
    let mut engine = Engine::new();

    engine.process(deposit(1, 1, 500_000)).unwrap();
    let result = engine.process(withdrawal(1, 2, 1_000_000));

    assert!(matches!(result, Err(EngineError::AccountError { .. })));
}

#[test]
fn test_dispute_resolve_flow() {
    let mut engine = Engine::new();

    engine.process(deposit(1, 1, 1_000_000)).unwrap();
    engine.process(dispute(1, 1)).unwrap();

    let account = engine.accounts.get(&1).unwrap();
    assert_eq!(account.available, 0);
    assert_eq!(account.held, 1_000_000);
    assert_eq!(account.total(), 1_000_000);

    engine.process(resolve(1, 1)).unwrap();

    let account = engine.accounts.get(&1).unwrap();
    assert_eq!(account.available, 1_000_000);
    assert_eq!(account.held, 0);
}

#[test]
fn test_dispute_chargeback_flow() {
    let mut engine = Engine::new();

    engine.process(deposit(1, 1, 1_000_000)).unwrap();
    engine.process(dispute(1, 1)).unwrap();
    engine.process(chargeback(1, 1)).unwrap();

    let account = engine.accounts.get(&1).unwrap();
    assert_eq!(account.available, 0);
    assert_eq!(account.held, 0);
    assert_eq!(account.total(), 0);
    assert!(account.locked);
}

#[test]
fn test_dispute_nonexistent_tx() {
    let mut engine = Engine::new();

    engine.process(deposit(1, 1, 1_000_000)).unwrap();
    let result = engine.process(dispute(1, 999));

    assert!(matches!(result, Err(EngineError::TransactionNotFound { .. })));
}

#[test]
fn test_resolve_not_disputed() {
    let mut engine = Engine::new();

    engine.process(deposit(1, 1, 1_000_000)).unwrap();
    let result = engine.process(resolve(1, 1));

    assert!(matches!(result, Err(EngineError::NotUnderDispute { .. })));
}

#[test]
fn test_client_mismatch() {
    let mut engine = Engine::new();

    engine.process(deposit(1, 1, 1_000_000)).unwrap();
    // Client 2 tries to dispute client 1's transaction.
    let result = engine.process(dispute(2, 1));

    assert!(matches!(result, Err(EngineError::ClientMismatch { .. })));
}

#[test]
fn test_multiple_clients() {
    let mut engine = Engine::new();

    engine.process(deposit(1, 1, 1_000_000)).unwrap();
    engine.process(deposit(2, 2, 2_000_000)).unwrap();
    engine.process(withdrawal(1, 3, 500_000)).unwrap();

    let account1 = engine.accounts.get(&1).unwrap();
    let account2 = engine.accounts.get(&2).unwrap();

    assert_eq!(account1.available, 500_000);
    assert_eq!(account2.available, 2_000_000);
}

#[test]
fn engine_test_duplicate_transaction_id() {
    let mut engine = Engine::new();

    engine.process(deposit(1, 1, 1_000_000)).unwrap();
    let result = engine.process(deposit(1, 1, 500_000));

    assert!(matches!(result, Err(EngineError::DuplicateTransaction { .. })));
}

#[test]
fn engine_test_zero_amount_deposit() {
    let mut engine = Engine::new();
    engine.process(deposit(1, 1, 0)).unwrap();

    let account = engine.accounts.get(&1).unwrap();
    assert_eq!(account.available, 0);
    assert_eq!(account.total(), 0);
}

#[test]
fn engine_test_zero_amount_withdrawal() {
    let mut engine = Engine::new();
    engine.process(deposit(1, 1, 1_000_000)).unwrap();
    engine.process(withdrawal(1, 2, 0)).unwrap();

    let account = engine.accounts.get(&1).unwrap();
    assert_eq!(account.available, 1_000_000);
}

#[test]
fn engine_test_negative_deposit_rejected() {
    let mut engine = Engine::new();
    let result = engine.process(deposit(1, 1, -1_000_000));

    assert!(matches!(result, Err(EngineError::AccountError { .. })));
}

#[test]
fn engine_test_negative_withdrawal_rejected() {
    let mut engine = Engine::new();
    engine.process(deposit(1, 1, 1_000_000)).unwrap();
    let result = engine.process(withdrawal(1, 2, -500_000));

    assert!(matches!(result, Err(EngineError::AccountError { .. })));
}

#[test]
fn engine_test_redispute_after_resolve() {
    let mut engine = Engine::new();

    engine.process(deposit(1, 1, 1_000_000)).unwrap();
    engine.process(dispute(1, 1)).unwrap();
    engine.process(resolve(1, 1)).unwrap();
    // It should be possible to dispute again.
    engine.process(dispute(1, 1)).unwrap();

    let account = engine.accounts.get(&1).unwrap();
    assert_eq!(account.available, 0);
    assert_eq!(account.held, 1_000_000);
}

#[test]
fn test_double_dispute_rejected() {
    let mut engine = Engine::new();

    engine.process(deposit(1, 1, 1_000_000)).unwrap();
    engine.process(dispute(1, 1)).unwrap();
    let result = engine.process(dispute(1, 1));

    assert!(matches!(result, Err(EngineError::AlreadyDisputed { .. })));
}

#[test]
fn engine_test_dispute_withdrawal_rejected() {
    let mut engine = Engine::new();

    engine.process(deposit(1, 1, 1_000_000)).unwrap();
    engine.process(withdrawal(1, 2, 500_000)).unwrap();
    let result = engine.process(dispute(1, 2));

    assert!(matches!(result, Err(EngineError::CannotDisputeWithdrawal { .. })));
}

#[test]
fn test_chargeback_without_dispute_rejected() {
    let mut engine = Engine::new();

    engine.process(deposit(1, 1, 1_000_000)).unwrap();
    let result = engine.process(chargeback(1, 1));

    assert!(matches!(result, Err(EngineError::NotUnderDispute { .. })));
}

#[test]
fn test_dispute_insufficient_funds() {
    let mut engine = Engine::new();

    engine.process(deposit(1, 1, 1_000_000)).unwrap();
    engine.process(withdrawal(1, 2, 800_000)).unwrap();
    // Try to dispute 100 when only 20 is available.
    let result = engine.process(dispute(1, 1));

    assert!(matches!(result, Err(EngineError::AccountError { .. })));
}

#[test]
fn engine_test_duplicate_tx_id_different_clients() {
    let mut engine = Engine::new();

    engine.process(deposit(1, 1, 1_000_000)).unwrap();
    // Same transaction id, different client: must fail.
    let result = engine.process(deposit(2, 1, 2_000_000));

    assert!(matches!(result, Err(EngineError::DuplicateTransaction { .. })));
}

#[test]
fn test_withdrawal_creates_account() {
    let mut engine = Engine::new();

    // A withdrawal on a non-existent account creates it, then fails.
    let result = engine.process(withdrawal(1, 1, 500_000));
    assert!(matches!(result, Err(EngineError::AccountError { .. })));

    // The account should exist with a zero balance.
    let account = engine.accounts.get(&1).unwrap();
    assert_eq!(account.available, 0);
}

#[test]
fn engine_test_dispute_on_locked_account() {
    let mut engine = Engine::new();

    engine.process(deposit(1, 1, 1_000_000)).unwrap();
    engine.process(deposit(1, 2, 500_000)).unwrap();
    engine.process(dispute(1, 1)).unwrap();
    engine.process(chargeback(1, 1)).unwrap();

    // The account is now locked, but a dispute of tx 2 should still work.
    engine.process(dispute(1, 2)).unwrap();

    let account = engine.accounts.get(&1).unwrap();
    assert!(account.locked);
    assert_eq!(account.available, 0);
    assert_eq!(account.held, 500_000);
}

#[test]
fn engine_test_resolve_on_locked_account() {
    let mut engine = Engine::new();

    engine.process(deposit(1, 1, 1_000_000)).unwrap();
    engine.process(deposit(1, 2, 500_000)).unwrap();
    engine.process(dispute(1, 2)).unwrap();
    engine.process(dispute(1, 1)).unwrap();
    engine.process(chargeback(1, 1)).unwrap();

    // The account is now locked, but a resolve of tx 2 should still work.
    engine.process(resolve(1, 2)).unwrap();

    let account = engine.accounts.get(&1).unwrap();
    assert!(account.locked);
    assert_eq!(account.available, 500_000);
    assert_eq!(account.held, 0);
}

#[test]
fn engine_test_transaction_id_zero() {
    let mut engine = Engine::new();

    engine.process(deposit(1, 0, 1_000_000)).unwrap();
    engine.process(dispute(1, 0)).unwrap();

    let account = engine.accounts.get(&1).unwrap();
    assert_eq!(account.held, 1_000_000);
}

#[test]
fn engine_test_transaction_id_max() {
    let mut engine = Engine::new();

    engine.process(deposit(1, u32::MAX, 1_000_000)).unwrap();
    engine.process(dispute(1, u32::MAX)).unwrap();

    let account = engine.accounts.get(&1).unwrap();
    assert_eq!(account.held, 1_000_000);
}

#[test]
fn engine_test_client_id_zero() {
    let mut engine = Engine::new();

    engine.process(deposit(0, 1, 1_000_000)).unwrap();

    let account = engine.accounts.get(&0).unwrap();
    assert_eq!(account.available, 1_000_000);
}

#[test]
fn engine_test_client_id_max() {
    let mut engine = Engine::new();

    engine.process(deposit(u16::MAX, 1, 1_000_000)).unwrap();

    let account = engine.accounts.get(&u16::MAX).unwrap();
    assert_eq!(account.available, 1_000_000);
}

#[test]
fn engine_test_very_small_amount() {
    let mut engine = Engine::new();

    engine.process(deposit(1, 1, 1)).unwrap();
    engine.process(deposit(1, 2, 1)).unwrap();

    let account = engine.accounts.get(&1).unwrap();
    assert_eq!(account.available, 2); // 0.0002
}

#[test]
fn engine_test_precision_accumulation() {
    let mut engine = Engine::new();

    // Ten deposits of 0.0001 should equal exactly 0.0010.
    for i in 1..=10 {
        engine.process(deposit(1, i, 1)).unwrap();
    }

    let account = engine.accounts.get(&1).unwrap();
    assert_eq!(account.available, 10); // 0.0010
}

#[test]
fn engine_test_multiple_dispute_resolve_cycles() {
    let mut engine = Engine::new();

    engine.process(deposit(1, 1, 1_000_000)).unwrap();

    // Multiple cycles.
    for _ in 0..5 {
        engine.process(dispute(1, 1)).unwrap();
        let account = engine.accounts.get(&1).unwrap();
        assert_eq!(account.held, 1_000_000);

        engine.process(resolve(1, 1)).unwrap();
        let account = engine.accounts.get(&1).unwrap();
        assert_eq!(account.available, 1_000_000);
    }
}

#[test]
fn test_missing_amount_deposit() {
    let mut engine = Engine::new();

    let record =
        TransactionRecord { tx_type: TransactionType::Deposit, client: 1, tx: 1, amount: None };
    let result = engine.process(record);

    assert!(matches!(result, Err(EngineError::MissingAmount { .. })));
}

#[test]
fn test_missing_amount_withdrawal() {
    let mut engine = Engine::new();

    engine.process(deposit(1, 1, 1_000_000)).unwrap();

    let record =
        TransactionRecord { tx_type: TransactionType::Withdrawal, client: 1, tx: 2, amount: None };
    let result = engine.process(record);

    assert!(matches!(result, Err(EngineError::MissingAmount { .. })));
}

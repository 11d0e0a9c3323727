use hkask_templates::wallet::{TransactionType, WalletError, WalletTransaction};
use hkask_templates::wallet_store::{ApiKeyCapability, DepositReference, EncumbranceStatus, WalletStore};
use std::time::{SystemTime, UNIX_EPOCH};

const DAY_MS: i64 = 24 * 60 * 60 * 1000;
const HOUR_MS: i64 = 60 * 60 * 1000;

fn make_store() -> WalletStore {
    WalletStore::new()
}

fn new_id() -> String {
    uuid::Uuid::new_v4().to_string()
}

fn now_ms() -> i64 {
    SystemTime::now().duration_since(UNIX_EPOCH).unwrap().as_millis() as i64
}

fn capability(wallet: &str, key_id: &str, byte: u8, limit: u64, spent: u64, scope: &str, purpose: &str) -> ApiKeyCapability {
    ApiKeyCapability {
        wallet_id: wallet.to_string(),
        key_id: key_id.to_string(),
        public_key: [byte; 32],
        spending_limit_rj: limit,
        spent_rj: spent,
        scope: vec![scope.to_string()],
        purpose: purpose.to_string(),
        expiry: None,
        issued_at: now_ms() / 1000,
        privacy_mode: "transparent".to_string(),
        preferred_chain: None,
    }
}

fn reference(text: &str, wallet: &str, chain: &str, byte: u8, expires_at: i64) -> DepositReference {
    DepositReference {
        reference: text.to_string(),
        wallet_id: wallet.to_string(),
        chain: chain.to_string(),
        nonce: [byte; 16],
        expires_at,
    }
}

fn deposit(wallet: &str, chain: &str, hash: &str, usdc: u64, delta: i64, after: u64) -> WalletTransaction {
    WalletTransaction {
        id: 0,
        wallet_id: wallet.to_string(),
        tx_type: TransactionType::Deposit {
            chain: chain.to_string(),
            privacy: "transparent".to_string(),
            tx_hash: hash.to_string(),
            amount_usdc_micro: usdc,
        },
        rjoules_delta: delta,
        balance_after: after,
        timestamp: now_ms() / 1000,
    }
}

fn withdrawal(wallet: &str, chain: &str, hash: &str, usdc: u64, delta: i64, after: u64) -> WalletTransaction {
    WalletTransaction {
        id: 0,
        wallet_id: wallet.to_string(),
        tx_type: TransactionType::Withdrawal {
            chain: chain.to_string(),
            privacy: "transparent".to_string(),
            tx_hash: hash.to_string(),
            amount_usdc_micro: usdc,
        },
        rjoules_delta: delta,
        balance_after: after,
        timestamp: now_ms() / 1000,
    }
}

#[test]
fn wallet_store_credit_rjoules_increases_balance() {
    let mut store = make_store();
    let wallet = new_id();
    let balance = store.credit_rjoules(&wallet, 1000).unwrap();
    assert_eq!(balance.rjoules, 1000);
}

#[test]
fn wallet_store_debit_rjoules_decreases_balance() {
    let mut store = make_store();
    let wallet = new_id();
    store.credit_rjoules(&wallet, 1000).unwrap();
    let balance = store.debit_rjoules(&wallet, 300).unwrap();
    assert_eq!(balance.rjoules, 700);
}

#[test]
fn wallet_store_debit_rjoules_rejects_insufficient_balance() {
    let mut store = make_store();
    let wallet = new_id();
    store.credit_rjoules(&wallet, 100).unwrap();
    let err = store.debit_rjoules(&wallet, 500).unwrap_err();
    assert!(matches!(err, WalletError::InsufficientBalance { .. }));
}

#[test]
fn wallet_store_balance_never_negative() {
    let mut store = make_store();
    let wallet = new_id();
    store.credit_rjoules(&wallet, 50).unwrap();
    let balance = store.debit_rjoules(&wallet, 50).unwrap();
    assert_eq!(balance.rjoules, 0);
    assert!(store.debit_rjoules(&wallet, 1).is_err());
}

#[test]
fn wallet_store_transaction_ledger_is_append_only() {
    let mut store = make_store();
    let wallet = new_id();
    store.credit_rjoules(&wallet, 1000).unwrap();
    let balance = store.get_balance(&wallet).unwrap().unwrap();
    let tx = deposit(&wallet, "solana", "test_tx", 1_000_000, 1000, balance.rjoules);
    store.record_transaction(&tx).unwrap();
    let txs = store.get_transactions(&wallet, 10, 0).unwrap();
    assert_eq!(txs.len(), 1);
    assert_eq!(txs[0].rjoules_delta, 1000);
}

#[test]
fn wallet_store_deposit_reference_anti_replay() {
    let mut store = make_store();
    let wallet = new_id();
    store.ensure_wallet(&wallet).unwrap();
    let dep_ref = reference("test_ref_001", &wallet, "solana", 0, now_ms() + DAY_MS);
    store.store_deposit_reference(&dep_ref).unwrap();
    let result = store.consume_deposit_reference("test_ref_001").unwrap();
    assert_eq!(result, Some(wallet.clone()));
    let result2 = store.consume_deposit_reference("test_ref_001").unwrap();
    assert_eq!(result2, None);
}

#[test]
fn wallet_store_expired_deposit_reference_rejected() {
    let mut store = make_store();
    let wallet = new_id();
    store.ensure_wallet(&wallet).unwrap();
    let dep_ref = reference("expired_ref", &wallet, "solana", 0, now_ms() - HOUR_MS);
    store.store_deposit_reference(&dep_ref).unwrap();
    let result = store.consume_deposit_reference("expired_ref").unwrap();
    assert_eq!(result, None);
}

#[test]
fn wallet_store_api_key_store_and_retrieve_by_public_key() {
    let mut store = make_store();
    let wallet = new_id();
    store.ensure_wallet(&wallet).unwrap();
    let cap = capability(&wallet, &new_id(), 1, 5000, 0, "read-specs", "test key");
    store.store_api_key(&cap).unwrap();
    let retrieved = store.get_api_key_by_public_key(&[1u8; 32]).unwrap();
    assert!(retrieved.is_some());
    assert_eq!(retrieved.unwrap().key_id, cap.key_id);
}

#[test]
fn wallet_store_api_key_revocation_returns_unspent_rjoules() {
    let mut store = make_store();
    let wallet = new_id();
    store.credit_rjoules(&wallet, 10000).unwrap();
    let cap = capability(&wallet, &new_id(), 2, 5000, 1200, "embed-corpus", "revocation test");
    let key_id = cap.key_id.clone();
    store.store_api_key(&cap).unwrap();
    store.debit_rjoules(&wallet, 5000).unwrap();
    let before = store.get_balance(&wallet).unwrap().unwrap();
    assert_eq!(before.rjoules, 5000);
    store.revoke_api_key(&key_id).unwrap();
    let after = store.get_balance(&wallet).unwrap().unwrap();
    assert_eq!(after.rjoules, 8800);
}

#[test]
fn wallet_store_consume_encumbrance_updates_api_key_spent_rj() {
    let mut store = make_store();
    let wallet = new_id();
    store.credit_rjoules(&wallet, 10_000).unwrap();
    let key_id = new_id();
    let cap = capability(&wallet, &key_id, 7, 5000, 0, "read-specs", "spend sync test");
    store.store_api_key(&cap).unwrap();
    store.encumber_rjoules(&wallet, &key_id, 2000).unwrap();
    store.consume_encumbrance(&key_id, 300).unwrap();
    store.consume_encumbrance(&key_id, 250).unwrap();
    let key = store.get_api_key(&key_id).unwrap().unwrap();
    assert_eq!(key.spent_rj, 550, "spent_rj must track cumulative encumbrance consumption");
}

#[test]
fn wallet_store_failed_consume_does_not_increment_api_key_spent_rj() {
    let mut store = make_store();
    let wallet = new_id();
    store.credit_rjoules(&wallet, 10_000).unwrap();
    let key_id = new_id();
    let cap = capability(&wallet, &key_id, 8, 5000, 0, "read-specs", "failed consume sync test");
    store.store_api_key(&cap).unwrap();
    store.encumber_rjoules(&wallet, &key_id, 300).unwrap();
    store.consume_encumbrance(&key_id, 300).unwrap();
    let second = store.consume_encumbrance(&key_id, 1);
    assert!(second.is_err(), "second consume must fail after full consumption");
    let key = store.get_api_key(&key_id).unwrap().unwrap();
    assert_eq!(key.spent_rj, 300, "spent_rj must remain unchanged on failed consume");
}

#[test]
fn wallet_store_purge_expired_references_cleans_up() {
    let mut store = make_store();
    let wallet = new_id();
    store.ensure_wallet(&wallet).unwrap();
    let expired = reference("old_ref", &wallet, "solana", 0, now_ms() - HOUR_MS);
    store.store_deposit_reference(&expired).unwrap();
    let valid = reference("new_ref", &wallet, "solana", 1, now_ms() + DAY_MS);
    store.store_deposit_reference(&valid).unwrap();
    let purged = store.purge_expired_references().unwrap();
    assert_eq!(purged, 1);
    assert_eq!(store.consume_deposit_reference("old_ref").unwrap(), None);
    assert_eq!(store.consume_deposit_reference("new_ref").unwrap(), Some(wallet.clone()));
}

#[test]
fn wallet_store_balance_equals_sum_of_ledger_deltas() {
    let mut store = make_store();
    let wallet = new_id();
    store.ensure_wallet(&wallet).unwrap();
    let operations: [(bool, u64); 12] = [
        (true, 5000),
        (true, 3000),
        (false, 1200),
        (true, 750),
        (false, 3000),
        (false, 500),
        (true, 10000),
        (false, 2000),
        (true, 150),
        (false, 8000),
        (false, 1500),
        (true, 2500),
    ];
    let mut expected_sum: i64 = 0;
    for (is_credit, amount) in &operations {
        if *is_credit {
            let balance = store.credit_rjoules(&wallet, *amount).unwrap();
            expected_sum += *amount as i64;
            let hash = format!("test_tx_{}", expected_sum);
            store
                .record_transaction(&deposit(&wallet, "solana", &hash, *amount * 1000, *amount as i64, balance.rjoules))
                .unwrap();
        } else if store.get_balance(&wallet).unwrap().unwrap().rjoules >= *amount {
            let balance = store.debit_rjoules(&wallet, *amount).unwrap();
            expected_sum -= *amount as i64;
            let hash = format!("test_tx_{}", expected_sum);
            store
                .record_transaction(&withdrawal(&wallet, "solana", &hash, *amount * 1000, -(*amount as i64), balance.rjoules))
                .unwrap();
        }
    }
    let balance = store.get_balance(&wallet).unwrap().unwrap();
    assert_eq!(balance.rjoules as i64, expected_sum);
    let txs = store.get_transactions(&wallet, 100, 0).unwrap();
    let ledger_sum: i64 = txs.iter().map(|tx| tx.rjoules_delta).sum();
    assert_eq!(balance.rjoules as i64, ledger_sum);
}

#[test]
fn wallet_store_ensure_wallet_is_idempotent() {
    let mut store = make_store();
    let wallet = new_id();
    store.ensure_wallet(&wallet).unwrap();
    let b1 = store.get_balance(&wallet).unwrap().unwrap();
    assert_eq!(b1.rjoules, 0);
    store.ensure_wallet(&wallet).unwrap();
    let b2 = store.get_balance(&wallet).unwrap().unwrap();
    assert_eq!(b2.rjoules, 0, "balance should not change on duplicate ensure");
}

#[test]
fn wallet_store_release_encumbrance_is_idempotent() {
    let mut store = make_store();
    let wallet = new_id();
    store.credit_rjoules(&wallet, 5000).unwrap();
    let key_id = new_id();
    let cap = capability(&wallet, &key_id, 9, 5000, 0, "test", "idempotency test");
    store.store_api_key(&cap).unwrap();
    store.encumber_rjoules(&wallet, &key_id, 1000).unwrap();
    let after_encumber = store.get_balance(&wallet).unwrap().unwrap();
    assert_eq!(after_encumber.rjoules, 4000);
    store.release_encumbrance(&key_id).unwrap();
    let after_first = store.get_balance(&wallet).unwrap().unwrap();
    assert_eq!(after_first.rjoules, 5000, "first release should return funds");
    store.release_encumbrance(&key_id).unwrap();
    let after_second = store.get_balance(&wallet).unwrap().unwrap();
    assert_eq!(after_second.rjoules, 5000, "second release must not double-credit (idempotency contract)");
}

#[test]
fn wallet_store_credit_rjoules_is_not_idempotent_documents_gap() {
    let mut store = make_store();
    let wallet = new_id();
    store.credit_rjoules(&wallet, 1000).unwrap();
    assert_eq!(store.get_balance(&wallet).unwrap().unwrap().rjoules, 1000);
    store.credit_rjoules(&wallet, 1000).unwrap();
    assert_eq!(store.get_balance(&wallet).unwrap().unwrap().rjoules, 2000);
}

#[test]
fn wallet_store_debit_rjoules_is_not_idempotent_documents_gap() {
    let mut store = make_store();
    let wallet = new_id();
    store.credit_rjoules(&wallet, 1000).unwrap();
    store.debit_rjoules(&wallet, 300).unwrap();
    assert_eq!(store.get_balance(&wallet).unwrap().unwrap().rjoules, 700);
    store.debit_rjoules(&wallet, 300).unwrap();
    assert_eq!(store.get_balance(&wallet).unwrap().unwrap().rjoules, 400);
}

#[test]
fn wallet_store_consume_deposit_reference_is_idempotent() {
    let mut store = make_store();
    let wallet = new_id();
    store.ensure_wallet(&wallet).unwrap();
    let dep_ref = reference("idem_ref_001", &wallet, "solana", 0, now_ms() + DAY_MS);
    store.store_deposit_reference(&dep_ref).unwrap();
    let r1 = store.consume_deposit_reference("idem_ref_001").unwrap();
    assert_eq!(r1, Some(wallet.clone()));
    let r2 = store.consume_deposit_reference("idem_ref_001").unwrap();
    assert_eq!(r2, None, "second consume must return None (idempotent via atomic CAS)");
}

#[test]
fn encumbrance_credit_rjoules_increases_balance() {
    let mut store = make_store();
    let wallet = new_id();
    let balance = store.credit_rjoules(&wallet, 1000).unwrap();
    assert_eq!(balance.rjoules, 1000);
}

#[test]
fn encumbrance_debit_rjoules_decreases_balance() {
    let mut store = make_store();
    let wallet = new_id();
    store.credit_rjoules(&wallet, 1000).unwrap();
    let balance = store.debit_rjoules(&wallet, 300).unwrap();
    assert_eq!(balance.rjoules, 700);
}

#[test]
fn encumbrance_debit_rjoules_rejects_insufficient_balance() {
    let mut store = make_store();
    let wallet = new_id();
    store.credit_rjoules(&wallet, 100).unwrap();
    let err = store.debit_rjoules(&wallet, 500).unwrap_err();
    assert!(matches!(err, WalletError::InsufficientBalance { .. }));
}

#[test]
fn encumbrance_balance_never_negative() {
    let mut store = make_store();
    let wallet = new_id();
    store.credit_rjoules(&wallet, 50).unwrap();
    let balance = store.debit_rjoules(&wallet, 50).unwrap();
    assert_eq!(balance.rjoules, 0);
    assert!(store.debit_rjoules(&wallet, 1).is_err());
}

#[test]
fn encumbrance_transaction_ledger_is_append_only() {
    let mut store = make_store();
    let wallet = new_id();
    store.credit_rjoules(&wallet, 1000).unwrap();
    let balance = store.get_balance(&wallet).unwrap().unwrap();
    let tx = deposit(&wallet, "hedera", "test_tx", 1_000_000, 1000, balance.rjoules);
    store.record_transaction(&tx).unwrap();
    let txs = store.get_transactions(&wallet, 10, 0).unwrap();
    assert_eq!(txs.len(), 1);
    assert_eq!(txs[0].rjoules_delta, 1000);
}

#[test]
fn encumbrance_deposit_reference_anti_replay() {
    let mut store = make_store();
    let wallet = new_id();
    store.ensure_wallet(&wallet).unwrap();
    let dep_ref = reference("test_ref_001", &wallet, "hedera", 0, now_ms() + DAY_MS);
    store.store_deposit_reference(&dep_ref).unwrap();
    let result = store.consume_deposit_reference("test_ref_001").unwrap();
    assert_eq!(result, Some(wallet.clone()));
    let result2 = store.consume_deposit_reference("test_ref_001").unwrap();
    assert_eq!(result2, None);
}

#[test]
fn encumbrance_expired_deposit_reference_rejected() {
    let mut store = make_store();
    let wallet = new_id();
    store.ensure_wallet(&wallet).unwrap();
    let dep_ref = reference("expired_ref", &wallet, "hedera", 0, now_ms() - HOUR_MS);
    store.store_deposit_reference(&dep_ref).unwrap();
    let result = store.consume_deposit_reference("expired_ref").unwrap();
    assert_eq!(result, None);
}

#[test]
fn encumbrance_api_key_store_and_retrieve_by_public_key() {
    let mut store = make_store();
    let wallet = new_id();
    store.ensure_wallet(&wallet).unwrap();
    let cap = capability(&wallet, &new_id(), 1, 5000, 0, "read-specs", "test key");
    store.store_api_key(&cap).unwrap();
    let retrieved = store.get_api_key_by_public_key(&[1u8; 32]).unwrap();
    assert!(retrieved.is_some());
    assert_eq!(retrieved.unwrap().key_id, cap.key_id);
}

#[test]
fn encumbrance_api_key_revocation_returns_unspent_rjoules() {
    let mut store = make_store();
    let wallet = new_id();
    store.credit_rjoules(&wallet, 10000).unwrap();
    let cap = capability(&wallet, &new_id(), 2, 5000, 1200, "embed-corpus", "revocation test");
    let key_id = cap.key_id.clone();
    store.store_api_key(&cap).unwrap();
    store.debit_rjoules(&wallet, 5000).unwrap();
    let before = store.get_balance(&wallet).unwrap().unwrap();
    assert_eq!(before.rjoules, 5000);
    store.revoke_api_key(&key_id).unwrap();
    let after = store.get_balance(&wallet).unwrap().unwrap();
    assert_eq!(after.rjoules, 8800);
}

#[test]
fn encumbrance_consume_encumbrance_updates_api_key_spent_rj() {
    let mut store = make_store();
    let wallet = new_id();
    store.credit_rjoules(&wallet, 10_000).unwrap();
    let key_id = new_id();
    let cap = capability(&wallet, &key_id, 7, 5000, 0, "read-specs", "spend sync test");
    store.store_api_key(&cap).unwrap();
    store.encumber_rjoules(&wallet, &key_id, 2000).unwrap();
    store.consume_encumbrance(&key_id, 300).unwrap();
    store.consume_encumbrance(&key_id, 250).unwrap();
    let key = store.get_api_key(&key_id).unwrap().unwrap();
    assert_eq!(key.spent_rj, 550, "spent_rj must track cumulative encumbrance consumption");
}

#[test]
fn encumbrance_failed_consume_does_not_increment_api_key_spent_rj() {
    let mut store = make_store();
    let wallet = new_id();
    store.credit_rjoules(&wallet, 10_000).unwrap();
    let key_id = new_id();
    let cap = capability(&wallet, &key_id, 8, 5000, 0, "read-specs", "failed consume sync test");
    store.store_api_key(&cap).unwrap();
    store.encumber_rjoules(&wallet, &key_id, 300).unwrap();
    store.consume_encumbrance(&key_id, 300).unwrap();
    let second = store.consume_encumbrance(&key_id, 1);
    assert!(second.is_err(), "second consume must fail after full consumption");
    let key = store.get_api_key(&key_id).unwrap().unwrap();
    assert_eq!(key.spent_rj, 300, "spent_rj must remain unchanged on failed consume");
}

#[test]
fn encumbrance_purge_expired_references_cleans_up() {
    let mut store = make_store();
    let wallet = new_id();
    store.ensure_wallet(&wallet).unwrap();
    let expired = reference("old_ref", &wallet, "hedera", 0, now_ms() - HOUR_MS);
    store.store_deposit_reference(&expired).unwrap();
    let valid = reference("new_ref", &wallet, "hedera", 1, now_ms() + DAY_MS);
    store.store_deposit_reference(&valid).unwrap();
    let purged = store.purge_expired_references().unwrap();
    assert_eq!(purged, 1);
    assert_eq!(store.consume_deposit_reference("old_ref").unwrap(), None);
    assert_eq!(store.consume_deposit_reference("new_ref").unwrap(), Some(wallet.clone()));
}

#[test]
fn encumbrance_balance_equals_sum_of_ledger_deltas() {
    let mut store = make_store();
    let wallet = new_id();
    store.ensure_wallet(&wallet).unwrap();
    let operations: [(bool, u64); 12] = [
        (true, 5000),
        (true, 3000),
        (false, 1200),
        (true, 750),
        (false, 3000),
        (false, 500),
        (true, 10000),
        (false, 2000),
        (true, 150),
        (false, 8000),
        (false, 1500),
        (true, 2500),
    ];
    let mut expected_sum: i64 = 0;
    for (is_credit, amount) in &operations {
        if *is_credit {
            let balance = store.credit_rjoules(&wallet, *amount).unwrap();
            expected_sum += *amount as i64;
            let hash = format!("test_tx_{}", expected_sum);
            store
                .record_transaction(&deposit(&wallet, "hedera", &hash, *amount * 1000, *amount as i64, balance.rjoules))
                .unwrap();
        } else if store.get_balance(&wallet).unwrap().unwrap().rjoules >= *amount {
            let balance = store.debit_rjoules(&wallet, *amount).unwrap();
            expected_sum -= *amount as i64;
            let hash = format!("test_tx_{}", expected_sum);
            store
                .record_transaction(&withdrawal(&wallet, "hedera", &hash, *amount * 1000, -(*amount as i64), balance.rjoules))
                .unwrap();
        }
    }
    let balance = store.get_balance(&wallet).unwrap().unwrap();
    assert_eq!(balance.rjoules as i64, expected_sum);
    let txs = store.get_transactions(&wallet, 100, 0).unwrap();
    let ledger_sum: i64 = txs.iter().map(|tx| tx.rjoules_delta).sum();
    assert_eq!(balance.rjoules as i64, ledger_sum);
}

#[test]
fn encumbrance_ensure_wallet_is_idempotent() {
    let mut store = make_store();
    let wallet = new_id();
    store.ensure_wallet(&wallet).unwrap();
    let b1 = store.get_balance(&wallet).unwrap().unwrap();
    assert_eq!(b1.rjoules, 0);
    store.ensure_wallet(&wallet).unwrap();
    let b2 = store.get_balance(&wallet).unwrap().unwrap();
    assert_eq!(b2.rjoules, 0, "balance should not change on duplicate ensure");
}

#[test]
fn encumbrance_release_encumbrance_is_idempotent() {
    let mut store = make_store();
    let wallet = new_id();
    store.credit_rjoules(&wallet, 5000).unwrap();
    let key_id = new_id();
    let cap = capability(&wallet, &key_id, 9, 5000, 0, "test", "idempotency test");
    store.store_api_key(&cap).unwrap();
    store.encumber_rjoules(&wallet, &key_id, 1000).unwrap();
    let after_encumber = store.get_balance(&wallet).unwrap().unwrap();
    assert_eq!(after_encumber.rjoules, 4000);
    store.release_encumbrance(&key_id).unwrap();
    let after_first = store.get_balance(&wallet).unwrap().unwrap();
    assert_eq!(after_first.rjoules, 5000, "first release should return funds");
    store.release_encumbrance(&key_id).unwrap();
    let after_second = store.get_balance(&wallet).unwrap().unwrap();
    assert_eq!(after_second.rjoules, 5000, "second release must not double-credit (idempotency contract)");
}

#[test]
fn encumbrance_credit_rjoules_is_not_idempotent_documents_gap() {
    let mut store = make_store();
    let wallet = new_id();
    store.credit_rjoules(&wallet, 1000).unwrap();
    assert_eq!(store.get_balance(&wallet).unwrap().unwrap().rjoules, 1000);
    store.credit_rjoules(&wallet, 1000).unwrap();
    assert_eq!(store.get_balance(&wallet).unwrap().unwrap().rjoules, 2000);
}

#[test]
fn encumbrance_debit_rjoules_is_not_idempotent_documents_gap() {
    let mut store = make_store();
    let wallet = new_id();
    store.credit_rjoules(&wallet, 1000).unwrap();
    store.debit_rjoules(&wallet, 300).unwrap();
    assert_eq!(store.get_balance(&wallet).unwrap().unwrap().rjoules, 700);
    store.debit_rjoules(&wallet, 300).unwrap();
    assert_eq!(store.get_balance(&wallet).unwrap().unwrap().rjoules, 400);
}

#[test]
fn encumbrance_consume_deposit_reference_is_idempotent() {
    let mut store = make_store();
    let wallet = new_id();
    store.ensure_wallet(&wallet).unwrap();
    let dep_ref = reference("idem_ref_001", &wallet, "hedera", 0, now_ms() + DAY_MS);
    store.store_deposit_reference(&dep_ref).unwrap();
    let r1 = store.consume_deposit_reference("idem_ref_001").unwrap();
    assert_eq!(r1, Some(wallet.clone()));
    let r2 = store.consume_deposit_reference("idem_ref_001").unwrap();
    assert_eq!(r2, None, "second consume must return None (idempotent via atomic CAS)");
}

#[test]
fn encumber_rejects_second_active_encumbrance() {
    let mut store = make_store();
    store.credit_rjoules("w", 1000).unwrap();
    store.encumber_rjoules("w", "k", 100).unwrap();
    match store.encumber_rjoules("w", "k", 100) {
        Err(WalletError::EncumbranceAlreadyExists { key_id }) => assert_eq!(key_id, "k"),
        other => panic!("unexpected {:?}", other),
    }
    assert_eq!(store.get_balance("w").unwrap().unwrap().rjoules, 900);
}

#[test]
fn encumber_rejects_missing_wallet_and_short_balance() {
    let mut store = make_store();
    match store.encumber_rjoules("nobody", "k", 1) {
        Err(WalletError::InsufficientBalance { have, need }) => assert_eq!((have, need), (0, 1)),
        other => panic!("unexpected {:?}", other),
    }
    store.credit_rjoules("w", 10).unwrap();
    match store.encumber_rjoules("w", "k", 11) {
        Err(WalletError::InsufficientBalance { have, need }) => assert_eq!((have, need), (10, 11)),
        other => panic!("unexpected {:?}", other),
    }
}

#[test]
fn consume_encumbrance_reports_why_it_failed() {
    let mut store = make_store();
    match store.consume_encumbrance("k", 1) {
        Err(WalletError::EncumbranceNotFound { key_id }) => assert_eq!(key_id, "k"),
        other => panic!("unexpected {:?}", other),
    }
    store.credit_rjoules("w", 1000).unwrap();
    store.encumber_rjoules("w", "k", 100).unwrap();
    store.consume_encumbrance("k", 40).unwrap();
    match store.consume_encumbrance("k", 61) {
        Err(WalletError::EncumbranceInsufficient { key_id, remaining, need }) => {
            assert_eq!((key_id.as_str(), remaining, need), ("k", 60, 61))
        }
        other => panic!("unexpected {:?}", other),
    }
    store.consume_encumbrance("k", 60).unwrap();
    let e = store.get_encumbrance("k").unwrap().unwrap();
    assert_eq!((e.consumed_rj, e.status), (100, EncumbranceStatus::Consumed));
    assert!(e.released_at.is_some());
    match store.consume_encumbrance("k", 1) {
        Err(WalletError::EncumbranceNotFound { .. }) => {}
        other => panic!("unexpected {:?}", other),
    }
}

#[test]
fn release_returns_only_what_was_left() {
    let mut store = make_store();
    store.credit_rjoules("w", 1000).unwrap();
    store.encumber_rjoules("w", "k", 400).unwrap();
    store.consume_encumbrance("k", 150).unwrap();
    store.release_encumbrance("k").unwrap();
    assert_eq!(store.get_balance("w").unwrap().unwrap().rjoules, 850);
    let e = store.get_encumbrance("k").unwrap().unwrap();
    assert_eq!(e.status, EncumbranceStatus::Released);
    assert_eq!(e.wallet_id, "w");
    assert_eq!(store.get_encumbrance("other").unwrap().is_none(), true);
}

#[test]
fn debit_of_unknown_wallet_fails() {
    let mut store = make_store();
    match store.debit_rjoules("nobody", 1) {
        Err(WalletError::Database(m)) => assert_eq!(m, "Query returned no rows"),
        other => panic!("unexpected {:?}", other),
    }
    assert_eq!(store.get_balance("nobody").unwrap().is_none(), true);
}

#[test]
fn credit_past_the_column_fails_and_keeps_balance() {
    let mut store = make_store();
    store.credit_rjoules("w", i64::MAX as u64).unwrap();
    assert!(matches!(store.credit_rjoules("w", 1), Err(WalletError::Database(_))));
    assert_eq!(store.get_balance("w").unwrap().unwrap().rjoules, i64::MAX as u64);
}

#[test]
fn transactions_come_newest_first_and_paged() {
    let mut store = make_store();
    for i in 1..=5i64 {
        store.record_transaction(&deposit("w", "hedera", &format!("h{}", i), 0, i, i as u64)).unwrap();
        store.record_transaction(&deposit("v", "hedera", &format!("g{}", i), 0, 100 + i, 0)).unwrap();
    }
    let page = store.get_transactions("w", 2, 1).unwrap();
    let deltas: Vec<i64> = page.iter().map(|t| t.rjoules_delta).collect();
    assert_eq!(deltas, vec![4, 3]);
    assert_eq!(page[0].id, 7);
    assert!(store.get_transactions("w", 10, 9).unwrap().is_empty());
    assert_eq!(store.transaction_exists_by_hash("g3").unwrap(), true);
    assert_eq!(store.transaction_exists_by_hash("zz").unwrap(), false);
    match &page[0].tx_type {
        TransactionType::Deposit { chain, amount_usdc_micro, .. } => {
            assert_eq!(chain, "hedera");
            assert_eq!(*amount_usdc_micro, 0);
        }
        other => panic!("unexpected {:?}", other),
    }
}

#[test]
fn duplicate_reference_and_key_are_refused() {
    let mut store = make_store();
    let r = reference("r", "w", "hedera", 0, now_ms() + DAY_MS);
    store.store_deposit_reference(&r).unwrap();
    assert!(matches!(store.store_deposit_reference(&r), Err(WalletError::Database(_))));
    let cap = capability("w", "k", 3, 10, 0, "s", "p");
    store.store_api_key(&cap).unwrap();
    assert!(matches!(store.store_api_key(&cap), Err(WalletError::Database(_))));
}

#[test]
fn revoked_key_is_not_found_by_public_key() {
    let mut store = make_store();
    store.credit_rjoules("w", 100).unwrap();
    let cap = capability("w", "k", 4, 50, 50, "s", "p");
    store.store_api_key(&cap).unwrap();
    store.revoke_api_key("k").unwrap();
    assert_eq!(store.get_balance("w").unwrap().unwrap().rjoules, 100);
    assert!(store.get_api_key_by_public_key(&[4u8; 32]).unwrap().is_none());
    let k = store.get_api_key("k").unwrap().unwrap();
    assert_eq!(k.privacy_mode, "transparent");
    assert_eq!(k.scope, vec!["s".to_string()]);
    store.update_spent_rj("k", 7).unwrap();
    assert_eq!(store.get_api_key("k").unwrap().unwrap().spent_rj, 7);
}

#[test]
fn list_wallet_ids_holds_each_wallet_once() {
    let mut store = make_store();
    store.ensure_wallet("a").unwrap();
    store.credit_rjoules("b", 1).unwrap();
    store.ensure_wallet("a").unwrap();
    let mut ids = store.list_wallet_ids().unwrap();
    ids.sort();
    assert_eq!(ids, vec!["a".to_string(), "b".to_string()]);
}

#[test]
fn consume_reference_at_a_given_time() {
    let mut store = make_store();
    store.store_deposit_reference(&reference("r", "w", "hedera", 0, 1000)).unwrap();
    assert_eq!(store.consume_deposit_reference_at("r", 1000).unwrap(), None);
    assert_eq!(store.consume_deposit_reference_at("r", 999).unwrap(), Some("w".to_string()));
    assert_eq!(store.consume_deposit_reference_at("r", 0).unwrap(), None);
    store.store_deposit_reference(&reference("s", "w", "hedera", 0, 500)).unwrap();
    assert_eq!(store.purge_expired_references_at(500).unwrap(), 1);
    assert_eq!(store.purge_expired_references_at(500).unwrap(), 0);
}

#[test]
fn deposit_addresses_come_by_index_and_resolve() {
    let mut store = make_store();
    store.store_deposit_address("w", "addr-2", 2).unwrap();
    store.store_deposit_address("w", "addr-0", 0).unwrap();
    store.store_deposit_address("v", "addr-9", 9).unwrap();
    store.store_deposit_address("v", "addr-0", 5).unwrap();
    let list = store.get_deposit_addresses("w").unwrap();
    let names: Vec<&str> = list.iter().map(|a| a.address.as_str()).collect();
    assert_eq!(names, vec!["addr-0", "addr-2"]);
    assert_eq!(list[0].chain, "hedera");
    assert_eq!(list[0].privacy_mode, "transparent");
    assert_eq!(store.resolve_wallet_for_address("addr-9").unwrap(), Some("v".to_string()));
    assert_eq!(store.resolve_wallet_for_address("addr-0").unwrap(), Some("w".to_string()));
    assert_eq!(store.resolve_wallet_for_address("none").unwrap(), None);
}

#[test]
fn list_api_keys_newest_first_without_revoked() {
    let mut store = make_store();
    let mut a = capability("w", "a", 1, 10, 0, "s", "p");
    a.issued_at = 100;
    let mut b = capability("w", "b", 2, 10, 0, "s", "p");
    b.issued_at = 300;
    let mut c = capability("w", "c", 3, 10, 0, "s", "p");
    c.issued_at = 200;
    let mut d = capability("x", "d", 4, 10, 0, "s", "p");
    d.issued_at = 400;
    for k in [&a, &b, &c, &d] {
        store.store_api_key(k).unwrap();
    }
    store.revoke_api_key("c").unwrap();
    let ids: Vec<String> = store.list_api_keys("w").unwrap().into_iter().map(|k| k.key_id).collect();
    assert_eq!(ids, vec!["b".to_string(), "a".to_string()]);
}

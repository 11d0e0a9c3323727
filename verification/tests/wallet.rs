use hkask_templates::wallet::{row_to_wallet_transaction, tx_type_to_columns, TransactionType, WalletError, WalletTransactionRow};

fn s(x: &str) -> Option<String> {
    Some(x.to_string())
}

#[test]
fn columns_of_each_kind() {
    let dep = TransactionType::Deposit {
        chain: "zcash".into(),
        privacy: "shielded".into(),
        tx_hash: "0xabc".into(),
        amount_usdc_micro: 5,
    };
    assert_eq!(tx_type_to_columns(&dep), ("deposit", s("transparent"), s("hedera"), s("0xabc"), None, None, None));
    let wd = TransactionType::Withdrawal { chain: "hedera".into(), privacy: "transparent".into(), tx_hash: "h".into(), amount_usdc_micro: 0 };
    assert_eq!(tx_type_to_columns(&wd).0, "withdrawal");
    let spend = TransactionType::Spend { key_id: "k1".into(), tool: "search".into(), gas: 42, rj: 7 };
    assert_eq!(tx_type_to_columns(&spend), ("spend", None, None, None, s("k1"), s("search"), Some(42)));
    let refund = TransactionType::Refund { key_id: "k2".into(), reason: "timeout".into(), rj: 3 };
    assert_eq!(tx_type_to_columns(&refund), ("refund", None, None, None, s("k2"), s("timeout"), None));
    let shield = TransactionType::Shield { chain: "zcash".into(), tx_hash: "z1".into(), amount_usdc_micro: 9 };
    assert_eq!(tx_type_to_columns(&shield), ("shield", None, s("zcash"), s("z1"), None, None, None));
}

fn row(tx_type: &str) -> WalletTransactionRow {
    WalletTransactionRow {
        id: 11,
        wallet_id: "w-1".into(),
        tx_type: tx_type.into(),
        tx_subtype: None,
        chain: None,
        on_chain_tx_hash: None,
        amount_rj: -25,
        balance_after_rj: 75,
        key_id: s("k1"),
        tool_name: s("search"),
        gas_units: Some(9),
        created_at: "2024-01-02 03:04:05".into(),
    }
}

#[test]
fn rows_read_back() {
    let t = row_to_wallet_transaction(row("spend")).unwrap();
    assert_eq!(t.id, 11);
    assert_eq!(t.wallet_id, "w-1");
    assert_eq!(t.rjoules_delta, -25);
    assert_eq!(t.balance_after, 75);
    assert_eq!(t.timestamp, 1_704_164_645);
    match t.tx_type {
        TransactionType::Spend { key_id, tool, gas, rj } => {
            assert_eq!((key_id.as_str(), tool.as_str(), gas, rj), ("k1", "search", 9, 25));
        }
        other => panic!("unexpected {other:?}"),
    }
    match row_to_wallet_transaction(row("deposit")).unwrap().tx_type {
        TransactionType::Deposit { chain, privacy, tx_hash, amount_usdc_micro } => {
            assert_eq!((chain.as_str(), privacy.as_str(), tx_hash.as_str(), amount_usdc_micro), ("hedera", "transparent", "", 0));
        }
        other => panic!("unexpected {other:?}"),
    }
    match row_to_wallet_transaction(row("refund")).unwrap().tx_type {
        TransactionType::Refund { reason, rj, .. } => assert_eq!((reason.as_str(), rj), ("search", 25)),
        other => panic!("unexpected {other:?}"),
    }
}

#[test]
fn columns_read_back_to_the_same_kind() {
    let spend = TransactionType::Spend { key_id: "k1".into(), tool: "search".into(), gas: 9, rj: 25 };
    let (ty, sub, chain, hash, key, tool, gas) = tx_type_to_columns(&spend);
    let mut r = row(ty);
    r.tx_subtype = sub;
    r.chain = chain;
    r.on_chain_tx_hash = hash;
    r.key_id = key;
    r.tool_name = tool;
    r.gas_units = gas;
    match row_to_wallet_transaction(r).unwrap().tx_type {
        TransactionType::Spend { key_id, tool, gas, rj } => assert_eq!((key_id.as_str(), tool.as_str(), gas, rj), ("k1", "search", 9, 25)),
        other => panic!("unexpected {other:?}"),
    }
}

#[test]
fn bad_rows_are_refused() {
    match row_to_wallet_transaction(row("gift")) {
        Err(WalletError::Database(m)) => assert_eq!(m, "unknown tx_type: gift"),
        other => panic!("unexpected {other:?}"),
    }
    let mut r = row("spend");
    r.created_at = "yesterday".into();
    assert!(matches!(row_to_wallet_transaction(r), Err(WalletError::Database(m)) if !m.is_empty()));
}

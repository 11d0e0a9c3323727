//! The rows of the wallet ledger: how a transaction's kind is spread over
//! the ledger's columns, and how a row is read back into a transaction.
use vstd::prelude::*;
use vstd::string::*;

verus! {

/// The kind of a ledger transaction, with what each kind records.
#[derive(Debug, Clone)]
pub enum TransactionType {
    Deposit { chain: String, privacy: String, tx_hash: String, amount_usdc_micro: u64 },
    Withdrawal { chain: String, privacy: String, tx_hash: String, amount_usdc_micro: u64 },
    Spend { key_id: String, tool: String, gas: u64, rj: u64 },
    Refund { key_id: String, reason: String, rj: u64 },
    Shield { chain: String, tx_hash: String, amount_usdc_micro: u64 },
}

/// The character view of a transaction kind.
pub enum TxKindView {
    Deposit { chain: Seq<char>, privacy: Seq<char>, tx_hash: Seq<char>, amount_usdc_micro: u64 },
    Withdrawal { chain: Seq<char>, privacy: Seq<char>, tx_hash: Seq<char>, amount_usdc_micro: u64 },
    Spend { key_id: Seq<char>, tool: Seq<char>, gas: u64, rj: u64 },
    Refund { key_id: Seq<char>, reason: Seq<char>, rj: u64 },
    Shield { chain: Seq<char>, tx_hash: Seq<char>, amount_usdc_micro: u64 },
}

impl View for TransactionType {
    type V = TxKindView;

    open spec fn view(&self) -> TxKindView {
        match self {
            TransactionType::Deposit { chain, privacy, tx_hash, amount_usdc_micro } => TxKindView::Deposit {
                chain: chain@,
                privacy: privacy@,
                tx_hash: tx_hash@,
                amount_usdc_micro: *amount_usdc_micro,
            },
            TransactionType::Withdrawal { chain, privacy, tx_hash, amount_usdc_micro } => TxKindView::Withdrawal {
                chain: chain@,
                privacy: privacy@,
                tx_hash: tx_hash@,
                amount_usdc_micro: *amount_usdc_micro,
            },
            TransactionType::Spend { key_id, tool, gas, rj } => TxKindView::Spend {
                key_id: key_id@,
                tool: tool@,
                gas: *gas,
                rj: *rj,
            },
            TransactionType::Refund { key_id, reason, rj } => TxKindView::Refund {
                key_id: key_id@,
                reason: reason@,
                rj: *rj,
            },
            TransactionType::Shield { chain, tx_hash, amount_usdc_micro } => TxKindView::Shield {
                chain: chain@,
                tx_hash: tx_hash@,
                amount_usdc_micro: *amount_usdc_micro,
            },
        }
    }
}

/// The ledger columns of a transaction kind: type, subtype, chain, on-chain
/// hash, key, tool (or reason) and gas.
pub type TxTypeColumns = (
    &'static str,
    Option<String>,
    Option<String>,
    Option<String>,
    Option<String>,
    Option<String>,
    Option<i64>,
);

/// The character view of ledger columns.
pub type ColumnsView = (Seq<char>, Option<Seq<char>>, Option<Seq<char>>, Option<Seq<char>>, Option<Seq<char>>, Option<Seq<char>>, Option<i64>);

/// The view of an optional text.
pub open spec fn opt_view(o: Option<String>) -> Option<Seq<char>> {
    match o {
        Some(s) => Some(s@),
        None => None,
    }
}

/// The view of ledger columns.
pub open spec fn columns_view(c: TxTypeColumns) -> ColumnsView {
    (c.0@, opt_view(c.1), opt_view(c.2), opt_view(c.3), opt_view(c.4), opt_view(c.5), c.6)
}

/// The columns of a transaction kind. Deposits and withdrawals record the
/// subtype `transparent` and the chain `hedera`, whatever they carry.
pub open spec fn tx_columns(t: TxKindView) -> ColumnsView {
    match t {
        TxKindView::Deposit { tx_hash, .. } => ("deposit"@, Some("transparent"@), Some("hedera"@), Some(tx_hash), None, None, None),
        TxKindView::Withdrawal { tx_hash, .. } => ("withdrawal"@, Some("transparent"@), Some("hedera"@), Some(tx_hash), None, None, None),
        TxKindView::Spend { key_id, tool, gas, .. } => ("spend"@, None, None, None, Some(key_id), Some(tool), Some(gas as i64)),
        TxKindView::Refund { key_id, reason, .. } => ("refund"@, None, None, None, Some(key_id), Some(reason), None),
        TxKindView::Shield { chain, tx_hash, .. } => ("shield"@, None, Some(chain), Some(tx_hash), None, None, None),
    }
}

fn some_copy(s: &str) -> (r: Option<String>)
    ensures
        r matches Some(x) && x@ == s@,
{
    Some(String::from_str(s))
}

/// The ledger columns of a transaction kind.
pub fn tx_type_to_columns(tx_type: &TransactionType) -> (r: TxTypeColumns)
    ensures
        columns_view(r) == tx_columns(tx_type@),
{
    proof {
        reveal_strlit("deposit");
        reveal_strlit("withdrawal");
        reveal_strlit("spend");
        reveal_strlit("refund");
        reveal_strlit("shield");
        reveal_strlit("transparent");
        reveal_strlit("hedera");
    }
    match tx_type {
        TransactionType::Deposit { tx_hash, .. } => (
            "deposit",
            some_copy("transparent"),
            some_copy("hedera"),
            some_copy(tx_hash.as_str()),
            None,
            None,
            None,
        ),
        TransactionType::Withdrawal { tx_hash, .. } => (
            "withdrawal",
            some_copy("transparent"),
            some_copy("hedera"),
            some_copy(tx_hash.as_str()),
            None,
            None,
            None,
        ),
        TransactionType::Spend { key_id, tool, gas, .. } => (
            "spend",
            None,
            None,
            None,
            some_copy(key_id.as_str()),
            some_copy(tool.as_str()),
            Some(*gas as i64),
        ),
        TransactionType::Refund { key_id, reason, .. } => (
            "refund",
            None,
            None,
            None,
            some_copy(key_id.as_str()),
            some_copy(reason.as_str()),
            None,
        ),
        TransactionType::Shield { chain, tx_hash, .. } => (
            "shield",
            None,
            some_copy(chain.as_str()),
            some_copy(tx_hash.as_str()),
            None,
            None,
            None,
        ),
    }
}

/// A row of the ledger as stored.
#[derive(Debug, Clone)]
pub struct WalletTransactionRow {
    pub id: i64,
    pub wallet_id: String,
    pub tx_type: String,
    pub tx_subtype: Option<String>,
    pub chain: Option<String>,
    pub on_chain_tx_hash: Option<String>,
    pub amount_rj: i64,
    pub balance_after_rj: i64,
    pub key_id: Option<String>,
    pub tool_name: Option<String>,
    pub gas_units: Option<i64>,
    pub created_at: String,
}

/// A ledger transaction; `timestamp` is in seconds since 1970, UTC.
#[derive(Debug, Clone)]
pub struct WalletTransaction {
    pub id: u64,
    pub wallet_id: String,
    pub tx_type: TransactionType,
    pub rjoules_delta: i64,
    pub balance_after: u64,
    pub timestamp: i64,
}

/// Why a wallet operation failed.
#[derive(Debug, Clone)]
pub enum WalletError {
    /// The stored data is not valid, or the store refused the change.
    Database(String),
    /// The wallet holds fewer rJoules than asked for.
    InsufficientBalance { have: u64, need: u64 },
    /// The key already has an active encumbrance.
    EncumbranceAlreadyExists { key_id: String },
    /// The key has no active encumbrance.
    EncumbranceNotFound { key_id: String },
    /// The key's active encumbrance has less left than asked for.
    EncumbranceInsufficient { key_id: String, remaining: u64, need: u64 },
}

/// The text, or `d` when there is none.
pub open spec fn text_or(o: Option<Seq<char>>, d: Seq<char>) -> Seq<char> {
    match o {
        Some(s) => s,
        None => d,
    }
}

/// The size of `x`, as an unsigned number.
pub open spec fn magnitude(x: i64) -> u64 {
    if x < 0 { (-(x as int)) as u64 } else { x as u64 }
}

/// The transaction kind a row records, by its type column; defaults fill
/// the columns left empty (`hedera`, `transparent`, an empty text, no gas).
pub open spec fn row_kind(
    tx_type: Seq<char>,
    subtype: Option<Seq<char>>,
    chain: Option<Seq<char>>,
    hash: Option<Seq<char>>,
    amount: i64,
    key_id: Option<Seq<char>>,
    tool: Option<Seq<char>>,
    gas: Option<i64>,
) -> Option<TxKindView> {
    if tx_type == "deposit"@ {
        Some(TxKindView::Deposit {
            chain: text_or(chain, "hedera"@),
            privacy: text_or(subtype, "transparent"@),
            tx_hash: text_or(hash, Seq::empty()),
            amount_usdc_micro: 0,
        })
    } else if tx_type == "withdrawal"@ {
        Some(TxKindView::Withdrawal {
            chain: text_or(chain, "hedera"@),
            privacy: text_or(subtype, "transparent"@),
            tx_hash: text_or(hash, Seq::empty()),
            amount_usdc_micro: 0,
        })
    } else if tx_type == "spend"@ {
        Some(TxKindView::Spend {
            key_id: text_or(key_id, Seq::empty()),
            tool: text_or(tool, Seq::empty()),
            gas: match gas {
                Some(g) => g as u64,
                None => 0,
            },
            rj: magnitude(amount),
        })
    } else if tx_type == "refund"@ {
        Some(TxKindView::Refund { key_id: text_or(key_id, Seq::empty()), reason: text_or(tool, Seq::empty()), rj: magnitude(amount) })
    } else if tx_type == "shield"@ {
        Some(TxKindView::Shield {
            chain: text_or(chain, "hedera"@),
            tx_hash: text_or(hash, Seq::empty()),
            amount_usdc_micro: 0,
        })
    } else {
        None
    }
}

/// What `chrono::NaiveDateTime::parse_from_str` reads from `text` in the
/// format `%Y-%m-%d %H:%M:%S`, as seconds since 1970 in UTC, or the text of
/// its error.
pub uninterp spec fn sql_timestamp(text: Seq<char>) -> Result<i64, Seq<char>>;

/// Calls `chrono::NaiveDateTime::parse_from_str` with the format
/// `%Y-%m-%d %H:%M:%S` and reads the result as UTC seconds; an error is
/// given by its text.
#[verifier::external_body]
fn parse_sql_timestamp(text: &str) -> (r: Result<i64, String>)
    ensures
        match r {
            Ok(t) => sql_timestamp(text@) == Ok::<i64, Seq<char>>(t),
            Err(e) => sql_timestamp(text@) == Err::<i64, Seq<char>>(e@),
        },
{
    chrono::NaiveDateTime::parse_from_str(text, "%Y-%m-%d %H:%M:%S")
        .map(|dt| dt.and_utc().timestamp())
        .map_err(|e| e.to_string())
}

fn text_or_default(o: Option<String>, d: &str) -> (r: String)
    ensures
        r@ == text_or(opt_view(o), d@),
{
    match o {
        Some(s) => s,
        None => String::from_str(d),
    }
}

fn size_of_amount(x: i64) -> (r: u64)
    ensures
        r == magnitude(x),
{
    if x >= 0 {
        x as u64
    } else {
        let y: i128 = -(x as i128);
        y as u64
    }
}

/// A row read back as a transaction: its kind by the type column, its
/// time by the `created_at` column.
pub open spec fn row_read_ok(r: WalletTransactionRow, out: Result<WalletTransaction, WalletError>) -> bool {
    match row_kind(r.tx_type@, opt_view(r.tx_subtype), opt_view(r.chain), opt_view(r.on_chain_tx_hash), r.amount_rj,
        opt_view(r.key_id), opt_view(r.tool_name), r.gas_units) {
        None => out matches Err(WalletError::Database(m)) && m@ == "unknown tx_type: "@ + r.tx_type@,
        Some(k) => match sql_timestamp(r.created_at@) {
            Err(e) => out matches Err(WalletError::Database(m)) && m@ == e,
            Ok(t) => out matches Ok(w) && w.tx_type@ == k && w.id == r.id as u64 && w.wallet_id@ == r.wallet_id@
                && w.rjoules_delta == r.amount_rj && w.balance_after == r.balance_after_rj as u64 && w.timestamp == t,
        },
    }
}

/// Read a ledger row back as a transaction.
pub fn row_to_wallet_transaction(r: WalletTransactionRow) -> (out: Result<WalletTransaction, WalletError>)
    ensures
        row_read_ok(r, out),
{
    let ghost r0 = r;
    proof {
        reveal_strlit("deposit");
        reveal_strlit("withdrawal");
        reveal_strlit("spend");
        reveal_strlit("refund");
        reveal_strlit("shield");
    }
    let kind = r.tx_type.as_str();
    let tx_type = if crate::text::str_eq(kind, "deposit") || crate::text::str_eq(kind, "withdrawal") {
        let chain = text_or_default(r.chain, "hedera");
        let privacy = text_or_default(r.tx_subtype, "transparent");
        let tx_hash = text_or_default(r.on_chain_tx_hash, "");
        if crate::text::str_eq(kind, "deposit") {
            TransactionType::Deposit { chain, privacy, tx_hash, amount_usdc_micro: 0 }
        } else {
            TransactionType::Withdrawal { chain, privacy, tx_hash, amount_usdc_micro: 0 }
        }
    } else if crate::text::str_eq(kind, "spend") {
        let gas: u64 = match r.gas_units {
            Some(g) => g as u64,
            None => 0,
        };
        TransactionType::Spend {
            key_id: text_or_default(r.key_id, ""),
            tool: text_or_default(r.tool_name, ""),
            gas,
            rj: size_of_amount(r.amount_rj),
        }
    } else if crate::text::str_eq(kind, "refund") {
        TransactionType::Refund {
            key_id: text_or_default(r.key_id, ""),
            reason: text_or_default(r.tool_name, ""),
            rj: size_of_amount(r.amount_rj),
        }
    } else if crate::text::str_eq(kind, "shield") {
        TransactionType::Shield {
            chain: text_or_default(r.chain, "hedera"),
            tx_hash: text_or_default(r.on_chain_tx_hash, ""),
            amount_usdc_micro: 0,
        }
    } else {
        let mut m = String::from_str("unknown tx_type: ");
        m.append(kind);
        return Err(WalletError::Database(m));
    };
    proof {
        assert(""@ =~= Seq::<char>::empty()) by {
            reveal_strlit("");
        }
    }
    let timestamp = match parse_sql_timestamp(r.created_at.as_str()) {
        Ok(t) => t,
        Err(e) => return Err(WalletError::Database(e)),
    };
    Ok(WalletTransaction {
        id: r.id as u64,
        wallet_id: r.wallet_id,
        tx_type,
        rjoules_delta: r.amount_rj,
        balance_after: r.balance_after_rj as u64,
        timestamp,
    })
}

/// Reading back the columns of a transaction kind gives that kind again,
/// for every kind whose columns hold all it records: deposits and
/// withdrawals on `hedera`, `transparent`, and every kind with no USDC
/// amount, spends and refunds whose rJoules are the size of the amount
/// recorded beside them, and spends whose gas fits in an `i64`.
pub proof fn lemma_columns_read_back(t: TxKindView, amount: i64)
    requires
        t matches TxKindView::Deposit { chain, privacy, amount_usdc_micro, .. } ==> chain == "hedera"@
            && privacy == "transparent"@ && amount_usdc_micro == 0,
        t matches TxKindView::Withdrawal { chain, privacy, amount_usdc_micro, .. } ==> chain == "hedera"@
            && privacy == "transparent"@ && amount_usdc_micro == 0,
        t matches TxKindView::Shield { amount_usdc_micro, .. } ==> amount_usdc_micro == 0,
        t matches TxKindView::Spend { gas, rj, .. } ==> gas <= i64::MAX && rj == magnitude(amount),
        t matches TxKindView::Refund { rj, .. } ==> rj == magnitude(amount),
    ensures
        ({
            let c = tx_columns(t);
            row_kind(c.0, c.1, c.2, c.3, amount, c.4, c.5, c.6) == Some(t)
        }),
{
    reveal_strlit("deposit");
    reveal_strlit("withdrawal");
    reveal_strlit("spend");
    reveal_strlit("refund");
    reveal_strlit("shield");
    reveal_strlit("hedera");
    reveal_strlit("transparent");
    match t {
        TxKindView::Spend { gas, .. } => {
            assert((gas as i64) as u64 == gas) by (bit_vector)
                requires
                    gas <= 0x7fff_ffff_ffff_ffffu64;
            assert("spend"@[0] != "deposit"@[0] && "spend"@[0] != "withdrawal"@[0]);
        },
        TxKindView::Refund { .. } => {
            assert("refund"@[0] != "deposit"@[0] && "refund"@[0] != "withdrawal"@[0] && "refund"@[0] != "spend"@[0]);
        },
        TxKindView::Shield { .. } => {
            assert("shield"@[0] != "deposit"@[0] && "shield"@[0] != "withdrawal"@[0] && "shield"@[1] != "spend"@[1]
                && "shield"@[0] != "refund"@[0]);
        },
        TxKindView::Withdrawal { .. } => {
            assert("withdrawal"@[0] != "deposit"@[0]);
        },
        TxKindView::Deposit { .. } => {},
    }
}

} // verus!

//! The wallet store: rJoule balances, the append-only transaction ledger,
//! API keys, encumbrances that set rJoules aside for a key, and one-time
//! deposit references. Times are milliseconds since 1970, UTC.
use vstd::prelude::*;
use vstd::string::*;
use crate::keyed::KeyedTable;
use crate::wallet::{
    columns_view, opt_view, row_read_ok, row_to_wallet_transaction, tx_columns, tx_type_to_columns,
    WalletError, WalletTransaction, WalletTransactionRow,
};

verus! {

/// The largest amount a stored column holds.
pub open spec fn column_max() -> int {
    i64::MAX as int
}

/// A wallet's balance as read back.
#[derive(Debug, Clone)]
pub struct WalletBalance {
    pub wallet_id: String,
    pub rjoules: u64,
    pub usdc_equivalent_micro: u64,
    pub gas_equivalent: u64,
}

/// The state of an encumbrance.
#[derive(Debug, Clone, Copy, PartialEq, Eq, Structural)]
pub enum EncumbranceStatus {
    Active,
    Released,
    Consumed,
}

/// rJoules set aside from a wallet for an API key, as read back.
#[derive(Debug, Clone)]
pub struct Encumbrance {
    pub key_id: String,
    pub wallet_id: String,
    pub amount_rj: u64,
    pub consumed_rj: u64,
    pub status: EncumbranceStatus,
    pub created_at: i64,
    pub released_at: Option<i64>,
}

/// An encumbrance as stored under its key.
#[derive(Debug)]
pub struct EncumbranceEntry {
    pub wallet_id: String,
    pub amount_rj: u64,
    pub consumed_rj: u64,
    pub status: EncumbranceStatus,
    pub created_at: i64,
    pub released_at: Option<i64>,
}

/// The view of a stored encumbrance.
pub struct EncumbranceView {
    pub wallet_id: Seq<char>,
    pub amount_rj: u64,
    pub consumed_rj: u64,
    pub status: EncumbranceStatus,
    pub created_at: i64,
    pub released_at: Option<i64>,
}

impl View for EncumbranceEntry {
    type V = EncumbranceView;

    open spec fn view(&self) -> EncumbranceView {
        EncumbranceView {
            wallet_id: self.wallet_id@,
            amount_rj: self.amount_rj,
            consumed_rj: self.consumed_rj,
            status: self.status,
            created_at: self.created_at,
            released_at: self.released_at,
        }
    }
}

/// A one-time deposit reference.
#[derive(Debug, Clone)]
pub struct DepositReference {
    pub reference: String,
    pub wallet_id: String,
    pub chain: String,
    pub nonce: [u8; 16],
    pub expires_at: i64,
}

/// A deposit reference as stored under its text.
#[derive(Debug)]
pub struct ReferenceEntry {
    pub wallet_id: String,
    pub chain: String,
    pub expires_at: i64,
    pub spent: bool,
}

/// The view of a stored deposit reference.
pub struct ReferenceView {
    pub wallet_id: Seq<char>,
    pub chain: Seq<char>,
    pub expires_at: i64,
    pub spent: bool,
}

impl View for ReferenceEntry {
    type V = ReferenceView;

    open spec fn view(&self) -> ReferenceView {
        ReferenceView { wallet_id: self.wallet_id@, chain: self.chain@, expires_at: self.expires_at, spent: self.spent }
    }
}

/// An API key: a capability to spend up to a limit from a wallet.
#[derive(Debug, Clone)]
pub struct ApiKeyCapability {
    pub wallet_id: String,
    pub key_id: String,
    pub public_key: [u8; 32],
    pub spending_limit_rj: u64,
    pub spent_rj: u64,
    pub scope: Vec<String>,
    pub purpose: String,
    pub expiry: Option<i64>,
    pub issued_at: i64,
    pub privacy_mode: String,
    pub preferred_chain: Option<String>,
}

/// An API key as stored under its key id.
#[derive(Debug)]
pub struct ApiKeyEntry {
    pub wallet_id: String,
    pub public_key: [u8; 32],
    pub spending_limit_rj: u64,
    pub spent_rj: u64,
    pub scope: Vec<String>,
    pub purpose: String,
    pub expiry: Option<i64>,
    pub issued_at: i64,
    pub revoked_at: Option<i64>,
}

/// The view of a stored API key.
pub struct ApiKeyView {
    pub wallet_id: Seq<char>,
    pub public_key: Seq<u8>,
    pub spending_limit_rj: u64,
    pub spent_rj: u64,
    pub scope: Seq<Seq<char>>,
    pub purpose: Seq<char>,
    pub expiry: Option<i64>,
    pub issued_at: i64,
    pub revoked_at: Option<i64>,
}

impl View for ApiKeyEntry {
    type V = ApiKeyView;

    open spec fn view(&self) -> ApiKeyView {
        ApiKeyView {
            wallet_id: self.wallet_id@,
            public_key: self.public_key@,
            spending_limit_rj: self.spending_limit_rj,
            spent_rj: self.spent_rj,
            scope: crate::registry::texts_of(self.scope@),
            purpose: self.purpose@,
            expiry: self.expiry,
            issued_at: self.issued_at,
            revoked_at: self.revoked_at,
        }
    }
}

/// A deposit address of a wallet, as read back.
#[derive(Debug, Clone)]
pub struct DepositAddress {
    pub address: String,
    pub chain: String,
    pub privacy_mode: String,
}

/// A deposit address as stored under its text.
#[derive(Debug)]
pub struct AddressEntry {
    pub wallet_id: String,
    pub chain: String,
    pub derivation_index: i64,
    pub privacy_mode: String,
}

/// The view of a stored deposit address.
pub struct AddressView {
    pub wallet_id: Seq<char>,
    pub chain: Seq<char>,
    pub derivation_index: i64,
    pub privacy_mode: Seq<char>,
}

impl View for AddressEntry {
    type V = AddressView;

    open spec fn view(&self) -> AddressView {
        AddressView {
            wallet_id: self.wallet_id@,
            chain: self.chain@,
            derivation_index: self.derivation_index,
            privacy_mode: self.privacy_mode@,
        }
    }
}

/// The store. Each table holds a key at most once; balances fit the
/// stored column.
#[derive(Debug)]
pub struct WalletStore {
    balances: KeyedTable<u64>,
    transactions: Vec<WalletTransactionRow>,
    encumbrances: KeyedTable<EncumbranceEntry>,
    references: KeyedTable<ReferenceEntry>,
    api_keys: KeyedTable<ApiKeyEntry>,
    addresses: KeyedTable<AddressEntry>,
}

/// `m` with `w` held, at zero when it was not.
pub open spec fn with_wallet(m: Map<Seq<char>, u64>, w: Seq<char>) -> Map<Seq<char>, u64> {
    if m.dom().contains(w) { m } else { m.insert(w, 0) }
}

/// The balance of `w` in `m`, zero when it is not held.
pub open spec fn balance_in(m: Map<Seq<char>, u64>, w: Seq<char>) -> u64 {
    if m.dom().contains(w) { m[w] } else { 0 }
}

/// `row` is how the ledger records `tx` under `id`: its kind spread over
/// the columns, its amounts as stored; the row's time is the clock's.
pub open spec fn ledger_row_of(tx: WalletTransaction, id: int, row: WalletTransactionRow) -> bool {
    &&& row.id == id
    &&& row.wallet_id@ == tx.wallet_id@
    &&& (row.tx_type@, opt_view(row.tx_subtype), opt_view(row.chain), opt_view(row.on_chain_tx_hash),
        opt_view(row.key_id), opt_view(row.tool_name), row.gas_units) == tx_columns(tx.tx_type@)
    &&& row.amount_rj == tx.rjoules_delta
    &&& row.balance_after_rj == tx.balance_after as i64
}

/// The rows of wallet `w`, newest first.
pub open spec fn newest_first(rows: Seq<WalletTransactionRow>, w: Seq<char>) -> Seq<WalletTransactionRow>
    decreases rows.len(),
{
    if rows.len() == 0 {
        Seq::empty()
    } else {
        let rest = newest_first(rows.drop_first(), w);
        if rows[0].wallet_id@ == w { rest.push(rows[0]) } else { rest }
    }
}

/// At most `limit` items of `s`, after skipping `offset`.
pub open spec fn page<T>(s: Seq<T>, offset: int, limit: int) -> Seq<T> {
    let a = if offset < s.len() { offset } else { s.len() as int };
    let b = if a + limit < s.len() { a + limit } else { s.len() as int };
    s.subrange(a, b)
}

/// Calls `chrono::Utc::now` and formats it as `%Y-%m-%d %H:%M:%S`, the
/// form in which a ledger row keeps its time. It depends on the clock, and
/// nothing is stated of it.
#[verifier::external_body]
fn sql_now() -> String {
    chrono::Utc::now().format("%Y-%m-%d %H:%M:%S").to_string()
}

fn copy_text(o: &Option<String>) -> (r: Option<String>)
    ensures
        r == *o,
{
    match o {
        Some(s) => Some(s.clone()),
        None => None,
    }
}

fn copy_row(row: &WalletTransactionRow) -> (r: WalletTransactionRow)
    ensures
        r == *row,
{
    WalletTransactionRow {
        id: row.id,
        wallet_id: row.wallet_id.clone(),
        tx_type: row.tx_type.clone(),
        tx_subtype: copy_text(&row.tx_subtype),
        chain: copy_text(&row.chain),
        on_chain_tx_hash: copy_text(&row.on_chain_tx_hash),
        amount_rj: row.amount_rj,
        balance_after_rj: row.balance_after_rj,
        key_id: copy_text(&row.key_id),
        tool_name: copy_text(&row.tool_name),
        gas_units: row.gas_units,
        created_at: row.created_at.clone(),
    }
}

/// Reference `k` can be consumed at `now`: it is held, unspent, and
/// expires after `now`.
pub open spec fn can_consume(refs: Map<Seq<char>, ReferenceView>, k: Seq<char>, now: i64) -> bool {
    refs.dom().contains(k) && !refs[k].spent && refs[k].expires_at > now
}

/// The references after consuming `k` at `now`: marked spent where it
/// could be consumed, unchanged otherwise.
pub open spec fn after_consume(refs: Map<Seq<char>, ReferenceView>, k: Seq<char>, now: i64) -> Map<Seq<char>, ReferenceView> {
    if can_consume(refs, k, now) {
        refs.insert(k, ReferenceView { spent: true, ..refs[k] })
    } else {
        refs
    }
}

/// Consuming `k` at `now` took `before` to `after` and answered `r`: the
/// owning wallet where the reference could be consumed, `None` otherwise.
pub open spec fn reference_consumed(
    before: Map<Seq<char>, ReferenceView>,
    after: Map<Seq<char>, ReferenceView>,
    k: Seq<char>,
    now: i64,
    r: Result<Option<String>, WalletError>,
) -> bool {
    &&& after == after_consume(before, k, now)
    &&& if can_consume(before, k, now) {
        r matches Ok(Some(w)) && w@ == before[k].wallet_id
    } else {
        r matches Ok(None)
    }
}

/// The references that expire after `now`.
pub open spec fn unexpired(refs: Map<Seq<char>, ReferenceView>, now: i64) -> Map<Seq<char>, ReferenceView> {
    Map::new(|k: Seq<char>| refs.dom().contains(k) && refs[k].expires_at > now, |k: Seq<char>| refs[k])
}

/// `c` is the key held under `k` as read back: what was stored, with the
/// privacy mode `transparent` and no preferred chain.
pub open spec fn key_read_back(k: Seq<char>, e: ApiKeyView, c: ApiKeyCapability) -> bool {
    &&& c.key_id@ == k
    &&& c.wallet_id@ == e.wallet_id
    &&& c.public_key@ == e.public_key
    &&& c.spending_limit_rj == e.spending_limit_rj
    &&& c.spent_rj == e.spent_rj
    &&& crate::registry::texts_of(c.scope@) == e.scope
    &&& c.purpose@ == e.purpose
    &&& c.expiry == e.expiry
    &&& c.issued_at == e.issued_at
    &&& c.privacy_mode@ == "transparent"@
    &&& c.preferred_chain is None
}

/// The stored form of capability `c`, not revoked.
pub open spec fn key_entry_of(c: ApiKeyCapability) -> ApiKeyView {
    ApiKeyView {
        wallet_id: c.wallet_id@,
        public_key: c.public_key@,
        spending_limit_rj: c.spending_limit_rj,
        spent_rj: c.spent_rj,
        scope: crate::registry::texts_of(c.scope@),
        purpose: c.purpose@,
        expiry: c.expiry,
        issued_at: c.issued_at,
        revoked_at: None,
    }
}

/// An address read back: on `hedera`, `transparent`.
pub open spec fn hedera_transparent(a: DepositAddress) -> bool {
    a.chain@ == "hedera"@ && a.privacy_mode@ == "transparent"@
}

/// `v` lists the deposit addresses of `w` held in `m`, each once, on
/// `hedera`, `transparent`, by derivation index.
pub open spec fn addresses_listed(m: Map<Seq<char>, AddressView>, w: Seq<char>, v: Seq<DepositAddress>) -> bool {
    &&& forall|i: int| 0 <= i < v.len() ==> m.dom().contains(#[trigger] v[i].address@) && m[v[i].address@].wallet_id == w
    &&& forall|i: int| 0 <= i < v.len() ==> #[trigger] hedera_transparent(v[i])
    &&& forall|k: Seq<char>| #[trigger] m.dom().contains(k) && m[k].wallet_id == w ==> exists|i: int| 0 <= i < v.len() && #[trigger] v[i].address@ == k
    &&& forall|i: int, j: int| 0 <= i < j < v.len() ==> v[i].address@ != v[j].address@
    &&& forall|i: int, j: int| 0 <= i < j < v.len() ==> m[v[i].address@].derivation_index <= m[v[j].address@].derivation_index
}

/// `v` lists the keys of `w` held in `m` and not revoked, each once, as
/// read back, most recently issued first.
pub open spec fn keys_listed(m: Map<Seq<char>, ApiKeyView>, w: Seq<char>, v: Seq<ApiKeyCapability>) -> bool {
    &&& forall|i: int| 0 <= i < v.len() ==> m.dom().contains(#[trigger] v[i].key_id@) && m[v[i].key_id@].wallet_id == w
        && m[v[i].key_id@].revoked_at is None && key_read_back(v[i].key_id@, m[v[i].key_id@], v[i])
    &&& forall|k: Seq<char>| #[trigger] m.dom().contains(k) && m[k].wallet_id == w && m[k].revoked_at is None
        ==> exists|i: int| 0 <= i < v.len() && #[trigger] v[i].key_id@ == k
    &&& forall|i: int, j: int| 0 <= i < j < v.len() ==> v[i].key_id@ != v[j].key_id@
    &&& forall|i: int, j: int| 0 <= i < j < v.len() ==> v[i].issued_at >= v[j].issued_at
}

/// `m` with `amount` added to wallet `w` where it is held and `amount`
/// is positive; unchanged otherwise.
pub open spec fn refunded(m: Map<Seq<char>, u64>, w: Seq<char>, amount: int) -> Map<Seq<char>, u64> {
    if m.dom().contains(w) && amount > 0 { m.insert(w, (m[w] + amount) as u64) } else { m }
}

/// Adding `amount` to wallet `w` would not fit the stored column.
pub open spec fn refund_overflows(m: Map<Seq<char>, u64>, w: Seq<char>, amount: int) -> bool {
    m.dom().contains(w) && amount > 0 && m[w] + amount > column_max()
}

fn copy_texts(v: &Vec<String>) -> (r: Vec<String>)
    ensures
        r@ == v@,
{
    let mut r: Vec<String> = Vec::new();
    let mut i: usize = 0;
    while i < v.len()
        invariant
            i <= v@.len(),
            r@ == v@.take(i as int),
        decreases v@.len() - i,
    {
        r.push(v[i].clone());
        proof {
            assert(v@.take(i + 1) =~= v@.take(i as int).push(v@[i as int]));
        }
        i = i + 1;
    }
    proof {
        assert(v@.take(v@.len() as int) =~= v@);
    }
    r
}

fn same_bytes(a: &[u8; 32], b: &[u8]) -> (r: bool)
    ensures
        r == (a@ == b@),
{
    if b.len() != 32 {
        return false;
    }
    let mut i: usize = 0;
    while i < 32
        invariant
            i <= 32,
            a@.len() == 32,
            b@.len() == 32,
            forall|j: int| 0 <= j < i ==> a@[j] == b@[j],
        decreases 32 - i,
    {
        if a[i] != b[i] {
            return false;
        }
        i = i + 1;
    }
    proof {
        assert(a@ =~= b@);
    }
    true
}

/// Key `k` has an active encumbrance in `encs`.
pub open spec fn active_in(encs: Map<Seq<char>, EncumbranceView>, k: Seq<char>) -> bool {
    encs.dom().contains(k) && encs[k].status == EncumbranceStatus::Active
}

/// What an encumbrance has left to consume.
pub open spec fn remaining(e: EncumbranceView) -> int {
    e.amount_rj - e.consumed_rj
}

/// Revoking key `k` took store `a` to store `b` and answered `r`: a key
/// not held, or already revoked, is left as it is; otherwise the key is
/// marked revoked and what it had left to spend goes back to its wallet,
/// unless the wallet's balance would not fit the stored column, in which
/// case nothing changes and the revocation fails.
pub open spec fn revoke_post(a: WalletStore, b: WalletStore, k: Seq<char>, r: Result<(), WalletError>) -> bool {
    let keys = a.api_keys();
    if !keys.dom().contains(k) || keys[k].revoked_at is Some {
        r is Ok && b.api_keys() == keys && b.balances() == a.balances()
    } else {
        let unspent = keys[k].spending_limit_rj - keys[k].spent_rj;
        if refund_overflows(a.balances(), keys[k].wallet_id, unspent) {
            r matches Err(WalletError::Database(_)) && b.api_keys() == keys && b.balances() == a.balances()
        } else {
            &&& r is Ok
            &&& b.api_keys().dom().contains(k)
            &&& b.api_keys()[k].revoked_at is Some
            &&& b.api_keys() == keys.insert(k, ApiKeyView { revoked_at: b.api_keys()[k].revoked_at, ..keys[k] })
            &&& b.balances() == refunded(a.balances(), keys[k].wallet_id, unspent)
        }
    }
}

/// Releasing the encumbrance of `k` took store `a` to store `b` and
/// answered `r`: a key with no active encumbrance is left as it is;
/// otherwise the encumbrance is released and what it had left goes back to
/// its wallet, unless the wallet's balance would not fit the stored column,
/// in which case nothing changes and the release fails.
pub open spec fn release_post(a: WalletStore, b: WalletStore, k: Seq<char>, r: Result<(), WalletError>) -> bool {
    let encs = a.encumbrances();
    if !active_in(encs, k) {
        r is Ok && b.encumbrances() == encs && b.balances() == a.balances()
    } else if refund_overflows(a.balances(), encs[k].wallet_id, remaining(encs[k])) {
        r matches Err(WalletError::Database(_)) && b.encumbrances() == encs && b.balances() == a.balances()
    } else {
        &&& r is Ok
        &&& b.encumbrances().dom().contains(k)
        &&& b.encumbrances()[k].released_at is Some
        &&& b.encumbrances() == encs.insert(k, EncumbranceView {
            status: EncumbranceStatus::Released,
            released_at: b.encumbrances()[k].released_at,
            ..encs[k]
        })
        &&& b.balances() == refunded(a.balances(), encs[k].wallet_id, remaining(encs[k]))
    }
}

impl WalletStore {
    /// The balance of each wallet.
    pub closed spec fn balances(&self) -> Map<Seq<char>, u64> {
        self.balances@
    }

    /// The ledger rows, oldest first.
    pub closed spec fn ledger(&self) -> Seq<WalletTransactionRow> {
        self.transactions@
    }

    /// The encumbrance of each key.
    pub closed spec fn encumbrances(&self) -> Map<Seq<char>, EncumbranceView> {
        self.encumbrances@
    }

    /// The deposit reference under each text.
    pub closed spec fn references(&self) -> Map<Seq<char>, ReferenceView> {
        self.references@
    }

    /// The API key under each key id.
    pub closed spec fn api_keys(&self) -> Map<Seq<char>, ApiKeyView> {
        self.api_keys@
    }

    /// The deposit address under each address text.
    pub closed spec fn addresses(&self) -> Map<Seq<char>, AddressView> {
        self.addresses@
    }

    /// Each table holds a key at most once, every balance fits the stored
    /// column, and no encumbrance has consumed more than it holds.
    pub closed spec fn wf(&self) -> bool {
        &&& self.balances.wf()
        &&& self.encumbrances.wf()
        &&& self.references.wf()
        &&& self.api_keys.wf()
        &&& self.addresses.wf()
        &&& forall|w: Seq<char>| #[trigger] self.balances@.dom().contains(w) ==> self.balances@[w] <= i64::MAX
        &&& forall|k: Seq<char>| #[trigger] self.encumbrances@.dom().contains(k)
            ==> self.encumbrances@[k].consumed_rj <= self.encumbrances@[k].amount_rj
    }

    /// An empty store.
    pub fn new() -> (r: WalletStore)
        ensures
            r.wf(),
            r.balances() == Map::<Seq<char>, u64>::empty(),
            r.ledger().len() == 0,
            r.encumbrances() == Map::<Seq<char>, EncumbranceView>::empty(),
            r.references() == Map::<Seq<char>, ReferenceView>::empty(),
            r.api_keys() == Map::<Seq<char>, ApiKeyView>::empty(),
            r.addresses() == Map::<Seq<char>, AddressView>::empty(),
    {
        WalletStore {
            balances: KeyedTable::new(),
            transactions: Vec::new(),
            encumbrances: KeyedTable::new(),
            references: KeyedTable::new(),
            api_keys: KeyedTable::new(),
            addresses: KeyedTable::new(),
        }
    }

    /// Hold `wallet_id`, at zero rJoules when it was not held; a wallet
    /// already held keeps its balance.
    pub fn ensure_wallet(&mut self, wallet_id: &str) -> (r: Result<(), WalletError>)
        requires
            old(self).wf(),
        ensures
            final(self).wf(),
            final(self).addresses() == old(self).addresses(),
            r is Ok,
            final(self).balances() == with_wallet(old(self).balances(), wallet_id@),
            final(self).ledger() == old(self).ledger(),
            final(self).encumbrances() == old(self).encumbrances(),
            final(self).api_keys() == old(self).api_keys(),
            final(self).references() == old(self).references(),
    {
        if self.balances.get(wallet_id).is_none() {
            self.balances.insert(String::from_str(wallet_id), 0);
        }
        Ok(())
    }

    fn balance_of(&self, wallet_id: &str) -> (r: Option<u64>)
        requires
            self.wf(),
        ensures
            self.balances().dom().contains(wallet_id@) ==> r == Some(self.balances()[wallet_id@]),
            !self.balances().dom().contains(wallet_id@) ==> r is None,
    {
        match self.balances.get(wallet_id) {
            Some(b) => Some(*b),
            None => None,
        }
    }

    /// The balance of `wallet_id`, or `None` when it is not held.
    pub fn get_balance(&self, wallet_id: &str) -> (r: Result<Option<WalletBalance>, WalletError>)
        requires
            self.wf(),
        ensures
            self.balances().dom().contains(wallet_id@) ==> (r matches Ok(Some(b)) && b.wallet_id@ == wallet_id@
                && b.rjoules == self.balances()[wallet_id@] && b.usdc_equivalent_micro == 0 && b.gas_equivalent == 0),
            !self.balances().dom().contains(wallet_id@) ==> r matches Ok(None),
    {
        match self.balance_of(wallet_id) {
            Some(b) => Ok(Some(WalletBalance { wallet_id: String::from_str(wallet_id), rjoules: b, usdc_equivalent_micro: 0, gas_equivalent: 0 })),
            None => Ok(None),
        }
    }

    /// Every wallet held, each once.
    pub fn list_wallet_ids(&self) -> (r: Result<Vec<String>, WalletError>)
        requires
            self.wf(),
        ensures
            r matches Ok(v) && v@.len() == self.balances().dom().len()
                && (forall|i: int| 0 <= i < v@.len() ==> self.balances().dom().contains(#[trigger] v@[i]@))
                && (forall|i: int, j: int| 0 <= i < j < v@.len() ==> v@[i]@ != v@[j]@),
    {
        let mut v: Vec<String> = Vec::new();
        let mut i: usize = 0;
        let n = self.balances.len();
        while i < n
            invariant
                self.balances.wf(),
                n == self.balances.entries().len(),
                i <= n,
                v@.len() == i,
                forall|k: int| 0 <= k < i ==> v@[k] == self.balances.entries()[k].0,
            decreases n - i,
        {
            v.push(self.balances.key_at(i).clone());
            i = i + 1;
        }
        proof {
            self.balances.lemma_len();
            assert forall|k: int| 0 <= k < v@.len() implies self.balances().dom().contains(#[trigger] v@[k]@) by {
                self.balances.lemma_entry(k);
            }
            assert forall|a: int, b: int| 0 <= a < b < v@.len() implies v@[a]@ != v@[b]@ by {
                self.balances.lemma_distinct(a, b);
            }
        }
        Ok(v)
    }

    fn set_balance(&mut self, wallet_id: &str, amount: u64)
        requires
            old(self).wf(),
            amount <= i64::MAX,
        ensures
            final(self).wf(),
            final(self).addresses() == old(self).addresses(),
            final(self).balances() == old(self).balances().insert(wallet_id@, amount),
            final(self).ledger() == old(self).ledger(),
            final(self).encumbrances() == old(self).encumbrances(),
            final(self).api_keys() == old(self).api_keys(),
            final(self).references() == old(self).references(),
    {
        self.balances.insert(String::from_str(wallet_id), amount);
    }

    /// Add `amount` rJoules to `wallet_id`, holding the wallet first when it
    /// was not held, and give the new balance. Fails, with the wallet held
    /// and its balance unchanged, where the sum would not fit the stored
    /// column.
    pub fn credit_rjoules(&mut self, wallet_id: &str, amount: u64) -> (r: Result<WalletBalance, WalletError>)
        requires
            old(self).wf(),
            amount <= i64::MAX,
        ensures
            final(self).wf(),
            final(self).addresses() == old(self).addresses(),
            ({
                let before = balance_in(old(self).balances(), wallet_id@);
                if before + amount > column_max() {
                    &&& r matches Err(WalletError::Database(_))
                    &&& final(self).balances() == with_wallet(old(self).balances(), wallet_id@)
                } else {
                    &&& r matches Ok(b) && b.wallet_id@ == wallet_id@ && b.rjoules == before + amount
                        && b.usdc_equivalent_micro == 0 && b.gas_equivalent == 0
                    &&& final(self).balances() == old(self).balances().insert(wallet_id@, (before + amount) as u64)
                }
            }),
            final(self).ledger() == old(self).ledger(),
            final(self).encumbrances() == old(self).encumbrances(),
            final(self).api_keys() == old(self).api_keys(),
            final(self).references() == old(self).references(),
    {
        let _ = self.ensure_wallet(wallet_id);
        let before = match self.balance_of(wallet_id) {
            Some(b) => b,
            None => 0,
        };
        if amount > 0x7fff_ffff_ffff_ffffu64 - before {
            return Err(WalletError::Database(String::from_str("integer overflow")));
        }
        let after = before + amount;
        self.set_balance(wallet_id, after);
        Ok(WalletBalance { wallet_id: String::from_str(wallet_id), rjoules: after, usdc_equivalent_micro: 0, gas_equivalent: 0 })
    }

    /// Take `amount` rJoules from `wallet_id` and give the new balance.
    /// Fails, changing nothing, when the wallet is not held or holds less
    /// than `amount`.
    pub fn debit_rjoules(&mut self, wallet_id: &str, amount: u64) -> (r: Result<WalletBalance, WalletError>)
        requires
            old(self).wf(),
            amount <= i64::MAX,
        ensures
            final(self).wf(),
            final(self).addresses() == old(self).addresses(),
            !old(self).balances().dom().contains(wallet_id@) ==> (r matches Err(WalletError::Database(m))
                && m@ == "Query returned no rows"@ && final(self).balances() == old(self).balances()),
            old(self).balances().dom().contains(wallet_id@) && old(self).balances()[wallet_id@] < amount ==> (
                r matches Err(WalletError::InsufficientBalance { have, need }) && have == old(self).balances()[wallet_id@]
                && need == amount && final(self).balances() == old(self).balances()),
            old(self).balances().dom().contains(wallet_id@) && old(self).balances()[wallet_id@] >= amount ==> (
                r matches Ok(b) && b.wallet_id@ == wallet_id@ && b.rjoules == old(self).balances()[wallet_id@] - amount
                && b.usdc_equivalent_micro == 0 && b.gas_equivalent == 0
                && final(self).balances() == old(self).balances().insert(wallet_id@, (old(self).balances()[wallet_id@] - amount) as u64)),
            final(self).ledger() == old(self).ledger(),
            final(self).encumbrances() == old(self).encumbrances(),
            final(self).api_keys() == old(self).api_keys(),
            final(self).references() == old(self).references(),
    {
        let current = match self.balance_of(wallet_id) {
            Some(b) => b,
            None => return Err(WalletError::Database(String::from_str("Query returned no rows"))),
        };
        if current < amount {
            return Err(WalletError::InsufficientBalance { have: current, need: amount });
        }
        let after = current - amount;
        self.set_balance(wallet_id, after);
        Ok(WalletBalance { wallet_id: String::from_str(wallet_id), rjoules: after, usdc_equivalent_micro: 0, gas_equivalent: 0 })
    }

    /// Append `tx` to the ledger under the next id; earlier rows stay as
    /// they were. The row's id and time are the ledger's, not `tx`'s.
    pub fn record_transaction(&mut self, tx: &WalletTransaction) -> (r: Result<(), WalletError>)
        requires
            old(self).wf(),
            old(self).ledger().len() < i64::MAX,
        ensures
            final(self).wf(),
            final(self).addresses() == old(self).addresses(),
            r is Ok,
            final(self).ledger().len() == old(self).ledger().len() + 1,
            final(self).ledger().take(old(self).ledger().len() as int) == old(self).ledger(),
            ledger_row_of(*tx, old(self).ledger().len() + 1int, final(self).ledger().last()),
            final(self).balances() == old(self).balances(),
            final(self).encumbrances() == old(self).encumbrances(),
            final(self).api_keys() == old(self).api_keys(),
            final(self).references() == old(self).references(),
    {
        let (kind, subtype, chain, hash, key_id, tool, gas) = tx_type_to_columns(&tx.tx_type);
        let id: i64 = self.transactions.len() as i64 + 1;
        let row = WalletTransactionRow {
            id,
            wallet_id: tx.wallet_id.clone(),
            tx_type: String::from_str(kind),
            tx_subtype: subtype,
            chain,
            on_chain_tx_hash: hash,
            amount_rj: tx.rjoules_delta,
            balance_after_rj: #[verifier::truncate] (tx.balance_after as i64),
            key_id,
            tool_name: tool,
            gas_units: gas,
            created_at: sql_now(),
        };
        let ghost before = self.transactions@;
        self.transactions.push(row);
        proof {
            assert(self.transactions@.take(before.len() as int) =~= before);
        }
        Ok(())
    }

    /// The transactions of `wallet_id`, newest first: `limit` of them at
    /// most, after skipping `offset`, each row read back. Fails with the
    /// error of the first row of the page that cannot be read.
    pub fn get_transactions(&self, wallet_id: &str, limit: u32, offset: u32) -> (r: Result<Vec<WalletTransaction>, WalletError>)
        requires
            self.wf(),
        ensures
            ({
                let sel = page(newest_first(self.ledger(), wallet_id@), offset as int, limit as int);
                match r {
                    Ok(v) => v@.len() == sel.len() && forall|i: int| 0 <= i < sel.len() ==> row_read_ok(#[trigger] sel[i], Ok(v@[i])),
                    Err(e) => exists|i: int| 0 <= i < sel.len() && row_read_ok(#[trigger] sel[i], Err(e)),
                }
            }),
    {
        let rows = &self.transactions;
        let n = rows.len();
        let mut mine: Vec<WalletTransactionRow> = Vec::new();
        let mut j: usize = n;
        while j > 0
            invariant
                n == rows@.len(),
                j <= n,
                mine@ == newest_first(rows@.subrange(j as int, n as int), wallet_id@),
            decreases j,
        {
            j = j - 1;
            proof {
                let s = rows@.subrange(j as int, n as int);
                assert(s.drop_first() =~= rows@.subrange(j + 1, n as int));
                assert(s[0] == rows@[j as int]);
            }
            if crate::text::str_eq(rows[j].wallet_id.as_str(), wallet_id) {
                mine.push(copy_row(&rows[j]));
            }
        }
        proof {
            assert(rows@.subrange(0, n as int) =~= rows@);
        }
        let m = mine.len();
        let start: usize = if (offset as usize) < m { offset as usize } else { m };
        let end: usize = if (limit as usize) < m - start { start + limit as usize } else { m };
        let ghost sel = page(mine@, offset as int, limit as int);
        proof {
            assert(sel =~= mine@.subrange(start as int, end as int));
        }
        let mut out: Vec<WalletTransaction> = Vec::new();
        let mut i: usize = start;
        while i < end
            invariant
                start <= i <= end <= mine@.len(),
                sel == mine@.subrange(start as int, end as int),
                sel == page(newest_first(self.ledger(), wallet_id@), offset as int, limit as int),
                out@.len() == i - start,
                forall|k: int| 0 <= k < out@.len() ==> row_read_ok(#[trigger] sel[k], Ok(out@[k])),
            decreases end - i,
        {
            let read = row_to_wallet_transaction(copy_row(&mine[i]));
            assert(sel[i - start] == mine@[i as int]);
            match read {
                Ok(t) => {
                    out.push(t);
                },
                Err(e) => {
                    assert(row_read_ok(sel[i - start], Err(e)));
                    return Err(e);
                },
            }
            i = i + 1;
        }
        Ok(out)
    }

    /// Whether the ledger holds a row with on-chain hash `tx_hash`.
    pub fn transaction_exists_by_hash(&self, tx_hash: &str) -> (r: Result<bool, WalletError>)
        requires
            self.wf(),
        ensures
            r matches Ok(b) && b == exists|i: int| 0 <= i < self.ledger().len()
                && #[trigger] opt_view(self.ledger()[i].on_chain_tx_hash) == Some(tx_hash@),
    {
        let mut i: usize = 0;
        while i < self.transactions.len()
            invariant
                i <= self.transactions@.len(),
                forall|k: int| 0 <= k < i ==> #[trigger] opt_view(self.transactions@[k].on_chain_tx_hash) != Some(tx_hash@),
            decreases self.transactions@.len() - i,
        {
            match &self.transactions[i].on_chain_tx_hash {
                Some(h) => {
                    if crate::text::str_eq(h.as_str(), tx_hash) {
                        assert(opt_view(self.ledger()[i as int].on_chain_tx_hash) == Some(tx_hash@));
                        return Ok(true);
                    }
                },
                None => {},
            }
            i = i + 1;
        }
        Ok(false)
    }

    /// Keep a one-time deposit reference, unspent. Fails, changing nothing,
    /// when its text is already held.
    pub fn store_deposit_reference(&mut self, reference: &DepositReference) -> (r: Result<(), WalletError>)
        requires
            old(self).wf(),
        ensures
            final(self).wf(),
            final(self).addresses() == old(self).addresses(),
            old(self).references().dom().contains(reference.reference@) ==> (r matches Err(WalletError::Database(_))
                && final(self).references() == old(self).references()),
            !old(self).references().dom().contains(reference.reference@) ==> (r is Ok
                && final(self).references() == old(self).references().insert(reference.reference@,
                    ReferenceView { wallet_id: reference.wallet_id@, chain: reference.chain@, expires_at: reference.expires_at, spent: false })),
            final(self).balances() == old(self).balances(),
            final(self).ledger() == old(self).ledger(),
            final(self).encumbrances() == old(self).encumbrances(),
            final(self).api_keys() == old(self).api_keys(),
    {
        if self.references.get(reference.reference.as_str()).is_some() {
            return Err(WalletError::Database(String::from_str("UNIQUE constraint failed: deposit_references.reference")));
        }
        let entry = ReferenceEntry {
            wallet_id: reference.wallet_id.clone(),
            chain: reference.chain.clone(),
            expires_at: reference.expires_at,
            spent: false,
        };
        self.references.insert(reference.reference.clone(), entry);
        Ok(())
    }

    /// Consume deposit reference `reference` at time `now`: where it is
    /// held, unspent and expires after `now`, mark it spent and give its
    /// wallet; otherwise give `None` and change nothing.
    pub fn consume_deposit_reference_at(&mut self, reference: &str, now: i64) -> (r: Result<Option<String>, WalletError>)
        requires
            old(self).wf(),
        ensures
            final(self).wf(),
            final(self).addresses() == old(self).addresses(),
            reference_consumed(old(self).references(), final(self).references(), reference@, now, r),
            final(self).balances() == old(self).balances(),
            final(self).ledger() == old(self).ledger(),
            final(self).encumbrances() == old(self).encumbrances(),
            final(self).api_keys() == old(self).api_keys(),
    {
        let (wallet_id, chain, expires_at) = match self.references.get(reference) {
            Some(e) => {
                if e.spent || e.expires_at <= now {
                    return Ok(None);
                }
                (e.wallet_id.clone(), e.chain.clone(), e.expires_at)
            },
            None => return Ok(None),
        };
        let answer = wallet_id.clone();
        self.references.insert(String::from_str(reference), ReferenceEntry { wallet_id, chain, expires_at, spent: true });
        Ok(Some(answer))
    }

    /// Consume deposit reference `reference` now, by the clock: as
    /// `consume_deposit_reference_at` at the time read.
    pub fn consume_deposit_reference(&mut self, reference: &str) -> (r: Result<Option<String>, WalletError>)
        requires
            old(self).wf(),
        ensures
            final(self).wf(),
            final(self).addresses() == old(self).addresses(),
            exists|now: i64| reference_consumed(old(self).references(), final(self).references(), reference@, now, r),
            final(self).balances() == old(self).balances(),
            final(self).ledger() == old(self).ledger(),
            final(self).encumbrances() == old(self).encumbrances(),
            final(self).api_keys() == old(self).api_keys(),
    {
        let now = crate::audit::now_millis();
        self.consume_deposit_reference_at(reference, now)
    }

    /// Drop every deposit reference that expires at or before `now`, and
    /// give how many were dropped.
    pub fn purge_expired_references_at(&mut self, now: i64) -> (r: Result<u64, WalletError>)
        requires
            old(self).wf(),
        ensures
            final(self).wf(),
            final(self).addresses() == old(self).addresses(),
            final(self).references() == unexpired(old(self).references(), now),
            r matches Ok(n) && n == old(self).references().dom().len() - final(self).references().dom().len(),
            final(self).balances() == old(self).balances(),
            final(self).ledger() == old(self).ledger(),
            final(self).encumbrances() == old(self).encumbrances(),
            final(self).api_keys() == old(self).api_keys(),
    {
        let ghost old_table = self.references;
        proof {
            old_table.lemma_len();
        }
        let ghost entries = old_table.entries();
        let mut rows = self.references.drain_all();
        let n = rows.len();
        let mut dropped: u64 = 0;
        while rows.len() > 0
            invariant
                old_table.wf(),
                entries == old_table.entries(),
                n == entries.len(),
                rows@.len() <= n,
                rows@ == entries.take(rows@.len() as int),
                self.references.wf(),
                self.references.entries().len() + dropped == n - rows@.len(),
                forall|k: Seq<char>| self.references@.dom().contains(k) <==> (exists|j: int| rows@.len() <= j < n
                    && #[trigger] entries[j].0@ == k && entries[j].1@.expires_at > now),
                forall|k: Seq<char>| #[trigger] self.references@.dom().contains(k) ==> self.references@[k] == old_table@[k],
                self.balances == old(self).balances,
                self.transactions == old(self).transactions,
                self.encumbrances == old(self).encumbrances,
                self.api_keys == old(self).api_keys,
                self.addresses == old(self).addresses,
            decreases rows@.len(),
        {
            let ghost p = (rows@.len() - 1) as int;
            let (k, v) = rows.pop().unwrap();
            proof {
                assert(entries[p].0 == k && entries[p].1 == v);
                old_table.lemma_entry(p);
                assert(rows@ =~= entries.take(p));
            }
            if v.expires_at > now {
                proof {
                    assert(!self.references@.dom().contains(k@)) by {
                        if self.references@.dom().contains(k@) {
                            let j = choose|j: int| rows@.len() + 1 <= j < n && #[trigger] entries[j].0@ == k@ && entries[j].1@.expires_at > now;
                            old_table.lemma_distinct(p, j);
                        }
                    }
                }
                self.references.insert(k, v);
                proof {
                    assert forall|q: Seq<char>| self.references@.dom().contains(q) <==> (exists|j: int| p <= j < n
                        && #[trigger] entries[j].0@ == q && entries[j].1@.expires_at > now) by {
                        if q != entries[p].0@ && self.references@.dom().contains(q) {
                            let j = choose|j: int| p + 1 <= j < n && #[trigger] entries[j].0@ == q && entries[j].1@.expires_at > now;
                        }
                        if (exists|j: int| p <= j < n && #[trigger] entries[j].0@ == q && entries[j].1@.expires_at > now) && q != entries[p].0@ {
                            let j = choose|j: int| p <= j < n && #[trigger] entries[j].0@ == q && entries[j].1@.expires_at > now;
                            assert(j != p);
                        }
                    }
                }
            } else {
                dropped = dropped + 1;
                proof {
                    assert forall|q: Seq<char>| self.references@.dom().contains(q) <==> (exists|j: int| p <= j < n
                        && #[trigger] entries[j].0@ == q && entries[j].1@.expires_at > now) by {
                        if self.references@.dom().contains(q) {
                            let j = choose|j: int| p + 1 <= j < n && #[trigger] entries[j].0@ == q && entries[j].1@.expires_at > now;
                        }
                        if exists|j: int| p <= j < n && #[trigger] entries[j].0@ == q && entries[j].1@.expires_at > now {
                            let j = choose|j: int| p <= j < n && #[trigger] entries[j].0@ == q && entries[j].1@.expires_at > now;
                            assert(j != p);
                        }
                    }
                }
            }
        }
        proof {
            self.references.lemma_len();
            let want = unexpired(old_table@, now);
            assert forall|q: Seq<char>| self.references@.dom().contains(q) <==> want.dom().contains(q) by {
                if self.references@.dom().contains(q) {
                    let j = choose|j: int| 0 <= j < n && #[trigger] entries[j].0@ == q && entries[j].1@.expires_at > now;
                    old_table.lemma_entry(j);
                }
                if want.dom().contains(q) {
                    old_table.lemma_key_has_entry(q);
                    let j = choose|j: int| 0 <= j < n && #[trigger] entries[j].0@ == q;
                    old_table.lemma_entry(j);
                }
            }
            assert(self.references@ =~= want);
        }
        Ok(dropped)
    }

    /// Drop every deposit reference that has expired by the clock: as
    /// `purge_expired_references_at` at the time read.
    pub fn purge_expired_references(&mut self) -> (r: Result<u64, WalletError>)
        requires
            old(self).wf(),
        ensures
            final(self).wf(),
            final(self).addresses() == old(self).addresses(),
            exists|now: i64| final(self).references() == unexpired(old(self).references(), now),
            r matches Ok(n) && n == old(self).references().dom().len() - final(self).references().dom().len(),
            final(self).balances() == old(self).balances(),
            final(self).ledger() == old(self).ledger(),
            final(self).encumbrances() == old(self).encumbrances(),
            final(self).api_keys() == old(self).api_keys(),
    {
        let now = crate::audit::now_millis();
        self.purge_expired_references_at(now)
    }

    fn read_key(key_id: &String, e: &ApiKeyEntry) -> (c: ApiKeyCapability)
        ensures
            key_read_back(key_id@, e@, c),
    {
        proof {
            reveal_strlit("transparent");
        }
        ApiKeyCapability {
            wallet_id: e.wallet_id.clone(),
            key_id: key_id.clone(),
            public_key: e.public_key,
            spending_limit_rj: e.spending_limit_rj,
            spent_rj: e.spent_rj,
            scope: copy_texts(&e.scope),
            purpose: e.purpose.clone(),
            expiry: e.expiry,
            issued_at: e.issued_at,
            privacy_mode: String::from_str("transparent"),
            preferred_chain: None,
        }
    }

    /// Keep an API key, not revoked. Fails, changing nothing, when its key
    /// id is already held.
    pub fn store_api_key(&mut self, capability: &ApiKeyCapability) -> (r: Result<(), WalletError>)
        requires
            old(self).wf(),
        ensures
            final(self).wf(),
            final(self).addresses() == old(self).addresses(),
            old(self).api_keys().dom().contains(capability.key_id@) ==> (r matches Err(WalletError::Database(_))
                && final(self).api_keys() == old(self).api_keys()),
            !old(self).api_keys().dom().contains(capability.key_id@) ==> (r is Ok
                && final(self).api_keys() == old(self).api_keys().insert(capability.key_id@, key_entry_of(*capability))),
            final(self).balances() == old(self).balances(),
            final(self).ledger() == old(self).ledger(),
            final(self).encumbrances() == old(self).encumbrances(),
            final(self).references() == old(self).references(),
    {
        if self.api_keys.get(capability.key_id.as_str()).is_some() {
            return Err(WalletError::Database(String::from_str("UNIQUE constraint failed: api_keys.key_id")));
        }
        let entry = ApiKeyEntry {
            wallet_id: capability.wallet_id.clone(),
            public_key: capability.public_key,
            spending_limit_rj: capability.spending_limit_rj,
            spent_rj: capability.spent_rj,
            scope: copy_texts(&capability.scope),
            purpose: capability.purpose.clone(),
            expiry: capability.expiry,
            issued_at: capability.issued_at,
            revoked_at: None,
        };
        self.api_keys.insert(capability.key_id.clone(), entry);
        Ok(())
    }

    /// The API key held under `key_id`, revoked or not.
    pub fn get_api_key(&self, key_id: &str) -> (r: Result<Option<ApiKeyCapability>, WalletError>)
        requires
            self.wf(),
        ensures
            self.api_keys().dom().contains(key_id@) ==> (r matches Ok(Some(c))
                && key_read_back(key_id@, self.api_keys()[key_id@], c)),
            !self.api_keys().dom().contains(key_id@) ==> r matches Ok(None),
    {
        match self.api_keys.position(key_id) {
            Some(i) => {
                proof {
                    self.api_keys.lemma_entry(i as int);
                }
                Ok(Some(Self::read_key(self.api_keys.key_at(i), self.api_keys.value_at(i))))
            },
            None => Ok(None),
        }
    }

    /// An API key, not revoked, whose public key is `public_key`.
    pub fn get_api_key_by_public_key(&self, public_key: &[u8]) -> (r: Result<Option<ApiKeyCapability>, WalletError>)
        requires
            self.wf(),
        ensures
            r is Ok,
            r matches Ok(Some(c)) ==> self.api_keys().dom().contains(c.key_id@)
                && self.api_keys()[c.key_id@].public_key == public_key@
                && self.api_keys()[c.key_id@].revoked_at is None
                && key_read_back(c.key_id@, self.api_keys()[c.key_id@], c),
            r matches Ok(None) ==> forall|k: Seq<char>| #[trigger] self.api_keys().dom().contains(k)
                ==> !(self.api_keys()[k].public_key == public_key@ && self.api_keys()[k].revoked_at is None),
    {
        let n = self.api_keys.len();
        let mut i: usize = 0;
        while i < n
            invariant
                self.api_keys.wf(),
                n == self.api_keys.entries().len(),
                i <= n,
                forall|j: int| 0 <= j < i ==> !(#[trigger] self.api_keys.entries()[j].1@.public_key == public_key@
                    && self.api_keys.entries()[j].1@.revoked_at is None),
            decreases n - i,
        {
            let e = self.api_keys.value_at(i);
            if e.revoked_at.is_none() && same_bytes(&e.public_key, public_key) {
                proof {
                    self.api_keys.lemma_entry(i as int);
                }
                return Ok(Some(Self::read_key(self.api_keys.key_at(i), e)));
            }
            i = i + 1;
        }
        proof {
            assert forall|k: Seq<char>| #[trigger] self.api_keys().dom().contains(k)
                implies !(self.api_keys()[k].public_key == public_key@ && self.api_keys()[k].revoked_at is None) by {
                self.api_keys.lemma_key_has_entry(k);
                let j = choose|j: int| 0 <= j < n && #[trigger] self.api_keys.entries()[j].0@ == k;
                self.api_keys.lemma_entry(j);
            }
        }
        Ok(None)
    }

    /// Set the rJoules spent through key `key_id`, where it is held.
    pub fn update_spent_rj(&mut self, key_id: &str, spent: u64) -> (r: Result<(), WalletError>)
        requires
            old(self).wf(),
        ensures
            final(self).wf(),
            final(self).addresses() == old(self).addresses(),
            r is Ok,
            old(self).api_keys().dom().contains(key_id@) ==> final(self).api_keys() == old(self).api_keys().insert(key_id@,
                ApiKeyView { spent_rj: spent, ..old(self).api_keys()[key_id@] }),
            !old(self).api_keys().dom().contains(key_id@) ==> final(self).api_keys() == old(self).api_keys(),
            final(self).balances() == old(self).balances(),
            final(self).ledger() == old(self).ledger(),
            final(self).encumbrances() == old(self).encumbrances(),
            final(self).references() == old(self).references(),
    {
        match self.api_keys.position(key_id) {
            Some(i) => {
                proof {
                    self.api_keys.lemma_entry(i as int);
                }
                let e = self.api_keys.value_at(i);
                let entry = ApiKeyEntry {
                    wallet_id: e.wallet_id.clone(),
                    public_key: e.public_key,
                    spending_limit_rj: e.spending_limit_rj,
                    spent_rj: spent,
                    scope: copy_texts(&e.scope),
                    purpose: e.purpose.clone(),
                    expiry: e.expiry,
                    issued_at: e.issued_at,
                    revoked_at: e.revoked_at,
                };
                self.api_keys.insert(String::from_str(key_id), entry);
            },
            None => {},
        }
        Ok(())
    }

    /// Revoke key `key_id` and give back to its wallet what the key had
    /// left to spend. A key not held, or already revoked, is left as it is.
    /// Fails, changing nothing, where the wallet's new balance would not fit
    /// the stored column.
    pub fn revoke_api_key(&mut self, key_id: &str) -> (r: Result<(), WalletError>)
        requires
            old(self).wf(),
        ensures
            final(self).wf(),
            final(self).addresses() == old(self).addresses(),
            revoke_post(*old(self), *final(self), key_id@, r),
            final(self).ledger() == old(self).ledger(),
            final(self).encumbrances() == old(self).encumbrances(),
            final(self).references() == old(self).references(),
    {
        let i = match self.api_keys.position(key_id) {
            Some(i) => i,
            None => return Ok(()),
        };
        proof {
            self.api_keys.lemma_entry(i as int);
        }
        let e = self.api_keys.value_at(i);
        if e.revoked_at.is_some() {
            return Ok(());
        }
        let unspent: u64 = if e.spending_limit_rj > e.spent_rj { e.spending_limit_rj - e.spent_rj } else { 0 };
        let wallet = e.wallet_id.clone();
        let refund_to = if unspent > 0 { self.balance_of(wallet.as_str()) } else { None };
        if let Some(b) = refund_to {
            if unspent > 0x7fff_ffff_ffff_ffffu64 - b {
                return Err(WalletError::Database(String::from_str("integer overflow")));
            }
        }
        let entry = ApiKeyEntry {
            wallet_id: e.wallet_id.clone(),
            public_key: e.public_key,
            spending_limit_rj: e.spending_limit_rj,
            spent_rj: e.spent_rj,
            scope: copy_texts(&e.scope),
            purpose: e.purpose.clone(),
            expiry: e.expiry,
            issued_at: e.issued_at,
            revoked_at: Some(crate::audit::now_millis()),
        };
        self.api_keys.insert(String::from_str(key_id), entry);
        if let Some(b) = refund_to {
            self.set_balance(wallet.as_str(), b + unspent);
        }
        Ok(())
    }

    /// Set `amount_rj` aside from `wallet_id` for key `key_id`. Fails,
    /// changing nothing, when the key already has an active encumbrance,
    /// or when the wallet is not held or holds less than `amount_rj`.
    pub fn encumber_rjoules(&mut self, wallet_id: &str, key_id: &str, amount_rj: u64) -> (r: Result<(), WalletError>)
        requires
            old(self).wf(),
            amount_rj <= i64::MAX,
        ensures
            final(self).wf(),
            final(self).addresses() == old(self).addresses(),
            ({
                let encs = old(self).encumbrances();
                let bals = old(self).balances();
                if active_in(encs, key_id@) {
                    r matches Err(WalletError::EncumbranceAlreadyExists { key_id: k }) && k@ == key_id@
                        && final(self).encumbrances() == encs && final(self).balances() == bals
                } else if !(bals.dom().contains(wallet_id@) && bals[wallet_id@] >= amount_rj) {
                    r matches Err(WalletError::InsufficientBalance { have, need }) && have == balance_in(bals, wallet_id@)
                        && need == amount_rj && final(self).encumbrances() == encs && final(self).balances() == bals
                } else {
                    &&& r is Ok
                    &&& final(self).balances() == bals.insert(wallet_id@, (bals[wallet_id@] - amount_rj) as u64)
                    &&& final(self).encumbrances().dom().contains(key_id@)
                    &&& final(self).encumbrances() == encs.insert(key_id@, EncumbranceView {
                        wallet_id: wallet_id@,
                        amount_rj,
                        consumed_rj: 0,
                        status: EncumbranceStatus::Active,
                        created_at: final(self).encumbrances()[key_id@].created_at,
                        released_at: None,
                    })
                }
            }),
            final(self).ledger() == old(self).ledger(),
            final(self).references() == old(self).references(),
            final(self).api_keys() == old(self).api_keys(),
    {
        match self.encumbrances.get(key_id) {
            Some(e) => {
                if e.status == EncumbranceStatus::Active {
                    return Err(WalletError::EncumbranceAlreadyExists { key_id: String::from_str(key_id) });
                }
            },
            None => {},
        }
        let have = match self.balance_of(wallet_id) {
            Some(b) => b,
            None => 0,
        };
        if self.balance_of(wallet_id).is_none() || have < amount_rj {
            return Err(WalletError::InsufficientBalance { have, need: amount_rj });
        }
        self.set_balance(wallet_id, have - amount_rj);
        let entry = EncumbranceEntry {
            wallet_id: String::from_str(wallet_id),
            amount_rj,
            consumed_rj: 0,
            status: EncumbranceStatus::Active,
            created_at: crate::audit::now_millis(),
            released_at: None,
        };
        self.encumbrances.insert(String::from_str(key_id), entry);
        Ok(())
    }

    /// Release the active encumbrance of `key_id`, giving back to its
    /// wallet what it had left; releasing a key with no active encumbrance
    /// changes nothing.
    pub fn release_encumbrance(&mut self, key_id: &str) -> (r: Result<(), WalletError>)
        requires
            old(self).wf(),
        ensures
            final(self).wf(),
            final(self).addresses() == old(self).addresses(),
            release_post(*old(self), *final(self), key_id@, r),
            final(self).ledger() == old(self).ledger(),
            final(self).references() == old(self).references(),
            final(self).api_keys() == old(self).api_keys(),
    {
        let i = match self.encumbrances.position(key_id) {
            Some(i) => i,
            None => return Ok(()),
        };
        proof {
            self.encumbrances.lemma_entry(i as int);
        }
        let e = self.encumbrances.value_at(i);
        if e.status != EncumbranceStatus::Active {
            return Ok(());
        }
        let unspent: u64 = e.amount_rj - e.consumed_rj;
        let wallet = e.wallet_id.clone();
        let refund_to = if unspent > 0 { self.balance_of(wallet.as_str()) } else { None };
        if let Some(b) = refund_to {
            if unspent > 0x7fff_ffff_ffff_ffffu64 - b {
                return Err(WalletError::Database(String::from_str("integer overflow")));
            }
        }
        let entry = EncumbranceEntry {
            wallet_id: e.wallet_id.clone(),
            amount_rj: e.amount_rj,
            consumed_rj: e.consumed_rj,
            status: EncumbranceStatus::Released,
            created_at: e.created_at,
            released_at: Some(crate::audit::now_millis()),
        };
        self.encumbrances.insert(String::from_str(key_id), entry);
        if let Some(b) = refund_to {
            self.set_balance(wallet.as_str(), b + unspent);
        }
        Ok(())
    }

    /// Consume `cost_rj` from the active encumbrance of `key_id`, adding it
    /// to what the key has spent; an encumbrance consumed in full turns
    /// `Consumed`. Fails, changing nothing, when the key has no active
    /// encumbrance, when it has less left than `cost_rj`, or when what the
    /// key has spent would not fit the stored column.
    pub fn consume_encumbrance(&mut self, key_id: &str, cost_rj: u64) -> (r: Result<(), WalletError>)
        requires
            old(self).wf(),
            cost_rj <= i64::MAX,
        ensures
            final(self).wf(),
            final(self).addresses() == old(self).addresses(),
            ({
                let encs = old(self).encumbrances();
                let keys = old(self).api_keys();
                let k = key_id@;
                if !active_in(encs, k) {
                    r matches Err(WalletError::EncumbranceNotFound { key_id: x }) && x@ == k
                        && final(self).encumbrances() == encs && final(self).api_keys() == keys
                } else if remaining(encs[k]) < cost_rj {
                    r matches Err(WalletError::EncumbranceInsufficient { key_id: x, remaining: left, need })
                        && x@ == k && left == remaining(encs[k]) && need == cost_rj
                        && final(self).encumbrances() == encs && final(self).api_keys() == keys
                } else if keys.dom().contains(k) && keys[k].spent_rj + cost_rj > column_max() {
                    r matches Err(WalletError::Database(_)) && final(self).encumbrances() == encs && final(self).api_keys() == keys
                } else {
                    let used = (encs[k].consumed_rj + cost_rj) as u64;
                    &&& r is Ok
                    &&& final(self).encumbrances().dom().contains(k)
                    &&& final(self).encumbrances() == encs.insert(k, EncumbranceView {
                        consumed_rj: used,
                        status: if used >= encs[k].amount_rj { EncumbranceStatus::Consumed } else { EncumbranceStatus::Active },
                        released_at: if used >= encs[k].amount_rj { final(self).encumbrances()[k].released_at } else { encs[k].released_at },
                        ..encs[k]
                    })
                    &&& used >= encs[k].amount_rj ==> final(self).encumbrances()[k].released_at is Some
                    &&& keys.dom().contains(k) ==> final(self).api_keys() == keys.insert(k,
                        ApiKeyView { spent_rj: (keys[k].spent_rj + cost_rj) as u64, ..keys[k] })
                    &&& !keys.dom().contains(k) ==> final(self).api_keys() == keys
                }
            }),
            final(self).balances() == old(self).balances(),
            final(self).ledger() == old(self).ledger(),
            final(self).references() == old(self).references(),
    {
        let i = match self.encumbrances.position(key_id) {
            Some(i) => i,
            None => return Err(WalletError::EncumbranceNotFound { key_id: String::from_str(key_id) }),
        };
        proof {
            self.encumbrances.lemma_entry(i as int);
        }
        let e = self.encumbrances.value_at(i);
        if e.status != EncumbranceStatus::Active {
            return Err(WalletError::EncumbranceNotFound { key_id: String::from_str(key_id) });
        }
        let left: u64 = e.amount_rj - e.consumed_rj;
        if left < cost_rj {
            return Err(WalletError::EncumbranceInsufficient { key_id: String::from_str(key_id), remaining: left, need: cost_rj });
        }
        let key_pos = self.api_keys.position(key_id);
        if let Some(j) = key_pos {
            proof {
                self.api_keys.lemma_entry(j as int);
            }
            if self.api_keys.value_at(j).spent_rj > 0x7fff_ffff_ffff_ffffu64 - cost_rj {
                return Err(WalletError::Database(String::from_str("integer overflow")));
            }
        }
        let used = e.consumed_rj + cost_rj;
        let done = used >= e.amount_rj;
        let entry = EncumbranceEntry {
            wallet_id: e.wallet_id.clone(),
            amount_rj: e.amount_rj,
            consumed_rj: used,
            status: if done { EncumbranceStatus::Consumed } else { EncumbranceStatus::Active },
            created_at: e.created_at,
            released_at: if done { Some(crate::audit::now_millis()) } else { e.released_at },
        };
        self.encumbrances.insert(String::from_str(key_id), entry);
        if let Some(j) = key_pos {
            let k = self.api_keys.value_at(j);
            let entry = ApiKeyEntry {
                wallet_id: k.wallet_id.clone(),
                public_key: k.public_key,
                spending_limit_rj: k.spending_limit_rj,
                spent_rj: k.spent_rj + cost_rj,
                scope: copy_texts(&k.scope),
                purpose: k.purpose.clone(),
                expiry: k.expiry,
                issued_at: k.issued_at,
                revoked_at: k.revoked_at,
            };
            self.api_keys.insert(String::from_str(key_id), entry);
        }
        Ok(())
    }

    /// The encumbrance held for `key_id`, whatever its state.
    pub fn get_encumbrance(&self, key_id: &str) -> (r: Result<Option<Encumbrance>, WalletError>)
        requires
            self.wf(),
        ensures
            self.encumbrances().dom().contains(key_id@) ==> (r matches Ok(Some(e)) && e.key_id@ == key_id@ && ({
                let v = self.encumbrances()[key_id@];
                &&& e.wallet_id@ == v.wallet_id
                &&& e.amount_rj == v.amount_rj
                &&& e.consumed_rj == v.consumed_rj
                &&& e.status == v.status
                &&& e.created_at == v.created_at
                &&& e.released_at == v.released_at
            })),
            !self.encumbrances().dom().contains(key_id@) ==> r matches Ok(None),
    {
        match self.encumbrances.get(key_id) {
            Some(v) => Ok(Some(Encumbrance {
                key_id: String::from_str(key_id),
                wallet_id: v.wallet_id.clone(),
                amount_rj: v.amount_rj,
                consumed_rj: v.consumed_rj,
                status: v.status,
                created_at: v.created_at,
                released_at: v.released_at,
            })),
            None => Ok(None),
        }
    }

    /// Keep deposit address `address` of `wallet_id` at derivation index
    /// `index`, on `hedera`, `transparent`; an address already held is
    /// left as it is.
    pub fn store_deposit_address(&mut self, wallet_id: &str, address: &str, index: u64) -> (r: Result<(), WalletError>)
        requires
            old(self).wf(),
        ensures
            final(self).wf(),
            r is Ok,
            old(self).addresses().dom().contains(address@) ==> final(self).addresses() == old(self).addresses(),
            !old(self).addresses().dom().contains(address@) ==> final(self).addresses() == old(self).addresses().insert(address@,
                AddressView { wallet_id: wallet_id@, chain: "hedera"@, derivation_index: index as i64, privacy_mode: "transparent"@ }),
            final(self).balances() == old(self).balances(),
            final(self).ledger() == old(self).ledger(),
            final(self).encumbrances() == old(self).encumbrances(),
            final(self).references() == old(self).references(),
            final(self).api_keys() == old(self).api_keys(),
    {
        if self.addresses.get(address).is_some() {
            return Ok(());
        }
        let entry = AddressEntry {
            wallet_id: String::from_str(wallet_id),
            chain: String::from_str("hedera"),
            derivation_index: #[verifier::truncate] (index as i64),
            privacy_mode: String::from_str("transparent"),
        };
        self.addresses.insert(String::from_str(address), entry);
        Ok(())
    }

    /// The deposit addresses of `wallet_id`, by derivation index, each once.
    pub fn get_deposit_addresses(&self, wallet_id: &str) -> (r: Result<Vec<DepositAddress>, WalletError>)
        requires
            self.wf(),
        ensures
            r matches Ok(v) && addresses_listed(self.addresses(), wallet_id@, v@),
    {
        let t = &self.addresses;
        let n = t.len();
        let mut at: Vec<usize> = Vec::new();
        let mut keys: Vec<i64> = Vec::new();
        let mut i: usize = 0;
        while i < n
            invariant
                n == t.entries().len(),
                i <= n,
                at@.len() == keys@.len(),
                forall|j: int| 0 <= j < at@.len() ==> #[trigger] at@[j] < i && t.entries()[at@[j] as int].1.wallet_id@ == wallet_id@
                    && keys@[j] == t.entries()[at@[j] as int].1.derivation_index,
                forall|j: int, l: int| 0 <= j < l < at@.len() ==> at@[j] < at@[l],
                forall|p: int| 0 <= p < i && #[trigger] t.entries()[p].1.wallet_id@ == wallet_id@ ==> crate::sorting::listed(at@, p),
            decreases n - i,
        {
            let e = t.value_at(i);
            let ghost at0 = at@;
            if crate::text::str_eq(e.wallet_id.as_str(), wallet_id) {
                at.push(i);
                keys.push(e.derivation_index);
            }
            proof {
                assert forall|p: int| 0 <= p < i + 1 && #[trigger] t.entries()[p].1.wallet_id@ == wallet_id@
                    implies crate::sorting::listed(at@, p) by {
                    if p == i {
                        assert(at@[at@.len() - 1] == p);
                    } else {
                        assert(crate::sorting::listed(at0, p));
                        let j = choose|j: int| 0 <= j < at0.len() && #[trigger] at0[j] == p;
                        assert(at@[j] == p);
                    }
                }
            }
            i = i + 1;
        }
        let order = crate::sorting::order_by_key(&keys, false);
        let mut out: Vec<DepositAddress> = Vec::new();
        let mut k: usize = 0;
        proof {
            reveal_strlit("hedera");
            reveal_strlit("transparent");
        }
        while k < order.len()
            invariant
                n == t.entries().len(),
                at@.len() == keys@.len(),
                forall|j: int| 0 <= j < at@.len() ==> #[trigger] at@[j] < n && t.entries()[at@[j] as int].1.wallet_id@ == wallet_id@
                    && keys@[j] == t.entries()[at@[j] as int].1.derivation_index,
                crate::sorting::sorted_positions(keys@, false, order@),
                k <= order@.len(),
                out@.len() == k,
                forall|j: int| 0 <= j < k ==> #[trigger] out@[j].address@ == t.entries()[at@[order@[j] as int] as int].0@
                    && hedera_transparent(out@[j]),
            decreases order@.len() - k,
        {
            let p = at[order[k]];
            let ghost out0 = out@;
            out.push(DepositAddress {
                address: t.key_at(p).clone(),
                chain: String::from_str("hedera"),
                privacy_mode: String::from_str("transparent"),
            });
            proof {
                assert forall|j: int| 0 <= j < k + 1 implies #[trigger] out@[j].address@ == t.entries()[at@[order@[j] as int] as int].0@
                    && hedera_transparent(out@[j]) by {
                    if j < k {
                        assert(out@[j] == out0[j]);
                    }
                }
            }
            k = k + 1;
        }
        proof {
            let es = t.entries();
            let m = self.addresses();
            assert forall|i: int| 0 <= i < out@.len() implies #[trigger] hedera_transparent(out@[i]) by {
                assert(out@[i].address@ == es[at@[order@[i] as int] as int].0@);
            }
            assert forall|i: int| 0 <= i < out@.len() implies m.dom().contains(#[trigger] out@[i].address@)
                && m[out@[i].address@].wallet_id == wallet_id@ by {
                t.lemma_entry(at@[order@[i] as int] as int);
            }
            assert forall|q: Seq<char>| #[trigger] m.dom().contains(q) && m[q].wallet_id == wallet_id@
                implies exists|i: int| 0 <= i < out@.len() && #[trigger] out@[i].address@ == q by {
                t.lemma_key_has_entry(q);
                let p = choose|p: int| 0 <= p < n && #[trigger] es[p].0@ == q;
                t.lemma_entry(p);
                assert(crate::sorting::listed(at@, p));
                let j = choose|j: int| 0 <= j < at@.len() && #[trigger] at@[j] == p;
                assert(crate::sorting::listed(order@, j));
                let i = choose|i: int| 0 <= i < order@.len() && #[trigger] order@[i] == j;
                assert(out@[i].address@ == q);
            }
            assert forall|a: int, b: int| 0 <= a < b < out@.len() implies out@[a].address@ != out@[b].address@ by {
                assert(crate::sorting::goes_before(keys@, false, order@[a] as int, order@[b] as int));
                if order@[a] < order@[b] {
                    assert(at@[order@[a] as int] < at@[order@[b] as int]);
                } else {
                    assert(at@[order@[b] as int] < at@[order@[a] as int]);
                }
                t.lemma_distinct(at@[order@[a] as int] as int, at@[order@[b] as int] as int);
            }
            assert forall|a: int, b: int| 0 <= a < b < out@.len()
                implies m[out@[a].address@].derivation_index <= m[out@[b].address@].derivation_index by {
                assert(crate::sorting::goes_before(keys@, false, order@[a] as int, order@[b] as int));
                t.lemma_entry(at@[order@[a] as int] as int);
                t.lemma_entry(at@[order@[b] as int] as int);
            }
            assert(addresses_listed(m, wallet_id@, out@));
        }
        Ok(out)
    }

    /// The wallet that owns deposit address `address`, if any.
    pub fn resolve_wallet_for_address(&self, address: &str) -> (r: Result<Option<String>, WalletError>)
        requires
            self.wf(),
        ensures
            self.addresses().dom().contains(address@) ==> (r matches Ok(Some(w)) && w@ == self.addresses()[address@].wallet_id),
            !self.addresses().dom().contains(address@) ==> r matches Ok(None),
    {
        match self.addresses.get(address) {
            Some(e) => Ok(Some(e.wallet_id.clone())),
            None => Ok(None),
        }
    }

    /// The keys of `wallet_id` not revoked, most recently issued first,
    /// each once.
    pub fn list_api_keys(&self, wallet_id: &str) -> (r: Result<Vec<ApiKeyCapability>, WalletError>)
        requires
            self.wf(),
        ensures
            r matches Ok(v) && keys_listed(self.api_keys(), wallet_id@, v@),
    {
        let t = &self.api_keys;
        let n = t.len();
        let mut at: Vec<usize> = Vec::new();
        let mut keys: Vec<i64> = Vec::new();
        let mut i: usize = 0;
        while i < n
            invariant
                n == t.entries().len(),
                i <= n,
                at@.len() == keys@.len(),
                forall|j: int| 0 <= j < at@.len() ==> #[trigger] at@[j] < i && t.entries()[at@[j] as int].1.wallet_id@ == wallet_id@
                    && t.entries()[at@[j] as int].1.revoked_at is None
                    && keys@[j] == t.entries()[at@[j] as int].1.issued_at,
                forall|j: int, l: int| 0 <= j < l < at@.len() ==> at@[j] < at@[l],
                forall|p: int| 0 <= p < i && #[trigger] t.entries()[p].1.wallet_id@ == wallet_id@ && t.entries()[p].1.revoked_at is None
                    ==> crate::sorting::listed(at@, p),
            decreases n - i,
        {
            let e = t.value_at(i);
            let ghost at0 = at@;
            if e.revoked_at.is_none() && crate::text::str_eq(e.wallet_id.as_str(), wallet_id) {
                at.push(i);
                keys.push(e.issued_at);
            }
            proof {
                assert forall|p: int| 0 <= p < i + 1 && #[trigger] t.entries()[p].1.wallet_id@ == wallet_id@
                    && t.entries()[p].1.revoked_at is None implies crate::sorting::listed(at@, p) by {
                    if p == i {
                        assert(at@[at@.len() - 1] == p);
                    } else {
                        assert(crate::sorting::listed(at0, p));
                        let j = choose|j: int| 0 <= j < at0.len() && #[trigger] at0[j] == p;
                        assert(at@[j] == p);
                    }
                }
            }
            i = i + 1;
        }
        let order = crate::sorting::order_by_key(&keys, true);
        let mut out: Vec<ApiKeyCapability> = Vec::new();
        let mut k: usize = 0;
        while k < order.len()
            invariant
                n == t.entries().len(),
                at@.len() == keys@.len(),
                forall|j: int| 0 <= j < at@.len() ==> #[trigger] at@[j] < n
                    && keys@[j] == t.entries()[at@[j] as int].1.issued_at,
                crate::sorting::sorted_positions(keys@, true, order@),
                k <= order@.len(),
                out@.len() == k,
                forall|j: int| 0 <= j < k ==> #[trigger] out@[j].key_id@ == t.entries()[at@[order@[j] as int] as int].0@
                    && key_read_back(out@[j].key_id@, t.entries()[at@[order@[j] as int] as int].1@, out@[j]),
            decreases order@.len() - k,
        {
            let p = at[order[k]];
            let ghost out0 = out@;
            out.push(Self::read_key(t.key_at(p), t.value_at(p)));
            proof {
                assert forall|j: int| 0 <= j < k + 1 implies #[trigger] out@[j].key_id@ == t.entries()[at@[order@[j] as int] as int].0@
                    && key_read_back(out@[j].key_id@, t.entries()[at@[order@[j] as int] as int].1@, out@[j]) by {
                    if j < k {
                        assert(out@[j] == out0[j]);
                    }
                }
            }
            k = k + 1;
        }
        proof {
            let es = t.entries();
            let m = self.api_keys();
            assert forall|i: int| 0 <= i < out@.len() implies m.dom().contains(#[trigger] out@[i].key_id@)
                && m[out@[i].key_id@].wallet_id == wallet_id@ && m[out@[i].key_id@].revoked_at is None
                && key_read_back(out@[i].key_id@, m[out@[i].key_id@], out@[i]) by {
                t.lemma_entry(at@[order@[i] as int] as int);
            }
            assert forall|q: Seq<char>| #[trigger] m.dom().contains(q) && m[q].wallet_id == wallet_id@ && m[q].revoked_at is None
                implies exists|i: int| 0 <= i < out@.len() && #[trigger] out@[i].key_id@ == q by {
                t.lemma_key_has_entry(q);
                let p = choose|p: int| 0 <= p < n && #[trigger] es[p].0@ == q;
                t.lemma_entry(p);
                assert(crate::sorting::listed(at@, p));
                let j = choose|j: int| 0 <= j < at@.len() && #[trigger] at@[j] == p;
                assert(crate::sorting::listed(order@, j));
                let i = choose|i: int| 0 <= i < order@.len() && #[trigger] order@[i] == j;
                assert(out@[i].key_id@ == q);
            }
            assert forall|a: int, b: int| 0 <= a < b < out@.len() implies out@[a].key_id@ != out@[b].key_id@ by {
                assert(crate::sorting::goes_before(keys@, true, order@[a] as int, order@[b] as int));
                if order@[a] < order@[b] {
                    assert(at@[order@[a] as int] < at@[order@[b] as int]);
                } else {
                    assert(at@[order@[b] as int] < at@[order@[a] as int]);
                }
                t.lemma_distinct(at@[order@[a] as int] as int, at@[order@[b] as int] as int);
            }
            assert forall|a: int, b: int| 0 <= a < b < out@.len() implies out@[a].issued_at >= out@[b].issued_at by {
                assert(crate::sorting::goes_before(keys@, true, order@[a] as int, order@[b] as int));
            }
            assert(keys_listed(m, wallet_id@, out@));
        }
        Ok(out)
    }
}

/// Releasing the same key twice gives back its rJoules once: a release
/// that succeeded leaves nothing for a second release to change.
pub proof fn lemma_release_idempotent(
    a: WalletStore,
    b: WalletStore,
    c: WalletStore,
    k: Seq<char>,
    r1: Result<(), WalletError>,
    r2: Result<(), WalletError>,
)
    requires
        release_post(a, b, k, r1),
        r1 is Ok,
        release_post(b, c, k, r2),
    ensures
        r2 is Ok,
        c.encumbrances() == b.encumbrances(),
        c.balances() == b.balances(),
{
    if active_in(a.encumbrances(), k) {
        assert(b.encumbrances()[k].status == EncumbranceStatus::Released);
    }
}

/// Revoking the same key twice gives back its unspent rJoules once: a
/// revocation that succeeded leaves nothing for a second one to change.
pub proof fn lemma_revoke_idempotent(
    a: WalletStore,
    b: WalletStore,
    c: WalletStore,
    k: Seq<char>,
    r1: Result<(), WalletError>,
    r2: Result<(), WalletError>,
)
    requires
        revoke_post(a, b, k, r1),
        r1 is Ok,
        revoke_post(b, c, k, r2),
    ensures
        r2 is Ok,
        c.api_keys() == b.api_keys(),
        c.balances() == b.balances(),
{
}

/// A deposit reference is consumed at most once: once consumed, it cannot
/// be consumed again, at any time.
pub proof fn lemma_reference_single_use(refs: Map<Seq<char>, ReferenceView>, k: Seq<char>, t1: i64, t2: i64)
    requires
        can_consume(refs, k, t1),
    ensures
        !can_consume(after_consume(refs, k, t1), k, t2),
{
}

/// Holding a wallet twice is holding it once.
pub proof fn lemma_ensure_wallet_idempotent(m: Map<Seq<char>, u64>, w: Seq<char>)
    ensures
        with_wallet(with_wallet(m, w), w) == with_wallet(m, w),
{
}

} // verus!

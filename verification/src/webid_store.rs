//! The WebID capability store: each WebID with the capabilities issued to
//! it, when it was first stored and last used, and whether it is active.
//! Times are seconds since 1970, UTC.
use vstd::prelude::*;
use vstd::string::*;
use crate::keyed::KeyedTable;

verus! {

/// Why a store operation failed.
#[derive(Debug, Clone)]
pub enum WebIDStoreError {
    Database(String),
    Serialization(String),
    WebIDNotFound(String),
    HexDecode(String),
}

/// The text of a store error.
pub open spec fn webid_error_text(e: WebIDStoreError) -> Seq<char> {
    match e {
        WebIDStoreError::Database(m) => "Database error: "@ + m@,
        WebIDStoreError::Serialization(m) => "Serialization error: "@ + m@,
        WebIDStoreError::WebIDNotFound(m) => "WebID not found: "@ + m@,
        WebIDStoreError::HexDecode(m) => "Hex decode error: "@ + m@,
    }
}

impl WebIDStoreError {
    /// The error's text.
    pub fn message(&self) -> (r: String)
        ensures
            r@ == webid_error_text(*self),
    {
        let (head, m) = match self {
            WebIDStoreError::Database(m) => ("Database error: ", m),
            WebIDStoreError::Serialization(m) => ("Serialization error: ", m),
            WebIDStoreError::WebIDNotFound(m) => ("WebID not found: ", m),
            WebIDStoreError::HexDecode(m) => ("Hex decode error: ", m),
        };
        let mut r = String::from_str(head);
        r.append(m.as_str());
        r
    }
}

/// A capability as it is stored: the macaroon as hex and what it grants.
#[derive(Debug, Clone)]
pub struct StoredCapability {
    pub macaroon_hex: String,
    pub operations: Vec<String>,
    pub issuer: String,
    pub subject: String,
    pub expires_at: Option<i64>,
    pub template_id: Option<String>,
    pub visibility: String,
}

/// The view of a stored capability.
pub struct CapabilityView {
    pub macaroon_hex: Seq<char>,
    pub operations: Seq<Seq<char>>,
    pub issuer: Seq<char>,
    pub subject: Seq<char>,
    pub expires_at: Option<i64>,
    pub template_id: Option<Seq<char>>,
    pub visibility: Seq<char>,
}

impl View for StoredCapability {
    type V = CapabilityView;

    open spec fn view(&self) -> CapabilityView {
        CapabilityView {
            macaroon_hex: self.macaroon_hex@,
            operations: crate::registry::texts_of(self.operations@),
            issuer: self.issuer@,
            subject: self.subject@,
            expires_at: self.expires_at,
            template_id: crate::wallet::opt_view(self.template_id),
            visibility: self.visibility@,
        }
    }
}

/// The views of a list of capabilities.
pub open spec fn capabilities_view(v: Seq<StoredCapability>) -> Seq<CapabilityView> {
    Seq::new(v.len(), |i: int| v[i]@)
}

/// A WebID with its capabilities.
#[derive(Debug, Clone)]
pub struct StoredWebIDEntry {
    pub webid: String,
    pub capabilities: Vec<StoredCapability>,
    pub created_at: i64,
    pub last_used_at: Option<i64>,
    pub active: bool,
}

/// Counts of stored WebIDs.
#[derive(Debug, Clone, Copy, PartialEq, Eq, Structural)]
pub struct WebIDStoreStats {
    pub total_entries: usize,
    pub active_entries: usize,
}

/// A WebID's row, as stored under the WebID.
#[derive(Debug)]
pub struct WebIDRow {
    pub capabilities: Vec<StoredCapability>,
    pub created_at: i64,
    pub last_used_at: Option<i64>,
    pub active: bool,
    pub updated_at: i64,
}

/// The view of a WebID's row; when it was last written is left out.
pub struct WebIDRowView {
    pub capabilities: Seq<CapabilityView>,
    pub created_at: i64,
    pub last_used_at: Option<i64>,
    pub active: bool,
}

impl View for WebIDRow {
    type V = WebIDRowView;

    open spec fn view(&self) -> WebIDRowView {
        WebIDRowView {
            capabilities: capabilities_view(self.capabilities@),
            created_at: self.created_at,
            last_used_at: self.last_used_at,
            active: self.active,
        }
    }
}

/// `e` is the row of WebID `w` as read back.
pub open spec fn entry_read_back(w: Seq<char>, v: WebIDRowView, e: StoredWebIDEntry) -> bool {
    &&& e.webid@ == w
    &&& capabilities_view(e.capabilities@) == v.capabilities
    &&& e.created_at == v.created_at
    &&& e.last_used_at == v.last_used_at
    &&& e.active == v.active
}

/// The WebIDs of `m` that are active.
pub open spec fn active_ids(m: Map<Seq<char>, WebIDRowView>) -> Set<Seq<char>> {
    m.dom().filter(|k: Seq<char>| m[k].active)
}

/// `v` lists the active entries of `m`, each once, as read back, most
/// recently created first.
pub open spec fn active_listed(m: Map<Seq<char>, WebIDRowView>, v: Seq<StoredWebIDEntry>) -> bool {
    &&& forall|i: int| 0 <= i < v.len() ==> active_ids(m).contains(#[trigger] v[i].webid@)
        && entry_read_back(v[i].webid@, m[v[i].webid@], v[i])
    &&& forall|k: Seq<char>| #[trigger] active_ids(m).contains(k) ==> exists|i: int| 0 <= i < v.len() && #[trigger] v[i].webid@ == k
    &&& forall|i: int, j: int| 0 <= i < j < v.len() ==> v[i].webid@ != v[j].webid@
    &&& forall|i: int, j: int| 0 <= i < j < v.len() ==> v[i].created_at >= v[j].created_at
}

fn copy_texts(v: &Vec<String>) -> (r: Vec<String>)
    ensures
        r@ == v@,
{
    let mut r: Vec<String> = Vec::new();
    let mut i: usize = 0;
    while i < v.len()
        invariant
            i <= v@.len(),
            r@ == v@.take(i as int),
        decreases v@.len() - i,
    {
        r.push(v[i].clone());
        proof {
            assert(v@.take(i + 1) =~= v@.take(i as int).push(v@[i as int]));
        }
        i = i + 1;
    }
    proof {
        assert(v@.take(v@.len() as int) =~= v@);
    }
    r
}

fn copy_text(o: &Option<String>) -> (r: Option<String>)
    ensures
        r == *o,
{
    match o {
        Some(s) => Some(s.clone()),
        None => None,
    }
}

fn copy_capabilities(v: &Vec<StoredCapability>) -> (r: Vec<StoredCapability>)
    ensures
        capabilities_view(r@) == capabilities_view(v@),
{
    let mut r: Vec<StoredCapability> = Vec::new();
    let mut i: usize = 0;
    while i < v.len()
        invariant
            i <= v@.len(),
            capabilities_view(r@) == capabilities_view(v@).take(i as int),
        decreases v@.len() - i,
    {
        let c = &v[i];
        let copy = StoredCapability {
            macaroon_hex: c.macaroon_hex.clone(),
            operations: copy_texts(&c.operations),
            issuer: c.issuer.clone(),
            subject: c.subject.clone(),
            expires_at: c.expires_at,
            template_id: copy_text(&c.template_id),
            visibility: c.visibility.clone(),
        };
        let ghost before = r@;
        r.push(copy);
        proof {
            assert(capabilities_view(r@) =~= capabilities_view(before).push(v@[i as int]@));
            assert(capabilities_view(v@).take(i + 1) =~= capabilities_view(v@).take(i as int).push(v@[i as int]@));
        }
        i = i + 1;
    }
    proof {
        assert(capabilities_view(v@).take(v@.len() as int) =~= capabilities_view(v@));
    }
    r
}

/// Calls `chrono::Utc::now` and takes its seconds since 1970: the current
/// time, which depends on the clock; nothing is stated of it.
#[verifier::external_body]
fn now_seconds() -> i64 {
    chrono::Utc::now().timestamp()
}

/// Some row of `es` before `bound` is active and holds `k`.
pub open spec fn active_below(es: Seq<(String, WebIDRow)>, bound: int, k: Seq<char>) -> bool {
    exists|p: int| 0 <= p < bound && es[p].0@ == k && es[p].1.active
}

/// The store; no WebID is held twice.
#[derive(Debug)]
pub struct WebIDStore {
    rows: KeyedTable<WebIDRow>,
}

impl WebIDStore {
    /// The row of each WebID held.
    pub closed spec fn entries(&self) -> Map<Seq<char>, WebIDRowView> {
        self.rows@
    }

    /// No WebID is held twice.
    pub closed spec fn wf(&self) -> bool {
        self.rows.wf()
    }

    /// An empty store.
    pub fn in_memory() -> (r: Result<WebIDStore, WebIDStoreError>)
        ensures
            r matches Ok(s) && s.wf() && s.entries() == Map::<Seq<char>, WebIDRowView>::empty(),
    {
        Ok(WebIDStore { rows: KeyedTable::new() })
    }

    fn read(webid: &String, row: &WebIDRow) -> (e: StoredWebIDEntry)
        ensures
            entry_read_back(webid@, row@, e),
    {
        StoredWebIDEntry {
            webid: webid.clone(),
            capabilities: copy_capabilities(&row.capabilities),
            created_at: row.created_at,
            last_used_at: row.last_used_at,
            active: row.active,
        }
    }

    /// Store `entry` under its WebID. A WebID already held keeps when it
    /// was first stored and takes the rest from `entry`.
    pub fn store(&mut self, entry: &StoredWebIDEntry) -> (r: Result<(), WebIDStoreError>)
        requires
            old(self).wf(),
        ensures
            final(self).wf(),
            r is Ok,
            final(self).entries() == old(self).entries().insert(entry.webid@, WebIDRowView {
                capabilities: capabilities_view(entry.capabilities@),
                created_at: if old(self).entries().dom().contains(entry.webid@) {
                    old(self).entries()[entry.webid@].created_at
                } else {
                    entry.created_at
                },
                last_used_at: entry.last_used_at,
                active: entry.active,
            }),
    {
        let created_at = match self.rows.get(entry.webid.as_str()) {
            Some(row) => row.created_at,
            None => entry.created_at,
        };
        let row = WebIDRow {
            capabilities: copy_capabilities(&entry.capabilities),
            created_at,
            last_used_at: entry.last_used_at,
            active: entry.active,
            updated_at: now_seconds(),
        };
        self.rows.insert(entry.webid.clone(), row);
        Ok(())
    }

    /// The entry of `webid`, or `None` when it is not held.
    pub fn get(&self, webid: &str) -> (r: Result<Option<StoredWebIDEntry>, WebIDStoreError>)
        requires
            self.wf(),
        ensures
            self.entries().dom().contains(webid@) ==> (r matches Ok(Some(e))
                && entry_read_back(webid@, self.entries()[webid@], e)),
            !self.entries().dom().contains(webid@) ==> r matches Ok(None),
    {
        match self.rows.position(webid) {
            Some(i) => {
                proof {
                    self.rows.lemma_entry(i as int);
                }
                Ok(Some(Self::read(self.rows.key_at(i), self.rows.value_at(i))))
            },
            None => Ok(None),
        }
    }

    /// Drop `webid` and its capabilities.
    pub fn delete(&mut self, webid: &str) -> (r: Result<(), WebIDStoreError>)
        requires
            old(self).wf(),
        ensures
            final(self).wf(),
            r is Ok,
            final(self).entries() == old(self).entries().remove(webid@),
    {
        match self.rows.position(webid) {
            Some(i) => {
                let _ = self.rows.remove_at(i);
            },
            None => {
                proof {
                    assert(old(self).entries().remove(webid@) =~= old(self).entries());
                }
            },
        }
        Ok(())
    }

    /// Record that `webid` was used now, by the clock; a WebID not held is
    /// left as it is.
    pub fn mark_used(&mut self, webid: &str) -> (r: Result<(), WebIDStoreError>)
        requires
            old(self).wf(),
        ensures
            final(self).wf(),
            r is Ok,
            old(self).entries().dom().contains(webid@) ==> ({
                &&& final(self).entries().dom().contains(webid@)
                &&& final(self).entries()[webid@].last_used_at is Some
                &&& final(self).entries() == old(self).entries().insert(webid@, WebIDRowView {
                    last_used_at: final(self).entries()[webid@].last_used_at,
                    ..old(self).entries()[webid@]
                })
            }),
            !old(self).entries().dom().contains(webid@) ==> final(self).entries() == old(self).entries(),
    {
        match self.rows.position(webid) {
            Some(i) => {
                proof {
                    self.rows.lemma_entry(i as int);
                }
                let row = self.rows.value_at(i);
                let now = now_seconds();
                let updated = WebIDRow {
                    capabilities: copy_capabilities(&row.capabilities),
                    created_at: row.created_at,
                    last_used_at: Some(now),
                    active: row.active,
                    updated_at: now,
                };
                self.rows.insert(String::from_str(webid), updated);
            },
            None => {},
        }
        Ok(())
    }

    /// The active entries, most recently created first, each once.
    pub fn list_active(&self) -> (r: Result<Vec<StoredWebIDEntry>, WebIDStoreError>)
        requires
            self.wf(),
        ensures
            r matches Ok(v) && active_listed(self.entries(), v@),
    {
        let n = self.rows.len();
        let mut at: Vec<usize> = Vec::new();
        let mut times: Vec<i64> = Vec::new();
        let mut i: usize = 0;
        while i < n
            invariant
                n == self.rows.entries().len(),
                i <= n,
                at@.len() == times@.len(),
                forall|j: int| 0 <= j < at@.len() ==> #[trigger] at@[j] < i && self.rows.entries()[at@[j] as int].1.active
                    && times@[j] == self.rows.entries()[at@[j] as int].1.created_at,
                forall|j: int, l: int| 0 <= j < l < at@.len() ==> at@[j] < at@[l],
                forall|p: int| 0 <= p < i && #[trigger] self.rows.entries()[p].1.active
                    ==> crate::sorting::listed(at@, p),
            decreases n - i,
        {
            let row = self.rows.value_at(i);
            let ghost at0 = at@;
            if row.active {
                at.push(i);
                times.push(row.created_at);
            }
            proof {
                assert forall|p: int| 0 <= p < i + 1 && #[trigger] self.rows.entries()[p].1.active
                    implies crate::sorting::listed(at@, p) by {
                    if p == i {
                        assert(at@[at@.len() - 1] == p);
                    } else {
                        assert(crate::sorting::listed(at0, p));
                        let j = choose|j: int| 0 <= j < at0.len() && #[trigger] at0[j] == p;
                        assert(at@[j] == p);
                    }
                }
            }
            i = i + 1;
        }
        let order = crate::sorting::order_by_key(&times, true);
        let mut out: Vec<StoredWebIDEntry> = Vec::new();
        let mut k: usize = 0;
        while k < order.len()
            invariant
                self.wf(),
                n == self.rows.entries().len(),
                at@.len() == times@.len(),
                forall|j: int| 0 <= j < at@.len() ==> #[trigger] at@[j] < n && self.rows.entries()[at@[j] as int].1.active
                    && times@[j] == self.rows.entries()[at@[j] as int].1.created_at,
                crate::sorting::sorted_positions(times@, true, order@),
                k <= order@.len(),
                out@.len() == k,
                forall|j: int| 0 <= j < k ==> #[trigger] out@[j].webid@ == self.rows.entries()[at@[order@[j] as int] as int].0@
                    && entry_read_back(out@[j].webid@, self.rows.entries()[at@[order@[j] as int] as int].1@, out@[j]),
            decreases order@.len() - k,
        {
            let p = at[order[k]];
            out.push(Self::read(self.rows.key_at(p), self.rows.value_at(p)));
            k = k + 1;
        }
        proof {
            let es = self.rows.entries();
            assert forall|i: int| 0 <= i < out@.len() implies active_ids(self.entries()).contains(#[trigger] out@[i].webid@)
                && entry_read_back(out@[i].webid@, self.entries()[out@[i].webid@], out@[i]) by {
                let p = at@[order@[i] as int] as int;
                self.rows.lemma_entry(p);
            }
            assert forall|q: Seq<char>| #[trigger] active_ids(self.entries()).contains(q)
                implies exists|i: int| 0 <= i < out@.len() && #[trigger] out@[i].webid@ == q by {
                self.rows.lemma_key_has_entry(q);
                let p = choose|p: int| 0 <= p < n && #[trigger] es[p].0@ == q;
                self.rows.lemma_entry(p);
                assert(crate::sorting::listed(at@, p));
                let j = choose|j: int| 0 <= j < at@.len() && #[trigger] at@[j] == p;
                assert(crate::sorting::listed(order@, j));
                let i = choose|i: int| 0 <= i < order@.len() && #[trigger] order@[i] == j;
                assert(out@[i].webid@ == q);
            }
            assert forall|a: int, b: int| 0 <= a < b < out@.len() implies out@[a].webid@ != out@[b].webid@ by {
                let pa = at@[order@[a] as int] as int;
                let pb = at@[order@[b] as int] as int;
                assert(order@[a] != order@[b]) by {
                    assert(crate::sorting::goes_before(times@, true, order@[a] as int, order@[b] as int));
                }
                if order@[a] < order@[b] {
                    assert(at@[order@[a] as int] < at@[order@[b] as int]);
                } else {
                    assert(at@[order@[b] as int] < at@[order@[a] as int]);
                }
                self.rows.lemma_distinct(pa, pb);
            }
            assert forall|a: int, b: int| 0 <= a < b < out@.len() implies out@[a].created_at >= out@[b].created_at by {
                assert(crate::sorting::goes_before(times@, true, order@[a] as int, order@[b] as int));
            }
            assert(active_listed(self.entries(), out@));
        }
        Ok(out)
    }

    /// How many WebIDs are held, and how many of them are active.
    pub fn stats(&self) -> (r: Result<WebIDStoreStats, WebIDStoreError>)
        requires
            self.wf(),
        ensures
            r matches Ok(s) && s.total_entries == self.entries().dom().len()
                && s.active_entries == active_ids(self.entries()).len(),
    {
        let n = self.rows.len();
        let mut count: usize = 0;
        let ghost mut ids: Seq<Seq<char>> = Seq::empty();
        let mut i: usize = 0;
        while i < n
            invariant
                self.wf(),
                n == self.rows.entries().len(),
                i <= n,
                count == ids.len(),
                count <= i,
                forall|j: int| 0 <= j < ids.len() ==> #[trigger] active_below(self.rows.entries(), i as int, ids[j]),
                forall|p: int| 0 <= p < i && self.rows.entries()[p].1.active ==> #[trigger] ids.contains(self.rows.entries()[p].0@),
                ids.no_duplicates(),
            decreases n - i,
        {
            let ghost ids0 = ids;
            let active = self.rows.value_at(i).active;
            if active {
                proof {
                    let k = self.rows.entries()[i as int].0@;
                    assert forall|j: int| 0 <= j < ids.len() implies ids[j] != k by {
                        assert(active_below(self.rows.entries(), i as int, ids[j]));
                        let p = choose|p: int| 0 <= p < i && self.rows.entries()[p].0@ == ids[j] && self.rows.entries()[p].1.active;
                        self.rows.lemma_distinct(p, i as int);
                    }
                    ids = ids.push(k);
                    assert(ids[ids.len() - 1] == k);
                }
                count = count + 1;
            }
            proof {
                assert forall|j: int| 0 <= j < ids.len() implies #[trigger] active_below(self.rows.entries(), i + 1, ids[j]) by {
                    if j < ids0.len() {
                        assert(ids[j] == ids0[j]);
                        assert(active_below(self.rows.entries(), i as int, ids0[j]));
                        let p = choose|p: int| 0 <= p < i && self.rows.entries()[p].0@ == ids0[j] && self.rows.entries()[p].1.active;
                        assert(0 <= p < i + 1 && self.rows.entries()[p].0@ == ids[j] && self.rows.entries()[p].1.active);
                    } else {
                        assert(active);
                        assert(0 <= i < i + 1 && self.rows.entries()[i as int].0@ == ids[j] && self.rows.entries()[i as int].1.active);
                    }
                }
                assert forall|p: int| 0 <= p < i + 1 && self.rows.entries()[p].1.active
                    implies #[trigger] ids.contains(self.rows.entries()[p].0@) by {
                    if p < i {
                        assert(ids0.contains(self.rows.entries()[p].0@));
                        let j = choose|j: int| 0 <= j < ids0.len() && ids0[j] == self.rows.entries()[p].0@;
                        assert(ids[j] == ids0[j]);
                    } else {
                        assert(ids[ids.len() - 1] == self.rows.entries()[p].0@);
                    }
                }
            }
            i = i + 1;
        }
        proof {
            self.rows.lemma_len();
            let want = active_ids(self.entries());
            assert(ids.to_set() =~= want) by {
                assert forall|k: Seq<char>| ids.to_set().contains(k) <==> want.contains(k) by {
                    if ids.to_set().contains(k) {
                        let j = choose|j: int| 0 <= j < ids.len() && ids[j] == k;
                        assert(active_below(self.rows.entries(), n as int, ids[j]));
                        let p = choose|p: int| 0 <= p < n && self.rows.entries()[p].0@ == ids[j]
                            && self.rows.entries()[p].1.active;
                        self.rows.lemma_entry(p);
                    }
                    if want.contains(k) {
                        self.rows.lemma_key_has_entry(k);
                        let p = choose|p: int| 0 <= p < n && #[trigger] self.rows.entries()[p].0@ == k;
                        self.rows.lemma_entry(p);
                        assert(ids.contains(self.rows.entries()[p].0@));
                    }
                }
            }
            ids.unique_seq_to_set();
        }
        Ok(WebIDStoreStats { total_entries: n, active_entries: count })
    }
}

} // verus!

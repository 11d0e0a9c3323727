//! Stores of process manifests: file names that cannot leave the store's
//! directory, and an in-memory store keyed by manifest id.
use vstd::prelude::*;
use vstd::string::*;
use std::path::PathBuf;
use crate::graph::names_view;
use crate::ports::TemplateError;

verus! {

#[verifier::external_type_specification]
#[verifier::external_body]
pub struct ExPathBuf(std::path::PathBuf);

/// The path `PathBuf::from` makes of a text.
pub uninterp spec fn path_from(text: Seq<char>) -> PathBuf;

/// The path `Path::join` makes of the directory `base`, given as text, and
/// the component `name`.
pub uninterp spec fn joined_path(base: Seq<char>, name: Seq<char>) -> PathBuf;

/// Calls `std::path::PathBuf::from` on a text.
#[verifier::external_body]
fn path_of(s: &str) -> (r: PathBuf)
    ensures
        r == path_from(s@),
{
    PathBuf::from(s)
}

/// Calls `std::path::Path::join` on the directory `base`, taken as a path,
/// with the component `name`.
#[verifier::external_body]
fn join_path(base: &str, name: &str) -> (r: PathBuf)
    ensures
        r == joined_path(base@, name@),
{
    PathBuf::from(base).join(name)
}

/// What a manifest step does.
#[derive(Debug, Clone, Copy, PartialEq, Eq, Structural)]
pub enum Action {
    Select,
    Populate,
    Execute,
}

/// One step of a process manifest.
#[derive(Debug)]
pub struct ManifestStep {
    pub ordinal: u32,
    pub action: Action,
    pub description: String,
    pub template_ref: String,
    pub model_tier: Option<String>,
    pub mcp: Option<String>,
    pub renderer: Option<String>,
}

/// A process manifest: an id, a name, a description and its steps.
#[derive(Debug)]
pub struct ProcessManifest {
    pub id: String,
    pub name: String,
    pub description: String,
    pub steps: Vec<ManifestStep>,
}

/// The character view of an optional text.
pub open spec fn opt_view(o: Option<String>) -> Option<Seq<char>> {
    match o {
        Some(s) => Some(s@),
        None => None,
    }
}

/// The character view of a step.
pub open spec fn step_view(s: ManifestStep) -> (u32, Action, Seq<char>, Seq<char>, Option<Seq<char>>, Option<Seq<char>>, Option<Seq<char>>) {
    (s.ordinal, s.action, s.description@, s.template_ref@, opt_view(s.model_tier), opt_view(s.mcp), opt_view(s.renderer))
}

/// The character view of a manifest: name, description and steps (the id
/// is its key).
pub open spec fn manifest_view(m: ProcessManifest) -> (Seq<char>, Seq<char>, Seq<(u32, Action, Seq<char>, Seq<char>, Option<Seq<char>>, Option<Seq<char>>, Option<Seq<char>>)>) {
    (m.name@, m.description@, m.steps@.map_values(|s: ManifestStep| step_view(s)))
}

/// A copy of an optional text.
fn clone_opt(o: &Option<String>) -> (r: Option<String>)
    ensures
        opt_view(r) == opt_view(*o),
{
    match o {
        Some(s) => Some(s.clone()),
        None => None,
    }
}

/// A copy of a manifest.
fn clone_manifest(m: &ProcessManifest) -> (r: ProcessManifest)
    ensures
        r.id@ == m.id@,
        manifest_view(r) == manifest_view(*m),
{
    let mut steps: Vec<ManifestStep> = Vec::new();
    let mut i: usize = 0;
    while i < m.steps.len()
        invariant
            i <= m.steps@.len(),
            steps@.len() == i,
            forall|j: int| 0 <= j < i ==> step_view(#[trigger] steps@[j]) == step_view(m.steps@[j]),
        decreases m.steps@.len() - i,
    {
        let s = &m.steps[i];
        steps.push(ManifestStep {
            ordinal: s.ordinal,
            action: s.action,
            description: s.description.clone(),
            template_ref: s.template_ref.clone(),
            model_tier: clone_opt(&s.model_tier),
            mcp: clone_opt(&s.mcp),
            renderer: clone_opt(&s.renderer),
        });
        i = i + 1;
    }
    let r = ProcessManifest { id: m.id.clone(), name: m.name.clone(), description: m.description.clone(), steps };
    proof {
        assert(r.steps@.map_values(|s: ManifestStep| step_view(s)) =~= m.steps@.map_values(|s: ManifestStep| step_view(s)));
    }
    r
}

/// `s` with every slash and backslash turned into an underscore.
pub open spec fn without_separators(s: Seq<char>) -> Seq<char> {
    s.map_values(|c: char| if c == '/' || c == '\\' { '_' } else { c })
}

/// `s` with each `..`, left to right, turned into an underscore.
pub open spec fn without_double_dots(s: Seq<char>) -> Seq<char>
    decreases s.len(),
{
    if s.len() < 2 {
        s
    } else if s[0] == '.' && s[1] == '.' {
        seq!['_'] + without_double_dots(s.skip(2))
    } else {
        seq![s[0]] + without_double_dots(s.drop_first())
    }
}

/// The file name of the manifest `id`: the id made safe, then `.yaml`.
pub open spec fn manifest_file(id: Seq<char>) -> Seq<char> {
    without_double_dots(without_separators(id)) + ".yaml"@
}

/// `s` holds two dots in a row.
pub open spec fn has_double_dot(s: Seq<char>) -> bool {
    exists|i: int| 0 <= i < s.len() - 1 && s[i] == '.' && #[trigger] s[i + 1] == '.'
}

/// The first character of the replacement of double dots.
proof fn lemma_double_dots_first(s: Seq<char>)
    requires
        s.len() > 0,
    ensures
        without_double_dots(s).len() > 0,
        without_double_dots(s)[0] == if s.len() >= 2 && s[0] == '.' && s[1] == '.' { '_' } else { s[0] },
{
}

/// Replacing double dots leaves none, adds no separator and keeps no
/// separator that was not there.
pub proof fn lemma_double_dots_gone(s: Seq<char>)
    ensures
        !has_double_dot(without_double_dots(s)),
        forall|c: char| (c == '/' || c == '\\') ==> (without_double_dots(s).contains(c) ==> s.contains(c)),
    decreases s.len(),
{
    let r = without_double_dots(s);
    if s.len() >= 2 {
        let rest = if s[0] == '.' && s[1] == '.' { s.skip(2) } else { s.drop_first() };
        lemma_double_dots_gone(rest);
        let rr = without_double_dots(rest);
        let head = if s[0] == '.' && s[1] == '.' { '_' } else { s[0] };
        assert(r == seq![head] + rr);
        if has_double_dot(r) {
            let i = choose|i: int| 0 <= i < r.len() - 1 && r[i] == '.' && #[trigger] r[i + 1] == '.';
            if i == 0 {
                assert(head == '.');
                assert(s[0] == '.' && s[1] != '.');
                assert(rest == s.drop_first());
                lemma_double_dots_first(rest);
                assert(rr[0] == s[1]);
            } else {
                let i1 = i - 1;
                assert(rr[i1] == '.' && rr[i1 + 1] == '.');
                assert(has_double_dot(rr));
            }
        }
        assert forall|c: char| (c == '/' || c == '\\') && r.contains(c) implies s.contains(c) by {
            let k = choose|k: int| 0 <= k < r.len() && r[k] == c;
            if k == 0 {
                assert(s[0] == c);
            } else {
                assert(rr[k - 1] == c);
                assert(rr.contains(c));
                assert(rest.contains(c));
                let m = choose|m: int| 0 <= m < rest.len() && rest[m] == c;
                if s[0] == '.' && s[1] == '.' {
                    assert(s[m + 2] == c);
                } else {
                    assert(s[m + 1] == c);
                }
            }
        }
    } else {
        assert(r =~= s);
    }
}

/// A manifest file name holds no path separator, and the part before
/// `.yaml` holds no `..`: a manifest id cannot name a file outside the
/// store's directory.
pub proof fn lemma_manifest_file_is_contained(id: Seq<char>)
    ensures
        !manifest_file(id).contains('/'),
        !manifest_file(id).contains('\\'),
        !has_double_dot(without_double_dots(without_separators(id))),
{
    let a = without_separators(id);
    lemma_double_dots_gone(a);
    reveal_strlit(".yaml");
    assert(!a.contains('/')) by {
        if a.contains('/') {
            let k = choose|k: int| 0 <= k < a.len() && a[k] == '/';
        }
    }
    assert(!a.contains('\\')) by {
        if a.contains('\\') {
            let k = choose|k: int| 0 <= k < a.len() && a[k] == '\\';
        }
    }
    let b = without_double_dots(a);
    let f = manifest_file(id);
    assert(f == b + ".yaml"@);
    assert(!f.contains('/')) by {
        if f.contains('/') {
            let k = choose|k: int| 0 <= k < f.len() && f[k] == '/';
            if k < b.len() {
                assert(b[k] == '/');
                assert(b.contains('/'));
            }
        }
    }
    assert(!f.contains('\\')) by {
        if f.contains('\\') {
            let k = choose|k: int| 0 <= k < f.len() && f[k] == '\\';
            if k < b.len() {
                assert(b[k] == '\\');
                assert(b.contains('\\'));
            }
        }
    }
}

/// The file name under which the manifest `id` is stored: slashes and
/// backslashes become underscores, then each `..` an underscore, then
/// `.yaml` is appended.
pub fn manifest_file_name(id: &str) -> (r: String)
    ensures
        r@ == manifest_file(id@),
        !r@.contains('/'),
        !r@.contains('\\'),
{
    let c = crate::text::str_chars(id);
    let ghost a = without_separators(id@);
    let mut out = String::new();
    let mut i: usize = 0;
    proof {
        assert(a.skip(0) =~= a);
        assert(out@ + a =~= a);
    }
    while i < c.len()
        invariant
            i <= c@.len(),
            c@ == id@,
            a == without_separators(id@),
            without_double_dots(a) == out@ + without_double_dots(a.skip(i as int)),
        decreases c@.len() - i,
    {
        let ghost t = a.skip(i as int);
        let sep0 = c[i] == '/' || c[i] == '\\';
        let dot0 = c[i] == '.';
        let dot1 = i + 1 < c.len() && c[i + 1] == '.';
        proof {
            assert(t[0] == a[i as int]);
            if i + 1 < c@.len() {
                assert(t[1] == a[i + 1]);
            }
        }
        if dot0 && dot1 {
            out.append("_");
            proof {
                reveal_strlit("_");
                assert(t.skip(2) =~= a.skip(i + 2));
            }
            i = i + 2;
        } else {
            if sep0 {
                out.append("_");
                proof {
                    reveal_strlit("_");
                }
            } else {
                out.append(id.substring_char(i, i + 1));
                proof {
                    assert(id@.subrange(i as int, i + 1) =~= seq![a[i as int]]);
                }
            }
            proof {
                assert(t.drop_first() =~= a.skip(i + 1));
            }
            i = i + 1;
        }
    }
    proof {
        assert(a.skip(i as int) =~= Seq::<char>::empty());
    }
    out.append(".yaml");
    proof {
        lemma_manifest_file_is_contained(id@);
    }
    out
}

/// Manifests stored as YAML files in a directory, the directory held as
/// text.
#[derive(Debug)]
pub struct FileSystemManifestRepository {
    base_dir: String,
    base_path: PathBuf,
    rate_limit: Option<(u64, u64)>,
}

impl FileSystemManifestRepository {
    /// The rate limit given at construction: a bucket size and refill rate,
    /// or none.
    pub closed spec fn rate_limit(&self) -> Option<(u64, u64)> {
        self.rate_limit
    }

    /// The directory of the store, as text.
    pub closed spec fn dir(&self) -> Seq<char> {
        self.base_dir@
    }

    /// The directory of the store, as a path.
    pub closed spec fn dir_path(&self) -> PathBuf {
        self.base_path
    }

    /// A store in `base_path` with no rate limit given.
    pub fn new(base_path: &str) -> (r: FileSystemManifestRepository)
        ensures
            r.dir() == base_path@,
            r.dir_path() == path_from(base_path@),
            r.rate_limit() is None,
    {
        FileSystemManifestRepository { base_dir: String::from_str(base_path), base_path: path_of(base_path), rate_limit: None }
    }

    /// A store in `base_path` that keeps the bucket size `max_tokens` and
    /// refill rate `refill_rate` of a rate limit; no operation of the store
    /// consumes it.
    pub fn with_rate_limit(base_path: &str, max_tokens: u64, refill_rate: u64) -> (r: FileSystemManifestRepository)
        ensures
            r.dir() == base_path@,
            r.dir_path() == path_from(base_path@),
            r.rate_limit() == Some((max_tokens, refill_rate)),
    {
        FileSystemManifestRepository {
            base_dir: String::from_str(base_path),
            base_path: path_of(base_path),
            rate_limit: Some((max_tokens, refill_rate)),
        }
    }

    /// A store in `registry/manifests` with no rate limit given.
    pub fn with_default_path() -> (r: FileSystemManifestRepository)
        ensures
            r.dir() == "registry/manifests"@,
            r.dir_path() == path_from("registry/manifests"@),
            r.rate_limit() is None,
    {
        FileSystemManifestRepository::new("registry/manifests")
    }

    /// The directory of the store.
    pub fn base_path(&self) -> (r: &PathBuf)
        ensures
            *r == self.dir_path(),
    {
        &self.base_path
    }

    /// The path of the file of manifest `id`: the store's directory joined
    /// with `manifest_file_name(id)`, a name that holds no separator and no
    /// `..`.
    pub fn manifest_path(&self, id: &str) -> (r: PathBuf)
        ensures
            r == joined_path(self.dir(), manifest_file(id@)),
    {
        let name = manifest_file_name(id);
        join_path(self.base_dir.as_str(), name.as_str())
    }
}

/// Manifests held in memory, by id.
#[derive(Debug)]
pub struct InMemoryManifestRepository {
    manifests: Vec<ProcessManifest>,
}

/// The character view of a stored manifest.
pub type StoredManifest = (Seq<char>, Seq<char>, Seq<(u32, Action, Seq<char>, Seq<char>, Option<Seq<char>>, Option<Seq<char>>, Option<Seq<char>>)>);

impl View for InMemoryManifestRepository {
    type V = Map<Seq<char>, StoredManifest>;

    closed spec fn view(&self) -> Self::V {
        Map::new(|k: Seq<char>| holds_id(self.manifests@, k), |k: Seq<char>| stored_under(self.manifests@, k))
    }
}

/// Some manifest of `ms` has id `k`.
pub open spec fn holds_id(ms: Seq<ProcessManifest>, k: Seq<char>) -> bool {
    exists|i: int| 0 <= i < ms.len() && ms[i].id@ == k
}

/// The view of a manifest of `ms` with id `k`.
pub open spec fn stored_under(ms: Seq<ProcessManifest>, k: Seq<char>) -> StoredManifest {
    manifest_view(ms[choose|i: int| 0 <= i < ms.len() && ms[i].id@ == k])
}

/// The error for a manifest that is not there.
pub open spec fn missing_manifest(id: Seq<char>) -> Seq<char> {
    "Manifest "@ + id
}

impl InMemoryManifestRepository {
    /// Each id is stored once.
    pub closed spec fn wf(&self) -> bool {
        names_view(self.manifests@.map_values(|m: ProcessManifest| m.id)).no_duplicates()
    }

    /// The position of the manifest `id`.
    fn position(&self, id: &str) -> (r: Option<usize>)
        ensures
            r matches Some(i) ==> i < self.manifests@.len() && self.manifests@[i as int].id@ == id@,
            r is None ==> forall|i: int| 0 <= i < self.manifests@.len() ==> self.manifests@[i].id@ != id@,
    {
        let mut i: usize = 0;
        while i < self.manifests.len()
            invariant
                i <= self.manifests@.len(),
                forall|j: int| 0 <= j < i ==> self.manifests@[j].id@ != id@,
            decreases self.manifests@.len() - i,
        {
            if crate::text::str_eq(self.manifests[i].id.as_str(), id) {
                return Some(i);
            }
            i = i + 1;
        }
        None
    }

    /// An empty store.
    pub fn new() -> (r: InMemoryManifestRepository)
        ensures
            r.wf(),
            r@ == Map::<Seq<char>, StoredManifest>::empty(),
    {
        let r = InMemoryManifestRepository { manifests: Vec::new() };
        proof {
            assert(names_view(r.manifests@.map_values(|m: ProcessManifest| m.id)) =~= Seq::<Seq<char>>::empty());
            assert(r@ =~= Map::<Seq<char>, StoredManifest>::empty());
        }
        r
    }

    /// A store holding `manifests`; of two with the same id the later one
    /// stays.
    pub fn with_manifests(manifests: Vec<ProcessManifest>) -> (r: InMemoryManifestRepository)
        ensures
            r.wf(),
            forall|k: Seq<char>| #[trigger] r@.dom().contains(k) <==> exists|i: int| 0 <= i < manifests@.len() && manifests@[i].id@ == k,
            forall|i: int| 0 <= i < manifests@.len()
                && (forall|j: int| i < j < manifests@.len() ==> manifests@[j].id@ != manifests@[i].id@)
                ==> r@[#[trigger] manifests@[i].id@] == manifest_view(manifests@[i]),
    {
        let mut r = InMemoryManifestRepository::new();
        let mut k: usize = 0;
        while k < manifests.len()
            invariant
                k <= manifests@.len(),
                r.wf(),
                forall|x: Seq<char>| #[trigger] r@.dom().contains(x) <==> exists|i: int| 0 <= i < k && manifests@[i].id@ == x,
                forall|i: int| 0 <= i < k && (forall|j: int| i < j < k ==> manifests@[j].id@ != manifests@[i].id@)
                    ==> r@[#[trigger] manifests@[i].id@] == manifest_view(manifests@[i]),
            decreases manifests@.len() - k,
        {
            let ghost before = r@;
            r.save(&manifests[k]);
            proof {
                assert forall|x: Seq<char>| #[trigger] r@.dom().contains(x) <==> exists|i: int| 0 <= i < k + 1 && manifests@[i].id@ == x by {
                    if x == manifests@[k as int].id@ {
                        assert(manifests@[k as int].id@ == x);
                    }
                    if exists|i: int| 0 <= i < k + 1 && manifests@[i].id@ == x {
                        let i = choose|i: int| 0 <= i < k + 1 && manifests@[i].id@ == x;
                        if i < k {
                            assert(before.dom().contains(x));
                        }
                    }
                }
                assert forall|i: int| 0 <= i < k + 1 && (forall|j: int| i < j < k + 1 ==> manifests@[j].id@ != manifests@[i].id@)
                    implies r@[#[trigger] manifests@[i].id@] == manifest_view(manifests@[i]) by {
                    if i < k {
                        assert(manifests@[k as int].id@ != manifests@[i].id@);
                        assert forall|j: int| i < j < k implies manifests@[j].id@ != manifests@[i].id@ by {
                            assert(i < j < k + 1);
                        }
                    }
                }
            }
            k = k + 1;
        }
        r
    }

    /// A copy of the manifest `id`, or `NotFound`.
    pub fn load(&self, id: &str) -> (r: Result<ProcessManifest, TemplateError>)
        requires
            self.wf(),
        ensures
            self@.dom().contains(id@) ==> (r matches Ok(m) && m.id@ == id@ && manifest_view(m) == self@[id@]),
            !self@.dom().contains(id@) ==> (r matches Err(TemplateError::NotFound(msg)) && msg@ == missing_manifest(id@)),
    {
        match self.position(id) {
            Some(i) => {
                let m = clone_manifest(&self.manifests[i]);
                proof {
                    self.lemma_position_unique(i as int, id@);
                }
                Ok(m)
            },
            None => {
                let mut msg = String::from_str("Manifest ");
                msg.append(id);
                Err(TemplateError::NotFound(msg))
            },
        }
    }

    /// The position holding `k` is the one the view reads.
    proof fn lemma_position_unique(&self, p: int, k: Seq<char>)
        requires
            self.wf(),
            0 <= p < self.manifests@.len(),
            self.manifests@[p].id@ == k,
        ensures
            self@.dom().contains(k),
            self@[k] == manifest_view(self.manifests@[p]),
    {
        let ids = names_view(self.manifests@.map_values(|m: ProcessManifest| m.id));
        assert(self@.dom().contains(k));
        let ms = self.manifests@;
        assert(ids[p] == ms[p].id@);
        assert forall|c: int| 0 <= c < ms.len() && ms[c].id@ == k implies c == p by {
            assert(ids[c] == ms[c].id@);
        }
        assert(self@[k] == stored_under(ms, k));
    }

    /// Store a copy of `manifest` under its id, replacing one stored before.
    pub fn save(&mut self, manifest: &ProcessManifest) -> (r: Result<(), TemplateError>)
        requires
            old(self).wf(),
        ensures
            r is Ok,
            final(self).wf(),
            final(self)@ == old(self)@.insert(manifest.id@, manifest_view(*manifest)),
    {
        let m = clone_manifest(manifest);
        let ghost before = self.manifests@;
        let ghost ids0 = names_view(before.map_values(|m: ProcessManifest| m.id));
        match self.position(manifest.id.as_str()) {
            Some(i) => {
                self.manifests.set(i, m);
                proof {
                    let ids = names_view(self.manifests@.map_values(|m: ProcessManifest| m.id));
                    assert(ids =~= ids0.update(i as int, manifest.id@));
                    assert(ids.no_duplicates()) by {
                        assert forall|a: int, b: int| 0 <= a < ids.len() && 0 <= b < ids.len() && a != b implies ids[a] != ids[b] by {
                            if a == i {
                                assert(ids0[i as int] == manifest.id@);
                            } else if b == i {
                                assert(ids0[i as int] == manifest.id@);
                            }
                        }
                    }
                    assert forall|k: Seq<char>| #[trigger] self@.dom().contains(k) <==> old(self)@.insert(manifest.id@, manifest_view(*manifest)).dom().contains(k) by {
                        if old(self)@.dom().contains(k) && k != manifest.id@ {
                            let j = choose|j: int| 0 <= j < before.len() && before[j].id@ == k;
                            assert(self.manifests@[j] == before[j]);
                        }
                        if self@.dom().contains(k) && k != manifest.id@ {
                            let j = choose|j: int| 0 <= j < self.manifests@.len() && self.manifests@[j].id@ == k;
                            assert(self.manifests@[j] == before[j]);
                        }
                        if k == manifest.id@ {
                            assert(self.manifests@[i as int].id@ == k);
                        }
                    }
                    assert forall|k: Seq<char>| #[trigger] self@.dom().contains(k)
                        implies self@[k] == old(self)@.insert(manifest.id@, manifest_view(*manifest))[k] by {
                        let j = choose|j: int| 0 <= j < self.manifests@.len() && self.manifests@[j].id@ == k;
                        assert(ids[j] == k);
                        if k != manifest.id@ {
                            assert(self.manifests@[j] == before[j]);
                            let j2 = choose|j2: int| 0 <= j2 < before.len() && before[j2].id@ == k;
                            assert(ids0[j2] == k && ids0[j] == k);
                        } else {
                            assert(ids[i as int] == k);
                        }
                    }
                    assert(self@ =~= old(self)@.insert(manifest.id@, manifest_view(*manifest)));
                }
            },
            None => {
                self.manifests.push(m);
                proof {
                    let n = before.len() as int;
                    let ids = names_view(self.manifests@.map_values(|m: ProcessManifest| m.id));
                    assert(ids =~= ids0.push(manifest.id@));
                    assert(ids.no_duplicates()) by {
                        assert forall|a: int, b: int| 0 <= a < ids.len() && 0 <= b < ids.len() && a != b implies ids[a] != ids[b] by {
                            if a == n {
                                assert(before[b].id@ != manifest.id@);
                            } else if b == n {
                                assert(before[a].id@ != manifest.id@);
                            }
                        }
                    }
                    assert forall|k: Seq<char>| #[trigger] self@.dom().contains(k) <==> old(self)@.insert(manifest.id@, manifest_view(*manifest)).dom().contains(k) by {
                        if old(self)@.dom().contains(k) {
                            let j = choose|j: int| 0 <= j < before.len() && before[j].id@ == k;
                            assert(self.manifests@[j] == before[j]);
                        }
                        if self@.dom().contains(k) && k != manifest.id@ {
                            let j = choose|j: int| 0 <= j < self.manifests@.len() && self.manifests@[j].id@ == k;
                            assert(j < n);
                            assert(self.manifests@[j] == before[j]);
                        }
                        if k == manifest.id@ {
                            assert(self.manifests@[n].id@ == k);
                        }
                    }
                    assert forall|k: Seq<char>| #[trigger] self@.dom().contains(k)
                        implies self@[k] == old(self)@.insert(manifest.id@, manifest_view(*manifest))[k] by {
                        let j = choose|j: int| 0 <= j < self.manifests@.len() && self.manifests@[j].id@ == k;
                        assert(ids[j] == k);
                        if k != manifest.id@ {
                            assert(j < n);
                            assert(self.manifests@[j] == before[j]);
                            let j2 = choose|j2: int| 0 <= j2 < before.len() && before[j2].id@ == k;
                            assert(ids0[j2] == k && ids0[j] == k);
                        } else {
                            assert(ids[n] == k);
                        }
                    }
                    assert(self@ =~= old(self)@.insert(manifest.id@, manifest_view(*manifest)));
                }
            },
        }
        Ok(())
    }

    /// Remove the manifest `id`, or report that it is not there.
    pub fn delete(&mut self, id: &str) -> (r: Result<(), TemplateError>)
        requires
            old(self).wf(),
        ensures
            final(self).wf(),
            old(self)@.dom().contains(id@) ==> r is Ok && final(self)@ == old(self)@.remove(id@),
            !old(self)@.dom().contains(id@) ==> (r matches Err(TemplateError::NotFound(msg)) && msg@ == missing_manifest(id@))
                && final(self)@ == old(self)@,
    {
        match self.position(id) {
            Some(i) => {
                let ghost before = self.manifests@;
                let ghost ids0 = names_view(before.map_values(|m: ProcessManifest| m.id));
                let _gone = self.manifests.remove(i);
                proof {
                    let ids = names_view(self.manifests@.map_values(|m: ProcessManifest| m.id));
                    assert(ids =~= ids0.remove(i as int));
                    assert(ids.no_duplicates()) by {
                        assert forall|a: int, b: int| 0 <= a < ids.len() && 0 <= b < ids.len() && a != b implies ids[a] != ids[b] by {
                            let a0 = if a < i { a } else { a + 1 };
                            let b0 = if b < i { b } else { b + 1 };
                            assert(ids[a] == ids0[a0] && ids[b] == ids0[b0]);
                        }
                    }
                    assert forall|k: Seq<char>| #[trigger] self@.dom().contains(k) <==> old(self)@.remove(id@).dom().contains(k) by {
                        if self@.dom().contains(k) {
                            let j = choose|j: int| 0 <= j < self.manifests@.len() && self.manifests@[j].id@ == k;
                            let j0 = if j < i { j } else { j + 1 };
                            assert(self.manifests@[j] == before[j0]);
                            assert(ids0[j0] == k && ids0[i as int] == id@);
                        }
                        if old(self)@.remove(id@).dom().contains(k) {
                            let j = choose|j: int| 0 <= j < before.len() && before[j].id@ == k;
                            assert(j != i);
                            let j1 = if j < i { j } else { j - 1 };
                            assert(self.manifests@[j1] == before[j]);
                        }
                    }
                    assert forall|k: Seq<char>| #[trigger] self@.dom().contains(k) implies self@[k] == old(self)@.remove(id@)[k] by {
                        let j = choose|j: int| 0 <= j < self.manifests@.len() && self.manifests@[j].id@ == k;
                        let j0 = if j < i { j } else { j + 1 };
                        assert(self.manifests@[j] == before[j0]);
                        let j2 = choose|j2: int| 0 <= j2 < before.len() && before[j2].id@ == k;
                        assert(ids0[j2] == k && ids0[j0] == k);
                        assert(ids[j] == k);
                    }
                    assert(self@ =~= old(self)@.remove(id@));
                }
                Ok(())
            },
            None => {
                let mut msg = String::from_str("Manifest ");
                msg.append(id);
                Err(TemplateError::NotFound(msg))
            },
        }
    }

    /// The ids of the stored manifests, each once.
    pub fn list(&self) -> (r: Result<Vec<String>, TemplateError>)
        requires
            self.wf(),
        ensures
            r matches Ok(ids) && names_view(ids@).no_duplicates()
                && forall|k: Seq<char>| names_view(ids@).contains(k) <==> self@.dom().contains(k),
    {
        let mut ids: Vec<String> = Vec::new();
        let mut i: usize = 0;
        while i < self.manifests.len()
            invariant
                i <= self.manifests@.len(),
                names_view(ids@) == names_view(self.manifests@.map_values(|m: ProcessManifest| m.id)).take(i as int),
            decreases self.manifests@.len() - i,
        {
            let ghost before = names_view(ids@);
            ids.push(self.manifests[i].id.clone());
            proof {
                assert(names_view(ids@) =~= before.push(self.manifests@[i as int].id@));
                assert(names_view(self.manifests@.map_values(|m: ProcessManifest| m.id)).take(i + 1)
                    =~= names_view(self.manifests@.map_values(|m: ProcessManifest| m.id)).take(i as int).push(self.manifests@[i as int].id@));
            }
            i = i + 1;
        }
        proof {
            let all = names_view(self.manifests@.map_values(|m: ProcessManifest| m.id));
            assert(all.take(self.manifests@.len() as int) =~= all);
            assert forall|k: Seq<char>| names_view(ids@).contains(k) <==> self@.dom().contains(k) by {
                if names_view(ids@).contains(k) {
                    let j = choose|j: int| 0 <= j < all.len() && all[j] == k;
                    assert(self.manifests@[j].id@ == k);
                }
                if self@.dom().contains(k) {
                    let j = choose|j: int| 0 <= j < self.manifests@.len() && self.manifests@[j].id@ == k;
                    assert(all[j] == k);
                }
            }
        }
        Ok(ids)
    }
}

impl Default for InMemoryManifestRepository {
    /// An empty store.
    fn default() -> (r: InMemoryManifestRepository)
        ensures
            r.wf(),
            r@ == Map::<Seq<char>, StoredManifest>::empty(),
    {
        InMemoryManifestRepository::new()
    }
}

} // verus!

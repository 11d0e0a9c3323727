//! The template registry's path rule and its index of bundle manifests.
use vstd::prelude::*;
use vstd::string::*;
use vstd::utf8::{encode_scalar, encode_utf8};
use crate::bundle::BundleManifest;
use crate::bundle_evolver::{Skill, SkillView, Visibility};
use crate::keyed::KeyedTable;
use crate::lexicon::TemplateType;
use crate::ports::TemplateError;
use crate::text::{has_sub, pieces};

verus! {

// ── Template paths ───────────────────────────────────────────────────────────

/// Every character of `s` is ASCII.
pub open spec fn ascii_only(s: Seq<char>) -> bool {
    forall|i: int| 0 <= i < s.len() ==> (#[trigger] s[i] as u32) < 128
}

/// `c` is a path separator, `/` or `\`.
pub open spec fn is_slash(c: char) -> bool {
    c == '/' || c == '\\'
}

/// `s` without its leading separators.
pub open spec fn strip_leading_slashes(s: Seq<char>) -> Seq<char>
    decreases s.len(),
{
    if s.len() > 0 && is_slash(s[0]) {
        strip_leading_slashes(s.drop_first())
    } else {
        s
    }
}

/// `s` without its trailing separators.
pub open spec fn strip_trailing_slashes(s: Seq<char>) -> Seq<char>
    decreases s.len(),
{
    if s.len() > 0 && is_slash(s.last()) {
        strip_trailing_slashes(s.drop_last())
    } else {
        s
    }
}

/// `s` without separators at either end.
pub open spec fn trim_slashes(s: Seq<char>) -> Seq<char> {
    strip_trailing_slashes(strip_leading_slashes(s))
}

/// The first component, between `/`, of `n` that is longer than 64 bytes.
pub open spec fn first_long_component(cs: Seq<Seq<char>>) -> Option<Seq<char>>
    decreases cs.len(),
{
    if cs.len() == 0 {
        None
    } else if encode_utf8(cs[0]).len() > 64 {
        Some(cs[0])
    } else {
        first_long_component(cs.drop_first())
    }
}

/// Why a template id is not a safe path, if it is not: absolute, with a
/// `..`, with a null byte, empty once separators are trimmed from its ends,
/// with a component over 64 bytes, or not ASCII.
pub open spec fn path_violation(id: Seq<char>) -> Option<Seq<char>> {
    let n = trim_slashes(id);
    if id.len() > 0 && is_slash(id[0]) {
        Some("Absolute path not allowed: "@ + id)
    } else if has_sub(id, ".."@) {
        Some("Path traversal not allowed: "@ + id)
    } else if has_sub(id, seq!['\0']) {
        Some("Null byte not allowed: "@ + id)
    } else if n.len() == 0 {
        Some("Empty path not allowed"@)
    } else if first_long_component(pieces(n, '/')) is Some {
        Some("Path component exceeds 64 characters: "@ + first_long_component(pieces(n, '/'))->0)
    } else if !ascii_only(n) {
        Some("Non-ASCII path not allowed: "@ + id)
    } else {
        None
    }
}

proof fn lemma_encode_push(s: Seq<char>, c: char)
    ensures
        encode_utf8(s.push(c)) == encode_utf8(s) + encode_scalar(c as u32),
    decreases s.len(),
{
    if s.len() == 0 {
        assert(s.push(c).drop_first() =~= Seq::<char>::empty());
        assert(encode_utf8(Seq::<char>::empty()) =~= Seq::<u8>::empty());
        assert(encode_utf8(s.push(c)) =~= encode_scalar(c as u32));
    } else {
        lemma_encode_push(s.drop_first(), c);
        assert(s.push(c).drop_first() =~= s.drop_first().push(c));
        assert(encode_utf8(s.push(c)) =~= encode_scalar(s[0] as u32) + encode_utf8(s.drop_first().push(c)));
    }
}

/// The number of bytes of `c` in UTF-8.
fn utf8_width(c: char) -> (r: u64)
    ensures
        r == encode_scalar(c as u32).len(),
        1 <= r <= 4,
{
    proof {
        vstd::utf8::char_is_scalar(c);
    }
    let v = c as u32;
    if v <= 0x7f {
        1
    } else if v <= 0x7ff {
        2
    } else if v <= 0xffff {
        3
    } else {
        4
    }
}

/// Whether the window `[a, b)` of `c` takes more than 64 bytes in UTF-8.
fn longer_than_64(c: &Vec<char>, a: usize, b: usize) -> (r: bool)
    requires
        a <= b <= c@.len(),
    ensures
        r == (encode_utf8(c@.subrange(a as int, b as int)).len() > 64),
{
    let mut bytes: u64 = 0;
    let mut i: usize = a;
    proof {
        assert(c@.subrange(a as int, a as int) =~= Seq::<char>::empty());
        assert(encode_utf8(Seq::<char>::empty()) =~= Seq::<u8>::empty());
    }
    while i < b
        invariant
            a <= i <= b,
            b <= c@.len(),
            bytes == encode_utf8(c@.subrange(a as int, i as int)).len(),
            bytes <= 64,
        decreases b - i,
    {
        proof {
            assert(c@.subrange(a as int, i + 1) =~= c@.subrange(a as int, i as int).push(c@[i as int]));
            lemma_encode_push(c@.subrange(a as int, i as int), c@[i as int]);
        }
        bytes = bytes + utf8_width(c[i]);
        i = i + 1;
        if bytes > 64 {
            proof {
                lemma_encode_prefix_le(c@.subrange(a as int, b as int), (i - a) as int);
                assert(c@.subrange(a as int, b as int).take((i - a) as int) =~= c@.subrange(a as int, i as int));
            }
            return true;
        }
    }
    false
}

/// Encoding a prefix takes no more bytes than encoding the whole.
proof fn lemma_encode_prefix_le(s: Seq<char>, k: int)
    requires
        0 <= k <= s.len(),
    ensures
        encode_utf8(s.take(k)).len() <= encode_utf8(s).len(),
    decreases s.len() - k,
{
    if k < s.len() {
        lemma_encode_prefix_le(s, k + 1);
        assert(s.take(k + 1) =~= s.take(k).push(s[k]));
        lemma_encode_push(s.take(k), s[k]);
    } else {
        assert(s.take(k) =~= s);
    }
}

/// The window of the first component, between `/`, of the window `[a, b)`
/// of `c` that is longer than 64 bytes.
fn first_long_window(c: &Vec<char>, a: usize, b: usize) -> (r: Option<(usize, usize)>)
    requires
        a <= b <= c@.len(),
    ensures
        match first_long_component(pieces(c@.subrange(a as int, b as int), '/')) {
            Some(p) => r matches Some((x, y)) && x <= y <= c@.len() && c@.subrange(x as int, y as int) == p,
            None => r is None,
        },
{
    let ghost norm = c@.subrange(a as int, b as int);
    let mut start: usize = a;
    let mut i: usize = a;
    while i < b
        invariant
            a <= start <= i <= b,
            b <= c@.len(),
            norm == c@.subrange(a as int, b as int),
            forall|k: int| start <= k < i ==> c@[k] != '/',
            first_long_component(pieces(norm, '/')) == first_long_component(pieces(c@.subrange(start as int, b as int), '/')),
        decreases b - i,
    {
        if c[i] == '/' {
            let ghost rest = c@.subrange(start as int, b as int);
            proof {
                crate::text::lemma_first_index_at(rest, '/', i - start);
                assert(rest.take(i - start) =~= c@.subrange(start as int, i as int));
                assert(rest.skip(i - start + 1) =~= c@.subrange(i + 1, b as int));
                assert(pieces(rest, '/') == seq![c@.subrange(start as int, i as int)] + pieces(c@.subrange(i + 1, b as int), '/'));
                assert((seq![c@.subrange(start as int, i as int)] + pieces(c@.subrange(i + 1, b as int), '/')).drop_first()
                    =~= pieces(c@.subrange(i + 1, b as int), '/'));
            }
            if longer_than_64(c, start, i) {
                return Some((start, i));
            }
            start = i + 1;
        }
        i = i + 1;
    }
    let ghost rest = c@.subrange(start as int, b as int);
    proof {
        crate::text::lemma_first_index_none(rest, '/');
        assert(pieces(rest, '/') == seq![rest]);
        assert(seq![rest].drop_first() =~= Seq::<Seq<char>>::empty());
    }
    proof {
        assert(first_long_component(Seq::<Seq<char>>::empty()) is None);
        assert(first_long_component(seq![rest]) == if encode_utf8(rest).len() > 64 { Some(rest) } else { first_long_component(Seq::<Seq<char>>::empty()) });
    }
    if longer_than_64(c, start, b) {
        return Some((start, b));
    }
    None
}

/// Whether every character of the window `[a, b)` of `c` is ASCII.
fn all_ascii(c: &Vec<char>, a: usize, b: usize) -> (r: bool)
    requires
        a <= b <= c@.len(),
    ensures
        r == ascii_only(c@.subrange(a as int, b as int)),
{
    let ghost norm = c@.subrange(a as int, b as int);
    let mut j: usize = a;
    while j < b
        invariant
            a <= j <= b,
            b <= c@.len(),
            norm == c@.subrange(a as int, b as int),
            forall|k: int| a <= k < j ==> (#[trigger] c@[k] as u32) < 128,
        decreases b - j,
    {
        if c[j] as u32 >= 128 {
            proof {
                assert(norm[j - a] == c@[j as int]);
            }
            return false;
        }
        j = j + 1;
    }
    proof {
        assert forall|k: int| 0 <= k < norm.len() implies (#[trigger] norm[k] as u32) < 128 by {
            assert(norm[k] == c@[a + k]);
        }
    }
    true
}

/// Check that a template id is a safe path under the template root.
pub fn validate_template_path(template_id: &str) -> (r: Result<(), TemplateError>)
    ensures
        match path_violation(template_id@) {
            None => r is Ok,
            Some(m) => r matches Err(TemplateError::PathTraversal(t)) && t@ == m,
        },
{
    let c = crate::text::str_chars(template_id);
    let n = c.len();
    proof {
        reveal_strlit("..");
    }
    if n > 0 && (c[0] == '/' || c[0] == '\\') {
        let mut m = String::from_str("Absolute path not allowed: ");
        m.append(template_id);
        return Err(TemplateError::PathTraversal(m));
    }
    if crate::text::contains_str(&c, "..") {
        let mut m = String::from_str("Path traversal not allowed: ");
        m.append(template_id);
        return Err(TemplateError::PathTraversal(m));
    }
    if crate::text::contains_char(&c, '\0') {
        proof {
            crate::text::lemma_has_sub_single(c@, '\0');
        }
        let mut m = String::from_str("Null byte not allowed: ");
        m.append(template_id);
        return Err(TemplateError::PathTraversal(m));
    }
    proof {
        crate::text::lemma_has_sub_single(c@, '\0');
    }
    let (a, b) = slash_window(&c);
    if a == b {
        return Err(TemplateError::PathTraversal(String::from_str("Empty path not allowed")));
    }
    match first_long_window(&c, a, b) {
        Some((x, y)) => {
            let mut m = String::from_str("Path component exceeds 64 characters: ");
            m.append(template_id.substring_char(x, y));
            return Err(TemplateError::PathTraversal(m));
        },
        None => {},
    }
    if !all_ascii(&c, a, b) {
        let mut m = String::from_str("Non-ASCII path not allowed: ");
        m.append(template_id);
        return Err(TemplateError::PathTraversal(m));
    }
    Ok(())
}

/// The window of `c` left once separators are trimmed from its ends.
fn slash_window(c: &Vec<char>) -> (r: (usize, usize))
    ensures
        r.0 <= r.1 <= c@.len(),
        c@.subrange(r.0 as int, r.1 as int) == trim_slashes(c@),
{
    let n = c.len();
    let mut i: usize = 0;
    proof {
        assert(c@.subrange(0, n as int) =~= c@);
    }
    while i < n && (c[i] == '/' || c[i] == '\\')
        invariant
            i <= n,
            n == c@.len(),
            strip_leading_slashes(c@) == strip_leading_slashes(c@.subrange(i as int, n as int)),
        decreases n - i,
    {
        proof {
            assert(c@.subrange(i as int, n as int).drop_first() =~= c@.subrange(i + 1, n as int));
        }
        i = i + 1;
    }
    let mut j: usize = n;
    proof {
        assert(strip_leading_slashes(c@) == c@.subrange(i as int, n as int));
    }
    while j > i && (c[j - 1] == '/' || c[j - 1] == '\\')
        invariant
            i <= j <= n,
            n == c@.len(),
            trim_slashes(c@) == strip_trailing_slashes(c@.subrange(i as int, j as int)),
        decreases j - i,
    {
        proof {
            assert(c@.subrange(i as int, j as int).drop_last() =~= c@.subrange(i as int, j - 1));
        }
        j = j - 1;
    }
    (i, j)
}

// ── Bundles ──────────────────────────────────────────────────────────────────

/// The bundle manifests and skills registered, each by id; registering an
/// id again replaces what was held under it.
#[derive(Debug)]
pub struct Registry {
    bundles: Vec<BundleManifest>,
    skills: KeyedTable<Skill>,
}

/// The ids of `bs`, in order.
pub open spec fn bundle_ids(bs: Seq<BundleManifest>) -> Seq<Seq<char>> {
    Seq::new(bs.len(), |i: int| bs[i].id@)
}

/// Some manifest of `bs` has id `k`.
pub open spec fn holds_bundle(bs: Seq<BundleManifest>, k: Seq<char>) -> bool {
    exists|i: int| 0 <= i < bs.len() && bs[i].id@ == k
}

/// A manifest of `bs` with id `k`.
pub open spec fn bundle_under(bs: Seq<BundleManifest>, k: Seq<char>) -> BundleManifest {
    bs[choose|i: int| 0 <= i < bs.len() && bs[i].id@ == k]
}

/// The skill ids of `skills`, in order.
pub open spec fn skill_ids_of(skills: Seq<crate::bundle::BundleSkill>) -> Seq<Seq<char>> {
    Seq::new(skills.len(), |i: int| skills[i].id@)
}

/// The views of `v`, in order.
pub open spec fn texts_of(v: Seq<String>) -> Seq<Seq<char>> {
    Seq::new(v.len(), |i: int| v[i]@)
}

/// The skill ids of a bundle, as a set.
pub open spec fn skill_set(b: BundleManifest) -> Set<Seq<char>> {
    skill_ids_of(b.skills@).to_set()
}

impl View for Registry {
    type V = Map<Seq<char>, BundleManifest>;

    closed spec fn view(&self) -> Self::V {
        Map::new(|k: Seq<char>| holds_bundle(self.bundles@, k), |k: Seq<char>| bundle_under(self.bundles@, k))
    }
}

impl Registry {
    /// The manifests held, in registration order of their ids.
    pub closed spec fn bundles_view(&self) -> Seq<BundleManifest> {
        self.bundles@
    }

    /// The skills held, by id.
    pub closed spec fn skills_view(&self) -> Map<Seq<char>, SkillView> {
        self.skills@
    }

    /// No id is held twice, and each skill is held under its own id.
    pub closed spec fn wf(&self) -> bool {
        &&& bundle_ids(self.bundles@).no_duplicates()
        &&& self.skills.wf()
        &&& forall|k: Seq<char>| #[trigger] self.skills@.dom().contains(k) ==> self.skills@[k].id == k
    }

    /// An empty registry.
    pub fn new() -> (r: Registry)
        ensures
            r.wf(),
            r@ == Map::<Seq<char>, BundleManifest>::empty(),
            r.bundles_view().len() == 0,
            r.skills_view() == Map::<Seq<char>, SkillView>::empty(),
    {
        let r = Registry { bundles: Vec::new(), skills: KeyedTable::new() };
        proof {
            assert(r@ =~= Map::<Seq<char>, BundleManifest>::empty());
        }
        r
    }

    fn position(&self, id: &str) -> (r: Option<usize>)
        ensures
            r matches Some(i) ==> i < self.bundles@.len() && self.bundles@[i as int].id@ == id@,
            r is None ==> forall|i: int| 0 <= i < self.bundles@.len() ==> self.bundles@[i].id@ != id@,
    {
        let mut i: usize = 0;
        while i < self.bundles.len()
            invariant
                i <= self.bundles@.len(),
                forall|j: int| 0 <= j < i ==> self.bundles@[j].id@ != id@,
            decreases self.bundles@.len() - i,
        {
            if crate::text::str_eq(self.bundles[i].id.as_str(), id) {
                return Some(i);
            }
            i = i + 1;
        }
        None
    }

    proof fn lemma_position_unique(&self, p: int, k: Seq<char>)
        requires
            self.wf(),
            0 <= p < self.bundles@.len(),
            self.bundles@[p].id@ == k,
        ensures
            self@.dom().contains(k),
            self@[k] == self.bundles@[p],
    {
        let ids = bundle_ids(self.bundles@);
        let bs = self.bundles@;
        assert(ids[p] == bs[p].id@);
        assert forall|c: int| 0 <= c < bs.len() && bs[c].id@ == k implies c == p by {
            assert(ids[c] == bs[c].id@);
        }
        assert(self@[k] == bundle_under(bs, k));
    }

    /// Register a bundle manifest under its id, replacing any held there.
    pub fn register_bundle(&mut self, bundle: BundleManifest)
        requires
            old(self).wf(),
        ensures
            final(self).wf(),
            final(self)@ == old(self)@.insert(bundle.id@, bundle),
            final(self).skills_view() == old(self).skills_view(),
    {
        let ghost before = self.bundles@;
        let ghost ids0 = bundle_ids(before);
        let ghost b = bundle;
        match self.position(bundle.id.as_str()) {
            Some(i) => {
                self.bundles.set(i, bundle);
                proof {
                    let ids = bundle_ids(self.bundles@);
                    assert(ids =~= ids0.update(i as int, b.id@));
                    assert(ids.no_duplicates()) by {
                        assert forall|x: int, y: int| 0 <= x < ids.len() && 0 <= y < ids.len() && x != y implies ids[x] != ids[y] by {
                            assert(ids0[i as int] == b.id@);
                        }
                    }
                    assert forall|k: Seq<char>| #[trigger] self@.dom().contains(k) <==> old(self)@.insert(b.id@, b).dom().contains(k) by {
                        if old(self)@.dom().contains(k) && k != b.id@ {
                            let j = choose|j: int| 0 <= j < before.len() && before[j].id@ == k;
                            assert(self.bundles@[j] == before[j]);
                        }
                        if self@.dom().contains(k) && k != b.id@ {
                            let j = choose|j: int| 0 <= j < self.bundles@.len() && self.bundles@[j].id@ == k;
                            assert(self.bundles@[j] == before[j]);
                        }
                        if k == b.id@ {
                            assert(self.bundles@[i as int].id@ == k);
                        }
                    }
                    assert forall|k: Seq<char>| #[trigger] self@.dom().contains(k)
                        implies self@[k] == old(self)@.insert(b.id@, b)[k] by {
                        let j = choose|j: int| 0 <= j < self.bundles@.len() && self.bundles@[j].id@ == k;
                        self.lemma_position_unique(j, k);
                        if k != b.id@ {
                            assert(self.bundles@[j] == before[j]);
                            let j2 = choose|j2: int| 0 <= j2 < before.len() && before[j2].id@ == k;
                            assert(ids0[j2] == k && ids0[j] == k);
                        } else {
                            assert(ids[i as int] == k);
                            assert(ids[j] == self.bundles@[j].id@);
                            assert(j == i as int);
                        }
                    }
                    assert(self@ =~= old(self)@.insert(b.id@, b));
                }
            },
            None => {
                self.bundles.push(bundle);
                proof {
                    let n = before.len() as int;
                    let ids = bundle_ids(self.bundles@);
                    assert(ids =~= ids0.push(b.id@));
                    assert(ids.no_duplicates()) by {
                        assert forall|x: int, y: int| 0 <= x < ids.len() && 0 <= y < ids.len() && x != y implies ids[x] != ids[y] by {
                            if x == n {
                                assert(before[y].id@ != b.id@);
                            } else if y == n {
                                assert(before[x].id@ != b.id@);
                            }
                        }
                    }
                    assert forall|k: Seq<char>| #[trigger] self@.dom().contains(k) <==> old(self)@.insert(b.id@, b).dom().contains(k) by {
                        if old(self)@.dom().contains(k) {
                            let j = choose|j: int| 0 <= j < before.len() && before[j].id@ == k;
                            assert(self.bundles@[j] == before[j]);
                        }
                        if self@.dom().contains(k) && k != b.id@ {
                            let j = choose|j: int| 0 <= j < self.bundles@.len() && self.bundles@[j].id@ == k;
                            assert(j < n);
                            assert(self.bundles@[j] == before[j]);
                        }
                        if k == b.id@ {
                            assert(self.bundles@[n].id@ == k);
                        }
                    }
                    assert forall|k: Seq<char>| #[trigger] self@.dom().contains(k)
                        implies self@[k] == old(self)@.insert(b.id@, b)[k] by {
                        let j = choose|j: int| 0 <= j < self.bundles@.len() && self.bundles@[j].id@ == k;
                        self.lemma_position_unique(j, k);
                        if k != b.id@ {
                            assert(j < n);
                            assert(self.bundles@[j] == before[j]);
                            let j2 = choose|j2: int| 0 <= j2 < before.len() && before[j2].id@ == k;
                            assert(ids0[j2] == k && ids0[j] == k);
                        } else {
                            assert(ids[n] == k);
                        }
                    }
                    assert(self@ =~= old(self)@.insert(b.id@, b));
                }
            },
        }
    }

    /// The manifest registered under `id`.
    pub fn get_bundle(&self, id: &str) -> (r: Option<&BundleManifest>)
        requires
            self.wf(),
        ensures
            self@.dom().contains(id@) ==> r == Some(&self@[id@]),
            !self@.dom().contains(id@) ==> r is None,
    {
        match self.position(id) {
            Some(i) => {
                proof {
                    self.lemma_position_unique(i as int, id@);
                }
                Some(&self.bundles[i])
            },
            None => None,
        }
    }

    /// The manifests held, in registration order.
    pub fn list_bundles(&self) -> (r: Vec<&BundleManifest>)
        requires
            self.wf(),
        ensures
            r@.len() == self@.dom().len(),
            forall|i: int| 0 <= i < r@.len() ==> self@.dom().contains(r@[i].id@) && self@[r@[i].id@] == *r@[i],
            forall|i: int, j: int| 0 <= i < j < r@.len() ==> r@[i].id@ != r@[j].id@,
    {
        let mut r: Vec<&BundleManifest> = Vec::new();
        let mut i: usize = 0;
        while i < self.bundles.len()
            invariant
                i <= self.bundles@.len(),
                r@.len() == i,
                forall|k: int| 0 <= k < i ==> *r@[k] == self.bundles@[k],
            decreases self.bundles@.len() - i,
        {
            r.push(&self.bundles[i]);
            i = i + 1;
        }
        proof {
            let ids = bundle_ids(self.bundles@);
            assert forall|k: int| 0 <= k < r@.len() implies self@.dom().contains(r@[k].id@) && self@[r@[k].id@] == *r@[k] by {
                self.lemma_position_unique(k, r@[k].id@);
            }
            assert forall|a: int, b: int| 0 <= a < b < r@.len() implies r@[a].id@ != r@[b].id@ by {
                assert(ids[a] == self.bundles@[a].id@ && ids[b] == self.bundles@[b].id@);
            }
            assert(self@.dom() =~= ids.to_set()) by {
                assert forall|k: Seq<char>| self@.dom().contains(k) <==> ids.to_set().contains(k) by {
                    if self@.dom().contains(k) {
                        let j = choose|j: int| 0 <= j < self.bundles@.len() && self.bundles@[j].id@ == k;
                        assert(ids[j] == k);
                    }
                    if ids.to_set().contains(k) {
                        let j = choose|j: int| 0 <= j < ids.len() && ids[j] == k;
                        assert(self.bundles@[j].id@ == k);
                    }
                }
            }
            ids.unique_seq_to_set();
        }
        r
    }

    /// Remove the manifest registered under `id`, handing it back.
    pub fn remove_bundle(&mut self, id: &str) -> (r: Option<BundleManifest>)
        requires
            old(self).wf(),
        ensures
            final(self).wf(),
            final(self)@ == old(self)@.remove(id@),
            final(self).skills_view() == old(self).skills_view(),
            old(self)@.dom().contains(id@) ==> r == Some(old(self)@[id@]),
            !old(self)@.dom().contains(id@) ==> r is None,
    {
        match self.position(id) {
            Some(i) => {
                let ghost before = self.bundles@;
                let ghost ids0 = bundle_ids(before);
                proof {
                    self.lemma_position_unique(i as int, id@);
                }
                let gone = self.bundles.remove(i);
                proof {
                    let ids = bundle_ids(self.bundles@);
                    assert(ids =~= ids0.remove(i as int));
                    assert(ids.no_duplicates()) by {
                        assert forall|a: int, b: int| 0 <= a < ids.len() && 0 <= b < ids.len() && a != b implies ids[a] != ids[b] by {
                            let a0 = if a < i { a } else { a + 1 };
                            let b0 = if b < i { b } else { b + 1 };
                            assert(ids[a] == ids0[a0] && ids[b] == ids0[b0]);
                        }
                    }
                    assert forall|k: Seq<char>| #[trigger] self@.dom().contains(k) <==> old(self)@.remove(id@).dom().contains(k) by {
                        if self@.dom().contains(k) {
                            let j = choose|j: int| 0 <= j < self.bundles@.len() && self.bundles@[j].id@ == k;
                            let j0 = if j < i { j } else { j + 1 };
                            assert(self.bundles@[j] == before[j0]);
                            assert(ids0[j0] == k && ids0[i as int] == id@);
                        }
                        if old(self)@.remove(id@).dom().contains(k) {
                            let j = choose|j: int| 0 <= j < before.len() && before[j].id@ == k;
                            assert(j != i);
                            let j1 = if j < i { j } else { j - 1 };
                            assert(self.bundles@[j1] == before[j]);
                        }
                    }
                    assert forall|k: Seq<char>| #[trigger] self@.dom().contains(k) implies self@[k] == old(self)@.remove(id@)[k] by {
                        let j = choose|j: int| 0 <= j < self.bundles@.len() && self.bundles@[j].id@ == k;
                        let j0 = if j < i { j } else { j + 1 };
                        assert(self.bundles@[j] == before[j0]);
                        let j2 = choose|j2: int| 0 <= j2 < before.len() && before[j2].id@ == k;
                        assert(ids0[j2] == k && ids0[j0] == k);
                        assert(ids[j] == k);
                    }
                    assert(self@ =~= old(self)@.remove(id@));
                }
                Some(gone)
            },
            None => {
                proof {
                    assert(!self@.dom().contains(id@));
                    assert(self@ =~= self@.remove(id@));
                }
                None
            },
        }
    }

    /// Register `skill` under its id, replacing any held there.
    pub fn register_skill(&mut self, skill: Skill)
        requires
            old(self).wf(),
        ensures
            final(self).wf(),
            final(self).skills_view() == old(self).skills_view().insert(skill@.id, skill@),
            final(self)@ == old(self)@,
            final(self).bundles_view() == old(self).bundles_view(),
    {
        let k = skill.id.clone();
        self.skills.insert(k, skill);
    }

    /// The skill registered under `id`.
    pub fn get_skill(&self, id: &str) -> (r: Option<Skill>)
        requires
            self.wf(),
        ensures
            self.skills_view().dom().contains(id@) ==> (r matches Some(s) && s@ == self.skills_view()[id@]),
            !self.skills_view().dom().contains(id@) ==> r is None,
    {
        match self.skills.get(id) {
            Some(s) => Some(s.copy()),
            None => None,
        }
    }

    /// Remove the skill registered under `id`, handing it back.
    pub fn remove_skill(&mut self, id: &str) -> (r: Option<Skill>)
        requires
            old(self).wf(),
        ensures
            final(self).wf(),
            final(self).skills_view() == old(self).skills_view().remove(id@),
            old(self).skills_view().dom().contains(id@) ==> (r matches Some(s) && s@ == old(self).skills_view()[id@]),
            !old(self).skills_view().dom().contains(id@) ==> r is None,
            final(self)@ == old(self)@,
            final(self).bundles_view() == old(self).bundles_view(),
    {
        match self.skills.position(id) {
            Some(i) => {
                proof {
                    self.skills.lemma_entry(i as int);
                }
                let (_, gone) = self.skills.remove_at(i);
                Some(gone)
            },
            None => {
                proof {
                    assert(self.skills@.remove(id@) =~= self.skills@);
                }
                None
            },
        }
    }

    fn select_skills(&self, f: &SkillFilter) -> (r: Vec<Skill>)
        requires
            self.wf(),
        ensures
            skills_selected(self.skills_view(), |s: SkillView| filter_keeps(*f, s), r@),
    {
        let t = &self.skills;
        let n = t.len();
        let mut out: Vec<Skill> = Vec::new();
        let ghost mut at: Seq<int> = Seq::empty();
        let mut i: usize = 0;
        while i < n
            invariant
                self.wf(),
                n == t.entries().len(),
                i <= n,
                out@.len() == at.len(),
                forall|j: int| 0 <= j < at.len() ==> 0 <= #[trigger] at[j] < i && out@[j]@ == t.entries()[at[j]].1@
                    && filter_keeps(*f, out@[j]@),
                forall|j: int, l: int| 0 <= j < l < at.len() ==> at[j] < at[l],
                forall|p: int| 0 <= p < i && #[trigger] filter_keeps(*f, t.entries()[p].1@) ==> at.contains(p),
            decreases n - i,
        {
            let s = t.value_at(i);
            let ghost at0 = at;
            if filter_test(f, s) {
                out.push(s.copy());
                proof {
                    at = at.push(i as int);
                }
            }
            proof {
                assert forall|p: int| 0 <= p < i + 1 && #[trigger] filter_keeps(*f, t.entries()[p].1@) implies at.contains(p) by {
                    if p == i {
                        assert(at[at.len() - 1] == p);
                    } else {
                        assert(at0.contains(p));
                        let j = choose|j: int| 0 <= j < at0.len() && at0[j] == p;
                        assert(at[j] == p);
                    }
                }
            }
            i = i + 1;
        }
        proof {
            let m = self.skills_view();
            let keep = |s: SkillView| filter_keeps(*f, s);
            assert forall|j: int| 0 <= j < out@.len() implies m.dom().contains(#[trigger] out@[j]@.id) && m[out@[j]@.id] == out@[j]@
                && keep(out@[j]@) by {
                t.lemma_entry(at[j]);
                assert(m[t.entries()[at[j]].0@].id == t.entries()[at[j]].0@);
            }
            assert forall|k: Seq<char>| #[trigger] m.dom().contains(k) && keep(m[k])
                implies exists|j: int| 0 <= j < out@.len() && #[trigger] out@[j]@.id == k by {
                t.lemma_key_has_entry(k);
                let p = choose|p: int| 0 <= p < n && #[trigger] t.entries()[p].0@ == k;
                t.lemma_entry(p);
                assert(filter_keeps(*f, t.entries()[p].1@));
                assert(at.contains(p));
                let j = choose|j: int| 0 <= j < at.len() && at[j] == p;
                assert(out@[j]@.id == k);
            }
            assert forall|a: int, b: int| 0 <= a < b < out@.len() implies out@[a]@.id != out@[b]@.id by {
                t.lemma_entry(at[a]);
                t.lemma_entry(at[b]);
                t.lemma_distinct(at[a], at[b]);
            }
        }
        out
    }

    /// Every skill registered, each once.
    pub fn list_skills(&self) -> (r: Vec<Skill>)
        requires
            self.wf(),
        ensures
            skills_selected(self.skills_view(), |s: SkillView| true, r@),
    {
        let r = self.select_skills(&SkillFilter::All);
        proof {
            assert((|s: SkillView| filter_keeps(SkillFilter::All, s)) =~= (|s: SkillView| true));
        }
        r
    }

    /// The skills registered with visibility `visibility`, each once.
    pub fn list_skills_by_visibility(&self, visibility: Visibility) -> (r: Vec<Skill>)
        requires
            self.wf(),
        ensures
            skills_selected(self.skills_view(), |s: SkillView| s.visibility == visibility, r@),
    {
        let r = self.select_skills(&SkillFilter::Visible(visibility));
        proof {
            assert((|s: SkillView| filter_keeps(SkillFilter::Visible(visibility), s)) =~= (|s: SkillView| s.visibility == visibility));
        }
        r
    }

    /// The skills registered in domain `domain`, each once.
    pub fn skills_by_domain(&self, domain: TemplateType) -> (r: Vec<Skill>)
        requires
            self.wf(),
        ensures
            skills_selected(self.skills_view(), |s: SkillView| s.domain == domain, r@),
    {
        let r = self.select_skills(&SkillFilter::Domain(domain));
        proof {
            assert((|s: SkillView| filter_keeps(SkillFilter::Domain(domain), s)) =~= (|s: SkillView| s.domain == domain));
        }
        r
    }

    /// The skills that name template `template_id`, each once.
    pub fn skills_referencing_template(&self, template_id: &str) -> (r: Vec<Skill>)
        requires
            self.wf(),
        ensures
            skills_selected(self.skills_view(), |s: SkillView| refers_to_template(s, template_id@), r@),
            forall|i: int| 0 <= i < r@.len() ==> names_template(#[trigger] r@[i]@, template_id@),
            forall|k: Seq<char>| #[trigger] self.skills_view().dom().contains(k) && names_template(self.skills_view()[k], template_id@)
                ==> exists|i: int| 0 <= i < r@.len() && #[trigger] r@[i]@.id == k,
    {
        let f = SkillFilter::Template(String::from_str(template_id));
        let r = self.select_skills(&f);
        proof {
            assert((|s: SkillView| filter_keeps(f, s)) =~= (|s: SkillView| refers_to_template(s, template_id@)));
            lemma_template_references(self.skills_view(), template_id@, r@);
        }
        r
    }

    /// The first manifest, in registration order, whose skills are exactly
    /// `skill_ids` as a set.
    pub fn find_bundle_by_skills(&self, skill_ids: &Vec<String>) -> (r: Option<&BundleManifest>)
        ensures
            match first_with_skills(self.bundles_view(), texts_of(skill_ids@).to_set()) {
                Some(i) => r == Some(&self.bundles_view()[i]),
                None => r is None,
            },
    {
        let ghost target = texts_of(skill_ids@).to_set();
        let mut i: usize = 0;
        proof {
            assert(self.bundles@.skip(0) =~= self.bundles@);
        }
        while i < self.bundles.len()
            invariant
                i <= self.bundles@.len(),
                target == texts_of(skill_ids@).to_set(),
                first_with_skills(self.bundles@, target) == match first_with_skills(self.bundles@.skip(i as int), target) {
                    Some(k) => Some(k + i),
                    None => None,
                },
            decreases self.bundles@.len() - i,
        {
            proof {
                assert(self.bundles@.skip(i as int).drop_first() =~= self.bundles@.skip(i + 1));
            }
            if same_skill_set(&self.bundles[i], skill_ids) {
                return Some(&self.bundles[i]);
            }
            i = i + 1;
        }
        proof {
            assert(self.bundles@.skip(i as int).len() == 0);
        }
        None
    }
}

/// `v` lists, each once, the skills of `m` that `keep` holds of.
pub open spec fn skills_selected(m: Map<Seq<char>, SkillView>, keep: spec_fn(SkillView) -> bool, v: Seq<Skill>) -> bool {
    &&& forall|i: int| 0 <= i < v.len() ==> m.dom().contains(#[trigger] v[i]@.id) && m[v[i]@.id] == v[i]@ && keep(v[i]@)
    &&& forall|k: Seq<char>| #[trigger] m.dom().contains(k) && keep(m[k]) ==> exists|i: int| 0 <= i < v.len() && #[trigger] v[i]@.id == k
    &&& forall|i: int, j: int| 0 <= i < j < v.len() ==> v[i]@.id != v[j]@.id
}

/// Skill `s` names template `t` as its word act, flow definition or
/// knowledge act.
pub open spec fn refers_to_template(s: SkillView, t: Seq<char>) -> bool {
    s.word_act == Some(t) || s.flow_def == Some(t) || s.know_act == Some(t)
}

/// One of the three template fields of `s` is `t`.
pub open spec fn names_template(s: SkillView, t: Seq<char>) -> bool {
    ||| s.word_act == Some(t)
    ||| s.flow_def == Some(t)
    ||| s.know_act == Some(t)
}

/// The skills picked as referencing template `t` are exactly the
/// registered skills whose word act, flow definition or knowledge act is
/// `t`: each picked skill has `t` in one of the three fields, and every
/// registered skill with `t` in any of them is picked.
pub proof fn lemma_template_references(m: Map<Seq<char>, SkillView>, t: Seq<char>, v: Seq<Skill>)
    requires
        skills_selected(m, |s: SkillView| refers_to_template(s, t), v),
    ensures
        forall|i: int| 0 <= i < v.len() ==> names_template(#[trigger] v[i]@, t),
        forall|k: Seq<char>| #[trigger] m.dom().contains(k) && names_template(m[k], t)
            ==> exists|i: int| 0 <= i < v.len() && #[trigger] v[i]@.id == k,
{
    assert forall|i: int| 0 <= i < v.len() implies names_template(#[trigger] v[i]@, t) by {
        assert(m.dom().contains(v[i]@.id));
        assert(refers_to_template(v[i]@, t));
    }
    assert forall|k: Seq<char>| #[trigger] m.dom().contains(k) && names_template(m[k], t)
        implies exists|i: int| 0 <= i < v.len() && #[trigger] v[i]@.id == k by {
        assert(refers_to_template(m[k], t));
    }
}

enum SkillFilter {
    All,
    Visible(Visibility),
    Domain(TemplateType),
    Template(String),
}

spec fn filter_keeps(f: SkillFilter, s: SkillView) -> bool {
    match f {
        SkillFilter::All => true,
        SkillFilter::Visible(v) => s.visibility == v,
        SkillFilter::Domain(d) => s.domain == d,
        SkillFilter::Template(t) => refers_to_template(s, t@),
    }
}

fn same_text(a: &Option<String>, b: &str) -> (r: bool)
    ensures
        r == (crate::wallet::opt_view(*a) == Some(b@)),
{
    match a {
        Some(x) => crate::text::str_eq(x.as_str(), b),
        None => false,
    }
}

fn filter_test(f: &SkillFilter, s: &Skill) -> (r: bool)
    ensures
        r == filter_keeps(*f, s@),
{
    match f {
        SkillFilter::All => true,
        SkillFilter::Visible(v) => s.visibility == *v,
        SkillFilter::Domain(d) => s.domain == *d,
        SkillFilter::Template(t) => same_text(&s.word_act, t.as_str()) || same_text(&s.flow_def, t.as_str())
            || same_text(&s.know_act, t.as_str()),
    }
}

/// The first bundle of `bs` whose skill set is `target`.
pub open spec fn first_with_skills(bs: Seq<BundleManifest>, target: Set<Seq<char>>) -> Option<int>
    decreases bs.len(),
{
    if bs.len() == 0 {
        None
    } else if skill_set(bs[0]) == target {
        Some(0)
    } else {
        match first_with_skills(bs.drop_first(), target) {
            Some(i) => Some(i + 1),
            None => None,
        }
    }
}

/// Whether `id` is one of `ids`.
fn text_listed(ids: &Vec<String>, id: &str) -> (r: bool)
    ensures
        r == texts_of(ids@).contains(id@),
{
    let mut i: usize = 0;
    while i < ids.len()
        invariant
            i <= ids@.len(),
            forall|k: int| 0 <= k < i ==> ids@[k]@ != id@,
        decreases ids@.len() - i,
    {
        if crate::text::str_eq(ids[i].as_str(), id) {
            proof {
                assert(texts_of(ids@)[i as int] == id@);
            }
            return true;
        }
        i = i + 1;
    }
    proof {
        let m = texts_of(ids@);
        if m.contains(id@) {
            let k = choose|k: int| 0 <= k < m.len() && m[k] == id@;
            assert(ids@[k]@ == id@);
        }
    }
    false
}

/// Whether `id` is the id of one of `skills`.
fn skill_listed(skills: &Vec<crate::bundle::BundleSkill>, id: &str) -> (r: bool)
    ensures
        r == skill_ids_of(skills@).contains(id@),
{
    let mut i: usize = 0;
    while i < skills.len()
        invariant
            i <= skills@.len(),
            forall|k: int| 0 <= k < i ==> skills@[k].id@ != id@,
        decreases skills@.len() - i,
    {
        if crate::text::str_eq(skills[i].id.as_str(), id) {
            proof {
                assert(skill_ids_of(skills@)[i as int] == id@);
            }
            return true;
        }
        i = i + 1;
    }
    proof {
        let m = skill_ids_of(skills@);
        if m.contains(id@) {
            let k = choose|k: int| 0 <= k < m.len() && m[k] == id@;
            assert(skills@[k].id@ == id@);
        }
    }
    false
}

/// Whether the bundle's skills are exactly `skill_ids`, as sets.
fn same_skill_set(b: &BundleManifest, skill_ids: &Vec<String>) -> (r: bool)
    ensures
        r == (skill_set(*b) == texts_of(skill_ids@).to_set()),
{
    let ghost mine = skill_ids_of(b.skills@);
    let ghost theirs = texts_of(skill_ids@);
    let mut i: usize = 0;
    while i < b.skills.len()
        invariant
            i <= b.skills@.len(),
            mine == skill_ids_of(b.skills@),
            theirs == texts_of(skill_ids@),
            forall|k: int| 0 <= k < i ==> theirs.contains(#[trigger] mine[k]),
        decreases b.skills@.len() - i,
    {
        if !text_listed(skill_ids, b.skills[i].id.as_str()) {
            proof {
                assert(mine[i as int] == b.skills@[i as int].id@);
                assert(mine.to_set().contains(mine[i as int]));
                assert(!theirs.to_set().contains(mine[i as int]));
            }
            return false;
        }
        i = i + 1;
    }
    let mut j: usize = 0;
    while j < skill_ids.len()
        invariant
            j <= skill_ids@.len(),
            mine == skill_ids_of(b.skills@),
            theirs == texts_of(skill_ids@),
            forall|k: int| 0 <= k < j ==> mine.contains(#[trigger] theirs[k]),
        decreases skill_ids@.len() - j,
    {
        if !skill_listed(&b.skills, skill_ids[j].as_str()) {
            proof {
                assert(theirs[j as int] == skill_ids@[j as int]@);
                assert(theirs.to_set().contains(theirs[j as int]));
                assert(!mine.to_set().contains(theirs[j as int]));
            }
            return false;
        }
        j = j + 1;
    }
    proof {
        assert(mine.to_set() =~= theirs.to_set()) by {
            assert forall|x: Seq<char>| mine.to_set().contains(x) implies theirs.to_set().contains(x) by {
                let k = choose|k: int| 0 <= k < mine.len() && mine[k] == x;
                assert(theirs.contains(mine[k]));
            }
            assert forall|x: Seq<char>| theirs.to_set().contains(x) implies mine.to_set().contains(x) by {
                let k = choose|k: int| 0 <= k < theirs.len() && theirs[k] == x;
                assert(mine.contains(theirs[k]));
            }
        }
    }
    true
}

} // verus!

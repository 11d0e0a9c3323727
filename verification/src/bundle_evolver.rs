//! Bundle evolution: which skills of a bundle changed since it was composed,
//! which bundles depend on changed skills, and how far the bundle's version
//! must move.
use vstd::prelude::*;
use vstd::string::*;
use crate::bundle::{BundleManifest, BundleSkill, SkillPolarity};
use crate::graph::names_view;
use crate::lexicon::TemplateType;

verus! {

/// Who may see a skill.
#[derive(Debug, Clone, Copy, PartialEq, Eq, Structural)]
pub enum Visibility {
    Public,
    Private,
}

/// A skill as it currently stands: its content hash and polarity, the
/// domain it belongs to, who may see it, and the templates it composes.
#[derive(Debug)]
pub struct Skill {
    pub id: String,
    pub content_hash: Option<String>,
    pub polarity: Option<SkillPolarity>,
    pub cascade_order: Vec<String>,
    pub domain: TemplateType,
    pub visibility: Visibility,
    pub word_act: Option<String>,
    pub flow_def: Option<String>,
    pub know_act: Option<String>,
}

/// The view of a skill.
pub struct SkillView {
    pub id: Seq<char>,
    pub content_hash: Option<Seq<char>>,
    pub polarity: Option<SkillPolarity>,
    pub cascade_order: Seq<Seq<char>>,
    pub domain: TemplateType,
    pub visibility: Visibility,
    pub word_act: Option<Seq<char>>,
    pub flow_def: Option<Seq<char>>,
    pub know_act: Option<Seq<char>>,
}

impl View for Skill {
    type V = SkillView;

    open spec fn view(&self) -> SkillView {
        SkillView {
            id: self.id@,
            content_hash: crate::wallet::opt_view(self.content_hash),
            polarity: self.polarity,
            cascade_order: names_view(self.cascade_order@),
            domain: self.domain,
            visibility: self.visibility,
            word_act: crate::wallet::opt_view(self.word_act),
            flow_def: crate::wallet::opt_view(self.flow_def),
            know_act: crate::wallet::opt_view(self.know_act),
        }
    }
}

fn copy_text(o: &Option<String>) -> (r: Option<String>)
    ensures
        r == *o,
{
    match o {
        Some(s) => Some(s.clone()),
        None => None,
    }
}

impl Skill {
    /// A copy of the skill.
    pub fn copy(&self) -> (r: Skill)
        ensures
            r@ == self@,
    {
        Skill {
            id: self.id.clone(),
            content_hash: copy_text(&self.content_hash),
            polarity: self.polarity,
            cascade_order: clone_strings(&self.cascade_order),
            domain: self.domain,
            visibility: self.visibility,
            word_act: copy_text(&self.word_act),
            flow_def: copy_text(&self.flow_def),
            know_act: copy_text(&self.know_act),
        }
    }
}

/// A skill whose content changed since the bundle recorded it.
#[derive(Debug)]
pub struct BundleSkillChange {
    pub skill_id: String,
    pub previous_hash: String,
    pub current_hash: String,
    pub polarity_changed: bool,
}

/// How far a version moves.
#[derive(Debug, Clone, Copy, PartialEq, Eq, Structural)]
pub enum VersionBump {
    Major,
    Minor,
    Patch,
}

/// The character view of a change: skill, previous hash, current hash and
/// whether the polarity changed.
pub open spec fn change_view(c: BundleSkillChange) -> (Seq<char>, Seq<char>, Seq<char>, bool) {
    (c.skill_id@, c.previous_hash@, c.current_hash@, c.polarity_changed)
}

/// The views of a list of changes.
pub open spec fn changes_view(cs: Seq<BundleSkillChange>) -> Seq<(Seq<char>, Seq<char>, Seq<char>, bool)> {
    cs.map_values(|c: BundleSkillChange| change_view(c))
}

/// The position of the first current skill with id `id`.
pub open spec fn current_of(skills: Seq<Skill>, id: Seq<char>) -> Option<int>
    decreases skills.len(),
{
    if skills.len() == 0 {
        None
    } else if skills[0].id@ == id {
        Some(0)
    } else {
        match current_of(skills.drop_first(), id) {
            Some(i) => Some(i + 1),
            None => None,
        }
    }
}

/// The hash a skill has now; empty when it has none.
pub open spec fn hash_now(s: Skill) -> Seq<char> {
    match s.content_hash {
        Some(h) => h@,
        None => Seq::empty(),
    }
}

/// The current skill's polarity is known and differs from the recorded one.
pub open spec fn polarity_moved(s: Skill, recorded: SkillPolarity) -> bool {
    match s.polarity {
        Some(p) => p != recorded,
        None => false,
    }
}

/// The change of one bundle skill: its current version has a non-empty hash
/// that differs from the recorded one.
pub open spec fn change_of(b: BundleSkill, skills: Seq<Skill>) -> Option<(Seq<char>, Seq<char>, Seq<char>, bool)> {
    match current_of(skills, b.id@) {
        Some(i) => {
            let h = hash_now(skills[i]);
            if h != b.content_hash@ && h.len() > 0 {
                Some((b.id@, b.content_hash@, h, polarity_moved(skills[i], b.polarity)))
            } else {
                None
            }
        },
        None => None,
    }
}

/// The changes of the bundle skills, in bundle order.
pub open spec fn changes_of(bs: Seq<BundleSkill>, skills: Seq<Skill>) -> Seq<(Seq<char>, Seq<char>, Seq<char>, bool)>
    decreases bs.len(),
{
    if bs.len() == 0 {
        Seq::empty()
    } else {
        let prev = changes_of(bs.drop_last(), skills);
        match change_of(bs.last(), skills) {
            Some(c) => prev.push(c),
            None => prev,
        }
    }
}

/// The bump the changes call for: major for a polarity change, minor for
/// any other change, patch without changes.
pub open spec fn bump_for(cs: Seq<(Seq<char>, Seq<char>, Seq<char>, bool)>) -> VersionBump {
    if exists|i: int| 0 <= i < cs.len() && (#[trigger] cs[i]).3 {
        VersionBump::Major
    } else if cs.len() > 0 {
        VersionBump::Minor
    } else {
        VersionBump::Patch
    }
}

/// The first current skill with id `id`.
fn find_current(skills: &Vec<Skill>, id: &String) -> (r: Option<usize>)
    ensures
        r matches Some(k) ==> k < skills@.len() && current_of(skills@, id@) == Some(k as int),
        r is None ==> current_of(skills@, id@) is None,
{
    let mut i: usize = 0;
    proof {
        assert(skills@.skip(0) =~= skills@);
    }
    while i < skills.len()
        invariant
            i <= skills@.len(),
            current_of(skills@, id@) == match current_of(skills@.skip(i as int), id@) {
                Some(k) => Some(k + i),
                None => None,
            },
        decreases skills@.len() - i,
    {
        proof {
            assert(skills@.skip(i as int).drop_first() =~= skills@.skip(i + 1));
            assert(skills@.skip(i as int)[0] == skills@[i as int]);
        }
        if skills[i].id == *id {
            return Some(i);
        }
        i = i + 1;
    }
    None
}

/// The hash a skill has now.
fn current_hash(s: &Skill) -> (r: String)
    ensures
        r@ == hash_now(*s),
{
    match &s.content_hash {
        Some(h) => h.clone(),
        None => String::new(),
    }
}

/// Whether the current polarity is known and differs from `recorded`.
fn polarity_differs(s: &Skill, recorded: SkillPolarity) -> (r: bool)
    ensures
        r == polarity_moved(*s, recorded),
{
    match s.polarity {
        Some(p) => p != recorded,
        None => false,
    }
}

/// What was learned of one evolved skill.
#[derive(Debug)]
pub struct EvolvedSkillInfo {
    pub id: String,
    pub name: String,
    pub polarity: SkillPolarity,
    pub lexicon_terms: Vec<String>,
    pub previous_hash: String,
    pub current_hash: String,
    pub change_summary: String,
}

/// A skill that did not change.
#[derive(Debug)]
pub struct UnchangedSkillInfo {
    pub id: String,
    pub name: String,
    pub polarity: SkillPolarity,
    pub content_hash: String,
}

/// What the evolution of a bundle works from.
#[derive(Debug)]
pub struct EvolutionContext {
    pub bundle_id: String,
    pub evolved_skills: Vec<EvolvedSkillInfo>,
    pub unchanged_skills: Vec<UnchangedSkillInfo>,
    pub changes: Vec<BundleSkillChange>,
    pub version_bump: VersionBump,
}

/// Some change concerns the skill `id`.
pub open spec fn changed(cs: Seq<(Seq<char>, Seq<char>, Seq<char>, bool)>, id: Seq<char>) -> bool {
    exists|i: int| 0 <= i < cs.len() && (#[trigger] cs[i]).0 == id
}

/// The summary of an evolved skill.
pub open spec fn summary_for(polarity_changed: bool) -> Seq<char> {
    if polarity_changed {
        "Polarity changed — full re-analysis required"@
    } else {
        "Content hash differs — re-analysis recommended"@
    }
}

/// The evolved-skill record of bundle skill `b` with current version `s`:
/// id, name, polarity, terms, previous hash, current hash and summary.
pub open spec fn evolved_view(b: BundleSkill, s: Skill) -> (Seq<char>, Seq<char>, SkillPolarity, Seq<Seq<char>>, Seq<char>, Seq<char>, Seq<char>) {
    (s.id@, s.id@, match s.polarity { Some(p) => p, None => b.polarity }, names_view(s.cascade_order@),
        b.content_hash@, hash_now(s), summary_for(polarity_moved(s, b.polarity)))
}

/// The view of an evolved-skill record.
pub open spec fn evolved_info_view(e: EvolvedSkillInfo) -> (Seq<char>, Seq<char>, SkillPolarity, Seq<Seq<char>>, Seq<char>, Seq<char>, Seq<char>) {
    (e.id@, e.name@, e.polarity, names_view(e.lexicon_terms@), e.previous_hash@, e.current_hash@, e.change_summary@)
}

/// The view of an unchanged-skill record.
pub open spec fn unchanged_info_view(u: UnchangedSkillInfo) -> (Seq<char>, Seq<char>, SkillPolarity, Seq<char>) {
    (u.id@, u.name@, u.polarity, u.content_hash@)
}

/// The evolved skills: for each changed bundle skill with a current version,
/// in bundle order.
pub open spec fn evolved_of(bs: Seq<BundleSkill>, skills: Seq<Skill>, cs: Seq<(Seq<char>, Seq<char>, Seq<char>, bool)>) -> Seq<(Seq<char>, Seq<char>, SkillPolarity, Seq<Seq<char>>, Seq<char>, Seq<char>, Seq<char>)>
    decreases bs.len(),
{
    if bs.len() == 0 {
        Seq::empty()
    } else {
        let prev = evolved_of(bs.drop_last(), skills, cs);
        let b = bs.last();
        if changed(cs, b.id@) {
            match current_of(skills, b.id@) {
                Some(i) => prev.push(evolved_view(b, skills[i])),
                None => prev,
            }
        } else {
            prev
        }
    }
}

/// The unchanged skills, in bundle order.
pub open spec fn unchanged_of(bs: Seq<BundleSkill>, cs: Seq<(Seq<char>, Seq<char>, Seq<char>, bool)>) -> Seq<(Seq<char>, Seq<char>, SkillPolarity, Seq<char>)>
    decreases bs.len(),
{
    if bs.len() == 0 {
        Seq::empty()
    } else {
        let prev = unchanged_of(bs.drop_last(), cs);
        let b = bs.last();
        if changed(cs, b.id@) { prev } else { prev.push((b.id@, b.id@, b.polarity, b.content_hash@)) }
    }
}

/// Which bundles contain which skills.
#[derive(Debug)]
pub struct BundleDependencyIndex {
    /// Registered bundles with the ids of their skills, in registration order.
    bundles: Vec<(String, Vec<String>)>,
}

/// The index view: each registered bundle with the ids of its skills.
pub open spec fn index_view(bs: Seq<(String, Vec<String>)>) -> Seq<(Seq<char>, Seq<Seq<char>>)> {
    bs.map_values(|e: (String, Vec<String>)| (e.0@, names_view(e.1@)))
}

/// The bundles that contain a changed skill, in registration order.
pub open spec fn needing(bs: Seq<(Seq<char>, Seq<Seq<char>>)>, cs: Seq<(Seq<char>, Seq<char>, Seq<char>, bool)>) -> Seq<Seq<char>>
    decreases bs.len(),
{
    if bs.len() == 0 {
        Seq::empty()
    } else {
        let prev = needing(bs.drop_last(), cs);
        if exists|k: int| 0 <= k < bs.last().1.len() && changed(cs, #[trigger] bs.last().1[k]) {
            prev.push(bs.last().0)
        } else {
            prev
        }
    }
}

/// The skill ids of a bundle.
fn skill_ids_of(bundle: &BundleManifest) -> (r: Vec<String>)
    ensures
        names_view(r@) == bundle.skills@.map_values(|s: BundleSkill| s.id@),
{
    bundle.skill_ids()
}

/// Whether some change concerns `id`.
fn is_changed(changes: &Vec<BundleSkillChange>, id: &String) -> (r: bool)
    ensures
        r == changed(changes_view(changes@), id@),
{
    let mut i: usize = 0;
    while i < changes.len()
        invariant
            i <= changes@.len(),
            forall|j: int| 0 <= j < i ==> changes@[j].skill_id@ != id@,
        decreases changes@.len() - i,
    {
        if changes[i].skill_id == *id {
            proof {
                assert(changes_view(changes@)[i as int].0 == id@);
            }
            return true;
        }
        i = i + 1;
    }
    proof {
        if changed(changes_view(changes@), id@) {
            let j = choose|j: int| 0 <= j < changes_view(changes@).len() && (#[trigger] changes_view(changes@)[j]).0 == id@;
            assert(changes@[j].skill_id@ == id@);
        }
    }
    false
}

impl BundleDependencyIndex {
    /// The registered bundles with their skill ids.
    pub closed spec fn entries(&self) -> Seq<(Seq<char>, Seq<Seq<char>>)> {
        index_view(self.bundles@)
    }

    /// An empty index.
    pub fn new() -> (r: BundleDependencyIndex)
        ensures
            r.entries().len() == 0,
    {
        BundleDependencyIndex { bundles: Vec::new() }
    }

    /// Register `bundle` with its skills, after removing an earlier entry of
    /// the same id.
    pub fn register_bundle(&mut self, bundle: &BundleManifest)
        ensures
            final(self).entries() == remove_bundle_id(old(self).entries(), bundle.id@).push(
                (bundle.id@, bundle.skills@.map_values(|s: BundleSkill| s.id@))),
    {
        self.remove_bundle(bundle);
        let ghost before = self.entries();
        let ids = skill_ids_of(bundle);
        self.bundles.push((bundle.id.clone(), ids));
        proof {
            assert(self.entries() =~= before.push((bundle.id@, bundle.skills@.map_values(|s: BundleSkill| s.id@))));
        }
    }

    /// Remove the entries of `bundle`'s id.
    pub fn remove_bundle(&mut self, bundle: &BundleManifest)
        ensures
            final(self).entries() == remove_bundle_id(old(self).entries(), bundle.id@),
    {
        let ghost es = self.entries();
        let mut kept: Vec<(String, Vec<String>)> = Vec::new();
        let mut rest: Vec<(String, Vec<String>)> = Vec::new();
        std::mem::swap(&mut rest, &mut self.bundles);
        let ghost all = rest@;
        let n = rest.len();
        let mut i: usize = 0;
        proof {
            assert(rest@ =~= all.skip(0));
            assert(index_view(kept@) =~= remove_bundle_id(index_view(all.take(0)), bundle.id@));
        }
        while rest.len() > 0
            invariant
                es == index_view(all),
                rest@ == all.skip(i as int),
                i + rest@.len() == all.len(),
                n == all.len(),
                index_view(kept@) == remove_bundle_id(index_view(all.take(i as int)), bundle.id@),
            decreases rest@.len(),
        {
            let e = rest.remove(0);
            proof {
                assert(e == all[i as int]);
                assert(rest@ =~= all.skip(i + 1));
                assert(index_view(all.take(i + 1)).drop_last() =~= index_view(all.take(i as int)));
                assert(index_view(all.take(i + 1)).last() == (e.0@, names_view(e.1@)));
            }
            if e.0 != bundle.id {
                let ghost before = index_view(kept@);
                kept.push(e);
                proof {
                    assert(index_view(kept@) =~= before.push((kept@.last().0@, names_view(kept@.last().1@))));
                }
            }
            i = i + 1;
        }
        proof {
            assert(all.take(all.len() as int) =~= all);
        }
        self.bundles = kept;
    }

    /// The ids of the bundles that contain a changed skill, in registration
    /// order.
    pub fn bundles_needing_evolution(&self, changes: &Vec<BundleSkillChange>) -> (r: Vec<String>)
        ensures
            names_view(r@) == needing(self.entries(), changes_view(changes@)),
    {
        let ghost cs = changes_view(changes@);
        let mut r: Vec<String> = Vec::new();
        let mut i: usize = 0;
        while i < self.bundles.len()
            invariant
                i <= self.bundles@.len(),
                cs == changes_view(changes@),
                names_view(r@) == needing(index_view(self.bundles@).take(i as int), cs),
            decreases self.bundles@.len() - i,
        {
            let ids = &self.bundles[i].1;
            let mut hit = false;
            let mut k: usize = 0;
            while k < ids.len() && !hit
                invariant
                    k <= ids@.len(),
                    cs == changes_view(changes@),
                    hit ==> exists|q: int| 0 <= q < ids@.len() && changed(cs, #[trigger] names_view(ids@)[q]),
                    !hit ==> forall|q: int| 0 <= q < k ==> !changed(cs, #[trigger] names_view(ids@)[q]),
                decreases ids@.len() - k,
            {
                if is_changed(changes, &ids[k]) {
                    hit = true;
                    proof {
                        assert(names_view(ids@)[k as int] == ids@[k as int]@);
                    }
                }
                k = k + 1;
            }
            proof {
                let t1 = index_view(self.bundles@).take(i + 1);
                assert(t1.drop_last() =~= index_view(self.bundles@).take(i as int));
                assert(t1.last() == (self.bundles@[i as int].0@, names_view(ids@)));
                if hit {
                    let q = choose|q: int| 0 <= q < ids@.len() && changed(cs, #[trigger] names_view(ids@)[q]);
                    assert(changed(cs, t1.last().1[q]));
                } else {
                    assert(k == ids@.len());
                    assert forall|q: int| 0 <= q < t1.last().1.len() implies !changed(cs, #[trigger] t1.last().1[q]) by {
                        assert(t1.last().1[q] == names_view(ids@)[q]);
                    }
                }
            }
            if hit {
                let ghost before = names_view(r@);
                r.push(self.bundles[i].0.clone());
                proof {
                    assert(names_view(r@) =~= before.push(self.bundles@[i as int].0@));
                }
            }
            i = i + 1;
        }
        proof {
            assert(index_view(self.bundles@).take(self.bundles@.len() as int) =~= index_view(self.bundles@));
        }
        r
    }
}

/// The entries without those of bundle `id`.
pub open spec fn remove_bundle_id(es: Seq<(Seq<char>, Seq<Seq<char>>)>, id: Seq<char>) -> Seq<(Seq<char>, Seq<Seq<char>>)>
    decreases es.len(),
{
    if es.len() == 0 {
        Seq::empty()
    } else {
        let prev = remove_bundle_id(es.drop_last(), id);
        if es.last().0 == id { prev } else { prev.push(es.last()) }
    }
}

/// Tracks which bundles depend on which skills and prepares their evolution.
#[derive(Debug)]
pub struct BundleEvolver {
    dependency_index: BundleDependencyIndex,
}

impl BundleEvolver {
    /// The registered bundles with their skill ids.
    pub closed spec fn entries(&self) -> Seq<(Seq<char>, Seq<Seq<char>>)> {
        self.dependency_index.entries()
    }

    /// An evolver with an empty index.
    pub fn new() -> (r: BundleEvolver)
        ensures
            r.entries().len() == 0,
    {
        BundleEvolver { dependency_index: BundleDependencyIndex::new() }
    }

    /// Register `bundle` in the index.
    pub fn register_bundle(&mut self, bundle: &BundleManifest)
        ensures
            final(self).entries() == remove_bundle_id(old(self).entries(), bundle.id@).push(
                (bundle.id@, bundle.skills@.map_values(|s: BundleSkill| s.id@))),
    {
        self.dependency_index.register_bundle(bundle);
    }

    /// Remove `bundle` from the index.
    pub fn remove_bundle(&mut self, bundle: &BundleManifest)
        ensures
            final(self).entries() == remove_bundle_id(old(self).entries(), bundle.id@),
    {
        self.dependency_index.remove_bundle(bundle);
    }

    /// The bundles that contain a changed skill.
    pub fn bundles_needing_evolution(&self, changes: &Vec<BundleSkillChange>) -> (r: Vec<String>)
        ensures
            names_view(r@) == needing(self.entries(), changes_view(changes@)),
    {
        self.dependency_index.bundles_needing_evolution(changes)
    }

    /// The changed skills of `bundle`: those whose current version has a
    /// non-empty hash differing from the recorded one, in bundle order.
    pub fn detect_skill_changes(&self, bundle: &BundleManifest, current_skills: &Vec<Skill>) -> (r: Vec<BundleSkillChange>)
        ensures
            changes_view(r@) == changes_of(bundle.skills@, current_skills@),
    {
        let mut changes: Vec<BundleSkillChange> = Vec::new();
        let mut i: usize = 0;
        while i < bundle.skills.len()
            invariant
                i <= bundle.skills@.len(),
                changes_view(changes@) == changes_of(bundle.skills@.take(i as int), current_skills@),
            decreases bundle.skills@.len() - i,
        {
            let bs = &bundle.skills[i];
            proof {
                assert(bundle.skills@.take(i + 1).drop_last() =~= bundle.skills@.take(i as int));
                assert(bundle.skills@.take(i + 1).last() == bundle.skills@[i as int]);
            }
            let ghost prev = changes_view(changes@);
            match find_current(current_skills, &bs.id) {
                Some(k) => {
                    let current = &current_skills[k];
                    proof {
                        assert(current_of(current_skills@, bs.id@) == Some(k as int));
                    }
                    let h = current_hash(current);
                    let differs = !crate::text::str_eq(h.as_str(), bs.content_hash.as_str());
                    if differs && h.as_str().unicode_len() > 0 {
                        let polarity_changed = polarity_differs(current, bs.polarity);
                        let ghost before = changes_view(changes@);
                        changes.push(BundleSkillChange {
                            skill_id: bs.id.clone(),
                            previous_hash: bs.content_hash.clone(),
                            current_hash: h,
                            polarity_changed,
                        });
                        proof {
                            assert(changes_view(changes@) =~= before.push(change_view(changes@.last())));
                            assert(change_of(*bs, current_skills@) == Some(change_view(changes@.last())));
                        }
                    } else {
                        proof {
                            assert(change_of(*bs, current_skills@) is None);
                        }
                    }
                },
                None => {
                    proof {
                        assert(change_of(*bs, current_skills@) is None);
                    }
                },
            }
            proof {
                assert(changes_view(changes@) == changes_of(bundle.skills@.take(i + 1), current_skills@));
            }
            i = i + 1;
        }
        proof {
            assert(bundle.skills@.take(bundle.skills@.len() as int) =~= bundle.skills@);
        }
        changes
    }

    /// Major when a polarity changed, minor for other changes, patch
    /// without changes.
    pub fn determine_version_bump(&self, _bundle: &BundleManifest, changes: &Vec<BundleSkillChange>) -> (r: VersionBump)
        ensures
            r == bump_for(changes_view(changes@)),
    {
        let mut i: usize = 0;
        while i < changes.len()
            invariant
                i <= changes@.len(),
                forall|j: int| 0 <= j < i ==> !changes@[j].polarity_changed,
            decreases changes@.len() - i,
        {
            if changes[i].polarity_changed {
                proof {
                    assert(changes_view(changes@)[i as int].3);
                }
                return VersionBump::Major;
            }
            i = i + 1;
        }
        proof {
            if exists|j: int| 0 <= j < changes_view(changes@).len() && (#[trigger] changes_view(changes@)[j]).3 {
                let j = choose|j: int| 0 <= j < changes_view(changes@).len() && (#[trigger] changes_view(changes@)[j]).3;
                assert(changes@[j].polarity_changed);
            }
        }
        if changes.len() > 0 { VersionBump::Minor } else { VersionBump::Patch }
    }

    /// What the evolution of `bundle` works from: its changes, the evolved
    /// and the unchanged skills, and the version bump.
    pub fn prepare_evolution_context(&self, bundle: &BundleManifest, current_skills: &Vec<Skill>) -> (r: EvolutionContext)
        ensures
            r.bundle_id@ == bundle.id@,
            changes_view(r.changes@) == changes_of(bundle.skills@, current_skills@),
            r.evolved_skills@.map_values(|e: EvolvedSkillInfo| evolved_info_view(e))
                == evolved_of(bundle.skills@, current_skills@, changes_of(bundle.skills@, current_skills@)),
            r.unchanged_skills@.map_values(|u: UnchangedSkillInfo| unchanged_info_view(u))
                == unchanged_of(bundle.skills@, changes_of(bundle.skills@, current_skills@)),
            r.version_bump == bump_for(changes_of(bundle.skills@, current_skills@)),
    {
        let changes = self.detect_skill_changes(bundle, current_skills);
        let ghost cs = changes_view(changes@);
        let mut evolved: Vec<EvolvedSkillInfo> = Vec::new();
        let mut unchanged: Vec<UnchangedSkillInfo> = Vec::new();
        let mut i: usize = 0;
        while i < bundle.skills.len()
            invariant
                i <= bundle.skills@.len(),
                cs == changes_view(changes@),
                evolved@.map_values(|e: EvolvedSkillInfo| evolved_info_view(e)) == evolved_of(bundle.skills@.take(i as int), current_skills@, cs),
                unchanged@.map_values(|u: UnchangedSkillInfo| unchanged_info_view(u)) == unchanged_of(bundle.skills@.take(i as int), cs),
            decreases bundle.skills@.len() - i,
        {
            let bs = &bundle.skills[i];
            proof {
                assert(bundle.skills@.take(i + 1).drop_last() =~= bundle.skills@.take(i as int));
                assert(bundle.skills@.take(i + 1).last() == bundle.skills@[i as int]);
            }
            if is_changed(&changes, &bs.id) {
                match find_current(current_skills, &bs.id) {
                    Some(k) => {
                        let current = &current_skills[k];
                        proof {
                            assert(current_of(current_skills@, bs.id@) == Some(k as int));
                        }
                        let moved = polarity_differs(current, bs.polarity);
                        let polarity = match current.polarity {
                            Some(p) => p,
                            None => bs.polarity,
                        };
                        let summary = if moved {
                            String::from_str("Polarity changed — full re-analysis required")
                        } else {
                            String::from_str("Content hash differs — re-analysis recommended")
                        };
                        let ghost before = evolved@.map_values(|e: EvolvedSkillInfo| evolved_info_view(e));
                        evolved.push(EvolvedSkillInfo {
                            id: current.id.clone(),
                            name: current.id.clone(),
                            polarity,
                            lexicon_terms: clone_strings(&current.cascade_order),
                            previous_hash: bs.content_hash.clone(),
                            current_hash: current_hash(current),
                            change_summary: summary,
                        });
                        proof {
                            assert(evolved@.map_values(|e: EvolvedSkillInfo| evolved_info_view(e))
                                =~= before.push(evolved_view(*bs, current_skills@[k as int])));
                        }
                    },
                    None => {},
                }
            } else {
                let ghost before = unchanged@.map_values(|u: UnchangedSkillInfo| unchanged_info_view(u));
                unchanged.push(UnchangedSkillInfo {
                    id: bs.id.clone(),
                    name: bs.id.clone(),
                    polarity: bs.polarity,
                    content_hash: bs.content_hash.clone(),
                });
                proof {
                    assert(unchanged@.map_values(|u: UnchangedSkillInfo| unchanged_info_view(u))
                        =~= before.push((bs.id@, bs.id@, bs.polarity, bs.content_hash@)));
                }
            }
            i = i + 1;
        }
        proof {
            assert(bundle.skills@.take(bundle.skills@.len() as int) =~= bundle.skills@);
        }
        let version_bump = self.determine_version_bump(bundle, &changes);
        EvolutionContext { bundle_id: bundle.id.clone(), evolved_skills: evolved, unchanged_skills: unchanged, changes, version_bump }
    }
}

/// A copy of a list of texts.
fn clone_strings(v: &Vec<String>) -> (r: Vec<String>)
    ensures
        names_view(r@) == names_view(v@),
{
    let mut r: Vec<String> = Vec::new();
    let mut i: usize = 0;
    while i < v.len()
        invariant
            i <= v@.len(),
            names_view(r@) == names_view(v@).take(i as int),
        decreases v@.len() - i,
    {
        let ghost before = names_view(r@);
        r.push(v[i].clone());
        proof {
            assert(names_view(r@) =~= before.push(v@[i as int]@));
            assert(names_view(v@).take(i + 1) =~= names_view(v@).take(i as int).push(v@[i as int]@));
        }
        i = i + 1;
    }
    proof {
        assert(names_view(v@).take(v@.len() as int) =~= names_view(v@));
    }
    r
}

impl Default for BundleEvolver {
    /// An evolver with an empty index.
    fn default() -> (r: BundleEvolver)
        ensures
            r.entries().len() == 0,
    {
        BundleEvolver::new()
    }
}

} // verus!

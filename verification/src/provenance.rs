//! Provenance of templates: who changed a template, at which commit and
//! when, kept per template in the order recorded.
use vstd::prelude::*;
use vstd::string::*;
use crate::audit::now_millis;

verus! {

/// One change of a template. `modified_at` is in milliseconds since 1970.
#[derive(Debug, Clone)]
pub struct TemplateProvenance {
    pub template_id: String,
    pub git_sha: String,
    pub modified_by: String,
    pub modified_at: i64,
    pub branch: String,
    pub commit_message: Option<String>,
}

impl TemplateProvenance {
    /// A record of a change made now, with no commit message.
    pub fn new(template_id: String, git_sha: String, modified_by: String, branch: String) -> (r: TemplateProvenance)
        ensures
            r.template_id == template_id,
            r.git_sha == git_sha,
            r.modified_by == modified_by,
            r.branch == branch,
            r.commit_message is None,
    {
        TemplateProvenance { template_id, git_sha, modified_by, modified_at: now_millis(), branch, commit_message: None }
    }

    /// The record with a commit message.
    pub fn with_commit_message(self, message: String) -> (r: TemplateProvenance)
        ensures
            r.commit_message == Some(message),
            r.template_id == self.template_id,
            r.git_sha == self.git_sha,
            r.modified_by == self.modified_by,
            r.modified_at == self.modified_at,
            r.branch == self.branch,
    {
        TemplateProvenance { commit_message: Some(message), ..self }
    }
}

/// The history of one template.
#[derive(Debug)]
struct History {
    template_id: String,
    entries: Vec<TemplateProvenance>,
}

/// The provenance of templates, by template id.
#[derive(Debug)]
pub struct ProvenanceManager {
    histories: Vec<History>,
}

/// The position of the first history of `id`.
pub open spec fn history_at(hs: Seq<(Seq<char>, Seq<TemplateProvenance>)>, id: Seq<char>) -> Option<int>
    decreases hs.len(),
{
    if hs.len() == 0 {
        None
    } else if hs[0].0 == id {
        Some(0)
    } else {
        match history_at(hs.drop_first(), id) {
            Some(i) => Some(i + 1),
            None => None,
        }
    }
}

proof fn lemma_history_at(hs: Seq<(Seq<char>, Seq<TemplateProvenance>)>, id: Seq<char>)
    ensures
        history_at(hs, id) matches Some(i) ==> 0 <= i < hs.len() && hs[i].0 == id
            && forall|k: int| 0 <= k < i ==> hs[k].0 != id,
        history_at(hs, id) is None ==> forall|k: int| 0 <= k < hs.len() ==> hs[k].0 != id,
    decreases hs.len(),
{
    if hs.len() > 0 {
        lemma_history_at(hs.drop_first(), id);
        assert forall|k: int| 0 < k < hs.len() implies hs[k] == hs.drop_first()[k - 1] by {}
    }
}

/// `history_at` is the first match.
proof fn lemma_history_first(hs: Seq<(Seq<char>, Seq<TemplateProvenance>)>, id: Seq<char>, i: int)
    requires
        0 <= i < hs.len(),
        hs[i].0 == id,
        forall|k: int| 0 <= k < i ==> hs[k].0 != id,
    ensures
        history_at(hs, id) == Some(i),
    decreases i,
{
    if i > 0 {
        lemma_history_first(hs.drop_first(), id, i - 1);
    }
}

proof fn lemma_history_none(hs: Seq<(Seq<char>, Seq<TemplateProvenance>)>, id: Seq<char>)
    requires
        forall|k: int| 0 <= k < hs.len() ==> hs[k].0 != id,
    ensures
        history_at(hs, id) is None,
    decreases hs.len(),
{
    if hs.len() > 0 {
        lemma_history_none(hs.drop_first(), id);
    }
}

impl ProvenanceManager {
    /// The histories, in the order their templates were first recorded.
    pub closed spec fn histories_view(&self) -> Seq<(Seq<char>, Seq<TemplateProvenance>)> {
        Seq::new(self.histories@.len(), |i: int| (self.histories@[i].template_id@, self.histories@[i].entries@))
    }

    /// The records of template `id`, in the order recorded, if it has any.
    pub open spec fn history(&self, id: Seq<char>) -> Option<Seq<TemplateProvenance>> {
        match history_at(self.histories_view(), id) {
            Some(i) => Some(self.histories_view()[i].1),
            None => None,
        }
    }

    /// A manager with no record.
    pub fn new() -> (r: ProvenanceManager)
        ensures
            forall|id: Seq<char>| #[trigger] r.history(id) is None,
            r.histories_view().len() == 0,
    {
        ProvenanceManager { histories: Vec::new() }
    }

    fn position(&self, id: &str) -> (r: Option<usize>)
        ensures
            r matches Some(i) ==> history_at(self.histories_view(), id@) == Some(i as int),
            r is None ==> history_at(self.histories_view(), id@) is None,
    {
        let mut i: usize = 0;
        while i < self.histories.len()
            invariant
                i <= self.histories@.len(),
                forall|k: int| 0 <= k < i ==> self.histories_view()[k].0 != id@,
            decreases self.histories@.len() - i,
        {
            if crate::text::str_eq(self.histories[i].template_id.as_str(), id) {
                proof {
                    lemma_history_first(self.histories_view(), id@, i as int);
                }
                return Some(i);
            }
            i = i + 1;
        }
        proof {
            lemma_history_none(self.histories_view(), id@);
        }
        None
    }

    /// Record a change: it is appended to the history of its template.
    pub fn record(&mut self, provenance: TemplateProvenance)
        ensures
            final(self).history(provenance.template_id@) == Some(match old(self).history(provenance.template_id@) {
                Some(h) => h,
                None => Seq::<TemplateProvenance>::empty(),
            }.push(provenance)),
            forall|id: Seq<char>| id != provenance.template_id@ ==> #[trigger] final(self).history(id) == old(self).history(id),
    {
        let ghost before = self.histories_view();
        let ghost p = provenance;
        let ghost pid = provenance.template_id@;
        proof {
            lemma_history_at(before, pid);
        }
        match self.position(provenance.template_id.as_str()) {
            Some(i) => {
                let mut h = self.histories.remove(i);
                h.entries.push(provenance);
                self.histories.insert(i, h);
                proof {
                    let after = self.histories_view();
                    assert(after =~= before.update(i as int, (pid, before[i as int].1.push(p))));
                    lemma_history_first(after, pid, i as int);
                    assert forall|id: Seq<char>| id != pid implies #[trigger] history_at(after, id) == history_at(before, id) by {
                        lemma_same_keys(before, after, id);
                    }
                    assert forall|id: Seq<char>| id != pid implies #[trigger] self.history(id) == old(self).history(id) by {
                        lemma_history_at(before, id);
                        lemma_same_keys(before, after, id);
                    }
                }
            },
            None => {
                let id = String::from_str(provenance.template_id.as_str());
                let mut entries: Vec<TemplateProvenance> = Vec::new();
                entries.push(provenance);
                self.histories.push(History { template_id: id, entries });
                proof {
                    let after = self.histories_view();
                    let n = before.len() as int;
                    assert(after =~= before.push((pid, seq![p])));
                    lemma_history_first(after, pid, n);
                    assert(seq![p] =~= Seq::<TemplateProvenance>::empty().push(p));
                    assert forall|other: Seq<char>| other != pid implies #[trigger] self.history(other) == old(self).history(other) by {
                        lemma_history_at(before, other);
                        match history_at(before, other) {
                            Some(k) => {
                                lemma_history_first(after, other, k);
                            },
                            None => {
                                lemma_history_none(after, other);
                            },
                        }
                    }
                }
            },
        }
    }

    /// All records of template `id`, in the order recorded.
    pub fn get_history(&self, template_id: &str) -> (r: Option<&Vec<TemplateProvenance>>)
        ensures
            match self.history(template_id@) {
                Some(h) => r matches Some(v) && v@ == h,
                None => r is None,
            },
    {
        match self.position(template_id) {
            Some(i) => {
                proof {
                    lemma_history_at(self.histories_view(), template_id@);
                }
                Some(&self.histories[i].entries)
            },
            None => None,
        }
    }

    /// The last record of template `id`.
    pub fn get_latest(&self, template_id: &str) -> (r: Option<&TemplateProvenance>)
        ensures
            match self.history(template_id@) {
                Some(h) => if h.len() > 0 { r == Some(&h.last()) } else { r is None },
                None => r is None,
            },
    {
        match self.get_history(template_id) {
            Some(v) => {
                if v.len() > 0 {
                    Some(&v[v.len() - 1])
                } else {
                    None
                }
            },
            None => None,
        }
    }

    /// The templates that have records, in the order first recorded.
    pub fn get_all_template_ids(&self) -> (r: Vec<&String>)
        ensures
            r@.len() == self.histories_view().len(),
            forall|i: int| 0 <= i < r@.len() ==> (*r@[i])@ == self.histories_view()[i].0,
    {
        let mut r: Vec<&String> = Vec::new();
        let mut i: usize = 0;
        while i < self.histories.len()
            invariant
                i <= self.histories@.len(),
                r@.len() == i,
                forall|k: int| 0 <= k < i ==> (*r@[k])@ == self.histories_view()[k].0,
            decreases self.histories@.len() - i,
        {
            r.push(&self.histories[i].template_id);
            i = i + 1;
        }
        r
    }

    /// Forget every record.
    pub fn clear(&mut self)
        ensures
            forall|id: Seq<char>| #[trigger] final(self).history(id) is None,
            final(self).histories_view().len() == 0,
    {
        self.histories.clear();
        proof {
            assert(self.histories_view() =~= Seq::<(Seq<char>, Seq<TemplateProvenance>)>::empty());
        }
    }
}

proof fn lemma_same_keys(a: Seq<(Seq<char>, Seq<TemplateProvenance>)>, b: Seq<(Seq<char>, Seq<TemplateProvenance>)>, id: Seq<char>)
    requires
        a.len() == b.len(),
        forall|k: int| 0 <= k < a.len() ==> a[k].0 == b[k].0,
    ensures
        history_at(a, id) == history_at(b, id),
    decreases a.len(),
{
    if a.len() > 0 {
        lemma_same_keys(a.drop_first(), b.drop_first(), id);
    }
}

/// After a change of a template is recorded, it is that template's latest
/// record, and the records of other templates are as they were.
pub proof fn lemma_record_then_latest(before: ProvenanceManager, after: ProvenanceManager, p: TemplateProvenance)
    requires
        after.history(p.template_id@) == Some(match before.history(p.template_id@) {
            Some(h) => h,
            None => Seq::<TemplateProvenance>::empty(),
        }.push(p)),
    ensures
        after.history(p.template_id@) matches Some(h) && h.len() > 0 && h.last() == p,
{
}

} // verus!

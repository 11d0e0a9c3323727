//! An in-memory registry of prompt templates, keyed by template id.
use vstd::prelude::*;
use vstd::string::*;

verus! {

/// A registered template.
#[derive(Debug)]
pub struct TemplateDef {
    pub id: String,
    pub name: String,
    pub prompt_template: String,
}

/// The character view of a template: id, name and prompt template.
pub open spec fn def_view(d: TemplateDef) -> (Seq<char>, Seq<char>, Seq<char>) {
    (d.id@, d.name@, d.prompt_template@)
}

/// A copy of a template.
fn clone_def(d: &TemplateDef) -> (r: TemplateDef)
    ensures
        def_view(r) == def_view(*d),
{
    TemplateDef { id: d.id.clone(), name: d.name.clone(), prompt_template: d.prompt_template.clone() }
}

/// Templates by id.
#[derive(Debug)]
pub struct TemplateRegistry {
    templates: Vec<TemplateDef>,
}

impl View for TemplateRegistry {
    /// Each registered id with the template's name and prompt template.
    type V = Map<Seq<char>, (Seq<char>, Seq<char>)>;

    closed spec fn view(&self) -> Self::V {
        Map::new(
            |k: Seq<char>| exists|i: int| 0 <= i < self.templates@.len() && self.templates@[i].id@ == k,
            |k: Seq<char>| {
                let i = choose|i: int| 0 <= i < self.templates@.len() && self.templates@[i].id@ == k;
                (self.templates@[i].name@, self.templates@[i].prompt_template@)
            },
        )
    }
}

impl TemplateRegistry {
    /// Each id is stored once.
    pub closed spec fn wf(&self) -> bool {
        forall|i: int, j: int|
            0 <= i < self.templates@.len() && 0 <= j < self.templates@.len() && i != j
                ==> self.templates@[i].id@ != self.templates@[j].id@
    }

    /// The position of the template with `id`.
    fn position(&self, id: &str) -> (r: Option<usize>)
        ensures
            r matches Some(i) ==> i < self.templates@.len() && self.templates@[i as int].id@ == id@,
            r is None ==> forall|i: int| 0 <= i < self.templates@.len() ==> self.templates@[i].id@ != id@,
    {
        let mut i: usize = 0;
        while i < self.templates.len()
            invariant
                i <= self.templates@.len(),
                forall|j: int| 0 <= j < i ==> self.templates@[j].id@ != id@,
            decreases self.templates@.len() - i,
        {
            if crate::text::str_eq(self.templates[i].id.as_str(), id) {
                return Some(i);
            }
            i = i + 1;
        }
        None
    }

    /// An empty registry.
    pub fn new() -> (r: TemplateRegistry)
        ensures
            r.wf(),
            r@ == Map::<Seq<char>, (Seq<char>, Seq<char>)>::empty(),
    {
        let r = TemplateRegistry { templates: Vec::new() };
        proof {
            assert(r@ =~= Map::<Seq<char>, (Seq<char>, Seq<char>)>::empty());
        }
        r
    }

    /// Register a template under `id`, replacing one registered before.
    pub fn add(&mut self, id: &str, name: &str, prompt_template: &str)
        requires
            old(self).wf(),
        ensures
            final(self).wf(),
            final(self)@ == old(self)@.insert(id@, (name@, prompt_template@)),
    {
        let def = TemplateDef { id: String::from_str(id), name: String::from_str(name), prompt_template: String::from_str(prompt_template) };
        let ghost before = self.templates@;
        match self.position(id) {
            Some(i) => {
                self.templates.set(i, def);
                proof {
                    assert forall|k: Seq<char>| #[trigger] self@.dom().contains(k) <==> old(self)@.insert(id@, (name@, prompt_template@)).dom().contains(k) by {
                        if old(self)@.dom().contains(k) && k != id@ {
                            let j = choose|j: int| 0 <= j < before.len() && before[j].id@ == k;
                            assert(self.templates@[j] == before[j]);
                        }
                        if self@.dom().contains(k) && k != id@ {
                            let j = choose|j: int| 0 <= j < self.templates@.len() && self.templates@[j].id@ == k;
                            assert(self.templates@[j] == before[j]);
                        }
                        if k == id@ {
                            assert(self.templates@[i as int].id@ == k);
                        }
                    }
                    assert forall|k: Seq<char>| #[trigger] self@.dom().contains(k) implies self@[k] == old(self)@.insert(id@, (name@, prompt_template@))[k] by {
                        let j = choose|j: int| 0 <= j < self.templates@.len() && self.templates@[j].id@ == k;
                        if k != id@ {
                            assert(self.templates@[j] == before[j]);
                            let j2 = choose|j2: int| 0 <= j2 < before.len() && before[j2].id@ == k;
                            assert(j2 == j);
                        } else {
                            assert(j == i);
                        }
                    }
                    assert(self@ =~= old(self)@.insert(id@, (name@, prompt_template@)));
                }
            },
            None => {
                self.templates.push(def);
                proof {
                    let n = before.len() as int;
                    assert forall|k: Seq<char>| #[trigger] self@.dom().contains(k) <==> old(self)@.insert(id@, (name@, prompt_template@)).dom().contains(k) by {
                        if old(self)@.dom().contains(k) {
                            let j = choose|j: int| 0 <= j < before.len() && before[j].id@ == k;
                            assert(self.templates@[j] == before[j]);
                        }
                        if self@.dom().contains(k) && k != id@ {
                            let j = choose|j: int| 0 <= j < self.templates@.len() && self.templates@[j].id@ == k;
                            assert(j < n);
                            assert(self.templates@[j] == before[j]);
                        }
                        if k == id@ {
                            assert(self.templates@[n].id@ == k);
                        }
                    }
                    assert forall|k: Seq<char>| #[trigger] self@.dom().contains(k) implies self@[k] == old(self)@.insert(id@, (name@, prompt_template@))[k] by {
                        let j = choose|j: int| 0 <= j < self.templates@.len() && self.templates@[j].id@ == k;
                        if k != id@ {
                            assert(j < n);
                            assert(self.templates@[j] == before[j]);
                            let j2 = choose|j2: int| 0 <= j2 < before.len() && before[j2].id@ == k;
                            assert(j2 == j);
                        } else {
                            assert(j == n);
                        }
                    }
                    assert(self@ =~= old(self)@.insert(id@, (name@, prompt_template@)));
                }
            },
        }
    }

    /// The template registered under `id`.
    pub fn get(&self, id: &str) -> (r: Option<TemplateDef>)
        requires
            self.wf(),
        ensures
            match r {
                Some(d) => self@.dom().contains(id@) && d.id@ == id@ && self@[id@] == (d.name@, d.prompt_template@),
                None => !self@.dom().contains(id@),
            },
    {
        match self.position(id) {
            Some(i) => {
                let d = clone_def(&self.templates[i]);
                proof {
                    assert(self@.dom().contains(id@));
                    let j = choose|j: int| 0 <= j < self.templates@.len() && self.templates@[j].id@ == id@;
                    assert(j == i);
                }
                Some(d)
            },
            None => None,
        }
    }

    /// Every registered template, each once.
    pub fn list(&self) -> (r: Vec<TemplateDef>)
        requires
            self.wf(),
        ensures
            r@.len() == self@.dom().len(),
            forall|i: int| 0 <= i < r@.len() ==> #[trigger] self@.dom().contains(r@[i].id@)
                && self@[r@[i].id@] == (r@[i].name@, r@[i].prompt_template@),
            forall|k: Seq<char>| self@.dom().contains(k) ==> exists|i: int| 0 <= i < r@.len() && (#[trigger] r@[i]).id@ == k,
    {
        let mut r: Vec<TemplateDef> = Vec::new();
        let mut i: usize = 0;
        while i < self.templates.len()
            invariant
                i <= self.templates@.len(),
                self.wf(),
                r@.len() == i,
                forall|j: int| 0 <= j < i ==> def_view(#[trigger] r@[j]) == def_view(self.templates@[j]),
            decreases self.templates@.len() - i,
        {
            r.push(clone_def(&self.templates[i]));
            i = i + 1;
        }
        proof {
            let ids = self.templates@.map_values(|d: TemplateDef| d.id@);
            assert(ids.no_duplicates());
            assert(ids.to_set() =~= self@.dom()) by {
                assert forall|k: Seq<char>| ids.to_set().contains(k) <==> self@.dom().contains(k) by {
                    if ids.contains(k) {
                        let j = choose|j: int| 0 <= j < ids.len() && ids[j] == k;
                        assert(self.templates@[j].id@ == k);
                    }
                    if self@.dom().contains(k) {
                        let j = choose|j: int| 0 <= j < self.templates@.len() && self.templates@[j].id@ == k;
                        assert(ids[j] == k);
                    }
                }
            }
            ids.unique_seq_to_set();
            assert forall|i: int| 0 <= i < r@.len() implies #[trigger] self@.dom().contains(r@[i].id@)
                && self@[r@[i].id@] == (r@[i].name@, r@[i].prompt_template@) by {
                assert(def_view(r@[i]) == def_view(self.templates@[i]));
                let k = r@[i].id@;
                assert(self.templates@[i].id@ == k);
                let j = choose|j: int| 0 <= j < self.templates@.len() && self.templates@[j].id@ == k;
                assert(j == i);
            }
            assert forall|k: Seq<char>| self@.dom().contains(k) implies exists|i: int| 0 <= i < r@.len() && (#[trigger] r@[i]).id@ == k by {
                let j = choose|j: int| 0 <= j < self.templates@.len() && self.templates@[j].id@ == k;
                assert(def_view(r@[j]) == def_view(self.templates@[j]));
                assert(r@[j].id@ == k);
            }
        }
        r
    }
}

impl Default for TemplateRegistry {
    /// An empty registry.
    fn default() -> (r: TemplateRegistry)
        ensures
            r.wf(),
            r@ == Map::<Seq<char>, (Seq<char>, Seq<char>)>::empty(),
    {
        TemplateRegistry::new()
    }
}

} // verus!

//! Context assembly: prompt fragments from several sources collected into one
//! context, without exact duplicates and within a token budget.
use vstd::prelude::*;
use vstd::string::*;

verus! {

/// Where a fragment comes from.
#[derive(Debug, Clone, Copy, PartialEq, Eq, Structural)]
pub enum FragmentSource {
    System,
    User,
    EpisodicMemory,
    SemanticMemory,
    ToolResult,
}

/// A fragment of context.
#[derive(Debug)]
pub struct ContextFragment {
    /// The text.
    pub content: String,
    /// Where it comes from.
    pub source: FragmentSource,
    /// Lower is more important.
    pub priority: u8,
}

impl ContextFragment {
    /// A fragment of `content` from `source` with priority zero.
    pub fn new(content: String, source: FragmentSource) -> (r: ContextFragment)
        ensures
            r.content == content,
            r.source == source,
            r.priority == 0,
    {
        ContextFragment { content, source, priority: 0 }
    }

    /// The fragment with its priority replaced.
    pub fn with_priority(self, priority: u8) -> (r: ContextFragment)
        ensures
            r.content == self.content,
            r.source == self.source,
            r.priority == priority,
    {
        let mut s = self;
        s.priority = priority;
        s
    }
}

/// The outcome of offering a fragment.
#[derive(Debug, Clone, Copy, PartialEq, Eq, Structural)]
pub enum AddResult {
    /// The fragment was added.
    Accepted,
    /// A fragment with the same content was added before.
    DuplicateExact,
    /// The fragment was refused as similar to one added before.
    DuplicateSimilar,
    /// The fragment does not fit in the remaining budget.
    BudgetExceeded,
}

/// Counters of an assembly.
#[derive(Debug, Clone, Copy, PartialEq, Eq, Structural)]
pub struct AssemblyStats {
    pub fragments_offered: usize,
    pub fragments_accepted: usize,
    pub duplicates_exact: usize,
    pub duplicates_similar: usize,
    pub budget_rejected: usize,
    pub tokens_used: usize,
    pub tokens_budget: usize,
}

/// The estimated number of tokens of a text: a token for every four
/// characters, a started group counting as one.
pub open spec fn token_estimate(text: Seq<char>) -> nat {
    ((text.len() + 3) / 4) as nat
}

/// The estimated number of tokens of `text`.
pub fn estimate_tokens(text: &str) -> (r: usize)
    ensures
        r == token_estimate(text@),
{
    let n = text.unicode_len();
    n / 4 + if n % 4 > 0 { 1 } else { 0 }
}

/// The estimated tokens of all fragments.
pub open spec fn tokens_of(fs: Seq<ContextFragment>) -> nat
    decreases fs.len(),
{
    if fs.len() == 0 {
        0
    } else {
        tokens_of(fs.drop_last()) + token_estimate(fs.last().content@)
    }
}

/// Some fragment has content `c`.
pub open spec fn has_content(fs: Seq<ContextFragment>, c: Seq<char>) -> bool {
    exists|i: int| 0 <= i < fs.len() && fs[i].content@ == c
}

/// The tag a fragment is rendered with.
pub open spec fn source_tag(s: FragmentSource) -> Seq<char> {
    match s {
        FragmentSource::System => "[SYSTEM]"@,
        FragmentSource::User => "[USER]"@,
        FragmentSource::EpisodicMemory => "[EXPERIENCE]"@,
        FragmentSource::SemanticMemory => "[MEMORY]"@,
        FragmentSource::ToolResult => "[TOOL]"@,
    }
}

/// Each fragment on a line of its own, after its source tag.
pub open spec fn rendered(fs: Seq<ContextFragment>) -> Seq<char>
    decreases fs.len(),
{
    if fs.len() == 0 {
        Seq::empty()
    } else {
        rendered(fs.drop_last()) + source_tag(fs.last().source) + " "@ + fs.last().content@ + "\n"@
    }
}

/// The contents joined by newlines.
pub open spec fn rendered_plain(fs: Seq<ContextFragment>) -> Seq<char>
    decreases fs.len(),
{
    if fs.len() == 0 {
        Seq::empty()
    } else if fs.len() == 1 {
        fs[0].content@
    } else {
        rendered_plain(fs.drop_last()) + "\n"@ + fs.last().content@
    }
}

/// The state of an assembly: the accepted fragments, the budget and the
/// counters.
pub struct AssemblyState {
    pub fragments: Seq<ContextFragment>,
    pub token_budget: nat,
    pub stats: AssemblyStats,
}

/// The state after offering `f` in state `s`, and the outcome.
pub open spec fn offer(s: AssemblyState, f: ContextFragment) -> (AssemblyState, AddResult) {
    let st = s.stats;
    let offered = AssemblyStats { fragments_offered: (st.fragments_offered + 1) as usize, ..st };
    if has_content(s.fragments, f.content@) {
        (AssemblyState { stats: AssemblyStats { duplicates_exact: (st.duplicates_exact + 1) as usize, ..offered }, ..s },
            AddResult::DuplicateExact)
    } else if tokens_of(s.fragments) + token_estimate(f.content@) > s.token_budget {
        (AssemblyState { stats: AssemblyStats { budget_rejected: (st.budget_rejected + 1) as usize, ..offered }, ..s },
            AddResult::BudgetExceeded)
    } else {
        let used = tokens_of(s.fragments) + token_estimate(f.content@);
        (AssemblyState {
            fragments: s.fragments.push(f),
            stats: AssemblyStats { fragments_accepted: (st.fragments_accepted + 1) as usize, tokens_used: used as usize, ..offered },
            ..s
        }, AddResult::Accepted)
    }
}

/// The state after offering `fs` in order, and the outcomes.
pub open spec fn offer_all(s: AssemblyState, fs: Seq<ContextFragment>) -> (AssemblyState, Seq<AddResult>)
    decreases fs.len(),
{
    if fs.len() == 0 {
        (s, Seq::empty())
    } else {
        let (s1, rs) = offer_all(s, fs.drop_last());
        let (s2, r) = offer(s1, fs.last());
        (s2, rs.push(r))
    }
}

/// A fresh assembly with `budget`.
pub open spec fn fresh(budget: nat) -> AssemblyState {
    AssemblyState {
        fragments: Seq::empty(),
        token_budget: budget,
        stats: AssemblyStats {
            fragments_offered: 0,
            fragments_accepted: 0,
            duplicates_exact: 0,
            duplicates_similar: 0,
            budget_rejected: 0,
            tokens_used: 0,
            tokens_budget: budget as usize,
        },
    }
}

/// The counters and the fragments agree, within the budget, with no two
/// fragments of the same content.
pub open spec fn state_ok(s: AssemblyState) -> bool {
    let st = s.stats;
    &&& tokens_of(s.fragments) <= s.token_budget
    &&& st.tokens_used == tokens_of(s.fragments)
    &&& st.tokens_budget == s.token_budget
    &&& st.fragments_accepted == s.fragments.len()
    &&& st.fragments_offered == st.fragments_accepted + st.duplicates_exact + st.duplicates_similar + st.budget_rejected
    &&& forall|i: int, j: int| 0 <= i < j < s.fragments.len() ==> s.fragments[i].content@ != s.fragments[j].content@
}

/// Assembles fragments into a context without exact duplicates and within a
/// token budget.
pub struct ContextAssembler {
    fragments: Vec<ContextFragment>,
    token_budget: usize,
    tokens_used: usize,
    stats: AssemblyStats,
}

impl View for ContextAssembler {
    type V = AssemblyState;

    closed spec fn view(&self) -> AssemblyState {
        AssemblyState { fragments: self.fragments@, token_budget: self.token_budget as nat, stats: self.stats }
    }
}

impl ContextAssembler {
    /// The accepted fragments, the budget and the counters agree.
    pub closed spec fn wf(&self) -> bool {
        &&& state_ok(self@)
        &&& self.tokens_used == self.stats.tokens_used
    }

    /// An empty assembly with `token_budget`.
    pub fn new(token_budget: usize) -> (r: ContextAssembler)
        ensures
            r.wf(),
            r@ == fresh(token_budget as nat),
    {
        let r = ContextAssembler {
            fragments: Vec::new(),
            token_budget,
            tokens_used: 0,
            stats: AssemblyStats {
                fragments_offered: 0,
                fragments_accepted: 0,
                duplicates_exact: 0,
                duplicates_similar: 0,
                budget_rejected: 0,
                tokens_used: 0,
                tokens_budget: token_budget,
            },
        };
        proof {
            assert(r@.fragments =~= Seq::<ContextFragment>::empty());
        }
        r
    }

    /// Whether an accepted fragment has the content `c`.
    fn seen(&self, c: &String) -> (r: bool)
        ensures
            r == has_content(self.fragments@, c@),
    {
        let mut i: usize = 0;
        while i < self.fragments.len()
            invariant
                i <= self.fragments@.len(),
                forall|j: int| 0 <= j < i ==> self.fragments@[j].content@ != c@,
            decreases self.fragments@.len() - i,
        {
            if self.fragments[i].content == *c {
                return true;
            }
            i = i + 1;
        }
        false
    }

    /// Offer a fragment: a fragment whose content was accepted before is a
    /// duplicate; one that does not fit in the remaining budget is refused;
    /// any other is accepted.
    pub fn add(&mut self, fragment: ContextFragment) -> (r: AddResult)
        requires
            old(self).wf(),
            old(self)@.stats.fragments_offered < usize::MAX,
        ensures
            final(self).wf(),
            (final(self)@, r) == offer(old(self)@, fragment),
    {
        let ghost s0 = self@;
        proof {
            lemma_tokens_of_push(self.fragments@, fragment);
        }
        self.stats.fragments_offered = self.stats.fragments_offered + 1;
        if self.seen(&fragment.content) {
            self.stats.duplicates_exact = self.stats.duplicates_exact + 1;
            return AddResult::DuplicateExact;
        }
        let fragment_tokens = estimate_tokens(fragment.content.as_str());
        if fragment_tokens > self.token_budget - self.tokens_used {
            self.stats.budget_rejected = self.stats.budget_rejected + 1;
            return AddResult::BudgetExceeded;
        }
        self.tokens_used = self.tokens_used + fragment_tokens;
        self.stats.fragments_accepted = self.stats.fragments_accepted + 1;
        self.stats.tokens_used = self.tokens_used;
        self.fragments.push(fragment);
        proof {
            assert(self@.fragments == s0.fragments.push(fragment));
            assert forall|i: int, j: int| 0 <= i < j < self@.fragments.len()
                implies self@.fragments[i].content@ != self@.fragments[j].content@ by {
                if j == s0.fragments.len() {
                    assert(self@.fragments[i] == s0.fragments[i]);
                }
            }
        }
        AddResult::Accepted
    }

    /// Offer fragments in order, with the outcome of each.
    pub fn add_many(&mut self, fragments: Vec<ContextFragment>) -> (r: Vec<AddResult>)
        requires
            old(self).wf(),
            old(self)@.stats.fragments_offered + fragments@.len() <= usize::MAX,
        ensures
            final(self).wf(),
            (final(self)@, r@) == offer_all(old(self)@, fragments@),
    {
        let ghost s0 = self@;
        let ghost fs = fragments@;
        let mut results: Vec<AddResult> = Vec::new();
        let mut rest = fragments;
        let mut k: usize = 0;
        proof {
            assert(fs.take(0) =~= Seq::<ContextFragment>::empty());
            assert(rest@ =~= fs.skip(0));
        }
        while rest.len() > 0
            invariant
                self.wf(),
                rest@.len() + k == fs.len(),
                rest@ == fs.skip(k as int),
                (self@, results@) == offer_all(s0, fs.take(k as int)),
                self@.stats.fragments_offered == s0.stats.fragments_offered + k,
                s0.stats.fragments_offered + fs.len() <= usize::MAX,
            decreases rest@.len(),
        {
            let f = rest.remove(0);
            proof {
                assert(f == fs[k as int]);
                assert(fs.take(k + 1).drop_last() =~= fs.take(k as int));
                assert(fs.take(k + 1).last() == fs[k as int]);
                assert(rest@ =~= fs.skip(k + 1));
            }
            let r = self.add(f);
            results.push(r);
            k = k + 1;
        }
        proof {
            assert(fs.take(fs.len() as int) =~= fs);
        }
        results
    }

    /// The context: each accepted fragment on a line of its own, after its
    /// source tag.
    pub fn render(&self) -> (r: String)
        ensures
            r@ == rendered(self@.fragments),
    {
        let mut out = String::new();
        let mut i: usize = 0;
        while i < self.fragments.len()
            invariant
                i <= self.fragments@.len(),
                out@ == rendered(self.fragments@.take(i as int)),
            decreases self.fragments@.len() - i,
        {
            let f = &self.fragments[i];
            let tag = match f.source {
                FragmentSource::System => "[SYSTEM]",
                FragmentSource::User => "[USER]",
                FragmentSource::EpisodicMemory => "[EXPERIENCE]",
                FragmentSource::SemanticMemory => "[MEMORY]",
                FragmentSource::ToolResult => "[TOOL]",
            };
            out.append(tag);
            out.append(" ");
            out.append(f.content.as_str());
            out.append("\n");
            proof {
                assert(self.fragments@.take(i + 1).drop_last() =~= self.fragments@.take(i as int));
            }
            i = i + 1;
        }
        proof {
            assert(self.fragments@.take(self.fragments@.len() as int) =~= self.fragments@);
        }
        out
    }

    /// The contents of the accepted fragments joined by newlines.
    pub fn render_plain(&self) -> (r: String)
        ensures
            r@ == rendered_plain(self@.fragments),
    {
        let mut out = String::new();
        let mut i: usize = 0;
        while i < self.fragments.len()
            invariant
                i <= self.fragments@.len(),
                out@ == rendered_plain(self.fragments@.take(i as int)),
            decreases self.fragments@.len() - i,
        {
            if i > 0 {
                out.append("\n");
            }
            out.append(self.fragments[i].content.as_str());
            proof {
                assert(self.fragments@.take(i + 1).drop_last() =~= self.fragments@.take(i as int));
                if i == 0 {
                    assert(self.fragments@.take(1)[0] == self.fragments@[0]);
                }
            }
            i = i + 1;
        }
        proof {
            assert(self.fragments@.take(self.fragments@.len() as int) =~= self.fragments@);
        }
        out
    }

    /// The counters.
    pub fn stats(&self) -> (r: &AssemblyStats)
        ensures
            *r == self@.stats,
    {
        &self.stats
    }

    /// The number of accepted fragments.
    pub fn len(&self) -> (r: usize)
        ensures
            r == self@.fragments.len(),
    {
        self.fragments.len()
    }

    /// Whether no fragment was accepted.
    pub fn is_empty(&self) -> (r: bool)
        ensures
            r == (self@.fragments.len() == 0),
    {
        self.fragments.len() == 0
    }

    /// The tokens left in the budget.
    pub fn tokens_remaining(&self) -> (r: usize)
        requires
            self.wf(),
        ensures
            r == self@.token_budget - tokens_of(self@.fragments),
    {
        self.token_budget - self.tokens_used
    }

    /// Drop all fragments and reset the counters; the budget stays.
    pub fn clear(&mut self)
        ensures
            final(self).wf(),
            final(self)@ == fresh(old(self)@.token_budget),
    {
        self.fragments.clear();
        self.tokens_used = 0;
        self.stats = AssemblyStats {
            fragments_offered: 0,
            fragments_accepted: 0,
            duplicates_exact: 0,
            duplicates_similar: 0,
            budget_rejected: 0,
            tokens_used: 0,
            tokens_budget: self.token_budget,
        };
        proof {
            assert(self@.fragments =~= Seq::<ContextFragment>::empty());
        }
    }
}

/// Adding a fragment adds its estimate to the total.
proof fn lemma_tokens_of_push(fs: Seq<ContextFragment>, f: ContextFragment)
    ensures
        tokens_of(fs.push(f)) == tokens_of(fs) + token_estimate(f.content@),
{
    assert(fs.push(f).drop_last() =~= fs);
}

/// Offering fragments keeps the assembly consistent: within budget, without
/// duplicate contents, with counters that add up.
pub proof fn lemma_offer_keeps_state(s: AssemblyState, f: ContextFragment)
    requires
        state_ok(s),
        s.stats.fragments_offered < usize::MAX,
        s.token_budget <= usize::MAX,
    ensures
        state_ok(offer(s, f).0),
        offer(s, f).0.token_budget == s.token_budget,
        s.fragments.is_prefix_of(offer(s, f).0.fragments),
{
    lemma_tokens_of_push(s.fragments, f);
    let t = offer(s, f).0;
    if !has_content(s.fragments, f.content@) && tokens_of(s.fragments) + token_estimate(f.content@) <= s.token_budget {
        assert(t.fragments == s.fragments.push(f));
        assert forall|i: int, j: int| 0 <= i < j < t.fragments.len() implies t.fragments[i].content@ != t.fragments[j].content@ by {
            if j == s.fragments.len() {
                assert(t.fragments[i] == s.fragments[i]);
            }
        }
    }
}

/// A fragment with the priority and source it is selected by.
pub open spec fn selected(f: ContextFragment, source: FragmentSource, p: u8) -> bool {
    f.source == source && f.priority == p
}

/// The fragments from `source` with priority below `p`, by ascending
/// priority, keeping the given order among equal priorities.
pub open spec fn by_priority_below(fs: Seq<ContextFragment>, source: FragmentSource, p: nat) -> Seq<ContextFragment>
    decreases p,
{
    if p == 0 {
        Seq::empty()
    } else {
        by_priority_below(fs, source, (p - 1) as nat)
            + fs.filter(|f: ContextFragment| selected(f, source, (p - 1) as u8))
    }
}

/// The highest priority number kept: all of them, or those up to `max`.
pub open spec fn priority_bound(max_priority: Option<u8>) -> nat {
    match max_priority {
        Some(m) => m as nat + 1,
        None => 256,
    }
}

/// What a filter keeps comes from the filtered sequence.
proof fn lemma_filter_within(s: Seq<ContextFragment>, pred: spec_fn(ContextFragment) -> bool, x: ContextFragment)
    requires
        s.filter(pred).contains(x),
    ensures
        s.contains(x),
    decreases s.len(),
{
    reveal(Seq::filter);
    if s.len() > 0 {
        let sub = s.drop_last().filter(pred);
        if sub.contains(x) {
            lemma_filter_within(s.drop_last(), pred, x);
            let j = choose|j: int| 0 <= j < s.drop_last().len() && s.drop_last()[j] == x;
            assert(s[j] == x);
        } else {
            assert(x == s.last());
            assert(s[s.len() - 1] == x);
        }
    }
}

/// The fragments taken below priority `p` are those from `source` with a
/// priority under `p`, by ascending priority.
proof fn lemma_below(fs: Seq<ContextFragment>, source: FragmentSource, p: nat)
    requires
        p <= 256,
    ensures
        forall|f: ContextFragment| #[trigger] by_priority_below(fs, source, p).contains(f)
            <==> (fs.contains(f) && f.source == source && f.priority < p),
        forall|i: int, j: int| 0 <= i < j < by_priority_below(fs, source, p).len()
            ==> (#[trigger] by_priority_below(fs, source, p)[i]).priority <= (#[trigger] by_priority_below(fs, source, p)[j]).priority,
        forall|i: int| 0 <= i < by_priority_below(fs, source, p).len() ==> (#[trigger] by_priority_below(fs, source, p)[i]).priority < p,
    decreases p,
{
    broadcast use vstd::seq_lib::group_filter_ensures;
    if p > 0 {
        let q = (p - 1) as nat;
        lemma_below(fs, source, q);
        let pred = |f: ContextFragment| selected(f, source, q as u8);
        let lo = by_priority_below(fs, source, q);
        let hi = fs.filter(pred);
        let all = lo + hi;
        assert(by_priority_below(fs, source, p) == all);
        assert forall|i: int| 0 <= i < hi.len() implies (#[trigger] hi[i]).priority == q && hi[i].source == source by {
            assert(pred(hi[i]));
            assert((q as u8) as nat == q);
        }
        assert forall|f: ContextFragment| #[trigger] all.contains(f)
            <==> (fs.contains(f) && f.source == source && f.priority < p) by {
            if all.contains(f) {
                let k = choose|k: int| 0 <= k < all.len() && all[k] == f;
                if k < lo.len() {
                    assert(lo[k] == f);
                    assert(lo.contains(f));
                } else {
                    assert(hi[k - lo.len()] == f);
                    assert(hi.contains(f));
                    lemma_filter_within(fs, pred, f);
                }
            }
            if fs.contains(f) && f.source == source && f.priority < p {
                if f.priority < q {
                    assert(lo.contains(f));
                    let k = choose|k: int| 0 <= k < lo.len() && lo[k] == f;
                    assert(all[k] == f);
                } else {
                    let k = choose|k: int| 0 <= k < fs.len() && fs[k] == f;
                    assert(pred(fs[k]));
                    assert(hi.contains(fs[k]));
                    let h = choose|h: int| 0 <= h < hi.len() && hi[h] == f;
                    assert(all[lo.len() + h] == f);
                }
            }
        }
        assert forall|i: int| 0 <= i < all.len() implies (#[trigger] all[i]).priority < p by {
            if i >= lo.len() {
                assert(all[i] == hi[i - lo.len()]);
            }
        }
        assert forall|i: int, j: int| 0 <= i < j < all.len() implies (#[trigger] all[i]).priority <= (#[trigger] all[j]).priority by {
            if j < lo.len() {
                assert(all[i] == lo[i] && all[j] == lo[j]);
            } else if i < lo.len() {
                assert(all[i] == lo[i] && all[j] == hi[j - lo.len()]);
            } else {
                assert(all[i] == hi[i - lo.len()] && all[j] == hi[j - lo.len()]);
            }
        }
    }
}

/// Filtering twice keeps what both tests keep.
proof fn lemma_filter_twice(s: Seq<ContextFragment>, a: spec_fn(ContextFragment) -> bool, b: spec_fn(ContextFragment) -> bool)
    ensures
        s.filter(a).filter(b) == s.filter(|x: ContextFragment| a(x) && b(x)),
    decreases s.len(),
{
    reveal(Seq::filter);
    if s.len() > 0 {
        lemma_filter_twice(s.drop_last(), a, b);
        let ab = |x: ContextFragment| a(x) && b(x);
        let sub = s.drop_last().filter(a);
        if a(s.last()) {
            assert(s.filter(a) == sub.push(s.last()));
            assert(sub.push(s.last()).drop_last() =~= sub);
        }
        assert(s.filter(a).filter(b) =~= s.filter(ab));
    }
}

/// A filter that keeps nothing of `s` gives the empty sequence.
proof fn lemma_filter_none(s: Seq<ContextFragment>, b: spec_fn(ContextFragment) -> bool)
    requires
        forall|i: int| 0 <= i < s.len() ==> !b(#[trigger] s[i]),
    ensures
        s.filter(b) == Seq::<ContextFragment>::empty(),
    decreases s.len(),
{
    reveal(Seq::filter);
    if s.len() > 0 {
        assert forall|i: int| 0 <= i < s.drop_last().len() implies !b(#[trigger] s.drop_last()[i]) by {
            assert(s.drop_last()[i] == s[i]);
        }
        lemma_filter_none(s.drop_last(), b);
        assert(!b(s[s.len() - 1]));
    }
}

/// The fragments of `fs` with priority `v`, in order.
pub open spec fn of_priority(fs: Seq<ContextFragment>, v: u8) -> Seq<ContextFragment> {
    fs.filter(|f: ContextFragment| f.priority == v)
}

/// The fragments from `source` with priority `v`, in the given order.
pub open spec fn with_priority(fs: Seq<ContextFragment>, source: FragmentSource, v: u8) -> Seq<ContextFragment> {
    fs.filter(|f: ContextFragment| f.source == source && f.priority == v)
}

/// Below priority `p`, the fragments of each priority `v` are taken in the
/// given order, each as often as given, and none of a priority from `p` on.
proof fn lemma_below_each(fs: Seq<ContextFragment>, source: FragmentSource, p: nat, v: u8)
    requires
        p <= 256,
    ensures
        of_priority(by_priority_below(fs, source, p), v)
            == (if v < p { with_priority(fs, source, v) } else { Seq::<ContextFragment>::empty() }),
    decreases p,
{
    broadcast use vstd::seq_lib::group_filter_ensures;
    let pv = |f: ContextFragment| f.priority == v;
    if p == 0 {
        assert(by_priority_below(fs, source, p) =~= Seq::<ContextFragment>::empty());
        lemma_filter_none(Seq::<ContextFragment>::empty(), pv);
    } else {
        let q = (p - 1) as nat;
        lemma_below_each(fs, source, q, v);
        let sel = |f: ContextFragment| selected(f, source, q as u8);
        let lo = by_priority_below(fs, source, q);
        let hi = fs.filter(sel);
        assert(by_priority_below(fs, source, p) == lo + hi);
        Seq::filter_distributes_over_add(lo, hi, pv);
        lemma_filter_twice(fs, sel, pv);
        assert((q as u8) as nat == q);
        if v as nat == q {
            let both = |x: ContextFragment| sel(x) && pv(x);
            assert(both =~= (|f: ContextFragment| f.source == source && f.priority == v));
        } else {
            assert forall|i: int| 0 <= i < hi.len() implies !pv(#[trigger] hi[i]) by {
                assert(sel(hi[i]));
            }
            lemma_filter_none(hi, pv);
            assert(hi.filter(pv) =~= Seq::<ContextFragment>::empty());
        }
        assert(lo.filter(pv) + hi.filter(pv) =~= (if v < p { with_priority(fs, source, v) } else { Seq::<ContextFragment>::empty() }));
    }
}

/// The fragments that assembly by priority offers, in that order, are the
/// fragments from `source` whose priority is at most `max_priority` (all of
/// them when none is given), and they come by ascending priority; those of
/// one priority come as often and in the order they were given.
pub proof fn lemma_priority_cut(fs: Seq<ContextFragment>, source: FragmentSource, max_priority: Option<u8>)
    ensures
        forall|f: ContextFragment| #[trigger] by_priority_below(fs, source, priority_bound(max_priority)).contains(f)
            <==> (fs.contains(f) && f.source == source && (max_priority matches Some(m) ==> f.priority <= m)),
        forall|i: int, j: int| 0 <= i < j < by_priority_below(fs, source, priority_bound(max_priority)).len()
            ==> (#[trigger] by_priority_below(fs, source, priority_bound(max_priority))[i]).priority
                <= (#[trigger] by_priority_below(fs, source, priority_bound(max_priority))[j]).priority,
        forall|v: u8| #[trigger] of_priority(by_priority_below(fs, source, priority_bound(max_priority)), v)
            == (if (max_priority matches Some(m) ==> v <= m) { with_priority(fs, source, v) } else { Seq::<ContextFragment>::empty() }),
{
    lemma_below(fs, source, priority_bound(max_priority));
    assert forall|v: u8| #[trigger] of_priority(by_priority_below(fs, source, priority_bound(max_priority)), v)
        == (if (max_priority matches Some(m) ==> v <= m) { with_priority(fs, source, v) } else { Seq::<ContextFragment>::empty() }) by {
        lemma_below_each(fs, source, priority_bound(max_priority), v);
    }
}

/// Assemble the fragments from `source` in ascending priority, keeping the
/// given order among equal priorities, leaving out those whose priority is
/// above `max_priority` when one is given, within `token_budget`.
pub fn assemble_by_priority(
    fragments: Vec<ContextFragment>,
    source: FragmentSource,
    token_budget: usize,
    max_priority: Option<u8>,
) -> (r: ContextAssembler)
    ensures
        r.wf(),
        r@ == offer_all(fresh(token_budget as nat), by_priority_below(fragments@, source, priority_bound(max_priority))).0,
{
    let ghost fs = fragments@;
    let total = fragments.len();
    let bound: u16 = match max_priority {
        Some(m) => m as u16 + 1,
        None => 256,
    };
    let mut slots: Vec<Option<ContextFragment>> = Vec::new();
    let mut i: usize = 0;
    let mut src = fragments;
    proof {
        assert(src@ =~= fs.skip(0));
    }
    while src.len() > 0
        invariant
            src@.len() + i == fs.len(),
            total == fs.len(),
            src@ == fs.skip(i as int),
            slots@.len() == i,
            forall|j: int| 0 <= j < i ==> slots@[j] == Some(fs[j]),
        decreases src@.len(),
    {
        let f = src.remove(0);
        proof {
            assert(f == fs[i as int]);
            assert(src@ =~= fs.skip(i + 1));
        }
        slots.push(Some(f));
        i = i + 1;
    }
    let mut ordered: Vec<ContextFragment> = Vec::new();
    let mut p: u16 = 0;
    while p < bound
        invariant
            p <= bound,
            bound as nat == priority_bound(max_priority),
            slots@.len() == fs.len(),
            forall|j: int| 0 <= j < fs.len() ==> (slots@[j] == Some(fs[j]) || (slots@[j] is None && fs[j].source == source && fs[j].priority < p)),
            forall|j: int| 0 <= j < fs.len() && fs[j].source == source && fs[j].priority < p ==> slots@[j] is None,
            ordered@ == by_priority_below(fs, source, p as nat),
        decreases bound - p,
    {
        let ghost before = ordered@;
        let ghost slots0 = slots@;
        let mut j: usize = 0;
        while j < slots.len()
            invariant
                j <= slots@.len(),
                slots@.len() == fs.len(),
                p < 256,
                forall|k: int| j <= k < fs.len() ==> slots@[k] == slots0[k],
                forall|k: int| 0 <= k < j ==> slots@[k] == (if selected(fs[k], source, p as u8) { None } else { slots0[k] }),
                forall|k: int| 0 <= k < fs.len() ==> (slots0[k] == Some(fs[k]) || (slots0[k] is None && fs[k].source == source && fs[k].priority < p)),
                ordered@ == before + fs.take(j as int).filter(|f: ContextFragment| selected(f, source, p as u8)),
            decreases slots@.len() - j,
        {
            let take = match &slots[j] {
                Some(f) => f.source == source && f.priority as u16 == p,
                None => false,
            };
            proof {
                reveal(Seq::filter);
                assert(fs.take(j + 1).drop_last() =~= fs.take(j as int));
                assert(fs.take(j + 1).last() == fs[j as int]);
            }
            if take {
                let mut slot: Option<ContextFragment> = None;
                std::mem::swap(&mut slot, &mut slots[j]);
                let f = slot.unwrap();
                proof {
                    assert(f == fs[j as int]);
                }
                ordered.push(f);
            }
            j = j + 1;
        }
        proof {
            assert(fs.take(fs.len() as int) =~= fs);
        }
        p = p + 1;
    }
    let mut assembler = ContextAssembler::new(token_budget);
    // A vector's length fits in `usize`, so offering all of it cannot overflow the counters.
    let _offered = ordered.len();
    assembler.add_many(ordered);
    assembler
}

} // verus!

//! Template dependency graph.
//!
//! Tracks which templates call which (nested template relationships), with
//! reachability, cycle detection and nesting depth.
use vstd::prelude::*;
use crate::graph::{
    Interned, intern, interned_ok, lemma_interned_wf, lemma_interned_reaches, lemma_interned_cyclic,
    lemma_interned_cycle, lemma_succs_edge, lookup, name_edge, name_reaches, name_cyclic, name_cycle,
    name_walk, names_view, pairs_view, succs,
};
use crate::text::{find_first, find_seq, find_seq_from, find_from, lemma_find_first, lemma_find_skip, str_chars, sub_chars};
use crate::walks::{adj_view, reach_search, search_all, icycle, icyclic, lemma_acyclic, lemma_cycle_cyclic};

verus! {

/// A dependency edge: `caller` calls `callee` at nesting `depth`.
#[derive(Debug, Clone)]
pub struct DependencyEdge {
    /// Caller template id.
    pub caller: String,
    /// Callee template id.
    pub callee: String,
    /// Depth level in the nesting.
    pub depth: u8,
}

/// The view of an edge: caller, callee and depth.
pub open spec fn edge_view(e: DependencyEdge) -> (Seq<char>, Seq<char>, u8) {
    (e.caller@, e.callee@, e.depth)
}

/// The caller/callee pairs of a list of edges.
pub open spec fn call_pairs(es: Seq<(Seq<char>, Seq<char>, u8)>) -> Seq<(Seq<char>, Seq<char>)> {
    es.map_values(|e: (Seq<char>, Seq<char>, u8)| (e.0, e.1))
}

/// The edges whose caller is `id`, in insertion order.
pub open spec fn edges_from(es: Seq<(Seq<char>, Seq<char>, u8)>, id: Seq<char>) -> Seq<(Seq<char>, Seq<char>, u8)>
    decreases es.len(),
{
    if es.len() == 0 {
        Seq::empty()
    } else {
        let prev = edges_from(es.drop_last(), id);
        if es.last().0 == id {
            prev.push(es.last())
        } else {
            prev
        }
    }
}

/// The callers of the edges whose callee is `id`, in insertion order.
pub open spec fn callers_of(es: Seq<(Seq<char>, Seq<char>, u8)>, id: Seq<char>) -> Seq<Seq<char>>
    decreases es.len(),
{
    if es.len() == 0 {
        Seq::empty()
    } else {
        let prev = callers_of(es.drop_last(), id);
        if es.last().1 == id {
            prev.push(es.last().0)
        } else {
            prev
        }
    }
}

/// The greatest length, in edges, of a walk of at most `k` edges that
/// starts at `t`.
pub open spec fn deepest(es: Seq<(Seq<char>, Seq<char>)>, t: Seq<char>, k: nat) -> nat
    decreases k, 0nat,
{
    if k == 0 {
        0
    } else {
        deepest_among(es, succs(es, t), (k - 1) as nat)
    }
}

/// The greatest `1 + deepest(es, c, k)` over the names `c` of `cs` (0 when
/// `cs` is empty).
pub open spec fn deepest_among(es: Seq<(Seq<char>, Seq<char>)>, cs: Seq<Seq<char>>, k: nat) -> nat
    decreases k, cs.len(),
{
    if cs.len() == 0 {
        0
    } else {
        let prev = deepest_among(es, cs.drop_last(), k);
        let here = 1 + deepest(es, cs.last(), k);
        if here > prev {
            here
        } else {
            prev
        }
    }
}

/// Each name of `cs` gives a lower bound.
proof fn lemma_among_ge(es: Seq<(Seq<char>, Seq<char>)>, cs: Seq<Seq<char>>, k: nat, i: int)
    requires
        0 <= i < cs.len(),
    ensures
        deepest_among(es, cs, k) >= 1 + deepest(es, cs[i], k),
    decreases cs.len(),
{
    if i < cs.len() - 1 {
        lemma_among_ge(es, cs.drop_last(), k, i);
        assert(cs.drop_last()[i] == cs[i]);
    }
}

/// For a non-empty `cs` the bound is reached at some name of it.
proof fn lemma_among_attained(es: Seq<(Seq<char>, Seq<char>)>, cs: Seq<Seq<char>>, k: nat) -> (i: int)
    requires
        cs.len() > 0,
    ensures
        0 <= i < cs.len(),
        deepest_among(es, cs, k) == 1 + deepest(es, cs[i], k),
    decreases cs.len(),
{
    let prev = deepest_among(es, cs.drop_last(), k);
    let here = 1 + deepest(es, cs.last(), k);
    if here > prev || cs.len() == 1 {
        if cs.len() == 1 {
            assert(cs.drop_last().len() == 0);
        }
        cs.len() - 1
    } else {
        let j = lemma_among_attained(es, cs.drop_last(), k);
        assert(cs.drop_last()[j] == cs[j]);
        j
    }
}

/// A walk of at most `k` edges has at most `k` edges.
proof fn lemma_deepest_le(es: Seq<(Seq<char>, Seq<char>)>, t: Seq<char>, k: nat)
    ensures
        deepest(es, t, k) <= k,
    decreases k,
{
    if k > 0 && succs(es, t).len() > 0 {
        let i = lemma_among_attained(es, succs(es, t), (k - 1) as nat);
        lemma_deepest_le(es, succs(es, t)[i], (k - 1) as nat);
    }
}

/// Some walk from `t` has exactly `deepest(es, t, k)` edges.
proof fn lemma_deepest_walk(es: Seq<(Seq<char>, Seq<char>)>, t: Seq<char>, k: nat) -> (p: Seq<Seq<char>>)
    ensures
        name_walk(es, p),
        p[0] == t,
        p.len() == deepest(es, t, k) + 1,
    decreases k,
{
    let cs = succs(es, t);
    if k == 0 || cs.len() == 0 {
        seq![t]
    } else {
        let i = lemma_among_attained(es, cs, (k - 1) as nat);
        let c = cs[i];
        assert(cs.contains(c));
        lemma_succs_edge(es, t, c);
        let q = lemma_deepest_walk(es, c, (k - 1) as nat);
        let p = seq![t] + q;
        assert forall|j: int| 0 <= j < p.len() - 1 implies name_edge(es, #[trigger] p[j], p[j + 1]) by {
            if j > 0 {
                assert(p[j] == q[j - 1]);
                assert(p[j + 1] == q[j]);
                assert(name_edge(es, q[j - 1], q[j - 1 + 1]));
            }
        }
        p
    }
}

/// No walk from `t` of at most `k` edges is longer than `deepest(es, t, k)`.
proof fn lemma_deepest_bound(es: Seq<(Seq<char>, Seq<char>)>, t: Seq<char>, k: nat, p: Seq<Seq<char>>)
    requires
        name_walk(es, p),
        p[0] == t,
        p.len() <= k + 1,
    ensures
        p.len() <= deepest(es, t, k) + 1,
    decreases p.len(),
{
    if p.len() > 1 {
        let cs = succs(es, t);
        assert(name_edge(es, p[0], p[1]));
        lemma_succs_edge(es, t, p[1]);
        let i = choose|i: int| 0 <= i < cs.len() && cs[i] == p[1];
        let q = p.subrange(1, p.len() as int);
        assert forall|j: int| 0 <= j < q.len() - 1 implies name_edge(es, #[trigger] q[j], q[j + 1]) by {
            assert(q[j] == p[j + 1]);
            assert(q[j + 1] == p[j + 1 + 1]);
            assert(name_edge(es, p[j + 1], p[j + 1 + 1]));
        }
        lemma_deepest_bound(es, p[1], (k - 1) as nat, q);
        lemma_among_ge(es, cs, (k - 1) as nat, i);
    }
}

/// The index of an edge from `p[i]` to `p[i + 1]`.
spec fn step_edge(es: Seq<(Seq<char>, Seq<char>)>, p: Seq<Seq<char>>, i: int) -> int {
    choose|e: int| 0 <= e < es.len() && es[e].0 == p[i] && es[e].1 == p[i + 1]
}

/// In a graph without cycles no name repeats along a walk, so a walk uses
/// distinct edges and has at most as many edges as the graph.
proof fn lemma_acyclic_walk_short(es: Seq<(Seq<char>, Seq<char>)>, p: Seq<Seq<char>>)
    requires
        !name_cyclic(es),
        name_walk(es, p),
    ensures
        p.len() <= es.len() + 1,
{
    let n = p.len() - 1;
    assert forall|i: int, j: int| 0 <= i < j < p.len() implies p[i] != p[j] by {
        if p[i] == p[j] {
            let sub = p.subrange(i, j + 1);
            assert forall|m: int| 0 <= m < sub.len() - 1 implies name_edge(es, #[trigger] sub[m], sub[m + 1]) by {
                assert(sub[m] == p[i + m]);
                assert(sub[m + 1] == p[i + m + 1]);
                assert(name_edge(es, p[i + m], p[i + m + 1]));
            }
            assert(name_walk(es, sub) && sub.len() >= 2 && sub[0] == sub.last());
        }
    }
    let f = |i: int| step_edge(es, p, i);
    let x = vstd::set_lib::set_int_range(0, n);
    let range = vstd::set_lib::set_int_range(0, es.len() as int);
    vstd::set_lib::lemma_int_range(0, n);
    vstd::set_lib::lemma_int_range(0, es.len() as int);
    assert forall|i: int| 0 <= i < n implies 0 <= #[trigger] step_edge(es, p, i) < es.len()
        && es[step_edge(es, p, i)].0 == p[i] by {
        assert(name_edge(es, p[i], p[i + 1]));
    }
    assert(vstd::relations::injective_on(f, x)) by {
        assert forall|i: int, j: int| x.contains(i) && x.contains(j) && f(i) == f(j) implies i == j by {
            assert(f(i) == step_edge(es, p, i));
            assert(f(j) == step_edge(es, p, j));
            assert(es[step_edge(es, p, i)].0 == p[i]);
            assert(es[step_edge(es, p, j)].0 == p[j]);
        }
    }
    let y = x.map(f);
    vstd::set_lib::lemma_map_size(x, y, f);
    assert(y.subset_of(range)) by {
        assert forall|e: int| y.contains(e) implies range.contains(e) by {
            let i = choose|i: int| x.contains(i) && f(i) == e;
            assert(f(i) == step_edge(es, p, i));
            assert(0 <= step_edge(es, p, i) < es.len());
        }
    }
    vstd::set_lib::lemma_len_subset(y, range);
}

/// In a graph without cycles, the depth that `get_max_depth` reports for
/// `t` is the length of the longest walk from `t`: one walk from `t` has
/// that many edges and none has more.
pub proof fn lemma_max_depth_is_longest_path(g: Seq<(Seq<char>, Seq<char>, u8)>, t: Seq<char>)
    requires
        !name_cyclic(call_pairs(g)),
    ensures
        exists|p: Seq<Seq<char>>| #[trigger] name_walk(call_pairs(g), p) && p[0] == t
            && p.len() == deepest(call_pairs(g), t, g.len()) + 1,
        forall|p: Seq<Seq<char>>| #[trigger] name_walk(call_pairs(g), p) && p[0] == t
            ==> p.len() <= deepest(call_pairs(g), t, g.len()) + 1,
{
    let es = call_pairs(g);
    let w = lemma_deepest_walk(es, t, g.len());
    assert(name_walk(es, w) && w[0] == t);
    assert forall|p: Seq<Seq<char>>| #[trigger] name_walk(es, p) && p[0] == t
        implies p.len() <= deepest(es, t, g.len()) + 1 by {
        lemma_acyclic_walk_short(es, p);
        lemma_deepest_bound(es, t, g.len(), p);
    }
}

/// The number of edges leaving the names of `xs`, added up.
pub open spec fn out_degree_sum(es: Seq<(Seq<char>, Seq<char>, u8)>, xs: Seq<Seq<char>>) -> nat
    decreases xs.len(),
{
    if xs.len() == 0 {
        0
    } else {
        out_degree_sum(es, xs.drop_last()) + edges_from(es, xs.last()).len()
    }
}

/// How many times `y` occurs in `xs`.
spec fn occurrences(xs: Seq<Seq<char>>, y: Seq<char>) -> nat
    decreases xs.len(),
{
    if xs.len() == 0 {
        0
    } else {
        occurrences(xs.drop_last(), y) + if xs.last() == y { 1nat } else { 0nat }
    }
}

proof fn lemma_occurrences_once(xs: Seq<Seq<char>>, y: Seq<char>)
    requires
        xs.no_duplicates(),
    ensures
        occurrences(xs, y) == if xs.contains(y) { 1nat } else { 0nat },
    decreases xs.len(),
{
    if xs.len() > 0 {
        let pre = xs.drop_last();
        assert(pre.no_duplicates()) by {
            assert forall|i: int, j: int| 0 <= i < pre.len() && 0 <= j < pre.len() && i != j implies pre[i] != pre[j] by {
                assert(pre[i] == xs[i] && pre[j] == xs[j]);
            }
        }
        lemma_occurrences_once(pre, y);
        if xs.last() == y && pre.contains(y) {
            let j = choose|j: int| 0 <= j < pre.len() && pre[j] == y;
            assert(xs[j] == xs[xs.len() - 1]);
        }
        if xs.contains(y) && xs.last() != y {
            let j = choose|j: int| 0 <= j < xs.len() && xs[j] == y;
            assert(pre[j] == y);
        }
        if pre.contains(y) {
            let j = choose|j: int| 0 <= j < pre.len() && pre[j] == y;
            assert(xs[j] == y);
        }
        if xs.last() == y {
            assert(xs[xs.len() - 1] == y);
        }
    }
}

proof fn lemma_out_degree_step(pre: Seq<(Seq<char>, Seq<char>, u8)>, e: (Seq<char>, Seq<char>, u8), xs: Seq<Seq<char>>)
    ensures
        out_degree_sum(pre.push(e), xs) == out_degree_sum(pre, xs) + occurrences(xs, e.0),
    decreases xs.len(),
{
    if xs.len() > 0 {
        lemma_out_degree_step(pre, e, xs.drop_last());
        assert(pre.push(e).drop_last() =~= pre);
    }
}

/// Counting the edges caller by caller gives the number of edges: for any
/// list of distinct names that holds every caller (such as the ids
/// `get_all_template_ids` gives), the edges leaving them add up to
/// `edge_count`.
pub proof fn lemma_edge_count_by_caller(g: Seq<(Seq<char>, Seq<char>, u8)>, xs: Seq<Seq<char>>)
    requires
        xs.no_duplicates(),
        forall|i: int| 0 <= i < g.len() ==> xs.contains(#[trigger] g[i].0),
    ensures
        out_degree_sum(g, xs) == g.len(),
    decreases g.len(),
{
    if g.len() == 0 {
        lemma_out_degree_empty(g, xs);
    } else {
        let pre = g.drop_last();
        let e = g.last();
        assert forall|i: int| 0 <= i < pre.len() implies xs.contains(#[trigger] pre[i].0) by {
            assert(pre[i] == g[i]);
        }
        lemma_edge_count_by_caller(pre, xs);
        assert(pre.push(e) =~= g);
        lemma_out_degree_step(pre, e, xs);
        assert(xs.contains(g[g.len() - 1].0));
        lemma_occurrences_once(xs, e.0);
    }
}

proof fn lemma_out_degree_empty(g: Seq<(Seq<char>, Seq<char>, u8)>, xs: Seq<Seq<char>>)
    requires
        g.len() == 0,
    ensures
        out_degree_sum(g, xs) == 0,
    decreases xs.len(),
{
    if xs.len() > 0 {
        lemma_out_degree_empty(g, xs.drop_last());
    }
}

/// `x` is the caller or the callee of some edge.
pub open spec fn mentioned(es: Seq<(Seq<char>, Seq<char>, u8)>, x: Seq<char>) -> bool {
    exists|i: int| 0 <= i < es.len() && (es[i].0 == x || es[i].1 == x)
}

/// Template dependency graph: the edges in insertion order.
#[derive(Debug, Clone)]
pub struct DependencyGraph {
    edges: Vec<DependencyEdge>,
}

impl View for DependencyGraph {
    type V = Seq<(Seq<char>, Seq<char>, u8)>;

    closed spec fn view(&self) -> Self::V {
        self.edges@.map_values(|e: DependencyEdge| edge_view(e))
    }
}

impl DependencyGraph {
    /// An empty graph.
    pub fn new() -> (r: DependencyGraph)
        ensures
            r@ == Seq::<(Seq<char>, Seq<char>, u8)>::empty(),
    {
        let r = DependencyGraph { edges: Vec::new() };
        proof {
            assert(r@ =~= Seq::<(Seq<char>, Seq<char>, u8)>::empty());
        }
        r
    }

    /// Add a dependency edge.
    pub fn add_edge(&mut self, caller: String, callee: String, depth: u8)
        ensures
            final(self)@ == old(self)@.push((caller@, callee@, depth)),
    {
        let e = DependencyEdge { caller, callee, depth };
        self.edges.push(e);
        proof {
            assert(self@ =~= old(self)@.push(edge_view(e)));
        }
    }

    /// All edges leaving `template_id`, in insertion order.
    pub fn get_dependencies(&self, template_id: &str) -> (r: Vec<&DependencyEdge>)
        ensures
            r@.len() == edges_from(self@, template_id@).len(),
            forall|i: int| 0 <= i < r@.len() ==> edge_view(*#[trigger] r@[i]) == edges_from(self@, template_id@)[i],
    {
        let id = String::from_str(template_id);
        let mut r: Vec<&DependencyEdge> = Vec::new();
        let mut i: usize = 0;
        while i < self.edges.len()
            invariant
                i <= self.edges@.len(),
                id@ == template_id@,
                r@.len() == edges_from(self@.take(i as int), template_id@).len(),
                forall|j: int| 0 <= j < r@.len() ==> edge_view(*#[trigger] r@[j]) == edges_from(self@.take(i as int), template_id@)[j],
            decreases self.edges@.len() - i,
        {
            proof {
                assert(self@.take(i + 1).drop_last() =~= self@.take(i as int));
                assert(self@.take(i + 1).last() == edge_view(self.edges@[i as int]));
            }
            if self.edges[i].caller == id {
                r.push(&self.edges[i]);
            }
            i = i + 1;
        }
        proof {
            assert(self@.take(self.edges@.len() as int) =~= self@);
        }
        r
    }

    /// The callers of `template_id`, one per edge into it, in insertion order.
    pub fn get_dependents(&self, template_id: &str) -> (r: Vec<&String>)
        ensures
            r@.len() == callers_of(self@, template_id@).len(),
            forall|i: int| 0 <= i < r@.len() ==> (*#[trigger] r@[i])@ == callers_of(self@, template_id@)[i],
    {
        let id = String::from_str(template_id);
        let mut r: Vec<&String> = Vec::new();
        let mut i: usize = 0;
        while i < self.edges.len()
            invariant
                i <= self.edges@.len(),
                id@ == template_id@,
                r@.len() == callers_of(self@.take(i as int), template_id@).len(),
                forall|j: int| 0 <= j < r@.len() ==> (*#[trigger] r@[j])@ == callers_of(self@.take(i as int), template_id@)[j],
            decreases self.edges@.len() - i,
        {
            proof {
                assert(self@.take(i + 1).drop_last() =~= self@.take(i as int));
                assert(self@.take(i + 1).last() == edge_view(self.edges@[i as int]));
            }
            if self.edges[i].callee == id {
                r.push(&self.edges[i].caller);
            }
            i = i + 1;
        }
        proof {
            assert(self@.take(self.edges@.len() as int) =~= self@);
        }
        r
    }

    /// The caller/callee pairs as owned strings, for numbering.
    fn pairs(&self) -> (r: Vec<(String, String)>)
        ensures
            pairs_view(r@) == call_pairs(self@),
    {
        let mut r: Vec<(String, String)> = Vec::new();
        let mut i: usize = 0;
        while i < self.edges.len()
            invariant
                i <= self.edges@.len(),
                r@.len() == i,
                self@.len() == self.edges@.len(),
                pairs_view(r@) == call_pairs(self@).take(i as int),
            decreases self.edges@.len() - i,
        {
            let ghost before = r@;
            let p = (self.edges[i].caller.clone(), self.edges[i].callee.clone());
            r.push(p);
            proof {
                assert(r@ == before.push(p));
                assert(self@[i as int] == edge_view(self.edges@[i as int]));
                assert(call_pairs(self@)[i as int] == (p.0@, p.1@));
                assert forall|j: int| 0 <= j < i + 1 implies pairs_view(r@)[j] == call_pairs(self@).take(i + 1)[j] by {
                    if j < i {
                        assert(pairs_view(before)[j] == call_pairs(self@).take(i as int)[j]);
                        assert(r@[j] == before[j]);
                    }
                }
                assert(pairs_view(r@) =~= call_pairs(self@).take(i + 1));
            }
            i = i + 1;
        }
        proof {
            assert(call_pairs(self@).take(self.edges@.len() as int) =~= call_pairs(self@));
        }
        r
    }

    /// Whether adding the edge `caller -> callee` would close a cycle, that
    /// is, whether `callee` already reaches `caller`.
    pub fn would_create_cycle(&self, caller: &str, callee: &str) -> (r: bool)
        ensures
            r == name_reaches(call_pairs(self@), callee@, caller@),
    {
        self.can_reach(callee, caller)
    }

    /// Whether there is a path from `source` to `target` (a template always
    /// reaches itself).
    pub fn can_reach(&self, source: &str, target: &str) -> (r: bool)
        ensures
            r == name_reaches(call_pairs(self@), source@, target@),
    {
        let s = String::from_str(source);
        let t = String::from_str(target);
        let mut extra: Vec<String> = Vec::new();
        extra.push(s.clone());
        extra.push(t.clone());
        let pairs = self.pairs();
        let ig = intern(&extra, &pairs);
        let ghost es = pairs_view(pairs@);
        let ghost xv = names_view(extra@);
        proof {
            lemma_interned_wf(ig, es, xv);
            assert(xv[0] == s@ && xv[1] == t@);
            assert(xv.contains(s@));
            assert(xv.contains(t@));
        }
        let si = lookup(&ig.names, &s);
        let ti = lookup(&ig.names, &t);
        match (si, ti) {
            (Some(a), Some(b)) => {
                let r = reach_search(&ig.adj, a, b);
                proof {
                    lemma_interned_reaches(ig, es, xv, a as int, b as int);
                    assert(names_view(ig.names@)[a as int] == s@);
                    assert(names_view(ig.names@)[b as int] == t@);
                }
                r
            },
            _ => {
                proof {
                    assert(false);
                }
                false
            },
        }
    }

    /// All cycles found by a depth-first search over the callers; each is
    /// listed from the template an edge led back to.
    pub fn find_cycles(&self) -> (r: Vec<Vec<String>>)
        ensures
            forall|i: int| 0 <= i < r@.len() ==> name_cycle(call_pairs(self@), names_view(#[trigger] r@[i]@)),
            r@.len() == 0 <==> !name_cyclic(call_pairs(self@)),
    {
        let extra: Vec<String> = Vec::new();
        let pairs = self.pairs();
        let ig = intern(&extra, &pairs);
        let ghost es = pairs_view(pairs@);
        let ghost xv = names_view(extra@);
        let ghost g = adj_view(ig.adj@);
        proof {
            lemma_interned_wf(ig, es, xv);
        }
        let mut roots: Vec<usize> = Vec::new();
        let mut u: usize = 0;
        while u < ig.adj.len()
            invariant
                u <= ig.adj@.len(),
                g == adj_view(ig.adj@),
                forall|i: int| 0 <= i < roots@.len() ==> #[trigger] roots@[i] < ig.adj@.len(),
                forall|v: usize| v < u && g[v as int].len() > 0 ==> #[trigger] roots@.contains(v),
            decreases ig.adj@.len() - u,
        {
            let ghost before = roots@;
            if ig.adj[u].len() > 0 {
                roots.push(u);
                proof {
                    assert(roots@[roots@.len() - 1] == u);
                }
            }
            proof {
                assert forall|v: usize| v < u + 1 && g[v as int].len() > 0 implies #[trigger] roots@.contains(v) by {
                    assert(g[v as int] == ig.adj@[v as int]@);
                    if v == u {
                        assert(roots@[roots@.len() - 1] == u);
                    } else {
                        assert(before.contains(v));
                        let j = choose|j: int| 0 <= j < before.len() && before[j] == v;
                        assert(roots@[j] == v);
                    }
                }
            }
            u = u + 1;
        }
        let outcome = search_all(&ig.adj, &roots, false);
        let mut r: Vec<Vec<String>> = Vec::new();
        let mut i: usize = 0;
        while i < outcome.cycles.len()
            invariant
                i <= outcome.cycles@.len(),
                interned_ok(ig, es, xv),
                es == call_pairs(self@),
                g == adj_view(ig.adj@),
                forall|j: int| 0 <= j < outcome.cycles@.len() ==> icycle(g, #[trigger] outcome.cycles@[j]@),
                r@.len() == i,
                forall|j: int| 0 <= j < r@.len() ==> name_cycle(es, names_view(#[trigger] r@[j]@)),
            decreases outcome.cycles@.len() - i,
        {
            let c = &outcome.cycles[i];
            let mut named: Vec<String> = Vec::new();
            let mut k: usize = 0;
            proof {
                assert(icycle(g, c@));
            }
            while k < c.len()
                invariant
                    k <= c@.len(),
                    named@.len() == k,
                    icycle(g, c@),
                    g == adj_view(ig.adj@),
                    ig.adj@.len() == ig.names@.len(),
                    names_view(named@) == c@.take(k as int).map_values(|v: usize| names_view(ig.names@)[v as int]),
                decreases c@.len() - k,
            {
                let v = c[k];
                let ghost before = named@;
                named.push(ig.names[v].clone());
                proof {
                    assert(named@ == before.push(ig.names@[v as int]));
                    assert forall|j: int| 0 <= j < k + 1 implies names_view(named@)[j] == c@.take(k + 1).map_values(|v: usize| names_view(ig.names@)[v as int])[j] by {
                        if j < k {
                            assert(names_view(before)[j] == c@.take(k as int).map_values(|v: usize| names_view(ig.names@)[v as int])[j]);
                            assert(named@[j] == before[j]);
                        }
                    }
                    assert(names_view(named@) =~= c@.take(k + 1).map_values(|v: usize| names_view(ig.names@)[v as int]));
                }
                k = k + 1;
            }
            proof {
                assert(c@.take(c@.len() as int) =~= c@);
                lemma_interned_cycle(ig, es, xv, c@);
            }
            r.push(named);
            proof {
                assert forall|j: int| 0 <= j < r@.len() implies name_cycle(es, names_view(#[trigger] r@[j]@)) by {
                    if j < i {
                    }
                }
            }
            i = i + 1;
        }
        proof {
            lemma_interned_cyclic(ig, es, xv);
            if outcome.cycles@.len() == 0 {
                assert forall|v: usize| v < g.len() && g[v as int].len() > 0 implies #[trigger] outcome.finished@.contains(v) by {
                    assert(roots@.contains(v));
                    let j = choose|j: int| 0 <= j < roots@.len() && roots@[j] == v;
                    assert(outcome.finished@.contains(roots@[j]));
                }
                lemma_acyclic(g, outcome.finished@);
            } else {
                assert(icycle(g, outcome.cycles@[0]@));
                lemma_cycle_cyclic(g, outcome.cycles@[0]@);
            }
        }
        r
    }

    /// The maximum nesting depth below `template_id`: the length of the
    /// longest chain of calls that starts there (0 for a template with no
    /// dependencies). Chains are counted up to as many calls as the graph
    /// has edges, which bounds every chain of a graph without cycles.
    pub fn get_max_depth(&self, template_id: &str) -> (r: u8)
        requires
            deepest(call_pairs(self@), template_id@, self@.len()) <= 255,
        ensures
            r == deepest(call_pairs(self@), template_id@, self@.len()),
            !name_cyclic(call_pairs(self@)) ==> (exists|p: Seq<Seq<char>>| #[trigger] name_walk(call_pairs(self@), p)
                && p[0] == template_id@ && p.len() == r + 1),
            !name_cyclic(call_pairs(self@)) ==> (forall|p: Seq<Seq<char>>| #[trigger] name_walk(call_pairs(self@), p)
                && p[0] == template_id@ ==> p.len() <= r + 1),
    {
        proof {
            if !name_cyclic(call_pairs(self@)) {
                lemma_max_depth_is_longest_path(self@, template_id@);
            }
        }
        let t = String::from_str(template_id);
        let mut extra: Vec<String> = Vec::new();
        extra.push(t.clone());
        let pairs = self.pairs();
        let ig = intern(&extra, &pairs);
        let ghost es = pairs_view(pairs@);
        let ghost xv = names_view(extra@);
        let ghost nv = names_view(ig.names@);
        proof {
            assert(xv[0] == t@);
            assert(xv.contains(t@));
        }
        let n = ig.names.len();
        let mut depth: Vec<usize> = Vec::new();
        let mut v: usize = 0;
        while v < n
            invariant
                v <= n,
                depth@.len() == v,
                forall|j: int| 0 <= j < v ==> depth@[j] == 0,
            decreases n - v,
        {
            depth.push(0);
            v = v + 1;
        }
        let rounds = self.edges.len();
        let mut round: usize = 0;
        while round < rounds
            invariant
                round <= rounds,
                rounds == self@.len(),
                interned_ok(ig, es, xv),
                es == call_pairs(self@),
                nv == names_view(ig.names@),
                n == ig.names@.len(),
                depth@.len() == n,
                forall|j: int| 0 <= j < n ==> #[trigger] depth@[j] == deepest(es, nv[j], round as nat),
            decreases rounds - round,
        {
            let mut next: Vec<usize> = Vec::new();
            let mut u: usize = 0;
            while u < n
                invariant
                    u <= n,
                    round < rounds,
                    interned_ok(ig, es, xv),
                    nv == names_view(ig.names@),
                    n == ig.names@.len(),
                    depth@.len() == n,
                    forall|j: int| 0 <= j < n ==> #[trigger] depth@[j] == deepest(es, nv[j], round as nat),
                    next@.len() == u,
                    forall|j: int| 0 <= j < u ==> #[trigger] next@[j] == deepest(es, nv[j], (round + 1) as nat),
                decreases n - u,
            {
                let succ = &ig.adj[u];
                let ghost cs = succs(es, nv[u as int]);
                proof {
                    assert(succ@.len() == cs.len());
                }
                let mut best: usize = 0;
                let mut k: usize = 0;
                while k < succ.len()
                    invariant
                        k <= succ@.len(),
                        u < n,
                        round < rounds,
                        succ@ == ig.adj@[u as int]@,
                        succ@.len() == cs.len(),
                        cs == succs(es, nv[u as int]),
                        interned_ok(ig, es, xv),
                        nv == names_view(ig.names@),
                        n == ig.names@.len(),
                        depth@.len() == n,
                        forall|j: int| 0 <= j < n ==> #[trigger] depth@[j] == deepest(es, nv[j], round as nat),
                        best == deepest_among(es, cs.take(k as int), round as nat),
                    decreases succ@.len() - k,
                {
                    let w = succ[k];
                    proof {
                        assert(ig.adj@[u as int]@[k as int] == w);
                        assert(w < n && nv[w as int] == cs[k as int]);
                        lemma_deepest_le(es, nv[w as int], round as nat);
                        assert(cs.take(k + 1).drop_last() =~= cs.take(k as int));
                        assert(cs.take(k + 1).last() == cs[k as int]);
                    }
                    let cand = depth[w] + 1;
                    if cand > best {
                        best = cand;
                    }
                    k = k + 1;
                }
                proof {
                    assert(cs.take(k as int) =~= cs);
                }
                next.push(best);
                u = u + 1;
            }
            depth = next;
            round = round + 1;
        }
        match lookup(&ig.names, &t) {
            Some(i) => {
                proof {
                    assert(nv[i as int] == t@);
                }
                depth[i] as u8
            },
            None => {
                proof {
                    assert(false);
                }
                0
            },
        }
    }

    /// All template ids of the graph, each once: every caller and every
    /// callee, in the order in which edges first name them.
    pub fn get_all_template_ids(&self) -> (r: Vec<&String>)
        ensures
            r@.map_values(|s: &String| s@).no_duplicates(),
            forall|x: Seq<char>| r@.map_values(|s: &String| s@).contains(x) <==> mentioned(self@, x),
    {
        let mut r: Vec<&String> = Vec::new();
        let mut i: usize = 0;
        while i < self.edges.len()
            invariant
                i <= self.edges@.len(),
                self@.len() == self.edges@.len(),
                r@.map_values(|s: &String| s@).no_duplicates(),
                forall|x: Seq<char>| r@.map_values(|s: &String| s@).contains(x) <==> mentioned(self@.take(i as int), x),
            decreases self.edges@.len() - i,
        {
            let ghost before = r@.map_values(|s: &String| s@);
            let e = &self.edges[i];
            push_new(&mut r, &e.caller);
            push_new(&mut r, &e.callee);
            proof {
                assert(self@[i as int] == edge_view(self.edges@[i as int]));
                let t1 = self@.take(i + 1);
                let t0 = self@.take(i as int);
                assert(t1[i as int] == self@[i as int]);
                assert forall|x: Seq<char>| mentioned(t1, x) <==> (mentioned(t0, x) || x == e.caller@ || x == e.callee@) by {
                    if mentioned(t1, x) {
                        let j = choose|j: int| 0 <= j < t1.len() && (t1[j].0 == x || t1[j].1 == x);
                        if j < i {
                            assert(t0[j] == t1[j]);
                        }
                    }
                    if mentioned(t0, x) {
                        let j = choose|j: int| 0 <= j < t0.len() && (t0[j].0 == x || t0[j].1 == x);
                        assert(t0[j] == t1[j]);
                    }
                    if x == e.caller@ || x == e.callee@ {
                        assert(t1[i as int].0 == e.caller@ && t1[i as int].1 == e.callee@);
                    }
                }
            }
            i = i + 1;
        }
        proof {
            assert(self@.take(self.edges@.len() as int) =~= self@);
        }
        r
    }

    /// Remove every edge.
    pub fn clear(&mut self)
        ensures
            final(self)@ == Seq::<(Seq<char>, Seq<char>, u8)>::empty(),
    {
        self.edges.clear();
        proof {
            assert(self@ =~= Seq::<(Seq<char>, Seq<char>, u8)>::empty());
        }
    }

    /// The number of edges.
    pub fn edge_count(&self) -> (r: usize)
        ensures
            r == self@.len(),
    {
        self.edges.len()
    }
}

/// The names behind a list of string references.
pub open spec fn ref_names(v: Seq<&String>) -> Seq<Seq<char>> {
    v.map_values(|s: &String| s@)
}

/// Append `c` to `r` unless a name equal to it is already there.
fn push_new<'a>(r: &mut Vec<&'a String>, c: &'a String)
    requires
        ref_names(old(r)@).no_duplicates(),
    ensures
        ref_names(final(r)@).no_duplicates(),
        forall|x: Seq<char>| #[trigger] ref_names(final(r)@).contains(x)
            <==> (ref_names(old(r)@).contains(x) || x == c@),
{
    let ghost before = r@.map_values(|s: &String| s@);
    let mut found = false;
    let mut k: usize = 0;
    while k < r.len()
        invariant
            k <= r@.len(),
            r@ == old(r)@,
            before == r@.map_values(|s: &String| s@),
            !found ==> forall|j: int| 0 <= j < k ==> r@[j]@ != c@,
            found ==> before.contains(c@),
        decreases r@.len() - k,
    {
        if *r[k] == *c {
            found = true;
            proof {
                assert(before[k as int] == c@);
            }
        }
        k = k + 1;
    }
    if found {
        return;
    }
    r.push(c);
    proof {
        let after = r@.map_values(|s: &String| s@);
        assert(after =~= before.push(c@));
        assert(!before.contains(c@)) by {
            if before.contains(c@) {
                let j = choose|j: int| 0 <= j < before.len() && before[j] == c@;
                assert(old(r)@[j]@ == c@);
            }
        }
        assert forall|x: Seq<char>| after.contains(x) <==> (before.contains(x) || x == c@) by {
            if after.contains(x) && x != c@ {
                let j = choose|j: int| 0 <= j < after.len() && after[j] == x;
                assert(before[j] == x);
            }
            if before.contains(x) {
                let j = choose|j: int| 0 <= j < before.len() && before[j] == x;
                assert(after[j] == x);
            }
            if x == c@ {
                assert(after[before.len() as int] == x);
            }
        }
    }
}

impl Default for DependencyGraph {
    /// An empty graph.
    fn default() -> (r: DependencyGraph)
        ensures
            r@ == Seq::<(Seq<char>, Seq<char>, u8)>::empty(),
    {
        DependencyGraph::new()
    }
}

/// `o` as a sequence of zero or one names.
pub open spec fn opt_seq(o: Option<Seq<char>>) -> Seq<Seq<char>> {
    match o {
        Some(x) => seq![x],
        None => Seq::empty(),
    }
}

/// Position of the first double quote, or else of the first single quote.
pub open spec fn quote_pos(rest: Seq<char>) -> Option<int> {
    match find_first(rest, seq!['"']) {
        Some(q) => Some(q),
        None => find_first(rest, seq!['\'']),
    }
}

/// The template named by the first `keyword` directive of `line`: from the
/// keyword on, the text between the first quote (double, else single) and
/// the next quote of the same kind, when that text is not empty.
pub open spec fn directive_target(line: Seq<char>, keyword: Seq<char>) -> Option<Seq<char>> {
    match find_first(line, keyword) {
        None => None,
        Some(k) => {
            let rest = line.subrange(k, line.len() as int);
            match quote_pos(rest) {
                None => None,
                Some(q) => {
                    let after = rest.subrange(q + 1, rest.len() as int);
                    match find_first(after, seq![rest[q]]) {
                        None => None,
                        Some(e) => if e > 0 {
                            Some(after.subrange(0, e))
                        } else {
                            None
                        },
                    }
                },
            }
        },
    }
}

/// The templates a line includes and calls, in that order.
pub open spec fn line_dependencies(line: Seq<char>) -> Seq<Seq<char>> {
    opt_seq(directive_target(line, "{% include"@)) + opt_seq(directive_target(line, "{% call"@))
}

/// The templates that the lines of `s` include or call, line by line.
pub open spec fn dependencies_in(s: Seq<char>) -> Seq<Seq<char>>
    decreases s.len(),
{
    match find_first(s, seq!['\n']) {
        None => line_dependencies(s),
        Some(i) => {
            proof {
                lemma_find_first(s, seq!['\n']);
            }
            line_dependencies(s.take(i)) + dependencies_in(s.skip(i + 1))
        },
    }
}

/// Where in `line` the target of the first `keyword` directive lies.
fn directive_span(line: &Vec<char>, keyword: &Vec<char>) -> (r: Option<(usize, usize)>)
    ensures
        r matches Some((a, b)) ==> a <= b <= line@.len() && directive_target(line@, keyword@) == Some(line@.subrange(a as int, b as int)),
        r is None ==> directive_target(line@, keyword@) is None,
{
    let k = match find_seq(line, keyword) {
        Some(k) => k,
        None => return None,
    };
    proof {
        lemma_find_first(line@, keyword@);
    }
    let rest = sub_chars(line, k, line.len());
    let mut dq: Vec<char> = Vec::new();
    dq.push('"');
    let mut sq: Vec<char> = Vec::new();
    sq.push('\'');
    proof {
        assert(dq@ =~= seq!['"']);
        assert(sq@ =~= seq!['\'']);
    }
    let q = match find_seq(&rest, &dq) {
        Some(q) => q,
        None => match find_seq(&rest, &sq) {
            Some(q) => q,
            None => return None,
        },
    };
    proof {
        lemma_find_first(rest@, seq!['"']);
        lemma_find_first(rest@, seq!['\'']);
        assert(quote_pos(rest@) == Some(q as int));
    }
    let qc = rest[q];
    let mut qv: Vec<char> = Vec::new();
    qv.push(qc);
    let after = sub_chars(&rest, q + 1, rest.len());
    proof {
        assert(qv@ =~= seq![rest@[q as int]]);
    }
    let e = match find_seq(&after, &qv) {
        Some(e) => e,
        None => return None,
    };
    proof {
        lemma_find_first(after@, qv@);
    }
    if e == 0 {
        return None;
    }
    let a = k + q + 1;
    let b = a + e;
    proof {
        assert(line@.subrange(a as int, b as int) =~= after@.subrange(0, e as int));
    }
    Some((a, b))
}

/// The templates that `source` pulls in through `{% include "..." %}` and
/// `{% call "..." %}` directives (double or single quotes), line by line,
/// each line's include before its call. Positions count characters.
pub fn parse_dependencies(_template_id: &str, source: &str) -> (r: Vec<String>)
    ensures
        r@.map_values(|s: String| s@) == dependencies_in(source@),
{
    let chars = str_chars(source);
    let include_kw = str_chars("{% include");
    let call_kw = str_chars("{% call");
    let mut nl: Vec<char> = Vec::new();
    nl.push('\n');
    proof {
        assert(nl@ =~= seq!['\n']);
    }
    let mut r: Vec<String> = Vec::new();
    let mut pos: usize = 0;
    proof {
        assert(chars@.skip(0) =~= chars@);
        assert(r@.map_values(|s: String| s@) + dependencies_in(chars@.skip(0)) =~= dependencies_in(source@));
    }
    loop
        invariant
            chars@ == source@,
            include_kw@ == "{% include"@,
            call_kw@ == "{% call"@,
            nl@ == seq!['\n'],
            pos <= chars@.len(),
            r@.map_values(|s: String| s@) + dependencies_in(chars@.skip(pos as int)) == dependencies_in(source@),
        decreases chars@.len() - pos,
    {
        let ghost rest = chars@.skip(pos as int);
        let found = if pos < chars.len() { find_seq_from(&chars, &nl, pos) } else { None };
        proof {
            lemma_find_skip(chars@, seq!['\n'], pos as int, 0);
            lemma_find_first(rest, seq!['\n']);
            if pos == chars@.len() {
                assert(rest.len() == 0);
                assert(find_first(rest, seq!['\n']) is None);
            }
        }
        let end = match found {
            Some(i) => i,
            None => chars.len(),
        };
        let line = sub_chars(&chars, pos, end);
        proof {
            match found {
                Some(i) => {
                    assert(find_first(rest, seq!['\n']) == Some(i - pos));
                    assert(line@ =~= rest.take(i - pos));
                },
                None => {
                    assert(find_first(rest, seq!['\n']) is None);
                    assert(line@ =~= rest);
                },
            }
        }
        let ghost before = r@.map_values(|s: String| s@);
        match directive_span(&line, &include_kw) {
            Some((a, b)) => {
                let t = source.substring_char(pos + a, pos + b);
                r.push(String::from_str(t));
                proof {
                    assert(t@ =~= line@.subrange(a as int, b as int));
                }
            },
            None => {},
        }
        match directive_span(&line, &call_kw) {
            Some((a, b)) => {
                let t = source.substring_char(pos + a, pos + b);
                r.push(String::from_str(t));
                proof {
                    assert(t@ =~= line@.subrange(a as int, b as int));
                }
            },
            None => {},
        }
        proof {
            let ld = line_dependencies(line@);
            assert(r@.map_values(|s: String| s@) =~= before + ld);
        }
        match found {
            Some(i) => {
                proof {
                    let next = chars@.skip(i + 1);
                    assert(rest.skip(i - pos + 1) =~= next);
                    assert(dependencies_in(rest) == line_dependencies(rest.take(i - pos)) + dependencies_in(next));
                    assert(before + line_dependencies(line@) + dependencies_in(next) =~= before + (line_dependencies(line@) + dependencies_in(next)));
                }
                pos = i + 1;
            },
            None => {
                proof {
                    assert(dependencies_in(rest) == line_dependencies(rest));
                    assert(r@.map_values(|s: String| s@) =~= dependencies_in(source@));
                }
                return r;
            },
        }
    }
}

} // verus!

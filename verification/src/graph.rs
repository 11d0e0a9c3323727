//! Directed graphs over named nodes.
//!
//! Graphs of this crate are given as lists of `(from, to)` name pairs. For the
//! algorithms the names are numbered: `Interned` holds the distinct names and,
//! for each, the numbers of its successors in edge order. The walks, reachability
//! and cycles of the numbered graph are those of the named one.
use vstd::prelude::*;
use crate::walks::{adj_view, wf, iedge, iwalk, ireaches, icyclic, icycle};

verus! {

/// The character views of a list of name pairs.
pub open spec fn pairs_view(v: Seq<(String, String)>) -> Seq<(Seq<char>, Seq<char>)> {
    v.map_values(|e: (String, String)| (e.0@, e.1@))
}

/// The character views of a list of names.
pub open spec fn names_view(v: Seq<String>) -> Seq<Seq<char>> {
    v.map_values(|s: String| s@)
}

/// The targets of the edges leaving `a`, in edge order.
pub open spec fn succs(es: Seq<(Seq<char>, Seq<char>)>, a: Seq<char>) -> Seq<Seq<char>>
    decreases es.len(),
{
    if es.len() == 0 {
        Seq::empty()
    } else {
        let prev = succs(es.drop_last(), a);
        if es.last().0 == a {
            prev.push(es.last().1)
        } else {
            prev
        }
    }
}

/// There is an edge from `a` to `b`.
pub open spec fn name_edge(es: Seq<(Seq<char>, Seq<char>)>, a: Seq<char>, b: Seq<char>) -> bool {
    exists|i: int| 0 <= i < es.len() && es[i].0 == a && es[i].1 == b
}

/// `x` is the source or the target of some edge.
pub open spec fn endpoint(es: Seq<(Seq<char>, Seq<char>)>, x: Seq<char>) -> bool {
    exists|i: int| 0 <= i < es.len() && (es[i].0 == x || es[i].1 == x)
}

/// `p` is a non-empty walk: each name is followed by one of its successors.
pub open spec fn name_walk(es: Seq<(Seq<char>, Seq<char>)>, p: Seq<Seq<char>>) -> bool {
    &&& p.len() >= 1
    &&& forall|i: int| 0 <= i < p.len() - 1 ==> name_edge(es, #[trigger] p[i], p[i + 1])
}

/// `b` can be reached from `a` (every name reaches itself).
pub open spec fn name_reaches(es: Seq<(Seq<char>, Seq<char>)>, a: Seq<char>, b: Seq<char>) -> bool {
    exists|p: Seq<Seq<char>>| name_walk(es, p) && p[0] == a && p.last() == b
}

/// The graph has a cycle: a walk of at least one edge that ends where it starts.
pub open spec fn name_cyclic(es: Seq<(Seq<char>, Seq<char>)>) -> bool {
    exists|p: Seq<Seq<char>>| name_walk(es, p) && p.len() >= 2 && p[0] == p.last()
}

/// `c` is a cycle: consecutive names are joined by edges and the last one
/// has an edge back to the first.
pub open spec fn name_cycle(es: Seq<(Seq<char>, Seq<char>)>, c: Seq<Seq<char>>) -> bool {
    &&& c.len() >= 1
    &&& forall|i: int| 0 <= i < c.len() - 1 ==> name_edge(es, #[trigger] c[i], c[i + 1])
    &&& name_edge(es, c.last(), c[0])
}

/// The successor list of `a` holds exactly the targets of the edges leaving `a`.
pub proof fn lemma_succs_edge(es: Seq<(Seq<char>, Seq<char>)>, a: Seq<char>, b: Seq<char>)
    ensures
        succs(es, a).contains(b) <==> name_edge(es, a, b),
    decreases es.len(),
{
    if es.len() > 0 {
        let pre = es.drop_last();
        lemma_succs_edge(pre, a, b);
        if name_edge(pre, a, b) {
            let i = choose|i: int| 0 <= i < pre.len() && pre[i].0 == a && pre[i].1 == b;
            assert(es[i] == pre[i]);
        }
        if name_edge(es, a, b) {
            let i = choose|i: int| 0 <= i < es.len() && es[i].0 == a && es[i].1 == b;
            if i < es.len() - 1 {
                assert(pre[i] == es[i]);
            } else {
                assert(succs(es, a) == succs(pre, a).push(b));
                assert(succs(es, a)[succs(es, a).len() - 1] == b);
            }
        }
        if es.last().0 == a {
            assert(succs(es, a) == succs(pre, a).push(es.last().1));
            if succs(es, a).contains(b) {
                let k = choose|k: int| 0 <= k < succs(es, a).len() && succs(es, a)[k] == b;
                if k < succs(pre, a).len() {
                    assert(succs(pre, a)[k] == b);
                } else {
                    assert(es[es.len() - 1].1 == b);
                }
            }
            if succs(pre, a).contains(b) {
                let k = choose|k: int| 0 <= k < succs(pre, a).len() && succs(pre, a)[k] == b;
                assert(succs(es, a)[k] == b);
            }
        }
    }
}

/// Names numbered for the graph algorithms.
pub struct Interned {
    /// The distinct names.
    pub names: Vec<String>,
    /// For each name, the numbers of its successors in edge order.
    pub adj: Vec<Vec<usize>>,
}

/// `ig` numbers exactly the names of `extra` and the endpoints of `es`, and
/// its successor lists follow `succs` position by position.
pub open spec fn interned_ok(
    ig: Interned,
    es: Seq<(Seq<char>, Seq<char>)>,
    extra: Seq<Seq<char>>,
) -> bool {
    let nv = names_view(ig.names@);
    &&& nv.no_duplicates()
    &&& forall|x: Seq<char>| nv.contains(x) <==> (extra.contains(x) || endpoint(es, x))
    &&& ig.adj@.len() == ig.names@.len()
    &&& forall|u: int| 0 <= u < nv.len() ==> (#[trigger] ig.adj@[u])@.len() == succs(es, nv[u]).len()
    &&& forall|u: int, k: int|
        0 <= u < nv.len() && 0 <= k < ig.adj@[u]@.len() ==> (#[trigger] ig.adj@[u]@[k]) < nv.len()
            && nv[ig.adj@[u]@[k] as int] == succs(es, nv[u])[k]
}

/// The number of `s` in `names`, if it is there.
pub fn lookup(names: &Vec<String>, s: &String) -> (r: Option<usize>)
    ensures
        r matches Some(i) ==> i < names@.len() && names@[i as int]@ == s@,
        r is None ==> !names_view(names@).contains(s@),
{
    let mut i: usize = 0;
    while i < names.len()
        invariant
            i <= names@.len(),
            forall|j: int| 0 <= j < i ==> names@[j]@ != s@,
        decreases names@.len() - i,
    {
        if names[i] == *s {
            return Some(i);
        }
        i = i + 1;
    }
    proof {
        if names_view(names@).contains(s@) {
            let j = choose|j: int| 0 <= j < names_view(names@).len() && names_view(names@)[j] == s@;
            assert(names@[j]@ == s@);
        }
    }
    None
}

/// Append `s` to `names` unless it is already there.
pub(crate) fn add_name(names: &mut Vec<String>, s: &String)
    requires
        names_view(old(names)@).no_duplicates(),
    ensures
        names_view(final(names)@).no_duplicates(),
        forall|x: Seq<char>| names_view(final(names)@).contains(x) <==> (names_view(old(names)@).contains(x) || x == s@),
        names_view(old(names)@).is_prefix_of(names_view(final(names)@)),
        names_view(old(names)@).contains(s@) ==> names_view(final(names)@) == names_view(old(names)@),
        !names_view(old(names)@).contains(s@) ==> names_view(final(names)@) == names_view(old(names)@).push(s@),
{
    match lookup(names, s) {
        Some(_) => {
            proof {
                assert(names_view(old(names)@).is_prefix_of(names_view(names@)));
                assert forall|x: Seq<char>| names_view(names@).contains(x) <==> (names_view(old(names)@).contains(x) || x == s@) by {
                    if x == s@ {
                        let i = choose|i: int| 0 <= i < names@.len() && names@[i]@ == s@;
                        assert(names_view(names@)[i] == x);
                    }
                }
            }
        },
        None => {
            let ghost before = names_view(names@);
            names.push(s.clone());
            proof {
                assert(names_view(names@) =~= before.push(s@));
                assert forall|x: Seq<char>| names_view(names@).contains(x) <==> (before.contains(x) || x == s@) by {
                    if x == s@ {
                        assert(names_view(names@)[before.len() as int] == x);
                    }
                    if names_view(names@).contains(x) && x != s@ {
                        let i = choose|i: int| 0 <= i < names_view(names@).len() && names_view(names@)[i] == x;
                        assert(before[i] == x);
                    }
                    if before.contains(x) {
                        let i = choose|i: int| 0 <= i < before.len() && before[i] == x;
                        assert(names_view(names@)[i] == x);
                    }
                }
                assert(before.is_prefix_of(names_view(names@)));
            }
        },
    }
}

/// Number the names of `extra` and of the endpoints of `es`: first those of
/// `extra` in their order, then the endpoints in edge order.
pub fn intern(extra: &Vec<String>, es: &Vec<(String, String)>) -> (ig: Interned)
    ensures
        interned_ok(ig, pairs_view(es@), names_view(extra@)),
        names_view(extra@).no_duplicates() ==> names_view(extra@).is_prefix_of(names_view(ig.names@)),
{
    let ghost pv = pairs_view(es@);
    let ghost xv = names_view(extra@);
    let mut names: Vec<String> = Vec::new();
    let mut i: usize = 0;
    while i < extra.len()
        invariant
            i <= extra@.len(),
            xv == names_view(extra@),
            names_view(names@).no_duplicates(),
            forall|x: Seq<char>| names_view(names@).contains(x) <==> xv.take(i as int).contains(x),
            xv.no_duplicates() ==> xv.take(i as int) == names_view(names@),
        decreases extra@.len() - i,
    {
        let ghost before = names_view(names@);
        add_name(&mut names, &extra[i]);
        proof {
            let t1 = xv.take(i + 1);
            let t0 = xv.take(i as int);
            assert(t1 =~= t0.push(xv[i as int]));
            assert forall|x: Seq<char>| names_view(names@).contains(x) <==> t1.contains(x) by {
                if t1.contains(x) && x != xv[i as int] {
                    let j = choose|j: int| 0 <= j < t1.len() && t1[j] == x;
                    assert(t0[j] == x);
                }
                if t0.contains(x) {
                    let j = choose|j: int| 0 <= j < t0.len() && t0[j] == x;
                    assert(t1[j] == x);
                }
                assert(t1[i as int] == xv[i as int]);
            }
            if xv.no_duplicates() {
                assert(!xv.take(i as int).contains(xv[i as int]));
                assert(!before.contains(extra@[i as int]@));
                assert(names_view(names@) =~= before.push(xv[i as int]));
            }
        }
        i = i + 1;
    }
    proof {
        assert(xv.take(extra@.len() as int) =~= xv);
    }
    let ghost after_extra = names_view(names@);
    let mut j: usize = 0;
    while j < es.len()
        invariant
            j <= es@.len(),
            pv == pairs_view(es@),
            xv == names_view(extra@),
            names_view(names@).no_duplicates(),
            after_extra.is_prefix_of(names_view(names@)),
            forall|x: Seq<char>| #![trigger names_view(names@).contains(x)] names_view(names@).contains(x) <==> (xv.contains(x) || endpoint(pv.take(j as int), x)),
        decreases es@.len() - j,
    {
        let ghost n0 = names_view(names@);
        add_name(&mut names, &es[j].0);
        let ghost n1 = names_view(names@);
        add_name(&mut names, &es[j].1);
        proof {
            let t1 = pv.take(j + 1);
            let t0 = pv.take(j as int);
            assert(pv[j as int] == (es@[j as int].0@, es@[j as int].1@));
            assert forall|x: Seq<char>| endpoint(t1, x) <==> (endpoint(t0, x) || x == pv[j as int].0 || x == pv[j as int].1) by {
                if endpoint(t1, x) {
                    let k = choose|k: int| 0 <= k < t1.len() && (t1[k].0 == x || t1[k].1 == x);
                    if k < j {
                        assert(t0[k] == t1[k]);
                    }
                }
                if endpoint(t0, x) {
                    let k = choose|k: int| 0 <= k < t0.len() && (t0[k].0 == x || t0[k].1 == x);
                    assert(t0[k] == t1[k]);
                }
                assert(t1[j as int] == pv[j as int]);
            }
            assert forall|x: Seq<char>| names_view(names@).contains(x) <==> (xv.contains(x) || endpoint(t1, x)) by {
                assert(names_view(names@).contains(x) <==> (n1.contains(x) || x == es@[j as int].1@));
                assert(n1.contains(x) <==> (n0.contains(x) || x == es@[j as int].0@));
                assert(n0.contains(x) <==> (xv.contains(x) || endpoint(t0, x)));
            }
            assert(after_extra.is_prefix_of(names_view(names@)));
        }
        j = j + 1;
    }
    proof {
        assert(pv.take(es@.len() as int) =~= pv);
    }
    let ghost nv = names_view(names@);
    let mut adj: Vec<Vec<usize>> = Vec::new();
    let mut u: usize = 0;
    while u < names.len()
        invariant
            u <= names@.len(),
            nv == names_view(names@),
            pv == pairs_view(es@),
            nv.no_duplicates(),
            forall|x: Seq<char>| nv.contains(x) <==> (xv.contains(x) || endpoint(pv, x)),
            adj@.len() == u,
            forall|v: int| 0 <= v < u ==> (#[trigger] adj@[v])@.len() == succs(pv, nv[v]).len(),
            forall|v: int, k: int|
                0 <= v < u && 0 <= k < adj@[v]@.len() ==> (#[trigger] adj@[v]@[k]) < nv.len()
                    && nv[adj@[v]@[k] as int] == succs(pv, nv[v])[k],
        decreases names@.len() - u,
    {
        let mut row: Vec<usize> = Vec::new();
        let mut i: usize = 0;
        while i < es.len()
            invariant
                i <= es@.len(),
                u < names@.len(),
                nv == names_view(names@),
                pv == pairs_view(es@),
                forall|x: Seq<char>| nv.contains(x) <==> (xv.contains(x) || endpoint(pv, x)),
                row@.len() == succs(pv.take(i as int), nv[u as int]).len(),
                forall|k: int| 0 <= k < row@.len() ==> (#[trigger] row@[k]) < nv.len()
                    && nv[row@[k] as int] == succs(pv.take(i as int), nv[u as int])[k],
            decreases es@.len() - i,
        {
            proof {
                assert(pv.take(i + 1).drop_last() =~= pv.take(i as int));
                assert(pv.take(i + 1).last() == pv[i as int]);
                assert(pv[i as int] == (es@[i as int].0@, es@[i as int].1@));
            }
            if es[i].0 == names[u] {
                match lookup(&names, &es[i].1) {
                    Some(t) => {
                        row.push(t);
                    },
                    None => {
                        proof {
                            assert(endpoint(pv, es@[i as int].1@));
                            assert(false);
                        }
                    },
                }
            }
            i = i + 1;
        }
        proof {
            assert(pv.take(es@.len() as int) =~= pv);
        }
        adj.push(row);
        u = u + 1;
    }
    let ig = Interned { names, adj };
    proof {
        assert(interned_ok(ig, pv, xv));
    }
    ig
}

/// The numbered graph is well formed.
pub proof fn lemma_interned_wf(ig: Interned, es: Seq<(Seq<char>, Seq<char>)>, extra: Seq<Seq<char>>)
    requires
        interned_ok(ig, es, extra),
    ensures
        wf(adj_view(ig.adj@)),
        adj_view(ig.adj@).len() == ig.names@.len(),
{
    let g = adj_view(ig.adj@);
    assert forall|u: int, k: int| 0 <= u < g.len() && 0 <= k < g[u].len() implies #[trigger] g[u][k] < g.len() by {
        assert(g[u] == ig.adj@[u]@);
        assert(ig.adj@[u]@[k] < names_view(ig.names@).len());
    }
}

/// Numbered edges are the named edges.
pub proof fn lemma_interned_edge(
    ig: Interned,
    es: Seq<(Seq<char>, Seq<char>)>,
    extra: Seq<Seq<char>>,
    u: int,
    v: int,
)
    requires
        interned_ok(ig, es, extra),
        0 <= u < ig.names@.len(),
        0 <= v < ig.names@.len(),
    ensures
        iedge(adj_view(ig.adj@), u, v) <==> name_edge(es, names_view(ig.names@)[u], names_view(ig.names@)[v]),
{
    let nv = names_view(ig.names@);
    let g = adj_view(ig.adj@);
    let sv = succs(es, nv[u]);
    assert(g[u] == ig.adj@[u]@);
    lemma_succs_edge(es, nv[u], nv[v]);
    if iedge(g, u, v) {
        let k = choose|k: int| 0 <= k < g[u].len() && g[u][k] as int == v;
        assert(ig.adj@[u]@[k] as int == v);
        assert(nv[v] == sv[k]);
        assert(sv.contains(nv[v]));
    }
    if name_edge(es, nv[u], nv[v]) {
        let k = choose|k: int| 0 <= k < sv.len() && sv[k] == nv[v];
        let w = ig.adj@[u]@[k];
        assert(nv[w as int] == sv[k]);
        assert(w as int == v);
        assert(g[u][k] as int == v);
    }
}

/// Both ends of a named edge are numbered.
pub proof fn lemma_interned_endpoints(
    ig: Interned,
    es: Seq<(Seq<char>, Seq<char>)>,
    extra: Seq<Seq<char>>,
    a: Seq<char>,
    b: Seq<char>,
)
    requires
        interned_ok(ig, es, extra),
        name_edge(es, a, b),
    ensures
        names_view(ig.names@).contains(a),
        names_view(ig.names@).contains(b),
{
    let i = choose|i: int| 0 <= i < es.len() && es[i].0 == a && es[i].1 == b;
    assert(endpoint(es, a));
    assert(endpoint(es, b));
}

/// A numbered walk names a named walk.
pub proof fn lemma_walk_to_names(ig: Interned, es: Seq<(Seq<char>, Seq<char>)>, extra: Seq<Seq<char>>, p: Seq<int>)
    requires
        interned_ok(ig, es, extra),
        iwalk(adj_view(ig.adj@), p),
    ensures
        name_walk(es, p.map_values(|i: int| names_view(ig.names@)[i])),
{
    let nv = names_view(ig.names@);
    let q = p.map_values(|i: int| nv[i]);
    assert forall|i: int| 0 <= i < q.len() - 1 implies name_edge(es, #[trigger] q[i], q[i + 1]) by {
        assert(iedge(adj_view(ig.adj@), p[i], p[i + 1]));
        lemma_interned_edge(ig, es, extra, p[i], p[i + 1]);
    }
}

/// A named walk from a numbered name is a numbered walk.
pub proof fn lemma_walk_to_numbers(
    ig: Interned,
    es: Seq<(Seq<char>, Seq<char>)>,
    extra: Seq<Seq<char>>,
    q: Seq<Seq<char>>,
) -> (p: Seq<int>)
    requires
        interned_ok(ig, es, extra),
        name_walk(es, q),
        names_view(ig.names@).contains(q[0]),
    ensures
        iwalk(adj_view(ig.adj@), p),
        p.len() == q.len(),
        forall|i: int| 0 <= i < p.len() ==> names_view(ig.names@)[#[trigger] p[i]] == q[i],
{
    let nv = names_view(ig.names@);
    assert forall|i: int| 0 <= i < q.len() implies nv.contains(#[trigger] q[i]) by {
        if i > 0 {
            assert(name_edge(es, q[i - 1], q[i]));
            lemma_interned_endpoints(ig, es, extra, q[i - 1], q[i]);
        }
    }
    let p = q.map_values(|x: Seq<char>| nv.index_of(x));
    assert forall|i: int| 0 <= i < p.len() implies 0 <= #[trigger] p[i] < adj_view(ig.adj@).len() && nv[p[i]] == q[i] by {
        assert(nv.contains(q[i]));
    }
    assert forall|i: int| 0 <= i < p.len() - 1 implies iedge(adj_view(ig.adj@), #[trigger] p[i], p[i + 1]) by {
        assert(nv[p[i]] == q[i] && nv[p[i + 1]] == q[i + 1]);
        assert(name_edge(es, q[i], q[i + 1]));
        lemma_interned_edge(ig, es, extra, p[i], p[i + 1]);
    }
    p
}

/// The numbered graph has a cycle exactly when the named one does.
pub proof fn lemma_interned_cyclic(ig: Interned, es: Seq<(Seq<char>, Seq<char>)>, extra: Seq<Seq<char>>)
    requires
        interned_ok(ig, es, extra),
    ensures
        icyclic(adj_view(ig.adj@)) <==> name_cyclic(es),
{
    let nv = names_view(ig.names@);
    if icyclic(adj_view(ig.adj@)) {
        let p = choose|p: Seq<int>| iwalk(adj_view(ig.adj@), p) && p.len() >= 2 && p[0] == p.last();
        lemma_walk_to_names(ig, es, extra, p);
        let q = p.map_values(|i: int| nv[i]);
        assert(name_walk(es, q) && q.len() >= 2 && q[0] == q.last());
    }
    if name_cyclic(es) {
        let q = choose|q: Seq<Seq<char>>| name_walk(es, q) && q.len() >= 2 && q[0] == q.last();
        assert(name_edge(es, q[0], q[1]));
        lemma_interned_endpoints(ig, es, extra, q[0], q[1]);
        let p = lemma_walk_to_numbers(ig, es, extra, q);
        assert(nv[p[0]] == nv[p.last()]);
        assert(nv.no_duplicates());
        assert(p[0] == p.last());
        assert(iwalk(adj_view(ig.adj@), p) && p.len() >= 2 && p[0] == p.last());
    }
}

/// Numbered reachability is named reachability.
pub proof fn lemma_interned_reaches(
    ig: Interned,
    es: Seq<(Seq<char>, Seq<char>)>,
    extra: Seq<Seq<char>>,
    u: int,
    v: int,
)
    requires
        interned_ok(ig, es, extra),
        0 <= u < ig.names@.len(),
        0 <= v < ig.names@.len(),
    ensures
        ireaches(adj_view(ig.adj@), u, v) <==> name_reaches(es, names_view(ig.names@)[u], names_view(ig.names@)[v]),
{
    let nv = names_view(ig.names@);
    if ireaches(adj_view(ig.adj@), u, v) {
        let p = choose|p: Seq<int>| iwalk(adj_view(ig.adj@), p) && p[0] == u && p.last() == v;
        lemma_walk_to_names(ig, es, extra, p);
        let q = p.map_values(|i: int| nv[i]);
        assert(name_walk(es, q) && q[0] == nv[u] && q.last() == nv[v]);
    }
    if name_reaches(es, nv[u], nv[v]) {
        let q = choose|q: Seq<Seq<char>>| name_walk(es, q) && q[0] == nv[u] && q.last() == nv[v];
        assert(nv.contains(nv[u]));
        let p = lemma_walk_to_numbers(ig, es, extra, q);
        assert(nv[p[0]] == nv[u]);
        assert(p[0] == u);
        assert(nv[p.last()] == nv[v]);
        assert(p.last() == v);
    }
}

/// A numbered cycle names a named cycle.
pub proof fn lemma_interned_cycle(ig: Interned, es: Seq<(Seq<char>, Seq<char>)>, extra: Seq<Seq<char>>, c: Seq<usize>)
    requires
        interned_ok(ig, es, extra),
        icycle(adj_view(ig.adj@), c),
    ensures
        name_cycle(es, c.map_values(|i: usize| names_view(ig.names@)[i as int])),
{
    let nv = names_view(ig.names@);
    let q = c.map_values(|i: usize| nv[i as int]);
    assert forall|i: int| 0 <= i < q.len() - 1 implies name_edge(es, #[trigger] q[i], q[i + 1]) by {
        lemma_interned_edge(ig, es, extra, c[i] as int, c[i + 1] as int);
    }
    lemma_interned_edge(ig, es, extra, c.last() as int, c[0] as int);
}

} // verus!

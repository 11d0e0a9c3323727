//! Walks, reachability and depth-first search over numbered graphs.
//!
//! A numbered graph is a list of successor lists: node `u` has an edge to
//! every number in `adj[u]`.
use vstd::prelude::*;

verus! {

/// The successor lists as sequences.
pub open spec fn adj_view(adj: Seq<Vec<usize>>) -> Seq<Seq<usize>> {
    adj.map_values(|r: Vec<usize>| r@)
}

/// Every successor number names a node.
pub open spec fn wf(adj: Seq<Seq<usize>>) -> bool {
    forall|u: int, k: int| 0 <= u < adj.len() && 0 <= k < adj[u].len() ==> #[trigger] adj[u][k] < adj.len()
}

/// There is an edge from `u` to `v`.
pub open spec fn iedge(adj: Seq<Seq<usize>>, u: int, v: int) -> bool {
    0 <= u < adj.len() && exists|k: int| 0 <= k < adj[u].len() && adj[u][k] as int == v
}

/// `p` is a non-empty walk of nodes joined by edges.
pub open spec fn iwalk(adj: Seq<Seq<usize>>, p: Seq<int>) -> bool {
    &&& p.len() >= 1
    &&& forall|i: int| 0 <= i < p.len() ==> 0 <= #[trigger] p[i] < adj.len()
    &&& forall|i: int| 0 <= i < p.len() - 1 ==> iedge(adj, #[trigger] p[i], p[i + 1])
}

/// `v` can be reached from `u`.
pub open spec fn ireaches(adj: Seq<Seq<usize>>, u: int, v: int) -> bool {
    exists|p: Seq<int>| iwalk(adj, p) && p[0] == u && p.last() == v
}

/// The graph has a cycle.
pub open spec fn icyclic(adj: Seq<Seq<usize>>) -> bool {
    exists|p: Seq<int>| iwalk(adj, p) && p.len() >= 2 && p[0] == p.last()
}

/// `c` is a cycle: a walk whose last node has an edge back to its first.
pub open spec fn icycle(adj: Seq<Seq<usize>>, c: Seq<usize>) -> bool {
    &&& c.len() >= 1
    &&& forall|i: int| 0 <= i < c.len() ==> #[trigger] c[i] < adj.len()
    &&& forall|i: int| 0 <= i < c.len() - 1 ==> iedge(adj, #[trigger] c[i] as int, c[i + 1] as int)
    &&& iedge(adj, c.last() as int, c[0] as int)
}

/// The number of `false` entries.
pub open spec fn count_false(s: Seq<bool>) -> nat
    decreases s.len(),
{
    if s.len() == 0 {
        0
    } else {
        count_false(s.drop_last()) + if s.last() { 0nat } else { 1nat }
    }
}

/// Marking an unmarked entry lowers the count by one.
pub proof fn lemma_count_false_set(s: Seq<bool>, i: int)
    requires
        0 <= i < s.len(),
        !s[i],
    ensures
        count_false(s.update(i, true)) + 1 == count_false(s),
    decreases s.len(),
{
    let t = s.update(i, true);
    if i == s.len() - 1 {
        assert(t.drop_last() =~= s.drop_last());
    } else {
        assert(t.drop_last() =~= s.drop_last().update(i, true));
        lemma_count_false_set(s.drop_last(), i);
    }
}

/// Marking more entries never raises the count.
pub proof fn lemma_count_false_mono(s: Seq<bool>, t: Seq<bool>)
    requires
        s.len() == t.len(),
        forall|i: int| 0 <= i < s.len() && s[i] ==> t[i],
    ensures
        count_false(t) <= count_false(s),
    decreases s.len(),
{
    if s.len() > 0 {
        lemma_count_false_mono(s.drop_last(), t.drop_last());
    }
}

/// A walk extended by an edge is a walk.
pub proof fn lemma_walk_push(adj: Seq<Seq<usize>>, p: Seq<int>, v: int)
    requires
        iwalk(adj, p),
        iedge(adj, p.last(), v),
        0 <= v < adj.len(),
    ensures
        iwalk(adj, p.push(v)),
        p.push(v)[0] == p[0],
        p.push(v).last() == v,
{
    let q = p.push(v);
    assert forall|i: int| 0 <= i < q.len() - 1 implies iedge(adj, #[trigger] q[i], q[i + 1]) by {
        if i < p.len() - 1 {
            assert(q[i] == p[i] && q[i + 1] == p[i + 1]);
        } else {
            assert(q[i] == p.last());
        }
    }
}

/// A node is reached from itself, and reaching extends along an edge.
pub proof fn lemma_reach_step(adj: Seq<Seq<usize>>, s: int, u: int, v: int)
    requires
        0 <= s < adj.len(),
        ireaches(adj, s, u),
        iedge(adj, u, v),
        0 <= v < adj.len(),
    ensures
        ireaches(adj, s, v),
{
    let p = choose|p: Seq<int>| iwalk(adj, p) && p[0] == s && p.last() == u;
    lemma_walk_push(adj, p, v);
}

/// Every node reaches itself.
pub proof fn lemma_reach_self(adj: Seq<Seq<usize>>, s: int)
    requires
        0 <= s < adj.len(),
    ensures
        ireaches(adj, s, s),
{
    let p = seq![s];
    assert(iwalk(adj, p) && p[0] == s && p.last() == s);
}

/// A set of marked nodes that holds the start of a walk and is closed under
/// edges holds its end.
pub proof fn lemma_closed_holds_walk(adj: Seq<Seq<usize>>, marked: Seq<bool>, p: Seq<int>)
    requires
        iwalk(adj, p),
        marked.len() == adj.len(),
        marked[p[0]],
        forall|v: int, k: int|
            0 <= v < adj.len() && marked[v] && 0 <= k < adj[v].len() ==> marked[#[trigger] adj[v][k] as int],
    ensures
        marked[p.last()],
    decreases p.len(),
{
    if p.len() > 1 {
        let q = p.drop_first();
        assert(iedge(adj, p[0], p[1]));
        let k = choose|k: int| 0 <= k < adj[p[0]].len() && adj[p[0]][k] as int == p[1];
        assert(marked[adj[p[0]][k] as int]);
        assert forall|i: int| 0 <= i < q.len() - 1 implies iedge(adj, #[trigger] q[i], q[i + 1]) by {
            assert(q[i] == p[i + 1] && q[i + 1] == p[i + 2]);
        }
        lemma_closed_holds_walk(adj, marked, q);
    }
}

/// Every node on the stack is in range and reached from `s`.
#[verifier::opaque]
pub open spec fn stack_sound(g: Seq<Seq<usize>>, s: int, stack: Seq<usize>) -> bool {
    forall|j: int| 0 <= j < stack.len() ==> #[trigger] stack[j] < g.len() && ireaches(g, s, stack[j] as int)
}

/// Every marked node is reached from `s`.
#[verifier::opaque]
pub open spec fn marks_sound(g: Seq<Seq<usize>>, s: int, marked: Seq<bool>) -> bool {
    forall|v: int| 0 <= v < g.len() && #[trigger] marked[v] ==> ireaches(g, s, v)
}

/// Each successor of a marked node is marked or waits on the stack.
#[verifier::opaque]
pub open spec fn closed_but_stack(g: Seq<Seq<usize>>, marked: Seq<bool>, stack: Seq<usize>) -> bool {
    forall|v: int, k: int|
        0 <= v < g.len() && marked[v] && 0 <= k < g[v].len() ==> marked[#[trigger] g[v][k] as int] || stack.contains(g[v][k])
}

proof fn lemma_pop_marked(g: Seq<Seq<usize>>, marked: Seq<bool>, stack: Seq<usize>, cur: usize, s: usize)
    requires
        closed_but_stack(g, marked, stack.push(cur)),
        marked.len() == g.len(),
        cur < g.len(),
        marked[cur as int],
        marked[s as int] || stack.push(cur).contains(s),
    ensures
        closed_but_stack(g, marked, stack),
        marked[s as int] || stack.contains(s),
{
    reveal(closed_but_stack);
    let old_stack = stack.push(cur);
    assert forall|v: int, k: int|
        0 <= v < g.len() && marked[v] && 0 <= k < g[v].len() implies marked[#[trigger] g[v][k] as int] || stack.contains(g[v][k]) by {
        if !marked[g[v][k] as int] {
            assert(old_stack.contains(g[v][k]));
            let j = choose|j: int| 0 <= j < old_stack.len() && old_stack[j] == g[v][k];
            if j < stack.len() {
                assert(stack[j] == g[v][k]);
            }
        }
    }
    if !marked[s as int] {
        let j = choose|j: int| 0 <= j < old_stack.len() && old_stack[j] == s;
        if j < stack.len() {
            assert(stack[j] == s);
        }
    }
}

proof fn lemma_expand(
    g: Seq<Seq<usize>>,
    before: Seq<bool>,
    stack_before: Seq<usize>,
    cur: usize,
    s: usize,
)
    requires
        wf(g),
        before.len() == g.len(),
        cur < g.len(),
        !before[cur as int],
        s < g.len(),
        closed_but_stack(g, before, stack_before.push(cur)),
        stack_sound(g, s as int, stack_before),
        marks_sound(g, s as int, before),
        ireaches(g, s as int, cur as int),
        before[s as int] || stack_before.push(cur).contains(s),
    ensures
        closed_but_stack(g, before.update(cur as int, true), stack_before + g[cur as int]),
        stack_sound(g, s as int, stack_before + g[cur as int]),
        marks_sound(g, s as int, before.update(cur as int, true)),
        before.update(cur as int, true)[s as int] || (stack_before + g[cur as int]).contains(s),
{
    reveal(closed_but_stack);
    reveal(stack_sound);
    reveal(marks_sound);
    let marked = before.update(cur as int, true);
    let stack = stack_before + g[cur as int];
    let old_stack = stack_before.push(cur);
    assert forall|j: int| 0 <= j < stack.len() implies #[trigger] stack[j] < g.len() && ireaches(g, s as int, stack[j] as int) by {
        if j >= stack_before.len() {
            let kk = j - stack_before.len();
            assert(stack[j] == g[cur as int][kk]);
            assert(iedge(g, cur as int, g[cur as int][kk] as int));
            lemma_reach_step(g, s as int, cur as int, g[cur as int][kk] as int);
        }
    }
    assert forall|v: int, k2: int|
        0 <= v < g.len() && marked[v] && 0 <= k2 < g[v].len() implies marked[#[trigger] g[v][k2] as int] || stack.contains(g[v][k2]) by {
        let w = g[v][k2];
        if v == cur {
            assert(stack[stack_before.len() + k2] == w);
        } else if !marked[w as int] {
            assert(before[v]);
            if w != cur {
                assert(old_stack.contains(w));
                let j = choose|j: int| 0 <= j < old_stack.len() && old_stack[j] == w;
                assert(j < stack_before.len());
                assert(stack[j] == w);
            }
        }
    }
    if !marked[s as int] {
        let j = choose|j: int| 0 <= j < old_stack.len() && old_stack[j] == s;
        if j < stack_before.len() {
            assert(stack[j] == s);
        }
    }
}

/// Whether `t` can be reached from `s`: a depth-first search with an explicit
/// stack that stops as soon as it takes `t` off the stack.
pub fn reach_search(adj: &Vec<Vec<usize>>, s: usize, t: usize) -> (r: bool)
    requires
        wf(adj_view(adj@)),
        s < adj@.len(),
        t < adj@.len(),
    ensures
        r == ireaches(adj_view(adj@), s as int, t as int),
{
    let ghost g = adj_view(adj@);
    let n = adj.len();
    let mut visited: Vec<bool> = Vec::new();
    let mut i: usize = 0;
    while i < n
        invariant
            i <= n,
            n == adj@.len(),
            visited@.len() == i,
            forall|j: int| 0 <= j < i ==> !visited@[j],
        decreases n - i,
    {
        visited.push(false);
        i = i + 1;
    }
    let mut stack: Vec<usize> = Vec::new();
    stack.push(s);
    proof {
        lemma_reach_self(g, s as int);
        assert(stack@[0] == s);
        reveal(stack_sound);
        reveal(marks_sound);
        reveal(closed_but_stack);
    }
    loop
        invariant
            n == adj@.len(),
            g == adj_view(adj@),
            g.len() == n,
            wf(g),
            s < n,
            t < n,
            visited@.len() == n,
            stack_sound(g, s as int, stack@),
            marks_sound(g, s as int, visited@),
            closed_but_stack(g, visited@, stack@),
            visited@[s as int] || stack@.contains(s),
            !visited@[t as int],
        decreases count_false(visited@), stack@.len(),
    {
        let ghost stack_before_pop = stack@;
        match stack.pop() {
            None => {
                proof {
                    reveal(closed_but_stack);
                    if ireaches(g, s as int, t as int) {
                        let p = choose|p: Seq<int>| iwalk(g, p) && p[0] == s && p.last() == t;
                        lemma_closed_holds_walk(g, visited@, p);
                    }
                }
                return false;
            },
            Some(cur) => {
                proof {
                    assert(stack_before_pop == stack@.push(cur));
                    reveal(stack_sound);
                    assert(stack_before_pop[stack@.len() as int] == cur);
                    assert(cur < n && ireaches(g, s as int, cur as int));
                    assert(stack_sound(g, s as int, stack@)) by {
                        assert forall|j: int| 0 <= j < stack@.len() implies #[trigger] stack@[j] < g.len() && ireaches(g, s as int, stack@[j] as int) by {
                            assert(stack@[j] == stack_before_pop[j]);
                        }
                    }
                }
                if cur == t {
                    return true;
                }
                if visited[cur] {
                    proof {
                        lemma_pop_marked(g, visited@, stack@, cur, s);
                    }
                    continue;
                }
                let ghost vis_before = visited@;
                let ghost stack_before = stack@;
                proof {
                    lemma_count_false_set(visited@, cur as int);
                    lemma_expand(g, vis_before, stack_before, cur, s);
                }
                visited.set(cur, true);
                let mut k: usize = 0;
                while k < adj[cur].len()
                    invariant
                        n == adj@.len(),
                        g == adj_view(adj@),
                        cur < n,
                        k <= g[cur as int].len(),
                        stack@ == stack_before + g[cur as int].take(k as int),
                    decreases g[cur as int].len() - k,
                {
                    let w = adj[cur][k];
                    proof {
                        assert(g[cur as int][k as int] == w);
                        assert(g[cur as int].take(k + 1) =~= g[cur as int].take(k as int).push(w));
                    }
                    stack.push(w);
                    k = k + 1;
                }
                proof {
                    assert(g[cur as int].take(k as int) =~= g[cur as int]);
                }
            },
        }
    }
}

/// The search path: distinct nodes joined by edges, exactly the nodes marked
/// as being on the stack.
pub open spec fn path_ok(g: Seq<Seq<usize>>, path: Seq<usize>, ons: Seq<bool>) -> bool {
    &&& path.no_duplicates()
    &&& forall|i: int| 0 <= i < path.len() ==> #[trigger] path[i] < g.len()
    &&& forall|v: usize| v < g.len() ==> (#[trigger] ons[v as int] <==> path.contains(v))
    &&& forall|i: int| 0 <= i < path.len() - 1 ==> iedge(g, #[trigger] path[i] as int, path[i + 1] as int)
}

/// The finished nodes, in finishing order: distinct, and exactly the visited
/// nodes that have left the stack.
pub open spec fn finished_ok(g: Seq<Seq<usize>>, fo: Seq<usize>, vis: Seq<bool>, ons: Seq<bool>) -> bool {
    &&& fo.no_duplicates()
    &&& forall|i: int| 0 <= i < fo.len() ==> #[trigger] fo[i] < g.len()
    &&& forall|v: usize| v < g.len() ==> (#[trigger] fo.contains(v) <==> (vis[v as int] && !ons[v as int]))
}

/// `v` finished before position `i`.
pub open spec fn finished_before(fo: Seq<usize>, i: int, v: usize) -> bool {
    exists|j: int| 0 <= j < i && fo[j] == v
}

/// Every successor of a finished node finished before it.
pub open spec fn closed_before(g: Seq<Seq<usize>>, fo: Seq<usize>) -> bool {
    forall|i: int, k: int|
        0 <= i < fo.len() && 0 <= k < g[fo[i] as int].len() ==> finished_before(fo, i, #[trigger] g[fo[i] as int][k])
}

/// Every recorded cycle is a cycle.
pub open spec fn cycles_ok(g: Seq<Seq<usize>>, cycles: Seq<Vec<usize>>) -> bool {
    forall|i: int| 0 <= i < cycles.len() ==> icycle(g, #[trigger] cycles[i]@)
}

/// The state of the depth-first search between steps.
#[verifier::opaque]
pub open spec fn dfs_inv(
    g: Seq<Seq<usize>>,
    vis: Seq<bool>,
    ons: Seq<bool>,
    path: Seq<usize>,
    fo: Seq<usize>,
    cycles: Seq<Vec<usize>>,
) -> bool {
    &&& vis.len() == g.len()
    &&& ons.len() == g.len()
    &&& forall|v: int| 0 <= v < g.len() && #[trigger] ons[v] ==> vis[v]
    &&& path_ok(g, path, ons)
    &&& finished_ok(g, fo, vis, ons)
    &&& cycles_ok(g, cycles)
    &&& cycles.len() == 0 ==> closed_before(g, fo)
}

proof fn lemma_enter(
    g: Seq<Seq<usize>>,
    vis: Seq<bool>,
    ons: Seq<bool>,
    path: Seq<usize>,
    fo: Seq<usize>,
    cycles: Seq<Vec<usize>>,
    u: usize,
)
    requires
        dfs_inv(g, vis, ons, path, fo, cycles),
        u < g.len(),
        !vis[u as int],
        path.len() > 0 ==> iedge(g, path.last() as int, u as int),
    ensures
        dfs_inv(g, vis.update(u as int, true), ons.update(u as int, true), path.push(u), fo, cycles),
        !ons[u as int],
        !fo.contains(u),
{
    reveal(dfs_inv);
    let vis2 = vis.update(u as int, true);
    let ons2 = ons.update(u as int, true);
    let p2 = path.push(u);
    assert(ons[u as int] ==> vis[u as int]);
    assert(ons[u as int] <==> path.contains(u));
    assert(!path.contains(u));
    assert forall|v: usize| v < g.len() implies (#[trigger] ons2[v as int] <==> p2.contains(v)) by {
        if v == u {
            assert(p2[path.len() as int] == u);
        } else {
            if p2.contains(v) {
                let i = choose|i: int| 0 <= i < p2.len() && p2[i] == v;
                assert(path[i] == v);
            }
            if path.contains(v) {
                let i = choose|i: int| 0 <= i < path.len() && path[i] == v;
                assert(p2[i] == v);
            }
        }
    }
    assert forall|i: int| 0 <= i < p2.len() - 1 implies iedge(g, #[trigger] p2[i] as int, p2[i + 1] as int) by {
        if i < path.len() - 1 {
            assert(p2[i] == path[i] && p2[i + 1] == path[i + 1]);
        } else {
            assert(p2[i] == path.last() && p2[i + 1] == u);
        }
    }
    assert forall|i: int, j: int| 0 <= i < p2.len() && 0 <= j < p2.len() && i != j implies p2[i] != p2[j] by {
        if i < path.len() && j < path.len() {
            assert(p2[i] == path[i] && p2[j] == path[j]);
        } else if i < path.len() {
            assert(p2[i] == path[i]);
            assert(path.contains(path[i]));
        } else if j < path.len() {
            assert(p2[j] == path[j]);
            assert(path.contains(path[j]));
        }
    }
    assert(path_ok(g, p2, ons2));
    assert(finished_ok(g, fo, vis2, ons2));
}

proof fn lemma_back_edge(
    g: Seq<Seq<usize>>,
    vis: Seq<bool>,
    ons: Seq<bool>,
    path: Seq<usize>,
    fo: Seq<usize>,
    cycles: Seq<Vec<usize>>,
    u: usize,
    w: usize,
    pos: int,
    c: Vec<usize>,
)
    requires
        dfs_inv(g, vis, ons, path, fo, cycles),
        path.len() > 0,
        path.last() == u,
        iedge(g, u as int, w as int),
        0 <= pos < path.len(),
        path[pos] == w,
        c@ == path.subrange(pos, path.len() as int),
    ensures
        dfs_inv(g, vis, ons, path, fo, cycles.push(c)),
        icycle(g, c@),
{
    reveal(dfs_inv);
    let cs = c@;
    assert forall|i: int| 0 <= i < cs.len() implies #[trigger] cs[i] < g.len() by {
        assert(cs[i] == path[pos + i]);
    }
    assert forall|i: int| 0 <= i < cs.len() - 1 implies iedge(g, #[trigger] cs[i] as int, cs[i + 1] as int) by {
        assert(cs[i] == path[pos + i] && cs[i + 1] == path[pos + i + 1]);
    }
    assert(cs.last() == u);
    assert(cs[0] == w);
    assert(icycle(g, cs));
    let c2 = cycles.push(c);
    assert forall|i: int| 0 <= i < c2.len() implies icycle(g, #[trigger] c2[i]@) by {
        if i < cycles.len() {
            assert(c2[i] == cycles[i]);
        }
    }
}

proof fn lemma_closed_push(g: Seq<Seq<usize>>, fo: Seq<usize>, u: usize)
    requires
        closed_before(g, fo),
        u < g.len(),
        forall|k: int| 0 <= k < g[u as int].len() ==> fo.contains(#[trigger] g[u as int][k]),
    ensures
        closed_before(g, fo.push(u)),
{
    let f2 = fo.push(u);
    assert forall|i: int, k: int|
        0 <= i < f2.len() && 0 <= k < g[f2[i] as int].len() implies finished_before(f2, i, #[trigger] g[f2[i] as int][k]) by {
        if i < fo.len() {
            assert(f2[i] == fo[i]);
            assert(finished_before(fo, i, g[fo[i] as int][k]));
            let j = choose|j: int| 0 <= j < i && fo[j] == g[fo[i] as int][k];
            assert(f2[j] == fo[j]);
            assert(0 <= j < i && f2[j] == g[f2[i] as int][k]);
        } else {
            assert(f2[i] == u);
            assert(fo.contains(g[u as int][k]));
            let j = choose|j: int| 0 <= j < fo.len() && fo[j] == g[u as int][k];
            assert(f2[j] == fo[j]);
            assert(0 <= j < i && f2[j] == g[f2[i] as int][k]);
        }
    }
}

proof fn lemma_leave(
    g: Seq<Seq<usize>>,
    vis: Seq<bool>,
    ons: Seq<bool>,
    path: Seq<usize>,
    fo: Seq<usize>,
    cycles: Seq<Vec<usize>>,
    u: usize,
    old_ons: Seq<bool>,
    old_path: Seq<usize>,
)
    requires
        dfs_inv(g, vis, ons, path, fo, cycles),
        u < g.len(),
        path == old_path.push(u),
        ons == old_ons.update(u as int, true),
        old_ons.len() == g.len(),
        !old_ons[u as int],
        vis[u as int],
        cycles.len() == 0 ==> forall|k: int| 0 <= k < g[u as int].len() ==> fo.contains(#[trigger] g[u as int][k]),
    ensures
        dfs_inv(g, vis, old_ons, old_path, fo.push(u), cycles),
        fo.push(u).contains(u),
{
    reveal(dfs_inv);
    let f2 = fo.push(u);
    assert(path[old_path.len() as int] == u);
    assert(!fo.contains(u));
    assert(f2[fo.len() as int] == u);
    assert forall|v: usize| v < g.len() implies (#[trigger] old_ons[v as int] <==> old_path.contains(v)) by {
        if v != u {
            assert(ons[v as int] == old_ons[v as int]);
            if old_path.contains(v) {
                let i = choose|i: int| 0 <= i < old_path.len() && old_path[i] == v;
                assert(path[i] == v);
            }
            if path.contains(v) {
                let i = choose|i: int| 0 <= i < path.len() && path[i] == v;
                assert(i < old_path.len());
                assert(old_path[i] == v);
            }
        } else {
            if old_path.contains(u) {
                let i = choose|i: int| 0 <= i < old_path.len() && old_path[i] == u;
                assert(path[i] == u);
                assert(path[old_path.len() as int] == u);
            }
        }
    }
    assert forall|i: int| 0 <= i < old_path.len() - 1 implies iedge(g, #[trigger] old_path[i] as int, old_path[i + 1] as int) by {
        assert(old_path[i] == path[i] && old_path[i + 1] == path[i + 1]);
    }
    assert forall|i: int, j: int| 0 <= i < old_path.len() && 0 <= j < old_path.len() && i != j implies old_path[i] != old_path[j] by {
        assert(old_path[i] == path[i] && old_path[j] == path[j]);
    }
    assert forall|i: int| 0 <= i < old_path.len() implies #[trigger] old_path[i] < g.len() by {
        assert(old_path[i] == path[i]);
    }
    assert(path_ok(g, old_path, old_ons));
    assert forall|v: usize| v < g.len() implies (#[trigger] f2.contains(v) <==> (vis[v as int] && !old_ons[v as int])) by {
        if v == u {
        } else {
            assert(ons[v as int] == old_ons[v as int]);
            if f2.contains(v) {
                let i = choose|i: int| 0 <= i < f2.len() && f2[i] == v;
                assert(fo[i] == v);
            }
            if fo.contains(v) {
                let i = choose|i: int| 0 <= i < fo.len() && fo[i] == v;
                assert(f2[i] == v);
            }
        }
    }
    assert forall|i: int, j: int| 0 <= i < f2.len() && 0 <= j < f2.len() && i != j implies f2[i] != f2[j] by {
        if i < fo.len() && j < fo.len() {
        } else if i < fo.len() {
            assert(fo.contains(f2[i]));
        } else if j < fo.len() {
            assert(fo.contains(f2[j]));
        }
    }
    assert(finished_ok(g, f2, vis, old_ons));
    if cycles.len() == 0 {
        lemma_closed_push(g, fo, u);
    }
    assert forall|v: int| 0 <= v < g.len() && #[trigger] old_ons[v] implies vis[v] by {
        assert(ons[v]);
    }
    assert(vis.len() == g.len());
    assert(old_ons.len() == g.len());
    assert(cycles_ok(g, cycles));
    assert(cycles.len() == 0 ==> closed_before(g, f2));
}

proof fn lemma_inv_facts(
    g: Seq<Seq<usize>>,
    vis: Seq<bool>,
    ons: Seq<bool>,
    path: Seq<usize>,
    fo: Seq<usize>,
    cycles: Seq<Vec<usize>>,
    w: usize,
)
    requires
        dfs_inv(g, vis, ons, path, fo, cycles),
        w < g.len(),
    ensures
        vis.len() == g.len(),
        ons.len() == g.len(),
        ons[w as int] ==> path.contains(w),
        vis[w as int] && !ons[w as int] ==> fo.contains(w),
        ons[w as int] ==> vis[w as int],
{
    reveal(dfs_inv);
}

/// Position of `w` in `path`.
fn position_of(path: &Vec<usize>, w: usize) -> (r: usize)
    requires
        path@.contains(w),
    ensures
        r < path@.len(),
        path@[r as int] == w,
{
    let mut i: usize = 0;
    while i < path.len()
        invariant
            i <= path@.len(),
            path@.contains(w),
            forall|j: int| 0 <= j < i ==> path@[j] != w,
        decreases path@.len() - i,
    {
        if path[i] == w {
            return i;
        }
        i = i + 1;
    }
    proof {
        let j = choose|j: int| 0 <= j < path@.len() && path@[j] == w;
        assert(false);
    }
    0
}

/// The entries of `path` from position `pos` on.
fn tail_from(path: &Vec<usize>, pos: usize) -> (r: Vec<usize>)
    requires
        pos <= path@.len(),
    ensures
        r@ == path@.subrange(pos as int, path@.len() as int),
{
    let mut r: Vec<usize> = Vec::new();
    let mut i: usize = pos;
    while i < path.len()
        invariant
            pos <= i <= path@.len(),
            r@ == path@.subrange(pos as int, i as int),
        decreases path@.len() - i,
    {
        r.push(path[i]);
        proof {
            assert(path@.subrange(pos as int, i + 1) =~= path@.subrange(pos as int, i as int).push(path@[i as int]));
        }
        i = i + 1;
    }
    r
}

/// Depth-first visit of `u`: marks it, visits its unvisited successors in
/// order, records a cycle for each edge back to a node on the search path,
/// and finally appends `u` to the finishing order. With `stop_first`, it
/// returns `true` as soon as a cycle is recorded.
fn dfs_visit(
    adj: &Vec<Vec<usize>>,
    u: usize,
    visited: &mut Vec<bool>,
    on_stack: &mut Vec<bool>,
    path: &mut Vec<usize>,
    fo: &mut Vec<usize>,
    cycles: &mut Vec<Vec<usize>>,
    stop_first: bool,
) -> (stopped: bool)
    requires
        wf(adj_view(adj@)),
        u < adj@.len(),
        dfs_inv(adj_view(adj@), old(visited)@, old(on_stack)@, old(path)@, old(fo)@, old(cycles)@),
        !old(visited)@[u as int],
        old(path)@.len() > 0 ==> iedge(adj_view(adj@), old(path)@.last() as int, u as int),
    ensures
        dfs_inv(adj_view(adj@), final(visited)@, final(on_stack)@, final(path)@, final(fo)@, final(cycles)@),
        forall|v: int| 0 <= v < old(visited)@.len() && old(visited)@[v] ==> #[trigger] final(visited)@[v],
        final(visited)@[u as int],
        final(visited)@.len() == old(visited)@.len(),
        old(fo)@.is_prefix_of(final(fo)@),
        old(cycles)@.is_prefix_of(final(cycles)@),
        stopped ==> stop_first && final(cycles)@.len() > old(cycles)@.len(),
        stop_first && !stopped ==> final(cycles)@.len() == old(cycles)@.len(),
        stop_first && stopped ==> final(cycles)@.len() == old(cycles)@.len() + 1,
        !stopped ==> final(on_stack)@ == old(on_stack)@ && final(path)@ == old(path)@ && final(fo)@.contains(u),
    decreases count_false(old(visited)@),
{
    let ghost g = adj_view(adj@);
    let ghost vis0 = visited@;
    let ghost ons0 = on_stack@;
    let ghost path0 = path@;
    let ghost fo0 = fo@;
    let ghost cyc0 = cycles@;
    proof {
        lemma_enter(g, visited@, on_stack@, path@, fo@, cycles@, u);
        lemma_inv_facts(g, visited@, on_stack@, path@, fo@, cycles@, u);
        lemma_count_false_set(visited@, u as int);
    }
    visited.set(u, true);
    on_stack.set(u, true);
    path.push(u);
    let mut k: usize = 0;
    while k < adj[u].len()
        invariant
            g == adj_view(adj@),
            vis0 == old(visited)@,
            ons0 == old(on_stack)@,
            path0 == old(path)@,
            fo0 == old(fo)@,
            cyc0 == old(cycles)@,
            wf(g),
            u < g.len(),
            vis0.len() == g.len(),
            ons0.len() == g.len(),
            !ons0[u as int],
            dfs_inv(g, visited@, on_stack@, path@, fo@, cycles@),
            path@ == path0.push(u),
            on_stack@ == ons0.update(u as int, true),
            visited@[u as int],
            forall|v: int| 0 <= v < vis0.len() && vis0[v] ==> #[trigger] visited@[v],
            fo0.is_prefix_of(fo@),
            cyc0.is_prefix_of(cycles@),
            visited@.len() == vis0.len(),
            count_false(visited@) < count_false(vis0),
            k <= g[u as int].len(),
            cycles@.len() == 0 ==> forall|j: int| 0 <= j < k ==> fo@.contains(#[trigger] g[u as int][j]),
            stop_first ==> cycles@.len() == cyc0.len(),
        decreases g[u as int].len() - k,
    {
        let w = adj[u][k];
        proof {
            assert(g[u as int][k as int] == w);
            assert(w < g.len());
            assert(iedge(g, u as int, w as int));
            assert(path@.last() == u);
            lemma_inv_facts(g, visited@, on_stack@, path@, fo@, cycles@, w);
        }
        let ghost fo_before = fo@;
        let ghost cyc_before = cycles@;
        if !visited[w] {
            let ghost vis_before = visited@;
            let stopped = dfs_visit(adj, w, visited, on_stack, path, fo, cycles, stop_first);
            proof {
                lemma_count_false_mono(vis_before, visited@);
                assert forall|v: int| 0 <= v < vis0.len() && vis0[v] implies #[trigger] visited@[v] by {
                    assert(vis_before[v]);
                }
            }
            if stopped {
                proof {
                    assert(cyc0.is_prefix_of(cycles@)) by {
                        assert forall|i: int| 0 <= i < cyc0.len() implies cyc0[i] == cycles@[i] by {
                            assert(cyc_before[i] == cyc0[i]);
                        }
                    }
                    assert(fo0.is_prefix_of(fo@)) by {
                        assert forall|i: int| 0 <= i < fo0.len() implies fo0[i] == fo@[i] by {
                            assert(fo_before[i] == fo0[i]);
                        }
                    }
                }
                return true;
            }
        } else if on_stack[w] {
            let pos = position_of(path, w);
            let c = tail_from(path, pos);
            proof {
                lemma_back_edge(g, visited@, on_stack@, path@, fo@, cycles@, u, w, pos as int, c);
            }
            cycles.push(c);
            if stop_first {
                proof {
                    assert(cyc0.is_prefix_of(cycles@)) by {
                        assert forall|i: int| 0 <= i < cyc0.len() implies cyc0[i] == cycles@[i] by {
                            assert(cycles@[i] == cyc_before[i]);
                        }
                    }
                }
                return true;
            }
        }
        proof {
            assert(cyc0.is_prefix_of(cycles@)) by {
                assert forall|i: int| 0 <= i < cyc0.len() implies cyc0[i] == cycles@[i] by {
                    assert(cyc_before[i] == cyc0[i]);
                    assert(cyc_before.is_prefix_of(cycles@));
                }
            }
            assert(fo0.is_prefix_of(fo@)) by {
                assert forall|i: int| 0 <= i < fo0.len() implies fo0[i] == fo@[i] by {
                    assert(fo_before[i] == fo0[i]);
                }
            }
            if cycles@.len() == 0 {
                assert(cyc_before.len() == 0);
                assert forall|j: int| 0 <= j < k + 1 implies fo@.contains(#[trigger] g[u as int][j]) by {
                    if j < k {
                        assert(fo_before.contains(g[u as int][j]));
                        let i = choose|i: int| 0 <= i < fo_before.len() && fo_before[i] == g[u as int][j];
                        assert(fo@[i] == fo_before[i]);
                    } else {
                        assert(g[u as int][j] == w);
                    }
                }
            }
        }
        k = k + 1;
    }
    proof {
        lemma_leave(g, visited@, on_stack@, path@, fo@, cycles@, u, ons0, path0);
    }
    path.pop();
    on_stack.set(u, false);
    proof {
        assert(on_stack@ =~= ons0);
        assert(path@ =~= path0);
    }
    let ghost fo_mid = fo@;
    fo.push(u);
    proof {
        assert(fo0.is_prefix_of(fo@)) by {
            assert forall|i: int| 0 <= i < fo0.len() implies fo0[i] == fo@[i] by {
                assert(fo_mid[i] == fo0[i]);
            }
        }
    }
    false
}

/// A node that finished at position `i0` and starts a walk of at least one
/// edge sees the end of the walk finish earlier.
pub proof fn lemma_descend(g: Seq<Seq<usize>>, fo: Seq<usize>, p: Seq<int>, i0: int)
    requires
        closed_before(g, fo),
        iwalk(g, p),
        p.len() >= 2,
        0 <= i0 < fo.len(),
        fo[i0] as int == p[0],
    ensures
        exists|j: int| 0 <= j < i0 && fo[j] as int == p.last(),
    decreases p.len(),
{
    assert(iedge(g, p[0], p[1]));
    let k = choose|k: int| 0 <= k < g[p[0]].len() && g[p[0]][k] as int == p[1];
    assert(g[fo[i0] as int][k] as int == p[1]);
    assert(finished_before(fo, i0, g[fo[i0] as int][k]));
    let j1 = choose|j: int| 0 <= j < i0 && fo[j] == g[fo[i0] as int][k];
    if p.len() > 2 {
        let q = p.drop_first();
        assert forall|i: int| 0 <= i < q.len() - 1 implies iedge(g, #[trigger] q[i], q[i + 1]) by {
            assert(q[i] == p[i + 1] && q[i + 1] == p[i + 2]);
        }
        assert(iwalk(g, q));
        lemma_descend(g, fo, q, j1);
        let j = choose|j: int| 0 <= j < j1 && fo[j] as int == q.last();
        assert(q.last() == p.last());
    } else {
        assert(fo[j1] as int == p.last());
    }
}

proof fn lemma_no_cycle_at(g: Seq<Seq<usize>>, fo: Seq<usize>, p: Seq<int>, i0: int)
    requires
        closed_before(g, fo),
        iwalk(g, p),
        p.len() >= 2,
        0 <= i0 < fo.len(),
        fo[i0] as int == p[0],
    ensures
        p[0] != p.last(),
    decreases i0,
{
    lemma_descend(g, fo, p, i0);
    let j = choose|j: int| 0 <= j < i0 && fo[j] as int == p.last();
    if p[0] == p.last() {
        lemma_no_cycle_at(g, fo, p, j);
    }
}

/// A finishing order closed under edges that holds every node with an
/// outgoing edge rules out cycles.
pub proof fn lemma_acyclic(g: Seq<Seq<usize>>, fo: Seq<usize>)
    requires
        g.len() <= usize::MAX,
        closed_before(g, fo),
        forall|u: usize| u < g.len() && g[u as int].len() > 0 ==> #[trigger] fo.contains(u),
    ensures
        !icyclic(g),
{
    if icyclic(g) {
        let p = choose|p: Seq<int>| iwalk(g, p) && p.len() >= 2 && p[0] == p.last();
        assert(iedge(g, p[0], p[1]));
        let u = p[0] as usize;
        assert(u as int == p[0]);
        assert(g[u as int].len() > 0);
        assert(fo.contains(u));
        let i0 = choose|i: int| 0 <= i < fo.len() && fo[i] == u;
        lemma_no_cycle_at(g, fo, p, i0);
    }
}

/// A recorded cycle makes the graph cyclic.
pub proof fn lemma_cycle_cyclic(g: Seq<Seq<usize>>, c: Seq<usize>)
    requires
        icycle(g, c),
    ensures
        icyclic(g),
{
    let p = c.map_values(|x: usize| x as int).push(c[0] as int);
    assert forall|i: int| 0 <= i < p.len() implies 0 <= #[trigger] p[i] < g.len() by {
        if i < c.len() {
            assert(p[i] == c[i] as int);
        }
    }
    assert forall|i: int| 0 <= i < p.len() - 1 implies iedge(g, #[trigger] p[i], p[i + 1]) by {
        if i < c.len() - 1 {
            assert(p[i] == c[i] as int && p[i + 1] == c[i + 1] as int);
        } else {
            assert(p[i] == c.last() as int);
            assert(p[i + 1] == c[0] as int);
        }
    }
    assert(iwalk(g, p) && p.len() >= 2 && p[0] == p.last());
}

/// The outcome of a depth-first search over a whole graph.
pub struct SearchOutcome {
    /// Nodes in the order in which their visits finished.
    pub finished: Vec<usize>,
    /// The cycles found, each as the search path from the node an edge led back to.
    pub cycles: Vec<Vec<usize>>,
}

/// Depth-first search from each root in turn that is not yet visited,
/// recording cycles; with `stop_first` it ends at the first cycle.
pub fn search_all(adj: &Vec<Vec<usize>>, roots: &Vec<usize>, stop_first: bool) -> (r: SearchOutcome)
    requires
        wf(adj_view(adj@)),
        forall|i: int| 0 <= i < roots@.len() ==> #[trigger] roots@[i] < adj@.len(),
    ensures
        cycles_ok(adj_view(adj@), r.cycles@),
        stop_first ==> r.cycles@.len() <= 1,
        r.cycles@.len() == 0 ==> closed_before(adj_view(adj@), r.finished@),
        r.cycles@.len() == 0 ==> forall|i: int| 0 <= i < roots@.len() ==> r.finished@.contains(#[trigger] roots@[i]),
        r.finished@.no_duplicates(),
        forall|i: int| 0 <= i < r.finished@.len() ==> #[trigger] r.finished@[i] < adj@.len(),
{
    let ghost g = adj_view(adj@);
    let n = adj.len();
    let mut visited: Vec<bool> = Vec::new();
    let mut on_stack: Vec<bool> = Vec::new();
    let mut i: usize = 0;
    while i < n
        invariant
            i <= n,
            n == adj@.len(),
            visited@.len() == i,
            on_stack@.len() == i,
            forall|j: int| 0 <= j < i ==> !visited@[j] && !on_stack@[j],
        decreases n - i,
    {
        visited.push(false);
        on_stack.push(false);
        i = i + 1;
    }
    let mut path: Vec<usize> = Vec::new();
    let mut fo: Vec<usize> = Vec::new();
    let mut cycles: Vec<Vec<usize>> = Vec::new();
    proof {
        reveal(dfs_inv);
        assert(g.len() == n);
        assert forall|v: usize| v < g.len() implies (#[trigger] on_stack@[v as int] <==> path@.contains(v)) by {}
        assert forall|v: usize| v < g.len() implies (#[trigger] fo@.contains(v) <==> (visited@[v as int] && !on_stack@[v as int])) by {}
        assert(dfs_inv(g, visited@, on_stack@, path@, fo@, cycles@));
    }
    let mut r: usize = 0;
    while r < roots.len()
        invariant
            g == adj_view(adj@),
            wf(g),
            n == adj@.len(),
            forall|i: int| 0 <= i < roots@.len() ==> #[trigger] roots@[i] < n,
            r <= roots@.len(),
            dfs_inv(g, visited@, on_stack@, path@, fo@, cycles@),
            path@.len() == 0,
            forall|v: int| 0 <= v < n ==> !#[trigger] on_stack@[v],
            stop_first ==> cycles@.len() == 0,
            cycles@.len() == 0 ==> forall|i: int| 0 <= i < r ==> fo@.contains(#[trigger] roots@[i]),
        decreases roots@.len() - r,
    {
        let u = roots[r];
        proof {
            lemma_inv_facts(g, visited@, on_stack@, path@, fo@, cycles@, u);
        }
        let ghost fo_before = fo@;
        let ghost cyc_before = cycles@;
        if !visited[u] {
            let stopped = dfs_visit(adj, u, &mut visited, &mut on_stack, &mut path, &mut fo, &mut cycles, stop_first);
            if stopped {
                proof {
                    reveal(dfs_inv);
                }
                return SearchOutcome { finished: fo, cycles };
            }
        } else {
            proof {
                assert(!on_stack@[u as int]);
            }
        }
        proof {
            if cycles@.len() == 0 {
                assert forall|i: int| 0 <= i < r + 1 implies fo@.contains(#[trigger] roots@[i]) by {
                    if i < r {
                        assert(fo_before.contains(roots@[i]));
                        let j = choose|j: int| 0 <= j < fo_before.len() && fo_before[j] == roots@[i];
                        assert(fo@[j] == fo_before[j]);
                    }
                }
            }
        }
        r = r + 1;
    }
    proof {
        reveal(dfs_inv);
    }
    SearchOutcome { finished: fo, cycles }
}

} // verus!

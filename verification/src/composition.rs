//! Composition primitives shared by cascade and pipeline execution: stage
//! configuration, execution context with depth, cycle and energy checks, and
//! the dependency graph of a composition.
use vstd::prelude::*;
use vstd::string::*;
use serde_json::Value;
use crate::decimal::{decimal, push_decimal};
use crate::graph::{
    Interned, add_name, intern, interned_ok, lemma_interned_wf, lemma_interned_cyclic, lemma_interned_edge,
    lookup, name_cyclic, name_edge, endpoint, names_view, pairs_view, succs,
};
use crate::ports::TemplateError;
use crate::walks::{SearchOutcome, adj_view, search_all, icyclic, icycle, lemma_acyclic, lemma_cycle_cyclic, closed_before, finished_before};

verus! {

#[verifier::external_type_specification]
#[verifier::external_body]
pub struct ExJsonValue(serde_json::Value);

/// Calls `serde_json::Value::clone`; the copy of a JSON tree is equal to it.
#[verifier::external_body]
fn clone_value(v: &Value) -> (r: Value)
    ensures
        r == *v,
{
    v.clone()
}

/// Maximum composition depth.
pub const MAX_COMPOSITION_DEPTH: u8 = 7;

/// Retry policy of a stage: attempts and exponential backoff.
#[derive(Debug, Clone, Copy, PartialEq, Eq, Structural)]
pub struct RetryConfig {
    /// Maximum retry attempts.
    pub max_retries: u32,
    /// Base delay of the exponential backoff, in milliseconds.
    pub base_delay_ms: u64,
    /// Cap on the delay, in milliseconds.
    pub max_delay_ms: u64,
}

/// `2` to the power `n`.
pub open spec fn pow2(n: nat) -> nat
    decreases n,
{
    if n == 0 { 1 } else { 2 * pow2((n - 1) as nat) }
}

impl RetryConfig {
    /// A retry policy with the given limits.
    pub fn new(max_retries: u32, base_delay_ms: u64, max_delay_ms: u64) -> (r: RetryConfig)
        ensures
            r == (RetryConfig { max_retries, base_delay_ms, max_delay_ms }),
    {
        RetryConfig { max_retries, base_delay_ms, max_delay_ms }
    }

    /// The backoff delay before retry number `attempt`: the base delay
    /// doubled `attempt` times, capped at the maximum delay.
    pub fn backoff_delay(&self, attempt: u32) -> (r: u64)
        requires
            pow2(attempt as nat) <= u64::MAX,
            self.base_delay_ms * pow2(attempt as nat) <= u64::MAX,
        ensures
            r == if self.base_delay_ms * pow2(attempt as nat) <= self.max_delay_ms {
                self.base_delay_ms * pow2(attempt as nat)
            } else {
                self.max_delay_ms as int
            },
    {
        let mut delay: u64 = self.base_delay_ms;
        let mut i: u32 = 0;
        assert(self.base_delay_ms * pow2(0) == self.base_delay_ms) by (nonlinear_arith)
            requires pow2(0) == 1;
        while i < attempt
            invariant
                i <= attempt,
                delay == self.base_delay_ms * pow2(i as nat),
                self.base_delay_ms * pow2(attempt as nat) <= u64::MAX,
            decreases attempt - i,
        {
            proof {
                lemma_pow2_mono(i as nat + 1, attempt as nat);
                assert(pow2(i as nat + 1) == 2 * pow2(i as nat));
                assert(self.base_delay_ms * pow2(i as nat + 1) == 2 * (self.base_delay_ms * pow2(i as nat))) by (nonlinear_arith)
                    requires pow2(i as nat + 1) == 2 * pow2(i as nat);
                assert(self.base_delay_ms * pow2(i as nat + 1) <= self.base_delay_ms * pow2(attempt as nat)) by (nonlinear_arith)
                    requires pow2(i as nat + 1) <= pow2(attempt as nat);
            }
            delay = delay * 2;
            i = i + 1;
        }
        if delay < self.max_delay_ms { delay } else { self.max_delay_ms }
    }

    /// Whether another retry is allowed after `attempt` retries.
    pub fn should_retry(&self, attempt: u32) -> (r: bool)
        ensures
            r == (attempt < self.max_retries),
    {
        attempt < self.max_retries
    }
}

/// Powers of two grow with the exponent.
pub proof fn lemma_pow2_mono(a: nat, b: nat)
    requires
        a <= b,
    ensures
        pow2(a) <= pow2(b),
    decreases b,
{
    if a < b {
        lemma_pow2_mono(a, (b - 1) as nat);
    }
}

impl Default for RetryConfig {
    /// Three retries, 1 s base delay, 10 s cap.
    fn default() -> (r: RetryConfig)
        ensures
            r == (RetryConfig { max_retries: 3, base_delay_ms: 1000, max_delay_ms: 10000 }),
    {
        RetryConfig { max_retries: 3, base_delay_ms: 1000, max_delay_ms: 10000 }
    }
}

/// Configuration of one composition stage.
#[derive(Debug, Clone)]
pub struct CompositionStage {
    pub name: String,
    pub description: String,
    pub energy_cap: u64,
    pub timeout_ms: u64,
    pub retry_config: RetryConfig,
    pub dependencies: Vec<String>,
}

impl CompositionStage {
    /// A stage with the given name, no description, an energy cap of 1000, a
    /// 30 s timeout, the default retry policy and no dependencies.
    pub fn new(name: &str) -> (r: CompositionStage)
        ensures
            r.name@ == name@,
            r.description@ == Seq::<char>::empty(),
            r.energy_cap == 1000,
            r.timeout_ms == 30000,
            r.retry_config == (RetryConfig { max_retries: 3, base_delay_ms: 1000, max_delay_ms: 10000 }),
            r.dependencies@.len() == 0,
    {
        CompositionStage {
            name: String::from_str(name),
            description: String::new(),
            energy_cap: 1000,
            timeout_ms: 30000,
            retry_config: RetryConfig::default(),
            dependencies: Vec::new(),
        }
    }

    /// The stage with its description replaced.
    pub fn with_description(self, desc: &str) -> (r: CompositionStage)
        ensures
            r.description@ == desc@,
            r.name == self.name,
            r.energy_cap == self.energy_cap,
            r.timeout_ms == self.timeout_ms,
            r.retry_config == self.retry_config,
            r.dependencies == self.dependencies,
    {
        let mut s = self;
        s.description = String::from_str(desc);
        s
    }

    /// The stage with its energy cap replaced.
    pub fn with_energy_cap(self, cap: u64) -> (r: CompositionStage)
        ensures
            r.energy_cap == cap,
            r.name == self.name,
            r.description == self.description,
            r.timeout_ms == self.timeout_ms,
            r.retry_config == self.retry_config,
            r.dependencies == self.dependencies,
    {
        let mut s = self;
        s.energy_cap = cap;
        s
    }

    /// The stage with its timeout replaced.
    pub fn with_timeout(self, timeout_ms: u64) -> (r: CompositionStage)
        ensures
            r.timeout_ms == timeout_ms,
            r.name == self.name,
            r.description == self.description,
            r.energy_cap == self.energy_cap,
            r.retry_config == self.retry_config,
            r.dependencies == self.dependencies,
    {
        let mut s = self;
        s.timeout_ms = timeout_ms;
        s
    }

    /// The stage with its retry policy replaced.
    pub fn with_retry_config(self, config: RetryConfig) -> (r: CompositionStage)
        ensures
            r.retry_config == config,
            r.name == self.name,
            r.description == self.description,
            r.energy_cap == self.energy_cap,
            r.timeout_ms == self.timeout_ms,
            r.dependencies == self.dependencies,
    {
        let mut s = self;
        s.retry_config = config;
        s
    }

    /// The stage with its dependencies replaced by `deps`, in order.
    pub fn with_dependencies(self, deps: Vec<&str>) -> (r: CompositionStage)
        ensures
            names_view(r.dependencies@) == deps@.map_values(|d: &str| d@),
            r.name == self.name,
            r.description == self.description,
            r.energy_cap == self.energy_cap,
            r.timeout_ms == self.timeout_ms,
            r.retry_config == self.retry_config,
    {
        let mut out: Vec<String> = Vec::new();
        let mut i: usize = 0;
        while i < deps.len()
            invariant
                i <= deps@.len(),
                out@.len() == i,
                names_view(out@) == deps@.take(i as int).map_values(|d: &str| d@),
            decreases deps@.len() - i,
        {
            let ghost before = out@;
            out.push(String::from_str(deps[i]));
            proof {
                assert forall|j: int| 0 <= j < i + 1 implies names_view(out@)[j] == deps@.take(i + 1).map_values(|d: &str| d@)[j] by {
                    if j < i {
                        assert(out@[j] == before[j]);
                        assert(names_view(before)[j] == deps@.take(i as int).map_values(|d: &str| d@)[j]);
                    }
                }
                assert(names_view(out@) =~= deps@.take(i + 1).map_values(|d: &str| d@));
            }
            i = i + 1;
        }
        proof {
            assert(deps@.take(deps@.len() as int) =~= deps@);
        }
        let mut s = self;
        s.dependencies = out;
        s
    }
}

/// Composition execution context: nesting depth, visited nodes, remaining
/// energy and the current state.
#[derive(Debug)]
pub struct CompositionContext {
    pub current_depth: u8,
    pub visited: Vec<String>,
    pub energy_remaining: u64,
    pub state: Value,
}

impl CompositionContext {
    /// A context at depth 0 with nothing visited and 10000 units of energy.
    pub fn new(initial_state: Value) -> (r: CompositionContext)
        ensures
            r.current_depth == 0,
            r.visited@.len() == 0,
            r.energy_remaining == 10000,
            r.state == initial_state,
    {
        CompositionContext { current_depth: 0, visited: Vec::new(), energy_remaining: 10000, state: initial_state }
    }

    /// The context with its depth replaced.
    pub fn with_depth(self, depth: u8) -> (r: CompositionContext)
        ensures
            r.current_depth == depth,
            r.visited == self.visited,
            r.energy_remaining == self.energy_remaining,
            r.state == self.state,
    {
        let mut s = self;
        s.current_depth = depth;
        s
    }

    /// The context with its remaining energy replaced.
    pub fn with_energy(self, energy: u64) -> (r: CompositionContext)
        ensures
            r.energy_remaining == energy,
            r.current_depth == self.current_depth,
            r.visited == self.visited,
            r.state == self.state,
    {
        let mut s = self;
        s.energy_remaining = energy;
        s
    }

    /// Refuses a depth beyond `max`.
    pub fn check_depth(&self, max: u8) -> (r: Result<(), TemplateError>)
        ensures
            self.current_depth <= max ==> r is Ok,
            self.current_depth > max ==> (r matches Err(TemplateError::RecursionLimit { max: m }) && m == max),
    {
        if self.current_depth > max {
            return Err(TemplateError::RecursionLimit { max });
        }
        Ok(())
    }

    /// Refuses a node that was already visited.
    pub fn check_cycle(&self, node_id: &str) -> (r: Result<(), TemplateError>)
        ensures
            !names_view(self.visited@).contains(node_id@) ==> r is Ok,
            names_view(self.visited@).contains(node_id@) ==> (r matches Err(TemplateError::Validation(m))
                && m@ == "Cycle detected: '"@ + node_id@ + "' already visited"@),
    {
        let id = String::from_str(node_id);
        match lookup(&self.visited, &id) {
            Some(i) => {
                proof {
                    assert(names_view(self.visited@)[i as int] == node_id@);
                }
                let mut m = String::from_str("Cycle detected: '");
                m.append(node_id);
                m.append("' already visited");
                Err(TemplateError::Validation(m))
            },
            None => Ok(()),
        }
    }

    /// Mark a node as visited.
    pub fn visit(&mut self, node_id: &str)
        ensures
            forall|x: Seq<char>| names_view(final(self).visited@).contains(x) <==> (names_view(old(self).visited@).contains(x) || x == node_id@),
            final(self).current_depth == old(self).current_depth,
            final(self).energy_remaining == old(self).energy_remaining,
            final(self).state == old(self).state,
    {
        let id = String::from_str(node_id);
        match lookup(&self.visited, &id) {
            Some(i) => {
                proof {
                    assert(names_view(self.visited@)[i as int] == node_id@);
                }
            },
            None => {
                let ghost before = names_view(self.visited@);
                self.visited.push(id);
                proof {
                    assert(names_view(self.visited@) =~= before.push(node_id@));
                    assert forall|x: Seq<char>| names_view(self.visited@).contains(x) <==> (before.contains(x) || x == node_id@) by {
                        if names_view(self.visited@).contains(x) && x != node_id@ {
                            let j = choose|j: int| 0 <= j < names_view(self.visited@).len() && names_view(self.visited@)[j] == x;
                            assert(before[j] == x);
                        }
                        if before.contains(x) {
                            let j = choose|j: int| 0 <= j < before.len() && before[j] == x;
                            assert(names_view(self.visited@)[j] == x);
                        }
                        if x == node_id@ {
                            assert(names_view(self.visited@)[before.len() as int] == x);
                        }
                    }
                }
            },
        }
    }

    /// Refuses a cost above the remaining energy.
    pub fn check_energy(&self, cost: u64) -> (r: Result<(), TemplateError>)
        ensures
            cost <= self.energy_remaining ==> r is Ok,
            cost > self.energy_remaining ==> (r matches Err(TemplateError::Manifest(m))
                && m@ == "Energy budget exceeded: requested "@ + decimal(cost as nat) + ", remaining "@ + decimal(self.energy_remaining as nat)),
    {
        if cost > self.energy_remaining {
            let mut m = String::from_str("Energy budget exceeded: requested ");
            push_decimal(&mut m, cost);
            m.append(", remaining ");
            push_decimal(&mut m, self.energy_remaining);
            return Err(TemplateError::Manifest(m));
        }
        Ok(())
    }

    /// Spend energy, stopping at zero.
    pub fn consume_energy(&mut self, cost: u64)
        ensures
            final(self).energy_remaining == if cost <= old(self).energy_remaining { old(self).energy_remaining - cost } else { 0 },
            final(self).current_depth == old(self).current_depth,
            final(self).visited == old(self).visited,
            final(self).state == old(self).state,
    {
        self.energy_remaining = self.energy_remaining.saturating_sub(cost);
    }

    /// A context one level deeper that shares what was visited, the energy
    /// and the state.
    pub fn child(&self) -> (r: CompositionContext)
        requires
            self.current_depth < 255,
        ensures
            r.current_depth == self.current_depth + 1,
            names_view(r.visited@) == names_view(self.visited@),
            r.energy_remaining == self.energy_remaining,
            r.state == self.state,
    {
        let mut visited: Vec<String> = Vec::new();
        let mut i: usize = 0;
        while i < self.visited.len()
            invariant
                i <= self.visited@.len(),
                visited@.len() == i,
                forall|j: int| 0 <= j < i ==> visited@[j]@ == self.visited@[j]@,
            decreases self.visited@.len() - i,
        {
            visited.push(self.visited[i].clone());
            i = i + 1;
        }
        proof {
            assert(names_view(visited@) =~= names_view(self.visited@));
        }
        CompositionContext {
            current_depth: self.current_depth + 1,
            visited,
            energy_remaining: self.energy_remaining,
            state: clone_value(&self.state),
        }
    }
}

/// In-memory dependency provider: named JSON values.
#[derive(Debug)]
pub struct InMemoryDependencyProvider {
    dependencies: Vec<(String, Value)>,
}

/// The value bound to `name`, if any.
pub open spec fn binding_of(bs: Seq<(Seq<char>, Value)>, name: Seq<char>) -> Option<Value>
    decreases bs.len(),
{
    if bs.len() == 0 {
        None
    } else if bs.last().0 == name {
        Some(bs.last().1)
    } else {
        binding_of(bs.drop_last(), name)
    }
}

impl View for InMemoryDependencyProvider {
    type V = Seq<(Seq<char>, Value)>;

    closed spec fn view(&self) -> Self::V {
        self.dependencies@.map_values(|b: (String, Value)| (b.0@, b.1))
    }
}

impl InMemoryDependencyProvider {
    /// An empty provider.
    pub fn new() -> (r: InMemoryDependencyProvider)
        ensures
            r@.len() == 0,
    {
        let r = InMemoryDependencyProvider { dependencies: Vec::new() };
        proof {
            assert(r@ =~= Seq::<(Seq<char>, Value)>::empty());
        }
        r
    }

    /// The provider with `name` bound to `value`.
    pub fn with_dependency(self, name: &str, value: Value) -> (r: InMemoryDependencyProvider)
        ensures
            forall|n: Seq<char>| binding_of(r@, n) == if n == name@ { Some(value) } else { binding_of(self@, n) },
    {
        let mut s = self;
        s.register(name, value);
        s
    }

    /// The value bound to `name`.
    pub fn get_dependency(&self, name: &str) -> (r: Option<Value>)
        ensures
            r == binding_of(self@, name@),
    {
        let n = String::from_str(name);
        let mut i: usize = self.dependencies.len();
        proof {
            assert(self@.take(i as int) =~= self@);
        }
        while i > 0
            invariant
                i <= self.dependencies@.len(),
                n@ == name@,
                binding_of(self@, name@) == binding_of(self@.take(i as int), name@),
            decreases i,
        {
            proof {
                assert(self@.take(i as int).drop_last() =~= self@.take(i - 1));
                assert(self@.take(i as int).last() == (self.dependencies@[i - 1].0@, self.dependencies@[i - 1].1));
            }
            if self.dependencies[i - 1].0 == n {
                return Some(clone_value(&self.dependencies[i - 1].1));
            }
            i = i - 1;
        }
        None
    }

    /// Bind `name` to `value`, replacing an earlier binding.
    pub fn register(&mut self, name: &str, value: Value)
        ensures
            forall|n: Seq<char>| binding_of(final(self)@, n) == if n == name@ { Some(value) } else { binding_of(old(self)@, n) },
            forall|n: Seq<char>| names_view_of(final(self)@).contains(n) <==> (names_view_of(old(self)@).contains(n) || n == name@),
    {
        let n = String::from_str(name);
        let ghost before = self@;
        self.dependencies.push((n, value));
        proof {
            assert(self@ =~= before.push((name@, value)));
            assert(self@.drop_last() =~= before);
            assert forall|m: Seq<char>| binding_of(self@, m) == if m == name@ { Some(value) } else { binding_of(before, m) } by {
                assert(self@.last() == (name@, value));
            }
            assert forall|m: Seq<char>| names_view_of(self@).contains(m) <==> (names_view_of(before).contains(m) || m == name@) by {
                let a = names_view_of(self@);
                let b = names_view_of(before);
                assert(a =~= b.push(name@));
                if a.contains(m) && m != name@ {
                    let j = choose|j: int| 0 <= j < a.len() && a[j] == m;
                    assert(b[j] == m);
                }
                if b.contains(m) {
                    let j = choose|j: int| 0 <= j < b.len() && b[j] == m;
                    assert(a[j] == m);
                }
                if m == name@ {
                    assert(a[b.len() as int] == m);
                }
            }
        }
    }

    /// The names with a binding.
    pub fn list_dependencies(&self) -> (r: Vec<&str>)
        ensures
            forall|n: Seq<char>| r@.map_values(|s: &str| s@).contains(n) <==> names_view_of(self@).contains(n),
    {
        let mut r: Vec<&str> = Vec::new();
        let mut i: usize = 0;
        while i < self.dependencies.len()
            invariant
                i <= self.dependencies@.len(),
                forall|n: Seq<char>| r@.map_values(|s: &str| s@).contains(n) <==> names_view_of(self@).take(i as int).contains(n),
            decreases self.dependencies@.len() - i,
        {
            let ghost before = r@.map_values(|s: &str| s@);
            let name = self.dependencies[i].0.as_str();
            let mut seen = false;
            let mut k: usize = 0;
            while k < r.len()
                invariant
                    k <= r@.len(),
                    before == r@.map_values(|s: &str| s@),
                    i < self.dependencies@.len(),
                    name@ == names_view_of(self@)[i as int],
                    forall|n: Seq<char>| before.contains(n) <==> names_view_of(self@).take(i as int).contains(n),
                    !seen ==> forall|j: int| 0 <= j < k ==> r@[j]@ != name@,
                    seen ==> before.contains(name@),
                decreases r@.len() - k,
            {
                if crate::text::str_eq(r[k], name) {
                    seen = true;
                    proof {
                        assert(before[k as int] == name@);
                    }
                }
                k = k + 1;
            }
            if !seen {
                r.push(name);
            }
            proof {
                let a = r@.map_values(|s: &str| s@);
                let t1 = names_view_of(self@).take(i + 1);
                let t0 = names_view_of(self@).take(i as int);
                assert(t1 =~= t0.push(name@));
                if !seen {
                    assert(a =~= before.push(name@));
                } else {
                    assert(a =~= before);
                }
                assert forall|n: Seq<char>| a.contains(n) <==> t1.contains(n) by {
                    if a.contains(n) {
                        let j = choose|j: int| 0 <= j < a.len() && a[j] == n;
                        if j < before.len() {
                            assert(before[j] == n);
                            assert(t0.contains(n));
                            let q = choose|q: int| 0 <= q < t0.len() && t0[q] == n;
                            assert(t1[q] == n);
                        } else {
                            assert(t1[i as int] == n);
                        }
                    }
                    if t1.contains(n) {
                        let q = choose|q: int| 0 <= q < t1.len() && t1[q] == n;
                        if q < i {
                            assert(t0[q] == n);
                            assert(before.contains(n));
                            let j = choose|j: int| 0 <= j < before.len() && before[j] == n;
                            assert(a[j] == n);
                        } else if !seen {
                            assert(a[before.len() as int] == n);
                        }
                    }
                }
            }
            i = i + 1;
        }
        proof {
            assert(names_view_of(self@).take(self.dependencies@.len() as int) =~= names_view_of(self@));
        }
        r
    }
}

/// The bound names, in binding order.
pub open spec fn names_view_of(bs: Seq<(Seq<char>, Value)>) -> Seq<Seq<char>> {
    bs.map_values(|b: (Seq<char>, Value)| b.0)
}

impl Default for InMemoryDependencyProvider {
    /// An empty provider.
    fn default() -> (r: InMemoryDependencyProvider)
        ensures
            r@.len() == 0,
    {
        InMemoryDependencyProvider::new()
    }
}

/// The dependency graph of a composition: named nodes and directed edges,
/// each from a node to one it depends on.
#[derive(Debug, Clone)]
pub struct CompositionGraph {
    nodes: Vec<String>,
    edges: Vec<(String, String)>,
}

/// What a whole-graph search over a composition graph found.
struct GraphSearch {
    ig: Interned,
    outcome: SearchOutcome,
}

impl CompositionGraph {
    /// The nodes, in the order in which they were first added.
    pub closed spec fn node_names(&self) -> Seq<Seq<char>> {
        names_view(self.nodes@)
    }

    /// The edges, in the order in which they were added.
    pub closed spec fn edge_pairs(&self) -> Seq<(Seq<char>, Seq<char>)> {
        pairs_view(self.edges@)
    }

    /// The nodes are distinct and both ends of every edge are nodes.
    pub closed spec fn wf(&self) -> bool {
        &&& self.node_names().no_duplicates()
        &&& forall|x: Seq<char>| endpoint(self.edge_pairs(), x) ==> self.node_names().contains(x)
    }

    /// An empty graph.
    pub fn new() -> (r: CompositionGraph)
        ensures
            r.wf(),
            r.node_names().len() == 0,
            r.edge_pairs().len() == 0,
    {
        let r = CompositionGraph { nodes: Vec::new(), edges: Vec::new() };
        proof {
            assert(r.node_names() =~= Seq::<Seq<char>>::empty());
            assert(r.edge_pairs() =~= Seq::<(Seq<char>, Seq<char>)>::empty());
        }
        r
    }

    /// Add a node; adding one that is there changes nothing.
    pub fn add_node(&mut self, node_id: &str)
        requires
            old(self).wf(),
        ensures
            final(self).wf(),
            forall|x: Seq<char>| final(self).node_names().contains(x) <==> (old(self).node_names().contains(x) || x == node_id@),
            final(self).edge_pairs() == old(self).edge_pairs(),
    {
        let s = String::from_str(node_id);
        add_name(&mut self.nodes, &s);
    }

    /// Add an edge from `from` to `to`, adding both as nodes.
    pub fn add_edge(&mut self, from: &str, to: &str)
        requires
            old(self).wf(),
        ensures
            final(self).wf(),
            forall|x: Seq<char>|
                final(self).node_names().contains(x) <==> (old(self).node_names().contains(x) || x == from@ || x == to@),
            final(self).edge_pairs() == old(self).edge_pairs().push((from@, to@)),
    {
        self.add_node(from);
        self.add_node(to);
        let ghost before = self.edge_pairs();
        self.edges.push((String::from_str(from), String::from_str(to)));
        proof {
            assert(self.edge_pairs() =~= before.push((from@, to@)));
            assert forall|x: Seq<char>| endpoint(self.edge_pairs(), x) implies self.node_names().contains(x) by {
                let es = self.edge_pairs();
                let i = choose|i: int| 0 <= i < es.len() && (es[i].0 == x || es[i].1 == x);
                if i < before.len() {
                    assert(before[i] == es[i]);
                    assert(endpoint(before, x));
                }
            }
        }
    }

    /// A depth-first search from every node; with `stop_first` it ends at
    /// the first cycle.
    fn search(&self, stop_first: bool) -> (r: GraphSearch)
        requires
            self.wf(),
        ensures
            interned_ok(r.ig, self.edge_pairs(), self.node_names()),
            forall|x: Seq<char>| names_view(r.ig.names@).contains(x) <==> self.node_names().contains(x),
            r.outcome.cycles@.len() > 0 <==> name_cyclic(self.edge_pairs()),
            r.outcome.cycles@.len() == 0 ==> closed_before(adj_view(r.ig.adj@), r.outcome.finished@),
            r.outcome.cycles@.len() == 0 ==> forall|u: usize| u < r.ig.names@.len() ==> #[trigger] r.outcome.finished@.contains(u),
            r.outcome.finished@.no_duplicates(),
            forall|i: int| 0 <= i < r.outcome.finished@.len() ==> #[trigger] r.outcome.finished@[i] < r.ig.names@.len(),
    {
        let ig = intern(&self.nodes, &self.edges);
        let ghost es = self.edge_pairs();
        let ghost xv = self.node_names();
        let ghost g = adj_view(ig.adj@);
        proof {
            lemma_interned_wf(ig, es, xv);
            assert forall|x: Seq<char>| names_view(ig.names@).contains(x) <==> xv.contains(x) by {
                if endpoint(es, x) {
                    assert(xv.contains(x));
                }
            }
        }
        let mut roots: Vec<usize> = Vec::new();
        let mut u: usize = 0;
        while u < ig.adj.len()
            invariant
                u <= ig.adj@.len(),
                roots@.len() == u,
                forall|i: int| 0 <= i < u ==> roots@[i] == i,
            decreases ig.adj@.len() - u,
        {
            roots.push(u);
            u = u + 1;
        }
        let outcome = search_all(&ig.adj, &roots, stop_first);
        proof {
            lemma_interned_cyclic(ig, es, xv);
            if outcome.cycles@.len() == 0 {
                assert forall|v: usize| v < g.len() implies #[trigger] outcome.finished@.contains(v) by {
                    assert(roots@[v as int] == v);
                    assert(outcome.finished@.contains(roots@[v as int]));
                }
                lemma_acyclic(g, outcome.finished@);
            } else {
                assert(icycle(g, outcome.cycles@[0]@));
                lemma_cycle_cyclic(g, outcome.cycles@[0]@);
            }
        }
        GraphSearch { ig, outcome }
    }

    /// Whether the graph has a cycle.
    pub fn has_cycle(&self) -> (r: bool)
        requires
            self.wf(),
        ensures
            r == name_cyclic(self.edge_pairs()),
    {
        let s = self.search(true);
        s.outcome.cycles.len() > 0
    }

    /// The nodes that `node` has edges to, in edge order.
    pub fn dependencies_of(&self, node: &str) -> (r: Vec<&str>)
        ensures
            r@.map_values(|s: &str| s@) == succs(self.edge_pairs(), node@),
    {
        let mut r: Vec<&str> = Vec::new();
        let mut i: usize = 0;
        while i < self.edges.len()
            invariant
                i <= self.edges@.len(),
                r@.map_values(|s: &str| s@) == succs(self.edge_pairs().take(i as int), node@),
            decreases self.edges@.len() - i,
        {
            let ghost before = r@.map_values(|s: &str| s@);
            let ghost es1 = self.edge_pairs().take(i + 1);
            proof {
                assert(es1.drop_last() =~= self.edge_pairs().take(i as int));
                assert(es1.last() == (self.edges@[i as int].0@, self.edges@[i as int].1@));
            }
            if crate::text::str_eq(self.edges[i].0.as_str(), node) {
                r.push(self.edges[i].1.as_str());
                proof {
                    assert(r@.map_values(|s: &str| s@) =~= before.push(self.edges@[i as int].1@));
                }
            }
            i = i + 1;
        }
        proof {
            assert(self.edge_pairs().take(self.edges@.len() as int) =~= self.edge_pairs());
        }
        r
    }

    /// An order of all nodes in which every edge leads forward, or `None`
    /// when the graph has a cycle.
    pub fn topological_sort(&self) -> (r: Option<Vec<String>>)
        requires
            self.wf(),
        ensures
            r is None <==> name_cyclic(self.edge_pairs()),
            r matches Some(order) ==> names_view(order@).no_duplicates(),
            r matches Some(order) ==> forall|x: Seq<char>| names_view(order@).contains(x) <==> self.node_names().contains(x),
            r matches Some(order) ==> forall|i: int, j: int|
                0 <= i < order@.len() && 0 <= j < order@.len() && name_edge(self.edge_pairs(), #[trigger] order@[i]@, #[trigger] order@[j]@)
                    ==> i < j,
    {
        let s = self.search(true);
        if s.outcome.cycles.len() > 0 {
            return None;
        }
        let ghost es = self.edge_pairs();
        let ghost xv = self.node_names();
        let ghost nv = names_view(s.ig.names@);
        let ghost g = adj_view(s.ig.adj@);
        let ghost fo = s.outcome.finished@;
        let m = s.outcome.finished.len();
        let mut order: Vec<String> = Vec::new();
        let mut k: usize = 0;
        while k < m
            invariant
                k <= m,
                m == fo.len(),
                fo == s.outcome.finished@,
                nv == names_view(s.ig.names@),
                forall|i: int| 0 <= i < fo.len() ==> #[trigger] fo[i] < s.ig.names@.len(),
                order@.len() == k,
                forall|t: int| 0 <= t < k ==> (#[trigger] order@[t])@ == nv[fo[m - 1 - t] as int],
            decreases m - k,
        {
            let v = s.outcome.finished[m - 1 - k];
            order.push(s.ig.names[v].clone());
            k = k + 1;
        }
        proof {
            let ov = names_view(order@);
            assert forall|i: int, j: int| 0 <= i < ov.len() && 0 <= j < ov.len() && i != j implies ov[i] != ov[j] by {
                assert(ov[i] == order@[i]@ && ov[j] == order@[j]@);
                assert(nv.no_duplicates());
                if ov[i] == ov[j] {
                    assert(fo[m - 1 - i] < nv.len() && fo[m - 1 - j] < nv.len());
                    assert(fo[m - 1 - i] == fo[m - 1 - j]);
                }
            }
            assert forall|x: Seq<char>| ov.contains(x) <==> xv.contains(x) by {
                if ov.contains(x) {
                    let t = choose|t: int| 0 <= t < ov.len() && ov[t] == x;
                    assert(order@[t]@ == nv[fo[m - 1 - t] as int]);
                    assert(fo[m - 1 - t] < nv.len());
                    assert(nv.contains(x));
                }
                if xv.contains(x) {
                    assert(nv.contains(x));
                    let u = choose|u: int| 0 <= u < nv.len() && nv[u] == x;
                    assert(fo.contains(u as usize));
                    let j = choose|j: int| 0 <= j < fo.len() && fo[j] == u as usize;
                    let t = m - 1 - j;
                    assert(order@[t]@ == nv[fo[m - 1 - t] as int]);
                    assert(ov[t] == x);
                }
            }
            assert forall|i: int, j: int|
                0 <= i < order@.len() && 0 <= j < order@.len() && name_edge(es, #[trigger] order@[i]@, #[trigger] order@[j]@)
                implies i < j by {
                let p = m - 1 - i;
                let q = m - 1 - j;
                let a = fo[p];
                let b = fo[q];
                assert(a < nv.len() && b < nv.len());
                lemma_interned_edge(s.ig, es, xv, a as int, b as int);
                assert(g[a as int] == s.ig.adj@[a as int]@);
                let kk = choose|kk: int| 0 <= kk < g[a as int].len() && g[a as int][kk] as int == b as int;
                assert(finished_before(fo, p, g[fo[p] as int][kk]));
                let q2 = choose|q2: int| 0 <= q2 < p && fo[q2] == g[fo[p] as int][kk];
                assert(fo[q2] == b);
                assert(fo.no_duplicates());
                assert(q2 == q);
            }
        }
        Some(order)
    }
}

impl Default for CompositionGraph {
    /// An empty graph.
    fn default() -> (r: CompositionGraph)
        ensures
            r.wf(),
            r.node_names().len() == 0,
            r.edge_pairs().len() == 0,
    {
        CompositionGraph::new()
    }
}

// ── Pipelines ────────────────────────────────────────────────────────────────

/// Why a composition failed.
#[derive(Debug)]
pub enum CompositionError {
    /// A failure that may pass when tried again.
    Transient { message: String, retry_count: u32 },
    /// A failure that will not pass.
    Permanent { message: String, diagnostic: Option<String> },
}

impl CompositionError {
    /// A permanent failure with `message` and an optional diagnostic.
    pub fn permanent(message: &str, diagnostic: Option<&str>) -> (r: CompositionError)
        ensures
            r matches CompositionError::Permanent { message: m, diagnostic: d } && m@ == message@
                && (match diagnostic {
                    Some(x) => d matches Some(y) && y@ == x@,
                    None => d is None,
                }),
    {
        CompositionError::Permanent {
            message: String::from_str(message),
            diagnostic: match diagnostic {
                Some(x) => Some(String::from_str(x)),
                None => None,
            },
        }
    }

    /// Only transient failures are worth trying again.
    pub fn is_retryable(&self) -> (r: bool)
        ensures
            r == (self is Transient),
    {
        match self {
            CompositionError::Transient { .. } => true,
            CompositionError::Permanent { .. } => false,
        }
    }

    /// The text of the error.
    pub fn message(&self) -> (r: String)
        ensures
            match self {
                CompositionError::Transient { message, .. } => r@ == "Transient error: "@ + message@,
                CompositionError::Permanent { message, .. } => r@ == "Permanent error: "@ + message@,
            },
    {
        let (head, m) = match self {
            CompositionError::Transient { message, .. } => ("Transient error: ", message),
            CompositionError::Permanent { message, .. } => ("Permanent error: ", message),
        };
        let mut r = String::from_str(head);
        r.append(m.as_str());
        r
    }
}

/// The dependency edges of `stages`: from each stage to each of its
/// dependencies, in order.
pub open spec fn stage_edges(stages: Seq<CompositionStage>) -> Seq<(Seq<char>, Seq<char>)>
    decreases stages.len(),
{
    if stages.len() == 0 {
        Seq::empty()
    } else {
        let s = stages.last();
        stage_edges(stages.drop_last()) + Seq::new(s.dependencies@.len(), |j: int| (s.name@, s.dependencies@[j]@))
    }
}

/// A pipeline: stages in execution order, a depth limit, an energy budget
/// and the dependencies it provides.
#[derive(Debug)]
pub struct PipelineConfig {
    pub stages: Vec<CompositionStage>,
    pub max_depth: u8,
    pub energy_budget: u64,
    pub dependencies: InMemoryDependencyProvider,
}

impl PipelineConfig {
    /// A pipeline of `stages` with the largest depth, 10000 units of energy
    /// and no dependency.
    pub fn new(stages: Vec<CompositionStage>) -> (r: PipelineConfig)
        ensures
            r.stages@ == stages@,
            r.max_depth == MAX_COMPOSITION_DEPTH,
            r.energy_budget == 10000,
            r.dependencies_view().len() == 0,
    {
        PipelineConfig {
            stages,
            max_depth: MAX_COMPOSITION_DEPTH,
            energy_budget: 10000,
            dependencies: InMemoryDependencyProvider::new(),
        }
    }

    /// The dependencies the pipeline provides.
    pub open spec fn dependencies_view(&self) -> Seq<(Seq<char>, Value)> {
        self.dependencies@
    }

    /// The pipeline with a depth limit, no deeper than the largest.
    pub fn with_max_depth(self, depth: u8) -> (r: PipelineConfig)
        ensures
            r.max_depth == if depth < MAX_COMPOSITION_DEPTH { depth } else { MAX_COMPOSITION_DEPTH },
            r.stages == self.stages,
            r.energy_budget == self.energy_budget,
            r.dependencies_view() == self.dependencies_view(),
    {
        let d = if depth < MAX_COMPOSITION_DEPTH { depth } else { MAX_COMPOSITION_DEPTH };
        PipelineConfig { max_depth: d, ..self }
    }

    /// The pipeline with an energy budget.
    pub fn with_energy_budget(self, budget: u64) -> (r: PipelineConfig)
        ensures
            r.energy_budget == budget,
            r.stages == self.stages,
            r.max_depth == self.max_depth,
            r.dependencies_view() == self.dependencies_view(),
    {
        PipelineConfig { energy_budget: budget, ..self }
    }

    /// The pipeline with the dependencies of `provider`.
    pub fn with_dependencies(self, provider: InMemoryDependencyProvider) -> (r: PipelineConfig)
        ensures
            r.dependencies_view() == provider@,
            r.stages == self.stages,
            r.max_depth == self.max_depth,
            r.energy_budget == self.energy_budget,
    {
        PipelineConfig { dependencies: provider, ..self }
    }

    /// The dependencies the pipeline provides.
    pub fn dependencies(&self) -> (r: &InMemoryDependencyProvider)
        ensures
            r@ == self.dependencies_view(),
    {
        &self.dependencies
    }

    /// Refuse a pipeline whose stage dependencies form a cycle.
    pub fn validate(&self) -> (r: Result<(), TemplateError>)
        ensures
            !name_cyclic(stage_edges(self.stages@)) ==> r is Ok,
            name_cyclic(stage_edges(self.stages@)) ==> (r matches Err(TemplateError::Validation(m))
                && m@ == "Cycle detected in pipeline dependencies"@),
    {
        let mut graph = CompositionGraph::new();
        let mut i: usize = 0;
        proof {
            assert(self.stages@.take(0) =~= Seq::<CompositionStage>::empty());
        }
        while i < self.stages.len()
            invariant
                i <= self.stages@.len(),
                graph.wf(),
                graph.edge_pairs() == stage_edges(self.stages@.take(i as int)),
            decreases self.stages@.len() - i,
        {
            let stage = &self.stages[i];
            graph.add_node(stage.name.as_str());
            let ghost before = graph.edge_pairs();
            let mut j: usize = 0;
            while j < stage.dependencies.len()
                invariant
                    j <= stage.dependencies@.len(),
                    graph.wf(),
                    graph.edge_pairs() == before + Seq::new(j as nat, |k: int| (stage.name@, stage.dependencies@[k]@)),
                decreases stage.dependencies@.len() - j,
            {
                graph.add_edge(stage.name.as_str(), stage.dependencies[j].as_str());
                proof {
                    assert(before + Seq::new((j + 1) as nat, |k: int| (stage.name@, stage.dependencies@[k]@))
                        =~= (before + Seq::new(j as nat, |k: int| (stage.name@, stage.dependencies@[k]@))).push((stage.name@, stage.dependencies@[j as int]@)));
                }
                j = j + 1;
            }
            proof {
                assert(self.stages@.take(i + 1).drop_last() =~= self.stages@.take(i as int));
                assert(self.stages@.take(i + 1).last() == *stage);
            }
            i = i + 1;
        }
        proof {
            assert(self.stages@.take(self.stages@.len() as int) =~= self.stages@);
        }
        if graph.has_cycle() {
            return Err(TemplateError::Validation(String::from_str("Cycle detected in pipeline dependencies")));
        }
        Ok(())
    }
}

#[verifier::external_type_specification]
#[verifier::external_body]
#[verifier::reject_recursive_types(K)]
#[verifier::reject_recursive_types(V)]
pub struct ExJsonMap<K, V>(serde_json::Map<K, V>);

/// A JSON object map, as `serde_json::Value::Object` holds it.
pub type FieldMap = serde_json::Map<String, Value>;

/// The fields of a JSON object map, by key.
pub uninterp spec fn json_fields(m: FieldMap) -> Map<Seq<char>, Value>;

/// The JSON string holding `s`.
pub uninterp spec fn json_string(s: Seq<char>) -> Value;

/// The JSON object whose fields are `fs`.
pub uninterp spec fn json_object(fs: Map<Seq<char>, Value>) -> Value;

/// Calls `serde_json::Map::new`: an object map without fields.
#[verifier::external_body]
fn new_fields() -> (r: FieldMap)
    ensures
        json_fields(r).dom() == Set::<Seq<char>>::empty(),
{
    serde_json::Map::new()
}

/// Calls `serde_json::Map::insert` on `m` and hands `m` back: afterwards
/// the field `k` holds `v` and the other fields are as they were. The value
/// that `k` held before, which the call returns, is dropped.
#[verifier::external_body]
fn insert_field(m: FieldMap, k: String, v: Value) -> (r: FieldMap)
    ensures
        json_fields(r) == json_fields(m).insert(k@, v),
{
    let mut m = m;
    m.insert(k, v);
    m
}

/// Calls the constructor `serde_json::Value::String` on `s`.
#[verifier::external_body]
fn string_value(s: String) -> (r: Value)
    ensures
        r == json_string(s@),
{
    Value::String(s)
}

/// Calls the constructor `serde_json::Value::Object` on `m`. Without
/// serde_json's `preserve_order` feature, which this crate does not turn on,
/// the map is a `BTreeMap`, so the object is fixed by the fields alone.
#[verifier::external_body]
fn object_value(m: FieldMap) -> (r: Value)
    ensures
        r == json_object(json_fields(m)),
{
    Value::Object(m)
}

/// The JSON object `{"stage": name, "input": input, "status": "executed"}`
/// that records a stage run on `input`.
pub open spec fn stage_record_of(name: Seq<char>, input: Value) -> Value {
    json_object(
        Map::<Seq<char>, Value>::empty()
            .insert("stage"@, json_string(name))
            .insert("input"@, input)
            .insert("status"@, json_string("executed"@)),
    )
}

/// The object recording a run of the stage `name` on `input`.
fn stage_record(name: &str, input: Value) -> (r: Value)
    ensures
        r == stage_record_of(name@, input),
{
    let m = new_fields();
    proof {
        assert(json_fields(m) =~= Map::<Seq<char>, Value>::empty());
    }
    let m = insert_field(m, String::from_str("stage"), string_value(String::from_str(name)));
    let m = insert_field(m, String::from_str("input"), input);
    let m = insert_field(m, String::from_str("status"), string_value(String::from_str("executed")));
    object_value(m)
}

/// The outcome of running `stages` from the `k`-th with `energy` left on
/// `state`: the final state, or the first stage whose energy cap is above
/// what is left, with its cap and what was left.
pub open spec fn run_from(stages: Seq<CompositionStage>, k: int, energy: u64, state: Value) -> Result<Value, (u64, u64)>
    decreases stages.len() - k,
{
    if k < 0 || k >= stages.len() {
        Ok(state)
    } else if stages[k].energy_cap > energy {
        Err((stages[k].energy_cap, energy))
    } else {
        run_from(stages, k + 1, (energy - stages[k].energy_cap) as u64, stage_record_of(stages[k].name@, state))
    }
}

/// The message of a stage refused for energy.
pub open spec fn energy_message(requested: u64, remaining: u64) -> Seq<char> {
    "Manifest error: "@ + "Energy budget exceeded: requested "@ + decimal(requested as nat) + ", remaining "@ + decimal(remaining as nat)
}

/// Runs a pipeline: its stages in order, each on the state the one before
/// left, each paid for from the energy budget.
#[derive(Debug)]
pub struct CompositionExecutor {
    config: PipelineConfig,
}

impl CompositionExecutor {
    /// The pipeline this executor runs.
    pub closed spec fn pipeline(&self) -> PipelineConfig {
        self.config
    }

    /// An executor of `config`.
    pub fn new(config: PipelineConfig) -> (r: CompositionExecutor)
        ensures
            r.pipeline() == config,
    {
        CompositionExecutor { config }
    }

    /// Run the pipeline on `initial_input`: a cyclic pipeline is refused;
    /// else each stage, in order, records its run on the state, until one
    /// costs more energy than is left.
    pub fn execute(&self, initial_input: Value) -> (r: Result<Value, CompositionError>)
        ensures
            name_cyclic(stage_edges(self.pipeline().stages@)) ==> (r matches Err(CompositionError::Permanent { message: m, diagnostic: None })
                && m@ == "Validation error: "@ + "Cycle detected in pipeline dependencies"@),
            !name_cyclic(stage_edges(self.pipeline().stages@)) ==> match run_from(self.pipeline().stages@, 0, self.pipeline().energy_budget, initial_input) {
                Ok(v) => r == Ok::<Value, CompositionError>(v),
                Err((req, rem)) => r matches Err(CompositionError::Permanent { message: m, diagnostic: None }) && m@ == energy_message(req, rem),
            },
    {
        match self.config.validate() {
            Ok(()) => {},
            Err(e) => {
                let m = e.message();
                return Err(CompositionError::permanent(m.as_str(), None));
            },
        }
        let mut context = CompositionContext::new(clone_value(&initial_input))
            .with_depth(self.config.max_depth)
            .with_energy(self.config.energy_budget);
        let ghost input0 = initial_input;
        let mut state = initial_input;
        let mut i: usize = 0;
        let ghost stages = self.config.stages@;
        while i < self.config.stages.len()
            invariant
                i <= stages.len(),
                stages == self.config.stages@,
                !name_cyclic(stage_edges(stages)),
                input0 == initial_input,
                context.current_depth == self.config.max_depth,
                run_from(stages, 0, self.config.energy_budget, input0)
                    == run_from(stages, i as int, context.energy_remaining, state),
            decreases stages.len() - i,
        {
            let stage = &self.config.stages[i];
            match context.check_depth(self.config.max_depth) {
                Ok(()) => {},
                Err(e) => {
                    let m = e.message();
                    return Err(CompositionError::permanent(m.as_str(), None));
                },
            }
            match context.check_energy(stage.energy_cap) {
                Ok(()) => {},
                Err(e) => {
                    let m = e.message();
                    proof {
                        assert(m@ =~= energy_message(stage.energy_cap, context.energy_remaining));
                        assert(run_from(stages, i as int, context.energy_remaining, state)
                            == Err::<Value, (u64, u64)>((stage.energy_cap, context.energy_remaining)));
                    }
                    return Err(CompositionError::permanent(m.as_str(), None));
                },
            }
            context.visit(stage.name.as_str());
            state = stage_record(stage.name.as_str(), state);
            context.consume_energy(stage.energy_cap);
            context.state = clone_value(&state);
            i = i + 1;
        }
        Ok(state)
    }
}

} // verus!

//! Dispatch priorities derived from a dependency graph: a system's priority is
//! minus the length of its longest chain of dependencies, so that every system
//! has a strictly lower priority than each system it depends on.
use vstd::prelude::*;
use crate::dag::{Dag, DagView, dependency_edges, lemma_every_dependency_recorded};
use crate::paths::{acyclic, edges_within, is_walk, has_step, lemma_walk_bounded};

verus! {

/// The length of the longest chain of dependencies that starts at `s` and has
/// at most `bound` steps.
pub open spec fn chain_length(deps: Seq<(u64, u64)>, s: u64, bound: nat) -> nat
    decreases bound, 0nat,
{
    if bound == 0 {
        0
    } else {
        chain_length_among(deps, s, (bound - 1) as nat, deps.len())
    }
}

/// The longest chain of at most `bound + 1` steps that starts at `s` with one
/// of the first `n` edges of `deps`, or 0 when none starts there.
pub open spec fn chain_length_among(deps: Seq<(u64, u64)>, s: u64, bound: nat, n: nat) -> nat
    decreases bound, n + 1,
{
    if n == 0 {
        0
    } else {
        let prev = chain_length_among(deps, s, bound, (n - 1) as nat);
        let e = deps[n - 1];
        if e.0 == s {
            let through = 1 + chain_length(deps, e.1, bound);
            if through > prev {
                through
            } else {
                prev
            }
        } else {
            prev
        }
    }
}

/// The priority of system `s` in `dag`: minus its longest chain of
/// dependencies. No chain in an acyclic graph has as many steps as there are
/// systems, so the bound below cuts no chain short.
pub open spec fn priority(dag: DagView, s: u64) -> int {
    -(chain_length(dag.dependencies, s, dag.systems.len()) as int)
}

/// The priority of every system of `dag`.
pub open spec fn priorities(dag: DagView) -> Map<u64, int> {
    Map::new(|s: u64| dag.systems.contains(s), |s: u64| priority(dag, s))
}

/// A chain has at most as many steps as its bound.
pub proof fn lemma_chain_bounded(deps: Seq<(u64, u64)>, s: u64, bound: nat)
    ensures
        chain_length(deps, s, bound) <= bound,
    decreases bound, 0nat,
{
    if bound > 0 {
        lemma_among_bounded(deps, s, (bound - 1) as nat, deps.len());
    }
}

proof fn lemma_among_bounded(deps: Seq<(u64, u64)>, s: u64, bound: nat, n: nat)
    requires
        n <= deps.len(),
    ensures
        chain_length_among(deps, s, bound, n) <= bound + 1,
    decreases bound, n + 1,
{
    if n > 0 {
        lemma_among_bounded(deps, s, bound, (n - 1) as nat);
        lemma_chain_bounded(deps, deps[n - 1].1, bound);
    }
}

/// Every edge `(s, d)` among the first `n` gives `s` a chain one step longer
/// than the longest of `d`.
proof fn lemma_among_covers(deps: Seq<(u64, u64)>, s: u64, bound: nat, n: nat, j: int)
    requires
        n <= deps.len(),
        0 <= j < n,
        deps[j].0 == s,
    ensures
        chain_length_among(deps, s, bound, n) >= 1 + chain_length(deps, deps[j].1, bound),
    decreases n,
{
    if j < n - 1 {
        lemma_among_covers(deps, s, bound, (n - 1) as nat, j);
    }
}

/// A positive longest chain is realised by an edge out of `s`.
proof fn lemma_among_witness(deps: Seq<(u64, u64)>, s: u64, bound: nat, n: nat)
    requires
        n <= deps.len(),
        chain_length_among(deps, s, bound, n) > 0,
    ensures
        exists|j: int|
            0 <= j < n && deps[j].0 == s && chain_length_among(deps, s, bound, n) == 1
                + chain_length(deps, #[trigger] deps[j].1, bound),
    decreases n,
{
    let prev = chain_length_among(deps, s, bound, (n - 1) as nat);
    let e = deps[n - 1];
    if e.0 == s && 1 + chain_length(deps, e.1, bound) > prev {
        assert(deps[n - 1].0 == s);
    } else {
        lemma_among_witness(deps, s, bound, (n - 1) as nat);
        let j = choose|j: int|
            0 <= j < n - 1 && deps[j].0 == s && prev == 1 + chain_length(
                deps,
                #[trigger] deps[j].1,
                bound,
            );
        assert(0 <= j < n && deps[j].0 == s);
    }
}

/// The longest chain is walked by an actual walk of that many steps.
pub proof fn lemma_chain_walk(deps: Seq<(u64, u64)>, s: u64, bound: nat)
    ensures
        exists|p: Seq<u64>|
            #[trigger] is_walk(deps, p) && p.len() == chain_length(deps, s, bound) + 1 && p[0]
                == s,
    decreases bound,
{
    let len = chain_length(deps, s, bound);
    if len == 0 {
        let p = seq![s];
        assert(is_walk(deps, p));
    } else {
        let b = (bound - 1) as nat;
        lemma_among_witness(deps, s, b, deps.len());
        let j = choose|j: int|
            0 <= j < deps.len() && deps[j].0 == s && len == 1 + chain_length(
                deps,
                #[trigger] deps[j].1,
                b,
            );
        let d = deps[j].1;
        lemma_chain_walk(deps, d, b);
        let q = choose|q: Seq<u64>|
            #[trigger] is_walk(deps, q) && q.len() == chain_length(deps, d, b) + 1 && q[0] == d;
        let p = seq![s] + q;
        assert forall|i: int| 0 <= i < p.len() - 1 implies #[trigger] has_step(deps, p, i) by {
            if i == 0 {
                assert(deps[j] == (s, d));
            } else {
                assert(has_step(deps, q, i - 1));
            }
        }
        assert(is_walk(deps, p));
    }
}

/// Every walk that starts at `s` and has at most `bound` steps is no longer
/// than the longest chain of `s`.
pub proof fn lemma_walk_chain(deps: Seq<(u64, u64)>, p: Seq<u64>, bound: nat)
    requires
        is_walk(deps, p),
        p.len() >= 1,
        p.len() - 1 <= bound,
    ensures
        chain_length(deps, p[0], bound) >= p.len() - 1,
    decreases p.len(),
{
    if p.len() > 1 {
        let q = p.drop_first();
        assert forall|i: int| 0 <= i < q.len() - 1 implies #[trigger] has_step(deps, q, i) by {
            assert(has_step(deps, p, i + 1));
        }
        lemma_walk_chain(deps, q, (bound - 1) as nat);
        assert(has_step(deps, p, 0));
        let j = choose|j: int| 0 <= j < deps.len() && deps[j] == (p[0], p[1]);
        lemma_among_covers(deps, p[0], (bound - 1) as nat, deps.len(), j);
    }
}

/// In a well-formed graph, a system with a dependency `d` has a strictly
/// longer chain of dependencies than `d`.
pub proof fn lemma_dependency_chain_longer(dag: DagView, s: u64, d: u64)
    requires
        dag.well_formed(),
        dag.dependencies.contains((s, d)),
    ensures
        chain_length(dag.dependencies, s, dag.systems.len()) > chain_length(
            dag.dependencies,
            d,
            dag.systems.len(),
        ),
{
    let deps = dag.dependencies;
    let n = dag.systems.len();
    let j = choose|j: int| 0 <= j < deps.len() && deps[j] == (s, d);
    assert(dag.systems.contains(deps[j].0));
    assert(n >= 1);
    let b = (n - 1) as nat;
    lemma_among_covers(deps, s, b, deps.len(), j);
    // the chain of `d` within `n` steps is no longer than `n - 1`
    lemma_chain_walk(deps, d, n);
    let p = choose|p: Seq<u64>|
        #[trigger] is_walk(deps, p) && p.len() == chain_length(deps, d, n) + 1 && p[0] == d;
    if p.len() >= 2 {
        lemma_walk_bounded(deps, dag.systems, p);
    }
    lemma_walk_chain(deps, p, b);
}

/// Each dependency of a system gets a strictly higher priority than the
/// system: it is dispatched first.
pub proof fn lemma_dependency_first(dag: DagView, s: u64, d: u64)
    requires
        dag.well_formed(),
        dag.dependencies.contains((s, d)),
    ensures
        priority(dag, d) > priority(dag, s),
{
    lemma_dependency_chain_longer(dag, s, d);
}

/// A system without dependencies gets the highest priority, 0; every priority
/// lies between minus the number of systems and 0.
pub proof fn lemma_priority_range(dag: DagView, s: u64)
    ensures
        -(dag.systems.len() as int) <= priority(dag, s) <= 0,
        (forall|d: u64| !dag.dependencies.contains((s, d))) ==> priority(dag, s) == 0,
{
    lemma_chain_bounded(dag.dependencies, s, dag.systems.len());
    if forall|d: u64| !dag.dependencies.contains((s, d)) {
        if chain_length(dag.dependencies, s, dag.systems.len()) > 0 {
            let b = (dag.systems.len() - 1) as nat;
            lemma_among_witness(dag.dependencies, s, b, dag.dependencies.len());
            let j = choose|j: int|
                0 <= j < dag.dependencies.len() && dag.dependencies[j].0 == s
                    && chain_length_among(dag.dependencies, s, b, dag.dependencies.len()) == 1
                    + chain_length(dag.dependencies, #[trigger] dag.dependencies[j].1, b);
            assert(dag.dependencies.contains((s, dag.dependencies[j].1)));
        }
    }
}

/// Once `system` was made to depend on `dependencies` (appended to any earlier
/// edges) in a well-formed graph, each of those dependencies has a strictly
/// higher priority than `system`, whatever its place in the list.
pub proof fn lemma_dependencies_dispatched_first(
    dag: DagView,
    before: Seq<(u64, u64)>,
    system: u64,
    dependencies: Seq<u64>,
)
    requires
        dag.well_formed(),
        dag.dependencies == before + dependency_edges(system, dependencies),
    ensures
        forall|k: int|
            #![trigger dependencies[k]]
            0 <= k < dependencies.len() ==> priority(dag, dependencies[k]) > priority(
                dag,
                system,
            ),
{
    lemma_every_dependency_recorded(before, system, dependencies);
    assert forall|k: int|
        #![trigger dependencies[k]]
        0 <= k < dependencies.len() implies priority(dag, dependencies[k]) > priority(
        dag,
        system,
    ) by {
        lemma_dependency_first(dag, system, dependencies[k]);
    }
}

/// The dispatch priority of each system of a dependency graph.
pub struct PriorityMap {
    systems: Vec<u64>,
    priorities: Vec<i32>,
}

impl View for PriorityMap {
    type V = Map<u64, int>;

    closed spec fn view(&self) -> Map<u64, int> {
        Map::new(
            |s: u64| self.systems@.contains(s),
            |s: u64| self.priorities@[self.systems@.index_of(s)] as int,
        )
    }
}

impl PriorityMap {
    #[verifier::type_invariant]
    spec fn inv(self) -> bool {
        &&& self.systems@.len() == self.priorities@.len()
        &&& self.systems@.no_duplicates()
    }

    /// The priorities of the systems of `dag`.
    pub fn from(dag: Dag) -> (map: PriorityMap)
        requires
            dag.wf(),
        ensures
            map@ == priorities(dag@),
    {
        proof {
            dag.lemma_wf();
        }
        let ghost deps = dag@.dependencies;
        let ghost sys = dag@.systems;
        let systems = dag.systems();
        let n: usize = systems.len();
        let m: usize = dag.dependency_count();
        // positions of the endpoints of each edge
        let mut sources: Vec<usize> = Vec::new();
        let mut targets: Vec<usize> = Vec::new();
        let mut i: usize = 0;
        while i < m
            invariant
                dag.wf(),
                deps == dag@.dependencies,
                sys == dag@.systems,
                n == sys.len(),
                m == deps.len(),
                i <= m,
                sources@.len() == i,
                targets@.len() == i,
                forall|k: int|
                    #![trigger sources@[k]]
                    0 <= k < i ==> sources@[k] < n && sys[sources@[k] as int] == deps[k].0,
                forall|k: int|
                    #![trigger targets@[k]]
                    0 <= k < i ==> targets@[k] < n && sys[targets@[k] as int] == deps[k].1,
            decreases m - i,
        {
            let (a, b) = dag.dependency_positions(i);
            sources.push(a);
            targets.push(b);
            i = i + 1;
        }
        // chains of at most zero steps
        let mut current: Vec<u64> = Vec::new();
        let mut j: usize = 0;
        while j < n
            invariant
                j <= n,
                current@.len() == j,
                forall|k: int| 0 <= k < j ==> #[trigger] current@[k] == 0,
            decreases n - j,
        {
            current.push(0);
            j = j + 1;
        }
        // each round lengthens the bound on the chains by one step
        let mut round: usize = 0;
        while round < n
            invariant
                round <= n,
                n == sys.len(),
                n <= i32::MAX,
                m == deps.len(),
                sys.no_duplicates(),
                current@.len() == n,
                sources@.len() == m,
                targets@.len() == m,
                forall|k: int|
                    #![trigger sources@[k]]
                    0 <= k < m ==> sources@[k] < n && sys[sources@[k] as int] == deps[k].0,
                forall|k: int|
                    #![trigger targets@[k]]
                    0 <= k < m ==> targets@[k] < n && sys[targets@[k] as int] == deps[k].1,
                forall|k: int|
                    0 <= k < n ==> #[trigger] current@[k] == chain_length(
                        deps,
                        sys[k],
                        round as nat,
                    ),
            decreases n - round,
        {
            let mut next: Vec<u64> = Vec::new();
            let mut j: usize = 0;
            while j < n
                invariant
                    j <= n,
                    next@.len() == j,
                    forall|k: int| 0 <= k < j ==> #[trigger] next@[k] == 0,
                decreases n - j,
            {
                next.push(0);
                j = j + 1;
            }
            let mut e: usize = 0;
            while e < m
                invariant
                    e <= m,
                    round < n,
                    n == sys.len(),
                    m == deps.len(),
                    sys.no_duplicates(),
                    current@.len() == n,
                    next@.len() == n,
                    sources@.len() == m,
                    targets@.len() == m,
                    forall|k: int|
                        #![trigger sources@[k]]
                        0 <= k < m ==> sources@[k] < n && sys[sources@[k] as int] == deps[k].0,
                    forall|k: int|
                        #![trigger targets@[k]]
                        0 <= k < m ==> targets@[k] < n && sys[targets@[k] as int] == deps[k].1,
                    forall|k: int|
                        0 <= k < n ==> #[trigger] current@[k] == chain_length(
                            deps,
                            sys[k],
                            round as nat,
                        ),
                    forall|k: int|
                        0 <= k < n ==> #[trigger] next@[k] == chain_length_among(
                            deps,
                            sys[k],
                            round as nat,
                            e as nat,
                        ),
                decreases m - e,
            {
                let s: usize = sources[e];
                let d: usize = targets[e];
                proof {
                    lemma_chain_bounded(deps, sys[d as int], round as nat);
                }
                let through: u64 = current[d] + 1;
                if through > next[s] {
                    next.set(s, through);
                }
                proof {
                    assert forall|k: int| 0 <= k < n implies #[trigger] next@[k]
                        == chain_length_among(deps, sys[k], round as nat, (e + 1) as nat) by {
                        if k != s as int {
                            assert(sys[k] != sys[s as int]);
                        }
                    }
                }
                e = e + 1;
            }
            current = next;
            round = round + 1;
        }
        // priorities are minus the chain lengths
        let mut ids: Vec<u64> = Vec::new();
        let mut prios: Vec<i32> = Vec::new();
        let mut j: usize = 0;
        while j < n
            invariant
                j <= n,
                n == sys.len(),
                n <= i32::MAX,
                systems@ == sys,
                current@.len() == n,
                forall|k: int|
                    0 <= k < n ==> #[trigger] current@[k] == chain_length(deps, sys[k], n as nat),
                ids@ == sys.take(j as int),
                prios@.len() == j,
                forall|k: int|
                    0 <= k < j ==> #[trigger] prios@[k] == -(chain_length(
                        deps,
                        sys[k],
                        n as nat,
                    ) as int),
            decreases n - j,
        {
            proof {
                lemma_chain_bounded(deps, sys[j as int], n as nat);
            }
            let c: i32 = current[j] as i32;
            ids.push(systems[j]);
            prios.push(-c);
            proof {
                assert(sys.take(j + 1) == sys.take(j as int).push(sys[j as int]));
            }
            j = j + 1;
        }
        proof {
            assert(sys.take(n as int) == sys);
        }
        let map = PriorityMap { systems: ids, priorities: prios };
        proof {
            let v = map@;
            let want = priorities(dag@);
            assert forall|s: u64| #[trigger] v.contains_key(s) implies v[s] == want[s] by {
                let k = sys.index_of(s);
                assert(sys[k] == s);
            }
            assert(v =~= want);
        }
        map
    }

    /// The priority of `system`, if it is one of the systems.
    pub fn get(&self, system: &u64) -> (priority: Option<i32>)
        ensures
            match priority {
                Some(p) => self@.contains_key(*system) && p as int == self@[*system],
                None => !self@.contains_key(*system),
            },
    {
        proof {
            use_type_invariant(self);
        }
        let mut i: usize = 0;
        while i < self.systems.len()
            invariant
                self.systems@.len() == self.priorities@.len(),
                self.systems@.no_duplicates(),
                i <= self.systems@.len(),
                forall|j: int| 0 <= j < i ==> self.systems@[j] != *system,
            decreases self.systems@.len() - i,
        {
            if self.systems[i] == *system {
                proof {
                    let k = self.systems@.index_of(*system);
                    assert(self.systems@[k] == *system);
                }
                return Some(self.priorities[i]);
            }
            i = i + 1;
        }
        None
    }
}

} // verus!

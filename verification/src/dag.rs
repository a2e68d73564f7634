//! The dependency graph of installed systems: systems are nodes, a dependency
//! of system `s` on system `d` is the edge `(s, d)`, and no chain of
//! dependencies ever leads a system back to itself.
use vstd::prelude::*;
use std::collections::HashMap;
use crate::graph::{
    DaggyGraph, graph_nodes, graph_edges, graph_new, graph_add_node, graph_add_edge,
    graph_edge_count, graph_edge_endpoints,
};
use crate::paths::{
    acyclic, connected, edges_within, is_walk, has_step, lemma_push_keeps_acyclic, lemma_push_closes_cycle,
    lemma_cycle_persists,
};

verus! {

broadcast use vstd::std_specs::hash::group_hash_axioms;

/// A dependency that was refused because `system` can already be reached from
/// `dependency`: the edge would have closed a cycle.
#[derive(PartialEq, Eq, Structural, Clone, Copy, Debug)]
pub struct DependencyCycle {
    pub system: u64,
    pub dependency: u64,
}

/// What a [`Dag`] holds: its systems in the order they were first added, its
/// dependency edges in the order they were accepted, and the alias of each
/// system that has one.
pub struct DagView {
    pub systems: Seq<u64>,
    pub dependencies: Seq<(u64, u64)>,
    pub aliases: Map<u64, String>,
}

impl DagView {
    /// Systems are distinct, the dependencies form no cycle, and every
    /// dependency joins two systems of the graph.
    pub open spec fn well_formed(self) -> bool {
        &&& self.systems.no_duplicates()
        &&& acyclic(self.dependencies)
        &&& edges_within(self.dependencies, self.systems)
    }
}

/// `systems` with `s` appended unless it is already there.
pub open spec fn with_system(systems: Seq<u64>, s: u64) -> Seq<u64> {
    if systems.contains(s) {
        systems
    } else {
        systems.push(s)
    }
}

/// `systems` with each of `added` appended in turn unless already there.
pub open spec fn with_systems(systems: Seq<u64>, added: Seq<u64>) -> Seq<u64>
    decreases added.len(),
{
    if added.len() == 0 {
        systems
    } else {
        with_system(with_systems(systems, added.drop_last()), added.last())
    }
}

/// The edges that make `system` depend on each of `dependencies`, in order.
pub open spec fn dependency_edges(system: u64, dependencies: Seq<u64>) -> Seq<(u64, u64)> {
    Seq::new(dependencies.len(), |i: int| (system, dependencies[i]))
}

/// The edges that make `system` depend on `dependencies` are exactly one edge
/// per dependency, in order, each from `system` to that dependency; appended to
/// earlier edges, each of them is among the result.
pub proof fn lemma_dependency_edges(system: u64, dependencies: Seq<u64>)
    ensures
        dependency_edges(system, dependencies).len() == dependencies.len(),
        forall|k: int|
            #![trigger dependencies[k]]
            0 <= k < dependencies.len() ==> dependency_edges(system, dependencies)[k] == (
                system,
                dependencies[k],
            ),
{
}

/// After dependencies were added to `before`, every one of them is a
/// dependency of `system`, and every earlier edge is still there.
pub proof fn lemma_every_dependency_recorded(
    before: Seq<(u64, u64)>,
    system: u64,
    dependencies: Seq<u64>,
)
    ensures
        forall|k: int|
            #![trigger dependencies[k]]
            0 <= k < dependencies.len() ==> (before + dependency_edges(
                system,
                dependencies,
            )).contains((system, dependencies[k])),
        forall|x: (u64, u64)|
            before.contains(x) ==> (before + dependency_edges(system, dependencies)).contains(x),
        (before + dependency_edges(system, dependencies)).len() == before.len()
            + dependencies.len(),
{
    lemma_dependency_edges(system, dependencies);
    let all = before + dependency_edges(system, dependencies);
    assert forall|k: int|
        #![trigger dependencies[k]]
        0 <= k < dependencies.len() implies all.contains((system, dependencies[k])) by {
        assert(all[before.len() + k] == (system, dependencies[k]));
    }
    assert forall|x: (u64, u64)| before.contains(x) implies all.contains(x) by {
        let i = choose|i: int| 0 <= i < before.len() && before[i] == x;
        assert(all[i] == x);
    }
}

/// Appending one system keeps every earlier one, holds the new one, and grows
/// the sequence by at most one.
pub proof fn lemma_with_system(systems: Seq<u64>, s: u64)
    ensures
        with_system(systems, s).len() <= systems.len() + 1,
        with_system(systems, s).contains(s),
        forall|x: u64| systems.contains(x) ==> with_system(systems, s).contains(x),
        systems.no_duplicates() ==> with_system(systems, s).no_duplicates(),
{
    if !systems.contains(s) {
        let r = systems.push(s);
        assert(r[systems.len() as int] == s);
        assert forall|x: u64| systems.contains(x) implies r.contains(x) by {
            let k = choose|k: int| 0 <= k < systems.len() && systems[k] == x;
            assert(r[k] == x);
        }
        if systems.no_duplicates() {
            assert forall|i: int, j: int|
                0 <= i < r.len() && 0 <= j < r.len() && i != j implies r[i] != r[j] by {
                if i < systems.len() && j < systems.len() {
                    assert(systems[i] == r[i] && systems[j] == r[j]);
                } else if i < systems.len() {
                    assert(systems[i] == r[i]);
                } else {
                    assert(systems[j] == r[j]);
                }
            }
        }
    }
}

/// Appending systems keeps every earlier one, adds each new one, and grows the
/// sequence by at most the number of systems appended.
pub proof fn lemma_with_systems(systems: Seq<u64>, added: Seq<u64>)
    ensures
        with_systems(systems, added).len() <= systems.len() + added.len(),
        forall|x: u64| systems.contains(x) ==> with_systems(systems, added).contains(x),
        forall|j: int| 0 <= j < added.len() ==> with_systems(systems, added).contains(added[j]),
        systems.no_duplicates() ==> with_systems(systems, added).no_duplicates(),
    decreases added.len(),
{
    if added.len() > 0 {
        let prev = with_systems(systems, added.drop_last());
        lemma_with_systems(systems, added.drop_last());
        lemma_with_system(prev, added.last());
        assert forall|j: int| 0 <= j < added.len() implies with_systems(
            systems,
            added,
        ).contains(added[j]) by {
            if j < added.len() - 1 {
                assert(added.drop_last()[j] == added[j]);
                assert(prev.contains(added[j]));
            }
        }
    }
}

/// Adding a system twice is adding it once.
pub proof fn lemma_with_system_idempotent(systems: Seq<u64>, s: u64)
    ensures
        with_system(with_system(systems, s), s) == with_system(systems, s),
{
    lemma_with_system(systems, s);
}

/// Reading an alias gives back the one last written for that system, and
/// writing an alias leaves the aliases of other systems as they were.
pub proof fn lemma_alias_read_back(aliases: Map<u64, String>, s: u64, alias: String, other: u64)
    ensures
        aliases.insert(s, alias).contains_key(s),
        aliases.insert(s, alias)[s] == alias,
        other != s ==> (aliases.insert(s, alias).contains_key(other) == aliases.contains_key(
            other,
        )),
        other != s && aliases.contains_key(other) ==> aliases.insert(s, alias)[other]
            == aliases[other],
{
}

/// A dependency graph of systems, backed by a `daggy` acyclic graph whose
/// node weights are the systems, with an alias for each system.
pub struct Dag {
    graph: DaggyGraph,
    systems: Vec<u64>,
    aliases: HashMap<u64, String>,
}

impl View for Dag {
    type V = DagView;

    closed spec fn view(&self) -> DagView {
        DagView {
            systems: self.systems@,
            dependencies: graph_edges(self.graph),
            aliases: self.aliases@,
        }
    }
}

impl Dag {
    /// The graph's nodes are its systems, its view is well formed, and its
    /// systems are few enough for their priorities to fit in an `i32`.
    pub closed spec fn wf(&self) -> bool {
        &&& graph_nodes(self.graph) == self.systems@
        &&& self@.well_formed()
        &&& self.systems@.len() <= i32::MAX
    }

    /// What `wf` promises of the view.
    pub proof fn lemma_wf(&self)
        requires
            self.wf(),
        ensures
            self@.well_formed(),
            self@.systems.len() <= i32::MAX,
    {
    }

    /// An empty graph.
    pub fn new() -> (dag: Dag)
        ensures
            dag.wf(),
            dag@.systems == Seq::<u64>::empty(),
            dag@.dependencies == Seq::<(u64, u64)>::empty(),
            dag@.aliases == Map::<u64, String>::empty(),
    {
        let dag = Dag { graph: graph_new(), systems: Vec::new(), aliases: HashMap::new() };
        proof {
            let e = dag@.dependencies;
            assert forall|p: Seq<u64>| #[trigger] is_walk(e, p) && p.len() >= 2 implies p[0]
                != p.last() by {
                assert(has_step(e, p, 0));
            }
        }
        dag
    }

    /// The position of `system` among the systems, if it is one.
    fn find(&self, system: u64) -> (pos: Option<usize>)
        ensures
            match pos {
                Some(i) => i < self@.systems.len() && self@.systems[i as int] == system,
                None => !self@.systems.contains(system),
            },
    {
        let mut i: usize = 0;
        while i < self.systems.len()
            invariant
                i <= self.systems@.len(),
                forall|j: int| 0 <= j < i ==> self.systems@[j] != system,
            decreases self.systems@.len() - i,
        {
            if self.systems[i] == system {
                return Some(i);
            }
            i = i + 1;
        }
        None
    }

    /// The position of `system`, which is one of the systems.
    fn position(&self, system: u64) -> (i: usize)
        requires
            self@.systems.contains(system),
        ensures
            i < self@.systems.len(),
            self@.systems[i as int] == system,
    {
        match self.find(system) {
            Some(i) => i,
            None => {
                proof {
                    assert(false);
                }
                0
            },
        }
    }

    /// Records `alias` as the name of `system`, replacing an earlier one.
    pub fn add_alias(&mut self, system: &u64, alias: String)
        requires
            old(self).wf(),
        ensures
            final(self).wf(),
            final(self)@.systems == old(self)@.systems,
            final(self)@.dependencies == old(self)@.dependencies,
            final(self)@.aliases == old(self)@.aliases.insert(*system, alias),
    {
        self.aliases.insert(*system, alias);
    }

    /// The alias of `system`, if it has one.
    pub fn alias(&self, system: &u64) -> (alias: Option<&String>)
        ensures
            match alias {
                Some(a) => self@.aliases.contains_key(*system) && *a == self@.aliases[*system],
                None => !self@.aliases.contains_key(*system),
            },
    {
        self.aliases.get(system)
    }

    /// Adds `system` as a node, unless it already is one.
    pub fn add_system(&mut self, system: &u64)
        requires
            old(self).wf(),
            !old(self)@.systems.contains(*system) ==> old(self)@.systems.len() < i32::MAX,
        ensures
            final(self).wf(),
            final(self)@.systems == with_system(old(self)@.systems, *system),
            final(self)@.dependencies == old(self)@.dependencies,
            final(self)@.aliases == old(self)@.aliases,
    {
        match self.find(*system) {
            Some(_) => {},
            None => {
                let _ = graph_add_node(&mut self.graph, *system);
                self.systems.push(*system);
                proof {
                    let s = self.systems@;
                    assert forall|i: int, j: int|
                        0 <= i < s.len() && 0 <= j < s.len() && i != j implies s[i] != s[j] by {
                        if i < s.len() - 1 && j < s.len() - 1 {
                            assert(old(self)@.systems[i] == s[i]);
                            assert(old(self)@.systems[j] == s[j]);
                        } else if i == s.len() - 1 {
                            assert(old(self)@.systems[j] == s[j]);
                        } else {
                            assert(old(self)@.systems[i] == s[i]);
                        }
                    }
                    let e = self@.dependencies;
                    assert forall|k: int| #![trigger e[k]] 0 <= k < e.len() implies s.contains(
                        e[k].0,
                    ) && s.contains(e[k].1) by {
                        let old_s = old(self)@.systems;
                        assert(old_s.contains(e[k].0) && old_s.contains(e[k].1));
                        let a = choose|a: int| 0 <= a < old_s.len() && old_s[a] == e[k].0;
                        let b = choose|b: int| 0 <= b < old_s.len() && old_s[b] == e[k].1;
                        assert(s[a] == e[k].0 && s[b] == e[k].1);
                    }
                }
            },
        }
    }

    /// Makes `system` depend on each of `dependencies` in turn, adding every
    /// system named as a node first. A dependency that would close a cycle is
    /// refused: the edges accepted before it stay, and the cycle is reported.
    /// So the call succeeds exactly when all the new edges together keep the
    /// graph acyclic.
    pub fn add_dependency_set(&mut self, system: &u64, dependencies: &[u64]) -> (res: Result<
        (),
        DependencyCycle,
    >)
        requires
            old(self).wf(),
            old(self)@.systems.len() + dependencies@.len() < i32::MAX,
            old(self)@.dependencies.len() + dependencies@.len() < 0xffff_ffff,
        ensures
            final(self).wf(),
            final(self)@.aliases == old(self)@.aliases,
            res is Ok <==> acyclic(
                old(self)@.dependencies + dependency_edges(*system, dependencies@),
            ),
            res is Ok ==> final(self)@.dependencies == old(self)@.dependencies + dependency_edges(
                *system,
                dependencies@,
            ),
            res is Ok ==> final(self)@.dependencies.len() == old(self)@.dependencies.len()
                + dependencies@.len(),
            res is Ok ==> forall|k: int|
                0 <= k < old(self)@.dependencies.len() ==> #[trigger] final(self)@.dependencies[k]
                    == old(self)@.dependencies[k],
            res is Ok ==> forall|k: int|
                #![trigger dependencies@[k]]
                0 <= k < dependencies@.len() ==> final(self)@.dependencies[old(self)@.dependencies.len() + k] == (*system, dependencies@[k]),
            res is Ok ==> final(self)@.systems == with_systems(
                with_system(old(self)@.systems, *system),
                dependencies@,
            ),
            res matches Err(cycle) ==> exists|k: int|
                #![trigger dependencies@[k]]
                0 <= k < dependencies@.len() && cycle == (DependencyCycle {
                    system: *system,
                    dependency: dependencies@[k],
                }) && final(self)@.dependencies == old(self)@.dependencies + dependency_edges(
                    *system,
                    dependencies@,
                ).take(k) && final(self)@.systems == with_systems(
                    with_system(old(self)@.systems, *system),
                    dependencies@.take(k + 1),
                ) && connected(final(self)@.dependencies, dependencies@[k], *system),
    {
        let ghost old_view = self@;
        let ghost all = dependency_edges(*system, dependencies@);
        let ghost base = with_system(old_view.systems, *system);
        proof {
            lemma_with_system(old_view.systems, *system);
        }
        self.add_system(system);
        assert(with_systems(base, dependencies@.take(0)) == base);
        assert(old_view.dependencies + all.take(0) == old_view.dependencies);
        let mut i: usize = 0;
        while i < dependencies.len()
            invariant
                self.wf(),
                old_view == old(self)@,
                i <= dependencies@.len(),
                all == dependency_edges(*system, dependencies@),
                base == with_system(old_view.systems, *system),
                base.contains(*system),
                old_view.systems.len() + dependencies@.len() < i32::MAX,
                old_view.dependencies.len() + dependencies@.len() < 0xffff_ffff,
                self@.aliases == old_view.aliases,
                self@.systems == with_systems(base, dependencies@.take(i as int)),
                self@.dependencies == old_view.dependencies + all.take(i as int),
            decreases dependencies@.len() - i,
        {
            let dependency: u64 = dependencies[i];
            proof {
                lemma_with_systems(base, dependencies@.take(i as int));
                assert(base.len() <= old_view.systems.len() + 1);
            }
            self.add_system(&dependency);
            proof {
                let t = dependencies@.take(i + 1);
                assert(t.drop_last() == dependencies@.take(i as int));
                assert(t.last() == dependency);
                lemma_with_systems(base, dependencies@.take(i as int));
                assert(self@.systems == with_systems(base, t));
                lemma_with_systems(base, t);
                assert(t[i as int] == dependency);
            }
            let a: usize = self.position(*system);
            let b: usize = self.position(dependency);
            let added: bool = graph_add_edge(&mut self.graph, a, b);
            let ghost before = old_view.dependencies + all.take(i as int);
            proof {
                assert(all.take(i + 1) == all.take(i as int).push((*system, dependency)));
                assert(old_view.dependencies + all.take(i + 1) == before.push(
                    (*system, dependency),
                ));
            }
            if !added {
                proof {
                    lemma_push_closes_cycle(before, *system, dependency);
                    assert(old_view.dependencies + all == (old_view.dependencies + all.take(
                        i + 1,
                    )) + all.skip(i + 1));
                    lemma_cycle_persists(old_view.dependencies + all.take(i + 1), all.skip(i + 1));
                    assert(dependencies@[i as int] == dependency);
                }
                return Err(DependencyCycle { system: *system, dependency });
            }
            proof {
                lemma_push_keeps_acyclic(before, *system, dependency);
                let e = self@.dependencies;
                let s = self@.systems;
                assert forall|k: int| #![trigger e[k]] 0 <= k < e.len() implies s.contains(e[k].0)
                    && s.contains(e[k].1) by {
                    if k < e.len() - 1 {
                        assert(e[k] == before[k]);
                    } else {
                        assert(e[k] == (*system, dependency));
                        assert(s[a as int] == *system);
                        assert(s[b as int] == dependency);
                    }
                }
            }
            i = i + 1;
        }
        proof {
            assert(dependencies@.take(dependencies@.len() as int) == dependencies@);
            assert(all.take(all.len() as int) == all);
            lemma_dependency_edges(*system, dependencies@);
        }
        Ok(())
    }

    /// The number of dependency edges.
    pub fn dependency_count(&self) -> (n: usize)
        ensures
            n == self@.dependencies.len(),
    {
        graph_edge_count(&self.graph)
    }

    /// The positions among the systems of the source and target of the
    /// `i`-th dependency edge.
    pub fn dependency_positions(&self, i: usize) -> (ends: (usize, usize))
        requires
            self.wf(),
            i < self@.dependencies.len(),
        ensures
            ends.0 < self@.systems.len(),
            ends.1 < self@.systems.len(),
            self@.systems[ends.0 as int] == self@.dependencies[i as int].0,
            self@.systems[ends.1 as int] == self@.dependencies[i as int].1,
    {
        graph_edge_endpoints(&self.graph, i)
    }

    /// The systems, in the order they were first added.
    pub fn systems(&self) -> (s: &Vec<u64>)
        ensures
            s@ == self@.systems,
    {
        &self.systems
    }
}

} // verus!

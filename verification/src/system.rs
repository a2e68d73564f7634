//! The automatic installer: systems are registered one by one with their
//! identity and their dependencies, and `apply` turns them into an install
//! plan that gives each system its dispatch priority.
use vstd::prelude::*;
use crate::dag::{
    Dag, DagView, DependencyCycle, dependency_edges, with_system, with_systems,
    lemma_with_system, lemma_with_systems,
};
use crate::paths::{acyclic, connected};
use crate::priority::{PriorityMap, priority, priorities, lemma_dependency_first};

verus! {

/// The identifier of a system, by which other systems name it as a
/// dependency.
pub type SystemDependency = u64;

/// One step of an install plan: install `system` with dispatch `priority`.
#[derive(PartialEq, Eq, Structural, Clone, Copy, Debug)]
pub struct Install {
    pub system: SystemDependency,
    pub priority: i32,
}

/// What an [`AutoInstaller`] holds: the dependency graph of everything seen so
/// far, and the systems to install, in the order they were registered.
pub struct InstallerView {
    pub dag: DagView,
    pub installs: Seq<SystemDependency>,
}

/// Collects systems with their dependencies, then plans their installation.
pub struct AutoInstaller {
    dependency_set: Dag,
    installs: Vec<SystemDependency>,
}

impl View for AutoInstaller {
    type V = InstallerView;

    closed spec fn view(&self) -> InstallerView {
        InstallerView { dag: self.dependency_set@, installs: self.installs@ }
    }
}

/// The install plan of `view`: each registered system, in order, with its
/// priority in the dependency graph.
pub open spec fn install_plan(view: InstallerView) -> Seq<Install> {
    Seq::new(
        view.installs.len(),
        |i: int| Install { system: view.installs[i], priority: priority(view.dag, view.installs[i]) as i32 },
    )
}

/// The install plan has exactly one step per registration, in the order of
/// registration, each with that system's priority.
pub proof fn lemma_install_plan(view: InstallerView)
    ensures
        install_plan(view).len() == view.installs.len(),
        forall|i: int|
            0 <= i < view.installs.len() ==> #[trigger] install_plan(view)[i].system
                == view.installs[i] && install_plan(view)[i].priority == priority(
                view.dag,
                view.installs[i],
            ) as i32,
{
}

impl AutoInstaller {
    /// The dependency graph is well formed and holds every registered system.
    pub closed spec fn wf(&self) -> bool {
        &&& self.dependency_set.wf()
        &&& forall|i: int|
            0 <= i < self.installs@.len() ==> self.dependency_set@.systems.contains(
                #[trigger] self.installs@[i],
            )
    }

    /// What `wf` promises of the view.
    pub proof fn lemma_wf(&self)
        requires
            self.wf(),
        ensures
            self@.dag.well_formed(),
            self@.dag.systems.len() <= i32::MAX,
            forall|i: int|
                0 <= i < self@.installs.len() ==> self@.dag.systems.contains(
                    #[trigger] self@.installs[i],
                ),
    {
        self.dependency_set.lemma_wf();
    }

    /// An installer with no systems.
    pub fn new() -> (installer: AutoInstaller)
        ensures
            installer.wf(),
            installer@.dag.systems == Seq::<u64>::empty(),
            installer@.dag.dependencies == Seq::<(u64, u64)>::empty(),
            installer@.dag.aliases == Map::<u64, String>::empty(),
            installer@.installs == Seq::<SystemDependency>::empty(),
    {
        AutoInstaller { dependency_set: Dag::new(), installs: Vec::new() }
    }

    /// The dependency graph, giving up the installer.
    pub fn take_dag(self) -> (dag: Dag)
        requires
            self.wf(),
        ensures
            dag.wf(),
            dag@ == self@.dag,
    {
        self.dependency_set
    }

    /// Registers `system` under the name `identity`, adds it and its
    /// `dependencies` to the dependency graph, and queues it for installation.
    /// A dependency that would close a cycle is refused with the edges before
    /// it kept, and the system is then not queued.
    pub fn auto_install(
        &mut self,
        system: SystemDependency,
        identity: String,
        dependencies: &[SystemDependency],
    ) -> (res: Result<(), DependencyCycle>)
        requires
            old(self).wf(),
            old(self)@.dag.systems.len() + dependencies@.len() < i32::MAX,
            old(self)@.dag.dependencies.len() + dependencies@.len() < 0xffff_ffff,
        ensures
            final(self).wf(),
            final(self)@.dag.aliases == old(self)@.dag.aliases.insert(system, identity),
            res is Ok <==> acyclic(
                old(self)@.dag.dependencies + dependency_edges(system, dependencies@),
            ),
            res is Ok ==> final(self)@.dag.dependencies == old(self)@.dag.dependencies
                + dependency_edges(system, dependencies@),
            res is Ok ==> final(self)@.dag.systems == with_systems(
                with_system(old(self)@.dag.systems, system),
                dependencies@,
            ),
            res is Ok ==> final(self)@.dag.dependencies.len() == old(self)@.dag.dependencies.len()
                + dependencies@.len(),
            res is Ok ==> forall|k: int|
                0 <= k < old(self)@.dag.dependencies.len() ==> #[trigger] final(self)@.dag.dependencies[k] == old(self)@.dag.dependencies[k],
            res is Ok ==> forall|k: int|
                #![trigger dependencies@[k]]
                0 <= k < dependencies@.len() ==> final(self)@.dag.dependencies[old(self)@.dag.dependencies.len() + k] == (system, dependencies@[k]),
            res is Ok ==> final(self)@.installs.len() == old(self)@.installs.len() + 1,
            res is Ok ==> final(self)@.installs[old(self)@.installs.len() as int] == system,
            res is Ok ==> final(self)@.installs == old(self)@.installs.push(system),
            res matches Err(cycle) ==> exists|k: int|
                #![trigger dependencies@[k]]
                0 <= k < dependencies@.len() && cycle == (DependencyCycle {
                    system,
                    dependency: dependencies@[k],
                }) && final(self)@.dag.dependencies == old(self)@.dag.dependencies
                    + dependency_edges(system, dependencies@).take(k) && final(self)@.dag.systems
                    == with_systems(
                    with_system(old(self)@.dag.systems, system),
                    dependencies@.take(k + 1),
                ) && connected(final(self)@.dag.dependencies, dependencies@[k], system),
            res is Err ==> final(self)@.installs == old(self)@.installs,
    {
        let ghost old_view = self@;
        self.dependency_set.add_alias(&system, identity);
        let result = self.dependency_set.add_dependency_set(&system, dependencies);
        proof {
            lemma_with_system(old_view.dag.systems, system);
            let base = with_system(old_view.dag.systems, system);
            if result is Ok {
                lemma_with_systems(base, dependencies@);
            } else {
                let k = choose|k: int|
                    #![trigger dependencies@[k]]
                    0 <= k < dependencies@.len() && self@.dag.systems == with_systems(
                        base,
                        dependencies@.take(k + 1),
                    );
                lemma_with_systems(base, dependencies@.take(k + 1));
            }
            assert forall|i: int| 0 <= i < self.installs@.len() implies self@.dag.systems.contains(
                #[trigger] self.installs@[i],
            ) by {
                assert(old_view.dag.systems.contains(old_view.installs[i]));
            }
        }
        match result {
            Ok(()) => {
                self.installs.push(system);
                proof {
                    assert forall|i: int|
                        0 <= i < self.installs@.len() implies self@.dag.systems.contains(
                        #[trigger] self.installs@[i],
                    ) by {
                        if i < self.installs@.len() - 1 {
                            assert(old_view.dag.systems.contains(old_view.installs[i]));
                        }
                    }
                }
                Ok(())
            },
            Err(cycle) => Err(cycle),
        }
    }

    /// The install plan: every registered system, in the order of
    /// registration, with its dispatch priority. Each system is planned with a
    /// strictly lower priority than every system it depends on.
    pub fn apply(self) -> (plan: Vec<Install>)
        requires
            self.wf(),
        ensures
            plan@ == install_plan(self@),
            plan@.len() == self@.installs.len(),
            forall|i: int|
                0 <= i < self@.installs.len() ==> #[trigger] plan@[i].system == self@.installs[i]
                    && plan@[i].priority == priority(self@.dag, self@.installs[i]),
            forall|i: int, j: int|
                0 <= i < plan@.len() && 0 <= j < plan@.len() && self@.dag.dependencies.contains(
                    (plan@[i].system, plan@[j].system),
                ) ==> #[trigger] plan@[j].priority > #[trigger] plan@[i].priority,
    {
        proof {
            self.lemma_wf();
        }
        let ghost view = self@;
        let installs = self.installs;
        let map = PriorityMap::from(self.dependency_set);
        let mut plan: Vec<Install> = Vec::new();
        let mut i: usize = 0;
        while i < installs.len()
            invariant
                view.dag.well_formed(),
                view.dag.systems.len() <= i32::MAX,
                installs@ == view.installs,
                map@ == priorities(view.dag),
                forall|k: int|
                    0 <= k < view.installs.len() ==> view.dag.systems.contains(
                        #[trigger] view.installs[k],
                    ),
                i <= installs@.len(),
                plan@ == install_plan(view).take(i as int),
            decreases installs@.len() - i,
        {
            let system: SystemDependency = installs[i];
            assert(view.dag.systems.contains(view.installs[i as int]));
            let priority: i32 = match map.get(&system) {
                Some(p) => p,
                None => {
                    proof {
                        assert(false);
                    }
                    0
                },
            };
            plan.push(Install { system, priority });
            proof {
                assert(install_plan(view).take(i + 1) == install_plan(view).take(i as int).push(
                    Install { system, priority },
                ));
            }
            i = i + 1;
        }
        proof {
            assert(install_plan(view).take(installs@.len() as int) == install_plan(view));
            lemma_install_plan(view);
            assert forall|i: int| 0 <= i < view.installs.len() implies #[trigger] plan@[i].system
                == view.installs[i] && plan@[i].priority == priority(view.dag, view.installs[i]) by {
                crate::priority::lemma_priority_range(view.dag, view.installs[i]);
            }
            assert forall|i: int, j: int|
                0 <= i < plan@.len() && 0 <= j < plan@.len() && view.dag.dependencies.contains(
                    (plan@[i].system, plan@[j].system),
                ) implies #[trigger] plan@[j].priority > #[trigger] plan@[i].priority by {
                lemma_dependency_first(view.dag, plan@[i].system, plan@[j].system);
                crate::priority::lemma_priority_range(view.dag, plan@[i].system);
                crate::priority::lemma_priority_range(view.dag, plan@[j].system);
            }
        }
        plan
    }
    /// The number of systems in the dependency graph.
    pub fn system_count(&self) -> (n: usize)
        ensures
            n == self@.dag.systems.len(),
    {
        self.dependency_set.systems().len()
    }

    /// The number of dependency edges in the dependency graph.
    pub fn dependency_count(&self) -> (n: usize)
        ensures
            n == self@.dag.dependencies.len(),
    {
        self.dependency_set.dependency_count()
    }
}

} // verus!

use depend::dag::{Dag, DependencyCycle};
use depend::priority::PriorityMap;
use depend::system::{AutoInstaller, Install};

const MOCK_1: u64 = 1;
const MOCK_2: u64 = 2;
const MOCK_3: u64 = 3;
const MOCK_4: u64 = 4;

#[test]
fn test() {
    let mut i = AutoInstaller::new();

    i.auto_install(MOCK_1, String::from("tests::MockSystem1"), &[]).unwrap();
    i.auto_install(MOCK_2, String::from("tests::MockSystem2"), &[]).unwrap();
    i.auto_install(MOCK_3, String::from("tests::MockSystem3"), &[MOCK_2, MOCK_4]).unwrap();
    i.auto_install(MOCK_4, String::from("tests::MockSystem4"), &[]).unwrap();

    let plan = i.apply();

    assert_eq!(
        plan,
        vec![
            Install { system: MOCK_1, priority: 0 },
            Install { system: MOCK_2, priority: 0 },
            Install { system: MOCK_3, priority: -1 },
            Install { system: MOCK_4, priority: 0 },
        ]
    );
}

#[test]
fn plan_keeps_registration_order_and_chains() {
    let mut i = AutoInstaller::new();
    // 10 depends on 20, 20 on 30: a chain of two steps below 10
    i.auto_install(10, String::from("top"), &[20]).unwrap();
    i.auto_install(20, String::from("middle"), &[30]).unwrap();
    i.auto_install(30, String::from("bottom"), &[]).unwrap();
    let plan = i.apply();
    assert_eq!(
        plan,
        vec![
            Install { system: 10, priority: -2 },
            Install { system: 20, priority: -1 },
            Install { system: 30, priority: 0 },
        ]
    );
}

#[test]
fn diamond_takes_the_longest_chain() {
    let mut i = AutoInstaller::new();
    i.auto_install(1, String::from("a"), &[2, 3]).unwrap();
    i.auto_install(2, String::from("b"), &[4]).unwrap();
    i.auto_install(3, String::from("c"), &[2]).unwrap();
    i.auto_install(4, String::from("d"), &[]).unwrap();
    let plan = i.apply();
    // 1 -> 3 -> 2 -> 4 is the longest chain from 1
    assert_eq!(
        plan,
        vec![
            Install { system: 1, priority: -3 },
            Install { system: 2, priority: -1 },
            Install { system: 3, priority: -2 },
            Install { system: 4, priority: 0 },
        ]
    );
}

#[test]
fn cycle_is_refused_and_system_not_queued() {
    let mut i = AutoInstaller::new();
    i.auto_install(1, String::from("a"), &[2]).unwrap();
    let refused = i.auto_install(2, String::from("b"), &[3, 1]);
    assert_eq!(refused, Err(DependencyCycle { system: 2, dependency: 1 }));
    let dag = i.take_dag();
    // the edge to 3 was accepted before the refused one
    assert_eq!(dag.dependency_count(), 2);
    assert_eq!(dag.systems(), &vec![1u64, 2, 3]);
}

#[test]
fn self_dependency_is_a_cycle() {
    let mut i = AutoInstaller::new();
    assert_eq!(
        i.auto_install(7, String::from("loop"), &[7]),
        Err(DependencyCycle { system: 7, dependency: 7 })
    );
    assert_eq!(i.apply(), vec![]);
}

#[test]
fn dependency_that_is_never_installed_still_orders() {
    let mut i = AutoInstaller::new();
    i.auto_install(5, String::from("user"), &[6]).unwrap();
    assert_eq!(i.apply(), vec![Install { system: 5, priority: -1 }]);
}

#[test]
fn installing_twice_plans_twice() {
    let mut i = AutoInstaller::new();
    i.auto_install(1, String::from("a"), &[]).unwrap();
    i.auto_install(1, String::from("a again"), &[]).unwrap();
    let dag_plan = i.apply();
    assert_eq!(
        dag_plan,
        vec![Install { system: 1, priority: 0 }, Install { system: 1, priority: 0 }]
    );
}

#[test]
fn aliases_keep_the_latest_identity() {
    let mut i = AutoInstaller::new();
    i.auto_install(1, String::from("first"), &[]).unwrap();
    i.auto_install(1, String::from("second"), &[]).unwrap();
    let dag = i.take_dag();
    assert_eq!(dag.alias(&1), Some(&String::from("second")));
    assert_eq!(dag.alias(&2), None);
}

#[test]
fn dag_add_system_is_idempotent() {
    let mut dag = Dag::new();
    dag.add_system(&3);
    dag.add_system(&3);
    dag.add_system(&1);
    assert_eq!(dag.systems(), &vec![3u64, 1]);
    assert_eq!(dag.dependency_count(), 0);
}

#[test]
fn dag_dependency_set_adds_missing_systems() {
    let mut dag = Dag::new();
    assert_eq!(dag.add_dependency_set(&1, &[2, 3, 2]), Ok(()));
    assert_eq!(dag.systems(), &vec![1u64, 2, 3]);
    assert_eq!(dag.dependency_count(), 3);
    let (a, b) = dag.dependency_positions(1);
    assert_eq!((a, b), (0, 2));
}

#[test]
fn dag_refuses_longer_cycle() {
    let mut dag = Dag::new();
    assert_eq!(dag.add_dependency_set(&1, &[2]), Ok(()));
    assert_eq!(dag.add_dependency_set(&2, &[3]), Ok(()));
    assert_eq!(
        dag.add_dependency_set(&3, &[1]),
        Err(DependencyCycle { system: 3, dependency: 1 })
    );
    assert_eq!(dag.dependency_count(), 2);
}

#[test]
fn priority_map_of_dag() {
    let mut dag = Dag::new();
    dag.add_dependency_set(&1, &[2]).unwrap();
    dag.add_system(&9);
    let map = PriorityMap::from(dag);
    assert_eq!(map.get(&1), Some(-1));
    assert_eq!(map.get(&2), Some(0));
    assert_eq!(map.get(&9), Some(0));
    assert_eq!(map.get(&4), None);
}

#[test]
fn empty_installer_plans_nothing() {
    let i = AutoInstaller::new();
    assert_eq!(i.apply(), vec![]);
}

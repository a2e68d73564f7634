use depend::example::{
    Flags, SomeCommonData, SomeOtherSystem, SomeSystem, SomeSystemData, SomeThirdSystem,
};
use depend::hotload::ReloadWatch;

#[test]
fn example_resources_start_values() {
    assert_eq!(SomeSystemData::new().num, 10);
    assert_eq!(SomeCommonData::new().oi, 5);
    let _ = SomeSystem::new();
    let _ = SomeThirdSystem::new();
}

#[test]
fn other_system_says_goodbye_and_counts() {
    let mut system = SomeOtherSystem::new();
    let mut data = SomeCommonData::new();
    assert_eq!(system.farewell(&mut data), 5);
    assert_eq!(system.farewell(&mut data), 6);
    assert_eq!(data.oi, 7);
}

#[test]
fn flags_are_not_known() {
    assert_eq!(Flags::get_flag::<usize>("threads"), None);
}

#[test]
fn reload_only_when_newer() {
    let mut watch = ReloadWatch::new(100);
    assert!(!watch.should_reload(100));
    assert!(!watch.should_reload(50));
    assert!(watch.should_reload(101));
    assert_eq!(watch.last_modified, 101);
    assert!(!watch.should_reload(101));
}

use virtual_display_driver_cli::mode::Mode;
use virtual_display_driver_cli::monitor::Monitor;
use virtual_display_driver_cli::registry::{Mutation, Registry, RegistryError};

fn monitor(id: u32) -> Monitor {
    Monitor { id, enabled: true, name: None, modes: Vec::new() }
}

fn named(id: u32, name: &str, modes: &[&str]) -> Monitor {
    Monitor {
        id,
        enabled: false,
        name: Some(name.to_string()),
        modes: modes.iter().map(|text| Mode::parse(text).unwrap()).collect(),
    }
}

fn registry(ids: &[u32]) -> Registry {
    Registry::from_monitors(&ids.iter().map(|id| monitor(*id)).collect())
}

fn ids_of(registry: &Registry) -> Vec<u32> {
    registry.monitors().iter().map(|monitor| monitor.id).collect()
}

#[test]
fn new_id_fills_the_gap() {
    assert_eq!(registry(&[0, 1, 3]).new_id(None), Ok(2));
}

#[test]
fn new_id_starts_at_zero() {
    assert_eq!(Registry::new().new_id(None), Ok(0));
    assert_eq!(registry(&[1, 2]).new_id(None), Ok(0));
    assert_eq!(registry(&[5, 0]).new_id(None), Ok(1));
}

#[test]
fn new_id_follows_a_full_run() {
    assert_eq!(registry(&[3, 1, 0, 2]).new_id(None), Ok(4));
}

#[test]
fn new_id_grants_free_request() {
    assert_eq!(registry(&[0, 1, 3]).new_id(Some(7)), Ok(7));
    assert_eq!(registry(&[0, 1, 3]).new_id(Some(2)), Ok(2));
    assert_eq!(Registry::new().new_id(Some(u32::MAX)), Ok(u32::MAX));
}

#[test]
fn new_id_refuses_taken_request() {
    assert_eq!(registry(&[0, 1, 3]).new_id(Some(3)), Err(RegistryError::Conflict(3)));
}

#[test]
fn validate_names_missing_id() {
    assert_eq!(
        registry(&[1, 2]).validate_has_ids(&vec![1, 2, 5]),
        Err(RegistryError::NotFound(vec![5]))
    );
}

#[test]
fn validate_names_all_missing_ids() {
    assert_eq!(
        registry(&[1, 2]).validate_has_ids(&vec![9, 1, 5, 2, 7]),
        Err(RegistryError::NotFound(vec![9, 5, 7]))
    );
}

#[test]
fn validate_accepts_known_ids() {
    assert_eq!(registry(&[1, 2]).validate_has_ids(&vec![2, 1, 2]), Ok(()));
    assert_eq!(registry(&[1, 2]).validate_has_ids(&Vec::new()), Ok(()));
    assert_eq!(Registry::new().validate_has_ids(&Vec::new()), Ok(()));
}

#[test]
fn get_returns_the_monitor() {
    let registry = Registry::from_monitors(&vec![monitor(4), named(9, "desk", &["1920x1080@60"])]);
    assert_eq!(registry.get(9), Ok(named(9, "desk", &["1920x1080@60"])));
    assert_eq!(registry.get(4), Ok(monitor(4)));
    assert!(registry.contains(4));
    assert!(!registry.contains(5));
}

#[test]
fn get_unknown_id_fails() {
    assert_eq!(registry(&[1, 2]).get(3), Err(RegistryError::NotFound(vec![3])));
}

#[test]
fn notify_replaces_and_creates() {
    let mut registry = registry(&[1, 2]);
    registry.notify(&vec![named(2, "left", &["800x600"]), named(7, "right", &[])]);
    assert_eq!(ids_of(&registry), vec![1, 2, 7]);
    assert_eq!(registry.get(2), Ok(named(2, "left", &["800x600"])));
    assert_eq!(registry.get(7), Ok(named(7, "right", &[])));
    assert_eq!(registry.get(1), Ok(monitor(1)));
}

#[test]
fn notify_last_entry_of_an_id_counts() {
    let mut registry = Registry::new();
    registry.notify(&vec![named(3, "first", &[]), monitor(4), named(3, "second", &[])]);
    assert_eq!(ids_of(&registry), vec![3, 4]);
    assert_eq!(registry.get(3), Ok(named(3, "second", &[])));
}

#[test]
fn snapshot_keeps_one_monitor_per_id() {
    let registry = Registry::from_monitors(&vec![named(3, "first", &[]), named(3, "second", &[])]);
    assert_eq!(registry.monitors().len(), 1);
    assert_eq!(registry.get(3), Ok(named(3, "second", &[])));
}

#[test]
fn remove_deletes_the_given_ids() {
    let mut registry = registry(&[1, 2, 3, 4]);
    registry.remove(&vec![4, 2, 9]);
    assert_eq!(ids_of(&registry), vec![1, 3]);
}

#[test]
fn remove_all_clears() {
    let mut registry = registry(&[1, 2, 3]);
    registry.remove_all();
    assert_eq!(registry.monitors().len(), 0);
    assert_eq!(registry.new_id(None), Ok(0));
}

#[test]
fn apply_performs_each_mutation() {
    let mut registry = registry(&[1, 2]);
    registry.apply(&Mutation::Notify(vec![monitor(5)]));
    assert_eq!(ids_of(&registry), vec![1, 2, 5]);
    registry.apply(&Mutation::Remove(vec![1]));
    assert_eq!(ids_of(&registry), vec![2, 5]);
    registry.apply(&Mutation::RemoveAll);
    assert_eq!(ids_of(&registry), Vec::<u32>::new());
}

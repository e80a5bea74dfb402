use virtual_display_driver_cli::algebra::RemoveError;
use virtual_display_driver_cli::command::{
    add_mode, disable, enable, remove, remove_all, remove_mode, set_enabled, RemoveModeError,
};
use virtual_display_driver_cli::mode::Mode;
use virtual_display_driver_cli::monitor::Monitor;
use virtual_display_driver_cli::registry::{Mutation, Registry, RegistryError};

fn parsed(texts: &[&str]) -> Vec<Mode> {
    texts.iter().map(|text| Mode::parse(text).unwrap()).collect()
}

fn monitor(id: u32, enabled: bool, modes: &[&str]) -> Monitor {
    Monitor { id, enabled, name: Some("panel".to_string()), modes: parsed(modes) }
}

fn store() -> Registry {
    Registry::from_monitors(&vec![
        monitor(0, true, &["1920x1080@60"]),
        monitor(1, false, &["1280x720@30/60", "800x600"]),
        monitor(3, true, &[]),
    ])
}

fn ids_of(registry: &Registry) -> Vec<u32> {
    registry.monitors().iter().map(|monitor| monitor.id).collect()
}

#[test]
fn enable_on_enabled_monitor_sends_nothing() {
    let mut registry = store();
    let mut sent: Vec<Mutation> = Vec::new();
    let (outcome, mutation) = enable(&registry, 0).unwrap();
    if let Some(change) = mutation {
        registry.apply(&change);
        sent.push(change);
    }
    assert!(!outcome.toggled);
    assert_eq!(outcome.monitor, monitor(0, true, &["1920x1080@60"]));
    assert!(sent.is_empty());
    assert_eq!(registry, store());
}

#[test]
fn enable_on_disabled_monitor_notifies() {
    let mut registry = store();
    let (outcome, mutation) = enable(&registry, 1).unwrap();
    assert!(outcome.toggled);
    assert_eq!(outcome.monitor, monitor(1, true, &["1280x720@30/60", "800x600"]));
    assert_eq!(
        mutation,
        Some(Mutation::Notify(vec![monitor(1, true, &["1280x720@30/60", "800x600"])]))
    );
    registry.apply(&mutation.unwrap());
    assert_eq!(registry.get(1).unwrap().enabled, true);
}

#[test]
fn disable_toggles_only_enabled_monitors() {
    let registry = store();
    let (outcome, mutation) = disable(&registry, 0).unwrap();
    assert!(outcome.toggled);
    assert_eq!(mutation, Some(Mutation::Notify(vec![monitor(0, false, &["1920x1080@60"])])));
    let (outcome, mutation) = disable(&registry, 1).unwrap();
    assert!(!outcome.toggled);
    assert_eq!(mutation, None);
    assert_eq!(outcome.monitor.enabled, false);
}

#[test]
fn set_enabled_on_unknown_monitor_fails() {
    assert_eq!(set_enabled(&store(), 2, true), Err(RegistryError::NotFound(vec![2])));
    assert_eq!(enable(&store(), 9), Err(RegistryError::NotFound(vec![9])));
    assert_eq!(disable(&store(), 9), Err(RegistryError::NotFound(vec![9])));
}

#[test]
fn add_stores_modes_verbatim() {
    let mut registry = store();
    let modes = parsed(&["1920x1080", "1920x1080@60"]);
    let (id, mutation) = virtual_display_driver_cli::command::add(
        &registry,
        None,
        Some("new".to_string()),
        false,
        modes,
    )
    .unwrap();
    assert_eq!(id, 2);
    registry.apply(&mutation);
    let stored = registry.get(2).unwrap();
    assert_eq!(stored.modes, parsed(&["1920x1080", "1920x1080@60"]));
    assert_eq!(stored.modes.len(), 2);
    assert_eq!(stored.enabled, true);
    assert_eq!(stored.name, Some("new".to_string()));
}

#[test]
fn add_mode_merges_modes() {
    let mut registry = Registry::new();
    let (id, mutation) = virtual_display_driver_cli::command::add(
        &registry,
        None,
        None,
        false,
        parsed(&["1920x1080", "1920x1080@60"]),
    )
    .unwrap();
    registry.apply(&mutation);
    let (modes, mutation) = add_mode(&registry, id, &parsed(&["1280x720", "1920x1080@120"])).unwrap();
    assert_eq!(modes, parsed(&["1920x1080@60/120", "1280x720"]));
    registry.apply(&mutation);
    assert_eq!(registry.get(id).unwrap().modes, parsed(&["1920x1080@60/120", "1280x720"]));
}

#[test]
fn add_with_requested_id() {
    let registry = store();
    let (id, mutation) = virtual_display_driver_cli::command::add(
        &registry,
        Some(7),
        None,
        true,
        Vec::new(),
    )
    .unwrap();
    assert_eq!(id, 7);
    assert_eq!(
        mutation,
        Mutation::Notify(vec![Monitor { id: 7, enabled: false, name: None, modes: Vec::new() }])
    );
}

#[test]
fn add_with_taken_id_fails() {
    let result = virtual_display_driver_cli::command::add(
        &store(),
        Some(1),
        None,
        false,
        parsed(&["1920x1080"]),
    );
    assert_eq!(result, Err(RegistryError::Conflict(1)));
}

#[test]
fn add_mode_to_unknown_monitor_fails() {
    assert_eq!(
        add_mode(&store(), 2, &parsed(&["1920x1080"])),
        Err(RegistryError::NotFound(vec![2]))
    );
}

#[test]
fn add_mode_keeps_the_rest_of_the_monitor() {
    let (modes, mutation) = add_mode(&store(), 1, &parsed(&["800x600@75", "640x480"])).unwrap();
    assert_eq!(modes, parsed(&["1280x720@30/60", "800x600@75", "640x480"]));
    assert_eq!(
        mutation,
        Mutation::Notify(vec![monitor(1, false, &["1280x720@30/60", "800x600@75", "640x480"])])
    );
}

#[test]
fn remove_mode_removes_a_rate() {
    let target = Mode::parse("1280x720@30").unwrap();
    let (modes, mutation) = remove_mode(&store(), 1, &target).unwrap();
    assert_eq!(modes, parsed(&["1280x720@60", "800x600"]));
    assert_eq!(mutation, Mutation::Notify(vec![monitor(1, false, &["1280x720@60", "800x600"])]));
}

#[test]
fn remove_mode_removes_a_resolution() {
    let target = Mode::parse("1280x720").unwrap();
    let (modes, _) = remove_mode(&store(), 1, &target).unwrap();
    assert_eq!(modes, parsed(&["800x600"]));
}

#[test]
fn remove_mode_reports_each_failure() {
    let registry = store();
    assert_eq!(
        remove_mode(&registry, 2, &Mode::parse("1280x720").unwrap()),
        Err(RemoveModeError::Registry(RegistryError::NotFound(vec![2])))
    );
    assert_eq!(
        remove_mode(&registry, 3, &Mode::parse("1280x720").unwrap()),
        Err(RemoveModeError::Mode(RemoveError::ModeNotFound))
    );
    assert_eq!(
        remove_mode(&registry, 1, &Mode::parse("1280x720@60/144").unwrap()),
        Err(RemoveModeError::Mode(RemoveError::RateNotFound(vec![144])))
    );
}

#[test]
fn remove_with_unknown_id_deletes_nothing() {
    let mut registry = Registry::from_monitors(&vec![monitor(7, true, &[]), monitor(9, true, &[])]);
    let result = remove(&registry, vec![7, 8]);
    assert_eq!(result, Err(RegistryError::NotFound(vec![8])));
    if let Ok(mutation) = result {
        registry.apply(&mutation);
    }
    assert_eq!(ids_of(&registry), vec![7, 9]);
    assert!(registry.contains(7));
}

#[test]
fn remove_with_known_ids_deletes_them() {
    let mut registry = store();
    let mutation = remove(&registry, vec![3, 0]).unwrap();
    assert_eq!(mutation, Mutation::Remove(vec![3, 0]));
    registry.apply(&mutation);
    assert_eq!(ids_of(&registry), vec![1]);
}

#[test]
fn remove_all_clears_the_registry() {
    let mut registry = store();
    let mutation = remove_all();
    assert_eq!(mutation, Mutation::RemoveAll);
    registry.apply(&mutation);
    assert_eq!(ids_of(&registry), Vec::<u32>::new());
}

//! The commands on the registry. Each one looks at the registry as it is and
//! decides what is to be sent to the driver host; nothing is sent from here.

use crate::algebra::{
    has_resolution, merge, merged, missing_rates, remove as remove_from_modes, removed, RemoveError,
};
use crate::mode::{views, Mode, ModeView};
use crate::monitor::{clone_modes, name_view, Id, Monitor, MonitorView};
use crate::rates::ascending;
use crate::registry::{
    absent_ids, id_granted, id_refused, Mutation, MutationView, Registry, RegistryError,
    RegistryFailure,
};
use vstd::prelude::*;

verus! {

/// `monitor` with `enabled` in place of its enabled flag.
pub open spec fn with_enabled(monitor: MonitorView, enabled: bool) -> MonitorView {
    MonitorView { id: monitor.id, enabled, name: monitor.name, modes: monitor.modes }
}

/// `monitor` with `modes` in place of its modes.
pub open spec fn with_modes(monitor: MonitorView, modes: Seq<ModeView>) -> MonitorView {
    MonitorView { id: monitor.id, enabled: monitor.enabled, name: monitor.name, modes }
}

/// What enabling or disabling a monitor came to.
#[derive(Debug, PartialEq, Eq)]
pub struct EnableDisableOutcome {
    /// The monitor in the requested state.
    pub monitor: Monitor,
    /// Whether the state had to change.
    pub toggled: bool,
}

/// Why a mode could not be removed from a monitor.
#[derive(Debug, PartialEq, Eq)]
pub enum RemoveModeError {
    /// The monitor is not in the registry.
    Registry(RegistryError),
    /// The monitor does not have what was to be removed.
    Mode(RemoveError),
}

/// Adds a monitor: with the requested identifier if that is free, else with
/// the smallest free one; enabled unless `disabled`; with `modes` exactly as
/// given, a resolution that occurs twice included.
pub fn add(
    registry: &Registry,
    id: Option<Id>,
    name: Option<String>,
    disabled: bool,
    modes: Vec<Mode>,
) -> (result: Result<(Id, Mutation), RegistryError>)
    ensures
        match result {
            Ok((granted, mutation)) => {
                &&& id_granted(registry@.dom(), id, granted)
                &&& mutation@ == MutationView::Notify(
                    seq![
                        MonitorView {
                            id: granted,
                            enabled: !disabled,
                            name: name_view(name),
                            modes: views(modes@),
                        },
                    ],
                )
            },
            Err(error) => id_refused(registry@.dom(), id, error@),
        },
{
    let granted = match registry.new_id(id) {
        Ok(granted) => granted,
        Err(error) => {
            return Err(error);
        },
    };
    let monitor = Monitor { id: granted, enabled: !disabled, name, modes };
    let ghost view = monitor@;
    let mut batch: Vec<Monitor> = Vec::new();
    batch.push(monitor);
    assert(batch@.map_values(|m: Monitor| m@) =~= seq![view]);
    Ok((granted, Mutation::Notify(batch)))
}

/// Adds modes to the monitor `id`: its modes and `modes`, merged by
/// resolution, become its modes.
pub fn add_mode(registry: &Registry, id: Id, modes: &Vec<Mode>) -> (result: Result<
    (Vec<Mode>, Mutation),
    RegistryError,
>)
    ensures
        match result {
            Ok((new_modes, mutation)) => {
                &&& registry@.dom().contains(id)
                &&& views(new_modes@) == merged(registry@[id].modes + views(modes@))
                &&& mutation@ == MutationView::Notify(
                    seq![with_modes(registry@[id], views(new_modes@))],
                )
            },
            Err(error) => !registry@.dom().contains(id) && error@ == RegistryFailure::NotFound(
                seq![id],
            ),
        },
{
    let monitor = match registry.get(id) {
        Ok(monitor) => monitor,
        Err(error) => {
            return Err(error);
        },
    };
    let mut all: Vec<Mode> = clone_modes(&monitor.modes);
    let mut i: usize = 0;
    while i < modes.len()
        invariant
            i <= modes.len(),
            views(all@) == views(monitor.modes@) + views(modes@.take(i as int)),
        decreases modes.len() - i,
    {
        let ghost before = views(all@);
        all.push(modes[i].clone());
        assert(views(all@) =~= before.push(modes@[i as int]@));
        assert(views(modes@.take(i + 1)) =~= views(modes@.take(i as int)).push(modes@[i as int]@));
        assert(views(all@) =~= views(monitor.modes@) + views(modes@.take(i + 1)));
        i = i + 1;
    }
    assert(modes@.take(i as int) =~= modes@);
    let new_modes = merge(&all);
    let updated = Monitor {
        id: monitor.id,
        enabled: monitor.enabled,
        name: monitor.name,
        modes: clone_modes(&new_modes),
    };
    let ghost view = updated@;
    let mut batch: Vec<Monitor> = Vec::new();
    batch.push(updated);
    assert(batch@.map_values(|m: Monitor| m@) =~= seq![view]);
    Ok((new_modes, Mutation::Notify(batch)))
}

/// Removes `target` from the modes of the monitor `id`: its whole resolution
/// if `target` names no rates, else the rates it names.
pub fn remove_mode(registry: &Registry, id: Id, target: &Mode) -> (result: Result<
    (Vec<Mode>, Mutation),
    RemoveModeError,
>)
    ensures
        match result {
            Ok((new_modes, mutation)) => {
                &&& registry@.dom().contains(id)
                &&& has_resolution(registry@[id].modes, target@.key())
                &&& missing_rates(registry@[id].modes, target@) == Set::<u32>::empty()
                &&& views(new_modes@) == removed(registry@[id].modes, target@)
                &&& mutation@ == MutationView::Notify(
                    seq![with_modes(registry@[id], views(new_modes@))],
                )
            },
            Err(RemoveModeError::Registry(error)) => !registry@.dom().contains(id) && error@
                == RegistryFailure::NotFound(seq![id]),
            Err(RemoveModeError::Mode(RemoveError::ModeNotFound)) => registry@.dom().contains(id)
                && !has_resolution(registry@[id].modes, target@.key()),
            Err(RemoveModeError::Mode(RemoveError::RateNotFound(missing))) => {
                &&& registry@.dom().contains(id)
                &&& has_resolution(registry@[id].modes, target@.key())
                &&& missing_rates(registry@[id].modes, target@) != Set::<u32>::empty()
                &&& missing@ == ascending(missing_rates(registry@[id].modes, target@))
            },
        },
{
    let monitor = match registry.get(id) {
        Ok(monitor) => monitor,
        Err(error) => {
            return Err(RemoveModeError::Registry(error));
        },
    };
    let new_modes = match remove_from_modes(&monitor.modes, target) {
        Ok(new_modes) => new_modes,
        Err(error) => {
            return Err(RemoveModeError::Mode(error));
        },
    };
    let updated = Monitor {
        id: monitor.id,
        enabled: monitor.enabled,
        name: monitor.name,
        modes: clone_modes(&new_modes),
    };
    let ghost view = updated@;
    let mut batch: Vec<Monitor> = Vec::new();
    batch.push(updated);
    assert(batch@.map_values(|m: Monitor| m@) =~= seq![view]);
    Ok((new_modes, Mutation::Notify(batch)))
}

/// Brings the monitor `id` into the state `enabled`. A monitor that is in that
/// state already is left alone: nothing is to be sent, and `toggled` is false.
pub fn set_enabled(registry: &Registry, id: Id, enabled: bool) -> (result: Result<
    (EnableDisableOutcome, Option<Mutation>),
    RegistryError,
>)
    ensures
        match result {
            Ok((outcome, mutation)) => {
                &&& registry@.dom().contains(id)
                &&& outcome.toggled == (registry@[id].enabled != enabled)
                &&& outcome.monitor@ == with_enabled(registry@[id], enabled)
                &&& match mutation {
                    Some(change) => outcome.toggled && change@ == MutationView::Notify(
                        seq![outcome.monitor@],
                    ),
                    None => !outcome.toggled,
                }
            },
            Err(error) => !registry@.dom().contains(id) && error@ == RegistryFailure::NotFound(
                seq![id],
            ),
        },
{
    let mut monitor = match registry.get(id) {
        Ok(monitor) => monitor,
        Err(error) => {
            return Err(error);
        },
    };
    let should_toggle = enabled != monitor.enabled;
    if should_toggle {
        monitor.enabled = enabled;
        let sent = monitor.clone();
        let mut batch: Vec<Monitor> = Vec::new();
        batch.push(sent);
        assert(batch@.map_values(|m: Monitor| m@) =~= seq![monitor@]);
        Ok((EnableDisableOutcome { monitor, toggled: true }, Some(Mutation::Notify(batch))))
    } else {
        Ok((EnableDisableOutcome { monitor, toggled: false }, None))
    }
}

/// Enables the monitor `id`, unless it is enabled already.
pub fn enable(registry: &Registry, id: Id) -> (result: Result<
    (EnableDisableOutcome, Option<Mutation>),
    RegistryError,
>)
    ensures
        match result {
            Ok((outcome, mutation)) => {
                &&& registry@.dom().contains(id)
                &&& outcome.toggled == !registry@[id].enabled
                &&& outcome.monitor@ == with_enabled(registry@[id], true)
                &&& match mutation {
                    Some(change) => outcome.toggled && change@ == MutationView::Notify(
                        seq![outcome.monitor@],
                    ),
                    None => !outcome.toggled,
                }
            },
            Err(error) => !registry@.dom().contains(id) && error@ == RegistryFailure::NotFound(
                seq![id],
            ),
        },
{
    set_enabled(registry, id, true)
}

/// Disables the monitor `id`, unless it is disabled already.
pub fn disable(registry: &Registry, id: Id) -> (result: Result<
    (EnableDisableOutcome, Option<Mutation>),
    RegistryError,
>)
    ensures
        match result {
            Ok((outcome, mutation)) => {
                &&& registry@.dom().contains(id)
                &&& outcome.toggled == registry@[id].enabled
                &&& outcome.monitor@ == with_enabled(registry@[id], false)
                &&& match mutation {
                    Some(change) => outcome.toggled && change@ == MutationView::Notify(
                        seq![outcome.monitor@],
                    ),
                    None => !outcome.toggled,
                }
            },
            Err(error) => !registry@.dom().contains(id) && error@ == RegistryFailure::NotFound(
                seq![id],
            ),
        },
{
    set_enabled(registry, id, false)
}

/// Removes the monitors `ids`, all or none: if one of them is not in the
/// registry, nothing is to be deleted and all that are missing are named.
///
/// The decision holds for the registry as it is handed in. Another client may
/// delete one of the monitors before the driver host sees the mutation; the
/// check and the deletion are not one step.
pub fn remove(registry: &Registry, ids: Vec<Id>) -> (result: Result<Mutation, RegistryError>)
    ensures
        match result {
            Ok(mutation) => absent_ids(registry@.dom(), ids@).len() == 0 && mutation@
                == MutationView::Remove(ids@),
            Err(error) => absent_ids(registry@.dom(), ids@).len() > 0 && error@
                == RegistryFailure::NotFound(absent_ids(registry@.dom(), ids@)),
        },
{
    match registry.validate_has_ids(&ids) {
        Ok(_) => Ok(Mutation::Remove(ids)),
        Err(error) => Err(error),
    }
}

/// Removes every monitor, whatever the registry holds.
pub fn remove_all() -> (mutation: Mutation)
    ensures
        mutation@ == MutationView::RemoveAll,
{
    Mutation::RemoveAll
}

} // verus!

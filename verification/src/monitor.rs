//! Virtual monitors as the registry holds them.

use crate::mode::{views, Mode, ModeView};
use vstd::prelude::*;
use vstd::string::*;

verus! {

/// The handle by which the registry knows a monitor.
pub type Id = u32;

/// What a monitor is.
pub struct MonitorView {
    pub id: u32,
    pub enabled: bool,
    pub name: Option<Seq<char>>,
    pub modes: Seq<ModeView>,
}

/// A virtual monitor: an identifier, whether it is enabled, an optional
/// label, and the modes it offers, in order.
#[derive(Debug, PartialEq, Eq)]
pub struct Monitor {
    pub id: Id,
    pub enabled: bool,
    pub name: Option<String>,
    pub modes: Vec<Mode>,
}

/// What an optional label is.
pub open spec fn name_view(name: Option<String>) -> Option<Seq<char>> {
    match name {
        Some(text) => Some(text@),
        None => None,
    }
}

impl View for Monitor {
    type V = MonitorView;

    open spec fn view(&self) -> MonitorView {
        MonitorView {
            id: self.id,
            enabled: self.enabled,
            name: name_view(self.name),
            modes: views(self.modes@),
        }
    }
}

/// A copy of `modes`.
pub fn clone_modes(modes: &Vec<Mode>) -> (copy: Vec<Mode>)
    ensures
        views(copy@) == views(modes@),
{
    let mut copy: Vec<Mode> = Vec::new();
    let mut i: usize = 0;
    while i < modes.len()
        invariant
            i <= modes.len(),
            copy.len() == i,
            forall|j: int| 0 <= j < i ==> (#[trigger] copy@[j])@ == modes@[j]@,
        decreases modes.len() - i,
    {
        copy.push(modes[i].clone());
        i = i + 1;
    }
    assert(views(copy@) =~= views(modes@));
    copy
}

impl Clone for Monitor {
    fn clone(&self) -> (copy: Self)
        ensures
            copy@ == self@,
    {
        let name = match &self.name {
            Some(text) => Some(text.clone()),
            None => None,
        };
        Monitor { id: self.id, enabled: self.enabled, name, modes: clone_modes(&self.modes) }
    }
}

} // verus!

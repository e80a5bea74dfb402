//! The registry of virtual monitors: a mapping from identifier to monitor,
//! with identifier allocation, existence checks and the mutations that the
//! driver host applies.

use crate::monitor::{Id, Monitor, MonitorView};
use vstd::prelude::*;

verus! {

/// What a sequence of monitors is, entry by entry.
pub open spec fn monitor_views(monitors: Seq<Monitor>) -> Seq<MonitorView> {
    monitors.map_values(|monitor: Monitor| monitor@)
}

/// Whether no two entries of `monitors` share an identifier.
pub open spec fn distinct_ids(monitors: Seq<MonitorView>) -> bool {
    forall|i: int, j: int|
        0 <= i < j < monitors.len() ==> (#[trigger] monitors[i]).id != (#[trigger] monitors[j]).id
}

/// `base` after each entry of `entries`, in order, has replaced the monitor of
/// its identifier or, where there was none, has been added.
pub open spec fn upserted(base: Map<u32, MonitorView>, entries: Seq<MonitorView>) -> Map<
    u32,
    MonitorView,
>
    decreases entries.len(),
{
    if entries.len() == 0 {
        base
    } else {
        upserted(base, entries.drop_last()).insert(entries.last().id, entries.last())
    }
}

/// The identifiers of `ids` that are not in `known`, in the order and as
/// often as `ids` has them.
pub open spec fn absent_ids(known: Set<u32>, ids: Seq<u32>) -> Seq<u32>
    decreases ids.len(),
{
    if ids.len() == 0 {
        Seq::empty()
    } else {
        let front = absent_ids(known, ids.drop_last());
        if known.contains(ids.last()) {
            front
        } else {
            front.push(ids.last())
        }
    }
}

/// Whether `id` is the smallest identifier that is not in `known`.
pub open spec fn is_least_free(known: Set<u32>, id: u32) -> bool {
    &&& !known.contains(id)
    &&& forall|k: u32| k < id ==> known.contains(k)
}

/// Whether a request for an identifier is granted with `id`: a requested
/// identifier must be free and is then granted itself; without a request the
/// smallest free identifier is granted.
pub open spec fn id_granted(known: Set<u32>, requested: Option<u32>, id: u32) -> bool {
    match requested {
        Some(wanted) => id == wanted && !known.contains(wanted),
        None => is_least_free(known, id),
    }
}

/// Why the registry refused.
pub enum RegistryFailure {
    /// These identifiers are not in the registry.
    NotFound(Seq<u32>),
    /// The requested identifier is taken.
    Conflict(u32),
    /// Every identifier is taken.
    NoFreeId,
}

/// Why the registry refused.
#[derive(Debug, PartialEq, Eq)]
pub enum RegistryError {
    /// These identifiers are not in the registry.
    NotFound(Vec<Id>),
    /// The requested identifier is taken.
    Conflict(Id),
    /// Every identifier is taken.
    NoFreeId,
}

impl View for RegistryError {
    type V = RegistryFailure;

    open spec fn view(&self) -> RegistryFailure {
        match self {
            RegistryError::NotFound(ids) => RegistryFailure::NotFound(ids@),
            RegistryError::Conflict(id) => RegistryFailure::Conflict(*id),
            RegistryError::NoFreeId => RegistryFailure::NoFreeId,
        }
    }
}

/// Whether a request for an identifier is refused with `failure`.
pub open spec fn id_refused(known: Set<u32>, requested: Option<u32>, failure: RegistryFailure) -> bool {
    match requested {
        Some(wanted) => known.contains(wanted) && failure == RegistryFailure::Conflict(wanted),
        None => (forall|k: u32| known.contains(k)) && failure == RegistryFailure::NoFreeId,
    }
}

/// The identifiers that are absent are those of the list that are unknown;
/// none is absent exactly if every identifier of the list is known.
pub proof fn lemma_absent_ids(known: Set<u32>, ids: Seq<u32>)
    ensures
        forall|id: u32| #[trigger]
            absent_ids(known, ids).contains(id) <==> ids.contains(id) && !known.contains(id),
        absent_ids(known, ids).len() == 0 <==> forall|i: int|
            0 <= i < ids.len() ==> known.contains(#[trigger] ids[i]),
    decreases ids.len(),
{
    let out = absent_ids(known, ids);
    if ids.len() > 0 {
        let front = ids.drop_last();
        let last = ids.last();
        lemma_absent_ids(known, front);
        let head = absent_ids(known, front);
        assert forall|id: u32| #[trigger] out.contains(id) <==> ids.contains(id)
            && !known.contains(id) by {
            if out.contains(id) {
                let k = choose|k: int| 0 <= k < out.len() && out[k] == id;
                if k < head.len() {
                    assert(head[k] == id);
                    assert(head.contains(id));
                    let j = choose|j: int| 0 <= j < front.len() && front[j] == id;
                    assert(ids[j] == id);
                } else {
                    assert(ids[ids.len() - 1] == id);
                }
            }
            if ids.contains(id) && !known.contains(id) {
                let j = choose|j: int| 0 <= j < ids.len() && ids[j] == id;
                if j < front.len() {
                    assert(front[j] == id);
                    assert(head.contains(id));
                    let k = choose|k: int| 0 <= k < head.len() && head[k] == id;
                    assert(out[k] == id);
                } else {
                    assert(out[out.len() - 1] == id);
                }
            }
        }
        if out.len() == 0 {
            assert forall|i: int| 0 <= i < ids.len() implies known.contains(#[trigger] ids[i]) by {
                if i < front.len() {
                    assert(front[i] == ids[i]);
                }
            }
        }
        if forall|i: int| 0 <= i < ids.len() ==> known.contains(#[trigger] ids[i]) {
            assert forall|i: int| 0 <= i < front.len() implies known.contains(
                #[trigger] front[i],
            ) by {
                assert(front[i] == ids[i]);
            }
            assert(known.contains(ids[ids.len() - 1]));
        }
    }
}

/// What a batch does to the registry: the identifiers of the batch join
/// those that were there; an identifier of the batch gets the last monitor
/// that the batch has for it; every other monitor stays as it was.
pub proof fn lemma_upserted(base: Map<u32, MonitorView>, entries: Seq<MonitorView>)
    ensures
        forall|id: u32|
            upserted(base, entries).dom().contains(id) <==> base.dom().contains(id) || exists|
                i: int,
            |
                0 <= i < entries.len() && (#[trigger] entries[i]).id == id,
        forall|id: u32|
            base.dom().contains(id) && (forall|i: int|
                0 <= i < entries.len() ==> (#[trigger] entries[i]).id != id) ==> upserted(
                base,
                entries,
            )[id] == base[id],
        forall|i: int|
            0 <= i < entries.len() && (forall|j: int|
                i < j < entries.len() ==> (#[trigger] entries[j]).id != entries[i].id)
                ==> upserted(base, entries)[(#[trigger] entries[i]).id] == entries[i],
    decreases entries.len(),
{
    let all = upserted(base, entries);
    if entries.len() > 0 {
        let front = entries.drop_last();
        let last = entries.last();
        let head = upserted(base, front);
        lemma_upserted(base, front);
        assert forall|id: u32| all.dom().contains(id) <==> base.dom().contains(id) || exists|
            i: int,
        |
            0 <= i < entries.len() && (#[trigger] entries[i]).id == id by {
            if all.dom().contains(id) && !base.dom().contains(id) {
                if id == last.id {
                    assert(entries[entries.len() - 1].id == id);
                } else {
                    assert(head.dom().contains(id));
                    let i = choose|i: int| 0 <= i < front.len() && (#[trigger] front[i]).id == id;
                    assert(entries[i].id == id);
                }
            }
            if exists|i: int| 0 <= i < entries.len() && (#[trigger] entries[i]).id == id {
                let i = choose|i: int| 0 <= i < entries.len() && (#[trigger] entries[i]).id == id;
                if i < front.len() {
                    assert(front[i].id == id);
                }
            }
        }
        assert forall|id: u32|
            base.dom().contains(id) && (forall|i: int|
                0 <= i < entries.len() ==> (#[trigger] entries[i]).id != id) implies all[id]
            == base[id] by {
            assert(entries[entries.len() - 1].id != id);
            assert forall|i: int| 0 <= i < front.len() implies (#[trigger] front[i]).id != id by {
                assert(front[i] == entries[i]);
            }
        }
        assert forall|i: int|
            0 <= i < entries.len() && (forall|j: int|
                i < j < entries.len() ==> (#[trigger] entries[j]).id != entries[i].id) implies all[(
        #[trigger] entries[i]).id] == entries[i] by {
            if i < front.len() {
                assert(front[i] == entries[i]);
                assert(entries[entries.len() - 1].id != entries[i].id);
                assert forall|j: int| i < j < front.len() implies (#[trigger] front[j]).id
                    != front[i].id by {
                    assert(front[j] == entries[j]);
                }
                assert(head[front[i].id] == front[i]);
            }
        }
    }
}

/// A list without repeated identifiers maps each of its identifiers to the entry
/// that has it, and nothing else.
pub proof fn lemma_upserted_listing(monitors: Seq<MonitorView>)
    requires
        distinct_ids(monitors),
    ensures
        forall|id: u32|
            upserted(Map::empty(), monitors).dom().contains(id) <==> exists|i: int|
                0 <= i < monitors.len() && (#[trigger] monitors[i]).id == id,
        forall|i: int|
            0 <= i < monitors.len() ==> upserted(Map::empty(), monitors)[(#[trigger] monitors[i]).id]
                == monitors[i],
{
    let all = upserted(Map::empty(), monitors);
    lemma_upserted(Map::empty(), monitors);
    assert forall|id: u32|
        all.dom().contains(id) <==> exists|i: int|
            0 <= i < monitors.len() && (#[trigger] monitors[i]).id == id by {
        assert(!Map::<u32, MonitorView>::empty().dom().contains(id));
    }
    assert forall|i: int| 0 <= i < monitors.len() implies all[(#[trigger] monitors[i]).id]
        == monitors[i] by {
        assert forall|j: int| i < j < monitors.len() implies (#[trigger] monitors[j]).id
            != monitors[i].id by {}
    }
}

/// What a change to the registry is.
pub enum MutationView {
    /// These monitors, in order, replace or join what is there.
    Notify(Seq<MonitorView>),
    /// The monitors with these identifiers are deleted.
    Remove(Seq<u32>),
    /// Every monitor is deleted.
    RemoveAll,
}

/// A change to the registry, which the driver host applies as a whole.
#[derive(Debug, PartialEq, Eq)]
pub enum Mutation {
    /// These monitors, in order, replace or join what is there.
    Notify(Vec<Monitor>),
    /// The monitors with these identifiers are deleted.
    Remove(Vec<Id>),
    /// Every monitor is deleted.
    RemoveAll,
}

impl View for Mutation {
    type V = MutationView;

    open spec fn view(&self) -> MutationView {
        match self {
            Mutation::Notify(monitors) => MutationView::Notify(monitor_views(monitors@)),
            Mutation::Remove(ids) => MutationView::Remove(ids@),
            Mutation::RemoveAll => MutationView::RemoveAll,
        }
    }
}

/// The registry after a mutation.
pub open spec fn applied(registry: Map<u32, MonitorView>, mutation: MutationView) -> Map<
    u32,
    MonitorView,
> {
    match mutation {
        MutationView::Notify(monitors) => upserted(registry, monitors),
        MutationView::Remove(ids) => registry.remove_keys(ids.to_set()),
        MutationView::RemoveAll => Map::empty(),
    }
}

/// Replacing the entry that has an identifier replaces what the identifier
/// maps to.
proof fn lemma_upserted_update(monitors: Seq<MonitorView>, at: int, m: MonitorView)
    requires
        distinct_ids(monitors),
        0 <= at < monitors.len(),
        monitors[at].id == m.id,
    ensures
        distinct_ids(monitors.update(at, m)),
        upserted(Map::empty(), monitors.update(at, m)) == upserted(Map::empty(), monitors).insert(
            m.id,
            m,
        ),
{
    let after = monitors.update(at, m);
    assert forall|i: int, j: int| 0 <= i < j < after.len() implies (#[trigger] after[i]).id != (
    #[trigger] after[j]).id by {
        assert(after[i].id == monitors[i].id);
        assert(after[j].id == monitors[j].id);
    }
    lemma_upserted_listing(monitors);
    lemma_upserted_listing(after);
    let old_map = upserted(Map::empty(), monitors);
    let new_map = upserted(Map::empty(), after);
    assert forall|id: u32| new_map.dom().contains(id) <==> old_map.insert(m.id, m).dom().contains(
        id,
    ) by {
        if new_map.dom().contains(id) {
            let i = choose|i: int| 0 <= i < after.len() && (#[trigger] after[i]).id == id;
            assert(monitors[i].id == id);
        }
        if old_map.dom().contains(id) {
            let i = choose|i: int| 0 <= i < monitors.len() && (#[trigger] monitors[i]).id == id;
            assert(after[i].id == id);
        }
        if id == m.id {
            assert(after[at].id == id);
        }
    }
    assert forall|id: u32| new_map.dom().contains(id) implies new_map[id] == old_map.insert(
        m.id,
        m,
    )[id] by {
        let i = choose|i: int| 0 <= i < after.len() && (#[trigger] after[i]).id == id;
        assert(new_map[after[i].id] == after[i]);
        if i != at {
            assert(monitors[i].id == id);
            assert(old_map[monitors[i].id] == monitors[i]);
            if i < at {
                assert(monitors[i].id != monitors[at].id);
            } else {
                assert(monitors[at].id != monitors[i].id);
            }
        }
    }
    assert(new_map =~= old_map.insert(m.id, m));
}

/// Whether `ids` holds `id`.
fn holds_id(ids: &Vec<Id>, id: Id) -> (found: bool)
    ensures
        found == ids@.contains(id),
{
    let mut i: usize = 0;
    while i < ids.len()
        invariant
            i <= ids.len(),
            forall|j: int| 0 <= j < i ==> ids@[j] != id,
        decreases ids.len() - i,
    {
        if ids[i] == id {
            return true;
        }
        i = i + 1;
    }
    false
}

/// The monitors that the driver host knows, each under its identifier.
#[derive(Debug, PartialEq, Eq)]
pub struct Registry {
    monitors: Vec<Monitor>,
}

impl View for Registry {
    type V = Map<u32, MonitorView>;

    closed spec fn view(&self) -> Map<u32, MonitorView> {
        upserted(Map::empty(), monitor_views(self.monitors@))
    }
}

impl Registry {
    #[verifier::type_invariant]
    spec fn one_monitor_per_id(&self) -> bool {
        distinct_ids(monitor_views(self.monitors@))
    }

    /// A registry without monitors.
    pub fn new() -> (registry: Self)
        ensures
            registry@ == Map::<u32, MonitorView>::empty(),
    {
        let registry = Registry { monitors: Vec::new() };
        assert(monitor_views(registry.monitors@) =~= Seq::<MonitorView>::empty());
        registry
    }

    /// The registry that a snapshot describes. Where the snapshot has an
    /// identifier more than once, the last entry counts.
    pub fn from_monitors(snapshot: &Vec<Monitor>) -> (registry: Self)
        ensures
            registry@ == upserted(Map::empty(), monitor_views(snapshot@)),
    {
        let mut registry = Registry::new();
        registry.notify(snapshot);
        registry
    }

    /// The position of the monitor with identifier `id`.
    fn position(&self, id: Id) -> (at: Option<usize>)
        ensures
            match at {
                Some(i) => i < self.monitors.len() && self.monitors@[i as int].id == id
                    && self@.dom().contains(id) && self@[id] == self.monitors@[i as int]@,
                None => !self@.dom().contains(id),
            },
    {
        proof {
            use_type_invariant(self);
            lemma_upserted_listing(monitor_views(self.monitors@));
        }
        let mut i: usize = 0;
        while i < self.monitors.len()
            invariant
                i <= self.monitors.len(),
                forall|j: int| 0 <= j < i ==> (#[trigger] monitor_views(self.monitors@)[j]).id != id,
            decreases self.monitors.len() - i,
        {
            if self.monitors[i].id == id {
                proof {
                    use_type_invariant(self);
                    lemma_upserted_listing(monitor_views(self.monitors@));
                    assert(monitor_views(self.monitors@)[i as int].id == id);
                }
                return Some(i);
            }
            i = i + 1;
        }
        None
    }

    /// All monitors, each identifier once.
    pub fn monitors(&self) -> (all: &Vec<Monitor>)
        ensures
            distinct_ids(monitor_views(all@)),
            upserted(Map::empty(), monitor_views(all@)) == self@,
    {
        proof {
            use_type_invariant(self);
        }
        &self.monitors
    }

    /// Whether a monitor has identifier `id`.
    pub fn contains(&self, id: Id) -> (known: bool)
        ensures
            known == self@.dom().contains(id),
    {
        self.position(id).is_some()
    }

    /// The monitor with identifier `id`.
    pub fn get(&self, id: Id) -> (result: Result<Monitor, RegistryError>)
        ensures
            match result {
                Ok(monitor) => self@.dom().contains(id) && monitor@ == self@[id],
                Err(error) => !self@.dom().contains(id) && error@ == RegistryFailure::NotFound(
                    seq![id],
                ),
            },
    {
        match self.position(id) {
            Some(i) => Ok(self.monitors[i].clone()),
            None => {
                let mut ids: Vec<Id> = Vec::new();
                ids.push(id);
                assert(ids@ =~= seq![id]);
                Err(RegistryError::NotFound(ids))
            },
        }
    }

    /// Picks the identifier for a new monitor. A requested identifier is
    /// granted if no monitor has it; without a request, the smallest
    /// identifier that no monitor has is granted.
    pub fn new_id(&self, requested: Option<Id>) -> (result: Result<Id, RegistryError>)
        ensures
            match result {
                Ok(id) => id_granted(self@.dom(), requested, id),
                Err(error) => id_refused(self@.dom(), requested, error@),
            },
    {
        match requested {
            Some(wanted) => {
                if self.contains(wanted) {
                    Err(RegistryError::Conflict(wanted))
                } else {
                    Ok(wanted)
                }
            },
            None => {
                let mut candidate: Id = 0;
                while candidate < u32::MAX
                    invariant
                        requested is None,
                        forall|k: u32| k < candidate ==> self@.dom().contains(k),
                    decreases u32::MAX - candidate,
                {
                    if !self.contains(candidate) {
                        return Ok(candidate);
                    }
                    candidate = candidate + 1;
                }
                if !self.contains(candidate) {
                    Ok(candidate)
                } else {
                    Err(RegistryError::NoFreeId)
                }
            },
        }
    }

    /// Checks that every identifier of `ids` has a monitor, and names all
    /// those that have none.
    pub fn validate_has_ids(&self, ids: &Vec<Id>) -> (result: Result<(), RegistryError>)
        ensures
            match result {
                Ok(_) => absent_ids(self@.dom(), ids@).len() == 0,
                Err(error) => absent_ids(self@.dom(), ids@).len() > 0 && error@
                    == RegistryFailure::NotFound(absent_ids(self@.dom(), ids@)),
            },
    {
        let mut missing: Vec<Id> = Vec::new();
        let mut i: usize = 0;
        while i < ids.len()
            invariant
                i <= ids.len(),
                missing@ == absent_ids(self@.dom(), ids@.take(i as int)),
            decreases ids.len() - i,
        {
            proof {
                assert(ids@.take(i + 1).drop_last() =~= ids@.take(i as int));
            }
            if !self.contains(ids[i]) {
                missing.push(ids[i]);
            }
            i = i + 1;
        }
        assert(ids@.take(i as int) =~= ids@);
        if missing.len() == 0 {
            Ok(())
        } else {
            Err(RegistryError::NotFound(missing))
        }
    }

    /// Takes in `monitors`, in order: each replaces the monitor of its
    /// identifier or, where there is none, is added.
    pub fn notify(&mut self, monitors: &Vec<Monitor>)
        ensures
            final(self)@ == upserted(old(self)@, monitor_views(monitors@)),
    {
        let ghost start = self@;
        let mut i: usize = 0;
        assert(monitor_views(monitors@.take(0)) =~= Seq::<MonitorView>::empty());
        while i < monitors.len()
            invariant
                i <= monitors.len(),
                self@ == upserted(start, monitor_views(monitors@.take(i as int))),
            decreases monitors.len() - i,
        {
            let monitor = monitors[i].clone();
            proof {
                let next = monitor_views(monitors@.take(i + 1));
                assert(next.drop_last() =~= monitor_views(monitors@.take(i as int)));
                assert(next.last() == monitor@);
                use_type_invariant(&*self);
            }
            let ghost before = monitor_views(self.monitors@);
            match self.position(monitor.id) {
                Some(at) => {
                    proof {
                        lemma_upserted_update(before, at as int, monitor@);
                    }
                    let mut list: Vec<Monitor> = Vec::new();
                    std::mem::swap(&mut list, &mut self.monitors);
                    list.set(at, monitor);
                    assert(monitor_views(list@) =~= before.update(at as int, monitor@));
                    self.monitors = list;
                },
                None => {
                    proof {
                        lemma_upserted_listing(before);
                        let after = before.push(monitor@);
                        assert(after.drop_last() =~= before);
                        assert forall|a: int, b: int| 0 <= a < b < after.len() implies (
                        #[trigger] after[a]).id != (#[trigger] after[b]).id by {
                            if b < before.len() {
                                assert(after[a] == before[a]);
                                assert(after[b] == before[b]);
                            } else {
                                assert(after[a] == before[a]);
                            }
                        }
                    }
                    let mut list: Vec<Monitor> = Vec::new();
                    std::mem::swap(&mut list, &mut self.monitors);
                    list.push(monitor);
                    assert(monitor_views(list@) =~= before.push(monitor@));
                    self.monitors = list;
                },
            }
            i = i + 1;
        }
        assert(monitors@.take(i as int) =~= monitors@);
    }

    /// Deletes the monitors whose identifiers are in `ids`; an identifier
    /// without a monitor changes nothing.
    pub fn remove(&mut self, ids: &Vec<Id>)
        ensures
            final(self)@ == old(self)@.remove_keys(ids@.to_set()),
    {
        proof {
            use_type_invariant(&*self);
        }
        let ghost before = monitor_views(self.monitors@);
        let ghost gone = ids@.to_set();
        let mut kept: Vec<Monitor> = Vec::new();
        let mut i: usize = 0;
        proof {
            assert(before.take(0) =~= Seq::<MonitorView>::empty());
            assert(monitor_views(kept@) =~= Seq::<MonitorView>::empty());
            assert(Map::<u32, MonitorView>::empty().remove_keys(gone) =~= Map::<
                u32,
                MonitorView,
            >::empty());
        }
        while i < self.monitors.len()
            invariant
                i <= self.monitors.len(),
                before == monitor_views(self.monitors@),
                gone == ids@.to_set(),
                distinct_ids(before),
                distinct_ids(monitor_views(kept@)),
                forall|j: int|
                    0 <= j < kept.len() ==> exists|k: int|
                        0 <= k < i && before[k].id == (#[trigger] monitor_views(kept@)[j]).id,
                upserted(Map::empty(), monitor_views(kept@)) == upserted(
                    Map::empty(),
                    before.take(i as int),
                ).remove_keys(gone),
            decreases self.monitors.len() - i,
        {
            let ghost head = upserted(Map::empty(), before.take(i as int));
            let ghost kept_before = monitor_views(kept@);
            let ghost entry = before[i as int];
            proof {
                assert(before.take(i + 1).drop_last() =~= before.take(i as int));
                assert(before.take(i + 1).last() == entry);
            }
            if !holds_id(ids, self.monitors[i].id) {
                kept.push(self.monitors[i].clone());
                proof {
                    let kept_after = monitor_views(kept@);
                    assert(kept_after =~= kept_before.push(entry));
                    assert(kept_after.drop_last() =~= kept_before);
                    assert(upserted(Map::empty(), kept_after) =~= head.insert(
                        entry.id,
                        entry,
                    ).remove_keys(gone));
                    assert forall|a: int, b: int| 0 <= a < b < kept_after.len() implies (
                    #[trigger] kept_after[a]).id != (#[trigger] kept_after[b]).id by {
                        assert(kept_after[a] == kept_before[a]);
                        if b < kept_before.len() {
                            assert(kept_after[b] == kept_before[b]);
                        } else {
                            let k = choose|k: int|
                                0 <= k < i && before[k].id == (#[trigger] kept_before[a]).id;
                            assert(before[k].id != before[i as int].id);
                        }
                    }
                    assert forall|j: int| 0 <= j < kept_after.len() implies exists|k: int|
                        0 <= k < i + 1 && before[k].id == (#[trigger] kept_after[j]).id by {
                        if j < kept_before.len() {
                            assert(kept_after[j] == kept_before[j]);
                            let k = choose|k: int|
                                0 <= k < i && before[k].id == (#[trigger] kept_before[j]).id;
                            assert(0 <= k < i + 1 && before[k].id == kept_after[j].id);
                        } else {
                            assert(before[i as int].id == kept_after[j].id);
                        }
                    }
                }
            } else {
                proof {
                    assert(head.insert(entry.id, entry).remove_keys(gone) =~= head.remove_keys(
                        gone,
                    ));
                    assert forall|j: int| 0 <= j < kept_before.len() implies exists|k: int|
                        0 <= k < i + 1 && before[k].id == (#[trigger] kept_before[j]).id by {
                        let k = choose|k: int|
                            0 <= k < i && before[k].id == (#[trigger] kept_before[j]).id;
                        assert(0 <= k < i + 1 && before[k].id == kept_before[j].id);
                    }
                }
            }
            i = i + 1;
        }
        assert(before.take(i as int) =~= before);
        self.monitors = kept;
    }

    /// Deletes every monitor.
    pub fn remove_all(&mut self)
        ensures
            final(self)@ == Map::<u32, MonitorView>::empty(),
    {
        self.monitors = Vec::new();
        assert(monitor_views(self.monitors@) =~= Seq::<MonitorView>::empty());
    }

    /// Applies `mutation` as the driver host does.
    pub fn apply(&mut self, mutation: &Mutation)
        ensures
            final(self)@ == applied(old(self)@, mutation@),
    {
        match mutation {
            Mutation::Notify(monitors) => self.notify(monitors),
            Mutation::Remove(ids) => self.remove(ids),
            Mutation::RemoveAll => self.remove_all(),
        }
    }
}

} // verus!

//! Set algebra over display modes: merging modes by resolution, and removing
//! a resolution or some of its refresh rates.

use crate::mode::{lemma_text_round_trip, mode_of_text, mode_text, views, Mode, ModeView};
use crate::rates::{ascending, RateSet, RefreshRate};
use vstd::prelude::*;

verus! {

/// The position of the first entry with resolution `key`, or the length of
/// `modes` if no entry has it.
pub open spec fn position_of(modes: Seq<ModeView>, key: (u32, u32)) -> int
    decreases modes.len(),
{
    if modes.len() == 0 {
        0
    } else if modes[0].key() == key {
        0
    } else {
        1 + position_of(modes.drop_first(), key)
    }
}

/// Whether some entry of `modes` has resolution `key`.
pub open spec fn has_resolution(modes: Seq<ModeView>, key: (u32, u32)) -> bool {
    exists|i: int| 0 <= i < modes.len() && (#[trigger] modes[i]).key() == key
}

/// Whether no two entries of `modes` share a resolution.
pub open spec fn distinct_resolutions(modes: Seq<ModeView>) -> bool {
    forall|i: int, j: int|
        0 <= i < j < modes.len() ==> (#[trigger] modes[i]).key() != (#[trigger] modes[j]).key()
}

/// `acc` after taking in `m`: the first entry with the resolution of `m` gains
/// the rates of `m`; if there is no such entry, `m` is appended.
pub open spec fn absorb(acc: Seq<ModeView>, m: ModeView) -> Seq<ModeView> {
    let at = position_of(acc, m.key());
    if 0 <= at < acc.len() {
        acc.update(
            at,
            ModeView { width: acc[at].width, height: acc[at].height, rates: acc[at].rates.union(m.rates) },
        )
    } else {
        acc.push(m)
    }
}

/// The modes of `modes` merged by resolution: one entry per resolution, in
/// the order in which the resolutions first occur, each with the union of the
/// rates given for it.
pub open spec fn merged(modes: Seq<ModeView>) -> Seq<ModeView>
    decreases modes.len(),
{
    if modes.len() == 0 {
        Seq::empty()
    } else {
        absorb(merged(modes.drop_last()), modes.last())
    }
}

/// `position_of` lies within the sequence, no entry before it has the
/// resolution, and the entry at it has, unless it is the length.
pub proof fn lemma_position_of(modes: Seq<ModeView>, key: (u32, u32))
    ensures
        0 <= position_of(modes, key) <= modes.len(),
        forall|i: int| 0 <= i < position_of(modes, key) ==> (#[trigger] modes[i]).key() != key,
        position_of(modes, key) < modes.len() ==> modes[position_of(modes, key)].key() == key,
        position_of(modes, key) < modes.len() <==> has_resolution(modes, key),
    decreases modes.len(),
{
    if modes.len() > 0 && modes[0].key() != key {
        let rest = modes.drop_first();
        lemma_position_of(rest, key);
        assert forall|i: int| 0 <= i < position_of(modes, key) implies (#[trigger] modes[i]).key()
            != key by {
            if i > 0 {
                assert(modes[i] == rest[i - 1]);
            }
        }
        if has_resolution(modes, key) {
            let i = choose|i: int| 0 <= i < modes.len() && (#[trigger] modes[i]).key() == key;
            assert(rest[i - 1].key() == key);
        }
        if position_of(modes, key) < modes.len() {
            assert(modes[position_of(modes, key)] == rest[position_of(rest, key)]);
        }
    } else if modes.len() > 0 {
        assert(modes[0].key() == key);
    }
}

/// A position that holds the resolution with none before it, or the length
/// when no entry has the resolution, is what `position_of` gives.
pub proof fn lemma_position_is(modes: Seq<ModeView>, key: (u32, u32), k: int)
    requires
        0 <= k <= modes.len(),
        forall|i: int| 0 <= i < k ==> (#[trigger] modes[i]).key() != key,
        k < modes.len() ==> modes[k].key() == key,
    ensures
        position_of(modes, key) == k,
{
    lemma_position_of(modes, key);
    let p = position_of(modes, key);
    if p < k {
        assert(modes[p].key() != key);
    } else if p > k {
        assert(modes[k].key() != key);
    }
}

/// The rates that the entries of `modes` with resolution `key` give, taken
/// together.
pub open spec fn rates_at(modes: Seq<ModeView>, key: (u32, u32)) -> Set<u32> {
    Set::new(
        |r: u32|
            exists|i: int|
                0 <= i < modes.len() && (#[trigger] modes[i]).key() == key
                    && modes[i].rates.contains(r),
    )
}

/// One more entry adds its rates to those of its own resolution and leaves
/// the rates of every other resolution alone.
pub proof fn lemma_rates_at_push(modes: Seq<ModeView>, m: ModeView, key: (u32, u32))
    ensures
        rates_at(modes.push(m), key) == if m.key() == key {
            rates_at(modes, key).union(m.rates)
        } else {
            rates_at(modes, key)
        },
        has_resolution(modes.push(m), key) <==> has_resolution(modes, key) || m.key() == key,
{
    let more = modes.push(m);
    let expected = if m.key() == key {
        rates_at(modes, key).union(m.rates)
    } else {
        rates_at(modes, key)
    };
    assert forall|r: u32| rates_at(more, key).contains(r) <==> expected.contains(r) by {
        if rates_at(more, key).contains(r) {
            let i = choose|i: int|
                0 <= i < more.len() && (#[trigger] more[i]).key() == key && more[i].rates.contains(
                    r,
                );
            if i < modes.len() {
                assert(modes[i].key() == key && modes[i].rates.contains(r));
            }
        }
        if rates_at(modes, key).contains(r) {
            let i = choose|i: int|
                0 <= i < modes.len() && (#[trigger] modes[i]).key() == key
                    && modes[i].rates.contains(r);
            assert(more[i].key() == key && more[i].rates.contains(r));
        }
        if m.key() == key && m.rates.contains(r) {
            assert(more[modes.len() as int].key() == key && more[modes.len() as int].rates.contains(
                r,
            ));
        }
    }
    assert(rates_at(more, key) =~= expected);
    if has_resolution(more, key) {
        let i = choose|i: int| 0 <= i < more.len() && (#[trigger] more[i]).key() == key;
        if i < modes.len() {
            assert(modes[i].key() == key);
        }
    }
    if has_resolution(modes, key) {
        let i = choose|i: int| 0 <= i < modes.len() && (#[trigger] modes[i]).key() == key;
        assert(more[i].key() == key);
    }
    if m.key() == key {
        assert(more[modes.len() as int].key() == key);
    }
}

/// What merging gives: no resolution twice, exactly the resolutions of the
/// input, and for each of them all the rates that the input gives for it.
pub proof fn lemma_merged(modes: Seq<ModeView>)
    ensures
        distinct_resolutions(merged(modes)),
        forall|key: (u32, u32)|
            has_resolution(merged(modes), key) <==> has_resolution(modes, key),
        forall|j: int|
            0 <= j < merged(modes).len() ==> (#[trigger] merged(modes)[j]).rates == rates_at(
                modes,
                merged(modes)[j].key(),
            ),
    decreases modes.len(),
{
    if modes.len() > 0 {
        let front = modes.drop_last();
        let m = modes.last();
        let acc = merged(front);
        let out = merged(modes);
        let at = position_of(acc, m.key());
        lemma_merged(front);
        lemma_position_of(acc, m.key());
        assert(modes =~= front.push(m));
        assert forall|key: (u32, u32)| has_resolution(out, key) <==> has_resolution(
            modes,
            key,
        ) by {
            lemma_rates_at_push(front, m, key);
            if at < acc.len() {
                if has_resolution(out, key) {
                    let i = choose|i: int| 0 <= i < out.len() && (#[trigger] out[i]).key() == key;
                    assert(acc[i].key() == key);
                }
                if has_resolution(acc, key) {
                    let i = choose|i: int| 0 <= i < acc.len() && (#[trigger] acc[i]).key() == key;
                    assert(out[i].key() == key);
                }
                assert(has_resolution(acc, m.key()));
            } else {
                lemma_rates_at_push(acc, m, key);
            }
        }
        assert forall|i: int, j: int| 0 <= i < j < out.len() implies (#[trigger] out[i]).key() != (
        #[trigger] out[j]).key() by {
            if at < acc.len() {
                assert(out[i].key() == acc[i].key());
                assert(out[j].key() == acc[j].key());
            } else {
                if j < acc.len() {
                    assert(out[i] == acc[i]);
                    assert(out[j] == acc[j]);
                } else {
                    assert(out[i] == acc[i]);
                    assert(acc[i].key() != m.key());
                }
            }
        }
        assert forall|j: int| 0 <= j < out.len() implies (#[trigger] out[j]).rates == rates_at(
            modes,
            out[j].key(),
        ) by {
            lemma_rates_at_push(front, m, out[j].key());
            if at < acc.len() {
                assert(out[j].key() == acc[j].key());
                assert(acc[j].rates == rates_at(front, acc[j].key()));
                if j != at {
                    assert(acc[at].key() == m.key());
                    if j < at {
                        assert(acc[j].key() != acc[at].key());
                    } else {
                        assert(acc[at].key() != acc[j].key());
                    }
                }
            } else if j < acc.len() {
                assert(out[j] == acc[j]);
                assert(acc[j].key() != m.key());
            } else {
                assert(out[j] == m);
                assert(!has_resolution(front, m.key()));
                assert(rates_at(front, m.key()) =~= Set::<u32>::empty()) by {
                    assert forall|r: u32| !rates_at(front, m.key()).contains(r) by {
                        if rates_at(front, m.key()).contains(r) {
                            let i = choose|i: int|
                                0 <= i < front.len() && (#[trigger] front[i]).key() == m.key()
                                    && front[i].rates.contains(r);
                            assert(has_resolution(front, m.key()));
                        }
                    }
                }
                assert(rates_at(front, m.key()).union(m.rates) =~= m.rates);
            }
        }
    }
}

/// Every resolution of the input is found exactly once in the merged modes.
pub proof fn lemma_merged_once(modes: Seq<ModeView>, i: int)
    requires
        0 <= i < modes.len(),
    ensures
        ({
            let at = position_of(merged(modes), modes[i].key());
            &&& 0 <= at < merged(modes).len()
            &&& merged(modes)[at].key() == modes[i].key()
            &&& forall|j: int|
                0 <= j < merged(modes).len() && j != at ==> (#[trigger] merged(modes)[j]).key()
                    != modes[i].key()
        }),
{
    let key = modes[i].key();
    let out = merged(modes);
    lemma_merged(modes);
    assert(has_resolution(modes, key));
    lemma_position_of(out, key);
    let at = position_of(out, key);
    assert forall|j: int| 0 <= j < out.len() && j != at implies (#[trigger] out[j]).key()
        != key by {
        if j < at {
            assert(out[j].key() != out[at].key());
        } else {
            assert(out[at].key() != out[j].key());
        }
    }
}

/// Where a resolution is first found once one more entry stands at the end.
pub proof fn lemma_position_push(modes: Seq<ModeView>, m: ModeView, key: (u32, u32))
    ensures
        position_of(modes.push(m), key) == if has_resolution(modes, key) {
            position_of(modes, key)
        } else if m.key() == key {
            modes.len() as int
        } else {
            modes.len() as int + 1
        },
{
    let more = modes.push(m);
    lemma_position_of(modes, key);
    let at = position_of(modes, key);
    if at < modes.len() {
        assert forall|i: int| 0 <= i < at implies (#[trigger] more[i]).key() != key by {
            assert(more[i] == modes[i]);
        }
        assert(more[at] == modes[at]);
        lemma_position_is(more, key, at);
    } else {
        assert forall|i: int| 0 <= i < modes.len() implies (#[trigger] more[i]).key() != key by {
            assert(more[i] == modes[i]);
        }
        if m.key() == key {
            lemma_position_is(more, key, modes.len() as int);
        } else {
            lemma_position_is(more, key, modes.len() as int + 1);
        }
    }
}

/// Merged modes stand in the order in which their resolutions first occur in
/// the input.
pub proof fn lemma_merged_order(modes: Seq<ModeView>, a: int, b: int)
    requires
        0 <= a < b < merged(modes).len(),
    ensures
        position_of(modes, merged(modes)[a].key()) < position_of(modes, merged(modes)[b].key()),
    decreases modes.len(),
{
    if modes.len() > 0 {
        let front = modes.drop_last();
        let m = modes.last();
        let acc = merged(front);
        let out = merged(modes);
        let at = position_of(acc, m.key());
        assert(modes =~= front.push(m));
        lemma_merged(front);
        lemma_position_of(acc, m.key());
        lemma_position_push(front, m, out[a].key());
        lemma_position_push(front, m, out[b].key());
        if at < acc.len() {
            assert(out[a].key() == acc[a].key());
            assert(out[b].key() == acc[b].key());
            assert(has_resolution(acc, acc[a].key()));
            assert(has_resolution(acc, acc[b].key()));
            lemma_merged_order(front, a, b);
        } else {
            assert(out[a] == acc[a]);
            assert(has_resolution(acc, acc[a].key()));
            lemma_position_of(front, acc[a].key());
            if b < acc.len() {
                assert(out[b] == acc[b]);
                assert(has_resolution(acc, acc[b].key()));
                lemma_merged_order(front, a, b);
            } else {
                assert(out[b] == m);
                assert(!has_resolution(acc, m.key()));
            }
        }
    }
}

/// Merging leaves alone a sequence in which no resolution occurs twice.
pub proof fn lemma_merged_fixed(modes: Seq<ModeView>)
    requires
        distinct_resolutions(modes),
    ensures
        merged(modes) == modes,
    decreases modes.len(),
{
    if modes.len() > 0 {
        let front = modes.drop_last();
        let m = modes.last();
        assert forall|i: int, j: int| 0 <= i < j < front.len() implies (#[trigger] front[i]).key()
            != (#[trigger] front[j]).key() by {
            assert(front[i] == modes[i]);
            assert(front[j] == modes[j]);
        }
        lemma_merged_fixed(front);
        assert forall|i: int| 0 <= i < front.len() implies (#[trigger] front[i]).key()
            != m.key() by {
            assert(front[i] == modes[i]);
            assert(modes[i].key() != modes[modes.len() - 1].key());
        }
        lemma_position_is(front, m.key(), front.len() as int);
        assert(front.push(m) =~= modes);
    } else {
        assert(modes =~= Seq::<ModeView>::empty());
    }
}

/// Merging is idempotent: merging merged modes changes nothing.
pub proof fn lemma_merge_idempotent(modes: Seq<ModeView>)
    ensures
        merged(merged(modes)) == merged(modes),
{
    lemma_merged(modes);
    lemma_merged_fixed(merged(modes));
}

/// Finds the first entry of `modes` with the resolution of `wanted`.
fn find_resolution(modes: &Vec<Mode>, wanted: &Mode) -> (at: usize)
    ensures
        at == position_of(views(modes@), wanted@.key()),
        at <= modes.len(),
{
    let mut at: usize = 0;
    while at < modes.len() && !modes[at].same_resolution(wanted)
        invariant
            at <= modes.len(),
            forall|i: int| 0 <= i < at ==> (#[trigger] views(modes@)[i]).key() != wanted@.key(),
        decreases modes.len() - at,
    {
        at = at + 1;
    }
    proof {
        lemma_position_is(views(modes@), wanted@.key(), at as int);
    }
    at
}

/// Merges `modes` by resolution. Each resolution keeps the place of its first
/// occurrence and gets the union of the refresh rates given for it.
pub fn merge(modes: &Vec<Mode>) -> (out: Vec<Mode>)
    ensures
        views(out@) == merged(views(modes@)),
{
    let mut out: Vec<Mode> = Vec::new();
    let mut i: usize = 0;
    assert(views(modes@.take(0)) =~= Seq::<ModeView>::empty());
    assert(views(out@) =~= Seq::<ModeView>::empty());
    while i < modes.len()
        invariant
            i <= modes.len(),
            views(out@) == merged(views(modes@.take(i as int))),
        decreases modes.len() - i,
    {
        let mode = &modes[i];
        let ghost before = views(out@);
        proof {
            let next = views(modes@.take(i + 1));
            assert(next.drop_last() =~= views(modes@.take(i as int)));
            assert(next.last() == mode@);
        }
        let at = find_resolution(&out, mode);
        if at < out.len() {
            let joint = out[at].with_rates_of(mode);
            out.set(at, joint);
            assert(views(out@) =~= absorb(before, mode@));
        } else {
            out.push(mode.clone());
            assert(views(out@) =~= absorb(before, mode@));
        }
        i = i + 1;
    }
    assert(modes@.take(i as int) =~= modes@);
    out
}

/// Round trip through text and merge: reading the canonical text of a valid
/// mode and merging the result alone gives back that mode, rates included.
pub proof fn lemma_round_trip_merge(m: ModeView)
    requires
        m.valid(),
    ensures
        mode_of_text(mode_text(m)) is Ok,
        merged(seq![mode_of_text(mode_text(m))->Ok_0]) == seq![m],
{
    lemma_text_round_trip(m);
    lemma_merged_fixed(seq![m]);
}

/// Why modes could not be removed.
#[derive(Debug, PartialEq, Eq)]
pub enum RemoveError {
    /// No entry has the resolution that was to be removed.
    ModeNotFound,
    /// The resolution is there, but not with these rates, listed in increasing
    /// order.
    RateNotFound(Vec<RefreshRate>),
}

/// The rates of `target` that no entry of `modes` with its resolution has.
pub open spec fn missing_rates(modes: Seq<ModeView>, target: ModeView) -> Set<u32> {
    target.rates.difference(rates_at(modes, target.key()))
}

/// Whether the entry `m` is still there after `target` was removed: entries of
/// another resolution stay; an entry of the same resolution stays only if
/// `target` names rates and `m` has a rate that `target` does not name.
pub open spec fn survives(m: ModeView, target: ModeView) -> bool {
    m.key() != target.key() || (target.rates != Set::<u32>::empty() && m.rates.difference(
        target.rates,
    ) != Set::<u32>::empty())
}

/// The entry `m` without what `target` removes from it.
pub open spec fn stripped(m: ModeView, target: ModeView) -> ModeView {
    if m.key() == target.key() {
        ModeView { width: m.width, height: m.height, rates: m.rates.difference(target.rates) }
    } else {
        m
    }
}

/// `modes` without `target`: with no rates in `target`, without every entry of
/// its resolution; otherwise every entry of its resolution loses the rates of
/// `target`, and is dropped if none is left. Other entries stay as they are.
pub open spec fn removed(modes: Seq<ModeView>, target: ModeView) -> Seq<ModeView>
    decreases modes.len(),
{
    if modes.len() == 0 {
        Seq::empty()
    } else {
        let front = removed(modes.drop_last(), target);
        if survives(modes.last(), target) {
            front.push(stripped(modes.last(), target))
        } else {
            front
        }
    }
}

/// What is left after a removal is made of entries of the input, in their
/// order, each without the removed rates.
pub proof fn lemma_removed_from(modes: Seq<ModeView>, target: ModeView, j: int) -> (i: int)
    requires
        0 <= j < removed(modes, target).len(),
    ensures
        0 <= i < modes.len(),
        j <= i,
        survives(modes[i], target),
        removed(modes, target)[j] == stripped(modes[i], target),
        removed(modes, target).len() - j <= modes.len() - i,
    decreases modes.len(),
{
    let front = modes.drop_last();
    let head = removed(front, target);
    if survives(modes.last(), target) && j == head.len() {
        lemma_removed_len(front, target);
        modes.len() - 1
    } else {
        let i = lemma_removed_from(front, target, j);
        assert(front[i] == modes[i]);
        i
    }
}

/// A removal leaves no more entries than there were.
pub proof fn lemma_removed_len(modes: Seq<ModeView>, target: ModeView)
    ensures
        removed(modes, target).len() <= modes.len(),
    decreases modes.len(),
{
    if modes.len() > 0 {
        lemma_removed_len(modes.drop_last(), target);
    }
}

/// After a removal that names rates, no entry of the resolution has any of
/// them, and none is without rates on that account; after one that names
/// none, no entry has the resolution.
pub proof fn lemma_removed_clean(modes: Seq<ModeView>, target: ModeView, j: int)
    requires
        0 <= j < removed(modes, target).len(),
        removed(modes, target)[j].key() == target.key(),
    ensures
        target.rates != Set::<u32>::empty(),
        removed(modes, target)[j].rates.disjoint(target.rates),
        removed(modes, target)[j].rates != Set::<u32>::empty(),
{
    let i = lemma_removed_from(modes, target, j);
    assert(stripped(modes[i], target).key() == modes[i].key());
}

/// A removal keeps apart what was apart: if no resolution occurs twice
/// before, none does after.
pub proof fn lemma_removed_distinct(modes: Seq<ModeView>, target: ModeView)
    requires
        distinct_resolutions(modes),
    ensures
        distinct_resolutions(removed(modes, target)),
    decreases modes.len(),
{
    let out = removed(modes, target);
    if modes.len() > 0 {
        let front = modes.drop_last();
        let head = removed(front, target);
        assert forall|i: int, j: int| 0 <= i < j < front.len() implies (#[trigger] front[i]).key()
            != (#[trigger] front[j]).key() by {
            assert(front[i] == modes[i]);
            assert(front[j] == modes[j]);
        }
        lemma_removed_distinct(front, target);
        assert forall|a: int, b: int| 0 <= a < b < out.len() implies (#[trigger] out[a]).key() != (
        #[trigger] out[b]).key() by {
            if b < head.len() {
                assert(out[a] == head[a]);
                assert(out[b] == head[b]);
            } else {
                assert(out[a] == head[a]);
                let i = lemma_removed_from(front, target, a);
                assert(front[i] == modes[i]);
                assert(modes[i].key() != modes[modes.len() - 1].key());
                assert(stripped(front[i], target).key() == front[i].key());
                assert(out[b] == stripped(modes.last(), target));
            }
        }
    }
}

/// The rates that the entries of `modes` with the resolution of `target` have,
/// and whether there is such an entry.
fn rates_of_resolution(modes: &Vec<Mode>, target: &Mode) -> (found: (bool, RateSet))
    ensures
        found.0 == has_resolution(views(modes@), target@.key()),
        found.1@ == rates_at(views(modes@), target@.key()),
{
    let ghost key = target@.key();
    let mut present = false;
    let mut rates = RateSet::new();
    let mut i: usize = 0;
    proof {
        assert(views(modes@.take(0)) =~= Seq::<ModeView>::empty());
        assert(rates_at(Seq::<ModeView>::empty(), key) =~= Set::<u32>::empty());
    }
    while i < modes.len()
        invariant
            i <= modes.len(),
            key == target@.key(),
            present == has_resolution(views(modes@.take(i as int)), key),
            rates@ == rates_at(views(modes@.take(i as int)), key),
        decreases modes.len() - i,
    {
        proof {
            let front = views(modes@.take(i as int));
            assert(views(modes@.take(i + 1)) =~= front.push(modes@[i as int]@));
            lemma_rates_at_push(front, modes@[i as int]@, key);
        }
        if modes[i].same_resolution(target) {
            present = true;
            rates = rates.union(modes[i].refresh_rates());
        }
        i = i + 1;
    }
    assert(modes@.take(i as int) =~= modes@);
    (present, rates)
}

/// Removes `target` from `modes`.
///
/// A `target` without rates removes its whole resolution. A `target` with
/// rates removes those rates from the entries of its resolution, and drops an
/// entry that is left without rates. Nothing is removed unless the resolution
/// is there and, between its entries, has every rate that `target` names.
pub fn remove(modes: &Vec<Mode>, target: &Mode) -> (result: Result<Vec<Mode>, RemoveError>)
    ensures
        match result {
            Ok(out) => {
                &&& has_resolution(views(modes@), target@.key())
                &&& missing_rates(views(modes@), target@) == Set::<u32>::empty()
                &&& views(out@) == removed(views(modes@), target@)
            },
            Err(RemoveError::ModeNotFound) => !has_resolution(views(modes@), target@.key()),
            Err(RemoveError::RateNotFound(missing)) => {
                &&& has_resolution(views(modes@), target@.key())
                &&& missing_rates(views(modes@), target@) != Set::<u32>::empty()
                &&& missing@ == ascending(missing_rates(views(modes@), target@))
            },
        },
{
    let (present, available) = rates_of_resolution(modes, target);
    if !present {
        return Err(RemoveError::ModeNotFound);
    }
    let missing = target.refresh_rates().difference(&available);
    if !missing.is_empty() {
        return Err(RemoveError::RateNotFound(missing.to_vec()));
    }
    let whole = target.refresh_rates().is_empty();
    let mut out: Vec<Mode> = Vec::new();
    let mut i: usize = 0;
    proof {
        assert(views(modes@.take(0)) =~= Seq::<ModeView>::empty());
        assert(views(out@) =~= Seq::<ModeView>::empty());
    }
    while i < modes.len()
        invariant
            i <= modes.len(),
            whole <==> target@.rates == Set::<u32>::empty(),
            views(out@) == removed(views(modes@.take(i as int)), target@),
        decreases modes.len() - i,
    {
        let mode = &modes[i];
        let ghost before = views(out@);
        proof {
            let next = views(modes@.take(i + 1));
            assert(next.drop_last() =~= views(modes@.take(i as int)));
            assert(next.last() == mode@);
        }
        if !mode.same_resolution(target) {
            out.push(mode.clone());
            assert(views(out@) =~= before.push(stripped(mode@, target@)));
        } else if !whole {
            let rest = mode.without_rates(target.refresh_rates());
            if !rest.refresh_rates().is_empty() {
                out.push(rest);
                assert(views(out@) =~= before.push(stripped(mode@, target@)));
            }
        }
        i = i + 1;
    }
    assert(modes@.take(i as int) =~= modes@);
    Ok(out)
}

} // verus!

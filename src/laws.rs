//! Properties that relate several operations of the library.
use vstd::prelude::*;

use crate::event::{drop_through, ids_sorted, lemma_drop_through_suffix, EventData};
use crate::modpack::{
    apply_outcome, asks_match, inverted, recorded, restored, same_state, statuses, AskingKind, Modpack,
    ModpackOperationEvent,
};
use crate::plugin::{Plugin, PluginList, PluginStatus};
use crate::resolve::{closure_of, lemma_same_shape};

verus! {

/// Ticking keeps the queue in dispatch order: it drops exactly the oldest
/// events, those tagged at or before the tracker's previous tick, and keeps
/// every younger one in place. Together with dispatch appending at the newest
/// end, a consumer always reads the events not yet cleared, oldest first.
pub proof fn law_consume_in_dispatch_order<D>(events: Seq<EventData<D>>, last: u64)
    requires
        ids_sorted(events),
    ensures
        exists|n: int|
            0 <= n <= events.len() && #[trigger] events.subrange(n, events.len() as int) == drop_through(
                events,
                last,
            ) && (forall|i: int| 0 <= i < n ==> events[i].id <= last) && (forall|i: int|
                n <= i < events.len() ==> events[i].id > last),
{
    lemma_drop_through_suffix(events, last);
    let n = choose|n: int|
        0 <= n <= events.len() && #[trigger] events.subrange(n, events.len() as int) =~= drop_through(
            events,
            last,
        ) && (forall|i: int| 0 <= i < n ==> events[i].id <= last);
    let kept = drop_through(events, last);
    assert forall|i: int| n <= i < events.len() implies events[i].id > last by {
        assert(kept[0] == events[n]);
    }
    assert(events.subrange(n, events.len() as int) == drop_through(events, last));
}

/// Running the dependency closure a second time, with nothing changed in
/// between, changes no status: the closure is a fixpoint.
pub proof fn law_closure_idempotent(first: &PluginList, second: &PluginList, third: &PluginList)
    requires
        closure_of(first, second),
        closure_of(second, third),
    ensures
        forall|i: int| 0 <= i < second.len_spec() ==> #[trigger] third.status_of(i) == second.status_of(i),
        third.enabled_set() == second.enabled_set(),
{
    assert(second.enabled_set().subset_of(second.enabled_set()));
    assert(third.enabled_set().subset_of(second.enabled_set()));
    assert forall|i: int| 0 <= i < second.len_spec() implies #[trigger] third.status_of(i) == second.status_of(i) by {
        if third.status_of(i) != second.status_of(i) {
            assert(third.enabled_set().contains(i));
        }
    }
    assert(third.enabled_set() =~= second.enabled_set());
}

/// A plugin locked disabled that was not enabled is not enabled by the
/// closure; where an enabled plugin still depends on it, the ask list that
/// follows names the dependency.
pub proof fn law_locked_plugins_are_asked(
    before: &PluginList,
    after: &PluginList,
    j: int,
    i: int,
    k: int,
    asks: Seq<crate::modpack::AskingEnable>,
)
    requires
        closure_of(before, after),
        0 <= j < before.len_spec(),
        before.force_disabled(j),
        !before.is_enabled(j),
    ensures
        !after.is_enabled(j),
        0 <= i < after.len_spec() && after.is_enabled(i) && 0 <= k < after.deps(i).len() && after.target(
            after.deps(i)[k]@,
        ) == Some(j) && asks_match(after, asks, AskingKind::SplitDependency) ==> exists|b: int|
            0 <= b < asks.len() && asks[b].id@ == after.deps(i)[k]@,
{
    let free = Set::new(|x: int| 0 <= x < before.len_spec() && (before.is_enabled(x) || !before.force_disabled(x)));
    lemma_same_shape(after, before);
    assert(before.enabled_set().subset_of(free));
    assert(before.closed(free));
    assert(after.enabled_set().subset_of(free));
    assert(!free.contains(j));
    assert(!after.enabled_set().contains(j));
    if 0 <= i < after.len_spec() && after.is_enabled(i) && 0 <= k < after.deps(i).len() && after.target(
        after.deps(i)[k]@,
    ) == Some(j) && asks_match(after, asks, AskingKind::SplitDependency) {
        assert(after.unmet_at(i, k));
        assert(after.unmet(after.deps(i)[k]@));
    }
}

/// Inverting twice restores every status.
pub proof fn law_invert_involution(before: Seq<Plugin>, after: Seq<Plugin>)
    requires
        after.len() == before.len(),
        forall|i: int| 0 <= i < before.len() ==> #[trigger] after[i].forced_status == before[i].forced_status,
        statuses(after) == inverted(before),
    ensures
        inverted(after) == statuses(before),
{
    assert forall|i: int| 0 <= i < before.len() implies inverted(after)[i] == statuses(before)[i] by {
        assert(after[i].status == statuses(after)[i]);
        assert(statuses(after)[i] == inverted(before)[i]);
    }
    assert(inverted(after) =~= statuses(before));
}

/// The history after recording each of `snaps` in turn, starting at `cursor`.
pub open spec fn record_all(
    history: Seq<Seq<PluginStatus>>,
    cursor: int,
    snaps: Seq<Seq<PluginStatus>>,
) -> Seq<Seq<PluginStatus>>
    decreases snaps.len(),
{
    if snaps.len() == 0 {
        history
    } else {
        recorded(record_all(history, cursor, snaps.drop_last()), cursor + snaps.len() - 1, snaps.last())
    }
}

/// The statuses after `m` undos from `cursor`, starting from `current`.
pub open spec fn undo_times(
    history: Seq<Seq<PluginStatus>>,
    cursor: int,
    current: Seq<PluginStatus>,
    m: nat,
) -> Seq<PluginStatus>
    decreases m,
{
    if m == 0 {
        current
    } else {
        undo_times(history, cursor - 1, restored(current, history[cursor - 1]), (m - 1) as nat)
    }
}

/// The statuses after `m` redos from `cursor`, starting from `current`.
pub open spec fn redo_times(
    history: Seq<Seq<PluginStatus>>,
    cursor: int,
    current: Seq<PluginStatus>,
    m: nat,
) -> Seq<PluginStatus>
    decreases m,
{
    if m == 0 {
        current
    } else {
        redo_times(history, cursor + 1, restored(current, history[cursor + 1]), (m - 1) as nat)
    }
}

proof fn lemma_record_all(history: Seq<Seq<PluginStatus>>, cursor: int, snaps: Seq<Seq<PluginStatus>>)
    requires
        0 <= cursor < history.len(),
        snaps.len() > 0,
    ensures
        record_all(history, cursor, snaps) == history.subrange(0, cursor + 1) + snaps,
    decreases snaps.len(),
{
    if snaps.len() == 1 {
        assert(snaps.drop_last().len() == 0);
        assert(record_all(history, cursor, snaps.drop_last()) == history);
        assert(record_all(history, cursor, snaps) == recorded(history, cursor, snaps.last()));
        assert(history.subrange(0, cursor + 1).push(snaps.last()) =~= history.subrange(0, cursor + 1) + snaps);
    } else {
        lemma_record_all(history, cursor, snaps.drop_last());
        let prev = history.subrange(0, cursor + 1) + snaps.drop_last();
        assert(prev.subrange(0, cursor + snaps.len()) == prev);
        assert(record_all(history, cursor, snaps) == recorded(prev, cursor + snaps.len() - 1, snaps.last()));
        assert(prev.push(snaps.last()) =~= history.subrange(0, cursor + 1) + snaps);
    }
}

proof fn lemma_undo_times(h: Seq<Seq<PluginStatus>>, base: int, m: nat, n: nat)
    requires
        0 <= base,
        base + m < h.len(),
        forall|i: int| 0 <= i < h.len() ==> (#[trigger] h[i]).len() == n,
    ensures
        undo_times(h, base + m, h[base + m], m) == h[base],
    decreases m,
{
    if m > 0 {
        assert(restored(h[base + m], h[base + m - 1]) =~= h[base + m - 1]);
        lemma_undo_times(h, base, (m - 1) as nat, n);
    }
}

proof fn lemma_redo_times(h: Seq<Seq<PluginStatus>>, top: int, m: nat, n: nat)
    requires
        0 <= top - m,
        top < h.len(),
        forall|i: int| 0 <= i < h.len() ==> (#[trigger] h[i]).len() == n,
    ensures
        redo_times(h, top - m, h[top - m], m) == h[top],
    decreases m,
{
    if m > 0 {
        assert(restored(h[top - m], h[top - m + 1]) =~= h[top - m + 1]);
        lemma_redo_times(h, top, (m - 1) as nat, n);
    }
}

/// Undo and redo retrace recorded operations: after recording the states
/// `snaps` (one per split or invert, starting from the state at `cursor`),
/// as many undos give back the statuses from before the first operation, and
/// as many redos after that give back the statuses after the last one.
pub proof fn law_undo_redo_round_trip(
    history: Seq<Seq<PluginStatus>>,
    cursor: int,
    snaps: Seq<Seq<PluginStatus>>,
    n: nat,
)
    requires
        0 <= cursor < history.len(),
        snaps.len() > 0,
        forall|i: int| 0 <= i < history.len() ==> (#[trigger] history[i]).len() == n,
        forall|i: int| 0 <= i < snaps.len() ==> (#[trigger] snaps[i]).len() == n,
    ensures
        record_all(history, cursor, snaps).len() == cursor + 1 + snaps.len(),
        undo_times(record_all(history, cursor, snaps), cursor + snaps.len(), snaps.last(), snaps.len())
            == history[cursor],
        redo_times(record_all(history, cursor, snaps), cursor, history[cursor], snaps.len())
            == snaps.last(),
{
    lemma_record_all(history, cursor, snaps);
    let h = record_all(history, cursor, snaps);
    assert forall|i: int| 0 <= i < h.len() implies (#[trigger] h[i]).len() == n by {
        if i <= cursor {
            assert(h[i] == history[i]);
        } else {
            assert(h[i] == snaps[i - cursor - 1]);
        }
    }
    assert(h[cursor + snaps.len()] == snaps.last());
    assert(h[cursor] == history[cursor]);
    lemma_undo_times(h, cursor, snaps.len(), n);
    lemma_redo_times(h, cursor + snaps.len(), snaps.len(), n);
}

} // verus!

verus! {

proof fn lemma_records_chain(states: Seq<Modpack>, ops: Seq<ModpackOperationEvent>, j: int)
    requires
        states.len() == ops.len() + 1,
        0 <= j < states.len(),
        !states[0].loading(),
        0 <= states[0].cursor() < states[0].history().len(),
        forall|i: int| 0 <= i < ops.len() ==> (#[trigger] ops[i]) == ModpackOperationEvent::Split || ops[i]
            == ModpackOperationEvent::Invert,
        forall|i: int| 0 <= i < ops.len() ==> apply_outcome(#[trigger] ops[i], &states[i], &states[i + 1]),
    ensures
        !states[j].loading(),
        states[j].list().len_spec() == states[0].list().len_spec(),
        j > 0 ==> states[j].history() == states[0].history().subrange(0, states[0].cursor() + 1) + Seq::new(
            j as nat,
            |i: int| states[i + 1].current(),
        ),
        states[j].cursor() == states[0].cursor() + j,
        states[j].history().len() == if j == 0 {
            states[0].history().len() as int
        } else {
            states[0].cursor() + 1 + j
        },
    decreases j,
{
    if j > 0 {
        lemma_records_chain(states, ops, j - 1);
        let p = states[j - 1];
        let q = states[j];
        assert(apply_outcome(ops[j - 1], &p, &q));
        assert(q.history() == recorded(p.history(), p.cursor(), q.current()));
        if j == 1 {
            assert(q.history() =~= states[0].history().subrange(0, states[0].cursor() + 1) + Seq::new(
                1nat,
                |i: int| states[i + 1].current(),
            ));
        } else {
            assert(p.history().subrange(0, p.cursor() + 1) == p.history());
            assert(q.history() =~= states[0].history().subrange(0, states[0].cursor() + 1) + Seq::new(
                j as nat,
                |i: int| states[i + 1].current(),
            ));
        }
    }
}

/// Undo and redo retrace splits and inverts on a modpack: from a loaded
/// modpack showing the snapshot at its cursor, after `k` splits or inverts,
/// `k` undos give back the statuses from before the first of them, and `k`
/// redos after that the statuses after the last.
pub proof fn law_undo_retraces_operations(
    states: Seq<Modpack>,
    ops: Seq<ModpackOperationEvent>,
    undos: Seq<Modpack>,
    redos: Seq<Modpack>,
)
    requires
        states.len() == ops.len() + 1,
        ops.len() > 0,
        states[0].wf(),
        !states[0].loading(),
        states[0].synced(),
        forall|i: int| 0 <= i < ops.len() ==> (#[trigger] ops[i]) == ModpackOperationEvent::Split || ops[i]
            == ModpackOperationEvent::Invert,
        forall|i: int| 0 <= i < ops.len() ==> apply_outcome(#[trigger] ops[i], &states[i], &states[i + 1]),
        undos.len() == states.len(),
        same_state(&undos[0], &states.last()),
        forall|i: int|
            0 <= i < ops.len() ==> #[trigger] apply_outcome(ModpackOperationEvent::Undo, &undos[i], &undos[i + 1]),
        redos.len() == states.len(),
        same_state(&redos[0], &undos.last()),
        forall|i: int|
            0 <= i < ops.len() ==> #[trigger] apply_outcome(ModpackOperationEvent::Redo, &redos[i], &redos[i + 1]),
    ensures
        undos.last().current() == states[0].current(),
        redos.last().current() == states.last().current(),
{
    let k = ops.len() as int;
    states[0].lemma_history_shape();
    let c0 = states[0].cursor();
    let h = states.last().history();
    lemma_records_chain(states, ops, k);
    let n = states[0].current().len();
    assert forall|j: int| 0 <= j < states.len() implies (#[trigger] states[j]).current().len() == n by {
        lemma_records_chain(states, ops, j);
    }
    assert forall|i: int| 0 <= i < h.len() implies (#[trigger] h[i]).len() == n by {
        if i > c0 {
            assert(h[i] == states[i - c0].current());
        } else {
            assert(h[i] == states[0].history()[i]);
        }
    }
    assert(h.len() == c0 + 1 + k);
    assert forall|j: int| 0 <= j < undos.len() implies {
        &&& (#[trigger] undos[j]).history() == h
        &&& undos[j].cursor() == c0 + k - j
        &&& undos[j].current() == h[c0 + k - j]
        &&& !undos[j].loading()
    } by {
        lemma_undo_chain(undos, h, c0, k, n, j);
    }
    assert(undos.last().current() == h[c0]);
    assert(h[c0] == states[0].history()[c0]);
    assert forall|j: int| 0 <= j < redos.len() implies {
        &&& (#[trigger] redos[j]).history() == h
        &&& redos[j].cursor() == c0 + j
        &&& redos[j].current() == h[c0 + j]
        &&& !redos[j].loading()
    } by {
        lemma_redo_chain(redos, h, c0, k, n, j);
    }
    assert(h[c0 + k] == states[k].current());
}

proof fn lemma_undo_chain(undos: Seq<Modpack>, h: Seq<Seq<PluginStatus>>, c0: int, k: int, n: nat, j: int)
    requires
        undos.len() == k + 1,
        0 <= j <= k,
        0 <= c0,
        h.len() == c0 + 1 + k,
        forall|i: int| 0 <= i < h.len() ==> (#[trigger] h[i]).len() == n,
        undos[0].history() == h,
        undos[0].cursor() == c0 + k,
        undos[0].current() == h[c0 + k],
        !undos[0].loading(),
        forall|i: int| 0 <= i < k ==> #[trigger] apply_outcome(ModpackOperationEvent::Undo, &undos[i], &undos[i + 1]),
    ensures
        undos[j].history() == h,
        undos[j].cursor() == c0 + k - j,
        undos[j].current() == h[c0 + k - j],
        !undos[j].loading(),
    decreases j,
{
    if j > 0 {
        lemma_undo_chain(undos, h, c0, k, n, j - 1);
        let i = j - 1;
        assert(apply_outcome(ModpackOperationEvent::Undo, &undos[i], &undos[i + 1]));
        assert(undos[i + 1] == undos[j]);
        assert(restored(h[c0 + k - j + 1], h[c0 + k - j]) =~= h[c0 + k - j]);
    }
}

proof fn lemma_redo_chain(redos: Seq<Modpack>, h: Seq<Seq<PluginStatus>>, c0: int, k: int, n: nat, j: int)
    requires
        redos.len() == k + 1,
        0 <= j <= k,
        0 <= c0,
        h.len() == c0 + 1 + k,
        forall|i: int| 0 <= i < h.len() ==> (#[trigger] h[i]).len() == n,
        redos[0].history() == h,
        redos[0].cursor() == c0,
        redos[0].current() == h[c0],
        !redos[0].loading(),
        forall|i: int| 0 <= i < k ==> #[trigger] apply_outcome(ModpackOperationEvent::Redo, &redos[i], &redos[i + 1]),
    ensures
        redos[j].history() == h,
        redos[j].cursor() == c0 + j,
        redos[j].current() == h[c0 + j],
        !redos[j].loading(),
    decreases j,
{
    if j > 0 {
        lemma_redo_chain(redos, h, c0, k, n, j - 1);
        let i = j - 1;
        assert(apply_outcome(ModpackOperationEvent::Redo, &redos[i], &redos[i + 1]));
        assert(redos[i + 1] == redos[j]);
        assert(restored(h[c0 + j - 1], h[c0 + j]) =~= h[c0 + j]);
    }
}

} // verus!

//! The bisection engine: invert, split, and the undo/redo history.
use vstd::prelude::*;

use crate::loader::ModpackLoader;
use crate::plugin::{views, Plugin, PluginList, PluginStatus};
use crate::resolve::{closure_of, dependants_in, lemma_same_shape};
use crate::display::{group_views, grouped};
use crate::event::{derefs, payloads, purge_for, EventTracker};
use crate::loader::{arrivals, failures};
use crate::message::{AppEvent, ApplicationState, ModpackStatus};
use rand::seq::SliceRandom;

verus! {

/// An operation the user asks of the modpack.
#[derive(Clone, Copy, Debug, PartialEq, Eq, Structural)]
pub enum ModpackOperationEvent {
    Undo,
    Redo,
    Split,
    Invert,
}

/// Why a disabled plugin is put before the user.
#[derive(Clone, Copy, Debug, PartialEq, Eq, Structural)]
pub enum AskingKind {
    SplitDependency,
    MakingForce,
}

/// A disabled plugin that enabled plugins still depend on.
pub struct AskingEnable {
    /// The dependency key as the dependants declare it.
    pub id: String,
    /// The ids of the enabled plugins that declare it.
    pub depended_by: Vec<String>,
    pub kind: AskingKind,
}

/// A snapshot of every plugin's status, by registry position.
pub struct UndoState {
    pub plugins: Vec<PluginStatus>,
}

/// The statuses of `plugins`, by position.
pub open spec fn statuses(plugins: Seq<Plugin>) -> Seq<PluginStatus> {
    plugins.map_values(|p: Plugin| p.status)
}

/// The status invert gives a plugin: locked plugins and ruled-out ones keep
/// theirs, enabled and disabled swap.
pub open spec fn flipped(p: Plugin) -> PluginStatus {
    if p.forced_status is Some {
        p.status
    } else {
        match p.status {
            PluginStatus::Enabled => PluginStatus::Disabled,
            PluginStatus::Disabled => PluginStatus::Enabled,
            PluginStatus::NotTheProblem => PluginStatus::NotTheProblem,
        }
    }
}

/// The statuses after an invert.
pub open spec fn inverted(plugins: Seq<Plugin>) -> Seq<PluginStatus> {
    plugins.map_values(|p: Plugin| flipped(p))
}

/// The history after recording `snap`: entries past the cursor are dropped first.
pub open spec fn recorded(
    history: Seq<Seq<PluginStatus>>,
    cursor: int,
    snap: Seq<PluginStatus>,
) -> Seq<Seq<PluginStatus>> {
    if history.len() == 0 {
        seq![snap]
    } else {
        history.subrange(0, cursor + 1).push(snap)
    }
}

/// The statuses after restoring `snap`; positions it does not cover keep theirs.
pub open spec fn restored(current: Seq<PluginStatus>, snap: Seq<PluginStatus>) -> Seq<PluginStatus> {
    Seq::new(current.len(), |i: int| if i < snap.len() { snap[i] } else { current[i] })
}

/// Candidate `x` is listed before `y`: more stable first, then by position.
pub open spec fn split_before(l: &PluginList, x: int, y: int) -> bool {
    let a = l.plugins()[x].stability;
    let b = l.plugins()[y].stability;
    a > b || (a == b && x < y)
}

/// No plugin depends on any registered plugin.
pub open spec fn independent(l: &PluginList) -> bool {
    forall|i: int, j: int| 0 <= i < l.len_spec() ==> !#[trigger] l.depends(i, j)
}

/// The positions of the plugins a split may disable.
pub open spec fn candidates(l: &PluginList) -> Set<int> {
    Set::new(|i: int| 0 <= i < l.len_spec() && l.plugins()[i].splittable())
}

/// Relies on rand's `SliceRandom::shuffle` with `thread_rng`: it only swaps
/// elements, so what comes back is a permutation of what went in.
#[verifier::external_body]
fn shuffle(v: &mut Vec<usize>)
    ensures
        final(v)@.to_multiset() == old(v)@.to_multiset(),
{
    v.shuffle(&mut rand::thread_rng());
}

impl PluginList {
    /// The positions of the plugins a split may disable, most stable first,
    /// ties in registration order.
    #[verifier::rlimit(40)]
    pub fn splittable_plugins(&self) -> (r: Vec<usize>)
        requires
            self.wf(),
        ensures
            r@.no_duplicates(),
            forall|a: int| 0 <= a < r@.len() ==> candidates(self).contains(#[trigger] r@[a] as int),
            forall|i: int| #[trigger] candidates(self).contains(i) ==> r@.contains(i as usize),
            forall|a: int, b: int|
                0 <= a < b < r@.len() ==> split_before(self, #[trigger] r@[a] as int, #[trigger] r@[b] as int),
    {
        let mut r: Vec<usize> = Vec::new();
        let n = self.len();
        let mut i: usize = 0;
        while i < n
            invariant
                n == self.len_spec(),
                i <= n,
                r@.no_duplicates(),
                forall|a: int| 0 <= a < r@.len() ==> (#[trigger] r@[a]) < i,
                forall|a: int| 0 <= a < r@.len() ==> candidates(self).contains(#[trigger] r@[a] as int),
                forall|x: int| 0 <= x < i && #[trigger] candidates(self).contains(x) ==> r@.contains(x as usize),
                forall|a: int, b: int|
                    0 <= a < b < r@.len() ==> split_before(self, #[trigger] r@[a] as int, #[trigger] r@[b] as int),
            decreases n - i,
        {
            let p = self.at(i);
            if p.should_split() {
                let s = p.stability;
                let mut q: usize = 0;
                while q < r.len() && self.at(r[q]).stability >= s
                    invariant
                        n == self.len_spec(),
                        i < n,
                        s == self.plugins()[i as int].stability,
                        q <= r@.len(),
                        forall|a: int| 0 <= a < r@.len() ==> (#[trigger] r@[a]) < i,
                        forall|a: int| 0 <= a < q ==> self.plugins()[(#[trigger] r@[a]) as int].stability >= s,
                    decreases r@.len() - q,
                {
                    q = q + 1;
                }
                let ghost old_r = r@;
                assert(candidates(self).contains(i as int));
                r.insert(q, i);
                proof {
                    assert forall|a: int| q <= a < old_r.len() implies self.plugins()[(#[trigger] old_r[a]) as int].stability < s by {
                        if a > q {
                            assert(split_before(self, old_r[q as int] as int, old_r[a] as int));
                        }
                    }
                    assert forall|a: int| 0 <= a < r@.len() implies (#[trigger] r@[a]) < i + 1 by {
                        if a < q {
                            assert(r@[a] == old_r[a]);
                        } else if a > q {
                            assert(r@[a] == old_r[a - 1]);
                        }
                    }
                    assert forall|a: int| 0 <= a < r@.len() implies candidates(self).contains(#[trigger] r@[a] as int) by {
                        if a < q {
                            assert(r@[a] == old_r[a]);
                        } else if a > q {
                            assert(r@[a] == old_r[a - 1]);
                        }
                    }
                    assert forall|a: int, b: int|
                        0 <= a < b < r@.len() implies split_before(self, #[trigger] r@[a] as int, #[trigger] r@[b] as int) by {
                        if b < q {
                            assert(r@[a] == old_r[a] && r@[b] == old_r[b]);
                        } else if b == q {
                            assert(r@[a] == old_r[a]);
                        } else if a < q {
                            assert(r@[a] == old_r[a] && r@[b] == old_r[b - 1]);
                        } else if a == q {
                            assert(r@[b] == old_r[b - 1]);
                        } else {
                            assert(r@[a] == old_r[a - 1] && r@[b] == old_r[b - 1]);
                        }
                    }
                    assert forall|a: int, b: int| 0 <= a < r@.len() && 0 <= b < r@.len() && a != b implies r@[a] != r@[b] by {
                        if a != q && b != q {
                            let a0 = if a < q { a } else { a - 1 };
                            let b0 = if b < q { b } else { b - 1 };
                            assert(r@[a] == old_r[a0] && r@[b] == old_r[b0]);
                        } else if a == q {
                            let b0 = if b < q { b } else { b - 1 };
                            assert(r@[b] == old_r[b0]);
                        } else {
                            let a0 = if a < q { a } else { a - 1 };
                            assert(r@[a] == old_r[a0]);
                        }
                    }
                    assert forall|x: int| 0 <= x < i + 1 && #[trigger] candidates(self).contains(x) implies r@.contains(x as usize) by {
                        if x < i {
                            let a = choose|a: int| 0 <= a < old_r.len() && old_r[a] == x as usize;
                            if a < q {
                                assert(r@[a] == x as usize);
                            } else {
                                assert(r@[a + 1] == x as usize);
                            }
                        } else {
                            assert(r@[q as int] == x as usize);
                        }
                    }
                }
            }
            i = i + 1;
        }
        r
    }

    /// Pops up to `count` positions off the end of `pool` and disables each
    /// plugin popped. Returns how many were popped.
    pub fn disable_from_tail(&mut self, pool: &mut Vec<usize>, count: usize) -> (r: usize)
        requires
            old(self).wf(),
            forall|a: int| 0 <= a < old(pool)@.len() ==> (#[trigger] old(pool)@[a]) < old(self).len_spec(),
        ensures
            final(self).wf(),
            final(self).same_but_status(old(self)),
            r == if count <= old(pool)@.len() { count } else { old(pool)@.len() as usize },
            final(pool)@ == old(pool)@.subrange(0, old(pool)@.len() - r),
            forall|i: int|
                0 <= i < old(self).len_spec() ==> #[trigger] final(self).status_of(i) == if holds(
                    old(pool)@.subrange(old(pool)@.len() - r, old(pool)@.len() as int),
                    i,
                ) {
                    PluginStatus::Disabled
                } else {
                    old(self).status_of(i)
                },
    {
        let ghost orig = *self;
        let ghost start = pool@;
        let mut popped: usize = 0;
        while popped < count && pool.len() > 0
            invariant
                self.wf(),
                self.same_but_status(&orig),
                popped <= count,
                popped <= start.len(),
                pool@ == start.subrange(0, start.len() - popped),
                forall|a: int| 0 <= a < start.len() ==> (#[trigger] start[a]) < orig.len_spec(),
                forall|i: int|
                    0 <= i < orig.len_spec() ==> #[trigger] self.status_of(i) == if holds(
                        start.subrange(start.len() - popped, start.len() as int),
                        i,
                    ) {
                        PluginStatus::Disabled
                    } else {
                        orig.status_of(i)
                    },
            decreases count - popped,
        {
            let ghost before = *self;
            let i = pool.pop().unwrap();
            assert(i == start[start.len() - popped - 1]);
            self.set_status(i, PluginStatus::Disabled);
            popped = popped + 1;
            proof {
                let tail = start.subrange(start.len() - popped, start.len() as int);
                let prev = start.subrange(start.len() - popped + 1, start.len() as int);
                assert(tail[0] == i);
                assert forall|x: int|
                    0 <= x < orig.len_spec() implies #[trigger] self.status_of(x) == if holds(tail, x) {
                        PluginStatus::Disabled
                    } else {
                        orig.status_of(x)
                    } by {
                    if x != i as int {
                        assert(before.status_of(x) == self.status_of(x));
                        if holds(prev, x) {
                            let a = choose|a: int| 0 <= a < prev.len() && prev[a] as int == x;
                            assert(tail[a + 1] == prev[a]);
                        }
                        if holds(tail, x) {
                            let a = choose|a: int| 0 <= a < tail.len() && tail[a] as int == x;
                            assert(a > 0);
                            assert(prev[a - 1] == tail[a]);
                        }
                    } else {
                        assert(holds(tail, x));
                    }
                }
            }
        }
        popped
    }
}


impl PluginList {
    /// One round of a split: pops up to `count` positions off the end of
    /// `pool`, disables those plugins, then runs the dependency closure.
    /// Returns how many were popped.
    pub fn disable_round(&mut self, pool: &mut Vec<usize>, count: usize) -> (r: usize)
        requires
            old(self).wf(),
            forall|a: int| 0 <= a < old(pool)@.len() ==> (#[trigger] old(pool)@[a]) < old(self).len_spec(),
        ensures
            final(self).wf(),
            final(self).same_but_status(old(self)),
            r == if count <= old(pool)@.len() { count } else { old(pool)@.len() as usize },
            final(pool)@ == old(pool)@.subrange(0, old(pool)@.len() - r),
            closure_seq(
                old(self),
                tail_disabled(statuses(old(self).plugins()), tail_of(old(pool)@, count as int)),
                statuses(final(self).plugins()),
            ),
    {
        let ghost start = *self;
        let ghost whole = pool@;
        let popped = self.disable_from_tail(pool, count);
        let ghost mid = *self;
        self.enable_dependencies();
        proof {
            lemma_closure_seq_of(&mid, self, &start);
            assert(statuses(mid.plugins()) =~= tail_disabled(statuses(start.plugins()), tail_of(whole, count as int))) by {
                assert forall|x: int| 0 <= x < start.len_spec() implies statuses(mid.plugins())[x] == tail_disabled(
                    statuses(start.plugins()),
                    tail_of(whole, count as int),
                )[x] by {
                    assert(statuses(mid.plugins())[x] == mid.status_of(x));
                }
            }
        }
        popped
    }
}

/// Position `i` occurs in `s`.
pub open spec fn holds(s: Seq<usize>, i: int) -> bool {
    exists|a: int| 0 <= a < s.len() && s[a] as int == i
}

/// A modpack being bisected: its plugins, the history of their statuses, and
/// what is shown and asked of the user.
pub struct Modpack {
    path: String,
    plugins: PluginList,
    loader: Option<ModpackLoader>,
    display_order: Vec<(PluginStatus, Vec<String>)>,
    to_ask: Vec<AskingEnable>,
    undo_queue: Vec<UndoState>,
    undo_queue_location: usize,
    tracker: EventTracker,
}

impl Modpack {
    pub closed spec fn list(&self) -> PluginList {
        self.plugins
    }

    /// The recorded snapshots, oldest first.
    pub closed spec fn history(&self) -> Seq<Seq<PluginStatus>> {
        self.undo_queue@.map_values(|u: UndoState| u.plugins@)
    }

    /// The position in the history of the state shown.
    pub closed spec fn cursor(&self) -> int {
        self.undo_queue_location as int
    }

    /// Whether plugins are still arriving.
    pub closed spec fn loading(&self) -> bool {
        self.loader is Some
    }

    pub closed spec fn asks(&self) -> Seq<AskingEnable> {
        self.to_ask@
    }

    pub closed spec fn display(&self) -> Seq<(PluginStatus, Seq<Seq<char>>)> {
        group_views(self.display_order@)
    }

    pub closed spec fn wf(&self) -> bool {
        &&& self.plugins.wf()
        &&& self.undo_queue@.len() == 0 ==> self.undo_queue_location == 0
        &&& self.undo_queue@.len() > 0 ==> self.undo_queue_location < self.undo_queue@.len()
        &&& self.loader is Some ==> self.undo_queue@.len() == 0
        &&& self.loader is None ==> forall|k: int|
            0 <= k < self.undo_queue@.len() ==> (#[trigger] self.undo_queue@[k]).plugins@.len()
                == self.plugins.len_spec()
    }

    /// A valid modpack holds a valid plugin list.
    pub proof fn lemma_list_wf(&self)
        requires
            self.wf(),
        ensures
            self.list().wf(),
    {
    }

    /// Once loaded, the cursor points into the history and every snapshot
    /// covers every plugin.
    pub proof fn lemma_history_shape(&self)
        requires
            self.wf(),
        ensures
            self.history().len() > 0 ==> 0 <= self.cursor() < self.history().len(),
            self.loading() ==> self.history().len() == 0,
            !self.loading() ==> forall|k: int|
                0 <= k < self.history().len() ==> (#[trigger] self.history()[k]).len() == self.current().len(),
    {
        assert forall|k: int| !self.loading() && 0 <= k < self.history().len() implies (#[trigger] self.history()[k]).len()
            == self.current().len() by {
            assert(self.history()[k] == self.undo_queue@[k].plugins@);
        }
    }

    /// How many plugins the loader still expects in all; none once loaded.
    pub closed spec fn expected(&self) -> nat {
        match self.loader {
            Some(l) => l.expected(),
            None => 0,
        }
    }

    /// The tick id the modpack last took on the bus.
    pub closed spec fn tracker_last(&self) -> Option<u64> {
        self.tracker.last()
    }

    /// The statuses shown are those of the snapshot at the cursor.
    pub open spec fn synced(&self) -> bool {
        &&& self.history().len() > 0
        &&& self.current() == self.history()[self.cursor()]
    }

    /// The statuses of the plugins, by position.
    pub open spec fn current(&self) -> Seq<PluginStatus> {
        statuses(self.list().plugins())
    }

    pub fn is_loading(&self) -> (r: bool)
        ensures
            r == self.loading(),
    {
        self.loader.is_some()
    }

    /// Where the modpack lives.
    pub closed spec fn location(&self) -> Seq<char> {
        self.path@
    }

    pub fn path(&self) -> (r: &String)
        ensures
            r@ == self.location(),
    {
        &self.path
    }

    pub fn plugins(&self) -> (r: &PluginList)
        ensures
            *r == self.list(),
            self.wf() ==> r.wf(),
    {
        &self.plugins
    }

    pub fn can_undo(&self) -> (r: bool)
        ensures
            r == (self.cursor() > 0),
    {
        self.undo_queue_location > 0
    }

    pub fn can_redo(&self) -> (r: bool)
        requires
            self.wf(),
        ensures
            r == (self.cursor() + 1 < self.history().len()),
    {
        self.undo_queue.len() > 0 && self.undo_queue_location < self.undo_queue.len() - 1
    }

    fn snapshot(&self) -> (r: Vec<PluginStatus>)
        ensures
            r@ == self.current(),
    {
        let mut r: Vec<PluginStatus> = Vec::new();
        let n = self.plugins.len();
        let mut i: usize = 0;
        while i < n
            invariant
                n == self.list().len_spec(),
                i <= n,
                r@ == statuses(self.list().plugins()).subrange(0, i as int),
            decreases n - i,
        {
            r.push(self.plugins.at(i).status);
            i = i + 1;
            assert(r@ =~= statuses(self.list().plugins()).subrange(0, i as int));
        }
        assert(r@ =~= self.current());
        r
    }

    /// Records the current statuses as the newest state, dropping the states
    /// that were ahead of the cursor. Nothing is recorded while loading.
    pub fn save_state(&mut self)
        requires
            old(self).wf(),
        ensures
            keeps_bookkeeping(old(self), final(self)),
            final(self).wf(),
            final(self).list() == old(self).list(),
            final(self).loading() == old(self).loading(),
            final(self).display() == old(self).display(),
            final(self).asks() == old(self).asks(),
            old(self).loading() ==> final(self).history() == old(self).history() && final(self).cursor()
                == old(self).cursor(),
            !old(self).loading() ==> final(self).history() == recorded(
                old(self).history(),
                old(self).cursor(),
                old(self).current(),
            ) && final(self).cursor() == final(self).history().len() - 1 && final(self).synced(),
    {
        if self.loader.is_some() {
            return;
        }
        let ghost h = self.history();
        if self.undo_queue.len() > 0 {
            self.undo_queue.truncate(self.undo_queue_location + 1);
        }
        let snap = self.snapshot();
        self.undo_queue_location = self.undo_queue.len();
        let ghost s = snap@;
        self.undo_queue.push(UndoState { plugins: snap });
        assert(self.history() =~= recorded(h, old(self).cursor(), s));
    }

    /// Regroups the plugin ids by status for display.
    fn update_display_order(&mut self)
        requires
            old(self).wf(),
        ensures
            keeps_bookkeeping(old(self), final(self)),
            final(self).wf(),
            final(self).list() == old(self).list(),
            final(self).history() == old(self).history(),
            final(self).cursor() == old(self).cursor(),
            final(self).loading() == old(self).loading(),
            final(self).asks() == old(self).asks(),
            grouped(final(self).display(), final(self).list().plugins()),
    {
        let groups = self.plugins.display_order();
        self.display_order = groups;
    }

    /// The plugin ids grouped by status, in the order enabled, disabled,
    /// ruled out, each status some plugin holds with its group.
    pub fn display_order(&self) -> (r: &Vec<(PluginStatus, Vec<String>)>)
        ensures
            group_views(r@) == self.display(),
    {
        &self.display_order
    }

    /// The disabled dependencies put before the user after the last split.
    pub fn to_ask(&self) -> (r: &Vec<AskingEnable>)
        ensures
            r@ == self.asks(),
    {
        &self.to_ask
    }

    /// Sets every plugin's status from the state at the cursor.
    fn update_state(&mut self)
        requires
            old(self).wf(),
            old(self).history().len() > 0,
        ensures
            keeps_bookkeeping(old(self), final(self)),
            final(self).wf(),
            final(self).list().same_but_status(&old(self).list()),
            final(self).current() == restored(old(self).current(), old(self).history()[old(self).cursor()]),
            final(self).history() == old(self).history(),
            final(self).cursor() == old(self).cursor(),
            final(self).loading() == old(self).loading(),
            grouped(final(self).display(), final(self).list().plugins()),
    {
        let ghost orig = self.list();
        let loc = self.undo_queue_location;
        let n = self.plugins.len();
        let m = self.undo_queue[loc].plugins.len();
        let ghost snap = self.history()[loc as int];
        assert(self.undo_queue@[loc as int].plugins@ == snap);
        let mut i: usize = 0;
        while i < n && i < m
            invariant
                self.wf(),
                self.undo_queue == old(self).undo_queue,
                self.undo_queue_location == loc,
                loc < self.undo_queue@.len(),
                self.undo_queue@[loc as int].plugins@ == snap,
                m == snap.len(),
                i <= n,
                i <= m,
                n == orig.len_spec(),
                self.list().same_but_status(&orig),
                self.loader == old(self).loader,
                self.tracker == old(self).tracker,
                forall|x: int|
                    0 <= x < n ==> #[trigger] self.list().status_of(x) == if x < i {
                        snap[x]
                    } else {
                        orig.status_of(x)
                    },
            decreases n - i,
        {
            let status = self.undo_queue[loc].plugins[i];
            assert(status == snap[i as int]);
            let ghost before = self.list();
            self.plugins.set_status(i, status);
            proof {
                assert forall|x: int|
                    0 <= x < n implies #[trigger] self.list().status_of(x) == if x < i + 1 {
                        snap[x]
                    } else {
                        orig.status_of(x)
                    } by {
                    if x != i {
                        assert(before.status_of(x) == self.list().status_of(x));
                    }
                }
            }
            i = i + 1;
        }
        assert forall|x: int| 0 <= x < n implies self.current()[x] == restored(statuses(orig.plugins()), snap)[x] by {
            assert(self.list().status_of(x) == self.current()[x]);
            assert(statuses(orig.plugins())[x] == orig.status_of(x));
        }
        assert(self.current() =~= restored(statuses(orig.plugins()), snap));
        self.update_display_order();
    }

    /// Steps back one state. Does nothing while loading or at the oldest state.
    pub fn undo(&mut self)
        requires
            old(self).wf(),
        ensures
            keeps_bookkeeping(old(self), final(self)),
            final(self).wf(),
            final(self).list().same_but_status(&old(self).list()),
            final(self).history() == old(self).history(),
            final(self).loading() == old(self).loading(),
            if old(self).loading() || old(self).cursor() == 0 {
                final(self).cursor() == old(self).cursor() && final(self).current() == old(self).current()
            } else {
                final(self).cursor() == old(self).cursor() - 1 && final(self).current() == restored(
                    old(self).current(),
                    old(self).history()[old(self).cursor() - 1],
                ) && grouped(final(self).display(), final(self).list().plugins()) && final(self).synced()
            },
    {
        if self.loader.is_some() {
            return;
        }
        if self.can_undo() {
            self.undo_queue_location = self.undo_queue_location - 1;
            proof {
                old(self).lemma_history_shape();
            }
            self.update_state();
            assert(self.current() =~= self.history()[self.cursor()]);
        }
    }

    /// Steps forward one state. Does nothing while loading or at the newest state.
    pub fn redo(&mut self)
        requires
            old(self).wf(),
        ensures
            keeps_bookkeeping(old(self), final(self)),
            final(self).wf(),
            final(self).list().same_but_status(&old(self).list()),
            final(self).history() == old(self).history(),
            final(self).loading() == old(self).loading(),
            if old(self).loading() || old(self).cursor() + 1 >= old(self).history().len() {
                final(self).cursor() == old(self).cursor() && final(self).current() == old(self).current()
            } else {
                final(self).cursor() == old(self).cursor() + 1 && final(self).current() == restored(
                    old(self).current(),
                    old(self).history()[old(self).cursor() + 1],
                ) && grouped(final(self).display(), final(self).list().plugins()) && final(self).synced()
            },
    {
        if self.loader.is_some() {
            return;
        }
        let len = self.undo_queue.len();
        assert(self.history().len() == len);
        if self.can_redo() {
            self.undo_queue_location = self.undo_queue_location + 1;
            proof {
                old(self).lemma_history_shape();
            }
            self.update_state();
            assert(self.current() =~= self.history()[self.cursor()]);
        }
    }
}


/// The positions a sequence of distinct positions covers number its length.
pub proof fn lemma_holds_card(s: Seq<usize>)
    requires
        s.no_duplicates(),
    ensures
        Set::new(|i: int| holds(s, i)).finite(),
        Set::new(|i: int| holds(s, i)).len() == s.len(),
{
    let t = s.map_values(|v: usize| v as int);
    assert forall|a: int, b: int| 0 <= a < t.len() && 0 <= b < t.len() && a != b implies t[a] != t[b] by {
        assert(s[a] != s[b]);
    }
    assert(t.no_duplicates());
    t.unique_seq_to_set();
    assert forall|i: int| #[trigger] t.to_set().contains(i) <==> holds(s, i) by {
        if holds(s, i) {
            let a = choose|a: int| 0 <= a < s.len() && s[a] as int == i;
            assert(t[a] == i);
        }
        if t.to_set().contains(i) {
            let a = choose|a: int| 0 <= a < t.len() && t[a] == i;
            assert(s[a] as int == i);
        }
    }
    assert(t.to_set() =~= Set::new(|i: int| holds(s, i)));
    vstd::seq_lib::seq_to_set_is_finite(t);
}

impl Modpack {
    /// Flips every unlocked plugin between enabled and disabled, leaving the
    /// ruled-out ones alone, and records the result. Does nothing while loading.
    pub fn invert(&mut self)
        requires
            old(self).wf(),
        ensures
            keeps_bookkeeping(old(self), final(self)),
            final(self).wf(),
            final(self).loading() == old(self).loading(),
            final(self).list().same_but_status(&old(self).list()),
            old(self).loading() ==> final(self).current() == old(self).current() && final(self).history()
                == old(self).history() && final(self).cursor() == old(self).cursor(),
            !old(self).loading() ==> {
                &&& final(self).current() == inverted(old(self).list().plugins())
                &&& final(self).history() == recorded(
                    old(self).history(),
                    old(self).cursor(),
                    final(self).current(),
                )
                &&& final(self).cursor() == final(self).history().len() - 1
                &&& grouped(final(self).display(), final(self).list().plugins())
                &&& final(self).synced()
            },
    {
        if self.loader.is_some() {
            return;
        }
        let ghost orig = self.list();
        let n = self.plugins.len();
        let mut i: usize = 0;
        while i < n
            invariant
                self.wf(),
                self.loader is None,
                self.tracker == old(self).tracker,
                n == orig.len_spec(),
                i <= n,
                self.list().same_but_status(&orig),
                self.history() == old(self).history(),
                self.cursor() == old(self).cursor(),
                forall|x: int|
                    0 <= x < n ==> #[trigger] self.list().status_of(x) == if x < i {
                        flipped(orig.plugins()[x])
                    } else {
                        orig.status_of(x)
                    },
            decreases n - i,
        {
            let ghost before = self.list();
            let p = self.plugins.at(i);
            if p.forced_status.is_none() {
                if p.status == PluginStatus::Disabled {
                    self.plugins.set_status(i, PluginStatus::Enabled);
                } else if p.status == PluginStatus::Enabled {
                    self.plugins.set_status(i, PluginStatus::Disabled);
                }
            }
            proof {
                assert forall|x: int|
                    0 <= x < n implies #[trigger] self.list().status_of(x) == if x < i + 1 {
                        flipped(orig.plugins()[x])
                    } else {
                        orig.status_of(x)
                    } by {
                    if x != i {
                        assert(before.status_of(x) == self.list().status_of(x));
                    } else {
                        assert(orig.plugins()[x].forced_status == before.plugins()[x].forced_status);
                    }
                }
            }
            i = i + 1;
        }
        assert forall|x: int| 0 <= x < n implies self.current()[x] == inverted(orig.plugins())[x] by {
            assert(self.list().status_of(x) == self.current()[x]);
        }
        assert(self.current() =~= inverted(orig.plugins()));
        self.update_display_order();
        self.save_state();
    }

    /// Rebuilds the list of disabled dependencies to put before the user.
    fn update_ask(&mut self, kind: AskingKind)
        requires
            old(self).wf(),
        ensures
            keeps_bookkeeping(old(self), final(self)),
            final(self).wf(),
            final(self).list() == old(self).list(),
            final(self).history() == old(self).history(),
            final(self).cursor() == old(self).cursor(),
            final(self).loading() == old(self).loading(),
            asks_match(&final(self).list(), final(self).asks(), kind),
    {
        let keys = self.plugins.get_dependant_disabled_mods();
        let mut asks: Vec<AskingEnable> = Vec::new();
        let mut a: usize = 0;
        while a < keys.len()
            invariant
                self.wf(),
                a <= keys@.len(),
                views(keys@).no_duplicates(),
                forall|key: Seq<char>| #[trigger] views(keys@).contains(key) <==> self.list().unmet(key),
                asks@.len() == a,
                forall|b: int|
                    0 <= b < a ==> (#[trigger] asks@[b]).id@ == keys@[b]@ && asks@[b].kind == kind
                        && dependants_match(&self.list(), asks@[b].id@, asks@[b].depended_by@),
            decreases keys@.len() - a,
        {
            let id = keys[a].clone();
            let depended_by = self.plugins.find_dependants(id.as_str());
            asks.push(AskingEnable { id, depended_by, kind });
            a = a + 1;
        }
        self.to_ask = asks;
        proof {
            assert forall|key: Seq<char>| #[trigger] self.list().unmet(key) <==> exists|b: int|
                0 <= b < self.asks().len() && self.asks()[b].id@ == key by {
                if self.list().unmet(key) {
                    assert(views(keys@).contains(key));
                    let b = choose|b: int| 0 <= b < views(keys@).len() && views(keys@)[b] == key;
                    assert(views(keys@)[b] == keys@[b]@);
                    assert(self.asks()[b].id@ == key);
                }
                if exists|b: int| 0 <= b < self.asks().len() && self.asks()[b].id@ == key {
                    let b = choose|b: int| 0 <= b < self.asks().len() && self.asks()[b].id@ == key;
                    assert(views(keys@)[b] == key);
                    assert(views(keys@).contains(key));
                }
            }
            assert forall|b: int, c: int|
                0 <= b < c < self.asks().len() implies self.asks()[b].id@ != self.asks()[c].id@ by {
                assert(views(keys@)[b] == self.asks()[b].id@);
                assert(views(keys@)[c] == self.asks()[c].id@);
            }
        }
    }
}

/// `names` are the ids of the enabled plugins that declare `key`, in
/// registration order.
pub open spec fn dependants_match(l: &PluginList, key: Seq<char>, names: Seq<String>) -> bool {
    views(names) == dependants_in(l.plugins(), key)
}

/// `asks` holds one entry for each unmet dependency key of `l`, of kind
/// `kind`, with the plugins that declare it.
pub open spec fn asks_match(l: &PluginList, asks: Seq<AskingEnable>, kind: AskingKind) -> bool {
    &&& forall|key: Seq<char>| #[trigger] l.unmet(key) <==> exists|b: int|
        0 <= b < asks.len() && asks[b].id@ == key
    &&& forall|b: int, c: int| 0 <= b < c < asks.len() ==> asks[b].id@ != asks[c].id@
    &&& forall|b: int|
        0 <= b < asks.len() ==> (#[trigger] asks[b]).kind == kind && dependants_match(
            l,
            asks[b].id@,
            asks[b].depended_by@,
        )
}

/// The status a split's first step gives a plugin: unlocked disabled ones
/// are ruled out.
pub open spec fn promoted(p: Plugin) -> PluginStatus {
    if p.forced_status is None && p.status == PluginStatus::Disabled {
        PluginStatus::NotTheProblem
    } else {
        p.status
    }
}

/// The plugins that were enabled in `before` and are disabled in `after`.
pub open spec fn newly_disabled(before: &PluginList, after: &PluginList) -> Set<int> {
    Set::new(
        |i: int|
            0 <= i < before.len_spec() && before.is_enabled(i) && after.status_of(i)
                == PluginStatus::Disabled,
    )
}

/// The positions holding an enabled status.
pub open spec fn enabled_in(s: Seq<PluginStatus>) -> Set<int> {
    Set::new(|i: int| 0 <= i < s.len() && s[i] == PluginStatus::Enabled)
}

/// The candidates of `l` that `s` leaves not enabled.
pub open spec fn disabled_candidates(l: &PluginList, s: Seq<PluginStatus>) -> Set<int> {
    Set::new(|i: int| candidates(l).contains(i) && s[i] != PluginStatus::Enabled)
}

/// `order` lists the candidates of `l`, each once, most stable first and
/// ties by position: the order a split takes them in.
pub open spec fn in_split_order(l: &PluginList, order: Seq<usize>) -> bool {
    &&& order.no_duplicates()
    &&& forall|x: int| holds(order, x) <==> #[trigger] candidates(l).contains(x)
    &&& forall|a: int, b: int|
        0 <= a < b < order.len() ==> split_before(l, #[trigger] order[a] as int, #[trigger] order[b] as int)
}

/// The statuses after a split's first step (unlocked disabled plugins ruled
/// out) and its first round of disabling: the last half of `order`.
pub open spec fn first_round(l: &PluginList, order: Seq<usize>) -> Seq<PluginStatus> {
    Seq::new(
        l.len_spec(),
        |x: int|
            if holds(order.subrange(order.len() - order.len() / 2, order.len() as int), x) {
                PluginStatus::Disabled
            } else {
                promoted(l.plugins()[x])
            },
    )
}

/// `s` is what the dependency closure makes of the statuses `b` on the
/// plugins of `l`: only unlocked plugins change and only to enabled, the
/// enabled set is closed, and it lies in every closed set containing the
/// enabled set of `b`.
pub open spec fn closure_seq(l: &PluginList, b: Seq<PluginStatus>, s: Seq<PluginStatus>) -> bool {
    &&& b.len() == l.len_spec()
    &&& s.len() == l.len_spec()
    &&& forall|i: int| 0 <= i < s.len() && b[i] == PluginStatus::Enabled ==> #[trigger] s[i] == PluginStatus::Enabled
    &&& forall|i: int|
        0 <= i < s.len() && #[trigger] s[i] != b[i] ==> s[i] == PluginStatus::Enabled && !l.locked(i)
    &&& l.closed(enabled_in(s))
    &&& forall|t: Set<int>| enabled_in(b).subset_of(t) && l.closed(t) ==> #[trigger] enabled_in(s).subset_of(t)
}

proof fn lemma_closure_seq_of(a: &PluginList, b: &PluginList, l: &PluginList)
    requires
        a.same_but_status(l),
        closure_of(a, b),
    ensures
        closure_seq(l, statuses(a.plugins()), statuses(b.plugins())),
{
    lemma_same_shape(a, l);
    lemma_same_shape(b, l);
    assert(enabled_in(statuses(a.plugins())) =~= a.enabled_set());
    assert(enabled_in(statuses(b.plugins())) =~= b.enabled_set());
    let sa = statuses(a.plugins());
    let sb = statuses(b.plugins());
    assert forall|i: int| 0 <= i < sb.len() && sa[i] == PluginStatus::Enabled implies #[trigger] sb[i] == PluginStatus::Enabled by {
        assert(a.is_enabled(i));
    }
    assert forall|i: int| 0 <= i < sb.len() && #[trigger] sb[i] != sa[i] implies sb[i] == PluginStatus::Enabled && !l.locked(i) by {
        assert(b.status_of(i) != a.status_of(i));
        assert(a.locked(i) == l.locked(i));
    }
}

proof fn lemma_closure_seq_unique(l: &PluginList, b: Seq<PluginStatus>, s1: Seq<PluginStatus>, s2: Seq<PluginStatus>)
    requires
        closure_seq(l, b, s1),
        closure_seq(l, b, s2),
    ensures
        s1 == s2,
{
    assert(enabled_in(b).subset_of(enabled_in(s1)));
    assert(enabled_in(b).subset_of(enabled_in(s2)));
    assert(enabled_in(s2).subset_of(enabled_in(s1)));
    assert(enabled_in(s1).subset_of(enabled_in(s2)));
    assert forall|i: int| 0 <= i < s1.len() implies s1[i] == s2[i] by {
        if s1[i] == PluginStatus::Enabled {
            assert(enabled_in(s1).contains(i));
        } else if s2[i] == PluginStatus::Enabled {
            assert(enabled_in(s2).contains(i));
        }
    }
    assert(s1 =~= s2);
}

/// Two duplicate-free sequences over the same positions, both sorted by
/// `split_before`, are the same.
proof fn lemma_order_unique(l: &PluginList, o1: Seq<usize>, o2: Seq<usize>)
    requires
        o1.no_duplicates(),
        o2.no_duplicates(),
        forall|x: int| holds(o1, x) <==> holds(o2, x),
        forall|a: int, b: int| 0 <= a < b < o1.len() ==> split_before(l, #[trigger] o1[a] as int, #[trigger] o1[b] as int),
        forall|a: int, b: int| 0 <= a < b < o2.len() ==> split_before(l, #[trigger] o2[a] as int, #[trigger] o2[b] as int),
    ensures
        o1 == o2,
    decreases o1.len(),
{
    if o1.len() == 0 {
        if o2.len() > 0 {
            assert(holds(o2, o2[0] as int));
        }
        assert(o1 =~= o2);
    } else {
        assert(holds(o1, o1[0] as int));
        assert(o2.len() > 0);
        assert(holds(o2, o2[0] as int));
        let a = choose|a: int| 0 <= a < o1.len() && o1[a] as int == o2[0] as int;
        let b = choose|b: int| 0 <= b < o2.len() && o2[b] as int == o1[0] as int;
        if a > 0 && b > 0 {
            assert(split_before(l, o1[0] as int, o1[a] as int));
            assert(split_before(l, o2[0] as int, o2[b] as int));
            assert(false);
        }
        assert(o1[0] == o2[0]);
        let r1 = o1.drop_first();
        let r2 = o2.drop_first();
        assert forall|x: int| holds(r1, x) <==> holds(r2, x) by {
            if holds(r1, x) {
                let c = choose|c: int| 0 <= c < r1.len() && r1[c] as int == x;
                assert(o1[c + 1] as int == x);
                assert(holds(o1, x));
                let d = choose|d: int| 0 <= d < o2.len() && o2[d] as int == x;
                if d == 0 {
                    assert(o1[0] == o1[c + 1]);
                }
                assert(r2[d - 1] as int == x);
            }
            if holds(r2, x) {
                let c = choose|c: int| 0 <= c < r2.len() && r2[c] as int == x;
                assert(o2[c + 1] as int == x);
                assert(holds(o2, x));
                let d = choose|d: int| 0 <= d < o1.len() && o1[d] as int == x;
                if d == 0 {
                    assert(o2[0] == o2[c + 1]);
                }
                assert(r1[d - 1] as int == x);
            }
        }
        assert forall|c: int, d: int| 0 <= c < d < r1.len() implies split_before(l, #[trigger] r1[c] as int, #[trigger] r1[d] as int) by {
            assert(r1[c] == o1[c + 1] && r1[d] == o1[d + 1]);
        }
        assert forall|c: int, d: int| 0 <= c < d < r2.len() implies split_before(l, #[trigger] r2[c] as int, #[trigger] r2[d] as int) by {
            assert(r2[c] == o2[c + 1] && r2[d] == o2[d + 1]);
        }
        assert(r1.no_duplicates());
        assert(r2.no_duplicates());
        lemma_order_unique(l, r1, r2);
        assert(o1 =~= seq![o1[0]] + r1);
        assert(o2 =~= seq![o2[0]] + r2);
    }
}

/// `pool` lists, each once and in any order, the candidates of `l` that
/// `s` leaves enabled.
pub open spec fn pool_of(l: &PluginList, s: Seq<PluginStatus>, pool: Seq<usize>) -> bool {
    &&& pool.no_duplicates()
    &&& forall|x: int| holds(pool, x) <==> candidates(l).contains(x) && s[x] == PluginStatus::Enabled
}

/// `s` with the positions in `tail` disabled.
pub open spec fn tail_disabled(s: Seq<PluginStatus>, tail: Seq<usize>) -> Seq<PluginStatus> {
    Seq::new(s.len(), |x: int| if holds(tail, x) { PluginStatus::Disabled } else { s[x] })
}

/// The last `count` entries of `pool`, or all of it if it is shorter.
pub open spec fn tail_of(pool: Seq<usize>, count: int) -> Seq<usize> {
    let m = if count <= pool.len() { count } else { pool.len() as int };
    pool.subrange(pool.len() - m, pool.len() as int)
}

/// The statuses after a split's first step: unlocked disabled plugins ruled out.
pub open spec fn ruled_out(l: &PluginList) -> Seq<PluginStatus> {
    Seq::new(l.len_spec(), |x: int| promoted(l.plugins()[x]))
}

/// The rounds of a split on `l`: `rounds[0]` is the state after ruling out;
/// round `j` pops from the tail of `pools[j]` what is still short of half the
/// candidates, disables it and runs the closure, giving `rounds[j + 1]`. The
/// first pool is `order`; each later one lists, in any order, the candidates
/// the round before left enabled. Rounds go on while fewer than half the
/// candidates are disabled, a hundred at most.
pub open spec fn split_rounds(
    l: &PluginList,
    order: Seq<usize>,
    rounds: Seq<Seq<PluginStatus>>,
    pools: Seq<Seq<usize>>,
) -> bool {
    let half = candidates(l).len() / 2;
    &&& rounds.len() == pools.len() + 1
    &&& 1 <= pools.len() <= 100
    &&& rounds[0] == ruled_out(l)
    &&& pools[0] == order
    &&& forall|j: int| 1 <= j < pools.len() ==> pool_of(l, rounds[j], #[trigger] pools[j])
    &&& forall|j: int|
        0 <= j < pools.len() ==> closure_seq(
            l,
            tail_disabled(rounds[j], tail_of(#[trigger] pools[j], half - disabled_candidates(l, rounds[j]).len())),
            rounds[j + 1],
        )
    &&& forall|j: int| 1 <= j < pools.len() ==> disabled_candidates(l, #[trigger] rounds[j]).len() < half
    &&& disabled_candidates(l, rounds.last()).len() >= half || pools.len() == 100
}

/// Closure facts carry over between lists that differ only in statuses.
proof fn lemma_closure_seq_shape(a: &PluginList, l: &PluginList, b: Seq<PluginStatus>, s: Seq<PluginStatus>)
    requires
        a.same_but_status(l),
        closure_seq(a, b, s),
    ensures
        closure_seq(l, b, s),
{
    lemma_same_shape(a, l);
    assert forall|i: int| 0 <= i < s.len() && #[trigger] s[i] != b[i] implies s[i] == PluginStatus::Enabled && !l.locked(i) by {
        assert(a.locked(i) == l.locked(i));
    }
}

/// Without dependencies between plugins, the closure changes no status.
proof fn lemma_closure_seq_idle(l: &PluginList, b: Seq<PluginStatus>, s: Seq<PluginStatus>)
    requires
        independent(l),
        closure_seq(l, b, s),
    ensures
        s == b,
{
    assert(l.closed(enabled_in(b)));
    assert(enabled_in(s).subset_of(enabled_in(b)));
    assert forall|i: int| 0 <= i < s.len() implies s[i] == b[i] by {
        if s[i] != b[i] {
            assert(enabled_in(s).contains(i));
        }
    }
    assert(s =~= b);
}

/// Without dependencies between plugins, the closure changes nothing.
proof fn lemma_closure_idle(a: &PluginList, b: &PluginList)
    requires
        independent(a),
        b.same_but_status(a),
        forall|i: int| 0 <= i < a.len_spec() && #[trigger] a.is_enabled(i) ==> b.is_enabled(i),
        forall|i: int|
            0 <= i < a.len_spec() && #[trigger] b.status_of(i) != a.status_of(i) ==> b.is_enabled(i),
        forall|t: Set<int>|
            a.enabled_set().subset_of(t) && a.closed(t) ==> #[trigger] b.enabled_set().subset_of(t),
    ensures
        forall|i: int| 0 <= i < a.len_spec() ==> #[trigger] b.status_of(i) == a.status_of(i),
{
    assert(a.closed(a.enabled_set()));
    assert(b.enabled_set().subset_of(a.enabled_set()));
    assert forall|i: int| 0 <= i < a.len_spec() implies #[trigger] b.status_of(i) == a.status_of(i) by {
        if b.status_of(i) != a.status_of(i) {
            assert(b.enabled_set().contains(i));
        }
    }
}

/// What a split leaves, whatever the shuffles of its later rounds gave.
///
/// The split is recorded; locked plugins keep their status; an unlocked
/// disabled plugin ends ruled out or (re-enabled by the closure) enabled;
/// only former candidates end disabled, at most half of them; the result is
/// closed under dependencies; and when the first round (the least stable
/// half of the candidates disabled, then the closure) already leaves half of
/// the candidates disabled, its outcome is the result. Without dependencies
/// between plugins that is always so, and exactly half the candidates end
/// disabled.
pub open spec fn split_outcome(before: &Modpack, after: &Modpack) -> bool {
    let l = before.list();
    let f = after.list();
    let n = candidates(&l).len();
    &&& after.history() == recorded(before.history(), before.cursor(), after.current())
    &&& after.cursor() == after.history().len() - 1
    &&& f.closed(f.enabled_set())
    &&& forall|i: int| 0 <= i < l.len_spec() && #[trigger] l.locked(i) ==> f.status_of(i) == l.status_of(i)
    &&& forall|i: int|
        0 <= i < l.len_spec() && !l.locked(i) && #[trigger] l.status_of(i) == PluginStatus::Disabled
            ==> f.status_of(i) == PluginStatus::NotTheProblem || f.status_of(i) == PluginStatus::Enabled
    &&& forall|i: int|
        0 <= i < l.len_spec() && !l.locked(i) && #[trigger] f.status_of(i) == PluginStatus::Disabled
            ==> candidates(&l).contains(i)
    &&& forall|i: int|
        0 <= i < l.len_spec() && #[trigger] f.status_of(i) == PluginStatus::NotTheProblem
            ==> l.status_of(i) != PluginStatus::Enabled
    &&& disabled_candidates(&l, after.current()).len() <= n / 2
    &&& forall|order: Seq<usize>, s: Seq<PluginStatus>|
        in_split_order(&l, order) && #[trigger] closure_seq(&l, first_round(&l, order), s)
            && disabled_candidates(&l, s).len() >= n / 2 ==> after.current() == s
    &&& independent(&l) ==> forall|order: Seq<usize>|
        #[trigger] in_split_order(&l, order) ==> after.current() == first_round(&l, order)
    &&& independent(&l) ==> newly_disabled(&l, &f).len() == n / 2
    &&& forall|order: Seq<usize>|
        #[trigger] in_split_order(&l, order) ==> exists|rounds: Seq<Seq<PluginStatus>>, pools: Seq<Seq<usize>>|
            #![trigger split_rounds(&l, order, rounds, pools)]
            split_rounds(&l, order, rounds, pools) && rounds.last() == after.current()
    &&& asks_match(&f, after.asks(), AskingKind::SplitDependency)
    &&& grouped(after.display(), f.plugins())
    &&& after.synced()
}

impl Modpack {
    /// Keeps the positions of `pool` that `start` shows enabled.
    fn keep_enabled_in(pool: &Vec<usize>, start: &Vec<PluginStatus>) -> (r: Vec<usize>)
        requires
            pool@.no_duplicates(),
            forall|a: int| 0 <= a < pool@.len() ==> (#[trigger] pool@[a]) < start@.len(),
        ensures
            r@.no_duplicates(),
            forall|x: int| #[trigger] holds(r@, x) <==> holds(pool@, x) && start@[x] == PluginStatus::Enabled,
    {
        let mut r: Vec<usize> = Vec::new();
        let mut k: usize = 0;
        while k < pool.len()
            invariant
                k <= pool@.len(),
                pool@.no_duplicates(),
                forall|a: int| 0 <= a < pool@.len() ==> (#[trigger] pool@[a]) < start@.len(),
                r@.no_duplicates(),
                forall|x: int| #[trigger] holds(r@, x) <==> holds(pool@.subrange(0, k as int), x) && start@[x]
                    == PluginStatus::Enabled,
            decreases pool@.len() - k,
        {
            let x = pool[k];
            let ghost before = r@;
            let ghost pre = pool@.subrange(0, k as int);
            assert(pool@.subrange(0, k + 1) =~= pre.push(x));
            if start[x] == PluginStatus::Enabled {
                r.push(x);
                proof {
                    assert(!holds(before, x as int)) by {
                        if holds(before, x as int) {
                            let a = choose|a: int| 0 <= a < pre.len() && pre[a] as int == x as int;
                            assert(pool@[a] == pool@[k as int]);
                        }
                    }
                    assert forall|a: int, b: int| 0 <= a < r@.len() && 0 <= b < r@.len() && a != b implies r@[a] != r@[b] by {
                        if a == before.len() {
                            assert(r@[b] == before[b]);
                        } else if b == before.len() {
                            assert(r@[a] == before[a]);
                        }
                    }
                }
            }
            k = k + 1;
            proof {
                assert forall|y: int| #[trigger] holds(r@, y) <==> holds(pool@.subrange(0, k as int), y) && start@[y]
                    == PluginStatus::Enabled by {
                    let cur = pool@.subrange(0, k as int);
                    if holds(cur, y) {
                        let a = choose|a: int| 0 <= a < cur.len() && cur[a] as int == y;
                        if a < pre.len() {
                            assert(pre[a] as int == y);
                        }
                    }
                    if holds(pre, y) {
                        let a = choose|a: int| 0 <= a < pre.len() && pre[a] as int == y;
                        assert(cur[a] as int == y);
                    }
                    if holds(r@, y) && !holds(before, y) {
                        let a = choose|a: int| 0 <= a < r@.len() && r@[a] as int == y;
                        assert(a == before.len());
                        assert(cur[k - 1] as int == y);
                    }
                    if holds(before, y) {
                        let a = choose|a: int| 0 <= a < before.len() && before[a] as int == y;
                        assert(r@[a] as int == y);
                    }
                    if holds(cur, y) && !holds(pre, y) && start@[y] == PluginStatus::Enabled {
                        let a = choose|a: int| 0 <= a < cur.len() && cur[a] as int == y;
                        assert(a == k - 1);
                        assert(r@[before.len() as int] as int == y);
                    }
                }
            }
        }
        assert(pool@.subrange(0, pool@.len() as int) == pool@);
        r
    }

    /// Disables about half of the enabled, unlocked plugins, after ruling out
    /// the unlocked ones the previous round had disabled.
    ///
    /// Candidates are taken from the least stable end of the candidate list;
    /// after each round the dependency closure runs, and if it re-enabled
    /// enough that fewer than half of the candidates ended up disabled,
    /// another round pops from a shuffled list of the candidates still
    /// enabled, a hundred rounds at most. The result is recorded. Does
    /// nothing while loading.
    #[verifier::rlimit(60)]
    pub fn split(&mut self)
        requires
            old(self).wf(),
        ensures
            keeps_bookkeeping(old(self), final(self)),
            final(self).wf(),
            final(self).loading() == old(self).loading(),
            final(self).list().same_but_status(&old(self).list()),
            old(self).loading() ==> final(self).current() == old(self).current() && final(self).history()
                == old(self).history() && final(self).cursor() == old(self).cursor(),
            !old(self).loading() ==> split_outcome(old(self), final(self)),
    {
        if self.loader.is_some() {
            return;
        }
        let ghost l0 = self.list();
        let ghost indep = independent(&l0);
        let start = self.snapshot();
        let n = self.plugins.len();
        let mut i: usize = 0;
        while i < n
            invariant
                self.wf(),
                self.loader is None,
                self.tracker == old(self).tracker,
                n == l0.len_spec(),
                i <= n,
                self.list().same_but_status(&l0),
                self.history() == old(self).history(),
                self.cursor() == old(self).cursor(),
                forall|x: int|
                    0 <= x < n ==> #[trigger] self.list().status_of(x) == if x < i {
                        promoted(l0.plugins()[x])
                    } else {
                        l0.status_of(x)
                    },
            decreases n - i,
        {
            let ghost before = self.list();
            let p = self.plugins.at(i);
            if p.forced_status.is_none() && p.status == PluginStatus::Disabled {
                self.plugins.set_status(i, PluginStatus::NotTheProblem);
            }
            proof {
                assert forall|x: int|
                    0 <= x < n implies #[trigger] self.list().status_of(x) == if x < i + 1 {
                        promoted(l0.plugins()[x])
                    } else {
                        l0.status_of(x)
                    } by {
                    if x != i {
                        assert(before.status_of(x) == self.list().status_of(x));
                    }
                }
            }
            i = i + 1;
        }
        let ghost l1 = self.list();
        let ghost cands = candidates(&l0);
        proof {
            lemma_same_shape(&l1, &l0);
            assert(candidates(&l1) =~= cands) by {
                assert forall|x: int| candidates(&l1).contains(x) <==> cands.contains(x) by {
                    if 0 <= x < n {
                        assert(l1.status_of(x) == promoted(l0.plugins()[x]));
                        assert(l1.plugins()[x].forced_status == l0.plugins()[x].forced_status);
                    }
                }
            }
        }
        let mut to_split = self.plugins.splittable_plugins();
        let ghost first_pool = to_split@;
        let original_len = to_split.len();
        let to_disable = original_len / 2;
        let mut disabled: usize = 0;
        let mut attempt: usize = 0;
        let ghost b0 = first_round(&l0, first_pool);
        let ghost mut s1: Seq<PluginStatus> = Seq::empty();
        let ghost mut rs: Seq<Seq<PluginStatus>> = seq![self.current()];
        let ghost mut ps_seq: Seq<Seq<usize>> = Seq::empty();
        proof {
            assert forall|x: int| holds(first_pool, x) <==> #[trigger] cands.contains(x) by {
                if cands.contains(x) {
                    assert(first_pool.contains(x as usize));
                    let a = choose|a: int| 0 <= a < first_pool.len() && first_pool[a] == x as usize;
                    assert(first_pool[a] as int == x);
                }
                if holds(first_pool, x) {
                    let a = choose|a: int| 0 <= a < first_pool.len() && first_pool[a] as int == x;
                    assert(candidates(&l1).contains(first_pool[a] as int));
                }
            }
            assert(Set::new(|x: int| holds(first_pool, x)) =~= cands);
            lemma_holds_card(first_pool);
            assert forall|a: int, b: int| 0 <= a < b < first_pool.len() implies split_before(&l0, #[trigger] first_pool[a] as int, #[trigger] first_pool[b] as int) by {
                assert(split_before(&l1, first_pool[a] as int, first_pool[b] as int));
                assert(l1.plugins()[first_pool[a] as int].stability == l0.plugins()[first_pool[a] as int].stability);
                assert(l1.plugins()[first_pool[b] as int].stability == l0.plugins()[first_pool[b] as int].stability);
            }
            assert(in_split_order(&l0, first_pool));
            assert(disabled_candidates(&l0, self.current()) =~= Set::<int>::empty()) by {
                assert forall|x: int| !disabled_candidates(&l0, self.current()).contains(x) by {
                    if cands.contains(x) {
                        assert(self.current()[x] == self.list().status_of(x));
                    }
                }
            }
            assert(Set::new(|x: int| holds(to_split@, x)) =~= Set::new(|x: int| cands.contains(x) && self.current()[x] == PluginStatus::Enabled)) by {
                assert forall|x: int| holds(to_split@, x) <==> cands.contains(x) && self.current()[x] == PluginStatus::Enabled by {
                    if cands.contains(x) {
                        assert(self.current()[x] == self.list().status_of(x));
                    }
                }
            }
        }
        assert(self.current() =~= ruled_out(&l0)) by {
            assert forall|x: int| 0 <= x < n implies self.current()[x] == ruled_out(&l0)[x] by {
                assert(self.current()[x] == l1.status_of(x));
            }
        }
        while attempt < 100
            invariant_except_break
                attempt == 0 ==> to_split@ == first_pool && disabled == 0 && self.list() == l1,
                indep ==> attempt == 0,
                rs.len() == attempt + 1,
                ps_seq.len() == attempt,
                attempt <= 100,
                rs.last() == self.current(),
                rs[0] == ruled_out(&l0),
                attempt > 0 ==> ps_seq[0] == first_pool,
                forall|j: int| 1 <= j < ps_seq.len() ==> pool_of(&l0, rs[j], #[trigger] ps_seq[j]),
                forall|j: int|
                    0 <= j < ps_seq.len() ==> closure_seq(
                        &l0,
                        tail_disabled(rs[j], tail_of(#[trigger] ps_seq[j], to_disable - disabled_candidates(&l0, rs[j]).len())),
                        rs[j + 1],
                    ),
                forall|j: int| 1 <= j < rs.len() ==> disabled_candidates(&l0, #[trigger] rs[j]).len() < to_disable,
            invariant
                self.wf(),
                self.loader is None,
                self.tracker == old(self).tracker,
                self.list().same_but_status(&l0),
                self.history() == old(self).history(),
                self.cursor() == old(self).cursor(),
                n == l0.len_spec(),
                start@ == statuses(l0.plugins()),
                l1.same_but_status(&l0),
                l1.wf(),
                first_pool.len() == original_len,
                in_split_order(&l0, first_pool),
                cands == candidates(&l0),
                cands.finite(),
                cands.len() == original_len,
                to_disable == original_len / 2,
                indep == independent(&l0),
                b0 == first_round(&l0, first_pool),
                forall|x: int| 0 <= x < n ==> #[trigger] l1.status_of(x) == promoted(l0.plugins()[x]),
                to_split@.no_duplicates(),
                Set::new(|x: int| holds(to_split@, x)) == Set::new(
                    |x: int| cands.contains(x) && self.current()[x] == PluginStatus::Enabled,
                ),
                disabled == disabled_candidates(&l0, self.current()).len(),
                disabled <= to_disable,
                forall|x: int|
                    0 <= x < n && #[trigger] cands.contains(x) ==> self.list().status_of(x) == PluginStatus::Enabled
                        || self.list().status_of(x) == PluginStatus::Disabled,
                forall|x: int|
                    0 <= x < n && !cands.contains(x) && #[trigger] self.list().status_of(x) != l1.status_of(x)
                        ==> self.list().status_of(x) == PluginStatus::Enabled && !l0.locked(x),
                attempt > 0 ==> self.list().closed(self.list().enabled_set()),
                attempt > 0 ==> closure_seq(&l0, b0, s1) && disabled_candidates(&l0, s1).len() < to_disable,
            ensures
                self.list().closed(self.list().enabled_set()),
                closure_seq(&l0, b0, s1),
                self.current() == s1 || disabled_candidates(&l0, s1).len() < to_disable,
                indep ==> self.current() == b0,
                split_rounds(&l0, first_pool, rs, ps_seq),
                rs.last() == self.current(),
            decreases 100 - attempt,
        {
            let ghost before = self.list();
            let ghost pool = to_split@;
            let ghost rs0 = rs;
            let ghost ps0 = ps_seq;
            let count = to_disable - disabled;
            proof {
                assert forall|a: int| 0 <= a < pool.len() implies (#[trigger] pool[a]) < before.len_spec() by {
                    assert(holds(pool, pool[a] as int));
                    assert(Set::new(|x: int| holds(pool, x)).contains(pool[a] as int));
                }
            }
            let popped = self.plugins.disable_round(&mut to_split, count);
            let ghost after_close = self.list();
            let ghost tail = pool.subrange(pool.len() - popped, pool.len() as int);
            let ghost ps = Set::new(|x: int| holds(tail, x));
            let ghost bpop = tail_disabled(statuses(before.plugins()), tail);
            let ghost sc = statuses(after_close.plugins());
            proof {
                lemma_same_shape(&after_close, &before);
                lemma_same_shape(&after_close, &l0);
                lemma_same_shape(&before, &l0);
                assert(tail_of(pool, count as int) == tail);
                lemma_closure_seq_shape(&before, &l0, bpop, sc);
                assert forall|x: int| holds(tail, x) implies cands.contains(x) && before.status_of(x) == PluginStatus::Enabled by {
                    let c = choose|c: int| 0 <= c < tail.len() && tail[c] as int == x;
                    assert(pool[c + pool.len() - popped] == tail[c]);
                    assert(holds(pool, x));
                    assert(Set::new(|y: int| holds(pool, y)).contains(x));
                }
                assert(tail.no_duplicates()) by {
                    assert forall|a: int, b: int| 0 <= a < tail.len() && 0 <= b < tail.len() && a != b implies tail[a] != tail[b] by {
                        assert(tail[a] == pool[a + pool.len() - popped] && tail[b] == pool[b + pool.len() - popped]);
                    }
                }
                lemma_holds_card(tail);
                let dc_before = disabled_candidates(&l0, statuses(before.plugins()));
                let dc_pop = disabled_candidates(&l0, bpop);
                assert(dc_pop =~= dc_before + ps) by {
                    assert forall|x: int| dc_pop.contains(x) <==> (dc_before + ps).contains(x) by {
                        if cands.contains(x) {
                            assert(statuses(before.plugins())[x] == before.status_of(x));
                        }
                    }
                }
                assert(dc_before.disjoint(ps)) by {
                    assert forall|x: int| !(dc_before.contains(x) && ps.contains(x)) by {
                        if ps.contains(x) {
                            assert(statuses(before.plugins())[x] == before.status_of(x));
                        }
                    }
                }
                vstd::set_lib::lemma_len_subset(dc_before, cands);
                vstd::set_lib::lemma_set_disjoint_lens(dc_before, ps);
                assert(dc_pop.len() <= to_disable);
                let dc_close = disabled_candidates(&l0, sc);
                assert(dc_close.subset_of(dc_pop)) by {
                    assert forall|x: int| dc_close.contains(x) implies dc_pop.contains(x) by {
                        assert(sc[x] != bpop[x] ==> sc[x] == PluginStatus::Enabled);
                    }
                }
                vstd::set_lib::lemma_len_subset(dc_pop, cands);
                vstd::set_lib::lemma_len_subset(dc_close, dc_pop);
                assert forall|x: int|
                    0 <= x < n && #[trigger] cands.contains(x) implies after_close.status_of(x) == PluginStatus::Enabled
                        || after_close.status_of(x) == PluginStatus::Disabled by {
                    assert(sc[x] == after_close.status_of(x));
                    assert(statuses(before.plugins())[x] == before.status_of(x));
                }
                assert forall|x: int|
                    0 <= x < n && !cands.contains(x) && #[trigger] after_close.status_of(x) != l1.status_of(x)
                        implies after_close.status_of(x) == PluginStatus::Enabled && !l0.locked(x) by {
                    assert(!holds(tail, x));
                    assert(sc[x] == after_close.status_of(x));
                    assert(statuses(before.plugins())[x] == before.status_of(x));
                }
                assert(bpop == tail_disabled(rs.last(), tail_of(pool, (to_disable - disabled_candidates(&l0, rs.last()).len()) as int)));
                if attempt == 0 {
                    assert(popped == to_disable);
                    assert(tail == first_pool.subrange(first_pool.len() - first_pool.len() / 2, first_pool.len() as int));
                    assert(bpop =~= b0) by {
                        assert forall|x: int| 0 <= x < n implies bpop[x] == b0[x] by {
                            assert(statuses(before.plugins())[x] == before.status_of(x));
                        }
                    }
                    if indep {
                        lemma_closure_seq_idle(&l0, bpop, sc);
                        assert(dc_close =~= ps) by {
                            assert forall|x: int| dc_close.contains(x) <==> ps.contains(x) by {
                                if ps.contains(x) {
                                    assert(cands.contains(x));
                                }
                                if cands.contains(x) {
                                    assert(statuses(before.plugins())[x] == before.status_of(x));
                                }
                            }
                        }
                    }
                }
                assert(enabled_in(sc) =~= after_close.enabled_set());
                assert(after_close.closed(after_close.enabled_set()));
                ps_seq = ps_seq.push(pool);
                rs = rs.push(sc);
                assert(statuses(before.plugins()) == rs0.last());
                assert forall|j: int|
                    0 <= j < ps_seq.len() implies closure_seq(
                        &l0,
                        tail_disabled(rs[j], tail_of(#[trigger] ps_seq[j], to_disable - disabled_candidates(&l0, rs[j]).len())),
                        rs[j + 1],
                    ) by {
                    if j < ps0.len() {
                        assert(ps_seq[j] == ps0[j] && rs[j] == rs0[j] && rs[j + 1] == rs0[j + 1]);
                    } else {
                        assert(rs[j] == rs0.last());
                        assert(rs[j + 1] == sc);
                    }
                }
                assert(pool_of(&l0, rs0.last(), pool)) by {
                    let s1 = Set::new(|y: int| holds(pool, y));
                    let s2 = Set::new(|y: int| cands.contains(y) && rs0.last()[y] == PluginStatus::Enabled);
                    assert(s1 == s2);
                    assert forall|x: int| holds(pool, x) <==> candidates(&l0).contains(x) && rs0.last()[x] == PluginStatus::Enabled by {
                        assert(s1.contains(x) == holds(pool, x));
                        assert(s2.contains(x) == (cands.contains(x) && rs0.last()[x] == PluginStatus::Enabled));
                    }
                }
                assert forall|j: int| 1 <= j < ps_seq.len() implies pool_of(&l0, rs[j], #[trigger] ps_seq[j]) by {
                    if j < ps0.len() {
                        assert(ps_seq[j] == ps0[j] && rs[j] == rs0[j]);
                    } else {
                        assert(ps_seq[j] == pool && rs[j] == rs0.last());
                    }
                }
                assert forall|j: int| 1 <= j < rs0.len() implies disabled_candidates(&l0, #[trigger] rs[j]).len() < to_disable by {
                    assert(rs[j] == rs0[j]);
                }
                assert(rs[0] == rs0[0]);
            }
            let fresh = self.plugins.splittable_plugins();
            let mut pool2 = Self::keep_enabled_in(&fresh, &start);
            let ghost kept = pool2@;
            shuffle(&mut pool2);
            to_split = pool2;
            proof {
                broadcast use vstd::seq_lib::group_to_multiset_ensures;
                let cur = self.current();
                assert(to_split@.to_multiset().len() == kept.to_multiset().len());
                kept.lemma_multiset_has_no_duplicates();
                assert forall|x: usize| to_split@.to_multiset().contains(x) implies to_split@.to_multiset().count(x) == 1 by {
                    assert(kept.to_multiset().contains(x));
                }
                to_split@.lemma_multiset_has_no_duplicates_conv();
                assert forall|x: int| holds(to_split@, x) <==> cands.contains(x) && cur[x] == PluginStatus::Enabled by {
                    if holds(to_split@, x) {
                        let a = choose|a: int| 0 <= a < to_split@.len() && to_split@[a] as int == x;
                        assert(to_split@.contains(to_split@[a]));
                        assert(to_split@.to_multiset().count(to_split@[a]) > 0);
                        assert(kept.contains(to_split@[a]));
                        let b = choose|b: int| 0 <= b < kept.len() && kept[b] == to_split@[a];
                        assert(holds(kept, x));
                        assert(holds(fresh@, x));
                        let c = choose|c: int| 0 <= c < fresh@.len() && fresh@[c] as int == x;
                        assert(candidates(&after_close).contains(fresh@[c] as int));
                        assert(cur[x] == after_close.status_of(x));
                        assert(start@[x] == l0.status_of(x));
                        assert(after_close.plugins()[x].forced_status == l0.plugins()[x].forced_status);
                    }
                    if cands.contains(x) && cur[x] == PluginStatus::Enabled {
                        assert(cur[x] == after_close.status_of(x));
                        assert(after_close.plugins()[x].forced_status == l0.plugins()[x].forced_status);
                        assert(candidates(&after_close).contains(x));
                        assert(fresh@.contains(x as usize));
                        let c = choose|c: int| 0 <= c < fresh@.len() && fresh@[c] == x as usize;
                        assert(holds(fresh@, x));
                        assert(start@[x] == l0.status_of(x));
                        assert(holds(kept, x));
                        let b = choose|b: int| 0 <= b < kept.len() && kept[b] as int == x;
                        assert(kept.contains(kept[b]));
                        assert(kept.to_multiset().count(kept[b]) > 0);
                        assert(to_split@.contains(kept[b]));
                        let a = choose|a: int| 0 <= a < to_split@.len() && to_split@[a] == kept[b];
                    }
                }
                let pset = Set::new(|x: int| holds(to_split@, x));
                assert(pset =~= Set::new(|x: int| cands.contains(x) && cur[x] == PluginStatus::Enabled));
                lemma_holds_card(to_split@);
                assert(pset.subset_of(cands));
                vstd::set_lib::lemma_len_subset(pset, cands);
                vstd::set_lib::lemma_set_difference_len(cands, pset);
                assert(cands.intersect(pset) =~= pset);
                assert(cands.difference(pset) =~= disabled_candidates(&l0, cur));
            }
            disabled = original_len - to_split.len();
            proof {
                if attempt == 0 {
                    s1 = self.current();
                }
            }
            if disabled >= to_disable {
                break;
            }
            attempt = attempt + 1;
        }
        let ghost fin = self.list();
        proof {
            lemma_same_shape(&fin, &l0);
            assert forall|order: Seq<usize>| #[trigger] in_split_order(&l0, order) implies exists|
                rounds: Seq<Seq<PluginStatus>>,
                pools: Seq<Seq<usize>>,
            |
                #![trigger split_rounds(&l0, order, rounds, pools)]
                split_rounds(&l0, order, rounds, pools) && rounds.last() == self.current() by {
                assert forall|x: int| holds(order, x) <==> holds(first_pool, x) by {
                    assert(candidates(&l0).contains(x) == cands.contains(x));
                }
                lemma_order_unique(&l0, order, first_pool);
                assert(split_rounds(&l0, order, rs, ps_seq));
            }
            assert forall|order: Seq<usize>, s: Seq<PluginStatus>|
                in_split_order(&l0, order) && #[trigger] closure_seq(&l0, first_round(&l0, order), s)
                    && disabled_candidates(&l0, s).len() >= cands.len() / 2 implies self.current() == s by {
                assert forall|x: int| holds(order, x) <==> holds(first_pool, x) by {
                    assert(candidates(&l0).contains(x) == cands.contains(x));
                }
                lemma_order_unique(&l0, order, first_pool);
                lemma_closure_seq_unique(&l0, b0, s, s1);
            }
            if indep {
                assert forall|order: Seq<usize>| #[trigger] in_split_order(&l0, order) implies self.current() == first_round(&l0, order) by {
                    assert forall|x: int| holds(order, x) <==> holds(first_pool, x) by {
                        assert(candidates(&l0).contains(x) == cands.contains(x));
                    }
                    lemma_order_unique(&l0, order, first_pool);
                }
                let tail = first_pool.subrange(original_len - to_disable, original_len as int);
                assert(tail.no_duplicates()) by {
                    assert forall|a: int, b: int| 0 <= a < tail.len() && 0 <= b < tail.len() && a != b implies tail[a] != tail[b] by {
                        assert(tail[a] == first_pool[a + original_len - to_disable] && tail[b] == first_pool[b + original_len - to_disable]);
                    }
                }
                lemma_holds_card(tail);
                assert(newly_disabled(&l0, &fin) =~= Set::new(|x: int| holds(tail, x))) by {
                    assert forall|x: int| #[trigger] newly_disabled(&l0, &fin).contains(x) <==> holds(tail, x) by {
                        if 0 <= x < n {
                            assert(self.current()[x] == fin.status_of(x));
                        }
                        if holds(tail, x) {
                            let c = choose|c: int| 0 <= c < tail.len() && tail[c] as int == x;
                            assert(first_pool[c + (original_len - to_disable)] as int == x);
                            assert(holds(first_pool, x));
                            assert(cands.contains(x));
                        }
                    }
                }
            }
            assert forall|x: int|
                0 <= x < n && !l0.locked(x) && #[trigger] l0.status_of(x) == PluginStatus::Disabled
                    implies fin.status_of(x) == PluginStatus::NotTheProblem || fin.status_of(x) == PluginStatus::Enabled by {
                assert(!cands.contains(x));
            }
            assert forall|x: int|
                0 <= x < n && !l0.locked(x) && #[trigger] fin.status_of(x) == PluginStatus::Disabled
                    implies cands.contains(x) by {
                if !cands.contains(x) {
                    assert(l1.status_of(x) == promoted(l0.plugins()[x]));
                }
            }
            assert forall|x: int|
                0 <= x < n && #[trigger] l0.locked(x) implies fin.status_of(x) == l0.status_of(x) by {
                assert(!cands.contains(x));
                assert(l1.status_of(x) == promoted(l0.plugins()[x]));
            }
            assert forall|x: int|
                0 <= x < n && #[trigger] fin.status_of(x) == PluginStatus::NotTheProblem
                    implies l0.status_of(x) != PluginStatus::Enabled by {
                assert(l1.status_of(x) == promoted(l0.plugins()[x]));
                if cands.contains(x) {
                } else if l0.locked(x) {
                }
            }
        }
        self.update_ask(AskingKind::SplitDependency);
        self.update_display_order();
        self.save_state();
    }
}

/// The two modpacks agree on the tick their tracker last took and on how
/// many plugins their loader expects.
pub open spec fn keeps_bookkeeping(a: &Modpack, b: &Modpack) -> bool {
    a.tracker_last() == b.tracker_last() && a.expected() == b.expected()
}

/// The two modpacks agree on plugins, history, cursor and loading.
pub open spec fn same_state(a: &Modpack, b: &Modpack) -> bool {
    &&& a.list() == b.list()
    &&& a.history() == b.history()
    &&& a.cursor() == b.cursor()
    &&& a.loading() == b.loading()
}

/// What carrying out `op` leaves: nothing changes while loading; otherwise
/// undo and redo move the cursor one step where they can and restore that
/// snapshot, and split and invert leave their outcome and record it.
pub open spec fn apply_outcome(op: ModpackOperationEvent, before: &Modpack, after: &Modpack) -> bool {
    &&& after.loading() == before.loading()
    &&& after.list().same_but_status(&before.list())
    &&& before.loading() ==> after.current() == before.current() && after.history() == before.history()
        && after.cursor() == before.cursor()
    &&& !before.loading() ==> match op {
        ModpackOperationEvent::Undo => after.history() == before.history() && if before.cursor() == 0 {
            after.cursor() == 0 && after.current() == before.current()
        } else {
            after.cursor() == before.cursor() - 1 && after.current() == restored(
                before.current(),
                before.history()[before.cursor() - 1],
            ) && after.synced()
        },
        ModpackOperationEvent::Redo => after.history() == before.history() && if before.cursor() + 1
            >= before.history().len() {
            after.cursor() == before.cursor() && after.current() == before.current()
        } else {
            after.cursor() == before.cursor() + 1 && after.current() == restored(
                before.current(),
                before.history()[before.cursor() + 1],
            ) && after.synced()
        },
        ModpackOperationEvent::Split => split_outcome(before, after),
        ModpackOperationEvent::Invert => after.current() == inverted(before.list().plugins())
            && after.history() == recorded(before.history(), before.cursor(), after.current())
            && after.cursor() == after.history().len() - 1 && grouped(after.display(), after.list().plugins())
            && after.synced(),
    }
}

/// The operations among `events`, in order.
pub open spec fn operations(events: Seq<AppEvent>) -> Seq<ModpackOperationEvent>
    decreases events.len(),
{
    if events.len() == 0 {
        Seq::empty()
    } else {
        let rest = operations(events.drop_last());
        match events.last() {
            AppEvent::Operation(op) => rest.push(op),
            _ => rest,
        }
    }
}

/// Carrying out `ops` in turn from the state of `start` can reach the state
/// of `end`: a chain of states, each the outcome of the next operation.
pub open spec fn applied_in_turn(start: &Modpack, ops: Seq<ModpackOperationEvent>, end: &Modpack) -> bool {
    exists|ms: Seq<Modpack>|
        #![trigger ms.len()]
        ms.len() == ops.len() + 1 && same_state(&ms[0], start) && same_state(&ms.last(), end) && forall|k: int|
            0 <= k < ops.len() ==> apply_outcome(#[trigger] ops[k], &ms[k], &ms[k + 1])
}

/// Plugins agree but for their statuses.
pub open spec fn same_but_statuses(a: Seq<Plugin>, b: Seq<Plugin>) -> bool {
    &&& a.len() == b.len()
    &&& forall|i: int|
        0 <= i < a.len() ==> (#[trigger] a[i]).metadata == b[i].metadata && a[i].stability == b[i].stability
            && a[i].forced_status == b[i].forced_status
}

impl Modpack {
    /// A modpack at `path` whose `expected` plugins are still to arrive.
    pub fn new(path: String, expected: usize) -> (r: Modpack)
        ensures
            r.wf(),
            r.loading(),
            r.location() == path@,
            r.list().plugins() == Seq::<Plugin>::empty(),
            r.history() == Seq::<Seq<PluginStatus>>::empty(),
            r.cursor() == 0,
    {
        let r = Modpack {
            path,
            plugins: PluginList::new(),
            loader: Some(ModpackLoader::new(expected)),
            display_order: Vec::new(),
            to_ask: Vec::new(),
            undo_queue: Vec::new(),
            undo_queue_location: 0,
            tracker: EventTracker::new(),
        };
        assert(r.history() =~= Seq::<Seq<PluginStatus>>::empty());
        r
    }

    /// Cycles the lock of plugin `i`: free, locked disabled, locked enabled.
    pub fn cycle_forced(&mut self, i: usize)
        requires
            old(self).wf(),
            i < old(self).list().len_spec(),
        ensures
            final(self).wf(),
            final(self).list().plugins() == old(self).list().plugins().update(
                i as int,
                Plugin {
                    forced_status: match old(self).list().plugins()[i as int].forced_status {
                        None => Some(false),
                        Some(false) => Some(true),
                        Some(true) => Option::<bool>::None,
                    },
                    ..old(self).list().plugins()[i as int]
                },
            ),
            final(self).history() == old(self).history(),
            final(self).cursor() == old(self).cursor(),
            old(self).synced() ==> final(self).synced(),
            final(self).loading() == old(self).loading(),
    {
        let forced = match self.plugins.at(i).forced_status {
            None => Some(false),
            Some(false) => Some(true),
            Some(true) => None,
        };
        let ghost before = self.current();
        self.plugins.set_forced(i, forced);
        assert(self.current() =~= before);
    }

    /// Enables every unlocked plugin again, as when leaving the modpack.
    ///
    /// This ends the session: the statuses it sets are not recorded, so the
    /// state shown no longer matches the snapshot at the cursor.
    pub fn release(&mut self)
        requires
            old(self).wf(),
        ensures
            final(self).wf(),
            final(self).list().same_but_status(&old(self).list()),
            forall|i: int|
                0 <= i < old(self).list().len_spec() ==> #[trigger] final(self).list().status_of(i)
                    == if old(self).list().plugins()[i].forced_status is None {
                    PluginStatus::Enabled
                } else {
                    old(self).list().status_of(i)
                },
            final(self).history() == old(self).history(),
            final(self).cursor() == old(self).cursor(),
            final(self).loading() == old(self).loading(),
    {
        let ghost orig = self.list();
        let n = self.plugins.len();
        let mut i: usize = 0;
        while i < n
            invariant
                self.wf(),
                n == orig.len_spec(),
                i <= n,
                self.list().same_but_status(&orig),
                self.history() == old(self).history(),
                self.cursor() == old(self).cursor(),
                self.loading() == old(self).loading(),
                forall|x: int|
                    0 <= x < n ==> #[trigger] self.list().status_of(x) == if x < i
                        && orig.plugins()[x].forced_status is None {
                        PluginStatus::Enabled
                    } else {
                        orig.status_of(x)
                    },
            decreases n - i,
        {
            let ghost before = self.list();
            if self.plugins.at(i).forced_status.is_none() {
                self.plugins.set_status(i, PluginStatus::Enabled);
            }
            proof {
                assert forall|x: int|
                    0 <= x < n implies #[trigger] self.list().status_of(x) == if x < i + 1
                        && orig.plugins()[x].forced_status is None {
                        PluginStatus::Enabled
                    } else {
                        orig.status_of(x)
                    } by {
                    if x != i {
                        assert(before.status_of(x) == self.list().status_of(x));
                    } else {
                        assert(before.plugins()[x].forced_status == orig.plugins()[x].forced_status);
                    }
                }
            }
            i = i + 1;
        }
    }

    /// Carries out one operation.
    pub fn apply(&mut self, op: ModpackOperationEvent)
        requires
            old(self).wf(),
        ensures
            keeps_bookkeeping(old(self), final(self)),
            final(self).wf(),
            apply_outcome(op, old(self), final(self)),
    {
        match op {
            ModpackOperationEvent::Undo => self.undo(),
            ModpackOperationEvent::Redo => self.redo(),
            ModpackOperationEvent::Split => self.split(),
            ModpackOperationEvent::Invert => self.invert(),
        }
    }

    /// Ends loading: runs the dependency closure, groups the plugins and
    /// records the first state.
    fn finish_loading(&mut self)
        requires
            old(self).wf(),
            old(self).history().len() == 0,
        ensures
            final(self).wf(),
            !final(self).loading(),
            final(self).list().same_but_status(&old(self).list()),
            final(self).list().closed(final(self).list().enabled_set()),
            grouped(final(self).display(), final(self).list().plugins()),
            final(self).history() == seq![final(self).current()],
            final(self).cursor() == 0,
            closure_of(&old(self).list(), &final(self).list()),
            final(self).tracker_last() == old(self).tracker_last(),
    {
        self.loader = None;
        self.plugins.enable_dependencies();
        self.update_display_order();
        self.save_state();
    }

    /// One frame of work: the operations queued on the bus for this modpack
    /// are carried out in order, then what the loader delivered since the
    /// last frame is registered, and the header's view of the modpack is
    /// refreshed.
    pub fn update(&mut self, state: &mut ApplicationState, received: Vec<Option<Plugin>>)
        requires
            old(self).wf(),
            old(state).events.wf(),
            old(state).events.next_id() < u64::MAX - 1,
            old(self).list().len_spec() + received@.len() < usize::MAX,
        ensures
            final(self).wf(),
            final(state).events.wf(),
            final(state).events.next_id() > old(state).events.next_id(),
            final(self).tracker_last() == Some(old(state).events.next_id()),
            !old(self).loading() ==> applied_in_turn(
                old(self),
                operations(payloads(purge_for(old(state).events.events(), old(self).tracker_last()))),
                final(self),
            ),
            final(self).loading() ==> old(self).loading(),
            !old(self).loading() ==> final(self).list().len_spec() == old(self).list().len_spec(),
            old(self).loading() ==> {
                let arrived = old(self).list().plugins() + arrivals(received@);
                let left = if old(self).expected() >= failures(received@) {
                    (old(self).expected() - failures(received@)) as nat
                } else {
                    0nat
                };
                &&& final(self).list().len_spec() == arrived.len()
                &&& final(self).loading() <==> final(self).list().len_spec() < left
                &&& final(self).loading() ==> final(self).list().plugins() == arrived && final(self).expected() == left
                &&& !final(self).loading() ==> same_but_statuses(final(self).list().plugins(), arrived)
                    && closure_seq(&final(self).list(), statuses(arrived), final(self).current())
                &&& grouped(final(self).display(), final(self).list().plugins())
            },
            old(self).loading() && !final(self).loading() ==> {
                &&& final(self).list().closed(final(self).list().enabled_set())
                &&& final(self).history().len() == 1
                &&& final(self).cursor() == 0
                &&& final(self).synced()
            },
            final(state).modpack_status == (ModpackStatus::Active {
                path: final(state).modpack_status->path,
                is_loaded: !final(self).loading(),
                can_undo: final(self).cursor() > 0,
                can_redo: final(self).cursor() + 1 < final(self).history().len(),
            }),
            final(state).modpack_status->path@ == final(self).location(),
    {
        let ghost queue = payloads(purge_for(old(state).events.events(), old(self).tracker_last()));
        let mut ops: Vec<ModpackOperationEvent> = Vec::new();
        {
            let commander = self.tracker.tick(&mut state.events);
            let queued = commander.consume();
            assert(derefs(queued@) == queue);
            let mut k: usize = 0;
            while k < queued.len()
                invariant
                    k <= queued@.len(),
                    ops@ == operations(derefs(queued@).subrange(0, k as int)),
                decreases queued@.len() - k,
            {
                let ghost pre = derefs(queued@).subrange(0, k as int);
                let ghost cur = derefs(queued@).subrange(0, k + 1);
                assert(cur.drop_last() == pre);
                assert(cur.last() == *queued@[k as int]);
                if let AppEvent::Operation(op) = queued[k] {
                    ops.push(*op);
                }
                k = k + 1;
            }
            assert(derefs(queued@).subrange(0, queued@.len() as int) == derefs(queued@));
            proof {
                commander.lemma_resolved();
            }
        }
        let ghost mut ms: Seq<Modpack> = seq![*self];
        let mut k: usize = 0;
        while k < ops.len()
            invariant
                self.wf(),
                self.loading() == old(self).loading(),
                self.list().len_spec() == old(self).list().len_spec(),
                self.loading() ==> self.list().plugins() == old(self).list().plugins() && self.history()
                    == old(self).history() && self.cursor() == old(self).cursor(),
                self.tracker_last() == Some(old(state).events.next_id()),
                self.expected() == old(self).expected(),
                ops@ == operations(queue),
                queue == payloads(purge_for(old(state).events.events(), old(self).tracker_last())),
                k <= ops@.len(),
                ms.len() == k + 1,
                same_state(&ms[0], old(self)),
                ms.last() == *self,
                forall|j: int| 0 <= j < k ==> apply_outcome(#[trigger] ops@[j], &ms[j], &ms[j + 1]),
            decreases ops@.len() - k,
        {
            let ghost before = *self;
            self.apply(ops[k]);
            proof {
                if self.loading() {
                    assert(self.list().plugins() =~= before.list().plugins()) by {
                        assert forall|i: int| 0 <= i < self.list().len_spec() implies self.list().plugins()[i]
                            == before.list().plugins()[i] by {
                            assert(self.current()[i] == before.current()[i]);
                        }
                    }
                }
                ms = ms.push(*self);
            }
            k = k + 1;
        }
        let ghost mid = *self;
        assert(applied_in_turn(old(self), ops@, &mid));
        if self.loader.is_some() {
            let mut loader = self.loader.take().unwrap();
            let result = loader.tick(&mut self.plugins, &mut state.events, received);
            if result.is_err() {
                let ghost appended = self.list();
                self.finish_loading();
                proof {
                    lemma_closure_seq_of(&appended, &self.list(), &self.list());
                }
            } else {
                self.loader = Some(loader);
                self.update_display_order();
            }
        }
        state.modpack_status = ModpackStatus::Active {
            path: self.path.clone(),
            is_loaded: !self.is_loading(),
            can_undo: self.can_undo(),
            can_redo: self.can_redo(),
        };
        assert(ops@ == operations(queue));
        assert(!old(self).loading() ==> applied_in_turn(old(self), operations(queue), self)) by {
            if !old(self).loading() {
                assert(same_state(&mid, self));
                let w = choose|ms: Seq<Modpack>|
                    #![trigger ms.len()]
                    ms.len() == ops@.len() + 1 && same_state(&ms[0], old(self)) && same_state(&ms.last(), &mid)
                        && forall|k: int| 0 <= k < ops@.len() ==> apply_outcome(#[trigger] ops@[k], &ms[k], &ms[k + 1]);
                assert(w.len() == ops@.len() + 1);
            }
        }
    }
}
} // verus!

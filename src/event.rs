//! A publish/consume event bus with generational clearing.
//!
//! Every consumer owns an [`EventTracker`]. Ticking a tracker purges the events
//! that were dispatched at or before the tracker's previous tick, hands the
//! tracker a fresh tick id from the bus-global counter, and returns an
//! [`EventCommander`] that dispatches events tagged with that id and reads the
//! queued events oldest first.
//!
//! One bus carries one payload type `D` (typically an enum of every message the
//! application exchanges), and it may also hold one ambient value of type `S`.
use vstd::prelude::*;

verus! {

/// An event together with the tick id at which it was dispatched.
pub struct EventData<D> {
    pub data: D,
    pub id: u64,
}

/// Drops the leading events whose tick id is at most `id`.
pub open spec fn drop_through<D>(events: Seq<EventData<D>>, id: u64) -> Seq<EventData<D>>
    decreases events.len(),
{
    if events.len() > 0 && events[0].id <= id {
        drop_through(events.drop_first(), id)
    } else {
        events
    }
}

/// Tick ids never decrease from the oldest event to the newest.
pub open spec fn ids_sorted<D>(events: Seq<EventData<D>>) -> bool {
    forall|i: int, j: int| 0 <= i <= j < events.len() ==> events[i].id <= events[j].id
}

/// Every tick id is below `bound`.
pub open spec fn ids_below<D>(events: Seq<EventData<D>>, bound: u64) -> bool {
    forall|i: int| 0 <= i < events.len() ==> events[i].id < bound
}

/// The payloads of `events`, oldest first.
pub open spec fn payloads<D>(events: Seq<EventData<D>>) -> Seq<D> {
    events.map_values(|e: EventData<D>| e.data)
}

/// The values behind a sequence of references.
pub open spec fn derefs<D>(refs: Seq<&D>) -> Seq<D> {
    refs.map_values(|r: &D| *r)
}

/// The queue after a tracker whose previous tick id is `last` ticks again.
pub open spec fn purge_for<D>(events: Seq<EventData<D>>, last: Option<u64>) -> Seq<EventData<D>> {
    match last {
        Some(k) => drop_through(events, k),
        None => events,
    }
}

/// The queue of events of one payload type, oldest first.
pub struct EventStorage<D> {
    events: std::collections::VecDeque<EventData<D>>,
}

impl<D> View for EventStorage<D> {
    type V = Seq<EventData<D>>;

    closed spec fn view(&self) -> Seq<EventData<D>> {
        self.events@
    }
}

impl<D> EventStorage<D> {
    pub fn new() -> (r: EventStorage<D>)
        ensures
            r@ == Seq::<EventData<D>>::empty(),
    {
        EventStorage { events: std::collections::VecDeque::new() }
    }

    /// Removes every event dispatched at or before tick `id`, oldest first,
    /// stopping at the first younger one.
    pub fn clear_ids(&mut self, id: u64)
        ensures
            final(self)@ == drop_through(old(self)@, id),
    {
        while self.events.len() > 0 && self.events[0].id <= id
            invariant
                drop_through(self@, id) == drop_through(old(self)@, id),
            decreases self@.len(),
        {
            let ghost before = self@;
            self.events.pop_front();
            assert(self@ == before.drop_first());
        }
    }

    fn push(&mut self, event: EventData<D>)
        ensures
            final(self)@ == old(self)@.push(event),
    {
        self.events.push_back(event);
    }

    fn payloads(&self) -> (r: Vec<&D>)
        ensures
            derefs(r@) == payloads(self@),
    {
        let mut r: Vec<&D> = Vec::new();
        let n = self.events.len();
        let mut i: usize = 0;
        while i < n
            invariant
                n == self@.len(),
                i <= n,
                derefs(r@) == payloads(self@.subrange(0, i as int)),
            decreases n - i,
        {
            let ghost prev = r@;
            let e = &self.events[i];
            assert(*e == self@[i as int]);
            r.push(&e.data);
            assert(derefs(r@) =~= derefs(prev).push(self@[i as int].data));
            i = i + 1;
            assert(self@.subrange(0, i as int) == self@.subrange(0, i - 1).push(self@[i - 1]));
            assert(derefs(r@) =~= payloads(self@.subrange(0, i as int)));
        }
        assert(self@.subrange(0, n as int) == self@);
        r
    }
}

/// Operations common to the queues of a bus.
pub trait EventStorageDyn {
    fn clear_ids(&mut self, id: u64);
}

impl<D> EventStorageDyn for EventStorage<D> {
    fn clear_ids(&mut self, id: u64) {
        EventStorage::clear_ids(self, id);
    }
}

/// The bus: one queue, one optional ambient value, and the global tick counter.
pub struct EventSystem<D, S = ()> {
    storage: EventStorage<D>,
    state: Option<S>,
    id: u64,
}

impl<D, S> EventSystem<D, S> {
    /// The queued events, oldest first.
    pub closed spec fn events(&self) -> Seq<EventData<D>> {
        self.storage@
    }

    /// The tick id the next tracker to tick will receive.
    pub closed spec fn next_id(&self) -> u64 {
        self.id
    }

    /// The ambient value, if one was set.
    pub closed spec fn state(&self) -> Option<S> {
        self.state
    }

    /// Queued events are in tick order and all older than the counter.
    pub open spec fn wf(&self) -> bool {
        ids_sorted(self.events()) && ids_below(self.events(), self.next_id())
    }

    pub fn new() -> (r: EventSystem<D, S>)
        ensures
            r.events() == Seq::<EventData<D>>::empty(),
            r.next_id() == 0,
            r.state() == Option::<S>::None,
            r.wf(),
    {
        EventSystem { storage: EventStorage::new(), state: None, id: 0 }
    }

    /// The tick id the next tracker to tick will receive.
    pub fn current_id(&self) -> (r: u64)
        ensures
            r == self.next_id(),
    {
        self.id
    }

    /// The ambient value; asking before one was set is a programming error.
    pub fn get(&self) -> (r: &S)
        requires
            self.state() is Some,
        ensures
            *r == self.state()->Some_0,
    {
        self.state.as_ref().unwrap()
    }

    pub fn get_mut(&mut self) -> (r: &mut S)
        requires
            old(self).state() is Some,
        ensures
            *r == old(self).state()->Some_0,
            final(self).state() == Some(*final(r)),
            final(self).events() == old(self).events(),
            final(self).next_id() == old(self).next_id(),
    {
        self.state.as_mut().unwrap()
    }

    pub fn set(&mut self, value: S)
        ensures
            final(self).state() == Some(value),
            final(self).events() == old(self).events(),
            final(self).next_id() == old(self).next_id(),
    {
        self.state = Some(value);
    }

    /// Ticks `tracker` on this bus.
    pub fn run<'a>(&'a mut self, tracker: &mut EventTracker) -> (r: EventCommander<'a, D, S>)
        requires
            old(self).wf(),
            old(self).next_id() < u64::MAX,
        ensures
            final(tracker).last() == Some(old(self).next_id()),
            r.id() == old(self).next_id(),
            r.system().events() == purge_for(old(self).events(), old(tracker).last()),
            r.system().next_id() == old(self).next_id() + 1,
            r.system().state() == old(self).state(),
            r.wf(),
            *final(self) == *final(r.bus()),
    {
        tracker.tick(self)
    }

    fn storage(&self) -> (r: &EventStorage<D>)
        ensures
            r@ == self.events(),
    {
        &self.storage
    }

    fn storage_mut(&mut self) -> (r: &mut EventStorage<D>)
        ensures
            *r == old(self).storage,
            final(self).storage == *final(r),
            final(self).state == old(self).state,
            final(self).id == old(self).id,
    {
        &mut self.storage
    }
}

/// A consumer's cursor: the tick id it last advanced to.
pub struct EventTracker {
    last_id: Option<u64>,
}

impl EventTracker {
    pub closed spec fn last(&self) -> Option<u64> {
        self.last_id
    }

    pub fn new() -> (r: EventTracker)
        ensures
            r.last() == Option::<u64>::None,
    {
        EventTracker { last_id: None }
    }

    /// Purges what this tracker saw at its previous tick, takes a fresh tick id
    /// and returns a commander bound to it.
    pub fn tick<'a, D, S>(&mut self, system: &'a mut EventSystem<D, S>) -> (r: EventCommander<'a, D, S>)
        requires
            old(system).wf(),
            old(system).next_id() < u64::MAX,
        ensures
            final(self).last() == Some(old(system).next_id()),
            r.id() == old(system).next_id(),
            r.system().events() == purge_for(old(system).events(), old(self).last()),
            r.system().next_id() == old(system).next_id() + 1,
            r.system().state() == old(system).state(),
            r.wf(),
            *final(system) == *final(r.bus()),
    {
        let ghost before = system.events();
        if let Some(id) = self.last_id {
            let storage = system.storage_mut();
            storage.clear_ids(id);
            proof {
                lemma_drop_through_suffix(before, id);
            }
        }
        let id = system.id;
        self.last_id = Some(id);
        system.id = system.id + 1;
        EventCommander { id, system }
    }
}

/// Dispatches and reads events on behalf of one tracker, for one tick.
pub struct EventCommander<'a, D, S = ()> {
    id: u64,
    system: &'a mut EventSystem<D, S>,
}

impl<'a, D, S> EventCommander<'a, D, S> {
    /// The tick id this commander tags its events with.
    pub closed spec fn id(&self) -> u64 {
        self.id
    }

    /// The borrow of the bus this commander holds.
    pub closed spec fn bus(&self) -> &'a mut EventSystem<D, S> {
        self.system
    }

    /// The bus as this commander sees it.
    pub open spec fn system(&self) -> EventSystem<D, S> {
        *self.bus()
    }

    /// Once the commander is done with, the bus holds what it last saw.
    pub proof fn lemma_resolved(&self)
        requires
            has_resolved(*self),
        ensures
            self.system() == *final(self.bus()),
    {
        assert(has_resolved(self.system));
    }

    /// The commander holds the newest tick id, so its events keep the queue sorted.
    pub open spec fn wf(&self) -> bool {
        &&& self.system().wf()
        &&& self.id() + 1 == self.system().next_id()
    }

    /// Queues `event` as the newest one, tagged with this commander's tick id.
    pub fn dispatch(&mut self, event: D)
        requires
            old(self).wf(),
        ensures
            final(self).id() == old(self).id(),
            final(self).system().events() == old(self).system().events().push(
                EventData { data: event, id: old(self).id() },
            ),
            final(self).system().next_id() == old(self).system().next_id(),
            final(self).system().state() == old(self).system().state(),
            final(self).wf(),
            *final(final(self).bus()) == *final(old(self).bus()),
    {
        let ghost before = self.system.events();
        let data = EventData { data: event, id: self.id };
        self.system.storage_mut().push(data);
        assert(self.system.events() == before.push(data));
    }

    /// Every queued event, oldest first.
    pub fn consume(&self) -> (r: Vec<&D>)
        ensures
            derefs(r@) == payloads(self.system().events()),
    {
        self.system.storage().payloads()
    }
}

/// What `drop_through` leaves is a suffix of the queue, and it drops exactly
/// the leading events with a tick id at most `id`.
pub proof fn lemma_drop_through_suffix<D>(events: Seq<EventData<D>>, id: u64)
    ensures
        exists|n: int|
            0 <= n <= events.len() && #[trigger] events.subrange(n, events.len() as int)
                =~= drop_through(events, id) && (forall|i: int| 0 <= i < n ==> events[i].id <= id),
        drop_through(events, id).len() > 0 ==> drop_through(events, id)[0].id > id,
    decreases events.len(),
{
    if events.len() > 0 && events[0].id <= id {
        let rest = events.drop_first();
        lemma_drop_through_suffix(rest, id);
        let m = choose|m: int|
            0 <= m <= rest.len() && #[trigger] rest.subrange(m, rest.len() as int)
                =~= drop_through(rest, id) && (forall|i: int| 0 <= i < m ==> rest[i].id <= id);
        assert(events.subrange(m + 1, events.len() as int) == rest.subrange(m, rest.len() as int));
        assert forall|i: int| 0 <= i < m + 1 implies events[i].id <= id by {
            if i > 0 {
                assert(events[i] == rest[i - 1]);
            }
        }
    } else {
        assert(events.subrange(0, events.len() as int) == events);
    }
}

} // verus!

verus! {

/// A queue whose tick ids are all at most `k` is emptied by purging through `k`.
pub proof fn lemma_drop_through_all<D>(events: Seq<EventData<D>>, k: u64)
    requires
        forall|i: int| 0 <= i < events.len() ==> events[i].id <= k,
    ensures
        drop_through(events, k) == Seq::<EventData<D>>::empty(),
    decreases events.len(),
{
    if events.len() > 0 {
        let rest = events.drop_first();
        assert forall|i: int| 0 <= i < rest.len() implies rest[i].id <= k by {
            assert(rest[i] == events[i + 1]);
        }
        lemma_drop_through_all(rest, k);
    }
}

/// A tracker that ticks twice with no dispatch in between sees an empty queue
/// on its second tick: the first tick took id `next`, every queued event is
/// older than it, and the second tick purges through it.
pub proof fn law_second_tick_sees_nothing<D>(events: Seq<EventData<D>>, next: u64, last: Option<u64>)
    requires
        ids_below(events, next),
    ensures
        payloads(purge_for(purge_for(events, last), Some(next))) == Seq::<D>::empty(),
{
    let once = purge_for(events, last);
    if let Some(k) = last {
        lemma_drop_through_suffix(events, k);
    } else {
        assert(events.subrange(0, events.len() as int) == events);
    }
    let n = choose|n: int| 0 <= n <= events.len() && #[trigger] events.subrange(n, events.len() as int) =~= once;
    assert forall|i: int| 0 <= i < once.len() implies once[i].id <= next by {
        assert(once[i] == events[i + n]);
    }
    lemma_drop_through_all(once, next);
    assert(payloads(Seq::<EventData<D>>::empty()) =~= Seq::<D>::empty());
}

} // verus!

verus! {

/// The queue after trackers whose previous ticks are `lasts` tick in turn,
/// with nothing dispatched in between.
pub open spec fn purge_all<D>(events: Seq<EventData<D>>, lasts: Seq<Option<u64>>) -> Seq<EventData<D>>
    decreases lasts.len(),
{
    if lasts.len() == 0 {
        events
    } else {
        purge_for(purge_all(events, lasts.drop_last()), lasts.last())
    }
}

proof fn lemma_purge_keeps_below<D>(events: Seq<EventData<D>>, lasts: Seq<Option<u64>>, bound: u64)
    requires
        ids_below(events, bound),
    ensures
        ids_below(purge_all(events, lasts), bound),
    decreases lasts.len(),
{
    if lasts.len() > 0 {
        lemma_purge_keeps_below(events, lasts.drop_last(), bound);
        let mid = purge_all(events, lasts.drop_last());
        if let Some(k) = lasts.last() {
            lemma_drop_through_suffix(mid, k);
            let n = choose|n: int| 0 <= n <= mid.len() && #[trigger] mid.subrange(n, mid.len() as int) =~= drop_through(mid, k)
                && (forall|i: int| 0 <= i < n ==> mid[i].id <= k);
            assert forall|i: int| 0 <= i < purge_all(events, lasts).len() implies purge_all(events, lasts)[i].id < bound by {
                assert(purge_all(events, lasts)[i] == mid[i + n]);
            }
        }
    }
}

/// A tracker that ticks twice with nothing dispatched in between sees an
/// empty queue on its second tick, however many other trackers tick in
/// between: its first tick took id `a`, every queued event is no younger,
/// other ticks only drop events, and its second tick purges through `a`.
pub proof fn law_second_tick_sees_nothing_among_others<D>(
    events: Seq<EventData<D>>,
    a: u64,
    lasts: Seq<Option<u64>>,
)
    requires
        a < u64::MAX,
        ids_below(events, (a + 1) as u64),
    ensures
        payloads(purge_for(purge_all(events, lasts), Some(a))) == Seq::<D>::empty(),
{
    lemma_purge_keeps_below(events, lasts, (a + 1) as u64);
    let mid = purge_all(events, lasts);
    lemma_drop_through_all(mid, a);
    assert(payloads(Seq::<EventData<D>>::empty()) =~= Seq::<D>::empty());
}

} // verus!

verus! {

/// One step on a bus: the current commander dispatches a payload, or a
/// tracker whose previous tick was `last` ticks.
pub enum BusStep<D> {
    Dispatch(D),
    Tick(Option<u64>),
}

/// The queue and the current tick id after `steps`, starting from `events`
/// with `cur` the id of the current commander.
pub open spec fn bus_after<D>(events: Seq<EventData<D>>, cur: u64, steps: Seq<BusStep<D>>) -> (Seq<EventData<D>>, u64)
    decreases steps.len(),
{
    if steps.len() == 0 {
        (events, cur)
    } else {
        let (q, c) = bus_after(events, cur, steps.drop_last());
        match steps.last() {
            BusStep::Dispatch(d) => (q.push(EventData { data: d, id: c }), c),
            BusStep::Tick(last) => (purge_for(q, last), (c + 1) as u64),
        }
    }
}

/// `events` followed by every event `steps` dispatch, in dispatch order.
pub open spec fn dispatch_log<D>(events: Seq<EventData<D>>, cur: u64, steps: Seq<BusStep<D>>) -> Seq<EventData<D>>
    decreases steps.len(),
{
    if steps.len() == 0 {
        events
    } else {
        let log = dispatch_log(events, cur, steps.drop_last());
        match steps.last() {
            BusStep::Dispatch(d) => log.push(EventData { data: d, id: bus_after(events, cur, steps.drop_last()).1 }),
            BusStep::Tick(_) => log,
        }
    }
}

/// Whatever the interleaving of dispatches and ticks of any trackers, the
/// queue is a suffix of everything dispatched, in dispatch order: a consumer
/// reads every event not yet cleared, each once, oldest first.
pub proof fn law_queue_is_suffix_of_dispatches<D>(events: Seq<EventData<D>>, cur: u64, steps: Seq<BusStep<D>>)
    ensures
        exists|n: int|
            0 <= n <= dispatch_log(events, cur, steps).len() && #[trigger] dispatch_log(events, cur, steps).subrange(
                n,
                dispatch_log(events, cur, steps).len() as int,
            ) == bus_after(events, cur, steps).0,
    decreases steps.len(),
{
    let log = dispatch_log(events, cur, steps);
    if steps.len() == 0 {
        assert(log.subrange(0, log.len() as int) == log);
    } else {
        let prev = steps.drop_last();
        law_queue_is_suffix_of_dispatches(events, cur, prev);
        let plog = dispatch_log(events, cur, prev);
        let q = bus_after(events, cur, prev).0;
        let n = choose|n: int| 0 <= n <= plog.len() && #[trigger] plog.subrange(n, plog.len() as int) == q;
        match steps.last() {
            BusStep::Dispatch(d) => {
                let e = EventData { data: d, id: bus_after(events, cur, prev).1 };
                assert(log.subrange(n, log.len() as int) =~= q.push(e));
            },
            BusStep::Tick(last) => {
                match last {
                    Some(k) => {
                        lemma_drop_through_suffix(q, k);
                        let m = choose|m: int| 0 <= m <= q.len() && #[trigger] q.subrange(m, q.len() as int) =~= drop_through(q, k)
                            && (forall|i: int| 0 <= i < m ==> q[i].id <= k);
                        assert(log.subrange(n + m, log.len() as int) =~= drop_through(q, k));
                    },
                    None => {
                        assert(log.subrange(n, log.len() as int) == q);
                    },
                }
            },
        }
    }
}

} // verus!

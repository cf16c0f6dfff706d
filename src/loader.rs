//! Ingestion: registering plugins as they arrive and detecting completion.
use vstd::prelude::*;
use vstd::string::StringExecFns;

use crate::event::{purge_for, EventData, EventSystem, EventTracker};
use crate::message::{AppEvent, NotificationEvent, ProgressEvent, ProgressStatus, Severity};
use crate::metadata::nested;
use crate::plugin::{bind_all, collision_view, collisions_of, views, Plugin, PluginList, PluginMetadata};

verus! {

/// The plugins that arrived, in order.
pub open spec fn arrivals(received: Seq<Option<Plugin>>) -> Seq<Plugin>
    decreases received.len(),
{
    if received.len() == 0 {
        Seq::empty()
    } else {
        match received.last() {
            Some(p) => arrivals(received.drop_last()).push(p),
            None => arrivals(received.drop_last()),
        }
    }
}

/// How many expected plugins failed to produce one.
pub open spec fn failures(received: Seq<Option<Plugin>>) -> nat
    decreases received.len(),
{
    if received.len() == 0 {
        0
    } else {
        failures(received.drop_last()) + if received.last() is None {
            1nat
        } else {
            0nat
        }
    }
}

/// The ids a plugin registers for itself: its own, then those it provides.
pub open spec fn own_ids(p: Plugin) -> Seq<Seq<char>> {
    seq![p.metadata.id@] + views(p.metadata.provides@)
}

/// `lookup` after registering `plugins`, appended from position `base` on.
pub open spec fn registered(lookup: Map<Seq<char>, int>, plugins: Seq<Plugin>, base: int) -> Map<
    Seq<char>,
    int,
>
    decreases plugins.len(),
{
    if plugins.len() == 0 {
        lookup
    } else {
        bind_all(
            registered(lookup, plugins.drop_last(), base),
            own_ids(plugins.last()),
            base + plugins.len() - 1,
        )
    }
}

/// The text of the warning that `new_name` claims `id` after `old_name`.
pub open spec fn duplicate_text(new_name: Seq<char>, old_name: Seq<char>, id: Seq<char>) -> Seq<char> {
    "Mod \""@ + new_name + "\" and \""@ + old_name + "\" have the same id \""@ + id + "\""@
}

/// Each collision of `cs` with the name of the plugin that caused it: the
/// name, the position that held the id before, and the id.
pub open spec fn named(name: Seq<char>, cs: Seq<(Seq<char>, int)>) -> Seq<(Seq<char>, int, Seq<char>)> {
    cs.map_values(|c: (Seq<char>, int)| (name, c.1, c.0))
}

/// The collisions met registering `plugins` from position `base` on, in
/// order.
pub open spec fn collisions_in(lookup: Map<Seq<char>, int>, plugins: Seq<Plugin>, base: int) -> Seq<
    (Seq<char>, int, Seq<char>),
>
    decreases plugins.len(),
{
    if plugins.len() == 0 {
        Seq::empty()
    } else {
        let p = plugins.last();
        collisions_in(lookup, plugins.drop_last(), base) + named(
            p.metadata.name@,
            collisions_of(registered(lookup, plugins.drop_last(), base), own_ids(p), base + plugins.len() - 1),
        )
    }
}

/// `e` is the duplicate-id warning for `entry`, naming the plugin that held
/// the id as `plugins` has it.
pub open spec fn is_duplicate_warning(e: AppEvent, entry: (Seq<char>, int, Seq<char>), plugins: Seq<Plugin>) -> bool {
    match e {
        AppEvent::Notification(note) => {
            &&& note.title@ == "Duplicate ids"@
            &&& note.ty == Severity::Warning
            &&& note.description@ == duplicate_text(entry.0, plugins[entry.1].metadata.name@, entry.2)
        },
        _ => false,
    }
}

/// The events `w` are the warnings for `dups`, in order, tagged `id`.
pub open spec fn warnings_match(
    w: Seq<EventData<AppEvent>>,
    dups: Seq<(Seq<char>, int, Seq<char>)>,
    plugins: Seq<Plugin>,
    id: u64,
) -> bool {
    &&& w.len() == dups.len()
    &&& forall|i: int|
        0 <= i < w.len() ==> is_duplicate_warning((#[trigger] w[i]).data, dups[i], plugins) && w[i].id == id
            && 0 <= dups[i].1 < plugins.len()
}

proof fn lemma_warnings_grow(w: Seq<EventData<AppEvent>>, dups: Seq<(Seq<char>, int, Seq<char>)>, plugins: Seq<Plugin>, p: Plugin, id: u64)
    requires
        warnings_match(w, dups, plugins, id),
    ensures
        warnings_match(w, dups, plugins.push(p), id),
{
    assert forall|i: int| 0 <= i < w.len() implies is_duplicate_warning((#[trigger] w[i]).data, dups[i], plugins.push(p)) by {
        let e = w[i];
        assert(is_duplicate_warning(e.data, dups[i], plugins));
        assert(0 <= dups[i].1 < plugins.len());
        assert(plugins.push(p)[dups[i].1] == plugins[dups[i].1]);
    }
}

/// Tracks how many plugins are still expected.
pub struct ModpackLoader {
    total_plugins: usize,
    tracker: EventTracker,
}

impl ModpackLoader {
    /// The number of plugins still expected in all.
    pub closed spec fn expected(&self) -> nat {
        self.total_plugins as nat
    }

    /// The tick id this loader last took on the bus.
    pub closed spec fn last_tick(&self) -> Option<u64> {
        self.tracker.last()
    }

    /// A loader expecting `total_plugins` results.
    pub fn new(total_plugins: usize) -> (r: ModpackLoader)
        ensures
            r.expected() == total_plugins,
            r.last_tick() == Option::<u64>::None,
    {
        ModpackLoader { total_plugins, tracker: EventTracker::new() }
    }

    /// Registers what arrived since the last tick, in arrival order: each
    /// plugin is appended and its id and provided ids point at it, a duplicate
    /// id being reported; each failure lowers the count expected. Once every
    /// expected plugin is there, the ids of bundled plugins are registered
    /// where still free, completion is signalled and `Err` returned;
    /// otherwise progress is signalled and `Ok` returned.
    pub fn tick(
        &mut self,
        plugins: &mut PluginList,
        events: &mut EventSystem<AppEvent>,
        received: Vec<Option<Plugin>>,
    ) -> (r: Result<(), ()>)
        requires
            old(plugins).wf(),
            old(events).wf(),
            old(events).next_id() < u64::MAX,
            old(plugins).len_spec() + received@.len() < usize::MAX,
        ensures
            final(plugins).wf(),
            final(plugins).plugins() == old(plugins).plugins() + arrivals(received@),
            final(self).expected() == if old(self).expected() >= failures(received@) {
                (old(self).expected() - failures(received@)) as nat
            } else {
                0nat
            },
            final(self).last_tick() == Some(old(events).next_id()),
            r is Err <==> final(plugins).len_spec() >= final(self).expected(),
            r is Ok ==> final(plugins).lookup() == registered(
                old(plugins).lookup(),
                arrivals(received@),
                old(plugins).len_spec() as int,
            ),
            r is Err ==> {
                let reg = registered(old(plugins).lookup(), arrivals(received@), old(plugins).len_spec() as int);
                &&& forall|key: Seq<char>| #[trigger] reg.contains_key(key) ==> final(plugins).lookup().contains_key(key)
                    && final(plugins).lookup()[key] == reg[key]
                &&& forall|i: int, key: Seq<char>|
                    0 <= i < final(plugins).len_spec() && #[trigger] nested(final(plugins).plugins()[i].metadata, key)
                        ==> final(plugins).lookup().contains_key(key)
                &&& forall|key: Seq<char>|
                    !reg.contains_key(key) && #[trigger] final(plugins).lookup().contains_key(key) ==> {
                        &&& 0 <= final(plugins).lookup()[key] < final(plugins).len_spec()
                        &&& nested(final(plugins).plugins()[final(plugins).lookup()[key]].metadata, key)
                        &&& forall|j: int|
                            0 <= j < final(plugins).lookup()[key] ==> !nested(final(plugins).plugins()[j].metadata, key)
                    }
            },
            final(events).wf(),
            final(events).next_id() == old(events).next_id() + 1,
            final(events).state() == old(events).state(),
            final(events).events().len() > purge_for(old(events).events(), old(self).last_tick()).len(),
            final(events).events().subrange(0, purge_for(old(events).events(), old(self).last_tick()).len() as int)
                == purge_for(old(events).events(), old(self).last_tick()),
            warnings_match(
                final(events).events().subrange(
                    purge_for(old(events).events(), old(self).last_tick()).len() as int,
                    final(events).events().len() - 1,
                ),
                collisions_in(old(plugins).lookup(), arrivals(received@), old(plugins).len_spec() as int),
                final(plugins).plugins(),
                old(events).next_id(),
            ),
            final(events).events().last() == (EventData {
                data: AppEvent::Progress(
                    ProgressEvent(
                        if r is Err {
                            None
                        } else {
                            Some(
                                ProgressStatus::Determinate {
                                    done: final(plugins).len_spec() as usize,
                                    total: final(self).expected() as usize,
                                },
                            )
                        },
                    ),
                ),
                id: old(events).next_id(),
            }),
    {
        let ghost base = plugins.lookup();
        let ghost start = plugins.plugins();
        let ghost all = received@;
        let mut commander = self.tracker.tick(events);
        let ghost cleared = commander.system().events();
        let ghost fin = *final(commander.bus());
        let ghost mut w: Seq<EventData<AppEvent>> = Seq::empty();
        assert(commander.system().events() =~= cleared + w);
        let mut received = received;
        let mut seen: usize = 0;
        let n = received.len();
        while received.len() > 0
            invariant
                plugins.wf(),
                commander.wf(),
                commander.id() == old(events).next_id(),
                commander.system().next_id() == old(events).next_id() + 1,
                commander.system().state() == old(events).state(),
                commander.system().events().len() >= cleared.len(),
                commander.system().events().subrange(0, cleared.len() as int) == cleared,
                *final(commander.bus()) == fin,
                after_borrow(*events) == fin,
                self.tracker.last() == Some(old(events).next_id()),
                n == all.len(),
                seen + received@.len() == n,
                received@ == all.subrange(seen as int, n as int),
                start.len() + n < usize::MAX,
                plugins.plugins() == start + arrivals(all.subrange(0, seen as int)),
                plugins.lookup() == registered(base, arrivals(all.subrange(0, seen as int)), start.len() as int),
                commander.system().events() == cleared + w,
                warnings_match(
                    w,
                    collisions_in(base, arrivals(all.subrange(0, seen as int)), start.len() as int),
                    plugins.plugins(),
                    old(events).next_id(),
                ),
                self.total_plugins as nat == if old(self).expected() >= failures(all.subrange(0, seen as int)) {
                    (old(self).expected() - failures(all.subrange(0, seen as int))) as nat
                } else {
                    0nat
                },
            decreases received@.len(),
        {
            let item = received.remove(0);
            let ghost done = all.subrange(0, seen + 1);
            assert(done.drop_last() == all.subrange(0, seen as int));
            assert(done.last() == item);
            proof {
                lemma_arrivals_len(all.subrange(0, seen as int));
            }
            match item {
                Some(plugin) => {
                    let name = plugin.metadata.name.clone();
                    let ghost p = plugin;
                    let ghost prev_len = plugins.len_spec();
                    let ghost prev_plugins = plugins.plugins();
                    let ghost dp = collisions_in(base, arrivals(all.subrange(0, seen as int)), start.len() as int);
                    let collisions = plugins.add(plugin);
                    proof {
                        lemma_warnings_grow(w, dp, prev_plugins, p, old(events).next_id());
                    }
                    let ghost cs = named(name@, collision_view(collisions@));
                    proof {
                        let prior = arrivals(all.subrange(0, seen as int));
                        assert(arrivals(done) == prior.push(p));
                        assert(prior.push(p).drop_last() == prior);
                        assert(prev_len == start.len() + prior.len());
                        assert(registered(base, prior.push(p), start.len() as int) == bind_all(
                            registered(base, prior, start.len() as int),
                            own_ids(p),
                            prev_len as int,
                        ));
                    }
                    let mut c: usize = 0;
                    while c < collisions.len()
                        invariant
                            plugins.wf(),
                            commander.wf(),
                            commander.id() == old(events).next_id(),
                            commander.system().next_id() == old(events).next_id() + 1,
                            commander.system().state() == old(events).state(),
                            commander.system().events().len() >= cleared.len(),
                            commander.system().events().subrange(0, cleared.len() as int) == cleared,
                            *final(commander.bus()) == fin,
                            forall|i: int|
                                0 <= i < collisions@.len() ==> (#[trigger] collisions@[i]).previous < plugins.len_spec(),
                            c <= collisions@.len(),
                            cs == named(name@, collision_view(collisions@)),
                            commander.system().events() == cleared + w,
                            warnings_match(w, dp + cs.subrange(0, c as int), plugins.plugins(), old(events).next_id()),
                        decreases collisions@.len() - c,
                    {
                        let other = &plugins.at(collisions[c].previous).metadata.name;
                        let mut description = String::from_str("Mod \"");
                        description.append(name.as_str());
                        description.append("\" and \"");
                        description.append(other.as_str());
                        description.append("\" have the same id \"");
                        description.append(collisions[c].id.as_str());
                        description.append("\"");
                        let ghost before = commander.system().events();
                        let note = AppEvent::Notification(
                            NotificationEvent {
                                title: String::from_str("Duplicate ids"),
                                description,
                                ty: Severity::Warning,
                            },
                        );
                        let ghost ev = EventData { data: note, id: commander.id() };
                        proof {
                            let entry = cs[c as int];
                            assert(entry == (name@, collisions@[c as int].previous as int, collisions@[c as int].id@));
                            assert(is_duplicate_warning(note, entry, plugins.plugins()));
                        }
                        commander.dispatch(note);
                        proof {
                            let d0 = dp + cs.subrange(0, c as int);
                            let d1 = dp + cs.subrange(0, c + 1);
                            let w1 = w.push(ev);
                            assert(d1 =~= d0.push(cs[c as int]));
                            assert forall|i: int| 0 <= i < w1.len() implies is_duplicate_warning((#[trigger] w1[i]).data, d1[i], plugins.plugins())
                                && w1[i].id == old(events).next_id() && 0 <= d1[i].1 < plugins.plugins().len() by {
                                if i < w.len() {
                                    assert(w1[i] == w[i]);
                                    assert(d1[i] == d0[i]);
                                }
                            }
                            w = w1;
                            assert(commander.system().events() =~= cleared + w);
                        }
                        assert(commander.system().events().subrange(0, cleared.len() as int) == before.subrange(
                            0,
                            cleared.len() as int,
                        ));
                        c = c + 1;
                    }
                    proof {
                        let prior = arrivals(all.subrange(0, seen as int));
                        assert(cs.subrange(0, cs.len() as int) == cs);
                        assert(collisions_in(base, prior.push(p), start.len() as int) == dp + named(
                            p.metadata.name@,
                            collisions_of(registered(base, prior, start.len() as int), own_ids(p), prev_len as int),
                        ));
                    }
                },
                None => {
                    if self.total_plugins > 0 {
                        self.total_plugins = self.total_plugins - 1;
                    }
                },
            }
            seen = seen + 1;
            assert(received@ == all.subrange(seen as int, n as int));
        }
        assert(all.subrange(0, n as int) == all);
        let count = plugins.len();
        if count >= self.total_plugins {
            let ghost reg = plugins.lookup();
            let mut i: usize = 0;
            while i < count
                invariant
                    plugins.wf(),
                    count == plugins.len_spec(),
                    i <= count,
                    plugins.plugins() == start + arrivals(all),
                    commander.wf(),
                    commander.id() == old(events).next_id(),
                    commander.system().next_id() == old(events).next_id() + 1,
                    commander.system().state() == old(events).state(),
                    commander.system().events().len() >= cleared.len(),
                    commander.system().events().subrange(0, cleared.len() as int) == cleared,
                    *final(commander.bus()) == fin,
                    after_borrow(*events) == fin,
                    self.tracker.last() == Some(old(events).next_id()),
                    self.total_plugins <= count,
                    commander.system().events() == cleared + w,
                    warnings_match(
                        w,
                        collisions_in(base, arrivals(all), start.len() as int),
                        plugins.plugins(),
                        old(events).next_id(),
                    ),
                    forall|key: Seq<char>| #[trigger] reg.contains_key(key) ==> plugins.lookup().contains_key(key)
                        && plugins.lookup()[key] == reg[key],
                    forall|j: int, key: Seq<char>|
                        0 <= j < i && #[trigger] nested(plugins.plugins()[j].metadata, key)
                            ==> plugins.lookup().contains_key(key),
                    forall|key: Seq<char>|
                        !reg.contains_key(key) && #[trigger] plugins.lookup().contains_key(key) ==> {
                            &&& 0 <= plugins.lookup()[key] < i
                            &&& nested(plugins.plugins()[plugins.lookup()[key]].metadata, key)
                            &&& forall|j: int|
                                0 <= j < plugins.lookup()[key] ==> !nested(plugins.plugins()[j].metadata, key)
                        },
                decreases count - i,
            {
                ModpackLoader::add_modules(i, plugins);
                i = i + 1;
            }
            let ghost before = commander.system().events();
            commander.dispatch(AppEvent::Progress(ProgressEvent(None)));
            assert(commander.system().events().subrange(0, cleared.len() as int) == before.subrange(
                0,
                cleared.len() as int,
            ));
            assert(commander.system().events().subrange(
                cleared.len() as int,
                commander.system().events().len() - 1,
            ) =~= w);
            proof {
                commander.lemma_resolved();
            }
            Err(())
        } else {
            let ghost before = commander.system().events();
            commander.dispatch(
                AppEvent::Progress(
                    ProgressEvent(Some(ProgressStatus::Determinate { done: count, total: self.total_plugins })),
                ),
            );
            assert(commander.system().events().subrange(0, cleared.len() as int) == before.subrange(
                0,
                cleared.len() as int,
            ));
            assert(commander.system().events().subrange(
                cleared.len() as int,
                commander.system().events().len() - 1,
            ) =~= w);
            proof {
                commander.lemma_resolved();
            }
            Ok(())
        }
    }

    /// Points the id of every plugin bundled in plugin `slot` at it, where the
    /// id does not resolve yet.
    fn add_modules(slot: usize, plugins: &mut PluginList)
        requires
            old(plugins).wf(),
            slot < old(plugins).len_spec(),
        ensures
            final(plugins).wf(),
            final(plugins).plugins() == old(plugins).plugins(),
            forall|key: Seq<char>| #[trigger] old(plugins).lookup().contains_key(key)
                ==> final(plugins).lookup().contains_key(key) && final(plugins).lookup()[key]
                == old(plugins).lookup()[key],
            forall|key: Seq<char>| #[trigger] final(plugins).lookup().contains_key(key)
                <==> old(plugins).lookup().contains_key(key) || nested(old(plugins).plugins()[slot as int].metadata, key),
            forall|key: Seq<char>|
                !old(plugins).lookup().contains_key(key) && #[trigger] final(plugins).lookup().contains_key(key)
                    ==> final(plugins).lookup()[key] == slot,
    {
        let ids = PluginMetadata::nested_ids(&plugins.at(slot).metadata);
        let ghost m = plugins.plugins()[slot as int].metadata;
        let ghost base = plugins.lookup();
        let mut k: usize = 0;
        while k < ids.len()
            invariant
                plugins.wf(),
                slot < plugins.len_spec(),
                plugins.plugins() == old(plugins).plugins(),
                m == plugins.plugins()[slot as int].metadata,
                base == old(plugins).lookup(),
                forall|key: Seq<char>| #[trigger] views(ids@).contains(key) <==> nested(m, key),
                forall|key: Seq<char>| #[trigger] base.contains_key(key) ==> plugins.lookup().contains_key(key)
                    && plugins.lookup()[key] == base[key],
                forall|key: Seq<char>| #[trigger] plugins.lookup().contains_key(key)
                    <==> base.contains_key(key) || views(ids@.subrange(0, k as int)).contains(key),
                forall|key: Seq<char>|
                    !base.contains_key(key) && #[trigger] plugins.lookup().contains_key(key) ==> plugins.lookup()[key]
                        == slot,
                k <= ids@.len(),
            decreases ids@.len() - k,
        {
            let ghost pre = views(ids@.subrange(0, k as int));
            plugins.bind_if_vacant(ids[k].as_str(), slot);
            proof {
                assert(views(ids@.subrange(0, k + 1)) =~= pre.push(ids@[k as int]@));
                crate::metadata::lemma_push_contains(pre, ids@[k as int]@);
            }
            k = k + 1;
        }
        assert(ids@.subrange(0, ids@.len() as int) == ids@);
    }
}

proof fn lemma_arrivals_len(received: Seq<Option<Plugin>>)
    ensures
        arrivals(received).len() <= received.len(),
    decreases received.len(),
{
    if received.len() > 0 {
        lemma_arrivals_len(received.drop_last());
    }
}

} // verus!

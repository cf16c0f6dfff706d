//! Plugin records and the registry that owns them.
use vstd::prelude::*;

verus! {

/// Where a plugin stands in the bisection.
#[derive(Clone, Copy, Debug, PartialEq, Eq, Structural, Hash, PartialOrd, Ord)]
pub enum PluginStatus {
    Enabled,
    Disabled,
    NotTheProblem,
}

/// The bisection status under its shorter name.
pub type Status = PluginStatus;

impl PluginStatus {
    pub fn enabled(&self) -> (r: bool)
        ensures
            r == (*self == PluginStatus::Enabled),
    {
        match self {
            PluginStatus::Disabled | PluginStatus::NotTheProblem => false,
            PluginStatus::Enabled => true,
        }
    }

    /// Every status, in display order.
    pub fn iter() -> (r: [PluginStatus; 3])
        ensures
            r@ == seq![PluginStatus::Enabled, PluginStatus::Disabled, PluginStatus::NotTheProblem],
    {
        let r = [PluginStatus::Enabled, PluginStatus::Disabled, PluginStatus::NotTheProblem];
        assert(r@ =~= seq![PluginStatus::Enabled, PluginStatus::Disabled, PluginStatus::NotTheProblem]);
        r
    }
}

/// What a plugin declares about itself.
pub struct PluginMetadata {
    pub id: String,
    /// Extra ids this plugin satisfies.
    pub provides: Vec<String>,
    /// Plugins bundled inside this one.
    pub contains: Vec<PluginMetadata>,
    pub version: String,
    pub name: String,
    pub icon: Option<String>,
    pub depends_on: Vec<String>,
}

/// One installed plugin and its bisection state.
pub struct Plugin {
    pub metadata: PluginMetadata,
    /// Higher means less eligible to be disabled first.
    pub stability: u32,
    /// A user lock: `Some(true)` pins it enabled, `Some(false)` disabled.
    pub forced_status: Option<bool>,
    pub status: PluginStatus,
}

impl Plugin {
    /// A free plugin: enabled, unlocked, stability zero.
    pub fn new(metadata: PluginMetadata) -> (r: Plugin)
        ensures
            r.metadata == metadata,
            r.stability == 0,
            r.forced_status == Option::<bool>::None,
            r.status == PluginStatus::Enabled,
    {
        Plugin { metadata, stability: 0, forced_status: None, status: PluginStatus::Enabled }
    }

    /// Whether the plugin counts as enabled, a lock taking precedence.
    pub fn enabled(&self) -> (r: bool)
        ensures
            r == match self.forced_status {
                Some(f) => f,
                None => self.status == PluginStatus::Enabled,
            },
    {
        match self.forced_status {
            Some(f) => f,
            None => self.status.enabled(),
        }
    }

    /// The lock after a click: free, then locked disabled, then locked enabled.
    pub fn cycle_forced(&mut self)
        ensures
            final(self).forced_status == match old(self).forced_status {
                None => Some(false),
                Some(false) => Some(true),
                Some(true) => Option::<bool>::None,
            },
            final(self).metadata == old(self).metadata,
            final(self).status == old(self).status,
            final(self).stability == old(self).stability,
    {
        self.forced_status = match self.forced_status {
            None => Some(false),
            Some(false) => Some(true),
            Some(true) => None,
        };
    }

    /// Whether a split may disable this plugin.
    pub fn should_split(&self) -> (r: bool)
        ensures
            r == self.splittable(),
    {
        self.forced_status.is_none() && self.status.enabled()
    }

    pub open spec fn splittable(&self) -> bool {
        self.forced_status is None && self.status == PluginStatus::Enabled
    }
}

/// Two ids registered for different plugins: the later one took the slot.
pub struct Collision {
    pub id: String,
    /// Position of the plugin that held the id before.
    pub previous: usize,
}

/// The plugins of a session, in arrival order, with lookup by id or alias.
pub struct PluginList {
    list: Vec<Plugin>,
    keys: Vec<String>,
    slots: Vec<usize>,
    lookup: Ghost<Map<Seq<char>, int>>,
}

impl PluginList {
    /// The plugins, in registration order.
    pub closed spec fn plugins(&self) -> Seq<Plugin> {
        self.list@
    }

    /// Which position each registered id or alias resolves to.
    pub closed spec fn lookup(&self) -> Map<Seq<char>, int> {
        self.lookup@
    }

    pub closed spec fn wf(&self) -> bool {
        &&& self.keys@.len() == self.slots@.len()
        &&& forall|i: int, j: int|
            0 <= i < j < self.keys@.len() ==> self.keys@[i]@ != self.keys@[j]@
        &&& forall|i: int|
            0 <= i < self.keys@.len() ==> #[trigger] self.lookup@.contains_key(self.keys@[i]@)
                && self.lookup@[self.keys@[i]@] == self.slots@[i] as int
        &&& forall|k: Seq<char>|
            #[trigger] self.lookup@.contains_key(k) ==> exists|i: int|
                0 <= i < self.keys@.len() && #[trigger] self.keys@[i]@ == k
        &&& forall|k: Seq<char>|
            #[trigger] self.lookup@.contains_key(k) ==> 0 <= self.lookup@[k] < self.list@.len()
    }

    pub open spec fn len_spec(&self) -> nat {
        self.plugins().len()
    }

    /// The position a key resolves to, if any plugin registered it.
    pub open spec fn target(&self, key: Seq<char>) -> Option<int> {
        if self.lookup().contains_key(key) {
            Some(self.lookup()[key])
        } else {
            None
        }
    }

    pub open spec fn status_of(&self, i: int) -> PluginStatus {
        self.plugins()[i].status
    }

    pub open spec fn is_enabled(&self, i: int) -> bool {
        self.plugins()[i].status == PluginStatus::Enabled
    }

    /// Plugin `i` carries a user lock, either way.
    pub open spec fn locked(&self, i: int) -> bool {
        self.plugins()[i].forced_status is Some
    }

    pub open spec fn force_disabled(&self, i: int) -> bool {
        self.plugins()[i].forced_status == Some(false)
    }

    /// The declared dependency keys of plugin `i`.
    pub open spec fn deps(&self, i: int) -> Seq<String> {
        self.plugins()[i].metadata.depends_on@
    }

    /// Plugin `i` declares a dependency that resolves to plugin `j`.
    pub open spec fn depends(&self, i: int, j: int) -> bool {
        exists|k: int| 0 <= k < self.deps(i).len() && self.target(#[trigger] self.deps(i)[k]@) == Some(j)
    }

    /// The positions of the enabled plugins.
    pub open spec fn enabled_set(&self) -> Set<int> {
        Set::new(|i: int| 0 <= i < self.len_spec() && self.is_enabled(i))
    }

    /// Every dependency of a member is a member, unless it is locked.
    pub open spec fn closed(&self, en: Set<int>) -> bool {
        forall|i: int, j: int|
            0 <= i < self.len_spec() && 0 <= j < self.len_spec() && #[trigger] en.contains(i)
                && #[trigger] self.depends(i, j) && !self.locked(j) ==> en.contains(j)
    }

    /// Only statuses may differ between the two lists.
    pub open spec fn same_but_status(&self, other: &PluginList) -> bool {
        &&& self.lookup() == other.lookup()
        &&& self.len_spec() == other.len_spec()
        &&& forall|i: int|
            0 <= i < self.len_spec() ==> {
                &&& (#[trigger] self.plugins()[i]).metadata == other.plugins()[i].metadata
                &&& self.plugins()[i].stability == other.plugins()[i].stability
                &&& self.plugins()[i].forced_status == other.plugins()[i].forced_status
            }
    }

    /// Every key resolves inside the list.
    pub proof fn lemma_targets_in_range(&self)
        requires
            self.wf(),
        ensures
            forall|key: Seq<char>| #[trigger] self.target(key) is Some ==> 0 <= self.target(key)->Some_0 < self.len_spec(),
    {
    }

    pub fn new() -> (r: PluginList)
        ensures
            r.wf(),
            r.plugins() == Seq::<Plugin>::empty(),
            r.lookup() == Map::<Seq<char>, int>::empty(),
    {
        PluginList { list: Vec::new(), keys: Vec::new(), slots: Vec::new(), lookup: Ghost(Map::empty()) }
    }

    pub fn len(&self) -> (r: usize)
        ensures
            r == self.len_spec(),
    {
        self.list.len()
    }

    fn find_key(&self, id: &str) -> (r: Option<usize>)
        requires
            self.wf(),
        ensures
            match r {
                Some(p) => p < self.keys@.len() && self.keys@[p as int]@ == id@,
                None => !self.lookup().contains_key(id@),
            },
    {
        let key = id.to_owned();
        let mut p: usize = 0;
        while p < self.keys.len()
            invariant
                self.wf(),
                key@ == id@,
                p <= self.keys@.len(),
                forall|q: int| 0 <= q < p ==> self.keys@[q]@ != id@,
            decreases self.keys@.len() - p,
        {
            if self.keys[p] == key {
                return Some(p);
            }
            p = p + 1;
        }
        None
    }

    /// The position `id` resolves to.
    pub fn index_of(&self, id: &str) -> (r: Option<usize>)
        requires
            self.wf(),
        ensures
            match r {
                Some(p) => self.target(id@) == Some(p as int) && p < self.len_spec(),
                None => self.target(id@) is None,
            },
    {
        match self.find_key(id) {
            Some(p) => Some(self.slots[p]),
            None => None,
        }
    }

    pub fn contains(&self, id: &str) -> (r: bool)
        requires
            self.wf(),
        ensures
            r == self.lookup().contains_key(id@),
    {
        self.find_key(id).is_some()
    }

    pub fn get(&self, id: &str) -> (r: Option<&Plugin>)
        requires
            self.wf(),
        ensures
            match self.target(id@) {
                Some(p) => r == Some(&self.plugins()[p]),
                None => r is None,
            },
    {
        match self.index_of(id) {
            Some(p) => Some(&self.list[p]),
            None => None,
        }
    }

    /// The plugin at position `i`.
    pub fn at(&self, i: usize) -> (r: &Plugin)
        requires
            i < self.len_spec(),
        ensures
            *r == self.plugins()[i as int],
    {
        &self.list[i]
    }

    /// All plugins, in registration order.
    pub fn iter(&self) -> (r: &[Plugin])
        ensures
            r@ == self.plugins(),
    {
        self.list.as_slice()
    }

    pub fn set_status(&mut self, i: usize, status: PluginStatus)
        requires
            old(self).wf(),
            i < old(self).len_spec(),
        ensures
            final(self).wf(),
            final(self).same_but_status(old(self)),
            final(self).plugins() == old(self).plugins().update(
                i as int,
                Plugin { status, ..old(self).plugins()[i as int] },
            ),
    {
        self.list[i].status = status;
        assert(self.plugins() =~= old(self).plugins().update(
            i as int,
            Plugin { status, ..old(self).plugins()[i as int] },
        ));
    }

    /// Locks plugin `i` enabled or disabled, or frees it.
    pub fn set_forced(&mut self, i: usize, forced: Option<bool>)
        requires
            old(self).wf(),
            i < old(self).len_spec(),
        ensures
            final(self).wf(),
            final(self).lookup() == old(self).lookup(),
            final(self).plugins() == old(self).plugins().update(
                i as int,
                Plugin { forced_status: forced, ..old(self).plugins()[i as int] },
            ),
    {
        self.list[i].forced_status = forced;
        assert(self.plugins() =~= old(self).plugins().update(
            i as int,
            Plugin { forced_status: forced, ..old(self).plugins()[i as int] },
        ));
    }

    /// Points `id` at position `slot`, replacing what it pointed at.
    /// Returns the position it pointed at before, if that was another one.
    pub fn bind(&mut self, id: &str, slot: usize) -> (r: Option<usize>)
        requires
            old(self).wf(),
            slot < old(self).len_spec(),
        ensures
            final(self).wf(),
            final(self).plugins() == old(self).plugins(),
            final(self).lookup() == old(self).lookup().insert(id@, slot as int),
            r == match old(self).target(id@) {
                Some(p) => if p == slot { None } else { Some(p as usize) },
                None => None,
            },
    {
        match self.find_key(id) {
            Some(p) => {
                let prev = self.slots[p];
                self.slots.set(p, slot);
                proof {
                    self.lookup@ = self.lookup@.insert(id@, slot as int);
                }
                assert(self.wf()) by {
                    assert forall|k: Seq<char>| #[trigger] self.lookup@.contains_key(k) implies exists|i: int|
                        0 <= i < self.keys@.len() && #[trigger] self.keys@[i]@ == k by {
                        if k != id@ {
                            assert(old(self).lookup@.contains_key(k));
                            let i = choose|i: int| 0 <= i < old(self).keys@.len() && #[trigger] old(self).keys@[i]@ == k;
                            assert(self.keys@[i]@ == k);
                        } else {
                            assert(self.keys@[p as int]@ == k);
                        }
                    }
                }
                if prev == slot {
                    None
                } else {
                    Some(prev)
                }
            },
            None => {
                let key = id.to_owned();
                self.keys.push(key);
                self.slots.push(slot);
                proof {
                    self.lookup@ = self.lookup@.insert(id@, slot as int);
                }
                assert(self.wf()) by {
                    let n = self.keys@.len() - 1;
                    assert(self.keys@[n]@ == id@);
                    assert forall|k: Seq<char>| #[trigger] self.lookup@.contains_key(k) implies exists|i: int|
                        0 <= i < self.keys@.len() && #[trigger] self.keys@[i]@ == k by {
                        if k != id@ {
                            assert(old(self).lookup@.contains_key(k));
                            let i = choose|i: int| 0 <= i < old(self).keys@.len() && #[trigger] old(self).keys@[i]@ == k;
                            assert(self.keys@[i]@ == k);
                        } else {
                            assert(self.keys@[n]@ == k);
                        }
                    }
                    assert forall|i: int, j: int| 0 <= i < j < self.keys@.len() implies self.keys@[i]@ != self.keys@[j]@ by {
                        if j == n {
                            assert(old(self).lookup@.contains_key(old(self).keys@[i]@));
                        }
                    }
                }
                None
            },
        }
    }

    /// Points `id` at `slot` unless it already resolves somewhere.
    pub fn bind_if_vacant(&mut self, id: &str, slot: usize)
        requires
            old(self).wf(),
            slot < old(self).len_spec(),
        ensures
            final(self).wf(),
            final(self).plugins() == old(self).plugins(),
            final(self).lookup() == if old(self).lookup().contains_key(id@) {
                old(self).lookup()
            } else {
                old(self).lookup().insert(id@, slot as int)
            },
    {
        if !self.contains(id) {
            self.bind(id, slot);
        }
    }

    /// Appends `plugin` and points its id and every alias it provides at it.
    /// Returns each id that pointed at another plugin before, in binding order.
    pub fn add(&mut self, plugin: Plugin) -> (r: Vec<Collision>)
        requires
            old(self).wf(),
            old(self).len_spec() < usize::MAX,
        ensures
            final(self).wf(),
            final(self).plugins() == old(self).plugins().push(plugin),
            final(self).lookup() == bind_all(
                old(self).lookup(),
                seq![plugin.metadata.id@] + views(plugin.metadata.provides@),
                old(self).len_spec() as int,
            ),
            forall|i: int| 0 <= i < r@.len() ==> (#[trigger] r@[i]).previous < old(self).len_spec(),
            collision_view(r@) == collisions_of(
                old(self).lookup(),
                seq![plugin.metadata.id@] + views(plugin.metadata.provides@),
                old(self).len_spec() as int,
            ),
    {
        let slot = self.list.len();
        let ghost ids = seq![plugin.metadata.id@] + views(plugin.metadata.provides@);
        let ghost base = self.lookup();
        self.list.push(plugin);
        assert(self.wf()) by {
            assert forall|k: Seq<char>| #[trigger] self.lookup@.contains_key(k) implies exists|i: int|
                0 <= i < self.keys@.len() && #[trigger] self.keys@[i]@ == k by {
                assert(old(self).lookup@.contains_key(k));
                let i = choose|i: int| 0 <= i < old(self).keys@.len() && #[trigger] old(self).keys@[i]@ == k;
                assert(self.keys@[i]@ == k);
            }
        }
        let mut collisions: Vec<Collision> = Vec::new();
        let first = self.list[slot].metadata.id.clone();
        assert(first@ == plugin.metadata.id@);
        if let Some(previous) = self.bind(first.as_str(), slot) {
            collisions.push(Collision { id: first, previous });
        }
        proof {
            assert(ids.subrange(0, 1).drop_last() =~= Seq::<Seq<char>>::empty());
            assert(collisions_of(base, Seq::<Seq<char>>::empty(), slot as int) == Seq::<(Seq<char>, int)>::empty());
            assert(collision_view(collisions@) =~= collisions_of(base, ids.subrange(0, 1), slot as int));
        }
        assert(ids.subrange(0, 1).drop_last() =~= Seq::<Seq<char>>::empty());
        assert(ids.subrange(0, 1).last() == ids[0]);
        assert(bind_all(base, Seq::<Seq<char>>::empty(), slot as int) == base);
        assert(bind_all(base, ids.subrange(0, 1), slot as int) == base.insert(ids[0], slot as int));
        let n = self.list[slot].metadata.provides.len();
        let mut k: usize = 0;
        while k < n
            invariant
                self.wf(),
                slot == old(self).len_spec(),
                self.plugins() == old(self).plugins().push(plugin),
                n == plugin.metadata.provides@.len(),
                ids == seq![plugin.metadata.id@] + views(plugin.metadata.provides@),
                base == old(self).lookup(),
                k <= n,
                self.lookup() == bind_all(base, ids.subrange(0, k + 1), slot as int),
                forall|i: int| 0 <= i < collisions@.len() ==> (#[trigger] collisions@[i]).previous < slot,
                collision_view(collisions@) == collisions_of(base, ids.subrange(0, k + 1), slot as int),
            decreases n - k,
        {
            let alias = self.list[slot].metadata.provides[k].clone();
            assert(alias@ == ids[k + 1]);
            let ghost before = collisions@;
            let ghost prior = self.lookup();
            if let Some(previous) = self.bind(alias.as_str(), slot) {
                collisions.push(Collision { id: alias, previous });
            }
            k = k + 1;
            proof {
                lemma_bind_all_step(base, ids, k as int, slot as int);
                let grown = ids.subrange(0, k + 1);
                assert(grown.drop_last() == ids.subrange(0, k as int));
                assert(grown.last() == ids[k as int]);
                assert(collision_view(collisions@) =~= collisions_of(base, grown, slot as int));
            }
        }
        assert(ids.subrange(0, n + 1) == ids);
        collisions
    }
}

/// Each collision as the id and the position it pointed at before.
pub open spec fn collision_view(c: Seq<Collision>) -> Seq<(Seq<char>, int)> {
    c.map_values(|x: Collision| (x.id@, x.previous as int))
}

/// The collisions met while pointing each of `ids`, in order, at `slot`:
/// every id that pointed at another position just before.
pub open spec fn collisions_of(lookup: Map<Seq<char>, int>, ids: Seq<Seq<char>>, slot: int) -> Seq<
    (Seq<char>, int),
>
    decreases ids.len(),
{
    if ids.len() == 0 {
        Seq::empty()
    } else {
        let before = bind_all(lookup, ids.drop_last(), slot);
        let rest = collisions_of(lookup, ids.drop_last(), slot);
        if before.contains_key(ids.last()) && before[ids.last()] != slot {
            rest.push((ids.last(), before[ids.last()]))
        } else {
            rest
        }
    }
}

/// The character views of a sequence of strings.
pub open spec fn views(s: Seq<String>) -> Seq<Seq<char>> {
    s.map_values(|x: String| x@)
}

/// `lookup` after pointing each of `ids`, in order, at `slot`.
pub open spec fn bind_all(lookup: Map<Seq<char>, int>, ids: Seq<Seq<char>>, slot: int) -> Map<
    Seq<char>,
    int,
>
    decreases ids.len(),
{
    if ids.len() == 0 {
        lookup
    } else {
        bind_all(lookup, ids.drop_last(), slot).insert(ids.last(), slot)
    }
}

proof fn lemma_bind_all_step(lookup: Map<Seq<char>, int>, ids: Seq<Seq<char>>, k: int, slot: int)
    requires
        0 < k < ids.len(),
    ensures
        bind_all(lookup, ids.subrange(0, k + 1), slot) == bind_all(lookup, ids.subrange(0, k), slot).insert(
            ids[k],
            slot,
        ),
{
    assert(ids.subrange(0, k + 1).drop_last() == ids.subrange(0, k));
}

} // verus!

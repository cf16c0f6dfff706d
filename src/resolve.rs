//! Dependency closure: enabling what enabled plugins need.
use vstd::prelude::*;

use crate::plugin::{views, Plugin, PluginList, PluginStatus};

verus! {

/// How many plugins of `s` are enabled.
pub open spec fn count_enabled(s: Seq<Plugin>) -> nat
    decreases s.len(),
{
    if s.len() == 0 {
        0
    } else {
        count_enabled(s.drop_last()) + if s.last().status == PluginStatus::Enabled {
            1nat
        } else {
            0nat
        }
    }
}

proof fn lemma_count_enabled_grows(a: Seq<Plugin>, b: Seq<Plugin>, w: int)
    requires
        a.len() == b.len(),
        forall|i: int|
            0 <= i < a.len() && a[i].status == PluginStatus::Enabled ==> b[i].status
                == PluginStatus::Enabled,
    ensures
        count_enabled(a) <= count_enabled(b) <= b.len(),
        0 <= w < a.len() && a[w].status != PluginStatus::Enabled && b[w].status
            == PluginStatus::Enabled ==> count_enabled(a) < count_enabled(b),
    decreases a.len(),
{
    if a.len() > 0 {
        lemma_count_enabled_grows(a.drop_last(), b.drop_last(), w);
    }
}

/// Whether `v` holds a string with the characters of `s`.
pub(crate) fn contains_str(v: &Vec<String>, s: &String) -> (r: bool)
    ensures
        r == views(v@).contains(s@),
{
    let mut i: usize = 0;
    while i < v.len()
        invariant
            i <= v@.len(),
            forall|j: int| 0 <= j < i ==> v@[j]@ != s@,
        decreases v@.len() - i,
    {
        if v[i] == *s {
            assert(views(v@)[i as int] == s@);
            return true;
        }
        i = i + 1;
    }
    assert forall|j: int| 0 <= j < views(v@).len() implies views(v@)[j] != s@ by {
        assert(views(v@)[j] == v@[j]@);
    }
    false
}

impl PluginList {
    /// Dependency `k` of plugin `i` is enabled-side and points at a plugin
    /// that is not enabled.
    pub open spec fn unmet_at(&self, i: int, k: int) -> bool {
        &&& 0 <= i < self.len_spec()
        &&& self.is_enabled(i)
        &&& 0 <= k < self.deps(i).len()
        &&& self.target(self.deps(i)[k]@) is Some
        &&& !self.is_enabled(self.target(self.deps(i)[k]@)->Some_0)
    }

    /// Some enabled plugin declares `key`, and `key` resolves to a plugin that
    /// is not enabled.
    pub open spec fn unmet(&self, key: Seq<char>) -> bool {
        exists|i: int, k: int| self.unmet_at(i, k) && #[trigger] self.deps(i)[k]@ == key
    }

    /// The keys of every unmet dependency, each once.
    pub fn get_dependant_disabled_mods(&self) -> (r: Vec<String>)
        requires
            self.wf(),
        ensures
            views(r@).no_duplicates(),
            forall|key: Seq<char>| #[trigger] views(r@).contains(key) <==> self.unmet(key),
    {
        let mut r: Vec<String> = Vec::new();
        let n = self.len();
        let mut i: usize = 0;
        while i < n
            invariant
                self.wf(),
                n == self.len_spec(),
                i <= n,
                views(r@).no_duplicates(),
                forall|key: Seq<char>| #[trigger] views(r@).contains(key) ==> self.unmet(key),
                forall|i2: int, k: int|
                    0 <= i2 < i && #[trigger] self.unmet_at(i2, k) ==> views(r@).contains(
                        self.deps(i2)[k]@,
                    ),
            decreases n - i,
        {
            let p = self.at(i);
            if p.status.enabled() {
                let deps = &p.metadata.depends_on;
                let m = deps.len();
                let mut k: usize = 0;
                while k < m
                    invariant
                        self.wf(),
                        n == self.len_spec(),
                        i < n,
                        *p == self.plugins()[i as int],
                        self.is_enabled(i as int),
                        deps@ == self.deps(i as int),
                        m == deps@.len(),
                        k <= m,
                        views(r@).no_duplicates(),
                        forall|key: Seq<char>| #[trigger] views(r@).contains(key) ==> self.unmet(key),
                        forall|i2: int, k2: int|
                            0 <= i2 < i && #[trigger] self.unmet_at(i2, k2) ==> views(r@).contains(
                                self.deps(i2)[k2]@,
                            ),
                        forall|k2: int|
                            0 <= k2 < k && #[trigger] self.unmet_at(i as int, k2) ==> views(
                                r@,
                            ).contains(self.deps(i as int)[k2]@),
                    decreases m - k,
                {
                    let key = &deps[k];
                    if let Some(j) = self.index_of(key.as_str()) {
                        if !self.at(j).status.enabled() && !contains_str(&r, key) {
                            let ghost before = r@;
                            r.push(key.clone());
                            proof {
                                assert(views(r@) =~= views(before).push(key@));
                                assert(self.unmet_at(i as int, k as int));
                                assert(self.unmet(key@));
                                assert forall|a: int, b: int|
                                    0 <= a < views(r@).len() && 0 <= b < views(r@).len() && a != b implies views(
                                    r@,
                                )[a] != views(r@)[b] by {
                                    if a < views(before).len() && b < views(before).len() {
                                    } else if a == views(before).len() {
                                        assert(views(before)[b] == views(r@)[b]);
                                    } else {
                                        assert(views(before)[a] == views(r@)[a]);
                                    }
                                }
                                assert forall|key2: Seq<char>| #[trigger] views(r@).contains(key2) implies self.unmet(
                                    key2,
                                ) by {
                                    if key2 != key@ {
                                        let a = choose|a: int| 0 <= a < views(r@).len() && views(r@)[a] == key2;
                                        assert(views(before)[a] == key2);
                                        assert(views(before).contains(key2));
                                    }
                                }
                                assert forall|i2: int, k2: int|
                                    0 <= i2 < i && #[trigger] self.unmet_at(i2, k2) implies views(r@).contains(
                                    self.deps(i2)[k2]@,
                                ) by {
                                    let a = choose|a: int| 0 <= a < views(before).len() && views(before)[a] == self.deps(i2)[k2]@;
                                    assert(views(r@)[a] == self.deps(i2)[k2]@);
                                }
                                assert forall|k2: int|
                                    0 <= k2 <= k && #[trigger] self.unmet_at(i as int, k2) implies views(r@).contains(
                                    self.deps(i as int)[k2]@,
                                ) by {
                                    if k2 < k {
                                        let a = choose|a: int| 0 <= a < views(before).len() && views(before)[a] == self.deps(i as int)[k2]@;
                                        assert(views(r@)[a] == self.deps(i as int)[k2]@);
                                    } else {
                                        assert(views(r@)[views(before).len() as int] == key@);
                                    }
                                }
                            }
                        }
                    }
                    k = k + 1;
                }
            }
            i = i + 1;
        }
        proof {
            assert forall|key: Seq<char>| self.unmet(key) implies #[trigger] views(r@).contains(key) by {
                let (i2, k2) = choose|i2: int, k2: int| self.unmet_at(i2, k2) && #[trigger] self.deps(i2)[k2]@ == key;
            }
        }
        r
    }

    /// The ids of the enabled plugins that declare `id` as a dependency, in
    /// registration order, one entry per plugin.
    pub fn find_dependants(&self, id: &str) -> (r: Vec<String>)
        requires
            self.wf(),
        ensures
            views(r@) == dependants_in(self.plugins(), id@),
    {
        let key = id.to_owned();
        let mut r: Vec<String> = Vec::new();
        let n = self.len();
        let mut i: usize = 0;
        while i < n
            invariant
                n == self.len_spec(),
                key@ == id@,
                i <= n,
                views(r@) == dependants_in(self.plugins().subrange(0, i as int), id@),
            decreases n - i,
        {
            let p = self.at(i);
            let ghost pre = self.plugins().subrange(0, i as int);
            let ghost cur = self.plugins().subrange(0, i + 1);
            assert(cur.drop_last() == pre);
            assert(cur.last() == *p);
            if p.status.enabled() && contains_str(&p.metadata.depends_on, &key) {
                let ghost before = views(r@);
                r.push(p.metadata.id.clone());
                assert(views(r@) =~= before.push(p.metadata.id@));
            }
            i = i + 1;
        }
        assert(self.plugins().subrange(0, n as int) == self.plugins());
        r
    }
}

/// The ids of the enabled plugins of `plugins` that declare `key`, in order.
pub open spec fn dependants_in(plugins: Seq<Plugin>, key: Seq<char>) -> Seq<Seq<char>>
    decreases plugins.len(),
{
    if plugins.len() == 0 {
        Seq::empty()
    } else {
        let rest = dependants_in(plugins.drop_last(), key);
        let p = plugins.last();
        if p.status == PluginStatus::Enabled && views(p.metadata.depends_on@).contains(key) {
            rest.push(p.metadata.id@)
        } else {
            rest
        }
    }
}


/// Two lists that differ only in statuses agree on dependencies and locks.
pub proof fn lemma_same_shape(a: &PluginList, b: &PluginList)
    requires
        a.same_but_status(b),
    ensures
        forall|i: int, j: int|
            0 <= i < a.len_spec() ==> (#[trigger] a.depends(i, j) <==> b.depends(i, j)),
        forall|i: int| 0 <= i < a.len_spec() ==> #[trigger] a.force_disabled(i) == b.force_disabled(i),
        forall|i: int| 0 <= i < a.len_spec() ==> #[trigger] a.locked(i) == b.locked(i),
        forall|t: Set<int>| #[trigger] a.closed(t) <==> b.closed(t),
{
    assert forall|i: int, j: int| 0 <= i < a.len_spec() implies (#[trigger] a.depends(i, j) <==> b.depends(i, j)) by {
        assert(a.plugins()[i].metadata == b.plugins()[i].metadata);
        assert(a.deps(i) == b.deps(i));
        if a.depends(i, j) {
            let k = choose|k: int| 0 <= k < a.deps(i).len() && a.target(#[trigger] a.deps(i)[k]@) == Some(j);
            assert(b.target(b.deps(i)[k]@) == Some(j));
        }
        if b.depends(i, j) {
            let k = choose|k: int| 0 <= k < b.deps(i).len() && b.target(#[trigger] b.deps(i)[k]@) == Some(j);
            assert(a.target(a.deps(i)[k]@) == Some(j));
        }
    }
    assert forall|i: int| 0 <= i < a.len_spec() implies #[trigger] a.force_disabled(i) == b.force_disabled(i) by {
        assert(a.plugins()[i].forced_status == b.plugins()[i].forced_status);
    }
    assert forall|t: Set<int>| #[trigger] a.closed(t) <==> b.closed(t) by {
        if a.closed(t) {
            assert forall|i: int, j: int|
                0 <= i < b.len_spec() && 0 <= j < b.len_spec() && #[trigger] t.contains(i)
                    && #[trigger] b.depends(i, j) && !b.locked(j) implies t.contains(j) by {
                assert(a.depends(i, j));
                assert(a.plugins()[j].forced_status == b.plugins()[j].forced_status);
            }
        }
        if b.closed(t) {
            assert forall|i: int, j: int|
                0 <= i < a.len_spec() && 0 <= j < a.len_spec() && #[trigger] t.contains(i)
                    && #[trigger] a.depends(i, j) && !a.locked(j) implies t.contains(j) by {
                assert(b.depends(i, j));
                assert(a.plugins()[j].forced_status == b.plugins()[j].forced_status);
            }
        }
    }
}

/// `after` is `before` with its dependency closure applied: only statuses
/// change, enabled plugins stay enabled, a changed plugin was unlocked and becomes enabled, the
/// enabled set is closed under dependencies, and it lies inside every closed
/// set that contains the enabled set of `before`.
pub open spec fn closure_of(before: &PluginList, after: &PluginList) -> bool {
    &&& after.same_but_status(before)
    &&& forall|i: int|
        0 <= i < before.len_spec() && #[trigger] before.is_enabled(i) ==> after.is_enabled(i)
    &&& forall|i: int|
        0 <= i < before.len_spec() && #[trigger] after.status_of(i) != before.status_of(i)
            ==> after.is_enabled(i) && !before.locked(i)
    &&& after.closed(after.enabled_set())
    &&& forall|t: Set<int>|
        before.enabled_set().subset_of(t) && before.closed(t) ==> #[trigger] after.enabled_set().subset_of(t)
}

impl PluginList {
    /// Enables, round after round, every plugin that an enabled plugin depends
    /// on, except locked ones, until a round enables nothing.
    ///
    /// The enabled set that results is the least one that contains the
    /// enabled set before and is closed under dependencies.
    pub fn enable_dependencies(&mut self)
        requires
            old(self).wf(),
        ensures
            final(self).wf(),
            closure_of(old(self), final(self)),
    {
        let ghost orig = *self;
        let mut scan = true;
        while scan
            invariant
                self.wf(),
                self.same_but_status(&orig),
                forall|i: int| 0 <= i < orig.len_spec() && #[trigger] orig.is_enabled(i) ==> self.is_enabled(i),
                forall|i: int|
                    0 <= i < orig.len_spec() && #[trigger] self.status_of(i) != orig.status_of(i)
                        ==> self.is_enabled(i) && !orig.locked(i),
                forall|t: Set<int>|
                    orig.enabled_set().subset_of(t) && orig.closed(t) ==> #[trigger] self.enabled_set().subset_of(t),
                !scan ==> self.closed(self.enabled_set()),
            decreases (if scan { 1nat } else { 0nat }) + self.len_spec() - count_enabled(self.plugins()),
        {
            proof {
                lemma_count_enabled_grows(self.plugins(), self.plugins(), 0);
            }
            let keys = self.get_dependant_disabled_mods();
            let ghost start = *self;
            scan = false;
            let mut a: usize = 0;
            while a < keys.len()
                invariant
                    self.wf(),
                    start.wf(),
                    self.same_but_status(&start),
                    start.same_but_status(&orig),
                    views(keys@).no_duplicates(),
                    forall|key: Seq<char>| #[trigger] views(keys@).contains(key) <==> start.unmet(key),
                    forall|i: int|
                        0 <= i < start.len_spec() && #[trigger] start.is_enabled(i) ==> self.is_enabled(i),
                    forall|i: int|
                        0 <= i < orig.len_spec() && #[trigger] orig.is_enabled(i) ==> start.is_enabled(i),
                    forall|i: int|
                        0 <= i < start.len_spec() && #[trigger] self.status_of(i) != start.status_of(i)
                            ==> self.is_enabled(i) && !start.locked(i),
                    forall|i: int|
                        0 <= i < orig.len_spec() && #[trigger] start.status_of(i) != orig.status_of(i)
                            ==> start.is_enabled(i) && !orig.locked(i),
                    forall|t: Set<int>|
                        orig.enabled_set().subset_of(t) && orig.closed(t) ==> #[trigger] start.enabled_set().subset_of(t),
                    forall|t: Set<int>|
                        orig.enabled_set().subset_of(t) && orig.closed(t) ==> #[trigger] self.enabled_set().subset_of(t),
                    !scan ==> self.plugins() == start.plugins(),
                    scan ==> exists|w: int|
                        0 <= w < start.len_spec() && !start.is_enabled(w) && #[trigger] self.is_enabled(w),
                    forall|b: int|
                        0 <= b < a && #[trigger] start.target(keys@[b]@) is Some && !start.locked(
                            start.target(keys@[b]@)->Some_0,
                        ) ==> scan,
                    a <= keys@.len(),
                decreases keys@.len() - a,
            {
                proof {
                    lemma_same_shape(self, &start);
                    lemma_same_shape(&start, &orig);
                    start.lemma_targets_in_range();
                }
                let ghost key = keys@[a as int]@;
                assert(views(keys@)[a as int] == key);
                if let Some(j) = self.index_of(keys[a].as_str()) {
                    if self.at(j).forced_status.is_none() {
                        let ghost before = *self;
                        proof {
                            assert(views(keys@).contains(key));
                            assert(start.unmet(key));
                            let (i0, k0) = choose|i0: int, k0: int| start.unmet_at(i0, k0) && #[trigger] start.deps(i0)[k0]@ == key;
                            assert(start.depends(i0, j as int));
                            assert(orig.depends(i0, j as int));
                            assert(!orig.locked(j as int));
                            assert forall|t: Set<int>|
                                orig.enabled_set().subset_of(t) && orig.closed(t) implies t.contains(j as int) by {
                                assert(start.enabled_set().subset_of(t));
                                assert(start.enabled_set().contains(i0));
                                assert(t.contains(i0));
                            }
                        }
                        self.set_status(j, PluginStatus::Enabled);
                        proof {
                            assert forall|t: Set<int>|
                                orig.enabled_set().subset_of(t) && orig.closed(t) implies #[trigger] self.enabled_set().subset_of(t) by {
                                assert(before.enabled_set().subset_of(t));
                                assert forall|x: int| self.enabled_set().contains(x) implies t.contains(x) by {
                                    if x != j {
                                        assert(before.enabled_set().contains(x));
                                    }
                                }
                            }
                            assert(!start.is_enabled(j as int));
                            assert(self.is_enabled(j as int));
                            assert forall|i: int|
                                0 <= i < start.len_spec() && #[trigger] self.status_of(i) != start.status_of(i)
                                    implies self.is_enabled(i) && !start.locked(i) by {
                                if i != j {
                                    assert(before.status_of(i) == self.status_of(i));
                                }
                            }
                        }
                        scan = true;
                    }
                }
                a = a + 1;
            }
            proof {
                lemma_same_shape(self, &start);
                lemma_same_shape(&start, &orig);
                lemma_same_shape(self, &orig);
                start.lemma_targets_in_range();
                if scan {
                    let w = choose|w: int| 0 <= w < start.len_spec() && !start.is_enabled(w) && #[trigger] self.is_enabled(w);
                    assert forall|i: int|
                        0 <= i < start.plugins().len() && start.plugins()[i].status == PluginStatus::Enabled
                            implies self.plugins()[i].status == PluginStatus::Enabled by {
                        assert(start.is_enabled(i));
                    }
                    lemma_count_enabled_grows(start.plugins(), self.plugins(), w);
                } else {
                    assert forall|i: int, j: int|
                        0 <= i < self.len_spec() && 0 <= j < self.len_spec() && #[trigger] self.enabled_set().contains(i)
                            && #[trigger] self.depends(i, j) && !self.locked(j) implies self.enabled_set().contains(j) by {
                        if !self.is_enabled(j) {
                            let k = choose|k: int| 0 <= k < self.deps(i).len() && self.target(#[trigger] self.deps(i)[k]@) == Some(j);
                            assert(start.unmet_at(i, k));
                            assert(start.unmet(start.deps(i)[k]@));
                            assert(views(keys@).contains(start.deps(i)[k]@));
                            let b = choose|b: int| 0 <= b < views(keys@).len() && views(keys@)[b] == start.deps(i)[k]@;
                            assert(views(keys@)[b] == keys@[b]@);
                            assert(start.target(keys@[b]@) is Some);
                        }
                    }
                }
            }
        }
    }
}
} // verus!

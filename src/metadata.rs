//! Flattening what nested plugins declare into the plugin that bundles them.
use vstd::prelude::*;

use crate::plugin::{views, PluginMetadata};
use crate::resolve::contains_str;

verus! {

/// `m` or a plugin bundled in it, at any depth, declares a dependency on `key`.
pub open spec fn declares(m: PluginMetadata, key: Seq<char>) -> bool
    decreases m, m.contains@.len() + 1,
{
    views(m.depends_on@).contains(key) || declares_among(m, m.contains@.len() as int, key)
}

/// One of the first `n` plugins bundled in `m` declares `key`, at any depth.
pub open spec fn declares_among(m: PluginMetadata, n: int, key: Seq<char>) -> bool
    decreases m, n,
{
    if n <= 0 || n > m.contains@.len() {
        false
    } else {
        declares_among(m, n - 1, key) || declares(m.contains@[n - 1], key)
    }
}

/// A plugin bundled in `m`, at any depth, has the id `key`.
pub open spec fn nested(m: PluginMetadata, key: Seq<char>) -> bool
    decreases m, m.contains@.len() + 1,
{
    nested_among(m, m.contains@.len() as int, key)
}

/// One of the first `n` plugins bundled in `m` has the id `key` or bundles
/// one that has.
pub open spec fn nested_among(m: PluginMetadata, n: int, key: Seq<char>) -> bool
    decreases m, n,
{
    if n <= 0 || n > m.contains@.len() {
        false
    } else {
        nested_among(m, n - 1, key) || m.contains@[n - 1].id@ == key || nested(m.contains@[n - 1], key)
    }
}

pub(crate) proof fn lemma_push_contains(s: Seq<Seq<char>>, x: Seq<char>)
    ensures
        forall|key: Seq<char>| #[trigger] s.push(x).contains(key) <==> s.contains(key) || key == x,
{
    assert forall|key: Seq<char>| #[trigger] s.push(x).contains(key) <==> s.contains(key) || key == x by {
        if s.push(x).contains(key) && key != x {
            let a = choose|a: int| 0 <= a < s.push(x).len() && s.push(x)[a] == key;
            assert(s[a] == key);
        }
        if s.contains(key) {
            let a = choose|a: int| 0 <= a < s.len() && s[a] == key;
            assert(s.push(x)[a] == key);
        }
        if key == x {
            assert(s.push(x)[s.len() as int] == key);
        }
    }
}

proof fn lemma_concat_contains(s: Seq<Seq<char>>, t: Seq<Seq<char>>)
    ensures
        forall|key: Seq<char>| #[trigger] (s + t).contains(key) <==> s.contains(key) || t.contains(key),
{
    assert forall|key: Seq<char>| #[trigger] (s + t).contains(key) <==> s.contains(key) || t.contains(key) by {
        if (s + t).contains(key) {
            let a = choose|a: int| 0 <= a < (s + t).len() && (s + t)[a] == key;
            if a < s.len() {
                assert(s[a] == key);
            } else {
                assert(t[a - s.len()] == key);
            }
        }
        if s.contains(key) {
            let a = choose|a: int| 0 <= a < s.len() && s[a] == key;
            assert((s + t)[a] == key);
        }
        if t.contains(key) {
            let a = choose|a: int| 0 <= a < t.len() && t[a] == key;
            assert((s + t)[s.len() + a] == key);
        }
    }
}

impl PluginMetadata {
    /// Adds to `depends_on` every dependency `metadata` or a plugin bundled in
    /// it declares, skipping those already there.
    pub fn add_module_depends(metadata: &PluginMetadata, depends_on: &mut Vec<String>)
        requires
            views(old(depends_on)@).no_duplicates(),
        ensures
            views(final(depends_on)@).no_duplicates(),
            forall|key: Seq<char>|
                #[trigger] views(final(depends_on)@).contains(key) <==> views(old(depends_on)@).contains(key)
                    || declares(*metadata, key),
        decreases metadata,
    {
        let ghost start = views(depends_on@);
        let n = metadata.depends_on.len();
        let mut k: usize = 0;
        while k < n
            invariant
                n == metadata.depends_on@.len(),
                k <= n,
                views(depends_on@).no_duplicates(),
                forall|key: Seq<char>|
                    #[trigger] views(depends_on@).contains(key) <==> start.contains(key) || views(
                        metadata.depends_on@.subrange(0, k as int),
                    ).contains(key),
            decreases n - k,
        {
            let on = &metadata.depends_on[k];
            let ghost before = views(depends_on@);
            if !contains_str(depends_on, on) {
                depends_on.push(on.clone());
                proof {
                    assert(views(depends_on@) =~= before.push(on@));
                    assert forall|a: int, b: int|
                        0 <= a < views(depends_on@).len() && 0 <= b < views(depends_on@).len() && a != b
                            implies views(depends_on@)[a] != views(depends_on@)[b] by {
                        if a == before.len() {
                            assert(before[b] == views(depends_on@)[b]);
                        } else if b == before.len() {
                            assert(before[a] == views(depends_on@)[a]);
                        }
                    }
                }
            }
            k = k + 1;
            proof {
                let pre = views(metadata.depends_on@.subrange(0, k - 1));
                let cur = views(metadata.depends_on@.subrange(0, k as int));
                assert(cur =~= pre.push(on@));
                lemma_push_contains(pre, on@);
                lemma_push_contains(before, on@);
            }
        }
        assert(metadata.depends_on@.subrange(0, n as int) == metadata.depends_on@);
        let ghost own = views(depends_on@);
        let m = metadata.contains.len();
        let mut c: usize = 0;
        while c < m
            invariant
                m == metadata.contains@.len(),
                c <= m,
                views(depends_on@).no_duplicates(),
                forall|key: Seq<char>|
                    #[trigger] views(depends_on@).contains(key) <==> own.contains(key) || declares_among(
                        *metadata,
                        c as int,
                        key,
                    ),
                forall|key: Seq<char>|
                    #[trigger] own.contains(key) <==> start.contains(key) || views(metadata.depends_on@).contains(key),
            decreases m - c,
        {
            proof {
                assert(decreases_to!(*metadata => metadata.contains));
                assert(decreases_to!(metadata.contains => metadata.contains[c as int]));
            }
            PluginMetadata::add_module_depends(&metadata.contains[c], depends_on);
            c = c + 1;
        }
    }

    /// Replaces `depends_on` with every dependency this plugin or a plugin
    /// bundled in it declares, each once, leaving out the plugin's own id.
    pub fn flatten_depends(&mut self)
        ensures
            final(self).id == old(self).id,
            final(self).provides == old(self).provides,
            final(self).contains == old(self).contains,
            final(self).name == old(self).name,
            final(self).version == old(self).version,
            final(self).icon == old(self).icon,
            views(final(self).depends_on@).no_duplicates(),
            forall|key: Seq<char>| #[trigger] views(final(self).depends_on@).contains(key)
                <==> declares(*old(self), key) && key != old(self).id@,
    {
        let mut all: Vec<String> = Vec::new();
        assert(views(all@) =~= Seq::<Seq<char>>::empty());
        PluginMetadata::add_module_depends(self, &mut all);
        let mut depends_on: Vec<String> = Vec::new();
        let mut k: usize = 0;
        while k < all.len()
            invariant
                k <= all@.len(),
                views(all@).no_duplicates(),
                views(depends_on@).no_duplicates(),
                forall|key: Seq<char>| #[trigger] views(depends_on@).contains(key)
                    <==> views(all@.subrange(0, k as int)).contains(key) && key != self.id@,
            decreases all@.len() - k,
        {
            let ghost before = views(depends_on@);
            let ghost pre = views(all@.subrange(0, k as int));
            let key = &all[k];
            proof {
                assert(views(all@.subrange(0, k + 1)) =~= pre.push(key@));
                lemma_push_contains(pre, key@);
                assert(!pre.contains(key@)) by {
                    if pre.contains(key@) {
                        let a = choose|a: int| 0 <= a < pre.len() && pre[a] == key@;
                        assert(views(all@)[a] == views(all@)[k as int]);
                    }
                }
            }
            if *key != self.id {
                depends_on.push(key.clone());
                proof {
                    assert(views(depends_on@) =~= before.push(key@));
                    lemma_push_contains(before, key@);
                    assert forall|a: int, b: int|
                        0 <= a < views(depends_on@).len() && 0 <= b < views(depends_on@).len() && a != b
                            implies views(depends_on@)[a] != views(depends_on@)[b] by {
                        if a == before.len() {
                            assert(before[b] == views(depends_on@)[b]);
                            assert(!before.contains(key@));
                        } else if b == before.len() {
                            assert(before[a] == views(depends_on@)[a]);
                            assert(!before.contains(key@));
                        }
                    }
                }
            }
            k = k + 1;
        }
        assert(all@.subrange(0, all@.len() as int) == all@);
        self.depends_on = depends_on;
    }

    /// The metadata of a plugin from its parsed manifest tree: what the tree
    /// declares, with the dependencies of every level flattened into one list
    /// that holds each once and leaves out the plugin's own id.
    pub fn new(manifest: PluginMetadata) -> (r: PluginMetadata)
        ensures
            r.id == manifest.id,
            r.provides == manifest.provides,
            r.contains == manifest.contains,
            r.name == manifest.name,
            r.version == manifest.version,
            r.icon == manifest.icon,
            views(r.depends_on@).no_duplicates(),
            forall|key: Seq<char>| #[trigger] views(r.depends_on@).contains(key)
                <==> declares(manifest, key) && key != manifest.id@,
    {
        let mut r = manifest;
        r.flatten_depends();
        r
    }

    /// The ids of the plugins bundled in `metadata`, at any depth.
    pub fn nested_ids(metadata: &PluginMetadata) -> (r: Vec<String>)
        ensures
            forall|key: Seq<char>| #[trigger] views(r@).contains(key) <==> nested(*metadata, key),
        decreases metadata,
    {
        let mut r: Vec<String> = Vec::new();
        let m = metadata.contains.len();
        let mut c: usize = 0;
        while c < m
            invariant
                m == metadata.contains@.len(),
                c <= m,
                forall|key: Seq<char>| #[trigger] views(r@).contains(key) <==> nested_among(*metadata, c as int, key),
            decreases m - c,
        {
            proof {
                assert(decreases_to!(*metadata => metadata.contains));
                assert(decreases_to!(metadata.contains => metadata.contains[c as int]));
            }
            let child = &metadata.contains[c];
            let mut inner = PluginMetadata::nested_ids(child);
            let ghost before = views(r@);
            let ghost got = views(inner@);
            r.push(child.id.clone());
            r.append(&mut inner);
            c = c + 1;
            proof {
                assert(views(r@) =~= before.push(child.id@) + got);
                lemma_push_contains(before, child.id@);
                lemma_concat_contains(before.push(child.id@), got);
            }
        }
        r
    }
}

} // verus!

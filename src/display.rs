//! Grouping plugin ids by status, each group in id order.
use vstd::prelude::*;

use crate::plugin::{views, Plugin, PluginList, PluginStatus};

verus! {

/// `a` sorts no later than `b`: character by character, a prefix first.
pub open spec fn id_le(a: Seq<char>, b: Seq<char>) -> bool
    decreases a.len(),
{
    if a.len() == 0 {
        true
    } else if b.len() == 0 {
        false
    } else if (a[0] as u32) != (b[0] as u32) {
        (a[0] as u32) < (b[0] as u32)
    } else {
        id_le(a.drop_first(), b.drop_first())
    }
}

/// Every id sorts no later than the ones after it.
pub open spec fn ids_sorted(s: Seq<Seq<char>>) -> bool {
    forall|a: int, b: int| 0 <= a < b < s.len() ==> id_le(s[a], s[b])
}

/// The ids of the plugins with status `st`, in registration order.
pub open spec fn ids_with(s: Seq<Plugin>, st: PluginStatus) -> Seq<Seq<char>>
    decreases s.len(),
{
    if s.len() == 0 {
        Seq::empty()
    } else if s.last().status == st {
        ids_with(s.drop_last(), st).push(s.last().metadata.id@)
    } else {
        ids_with(s.drop_last(), st)
    }
}

/// The status shown in group `k`.
pub open spec fn group_status(k: int) -> PluginStatus {
    if k == 0 {
        PluginStatus::Enabled
    } else if k == 1 {
        PluginStatus::Disabled
    } else {
        PluginStatus::NotTheProblem
    }
}

/// The statuses in display order that some plugin among `plugins` holds,
/// looking at the first `k` of enabled, disabled, ruled out.
pub open spec fn shown_statuses(plugins: Seq<Plugin>, k: int) -> Seq<PluginStatus>
    decreases k,
{
    if k <= 0 {
        Seq::empty()
    } else if ids_with(plugins, group_status(k - 1)).len() > 0 {
        shown_statuses(plugins, k - 1).push(group_status(k - 1))
    } else {
        shown_statuses(plugins, k - 1)
    }
}

/// `groups` holds, in display order, one group for each status some plugin
/// holds: the status and the ids of the plugins with it, sorted.
pub open spec fn grouped(groups: Seq<(PluginStatus, Seq<Seq<char>>)>, plugins: Seq<Plugin>) -> bool {
    &&& groups.len() == shown_statuses(plugins, 3).len()
    &&& forall|k: int|
        0 <= k < groups.len() ==> (#[trigger] groups[k]).0 == shown_statuses(plugins, 3)[k] && ids_sorted(
            groups[k].1,
        ) && groups[k].1.to_multiset() == ids_with(plugins, groups[k].0).to_multiset()
}

proof fn lemma_id_le_total(a: Seq<char>, b: Seq<char>)
    ensures
        id_le(a, b) || id_le(b, a),
    decreases a.len(),
{
    if a.len() > 0 && b.len() > 0 && (a[0] as u32) == (b[0] as u32) {
        lemma_id_le_total(a.drop_first(), b.drop_first());
    }
}

proof fn lemma_id_le_trans(a: Seq<char>, b: Seq<char>, c: Seq<char>)
    requires
        id_le(a, b),
        id_le(b, c),
    ensures
        id_le(a, c),
    decreases a.len(),
{
    if a.len() > 0 && b.len() > 0 && c.len() > 0 && (a[0] as u32) == (b[0] as u32) && (b[0] as u32) == (c[0] as u32) {
        lemma_id_le_trans(a.drop_first(), b.drop_first(), c.drop_first());
    }
}

/// Compares two ids by `id_le`.
fn id_le_exec(a: &String, b: &String) -> (r: bool)
    ensures
        r == id_le(a@, b@),
{
    let sa = a.as_str();
    let sb = b.as_str();
    let la = sa.unicode_len();
    let lb = sb.unicode_len();
    let mut i: usize = 0;
    assert(a@.subrange(0, la as int) == a@);
    assert(b@.subrange(0, lb as int) == b@);
    while i < la && i < lb
        invariant
            sa@ == a@,
            sb@ == b@,
            la == a@.len(),
            lb == b@.len(),
            i <= la,
            i <= lb,
            id_le(a@, b@) == id_le(a@.subrange(i as int, la as int), b@.subrange(i as int, lb as int)),
        decreases la - i,
    {
        let ca = sa.get_char(i);
        let cb = sb.get_char(i);
        let ghost ra = a@.subrange(i as int, la as int);
        let ghost rb = b@.subrange(i as int, lb as int);
        assert(ra[0] == ca && rb[0] == cb);
        if (ca as u32) != (cb as u32) {
            return (ca as u32) < (cb as u32);
        }
        assert(ra.drop_first() == a@.subrange(i + 1, la as int));
        assert(rb.drop_first() == b@.subrange(i + 1, lb as int));
        i = i + 1;
    }
    i == la
}

/// Puts `id` into the sorted `group`, after the ids that sort no later.
fn insert_sorted(group: &mut Vec<String>, id: String)
    requires
        ids_sorted(views(old(group)@)),
    ensures
        ids_sorted(views(final(group)@)),
        views(final(group)@).to_multiset() == views(old(group)@).to_multiset().insert(id@),
{
    let mut p: usize = 0;
    while p < group.len() && id_le_exec(&group[p], &id)
        invariant
            p <= group@.len(),
            forall|q: int| 0 <= q < p ==> id_le(group@[q]@, id@),
        decreases group@.len() - p,
    {
        p = p + 1;
    }
    let ghost s = views(group@);
    let ghost x = id@;
    proof {
        if p < group@.len() {
            assert(!id_le(group@[p as int]@, id@));
            lemma_id_le_total(group@[p as int]@, id@);
        }
        assert forall|q: int| p <= q < s.len() implies id_le(x, s[q]) by {
            assert(s[p as int] == group@[p as int]@);
            if q > p {
                lemma_id_le_trans(x, s[p as int], s[q]);
            }
        }
        assert forall|q: int| 0 <= q < p implies id_le(s[q], x) by {
            assert(s[q] == group@[q]@);
        }
    }
    group.insert(p, id);
    proof {
        let t = views(group@);
        assert(t =~= s.insert(p as int, x));
        assert forall|a: int, b: int| 0 <= a < b < t.len() implies id_le(t[a], t[b]) by {
            if b < p {
            } else if b == p {
            } else if a < p {
                assert(t[b] == s[b - 1]);
            } else if a == p {
                assert(t[b] == s[b - 1]);
            } else {
                assert(t[a] == s[a - 1] && t[b] == s[b - 1]);
            }
        }
        broadcast use vstd::seq_lib::group_to_multiset_ensures;
        broadcast use vstd::multiset::group_multiset_axioms;
        assert(t.remove(p as int) =~= s);
        assert(t.remove(p as int).to_multiset() =~= t.to_multiset().remove(x));
        assert(t.to_multiset().count(x) > 0) by {
            assert(t[p as int] == x);
            assert(t.contains(x));
        }
        assert(t.to_multiset() =~= s.to_multiset().insert(x));
    }
}

/// The groups as statuses and id sequences.
pub open spec fn group_views(groups: Seq<(PluginStatus, Vec<String>)>) -> Seq<(PluginStatus, Seq<Seq<char>>)> {
    groups.map_values(|g: (PluginStatus, Vec<String>)| (g.0, views(g.1@)))
}

impl PluginList {
    /// The ids of the plugins grouped by status, in display order, each group
    /// sorted by id; a status no plugin holds gets no group.
    pub fn display_order(&self) -> (r: Vec<(PluginStatus, Vec<String>)>)
        ensures
            grouped(group_views(r@), self.plugins()),
    {
        let order = PluginStatus::iter();
        let n = self.len();
        let mut r: Vec<(PluginStatus, Vec<String>)> = Vec::new();
        let mut k: usize = 0;
        while k < 3
            invariant
                order@ == seq![PluginStatus::Enabled, PluginStatus::Disabled, PluginStatus::NotTheProblem],
                n == self.len_spec(),
                k <= 3,
                r@.len() == shown_statuses(self.plugins(), k as int).len(),
                forall|j: int|
                    0 <= j < r@.len() ==> (#[trigger] r@[j]).0 == shown_statuses(self.plugins(), k as int)[j]
                        && ids_sorted(views(r@[j].1@)) && views(r@[j].1@).to_multiset() == ids_with(
                        self.plugins(),
                        r@[j].0,
                    ).to_multiset(),
            decreases 3 - k,
        {
            let st = order[k];
            assert(st == group_status(k as int));
            let mut group: Vec<String> = Vec::new();
            let mut i: usize = 0;
            proof {
                broadcast use vstd::seq_lib::group_to_multiset_ensures;
                assert(self.plugins().subrange(0, 0) =~= Seq::<Plugin>::empty());
                assert(views(group@) =~= Seq::<Seq<char>>::empty());
                assert(ids_with(self.plugins().subrange(0, 0), st) =~= Seq::<Seq<char>>::empty());
            }
            while i < n
                invariant
                    n == self.len_spec(),
                    i <= n,
                    ids_sorted(views(group@)),
                    views(group@).to_multiset() == ids_with(self.plugins().subrange(0, i as int), st).to_multiset(),
                decreases n - i,
            {
                let p = self.at(i);
                let ghost pre = self.plugins().subrange(0, i as int);
                let ghost next = self.plugins().subrange(0, i + 1);
                assert(next.drop_last() == pre);
                assert(next.last() == *p);
                if p.status == st {
                    insert_sorted(&mut group, p.metadata.id.clone());
                    proof {
                        broadcast use vstd::seq_lib::group_to_multiset_ensures;
                        assert(ids_with(next, st) == ids_with(pre, st).push(p.metadata.id@));
                    }
                }
                i = i + 1;
            }
            assert(self.plugins().subrange(0, n as int) == self.plugins());
            proof {
                broadcast use vstd::seq_lib::group_to_multiset_ensures;
                assert(views(group@).len() == views(group@).to_multiset().len());
                assert(ids_with(self.plugins(), st).len() == ids_with(self.plugins(), st).to_multiset().len());
                assert(group@.len() == views(group@).len());
            }
            let ghost before = r@;
            let ghost shown = shown_statuses(self.plugins(), k as int);
            if group.len() > 0 {
                r.push((st, group));
                proof {
                    assert(shown_statuses(self.plugins(), k + 1) == shown.push(st));
                    assert forall|j: int|
                        0 <= j < r@.len() implies (#[trigger] r@[j]).0 == shown_statuses(self.plugins(), k + 1)[j]
                            && ids_sorted(views(r@[j].1@)) && views(r@[j].1@).to_multiset() == ids_with(
                            self.plugins(),
                            r@[j].0,
                        ).to_multiset() by {
                        if j < before.len() {
                            assert(r@[j] == before[j]);
                        }
                    }
                }
            } else {
                assert(shown_statuses(self.plugins(), k + 1) == shown);
            }
            k = k + 1;
        }
        let ghost m = group_views(r@);
        assert forall|j: int| 0 <= j < m.len() implies (#[trigger] m[j]).0 == shown_statuses(self.plugins(), 3)[j]
            && ids_sorted(m[j].1) && m[j].1.to_multiset() == ids_with(self.plugins(), m[j].0).to_multiset() by {
            assert(m[j] == (r@[j].0, views(r@[j].1@)));
        }
        r
    }
}

} // verus!

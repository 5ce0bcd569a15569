//! The node table: its entries, the map they make, and what can be found
//! along them (groups, targets, and their keys).
use vstd::prelude::*;

use crate::objects::{PBXGroup, PBXNativeTarget, PBXObject};

verus! {

/// The node table as a map, built from its entries in order (a later entry
/// for a key replaces an earlier one).
pub open spec fn table_of(s: Seq<(Seq<char>, PBXObject)>) -> Map<Seq<char>, PBXObject>
    decreases s.len(),
{
    if s.len() == 0 {
        Map::empty()
    } else {
        table_of(s.drop_last()).insert(s.last().0, s.last().1)
    }
}

/// No key occurs twice among the entries.
pub open spec fn keys_unique(s: Seq<(Seq<char>, PBXObject)>) -> bool {
    forall|i: int, j: int| 0 <= i < s.len() && 0 <= j < s.len() && i != j ==> s[i].0 != s[j].0
}

/// With unique keys, the table holds exactly the entries' keys, each with
/// its entry's node.
pub proof fn lemma_table_of(s: Seq<(Seq<char>, PBXObject)>)
    requires
        keys_unique(s),
    ensures
        forall|k: Seq<char>|
            table_of(s).contains_key(k) <==> exists|i: int| 0 <= i < s.len() && s[i].0 == k,
        forall|i: int| 0 <= i < s.len() ==> #[trigger] table_of(s)[s[i].0] == s[i].1,
    decreases s.len(),
{
    if s.len() > 0 {
        let t = s.drop_last();
        assert forall|i: int, j: int| 0 <= i < t.len() && 0 <= j < t.len() && i != j implies t[i].0
            != t[j].0 by {
            assert(t[i] == s[i] && t[j] == s[j]);
        }
        lemma_table_of(t);
        assert(table_of(s) == table_of(t).insert(s.last().0, s.last().1));
        assert forall|k: Seq<char>|
            table_of(s).contains_key(k) <==> exists|i: int| 0 <= i < s.len() && s[i].0 == k by {
            if k == s.last().0 {
                assert(s[s.len() - 1].0 == k);
            }
            if table_of(s).contains_key(k) && k != s.last().0 {
                assert(table_of(t).contains_key(k));
                let i = choose|i: int| 0 <= i < t.len() && t[i].0 == k;
                assert(s[i].0 == k);
            }
            if exists|i: int| 0 <= i < s.len() && s[i].0 == k {
                let i = choose|i: int| 0 <= i < s.len() && s[i].0 == k;
                if i < s.len() - 1 {
                    assert(t[i].0 == k);
                }
            }
        }
        assert forall|i: int| 0 <= i < s.len() implies #[trigger] table_of(s)[s[i].0] == s[i].1 by {
            if i < s.len() - 1 {
                assert(t[i] == s[i]);
                assert(s[i].0 != s.last().0);
            }
        }
    }
}

/// The entries' keys and nodes, keys as character sequences.
pub open spec fn entries_of(v: Seq<(String, PBXObject)>) -> Seq<(Seq<char>, PBXObject)> {
    v.map_values(|e: (String, PBXObject)| (e.0@, e.1))
}

/// Stores `object` under `id` in a table with unique keys, replacing the node
/// held there, if any.
pub(crate) fn insert_entry(v: &mut Vec<(String, PBXObject)>, id: String, object: PBXObject)
    requires
        keys_unique(entries_of(old(v)@)),
    ensures
        keys_unique(entries_of(final(v)@)),
        table_of(entries_of(final(v)@)) == table_of(entries_of(old(v)@)).insert(id@, object),
{
    let ghost s = entries_of(v@);
    let ghost k = id@;
    let n = v.len();
    let mut i: usize = 0;
    while i < n
        invariant
            n == v.len(),
            v@ == old(v)@,
            s == entries_of(v@),
            keys_unique(s),
            k == id@,
            i <= n,
            forall|j: int| 0 <= j < i ==> s[j].0 != k,
        decreases n - i,
    {
        if v[i].0 == id {
            let ghost t = s.update(i as int, (k, object));
            v.set(i, (id, object));
            assert(entries_of(v@) =~= t);
            proof {
                assert forall|a: int, b: int|
                    0 <= a < t.len() && 0 <= b < t.len() && a != b implies t[a].0 != t[b].0 by {
                    assert(s[a].0 == t[a].0 && s[b].0 == t[b].0);
                }
                lemma_table_of(s);
                lemma_table_of(t);
                assert(table_of(t) =~= table_of(s).insert(k, object)) by {
                    assert forall|key: Seq<char>|
                        table_of(t).contains_key(key) <==> #[trigger] table_of(s).insert(
                            k,
                            object,
                        ).contains_key(key) by {
                        if key == k {
                            assert(t[i as int].0 == key);
                        }
                        if table_of(s).contains_key(key) {
                            let j = choose|j: int| 0 <= j < s.len() && s[j].0 == key;
                            assert(t[j].0 == key);
                        }
                        if table_of(t).contains_key(key) {
                            let j = choose|j: int| 0 <= j < t.len() && t[j].0 == key;
                            assert(s[j].0 == key);
                        }
                    }
                    assert forall|key: Seq<char>| #[trigger]
                        table_of(t).contains_key(key) implies table_of(t)[key] == table_of(
                        s,
                    ).insert(k, object)[key] by {
                        let j = choose|j: int| 0 <= j < t.len() && t[j].0 == key;
                        assert(table_of(t)[t[j].0] == t[j].1);
                        if j != i {
                            assert(t[j] == s[j]);
                            assert(t[i as int].0 == k);
                            assert(key != k);
                            assert(table_of(s)[s[j].0] == s[j].1);
                        } else {
                            assert(key == k);
                        }
                    }
                }
            }
            return;
        }
        i = i + 1;
    }
    let ghost t = s.push((k, object));
    v.push((id, object));
    assert(entries_of(v@) =~= t);
    assert(t.drop_last() =~= s);
}

/// The groups among the entries, in entry order.
pub open spec fn groups_in(s: Seq<(Seq<char>, PBXObject)>) -> Seq<PBXGroup>
    decreases s.len(),
{
    if s.len() == 0 {
        Seq::empty()
    } else {
        match s.last().1 {
            PBXObject::PBXGroup(g) => groups_in(s.drop_last()).push(g),
            _ => groups_in(s.drop_last()),
        }
    }
}

/// The native targets among the entries, in entry order.
pub open spec fn targets_in(s: Seq<(Seq<char>, PBXObject)>) -> Seq<PBXNativeTarget>
    decreases s.len(),
{
    if s.len() == 0 {
        Seq::empty()
    } else {
        match s.last().1 {
            PBXObject::PBXNativeTarget(t) => targets_in(s.drop_last()).push(t),
            _ => targets_in(s.drop_last()),
        }
    }
}

/// The native targets that `ids` resolve to through `table`, in the order of
/// `ids`; identifiers that are absent or name another kind of node are skipped.
pub open spec fn resolved_targets(
    ids: Seq<Seq<char>>,
    table: Map<Seq<char>, PBXObject>,
) -> Seq<PBXNativeTarget>
    decreases ids.len(),
{
    if ids.len() == 0 {
        Seq::empty()
    } else {
        let prev = resolved_targets(ids.drop_last(), table);
        if table.contains_key(ids.last()) {
            match table[ids.last()] {
                PBXObject::PBXNativeTarget(t) => prev.push(t),
                _ => prev,
            }
        } else {
            prev
        }
    }
}

/// The identifiers as character sequences.
pub open spec fn ids_of(v: Seq<String>) -> Seq<Seq<char>> {
    v.map_values(|s: String| s@)
}

/// The keys of `m` whose node is a group.
pub open spec fn group_keys(m: Map<Seq<char>, PBXObject>) -> Set<Seq<char>> {
    m.dom().filter(|k: Seq<char>| m[k] is PBXGroup)
}

/// The keys of `m` whose node is a native target.
pub open spec fn target_keys(m: Map<Seq<char>, PBXObject>) -> Set<Seq<char>> {
    m.dom().filter(|k: Seq<char>| m[k] is PBXNativeTarget)
}

/// With unique keys, the groups and targets found along the entries are those
/// of the table, one for each key that holds one.
pub proof fn lemma_kinds_follow_table(s: Seq<(Seq<char>, PBXObject)>)
    requires
        keys_unique(s),
    ensures
        table_of(s).dom().finite(),
        groups_in(s).len() == group_keys(table_of(s)).len(),
        targets_in(s).len() == target_keys(table_of(s)).len(),
        forall|g: PBXGroup|
            groups_in(s).contains(g) <==> exists|k: Seq<char>|
                table_of(s).contains_key(k) && #[trigger] table_of(s)[k] == PBXObject::PBXGroup(g),
        forall|t: PBXNativeTarget|
            targets_in(s).contains(t) <==> exists|k: Seq<char>|
                table_of(s).contains_key(k) && #[trigger] table_of(s)[k]
                    == PBXObject::PBXNativeTarget(t),
    decreases s.len(),
{
    if s.len() == 0 {
        assert(group_keys(table_of(s)) =~= Set::<Seq<char>>::empty());
        assert(target_keys(table_of(s)) =~= Set::<Seq<char>>::empty());
    } else {
        let t = s.drop_last();
        let (kl, vl) = s.last();
        assert forall|i: int, j: int| 0 <= i < t.len() && 0 <= j < t.len() && i != j implies t[i].0
            != t[j].0 by {
            assert(t[i] == s[i] && t[j] == s[j]);
        }
        lemma_kinds_follow_table(t);
        lemma_table_of(t);
        let m = table_of(t);
        let ms = table_of(s);
        assert(ms == m.insert(kl, vl));
        assert(!m.contains_key(kl)) by {
            if m.contains_key(kl) {
                let i = choose|i: int| 0 <= i < t.len() && t[i].0 == kl;
                assert(s[i].0 == s[s.len() - 1].0);
            }
        }
        if vl is PBXGroup {
            assert(group_keys(ms) =~= group_keys(m).insert(kl));
        } else {
            assert(group_keys(ms) =~= group_keys(m));
        }
        if vl is PBXNativeTarget {
            assert(target_keys(ms) =~= target_keys(m).insert(kl));
        } else {
            assert(target_keys(ms) =~= target_keys(m));
        }
        assert forall|g: PBXGroup|
            groups_in(s).contains(g) <==> exists|k: Seq<char>|
                ms.contains_key(k) && #[trigger] ms[k] == PBXObject::PBXGroup(g) by {
            if groups_in(t).contains(g) {
                let k = choose|k: Seq<char>| m.contains_key(k) && #[trigger] m[k] == PBXObject::PBXGroup(g);
                assert(ms[k] == m[k]);
            }
            if exists|k: Seq<char>| ms.contains_key(k) && #[trigger] ms[k] == PBXObject::PBXGroup(g) {
                let k = choose|k: Seq<char>| ms.contains_key(k) && #[trigger] ms[k] == PBXObject::PBXGroup(g);
                if k != kl {
                    assert(m[k] == PBXObject::PBXGroup(g));
                    assert(groups_in(t).contains(g));
                }
            }
            if vl == PBXObject::PBXGroup(g) {
                assert(ms[kl] == PBXObject::PBXGroup(g));
            }
            if vl is PBXGroup {
                assert(groups_in(s) == groups_in(t).push(vl->PBXGroup_0));
                assert(groups_in(s).last() == vl->PBXGroup_0);
                if groups_in(t).contains(g) {
                    let i = choose|i: int| 0 <= i < groups_in(t).len() && groups_in(t)[i] == g;
                    assert(groups_in(s)[i] == g);
                }
            }
        }
        assert forall|x: PBXNativeTarget|
            targets_in(s).contains(x) <==> exists|k: Seq<char>|
                ms.contains_key(k) && #[trigger] ms[k] == PBXObject::PBXNativeTarget(x) by {
            if targets_in(t).contains(x) {
                let k = choose|k: Seq<char>| m.contains_key(k) && #[trigger] m[k] == PBXObject::PBXNativeTarget(x);
                assert(ms[k] == m[k]);
            }
            if exists|k: Seq<char>| ms.contains_key(k) && #[trigger] ms[k] == PBXObject::PBXNativeTarget(x) {
                let k = choose|k: Seq<char>| ms.contains_key(k) && #[trigger] ms[k] == PBXObject::PBXNativeTarget(x);
                if k != kl {
                    assert(m[k] == PBXObject::PBXNativeTarget(x));
                    assert(targets_in(t).contains(x));
                }
            }
            if vl == PBXObject::PBXNativeTarget(x) {
                assert(ms[kl] == PBXObject::PBXNativeTarget(x));
            }
            if vl is PBXNativeTarget {
                assert(targets_in(s) == targets_in(t).push(vl->PBXNativeTarget_0));
                assert(targets_in(s).last() == vl->PBXNativeTarget_0);
                if targets_in(t).contains(x) {
                    let i = choose|i: int| 0 <= i < targets_in(t).len() && targets_in(t)[i] == x;
                    assert(targets_in(s)[i] == x);
                }
            }
        }
    }
}

/// A target is resolved from `ids` exactly when one of them names it.
pub proof fn lemma_resolved_targets(ids: Seq<Seq<char>>, m: Map<Seq<char>, PBXObject>)
    ensures
        forall|t: PBXNativeTarget|
            resolved_targets(ids, m).contains(t) <==> exists|i: int|
                0 <= i < ids.len() && m.contains_key(ids[i]) && #[trigger] m[ids[i]]
                    == PBXObject::PBXNativeTarget(t),
    decreases ids.len(),
{
    if ids.len() > 0 {
        let prev = ids.drop_last();
        lemma_resolved_targets(prev, m);
        let r = resolved_targets(ids, m);
        let rp = resolved_targets(prev, m);
        assert forall|t: PBXNativeTarget|
            r.contains(t) <==> exists|i: int|
                0 <= i < ids.len() && m.contains_key(ids[i]) && #[trigger] m[ids[i]]
                    == PBXObject::PBXNativeTarget(t) by {
            let last = ids.last();
            let hit = m.contains_key(last) && m[last] is PBXNativeTarget;
            if hit {
                assert(r == rp.push(m[last]->PBXNativeTarget_0));
                if rp.contains(t) {
                    let j = choose|j: int| 0 <= j < rp.len() && rp[j] == t;
                    assert(r[j] == t);
                }
                assert(r[r.len() - 1] == m[last]->PBXNativeTarget_0);
            } else {
                assert(r == rp);
            }
            if rp.contains(t) {
                let i = choose|i: int|
                    0 <= i < prev.len() && m.contains_key(prev[i]) && #[trigger] m[prev[i]]
                        == PBXObject::PBXNativeTarget(t);
                assert(ids[i] == prev[i]);
            }
            if exists|i: int|
                0 <= i < ids.len() && m.contains_key(ids[i]) && #[trigger] m[ids[i]]
                    == PBXObject::PBXNativeTarget(t) {
                let i = choose|i: int|
                    0 <= i < ids.len() && m.contains_key(ids[i]) && #[trigger] m[ids[i]]
                        == PBXObject::PBXNativeTarget(t);
                if i < ids.len() - 1 {
                    assert(prev[i] == ids[i]);
                    assert(rp.contains(t));
                } else {
                    assert(hit);
                }
            }
        }
    }
}

/// The keys of the group entries, in entry order.
pub open spec fn group_ids_in(s: Seq<(Seq<char>, PBXObject)>) -> Seq<Seq<char>>
    decreases s.len(),
{
    if s.len() == 0 {
        Seq::empty()
    } else if s.last().1 is PBXGroup {
        group_ids_in(s.drop_last()).push(s.last().0)
    } else {
        group_ids_in(s.drop_last())
    }
}

/// The keys of the native-target entries, in entry order.
pub open spec fn target_ids_in(s: Seq<(Seq<char>, PBXObject)>) -> Seq<Seq<char>>
    decreases s.len(),
{
    if s.len() == 0 {
        Seq::empty()
    } else if s.last().1 is PBXNativeTarget {
        target_ids_in(s.drop_last()).push(s.last().0)
    } else {
        target_ids_in(s.drop_last())
    }
}

/// `items` lists the groups of `m`, in some order: once for each key that
/// holds a group, and nothing else.
pub open spec fn lists_groups_of(m: Map<Seq<char>, PBXObject>, items: Seq<PBXGroup>) -> bool {
    exists|ks: Seq<Seq<char>>|
        {
            &&& ks.len() == items.len()
            &&& ks.no_duplicates()
            &&& forall|k: Seq<char>| ks.contains(k) <==> #[trigger] group_keys(m).contains(k)
            &&& forall|i: int| 0 <= i < ks.len() ==> m[#[trigger] ks[i]] == PBXObject::PBXGroup(items[i])
        }
}

/// `items` lists the native targets of `m`, in some order: once for each key
/// that holds a target, and nothing else.
pub open spec fn lists_targets_of(m: Map<Seq<char>, PBXObject>, items: Seq<PBXNativeTarget>) -> bool {
    exists|ks: Seq<Seq<char>>|
        {
            &&& ks.len() == items.len()
            &&& ks.no_duplicates()
            &&& forall|k: Seq<char>| ks.contains(k) <==> #[trigger] target_keys(m).contains(k)
            &&& forall|i: int| 0 <= i < ks.len() ==> m[#[trigger] ks[i]] == PBXObject::PBXNativeTarget(items[i])
        }
}

/// With unique keys, the group and target keys found along the entries are
/// those of the table, each once, paired with the groups and targets found.
pub proof fn lemma_kind_keys(s: Seq<(Seq<char>, PBXObject)>)
    requires
        keys_unique(s),
    ensures
        group_ids_in(s).len() == groups_in(s).len(),
        group_ids_in(s).no_duplicates(),
        forall|k: Seq<char>| group_ids_in(s).contains(k) <==> #[trigger] group_keys(table_of(s)).contains(k),
        forall|i: int| 0 <= i < group_ids_in(s).len() ==> table_of(s)[#[trigger] group_ids_in(s)[i]] == PBXObject::PBXGroup(groups_in(s)[i]),
        target_ids_in(s).len() == targets_in(s).len(),
        target_ids_in(s).no_duplicates(),
        forall|k: Seq<char>| target_ids_in(s).contains(k) <==> #[trigger] target_keys(table_of(s)).contains(k),
        forall|i: int| 0 <= i < target_ids_in(s).len() ==> table_of(s)[#[trigger] target_ids_in(s)[i]] == PBXObject::PBXNativeTarget(targets_in(s)[i]),
    decreases s.len(),
{
    if s.len() > 0 {
        let t = s.drop_last();
        let (kl, vl) = s.last();
        assert forall|i: int, j: int| 0 <= i < t.len() && 0 <= j < t.len() && i != j implies t[i].0
            != t[j].0 by {
            assert(t[i] == s[i] && t[j] == s[j]);
        }
        lemma_kind_keys(t);
        lemma_table_of(t);
        let m = table_of(t);
        let ms = table_of(s);
        assert(ms == m.insert(kl, vl));
        assert(!m.contains_key(kl)) by {
            if m.contains_key(kl) {
                let i = choose|i: int| 0 <= i < t.len() && t[i].0 == kl;
                assert(s[i].0 == s[s.len() - 1].0);
            }
        }
        let gt = group_ids_in(t);
        let gs = group_ids_in(s);
        assert forall|i: int| 0 <= i < gt.len() implies gt[i] != kl && ms[gt[i]] == m[gt[i]] by {
            assert(gt.contains(gt[i]));
            assert(group_keys(m).contains(gt[i]));
        }
        let tt = target_ids_in(t);
        let ts = target_ids_in(s);
        assert forall|i: int| 0 <= i < tt.len() implies tt[i] != kl && ms[tt[i]] == m[tt[i]] by {
            assert(tt.contains(tt[i]));
            assert(target_keys(m).contains(tt[i]));
        }
        if vl is PBXGroup {
            assert(gs == gt.push(kl));
            assert(gs[gt.len() as int] == kl);
            assert forall|k: Seq<char>| gs.contains(k) <==> #[trigger] group_keys(ms).contains(k) by {
                if gt.contains(k) {
                    let i = choose|i: int| 0 <= i < gt.len() && gt[i] == k;
                    assert(gs[i] == k);
                }
                if gs.contains(k) && k != kl {
                    let i = choose|i: int| 0 <= i < gs.len() && gs[i] == k;
                    assert(gt[i] == k);
                }
                if group_keys(ms).contains(k) && k != kl {
                    assert(group_keys(m).contains(k));
                }
            }
        } else {
            assert(gs == gt);
            assert forall|k: Seq<char>| gs.contains(k) <==> #[trigger] group_keys(ms).contains(k) by {
                if group_keys(ms).contains(k) {
                    assert(k != kl);
                    assert(group_keys(m).contains(k));
                }
                if gs.contains(k) {
                    assert(group_keys(m).contains(k));
                }
            }
        }
        if vl is PBXNativeTarget {
            assert(ts == tt.push(kl));
            assert(ts[tt.len() as int] == kl);
            assert forall|k: Seq<char>| ts.contains(k) <==> #[trigger] target_keys(ms).contains(k) by {
                if tt.contains(k) {
                    let i = choose|i: int| 0 <= i < tt.len() && tt[i] == k;
                    assert(ts[i] == k);
                }
                if ts.contains(k) && k != kl {
                    let i = choose|i: int| 0 <= i < ts.len() && ts[i] == k;
                    assert(tt[i] == k);
                }
                if target_keys(ms).contains(k) && k != kl {
                    assert(target_keys(m).contains(k));
                }
            }
        } else {
            assert(ts == tt);
            assert forall|k: Seq<char>| ts.contains(k) <==> #[trigger] target_keys(ms).contains(k) by {
                if target_keys(ms).contains(k) {
                    assert(k != kl);
                    assert(target_keys(m).contains(k));
                }
                if ts.contains(k) {
                    assert(target_keys(m).contains(k));
                }
            }
        }
    }
}

} // verus!

//! Grouping of entries by an integer key.

use vstd::prelude::*;

verus! {

/// The entries that share a key.
pub struct Group {
    pub key: i64,
    pub members: Vec<usize>,
}

/// Whether `members` are entries with key `key` that are kept, in order.
pub open spec fn is_group(keys: Seq<i64>, keep: Seq<bool>, key: i64, members: Seq<usize>) -> bool {
    &&& members.len() > 0
    &&& forall|i: int|
        0 <= i < members.len() ==> #[trigger] members[i] < keys.len() && keep[members[i] as int]
            && keys[members[i] as int] == key
    &&& forall|i: int, j: int| 0 <= i < j < members.len() ==> #[trigger] members[i] < #[trigger] members[j]
}

/// Whether `groups` hold the kept entries: every one in the group of its key, the
/// groups by ascending key and the entries of each in order.
pub open spec fn is_grouping(keys: Seq<i64>, keep: Seq<bool>, groups: Seq<Group>) -> bool {
    &&& forall|g: int|
        0 <= g < groups.len() ==> is_group(keys, keep, (#[trigger] groups[g]).key, groups[g].members@)
    &&& forall|g: int, h: int|
        0 <= g < h < groups.len() ==> (#[trigger] groups[g]).key < (#[trigger] groups[h]).key
    &&& forall|k: int|
        0 <= k < keys.len() && #[trigger] keep[k] ==> exists|g: int|
            0 <= g < groups.len() && (#[trigger] groups[g]).members@.contains(k as usize)
}

/// The groups of the first `n` entries.
spec fn grouped_so_far(keys: Seq<i64>, keep: Seq<bool>, n: int, groups: Seq<Group>) -> bool {
    &&& forall|g: int|
        0 <= g < groups.len() ==> is_group(keys, keep, (#[trigger] groups[g]).key, groups[g].members@)
    &&& forall|g: int, i: int|
        0 <= g < groups.len() && 0 <= i < groups[g].members@.len() ==> #[trigger] groups[g].members@[i] < n
    &&& forall|g: int, h: int|
        0 <= g < h < groups.len() ==> (#[trigger] groups[g]).key < (#[trigger] groups[h]).key
    &&& forall|k: int|
        0 <= k < n && #[trigger] keep[k] ==> exists|g: int|
            0 <= g < groups.len() && (#[trigger] groups[g]).members@.contains(k as usize)
}

/// Adds entry `p` to the groups of those before it.
fn join(keys: &Vec<i64>, keep: &Vec<bool>, groups: &mut Vec<Group>, p: usize)
    requires
        p < keys@.len() == keep@.len(),
        keep@[p as int],
        grouped_so_far(keys@, keep@, p as int, old(groups)@),
    ensures
        grouped_so_far(keys@, keep@, p + 1, final(groups)@),
{
    let key: i64 = keys[p];
    let ghost was = groups@;
    let mut q: usize = groups.len();
    while q > 0 && groups[q - 1].key > key
        invariant
            q <= groups@.len(),
            groups@ == was,
            forall|h: int| q <= h < was.len() ==> (#[trigger] was[h]).key > key,
        decreases q,
    {
        q = q - 1;
    }
    if q > 0 && groups[q - 1].key == key {
        let mut g: Group = groups.remove(q - 1);
        let ghost old_members = g.members@;
        g.members.push(p);
        groups.insert(q - 1, g);
        proof {
            let now = groups@;
            let at = q - 1;
            assert(was[at].members@ == old_members);
            assert forall|h: int| 0 <= h < now.len() && h != at implies #[trigger] now[h] == was[h] by {}
            assert(now[at].members@ =~= old_members.push(p));
            assert(now[at].key == key);
            assert(now.len() == was.len());
            assert forall|i: int|
                0 <= i < now[at].members@.len() implies #[trigger] now[at].members@[i] < p + 1 by {
                if i < old_members.len() {
                    assert(was[at].members@[i] < p);
                }
            }
            assert(is_group(keys@, keep@, key, now[at].members@)) by {
                assert(is_group(keys@, keep@, key, was[at].members@));
                let m = now[at].members@;
                assert forall|i: int, j: int| 0 <= i < j < m.len() implies #[trigger] m[i]
                    < #[trigger] m[j] by {
                    assert(m[i] == old_members[i]);
                    assert(was[at].members@[i] < p);
                    if j < old_members.len() {
                        assert(m[j] == old_members[j]);
                    }
                }
                assert forall|i: int| 0 <= i < m.len() implies #[trigger] m[i] < keys@.len()
                    && keep@[m[i] as int] && keys@[m[i] as int] == key by {
                    if i < old_members.len() {
                        assert(m[i] == old_members[i]);
                    }
                }
            }
            assert forall|k: int|
                0 <= k < p + 1 && #[trigger] keep@[k] implies exists|g: int|
                0 <= g < now.len() && (#[trigger] now[g]).members@.contains(k as usize) by {
                if k < p {
                    let g = choose|g: int| 0 <= g < was.len() && (#[trigger] was[g]).members@.contains(k as usize);
                    if g == at {
                        let i = choose|i: int| 0 <= i < old_members.len() && old_members[i] == k;
                        assert(now[at].members@[i] == k);
                    }
                    assert(now[g].members@.contains(k as usize));
                } else {
                    assert(now[at].members@[old_members.len() as int] == p);
                    assert(now[at].members@.contains(k as usize));
                }
            }
            assert forall|g: int, h: int| 0 <= g < h < now.len() implies (#[trigger] now[g]).key < (
            #[trigger] now[h]).key by {
                assert(now[g].key == was[g].key && now[h].key == was[h].key);
            }
            assert forall|g: int, i: int|
                0 <= g < now.len() && 0 <= i < now[g].members@.len() implies #[trigger] now[g].members@[i]
                < p + 1 by {
                if g != at {
                    assert(was[g].members@[i] < p);
                }
            }
        }
    } else {
        let mut members: Vec<usize> = Vec::new();
        members.push(p);
        let g: Group = Group { key, members };
        groups.insert(q, g);
        proof {
            let now = groups@;
            was.insert_ensures(q as int, g);
            assert(now[q as int].members@ =~= seq![p]);
            assert forall|h: int| 0 <= h < now.len() && h != q implies #[trigger] now[h] == was[if h < q {
                h
            } else {
                h - 1
            }] by {}
            assert forall|a: int, h: int| 0 <= a < h < now.len() implies (#[trigger] now[a]).key < (
            #[trigger] now[h]).key by {
                if a == q {
                    assert(now[h] == was[h - 1]);
                } else if h == q {
                    assert(now[a] == was[a]);
                    if q > 0 && a < q - 1 {
                        assert(was[a].key < was[q - 1].key);
                    }
                } else {
                    let x = if a < q { a } else { a - 1 };
                    let y = if h < q { h } else { h - 1 };
                    assert(was[x].key < was[y].key);
                }
            }
            assert forall|a: int|
                0 <= a < now.len() implies is_group(keys@, keep@, (#[trigger] now[a]).key, now[a].members@) by {
                if a != q {
                    let x = if a < q { a } else { a - 1 };
                    assert(now[a] == was[x]);
                }
            }
            assert forall|a: int, i: int|
                0 <= a < now.len() && 0 <= i < now[a].members@.len() implies #[trigger] now[a].members@[i]
                < p + 1 by {
                if a != q {
                    let x = if a < q { a } else { a - 1 };
                    assert(now[a] == was[x]);
                    assert(was[x].members@[i] < p);
                }
            }
            assert forall|k: int|
                0 <= k < p + 1 && #[trigger] keep@[k] implies exists|a: int|
                0 <= a < now.len() && (#[trigger] now[a]).members@.contains(k as usize) by {
                if k < p {
                    let x = choose|x: int| 0 <= x < was.len() && (#[trigger] was[x]).members@.contains(k as usize);
                    let a = if x < q { x } else { x + 1 };
                    assert(now[a] == was[x]);
                    assert(now[a].members@.contains(k as usize));
                } else {
                    assert(now[q as int].members@[0] == p);
                    assert(now[q as int].members@.contains(k as usize));
                }
            }
        }
    }
}

/// The kept entries by key.
pub fn group_by_key(keys: &Vec<i64>, keep: &Vec<bool>) -> (r: Vec<Group>)
    requires
        keys@.len() == keep@.len(),
    ensures
        is_grouping(keys@, keep@, r@),
{
    let mut groups: Vec<Group> = Vec::new();
    let mut p: usize = 0;
    while p < keys.len()
        invariant
            p <= keys@.len() == keep@.len(),
            grouped_so_far(keys@, keep@, p as int, groups@),
        decreases keys@.len() - p,
    {
        if keep[p] {
            join(keys, keep, &mut groups, p);
        }
        p = p + 1;
    }
    groups
}

/// A group holds exactly the kept entries of its key, and each key has one group.
pub proof fn law_group_holds_its_key(keys: Seq<i64>, keep: Seq<bool>, groups: Seq<Group>, g: int, k: int)
    requires
        is_grouping(keys, keep, groups),
        keys.len() == keep.len(),
        keys.len() <= usize::MAX,
        0 <= g < groups.len(),
        0 <= k < keys.len(),
    ensures
        groups[g].members@.contains(k as usize) <==> keep[k] && keys[k] == groups[g].key,
        keep[k] ==> exists|h: int| 0 <= h < groups.len() && (#[trigger] groups[h]).key == keys[k],
{
    assert(is_group(keys, keep, groups[g].key, groups[g].members@));
    if keep[k] {
        let h = choose|h: int|
            0 <= h < groups.len() && (#[trigger] groups[h]).members@.contains(k as usize);
        assert(is_group(keys, keep, groups[h].key, groups[h].members@));
        let i = choose|i: int| 0 <= i < groups[h].members@.len() && groups[h].members@[i] == k as usize;
        assert(keys[groups[h].members@[i] as int] == groups[h].key);
        assert(groups[h].key == keys[k]);
        if keys[k] == groups[g].key {
            if h < g {
                assert(groups[h].key < groups[g].key);
            } else if g < h {
                assert(groups[g].key < groups[h].key);
            }
        }
    }
}

/// The groups of some entries ascend by key, the entries of each in order, and each group
/// holds exactly the kept entries of its key.
pub proof fn law_groups(keys: Vec<i64>, keep: Vec<bool>, r: Vec<Group>, k: int)
    requires
        keys@.len() == keep@.len(),
        call_ensures(group_by_key, (&keys, &keep), r),
        0 <= k < keys@.len(),
    ensures
        forall|g: int, h: int| 0 <= g < h < r@.len() ==> (#[trigger] r@[g]).key < (#[trigger] r@[h]).key,
        forall|g: int|
            0 <= g < r@.len() ==> (#[trigger] r@[g]).members@.len() > 0 && (r@[g].members@.contains(
                k as usize,
            ) <==> keep@[k] && keys@[k] == r@[g].key),
        forall|g: int, i: int, j: int|
            0 <= g < r@.len() && 0 <= i < j < r@[g].members@.len() ==> #[trigger] r@[g].members@[i]
                < #[trigger] r@[g].members@[j] < keys@.len(),
        keep@[k] ==> exists|g: int| 0 <= g < r@.len() && (#[trigger] r@[g]).key == keys@[k],
        !keep@[k] ==> forall|g: int| 0 <= g < r@.len() ==> !(#[trigger] r@[g]).members@.contains(k as usize),
{
    assert(keys.len() == keys@.len());
    assert forall|g: int| 0 <= g < r@.len() implies (#[trigger] r@[g]).members@.len() > 0 && (
    r@[g].members@.contains(k as usize) <==> keep@[k] && keys@[k] == r@[g].key) by {
        law_group_holds_its_key(keys@, keep@, r@, g, k);
        assert(is_group(keys@, keep@, r@[g].key, r@[g].members@));
    }
    assert forall|g: int, i: int, j: int| 0 <= g < r@.len() && 0 <= i < j < r@[g].members@.len()
        implies #[trigger] r@[g].members@[i] < #[trigger] r@[g].members@[j] < keys@.len() by {
        assert(is_group(keys@, keep@, r@[g].key, r@[g].members@));
    }
    if keep@[k] {
        let h = choose|h: int| 0 <= h < r@.len() && (#[trigger] r@[h]).members@.contains(k as usize);
        law_group_holds_its_key(keys@, keep@, r@, h, k);
    }
}

} // verus!

//! Tables keyed by text, most often by date: each key once, in ascending order.

use crate::text::{before, is_before, same, views};
use vstd::prelude::*;

verus! {

/// A table from text to values, its entries in the order of their keys.
pub struct Table<V> {
    entries: Vec<(String, V)>,
}

/// Whether the keys ascend, so that each occurs once.
pub open spec fn ascending<V>(entries: Seq<(String, V)>) -> bool {
    forall|i: int, j: int|
        0 <= i < j < entries.len() ==> before(#[trigger] entries[i].0@, #[trigger] entries[j].0@)
}

/// The map that the rows make when a later row replaces an earlier one of its key.
pub open spec fn last_values<V>(rows: Seq<(String, V)>) -> Map<Seq<char>, V>
    decreases rows.len(),
{
    if rows.len() == 0 {
        Map::empty()
    } else {
        last_values(rows.drop_last()).insert(rows.last().0@, rows.last().1)
    }
}

proof fn lemma_last_values_distinct<V>(rows: Seq<(String, V)>)
    requires
        ascending(rows),
    ensures
        forall|i: int|
            0 <= i < rows.len() ==> last_values(rows).contains_key(#[trigger] rows[i].0@)
                && last_values(rows)[rows[i].0@] == rows[i].1,
        forall|k: Seq<char>| #[trigger]
            last_values(rows).contains_key(k) ==> exists|i: int| 0 <= i < rows.len() && #[trigger] rows[i].0@ == k,
    decreases rows.len(),
{
    if rows.len() > 0 {
        let t = rows.drop_last();
        assert forall|i: int, j: int| 0 <= i < j < t.len() implies before(
            #[trigger] t[i].0@,
            #[trigger] t[j].0@,
        ) by {
            assert(t[i] == rows[i] && t[j] == rows[j]);
        }
        lemma_last_values_distinct(t);
        assert forall|i: int| 0 <= i < rows.len() implies last_values(rows).contains_key(
            #[trigger] rows[i].0@,
        ) && last_values(rows)[rows[i].0@] == rows[i].1 by {
            if i < t.len() {
                assert(t[i] == rows[i]);
                assert(before(rows[i].0@, rows[rows.len() - 1].0@));
                crate::text::law_before_is_total_order(rows[i].0@, rows[i].0@, rows[i].0@);
            }
        }
        assert forall|k: Seq<char>| #[trigger] last_values(rows).contains_key(k) implies exists|i: int|
            0 <= i < rows.len() && #[trigger] rows[i].0@ == k by {
            if k == rows.last().0@ {
                assert(rows[rows.len() - 1].0@ == k);
            } else {
                assert(last_values(t).contains_key(k));
                let i = choose|i: int| 0 <= i < t.len() && #[trigger] t[i].0@ == k;
                assert(rows[i].0@ == k);
            }
        }
    }
}

impl<V> View for Table<V> {
    type V = Map<Seq<char>, V>;

    closed spec fn view(&self) -> Map<Seq<char>, V> {
        last_values(self.entries@)
    }
}

impl<V> Table<V> {
    #[verifier::type_invariant]
    spec fn well_formed(self) -> bool {
        ascending(self.entries@)
    }

    /// The entries in the order of their keys.
    pub closed spec fn rows(self) -> Seq<(String, V)> {
        self.entries@
    }

    /// What a table holds: its keys ascend, and each entry is the value of its key.
    pub fn entries(&self) -> (r: &Vec<(String, V)>)
        ensures
            r@ == self.rows(),
            ascending(r@),
            self@ == last_values(r@),
            forall|i: int|
                0 <= i < r@.len() ==> self@.contains_key(#[trigger] r@[i].0@) && self@[r@[i].0@] == r@[i].1,
            forall|k: Seq<char>| #[trigger]
                self@.contains_key(k) ==> exists|i: int| 0 <= i < r@.len() && #[trigger] r@[i].0@ == k,
    {
        proof {
            use_type_invariant(self);
            lemma_last_values_distinct(self.entries@);
        }
        &self.entries
    }

    /// How many entries have a key before `key`.
    fn place(&self, key: &str) -> (r: usize)
        ensures
            r <= self.entries@.len(),
            forall|i: int| 0 <= i < r ==> before(#[trigger] self.entries@[i].0@, key@),
            forall|i: int|
                r <= i < self.entries@.len() ==> !before(#[trigger] self.entries@[i].0@, key@),
    {
        proof {
            use_type_invariant(self);
        }
        let mut lo: usize = 0;
        let mut hi: usize = self.entries.len();
        while lo < hi
            invariant
                lo <= hi <= self.entries@.len(),
                ascending(self.entries@),
                forall|i: int| 0 <= i < lo ==> before(#[trigger] self.entries@[i].0@, key@),
                forall|i: int|
                    hi <= i < self.entries@.len() ==> !before(#[trigger] self.entries@[i].0@, key@),
            decreases hi - lo,
        {
            let mid: usize = lo + (hi - lo) / 2;
            if is_before(self.entries[mid].0.as_str(), key) {
                assert forall|i: int| 0 <= i < mid + 1 implies before(
                    #[trigger] self.entries@[i].0@,
                    key@,
                ) by {
                    if i < mid {
                        assert(before(self.entries@[i].0@, self.entries@[mid as int].0@));
                        crate::text::law_before_is_total_order(
                            self.entries@[i].0@,
                            self.entries@[mid as int].0@,
                            key@,
                        );
                    }
                }
                lo = mid + 1;
            } else {
                assert forall|i: int| mid <= i < self.entries@.len() implies !before(
                    #[trigger] self.entries@[i].0@,
                    key@,
                ) by {
                    if i > mid {
                        assert(before(self.entries@[mid as int].0@, self.entries@[i].0@));
                        crate::text::law_before_is_total_order(
                            self.entries@[mid as int].0@,
                            self.entries@[i].0@,
                            key@,
                        );
                    }
                }
                hi = mid;
            }
        }
        lo
    }

    /// The value of `key`.
    pub fn get(&self, key: &str) -> (r: Option<&V>)
        ensures
            match r {
                Some(v) => self@.contains_key(key@) && *v == self@[key@],
                None => !self@.contains_key(key@),
            },
    {
        proof {
            use_type_invariant(self);
            lemma_last_values_distinct(self.entries@);
        }
        let i: usize = self.place(key);
        if i < self.entries.len() && same(self.entries[i].0.as_str(), key) {
            return Some(&self.entries[i].1);
        }
        proof {
            if self@.contains_key(key@) {
                let k = choose|k: int|
                    0 <= k < self.entries@.len() && #[trigger] self.entries@[k].0@ == key@;
                crate::text::law_before_is_total_order(key@, key@, key@);
                assert(k > i);
                assert(before(self.entries@[i as int].0@, self.entries@[k].0@));
            }
        }
        None
    }
}

/// Two ascending lists with the same entries make the same map.
proof fn lemma_entry_added<V>(was: Seq<(String, V)>, now: Seq<(String, V)>, key: Seq<char>, v: V, at: int)
    requires
        ascending(was),
        ascending(now),
        0 <= at < now.len(),
        now[at].0@ == key,
        now[at].1 == v,
        forall|i: int|
            0 <= i < now.len() && i != at ==> exists|j: int| 0 <= j < was.len() && was[j] == #[trigger] now[i],
        forall|j: int|
            0 <= j < was.len() && (#[trigger] was[j]).0@ != key ==> exists|i: int|
                0 <= i < now.len() && #[trigger] now[i] == was[j],
    ensures
        last_values(now) == last_values(was).insert(key, v),
{
    lemma_last_values_distinct(was);
    lemma_last_values_distinct(now);
    let a = last_values(now);
    let b = last_values(was).insert(key, v);
    assert forall|k: Seq<char>| a.contains_key(k) implies #[trigger] b.contains_key(k) && a[k] == b[k] by {
        let i = choose|i: int| 0 <= i < now.len() && #[trigger] now[i].0@ == k;
        if i != at {
            let j = choose|j: int| 0 <= j < was.len() && was[j] == now[i];
            assert(last_values(was)[was[j].0@] == was[j].1);
            assert(last_values(now)[now[i].0@] == now[i].1);
            if k == key {
                crate::text::law_before_is_total_order(k, k, k);
                assert(before(now[i].0@, now[at].0@) || before(now[at].0@, now[i].0@));
            }
        } else {
            assert(last_values(now)[now[at].0@] == now[at].1);
        }
    }
    assert forall|k: Seq<char>| b.contains_key(k) implies #[trigger] a.contains_key(k) by {
        if k == key {
            assert(a.contains_key(now[at].0@));
        } else {
            assert(last_values(was).contains_key(k));
            let j = choose|j: int| 0 <= j < was.len() && #[trigger] was[j].0@ == k;
            let i = choose|i: int| 0 <= i < now.len() && #[trigger] now[i] == was[j];
            assert(a.contains_key(now[i].0@));
        }
    }
    assert(a =~= b);
}

/// Gives `key` the value `v` in a list of ascending entries.
fn put<V>(entries: &mut Vec<(String, V)>, key: String, v: V)
    requires
        ascending(old(entries)@),
    ensures
        ascending(final(entries)@),
        last_values(final(entries)@) == last_values(old(entries)@).insert(key@, v),
{
    let ghost was = entries@;
    let mut q: usize = entries.len();
    while q > 0 && is_before(key.as_str(), entries[q - 1].0.as_str())
        invariant
            q <= entries@.len(),
            entries@ == was,
            forall|i: int| q <= i < was.len() ==> before(key@, #[trigger] was[i].0@),
        decreases q,
    {
        q = q - 1;
    }
    proof {
        crate::text::law_before_is_total_order(key@, key@, key@);
        if q > 0 {
            crate::text::law_before_is_total_order(key@, was[q - 1].0@, key@);
            assert forall|i: int| 0 <= i < q - 1 implies before(#[trigger] was[i].0@, key@) by {
                assert(before(was[i].0@, was[q - 1].0@));
                crate::text::law_before_is_total_order(was[i].0@, was[q - 1].0@, key@);
            }
        }
    }
    if q > 0 && same(entries[q - 1].0.as_str(), key.as_str()) {
        let ghost k = key@;
        entries.set(q - 1, (key, v));
        proof {
            let now = entries@;
            assert(now =~= was.update(q - 1, (key, v)));
            assert forall|i: int, j: int| 0 <= i < j < now.len() implies before(
                #[trigger] now[i].0@,
                #[trigger] now[j].0@,
            ) by {
                assert(now[i].0@ == was[i].0@ && now[j].0@ == was[j].0@);
                assert(before(was[i].0@, was[j].0@));
            }
            assert forall|j: int| 0 <= j < was.len() && (#[trigger] was[j]).0@ != k implies exists|i: int|
                0 <= i < now.len() && #[trigger] now[i] == was[j] by {
                assert(now[j] == was[j]);
            }
            assert forall|i: int| 0 <= i < now.len() && i != q - 1 implies exists|j: int|
                0 <= j < was.len() && was[j] == #[trigger] now[i] by {
                assert(was[i] == now[i]);
            }
            lemma_entry_added(was, now, k, v, q - 1);
        }
    } else {
        let ghost k = key@;
        entries.insert(q, (key, v));
        proof {
            let now = entries@;
            was.insert_ensures(q as int, (key, v));
            assert forall|i: int, j: int| 0 <= i < j < now.len() implies before(
                #[trigger] now[i].0@,
                #[trigger] now[j].0@,
            ) by {
                let a = if i < q { i } else { i - 1 };
                let b = if j < q { j } else { j - 1 };
                if i == q {
                    assert(now[j] == was[b]);
                } else if j == q {
                    assert(now[i] == was[a]);
                    assert(before(was[a].0@, k));
                } else {
                    assert(now[i] == was[a] && now[j] == was[b]);
                }
            }
            assert forall|j: int| 0 <= j < was.len() && (#[trigger] was[j]).0@ != k implies exists|i: int|
                0 <= i < now.len() && #[trigger] now[i] == was[j] by {
                if j < q {
                    assert(now[j] == was[j]);
                } else {
                    assert(now[j + 1] == was[j]);
                }
            }
            assert forall|i: int| 0 <= i < now.len() && i != q implies exists|j: int|
                0 <= j < was.len() && was[j] == #[trigger] now[i] by {
                if i < q {
                    assert(was[i] == now[i]);
                } else {
                    assert(was[i - 1] == now[i]);
                }
            }
            lemma_entry_added(was, now, k, v, q as int);
        }
    }
}

/// The table of the rows; where a key occurs more than once, its last row counts.
pub fn tabulate<V: Copy>(rows: &Vec<(String, V)>) -> (r: Table<V>)
    ensures
        r@ == last_values(rows@),
{
    let mut entries: Vec<(String, V)> = Vec::new();
    let mut i: usize = 0;
    while i < rows.len()
        invariant
            i <= rows@.len(),
            ascending(entries@),
            last_values(entries@) == last_values(rows@.take(i as int)),
        decreases rows@.len() - i,
    {
        let key: String = rows[i].0.clone();
        put(&mut entries, key, rows[i].1);
        assert(rows@.take(i + 1).drop_last() =~= rows@.take(i as int));
        i = i + 1;
    }
    assert(rows@.take(rows@.len() as int) =~= rows@);
    Table { entries }
}

/// A key has a value in the table exactly where some row has it, and then the value
/// of its last row.
pub proof fn law_last_row_counts<V>(rows: Seq<(String, V)>, key: Seq<char>)
    ensures
        last_values(rows).contains_key(key) <==> exists|i: int|
            0 <= i < rows.len() && #[trigger] rows[i].0@ == key,
        forall|i: int|
            0 <= i < rows.len() && (#[trigger] rows[i]).0@ == key && (forall|j: int|
                i < j < rows.len() ==> (#[trigger] rows[j]).0@ != key) ==> last_values(rows)[key]
                == rows[i].1,
    decreases rows.len(),
{
    if rows.len() > 0 {
        let t = rows.drop_last();
        law_last_row_counts(t, key);
        assert(rows.last() == rows[rows.len() - 1]);
        if rows.last().0@ == key {
            assert(last_values(rows).contains_key(key));
        } else {
            if exists|i: int| 0 <= i < rows.len() && #[trigger] rows[i].0@ == key {
                let i = choose|i: int| 0 <= i < rows.len() && #[trigger] rows[i].0@ == key;
                assert(t[i].0@ == key);
            }
            if last_values(t).contains_key(key) {
                let i = choose|i: int| 0 <= i < t.len() && #[trigger] t[i].0@ == key;
                assert(rows[i].0@ == key);
            }
        }
        assert forall|i: int|
            0 <= i < rows.len() && (#[trigger] rows[i]).0@ == key && (forall|j: int|
                i < j < rows.len() ==> (#[trigger] rows[j]).0@ != key) implies last_values(rows)[key]
            == rows[i].1 by {
            if i < t.len() {
                assert(rows[rows.len() - 1].0@ != key);
                assert(t[i] == rows[i]);
                assert forall|j: int| i < j < t.len() implies (#[trigger] t[j]).0@ != key by {
                    assert(t[j] == rows[j]);
                }
            }
        }
    }
}

/// The last place of `key` among `keys`.
pub open spec fn place_of(keys: Seq<Seq<char>>, key: Seq<char>) -> Option<int>
    decreases keys.len(),
{
    if keys.len() == 0 {
        None
    } else if keys.last() == key {
        Some(keys.len() - 1)
    } else {
        place_of(keys.drop_last(), key)
    }
}

/// The last place of a key is one of it, and there is no later one.
pub proof fn law_last_place(keys: Seq<Seq<char>>, key: Seq<char>)
    ensures
        match place_of(keys, key) {
            Some(i) => 0 <= i < keys.len() && keys[i] == key && forall|j: int|
                0 <= j < keys.len() && #[trigger] keys[j] == key ==> j <= i,
            None => forall|j: int| 0 <= j < keys.len() ==> #[trigger] keys[j] != key,
        },
    decreases keys.len(),
{
    if keys.len() > 0 {
        let t = keys.drop_last();
        law_last_place(t, key);
        if keys.last() != key {
            assert forall|j: int| 0 <= j < keys.len() && #[trigger] keys[j] == key implies t[j] == key by {}
        }
    }
}

proof fn lemma_places(rows: Seq<(String, usize)>, keys: Seq<Seq<char>>, key: Seq<char>)
    requires
        rows.len() == keys.len(),
        forall|i: int| 0 <= i < rows.len() ==> (#[trigger] rows[i]).0@ == keys[i] && rows[i].1 == i,
    ensures
        match place_of(keys, key) {
            Some(i) => 0 <= i < keys.len() && keys[i] == key && last_values(rows).contains_key(key)
                && last_values(rows)[key] == i,
            None => !last_values(rows).contains_key(key),
        },
    decreases rows.len(),
{
    if rows.len() > 0 {
        let r = rows.drop_last();
        let k = keys.drop_last();
        assert forall|i: int| 0 <= i < r.len() implies (#[trigger] r[i]).0@ == k[i] && r[i].1 == i by {
            assert(r[i] == rows[i]);
        }
        lemma_places(r, k, key);
        assert(rows[rows.len() - 1].0@ == keys[keys.len() - 1]);
    }
}

/// Whether `m` gives the last place of `key` among `keys`.
pub open spec fn locates(m: Map<Seq<char>, usize>, keys: Seq<Seq<char>>, key: Seq<char>) -> bool {
    match place_of(keys, key) {
        Some(i) => 0 <= i < keys.len() && keys[i] == key && m.contains_key(key) && m[key] == i,
        None => !m.contains_key(key),
    }
}

/// The table from each key to its last place.
pub fn index_of(keys: &Vec<String>) -> (r: Table<usize>)
    ensures
        forall|key: Seq<char>| #[trigger] locates(r@, views(keys@), key),
{
    let mut rows: Vec<(String, usize)> = Vec::new();
    let mut i: usize = 0;
    while i < keys.len()
        invariant
            i <= keys@.len(),
            rows@.len() == i,
            forall|k: int| 0 <= k < i ==> (#[trigger] rows@[k]).0@ == keys@[k]@ && rows@[k].1 == k,
        decreases keys@.len() - i,
    {
        rows.push((keys[i].clone(), i));
        i = i + 1;
    }
    let t: Table<usize> = tabulate(&rows);
    assert forall|key: Seq<char>| #[trigger] locates(t@, views(keys@), key) by {
        lemma_places(rows@, views(keys@), key);
    }
    t
}

} // verus!

//! Rank statistics: which entries of a series come first, how many stand at or below
//! another, and where a series stays beyond a level.

use crate::num::Num;
use vstd::prelude::*;

verus! {

// ---- rolling percentiles ----

/// The entries of `vals` from `lo` up to and with `i`.
pub open spec fn window(vals: Seq<Num>, win: int, i: int) -> Seq<Num> {
    vals.subrange(if i - (win - 1) > 0 { i - (win - 1) } else { 0 }, i + 1)
}

/// How many entries are finite.
pub open spec fn finite_count(s: Seq<Num>) -> nat {
    s.filter(|v: Num| v.finite()).len()
}

/// How many entries are finite and at most `top`.
pub open spec fn at_most_count(s: Seq<Num>, top: Num) -> nat {
    s.filter(|v: Num| v.finite() && v.at_most(top)).len()
}

/// Where entry `i` stands in the window of `win` entries that ends with it: how many
/// of the finite ones are at most as great, and how many there are. Nothing where
/// the entry is not finite, or there is no other finite one.
pub open spec fn standing(vals: Seq<Num>, win: int, i: int) -> Option<(nat, nat)> {
    let w = window(vals, win, i);
    if vals[i].finite() && finite_count(w) > 1 {
        Some((at_most_count(w, vals[i]), finite_count(w)))
    } else {
        None
    }
}

/// The standing of each entry in the window of `win` entries that ends with it.
pub fn rolling_standing(vals: &Vec<Num>, win: usize) -> (r: Vec<Option<(usize, usize)>>)
    requires
        win >= 1,
    ensures
        r@.len() == vals@.len(),
        forall|i: int|
            0 <= i < vals@.len() ==> (match #[trigger] r@[i] {
                Some((c, t)) => standing(vals@, win as int, i) == Some((c as nat, t as nat)),
                None => standing(vals@, win as int, i) is None,
            }),
{
    let mut out: Vec<Option<(usize, usize)>> = Vec::new();
    let mut i: usize = 0;
    while i < vals.len()
        invariant
            win >= 1,
            i <= vals@.len(),
            out@.len() == i,
            forall|k: int|
                0 <= k < i ==> (match #[trigger] out@[k] {
                    Some((c, t)) => standing(vals@, win as int, k) == Some((c as nat, t as nat)),
                    None => standing(vals@, win as int, k) is None,
                }),
        decreases vals@.len() - i,
    {
        if vals[i].is_finite() {
            let lo: usize = if i >= win - 1 { i - (win - 1) } else { 0 };
            let ghost w = window(vals@, win as int, i as int);
            let ghost fin = |v: Num| v.finite();
            let ghost low = |v: Num| v.finite() && v.at_most(vals@[i as int]);
            let mut c: usize = 0;
            let mut t: usize = 0;
            let mut j: usize = lo;
            reveal(Seq::filter);
            while j <= i
                invariant
                    lo <= j <= i + 1,
                    i < vals.len(),
                    w == vals@.subrange(lo as int, i + 1),
                    fin == (|v: Num| v.finite()),
                    low == (|v: Num| v.finite() && v.at_most(vals@[i as int])),
                    t == w.take(j - lo).filter(fin).len(),
                    c == w.take(j - lo).filter(low).len(),
                    c <= t <= j - lo,
                decreases i + 1 - j,
            {
                reveal(Seq::filter);
                assert(w.take(j + 1 - lo).drop_last() =~= w.take(j - lo));
                assert(w.take(j + 1 - lo).last() == vals@[j as int]);
                if vals[j].is_finite() {
                    t = t + 1;
                    if vals[j].le(vals[i]) {
                        c = c + 1;
                    }
                }
                j = j + 1;
            }
            assert(w.take(i + 1 - lo) =~= w);
            if t > 1 {
                out.push(Some((c, t)));
            } else {
                out.push(None);
            }
        } else {
            out.push(None);
        }
        i = i + 1;
    }
    out
}

// ---- rankings ----

/// Whether entry `a` comes before entry `b` in ascending order: the smaller first,
/// and of two equal ones the earlier.
pub open spec fn comes_first(keys: Seq<Num>, a: int, b: int) -> bool {
    keys[a].rank() < keys[b].rank() || (keys[a].rank() == keys[b].rank() && a < b)
}

/// Whether `out` lists the entries of `keys` that `chosen` holds of, each once, in
/// ascending order.
pub open spec fn is_ranking(keys: Seq<Num>, chosen: spec_fn(int) -> bool, out: Seq<usize>) -> bool {
    &&& forall|i: int| 0 <= i < out.len() ==> #[trigger] out[i] < keys.len() && chosen(out[i] as int)
    &&& forall|k: usize| k < keys.len() && chosen(k as int) ==> #[trigger] out.contains(k)
    &&& forall|i: int, j: int|
        0 <= i < j < out.len() ==> comes_first(keys, #[trigger] out[i] as int, #[trigger] out[j] as int)
}

/// Puts entry `p`, which is later than all in `out`, in its place among them.
fn rank_in(keys: &Vec<Num>, out: &mut Vec<usize>, p: usize)
    requires
        p < keys@.len(),
        !keys@[p as int].nan(),
        forall|i: int|
            0 <= i < old(out)@.len() ==> #[trigger] old(out)@[i] < p && !keys@[old(out)@[i] as int].nan(),
        forall|i: int, j: int|
            0 <= i < j < old(out)@.len() ==> comes_first(
                keys@,
                #[trigger] old(out)@[i] as int,
                #[trigger] old(out)@[j] as int,
            ),
    ensures
        forall|i: int, j: int|
            0 <= i < j < final(out)@.len() ==> comes_first(
                keys@,
                #[trigger] final(out)@[i] as int,
                #[trigger] final(out)@[j] as int,
            ),
        exists|q: int| 0 <= q <= old(out)@.len() && final(out)@ == old(out)@.insert(q, p),
{
    let mut q: usize = out.len();
    while q > 0 && keys[p].lt(keys[out[q - 1]])
        invariant
            q <= out@.len(),
            p < keys@.len(),
            !keys@[p as int].nan(),
            out@ == old(out)@,
            forall|i: int| 0 <= i < out@.len() ==> #[trigger] out@[i] < p && !keys@[out@[i] as int].nan(),
            forall|i: int| q <= i < out@.len() ==> keys@[p as int].below(keys@[#[trigger] out@[i] as int]),
        decreases q,
    {
        q = q - 1;
    }
    let ghost was = out@;
    out.insert(q, p);
    proof {
        was.insert_ensures(q as int, p);
    }
    assert forall|i: int, j: int| 0 <= i < j < out@.len() implies comes_first(
        keys@,
        #[trigger] out@[i] as int,
        #[trigger] out@[j] as int,
    ) by {
        let a = if i < q { i } else { i - 1 };
        let b = if j < q { j } else { j - 1 };
        if i == q {
            assert(out@[j] == was[b]);
        } else if j == q {
            assert(out@[i] == was[a]);
            if q > 0 {
                assert(was[q - 1] < p);
                if a < q - 1 {
                    assert(comes_first(keys@, was[a] as int, was[q - 1] as int));
                }
            }
        } else {
            assert(out@[i] == was[a] && out@[j] == was[b]);
        }
    }
}

pub(crate) proof fn lemma_insert_contains(s: Seq<usize>, q: int, p: usize)
    requires
        0 <= q <= s.len(),
    ensures
        s.insert(q, p).contains(p),
        forall|k: usize| s.contains(k) ==> #[trigger] s.insert(q, p).contains(k),
        forall|i: int|
            0 <= i < s.len() + 1 ==> #[trigger] s.insert(q, p)[i] == p || s.contains(s.insert(q, p)[i]),
{
    let t = s.insert(q, p);
    s.insert_ensures(q, p);
    assert(t[q] == p);
    assert forall|k: usize| s.contains(k) implies #[trigger] t.contains(k) by {
        let i = choose|i: int| 0 <= i < s.len() && s[i] == k;
        if i < q {
            assert(t[i] == k);
        } else {
            assert(t[i + 1] == k);
        }
    }
    assert forall|i: int| 0 <= i < s.len() + 1 implies #[trigger] t[i] == p || s.contains(t[i]) by {
        if i < q {
            assert(t[i] == s[i]);
        } else if i > q {
            assert(t[i] == s[i - 1]);
        }
    }
}

/// The finite entries of `keys` in ascending order, equal ones as they stand.
pub fn ranked_finite(keys: &Vec<Num>) -> (r: Vec<usize>)
    ensures
        is_ranking(keys@, |k: int| keys@[k].finite(), r@),
{
    let mut out: Vec<usize> = Vec::new();
    let mut p: usize = 0;
    while p < keys.len()
        invariant
            p <= keys@.len(),
            forall|i: int| 0 <= i < out@.len() ==> #[trigger] out@[i] < p && keys@[out@[i] as int].finite(),
            forall|k: usize| k < p && keys@[k as int].finite() ==> #[trigger] out@.contains(k),
            forall|i: int, j: int|
                0 <= i < j < out@.len() ==> comes_first(
                    keys@,
                    #[trigger] out@[i] as int,
                    #[trigger] out@[j] as int,
                ),
        decreases keys@.len() - p,
    {
        if keys[p].is_finite() {
            let ghost was = out@;
            rank_in(keys, &mut out, p);
            proof {
                let q = choose|q: int| 0 <= q <= was.len() && out@ == was.insert(q, p);
                lemma_insert_contains(was, q, p);
                assert forall|i: int| 0 <= i < out@.len() implies #[trigger] out@[i] < p + 1
                    && keys@[out@[i] as int].finite() by {
                    if out@[i] != p {
                        let a = choose|a: int| 0 <= a < was.len() && was[a] == out@[i];
                        assert(was[a] < p);
                    }
                }
            }
        }
        p = p + 1;
    }
    out
}

/// All entries of `keys` in ascending order, equal ones as they stand.
pub fn ranked(keys: &Vec<Num>) -> (r: Vec<usize>)
    requires
        forall|i: int| 0 <= i < keys@.len() ==> !#[trigger] keys@[i].nan(),
    ensures
        is_ranking(keys@, |k: int| true, r@),
        r@.len() == keys@.len(),
{
    let mut out: Vec<usize> = Vec::new();
    let mut p: usize = 0;
    while p < keys.len()
        invariant
            forall|i: int| 0 <= i < keys@.len() ==> !#[trigger] keys@[i].nan(),
            p <= keys@.len(),
            out@.len() == p,
            forall|i: int| 0 <= i < out@.len() ==> #[trigger] out@[i] < p,
            forall|k: usize| k < p ==> #[trigger] out@.contains(k),
            forall|i: int, j: int|
                0 <= i < j < out@.len() ==> comes_first(
                    keys@,
                    #[trigger] out@[i] as int,
                    #[trigger] out@[j] as int,
                ),
        decreases keys@.len() - p,
    {
        let ghost was = out@;
        rank_in(keys, &mut out, p);
        proof {
            let q = choose|q: int| 0 <= q <= was.len() && out@ == was.insert(q, p);
            lemma_insert_contains(was, q, p);
            was.insert_ensures(q, p);
            assert forall|i: int| 0 <= i < out@.len() implies #[trigger] out@[i] < p + 1 by {
                if out@[i] != p {
                    let a = choose|a: int| 0 <= a < was.len() && was[a] == out@[i];
                    assert(was[a] < p);
                }
            }
        }
        p = p + 1;
    }
    out
}

/// The entry in the middle of the ascending order, the upper one of two.
pub fn median_place(keys: &Vec<Num>) -> (r: Option<usize>)
    requires
        forall|i: int| 0 <= i < keys@.len() ==> !#[trigger] keys@[i].nan(),
    ensures
        match r {
            Some(m) => m < keys@.len() && exists|order: Seq<usize>|
                is_ranking(keys@, |k: int| true, order) && order.len() == keys@.len() && m
                    == #[trigger] order[keys@.len() as int / 2],
            None => keys@.len() == 0,
        },
{
    if keys.len() == 0 {
        return None;
    }
    let order: Vec<usize> = ranked(keys);
    Some(order[keys.len() / 2])
}

/// The first of the `m` ranked entries that falls into part `q` of five.
pub open spec fn fifth_start(m: int, q: int) -> int {
    q * m / 5
}

/// The bounds of part `q` of five that `m` ranked entries fall into.
pub fn fifth(m: usize, q: usize) -> (r: (usize, usize))
    requires
        q < 5,
        5 * m <= usize::MAX,
    ensures
        r.0 == fifth_start(m as int, q as int),
        r.1 == fifth_start(m as int, q + 1),
        r.0 <= r.1 <= m,
{
    assert(q * m <= 5 * m && (q + 1) * m <= 5 * m && q * m <= (q + 1) * m) by (nonlinear_arith)
        requires
            q < 5,
    ;
    (q * m / 5, (q + 1) * m / 5)
}

/// Whether `r` are the five parts of a ranking, where it has at least five entries.
pub open spec fn are_fifths(r: Option<Vec<Vec<usize>>>, order: Seq<usize>) -> bool {
    let m = order.len() as int;
    match r {
        Some(parts) => m >= 5 && parts@.len() == 5 && forall|q: int|
            0 <= q < 5 ==> (#[trigger] parts@[q])@ == order.subrange(fifth_start(m, q), fifth_start(m, q + 1)),
        None => m < 5,
    }
}

/// The finite entries of `keys` in ascending order, in five parts; none where there are
/// fewer than five.
pub fn quintiles(keys: &Vec<Num>) -> (r: Option<Vec<Vec<usize>>>)
    requires
        5 * keys@.len() <= usize::MAX,
    ensures
        exists|order: Seq<usize>|
            is_ranking(keys@, |k: int| keys@[k].finite(), order) && #[trigger] are_fifths(r, order),
{
    let order: Vec<usize> = ranked_finite(keys);
    let ghost finite = |k: int| keys@[k].finite();
    assert(is_ranking(keys@, finite, order@));
    proof {
        lemma_ranking_short(keys@, finite, order@);
    }
    let m: usize = order.len();
    if m < 5 {
        assert(are_fifths(None, order@));
        return None;
    }
    let mut parts: Vec<Vec<usize>> = Vec::new();
    let mut q: usize = 0;
    while q < 5
        invariant
            q <= 5,
            m == order@.len(),
            5 * m <= usize::MAX,
            parts@.len() == q,
            forall|p: int|
                0 <= p < q ==> (#[trigger] parts@[p])@ == order@.subrange(
                    fifth_start(m as int, p),
                    fifth_start(m as int, p + 1),
                ),
        decreases 5 - q,
    {
        let (lo, hi): (usize, usize) = fifth(m, q);
        let mut part: Vec<usize> = Vec::new();
        let mut i: usize = lo;
        while i < hi
            invariant
                lo <= i <= hi <= m == order@.len(),
                part@ == order@.subrange(lo as int, i as int),
            decreases hi - i,
        {
            part.push(order[i]);
            assert(part@ =~= order@.subrange(lo as int, i + 1));
            i = i + 1;
        }
        parts.push(part);
        q = q + 1;
    }
    assert(are_fifths(Some(parts), order@));
    Some(parts)
}

/// A ranking has no more entries than there are keys.
proof fn lemma_ranking_short(keys: Seq<Num>, chosen: spec_fn(int) -> bool, out: Seq<usize>)
    requires
        is_ranking(keys, chosen, out),
    ensures
        out.len() <= keys.len(),
{
    let ints = out.map_values(|k: usize| k as int);
    assert forall|i: int, j: int| 0 <= i < ints.len() && 0 <= j < ints.len() && i != j implies ints[i]
        != ints[j] by {
        if i < j {
            assert(comes_first(keys, out[i] as int, out[j] as int));
        } else {
            assert(comes_first(keys, out[j] as int, out[i] as int));
        }
    }
    let all = Set::new(|k: int| 0 <= k < keys.len());
    vstd::set_lib::lemma_int_range(0, keys.len() as int);
    assert(all =~= vstd::set_lib::set_int_range(0, keys.len() as int));
    assert forall|k: int| ints.to_set().contains(k) implies all.contains(k) by {
        let i = choose|i: int| 0 <= i < ints.len() && ints[i] == k;
        assert(out[i] < keys.len());
    }
    ints.unique_seq_to_set();
    vstd::set_lib::lemma_len_subset(ints.to_set(), all);
}

proof fn lemma_fifth_starts(m: int)
    ensures
        fifth_start(m, 0) == 0,
        fifth_start(m, 1) == m / 5,
        fifth_start(m, 2) == 2 * m / 5,
        fifth_start(m, 3) == 3 * m / 5,
        fifth_start(m, 4) == 4 * m / 5,
        fifth_start(m, 5) == m,
{
}

/// Each of the ranked entries falls into exactly one of the five parts, and no two
/// parts differ by more than one entry.
pub proof fn law_fifths(m: int, i: int, p: int, q: int)
    requires
        0 <= i < m,
        0 <= p < 5,
        0 <= q < 5,
    ensures
        exists|k: int| 0 <= k < 5 && #[trigger] fifth_start(m, k) <= i < fifth_start(m, k + 1),
        fifth_start(m, p) <= i < fifth_start(m, p + 1) && fifth_start(m, q) <= i < fifth_start(
            m,
            q + 1,
        ) ==> p == q,
        m / 5 <= fifth_start(m, p + 1) - fifth_start(m, p) <= m / 5 + 1,
{
    lemma_fifth_starts(m);
    let k = if i < m / 5 {
        0int
    } else if i < 2 * m / 5 {
        1
    } else if i < 3 * m / 5 {
        2
    } else if i < 4 * m / 5 {
        3
    } else {
        4
    };
    assert(fifth_start(m, k) <= i < fifth_start(m, k + 1));
}

// ---- selections ----

/// Whether entry `k` is a candidate: eligible, and its distance at most `reach`.
pub open spec fn is_candidate(eligible: Seq<bool>, distance: Seq<Num>, reach: Num, k: int) -> bool {
    0 <= k < eligible.len() && eligible[k] && distance[k].at_most(reach)
}

/// Whether no eligible entry is within reach.
pub open spec fn no_candidate(eligible: Seq<bool>, distance: Seq<Num>, reach: Num) -> bool {
    forall|k: int| !is_candidate(eligible, distance, reach, k)
}

/// The first of the nearest eligible entries within reach.
pub fn nearest(eligible: &Vec<bool>, distance: &Vec<Num>, reach: Num) -> (r: Option<usize>)
    requires
        eligible@.len() == distance@.len(),
    ensures
        match r {
            Some(k) => is_candidate(eligible@, distance@, reach, k as int) && forall|j: int|
                #[trigger]
                is_candidate(eligible@, distance@, reach, j) && j != k ==> comes_first(
                    distance@,
                    k as int,
                    j,
                ),
            None => no_candidate(eligible@, distance@, reach),
        },
{
    let mut best: Option<usize> = None;
    let mut i: usize = 0;
    while i < eligible.len()
        invariant
            i <= eligible@.len() == distance@.len(),
            match best {
                Some(k) => k < i && is_candidate(eligible@, distance@, reach, k as int)
                    && forall|j: int|
                    #[trigger]
                    is_candidate(eligible@, distance@, reach, j) && j != k && j < i
                        ==> comes_first(distance@, k as int, j),
                None => forall|j: int| j < i ==> !is_candidate(eligible@, distance@, reach, j),
            },
        decreases eligible@.len() - i,
    {
        if eligible[i] && distance[i].le(reach) {
            match best {
                Some(k) => {
                    if distance[i].lt(distance[k]) {
                        best = Some(i);
                    }
                },
                None => {
                    best = Some(i);
                },
            }
        }
        i = i + 1;
    }
    best
}

/// The entry that is left when each entry in turn takes the place of the last one
/// that it is less than, among the first `n`.
pub open spec fn descent(keys: Seq<Num>, n: int) -> Option<int>
    decreases n,
{
    if n <= 0 {
        None
    } else {
        match descent(keys, n - 1) {
            Some(k) => if keys[n - 1].below(keys[k]) {
                Some(n - 1)
            } else {
                Some(k)
            },
            None => Some(n - 1),
        }
    }
}

/// The entry that no later entry is less than and that was less than all it took the
/// place of; the first of the least where all are numbers.
pub fn least(keys: &Vec<Num>) -> (r: Option<usize>)
    ensures
        match r {
            Some(k) => descent(keys@, keys@.len() as int) == Some(k as int) && k < keys@.len(),
            None => keys@.len() == 0,
        },
{
    let mut best: Option<usize> = None;
    let mut i: usize = 0;
    while i < keys.len()
        invariant
            i <= keys@.len(),
            match best {
                Some(k) => k < i && descent(keys@, i as int) == Some(k as int),
                None => i == 0,
            },
        decreases keys@.len() - i,
    {
        match best {
            Some(k) => {
                if keys[i].lt(keys[k]) {
                    best = Some(i);
                }
            },
            None => {
                best = Some(i);
            },
        }
        i = i + 1;
    }
    best
}

/// Where all entries are numbers, what is left is the first of the least.
pub proof fn law_least_is_first_minimum(keys: Seq<Num>, n: int)
    requires
        0 < n <= keys.len(),
        forall|i: int| 0 <= i < n ==> !#[trigger] keys[i].nan(),
    ensures
        descent(keys, n) matches Some(k) && 0 <= k < n && forall|j: int|
            0 <= j < n && j != k ==> comes_first(keys, k, j),
    decreases n,
{
    if n > 1 {
        law_least_is_first_minimum(keys, n - 1);
        let k = descent(keys, n - 1)->0;
        assert(!keys[n - 1].nan() && !keys[k].nan());
        assert forall|j: int| 0 <= j < n && j != descent(keys, n)->0 implies comes_first(
            keys,
            descent(keys, n)->0,
            j,
        ) by {
            if j < n - 1 && j != k {
                assert(comes_first(keys, k, j));
            }
        }
    } else {
        assert(descent(keys, 0) is None);
    }
}

/// Whether entry `k` is the first of the finite entries with the least rank.
pub open spec fn is_lowest(vals: Seq<Num>, k: int) -> bool {
    &&& 0 <= k < vals.len() && vals[k].finite()
    &&& forall|j: int|
        0 <= j < vals.len() && #[trigger] vals[j].finite() ==> vals[k].rank() < vals[j].rank() || (
        vals[k].rank() == vals[j].rank() && k <= j)
}

/// Whether entry `k` is the first of the finite entries with the greatest rank.
pub open spec fn is_highest(vals: Seq<Num>, k: int) -> bool {
    &&& 0 <= k < vals.len() && vals[k].finite()
    &&& forall|j: int|
        0 <= j < vals.len() && #[trigger] vals[j].finite() ==> vals[k].rank() > vals[j].rank() || (
        vals[k].rank() == vals[j].rank() && k <= j)
}

/// Whether no entry is finite.
pub open spec fn none_finite(vals: Seq<Num>) -> bool {
    forall|j: int| 0 <= j < vals.len() ==> !#[trigger] vals[j].finite()
}

/// The lowest and the highest of the finite entries.
pub fn extremes(vals: &Vec<Num>) -> (r: Option<(usize, usize)>)
    ensures
        match r {
            Some((lo, hi)) => is_lowest(vals@, lo as int) && is_highest(vals@, hi as int),
            None => none_finite(vals@),
        },
{
    let mut found: Option<(usize, usize)> = None;
    let mut i: usize = 0;
    while i < vals.len()
        invariant
            i <= vals@.len(),
            match found {
                Some((lo, hi)) => lo < i && hi < i && is_lowest(vals@.take(i as int), lo as int)
                    && is_highest(vals@.take(i as int), hi as int),
                None => forall|j: int| 0 <= j < i ==> !#[trigger] vals@[j].finite(),
            },
        decreases vals@.len() - i,
    {
        let ghost t = vals@.take(i as int);
        let ghost u = vals@.take(i + 1);
        assert forall|j: int| 0 <= j < i implies #[trigger] u[j] == t[j] by {}
        assert(u[i as int] == vals@[i as int]);
        if vals[i].is_finite() {
            match found {
                Some((lo, hi)) => {
                    let ghost (lo0, hi0) = (lo as int, hi as int);
                    assert(u[lo0] == t[lo0] && u[hi0] == t[hi0]);
                    let new_lo: usize = if vals[i].lt(vals[lo]) { i } else { lo };
                    let new_hi: usize = if vals[hi].lt(vals[i]) { i } else { hi };
                    found = Some((new_lo, new_hi));
                    assert forall|j: int| 0 <= j < u.len() && #[trigger] u[j].finite() implies (
                    u[new_lo as int].rank() < u[j].rank() || (u[new_lo as int].rank() == u[j].rank()
                        && new_lo <= j)) && (u[new_hi as int].rank() > u[j].rank() || (
                    u[new_hi as int].rank() == u[j].rank() && new_hi <= j)) by {
                        if j < i {
                            assert(t[j].finite());
                        }
                    }
                },
                None => {
                    found = Some((i, i));
                    assert forall|j: int| 0 <= j < u.len() && #[trigger] u[j].finite() implies j == i by {
                        if j < i {
                            assert(!vals@[j].finite());
                        }
                    }
                },
            }
        } else {
            match found {
                Some((lo, hi)) => {
                    assert(u[lo as int] == t[lo as int] && u[hi as int] == t[hi as int]);
                    assert forall|j: int| 0 <= j < u.len() && #[trigger] u[j].finite() implies (
                    u[lo as int].rank() < u[j].rank() || (u[lo as int].rank() == u[j].rank() && lo
                        <= j)) && (u[hi as int].rank() > u[j].rank() || (u[hi as int].rank()
                        == u[j].rank() && hi <= j)) by {
                        if j < i {
                            assert(t[j].finite());
                        }
                    }
                },
                None => {},
            }
        }
        i = i + 1;
    }
    assert(vals@.take(vals@.len() as int) =~= vals@);
    found
}

/// How many entries are greater than `level`.
pub open spec fn above_count(vals: Seq<Num>, level: Num) -> nat {
    vals.filter(|v: Num| level.below(v)).len()
}

/// How many entries are greater than `level`.
pub fn count_above(vals: &Vec<Num>, level: Num) -> (r: usize)
    ensures
        r == above_count(vals@, level),
{
    let ghost up = |v: Num| level.below(v);
    let mut n: usize = 0;
    let mut i: usize = 0;
    reveal(Seq::filter);
    while i < vals.len()
        invariant
            i <= vals@.len(),
            n <= i,
            up == (|v: Num| level.below(v)),
            n == vals@.take(i as int).filter(up).len(),
        decreases vals@.len() - i,
    {
        reveal(Seq::filter);
        assert(vals@.take(i + 1).drop_last() =~= vals@.take(i as int));
        if level.lt(vals[i]) {
            n = n + 1;
        }
        i = i + 1;
    }
    assert(vals@.take(vals@.len() as int) =~= vals@);
    n
}

// ---- runs and brackets ----

/// Whether entries `from` to `to` all stand at or below `level` and no longer
/// stretch around them does.
pub open spec fn is_run(vals: Seq<Num>, level: Num, from: int, to: int) -> bool {
    &&& 0 <= from <= to < vals.len()
    &&& forall|k: int| from <= k <= to ==> (#[trigger] vals[k]).at_most(level)
    &&& from > 0 ==> !vals[from - 1].at_most(level)
    &&& to + 1 < vals.len() ==> !vals[to + 1].at_most(level)
}

/// The longest stretches at or below `level`, first and last entry of each, in order.
pub fn runs(vals: &Vec<Num>, level: Num) -> (r: Vec<(usize, usize)>)
    ensures
        forall|i: int| 0 <= i < r@.len() ==> is_run(vals@, level, (#[trigger] r@[i]).0 as int, r@[i].1 as int),
        forall|i: int, j: int|
            0 <= i < j < r@.len() ==> (#[trigger] r@[i]).1 < (#[trigger] r@[j]).0,
        forall|k: int|
            0 <= k < vals@.len() && (#[trigger] vals@[k]).at_most(level) ==> exists|i: int|
                0 <= i < r@.len() && (#[trigger] r@[i]).0 <= k <= r@[i].1,
{
    let mut out: Vec<(usize, usize)> = Vec::new();
    let mut i: usize = 0;
    while i < vals.len()
        invariant
            i <= vals@.len(),
            i > 0 && i < vals@.len() ==> !vals@[i as int].at_most(level) || !vals@[i - 1].at_most(level),
            forall|a: int|
                0 <= a < out@.len() ==> is_run(vals@, level, (#[trigger] out@[a]).0 as int, out@[a].1 as int)
                    && out@[a].1 < i,
            forall|a: int, b: int|
                0 <= a < b < out@.len() ==> (#[trigger] out@[a]).1 < (#[trigger] out@[b]).0,
            forall|k: int|
                0 <= k < i && (#[trigger] vals@[k]).at_most(level) ==> exists|a: int|
                    0 <= a < out@.len() && (#[trigger] out@[a]).0 <= k <= out@[a].1,
        decreases vals@.len() - i,
    {
        if vals[i].le(level) {
            let start: usize = i;
            while i < vals.len() && vals[i].le(level)
                invariant
                    start <= i <= vals@.len(),
                    start < vals@.len(),
                    vals@[start as int].at_most(level),
                    forall|k: int| start <= k < i ==> (#[trigger] vals@[k]).at_most(level),
                ensures
                    start < i <= vals@.len(),
                    i < vals@.len() ==> !vals@[i as int].at_most(level),
                    forall|k: int| start <= k < i ==> (#[trigger] vals@[k]).at_most(level),
                decreases vals@.len() - i,
            {
                i = i + 1;
            }
            let ghost was = out@;
            out.push((start, i - 1));
            assert(is_run(vals@, level, start as int, i - 1));
            assert forall|a: int, b: int| 0 <= a < b < out@.len() implies (#[trigger] out@[a]).1 < (
            #[trigger] out@[b]).0 by {
                if b < was.len() {
                    assert(was[a].1 < was[b].0);
                } else {
                    assert(out@[a] == was[a]);
                }
            }
            assert forall|k: int| 0 <= k < i && (#[trigger] vals@[k]).at_most(level) implies exists|
                a: int,
            |
                0 <= a < out@.len() && (#[trigger] out@[a]).0 <= k <= out@[a].1 by {
                if k < start {
                    let a = choose|a: int| 0 <= a < was.len() && (#[trigger] was[a]).0 <= k <= was[a].1;
                    assert(out@[a] == was[a]);
                } else {
                    assert(out@[was.len() as int] == (start, (i - 1) as usize));
                }
            }
        } else {
            i = i + 1;
        }
    }
    out
}

/// Where a point falls among the nodes of a curve.
#[derive(Clone, Copy, Debug, PartialEq, Eq, Structural)]
pub enum Place {
    /// The curve has no nodes.
    Nowhere,
    /// At or before the first node.
    First,
    /// At or behind the last node.
    Last,
    /// Between this node and the next.
    Between(usize),
}

/// Whether `x` lies between nodes `i` and `i + 1`.
pub open spec fn brackets(nodes: Seq<Num>, x: Num, i: int) -> bool {
    0 <= i && i + 1 < nodes.len() && nodes[i].at_most(x) && x.at_most(nodes[i + 1])
}

/// Where `x` falls among `nodes`: the ends first, then the first pair of neighbours
/// around it, and the last node where there is none.
pub fn locate(nodes: &Vec<Num>, x: Num) -> (r: Place)
    ensures
        match r {
            Place::Nowhere => nodes@.len() == 0,
            Place::First => nodes@.len() > 0 && x.at_most(nodes@[0]),
            Place::Last => nodes@.len() > 0 && !x.at_most(nodes@[0]) && (nodes@.last().at_most(x)
                || forall|i: int| !brackets(nodes@, x, i)),
            Place::Between(k) => nodes@.len() > 0 && !x.at_most(nodes@[0]) && !nodes@.last().at_most(x)
                && brackets(nodes@, x, k as int) && forall|i: int|
                0 <= i < k ==> !brackets(nodes@, x, i),
        },
{
    let n: usize = nodes.len();
    if n == 0 {
        return Place::Nowhere;
    }
    if x.le(nodes[0]) {
        return Place::First;
    }
    if nodes[n - 1].le(x) {
        return Place::Last;
    }
    let mut i: usize = 0;
    while i + 1 < n
        invariant
            n == nodes@.len(),
            0 < n,
            i < n,
            !x.at_most(nodes@[0]),
            !nodes@.last().at_most(x),
            forall|j: int| 0 <= j < i ==> !brackets(nodes@, x, j),
        decreases n - i,
    {
        if nodes[i].le(x) && x.le(nodes[i + 1]) {
            return Place::Between(i);
        }
        i = i + 1;
    }
    Place::Last
}

/// Where all nodes are numbers, a number strictly between the first and the last node
/// has neighbours around it.
pub proof fn law_locate_finds(nodes: Seq<Num>, x: Num)
    requires
        nodes.len() > 0,
        !x.nan(),
        forall|i: int| 0 <= i < nodes.len() ==> !#[trigger] nodes[i].nan(),
        !x.at_most(nodes[0]),
        !nodes.last().at_most(x),
    ensures
        exists|i: int| brackets(nodes, x, i),
{
    assert(!nodes[0].nan() && !nodes[nodes.len() - 1].nan());
    lemma_crossing(nodes, x, nodes.len() - 1);
}

proof fn lemma_crossing(nodes: Seq<Num>, x: Num, n: int)
    requires
        0 <= n < nodes.len(),
        !x.nan(),
        forall|i: int| 0 <= i < nodes.len() ==> !#[trigger] nodes[i].nan(),
        nodes[0].at_most(x),
        x.at_most(nodes[n]),
        n > 0,
    ensures
        exists|i: int| brackets(nodes, x, i),
    decreases n,
{
    assert(!nodes[n - 1].nan() && !nodes[n].nan());
    if nodes[n - 1].at_most(x) {
        assert(brackets(nodes, x, n - 1));
    } else {
        lemma_crossing(nodes, x, n - 1);
    }
}

// ---- laws of the standing ----

proof fn lemma_filter_le(s: Seq<Num>, top: Num)
    ensures
        at_most_count(s, top) <= finite_count(s) <= s.len(),
        (forall|i: int| 0 <= i < s.len() && (#[trigger] s[i]).finite() ==> s[i].at_most(top))
            ==> at_most_count(s, top) == finite_count(s),
        (exists|i: int| 0 <= i < s.len() && (#[trigger] s[i]).finite() && s[i].at_most(top))
            ==> at_most_count(s, top) >= 1,
    decreases s.len(),
{
    reveal(Seq::filter);
    if s.len() > 0 {
        let t = s.drop_last();
        lemma_filter_le(t, top);
        assert(s.last() == s[s.len() - 1]);
        assert(forall|i: int| 0 <= i < t.len() ==> #[trigger] t[i] == s[i]);
        if exists|i: int| 0 <= i < s.len() && (#[trigger] s[i]).finite() && s[i].at_most(top) {
            let i = choose|i: int| 0 <= i < s.len() && (#[trigger] s[i]).finite() && s[i].at_most(top);
            if i < t.len() {
                assert(t[i].finite() && t[i].at_most(top));
            }
        }
    }
}

/// A standing counts the entry itself, and never more entries than the window holds;
/// the greatest entry of a window stands at the very top.
pub proof fn law_standing(vals: Seq<Num>, win: int, i: int)
    requires
        win >= 1,
        0 <= i < vals.len(),
    ensures
        match standing(vals, win, i) {
            Some((c, t)) => 1 <= c <= t <= win && ((forall|j: int|
                i - win < j <= i && 0 <= j && (#[trigger] vals[j]).finite() ==> vals[j].at_most(vals[i]))
                ==> c == t),
            None => true,
        },
{
    let w = window(vals, win, i);
    let lo = if i - (win - 1) > 0 { i - (win - 1) } else { 0 };
    lemma_filter_le(w, vals[i]);
    if vals[i].finite() {
        assert(w[i - lo] == vals[i]);
        if forall|j: int|
            i - win < j <= i && 0 <= j && (#[trigger] vals[j]).finite() ==> vals[j].at_most(vals[i]) {
            assert forall|k: int| 0 <= k < w.len() && (#[trigger] w[k]).finite() implies w[k].at_most(
                vals[i],
            ) by {
                assert(w[k] == vals[lo + k]);
            }
        }
    }
}

// ---- counts as sets of places ----

/// How many entries a filter lets through is how many places hold such an entry.
proof fn lemma_filter_counts(vals: Seq<Num>, lo: int, hi: int, p: spec_fn(Num) -> bool)
    requires
        0 <= lo <= hi <= vals.len(),
    ensures
        Set::new(|j: int| lo <= j < hi && p(vals[j])).finite(),
        vals.subrange(lo, hi).filter(p).len() == Set::new(|j: int| lo <= j < hi && p(vals[j])).len(),
    decreases hi - lo,
{
    reveal(Seq::filter);
    let all = Set::new(|j: int| lo <= j < hi && p(vals[j]));
    if lo == hi {
        assert(all =~= Set::empty());
    } else {
        lemma_filter_counts(vals, lo, hi - 1, p);
        let front = Set::new(|j: int| lo <= j < hi - 1 && p(vals[j]));
        assert(vals.subrange(lo, hi).drop_last() =~= vals.subrange(lo, hi - 1));
        assert(vals.subrange(lo, hi).last() == vals[hi - 1]);
        if p(vals[hi - 1]) {
            assert(all =~= front.insert(hi - 1));
        } else {
            assert(all =~= front);
        }
    }
}

/// The standing of entry `i` counts places: of the `win` places that end with it, how many
/// hold a finite entry, and how many of those one that is at most as great. An entry has a
/// standing exactly where it is finite and another place of the window holds a finite one.
pub proof fn law_standing_counts(vals: Seq<Num>, win: int, i: int)
    requires
        win >= 1,
        0 <= i < vals.len(),
    ensures
        standing(vals, win, i) matches Some((c, t)) ==> c == Set::new(
            |j: int| 0 <= j <= i && i < j + win && vals[j].finite() && vals[j].at_most(vals[i]),
        ).len() && t == Set::new(|j: int| 0 <= j <= i && i < j + win && vals[j].finite()).len(),
        standing(vals, win, i) is Some <==> vals[i].finite() && exists|j: int|
            0 <= j < i && i < j + win && (#[trigger] vals[j]).finite(),
{
    let lo = if i - (win - 1) > 0 {
        i - (win - 1)
    } else {
        0
    };
    let w = window(vals, win, i);
    let f = |v: Num| v.finite();
    let g = |v: Num| v.finite() && v.at_most(vals[i]);
    lemma_filter_counts(vals, lo, i + 1, f);
    lemma_filter_counts(vals, lo, i + 1, g);
    let all = Set::new(|j: int| 0 <= j <= i && i < j + win && vals[j].finite());
    let some = Set::new(
        |j: int| 0 <= j <= i && i < j + win && vals[j].finite() && vals[j].at_most(vals[i]),
    );
    assert(all =~= Set::new(|j: int| lo <= j < i + 1 && f(vals[j])));
    assert(some =~= Set::new(|j: int| lo <= j < i + 1 && g(vals[j])));
    if vals[i].finite() {
        assert(all.contains(i));
        let others = all.remove(i);
        assert(all.len() == others.len() + 1);
        if others.len() > 0 {
            let j = others.choose();
            assert(others.contains(j));
            assert(0 <= j < i && vals[j].finite());
        } else {
            assert forall|j: int| 0 <= j < i && i < j + win implies !(#[trigger] vals[j]).finite() by {
                if vals[j].finite() {
                    assert(others.contains(j));
                    assert(others =~= Set::empty());
                }
            }
        }
    }
}

/// The standings of a series, place by place.
pub proof fn law_rolling_standing(vals: Vec<Num>, win: usize, r: Vec<Option<(usize, usize)>>, i: int)
    requires
        win >= 1,
        call_ensures(rolling_standing, (&vals, win), r),
        0 <= i < vals@.len(),
    ensures
        r@.len() == vals@.len(),
        r@[i] matches Some((c, t)) ==> c == Set::new(
            |j: int| 0 <= j <= i && i < j + win && vals@[j].finite() && vals@[j].at_most(vals@[i]),
        ).len() && t == Set::new(|j: int| 0 <= j <= i && i < j + win && vals@[j].finite()).len(),
        r@[i] is Some <==> vals@[i].finite() && exists|j: int|
            0 <= j < i && i < j + win && (#[trigger] vals@[j]).finite(),
{
    law_standing_counts(vals@, win as int, i);
    let w = win as int;
    assert(Set::new(|j: int| 0 <= j <= i && i < j + win && vals@[j].finite()) =~= Set::new(
        |j: int| 0 <= j <= i && i < j + w && vals@[j].finite(),
    ));
    assert(Set::new(
        |j: int| 0 <= j <= i && i < j + win && vals@[j].finite() && vals@[j].at_most(vals@[i]),
    ) =~= Set::new(
        |j: int| 0 <= j <= i && i < j + w && vals@[j].finite() && vals@[j].at_most(vals@[i]),
    ));
    assert(r@[i] is Some <==> standing(vals@, w, i) is Some);
}

/// A count above a level counts the places with a greater entry.
pub proof fn law_count_above(vals: Vec<Num>, level: Num, r: usize)
    requires
        call_ensures(count_above, (&vals, level), r),
    ensures
        r == Set::new(|j: int| 0 <= j < vals@.len() && level.below(vals@[j])).len(),
{
    let p = |v: Num| level.below(v);
    lemma_filter_counts(vals@, 0, vals@.len() as int, p);
    assert(vals@.subrange(0, vals@.len() as int) =~= vals@);
    assert(Set::new(|j: int| 0 <= j < vals@.len() && level.below(vals@[j])) =~= Set::new(
        |j: int| 0 <= j < vals@.len() && p(vals@[j]),
    ));
}

/// The finite entries in ascending order: each place of one stands there once, and behind
/// it none that is less, nor one that is equal and earlier.
pub proof fn law_ranked_finite(keys: Vec<Num>, r: Vec<usize>)
    requires
        call_ensures(ranked_finite, (&keys,), r),
    ensures
        forall|k: usize| k < keys@.len() ==> (keys@[k as int].finite() <==> #[trigger] r@.contains(k)),
        forall|i: int| 0 <= i < r@.len() ==> #[trigger] r@[i] < keys@.len(),
        forall|i: int, j: int|
            0 <= i < j < r@.len() ==> keys@[#[trigger] r@[i] as int].at_most(keys@[#[trigger] r@[j] as int])
                && (keys@[r@[j] as int].at_most(keys@[r@[i] as int]) ==> r@[i] < r@[j]),
{
    let finite = |k: int| keys@[k].finite();
    assert(is_ranking(keys@, finite, r@));
    assert forall|k: usize| k < keys@.len() implies (keys@[k as int].finite() <==> #[trigger] r@.contains(k)) by {
        if r@.contains(k) {
            let i = choose|i: int| 0 <= i < r@.len() && r@[i] == k;
            assert(finite(r@[i] as int));
        }
        if finite(k as int) {
            assert(r@.contains(k));
        }
    }
    assert forall|i: int, j: int| 0 <= i < j < r@.len() implies keys@[#[trigger] r@[i] as int].at_most(
        keys@[#[trigger] r@[j] as int],
    ) && (keys@[r@[j] as int].at_most(keys@[r@[i] as int]) ==> r@[i] < r@[j]) by {
        assert(finite(r@[i] as int) && finite(r@[j] as int));
        assert(comes_first(keys@, r@[i] as int, r@[j] as int));
    }
}

/// A median has at most half of the entries before it and fewer behind it than it and
/// those before it: as many entries come before it as half the length, rounded down.
pub proof fn law_median(keys: Vec<Num>, r: Option<usize>) -> (order: Seq<usize>)
    requires
        forall|i: int| 0 <= i < keys@.len() ==> !#[trigger] keys@[i].nan(),
        call_ensures(median_place, (&keys,), r),
    ensures
        r is None <==> keys@.len() == 0,
        r is Some ==> order.len() == keys@.len() && order[keys@.len() as int / 2] == r->0,
        forall|k: usize| k < keys@.len() ==> #[trigger] order.contains(k),
        forall|i: int, j: int|
            0 <= i < j < order.len() ==> order[i] < keys@.len() && order[j] < keys@.len() && order[i]
                != order[j] && keys@[#[trigger] order[i] as int].at_most(keys@[#[trigger] order[j] as int]),
{
    if r is None {
        Seq::empty()
    } else {
        let all = |k: int| true;
        let order = choose|order: Seq<usize>|
            is_ranking(keys@, |k: int| true, order) && order.len() == keys@.len() && r->0
                == #[trigger] order[keys@.len() as int / 2];
        assert(is_ranking(keys@, all, order));
        assert forall|i: int, j: int| 0 <= i < j < order.len() implies order[i] < keys@.len() && order[j]
            < keys@.len() && order[i] != order[j] && keys@[#[trigger] order[i] as int].at_most(
            keys@[#[trigger] order[j] as int],
        ) by {
            assert(comes_first(keys@, order[i] as int, order[j] as int));
            assert(!keys@[order[i] as int].nan() && !keys@[order[j] as int].nan());
        }
        assert forall|k: usize| k < keys@.len() implies #[trigger] order.contains(k) by {
            assert(all(k as int));
        }
        order
    }
}

/// The lowest and the highest entry: every finite entry lies between them, and each is the
/// first that is as low, or as high.
pub proof fn law_extremes(vals: Vec<Num>, r: Option<(usize, usize)>, j: int)
    requires
        call_ensures(extremes, (&vals,), r),
        0 <= j < vals@.len(),
        vals@[j].finite(),
    ensures
        r matches Some((lo, hi)) && lo < vals@.len() && hi < vals@.len() && vals@[lo as int].finite()
            && vals@[hi as int].finite() && vals@[lo as int].at_most(vals@[j]) && vals@[j].at_most(
            vals@[hi as int],
        ) && (vals@[j].at_most(vals@[lo as int]) ==> lo <= j) && (vals@[hi as int].at_most(vals@[j]) ==> hi
            <= j),
{
}

/// The nearest entry is eligible and within reach; of the others that are, none is nearer,
/// and none as near and earlier. There is one wherever one is eligible and within reach.
pub proof fn law_nearest(eligible: Vec<bool>, distance: Vec<Num>, reach: Num, r: Option<usize>, j: int)
    requires
        eligible@.len() == distance@.len(),
        call_ensures(nearest, (&eligible, &distance, reach), r),
        0 <= j < eligible@.len(),
        eligible@[j],
        distance@[j].at_most(reach),
    ensures
        r matches Some(k) && k < eligible@.len() && eligible@[k as int] && distance@[k as int].at_most(reach)
            && distance@[k as int].at_most(distance@[j]) && (distance@[j].at_most(distance@[k as int])
            ==> k <= j),
{
    assert(is_candidate(eligible@, distance@, reach, j));
}

/// A part of five runs from `q` fifths to `q + 1` fifths of the entries, rounded down.
pub proof fn law_fifth(m: usize, q: usize, r: (usize, usize))
    requires
        q < 5,
        5 * m <= usize::MAX,
        call_ensures(fifth, (m, q), r),
    ensures
        r.0 <= r.1 <= m,
        5 * r.0 <= q * m < 5 * (r.0 + 1),
        5 * r.1 <= (q + 1) * m < 5 * (r.1 + 1),
        q == 0 ==> r.0 == 0,
        q == 4 ==> r.1 == m,
{
    assert(q == 0 ==> q * m == 0) by (nonlinear_arith);
    assert(q == 4 ==> (q + 1) * m == 5 * m) by (nonlinear_arith);
}

/// An entry is at or below the level exactly where a stretch holds it; the entries next to
/// a stretch are not, and the stretches stand apart, in order.
pub proof fn law_runs(vals: Vec<Num>, level: Num, r: Vec<(usize, usize)>, i: int, j: int)
    requires
        call_ensures(runs, (&vals, level), r),
        0 <= i < r@.len(),
        0 <= j < vals@.len(),
    ensures
        r@[i].0 <= r@[i].1 < vals@.len(),
        r@[i].0 <= j <= r@[i].1 ==> vals@[j].at_most(level),
        j + 1 == r@[i].0 || j == r@[i].1 + 1 ==> !vals@[j].at_most(level),
        i > 0 ==> r@[i - 1].1 + 1 < r@[i].0,
{
    assert(is_run(vals@, level, r@[i].0 as int, r@[i].1 as int));
    if i > 0 {
        assert(is_run(vals@, level, r@[i - 1].0 as int, r@[i - 1].1 as int));
        assert(r@[i - 1].1 < r@[i].0);
        assert(vals@[r@[i].0 as int].at_most(level));
    }
}

/// The five parts of a series hold the places of its finite entries, each in one part at
/// one place; no entry of a part is above one of a later part, and the parts differ in
/// length by at most one. There are parts exactly where five entries are finite.
pub proof fn law_quintiles(keys: Vec<Num>, r: Option<Vec<Vec<usize>>>) -> (order: Seq<usize>)
    requires
        5 * keys@.len() <= usize::MAX,
        call_ensures(quintiles, (&keys,), r),
    ensures
        forall|k: usize| k < keys@.len() ==> (keys@[k as int].finite() <==> #[trigger] order.contains(k)),
        forall|i: int, j: int|
            0 <= i < j < order.len() ==> order[i] != order[j] && keys@[#[trigger] order[i] as int].at_most(
                keys@[#[trigger] order[j] as int],
            ),
        r is Some <==> order.len() >= 5,
        r is Some ==> r->0@.len() == 5 && r->0@[0]@ + r->0@[1]@ + r->0@[2]@ + r->0@[3]@ + r->0@[4]@ == order,
        r is Some ==> forall|q: int|
            0 <= q < 5 ==> order.len() / 5 <= (#[trigger] r->0@[q])@.len() <= order.len() / 5 + 1,
{
    let finite = |k: int| keys@[k].finite();
    let order = choose|order: Seq<usize>|
        is_ranking(keys@, |k: int| keys@[k].finite(), order) && #[trigger] are_fifths(r, order);
    assert(is_ranking(keys@, finite, order));
    assert forall|k: usize| k < keys@.len() implies (keys@[k as int].finite() <==> #[trigger] order.contains(k)) by {
        if order.contains(k) {
            let i = choose|i: int| 0 <= i < order.len() && order[i] == k;
            assert(finite(order[i] as int));
        }
        if finite(k as int) {
            assert(order.contains(k));
        }
    }
    assert forall|i: int, j: int| 0 <= i < j < order.len() implies order[i] != order[j]
        && keys@[#[trigger] order[i] as int].at_most(keys@[#[trigger] order[j] as int]) by {
        assert(finite(order[i] as int) && finite(order[j] as int));
        assert(comes_first(keys@, order[i] as int, order[j] as int));
    }
    if let Some(parts) = r {
        let m = order.len() as int;
        let p = parts@;
        law_fifths(m, 0, 0, 0);
        law_fifths(m, 0, 1, 0);
        law_fifths(m, 0, 2, 0);
        law_fifths(m, 0, 3, 0);
        law_fifths(m, 0, 4, 0);
        assert(p[0]@ == order.subrange(fifth_start(m, 0), fifth_start(m, 1)));
        assert(p[1]@ == order.subrange(fifth_start(m, 1), fifth_start(m, 2)));
        assert(p[2]@ == order.subrange(fifth_start(m, 2), fifth_start(m, 3)));
        assert(p[3]@ == order.subrange(fifth_start(m, 3), fifth_start(m, 4)));
        assert(p[4]@ == order.subrange(fifth_start(m, 4), fifth_start(m, 5)));
        assert(fifth_start(m, 0) == 0 && fifth_start(m, 5) == m);
        assert(p[0]@ + p[1]@ + p[2]@ + p[3]@ + p[4]@ =~= order);
        assert forall|q: int| 0 <= q < 5 implies order.len() / 5 <= (#[trigger] p[q])@.len() <= order.len() / 5
            + 1 by {
            assert(q == 0 || q == 1 || q == 2 || q == 3 || q == 4);
        }
    }
    order
}

/// Where a number falls among nodes: before the first or on it, on the last or behind it,
/// or between the first two neighbours that hold it.
pub proof fn law_locate(nodes: Vec<Num>, x: Num, r: Place)
    requires
        call_ensures(locate, (&nodes, x), r),
        nodes@.len() > 0,
        !x.nan(),
        forall|i: int| 0 <= i < nodes@.len() ==> !#[trigger] nodes@[i].nan(),
    ensures
        r is First <==> x.at_most(nodes@[0]),
        r is Last <==> nodes@[0].below(x) && nodes@[nodes@.len() - 1].at_most(x),
        r matches Place::Between(k) ==> k + 1 < nodes@.len() && nodes@[k as int].at_most(x) && x.at_most(
            nodes@[k + 1],
        ),
        r !is Nowhere,
{
    assert(!nodes@[0].nan() && !nodes@[nodes@.len() - 1].nan());
    if !x.at_most(nodes@[0]) && !nodes@.last().at_most(x) {
        law_locate_finds(nodes@, x);
        let i = choose|i: int| brackets(nodes@, x, i);
        assert(brackets(nodes@, x, i));
    }
}

} // verus!

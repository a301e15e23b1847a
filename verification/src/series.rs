//! Dated series side by side: order, selection and joins.

use crate::align::{is_spot_up_vol_up, spot_up_vol_up};
use crate::num::Num;
use crate::order::lemma_insert_contains;
use crate::pick::{law_pick, pick};
use crate::price::is_place;
use crate::table::{index_of, law_last_place, locates, place_of, Table};
use crate::text::{
    before, byte_prefix, chars_of, first_bytes, is_before, law_ascii_prefix,
    law_before_is_total_order, same, string_of, views,
};
use vstd::prelude::*;

verus! {

// ---- order ----

/// Whether text `a` comes before text `b`: the lesser first, and of two equal ones the
/// earlier.
pub open spec fn text_first(keys: Seq<Seq<char>>, a: int, b: int) -> bool {
    before(keys[a], keys[b]) || (keys[a] == keys[b] && a < b)
}

/// Whether `out` lists the places of all texts, each once, in ascending order.
pub open spec fn is_text_ranking(keys: Seq<Seq<char>>, out: Seq<usize>) -> bool {
    &&& out.len() == keys.len()
    &&& forall|i: int| 0 <= i < out.len() ==> #[trigger] out[i] < keys.len()
    &&& forall|k: usize| k < keys.len() ==> #[trigger] out.contains(k)
    &&& forall|i: int, j: int|
        0 <= i < j < out.len() ==> text_first(keys, #[trigger] out[i] as int, #[trigger] out[j] as int)
}

/// Puts place `p`, which is later than all in `out`, where it belongs among them.
fn rank_text_in(keys: &Vec<String>, out: &mut Vec<usize>, p: usize)
    requires
        p < keys@.len(),
        forall|i: int| 0 <= i < old(out)@.len() ==> #[trigger] old(out)@[i] < p,
        forall|i: int, j: int|
            0 <= i < j < old(out)@.len() ==> text_first(
                views(keys@),
                #[trigger] old(out)@[i] as int,
                #[trigger] old(out)@[j] as int,
            ),
    ensures
        forall|i: int, j: int|
            0 <= i < j < final(out)@.len() ==> text_first(
                views(keys@),
                #[trigger] final(out)@[i] as int,
                #[trigger] final(out)@[j] as int,
            ),
        exists|q: int| 0 <= q <= old(out)@.len() && final(out)@ == old(out)@.insert(q, p),
{
    let ghost ks = views(keys@);
    let mut q: usize = out.len();
    while q > 0 && is_before(keys[p].as_str(), keys[out[q - 1]].as_str())
        invariant
            q <= out@.len(),
            p < keys@.len(),
            ks == views(keys@),
            out@ == old(out)@,
            forall|i: int| 0 <= i < out@.len() ==> #[trigger] out@[i] < p,
            forall|i: int| q <= i < out@.len() ==> before(ks[p as int], ks[#[trigger] out@[i] as int]),
        decreases q,
    {
        q = q - 1;
    }
    let ghost was = out@;
    out.insert(q, p);
    proof {
        was.insert_ensures(q as int, p);
    }
    assert forall|i: int, j: int| 0 <= i < j < out@.len() implies text_first(
        ks,
        #[trigger] out@[i] as int,
        #[trigger] out@[j] as int,
    ) by {
        let a = if i < q { i } else { i - 1 };
        let b = if j < q { j } else { j - 1 };
        if i == q {
            assert(out@[j] == was[b]);
        } else if j == q {
            assert(out@[i] == was[a]);
            assert(was[q - 1] < p);
            let (x, y, z) = (ks[was[a] as int], ks[was[q - 1] as int], ks[p as int]);
            assert(!before(z, y));
            law_before_is_total_order(y, z, z);
            if a < q - 1 {
                assert(text_first(ks, was[a] as int, was[q - 1] as int));
                law_before_is_total_order(x, y, z);
            }
        } else {
            assert(out@[i] == was[a] && out@[j] == was[b]);
        }
    }
}

/// The places of all texts in ascending order, equal ones as they stand.
pub fn ranked_texts(keys: &Vec<String>) -> (r: Vec<usize>)
    ensures
        is_text_ranking(views(keys@), r@),
{
    let ghost ks = views(keys@);
    let mut out: Vec<usize> = Vec::new();
    let mut p: usize = 0;
    while p < keys.len()
        invariant
            p <= keys@.len(),
            ks == views(keys@),
            out@.len() == p,
            forall|i: int| 0 <= i < out@.len() ==> #[trigger] out@[i] < p,
            forall|k: usize| k < p ==> #[trigger] out@.contains(k),
            forall|i: int, j: int|
                0 <= i < j < out@.len() ==> text_first(
                    ks,
                    #[trigger] out@[i] as int,
                    #[trigger] out@[j] as int,
                ),
        decreases keys@.len() - p,
    {
        let ghost was = out@;
        rank_text_in(keys, &mut out, p);
        proof {
            let q = choose|q: int| 0 <= q <= was.len() && out@ == was.insert(q, p);
            lemma_insert_contains(was, q, p);
            was.insert_ensures(q, p);
            assert forall|i: int| 0 <= i < out@.len() implies #[trigger] out@[i] < p + 1 by {
                if out@[i] != p {
                    let a = choose|a: int| 0 <= a < was.len() && was[a] == out@[i];
                    assert(was[a] < p);
                }
            }
        }
        p = p + 1;
    }
    out
}

/// The texts in the order of a ranking.
pub open spec fn in_ranking(keys: Seq<Seq<char>>, order: Seq<usize>) -> Seq<Seq<char>> {
    order.map_values(|k: usize| keys[k as int])
}

/// The texts in ascending order.
pub fn sorted(keys: &Vec<String>) -> (r: Vec<String>)
    ensures
        exists|order: Seq<usize>| #[trigger]
            is_text_ranking(views(keys@), order) && views(r@) == in_ranking(views(keys@), order),
{
    let order: Vec<usize> = ranked_texts(keys);
    let mut out: Vec<String> = Vec::new();
    let mut i: usize = 0;
    while i < order.len()
        invariant
            i <= order@.len(),
            is_text_ranking(views(keys@), order@),
            out@.len() == i,
            forall|k: int| 0 <= k < i ==> (#[trigger] out@[k])@ == keys@[order@[k] as int]@,
        decreases order@.len() - i,
    {
        out.push(keys[order[i]].clone());
        i = i + 1;
    }
    assert(views(out@) =~= in_ranking(views(keys@), order@));
    out
}

// ---- file names ----

/// The stem of a file name that ends in `.csv` and has one.
pub open spec fn stem_of(name: Seq<char>) -> Option<Seq<char>> {
    let n = name.len() as int;
    if n > 4 && name.skip(n - 4) == ".csv"@ {
        Some(name.take(n - 4))
    } else {
        None
    }
}

/// The stem of a file name that ends in `.csv` and has one.
pub fn csv_stem(name: &str) -> (r: Option<String>)
    ensures
        match r {
            Some(s) => stem_of(name@) == Some(s@),
            None => stem_of(name@) is None,
        },
{
    let cs: Vec<char> = chars_of(name);
    let n: usize = cs.len();
    if n <= 4 {
        return None;
    }
    let ext: String = string_of(&cs, n - 4, n);
    assert(ext@ =~= name@.skip(n - 4));
    if same(ext.as_str(), ".csv") {
        let s: String = string_of(&cs, 0, n - 4);
        assert(s@ =~= name@.take(n - 4));
        Some(s)
    } else {
        None
    }
}

/// The stems of the first `n` file names.
pub open spec fn stems_upto(names: Seq<Seq<char>>, n: int) -> Seq<Seq<char>>
    decreases n,
{
    if n <= 0 {
        Seq::empty()
    } else {
        match stem_of(names[n - 1]) {
            Some(s) => stems_upto(names, n - 1).push(s),
            None => stems_upto(names, n - 1),
        }
    }
}

/// The stems of the file names that end in `.csv`, in ascending order: the dates of
/// stored snapshots.
pub fn snap_dates(names: &Vec<String>) -> (r: Vec<String>)
    ensures
        exists|order: Seq<usize>| #[trigger]
            is_text_ranking(stems_upto(views(names@), names@.len() as int), order) && views(r@)
                == in_ranking(stems_upto(views(names@), names@.len() as int), order),
{
    let mut stems: Vec<String> = Vec::new();
    let mut i: usize = 0;
    assert(views(stems@) =~= stems_upto(views(names@), 0));
    while i < names.len()
        invariant
            i <= names@.len(),
            views(stems@) == stems_upto(views(names@), i as int),
        decreases names@.len() - i,
    {
        assert(views(names@)[i as int] == names@[i as int]@);
        match csv_stem(names[i].as_str()) {
            Some(s) => {
                let ghost was = stems@;
                stems.push(s);
                assert(views(stems@) =~= views(was).push(s@));
            },
            None => {},
        }
        i = i + 1;
    }
    sorted(&stems)
}

/// A ranking ascends, and holds each text as often as it stands there.
pub proof fn law_sorted(keys: Seq<Seq<char>>, order: Seq<usize>, i: int, j: int)
    requires
        is_text_ranking(keys, order),
        0 <= i < j < order.len(),
    ensures
        !before(in_ranking(keys, order)[j], in_ranking(keys, order)[i]),
        order[i] != order[j],
{
    assert(text_first(keys, order[i] as int, order[j] as int));
    law_before_is_total_order(keys[order[i] as int], keys[order[j] as int], keys[order[i] as int]);
}

// ---- bars and signals ----

/// The dates from `start` on.
pub open spec fn places_since(dates: Seq<Seq<char>>, start: Seq<char>) -> Seq<usize> {
    pick(dates.len() as int, |k: int| !before(dates[k], start))
}

/// The dates from `start` on.
pub fn since(dates: &Vec<String>, start: &str) -> (r: Vec<usize>)
    ensures
        r@ == places_since(views(dates@), start@),
{
    let ghost ds = views(dates@);
    let ghost f = |k: int| !before(ds[k], start@);
    let mut out: Vec<usize> = Vec::new();
    let mut i: usize = 0;
    while i < dates.len()
        invariant
            i <= dates@.len(),
            ds == views(dates@),
            f == (|k: int| !before(ds[k], start@)),
            out@ == pick(i as int, f),
        decreases dates@.len() - i,
    {
        assert(ds[i as int] == dates@[i as int]@);
        if !is_before(dates[i].as_str(), start) {
            out.push(i);
        }
        i = i + 1;
    }
    out
}

/// The value of a day: that of its snapshot where it is finite, else the one there was.
pub open spec fn spliced(raw: Num, snap: Option<Num>) -> Num {
    match snap {
        Some(x) => if x.finite() {
            x
        } else {
            raw
        },
        None => raw,
    }
}

/// The values with those of the snapshots over them.
pub fn splice(raw: &Vec<Num>, snaps: &Vec<Option<Num>>) -> (r: Vec<Num>)
    requires
        raw@.len() == snaps@.len(),
    ensures
        r@.len() == raw@.len(),
        forall|i: int| 0 <= i < r@.len() ==> #[trigger] r@[i] == spliced(raw@[i], snaps@[i]),
{
    let mut out: Vec<Num> = Vec::new();
    let mut i: usize = 0;
    while i < raw.len()
        invariant
            i <= raw@.len() == snaps@.len(),
            out@.len() == i,
            forall|k: int| 0 <= k < i ==> #[trigger] out@[k] == spliced(raw@[k], snaps@[k]),
        decreases raw@.len() - i,
    {
        let x: Num = match snaps[i] {
            Some(s) => if s.is_finite() {
                s
            } else {
                raw[i]
            },
            None => raw[i],
        };
        out.push(x);
        i = i + 1;
    }
    out
}

/// What is marked at a bar: spot and volatility rose together, a top, a bottom.
#[derive(Clone, Copy, Debug, PartialEq, Eq, Structural)]
pub struct Marker {
    pub sig: bool,
    pub top: bool,
    pub bot: bool,
}

/// The turning points that are signalled for a date.
pub open spec fn turning(signals: Map<Seq<char>, (bool, bool)>, date: Seq<char>) -> (bool, bool) {
    if signals.contains_key(date) {
        signals[date]
    } else {
        (false, false)
    }
}

/// What is marked at each bar.
pub fn markers(
    dates: &Vec<String>,
    closes: &Vec<Num>,
    ivs: &Vec<Num>,
    signals: &Table<(bool, bool)>,
) -> (r: Vec<Marker>)
    requires
        dates@.len() == closes@.len() == ivs@.len(),
    ensures
        r@.len() == dates@.len(),
        forall|i: int|
            0 <= i < r@.len() ==> (#[trigger] r@[i]).sig == is_spot_up_vol_up(closes@, ivs@, i, 1) && (
            r@[i].top,
            r@[i].bot,
            ) == turning(signals@, dates@[i]@),
{
    let mut out: Vec<Marker> = Vec::new();
    let mut i: usize = 0;
    while i < dates.len()
        invariant
            i <= dates@.len(),
            dates@.len() == closes@.len() == ivs@.len(),
            out@.len() == i,
            forall|k: int|
                0 <= k < i ==> (#[trigger] out@[k]).sig == is_spot_up_vol_up(closes@, ivs@, k, 1) && (
                out@[k].top,
                out@[k].bot,
                ) == turning(signals@, dates@[k]@),
        decreases dates@.len() - i,
    {
        let (top, bot): (bool, bool) = match signals.get(dates[i].as_str()) {
            Some(t) => *t,
            None => (false, false),
        };
        out.push(Marker { sig: spot_up_vol_up(closes, ivs, i, 1), top, bot });
        i = i + 1;
    }
    out
}

// ---- joins ----

/// The trading days over which the widening of credit is measured.
pub const CREDIT_LAG: usize = 20;

/// The days that a day of the high-yield series is joined with: that of the other
/// credit series, that of the index, and the one the widening is measured from.
#[derive(Clone, Copy, Debug, PartialEq, Eq, Structural)]
pub struct CreditLink {
    pub ig: Option<usize>,
    pub close: Option<usize>,
    pub back: Option<usize>,
}

/// Whether `l` joins day `i`.
pub open spec fn is_credit_link(
    l: CreditLink,
    hy: Seq<Seq<char>>,
    ig: Seq<Seq<char>>,
    spx: Seq<Seq<char>>,
    i: int,
) -> bool {
    &&& is_place(l.ig, place_of(ig, hy[i]))
    &&& is_place(l.close, place_of(spx, hy[i]))
    &&& is_place(
        l.back,
        if i >= CREDIT_LAG {
            Some(i - CREDIT_LAG)
        } else {
            None
        },
    )
}

fn place_in(t: &Table<usize>, keys: &Vec<String>, key: &str) -> (r: Option<usize>)
    requires
        forall|k: Seq<char>| #[trigger] locates(t@, views(keys@), k),
    ensures
        is_place(r, place_of(views(keys@), key@)),
{
    assert(locates(t@, views(keys@), key@));
    match t.get(key) {
        Some(p) => Some(*p),
        None => None,
    }
}

/// The days that each day of the high-yield series is joined with.
pub fn credit_links(hy: &Vec<String>, ig: &Vec<String>, spx: &Vec<String>) -> (r: Vec<CreditLink>)
    ensures
        r@.len() == hy@.len(),
        forall|i: int|
            0 <= i < r@.len() ==> is_credit_link(
                #[trigger] r@[i],
                views(hy@),
                views(ig@),
                views(spx@),
                i,
            ),
{
    let ti: Table<usize> = index_of(ig);
    let ts: Table<usize> = index_of(spx);
    let mut out: Vec<CreditLink> = Vec::new();
    let mut i: usize = 0;
    while i < hy.len()
        invariant
            i <= hy@.len(),
            forall|k: Seq<char>| #[trigger] locates(ti@, views(ig@), k),
            forall|k: Seq<char>| #[trigger] locates(ts@, views(spx@), k),
            out@.len() == i,
            forall|k: int|
                0 <= k < i ==> is_credit_link(
                    #[trigger] out@[k],
                    views(hy@),
                    views(ig@),
                    views(spx@),
                    k,
                ),
        decreases hy@.len() - i,
    {
        assert(views(hy@)[i as int] == hy@[i as int]@);
        let back: Option<usize> = if i >= CREDIT_LAG { Some(i - CREDIT_LAG) } else { None };
        let close: Option<usize> = place_in(&ts, spx, hy[i].as_str());
        out.push(CreditLink { ig: place_in(&ti, ig, hy[i].as_str()), close, back });
        i = i + 1;
    }
    out
}

/// Whether `r` joins the dates that occur in both: the last place of each in either, by
/// ascending date.
pub open spec fn are_common(r: Seq<(usize, usize)>, a: Seq<Seq<char>>, b: Seq<Seq<char>>) -> bool {
    &&& forall|i: int| 0 <= i < r.len() ==> is_common(#[trigger] r[i], a, b)
    &&& forall|i: int, j: int|
        0 <= i < j < r.len() ==> before(a[(#[trigger] r[i]).0 as int], a[(#[trigger] r[j]).0 as int])
    &&& forall|k: int|
        0 <= k < a.len() && place_of(b, #[trigger] a[k]) is Some ==> holds_date(r, a, a[k])
}

/// Whether a pair is the last place of one date in either series.
pub open spec fn is_common(p: (usize, usize), a: Seq<Seq<char>>, b: Seq<Seq<char>>) -> bool {
    p.0 < a.len() && place_of(a, a[p.0 as int]) == Some(p.0 as int) && place_of(b, a[p.0 as int])
        == Some(p.1 as int)
}

/// Whether some pair is of the date.
pub open spec fn holds_date(r: Seq<(usize, usize)>, a: Seq<Seq<char>>, date: Seq<char>) -> bool {
    exists|i: int| 0 <= i < r.len() && a[(#[trigger] r[i]).0 as int] == date
}

/// The dates that occur in both series: the last place of each in either, by ascending
/// date.
pub fn common_dates(a: &Vec<String>, b: &Vec<String>) -> (r: Vec<(usize, usize)>)
    ensures
        are_common(r@, views(a@), views(b@)),
{
    let ghost va = views(a@);
    let ghost vb = views(b@);
    let ta: Table<usize> = index_of(a);
    let tb: Table<usize> = index_of(b);
    let entries: &Vec<(String, usize)> = ta.entries();
    let mut out: Vec<(usize, usize)> = Vec::new();
    let mut i: usize = 0;
    while i < entries.len()
        invariant
            va == views(a@),
            vb == views(b@),
            forall|k: Seq<char>| #[trigger] locates(ta@, va, k),
            forall|k: Seq<char>| #[trigger] locates(tb@, vb, k),
            crate::table::ascending(entries@),
            forall|k: int|
                0 <= k < entries@.len() ==> ta@.contains_key(#[trigger] entries@[k].0@)
                    && ta@[entries@[k].0@] == entries@[k].1,
            i <= entries@.len(),
            forall|k: int| 0 <= k < out@.len() ==> is_common(#[trigger] out@[k], va, vb),
            forall|k: int|
                0 <= k < out@.len() ==> exists|e: int|
                    0 <= e < i && #[trigger] entries@[e].0@ == va[(#[trigger] out@[k]).0 as int],
            forall|j: int, k: int|
                0 <= j < k < out@.len() ==> before(
                    va[(#[trigger] out@[j]).0 as int],
                    va[(#[trigger] out@[k]).0 as int],
                ),
            forall|e: int|
                0 <= e < i && place_of(vb, (#[trigger] entries@[e]).0@) is Some ==> holds_date(
                    out@,
                    va,
                    entries@[e].0@,
                ),
        decreases entries@.len() - i,
    {
        let ghost key = entries@[i as int].0@;
        let ghost was = out@;
        assert(ta@.contains_key(key));
        assert(locates(ta@, va, key));
        let p: usize = entries[i].1;
        assert(va[p as int] == key);
        match place_in(&tb, b, entries[i].0.as_str()) {
            Some(q) => {
                out.push((p, q));
                assert(is_common((p, q), va, vb));
                assert forall|j: int, k: int| 0 <= j < k < out@.len() implies before(
                    va[(#[trigger] out@[j]).0 as int],
                    va[(#[trigger] out@[k]).0 as int],
                ) by {
                    if k == was.len() {
                        assert(out@[j] == was[j]);
                        let e = choose|e: int|
                            0 <= e < i && #[trigger] entries@[e].0@ == va[was[j].0 as int];
                        assert(before(entries@[e].0@, entries@[i as int].0@));
                    } else {
                        assert(out@[j] == was[j] && out@[k] == was[k]);
                    }
                }
                assert forall|k: int| 0 <= k < out@.len() implies exists|e: int|
                    0 <= e < i + 1 && #[trigger] entries@[e].0@ == va[(#[trigger] out@[k]).0 as int] by {
                    if k < was.len() {
                        assert(out@[k] == was[k]);
                        let e = choose|e: int|
                            0 <= e < i && #[trigger] entries@[e].0@ == va[was[k].0 as int];
                        assert(entries@[e].0@ == va[out@[k].0 as int]);
                    } else {
                        assert(entries@[i as int].0@ == va[out@[k].0 as int]);
                    }
                }
                assert forall|e: int|
                    0 <= e < i + 1 && place_of(vb, (#[trigger] entries@[e]).0@) is Some implies holds_date(
                    out@,
                    va,
                    entries@[e].0@,
                ) by {
                    if e < i {
                        assert(holds_date(was, va, entries@[e].0@));
                        let k = choose|k: int|
                            0 <= k < was.len() && va[(#[trigger] was[k]).0 as int] == entries@[e].0@;
                        assert(out@[k] == was[k]);
                    } else {
                        assert(out@[was.len() as int] == (p, q));
                    }
                }
            },
            None => {},
        }
        i = i + 1;
    }
    proof {
        assert forall|k: int| 0 <= k < va.len() && place_of(vb, #[trigger] va[k]) is Some implies holds_date(
            out@,
            va,
            va[k],
        ) by {
            assert(locates(ta@, va, va[k]));
            law_last_place(va, va[k]);
            assert(ta@.contains_key(va[k]));
            let e = choose|e: int| 0 <= e < entries@.len() && #[trigger] entries@[e].0@ == va[k];
            assert(holds_date(out@, va, entries@[e].0@));
        }
    }
    out
}

// ---- selections ----

/// The entries that are finite.
pub fn finite_places(vals: &Vec<Num>) -> (r: Vec<usize>)
    ensures
        r@ == pick(vals@.len() as int, |k: int| vals@[k].finite()),
{
    let ghost f = |k: int| vals@[k].finite();
    let mut out: Vec<usize> = Vec::new();
    let mut i: usize = 0;
    while i < vals.len()
        invariant
            i <= vals@.len(),
            f == (|k: int| vals@[k].finite()),
            out@ == pick(i as int, f),
        decreases vals@.len() - i,
    {
        if vals[i].is_finite() {
            out.push(i);
        }
        i = i + 1;
    }
    out
}

/// The places at which both series are finite, up to the end of the shorter one.
pub fn finite_pairs(xs: &Vec<Num>, ys: &Vec<Num>) -> (r: Vec<usize>)
    ensures
        r@ == pick(
            if xs@.len() < ys@.len() {
                xs@.len() as int
            } else {
                ys@.len() as int
            },
            |k: int| xs@[k].finite() && ys@[k].finite(),
        ),
{
    let ghost f = |k: int| xs@[k].finite() && ys@[k].finite();
    let n: usize = if xs.len() < ys.len() { xs.len() } else { ys.len() };
    let mut out: Vec<usize> = Vec::new();
    let mut i: usize = 0;
    while i < n
        invariant
            i <= n,
            n <= xs@.len(),
            n <= ys@.len(),
            f == (|k: int| xs@[k].finite() && ys@[k].finite()),
            out@ == pick(i as int, f),
        decreases n - i,
    {
        if xs[i].is_finite() && ys[i].is_finite() {
            out.push(i);
        }
        i = i + 1;
    }
    out
}

/// A drop: -0.10.
pub const DROP: u64 = 0xbfb9_9999_9999_999a;

/// Whether the worst return ahead is a drop.
pub open spec fn is_drop(worst: Num) -> bool {
    worst.at_most(Num { bits: DROP })
}

/// The days before a drop, and the other days whose worst return is finite.
pub fn split_by_drop(worst: &Vec<Num>) -> (r: (Vec<usize>, Vec<usize>))
    ensures
        r.0@ == pick(worst@.len() as int, |k: int| is_drop(worst@[k])),
        r.1@ == pick(worst@.len() as int, |k: int| !is_drop(worst@[k]) && worst@[k].finite()),
{
    let ghost f = |k: int| is_drop(worst@[k]);
    let ghost g = |k: int| !is_drop(worst@[k]) && worst@[k].finite();
    let mut pre: Vec<usize> = Vec::new();
    let mut other: Vec<usize> = Vec::new();
    let mut i: usize = 0;
    while i < worst.len()
        invariant
            i <= worst@.len(),
            f == (|k: int| is_drop(worst@[k])),
            g == (|k: int| !is_drop(worst@[k]) && worst@[k].finite()),
            pre@ == pick(i as int, f),
            other@ == pick(i as int, g),
        decreases worst@.len() - i,
    {
        if worst[i].le(Num::new(DROP)) {
            pre.push(i);
        } else if worst[i].is_finite() {
            other.push(i);
        }
        i = i + 1;
    }
    (pre, other)
}

/// The year that a date begins with: its first four bytes.
pub open spec fn year_of(date: Seq<char>) -> Seq<char> {
    byte_prefix(date, 4)
}

/// Whether the year of date `i` is another than that of the date before it.
pub open spec fn starts_year(dates: Seq<Seq<char>>, i: int) -> bool {
    year_of(dates[i]) != (if i > 0 {
        year_of(dates[i - 1])
    } else {
        Seq::empty()
    })
}

/// The dates at which a year starts, each with the year.
pub fn year_starts(dates: &Vec<String>) -> (r: Vec<(usize, String)>)
    ensures
        r@.map_values(|p: (usize, String)| p.0) == pick(
            dates@.len() as int,
            |k: int| starts_year(views(dates@), k),
        ),
        forall|i: int| 0 <= i < r@.len() ==> (#[trigger] r@[i]).1@ == year_of(dates@[r@[i].0 as int]@),
{
    let ghost ds = views(dates@);
    let ghost f = |k: int| starts_year(ds, k);
    let ghost first = |p: (usize, String)| p.0;
    let mut out: Vec<(usize, String)> = Vec::new();
    let mut last: String = String::new();
    let mut i: usize = 0;
    assert(out@.map_values(first) =~= pick(0, f));
    while i < dates.len()
        invariant
            i <= dates@.len(),
            ds == views(dates@),
            f == (|k: int| starts_year(ds, k)),
            first == (|p: (usize, String)| p.0),
            last@ == (if i > 0 {
                year_of(ds[i - 1])
            } else {
                Seq::empty()
            }),
            out@.map_values(first) == pick(i as int, f),
            forall|k: int| 0 <= k < out@.len() ==> (#[trigger] out@[k]).0 < i,
            forall|k: int|
                0 <= k < out@.len() ==> (#[trigger] out@[k]).1@ == year_of(dates@[out@[k].0 as int]@),
        decreases dates@.len() - i,
    {
        assert(ds[i as int] == dates@[i as int]@);
        let year: String = first_bytes(dates[i].as_str(), 4);
        if !same(year.as_str(), last.as_str()) {
            let ghost was = out@;
            out.push((i, year.clone()));
            assert(out@.map_values(first) =~= was.map_values(first).push(i));
        }
        last = year;
        i = i + 1;
    }
    out
}

// ---- what selections and joins owe to their inputs ----

/// The texts of a list in ascending order: each stands there as often as in the list.
pub proof fn law_sorted_texts(keys: Vec<String>, r: Vec<String>) -> (order: Seq<usize>)
    requires
        call_ensures(sorted, (&keys,), r),
    ensures
        r@.len() == keys@.len(),
        order.len() == keys@.len(),
        forall|i: int|
            0 <= i < order.len() ==> #[trigger] order[i] < keys@.len() && r@[i]@ == keys@[order[i] as int]@,
        forall|k: usize| k < keys@.len() ==> #[trigger] order.contains(k),
        forall|i: int, j: int|
            0 <= i < j < order.len() ==> #[trigger] order[i] != #[trigger] order[j] && !before(r@[j]@, r@[i]@),
        forall|i: int, j: int|
            0 <= i < j < order.len() && r@[i]@ == r@[j]@ ==> #[trigger] order[i] < #[trigger] order[j],
{
    let ks = views(keys@);
    let order = choose|order: Seq<usize>| #[trigger]
        is_text_ranking(ks, order) && views(r@) == in_ranking(ks, order);
    let rs = views(r@);
    assert(rs.len() == r@.len());
    assert forall|i: int| 0 <= i < order.len() implies #[trigger] order[i] < keys@.len() && r@[i]@
        == keys@[order[i] as int]@ by {
        assert(rs[i] == r@[i]@);
        assert(ks[order[i] as int] == keys@[order[i] as int]@);
    }
    assert forall|i: int, j: int| 0 <= i < j < order.len() implies #[trigger] order[i]
        != #[trigger] order[j] && !before(r@[j]@, r@[i]@) && (r@[i]@ != r@[j]@ || order[i] < order[j]) by {
        law_sorted(ks, order, i, j);
        assert(rs[i] == r@[i]@ && rs[j] == r@[j]@);
        assert(text_first(ks, order[i] as int, order[j] as int));
        law_before_is_total_order(rs[i], rs[j], rs[i]);
    }
    order
}

/// A file name has a stem exactly where it is one character or more and `.csv` behind it;
/// the stem is what stands before that.
pub proof fn law_csv_stem(name: &str, s: Seq<char>, r: Option<String>)
    requires
        call_ensures(csv_stem, (name,), r),
    ensures
        r matches Some(s) ==> s@.len() > 0 && name@ == s@ + seq!['.', 'c', 's', 'v'],
        s.len() > 0 && name@ == s + seq!['.', 'c', 's', 'v'] ==> (r matches Some(t) && t@ == s),
{
    reveal_strlit(".csv");
    let ext = seq!['.', 'c', 's', 'v'];
    assert(".csv"@ =~= ext);
    let n = name@.len() as int;
    if r is Some {
        assert(name@ =~= name@.take(n - 4) + name@.skip(n - 4));
    }
    if s.len() > 0 && name@ == s + ext {
        assert(name@.skip(n - 4) =~= ext);
        assert(name@.take(n - 4) =~= s);
        assert(stem_of(name@) == Some(s));
    }
}

/// The stems of the first names, with the name that each is of.
proof fn lemma_stem_names(names: Seq<Seq<char>>, n: int) -> (from: Seq<int>)
    requires
        0 <= n <= names.len(),
    ensures
        from.len() == stems_upto(names, n).len(),
        forall|k: int| 0 <= k < from.len() ==> 0 <= #[trigger] from[k] < n,
        forall|k: int|
            0 <= k < from.len() ==> stem_of(names[#[trigger] from[k]]) == Some(stems_upto(names, n)[k]),
        forall|i: int| 0 <= i < n && stem_of(#[trigger] names[i]) is Some ==> from.contains(i),
    decreases n,
{
    if n <= 0 {
        Seq::empty()
    } else {
        let front = lemma_stem_names(names, n - 1);
        if stem_of(names[n - 1]) is Some {
            let from = front.push(n - 1);
            assert forall|i: int| 0 <= i < n && stem_of(#[trigger] names[i]) is Some implies from.contains(i) by {
                if i < n - 1 {
                    let k = choose|k: int| 0 <= k < front.len() && front[k] == i;
                    assert(from[k] == i);
                } else {
                    assert(from[front.len() as int] == i);
                }
            }
            from
        } else {
            front
        }
    }
}

/// The stored dates ascend; each is the stem of a file name, and the stem of every name is
/// among them.
pub proof fn law_snap_dates(names: Vec<String>, r: Vec<String>, s: Seq<char>, i: int, j: int)
    requires
        call_ensures(snap_dates, (&names,), r),
    ensures
        0 <= i < j < r@.len() ==> !before(r@[j]@, r@[i]@),
        0 <= i < r@.len() ==> exists|k: int|
            0 <= k < names@.len() && (#[trigger] names@[k])@ == r@[i]@ + seq!['.', 'c', 's', 'v'],
        0 <= j < names@.len() && s.len() > 0 && names@[j]@ == s + seq!['.', 'c', 's', 'v'] ==> views(
            r@,
        ).contains(s),
{
    let ns = views(names@);
    let n = names@.len() as int;
    let stems = stems_upto(ns, n);
    let order = choose|order: Seq<usize>| #[trigger]
        is_text_ranking(stems, order) && views(r@) == in_ranking(stems, order);
    let rs = views(r@);
    assert(rs.len() == r@.len());
    let from = lemma_stem_names(ns, n);
    let ext = seq!['.', 'c', 's', 'v'];
    reveal_strlit(".csv");
    assert(".csv"@ =~= ext);
    if 0 <= i < j < r@.len() {
        law_sorted(stems, order, i, j);
        assert(rs[i] == r@[i]@ && rs[j] == r@[j]@);
    }
    if 0 <= i < r@.len() {
        assert(rs[i] == r@[i]@);
        let f = from[order[i] as int];
        assert(stem_of(ns[f]) == Some(rs[i]));
        assert(ns[f] == names@[f]@);
        let m = ns[f].len() as int;
        assert(ns[f] =~= ns[f].take(m - 4) + ns[f].skip(m - 4));
        assert(names@[f]@ == r@[i]@ + ext);
    }
    if 0 <= j < names@.len() && s.len() > 0 && names@[j]@ == s + ext {
        let m = ns[j].len() as int;
        assert(ns[j] == names@[j]@);
        assert(ns[j].skip(m - 4) =~= ext);
        assert(ns[j].take(m - 4) =~= s);
        assert(stem_of(ns[j]) == Some(s));
        let k = choose|k: int| 0 <= k < from.len() && from[k] == j;
        assert(stems[k] == s);
        lemma_stems_short(ns, n);
        assert(names.len() == names@.len());
        assert(order.contains(k as usize));
        let q = choose|q: int| 0 <= q < order.len() && order[q] == k as usize;
        assert(rs[q] == s);
    }
}

proof fn lemma_stems_short(names: Seq<Seq<char>>, n: int)
    requires
        0 <= n <= names.len(),
    ensures
        stems_upto(names, n).len() <= n,
    decreases n,
{
    if n > 0 {
        lemma_stems_short(names, n - 1);
    }
}

/// The places from a start on: those whose date is not before it, and no other.
pub proof fn law_since(dates: Vec<String>, start: &str, r: Vec<usize>, k: usize)
    requires
        call_ensures(since, (&dates, start), r),
        k < dates@.len(),
    ensures
        r@.contains(k) <==> !before(dates@[k as int]@, start@),
        forall|i: int, j: int| 0 <= i < j < r@.len() ==> #[trigger] r@[i] < #[trigger] r@[j] < dates@.len(),
{
    let ds = views(dates@);
    let f = |k: int| !before(ds[k], start@);
    assert(dates.len() == dates@.len());
    law_pick(ds.len() as int, f);
    assert(ds[k as int] == dates@[k as int]@);
    if r@.contains(k) {
        let i = choose|i: int| 0 <= i < r@.len() && r@[i] == k;
        assert(f(r@[i] as int));
    }
    if f(k as int) {
        assert(r@.contains(k as int as usize));
    }
}

/// A finite value of a snapshot takes the place of the one there was, and no other does.
pub proof fn law_splice(raw: Vec<Num>, snaps: Vec<Option<Num>>, r: Vec<Num>, i: int)
    requires
        raw@.len() == snaps@.len(),
        call_ensures(splice, (&raw, &snaps), r),
        0 <= i < raw@.len(),
    ensures
        r@.len() == raw@.len(),
        snaps@[i] matches Some(x) && x.finite() ==> r@[i] == snaps@[i]->0,
        snaps@[i] is None || !snaps@[i]->0.finite() ==> r@[i] == raw@[i],
{
    assert(r@[i] == spliced(raw@[i], snaps@[i]));
}

/// A bar is marked where spot and volatility are above those of the bar before, and with
/// the top and the bottom that the signals hold for its own date.
pub proof fn law_markers(
    dates: Vec<String>,
    closes: Vec<Num>,
    ivs: Vec<Num>,
    signals: Table<(bool, bool)>,
    r: Vec<Marker>,
    i: int,
)
    requires
        dates@.len() == closes@.len() == ivs@.len(),
        call_ensures(markers, (&dates, &closes, &ivs, &signals), r),
        0 <= i < dates@.len(),
    ensures
        r@.len() == dates@.len(),
        r@[i].sig <==> i >= 1 && closes@[i - 1].below(closes@[i]) && ivs@[i - 1].below(ivs@[i])
            && ivs@[i - 1].finite() && ivs@[i].finite(),
        signals@.contains_key(dates@[i]@) ==> r@[i].top == signals@[dates@[i]@].0 && r@[i].bot
            == signals@[dates@[i]@].1,
        !signals@.contains_key(dates@[i]@) ==> !r@[i].top && !r@[i].bot,
{
    assert((r@[i].top, r@[i].bot) == turning(signals@, dates@[i]@));
}

/// A day of the high-yield series is joined with the last places of its date in the other
/// series and in the index, where it occurs there, and with the day twenty places before.
pub proof fn law_credit_link(hy: Vec<String>, ig: Vec<String>, spx: Vec<String>, r: Vec<CreditLink>, i: int)
    requires
        call_ensures(credit_links, (&hy, &ig, &spx), r),
        0 <= i < hy@.len(),
    ensures
        r@.len() == hy@.len(),
        r@[i].ig matches Some(p) ==> p < ig@.len() && ig@[p as int]@ == hy@[i]@ && forall|j: int|
            p < j < ig@.len() ==> (#[trigger] ig@[j])@ != hy@[i]@,
        r@[i].ig is None ==> forall|j: int| 0 <= j < ig@.len() ==> (#[trigger] ig@[j])@ != hy@[i]@,
        r@[i].close matches Some(p) ==> p < spx@.len() && spx@[p as int]@ == hy@[i]@ && forall|j: int|
            p < j < spx@.len() ==> (#[trigger] spx@[j])@ != hy@[i]@,
        r@[i].close is None ==> forall|j: int| 0 <= j < spx@.len() ==> (#[trigger] spx@[j])@ != hy@[i]@,
        i >= 20 ==> (r@[i].back matches Some(b) && b + 20 == i),
        i < 20 ==> r@[i].back is None,
{
    let (h, g, s) = (views(hy@), views(ig@), views(spx@));
    assert(is_credit_link(r@[i], h, g, s, i));
    assert(h[i] == hy@[i]@);
    law_last_place(g, h[i]);
    law_last_place(s, h[i]);
    assert(ig.len() == ig@.len() && spx.len() == spx@.len() && hy.len() == hy@.len());
    assert forall|j: int| 0 <= j < ig@.len() implies #[trigger] ig@[j]@ == g[j] by {}
    assert forall|j: int| 0 <= j < spx@.len() implies #[trigger] spx@[j]@ == s[j] by {}
}

/// The dates of a join ascend; each pair is the last place of one date in either series,
/// and every date that occurs in both has its pair.
pub proof fn law_common_dates(a: Vec<String>, b: Vec<String>, r: Vec<(usize, usize)>, i: int, j: int)
    requires
        call_ensures(common_dates, (&a, &b), r),
    ensures
        0 <= i < r@.len() ==> {
            let (p, q) = r@[i];
            &&& p < a@.len() && q < b@.len()
            &&& a@[p as int]@ == b@[q as int]@
            &&& p < j < a@.len() ==> a@[j]@ != a@[p as int]@
            &&& q < j < b@.len() ==> b@[j]@ != b@[q as int]@
            &&& i < j < r@.len() ==> before(a@[p as int]@, a@[r@[j].0 as int]@)
        },
        0 <= i < a@.len() && 0 <= j < b@.len() && a@[i]@ == b@[j]@ ==> exists|k: int|
            0 <= k < r@.len() && a@[(#[trigger] r@[k]).0 as int]@ == a@[i]@,
{
    let (va, vb) = (views(a@), views(b@));
    assert(are_common(r@, va, vb));
    if 0 <= i < r@.len() {
        let (p, q) = r@[i];
        assert(is_common(r@[i], va, vb));
        law_last_place(va, va[p as int]);
        law_last_place(vb, va[p as int]);
        assert(va[p as int] == a@[p as int]@ && vb[q as int] == b@[q as int]@);
        if p < j < a@.len() {
            assert(va[j] == a@[j]@);
        }
        if q < j < b@.len() {
            assert(vb[j] == b@[j]@);
        }
        if i < j < r@.len() {
            assert(is_common(r@[j], va, vb));
            assert(va[r@[j].0 as int] == a@[r@[j].0 as int]@);
        }
    }
    if 0 <= i < a@.len() && 0 <= j < b@.len() && a@[i]@ == b@[j]@ {
        assert(va[i] == a@[i]@ && vb[j] == b@[j]@);
        law_last_place(vb, va[i]);
        assert(holds_date(r@, va, va[i]));
        let k = choose|k: int| 0 <= k < r@.len() && va[(#[trigger] r@[k]).0 as int] == va[i];
        assert(is_common(r@[k], va, vb));
        assert(va[r@[k].0 as int] == a@[r@[k].0 as int]@);
    }
}

/// The finite places of a series, and the places at which two are finite.
pub proof fn law_finite_places(xs: Vec<Num>, ys: Vec<Num>, one: Vec<usize>, both: Vec<usize>, k: usize)
    requires
        call_ensures(finite_places, (&xs,), one),
        call_ensures(finite_pairs, (&xs, &ys), both),
    ensures
        one@.contains(k) <==> k < xs@.len() && xs@[k as int].finite(),
        both@.contains(k) <==> k < xs@.len() && k < ys@.len() && xs@[k as int].finite()
            && ys@[k as int].finite(),
        forall|i: int, j: int| 0 <= i < j < one@.len() ==> #[trigger] one@[i] < #[trigger] one@[j],
        forall|i: int, j: int| 0 <= i < j < both@.len() ==> #[trigger] both@[i] < #[trigger] both@[j],
{
    let f = |k: int| xs@[k].finite();
    let g = |k: int| xs@[k].finite() && ys@[k].finite();
    let n = if xs@.len() < ys@.len() {
        xs@.len() as int
    } else {
        ys@.len() as int
    };
    assert(xs.len() == xs@.len() && ys.len() == ys@.len());
    law_pick(xs@.len() as int, f);
    law_pick(n, g);
    if one@.contains(k) {
        let i = choose|i: int| 0 <= i < one@.len() && one@[i] == k;
        assert(f(one@[i] as int));
    }
    if both@.contains(k) {
        let i = choose|i: int| 0 <= i < both@.len() && both@[i] == k;
        assert(g(both@[i] as int));
    }
    if k < xs@.len() && f(k as int) {
        assert(one@.contains(k as int as usize));
    }
    if k < n && g(k as int) {
        assert(both@.contains(k as int as usize));
    }
}

/// A day comes before a drop exactly where the worst return ahead is -0.10 or less; every
/// other day with a finite one is in the second list.
pub proof fn law_split_by_drop(worst: Vec<Num>, r: (Vec<usize>, Vec<usize>), k: usize)
    requires
        call_ensures(split_by_drop, (&worst,), r),
        k < worst@.len(),
    ensures
        r.0@.contains(k) <==> worst@[k as int].at_most(Num { bits: 0xbfb9_9999_9999_999a }),
        r.1@.contains(k) <==> worst@[k as int].finite() && (Num { bits: 0xbfb9_9999_9999_999a }).below(
            worst@[k as int],
        ),
{
    let f = |k: int| is_drop(worst@[k]);
    let g = |k: int| !is_drop(worst@[k]) && worst@[k].finite();
    assert(worst.len() == worst@.len());
    law_pick(worst@.len() as int, f);
    law_pick(worst@.len() as int, g);
    if r.0@.contains(k) {
        let i = choose|i: int| 0 <= i < r.0@.len() && r.0@[i] == k;
        assert(f(r.0@[i] as int));
    }
    if r.1@.contains(k) {
        let i = choose|i: int| 0 <= i < r.1@.len() && r.1@[i] == k;
        assert(g(r.1@[i] as int));
    }
    if f(k as int) {
        assert(r.0@.contains(k as int as usize));
    }
    if g(k as int) {
        assert(r.1@.contains(k as int as usize));
    }
}

/// Of dates that begin with four ASCII characters, a year starts at the first, and where
/// those four differ from those of the date before; its text is those four.
pub proof fn law_year_starts(dates: Vec<String>, r: Vec<(usize, String)>, k: usize)
    requires
        call_ensures(year_starts, (&dates,), r),
        k < dates@.len(),
        forall|i: int, c: int|
            0 <= i < dates@.len() && 0 <= c < 4 ==> dates@[i]@.len() >= 4 && (#[trigger] dates@[i]@[c] as u32)
                < 0x80,
        forall|i: int| 0 <= i < dates@.len() ==> (#[trigger] dates@[i])@.len() >= 4,
    ensures
        (exists|i: int| 0 <= i < r@.len() && (#[trigger] r@[i]).0 == k) <==> k == 0
            || dates@[k as int]@.take(4) != dates@[k - 1]@.take(4),
        forall|i: int|
            0 <= i < r@.len() ==> (#[trigger] r@[i]).0 < dates@.len() && r@[i].1@ == dates@[r@[i].0 as int]@.take(
                4,
            ),
{
    let ds = views(dates@);
    let f = |k: int| starts_year(ds, k);
    assert(dates.len() == dates@.len());
    law_pick(ds.len() as int, f);
    let places = r@.map_values(|p: (usize, String)| p.0);
    assert forall|i: int| 0 <= i < dates@.len() implies year_of((#[trigger] ds[i])) == dates@[i]@.take(4) by {
        assert(ds[i] == dates@[i]@);
        assert forall|c: int| 0 <= c < 4 implies (#[trigger] ds[i][c] as u32) < 0x80 by {
            assert((dates@[i]@[c] as u32) < 0x80);
        }
        assert(dates@[i]@.len() >= 4);
        law_ascii_prefix(ds[i], 4);
    }
    assert(year_of(ds[k as int]).len() == 4);
    if k > 0 {
        assert(year_of(ds[k - 1]) == dates@[k - 1]@.take(4));
    }
    if exists|i: int| 0 <= i < r@.len() && (#[trigger] r@[i]).0 == k {
        let i = choose|i: int| 0 <= i < r@.len() && (#[trigger] r@[i]).0 == k;
        assert(places[i] == k);
        assert(f(places[i] as int));
    }
    if f(k as int) {
        assert(places.contains(k as int as usize));
        let i = choose|i: int| 0 <= i < places.len() && places[i] == k;
        assert(r@[i].0 == k);
    }
    assert forall|i: int| 0 <= i < r@.len() implies (#[trigger] r@[i]).0 < dates@.len() && r@[i].1@
        == dates@[r@[i].0 as int]@.take(4) by {
        assert(places[i] == r@[i].0);
        assert(year_of(ds[r@[i].0 as int]) == dates@[r@[i].0 as int]@.take(4));
        assert(ds[r@[i].0 as int] == dates@[r@[i].0 as int]@);
    }
}

} // verus!

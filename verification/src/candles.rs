//! The daily bars of the chart, with the skew and the volatility of their days.

use crate::align::{
    as_of, fill, filled, in_order, is_last_met, is_spot_up_vol_up, law_as_of, met, passed,
};
use crate::num::{Num, NAN};
use crate::order::{law_standing_counts, rolling_standing, standing, window};
use crate::pick::{law_pick, pick};
use crate::series::{markers, places_since, since, splice, spliced, turning, Marker};
use crate::table::Table;
use crate::text::{before, views};
use vstd::prelude::*;

verus! {

/// The days of the window that percentiles are taken over.
pub const PCT_WIN: usize = 252;

/// What the chart shows of a bar: its place among all bars, the volatility of its day, the
/// standing of skew and volatility among the days before it, and what is marked.
pub struct Candle {
    pub bar: usize,
    pub iv: Num,
    pub skew_rank: Option<(usize, usize)>,
    pub iv_rank: Option<(usize, usize)>,
    pub mark: Marker,
}

/// The observed skew series: dates, normalized skew and volatility.
pub struct Observed {
    pub dates: Vec<String>,
    pub skew: Vec<Num>,
    pub iv: Vec<Num>,
}

/// The first date that was observed.
pub open spec fn first_date(dates: Seq<Seq<char>>) -> Seq<char> {
    if dates.len() > 0 {
        dates[0]
    } else {
        Seq::empty()
    }
}

/// The bars that are shown: those from the first observation on.
pub open spec fn shown(bars: Seq<Seq<char>>, obs: Seq<Seq<char>>) -> Seq<usize> {
    places_since(bars, first_date(obs))
}

/// The entries of `all` at `places`.
pub open spec fn taken<A>(all: Seq<A>, places: Seq<usize>) -> Seq<A> {
    places.map_values(|k: usize| all[k as int])
}

/// The last value observed at a date of the grid, or none.
pub open spec fn last_value(vals: Seq<Num>, obs: Seq<Seq<char>>, grid: Seq<Seq<char>>, i: int) -> Num {
    if met(obs, grid, i) == 0 {
        Num { bits: NAN }
    } else {
        vals[met(obs, grid, i) - 1]
    }
}

/// One of the two values that a snapshot gives of a date.
pub open spec fn snap_value(snaps: Map<Seq<char>, (Num, Num)>, date: Seq<char>, skew: bool) -> Option<Num> {
    if snaps.contains_key(date) {
        Some(
            if skew {
                snaps[date].0
            } else {
                snaps[date].1
            },
        )
    } else {
        None
    }
}

/// The values of the grid: the last one observed, and the snapshot of the day over it.
pub open spec fn day_values(
    vals: Seq<Num>,
    obs: Seq<Seq<char>>,
    grid: Seq<Seq<char>>,
    snaps: Map<Seq<char>, (Num, Num)>,
    skew: bool,
) -> Seq<Num> {
    Seq::new(
        grid.len(),
        |i: int| spliced(last_value(vals, obs, grid, i), snap_value(snaps, grid[i], skew)),
    )
}

/// Whether `rank` is a standing.
pub open spec fn is_rank(rank: Option<(usize, usize)>, vals: Seq<Num>, i: int) -> bool {
    match rank {
        Some((c, t)) => standing(vals, PCT_WIN as int, i) == Some((c as nat, t as nat)),
        None => standing(vals, PCT_WIN as int, i) is None,
    }
}

/// Whether `c` is what the chart shows of bar `i` of those shown, where `skew` and `iv`
/// are the values of their days.
pub open spec fn is_candle(
    c: Candle,
    dates: Seq<Seq<char>>,
    closes: Seq<Num>,
    skew: Seq<Num>,
    iv: Seq<Num>,
    signals: Map<Seq<char>, (bool, bool)>,
    i: int,
) -> bool {
    &&& c.iv == iv[i]
    &&& is_rank(c.skew_rank, skew, i)
    &&& is_rank(c.iv_rank, iv, i)
    &&& c.mark.sig == is_spot_up_vol_up(closes, iv, i, 1)
    &&& (c.mark.top, c.mark.bot) == turning(signals, dates[i])
}

fn values_of(
    vals: &Vec<Num>,
    obs: &Vec<String>,
    grid: &Vec<String>,
    places: &Vec<Option<usize>>,
    snaps: &Table<(Num, Num)>,
    skew: bool,
) -> (r: Vec<Num>)
    requires
        vals@.len() == obs@.len(),
        places@.len() == grid@.len(),
        forall|i: int|
            0 <= i < places@.len() ==> is_last_met(#[trigger] places@[i], views(obs@), views(grid@), i) && (
            places@[i] matches Some(p) ==> p < obs@.len()),
    ensures
        r@ == day_values(vals@, views(obs@), views(grid@), snaps@, skew),
{
    let raw: Vec<Num> = fill(vals, places, Num::new(NAN));
    let mut over: Vec<Option<Num>> = Vec::new();
    let mut i: usize = 0;
    while i < grid.len()
        invariant
            i <= grid@.len(),
            over@.len() == i,
            forall|k: int| 0 <= k < i ==> #[trigger] over@[k] == snap_value(snaps@, grid@[k]@, skew),
        decreases grid@.len() - i,
    {
        let x: Option<Num> = match snaps.get(grid[i].as_str()) {
            Some(v) => Some(if skew { v.0 } else { v.1 }),
            None => None,
        };
        over.push(x);
        i = i + 1;
    }
    let out: Vec<Num> = splice(&raw, &over);
    let ghost want = day_values(vals@, views(obs@), views(grid@), snaps@, skew);
    assert forall|k: int| 0 <= k < out@.len() implies out@[k] == want[k] by {
        assert(is_last_met(places@[k], views(obs@), views(grid@), k));
        assert(raw@[k] == filled(vals@, places@, Num { bits: NAN })[k]);
        assert(over@[k] == snap_value(snaps@, grid@[k]@, skew));
        assert(views(grid@)[k] == grid@[k]@);
    }
    assert(out@ =~= want);
    out
}

/// What the chart shows: the bars from the first observation on, each with the last skew
/// and volatility observed, the day's snapshot over them, their standing, and what is
/// marked.
pub fn build_ohlc(
    bars: &Vec<String>,
    closes: &Vec<Num>,
    obs: &Observed,
    snaps: &Table<(Num, Num)>,
    signals: &Table<(bool, bool)>,
) -> (r: Vec<Candle>)
    requires
        bars@.len() == closes@.len(),
        obs.dates@.len() == obs.skew@.len() == obs.iv@.len(),
    ensures
        r@.map_values(|c: Candle| c.bar) == shown(views(bars@), views(obs.dates@)),
        ({
            let kept = shown(views(bars@), views(obs.dates@));
            let grid = taken(views(bars@), kept);
            let skew = day_values(obs.skew@, views(obs.dates@), grid, snaps@, true);
            let iv = day_values(obs.iv@, views(obs.dates@), grid, snaps@, false);
            forall|i: int|
                0 <= i < r@.len() ==> is_candle(
                    #[trigger] r@[i],
                    grid,
                    taken(closes@, kept),
                    skew,
                    iv,
                    signals@,
                    i,
                )
        }),
{
    let ghost od = views(obs.dates@);
    let start: String = if obs.dates.len() > 0 { obs.dates[0].clone() } else { String::new() };
    assert(start@ =~= first_date(od));
    let kept: Vec<usize> = since(bars, start.as_str());
    let n: usize = bars.len();
    proof {
        law_pick(n as int, |k: int| !before(views(bars@)[k], start@));
    }
    let mut dates: Vec<String> = Vec::new();
    let mut cs: Vec<Num> = Vec::new();
    let mut i: usize = 0;
    while i < kept.len()
        invariant
            i <= kept@.len(),
            bars@.len() == closes@.len(),
            forall|k: int| 0 <= k < kept@.len() ==> #[trigger] kept@[k] < bars@.len(),
            dates@.len() == i,
            cs@.len() == i,
            forall|k: int| 0 <= k < i ==> (#[trigger] dates@[k])@ == bars@[kept@[k] as int]@,
            forall|k: int| 0 <= k < i ==> #[trigger] cs@[k] == closes@[kept@[k] as int],
        decreases kept@.len() - i,
    {
        dates.push(bars[kept[i]].clone());
        cs.push(closes[kept[i]]);
        i = i + 1;
    }
    let ghost grid = taken(views(bars@), kept@);
    assert(views(dates@) =~= grid);
    assert(cs@ =~= taken(closes@, kept@));
    let places: Vec<Option<usize>> = as_of(&obs.dates, &dates);
    let skew: Vec<Num> = values_of(&obs.skew, &obs.dates, &dates, &places, snaps, true);
    let iv: Vec<Num> = values_of(&obs.iv, &obs.dates, &dates, &places, snaps, false);
    let skew_ranks: Vec<Option<(usize, usize)>> = rolling_standing(&skew, PCT_WIN);
    let iv_ranks: Vec<Option<(usize, usize)>> = rolling_standing(&iv, PCT_WIN);
    let marks: Vec<Marker> = markers(&dates, &cs, &iv, signals);
    let mut out: Vec<Candle> = Vec::new();
    let mut j: usize = 0;
    while j < kept.len()
        invariant
            j <= kept@.len(),
            kept@.len() == iv@.len() == skew_ranks@.len() == iv_ranks@.len() == marks@.len()
                == dates@.len(),
            views(dates@) == grid,
            forall|k: int| 0 <= k < skew_ranks@.len() ==> is_rank(#[trigger] skew_ranks@[k], skew@, k),
            forall|k: int| 0 <= k < iv_ranks@.len() ==> is_rank(#[trigger] iv_ranks@[k], iv@, k),
            forall|k: int|
                0 <= k < marks@.len() ==> (#[trigger] marks@[k]).sig == is_spot_up_vol_up(
                    cs@,
                    iv@,
                    k,
                    1,
                ) && (marks@[k].top, marks@[k].bot) == turning(signals@, dates@[k]@),
            out@.len() == j,
            forall|k: int|
                0 <= k < j ==> (#[trigger] out@[k]).bar == kept@[k] && is_candle(
                    out@[k],
                    grid,
                    cs@,
                    skew@,
                    iv@,
                    signals@,
                    k,
                ),
        decreases kept@.len() - j,
    {
        assert(grid[j as int] == dates@[j as int]@);
        assert(is_rank(skew_ranks@[j as int], skew@, j as int));
        assert(is_rank(iv_ranks@[j as int], iv@, j as int));
        out.push(
            Candle {
                bar: kept[j],
                iv: iv[j],
                skew_rank: skew_ranks[j],
                iv_rank: iv_ranks[j],
                mark: marks[j],
            },
        );
        j = j + 1;
    }
    assert(out@.map_values(|c: Candle| c.bar) =~= kept@);
    out
}

// ---- what a day can know ----

/// What the chart is made from: the bars that are shown with their closes, the observed
/// series, the snapshots and the turning points.
pub struct ChartData {
    pub grid: Seq<Seq<char>>,
    pub closes: Seq<Num>,
    pub obs: Seq<Seq<char>>,
    pub skew: Seq<Num>,
    pub iv: Seq<Num>,
    pub snaps: Map<Seq<char>, (Num, Num)>,
    pub signals: Map<Seq<char>, (bool, bool)>,
}

/// Whether `c` is what the chart shows of bar `i`.
pub open spec fn is_candle_of(c: Candle, d: ChartData, i: int) -> bool {
    is_candle(
        c,
        d.grid,
        d.closes,
        day_values(d.skew, d.obs, d.grid, d.snaps, true),
        day_values(d.iv, d.obs, d.grid, d.snaps, false),
        d.signals,
        i,
    )
}

/// Whether observation `p`, if there is one, is dated later than all bars up to `i`.
pub open spec fn lies_ahead(d: ChartData, p: int, i: int) -> bool {
    &&& 0 <= i < d.grid.len() == d.closes.len()
    &&& 0 <= p <= d.obs.len()
    &&& d.obs.len() == d.skew.len() == d.iv.len()
    &&& p < d.obs.len() ==> forall|k: int| 0 <= k <= i ==> before(#[trigger] d.grid[k], d.obs[p])
}

/// Whether the data are the same up to bar `i` and before observation `p`.
pub open spec fn same_so_far(a: ChartData, b: ChartData, p: int, i: int) -> bool {
    &&& a.grid.take(i + 1) == b.grid.take(i + 1)
    &&& a.closes.take(i + 1) == b.closes.take(i + 1)
    &&& a.obs.take(p) == b.obs.take(p)
    &&& a.skew.take(p) == b.skew.take(p)
    &&& a.iv.take(p) == b.iv.take(p)
    &&& forall|k: int, skew: bool|
        0 <= k <= i ==> #[trigger] snap_value(a.snaps, a.grid[k], skew) == snap_value(
            b.snaps,
            a.grid[k],
            skew,
        )
    &&& turning(a.signals, a.grid[i]) == turning(b.signals, a.grid[i])
}

proof fn lemma_passed_same(a: Seq<Seq<char>>, b: Seq<Seq<char>>, date: Seq<char>, p: int, j: int)
    requires
        0 <= j <= p <= a.len(),
        p <= b.len(),
        a.take(p) == b.take(p),
        p < a.len() ==> before(date, a[p]),
        p < b.len() ==> before(date, b[p]),
    ensures
        passed(a, date, j) == passed(b, date, j),
        j <= passed(a, date, j) <= p,
    decreases p - j,
{
    if j < p {
        assert(a.take(p)[j] == b.take(p)[j]);
        if !before(date, a[j]) {
            lemma_passed_same(a, b, date, p, j + 1);
        }
    }
}

proof fn lemma_met_same(a: ChartData, b: ChartData, p: int, i: int, k: int)
    requires
        lies_ahead(a, p, i),
        lies_ahead(b, p, i),
        same_so_far(a, b, p, i),
        -1 <= k <= i,
    ensures
        met(a.obs, a.grid, k) == met(b.obs, b.grid, k),
        0 <= met(a.obs, a.grid, k) <= p,
    decreases k + 1,
{
    if k >= 0 {
        lemma_met_same(a, b, p, i, k - 1);
        assert(a.grid.take(i + 1)[k] == b.grid.take(i + 1)[k]);
        let j = met(a.obs, a.grid, k - 1);
        lemma_passed_same(a.obs, b.obs, a.grid[k], p, j);
    }
}

proof fn lemma_values_same(a: ChartData, b: ChartData, p: int, i: int, skew: bool)
    requires
        lies_ahead(a, p, i),
        lies_ahead(b, p, i),
        same_so_far(a, b, p, i),
    ensures
        ({
            let x = day_values(if skew { a.skew } else { a.iv }, a.obs, a.grid, a.snaps, skew);
            let y = day_values(if skew { b.skew } else { b.iv }, b.obs, b.grid, b.snaps, skew);
            x.take(i + 1) == y.take(i + 1)
        }),
{
    let v = if skew { a.skew } else { a.iv };
    let w = if skew { b.skew } else { b.iv };
    let x = day_values(v, a.obs, a.grid, a.snaps, skew);
    let y = day_values(w, b.obs, b.grid, b.snaps, skew);
    assert forall|k: int| 0 <= k <= i implies x[k] == y[k] by {
        lemma_met_same(a, b, p, i, k);
        let n = met(a.obs, a.grid, k);
        assert(a.grid.take(i + 1)[k] == b.grid.take(i + 1)[k]);
        assert(snap_value(a.snaps, a.grid[k], skew) == snap_value(b.snaps, b.grid[k], skew));
        if n > 0 {
            assert(v.take(p) == w.take(p));
            assert(v.take(p)[n - 1] == w.take(p)[n - 1]);
        }
        let (from, to) = (last_value(v, a.obs, a.grid, k), last_value(w, b.obs, b.grid, k));
        assert(from == to);
        assert(x[k] == spliced(from, snap_value(a.snaps, a.grid[k], skew)));
        assert(y[k] == spliced(to, snap_value(b.snaps, b.grid[k], skew)));
    }
    assert(x.take(i + 1) =~= y.take(i + 1));
}

proof fn lemma_standing_same(x: Seq<Num>, y: Seq<Num>, i: int)
    requires
        0 <= i < x.len(),
        i < y.len(),
        x.take(i + 1) == y.take(i + 1),
    ensures
        standing(x, PCT_WIN as int, i) == standing(y, PCT_WIN as int, i),
{
    let (s, t) = (x.take(i + 1), y.take(i + 1));
    assert forall|k: int| 0 <= k <= i implies #[trigger] x[k] == y[k] by {
        assert(x[k] == s[k] && y[k] == t[k]);
    }
    assert(window(x, PCT_WIN as int, i) =~= window(y, PCT_WIN as int, i));
}

/// What the chart shows of a bar rests on nothing that comes after it: not on later bars,
/// nor on observations, snapshots or turning points of later dates.
pub proof fn law_no_day_knows_the_future(c: Candle, a: ChartData, b: ChartData, p: int, i: int)
    requires
        lies_ahead(a, p, i),
        lies_ahead(b, p, i),
        same_so_far(a, b, p, i),
        is_candle_of(c, a, i),
    ensures
        is_candle_of(c, b, i),
{
    let (s, t) = (
        day_values(a.skew, a.obs, a.grid, a.snaps, true),
        day_values(b.skew, b.obs, b.grid, b.snaps, true),
    );
    let (v, w) = (
        day_values(a.iv, a.obs, a.grid, a.snaps, false),
        day_values(b.iv, b.obs, b.grid, b.snaps, false),
    );
    lemma_values_same(a, b, p, i, true);
    lemma_values_same(a, b, p, i, false);
    lemma_standing_same(s, t, i);
    lemma_standing_same(v, w, i);
    assert(v.take(i + 1)[i] == w.take(i + 1)[i]);
    assert(a.closes.take(i + 1)[i] == b.closes.take(i + 1)[i]);
    assert(a.grid.take(i + 1)[i] == b.grid.take(i + 1)[i]);
    if i > 0 {
        assert(v.take(i + 1)[i - 1] == w.take(i + 1)[i - 1]);
        assert(a.closes.take(i + 1)[i - 1] == b.closes.take(i + 1)[i - 1]);
    }
}

// ---- what the chart owes to its inputs ----

/// The value of a day is the snapshot of its date wherever that is finite, the first of the
/// two for the skew and the second for the volatility; else it is the last one observed.
pub proof fn law_snapshot_counts(
    vals: Seq<Num>,
    obs: Seq<Seq<char>>,
    grid: Seq<Seq<char>>,
    snaps: Map<Seq<char>, (Num, Num)>,
    i: int,
)
    requires
        0 <= i < grid.len(),
    ensures
        snaps.contains_key(grid[i]) && snaps[grid[i]].0.finite() ==> day_values(vals, obs, grid, snaps, true)[i]
            == snaps[grid[i]].0,
        snaps.contains_key(grid[i]) && snaps[grid[i]].1.finite() ==> day_values(vals, obs, grid, snaps, false)[i]
            == snaps[grid[i]].1,
        !(snaps.contains_key(grid[i]) && snaps[grid[i]].0.finite()) ==> day_values(vals, obs, grid, snaps, true)[i]
            == day_values(vals, obs, grid, Map::empty(), true)[i],
        !(snaps.contains_key(grid[i]) && snaps[grid[i]].1.finite()) ==> day_values(
            vals,
            obs,
            grid,
            snaps,
            false,
        )[i] == day_values(vals, obs, grid, Map::empty(), false)[i],
{
}

/// Where all dates are in order, the last value observed at a date is that of the last
/// observation that is not dated later, and no number where all are.
proof fn lemma_last_value(vals: Seq<Num>, obs: Seq<Seq<char>>, grid: Seq<Seq<char>>, i: int, p: int)
    requires
        in_order(obs),
        in_order(grid),
        0 <= i < grid.len(),
        -1 <= p < obs.len(),
        p >= 0 ==> !before(grid[i], obs[p]),
        p + 1 < obs.len() ==> before(grid[i], obs[p + 1]),
    ensures
        p >= 0 ==> last_value(vals, obs, grid, i) == vals[p],
        p < 0 ==> last_value(vals, obs, grid, i) == (Num { bits: NAN }),
{
    law_as_of(obs, grid, i);
    let m = met(obs, grid, i);
    if p >= 0 {
        assert(p < m);
    }
    if p + 1 < obs.len() {
        assert(!(p + 1 < m));
    }
}

/// The dates at ascending places of dates in order are in order.
proof fn lemma_taken_in_order(all: Seq<Seq<char>>, places: Seq<usize>)
    requires
        in_order(all),
        forall|k: int| 0 <= k < places.len() ==> #[trigger] places[k] < all.len(),
        forall|j: int, k: int| 0 <= j < k < places.len() ==> #[trigger] places[j] < #[trigger] places[k],
    ensures
        in_order(taken(all, places)),
{
    let t = taken(all, places);
    assert forall|j: int, k: int| 0 <= j <= k < t.len() implies !before(#[trigger] t[k], #[trigger] t[j]) by {
        assert(t[j] == all[places[j] as int] && t[k] == all[places[k] as int]);
        if j < k {
            assert(places[j] < places[k]);
        }
        assert(!before(all[places[k] as int], all[places[j] as int]));
    }
}

/// The bars that are shown are those not dated before the first observation, in their
/// order. Each has a skew and a volatility of its day: the values of the snapshot of its
/// date wherever they are finite, the first for the skew and the second for the
/// volatility. The volatility is shown, and so is what is marked: where spot and
/// volatility are above those of the bar shown before, and the top and the bottom that the
/// signals hold for the date of the bar.
pub proof fn law_candles(
    bars: Vec<String>,
    closes: Vec<Num>,
    obs: Observed,
    snaps: Table<(Num, Num)>,
    signals: Table<(bool, bool)>,
    r: Vec<Candle>,
) -> (days: (Seq<Num>, Seq<Num>))
    requires
        bars@.len() == closes@.len(),
        obs.dates@.len() == obs.skew@.len() == obs.iv@.len(),
        call_ensures(build_ohlc, (&bars, &closes, &obs, &snaps, &signals), r),
    ensures
        days.0.len() == r@.len(),
        days.1.len() == r@.len(),
        forall|i: int| 0 <= i < r@.len() ==> (#[trigger] r@[i]).bar < bars@.len(),
        forall|i: int, j: int| 0 <= i < j < r@.len() ==> (#[trigger] r@[i]).bar < (#[trigger] r@[j]).bar,
        forall|i: int|
            0 <= i < r@.len() && obs.dates@.len() > 0 ==> !before(
                bars@[(#[trigger] r@[i]).bar as int]@,
                obs.dates@[0]@,
            ),
        forall|k: int|
            0 <= k < bars@.len() && (obs.dates@.len() == 0 || !before((#[trigger] bars@[k])@, obs.dates@[0]@))
                ==> r@.map_values(|c: Candle| c.bar).contains(k as usize),
        forall|i: int|
            0 <= i < r@.len() && snaps@.contains_key(bars@[(#[trigger] r@[i]).bar as int]@)
                && snaps@[bars@[r@[i].bar as int]@].0.finite() ==> days.0[i]
                == snaps@[bars@[r@[i].bar as int]@].0,
        forall|i: int|
            0 <= i < r@.len() && snaps@.contains_key(bars@[(#[trigger] r@[i]).bar as int]@)
                && snaps@[bars@[r@[i].bar as int]@].1.finite() ==> days.1[i]
                == snaps@[bars@[r@[i].bar as int]@].1,
        forall|i: int| 0 <= i < r@.len() ==> (#[trigger] r@[i]).iv == days.1[i],
        forall|i: int|
            0 <= i < r@.len() ==> ((#[trigger] r@[i]).mark.sig <==> i >= 1 && closes@[r@[i - 1].bar as int].below(
                closes@[r@[i].bar as int],
            ) && days.1[i - 1].below(days.1[i]) && days.1[i - 1].finite() && days.1[i].finite()),
        forall|i: int|
            0 <= i < r@.len() && signals@.contains_key(bars@[(#[trigger] r@[i]).bar as int]@) ==> r@[i].mark.top
                == signals@[bars@[r@[i].bar as int]@].0 && r@[i].mark.bot
                == signals@[bars@[r@[i].bar as int]@].1,
        forall|i: int|
            0 <= i < r@.len() && !signals@.contains_key(bars@[(#[trigger] r@[i]).bar as int]@)
                ==> !r@[i].mark.top && !r@[i].mark.bot,
        forall|i: int|
            0 <= i < r@.len() ==> is_rank((#[trigger] r@[i]).skew_rank, days.0, i) && is_rank(
                r@[i].iv_rank,
                days.1,
                i,
            ),
        days == values_shown(bars@, obs, snaps@, r@.map_values(|c: Candle| c.bar)),
{
    let bv = views(bars@);
    let od = views(obs.dates@);
    let kept = shown(bv, od);
    let places = r@.map_values(|c: Candle| c.bar);
    let grid = taken(bv, kept);
    let f = |k: int| !before(bv[k], first_date(od));
    assert(bars.len() == bars@.len());
    law_pick(bv.len() as int, f);
    assert(kept == pick(bv.len() as int, f));
    let skew = day_values(obs.skew@, od, grid, snaps@, true);
    let iv = day_values(obs.iv@, od, grid, snaps@, false);
    assert(obs.dates@.len() > 0 ==> first_date(od) == obs.dates@[0]@);
    assert forall|i: int| 0 <= i < r@.len() implies (#[trigger] r@[i]).bar == kept[i] && kept[i] < bars@.len()
        && bv[kept[i] as int] == bars@[r@[i].bar as int]@ && grid[i] == bars@[r@[i].bar as int]@ && f(
        kept[i] as int,
    ) by {
        assert(places[i] == r@[i].bar);
    }
    assert forall|i: int, j: int| 0 <= i < j < r@.len() implies (#[trigger] r@[i]).bar < (
    #[trigger] r@[j]).bar by {
        assert(kept[i] < kept[j]);
    }
    assert forall|k: int|
        0 <= k < bars@.len() && (obs.dates@.len() == 0 || !before((#[trigger] bars@[k])@, obs.dates@[0]@))
        implies places.contains(k as usize) by {
        assert(bv[k] == bars@[k]@);
        assert(f(k));
        assert(kept.contains(k as usize));
    }
    assert forall|i: int| 0 <= i < r@.len() implies is_candle(
        #[trigger] r@[i],
        grid,
        taken(closes@, kept),
        skew,
        iv,
        signals@,
        i,
    ) by {}
    assert forall|i: int| 0 <= i < r@.len() implies ((#[trigger] r@[i]).mark.sig <==> i >= 1
        && closes@[r@[i - 1].bar as int].below(closes@[r@[i].bar as int]) && iv[i - 1].below(iv[i])
        && iv[i - 1].finite() && iv[i].finite()) by {
        assert(is_candle(r@[i], grid, taken(closes@, kept), skew, iv, signals@, i));
        assert(taken(closes@, kept)[i] == closes@[r@[i].bar as int]);
        if i >= 1 {
            assert(r@[i - 1].bar == kept[i - 1]);
            assert(taken(closes@, kept)[i - 1] == closes@[r@[i - 1].bar as int]);
        }
    }
    (skew, iv)
}

/// The skew and the volatility of the days of some bars: those of the observations, with
/// the snapshots over them.
pub open spec fn values_shown(
    bars: Seq<String>,
    obs: Observed,
    snaps: Map<Seq<char>, (Num, Num)>,
    places: Seq<usize>,
) -> (Seq<Num>, Seq<Num>) {
    (
        day_values(obs.skew@, views(obs.dates@), taken(views(bars), places), snaps, true),
        day_values(obs.iv@, views(obs.dates@), taken(views(bars), places), snaps, false),
    )
}

/// Where bars and observations are in the order of dates, a bar without a finite value in
/// the snapshot of its date has those of the last observation that is not dated later.
pub proof fn law_days_carry_observations(
    bars: Vec<String>,
    closes: Vec<Num>,
    obs: Observed,
    snaps: Table<(Num, Num)>,
    signals: Table<(bool, bool)>,
    r: Vec<Candle>,
    i: int,
    p: int,
) -> (days: (Seq<Num>, Seq<Num>))
    requires
        bars@.len() == closes@.len(),
        obs.dates@.len() == obs.skew@.len() == obs.iv@.len(),
        call_ensures(build_ohlc, (&bars, &closes, &obs, &snaps, &signals), r),
        in_order(views(bars@)),
        in_order(views(obs.dates@)),
        0 <= i < r@.len(),
        0 <= p < obs.dates@.len(),
        !before(bars@[r@[i].bar as int]@, obs.dates@[p]@),
        p + 1 < obs.dates@.len() ==> before(bars@[r@[i].bar as int]@, obs.dates@[p + 1]@),
    ensures
        days == values_shown(bars@, obs, snaps@, r@.map_values(|c: Candle| c.bar)),
        !(snaps@.contains_key(bars@[r@[i].bar as int]@) && snaps@[bars@[r@[i].bar as int]@].0.finite())
            ==> days.0[i] == obs.skew@[p],
        !(snaps@.contains_key(bars@[r@[i].bar as int]@) && snaps@[bars@[r@[i].bar as int]@].1.finite())
            ==> days.1[i] == obs.iv@[p] && r@[i].iv == obs.iv@[p],
{
    let days = law_candles(bars, closes, obs, snaps, signals, r);
    let places = r@.map_values(|c: Candle| c.bar);
    let (bv, od) = (views(bars@), views(obs.dates@));
    let grid = taken(bv, places);
    assert forall|k: int| 0 <= k < places.len() implies #[trigger] places[k] < bv.len() by {
        assert(places[k] == r@[k].bar);
    }
    assert forall|j: int, k: int| 0 <= j < k < places.len() implies #[trigger] places[j]
        < #[trigger] places[k] by {
        assert(places[j] == r@[j].bar && places[k] == r@[k].bar);
    }
    lemma_taken_in_order(bv, places);
    assert(places[i] == r@[i].bar);
    assert(grid[i] == bars@[r@[i].bar as int]@);
    assert(od[p] == obs.dates@[p]@);
    if p + 1 < obs.dates@.len() {
        assert(od[p + 1] == obs.dates@[p + 1]@);
    }
    lemma_last_value(obs.skew@, od, grid, i, p);
    lemma_last_value(obs.iv@, od, grid, i, p);
    assert(r@[i].iv == days.1[i]);
    days
}

/// The standing of a bar counts the bars of a year of 252 that end with it: those with a
/// finite value, and of them those at most as great. It is given exactly where the bar has
/// a finite value and another of those bars has one.
pub proof fn law_rank(rank: Option<(usize, usize)>, vals: Seq<Num>, i: int)
    requires
        is_rank(rank, vals, i),
        0 <= i < vals.len(),
    ensures
        rank matches Some((c, t)) ==> c == Set::new(
            |j: int| 0 <= j <= i && i < j + 252 && vals[j].finite() && vals[j].at_most(vals[i]),
        ).len() && t == Set::new(|j: int| 0 <= j <= i && i < j + 252 && vals[j].finite()).len(),
        rank is Some <==> vals[i].finite() && exists|j: int|
            0 <= j < i && i < j + 252 && (#[trigger] vals[j]).finite(),
{
    law_standing_counts(vals, 252, i);
}

proof fn lemma_nothing_met(obs: Seq<Seq<char>>, grid: Seq<Seq<char>>, i: int)
    requires
        obs.len() == 0,
        -1 <= i < grid.len(),
    ensures
        met(obs, grid, i) == 0,
    decreases i + 1,
{
    if i >= 0 {
        lemma_nothing_met(obs, grid, i - 1);
    }
}

/// Without observations all bars are shown, and a bar has no values but those of its
/// snapshot.
pub proof fn law_days_without_observations(
    bars: Vec<String>,
    closes: Vec<Num>,
    obs: Observed,
    snaps: Table<(Num, Num)>,
    signals: Table<(bool, bool)>,
    r: Vec<Candle>,
    i: int,
) -> (days: (Seq<Num>, Seq<Num>))
    requires
        bars@.len() == closes@.len(),
        obs.dates@.len() == obs.skew@.len() == obs.iv@.len() == 0,
        call_ensures(build_ohlc, (&bars, &closes, &obs, &snaps, &signals), r),
        0 <= i < r@.len(),
    ensures
        days == values_shown(bars@, obs, snaps@, r@.map_values(|c: Candle| c.bar)),
        !(snaps@.contains_key(bars@[r@[i].bar as int]@) && snaps@[bars@[r@[i].bar as int]@].0.finite())
            ==> days.0[i].nan(),
        !(snaps@.contains_key(bars@[r@[i].bar as int]@) && snaps@[bars@[r@[i].bar as int]@].1.finite())
            ==> days.1[i].nan() && r@[i].iv.nan(),
{
    let days = law_candles(bars, closes, obs, snaps, signals, r);
    let places = r@.map_values(|c: Candle| c.bar);
    let (bv, od) = (views(bars@), views(obs.dates@));
    let grid = taken(bv, places);
    assert(r@[i].bar < bars@.len());
    assert(places[i] == r@[i].bar);
    assert(grid[i] == bars@[r@[i].bar as int]@);
    lemma_nothing_met(od, grid, i);
    assert(r@[i].iv == days.1[i]);
    days
}

} // verus!

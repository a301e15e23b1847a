//! Dated observations on a grid of dates.

use crate::num::Num;
use crate::text::{before, is_before, law_before_is_total_order, views};
use vstd::prelude::*;

verus! {

/// The first observation, from `j` on, that is dated later than `date`.
pub open spec fn passed(obs: Seq<Seq<char>>, date: Seq<char>, j: int) -> int
    decreases obs.len() - j,
{
    if 0 <= j < obs.len() && !before(date, obs[j]) {
        passed(obs, date, j + 1)
    } else {
        j
    }
}

/// How many observations have been met when the walk over the grid is at date `i`:
/// none before the walk, and at each date those from there on that are not later.
pub open spec fn met(obs: Seq<Seq<char>>, grid: Seq<Seq<char>>, i: int) -> int
    decreases i + 1,
{
    if i < 0 {
        0
    } else {
        passed(obs, grid[i], met(obs, grid, i - 1))
    }
}

/// Whether `place` is the last observation met at date `i` of the grid.
pub open spec fn is_last_met(place: Option<usize>, obs: Seq<Seq<char>>, grid: Seq<Seq<char>>, i: int) -> bool {
    match place {
        Some(p) => p + 1 == met(obs, grid, i),
        None => met(obs, grid, i) == 0,
    }
}

/// The last observation met at each date of the grid, nothing before the first.
pub fn as_of(obs: &Vec<String>, grid: &Vec<String>) -> (r: Vec<Option<usize>>)
    ensures
        r@.len() == grid@.len(),
        forall|i: int|
            0 <= i < r@.len() ==> is_last_met(#[trigger] r@[i], views(obs@), views(grid@), i) && (r@[i]
                matches Some(p) ==> p < obs@.len()),
{
    let ghost o = views(obs@);
    let ghost g = views(grid@);
    let mut out: Vec<Option<usize>> = Vec::new();
    let mut j: usize = 0;
    let mut i: usize = 0;
    while i < grid.len()
        invariant
            o == views(obs@),
            g == views(grid@),
            i <= grid@.len(),
            j <= obs@.len(),
            j == met(o, g, i - 1),
            out@.len() == i,
            forall|k: int|
                0 <= k < i ==> is_last_met(#[trigger] out@[k], o, g, k) && (out@[k] matches Some(p) ==> p
                    < obs@.len()),
        decreases grid@.len() - i,
    {
        while j < obs.len() && !is_before(grid[i].as_str(), obs[j].as_str())
            invariant
                o == views(obs@),
                g == views(grid@),
                i < grid@.len(),
                j <= obs@.len(),
                passed(o, g[i as int], j as int) == met(o, g, i as int),
            decreases obs@.len() - j,
        {
            j = j + 1;
        }
        out.push(if j > 0 { Some(j - 1) } else { None });
        i = i + 1;
    }
    out
}

/// Whether the dates ascend, where equal ones may follow each other.
pub open spec fn in_order(dates: Seq<Seq<char>>) -> bool {
    forall|i: int, j: int| 0 <= i <= j < dates.len() ==> !before(#[trigger] dates[j], #[trigger] dates[i])
}

proof fn lemma_passed_in_order(obs: Seq<Seq<char>>, date: Seq<char>, j: int)
    requires
        in_order(obs),
        0 <= j <= obs.len(),
        forall|k: int| 0 <= k < j ==> !before(date, #[trigger] obs[k]),
    ensures
        j <= passed(obs, date, j) <= obs.len(),
        forall|k: int|
            0 <= k < obs.len() ==> (k < passed(obs, date, j) <==> !before(date, #[trigger] obs[k])),
    decreases obs.len() - j,
{
    if j < obs.len() && !before(date, obs[j]) {
        lemma_passed_in_order(obs, date, j + 1);
    } else if j < obs.len() {
        assert forall|k: int| j <= k < obs.len() implies before(date, #[trigger] obs[k]) by {
            assert(!before(obs[k], obs[j]));
            law_before_is_total_order(date, obs[j], obs[k]);
            law_before_is_total_order(obs[j], obs[k], obs[k]);
        }
    }
}

/// Where both run in the order of dates, what is met at a date are exactly the
/// observations dated then or earlier: no value is used before its day, and none is
/// left out.
pub proof fn law_as_of(obs: Seq<Seq<char>>, grid: Seq<Seq<char>>, i: int)
    requires
        in_order(obs),
        in_order(grid),
        0 <= i < grid.len(),
    ensures
        0 <= met(obs, grid, i) <= obs.len(),
        forall|k: int|
            0 <= k < obs.len() ==> (k < met(obs, grid, i) <==> !before(grid[i], #[trigger] obs[k])),
    decreases i,
{
    let j = met(obs, grid, i - 1);
    if i > 0 {
        law_as_of(obs, grid, i - 1);
        assert forall|k: int| 0 <= k < j implies !before(grid[i], #[trigger] obs[k]) by {
            assert(!before(grid[i - 1], obs[k]));
            assert(!before(grid[i], grid[i - 1]));
            law_before_is_total_order(grid[i - 1], grid[i], obs[k]);
            law_before_is_total_order(grid[i], obs[k], grid[i - 1]);
        }
    }
    lemma_passed_in_order(obs, grid[i], j);
}

/// The values of the observations on the grid, `missing` where none is met.
pub open spec fn filled(values: Seq<Num>, places: Seq<Option<usize>>, missing: Num) -> Seq<Num> {
    places.map_values(
        |p: Option<usize>|
            match p {
                Some(k) => values[k as int],
                None => missing,
            },
    )
}

/// The values of the observations on the grid, `missing` where none is met.
pub fn fill(values: &Vec<Num>, places: &Vec<Option<usize>>, missing: Num) -> (r: Vec<Num>)
    requires
        forall|i: int| 0 <= i < places@.len() ==> (#[trigger] places@[i] matches Some(p) ==> p < values@.len()),
    ensures
        r@ == filled(values@, places@, missing),
{
    let mut out: Vec<Num> = Vec::new();
    let mut i: usize = 0;
    while i < places.len()
        invariant
            forall|k: int|
                0 <= k < places@.len() ==> (#[trigger] places@[k] matches Some(p) ==> p < values@.len()),
            i <= places@.len(),
            out@ == filled(values@, places@, missing).take(i as int),
        decreases places@.len() - i,
    {
        let x: Num = match places[i] {
            Some(k) => values[k],
            None => missing,
        };
        out.push(x);
        assert(out@ =~= filled(values@, places@, missing).take(i + 1));
        i = i + 1;
    }
    assert(filled(values@, places@, missing).take(places@.len() as int) =~= filled(
        values@,
        places@,
        missing,
    ));
    out
}

/// Whether price and volatility at place `i` are both above those `back` places
/// earlier, with both volatilities finite.
pub open spec fn is_spot_up_vol_up(closes: Seq<Num>, ivs: Seq<Num>, i: int, back: int) -> bool {
    i >= back && ivs[i].finite() && ivs[i - back].finite() && closes[i - back].below(closes[i])
        && ivs[i - back].below(ivs[i])
}

/// Whether price and volatility rose together over the last `back` places.
pub fn spot_up_vol_up(closes: &Vec<Num>, ivs: &Vec<Num>, i: usize, back: usize) -> (r: bool)
    requires
        i < closes@.len(),
        i < ivs@.len(),
    ensures
        r == is_spot_up_vol_up(closes@, ivs@, i as int, back as int),
{
    i >= back && ivs[i].is_finite() && ivs[i - back].is_finite() && closes[i - back].lt(closes[i])
        && ivs[i - back].lt(ivs[i])
}

/// Where observations and grid run in the order of dates, the place at a date of the grid
/// is the last observation that is not dated later; there is none exactly where all
/// observations are dated later.
pub proof fn law_place_at_date(obs: Vec<String>, grid: Vec<String>, r: Vec<Option<usize>>, i: int)
    requires
        call_ensures(as_of, (&obs, &grid), r),
        in_order(views(obs@)),
        in_order(views(grid@)),
        0 <= i < grid@.len(),
    ensures
        r@.len() == grid@.len(),
        r@[i] is None <==> forall|k: int| 0 <= k < obs@.len() ==> before(grid@[i]@, (#[trigger] obs@[k])@),
        r@[i] matches Some(p) ==> p < obs@.len() && !before(grid@[i]@, obs@[p as int]@) && forall|k: int|
            p < k < obs@.len() ==> before(grid@[i]@, (#[trigger] obs@[k])@),
{
    let o = views(obs@);
    let g = views(grid@);
    law_as_of(o, g, i);
    assert(is_last_met(r@[i], o, g, i));
    assert forall|k: int| 0 <= k < obs@.len() implies (before(grid@[i]@, (#[trigger] obs@[k])@) <==> k >= met(
        o,
        g,
        i,
    )) by {
        assert(o[k] == obs@[k]@ && g[i] == grid@[i]@);
    }
    if r@[i] is None {
    } else {
        let p = r@[i]->0 as int;
        assert(!before(grid@[i]@, obs@[p]@));
    }
}

/// Whatever the order, a place is never one that the walk has not met: every later place on
/// the grid is at or behind it.
pub proof fn law_places_ascend(obs: Vec<String>, grid: Vec<String>, r: Vec<Option<usize>>, i: int, j: int)
    requires
        call_ensures(as_of, (&obs, &grid), r),
        0 <= i <= j < grid@.len(),
    ensures
        r@[i] matches Some(p) ==> (r@[j] matches Some(q) && p <= q && q < obs@.len()),
{
    lemma_met_ascends(views(obs@), views(grid@), i, j);
    assert(is_last_met(r@[i], views(obs@), views(grid@), i));
    assert(is_last_met(r@[j], views(obs@), views(grid@), j));
}

proof fn lemma_passed_ascends(obs: Seq<Seq<char>>, date: Seq<char>, j: int)
    ensures
        j <= passed(obs, date, j),
    decreases obs.len() - j,
{
    if 0 <= j < obs.len() && !before(date, obs[j]) {
        lemma_passed_ascends(obs, date, j + 1);
    }
}

proof fn lemma_met_ascends(obs: Seq<Seq<char>>, grid: Seq<Seq<char>>, i: int, j: int)
    requires
        0 <= i <= j,
    ensures
        met(obs, grid, i) <= met(obs, grid, j),
    decreases j,
{
    if i < j {
        lemma_met_ascends(obs, grid, i, j - 1);
        lemma_passed_ascends(obs, grid[j], met(obs, grid, j - 1));
    }
}

/// Each place on the grid takes the value at its own place, or `missing`.
pub proof fn law_fill(values: Vec<Num>, places: Vec<Option<usize>>, missing: Num, r: Vec<Num>, i: int)
    requires
        call_ensures(fill, (&values, &places, missing), r),
        0 <= i < places@.len(),
    ensures
        r@.len() == places@.len(),
        places@[i] matches Some(k) ==> r@[i] == values@[k as int],
        places@[i] is None ==> r@[i] == missing,
{
}

/// Spot and volatility are up together exactly where each is above its value `back` places
/// before, and both volatilities are finite; never where there are fewer places.
pub proof fn law_spot_up_vol_up(closes: Vec<Num>, ivs: Vec<Num>, i: usize, back: usize, r: bool)
    requires
        i < closes@.len(),
        i < ivs@.len(),
        call_ensures(spot_up_vol_up, (&closes, &ivs, i, back), r),
    ensures
        i < back ==> !r,
        i >= back ==> (r <==> closes@[i - back].below(closes@[i as int]) && ivs@[i - back].below(
            ivs@[i as int],
        ) && ivs@[i as int].finite() && ivs@[i - back].finite()),
{
}

proof fn lemma_passed_walks(obs: Seq<Seq<char>>, date: Seq<char>, j: int)
    requires
        0 <= j <= obs.len(),
    ensures
        j <= passed(obs, date, j) <= obs.len(),
        forall|k: int| j <= k < passed(obs, date, j) ==> !before(date, #[trigger] obs[k]),
        passed(obs, date, j) < obs.len() ==> before(date, obs[passed(obs, date, j)]),
    decreases obs.len() - j,
{
    if j < obs.len() && !before(date, obs[j]) {
        lemma_passed_walks(obs, date, j + 1);
    }
}

proof fn lemma_met_within(obs: Seq<Seq<char>>, grid: Seq<Seq<char>>, i: int)
    requires
        -1 <= i < grid.len(),
    ensures
        0 <= met(obs, grid, i) <= obs.len(),
    decreases i + 1,
{
    if i >= 0 {
        lemma_met_within(obs, grid, i - 1);
        lemma_passed_walks(obs, grid[i], met(obs, grid, i - 1));
    }
}

/// Whatever the order of the dates, the walk over the observations goes on at a date of the
/// grid from where it was: past all that are not dated later, and up to the first that is.
pub proof fn law_walk(obs: Vec<String>, grid: Vec<String>, r: Vec<Option<usize>>, i: int)
    requires
        call_ensures(as_of, (&obs, &grid), r),
        0 <= i < grid@.len(),
    ensures
        ({
            let from = if i > 0 && r@[i - 1] is Some {
                r@[i - 1]->0 + 1
            } else {
                0
            };
            let to = if r@[i] is Some {
                r@[i]->0 + 1
            } else {
                0
            };
            &&& from <= to <= obs@.len()
            &&& forall|k: int| from <= k < to ==> !before(grid@[i]@, (#[trigger] obs@[k])@)
            &&& to < obs@.len() ==> before(grid@[i]@, obs@[to]@)
        }),
{
    let o = views(obs@);
    let g = views(grid@);
    let j = met(o, g, i - 1);
    lemma_met_within(o, g, i - 1);
    lemma_passed_walks(o, g[i], j);
    assert(is_last_met(r@[i], o, g, i));
    if i > 0 {
        assert(is_last_met(r@[i - 1], o, g, i - 1));
    } else {
        assert(met(o, g, -1) == 0);
    }
    assert(g[i] == grid@[i]@);
    let to = passed(o, g[i], j);
    assert forall|k: int| j <= k < to implies !before(grid@[i]@, (#[trigger] obs@[k])@) by {
        assert(o[k] == obs@[k]@);
    }
    if to < obs@.len() {
        assert(o[to] == obs@[to]@);
    }
}

} // verus!

//! The long-option backtest: on which days a signal trades, and which way.
//!
//! On a signal day an option of 30 days is bought and held to expiry. Premiums and
//! payoffs are calculated outside.

use crate::num::{Num, ZERO};
use crate::pick::{law_pick, pick};
use crate::table::{index_of, law_last_place, locates, place_of, Table};
use crate::text::views;
use vstd::prelude::*;

verus! {

/// The trading days to expiry.
pub const HOLD_TD: usize = 21;

/// The trading days of the average that tells the trend.
pub const MA_WIN: usize = 100;

/// Volatility is cheap up to this percentile: 30.
pub const IV_PCT_LOW: u64 = 0x403e_0000_0000_0000;

/// The skew is steep from this percentile on: 80.
pub const SKEW_PCT_HI: u64 = 0x4054_0000_0000_0000;

/// The skew is flat up to this percentile: 20.
pub const SKEW_PCT_LO: u64 = 0x4034_0000_0000_0000;

/// A premium is worth paying above 0.000001.
pub const PREMIUM_MIN: u64 = 0x3eb0_c6f7_a0b5_ed8d;

/// One day of the skew series: its volatilities, and the percentiles of the volatility
/// at the money and of the skew.
#[derive(Clone, Copy, Debug, PartialEq, Eq, Structural)]
pub struct Day {
    pub iv_25p: Num,
    pub iv_25c: Num,
    pub iv_atm: Num,
    pub iv_pct: Num,
    pub skew_pct: Num,
}

/// One day on which a trade can be made: its place in the price series, the prices then
/// and at expiry, the volatilities, the percentiles, and whether the price is above
/// its average.
#[derive(Clone, Copy, Debug, PartialEq, Eq, Structural)]
pub struct Decision {
    pub pidx: usize,
    pub s_entry: Num,
    pub s_exit: Num,
    pub iv_atm: Num,
    pub iv_25p: Num,
    pub iv_25c: Num,
    pub iv_pct: Num,
    pub skew_pct: Num,
    pub uptrend: bool,
}

/// The first day of the average that ends on day `i`, where there are enough.
pub fn average_from(i: usize) -> (r: Option<usize>)
    ensures
        match r {
            Some(from) => from + MA_WIN == i + 1,
            None => i + 1 < MA_WIN,
        },
{
    if i >= MA_WIN - 1 {
        Some(i - (MA_WIN - 1))
    } else {
        None
    }
}

/// Whether all numbers of a day are finite.
pub open spec fn is_complete(d: Day) -> bool {
    d.iv_pct.finite() && d.skew_pct.finite() && d.iv_atm.finite() && d.iv_25p.finite()
        && d.iv_25c.finite()
}

/// The decision that a day of the skew series allows: it is a day of the price series,
/// early enough to be held to expiry, and all numbers are there.
pub open spec fn decision_of(
    date: Seq<char>,
    d: Day,
    dates: Seq<Seq<char>>,
    closes: Seq<Num>,
    ma: Seq<Num>,
) -> Option<Decision> {
    match place_of(dates, date) {
        Some(p) => if p + HOLD_TD < closes.len() && is_complete(d) && ma[p].finite() {
            Some(
                Decision {
                    pidx: p as usize,
                    s_entry: closes[p],
                    s_exit: closes[p + HOLD_TD],
                    iv_atm: d.iv_atm,
                    iv_25p: d.iv_25p,
                    iv_25c: d.iv_25c,
                    iv_pct: d.iv_pct,
                    skew_pct: d.skew_pct,
                    uptrend: ma[p].below(closes[p]),
                },
            )
        } else {
            None
        },
        None => None,
    }
}

/// The decisions that the first `n` days allow, in order.
pub open spec fn decisions_upto(
    sdates: Seq<Seq<char>>,
    days: Seq<Day>,
    dates: Seq<Seq<char>>,
    closes: Seq<Num>,
    ma: Seq<Num>,
    n: int,
) -> Seq<Decision>
    decreases n,
{
    if n <= 0 {
        Seq::empty()
    } else {
        let front = decisions_upto(sdates, days, dates, closes, ma, n - 1);
        match decision_of(sdates[n - 1], days[n - 1], dates, closes, ma) {
            Some(d) => front.push(d),
            None => front,
        }
    }
}

/// The days of the skew series on which a trade can be made.
pub fn decisions(
    sdates: &Vec<String>,
    days: &Vec<Day>,
    dates: &Vec<String>,
    closes: &Vec<Num>,
    ma: &Vec<Num>,
) -> (r: Vec<Decision>)
    requires
        sdates@.len() == days@.len(),
        dates@.len() == closes@.len() == ma@.len(),
    ensures
        r@ == decisions_upto(
            views(sdates@),
            days@,
            views(dates@),
            closes@,
            ma@,
            days@.len() as int,
        ),
{
    let index: Table<usize> = index_of(dates);
    let n: usize = closes.len();
    let mut out: Vec<Decision> = Vec::new();
    let mut k: usize = 0;
    while k < days.len()
        invariant
            k <= days@.len() == sdates@.len(),
            n == closes@.len(),
            dates@.len() == closes@.len() == ma@.len(),
            forall|key: Seq<char>| #[trigger] locates(index@, views(dates@), key),
            out@ == decisions_upto(
                views(sdates@),
                days@,
                views(dates@),
                closes@,
                ma@,
                k as int,
            ),
        decreases days@.len() - k,
    {
        let ghost date = views(sdates@)[k as int];
        assert(date == sdates@[k as int]@);
        assert(locates(index@, views(dates@), date));
        let d: Day = days[k];
        match index.get(sdates[k].as_str()) {
            Some(found) => {
                let p: usize = *found;
                if n - p > HOLD_TD && d.iv_pct.is_finite() && d.skew_pct.is_finite()
                    && d.iv_atm.is_finite() && d.iv_25p.is_finite() && d.iv_25c.is_finite()
                    && ma[p].is_finite() {
                    out.push(
                        Decision {
                            pidx: p,
                            s_entry: closes[p],
                            s_exit: closes[p + HOLD_TD],
                            iv_atm: d.iv_atm,
                            iv_25p: d.iv_25p,
                            iv_25c: d.iv_25c,
                            iv_pct: d.iv_pct,
                            skew_pct: d.skew_pct,
                            uptrend: ma[p].lt(closes[p]),
                        },
                    );
                }
            },
            None => {},
        }
        k = k + 1;
    }
    out
}

/// Whether a decision can be held to expiry and all its numbers are there.
pub open spec fn can_be_held(d: Decision, closes: Seq<Num>) -> bool {
    &&& d.pidx + HOLD_TD < closes.len()
    &&& d.s_entry == closes[d.pidx as int]
    &&& d.s_exit == closes[d.pidx + HOLD_TD]
    &&& d.iv_atm.finite() && d.iv_25p.finite() && d.iv_25c.finite()
    &&& d.iv_pct.finite() && d.skew_pct.finite()
}

/// Every decision can be held to expiry, and is of a complete day.
pub proof fn law_decisions_can_be_held(
    sdates: Seq<Seq<char>>,
    days: Seq<Day>,
    dates: Seq<Seq<char>>,
    closes: Seq<Num>,
    ma: Seq<Num>,
    n: int,
)
    requires
        0 <= n <= days.len(),
        sdates.len() == days.len(),
        dates.len() == closes.len() == ma.len(),
        closes.len() <= usize::MAX,
    ensures
        forall|i: int|
            0 <= i < decisions_upto(sdates, days, dates, closes, ma, n).len() ==> can_be_held(
                #[trigger] decisions_upto(sdates, days, dates, closes, ma, n)[i],
                closes,
            ),
    decreases n,
{
    if n > 0 {
        law_decisions_can_be_held(sdates, days, dates, closes, ma, n - 1);
        law_last_place(dates, sdates[n - 1]);
        let front = decisions_upto(sdates, days, dates, closes, ma, n - 1);
        let all = decisions_upto(sdates, days, dates, closes, ma, n);
        assert forall|i: int| 0 <= i < all.len() implies can_be_held(#[trigger] all[i], closes) by {
            if i < front.len() {
                assert(all[i] == front[i]);
            } else {
                let p = place_of(dates, sdates[n - 1])->0;
                assert(all[i].pidx == p);
            }
        }
    }
}

/// What tells a trade.
#[derive(Clone, Copy, Debug, PartialEq, Eq, Structural)]
pub enum Signal {
    /// Volatility is cheap: the way the trend goes.
    CheapVol,
    /// The skew is at an extreme: against it.
    SkewContrarian,
    /// Always a call.
    AlwaysCall,
    /// Always a put.
    AlwaysPut,
}

/// Whether a signal trades, and then whether it buys a call.
pub open spec fn side(signal: Signal, d: Decision) -> Option<bool> {
    match signal {
        Signal::CheapVol => if d.iv_pct.at_most(Num { bits: IV_PCT_LOW }) {
            Some(d.uptrend)
        } else {
            None
        },
        Signal::SkewContrarian => if (Num { bits: SKEW_PCT_HI }).at_most(d.skew_pct) {
            Some(true)
        } else if d.skew_pct.at_most(Num { bits: SKEW_PCT_LO }) {
            Some(false)
        } else {
            None
        },
        Signal::AlwaysCall => Some(true),
        Signal::AlwaysPut => Some(false),
    }
}

/// Whether a signal trades, and then whether it buys a call.
pub fn decide(signal: Signal, d: &Decision) -> (r: Option<bool>)
    ensures
        r == side(signal, *d),
{
    match signal {
        Signal::CheapVol => if d.iv_pct.le(Num::new(IV_PCT_LOW)) {
            Some(d.uptrend)
        } else {
            None
        },
        Signal::SkewContrarian => if Num::new(SKEW_PCT_HI).le(d.skew_pct) {
            Some(true)
        } else if d.skew_pct.le(Num::new(SKEW_PCT_LO)) {
            Some(false)
        } else {
            None
        },
        Signal::AlwaysCall => Some(true),
        Signal::AlwaysPut => Some(false),
    }
}

/// Which option is bought.
#[derive(Clone, Copy, Debug, PartialEq, Eq, Structural)]
pub enum Strike {
    /// At the money.
    Atm,
    /// Out of the money, at 25 delta.
    Otm25,
}

/// The volatility that prices an option: that at the money, or that of its wing.
pub open spec fn priced_at(strike: Strike, is_call: bool, d: Decision) -> Num {
    match (strike, is_call) {
        (Strike::Atm, _) => d.iv_atm,
        (Strike::Otm25, true) => d.iv_25c,
        (Strike::Otm25, false) => d.iv_25p,
    }
}

/// The volatility that prices an option: that at the money, or that of its wing.
pub fn volatility(strike: Strike, is_call: bool, d: &Decision) -> (r: Num)
    ensures
        r == priced_at(strike, is_call, *d),
{
    match strike {
        Strike::Atm => d.iv_atm,
        Strike::Otm25 => if is_call {
            d.iv_25c
        } else {
            d.iv_25p
        },
    }
}

/// Finite and above zero.
pub open spec fn is_positive(x: Num) -> bool {
    x.finite() && (Num { bits: ZERO }).below(x)
}

/// Whether an option can be priced: volatility and strike are finite and positive.
pub fn can_price(sigma: Num, k: Num) -> (r: bool)
    ensures
        r == (is_positive(sigma) && is_positive(k)),
{
    sigma.is_finite() && Num::new(ZERO).lt(sigma) && k.is_finite() && Num::new(ZERO).lt(k)
}

/// Whether a premium is left out: it is next to nothing.
pub fn too_cheap(premium: Num) -> (r: bool)
    ensures
        r == premium.at_most(Num { bits: PREMIUM_MIN }),
{
    premium.le(Num::new(PREMIUM_MIN))
}

/// Whether a signal buys an option on a day: it trades, the option can be priced, and its
/// premium is not next to nothing.
pub open spec fn is_trade(d: Decision, signal: Signal, strike: Strike, k: Num, premium: Num) -> bool {
    match side(signal, d) {
        Some(is_call) => is_positive(priced_at(strike, is_call, d)) && is_positive(k)
            && !premium.at_most(Num { bits: PREMIUM_MIN }),
        None => false,
    }
}

/// The days on which a signal buys an option, in order; `ks` and `premiums` are the strike
/// and the premium of the option of each day, where the signal trades.
pub fn trades(
    ds: &Vec<Decision>,
    signal: Signal,
    strike: Strike,
    ks: &Vec<Num>,
    premiums: &Vec<Num>,
) -> (r: Vec<usize>)
    requires
        ds@.len() == ks@.len() == premiums@.len(),
    ensures
        r@ == pick(
            ds@.len() as int,
            |i: int| is_trade(ds@[i], signal, strike, ks@[i], premiums@[i]),
        ),
{
    let ghost chosen = |i: int| is_trade(ds@[i], signal, strike, ks@[i], premiums@[i]);
    let mut out: Vec<usize> = Vec::new();
    let mut i: usize = 0;
    while i < ds.len()
        invariant
            i <= ds@.len() == ks@.len() == premiums@.len(),
            chosen == (|i: int| is_trade(ds@[i], signal, strike, ks@[i], premiums@[i])),
            out@ == pick(i as int, chosen),
        decreases ds@.len() - i,
    {
        match decide(signal, &ds[i]) {
            Some(is_call) => {
                if can_price(volatility(strike, is_call, &ds[i]), ks[i]) && !too_cheap(premiums[i]) {
                    out.push(i);
                }
            },
            None => {},
        }
        i = i + 1;
    }
    out
}

/// The benchmarks always trade, one each way; the skew signal buys calls only where the
/// skew is steep and puts only where it is flat, and no percentile is both.
pub proof fn law_signals(d: Decision)
    ensures
        side(Signal::AlwaysCall, d) == Some(true),
        side(Signal::AlwaysPut, d) == Some(false),
        side(Signal::SkewContrarian, d) == Some(true) <==> (Num { bits: SKEW_PCT_HI }).at_most(d.skew_pct),
        side(Signal::SkewContrarian, d) == Some(false) <==> d.skew_pct.at_most(Num { bits: SKEW_PCT_LO }),
        side(Signal::CheapVol, d) is Some <==> d.iv_pct.at_most(Num { bits: IV_PCT_LOW }),
{
}

/// The average that ends on a day takes in a hundred days, that day the last.
pub proof fn law_average(i: usize, r: Option<usize>)
    requires
        call_ensures(average_from, (i,), r),
    ensures
        r is Some <==> i >= 99,
        r matches Some(from) ==> i - from == 99,
{
}

/// The decisions of the first days, with the day that each comes from.
proof fn lemma_decision_days(
    sdates: Seq<Seq<char>>,
    days: Seq<Day>,
    dates: Seq<Seq<char>>,
    closes: Seq<Num>,
    ma: Seq<Num>,
    n: int,
) -> (from: Seq<int>)
    requires
        0 <= n <= days.len(),
    ensures
        from.len() == decisions_upto(sdates, days, dates, closes, ma, n).len(),
        forall|k: int| 0 <= k < from.len() ==> 0 <= #[trigger] from[k] < n,
        forall|j: int, k: int| 0 <= j < k < from.len() ==> #[trigger] from[j] < #[trigger] from[k],
        forall|k: int|
            0 <= k < from.len() ==> decision_of(
                sdates[#[trigger] from[k]],
                days[from[k]],
                dates,
                closes,
                ma,
            ) == Some(decisions_upto(sdates, days, dates, closes, ma, n)[k]),
        forall|i: int|
            0 <= i < n && decision_of(sdates[i], #[trigger] days[i], dates, closes, ma) is Some
                ==> from.contains(i),
    decreases n,
{
    if n <= 0 {
        Seq::empty()
    } else {
        let front = lemma_decision_days(sdates, days, dates, closes, ma, n - 1);
        if decision_of(sdates[n - 1], days[n - 1], dates, closes, ma) is Some {
            let from = front.push(n - 1);
            assert forall|i: int|
                0 <= i < n && decision_of(sdates[i], #[trigger] days[i], dates, closes, ma) is Some
                implies from.contains(i) by {
                if i < n - 1 {
                    let k = choose|k: int| 0 <= k < front.len() && front[k] == i;
                    assert(from[k] == i);
                } else {
                    assert(from[front.len() as int] == i);
                }
            }
            from
        } else {
            front
        }
    }
}

/// Each decision comes from a day of the skew series, in their order: its place is the last
/// one in the price series with the date of that day, its volatilities and percentiles
/// are those of that day, it is entered at the close of its place and left 21 closes
/// later, and the trend is up exactly where the average at its own place is below the
/// close there. No day is passed over that has such a place, an average there, 21 closes
/// to come, and finite numbers.
pub proof fn law_decisions_of_days(
    sdates: Vec<String>,
    days: Vec<Day>,
    dates: Vec<String>,
    closes: Vec<Num>,
    ma: Vec<Num>,
    r: Vec<Decision>,
) -> (from: Seq<int>)
    requires
        sdates@.len() == days@.len(),
        dates@.len() == closes@.len() == ma@.len(),
        call_ensures(decisions, (&sdates, &days, &dates, &closes, &ma), r),
    ensures
        from.len() == r@.len(),
        forall|k: int| 0 <= k < from.len() ==> 0 <= #[trigger] from[k] < days@.len(),
        forall|j: int, k: int| 0 <= j < k < from.len() ==> #[trigger] from[j] < #[trigger] from[k],
        forall|k: int|
            0 <= k < from.len() ==> 0 <= #[trigger] from[k] && r@[k].pidx + 21 < closes@.len()
                && dates@[r@[k].pidx as int]@ == sdates@[from[k]]@,
        forall|k: int|
            0 <= k < from.len() ==> r@[k].iv_atm == days@[#[trigger] from[k]].iv_atm && r@[k].iv_25p
                == days@[from[k]].iv_25p && r@[k].iv_25c == days@[from[k]].iv_25c && r@[k].iv_pct
                == days@[from[k]].iv_pct && r@[k].skew_pct == days@[from[k]].skew_pct,
        forall|k: int|
            0 <= k < r@.len() ==> (#[trigger] r@[k]).s_entry == closes@[r@[k].pidx as int] && r@[k].s_exit
                == closes@[r@[k].pidx + 21],
        forall|k: int|
            0 <= k < r@.len() ==> ((#[trigger] r@[k]).uptrend <==> ma@[r@[k].pidx as int].below(
                closes@[r@[k].pidx as int],
            )) && ma@[r@[k].pidx as int].finite(),
        forall|k: int, j: int|
            0 <= k < from.len() && r@[k].pidx < j < dates@.len() ==> (#[trigger] dates@[j])@
                != sdates@[#[trigger] from[k]]@,
        forall|i: int, p: int|
            0 <= i < days@.len() && 0 <= p && p + 21 < closes@.len() && (#[trigger] dates@[p])@
                == sdates@[i]@ && (forall|j: int| p < j < dates@.len() ==> (#[trigger] dates@[j])@ != sdates@[i]@)
                && ma@[p].finite() && (#[trigger] days@[i]).iv_atm.finite() && days@[i].iv_25p.finite()
                && days@[i].iv_25c.finite() && days@[i].iv_pct.finite() && days@[i].skew_pct.finite()
                ==> from.contains(i),
{
    let sv = views(sdates@);
    let dv = views(dates@);
    assert(dates.len() == dates@.len());
    let from = lemma_decision_days(sv, days@, dv, closes@, ma@, days@.len() as int);
    assert forall|k: int| 0 <= k < from.len() implies 0 <= #[trigger] from[k] && r@[k].pidx + 21
        < closes@.len() && dates@[r@[k].pidx as int]@ == sdates@[from[k]]@ && ma@[r@[k].pidx as int].finite()
        && (r@[k].uptrend <==> ma@[r@[k].pidx as int].below(closes@[r@[k].pidx as int])) by {
        let f = from[k];
        assert(decision_of(sv[f], days@[f], dv, closes@, ma@) == Some(r@[k]));
        law_last_place(dv, sv[f]);
        assert(sv[f] == sdates@[f]@);
        let p = r@[k].pidx as int;
        assert(dv[p] == dates@[p]@);
    }
    assert forall|k: int| 0 <= k < r@.len() implies ((#[trigger] r@[k]).uptrend <==> ma@[r@[k].pidx as int].below(
        closes@[r@[k].pidx as int],
    )) && ma@[r@[k].pidx as int].finite() && r@[k].s_entry == closes@[r@[k].pidx as int] && r@[k].s_exit
        == closes@[r@[k].pidx + 21] by {
        let f = from[k];
        law_last_place(dv, sv[f]);
        assert(decision_of(sv[f], days@[f], dv, closes@, ma@) == Some(r@[k]));
    }
    assert forall|k: int, j: int| 0 <= k < from.len() && r@[k].pidx < j < dates@.len() implies (
    #[trigger] dates@[j])@ != sdates@[#[trigger] from[k]]@ by {
        let f = from[k];
        assert(decision_of(sv[f], days@[f], dv, closes@, ma@) == Some(r@[k]));
        law_last_place(dv, sv[f]);
        assert(sv[f] == sdates@[f]@ && dv[j] == dates@[j]@);
    }
    assert forall|i: int, p: int|
        0 <= i < days@.len() && 0 <= p && p + 21 < closes@.len() && (#[trigger] dates@[p])@ == sdates@[i]@ && (
        forall|j: int| p < j < dates@.len() ==> (#[trigger] dates@[j])@ != sdates@[i]@) && ma@[p].finite() && (
        #[trigger] days@[i]).iv_atm.finite() && days@[i].iv_25p.finite() && days@[i].iv_25c.finite()
            && days@[i].iv_pct.finite() && days@[i].skew_pct.finite() implies from.contains(i) by {
        law_last_place(dv, sv[i]);
        assert(dv[p] == dates@[p]@ && sv[i] == sdates@[i]@);
        let q = place_of(dv, sv[i])->0;
        assert(dv[q] == dates@[q]@);
        assert(q == p);
        assert(decision_of(sv[i], days@[i], dv, closes@, ma@) is Some);
    }
    from
}

/// Cheap volatility, at percentile 30 or less, buys the way the trend goes. A skew at
/// percentile 80 or more buys a call, and one at 20 or less a put. The benchmarks always
/// buy, one the call and one the put.
pub proof fn law_decide(d: Decision, cheap: Option<bool>, skew: Option<bool>, call: Option<bool>, put: Option<bool>)
    requires
        call_ensures(decide, (Signal::CheapVol, &d), cheap),
        call_ensures(decide, (Signal::SkewContrarian, &d), skew),
        call_ensures(decide, (Signal::AlwaysCall, &d), call),
        call_ensures(decide, (Signal::AlwaysPut, &d), put),
    ensures
        d.iv_pct.at_most(Num { bits: 0x403e_0000_0000_0000 }) ==> cheap == Some(d.uptrend),
        !d.iv_pct.at_most(Num { bits: 0x403e_0000_0000_0000 }) ==> cheap is None,
        skew == Some(true) <==> (Num { bits: 0x4054_0000_0000_0000 }).at_most(d.skew_pct),
        skew == Some(false) <==> d.skew_pct.at_most(Num { bits: 0x4034_0000_0000_0000 }),
        call == Some(true),
        put == Some(false),
{
}

/// An option at the money is priced at the volatility there, and one out of the money at
/// that of its own wing.
pub proof fn law_volatility(d: Decision, is_call: bool, atm: Num, otm: Num)
    requires
        call_ensures(volatility, (Strike::Atm, is_call, &d), atm),
        call_ensures(volatility, (Strike::Otm25, is_call, &d), otm),
    ensures
        atm == d.iv_atm,
        is_call ==> otm == d.iv_25c,
        !is_call ==> otm == d.iv_25p,
{
}

/// An option can be priced exactly where its volatility and its strike are above zero and
/// not infinite.
pub proof fn law_can_price(sigma: Num, k: Num, r: bool)
    requires
        call_ensures(can_price, (sigma, k), r),
    ensures
        r <==> 0 < sigma.rank() < 0x7ff0_0000_0000_0000 && 0 < k.rank() < 0x7ff0_0000_0000_0000,
{
}

/// A premium is left out exactly where it is 0.000001 or less.
pub proof fn law_too_cheap(premium: Num, r: bool)
    requires
        call_ensures(too_cheap, (premium,), r),
    ensures
        r <==> !premium.nan() && premium.rank() <= 0x3eb0_c6f7_a0b5_ed8d,
{
}

/// The days of the trades ascend. A day is among them exactly where the signal trades on
/// it, the option of that day can be priced at the volatility of its side, and its premium
/// is not left out.
pub proof fn law_trades(
    ds: Vec<Decision>,
    signal: Signal,
    strike: Strike,
    ks: Vec<Num>,
    premiums: Vec<Num>,
    r: Vec<usize>,
    side_of: Seq<Option<bool>>,
    sigma: Seq<Num>,
    i: usize,
)
    requires
        ds@.len() == ks@.len() == premiums@.len() == side_of.len() == sigma.len(),
        call_ensures(trades, (&ds, signal, strike, &ks, &premiums), r),
        i < ds@.len(),
        call_ensures(decide, (signal, &ds@[i as int]), side_of[i as int]),
        side_of[i as int] matches Some(is_call) ==> call_ensures(
            volatility,
            (strike, is_call, &ds@[i as int]),
            sigma[i as int],
        ),
    ensures
        forall|a: int, b: int| 0 <= a < b < r@.len() ==> #[trigger] r@[a] < #[trigger] r@[b],
        forall|a: int| 0 <= a < r@.len() ==> #[trigger] r@[a] < ds@.len(),
        r@.contains(i) <==> side_of[i as int] is Some && 0 < sigma[i as int].rank() < 0x7ff0_0000_0000_0000
            && 0 < ks@[i as int].rank() < 0x7ff0_0000_0000_0000 && (premiums@[i as int].nan()
            || premiums@[i as int].rank() > 0x3eb0_c6f7_a0b5_ed8d),
{
    let chosen = |i: int| is_trade(ds@[i], signal, strike, ks@[i], premiums@[i]);
    assert(ds.len() == ds@.len());
    law_pick(ds@.len() as int, chosen);
    if r@.contains(i) {
        let k = choose|k: int| 0 <= k < r@.len() && r@[k] == i;
        assert(chosen(r@[k] as int));
    }
    if chosen(i as int) {
        assert(r@.contains(i as int as usize));
    }
}

} // verus!

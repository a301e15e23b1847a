//! The book of a put hedge: when a tranche is bought, and when it is sold.
//!
//! Entry: the skew stands high, the term structure is inverted, and spot and
//! volatility rose together over a week. Exit: spot has fallen by more than the
//! take-profit distance, or the value has given back a part of its peak once in profit,
//! or the term structure is back in contango, else at expiry. At most two tranches are
//! open at a time.
//!
//! A run goes through the days of the index, each with the latest metrics of the skew. On
//! each day it sells, then buys.
//!
//! Prices and values are calculated outside; the book decides on them.

use crate::align::{
    as_of, fill, filled, in_order, is_last_met, is_spot_up_vol_up, law_as_of, met, spot_up_vol_up,
};
use crate::csv::{
    file_text, is_field, is_writable, law_file_reads_back, law_file_starts, row_views, rows_of,
    write_file,
};
use crate::num::{Num, NAN};
use crate::numeral::{is_numeral, lemma_numeral_chars};
use crate::table::{ascending, index_of, law_last_place, locates, Table};
use crate::text::{before, is_before, is_line, law_before_is_total_order, views};
use vstd::prelude::*;

verus! {

/// The trading days to expiry.
pub const HOLD_TD: usize = 21;

/// The trading days over which spot and volatility must have risen.
pub const SUVU_LB: usize = 5;

/// The most tranches that are open at a time.
pub const MAX_OPEN: usize = 2;

/// The least percentile of the skew: 90.
pub const SKEW_PCT_MIN: u64 = 0x4056_8000_0000_0000;

/// The term structure is above 1.05.
pub const TS_MIN: u64 = 0x3ff0_cccc_cccc_cccd;

/// The term structure is in contango below 1.
pub const CONTANGO: u64 = 0x3ff0_0000_0000_0000;

/// The cash at the start: 10000.
pub const BASE: u64 = 0x40c3_8800_0000_0000;

/// The cash that a tranche takes: 5000.
pub const TRANCHE: u64 = 0x40b3_8800_0000_0000;

/// The least cash to buy with: 1.
pub const CASH_MIN: u64 = 0x3ff0_0000_0000_0000;

/// A put that is bought costs more than 0.000000001.
pub const PRICE_MIN: u64 = 0x3e11_2e0b_e826_d695;

/// One tranche: the day and the spot of its purchase, which is its strike, the price of
/// the put then, what was paid, and the greatest value so far.
#[derive(Clone, Copy, Debug, PartialEq, Eq, Structural)]
pub struct Pos {
    pub entry_i: usize,
    pub entry_spot: Num,
    pub p0: Num,
    pub cost: Num,
    pub peak: Num,
}

/// What was calculated for a tranche on a day: its value, the spot below which profit
/// is taken, and the values at or below which it has given back too much, of
/// its peak so far and of today's value.
#[derive(Clone, Copy, Debug, PartialEq, Eq, Structural)]
pub struct Mark {
    pub value: Num,
    pub stop: Num,
    pub trail_of_peak: Num,
    pub trail_of_value: Num,
}

/// Why a tranche was sold.
#[derive(Clone, Copy, Debug, PartialEq, Eq, Structural)]
pub enum Reason {
    /// Spot is far enough below that of the purchase.
    Stop,
    /// The value has given back too much of its peak.
    Trail,
    /// The term structure is back in contango.
    Contango,
    /// The holding period is over.
    Expiry,
}

/// A tranche that was sold.
#[derive(Clone, Copy, Debug, PartialEq, Eq, Structural)]
pub struct Sale {
    pub pos: Pos,
    pub reason: Reason,
    pub value: Num,
}

/// The tranche with today's value in its peak.
pub open spec fn marked(p: Pos, m: Mark) -> Pos {
    Pos {
        peak: if p.peak.below(m.value) {
            m.value
        } else {
            p.peak
        },
        ..p
    }
}

/// The value at or below which the tranche has given back too much of its peak.
pub open spec fn trail(p: Pos, m: Mark) -> Num {
    if p.peak.below(m.value) {
        m.trail_of_value
    } else {
        m.trail_of_peak
    }
}

/// Why a tranche is sold on day `i`, if it is. It is not on the day of its purchase.
pub open spec fn reason(p: Pos, m: Mark, i: int, close: Num, ts: Num) -> Option<Reason> {
    if i == p.entry_i {
        None
    } else if close.below(m.stop) {
        Some(Reason::Stop)
    } else if p.cost.below(marked(p, m).peak) && m.value.at_most(trail(p, m)) {
        Some(Reason::Trail)
    } else if ts.below(Num { bits: CONTANGO }) {
        Some(Reason::Contango)
    } else if i - p.entry_i >= HOLD_TD {
        Some(Reason::Expiry)
    } else {
        None
    }
}

/// The tranches among the first `n` that are kept on day `i`.
pub open spec fn kept(open: Seq<Pos>, marks: Seq<Mark>, i: int, close: Num, ts: Num, n: int) -> Seq<Pos>
    decreases n,
{
    if n <= 0 {
        Seq::empty()
    } else {
        let front = kept(open, marks, i, close, ts, n - 1);
        match reason(open[n - 1], marks[n - 1], i, close, ts) {
            Some(_) => front,
            None => front.push(marked(open[n - 1], marks[n - 1])),
        }
    }
}

/// The tranches among the first `n` that are sold on day `i`.
pub open spec fn sold(open: Seq<Pos>, marks: Seq<Mark>, i: int, close: Num, ts: Num, n: int) -> Seq<Sale>
    decreases n,
{
    if n <= 0 {
        Seq::empty()
    } else {
        let front = sold(open, marks, i, close, ts, n - 1);
        match reason(open[n - 1], marks[n - 1], i, close, ts) {
            Some(why) => front.push(
                Sale {
                    pos: marked(open[n - 1], marks[n - 1]),
                    reason: why,
                    value: marks[n - 1].value,
                },
            ),
            None => front,
        }
    }
}

/// The open tranches.
pub struct Book {
    pub open: Vec<Pos>,
}

/// Whether a tranche is bought: the skew stands high, the term structure is inverted,
/// and spot and volatility rose together.
pub open spec fn is_entry(skew_pct: Num, ts: Num, closes: Seq<Num>, ivs: Seq<Num>, i: int) -> bool {
    &&& skew_pct.finite() && (Num { bits: SKEW_PCT_MIN }).at_most(skew_pct)
    &&& ts.finite() && (Num { bits: TS_MIN }).below(ts)
    &&& is_spot_up_vol_up(closes, ivs, i, SUVU_LB as int)
}

/// Whether a tranche is bought on day `i`.
pub fn entry_signal(skew_pct: Num, ts: Num, closes: &Vec<Num>, ivs: &Vec<Num>, i: usize) -> (r: bool)
    requires
        i < closes@.len(),
        i < ivs@.len(),
    ensures
        r == is_entry(skew_pct, ts, closes@, ivs@, i as int),
{
    skew_pct.is_finite() && Num::new(SKEW_PCT_MIN).le(skew_pct) && ts.is_finite() && Num::new(TS_MIN).lt(
        ts,
    ) && spot_up_vol_up(closes, ivs, i, SUVU_LB)
}

/// What a tranche costs: the cash of a tranche, or all there is where it is less.
pub open spec fn stake(cash: Num) -> Num {
    if cash.below(Num { bits: TRANCHE }) {
        cash
    } else {
        Num { bits: TRANCHE }
    }
}

/// Whether the book has room, and there is cash.
pub open spec fn has_room(open: Seq<Pos>, cash: Num) -> bool {
    open.len() < MAX_OPEN && (Num { bits: CASH_MIN }).at_most(cash)
}

/// The trading days that a tranche has left on day `i`.
pub fn days_left(p: Pos, i: usize) -> (r: usize)
    requires
        p.entry_i <= i,
    ensures
        r == (if i - p.entry_i < HOLD_TD {
            HOLD_TD - (i - p.entry_i)
        } else {
            0
        }),
{
    if i - p.entry_i < HOLD_TD {
        HOLD_TD - (i - p.entry_i)
    } else {
        0
    }
}

impl Book {
    /// Whether the book is one of day `i`: no tranche is from the future, and there are
    /// not too many.
    pub open spec fn wf(self, i: int) -> bool {
        self.open@.len() <= MAX_OPEN && forall|k: int|
            0 <= k < self.open@.len() ==> (#[trigger] self.open@[k]).entry_i <= i
    }

    /// The empty book.
    pub fn new() -> (r: Book)
        ensures
            r.open@.len() == 0,
            forall|i: int| r.wf(i),
    {
        Book { open: Vec::new() }
    }

    /// Marks the tranches on day `i` and sells those that have a reason.
    pub fn close_out(&mut self, i: usize, close: Num, ts: Num, marks: &Vec<Mark>) -> (r: Vec<Sale>)
        requires
            old(self).wf(i as int),
            marks@.len() == old(self).open@.len(),
        ensures
            final(self).open@ == kept(
                old(self).open@,
                marks@,
                i as int,
                close,
                ts,
                marks@.len() as int,
            ),
            r@ == sold(old(self).open@, marks@, i as int, close, ts, marks@.len() as int),
            final(self).wf(i as int),
    {
        let ghost was = self.open@;
        let mut stay: Vec<Pos> = Vec::new();
        let mut sales: Vec<Sale> = Vec::new();
        let mut k: usize = 0;
        while k < self.open.len()
            invariant
                self.open@ == was,
                self.wf(i as int),
                k <= was.len() == marks@.len(),
                stay@ == kept(was, marks@, i as int, close, ts, k as int),
                sales@ == sold(was, marks@, i as int, close, ts, k as int),
                stay@.len() <= k,
                forall|j: int| 0 <= j < stay@.len() ==> (#[trigger] stay@[j]).entry_i <= i,
            decreases was.len() - k,
        {
            let p: Pos = self.open[k];
            let m: Mark = marks[k];
            assert(was[k as int].entry_i <= i);
            let up: bool = p.peak.lt(m.value);
            let q: Pos = Pos {
                entry_i: p.entry_i,
                entry_spot: p.entry_spot,
                p0: p.p0,
                cost: p.cost,
                peak: if up { m.value } else { p.peak },
            };
            assert(q == marked(p, m));
            let floor: Num = if up { m.trail_of_value } else { m.trail_of_peak };
            let why: Option<Reason> = if i == p.entry_i {
                None
            } else if close.lt(m.stop) {
                Some(Reason::Stop)
            } else if p.cost.lt(q.peak) && m.value.le(floor) {
                Some(Reason::Trail)
            } else if ts.lt(Num::new(CONTANGO)) {
                Some(Reason::Contango)
            } else if i - p.entry_i >= HOLD_TD {
                Some(Reason::Expiry)
            } else {
                None
            };
            assert(why == reason(p, m, i as int, close, ts));
            match why {
                Some(w) => sales.push(Sale { pos: q, reason: w, value: m.value }),
                None => stay.push(q),
            }
            k = k + 1;
        }
        self.open = stay;
        sales
    }

    /// Buys a tranche on day `i` where the entry signal is there, and gives what it
    /// costs; `p0` is the price of its put. Nothing is bought where the book has no room,
    /// there is no cash, or the put is worth nothing.
    pub fn enter(
        &mut self,
        i: usize,
        skew_pct: Num,
        ts: Num,
        closes: &Vec<Num>,
        ivs: &Vec<Num>,
        p0: Num,
        cash: Num,
    ) -> (r: Option<Num>)
        requires
            old(self).wf(i as int),
            i < closes@.len(),
            i < ivs@.len(),
        ensures
            final(self).wf(i as int),
            r matches Some(cost) ==> ((Num { bits: 0x40b3_8800_0000_0000 }).at_most(cash) ==> cost == Num {
                bits: 0x40b3_8800_0000_0000,
            }) && (cash.below(Num { bits: 0x40b3_8800_0000_0000 }) ==> cost == cash)
                && final(self).open@.last().cost == cost,
            r is None ==> final(self).open@ == old(self).open@,
            r == (if enters(old(self).open@, i as int, skew_pct, ts, closes@, ivs@, p0, cash) {
                Some(stake(cash))
            } else {
                None
            }),
            final(self).open@ == entered(
                old(self).open@,
                i as int,
                skew_pct,
                ts,
                closes@,
                ivs@,
                p0,
                cash,
            ),
    {
        if entry_signal(skew_pct, ts, closes, ivs, i) && self.open.len() < MAX_OPEN && Num::new(CASH_MIN).le(
            cash,
        ) && Num::new(PRICE_MIN).lt(p0) {
            let cost: Num = if cash.lt(Num::new(TRANCHE)) { cash } else { Num::new(TRANCHE) };
            self.open.push(Pos { entry_i: i, entry_spot: closes[i], p0, cost, peak: cost });
            Some(cost)
        } else {
            None
        }
    }
}

/// A tranche on the day of its purchase.
pub open spec fn bought(i: int, spot: Num, p0: Num, cash: Num) -> Pos {
    Pos { entry_i: i as usize, entry_spot: spot, p0, cost: stake(cash), peak: stake(cash) }
}

/// Whether a tranche is bought on day `i`: the entry signal is there, the book has room,
/// there is cash, and the put is worth something.
pub open spec fn enters(
    open: Seq<Pos>,
    i: int,
    skew_pct: Num,
    ts: Num,
    closes: Seq<Num>,
    ivs: Seq<Num>,
    p0: Num,
    cash: Num,
) -> bool {
    is_entry(skew_pct, ts, closes, ivs, i) && has_room(open, cash) && (Num { bits: PRICE_MIN }).below(p0)
}

/// The open tranches when the purchase of day `i`, if there is one, has been made.
pub open spec fn entered(
    open: Seq<Pos>,
    i: int,
    skew_pct: Num,
    ts: Num,
    closes: Seq<Num>,
    ivs: Seq<Num>,
    p0: Num,
    cash: Num,
) -> Seq<Pos> {
    if enters(open, i, skew_pct, ts, closes, ivs, p0, cash) {
        open.push(bought(i, closes[i], p0, cash))
    } else {
        open
    }
}

/// What a day brings: percentile of the skew, term structure, the marks of the open
/// tranches, the price of a put, and the cash once the sales are made.
pub struct DayView {
    pub skew_pct: Num,
    pub ts: Num,
    pub marks: Seq<Mark>,
    pub p0: Num,
    pub cash: Num,
}

/// The open tranches after the first `n` days, each of which sells and then buys.
pub open spec fn open_after(days: Seq<DayView>, closes: Seq<Num>, ivs: Seq<Num>, n: int) -> Seq<Pos>
    decreases n,
{
    if n <= 0 {
        Seq::empty()
    } else {
        let was = open_after(days, closes, ivs, n - 1);
        let d = days[n - 1];
        let left = kept(was, d.marks, n - 1, closes[n - 1], d.ts, was.len() as int);
        entered(left, n - 1, d.skew_pct, d.ts, closes, ivs, d.p0, d.cash)
    }
}

/// Whether `open[j]` is kept, and is `p` once marked.
spec fn stays_as(open: Seq<Pos>, marks: Seq<Mark>, i: int, close: Num, ts: Num, p: Pos, j: int) -> bool {
    0 <= j < open.len() && p == marked(open[j], marks[j]) && reason(open[j], marks[j], i, close, ts) is None
}

/// Whether `p` is one of the tranches that are kept.
spec fn stays(open: Seq<Pos>, marks: Seq<Mark>, i: int, close: Num, ts: Num, p: Pos) -> bool {
    exists|j: int| stays_as(open, marks, i, close, ts, p, j)
}

proof fn lemma_kept(open: Seq<Pos>, marks: Seq<Mark>, i: int, close: Num, ts: Num, n: int)
    requires
        0 <= n <= open.len(),
    ensures
        kept(open, marks, i, close, ts, n).len() <= n,
        forall|k: int|
            0 <= k < kept(open, marks, i, close, ts, n).len() ==> stays(
                open,
                marks,
                i,
                close,
                ts,
                #[trigger] kept(open, marks, i, close, ts, n)[k],
            ),
    decreases n,
{
    if n > 0 {
        lemma_kept(open, marks, i, close, ts, n - 1);
        let front = kept(open, marks, i, close, ts, n - 1);
        let all = kept(open, marks, i, close, ts, n);
        assert forall|k: int| 0 <= k < all.len() implies stays(
            open,
            marks,
            i,
            close,
            ts,
            #[trigger] all[k],
        ) by {
            if k < front.len() {
                assert(all[k] == front[k]);
                assert(stays(open, marks, i, close, ts, front[k]));
            } else {
                assert(stays_as(open, marks, i, close, ts, all[k], n - 1));
            }
        }
    }
}

/// Whether a tranche that is open after day `i` was bought as it should be: on a day with
/// the entry signal and cash, at its spot, for its share or all the cash, and not so
/// long ago that it would have expired.
pub open spec fn is_sound(p: Pos, days: Seq<DayView>, closes: Seq<Num>, ivs: Seq<Num>, i: int) -> bool {
    let e = p.entry_i as int;
    &&& 0 <= e <= i && i - e < HOLD_TD
    &&& is_entry(days[e].skew_pct, days[e].ts, closes, ivs, e)
    &&& (Num { bits: CASH_MIN }).at_most(days[e].cash)
    &&& p.cost == stake(days[e].cash)
    &&& p.entry_spot == closes[e]
}

/// Whatever the days bring, never more than two tranches are open, and each was bought on
/// a day with the entry signal and cash, for its share or all the cash. After a day in
/// contango only a tranche of that day is open.
pub proof fn law_hedge_run(days: Seq<DayView>, closes: Seq<Num>, ivs: Seq<Num>, n: int)
    requires
        0 < n <= days.len(),
        n <= closes.len(),
        n <= ivs.len(),
        n <= usize::MAX,
    ensures
        open_after(days, closes, ivs, n).len() <= MAX_OPEN,
        forall|k: int|
            0 <= k < open_after(days, closes, ivs, n).len() ==> is_sound(
                #[trigger] open_after(days, closes, ivs, n)[k],
                days,
                closes,
                ivs,
                n - 1,
            ),
        days[n - 1].ts.below(Num { bits: CONTANGO }) ==> forall|k: int|
            0 <= k < open_after(days, closes, ivs, n).len() ==> (#[trigger] open_after(
                days,
                closes,
                ivs,
                n,
            )[k]).entry_i == n - 1,
    decreases n,
{
    let was = open_after(days, closes, ivs, n - 1);
    let i = n - 1;
    let d = days[i];
    if n > 1 {
        law_hedge_run(days, closes, ivs, n - 1);
    } else {
        assert(was.len() == 0);
    }
    let left = kept(was, d.marks, i, closes[i], d.ts, was.len() as int);
    lemma_kept(was, d.marks, i, closes[i], d.ts, was.len() as int);
    let all = open_after(days, closes, ivs, n);
    assert forall|k: int| 0 <= k < left.len() implies is_sound(#[trigger] left[k], days, closes, ivs, i)
        && !d.ts.below(Num { bits: CONTANGO }) by {
        assert(stays(was, d.marks, i, closes[i], d.ts, left[k]));
        let j = choose|j: int| stays_as(was, d.marks, i, closes[i], d.ts, left[k], j);
        assert(is_sound(was[j], days, closes, ivs, i - 1));
        assert(was[j].entry_i < i);
        law_hedge_is_off(was[j], d.marks[j], i, closes[i], d.ts);
    }
    assert forall|k: int| 0 <= k < all.len() implies is_sound(#[trigger] all[k], days, closes, ivs, i) && (
    d.ts.below(Num { bits: CONTANGO }) ==> all[k].entry_i == i) by {
        if k < left.len() {
            assert(all[k] == left[k]);
            assert(is_sound(left[k], days, closes, ivs, i));
        } else {
            assert(all[k] == bought(i, closes[i], d.p0, d.cash));
        }
    }
}

/// Whether a tranche is bought on day `i` of a run.
pub open spec fn buys_on(days: Seq<DayView>, closes: Seq<Num>, ivs: Seq<Num>, i: int) -> bool {
    let was = open_after(days, closes, ivs, i);
    let d = days[i];
    let left = kept(was, d.marks, i, closes[i], d.ts, was.len() as int);
    enters(left, i, d.skew_pct, d.ts, closes, ivs, d.p0, d.cash)
}

/// A tranche is bought only where the skew stands at 90 or more, the term structure is
/// above 1.05, spot and volatility are above those of five days before, at most one
/// tranche is left, and there is cash of 1 or more. It costs 5000, or the cash where that
/// is less, so that no purchase makes the cash negative.
pub proof fn law_purchase(days: Seq<DayView>, closes: Seq<Num>, ivs: Seq<Num>, i: int)
    requires
        0 <= i < days.len(),
        i < closes.len(),
        i < ivs.len(),
        buys_on(days, closes, ivs, i),
    ensures
        (Num { bits: SKEW_PCT_MIN }).at_most(days[i].skew_pct),
        (Num { bits: TS_MIN }).below(days[i].ts),
        i >= SUVU_LB,
        closes[i - SUVU_LB].below(closes[i]),
        ivs[i - SUVU_LB].below(ivs[i]),
        open_after(days, closes, ivs, i + 1).len() <= MAX_OPEN,
        (Num { bits: CASH_MIN }).at_most(days[i].cash),
        open_after(days, closes, ivs, i + 1).last().cost == stake(days[i].cash),
        stake(days[i].cash).at_most(days[i].cash),
        stake(days[i].cash).at_most(Num { bits: TRANCHE }),
{
}

/// A tranche that is not of today is not kept once the term structure is in contango,
/// nor once spot is below its stop.
pub proof fn law_hedge_is_off(p: Pos, m: Mark, i: int, close: Num, ts: Num)
    requires
        p.entry_i < i,
    ensures
        ts.below(Num { bits: CONTANGO }) ==> reason(p, m, i, close, ts) is Some,
        close.below(m.stop) ==> reason(p, m, i, close, ts) == Some(Reason::Stop),
        i - p.entry_i >= HOLD_TD ==> reason(p, m, i, close, ts) is Some,
{
}

/// Each tranche is either kept or sold; what is kept is younger than the holding
/// period, and its peak is not below its value nor below what it was.
pub proof fn law_close_out(open: Seq<Pos>, marks: Seq<Mark>, i: int, close: Num, ts: Num, n: int)
    requires
        0 <= n <= open.len(),
        open.len() == marks.len(),
        forall|k: int| 0 <= k < open.len() ==> (#[trigger] open[k]).entry_i <= i,
        forall|k: int| 0 <= k < open.len() ==> !(#[trigger] open[k]).peak.nan(),
    ensures
        kept(open, marks, i, close, ts, n).len() + sold(open, marks, i, close, ts, n).len() == n,
        forall|k: int|
            0 <= k < kept(open, marks, i, close, ts, n).len() ==> i - (#[trigger] kept(
                open,
                marks,
                i,
                close,
                ts,
                n,
            )[k]).entry_i < HOLD_TD,
        forall|k: int|
            0 <= k < sold(open, marks, i, close, ts, n).len() ==> (#[trigger] sold(
                open,
                marks,
                i,
                close,
                ts,
                n,
            )[k]).pos.entry_i < i,
        forall|k: int|
            0 <= k < n ==> (#[trigger] open[k]).peak.at_most(marked(open[k], marks[k]).peak) && (
            !marks[k].value.nan() ==> marks[k].value.at_most(marked(open[k], marks[k]).peak)),
    decreases n,
{
    if n > 0 {
        law_close_out(open, marks, i, close, ts, n - 1);
        assert(open[n - 1].entry_i <= i);
        assert(!open[n - 1].peak.nan());
    }
}

/// A tranche never costs more than the cash there is, nor more than its share.
pub proof fn law_stake(cash: Num)
    requires
        (Num { bits: CASH_MIN }).at_most(cash),
    ensures
        stake(cash).at_most(cash),
        stake(cash).at_most(Num { bits: TRANCHE }),
        (Num { bits: CASH_MIN }).at_most(stake(cash)),
{
}

/// Whether observation `k` is the latest at a date: not dated later, and of those the
/// last one of the last date.
pub open spec fn is_latest(obs: Seq<Seq<char>>, date: Seq<char>, k: int) -> bool {
    0 <= k < obs.len() && !before(date, obs[k]) && forall|j: int|
        0 <= j < obs.len() && !before(date, #[trigger] obs[j]) ==> before(obs[j], obs[k]) || (obs[j]
            == obs[k] && j <= k)
}

/// The latest observation at each date of an ascending grid, whatever the order of the
/// observations.
pub fn latest_on(obs: &Vec<String>, grid: &Vec<String>) -> (r: Vec<Option<usize>>)
    requires
        in_order(views(grid@)),
    ensures
        r@.len() == grid@.len(),
        forall|i: int|
            0 <= i < r@.len() ==> (match #[trigger] r@[i] {
                Some(k) => is_latest(views(obs@), grid@[i]@, k as int),
                None => forall|j: int|
                    0 <= j < obs@.len() ==> before(grid@[i]@, #[trigger] views(obs@)[j]),
            }),
{
    let ghost os = views(obs@);
    let ghost gs = views(grid@);
    let index: Table<usize> = index_of(obs);
    let entries: &Vec<(String, usize)> = index.entries();
    let mut keys: Vec<String> = Vec::new();
    let mut e: usize = 0;
    while e < entries.len()
        invariant
            e <= entries@.len(),
            keys@.len() == e,
            forall|k: int| 0 <= k < e ==> (#[trigger] keys@[k])@ == entries@[k].0@,
        decreases entries@.len() - e,
    {
        keys.push(entries[e].0.clone());
        e = e + 1;
    }
    let ghost ks = views(keys@);
    assert(in_order(ks)) by {
        assert forall|a: int, b: int| 0 <= a <= b < ks.len() implies !before(
            #[trigger] ks[b],
            #[trigger] ks[a],
        ) by {
            law_before_is_total_order(ks[a], ks[b], ks[a]);
            if a < b {
                assert(before(entries@[a].0@, entries@[b].0@));
            }
        }
    }
    let places: Vec<Option<usize>> = as_of(&keys, grid);
    let mut out: Vec<Option<usize>> = Vec::new();
    let mut i: usize = 0;
    while i < grid.len()
        invariant
            os == views(obs@),
            gs == views(grid@),
            ks == views(keys@),
            in_order(gs),
            in_order(ks),
            i <= grid@.len(),
            places@.len() == grid@.len(),
            keys@.len() == entries@.len(),
            forall|k: int| 0 <= k < keys@.len() ==> (#[trigger] keys@[k])@ == entries@[k].0@,
            ascending(entries@),
            forall|k: int|
                0 <= k < entries@.len() ==> index@.contains_key(#[trigger] entries@[k].0@)
                    && index@[entries@[k].0@] == entries@[k].1,
            forall|k: Seq<char>| #[trigger]
                index@.contains_key(k) ==> exists|j: int| 0 <= j < entries@.len() && #[trigger] entries@[j].0@ == k,
            forall|k: Seq<char>| #[trigger] locates(index@, os, k),
            forall|k: int|
                0 <= k < places@.len() ==> is_last_met(#[trigger] places@[k], ks, gs, k) && (places@[k]
                    matches Some(p) ==> p < keys@.len()),
            out@.len() == i,
            forall|k: int|
                0 <= k < i ==> (match #[trigger] out@[k] {
                    Some(x) => is_latest(os, gs[k], x as int),
                    None => forall|j: int| 0 <= j < os.len() ==> before(gs[k], #[trigger] os[j]),
                }),
        decreases grid@.len() - i,
    {
        let x: Option<usize> = match places[i] {
            Some(p) => Some(entries[p].1),
            None => None,
        };
        proof {
            law_as_of(ks, gs, i as int);
            assert(is_last_met(places@[i as int], ks, gs, i as int));
            let m = met(ks, gs, i as int);
            let date = gs[i as int];
            assert forall|j: int| 0 <= j < os.len() && !before(date, #[trigger] os[j]) implies exists|
                f: int,
            |
                0 <= f < m && #[trigger] ks[f] == os[j] by {
                law_last_place(os, os[j]);
                assert(locates(index@, os, os[j]));
                assert(index@.contains_key(os[j]));
                let f = choose|f: int| 0 <= f < entries@.len() && #[trigger] entries@[f].0@ == os[j];
                assert(keys@[f]@ == entries@[f].0@);
                assert(ks[f] == os[j]);
            }
            match places@[i as int] {
                Some(p) => {
                    let key = ks[p as int];
                    assert(keys@[p as int]@ == entries@[p as int].0@);
                    assert(index@.contains_key(entries@[p as int].0@));
                    assert(locates(index@, os, key));
                    law_last_place(os, key);
                    let k = entries@[p as int].1 as int;
                    assert(os[k] == key);
                    assert(!before(date, ks[p as int]));
                    assert forall|j: int| 0 <= j < os.len() && !before(date, #[trigger] os[j]) implies before(
                        os[j],
                        os[k],
                    ) || (os[j] == os[k] && j <= k) by {
                        let f = choose|f: int| 0 <= f < m && #[trigger] ks[f] == os[j];
                        assert(keys@[f]@ == entries@[f].0@);
                        if f < p {
                            assert(before(entries@[f].0@, entries@[p as int].0@));
                        }
                    }
                    assert(is_latest(os, date, k));
                },
                None => {
                    assert forall|j: int| 0 <= j < os.len() implies before(date, #[trigger] os[j]) by {
                        if !before(date, os[j]) {
                            let f = choose|f: int| 0 <= f < m && #[trigger] ks[f] == os[j];
                        }
                    }
                },
            }
        }
        out.push(x);
        i = i + 1;
    }
    assert forall|k: int| 0 <= k < grid@.len() implies #[trigger] gs[k] == grid@[k]@ by {}
    out
}

/// Whether `k` is the last date that is not later than `target`.
pub open spec fn is_last_upto(dates: Seq<Seq<char>>, target: Seq<char>, k: int) -> bool {
    0 <= k < dates.len() && !before(target, dates[k]) && forall|j: int|
        k < j < dates.len() ==> before(target, #[trigger] dates[j])
}

/// Whether all dates are later than `target`.
pub open spec fn are_later(dates: Seq<Seq<char>>, target: Seq<char>) -> bool {
    forall|j: int| 0 <= j < dates.len() ==> before(target, #[trigger] dates[j])
}

/// The last date that is not later than `target`.
pub fn last_upto(dates: &Vec<String>, target: &str) -> (r: Option<usize>)
    ensures
        match r {
            Some(k) => is_last_upto(views(dates@), target@, k as int),
            None => are_later(views(dates@), target@),
        },
{
    let mut k: usize = dates.len();
    while k > 0
        invariant
            k <= dates@.len(),
            forall|j: int| k <= j < dates@.len() ==> before(target@, #[trigger] views(dates@)[j]),
        decreases k,
    {
        if !is_before(target, dates[k - 1].as_str()) {
            return Some(k - 1);
        }
        assert(views(dates@)[k - 1] == dates@[k - 1]@);
        k = k - 1;
    }
    None
}

/// The rows of the equity curve: a date and a value each.
pub open spec fn equity_rows(dates: Seq<Seq<char>>, values: Seq<Seq<char>>) -> Seq<Seq<Seq<char>>> {
    Seq::new(dates.len(), |i: int| seq![dates[i], values[i]])
}

/// The file of the equity curve: one row per date, in order.
pub fn equity_file(dates: &Vec<String>, values: &Vec<String>) -> (r: String)
    requires
        dates@.len() == values@.len(),
    ensures
        r@ == file_text("date,equity"@, equity_rows(views(dates@), views(values@))),
{
    let mut rows: Vec<Vec<String>> = Vec::new();
    let ghost want = equity_rows(views(dates@), views(values@));
    let mut i: usize = 0;
    while i < dates.len()
        invariant
            i <= dates@.len() == values@.len(),
            want == equity_rows(views(dates@), views(values@)),
            rows@.len() == i,
            forall|k: int| 0 <= k < i ==> views((#[trigger] rows@[k])@) == want[k],
        decreases dates@.len() - i,
    {
        let mut row: Vec<String> = Vec::new();
        row.push(dates[i].clone());
        row.push(values[i].clone());
        assert(views(row@) =~= want[i as int]);
        rows.push(row);
        i = i + 1;
    }
    assert(row_views(rows@) =~= want);
    write_file("date,equity", &rows)
}

/// The file of the equity curve reads back as one row per date, in order, with the value
/// that was written for it.
pub proof fn law_equity_reads_back(dates: Seq<Seq<char>>, values: Seq<Seq<char>>)
    requires
        dates.len() == values.len(),
        forall|i: int| 0 <= i < dates.len() ==> is_field(#[trigger] dates[i]),
        forall|i: int| 0 <= i < values.len() ==> is_numeral(#[trigger] values[i]),
    ensures
        rows_of(file_text("date,equity"@, equity_rows(dates, values)), 2) == equity_rows(dates, values),
{
    let rows = equity_rows(dates, values);
    reveal_strlit("date,equity");
    assert(is_line("date,equity"@));
    assert forall|i: int| 0 <= i < rows.len() implies is_writable(#[trigger] rows[i], 2) by {
        let v = values[i];
        lemma_numeral_chars(v);
        assert(v[v.len() - 1] != '\r');
        assert(rows[i].last() == v);
        assert(is_field(dates[i]));
        assert forall|j: int| 0 <= j < rows[i].len() implies is_field(#[trigger] rows[i][j]) by {}
    }
    law_file_reads_back("date,equity"@, rows, 2);
}

// ---- a run ----

/// Whether `x` is the metric of a date: that of the latest observation, none where there
/// is no observation yet.
pub open spec fn is_metric(x: Num, vals: Seq<Num>, obs: Seq<Seq<char>>, date: Seq<char>) -> bool {
    ||| exists|k: int| is_latest(obs, date, k) && x == vals[k]
    ||| x == (Num { bits: NAN }) && forall|j: int| 0 <= j < obs.len() ==> before(date, #[trigger] obs[j])
}

/// Whether `out` are the metrics of all dates.
pub open spec fn are_metrics(
    out: Seq<Num>,
    vals: Seq<Num>,
    obs: Seq<Seq<char>>,
    grid: Seq<Seq<char>>,
) -> bool {
    out.len() == grid.len() && forall|i: int|
        0 <= i < grid.len() ==> is_metric(#[trigger] out[i], vals, obs, grid[i])
}

fn on_grid(vals: &Vec<Num>, obs: &Vec<String>, grid: &Vec<String>, places: &Vec<Option<usize>>) -> (r: Vec<
    Num,
>)
    requires
        vals@.len() == obs@.len(),
        places@.len() == grid@.len(),
        forall|i: int|
            0 <= i < places@.len() ==> (match #[trigger] places@[i] {
                Some(k) => is_latest(views(obs@), grid@[i]@, k as int),
                None => forall|j: int|
                    0 <= j < obs@.len() ==> before(grid@[i]@, #[trigger] views(obs@)[j]),
            }),
    ensures
        are_metrics(r@, vals@, views(obs@), views(grid@)),
{
    assert forall|i: int| 0 <= i < places@.len() implies (#[trigger] places@[i] matches Some(p) ==> p
        < vals@.len()) by {
        if let Some(k) = places@[i] {
            assert(is_latest(views(obs@), grid@[i]@, k as int));
        }
    }
    let out: Vec<Num> = fill(vals, places, Num::new(NAN));
    assert forall|i: int| 0 <= i < grid@.len() implies is_metric(
        #[trigger] out@[i],
        vals@,
        views(obs@),
        views(grid@)[i],
    ) by {
        assert(views(grid@)[i] == grid@[i]@);
        assert(out@[i] == filled(vals@, places@, Num { bits: NAN })[i]);
        match places@[i] {
            Some(k) => {
                assert(is_latest(views(obs@), views(grid@)[i], k as int) && out@[i] == vals@[k as int]);
            },
            None => {},
        }
    }
    out
}

/// The skew metrics as observed: dates, volatility at the money, term structure and
/// percentile of the skew.
pub struct Metrics {
    pub dates: Vec<String>,
    pub iv: Vec<Num>,
    pub ts: Vec<Num>,
    pub skew_pct: Vec<Num>,
}

/// A run of the hedge over the days of the index: the closes and metrics of all days, the
/// book, and the day that comes next. On each day it first sells, then buys.
pub struct Hedge {
    pub closes: Vec<Num>,
    pub ivs: Vec<Num>,
    pub ts: Vec<Num>,
    pub skew_pct: Vec<Num>,
    pub book: Book,
    pub day: usize,
    /// What the days before have brought.
    pub past: Ghost<Seq<DayView>>,
    /// The marks of today, once it has sold.
    pub today: Ghost<Option<Seq<Mark>>>,
}

impl Hedge {
    /// The tranches that were open when the last day was over.
    pub open spec fn held(self) -> Seq<Pos> {
        open_after(self.past@, self.closes@, self.ivs@, self.day as int)
    }

    /// The tranches that are kept today.
    pub open spec fn left(self, marks: Seq<Mark>) -> Seq<Pos> {
        let i = self.day as int;
        kept(self.held(), marks, i, self.closes@[i], self.ts@[i], self.held().len() as int)
    }

    /// Whether the book is what the days so far make of an empty one.
    pub open spec fn wf(self) -> bool {
        &&& self.closes@.len() == self.ivs@.len() == self.ts@.len() == self.skew_pct@.len()
        &&& self.day == self.past@.len() <= self.closes@.len()
        &&& forall|i: int|
            0 <= i < self.day ==> (#[trigger] self.past@[i]).ts == self.ts@[i] && self.past@[i].skew_pct
                == self.skew_pct@[i]
        &&& match self.today@ {
            Some(marks) => self.day < self.closes@.len() && self.book.open@ == self.left(marks),
            None => self.book.open@ == self.held(),
        }
    }

    /// Whether closes and metrics are those of `other`.
    pub open spec fn same_days(self, other: Hedge) -> bool {
        self.closes@ == other.closes@ && self.ivs@ == other.ivs@ && self.ts@ == other.ts@ && self.skew_pct@
            == other.skew_pct@
    }

    /// A run over the dates of the index, with the latest metrics of each; nothing is open
    /// yet.
    pub fn new(dates: &Vec<String>, closes: Vec<Num>, m: &Metrics) -> (r: Hedge)
        requires
            in_order(views(dates@)),
            dates@.len() == closes@.len(),
            m.dates@.len() == m.iv@.len() == m.ts@.len() == m.skew_pct@.len(),
        ensures
            r.wf(),
            r.closes@ == closes@,
            are_metrics(r.ivs@, m.iv@, views(m.dates@), views(dates@)),
            are_metrics(r.ts@, m.ts@, views(m.dates@), views(dates@)),
            are_metrics(r.skew_pct@, m.skew_pct@, views(m.dates@), views(dates@)),
            r.day == 0,
            r.today@ is None,
            r.book.open@.len() == 0,
    {
        let places: Vec<Option<usize>> = latest_on(&m.dates, dates);
        let ivs: Vec<Num> = on_grid(&m.iv, &m.dates, dates, &places);
        let ts: Vec<Num> = on_grid(&m.ts, &m.dates, dates, &places);
        let skew_pct: Vec<Num> = on_grid(&m.skew_pct, &m.dates, dates, &places);
        let book: Book = Book::new();
        assert(book.open@ =~= Seq::<Pos>::empty());
        Hedge {
            closes,
            ivs,
            ts,
            skew_pct,
            book,
            day: 0,
            past: Ghost(Seq::empty()),
            today: Ghost(None),
        }
    }

    /// What every run keeps: never more than two tranches are open, and when a day is over
    /// each was bought on the signal of its day, with cash, for its share or all the cash.
    pub proof fn law_keeps(self)
        requires
            self.wf(),
        ensures
            self.book.wf(self.day as int),
            self.today@ is None ==> forall|k: int|
                0 <= k < self.book.open@.len() ==> is_sound(
                    #[trigger] self.book.open@[k],
                    self.past@,
                    self.closes@,
                    self.ivs@,
                    self.day - 1,
                ),
    {
        let held = self.held();
        if self.day > 0 {
            law_hedge_run(self.past@, self.closes@, self.ivs@, self.day as int);
        }
        assert forall|k: int| 0 <= k < held.len() implies (#[trigger] held[k]).entry_i <= self.day by {
            assert(is_sound(held[k], self.past@, self.closes@, self.ivs@, self.day - 1));
        }
        if let Some(marks) = self.today@ {
            let i = self.day as int;
            let left = self.left(marks);
            lemma_kept(held, marks, i, self.closes@[i], self.ts@[i], held.len() as int);
            assert forall|k: int| 0 <= k < left.len() implies (#[trigger] left[k]).entry_i <= i by {
                assert(stays(held, marks, i, self.closes@[i], self.ts@[i], left[k]));
                let j = choose|j: int|
                    stays_as(held, marks, i, self.closes@[i], self.ts@[i], left[k], j);
                assert(held[j].entry_i <= i);
            }
        }
    }

    /// Marks the open tranches today and sells those that have a reason.
    pub fn sell(&mut self, marks: &Vec<Mark>) -> (r: Vec<Sale>)
        requires
            old(self).wf(),
            old(self).today@ is None,
            old(self).day < old(self).closes@.len(),
            marks@.len() == old(self).book.open@.len(),
        ensures
            final(self).wf(),
            final(self).same_days(*old(self)),
            final(self).day == old(self).day,
            final(self).past@ == old(self).past@,
            final(self).today@ == Some(marks@),
            final(self).book.open@.len() <= MAX_OPEN,
            r@ == sold(
                old(self).book.open@,
                marks@,
                old(self).day as int,
                old(self).closes@[old(self).day as int],
                old(self).ts@[old(self).day as int],
                marks@.len() as int,
            ),
    {
        proof {
            self.law_keeps();
        }
        let i: usize = self.day;
        let sales: Vec<Sale> = self.book.close_out(i, self.closes[i], self.ts[i], marks);
        self.today = Ghost(Some(marks@));
        sales
    }

    /// Buys a tranche today where the entry signal is there, and gives what it costs; `p0`
    /// is the price of its put, and `cash` what there is after the sales. The day is over.
    pub fn buy(&mut self, p0: Num, cash: Num) -> (r: Option<Num>)
        requires
            old(self).wf(),
            old(self).today@ is Some,
        ensures
            final(self).wf(),
            final(self).same_days(*old(self)),
            final(self).day == old(self).day + 1,
            final(self).today@ is None,
            final(self).past@ == old(self).past@.push(
                DayView {
                    skew_pct: old(self).skew_pct@[old(self).day as int],
                    ts: old(self).ts@[old(self).day as int],
                    marks: old(self).today@->0,
                    p0,
                    cash,
                },
            ),
            final(self).book.open@.len() <= MAX_OPEN,
            r == (if enters(
                old(self).book.open@,
                old(self).day as int,
                old(self).skew_pct@[old(self).day as int],
                old(self).ts@[old(self).day as int],
                old(self).closes@,
                old(self).ivs@,
                p0,
                cash,
            ) {
                Some(stake(cash))
            } else {
                None
            }),
            r matches Some(cost) ==> cost.at_most(cash) && cost.at_most(Num { bits: TRANCHE }),
            r matches Some(cost) ==> ((Num { bits: 0x40b3_8800_0000_0000 }).at_most(cash) ==> cost == Num {
                bits: 0x40b3_8800_0000_0000,
            }) && (cash.below(Num { bits: 0x40b3_8800_0000_0000 }) ==> cost == cash),
    {
        proof {
            self.law_keeps();
        }
        let i: usize = self.day;
        let n: usize = self.closes.len();
        assert(i < n);
        let ghost was = *self;
        let cost: Option<Num> = self.book.enter(
            i,
            self.skew_pct[i],
            self.ts[i],
            &self.closes,
            &self.ivs,
            p0,
            cash,
        );
        self.day = i + 1;
        let ghost brought = DayView {
            skew_pct: was.skew_pct@[i as int],
            ts: was.ts@[i as int],
            marks: was.today@->0,
            p0,
            cash,
        };
        self.past = Ghost(was.past@.push(brought));
        self.today = Ghost(None);
        proof {
            lemma_same_past(was.past@, self.past@, self.closes@, self.ivs@, i as int);
            assert(self.past@[i as int] == brought);
            assert(self.book.open@ == self.held());
            self.law_keeps();
        }
        cost
    }
}

/// What is open after some days rests on those days alone.
proof fn lemma_same_past(a: Seq<DayView>, b: Seq<DayView>, closes: Seq<Num>, ivs: Seq<Num>, n: int)
    requires
        n <= a.len(),
        n <= b.len(),
        forall|i: int| 0 <= i < n ==> #[trigger] a[i] == b[i],
    ensures
        open_after(a, closes, ivs, n) == open_after(b, closes, ivs, n),
    decreases n,
{
    if n > 0 {
        lemma_same_past(a, b, closes, ivs, n - 1);
        assert(a[n - 1] == b[n - 1]);
    }
}

// ---- what the book owes to its inputs ----

/// A tranche is bought on a day exactly where the skew is at percentile 90 or more, the
/// term structure above 1.05, spot and volatility above those of five days before, fewer
/// than two tranches are open, the cash is 1 or more, and the put costs more than
/// 0.000000001.
pub proof fn law_enters(
    open: Seq<Pos>,
    i: int,
    skew_pct: Num,
    ts: Num,
    closes: Seq<Num>,
    ivs: Seq<Num>,
    p0: Num,
    cash: Num,
)
    ensures
        enters(open, i, skew_pct, ts, closes, ivs, p0, cash) <==> {
            &&& skew_pct.finite() && (Num { bits: 0x4056_8000_0000_0000 }).at_most(skew_pct)
            &&& ts.finite() && (Num { bits: 0x3ff0_cccc_cccc_cccd }).below(ts)
            &&& i >= 5
            &&& closes[i - 5].below(closes[i])
            &&& ivs[i - 5].below(ivs[i]) && ivs[i - 5].finite() && ivs[i].finite()
            &&& open.len() < 2
            &&& (Num { bits: 0x3ff0_0000_0000_0000 }).at_most(cash)
            &&& (Num { bits: 0x3e11_2e0b_e826_d695 }).below(p0)
        },
{
}

/// A purchase adds one tranche behind those that are open and changes none of them. With
/// cash of 5000 or more it costs 5000, with less it costs all the cash; its peak is what it
/// cost, and its day, its spot and its price are those of the purchase. Without a purchase
/// nothing changes.
pub proof fn law_cost(
    open: Seq<Pos>,
    i: int,
    skew_pct: Num,
    ts: Num,
    closes: Seq<Num>,
    ivs: Seq<Num>,
    p0: Num,
    cash: Num,
    after: Seq<Pos>,
)
    requires
        0 <= i <= usize::MAX,
        after == entered(open, i, skew_pct, ts, closes, ivs, p0, cash),
    ensures
        !enters(open, i, skew_pct, ts, closes, ivs, p0, cash) ==> after == open,
        enters(open, i, skew_pct, ts, closes, ivs, p0, cash) ==> {
            &&& after.len() == open.len() + 1
            &&& forall|k: int| 0 <= k < open.len() ==> after[k] == #[trigger] open[k]
            &&& (Num { bits: 0x40b3_8800_0000_0000 }).at_most(cash) ==> after.last().cost == (Num {
                bits: 0x40b3_8800_0000_0000,
            })
            &&& cash.below(Num { bits: 0x40b3_8800_0000_0000 }) ==> after.last().cost == cash
            &&& after.last().peak == after.last().cost
            &&& after.last().cost == stake(cash)
            &&& after.last().entry_i == i
            &&& after.last().entry_spot == closes[i]
            &&& after.last().p0 == p0
        },
{
}

/// What is asked for a tranche is 5000 wherever the cash is 5000 or more, and all the cash
/// wherever it is less.
pub proof fn law_stake_is_share_or_all(cash: Num)
    requires
        (Num { bits: 0x3ff0_0000_0000_0000 }).at_most(cash),
    ensures
        (Num { bits: 0x40b3_8800_0000_0000 }).at_most(cash) ==> stake(cash) == (Num {
            bits: 0x40b3_8800_0000_0000,
        }),
        cash.below(Num { bits: 0x40b3_8800_0000_0000 }) ==> stake(cash) == cash,
{
}

/// The entry signal of a day looks five days back.
pub proof fn law_entry_signal(skew_pct: Num, ts: Num, closes: Vec<Num>, ivs: Vec<Num>, i: usize, r: bool)
    requires
        i < closes@.len(),
        i < ivs@.len(),
        call_ensures(entry_signal, (skew_pct, ts, &closes, &ivs, i), r),
    ensures
        r <==> {
            &&& skew_pct.finite() && (Num { bits: 0x4056_8000_0000_0000 }).at_most(skew_pct)
            &&& ts.finite() && (Num { bits: 0x3ff0_cccc_cccc_cccd }).below(ts)
            &&& i >= 5
            &&& closes@[i - 5].below(closes@[i as int])
            &&& ivs@[i - 5].below(ivs@[i as int]) && ivs@[i - 5].finite() && ivs@[i as int].finite()
        },
{
}

/// A tranche has 21 days on the day of its purchase, one less each day, and none after.
pub proof fn law_days_left(p: Pos, i: usize, r: usize)
    requires
        p.entry_i <= i,
        call_ensures(days_left, (p, i), r),
    ensures
        i - p.entry_i <= 21 ==> r + (i - p.entry_i) == 21,
        i - p.entry_i > 21 ==> r == 0,
{
}

/// Marking a tranche keeps its day, spot, price and cost. Its peak becomes the value of
/// the day where that is greater, and else stays.
pub proof fn law_marked(p: Pos, m: Mark)
    ensures
        marked(p, m).entry_i == p.entry_i,
        marked(p, m).entry_spot == p.entry_spot,
        marked(p, m).p0 == p.p0,
        marked(p, m).cost == p.cost,
        p.peak.below(m.value) ==> marked(p, m).peak == m.value,
        !p.peak.below(m.value) ==> marked(p, m).peak == p.peak,
{
}

/// Why a tranche is sold. On the day of its purchase nothing sells it. Later, spot below
/// the stop sells it first. Next, a value that has given back too much: it is at most the
/// trail of the peak, today's value counted into the peak, and that peak is above the
/// cost. Next a term structure below 1, and last 21 days.
pub proof fn law_reason(p: Pos, m: Mark, i: int, close: Num, ts: Num)
    ensures
        i == p.entry_i ==> reason(p, m, i, close, ts) is None,
        reason(p, m, i, close, ts) == Some(Reason::Stop) <==> i != p.entry_i && close.below(m.stop),
        p.peak.below(m.value) ==> (reason(p, m, i, close, ts) == Some(Reason::Trail) <==> i != p.entry_i
            && !close.below(m.stop) && p.cost.below(m.value) && m.value.at_most(m.trail_of_value)),
        !p.peak.below(m.value) ==> (reason(p, m, i, close, ts) == Some(Reason::Trail) <==> i != p.entry_i
            && !close.below(m.stop) && p.cost.below(p.peak) && m.value.at_most(m.trail_of_peak)),
        reason(p, m, i, close, ts) == Some(Reason::Contango) ==> ts.below(
            Num { bits: 0x3ff0_0000_0000_0000 },
        ),
        reason(p, m, i, close, ts) == Some(Reason::Expiry) ==> i - p.entry_i >= 21 && !ts.below(
            Num { bits: 0x3ff0_0000_0000_0000 },
        ),
        i != p.entry_i && ts.below(Num { bits: 0x3ff0_0000_0000_0000 }) ==> reason(p, m, i, close, ts) is Some,
        i != p.entry_i && i - p.entry_i >= 21 ==> reason(p, m, i, close, ts) is Some,
{
}

/// Each tranche of the book is either kept or sold, and no other is. Both stand in the
/// order of the book. What is kept is the tranche itself, marked; what is sold is sold at
/// the value of the day, for the reason that this tranche has.
pub proof fn law_kept_or_sold(open: Seq<Pos>, marks: Seq<Mark>, i: int, close: Num, ts: Num, n: int) -> (r: (
    Seq<int>,
    Seq<int>,
))
    requires
        0 <= n <= open.len(),
        open.len() == marks.len(),
    ensures
        r.0.len() == kept(open, marks, i, close, ts, n).len(),
        r.1.len() == sold(open, marks, i, close, ts, n).len(),
        forall|k: int| 0 <= k < r.0.len() ==> 0 <= #[trigger] r.0[k] < n,
        forall|k: int| 0 <= k < r.1.len() ==> 0 <= #[trigger] r.1[k] < n,
        forall|j: int, k: int| 0 <= j < k < r.0.len() ==> #[trigger] r.0[j] < #[trigger] r.0[k],
        forall|j: int, k: int| 0 <= j < k < r.1.len() ==> #[trigger] r.1[j] < #[trigger] r.1[k],
        forall|j: int|
            0 <= j < n ==> (r.0.contains(j) <==> reason(#[trigger] open[j], marks[j], i, close, ts) is None),
        forall|j: int|
            0 <= j < n ==> (r.1.contains(j) <==> reason(#[trigger] open[j], marks[j], i, close, ts) is Some),
        forall|k: int|
            0 <= k < r.0.len() ==> kept(open, marks, i, close, ts, n)[k] == marked(
                open[#[trigger] r.0[k]],
                marks[r.0[k]],
            ),
        forall|k: int|
            0 <= k < r.1.len() ==> sold(open, marks, i, close, ts, n)[k].value == marks[#[trigger] r.1[k]].value
                && sold(open, marks, i, close, ts, n)[k].pos == marked(open[r.1[k]], marks[r.1[k]])
                && reason(open[r.1[k]], marks[r.1[k]], i, close, ts) == Some(
                sold(open, marks, i, close, ts, n)[k].reason,
            ),
    decreases n,
{
    if n <= 0 {
        (Seq::empty(), Seq::empty())
    } else {
        let f = law_kept_or_sold(open, marks, i, close, ts, n - 1);
        let stays = reason(open[n - 1], marks[n - 1], i, close, ts) is None;
        let a = if stays {
            f.0.push(n - 1)
        } else {
            f.0
        };
        let b = if stays {
            f.1
        } else {
            f.1.push(n - 1)
        };
        assert forall|j: int| 0 <= j < n implies (a.contains(j) <==> reason(
            #[trigger] open[j],
            marks[j],
            i,
            close,
            ts,
        ) is None) && (b.contains(j) <==> reason(open[j], marks[j], i, close, ts) is Some) by {
            lemma_push_contains(f.0, n - 1, j);
            lemma_push_contains(f.1, n - 1, j);
            if j == n - 1 {
                if f.0.contains(j) {
                    let k = choose|k: int| 0 <= k < f.0.len() && f.0[k] == j;
                    assert(f.0[k] < n - 1);
                }
                if f.1.contains(j) {
                    let k = choose|k: int| 0 <= k < f.1.len() && f.1[k] == j;
                    assert(f.1[k] < n - 1);
                }
            }
        }
        (a, b)
    }
}

proof fn lemma_push_contains(s: Seq<int>, x: int, y: int)
    ensures
        s.push(x).contains(y) <==> s.contains(y) || x == y,
{
    if s.contains(y) {
        let k = choose|k: int| 0 <= k < s.len() && s[k] == y;
        assert(s.push(x)[k] == y);
    }
    if x == y {
        assert(s.push(x)[s.len() as int] == y);
    }
    if s.push(x).contains(y) && x != y {
        let k = choose|k: int| 0 <= k < s.push(x).len() && s.push(x)[k] == y;
        assert(s[k] == y);
    }
}

/// The metrics of a day of the index are those of one observation, the same for all three:
/// it is not dated later than the day, and no other such observation is dated later than
/// it, nor as late and behind it. Before the first observation there are no metrics.
pub proof fn law_metrics_of_day(dates: Vec<String>, closes: Vec<Num>, m: Metrics, r: Hedge, i: int)
    requires
        in_order(views(dates@)),
        dates@.len() == closes@.len(),
        m.dates@.len() == m.iv@.len() == m.ts@.len() == m.skew_pct@.len(),
        call_ensures(Hedge::new, (&dates, closes, &m), r),
        0 <= i < dates@.len(),
    ensures
        r.closes@ == closes@,
        r.day == 0,
        r.book.open@.len() == 0,
        (exists|k: int|
            0 <= k < m.dates@.len() && !before(dates@[i]@, (#[trigger] m.dates@[k])@)) ==> exists|k: int|
            {
                &&& 0 <= k < m.dates@.len()
                &&& !before(dates@[i]@, (#[trigger] m.dates@[k])@)
                &&& r.ivs@[i] == m.iv@[k] && r.ts@[i] == m.ts@[k] && r.skew_pct@[i] == m.skew_pct@[k]
                &&& forall|j: int|
                    0 <= j < m.dates@.len() && !before(dates@[i]@, (#[trigger] m.dates@[j])@) ==> before(
                        m.dates@[j]@,
                        m.dates@[k]@,
                    ) || (m.dates@[j]@ == m.dates@[k]@ && j <= k)
            },
        (forall|k: int| 0 <= k < m.dates@.len() ==> before(dates@[i]@, (#[trigger] m.dates@[k])@))
            ==> r.ivs@[i].nan() && r.ts@[i].nan() && r.skew_pct@[i].nan(),
{
    let obs = views(m.dates@);
    let date = views(dates@)[i];
    assert(date == dates@[i]@);
    assert(is_metric(r.ivs@[i], m.iv@, obs, date));
    assert(is_metric(r.ts@[i], m.ts@, obs, date));
    assert(is_metric(r.skew_pct@[i], m.skew_pct@, obs, date));
    if exists|k: int| 0 <= k < m.dates@.len() && !before(dates@[i]@, (#[trigger] m.dates@[k])@) {
        let x = choose|k: int| 0 <= k < m.dates@.len() && !before(dates@[i]@, (#[trigger] m.dates@[k])@);
        assert(obs[x] == m.dates@[x]@);
        let a = choose|k: int| is_latest(obs, date, k) && r.ivs@[i] == m.iv@[k];
        let b = choose|k: int| is_latest(obs, date, k) && r.ts@[i] == m.ts@[k];
        let c = choose|k: int| is_latest(obs, date, k) && r.skew_pct@[i] == m.skew_pct@[k];
        lemma_one_latest(obs, date, a, b);
        lemma_one_latest(obs, date, a, c);
        assert(obs[a] == m.dates@[a]@);
        assert forall|j: int| 0 <= j < m.dates@.len() && !before(dates@[i]@, (#[trigger] m.dates@[j])@)
            implies before(m.dates@[j]@, m.dates@[a]@) || (m.dates@[j]@ == m.dates@[a]@ && j <= a) by {
            assert(obs[j] == m.dates@[j]@);
        }
    } else {
        assert forall|k: int| 0 <= k < obs.len() implies before(date, #[trigger] obs[k]) by {
            assert(obs[k] == m.dates@[k]@);
            assert(before(dates@[i]@, m.dates@[k]@));
        }
    }
}

proof fn lemma_one_latest(obs: Seq<Seq<char>>, date: Seq<char>, a: int, b: int)
    requires
        is_latest(obs, date, a),
        is_latest(obs, date, b),
    ensures
        a == b,
{
    assert(!before(date, obs[a]) && !before(date, obs[b]));
    law_before_is_total_order(obs[a], obs[b], obs[a]);
    law_before_is_total_order(obs[b], obs[a], obs[b]);
}

/// The last date that is not later than another: those behind it are all later, and there
/// is none exactly where all are.
pub proof fn law_last_upto(dates: Vec<String>, target: &str, r: Option<usize>)
    requires
        call_ensures(last_upto, (&dates, target), r),
    ensures
        r matches Some(k) ==> k < dates@.len() && !before(target@, dates@[k as int]@),
        forall|j: int|
            0 <= j < dates@.len() && (r is None || j > r->0) ==> before(
                target@,
                (#[trigger] dates@[j])@,
            ),
{
    let d = views(dates@);
    if let Some(k) = r {
        assert(is_last_upto(d, target@, k as int));
        assert(d[k as int] == dates@[k as int]@);
    }
    assert forall|j: int| 0 <= j < dates@.len() && (r is None || j > r->0) implies before(
        target@,
        (#[trigger] dates@[j])@,
    ) by {
        assert(d[j] == dates@[j]@);
        assert(before(target@, d[j]));
    }
}

/// Row `i` of the equity file holds date `i` and value `i`, in that order, and there are as
/// many rows as dates.
pub proof fn law_equity_file(dates: Vec<String>, values: Vec<String>, r: String, i: int)
    requires
        dates@.len() == values@.len(),
        call_ensures(equity_file, (&dates, &values), r),
        forall|i: int| 0 <= i < dates@.len() ==> is_field((#[trigger] dates@[i])@),
        forall|i: int| 0 <= i < values@.len() ==> is_numeral((#[trigger] values@[i])@),
        0 <= i < dates@.len(),
    ensures
        rows_of(r@, 2).len() == dates@.len(),
        rows_of(r@, 2)[i] == seq![dates@[i]@, values@[i]@],
{
    let d = views(dates@);
    let v = views(values@);
    assert forall|i: int| 0 <= i < d.len() implies is_field(#[trigger] d[i]) by {
        assert(d[i] == dates@[i]@);
    }
    assert forall|i: int| 0 <= i < v.len() implies is_numeral(#[trigger] v[i]) by {
        assert(v[i] == values@[i]@);
    }
    law_equity_reads_back(d, v);
    assert(d[i] == dates@[i]@ && v[i] == values@[i]@);
    assert(equity_rows(d, v)[i] == seq![d[i], v[i]]);
}

/// The file of the equity curve starts with the line "date,equity".
pub proof fn law_equity_header(dates: Vec<String>, values: Vec<String>, r: String)
    requires
        dates@.len() == values@.len(),
        call_ensures(equity_file, (&dates, &values), r),
    ensures
        r@.len() >= 12,
        r@.take(12) == "date,equity"@.push('\n'),
{
    reveal_strlit("date,equity");
    law_file_starts("date,equity"@, equity_rows(views(dates@), views(values@)));
}

proof fn lemma_none_kept(open: Seq<Pos>, marks: Seq<Mark>, i: int, close: Num, ts: Num, n: int)
    requires
        0 <= n <= open.len(),
        forall|k: int| 0 <= k < n ==> reason(#[trigger] open[k], marks[k], i, close, ts) is Some,
    ensures
        kept(open, marks, i, close, ts, n).len() == 0,
    decreases n,
{
    if n > 0 {
        lemma_none_kept(open, marks, i, close, ts, n - 1);
        assert(reason(open[n - 1], marks[n - 1], i, close, ts) is Some);
    }
}

/// A day sells before it buys: where it sells all that was open, what it buys is all that is
/// open when it is over, though the book was full before.
pub proof fn law_sales_make_room(days: Seq<DayView>, closes: Seq<Num>, ivs: Seq<Num>, i: int)
    requires
        0 <= i < days.len(),
        i < closes.len() <= usize::MAX,
        i < ivs.len(),
        forall|k: int|
            0 <= k < open_after(days, closes, ivs, i).len() ==> reason(
                #[trigger] open_after(days, closes, ivs, i)[k],
                days[i].marks[k],
                i,
                closes[i],
                days[i].ts,
            ) is Some,
        days[i].skew_pct.finite() && (Num { bits: 0x4056_8000_0000_0000 }).at_most(days[i].skew_pct),
        days[i].ts.finite() && (Num { bits: 0x3ff0_cccc_cccc_cccd }).below(days[i].ts),
        i >= 5 && closes[i - 5].below(closes[i]),
        ivs[i - 5].below(ivs[i]) && ivs[i - 5].finite() && ivs[i].finite(),
        (Num { bits: 0x3ff0_0000_0000_0000 }).at_most(days[i].cash),
        (Num { bits: 0x3e11_2e0b_e826_d695 }).below(days[i].p0),
    ensures
        open_after(days, closes, ivs, i + 1).len() == 1,
        open_after(days, closes, ivs, i + 1)[0].entry_i == i,
        open_after(days, closes, ivs, i + 1)[0].entry_spot == closes[i],
        open_after(days, closes, ivs, i + 1)[0].p0 == days[i].p0,
{
    let was = open_after(days, closes, ivs, i);
    let d = days[i];
    lemma_none_kept(was, d.marks, i, closes[i], d.ts, was.len() as int);
    let left = kept(was, d.marks, i, closes[i], d.ts, was.len() as int);
    law_enters(left, i, d.skew_pct, d.ts, closes, ivs, d.p0, d.cash);
    law_cost(left, i, d.skew_pct, d.ts, closes, ivs, d.p0, d.cash, open_after(days, closes, ivs, i + 1));
}

} // verus!

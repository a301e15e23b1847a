//! Index prices: daily bars, daily closes, and the days that each measure of a close
//! looks at.

use crate::csv::{law_observations_of_lines, observations, observed_values, pair_views};
use crate::dates::{
    day_in_range, day_text, fmt_ymd, law_every_day_has_a_date, law_parse_undoes_format,
    toward_zero, ymd_value,
};
use crate::json::{
    field_of, integer, integer_of, item, item_of, items, items_of, json_parsed, json_view,
    json_views, member, number, number_of, parse, JsonView,
};
use crate::num::{Num, ZERO};
use crate::table::{last_values, law_last_row_counts, tabulate, Table};
use crate::text::{cat, lines, lossy, split, trimmed, utf8_lossy};
use crate::numeral::is_numeral;
use vstd::prelude::*;

verus! {

// ---- bars ----

/// One day's opening, highest, lowest and closing price.
pub struct Bar {
    pub date: String,
    pub o: Num,
    pub h: Num,
    pub l: Num,
    pub c: Num,
}

/// What a bar holds.
pub struct BarView {
    pub date: Seq<char>,
    pub o: Num,
    pub h: Num,
    pub l: Num,
    pub c: Num,
}

impl View for Bar {
    type V = BarView;

    open spec fn view(&self) -> BarView {
        BarView { date: self.date@, o: self.o, h: self.h, l: self.l, c: self.c }
    }
}

/// What bars hold.
pub open spec fn bar_views(bars: Seq<Bar>) -> Seq<BarView> {
    bars.map_values(|b: Bar| b@)
}

/// Entry `i` of a column that may be shorter.
pub open spec fn entry(column: Seq<Option<Num>>, i: int) -> Option<Num> {
    if 0 <= i < column.len() {
        column[i]
    } else {
        None
    }
}

/// The columns of a price document: the times in seconds, and the prices.
pub struct Columns {
    pub times: Vec<i64>,
    pub o: Vec<Option<Num>>,
    pub h: Vec<Option<Num>>,
    pub l: Vec<Option<Num>>,
    pub c: Vec<Option<Num>>,
}

/// What columns hold.
pub struct ColumnsView {
    pub times: Seq<i64>,
    pub o: Seq<Option<Num>>,
    pub h: Seq<Option<Num>>,
    pub l: Seq<Option<Num>>,
    pub c: Seq<Option<Num>>,
}

impl View for Columns {
    type V = ColumnsView;

    open spec fn view(&self) -> ColumnsView {
        ColumnsView { times: self.times@, o: self.o@, h: self.h@, l: self.l@, c: self.c@ }
    }
}

/// The bar of row `i`, where all four prices are there. Its date is that of the day
/// that the time falls on.
pub open spec fn bar_at(cols: ColumnsView, i: int) -> Option<BarView> {
    match (entry(cols.o, i), entry(cols.h, i), entry(cols.l, i), entry(cols.c, i)) {
        (Some(o), Some(h), Some(l), Some(c)) => Some(
            BarView { date: day_text(toward_zero(cols.times[i] as int, 86400)), o, h, l, c },
        ),
        _ => None,
    }
}

/// The bars of the first `n` rows.
pub open spec fn bars_upto(cols: ColumnsView, n: int) -> Seq<BarView>
    decreases n,
{
    if n <= 0 {
        Seq::empty()
    } else {
        match bar_at(cols, n - 1) {
            Some(b) => bars_upto(cols, n - 1).push(b),
            None => bars_upto(cols, n - 1),
        }
    }
}

fn entry_of(column: &Vec<Option<Num>>, i: usize) -> (r: Option<Num>)
    ensures
        r == entry(column@, i as int),
{
    if i < column.len() {
        column[i]
    } else {
        None
    }
}

/// The bars of all rows that have the four prices.
pub fn collect_bars(cols: &Columns) -> (r: Vec<Bar>)
    ensures
        bar_views(r@) == bars_upto(cols@, cols.times@.len() as int),
{
    let mut out: Vec<Bar> = Vec::new();
    let mut i: usize = 0;
    assert(bar_views(out@) =~= bars_upto(cols@, 0));
    while i < cols.times.len()
        invariant
            i <= cols.times@.len(),
            bar_views(out@) == bars_upto(cols@, i as int),
        decreases cols.times@.len() - i,
    {
        match (
            entry_of(&cols.o, i),
            entry_of(&cols.h, i),
            entry_of(&cols.l, i),
            entry_of(&cols.c, i),
        ) {
            (Some(o), Some(h), Some(l), Some(c)) => {
                let day: i64 = cols.times[i] / 86400;
                assert(day == toward_zero(cols.times@[i as int] as int, 86400));
                assert(day_in_range(day as int));
                let ghost was = out@;
                let b: Bar = Bar { date: fmt_ymd(day), o, h, l, c };
                out.push(b);
                assert(bar_views(out@) =~= bar_views(was).push(b@));
            },
            _ => {},
        }
        i = i + 1;
    }
    out
}

/// Item `i` of a list, nothing where there is none.
pub open spec fn slot_of(v: JsonView, i: int) -> JsonView {
    match item_of(v, i) {
        Some(x) => x,
        None => JsonView::Null,
    }
}

/// The numbers of a list, empty where it is no list.
pub open spec fn numbers_in(v: JsonView) -> Seq<Option<Num>> {
    match items_of(v) {
        Some(items) => items.map_values(|x: JsonView| number_of(x)),
        None => Seq::empty(),
    }
}

/// The time that an item is, zero where it is no integer.
pub open spec fn time_in(v: JsonView) -> i64 {
    match integer_of(v) {
        Some(t) => t,
        None => 0,
    }
}

/// The columns of a price document, where it has times.
pub open spec fn columns_in(v: JsonView) -> Option<ColumnsView> {
    let r = slot_of(field_of(field_of(v, "chart"@), "result"@), 0);
    let q = slot_of(field_of(field_of(r, "indicators"@), "quote"@), 0);
    match items_of(field_of(r, "timestamp"@)) {
        Some(items) => Some(
            ColumnsView {
                times: items.map_values(|x: JsonView| time_in(x)),
                o: numbers_in(field_of(q, "open"@)),
                h: numbers_in(field_of(q, "high"@)),
                l: numbers_in(field_of(q, "low"@)),
                c: numbers_in(field_of(q, "close"@)),
            },
        ),
        None => None,
    }
}

/// The numbers of a list under `key`.
fn read_numbers(v: Option<&serde_json::Value>, key: &str) -> (r: Vec<Option<Num>>)
    ensures
        r@ == numbers_in(
            match v {
                Some(x) => field_of(json_view(*x), key@),
                None => JsonView::Null,
            },
        ),
{
    let mut out: Vec<Option<Num>> = Vec::new();
    if let Some(x) = v {
        if let Some(y) = member(x, key) {
            if let Some(list) = items(y) {
                let mut i: usize = 0;
                while i < list.len()
                    invariant
                        i <= list@.len(),
                        out@.len() == i,
                        forall|k: int| 0 <= k < i ==> #[trigger] out@[k] == number_of(json_view(list@[k])),
                    decreases list@.len() - i,
                {
                    out.push(number(&list[i]));
                    i = i + 1;
                }
                assert(out@ =~= json_views(list@).map_values(|x: JsonView| number_of(x)));
            }
        }
    }
    out
}

fn read_times(list: &Vec<serde_json::Value>) -> (r: Vec<i64>)
    ensures
        r@ == json_views(list@).map_values(|x: JsonView| time_in(x)),
{
    let mut out: Vec<i64> = Vec::new();
    let mut i: usize = 0;
    while i < list.len()
        invariant
            i <= list@.len(),
            out@.len() == i,
            forall|k: int| 0 <= k < i ==> #[trigger] out@[k] == time_in(json_view(list@[k])),
        decreases list@.len() - i,
    {
        let t: i64 = match integer(&list[i]) {
            Some(t) => t,
            None => 0,
        };
        out.push(t);
        i = i + 1;
    }
    assert(out@ =~= json_views(list@).map_values(|x: JsonView| time_in(x)));
    out
}

/// Item 0 of the list under `outer` and `inner`.
fn first_under<'a>(v: &'a serde_json::Value, outer: &str, inner: &str) -> (r: Option<&'a serde_json::Value>)
    ensures
        slot_of(field_of(field_of(json_view(*v), outer@), inner@), 0) == (match r {
            Some(x) => json_view(*x),
            None => JsonView::Null,
        }),
{
    match member(v, outer) {
        Some(x) => match member(x, inner) {
            Some(y) => item(y, 0),
            None => None,
        },
        None => None,
    }
}

/// The columns of a price document.
fn read_columns(v: &serde_json::Value) -> (r: Option<Columns>)
    ensures
        match r {
            Some(cols) => columns_in(json_view(*v)) == Some(cols@),
            None => columns_in(json_view(*v)) is None,
        },
{
    match first_under(v, "chart", "result") {
        Some(result) => match member(result, "timestamp") {
            Some(stamps) => match items(stamps) {
                Some(list) => {
                    let q: Option<&serde_json::Value> = first_under(result, "indicators", "quote");
                    Some(
                        Columns {
                            times: read_times(list),
                            o: read_numbers(q, "open"),
                            h: read_numbers(q, "high"),
                            l: read_numbers(q, "low"),
                            c: read_numbers(q, "close"),
                        },
                    )
                },
                None => None,
            },
            None => None,
        },
        None => None,
    }
}

/// The bars that a price document holds, or why it holds none.
pub open spec fn bars_in(v: JsonView) -> Result<Seq<BarView>, Seq<char>> {
    match columns_in(v) {
        None => Err("yahoo: no timestamp"@),
        Some(cols) => {
            let bars = bars_upto(cols, cols.times.len() as int);
            if bars.len() == 0 {
                Err("yahoo: no OHLC bars parsed"@)
            } else {
                Ok(bars)
            }
        },
    }
}

/// The bars that the bytes of a price document hold, or why they hold none.
pub open spec fn bars_of(body: Seq<u8>) -> Result<Seq<BarView>, Seq<char>> {
    match json_parsed(body) {
        Ok(v) => bars_in(v),
        Err(e) => Err("yahoo json: "@ + e),
    }
}

/// The bars that a price document holds.
pub fn fetch_ohlc_yahoo(body: &[u8]) -> (r: Result<Vec<Bar>, String>)
    ensures
        match r {
            Ok(bars) => bars_of(body@) matches Ok(b) && bar_views(bars@) == b,
            Err(e) => bars_of(body@) matches Err(m) && e@ == m,
        },
{
    match parse(body) {
        Ok(v) => match read_columns(&v) {
            Some(cols) => {
                let bars: Vec<Bar> = collect_bars(&cols);
                if bars.len() == 0 {
                    assert(bar_views(bars@).len() == 0);
                    Err("yahoo: no OHLC bars parsed".to_string())
                } else {
                    assert(bar_views(bars@).len() > 0);
                    Ok(bars)
                }
            },
            None => Err("yahoo: no timestamp".to_string()),
        },
        Err(e) => Err(cat("yahoo json: ", e.as_str())),
    }
}

/// How many bars there are, and the date of the last.
pub fn summary(bars: &Vec<Bar>) -> (r: (usize, String))
    ensures
        r.0 == bars@.len(),
        r.1@ == (if bars@.len() > 0 {
            bars@.last().date@
        } else {
            ""@
        }),
{
    let n: usize = bars.len();
    (n, if n > 0 { bars[n - 1].date.clone() } else { "".to_string() })
}

/// The bars of a price document, how many there are, and the date of the last.
pub fn update_ohlc(body: &[u8]) -> (r: Result<(Vec<Bar>, usize, String), String>)
    ensures
        match r {
            Ok((bars, n, last)) => bars_of(body@) matches Ok(b) && bar_views(bars@) == b && n == b.len()
                && last@ == b.last().date,
            Err(e) => bars_of(body@) matches Err(m) && e@ == m,
        },
{
    match fetch_ohlc_yahoo(body) {
        Ok(bars) => {
            let (n, last): (usize, String) = summary(&bars);
            assert(bar_views(bars@).len() == n);
            assert(bar_views(bars@).last() == bars@.last()@);
            Ok((bars, n, last))
        },
        Err(e) => Err(e),
    }
}

// ---- closes ----

/// The dates and closes, as text, of the bytes of a two-column file.
pub fn spx_rows(bytes: &[u8]) -> (r: Vec<(String, String)>)
    ensures
        pair_views(r@) == observations(utf8_lossy(bytes@), true),
{
    observed_values(lossy(bytes).as_str(), true)
}

/// The closes by date, each date with its last row.
pub fn load_spx(rows: &Vec<(String, Num)>) -> (r: Result<Table<Num>, String>)
    ensures
        match r {
            Ok(t) => rows@.len() > 0 && t@ == last_values(rows@),
            Err(e) => rows@.len() == 0 && e@ == "no SP500 rows parsed from FRED"@,
        },
{
    if rows.len() == 0 {
        Err("no SP500 rows parsed from FRED".to_string())
    } else {
        Ok(tabulate(rows))
    }
}

// ---- the days that a measure looks at ----

/// The least finite number.
pub const LEAST: u64 = 0xffef_ffff_ffff_ffff;

/// The trading days of a month.
pub const MONTH: usize = 21;

/// The trading days of a week.
pub const WEEK: usize = 5;

/// The day of the highest close so far, up to day `i`: the first such day. Nothing
/// while no close was above the least number.
pub open spec fn peak_day(closes: Seq<Num>, i: int) -> Option<int>
    decreases i + 1,
{
    if i < 0 {
        None
    } else {
        let was = peak_day(closes, i - 1);
        let top = match was {
            Some(p) => closes[p],
            None => Num { bits: LEAST },
        };
        if top.below(closes[i]) {
            Some(i)
        } else {
            was
        }
    }
}

/// The days that the measures of one day's close look at.
#[derive(Clone, Copy, Debug, PartialEq, Eq, Structural)]
pub struct Outlook {
    /// The highest close so far.
    pub peak: Option<usize>,
    /// The first of the returns, up to this day's, that realized volatility is of.
    pub trailing: Option<usize>,
    /// One week ahead.
    pub week: Option<usize>,
    /// One month ahead.
    pub month: Option<usize>,
    /// The end of the month ahead: the day behind its last one.
    pub until: usize,
}

/// Day `i + k`, where the series of `n` days reaches it.
pub open spec fn days_ahead(n: int, i: int, k: int) -> Option<int> {
    if i + k < n {
        Some(i + k)
    } else {
        None
    }
}

/// Whether `place` is `want`.
pub open spec fn is_place(place: Option<usize>, want: Option<int>) -> bool {
    match place {
        Some(p) => want == Some(p as int),
        None => want is None,
    }
}

/// Whether `o` names the days that the measures of day `i` look at.
pub open spec fn is_outlook(o: Outlook, closes: Seq<Num>, i: int) -> bool {
    let n = closes.len() as int;
    &&& is_place(o.peak, peak_day(closes, i))
    &&& is_place(
        o.trailing,
        if i >= MONTH {
            Some(i - MONTH + 1)
        } else {
            None
        },
    )
    &&& is_place(o.week, days_ahead(n, i, WEEK as int))
    &&& is_place(o.month, days_ahead(n, i, MONTH as int))
    &&& o.until == (if i + MONTH + 1 < n {
        i + MONTH + 1
    } else {
        n
    })
}

fn ahead(n: usize, i: usize, k: usize) -> (r: Option<usize>)
    requires
        i < n,
    ensures
        is_place(r, days_ahead(n as int, i as int, k as int)),
{
    if k < n - i {
        Some(i + k)
    } else {
        None
    }
}

/// The days that the measures of each day's close look at: drawdown from the peak,
/// realized volatility of the trailing month, and the returns ahead.
pub fn enrich(closes: &Vec<Num>) -> (r: Vec<Outlook>)
    ensures
        r@.len() == closes@.len(),
        forall|i: int| 0 <= i < r@.len() ==> is_outlook(#[trigger] r@[i], closes@, i),
{
    let n: usize = closes.len();
    let mut out: Vec<Outlook> = Vec::new();
    let mut peak: Option<usize> = None;
    let mut i: usize = 0;
    while i < n
        invariant
            n == closes@.len(),
            i <= n,
            out@.len() == i,
            is_place(peak, peak_day(closes@, i - 1)),
            peak matches Some(p) ==> p < i,
            forall|k: int| 0 <= k < i ==> is_outlook(#[trigger] out@[k], closes@, k),
        decreases n - i,
    {
        let top: Num = match peak {
            Some(p) => closes[p],
            None => Num::new(LEAST),
        };
        if top.lt(closes[i]) {
            peak = Some(i);
        }
        let month: Option<usize> = ahead(n, i, MONTH);
        let until: usize = if n - i > MONTH + 1 { i + MONTH + 1 } else { n };
        let trailing: Option<usize> = if i >= MONTH { Some(i - MONTH + 1) } else { None };
        out.push(Outlook { peak, trailing, week: ahead(n, i, WEEK), month, until });
        i = i + 1;
    }
    out
}

/// Where all closes are above the least number, the peak of a day is the first of its
/// highest closes so far: no drawdown is above zero.
pub proof fn law_peak(closes: Seq<Num>, i: int)
    requires
        0 <= i < closes.len(),
        forall|k: int| 0 <= k <= i ==> (Num { bits: LEAST }).below(#[trigger] closes[k]),
    ensures
        peak_day(closes, i) matches Some(p) && 0 <= p <= i && (forall|k: int|
            0 <= k <= i ==> (#[trigger] closes[k]).at_most(closes[p])) && (forall|k: int|
            0 <= k < p ==> (#[trigger] closes[k]).below(closes[p])),
    decreases i,
{
    assert((Num { bits: LEAST }).below(closes[i]));
    if i > 0 {
        law_peak(closes, i - 1);
    } else {
        assert(peak_day(closes, -1) is None);
    }
}

/// No measure of the past looks ahead and none of the future looks back: realized
/// volatility is of a month of returns up to the day, none of them into the first
/// day, and every return ahead is to a later day.
pub proof fn law_outlook(o: Outlook, closes: Seq<Num>, i: int)
    requires
        0 <= i < closes.len(),
        is_outlook(o, closes, i),
    ensures
        o.trailing matches Some(from) ==> 1 <= from && i - from + 1 == MONTH,
        o.week matches Some(k) ==> i < k < closes.len(),
        o.month matches Some(k) ==> i < k < closes.len() && k < o.until,
        i < o.until <= closes.len(),
        o.peak matches Some(p) ==> p <= i,
{
    lemma_peak_is_past(closes, i);
}

proof fn lemma_peak_is_past(closes: Seq<Num>, i: int)
    ensures
        peak_day(closes, i) matches Some(p) ==> 0 <= p <= i,
    decreases i + 1,
{
    if i >= 0 {
        lemma_peak_is_past(closes, i - 1);
    }
}

/// The lowest return that is below zero, zero where there is none.
pub open spec fn worst_of(moves: Seq<Num>) -> Num
    decreases moves.len(),
{
    if moves.len() == 0 {
        Num { bits: ZERO }
    } else {
        let w = worst_of(moves.drop_last());
        if moves.last().below(w) {
            moves.last()
        } else {
            w
        }
    }
}

/// The lowest return that is below zero, zero where there is none.
pub fn worst(moves: &Vec<Num>) -> (r: Num)
    ensures
        r == worst_of(moves@),
{
    let mut w: Num = Num::new(ZERO);
    let mut i: usize = 0;
    while i < moves.len()
        invariant
            i <= moves@.len(),
            w == worst_of(moves@.take(i as int)),
        decreases moves@.len() - i,
    {
        assert(moves@.take(i + 1).drop_last() =~= moves@.take(i as int));
        if moves[i].lt(w) {
            w = moves[i];
        }
        i = i + 1;
    }
    assert(moves@.take(moves@.len() as int) =~= moves@);
    w
}

/// The worst return is never above zero, nor above any return.
pub proof fn law_worst(moves: Seq<Num>)
    ensures
        worst_of(moves).at_most(Num { bits: ZERO }),
        forall|k: int|
            0 <= k < moves.len() && !(#[trigger] moves[k]).nan() ==> worst_of(moves).at_most(
                moves[k],
            ),
        worst_of(moves) == (Num { bits: ZERO }) || moves.contains(worst_of(moves)),
    decreases moves.len(),
{
    if moves.len() > 0 {
        let t = moves.drop_last();
        law_worst(t);
        assert(moves.last() == moves[moves.len() - 1]);
        assert forall|k: int| 0 <= k < moves.len() && !(#[trigger] moves[k]).nan() implies worst_of(
            moves,
        ).at_most(moves[k]) by {
            if k < t.len() {
                assert(t[k] == moves[k]);
            }
        }
        if t.contains(worst_of(t)) {
            let k = choose|k: int| 0 <= k < t.len() && t[k] == worst_of(t);
            assert(moves[k] == worst_of(t));
        }
    }
}

// ---- what bars owe to their document ----

/// The bars of the first rows, with the row that each comes from.
proof fn lemma_bar_rows(cols: ColumnsView, n: int) -> (from: Seq<int>)
    requires
        0 <= n <= cols.times.len(),
    ensures
        from.len() == bars_upto(cols, n).len(),
        forall|k: int| 0 <= k < from.len() ==> 0 <= #[trigger] from[k] < n,
        forall|j: int, k: int| 0 <= j < k < from.len() ==> #[trigger] from[j] < #[trigger] from[k],
        forall|k: int| 0 <= k < from.len() ==> bar_at(cols, #[trigger] from[k]) == Some(bars_upto(cols, n)[k]),
        forall|i: int| 0 <= i < n && #[trigger] bar_at(cols, i) is Some ==> from.contains(i),
    decreases n,
{
    if n <= 0 {
        Seq::empty()
    } else {
        let front = lemma_bar_rows(cols, n - 1);
        if bar_at(cols, n - 1) is Some {
            let from = front.push(n - 1);
            assert forall|i: int| 0 <= i < n && #[trigger] bar_at(cols, i) is Some implies from.contains(i) by {
                if i < n - 1 {
                    let k = choose|k: int| 0 <= k < front.len() && front[k] == i;
                    assert(from[k] == i);
                } else {
                    assert(from[front.len() as int] == i);
                }
            }
            from
        } else {
            front
        }
    }
}

/// The date of a time, from the first year on, reads back as the day it falls on; times
/// before 1970 fall on the day that they are less than a day away from, towards 1970.
proof fn lemma_date_of_time(t: i64)
    requires
        t >= -62_000_000_000,
    ensures
        t >= 0 ==> ymd_value(day_text(toward_zero(t as int, 86400))) == Some(t as int / 86400),
        t < 0 ==> ymd_value(day_text(toward_zero(t as int, 86400))) == Some(-(-t as int / 86400)),
{
    let z = toward_zero(t as int, 86400);
    law_every_day_has_a_date(z);
    law_parse_undoes_format(day_text(z), z);
}

/// Each bar comes from one row, in their order: its four prices are those at that row of the
/// columns of their own names, and its date is the day that the time of that row falls
/// on. Every row with all four prices has its bar.
pub proof fn law_bars_of_rows(cols: Columns, r: Vec<Bar>) -> (from: Seq<int>)
    requires
        call_ensures(collect_bars, (&cols,), r),
    ensures
        from.len() == r@.len(),
        forall|k: int|
            0 <= k < from.len() ==> 0 <= #[trigger] from[k] < cols.times@.len() && from[k] < cols.o@.len()
                && from[k] < cols.h@.len() && from[k] < cols.l@.len() && from[k] < cols.c@.len(),
        forall|j: int, k: int| 0 <= j < k < from.len() ==> #[trigger] from[j] < #[trigger] from[k],
        forall|k: int|
            0 <= k < from.len() ==> cols.o@[#[trigger] from[k]] == Some(r@[k].o) && cols.h@[from[k]] == Some(
                r@[k].h,
            ) && cols.l@[from[k]] == Some(r@[k].l) && cols.c@[from[k]] == Some(r@[k].c),
        forall|k: int|
            0 <= k < from.len() && cols.times@[from[k]] >= 0 ==> ymd_value(r@[k].date@) == Some(
                cols.times@[#[trigger] from[k]] as int / 86400,
            ),
        forall|k: int|
            0 <= k < from.len() && -62_000_000_000 <= cols.times@[from[k]] < 0 ==> ymd_value(r@[k].date@)
                == Some(-(-cols.times@[#[trigger] from[k]] as int / 86400)),
        forall|i: int|
            0 <= i < cols.times@.len() && i < cols.o@.len() && i < cols.h@.len() && i < cols.l@.len() && i
                < cols.c@.len() && (#[trigger] cols.o@[i]) is Some && cols.h@[i] is Some && cols.l@[i] is Some
                && cols.c@[i] is Some ==> from.contains(i),
{
    let n = cols.times@.len() as int;
    let from = lemma_bar_rows(cols@, n);
    let bars = bars_upto(cols@, n);
    assert(bar_views(r@).len() == r@.len());
    assert forall|k: int| 0 <= k < from.len() implies bar_at(cols@, #[trigger] from[k]) == Some(r@[k]@) by {
        assert(bar_views(r@)[k] == r@[k]@);
    }
    assert forall|k: int| 0 <= k < from.len() && cols.times@[from[k]] >= 0 implies ymd_value(r@[k].date@)
        == Some(cols.times@[#[trigger] from[k]] as int / 86400) by {
        assert(bar_at(cols@, from[k]) == Some(r@[k]@));
        lemma_date_of_time(cols.times@[from[k]]);
    }
    assert forall|k: int| 0 <= k < from.len() && -62_000_000_000 <= cols.times@[from[k]] < 0 implies ymd_value(
        r@[k].date@,
    ) == Some(-(-cols.times@[#[trigger] from[k]] as int / 86400)) by {
        assert(bar_at(cols@, from[k]) == Some(r@[k]@));
        lemma_date_of_time(cols.times@[from[k]]);
    }
    assert forall|i: int|
        0 <= i < cols.times@.len() && i < cols.o@.len() && i < cols.h@.len() && i < cols.l@.len() && i
            < cols.c@.len() && (#[trigger] cols.o@[i]) is Some && cols.h@[i] is Some && cols.l@[i] is Some
            && cols.c@[i] is Some implies from.contains(i) by {
        assert(bar_at(cols@, i) is Some);
    }
    from
}

/// The bars of a document come from the places of its first "result": each price is the
/// number that stands at that place in the list of its own name in the first "quote", and
/// the date is the day of the time that stands there in "timestamp". A place with all four
/// numbers has its bar. Without one the document has no bars.
pub proof fn law_bars_of_document(
    body: &[u8],
    r: Result<Vec<Bar>, String>,
    path: (Map<Seq<char>, JsonView>, Map<Seq<char>, JsonView>, Seq<JsonView>, Map<Seq<char>, JsonView>),
    quote: (Map<Seq<char>, JsonView>, Seq<JsonView>, Map<Seq<char>, JsonView>),
    stamps: Seq<JsonView>,
    os: Seq<JsonView>,
    hs: Seq<JsonView>,
    ls: Seq<JsonView>,
    cs: Seq<JsonView>,
) -> (from: Seq<int>)
    requires
        call_ensures(fetch_ohlc_yahoo, (body,), r),
        json_parsed(body@) == Ok::<JsonView, Seq<char>>(JsonView::Object(path.0)),
        path.0.contains_key("chart"@) && path.0["chart"@] == JsonView::Object(path.1),
        path.1.contains_key("result"@) && path.1["result"@] == JsonView::List(path.2),
        path.2.len() > 0 && path.2[0] == JsonView::Object(path.3),
        path.3.contains_key("timestamp"@) && path.3["timestamp"@] == JsonView::List(stamps),
        path.3.contains_key("indicators"@) && path.3["indicators"@] == JsonView::Object(quote.0),
        quote.0.contains_key("quote"@) && quote.0["quote"@] == JsonView::List(quote.1),
        quote.1.len() > 0 && quote.1[0] == JsonView::Object(quote.2),
        quote.2.contains_key("open"@) && quote.2["open"@] == JsonView::List(os),
        quote.2.contains_key("high"@) && quote.2["high"@] == JsonView::List(hs),
        quote.2.contains_key("low"@) && quote.2["low"@] == JsonView::List(ls),
        quote.2.contains_key("close"@) && quote.2["close"@] == JsonView::List(cs),
    ensures
        r is Ok <==> from.len() > 0,
        r matches Err(e) ==> e@ == "yahoo: no OHLC bars parsed"@,
        r matches Ok(bars) ==> bars@.len() == from.len(),
        forall|j: int, k: int| 0 <= j < k < from.len() ==> #[trigger] from[j] < #[trigger] from[k],
        forall|k: int|
            0 <= k < from.len() ==> 0 <= #[trigger] from[k] < stamps.len() && from[k] < os.len() && from[k]
                < hs.len() && from[k] < ls.len() && from[k] < cs.len(),
        forall|k: int|
            0 <= k < from.len() ==> os[#[trigger] from[k]] is Number && r->Ok_0@[k].o == os[from[k]]->Number_2,
        forall|k: int|
            0 <= k < from.len() ==> hs[#[trigger] from[k]] is Number && r->Ok_0@[k].h == hs[from[k]]->Number_2,
        forall|k: int|
            0 <= k < from.len() ==> ls[#[trigger] from[k]] is Number && r->Ok_0@[k].l == ls[from[k]]->Number_2,
        forall|k: int|
            0 <= k < from.len() ==> cs[#[trigger] from[k]] is Number && r->Ok_0@[k].c == cs[from[k]]->Number_2,
        forall|k: int|
            0 <= k < from.len() ==> (stamps[#[trigger] from[k]] matches JsonView::Number(_, Some(t), _) ==> t >= 0
                ==> ymd_value(r->Ok_0@[k].date@) == Some(t as int / 86400)),
        forall|k: int|
            0 <= k < from.len() ==> ((stamps[#[trigger] from[k]] !is Number || stamps[from[k]]->Number_1 is None)
                ==> ymd_value(r->Ok_0@[k].date@) == Some(0int)),
        forall|i: int|
            0 <= i < stamps.len() && i < os.len() && i < hs.len() && i < ls.len() && i < cs.len() && (
            #[trigger] os[i]) is Number && hs[i] is Number && ls[i] is Number && cs[i] is Number ==> from.contains(i),
{
    let v = JsonView::Object(path.0);
    assert(field_of(v, "chart"@) == JsonView::Object(path.1));
    assert(field_of(JsonView::Object(path.1), "result"@) == JsonView::List(path.2));
    let res = JsonView::Object(path.3);
    assert(slot_of(JsonView::List(path.2), 0) == res);
    assert(field_of(res, "indicators"@) == JsonView::Object(quote.0));
    assert(field_of(JsonView::Object(quote.0), "quote"@) == JsonView::List(quote.1));
    let q = JsonView::Object(quote.2);
    assert(slot_of(JsonView::List(quote.1), 0) == q);
    assert(field_of(q, "open"@) == JsonView::List(os) && field_of(q, "high"@) == JsonView::List(hs));
    assert(field_of(q, "low"@) == JsonView::List(ls) && field_of(q, "close"@) == JsonView::List(cs));
    assert(items_of(field_of(res, "timestamp"@)) == Some(stamps));
    let cols = columns_in(v)->0;
    assert(cols.times.len() == stamps.len());
    let n = cols.times.len() as int;
    let bars = bars_upto(cols, n);
    let from = lemma_bar_rows(cols, n);
    assert(bars_of(body@) == bars_in(v));
    assert forall|k: int| 0 <= k < from.len() implies r is Ok && bar_at(cols, #[trigger] from[k]) == Some(
        r->Ok_0@[k]@,
    ) by {
        assert(bars.len() > 0);
        assert(bar_views(r->Ok_0@)[k] == r->Ok_0@[k]@);
    }
    if r is Ok {
        assert(bar_views(r->Ok_0@).len() == r->Ok_0@.len());
    }
    assert forall|k: int| 0 <= k < from.len() implies (stamps[#[trigger] from[k]] matches JsonView::Number(
        _,
        Some(t),
        _,
    ) ==> t >= 0 ==> ymd_value(r->Ok_0@[k].date@) == Some(t as int / 86400)) by {
        assert(bar_at(cols, from[k]) == Some(r->Ok_0@[k]@));
        if let JsonView::Number(_, Some(t), _) = stamps[from[k]] {
            assert(cols.times[from[k]] == t);
            if t >= 0 {
                lemma_date_of_time(t);
            }
        }
    }
    assert forall|k: int| 0 <= k < from.len() && (stamps[#[trigger] from[k]] !is Number
        || stamps[from[k]]->Number_1 is None) implies ymd_value(r->Ok_0@[k].date@) == Some(0int) by {
        assert(bar_at(cols, from[k]) == Some(r->Ok_0@[k]@));
        assert(cols.times[from[k]] == 0);
        lemma_date_of_time(0);
    }
    assert forall|i: int|
        0 <= i < stamps.len() && i < os.len() && i < hs.len() && i < ls.len() && i < cs.len() && (
        #[trigger] os[i]) is Number && hs[i] is Number && ls[i] is Number && cs[i] is Number implies from.contains(
        i,
    ) by {
        assert(bar_at(cols, i) is Some);
    }
    from
}

/// A document whose first "result" has no list of times gives an error that says so, and
/// one that does not parse the error of the parser.
pub proof fn law_no_bars(body: &[u8], r: Result<Vec<Bar>, String>)
    requires
        call_ensures(fetch_ohlc_yahoo, (body,), r),
    ensures
        json_parsed(body@) matches Err(e) ==> (r matches Err(m) && m@ == "yahoo json: "@ + e),
        json_parsed(body@) matches Ok(v) && v !is Object ==> (r matches Err(m) && m@ == "yahoo: no timestamp"@),
        json_parsed(body@) matches Ok(v) && (v matches JsonView::Object(m) && !m.contains_key("chart"@)) ==> (
        r matches Err(m) && m@ == "yahoo: no timestamp"@),
{
}

/// The days of an outlook: from day 21 on the 21 returns that end with the day; five and
/// 21 days ahead where the series reaches them; and the day behind the 21 that follow, or
/// the end of the series.
pub proof fn law_days_of_outlook(closes: Vec<Num>, r: Vec<Outlook>, i: int)
    requires
        call_ensures(enrich, (&closes,), r),
        0 <= i < closes@.len(),
    ensures
        r@.len() == closes@.len(),
        i >= 21 ==> (r@[i].trailing matches Some(k) && k + 20 == i),
        i < 21 ==> r@[i].trailing is None,
        i + 5 < closes@.len() ==> (r@[i].week matches Some(k) && k == i + 5),
        i + 5 >= closes@.len() ==> r@[i].week is None,
        i + 21 < closes@.len() ==> (r@[i].month matches Some(k) && k == i + 21),
        i + 21 >= closes@.len() ==> r@[i].month is None,
        i + 22 <= closes@.len() ==> r@[i].until == i + 22,
        i + 22 > closes@.len() ==> r@[i].until == closes@.len(),
        (forall|k: int| 0 <= k <= i ==> (Num { bits: 0xffef_ffff_ffff_ffff }).below(#[trigger] closes@[k]))
            ==> (r@[i].peak matches Some(p) && p <= i && (forall|k: int|
            0 <= k <= i ==> (#[trigger] closes@[k]).at_most(closes@[p as int])) && (forall|k: int|
            0 <= k < p ==> (#[trigger] closes@[k]).below(closes@[p as int]))),
{
    assert(is_outlook(r@[i], closes@, i));
    assert(closes.len() == closes@.len());
    if forall|k: int| 0 <= k <= i ==> (Num { bits: 0xffef_ffff_ffff_ffff }).below(#[trigger] closes@[k]) {
        law_peak(closes@, i);
    }
}

/// The close of a date is that of the last row with it. There are closes exactly where
/// there are rows.
pub proof fn law_load_spx(rows: Vec<(String, Num)>, r: Result<Table<Num>, String>, i: int)
    requires
        call_ensures(load_spx, (&rows,), r),
        0 <= i < rows@.len(),
        forall|j: int| i < j < rows@.len() ==> (#[trigger] rows@[j]).0@ != rows@[i].0@,
    ensures
        r matches Ok(t) && t@.contains_key(rows@[i].0@) && t@[rows@[i].0@] == rows@[i].1,
{
    law_last_row_counts(rows@, rows@[i].0@);
}

/// The worst of some returns is one of them or zero, and none of them, nor zero, is below
/// it.
pub proof fn law_worst_return(moves: Vec<Num>, r: Num, k: int)
    requires
        call_ensures(worst, (&moves,), r),
    ensures
        r.at_most(Num { bits: 0 }),
        r == (Num { bits: 0 }) || moves@.contains(r),
        0 <= k < moves@.len() ==> !moves@[k].below(r),
{
    law_worst(moves@);
}

/// The summary of bars: how many there are, and the date of the last.
pub proof fn law_summary(bars: Vec<Bar>, r: (usize, String))
    requires
        call_ensures(summary, (&bars,), r),
    ensures
        r.0 == bars@.len(),
        bars@.len() > 0 ==> r.1@ == bars@[bars@.len() - 1].date@,
        bars@.len() == 0 ==> r.1@.len() == 0,
{
    reveal_strlit("");
}

/// The closes of a file come from its lines behind the first: the date and the value of each
/// line with a date and a second field that denotes a number.
pub proof fn law_spx_rows(bytes: &[u8], r: Vec<(String, String)>) -> (from: Seq<int>)
    requires
        call_ensures(spx_rows, (bytes,), r),
    ensures
        from.len() == r@.len(),
        forall|j: int, k: int| 0 <= j < k < from.len() ==> #[trigger] from[j] < #[trigger] from[k],
        forall|k: int|
            0 <= k < from.len() ==> 1 <= #[trigger] from[k] < lines(utf8_lossy(bytes@)).len() && r@[k].0@
                == trimmed(split(lines(utf8_lossy(bytes@))[from[k]], ',')[0]) && r@[k].1@ == trimmed(
                split(lines(utf8_lossy(bytes@))[from[k]], ',')[1],
            ),
        forall|i: int|
            1 <= i < lines(utf8_lossy(bytes@)).len() ==> (from.contains(i) <==> split(
                #[trigger] lines(utf8_lossy(bytes@))[i],
                ',',
            ).len() >= 2 && is_numeral(trimmed(split(lines(utf8_lossy(bytes@))[i], ',')[1])) && trimmed(
                split(lines(utf8_lossy(bytes@))[i], ',')[0],
            ).len() > 0),
{
    let text = utf8_lossy(bytes@);
    let from = law_observations_of_lines(text, true);
    let pv = pair_views(r@);
    assert(pv.len() == r@.len());
    assert forall|k: int| 0 <= k < from.len() implies 1 <= #[trigger] from[k] < lines(text).len() && r@[k].0@
        == trimmed(split(lines(text)[from[k]], ',')[0]) && r@[k].1@ == trimmed(
        split(lines(text)[from[k]], ',')[1],
    ) by {
        assert(pv[k] == (r@[k].0@, r@[k].1@));
    }
    from
}

/// From one day to the next the peak moves to the day where its close is above that of the
/// peak so far, and else stays; it starts on the first close above the least number.
pub proof fn law_peak_moves(closes: Vec<Num>, r: Vec<Outlook>, i: int)
    requires
        call_ensures(enrich, (&closes,), r),
        0 <= i < closes@.len(),
    ensures
        i > 0 ==> (r@[i - 1].peak matches Some(p) ==> (closes@[p as int].below(closes@[i]) ==> (r@[i].peak matches Some(
            q,
        ) && q == i)) && (!closes@[p as int].below(closes@[i]) ==> r@[i].peak == Some(p))),
        i > 0 && r@[i - 1].peak is None || i == 0 ==> ((Num { bits: 0xffef_ffff_ffff_ffff }).below(closes@[i]) ==> (
        r@[i].peak matches Some(q) && q == i)) && (!(Num { bits: 0xffef_ffff_ffff_ffff }).below(closes@[i])
            ==> r@[i].peak is None),
{
    assert(is_outlook(r@[i], closes@, i));
    if i > 0 {
        assert(is_outlook(r@[i - 1], closes@, i - 1));
    } else {
        assert(peak_day(closes@, -1) is None);
    }
}

/// A document with times but without one of the four lists of prices has no bars.
pub proof fn law_bars_need_all_prices(
    body: &[u8],
    r: Result<Vec<Bar>, String>,
    path: (Map<Seq<char>, JsonView>, Map<Seq<char>, JsonView>, Seq<JsonView>, Map<Seq<char>, JsonView>),
    quote: (Map<Seq<char>, JsonView>, Seq<JsonView>, Map<Seq<char>, JsonView>),
    stamps: Seq<JsonView>,
)
    requires
        call_ensures(fetch_ohlc_yahoo, (body,), r),
        json_parsed(body@) == Ok::<JsonView, Seq<char>>(JsonView::Object(path.0)),
        path.0.contains_key("chart"@) && path.0["chart"@] == JsonView::Object(path.1),
        path.1.contains_key("result"@) && path.1["result"@] == JsonView::List(path.2),
        path.2.len() > 0 && path.2[0] == JsonView::Object(path.3),
        path.3.contains_key("timestamp"@) && path.3["timestamp"@] == JsonView::List(stamps),
        path.3.contains_key("indicators"@) && path.3["indicators"@] == JsonView::Object(quote.0),
        quote.0.contains_key("quote"@) && quote.0["quote"@] == JsonView::List(quote.1),
        quote.1.len() > 0 && quote.1[0] == JsonView::Object(quote.2),
        !quote.2.contains_key("open"@) || !quote.2.contains_key("high"@) || !quote.2.contains_key("low"@)
            || !quote.2.contains_key("close"@),
    ensures
        r matches Err(e) && e@ == "yahoo: no OHLC bars parsed"@,
{
    let v = JsonView::Object(path.0);
    assert(field_of(v, "chart"@) == JsonView::Object(path.1));
    assert(field_of(JsonView::Object(path.1), "result"@) == JsonView::List(path.2));
    let res = JsonView::Object(path.3);
    assert(slot_of(JsonView::List(path.2), 0) == res);
    assert(field_of(res, "indicators"@) == JsonView::Object(quote.0));
    assert(field_of(JsonView::Object(quote.0), "quote"@) == JsonView::List(quote.1));
    let q = JsonView::Object(quote.2);
    assert(slot_of(JsonView::List(quote.1), 0) == q);
    assert(items_of(field_of(res, "timestamp"@)) == Some(stamps));
    let cols = columns_in(v)->0;
    assert(cols.o.len() == 0 || cols.h.len() == 0 || cols.l.len() == 0 || cols.c.len() == 0);
    let n = cols.times.len() as int;
    let from = lemma_bar_rows(cols, n);
    if from.len() > 0 {
        assert(bar_at(cols, from[0]) is Some);
    }
    assert(bars_of(body@) == bars_in(v));
}

} // verus!

//! 25-delta volatility skew, 30 days to expiry.
//!
//! 1. Per expiry, the put with delta closest to -0.25 and the call closest to 0.25
//!    are picked, within a tolerance, and the contracts nearest to 0.50 for the
//!    volatility at the money.
//! 2. The two expiries around 30 days are blended into a synthetic one.
//! 3. The skew is the volatility of the put less that of the call; its normalized
//!    form is the skew divided by the volatility at the money.
//!
//! The calculations with volatilities are made outside, between the steps below; each
//! step takes their results and decides what comes next.

use crate::csv::text_view;
use crate::dates::{fits, parse_ymd, ymd_value};
use crate::group::{group_by_key, is_group, Group};
use crate::json::{field_of, json_view, text_field, text_of, JsonView};
use crate::num::{Num, NAN, ZERO};
use crate::numeral::{denotes_number, is_numeral};
use crate::order::{comes_first, is_candidate, nearest};
use crate::text::{ascii_lower, same, same_ignoring_case, same_no_case, trim, trimmed};
use vstd::prelude::*;

verus! {

/// The days to expiry of the synthetic point.
pub const TARGET_DTE: i64 = 30;

/// The farthest that a delta may be from that of the wings: 0.10.
pub const WING_TOL: u64 = 0x3fb9_9999_9999_999a;

/// The farthest that a delta may be from that at the money: 0.15.
pub const ATM_TOL: u64 = 0x3fc3_3333_3333_3333;

/// The widest spread between bid and ask, as a part of their mean: 0.25.
pub const MAX_REL_SPREAD: u64 = 0x3fd0_0000_0000_0000;

/// The least volatility of a quote: 0.01.
pub const IV_MIN: u64 = 0x3f84_7ae1_47ae_147b;

/// The greatest volatility of a quote: 2.5.
pub const IV_MAX: u64 = 0x4004_0000_0000_0000;

/// A volatility at the money is above 0.03.
pub const ATM_IV_MIN: u64 = 0x3f9e_b851_eb85_1eb8;

/// A volatility at the money is at most 1.5.
pub const ATM_IV_MAX: u64 = 0x3ff8_0000_0000_0000;

/// No volatility of the synthetic point is below 0.02.
pub const POINT_IV_MIN: u64 = 0x3f94_7ae1_47ae_147b;

/// The volatilities of the synthetic point differ by a factor of at most 4.
pub const MAX_IV_RATIO: u64 = 0x4010_0000_0000_0000;

/// The skew is at least -0.05.
pub const SKEW_ABS_LO: u64 = 0xbfa9_9999_9999_999a;

/// The skew is at most 0.80.
pub const SKEW_ABS_HI: u64 = 0x3fe9_9999_9999_999a;

/// The first expiry that the term structure looks at.
pub const TERM_FROM: i64 = 5;

/// The least distance of its ends.
pub const TERM_SPAN: i64 = 10;

// ---- rows ----

/// What a row of a chain says, as text; the numbers are there where they are numbers.
pub struct OptionRow {
    pub expiration: Option<String>,
    pub call_put: Option<String>,
    pub vol: Option<String>,
    pub delta: Option<String>,
    pub bid: Option<String>,
    pub ask: Option<String>,
}

/// What a row holds.
pub struct RowView {
    pub expiration: Option<Seq<char>>,
    pub call_put: Option<Seq<char>>,
    pub vol: Option<Seq<char>>,
    pub delta: Option<Seq<char>>,
    pub bid: Option<Seq<char>>,
    pub ask: Option<Seq<char>>,
}

impl View for OptionRow {
    type V = RowView;

    open spec fn view(&self) -> RowView {
        RowView {
            expiration: text_view(self.expiration),
            call_put: text_view(self.call_put),
            vol: text_view(self.vol),
            delta: text_view(self.delta),
            bid: text_view(self.bid),
            ask: text_view(self.ask),
        }
    }
}

/// The number, as text, that the text of member `key` denotes.
pub open spec fn numeral_in(v: JsonView, key: Seq<char>) -> Option<Seq<char>> {
    match text_of(field_of(v, key)) {
        Some(s) => if is_numeral(trimmed(s)) {
            Some(trimmed(s))
        } else {
            None
        },
        None => None,
    }
}

/// What a row of a chain holds.
pub open spec fn row_in(v: JsonView) -> RowView {
    RowView {
        expiration: text_of(field_of(v, "expiration"@)),
        call_put: text_of(field_of(v, "call_put"@)),
        vol: numeral_in(v, "vol"@),
        delta: numeral_in(v, "delta"@),
        bid: numeral_in(v, "bid"@),
        ask: numeral_in(v, "ask"@),
    }
}

/// The number, as text, that member `key` denotes, white space around it dropped.
pub fn parse_f(v: &serde_json::Value, key: &str) -> (r: Option<String>)
    ensures
        text_view(r) == numeral_in(json_view(*v), key@),
{
    match text_field(v, key) {
        Some(s) => {
            let t: String = trim(s.as_str());
            if denotes_number(t.as_str()) {
                Some(t)
            } else {
                None
            }
        },
        None => None,
    }
}

/// The rows of a chain.
pub fn option_rows(rows: &Vec<serde_json::Value>) -> (r: Vec<OptionRow>)
    ensures
        r@.len() == rows@.len(),
        forall|i: int| 0 <= i < r@.len() ==> (#[trigger] r@[i])@ == row_in(json_view(rows@[i])),
{
    let mut out: Vec<OptionRow> = Vec::new();
    let mut i: usize = 0;
    while i < rows.len()
        invariant
            i <= rows@.len(),
            out@.len() == i,
            forall|k: int| 0 <= k < i ==> (#[trigger] out@[k])@ == row_in(json_view(rows@[k])),
        decreases rows@.len() - i,
    {
        let v: &serde_json::Value = &rows[i];
        out.push(
            OptionRow {
                expiration: text_field(v, "expiration"),
                call_put: text_field(v, "call_put"),
                vol: parse_f(v, "vol"),
                delta: parse_f(v, "delta"),
                bid: parse_f(v, "bid"),
                ask: parse_f(v, "ask"),
            },
        );
        i = i + 1;
    }
    out
}

// ---- quotes ----

/// The numbers of a row: volatility, delta, and the mean of bid and ask with their
/// distance as a part of it.
#[derive(Clone, Copy, Debug)]
pub struct Reading {
    pub iv: Option<Num>,
    pub delta: Option<Num>,
    pub spread: Option<(Num, Num)>,
}

/// One usable quote.
#[derive(Clone, Copy, Debug, PartialEq, Eq, Structural)]
pub struct Quote {
    pub dte: i64,
    pub is_call: bool,
    pub iv: Num,
    pub delta: Num,
}

/// Whether a quote is too wide: its mean is positive and its relative spread above
/// the limit.
pub open spec fn is_wide(spread: Option<(Num, Num)>) -> bool {
    match spread {
        Some((mid, rel)) => (Num { bits: ZERO }).below(mid) && (Num { bits: MAX_REL_SPREAD }).below(rel),
        None => false,
    }
}

/// Whether a volatility is one that a quote can have.
pub open spec fn is_quoted_iv(iv: Num) -> bool {
    iv.finite() && iv.between(Num { bits: IV_MIN }, Num { bits: IV_MAX })
}

/// Whether the text names a call.
pub open spec fn names_call(cp: Seq<char>) -> bool {
    same_ignoring_case(cp, "Call"@) || cp == "C"@
}

/// The quote that a row gives on a day: it expires later, its side is given, its
/// volatility and delta make sense, and it is not too wide.
pub open spec fn quote_of(date_days: int, row: RowView, x: Reading) -> Option<Quote> {
    match (row.expiration, row.call_put, x.iv, x.delta) {
        (Some(e), Some(cp), Some(iv), Some(delta)) => match ymd_value(e) {
            Some(exp) => if exp - date_days > 0 && fits(exp - date_days) && is_quoted_iv(iv)
                && delta.finite() && !is_wide(x.spread) {
                Some(Quote { dte: (exp - date_days) as i64, is_call: names_call(cp), iv, delta })
            } else {
                None
            },
            None => None,
        },
        _ => None,
    }
}

/// The quotes of the first `n` rows, in order.
pub open spec fn quotes_upto(date_days: int, rows: Seq<OptionRow>, xs: Seq<Reading>, n: int) -> Seq<Quote>
    decreases n,
{
    if n <= 0 {
        Seq::empty()
    } else {
        match quote_of(date_days, rows[n - 1]@, xs[n - 1]) {
            Some(q) => quotes_upto(date_days, rows, xs, n - 1).push(q),
            None => quotes_upto(date_days, rows, xs, n - 1),
        }
    }
}

fn read_quote(date_days: i64, row: &OptionRow, x: Reading) -> (r: Option<Quote>)
    ensures
        r == quote_of(date_days as int, row@, x),
{
    match (&row.expiration, &row.call_put, x.iv, x.delta) {
        (Some(e), Some(cp), Some(iv), Some(delta)) => match parse_ymd(e.as_str()) {
            Some(exp) => {
                let dte: i128 = exp as i128 - date_days as i128;
                let wide: bool = match x.spread {
                    Some((mid, rel)) => Num::new(ZERO).lt(mid) && Num::new(MAX_REL_SPREAD).lt(rel),
                    None => false,
                };
                if dte > 0 && dte <= 0x7fff_ffff_ffff_ffff && iv.is_finite() && iv.within(
                    Num::new(IV_MIN),
                    Num::new(IV_MAX),
                ) && delta.is_finite() && !wide {
                    let is_call: bool = same_no_case(cp.as_str(), "Call") || same(cp.as_str(), "C");
                    Some(Quote { dte: dte as i64, is_call, iv, delta })
                } else {
                    None
                }
            },
            None => None,
        },
        _ => None,
    }
}

/// The usable quotes among a day's rows. Rows whose days to expiry leave `i64` are
/// not usable.
pub fn clean_quotes(date_days: i64, rows: &Vec<OptionRow>, xs: &Vec<Reading>) -> (r: Vec<Quote>)
    requires
        rows@.len() == xs@.len(),
    ensures
        r@ == quotes_upto(date_days as int, rows@, xs@, rows@.len() as int),
{
    let mut out: Vec<Quote> = Vec::new();
    let mut i: usize = 0;
    while i < rows.len()
        invariant
            i <= rows@.len() == xs@.len(),
            out@ == quotes_upto(date_days as int, rows@, xs@, i as int),
        decreases rows@.len() - i,
    {
        match read_quote(date_days, &rows[i], xs[i]) {
            Some(q) => out.push(q),
            None => {},
        }
        i = i + 1;
    }
    out
}

/// Every usable quote expires later than the day, and its volatility and delta are
/// numbers within bounds, whatever the rows hold.
pub proof fn law_quotes_are_usable(date_days: int, rows: Seq<OptionRow>, xs: Seq<Reading>, n: int)
    requires
        0 <= n <= rows.len(),
        rows.len() == xs.len(),
    ensures
        quotes_upto(date_days, rows, xs, n).len() <= n,
        forall|i: int|
            0 <= i < quotes_upto(date_days, rows, xs, n).len() ==> (#[trigger] quotes_upto(
                date_days,
                rows,
                xs,
                n,
            )[i]).dte > 0 && is_quoted_iv(quotes_upto(date_days, rows, xs, n)[i].iv) && quotes_upto(
                date_days,
                rows,
                xs,
                n,
            )[i].delta.finite(),
    decreases n,
{
    if n > 0 {
        law_quotes_are_usable(date_days, rows, xs, n - 1);
    }
}

// ---- expiries ----

/// Whether some quote expires in `dte` days.
pub open spec fn occurs(quotes: Seq<Quote>, dte: i64) -> bool {
    exists|k: int| 0 <= k < quotes.len() && (#[trigger] quotes[k]).dte == dte
}

/// Whether `dtes` are the days to expiry that occur among the quotes, ascending.
pub open spec fn are_dtes(dtes: Seq<i64>, quotes: Seq<Quote>) -> bool {
    &&& forall|i: int, j: int| 0 <= i < j < dtes.len() ==> #[trigger] dtes[i] < #[trigger] dtes[j]
    &&& forall|k: int| 0 <= k < quotes.len() ==> dtes.contains((#[trigger] quotes[k]).dte)
    &&& forall|i: int| 0 <= i < dtes.len() ==> occurs(quotes, #[trigger] dtes[i])
}

/// The days to expiry that occur among the quotes, ascending.
pub fn expiry_days(quotes: &Vec<Quote>) -> (r: Vec<i64>)
    ensures
        are_dtes(r@, quotes@),
{
    let mut keys: Vec<i64> = Vec::new();
    let mut keep: Vec<bool> = Vec::new();
    let mut i: usize = 0;
    while i < quotes.len()
        invariant
            i <= quotes@.len(),
            keys@.len() == i,
            keep@.len() == i,
            forall|k: int| 0 <= k < i ==> #[trigger] keys@[k] == quotes@[k].dte,
            forall|k: int| 0 <= k < i ==> #[trigger] keep@[k],
        decreases quotes@.len() - i,
    {
        keys.push(quotes[i].dte);
        keep.push(true);
        i = i + 1;
    }
    let groups: Vec<Group> = group_by_key(&keys, &keep);
    let mut out: Vec<i64> = Vec::new();
    let mut g: usize = 0;
    while g < groups.len()
        invariant
            g <= groups@.len(),
            out@.len() == g,
            forall|h: int| 0 <= h < g ==> #[trigger] out@[h] == groups@[h].key,
        decreases groups@.len() - g,
    {
        out.push(groups[g].key);
        g = g + 1;
    }
    proof {
        assert forall|a: int, b: int| 0 <= a < b < out@.len() implies #[trigger] out@[a]
            < #[trigger] out@[b] by {
            assert(groups@[a].key < groups@[b].key);
        }
        assert forall|k: int| 0 <= k < quotes@.len() implies out@.contains((#[trigger] quotes@[k]).dte) by {
            assert(keep@[k]);
            let h = choose|h: int|
                0 <= h < groups@.len() && (#[trigger] groups@[h]).members@.contains(k as usize);
            let m = groups@[h].members@;
            let i = choose|i: int| 0 <= i < m.len() && m[i] == k as usize;
            assert(is_group(keys@, keep@, groups@[h].key, m));
            assert(keys@[m[i] as int] == groups@[h].key);
            assert(keys@[k] == quotes@[k].dte);
            assert(out@[h] == quotes@[k].dte);
        }
        assert forall|i: int| 0 <= i < out@.len() implies occurs(quotes@, #[trigger] out@[i]) by {
            let m = groups@[i].members@;
            assert(is_group(keys@, keep@, groups@[i].key, m));
            let k = m[0] as int;
            assert(keys@[k] == groups@[i].key);
            assert(quotes@[k].dte == out@[i]);
        }
    }
    out
}

/// How far the delta of each quote is from -0.25, 0.25, 0.50 and -0.50.
pub struct DeltaErrors {
    pub put_25: Vec<Num>,
    pub call_25: Vec<Num>,
    pub call_50: Vec<Num>,
    pub put_50: Vec<Num>,
}

impl DeltaErrors {
    /// Whether there are errors for `n` quotes.
    pub open spec fn covers(self, n: nat) -> bool {
        self.put_25@.len() == n && self.call_25@.len() == n && self.call_50@.len() == n
            && self.put_50@.len() == n
    }
}

/// Whether quote `k` is of the expiry and the side, and within tolerance.
pub open spec fn is_eligible(
    quotes: Seq<Quote>,
    errors: Seq<Num>,
    dte: i64,
    is_call: bool,
    tol: u64,
    k: int,
) -> bool {
    0 <= k < quotes.len() && quotes[k].dte == dte && quotes[k].is_call == is_call && errors[k].at_most(
        Num { bits: tol },
    )
}

/// Whether `r` is the volatility of the first of the nearest eligible quotes.
pub open spec fn is_nearest_iv(
    r: Option<Num>,
    quotes: Seq<Quote>,
    errors: Seq<Num>,
    dte: i64,
    is_call: bool,
    tol: u64,
) -> bool {
    match r {
        Some(iv) => exists|k: int|
            {
                &&& #[trigger] is_eligible(quotes, errors, dte, is_call, tol, k)
                &&& quotes[k].iv == iv
                &&& forall|j: int| #[trigger]
                    is_eligible(quotes, errors, dte, is_call, tol, j) && j != k ==> comes_first(errors, k, j)
            },
        None => forall|k: int| !is_eligible(quotes, errors, dte, is_call, tol, k),
    }
}

fn nearest_iv(quotes: &Vec<Quote>, errors: &Vec<Num>, dte: i64, is_call: bool, tol: u64) -> (r: Option<Num>)
    requires
        errors@.len() == quotes@.len(),
    ensures
        is_nearest_iv(r, quotes@, errors@, dte, is_call, tol),
{
    let mut eligible: Vec<bool> = Vec::new();
    let mut i: usize = 0;
    while i < quotes.len()
        invariant
            i <= quotes@.len(),
            eligible@.len() == i,
            forall|k: int|
                0 <= k < i ==> #[trigger] eligible@[k] == (quotes@[k].dte == dte && quotes@[k].is_call
                    == is_call),
        decreases quotes@.len() - i,
    {
        eligible.push(quotes[i].dte == dte && quotes[i].is_call == is_call);
        i = i + 1;
    }
    let reach: Num = Num::new(tol);
    assert(reach == Num { bits: tol });
    assert forall|k: int| is_candidate(eligible@, errors@, reach, k) == is_eligible(
        quotes@,
        errors@,
        dte,
        is_call,
        tol,
        k,
    ) by {}
    match nearest(&eligible, errors, reach) {
        Some(k) => {
            assert(is_candidate(eligible@, errors@, reach, k as int));
            assert(is_eligible(quotes@, errors@, dte, is_call, tol, k as int));
            assert forall|j: int| #[trigger]
                is_eligible(quotes@, errors@, dte, is_call, tol, j) && j != k implies comes_first(
                errors@,
                k as int,
                j,
            ) by {
                assert(is_candidate(eligible@, errors@, reach, j));
            }
            Some(quotes[k].iv)
        },
        None => {
            assert forall|k: int| !is_eligible(quotes@, errors@, dte, is_call, tol, k) by {
                assert(!is_candidate(eligible@, errors@, reach, k));
            }
            None
        },
    }
}

/// What the volatility at the money is taken from.
#[derive(Clone, Copy, Debug, PartialEq, Eq, Structural)]
pub enum AtTheMoney {
    /// The mean of a call and a put.
    Mean(Num, Num),
    /// The one that is there.
    Sole(Num),
    /// Neither is there.
    Missing,
}

/// What is picked from the quotes of one expiry.
#[derive(Clone, Copy, Debug, PartialEq, Eq, Structural)]
pub struct ExpiryPick {
    pub dte: i64,
    pub iv_25p: Option<Num>,
    pub iv_25c: Option<Num>,
    pub atm: AtTheMoney,
}

/// What the volatility at the money is taken from: both sides, or whichever is there.
pub open spec fn at_the_money(call: Option<Num>, put: Option<Num>) -> AtTheMoney {
    match (call, put) {
        (Some(c), Some(p)) => AtTheMoney::Mean(c, p),
        (Some(c), None) => AtTheMoney::Sole(c),
        (None, Some(p)) => AtTheMoney::Sole(p),
        (None, None) => AtTheMoney::Missing,
    }
}

/// Whether `p` is what the quotes of expiry `dte` give.
pub open spec fn is_expiry_pick(p: ExpiryPick, quotes: Seq<Quote>, e: DeltaErrors, dte: i64) -> bool {
    &&& p.dte == dte
    &&& is_nearest_iv(p.iv_25p, quotes, e.put_25@, dte, false, WING_TOL)
    &&& is_nearest_iv(p.iv_25c, quotes, e.call_25@, dte, true, WING_TOL)
    &&& exists|c: Option<Num>, q: Option<Num>|
        is_nearest_iv(c, quotes, e.call_50@, dte, true, ATM_TOL) && is_nearest_iv(
            q,
            quotes,
            e.put_50@,
            dte,
            false,
            ATM_TOL,
        ) && p.atm == #[trigger] at_the_money(c, q)
}

/// What the quotes of expiry `dte` give: the wings, and what the volatility at the
/// money is taken from.
pub fn expiry_iv(quotes: &Vec<Quote>, e: &DeltaErrors, dte: i64) -> (r: ExpiryPick)
    requires
        e.covers(quotes@.len()),
    ensures
        is_expiry_pick(r, quotes@, *e, dte),
{
    let iv_25p: Option<Num> = nearest_iv(quotes, &e.put_25, dte, false, WING_TOL);
    let iv_25c: Option<Num> = nearest_iv(quotes, &e.call_25, dte, true, WING_TOL);
    let c: Option<Num> = nearest_iv(quotes, &e.call_50, dte, true, ATM_TOL);
    let p: Option<Num> = nearest_iv(quotes, &e.put_50, dte, false, ATM_TOL);
    let atm: AtTheMoney = match (c, p) {
        (Some(a), Some(b)) => AtTheMoney::Mean(a, b),
        (Some(a), None) => AtTheMoney::Sole(a),
        (None, Some(b)) => AtTheMoney::Sole(b),
        (None, None) => AtTheMoney::Missing,
    };
    assert(atm == at_the_money(c, p));
    ExpiryPick { dte, iv_25p, iv_25c, atm }
}

/// What every expiry gives, by ascending days to expiry.
pub fn expiry_ivs(quotes: &Vec<Quote>, e: &DeltaErrors) -> (r: Vec<ExpiryPick>)
    requires
        e.covers(quotes@.len()),
    ensures
        are_picks(r@, quotes@, *e),
{
    let dtes: Vec<i64> = expiry_days(quotes);
    let mut out: Vec<ExpiryPick> = Vec::new();
    let mut i: usize = 0;
    while i < dtes.len()
        invariant
            e.covers(quotes@.len()),
            i <= dtes@.len(),
            out@.len() == i,
            forall|k: int|
                0 <= k < i ==> (#[trigger] out@[k]).dte == dtes@[k] && is_expiry_pick(
                    out@[k],
                    quotes@,
                    *e,
                    dtes@[k],
                ),
        decreases dtes@.len() - i,
    {
        out.push(expiry_iv(quotes, e, dtes[i]));
        i = i + 1;
    }
    assert(out@.map_values(|p: ExpiryPick| p.dte) =~= dtes@);
    out
}

// ---- the synthetic point ----

/// The volatilities of one expiry.
#[derive(Clone, Copy, Debug, PartialEq, Eq, Structural)]
pub struct ExpiryIv {
    pub dte: i64,
    pub iv_25p: Option<Num>,
    pub iv_25c: Option<Num>,
    pub iv_atm: Option<Num>,
}

/// The volatility at the money, where `mean` is the mean of call and put.
pub open spec fn atm_iv(atm: AtTheMoney, mean: Num) -> Option<Num> {
    match atm {
        AtTheMoney::Mean(_, _) => Some(mean),
        AtTheMoney::Sole(iv) => Some(iv),
        AtTheMoney::Missing => None,
    }
}

/// The volatilities of an expiry, where `mean` is the mean of call and put at the money.
pub open spec fn point_of(p: ExpiryPick, mean: Num) -> ExpiryIv {
    ExpiryIv { dte: p.dte, iv_25p: p.iv_25p, iv_25c: p.iv_25c, iv_atm: atm_iv(p.atm, mean) }
}

/// The volatilities of all expiries.
pub open spec fn points_of(picks: Seq<ExpiryPick>, means: Seq<Num>) -> Seq<ExpiryIv> {
    Seq::new(picks.len(), |i: int| point_of(picks[i], means[i]))
}

/// The volatilities of all expiries, where each of `means` is the mean of call and put at
/// the money; it counts where there are both.
pub fn expiry_points(picks: &Vec<ExpiryPick>, means: &Vec<Num>) -> (r: Vec<ExpiryIv>)
    requires
        picks@.len() == means@.len(),
    ensures
        r@ == points_of(picks@, means@),
{
    let mut out: Vec<ExpiryIv> = Vec::new();
    let mut i: usize = 0;
    while i < picks.len()
        invariant
            i <= picks@.len() == means@.len(),
            out@ == points_of(picks@, means@).take(i as int),
        decreases picks@.len() - i,
    {
        let p: ExpiryPick = picks[i];
        let iv_atm: Option<Num> = match p.atm {
            AtTheMoney::Mean(_, _) => Some(means[i]),
            AtTheMoney::Sole(iv) => Some(iv),
            AtTheMoney::Missing => None,
        };
        out.push(ExpiryIv { dte: p.dte, iv_25p: p.iv_25p, iv_25c: p.iv_25c, iv_atm });
        assert(out@ =~= points_of(picks@, means@).take(i + 1));
        i = i + 1;
    }
    assert(points_of(picks@, means@).take(picks@.len() as int) =~= points_of(picks@, means@));
    out
}

/// Whether expiry `k` has both wings and lies at or before the target.
pub open spec fn is_below(es: Seq<ExpiryIv>, k: int) -> bool {
    0 <= k < es.len() && es[k].iv_25p is Some && es[k].iv_25c is Some && es[k].dte <= TARGET_DTE
}

/// Whether expiry `k` has both wings and lies behind the target.
pub open spec fn is_above(es: Seq<ExpiryIv>, k: int) -> bool {
    0 <= k < es.len() && es[k].iv_25p is Some && es[k].iv_25c is Some && es[k].dte > TARGET_DTE
}

/// The last of the latest expiries up to the target.
pub open spec fn is_nearest_below(es: Seq<ExpiryIv>, k: int) -> bool {
    is_below(es, k) && forall|j: int| #[trigger]
        is_below(es, j) && j != k ==> es[j].dte < es[k].dte || (es[j].dte == es[k].dte && j < k)
}

/// The first of the earliest expiries behind the target.
pub open spec fn is_nearest_above(es: Seq<ExpiryIv>, k: int) -> bool {
    is_above(es, k) && forall|j: int| #[trigger]
        is_above(es, j) && j != k ==> es[j].dte > es[k].dte || (es[j].dte == es[k].dte && k < j)
}

/// Whether `r` are the expiries around the target: one on either side, or the nearest
/// one alone where one side has none.
pub open spec fn is_bracket(r: Option<(usize, Option<usize>)>, es: Seq<ExpiryIv>) -> bool {
    match r {
        Some((lo, Some(hi))) => is_nearest_below(es, lo as int) && is_nearest_above(es, hi as int),
        Some((lo, None)) => {
            ||| is_nearest_below(es, lo as int) && forall|k: int| !is_above(es, k)
            ||| is_nearest_above(es, lo as int) && forall|k: int| !is_below(es, k)
        },
        None => forall|k: int| !is_below(es, k) && !is_above(es, k),
    }
}

/// The expiries around the target.
pub fn bracket(es: &Vec<ExpiryIv>) -> (r: Option<(usize, Option<usize>)>)
    ensures
        is_bracket(r, es@),
{
    let mut below: Option<usize> = None;
    let mut above: Option<usize> = None;
    let mut i: usize = 0;
    while i < es.len()
        invariant
            i <= es@.len(),
            match below {
                Some(b) => b < i && is_below(es@, b as int) && forall|j: int| #[trigger]
                    is_below(es@, j) && j != b && j < i ==> es@[j].dte < es@[b as int].dte || (es@[j].dte
                        == es@[b as int].dte && j < b),
                None => forall|j: int| j < i ==> !is_below(es@, j),
            },
            match above {
                Some(a) => a < i && is_above(es@, a as int) && forall|j: int| #[trigger]
                    is_above(es@, j) && j != a && j < i ==> es@[j].dte > es@[a as int].dte || (es@[j].dte
                        == es@[a as int].dte && a < j),
                None => forall|j: int| j < i ==> !is_above(es@, j),
            },
        decreases es@.len() - i,
    {
        let e: ExpiryIv = es[i];
        if e.iv_25p.is_some() && e.iv_25c.is_some() {
            if e.dte <= TARGET_DTE {
                assert(is_below(es@, i as int));
                match below {
                    Some(b) => {
                        if es[b].dte <= e.dte {
                            below = Some(i);
                        }
                    },
                    None => {
                        below = Some(i);
                    },
                }
            } else {
                assert(is_above(es@, i as int));
                match above {
                    Some(a) => {
                        if e.dte < es[a].dte {
                            above = Some(i);
                        }
                    },
                    None => {
                        above = Some(i);
                    },
                }
            }
        }
        i = i + 1;
    }
    match (below, above) {
        (Some(b), Some(a)) => Some((b, Some(a))),
        (Some(b), None) => Some((b, None)),
        (None, Some(a)) => Some((a, None)),
        (None, None) => None,
    }
}

/// Where both sides have an expiry, the target lies between them: it is blended, not
/// extrapolated.
pub proof fn law_target_between(es: Seq<ExpiryIv>, lo: usize, hi: usize)
    requires
        is_bracket(Some((lo, Some(hi))), es),
    ensures
        es[lo as int].dte <= TARGET_DTE < es[hi as int].dte,
        forall|k: int|
            0 <= k < es.len() && (#[trigger] es[k]).iv_25p is Some && es[k].iv_25c is Some ==> es[k].dte
                <= es[lo as int].dte || es[k].dte >= es[hi as int].dte,
{
    assert forall|k: int|
        0 <= k < es.len() && (#[trigger] es[k]).iv_25p is Some && es[k].iv_25c is Some implies es[k].dte
        <= es[lo as int].dte || es[k].dte >= es[hi as int].dte by {
        assert(is_below(es, k) || is_above(es, k));
    }
}

/// The expiries around the target are unique.
pub proof fn law_one_bracket(
    a: Option<(usize, Option<usize>)>,
    b: Option<(usize, Option<usize>)>,
    es: Seq<ExpiryIv>,
)
    requires
        is_bracket(a, es),
        is_bracket(b, es),
    ensures
        a == b,
{
    match (a, b) {
        (Some((l, h)), Some((m, k))) => {
            assert(is_below(es, l as int) || is_above(es, l as int));
            assert(is_below(es, m as int) || is_above(es, m as int));
            if let Some(x) = h {
                assert(is_above(es, x as int));
            }
            if let Some(x) = k {
                assert(is_above(es, x as int));
            }
        },
        (Some((l, _)), None) => {
            assert(!is_below(es, l as int) && !is_above(es, l as int));
        },
        (None, Some((m, _))) => {
            assert(!is_below(es, m as int) && !is_above(es, m as int));
        },
        (None, None) => {},
    }
}

/// How a volatility of the synthetic point comes about.
#[derive(Clone, Copy, Debug, PartialEq, Eq, Structural)]
pub enum Blend {
    /// There is none.
    Missing,
    /// It is that of one expiry.
    Same(Num),
    /// It is interpolated in total variance: days and volatility of either expiry.
    Between(i64, Num, i64, Num),
}

/// How a volatility comes about from those of two expiries.
pub open spec fn blend(lo: Option<(i64, Num)>, hi: Option<(i64, Num)>) -> Blend {
    match (lo, hi) {
        (Some((d1, iv1)), Some((d2, iv2))) => if d1 != d2 {
            Blend::Between(d1, iv1, d2, iv2)
        } else {
            Blend::Same(iv1)
        },
        (Some((_, iv)), None) => Blend::Same(iv),
        (None, Some((_, iv))) => Blend::Same(iv),
        (None, None) => Blend::Missing,
    }
}

/// How a volatility comes about from those of two expiries: where only one has it, it
/// is that one.
pub fn interp_variance(lo: Option<(i64, Num)>, hi: Option<(i64, Num)>) -> (r: Blend)
    ensures
        r == blend(lo, hi),
{
    match (lo, hi) {
        (Some((d1, iv1)), Some((d2, iv2))) => {
            if d1 != d2 {
                Blend::Between(d1, iv1, d2, iv2)
            } else {
                Blend::Same(iv1)
            }
        },
        (Some((_, iv)), None) => Blend::Same(iv),
        (None, Some((_, iv))) => Blend::Same(iv),
        (None, None) => Blend::Missing,
    }
}

/// A volatility with its days to expiry.
pub open spec fn at_dte(dte: i64, iv: Option<Num>) -> Option<(i64, Num)> {
    match iv {
        Some(x) => Some((dte, x)),
        None => None,
    }
}

/// How the three volatilities of the synthetic point come about: put, call and at the
/// money.
pub open spec fn blends(lo: ExpiryIv, hi: Option<ExpiryIv>) -> (Blend, Blend, Blend) {
    match hi {
        Some(h) => (
            blend(at_dte(lo.dte, lo.iv_25p), at_dte(h.dte, h.iv_25p)),
            blend(at_dte(lo.dte, lo.iv_25c), at_dte(h.dte, h.iv_25c)),
            blend(at_dte(lo.dte, lo.iv_atm), at_dte(h.dte, h.iv_atm)),
        ),
        None => (
            blend(at_dte(lo.dte, lo.iv_25p), None),
            blend(at_dte(lo.dte, lo.iv_25c), None),
            blend(at_dte(lo.dte, lo.iv_atm), None),
        ),
    }
}

fn dated(dte: i64, iv: Option<Num>) -> (r: Option<(i64, Num)>)
    ensures
        r == at_dte(dte, iv),
{
    match iv {
        Some(x) => Some((dte, x)),
        None => None,
    }
}

/// How the three volatilities of the synthetic point come about.
pub fn point_blends(lo: ExpiryIv, hi: Option<ExpiryIv>) -> (r: (Blend, Blend, Blend))
    ensures
        r == blends(lo, hi),
{
    match hi {
        Some(h) => (
            interp_variance(dated(lo.dte, lo.iv_25p), dated(h.dte, h.iv_25p)),
            interp_variance(dated(lo.dte, lo.iv_25c), dated(h.dte, h.iv_25c)),
            interp_variance(dated(lo.dte, lo.iv_atm), dated(h.dte, h.iv_atm)),
        ),
        None => (
            interp_variance(dated(lo.dte, lo.iv_25p), None),
            interp_variance(dated(lo.dte, lo.iv_25c), None),
            interp_variance(dated(lo.dte, lo.iv_atm), None),
        ),
    }
}

/// A volatility of the synthetic point, where `between` is the one interpolated between
/// two expiries, if there is any.
pub open spec fn resolved(b: Blend, between: Option<Num>) -> Option<Num> {
    match b {
        Blend::Missing => None,
        Blend::Same(iv) => Some(iv),
        Blend::Between(_, _, _, _) => between,
    }
}

/// A volatility of the synthetic point, where `between` is the one interpolated between
/// two expiries, if there is any.
pub fn resolve(b: Blend, between: Option<Num>) -> (r: Option<Num>)
    ensures
        r == resolved(b, between),
{
    match b {
        Blend::Missing => None,
        Blend::Same(iv) => Some(iv),
        Blend::Between(_, _, _, _) => between,
    }
}

/// Where the expiries were chosen around the target, both wings come about.
pub proof fn law_wings_come_about(es: Seq<ExpiryIv>, lo: usize, hi: Option<usize>)
    requires
        is_bracket(Some((lo, hi)), es),
    ensures
        blends(
            es[lo as int],
            match hi {
                Some(h) => Some(es[h as int]),
                None => None,
            },
        ).0 !is Missing,
        blends(
            es[lo as int],
            match hi {
                Some(h) => Some(es[h as int]),
                None => None,
            },
        ).1 !is Missing,
{
}

// ---- the result ----

/// The least and the greatest of three volatilities.
pub open spec fn is_range(r: (Num, Num), a: Num, b: Num, c: Num) -> bool {
    &&& r.0 == a || r.0 == b || r.0 == c
    &&& r.1 == a || r.1 == b || r.1 == c
    &&& r.0.at_most(a) && r.0.at_most(b) && r.0.at_most(c)
    &&& a.at_most(r.1) && b.at_most(r.1) && c.at_most(r.1)
}

fn lesser(a: Num, b: Num) -> (r: Num)
    requires
        !a.nan(),
        !b.nan(),
    ensures
        r == a || r == b,
        r.at_most(a) && r.at_most(b),
{
    if b.lt(a) {
        b
    } else {
        a
    }
}

fn greater(a: Num, b: Num) -> (r: Num)
    requires
        !a.nan(),
        !b.nan(),
    ensures
        r == a || r == b,
        a.at_most(r) && b.at_most(r),
{
    if a.lt(b) {
        b
    } else {
        a
    }
}

/// The least and the greatest of three volatilities, nothing where one is no number.
pub fn iv_range(a: Num, b: Num, c: Num) -> (r: Option<(Num, Num)>)
    ensures
        match r {
            Some(range) => is_range(range, a, b, c),
            None => a.nan() || b.nan() || c.nan(),
        },
{
    if a.is_nan() || b.is_nan() || c.is_nan() {
        return None;
    }
    Some((lesser(lesser(a, b), c), greater(greater(a, b), c)))
}

/// The volatility at the money, where it is positive.
pub open spec fn usable_atm(iv_atm: Option<Num>) -> Option<Num> {
    match iv_atm {
        Some(x) => if (Num { bits: ZERO }).below(x) {
            Some(x)
        } else {
            None
        },
        None => None,
    }
}

/// Whether a volatility at the money is plausible.
pub open spec fn is_plausible_atm(atm: Num) -> bool {
    atm.finite() && !atm.at_most(Num { bits: ATM_IV_MIN }) && !(Num { bits: ATM_IV_MAX }).below(atm)
}

/// Whether the synthetic point is plausible: no volatility, nor the ratio of the
/// greatest to the least, nor the skew out of bounds.
pub open spec fn is_plausible(p: Num, c: Num, atm: Num, ratio: Num, skew_abs: Num) -> bool {
    &&& is_plausible_atm(atm)
    &&& !p.below(Num { bits: POINT_IV_MIN }) && !c.below(Num { bits: POINT_IV_MIN })
    &&& !atm.below(Num { bits: POINT_IV_MIN })
    &&& !(Num { bits: IV_MAX }).below(p) && !(Num { bits: IV_MAX }).below(c)
    &&& !(Num { bits: IV_MAX }).below(atm)
    &&& !(Num { bits: MAX_IV_RATIO }).below(ratio)
    &&& skew_abs.between(Num { bits: SKEW_ABS_LO }, Num { bits: SKEW_ABS_HI })
}

fn too_low(x: Num) -> (r: bool)
    ensures
        r == x.below(Num { bits: POINT_IV_MIN }),
{
    x.lt(Num::new(POINT_IV_MIN))
}

fn too_high(x: Num) -> (r: bool)
    ensures
        r == (Num { bits: IV_MAX }).below(x),
{
    Num::new(IV_MAX).lt(x)
}

/// Whether the synthetic point is plausible. Days with a point that is not have
/// corrupt rows.
pub fn plausible(p: Num, c: Num, atm: Num, ratio: Num, skew_abs: Num) -> (r: bool)
    ensures
        r == is_plausible(p, c, atm, ratio, skew_abs),
{
    atm.is_finite() && !atm.le(Num::new(ATM_IV_MIN)) && !Num::new(ATM_IV_MAX).lt(atm) && !too_low(p)
        && !too_low(c) && !too_low(atm) && !too_high(p) && !too_high(c) && !too_high(atm)
        && !Num::new(MAX_IV_RATIO).lt(ratio) && skew_abs.within(
        Num::new(SKEW_ABS_LO),
        Num::new(SKEW_ABS_HI),
    )
}

/// Whether expiry `k` counts for the term structure.
pub open spec fn in_term(es: Seq<ExpiryIv>, k: int) -> bool {
    0 <= k < es.len() && es[k].dte >= TERM_FROM && es[k].iv_atm is Some
}

/// Whether `r` are the front and the back of the term structure: the first and the
/// last expiry that count, where they are far enough apart and both positive.
pub open spec fn is_term(r: Option<(usize, usize)>, es: Seq<ExpiryIv>) -> bool {
    match r {
        Some((f, b)) => is_front_and_back(es, f as int, b as int) && spans(es, f as int, b as int),
        None => forall|f: int, b: int| #[trigger] is_front_and_back(es, f, b) ==> !spans(es, f, b),
    }
}

/// Whether `f` is the first and `b` the last expiry that counts.
pub open spec fn is_front_and_back(es: Seq<ExpiryIv>, f: int, b: int) -> bool {
    in_term(es, f) && in_term(es, b) && forall|k: int| #[trigger] in_term(es, k) ==> f <= k <= b
}

/// Whether front and back are far enough apart and both positive.
pub open spec fn spans(es: Seq<ExpiryIv>, f: int, b: int) -> bool {
    es[b].dte - es[f].dte >= TERM_SPAN && (Num { bits: ZERO }).below(es[f].iv_atm->0) && (Num {
        bits: ZERO,
    }).below(es[b].iv_atm->0)
}

/// The front and the back of the term structure.
pub fn term_structure(es: &Vec<ExpiryIv>) -> (r: Option<(usize, usize)>)
    ensures
        is_term(r, es@),
{
    let mut ends: Option<(usize, usize)> = None;
    let mut i: usize = 0;
    while i < es.len()
        invariant
            i <= es@.len(),
            match ends {
                Some((f, b)) => f <= b < i && in_term(es@, f as int) && in_term(es@, b as int)
                    && forall|k: int| #[trigger] in_term(es@, k) && k < i ==> f <= k <= b,
                None => forall|k: int| k < i ==> !in_term(es@, k),
            },
        decreases es@.len() - i,
    {
        if es[i].dte >= TERM_FROM && es[i].iv_atm.is_some() {
            assert(in_term(es@, i as int));
            ends = match ends {
                Some((f, _)) => Some((f, i)),
                None => Some((i, i)),
            };
        }
        i = i + 1;
    }
    match ends {
        Some((f, b)) => {
            assert(is_front_and_back(es@, f as int, b as int));
            assert forall|g: int, c: int| #[trigger] is_front_and_back(es@, g, c) implies g == f && c
                == b by {
                assert(in_term(es@, f as int) && in_term(es@, b as int));
            }
            match (es[f].iv_atm, es[b].iv_atm) {
                (Some(x), Some(y)) => {
                    if es[b].dte - es[f].dte >= TERM_SPAN && Num::new(ZERO).lt(x) && Num::new(ZERO).lt(
                        y,
                    ) {
                        Some((f, b))
                    } else {
                        None
                    }
                },
                _ => None,
            }
        },
        None => {
            assert forall|f: int, b: int| #[trigger] is_front_and_back(es@, f, b) implies !spans(
                es@,
                f,
                b,
            ) by {
                assert(!in_term(es@, f));
            }
            None
        },
    }
}

/// What was calculated for a day: the volatilities that are interpolated between two
/// expiries, the ratio of the greatest to the least, the skew and its normalized form,
/// and the difference and ratio of front and back.
#[derive(Clone, Copy, Debug, PartialEq, Eq, Structural)]
pub struct Calculated {
    pub iv_25p: Option<Num>,
    pub iv_25c: Option<Num>,
    pub iv_atm: Option<Num>,
    pub ratio: Num,
    pub skew_abs: Num,
    pub skew_norm: Num,
    pub ts_slope: Num,
    pub ts_ratio: Num,
}

/// The skew of a day.
pub struct DaySkew {
    pub date: String,
    pub iv_25p: Num,
    pub iv_25c: Num,
    pub iv_atm: Num,
    pub skew_abs: Num,
    pub skew_norm: Num,
    pub dte_lo: i64,
    pub dte_hi: i64,
    pub ts_slope: Num,
    pub ts_ratio: Num,
}

/// The expiry behind the target, if there is one.
pub open spec fn upper(es: Seq<ExpiryIv>, hi: Option<usize>) -> Option<ExpiryIv> {
    match hi {
        Some(h) => Some(es[h as int]),
        None => None,
    }
}

/// The volatilities of the synthetic point: put, call and at the money. Where one expiry
/// alone has them they are its own, else what was interpolated.
pub open spec fn point_ivs(lo: ExpiryIv, hi: Option<ExpiryIv>, x: Calculated) -> (
    Option<Num>,
    Option<Num>,
    Option<Num>,
) {
    let (p, c, m) = blends(lo, hi);
    (resolved(p, x.iv_25p), resolved(c, x.iv_25c), usable_atm(resolved(m, x.iv_atm)))
}

/// Whether `r` is the skew of a day whose expiries around the target are `found`.
pub open spec fn is_skew_at(
    r: Option<DaySkew>,
    date: Seq<char>,
    es: Seq<ExpiryIv>,
    found: Option<(usize, Option<usize>)>,
    x: Calculated,
) -> bool {
    match found {
        None => r is None,
        Some((lo, hi)) => match point_ivs(es[lo as int], upper(es, hi), x) {
            (Some(p), Some(c), Some(atm)) => if is_plausible(p, c, atm, x.ratio, x.skew_abs) {
                &&& r matches Some(s)
                &&& s.date@ == date
                &&& (s.iv_25p, s.iv_25c, s.iv_atm) == (p, c, atm)
                &&& (s.skew_abs, s.skew_norm) == (x.skew_abs, x.skew_norm)
                &&& s.dte_lo == es[lo as int].dte
                &&& s.dte_hi == (match hi {
                    Some(h) => es[h as int].dte,
                    None => es[lo as int].dte,
                })
                &&& exists|t: Option<(usize, usize)>|
                    #[trigger] is_term(t, es) && (s.ts_slope, s.ts_ratio) == (if t is Some {
                        (x.ts_slope, x.ts_ratio)
                    } else {
                        (Num { bits: NAN }, Num { bits: NAN })
                    })
            } else {
                r is None
            },
            _ => r is None,
        },
    }
}

/// Whether `r` is the skew of the day: there is none where the date is none, no expiry
/// has both wings, one of the volatilities does not come about, or the point is not
/// plausible.
pub open spec fn is_day_skew(r: Option<DaySkew>, date: Seq<char>, es: Seq<ExpiryIv>, x: Calculated) -> bool {
    if ymd_value(date) is None {
        r is None
    } else {
        exists|found: Option<(usize, Option<usize>)>|
            #[trigger] is_bracket(found, es) && is_skew_at(r, date, es, found, x)
    }
}

/// The skew of a day, from what its expiries give and what was calculated for it; each
/// of `means` is the mean of call and put at the money of an expiry.
pub fn compute_day_skew(date: &str, picks: &Vec<ExpiryPick>, means: &Vec<Num>, x: Calculated) -> (r: Option<
    DaySkew,
>)
    requires
        picks@.len() == means@.len(),
    ensures
        is_day_skew(r, date@, points_of(picks@, means@), x),
{
    if parse_ymd(date).is_none() {
        return None;
    }
    let es: Vec<ExpiryIv> = expiry_points(picks, means);
    let found: Option<(usize, Option<usize>)> = bracket(&es);
    assert(is_bracket(found, es@));
    let (lo, hi): (usize, Option<usize>) = match found {
        Some(b) => b,
        None => {
            return None;
        },
    };
    let above: Option<ExpiryIv> = match hi {
        Some(h) => Some(es[h]),
        None => None,
    };
    assert(above == upper(es@, hi));
    let (bp, bc, bm): (Blend, Blend, Blend) = point_blends(es[lo], above);
    let (p, c): (Num, Num) = match (resolve(bp, x.iv_25p), resolve(bc, x.iv_25c)) {
        (Some(p), Some(c)) => (p, c),
        _ => {
            return None;
        },
    };
    let atm: Num = match resolve(bm, x.iv_atm) {
        Some(a) => {
            if Num::new(ZERO).lt(a) {
                a
            } else {
                return None;
            }
        },
        None => {
            return None;
        },
    };
    assert(point_ivs(es@[lo as int], upper(es@, hi), x) == (Some(p), Some(c), Some(atm)));
    if !plausible(p, c, atm, x.ratio, x.skew_abs) {
        return None;
    }
    let dte_lo: i64 = es[lo].dte;
    let dte_hi: i64 = match hi {
        Some(h) => es[h].dte,
        None => dte_lo,
    };
    let term: Option<(usize, usize)> = term_structure(&es);
    assert(is_term(term, es@));
    let (ts_slope, ts_ratio): (Num, Num) = if term.is_some() {
        (x.ts_slope, x.ts_ratio)
    } else {
        (Num::new(NAN), Num::new(NAN))
    };
    Some(
        DaySkew {
            date: date.to_string(),
            iv_25p: p,
            iv_25c: c,
            iv_atm: atm,
            skew_abs: x.skew_abs,
            skew_norm: x.skew_norm,
            dte_lo,
            dte_hi,
            ts_slope,
            ts_ratio,
        },
    )
}

/// Whatever was calculated, a day's skew is within bounds, and so is the volatility at
/// the money.
pub proof fn law_day_skew_within_bounds(r: Option<DaySkew>, date: Seq<char>, es: Seq<ExpiryIv>, x: Calculated)
    requires
        is_day_skew(r, date, es, x),
    ensures
        r matches Some(s) ==> s.skew_abs.between(Num { bits: SKEW_ABS_LO }, Num { bits: SKEW_ABS_HI })
            && s.iv_atm.finite() && (Num { bits: ATM_IV_MIN }).below(s.iv_atm) && s.iv_atm.at_most(
            Num { bits: ATM_IV_MAX },
        ) && s.dte_lo <= s.dte_hi,
{
}

// ---- the sides of a day ----

/// Whether some quote gives an expiry one of its wings.
pub open spec fn has_wing(quotes: Seq<Quote>, errors: Seq<Num>, dte: i64, is_call: bool) -> bool {
    exists|k: int| is_eligible(quotes, errors, dte, is_call, WING_TOL, k)
}

/// Whether the quotes give an expiry both wings: a put and a call within tolerance.
pub open spec fn has_wings(quotes: Seq<Quote>, e: DeltaErrors, dte: i64) -> bool {
    has_wing(quotes, e.put_25@, dte, false) && has_wing(quotes, e.call_25@, dte, true)
}

/// Whether `picks` are what the expiries of the quotes give.
pub open spec fn are_picks(picks: Seq<ExpiryPick>, quotes: Seq<Quote>, e: DeltaErrors) -> bool {
    &&& are_dtes(picks.map_values(|p: ExpiryPick| p.dte), quotes)
    &&& forall|i: int| 0 <= i < picks.len() ==> is_expiry_pick(#[trigger] picks[i], quotes, e, picks[i].dte)
}

/// An expiry has both wings exactly where it is among the picks with both.
proof fn lemma_wings_are_picked(picks: Seq<ExpiryPick>, quotes: Seq<Quote>, e: DeltaErrors, dte: i64)
    requires
        are_picks(picks, quotes, e),
    ensures
        has_wings(quotes, e, dte) <==> exists|i: int|
            0 <= i < picks.len() && (#[trigger] picks[i]).dte == dte && picks[i].iv_25p is Some
                && picks[i].iv_25c is Some,
{
    let dtes = picks.map_values(|p: ExpiryPick| p.dte);
    if has_wings(quotes, e, dte) {
        let k = choose|k: int| is_eligible(quotes, e.put_25@, dte, false, WING_TOL, k);
        assert(quotes[k].dte == dte);
        assert(dtes.contains(quotes[k].dte));
        let i = choose|i: int| 0 <= i < dtes.len() && dtes[i] == dte;
        assert(is_expiry_pick(picks[i], quotes, e, picks[i].dte));
        assert(picks[i].dte == dte);
    }
    if exists|i: int|
        0 <= i < picks.len() && (#[trigger] picks[i]).dte == dte && picks[i].iv_25p is Some
            && picks[i].iv_25c is Some {
        let i = choose|i: int|
            0 <= i < picks.len() && (#[trigger] picks[i]).dte == dte && picks[i].iv_25p is Some
                && picks[i].iv_25c is Some;
        assert(is_expiry_pick(picks[i], quotes, e, picks[i].dte));
    }
}

/// How far days to expiry are from the target.
pub open spec fn off_target(dte: i64) -> int {
    if dte >= TARGET_DTE {
        dte - TARGET_DTE
    } else {
        TARGET_DTE - dte
    }
}

/// Whether the volatilities are those that expiry `dte` has of its own.
pub open spec fn are_own(s: DaySkew, es: Seq<ExpiryIv>, dte: i64) -> bool {
    exists|i: int|
        0 <= i < es.len() && (#[trigger] es[i]).dte == dte && es[i].iv_25p == Some(s.iv_25p) && es[i].iv_25c
            == Some(s.iv_25c) && es[i].iv_atm == Some(s.iv_atm)
}

/// A day with a skew has a date and an expiry with both wings. Where such expiries lie on
/// both sides of the target, the sides of the day are the nearest of either; else both
/// are the one nearest to the target, and the volatilities are its own.
pub proof fn law_sides_of_a_day(
    r: Option<DaySkew>,
    date: Seq<char>,
    quotes: Seq<Quote>,
    e: DeltaErrors,
    picks: Seq<ExpiryPick>,
    means: Seq<Num>,
    x: Calculated,
)
    requires
        are_picks(picks, quotes, e),
        is_day_skew(r, date, points_of(picks, means), x),
    ensures
        r matches Some(s) ==> {
            &&& ymd_value(date) is Some
            &&& has_wings(quotes, e, s.dte_lo) && has_wings(quotes, e, s.dte_hi)
            &&& s.dte_lo < s.dte_hi ==> s.dte_lo <= TARGET_DTE < s.dte_hi
            &&& s.dte_lo < s.dte_hi ==> forall|d: i64| #[trigger]
                has_wings(quotes, e, d) ==> d <= s.dte_lo || d >= s.dte_hi
            &&& s.dte_lo >= s.dte_hi ==> s.dte_lo == s.dte_hi
            &&& s.dte_lo == s.dte_hi ==> forall|d: i64| #[trigger]
                has_wings(quotes, e, d) ==> off_target(s.dte_lo) <= off_target(d) && ((d <= TARGET_DTE)
                    == (s.dte_lo <= TARGET_DTE))
            &&& s.dte_lo == s.dte_hi ==> are_own(s, points_of(picks, means), s.dte_lo)
        },
{
    let es = points_of(picks, means);
    if let Some(s) = r {
        let found = choose|found: Option<(usize, Option<usize>)>|
            #[trigger] is_bracket(found, es) && is_skew_at(r, date, es, found, x);
        let (lo, hi) = found->0;
        assert(is_below(es, lo as int) || is_above(es, lo as int));
        assert(picks[lo as int].dte == s.dte_lo);
        lemma_wings_are_picked(picks, quotes, e, s.dte_lo);
        if let Some(h) = hi {
            assert(is_above(es, h as int));
            assert(picks[h as int].dte == s.dte_hi);
            lemma_wings_are_picked(picks, quotes, e, s.dte_hi);
        } else {
            assert(es[lo as int].dte == s.dte_lo);
            assert(are_own(s, es, s.dte_lo));
        }
        assert forall|d: i64| #[trigger] has_wings(quotes, e, d) implies (s.dte_lo < s.dte_hi ==> d
            <= s.dte_lo || d >= s.dte_hi) && (s.dte_lo == s.dte_hi ==> off_target(s.dte_lo) <= off_target(d)
            && ((d <= TARGET_DTE) == (s.dte_lo <= TARGET_DTE))) by {
            lemma_wings_are_picked(picks, quotes, e, d);
            let i = choose|i: int|
                0 <= i < picks.len() && (#[trigger] picks[i]).dte == d && picks[i].iv_25p is Some
                    && picks[i].iv_25c is Some;
            assert(es[i].dte == d);
            assert(is_below(es, i) || is_above(es, i));
        }
    }
}

// ---- what the steps owe to their inputs ----

/// Each member of a row is read from the member of its own name: the texts as they stand,
/// the numbers from texts that denote one, without the white space around it. What is
/// missing, or no text, is missing from the row.
pub proof fn law_rows_by_name(
    rows: Vec<serde_json::Value>,
    r: Vec<OptionRow>,
    i: int,
    m: Map<Seq<char>, JsonView>,
)
    requires
        call_ensures(option_rows, (&rows,), r),
        0 <= i < rows@.len(),
        json_view(rows@[i]) == JsonView::Object(m),
    ensures
        r@.len() == rows@.len(),
        r@[i].expiration is Some <==> m.contains_key("expiration"@) && m["expiration"@] is Text,
        r@[i].expiration matches Some(s) ==> m["expiration"@] == JsonView::Text(s@),
        r@[i].call_put is Some <==> m.contains_key("call_put"@) && m["call_put"@] is Text,
        r@[i].call_put matches Some(s) ==> m["call_put"@] == JsonView::Text(s@),
        r@[i].vol is Some <==> m.contains_key("vol"@) && (m["vol"@] matches JsonView::Text(t)
            && is_numeral(trimmed(t))),
        r@[i].vol matches Some(s) ==> (m["vol"@] matches JsonView::Text(t) && s@ == trimmed(t)),
        r@[i].delta is Some <==> m.contains_key("delta"@) && (m["delta"@] matches JsonView::Text(t)
            && is_numeral(trimmed(t))),
        r@[i].delta matches Some(s) ==> (m["delta"@] matches JsonView::Text(t) && s@ == trimmed(t)),
        r@[i].bid is Some <==> m.contains_key("bid"@) && (m["bid"@] matches JsonView::Text(t)
            && is_numeral(trimmed(t))),
        r@[i].bid matches Some(s) ==> (m["bid"@] matches JsonView::Text(t) && s@ == trimmed(t)),
        r@[i].ask is Some <==> m.contains_key("ask"@) && (m["ask"@] matches JsonView::Text(t)
            && is_numeral(trimmed(t))),
        r@[i].ask matches Some(s) ==> (m["ask"@] matches JsonView::Text(t) && s@ == trimmed(t)),
{
    let v = r@[i]@;
    assert(v == row_in(json_view(rows@[i])));
    assert(v.expiration == text_view(r@[i].expiration) && v.call_put == text_view(r@[i].call_put));
    assert(v.vol == text_view(r@[i].vol) && v.delta == text_view(r@[i].delta));
    assert(v.bid == text_view(r@[i].bid) && v.ask == text_view(r@[i].ask));
}

/// What names a call, letter by letter.
proof fn lemma_names_call(cp: Seq<char>)
    ensures
        names_call(cp) <==> cp == seq!['C'] || (cp.len() == 4 && (cp[0] == 'c' || cp[0] == 'C') && (cp[1]
            == 'a' || cp[1] == 'A') && (cp[2] == 'l' || cp[2] == 'L') && (cp[3] == 'l' || cp[3] == 'L')),
{
    reveal_strlit("Call");
    reveal_strlit("C");
    assert("C"@ =~= seq!['C']);
    let c = "Call"@;
    assert(c.len() == 4 && c[0] == 'C' && c[1] == 'a' && c[2] == 'l' && c[3] == 'l');
    if same_ignoring_case(cp, c) {
        assert(ascii_lower(cp[0]) == ascii_lower(c[0]) && ascii_lower(cp[1]) == ascii_lower(c[1]));
        assert(ascii_lower(cp[2]) == ascii_lower(c[2]) && ascii_lower(cp[3]) == ascii_lower(c[3]));
    }
}

/// The quotes of the first rows, with the row that each comes from.
proof fn lemma_quote_rows(date_days: int, rows: Seq<OptionRow>, xs: Seq<Reading>, n: int) -> (from: Seq<int>)
    requires
        0 <= n <= rows.len(),
        rows.len() == xs.len(),
    ensures
        from.len() == quotes_upto(date_days, rows, xs, n).len(),
        forall|k: int| 0 <= k < from.len() ==> 0 <= #[trigger] from[k] < n,
        forall|j: int, k: int| 0 <= j < k < from.len() ==> #[trigger] from[j] < #[trigger] from[k],
        forall|k: int|
            0 <= k < from.len() ==> quote_of(date_days, rows[#[trigger] from[k]]@, xs[from[k]]) == Some(
                quotes_upto(date_days, rows, xs, n)[k],
            ),
        forall|i: int|
            0 <= i < n && quote_of(date_days, (#[trigger] rows[i])@, xs[i]) is Some ==> from.contains(i),
    decreases n,
{
    if n <= 0 {
        Seq::empty()
    } else {
        let front = lemma_quote_rows(date_days, rows, xs, n - 1);
        if quote_of(date_days, rows[n - 1]@, xs[n - 1]) is Some {
            let from = front.push(n - 1);
            assert forall|i: int|
                0 <= i < n && quote_of(date_days, (#[trigger] rows[i])@, xs[i]) is Some implies from.contains(
                i,
            ) by {
                if i < n - 1 {
                    let k = choose|k: int| 0 <= k < front.len() && front[k] == i;
                    assert(from[k] == i);
                } else {
                    assert(from[front.len() as int] == i);
                }
            }
            from
        } else {
            front
        }
    }
}

/// The quotes of a day stand in the order of their rows. A quote is a call where its row
/// says "Call" in whatever case, or "C", and else a put; its volatility and delta are
/// those read for that row, and its days run from the day to the expiration of that row.
/// A row gives a quote exactly where it expires after the day, names a side, has a
/// volatility from 0.01 to 2.5 and a finite delta, and has no spread above a quarter of
/// a positive mean.
pub proof fn law_quotes_of_rows(date_days: i64, rows: Vec<OptionRow>, xs: Vec<Reading>, r: Vec<Quote>) -> (from:
    Seq<int>)
    requires
        rows@.len() == xs@.len(),
        call_ensures(clean_quotes, (date_days, &rows, &xs), r),
    ensures
        from.len() == r@.len(),
        forall|k: int| 0 <= k < from.len() ==> 0 <= #[trigger] from[k] < rows@.len(),
        forall|j: int, k: int| 0 <= j < k < from.len() ==> #[trigger] from[j] < #[trigger] from[k],
        forall|k: int|
            0 <= k < from.len() ==> {
                let q = r@[k];
                let row = rows@[#[trigger] from[k]];
                let cp = row.call_put->0@;
                &&& row.call_put is Some
                &&& q.is_call <==> cp == seq!['C'] || (cp.len() == 4 && (cp[0] == 'c' || cp[0] == 'C') && (
                cp[1] == 'a' || cp[1] == 'A') && (cp[2] == 'l' || cp[2] == 'L') && (cp[3] == 'l' || cp[3]
                    == 'L'))
                &&& xs@[from[k]].iv == Some(q.iv)
                &&& xs@[from[k]].delta == Some(q.delta)
                &&& row.expiration is Some
                &&& ymd_value(row.expiration->0@) == Some(date_days + q.dte)
            },
        forall|i: int|
            0 <= i < rows@.len() ==> (from.contains(i) <==> {
                let row = #[trigger] rows@[i];
                let x = xs@[i];
                &&& row.expiration matches Some(e) && ymd_value(e@) matches Some(z) && date_days < z && z
                    - date_days <= 0x7fff_ffff_ffff_ffff
                &&& row.call_put is Some
                &&& x.iv matches Some(iv) && (Num { bits: 0x3f84_7ae1_47ae_147b }).at_most(iv) && iv.at_most(
                    Num { bits: 0x4004_0000_0000_0000 },
                )
                &&& x.delta matches Some(d) && d.finite()
                &&& x.spread matches Some((mid, rel)) ==> mid.nan() || mid.rank() <= 0 || rel.nan() || rel.at_most(
                    Num { bits: 0x3fd0_0000_0000_0000 },
                )
            }),
{
    let z = date_days as int;
    let from = lemma_quote_rows(z, rows@, xs@, rows@.len() as int);
    assert forall|k: int| 0 <= k < from.len() implies {
        let q = r@[k];
        let row = rows@[#[trigger] from[k]];
        let cp = row.call_put->0@;
        &&& row.call_put is Some
        &&& q.is_call <==> cp == seq!['C'] || (cp.len() == 4 && (cp[0] == 'c' || cp[0] == 'C') && (cp[1]
            == 'a' || cp[1] == 'A') && (cp[2] == 'l' || cp[2] == 'L') && (cp[3] == 'l' || cp[3] == 'L'))
        &&& xs@[from[k]].iv == Some(q.iv)
        &&& xs@[from[k]].delta == Some(q.delta)
        &&& row.expiration is Some
        &&& ymd_value(row.expiration->0@) == Some(date_days + q.dte)
    } by {
        let row = rows@[from[k]];
        lemma_names_call(row.call_put->0@);
        assert(row@.call_put == text_view(row.call_put) && row@.expiration == text_view(row.expiration));
        assert(quote_of(z, row@, xs@[from[k]]) == Some(r@[k]));
    }
    assert forall|i: int| 0 <= i < rows@.len() implies (from.contains(i) <==> quote_of(
        z,
        (#[trigger] rows@[i])@,
        xs@[i],
    ) is Some) by {
        if from.contains(i) {
            let k = choose|k: int| 0 <= k < from.len() && from[k] == i;
            assert(quote_of(z, rows@[from[k]]@, xs@[from[k]]) is Some);
        }
    }
    assert forall|i: int| 0 <= i < rows@.len() implies (from.contains(i) <==> {
        let row = #[trigger] rows@[i];
        let x = xs@[i];
        &&& row.expiration matches Some(e) && ymd_value(e@) matches Some(z) && date_days < z && z - date_days
            <= 0x7fff_ffff_ffff_ffff
        &&& row.call_put is Some
        &&& x.iv matches Some(iv) && (Num { bits: 0x3f84_7ae1_47ae_147b }).at_most(iv) && iv.at_most(
            Num { bits: 0x4004_0000_0000_0000 },
        )
        &&& x.delta matches Some(d) && d.finite()
        &&& x.spread matches Some((mid, rel)) ==> mid.nan() || mid.rank() <= 0 || rel.nan() || rel.at_most(
            Num { bits: 0x3fd0_0000_0000_0000 },
        )
    }) by {
        let row = rows@[i];
        assert(row@.call_put == text_view(row.call_put) && row@.expiration == text_view(row.expiration));
        assert(from.contains(i) <==> quote_of(z, row@, xs@[i]) is Some);
    }
    from
}

/// Of one row: "Call" in whatever case, or "C", is a call, and "Put" or "P" in whatever
/// case is not.
pub proof fn law_side_of_a_row(date_days: i64, rows: Vec<OptionRow>, xs: Vec<Reading>, r: Vec<Quote>, cp: Seq<char>)
    requires
        rows@.len() == 1,
        xs@.len() == 1,
        call_ensures(clean_quotes, (date_days, &rows, &xs), r),
        r@.len() == 1,
        rows@[0].call_put matches Some(s) && s@ == cp,
    ensures
        same_ignoring_case(cp, "Call"@) ==> r@[0].is_call,
        cp == "C"@ ==> r@[0].is_call,
        same_ignoring_case(cp, "Put"@) ==> !r@[0].is_call,
        same_ignoring_case(cp, "P"@) ==> !r@[0].is_call,
        cp == "c"@ ==> !r@[0].is_call,
        cp.len() == 0 ==> !r@[0].is_call,
{
    let from = law_quotes_of_rows(date_days, rows, xs, r);
    assert(from[0] == 0);
    reveal_strlit("Call");
    reveal_strlit("C");
    reveal_strlit("c");
    reveal_strlit("Put");
    reveal_strlit("P");
    assert("C"@ =~= seq!['C']);
    if same_ignoring_case(cp, "P"@) {
        assert(ascii_lower(cp[0]) == ascii_lower("P"@[0]));
        assert(cp[0] != 'C');
    }
    assert(cp == "c"@ ==> cp[0] != 'C');
}

/// What an expiry gives comes from its own quotes. The put of a wing is the first of the
/// puts whose delta is nearest to -0.25, and no farther from it than 0.10, and the call
/// alike; at the money a call and a put may each be 0.15 away. With both, their mean
/// counts; with one, that one.
pub proof fn law_expiry_pick(quotes: Vec<Quote>, e: DeltaErrors, dte: i64, r: ExpiryPick)
    requires
        e.covers(quotes@.len()),
        call_ensures(expiry_iv, (&quotes, &e, dte), r),
    ensures
        r.dte == dte,
        is_first_nearest(r.iv_25p, quotes@, e.put_25@, dte, false, Num { bits: 0x3fb9_9999_9999_999a }),
        is_first_nearest(r.iv_25c, quotes@, e.call_25@, dte, true, Num { bits: 0x3fb9_9999_9999_999a }),
        r.atm matches AtTheMoney::Mean(c, p) ==> is_first_nearest(
            Some(c),
            quotes@,
            e.call_50@,
            dte,
            true,
            Num { bits: 0x3fc3_3333_3333_3333 },
        ) && is_first_nearest(
            Some(p),
            quotes@,
            e.put_50@,
            dte,
            false,
            Num { bits: 0x3fc3_3333_3333_3333 },
        ),
        r.atm matches AtTheMoney::Sole(x) ==> {
            ||| is_first_nearest(
                Some(x),
                quotes@,
                e.call_50@,
                dte,
                true,
                Num { bits: 0x3fc3_3333_3333_3333 },
            ) && is_first_nearest(
                None,
                quotes@,
                e.put_50@,
                dte,
                false,
                Num { bits: 0x3fc3_3333_3333_3333 },
            )
            ||| is_first_nearest(
                None,
                quotes@,
                e.call_50@,
                dte,
                true,
                Num { bits: 0x3fc3_3333_3333_3333 },
            ) && is_first_nearest(
                Some(x),
                quotes@,
                e.put_50@,
                dte,
                false,
                Num { bits: 0x3fc3_3333_3333_3333 },
            )
        },
        r.atm is Missing ==> is_first_nearest(
            None,
            quotes@,
            e.call_50@,
            dte,
            true,
            Num { bits: 0x3fc3_3333_3333_3333 },
        ) && is_first_nearest(
            None,
            quotes@,
            e.put_50@,
            dte,
            false,
            Num { bits: 0x3fc3_3333_3333_3333 },
        ),
{
    lemma_first_nearest(r.iv_25p, quotes@, e.put_25@, dte, false, WING_TOL);
    lemma_first_nearest(r.iv_25c, quotes@, e.call_25@, dte, true, WING_TOL);
    let (c, q) = choose|c: Option<Num>, q: Option<Num>|
        is_nearest_iv(c, quotes@, e.call_50@, dte, true, ATM_TOL) && is_nearest_iv(
            q,
            quotes@,
            e.put_50@,
            dte,
            false,
            ATM_TOL,
        ) && r.atm == #[trigger] at_the_money(c, q);
    lemma_first_nearest(c, quotes@, e.call_50@, dte, true, ATM_TOL);
    lemma_first_nearest(q, quotes@, e.put_50@, dte, false, ATM_TOL);
}

/// Whether `r` is the volatility of a quote of the expiry and the side such that every
/// other quote of them within `reach` is farther away, or as far and later. There is none
/// where no quote of them is within reach.
pub open spec fn is_first_nearest(
    r: Option<Num>,
    quotes: Seq<Quote>,
    errors: Seq<Num>,
    dte: i64,
    is_call: bool,
    reach: Num,
) -> bool {
    match r {
        Some(iv) => exists|k: int|
            0 <= k < quotes.len() && quotes[k].dte == dte && quotes[k].is_call == is_call
                && #[trigger] errors[k].at_most(reach) && quotes[k].iv == iv && (forall|j: int|
                0 <= j < quotes.len() && quotes[j].dte == dte && quotes[j].is_call == is_call ==> (k <= j
                    ==> errors[k].at_most(errors[j]) || errors[j].nan()) && (j < k ==> errors[k].below(
                    #[trigger] errors[j],
                ) || errors[j].nan())),
        None => forall|j: int|
            0 <= j < quotes.len() && quotes[j].dte == dte && quotes[j].is_call == is_call ==> errors[j].nan()
                || reach.below(#[trigger] errors[j]) || reach.nan(),
    }
}

proof fn lemma_first_nearest(
    r: Option<Num>,
    quotes: Seq<Quote>,
    errors: Seq<Num>,
    dte: i64,
    is_call: bool,
    tol: u64,
)
    requires
        is_nearest_iv(r, quotes, errors, dte, is_call, tol),
        errors.len() == quotes.len(),
    ensures
        is_first_nearest(r, quotes, errors, dte, is_call, Num { bits: tol }),
{
    let reach = Num { bits: tol };
    match r {
        Some(iv) => {
            let k = choose|k: int|
                {
                    &&& #[trigger] is_eligible(quotes, errors, dte, is_call, tol, k)
                    &&& quotes[k].iv == iv
                    &&& forall|j: int| #[trigger]
                        is_eligible(quotes, errors, dte, is_call, tol, j) && j != k ==> comes_first(errors, k, j)
                };
            assert(errors[k].at_most(reach));
            assert forall|j: int|
                0 <= j < quotes.len() && quotes[j].dte == dte && quotes[j].is_call == is_call implies (k <= j
                ==> errors[k].at_most(errors[j]) || errors[j].nan()) && (j < k ==> errors[k].below(
                #[trigger] errors[j],
            ) || errors[j].nan()) by {
                assert(is_eligible(quotes, errors, dte, is_call, tol, j) || !errors[j].at_most(reach));
            }
        },
        None => {
            assert forall|j: int|
                0 <= j < quotes.len() && quotes[j].dte == dte && quotes[j].is_call == is_call implies errors[j].nan()
                || reach.below(#[trigger] errors[j]) || reach.nan() by {
                assert(!is_eligible(quotes, errors, dte, is_call, tol, j));
            }
        },
    }
}

/// The picks of a day are one for each number of days to expiry that some quote has, by
/// ascending days, and each is what the quotes of those days give.
pub proof fn law_picks_by_expiry(quotes: Vec<Quote>, e: DeltaErrors, r: Vec<ExpiryPick>)
    requires
        e.covers(quotes@.len()),
        call_ensures(expiry_ivs, (&quotes, &e), r),
    ensures
        forall|i: int, j: int| 0 <= i < j < r@.len() ==> (#[trigger] r@[i]).dte < (#[trigger] r@[j]).dte,
        forall|k: int|
            0 <= k < quotes@.len() ==> r@.map_values(|p: ExpiryPick| p.dte).contains(
                (#[trigger] quotes@[k]).dte,
            ),
        forall|i: int|
            0 <= i < r@.len() ==> quotes@.map_values(|q: Quote| q.dte).contains((#[trigger] r@[i]).dte),
        forall|i: int|
            0 <= i < r@.len() ==> is_first_nearest(
                (#[trigger] r@[i]).iv_25p,
                quotes@,
                e.put_25@,
                r@[i].dte,
                false,
                Num { bits: 0x3fb9_9999_9999_999a },
            ) && is_first_nearest(
                r@[i].iv_25c,
                quotes@,
                e.call_25@,
                r@[i].dte,
                true,
                Num { bits: 0x3fb9_9999_9999_999a },
            ),
{
    let dtes = r@.map_values(|p: ExpiryPick| p.dte);
    assert forall|i: int, j: int| 0 <= i < j < r@.len() implies (#[trigger] r@[i]).dte < (
    #[trigger] r@[j]).dte by {
        assert(dtes[i] < dtes[j]);
    }
    let days = quotes@.map_values(|q: Quote| q.dte);
    assert forall|i: int| 0 <= i < r@.len() implies days.contains((#[trigger] r@[i]).dte) by {
        assert(occurs(quotes@, dtes[i]));
        let k = choose|k: int| 0 <= k < quotes@.len() && (#[trigger] quotes@[k]).dte == dtes[i];
        assert(days[k] == r@[i].dte);
    }
    assert forall|i: int| 0 <= i < r@.len() implies is_first_nearest(
        (#[trigger] r@[i]).iv_25p,
        quotes@,
        e.put_25@,
        r@[i].dte,
        false,
        Num { bits: 0x3fb9_9999_9999_999a },
    ) && is_first_nearest(
        r@[i].iv_25c,
        quotes@,
        e.call_25@,
        r@[i].dte,
        true,
        Num { bits: 0x3fb9_9999_9999_999a },
    ) by {
        assert(is_expiry_pick(r@[i], quotes@, e, r@[i].dte));
        lemma_first_nearest(r@[i].iv_25p, quotes@, e.put_25@, r@[i].dte, false, WING_TOL);
        lemma_first_nearest(r@[i].iv_25c, quotes@, e.call_25@, r@[i].dte, true, WING_TOL);
    }
}

/// Each expiry keeps its days and its wings, and takes the mean that stands at its own
/// place exactly where it has a call and a put at the money.
pub proof fn law_points_keep_picks(picks: Vec<ExpiryPick>, means: Vec<Num>, r: Vec<ExpiryIv>, i: int)
    requires
        picks@.len() == means@.len(),
        call_ensures(expiry_points, (&picks, &means), r),
        0 <= i < picks@.len(),
    ensures
        r@.len() == picks@.len(),
        r@[i].dte == picks@[i].dte,
        r@[i].iv_25p == picks@[i].iv_25p,
        r@[i].iv_25c == picks@[i].iv_25c,
        picks@[i].atm is Mean ==> r@[i].iv_atm == Some(means@[i]),
        picks@[i].atm matches AtTheMoney::Sole(x) ==> r@[i].iv_atm == Some(x),
        picks@[i].atm is Missing ==> r@[i].iv_atm is None,
{
}

/// A volatility is missing exactly where neither expiry has it. It is interpolated
/// exactly where both have it at different days, the lower first; else it is that of the
/// lower expiry, and of the upper where the lower has none.
pub proof fn law_blend(lo: Option<(i64, Num)>, hi: Option<(i64, Num)>, r: Blend)
    requires
        call_ensures(interp_variance, (lo, hi), r),
    ensures
        r is Missing <==> lo is None && hi is None,
        r is Between <==> lo is Some && hi is Some && (lo->0).0 != (hi->0).0,
        r matches Blend::Between(a, x, b, y) ==> lo == Some((a, x)) && hi == Some((b, y)),
        r matches Blend::Same(x) ==> if lo is Some {
            x == (lo->0).1
        } else {
            x == (hi->0).1
        },
{
}

/// The three volatilities of the synthetic point come about each from its own: the put of
/// the wing, the call of the wing, and at the money, in that order.
pub proof fn law_point_blends(lo: ExpiryIv, hi: Option<ExpiryIv>, r: (Blend, Blend, Blend))
    requires
        call_ensures(point_blends, (lo, hi), r),
    ensures
        r.0 is Missing <==> lo.iv_25p is None && (hi matches Some(h) ==> h.iv_25p is None),
        r.1 is Missing <==> lo.iv_25c is None && (hi matches Some(h) ==> h.iv_25c is None),
        r.2 is Missing <==> lo.iv_atm is None && (hi matches Some(h) ==> h.iv_atm is None),
        r.0 matches Blend::Same(x) ==> lo.iv_25p == Some(x) || (lo.iv_25p is None && hi->0.iv_25p == Some(x)),
        r.1 matches Blend::Same(x) ==> lo.iv_25c == Some(x) || (lo.iv_25c is None && hi->0.iv_25c == Some(x)),
        r.2 matches Blend::Same(x) ==> lo.iv_atm == Some(x) || (lo.iv_atm is None && hi->0.iv_atm == Some(x)),
        r.0 is Between <==> hi is Some && lo.iv_25p is Some && hi->0.iv_25p is Some && lo.dte != hi->0.dte,
        r.1 is Between <==> hi is Some && lo.iv_25c is Some && hi->0.iv_25c is Some && lo.dte != hi->0.dte,
        r.2 is Between <==> hi is Some && lo.iv_atm is Some && hi->0.iv_atm is Some && lo.dte != hi->0.dte,
        r.0 matches Blend::Between(a, x, b, y) ==> a == lo.dte && lo.iv_25p == Some(x) && b == hi->0.dte
            && hi->0.iv_25p == Some(y),
        r.1 matches Blend::Between(a, x, b, y) ==> a == lo.dte && lo.iv_25c == Some(x) && b == hi->0.dte
            && hi->0.iv_25c == Some(y),
        r.2 matches Blend::Between(a, x, b, y) ==> a == lo.dte && lo.iv_atm == Some(x) && b == hi->0.dte
            && hi->0.iv_atm == Some(y),
{
}

/// What was interpolated counts where it was called for, and nowhere else.
pub proof fn law_resolve(b: Blend, between: Option<Num>, r: Option<Num>)
    requires
        call_ensures(resolve, (b, between), r),
    ensures
        b is Between ==> r == between,
        b matches Blend::Same(x) ==> r == Some(x),
        b is Missing ==> r is None,
{
}

/// A point is plausible exactly where the volatility at the money is above 0.03 and at most
/// 1.5, the skew is from -0.05 to 0.80, and no wing that is a number is below 0.02 or above
/// 2.5, nor a ratio that is one above 4.
pub proof fn law_plausible(p: Num, c: Num, atm: Num, ratio: Num, skew_abs: Num, r: bool)
    requires
        call_ensures(plausible, (p, c, atm, ratio, skew_abs), r),
    ensures
        r <==> {
            &&& (Num { bits: 0x3f9e_b851_eb85_1eb8 }).below(atm)
            &&& atm.at_most(Num { bits: 0x3ff8_0000_0000_0000 })
            &&& p.nan() || ((Num { bits: 0x3f94_7ae1_47ae_147b }).at_most(p) && p.at_most(
                Num { bits: 0x4004_0000_0000_0000 },
            ))
            &&& c.nan() || ((Num { bits: 0x3f94_7ae1_47ae_147b }).at_most(c) && c.at_most(
                Num { bits: 0x4004_0000_0000_0000 },
            ))
            &&& ratio.nan() || ratio.at_most(Num { bits: 0x4010_0000_0000_0000 })
            &&& (Num { bits: 0xbfa9_9999_9999_999a }).at_most(skew_abs)
            &&& skew_abs.at_most(Num { bits: 0x3fe9_9999_9999_999a })
        },
{
}

/// The term structure runs from the first to the last expiry that is five days away or
/// more and has a volatility at the money. There is one exactly where those two are ten
/// days apart or more and both positive.
pub proof fn law_term(es: Vec<ExpiryIv>, r: Option<(usize, usize)>)
    requires
        call_ensures(term_structure, (&es,), r),
    ensures
        r matches Some((f, b)) ==> {
            &&& f < es@.len() && b < es@.len()
            &&& es@[f as int].dte >= 5 && es@[b as int].dte >= 5
            &&& es@[b as int].dte >= es@[f as int].dte + 10
            &&& es@[f as int].iv_atm matches Some(x) && !x.nan() && x.rank() > 0
            &&& es@[b as int].iv_atm matches Some(x) && !x.nan() && x.rank() > 0
            &&& forall|k: int|
                0 <= k < es@.len() && (#[trigger] es@[k]).dte >= 5 && es@[k].iv_atm is Some ==> f <= k <= b
        },
        r is None ==> forall|f: int, b: int|
            0 <= f < es@.len() && 0 <= b < es@.len() && (#[trigger] es@[f]).dte >= 5 && (
            #[trigger] es@[b]).dte >= es@[f].dte + 10 && (es@[f].iv_atm matches Some(x) && !x.nan() && x.rank()
                > 0) && (es@[b].iv_atm matches Some(x) && !x.nan() && x.rank() > 0) ==> exists|k: int|
                0 <= k < es@.len() && (#[trigger] es@[k]).dte >= 5 && es@[k].iv_atm is Some && (k < f || k > b),
{
    match r {
        Some((f, b)) => {
            assert forall|k: int|
                0 <= k < es@.len() && (#[trigger] es@[k]).dte >= 5 && es@[k].iv_atm is Some implies f <= k
                <= b by {
                assert(in_term(es@, k));
            }
            assert(in_term(es@, f as int) && in_term(es@, b as int));
        },
        None => {
            assert forall|f: int, b: int|
                0 <= f < es@.len() && 0 <= b < es@.len() && (#[trigger] es@[f]).dte >= 5 && (
                #[trigger] es@[b]).dte >= es@[f].dte + 10 && (es@[f].iv_atm matches Some(x) && !x.nan()
                    && x.rank() > 0) && (es@[b].iv_atm matches Some(x) && !x.nan() && x.rank() > 0) implies exists|
                k: int,
            |
                0 <= k < es@.len() && (#[trigger] es@[k]).dte >= 5 && es@[k].iv_atm is Some && (k < f || k
                    > b) by {
                assert(in_term(es@, f) && in_term(es@, b));
                assert(spans(es@, f, b));
                assert(!is_front_and_back(es@, f, b));
                let k = choose|k: int| #[trigger] in_term(es@, k) && !(f <= k <= b);
                assert(es@[k].dte >= 5);
            }
        },
    }
}

/// The three volatilities of a day are numbers that its expiries have or that were
/// interpolated for them; its date, its skew and the normalized skew are those it was
/// given; its term structure is that which was calculated, or no number.
pub proof fn law_day_skew_is_given(
    date: &str,
    picks: Vec<ExpiryPick>,
    means: Vec<Num>,
    x: Calculated,
    r: Option<DaySkew>,
)
    requires
        picks@.len() == means@.len(),
        call_ensures(compute_day_skew, (date, &picks, &means, x), r),
    ensures
        r matches Some(s) ==> {
            &&& s.date@ == date@
            &&& s.skew_abs == x.skew_abs
            &&& s.skew_norm == x.skew_norm
            &&& (s.ts_slope == x.ts_slope && s.ts_ratio == x.ts_ratio) || (s.ts_slope.nan()
                && s.ts_ratio.nan())
            &&& exists|i: int, j: int|
                {
                    &&& 0 <= i < picks@.len() && 0 <= j < picks@.len()
                    &&& (#[trigger] picks@[i]).dte == s.dte_lo
                    &&& (#[trigger] picks@[j]).dte == s.dte_hi
                    &&& picks@[i].iv_25p is Some && picks@[i].iv_25c is Some
                    &&& picks@[j].iv_25p is Some && picks@[j].iv_25c is Some
                    &&& s.dte_lo == s.dte_hi ==> picks@[i].iv_25p == Some(s.iv_25p) && picks@[i].iv_25c
                        == Some(s.iv_25c)
                    &&& s.dte_lo != s.dte_hi ==> x.iv_25p == Some(s.iv_25p) && x.iv_25c == Some(s.iv_25c)
                    &&& s.dte_lo != s.dte_hi && picks@[i].atm !is Missing && picks@[j].atm !is Missing
                        ==> x.iv_atm == Some(s.iv_atm)
                    &&& s.dte_lo == s.dte_hi && picks@[i].atm is Mean ==> s.iv_atm == means@[i]
                    &&& s.dte_lo == s.dte_hi ==> (picks@[i].atm matches AtTheMoney::Sole(a) ==> s.iv_atm == a)
                }
        },
{
    if let Some(s) = r {
        let es = points_of(picks@, means@);
        let found = choose|found: Option<(usize, Option<usize>)>|
            #[trigger] is_bracket(found, es) && is_skew_at(r, date@, es, found, x);
        let (lo, hi) = found->0;
        let i = lo as int;
        let j = match hi {
            Some(h) => h as int,
            None => i,
        };
        assert(is_below(es, i) || is_above(es, i));
        assert(hi is Some ==> is_below(es, i) && is_above(es, j));
        assert(picks@[i].dte == s.dte_lo && picks@[j].dte == s.dte_hi);
        assert(es[i].iv_25p == picks@[i].iv_25p && es[j].iv_25p == picks@[j].iv_25p);
    }
}

/// A day has a skew wherever its date is one, two expiries with both wings lie on either
/// side of thirty days, what was interpolated between the nearest ones is there and the
/// point is plausible.
pub proof fn law_day_skew_is_owed(
    date: &str,
    picks: Vec<ExpiryPick>,
    means: Vec<Num>,
    x: Calculated,
    r: Option<DaySkew>,
    i: int,
    j: int,
)
    requires
        picks@.len() == means@.len(),
        call_ensures(compute_day_skew, (date, &picks, &means, x), r),
        ymd_value(date@) is Some,
        0 <= i < picks@.len(),
        0 <= j < picks@.len(),
        picks@[i].dte <= 30 < picks@[j].dte,
        picks@[i].iv_25p is Some,
        picks@[i].iv_25c is Some,
        picks@[j].iv_25p is Some,
        picks@[j].iv_25c is Some,
        forall|k: int|
            0 <= k < picks@.len() && k != i && k != j ==> (#[trigger] picks@[k]).iv_25p is None
                || picks@[k].iv_25c is None || picks@[k].dte < picks@[i].dte || picks@[k].dte > picks@[j].dte,
        picks@[i].atm !is Missing,
        picks@[j].atm !is Missing,
    ensures
        r is Some <==> (x.iv_25p matches Some(p) && x.iv_25c matches Some(c) && x.iv_atm matches Some(atm)
            && (Num { bits: 0 }).below(atm) && is_plausible(p, c, atm, x.ratio, x.skew_abs)),
        r matches Some(s) ==> s.dte_lo == picks@[i].dte && s.dte_hi == picks@[j].dte && x.iv_25p == Some(
            s.iv_25p,
        ) && x.iv_25c == Some(s.iv_25c) && x.iv_atm == Some(s.iv_atm),
{
    let es = points_of(picks@, means@);
    let found = choose|found: Option<(usize, Option<usize>)>|
        #[trigger] is_bracket(found, es) && is_skew_at(r, date@, es, found, x);
    assert(is_below(es, i) && is_above(es, j));
    assert forall|k: int| #[trigger] is_below(es, k) && k != i implies es[k].dte < es[i].dte by {
        assert(es[k].dte == picks@[k].dte);
        assert(k != j);
    }
    assert forall|k: int| #[trigger] is_above(es, k) && k != j implies es[k].dte > es[j].dte by {
        assert(es[k].dte == picks@[k].dte);
        assert(k != i);
    }
    assert(found is Some);
    let (lo, hi) = found->0;
    assert(hi is Some);
    assert(is_below(es, lo as int) && is_above(es, hi->0 as int));
    assert(lo == i && hi->0 == j);
}

/// The range of three volatilities is of two of them, and all three lie in it; there is
/// none exactly where one is no number.
pub proof fn law_iv_range(a: Num, b: Num, c: Num, r: Option<(Num, Num)>)
    requires
        call_ensures(iv_range, (a, b, c), r),
    ensures
        r is None <==> a.nan() || b.nan() || c.nan(),
        r matches Some((lo, hi)) ==> (lo == a || lo == b || lo == c) && (hi == a || hi == b || hi == c)
            && lo.at_most(a) && lo.at_most(b) && lo.at_most(c) && a.at_most(hi) && b.at_most(hi) && c.at_most(hi),
{
}

/// With wings on one side of thirty days alone, both sides of the day are the expiry that is
/// nearest to thirty, and its own volatilities count: a skew is owed where they are
/// plausible.
pub proof fn law_one_sided_day(
    date: &str,
    picks: Vec<ExpiryPick>,
    means: Vec<Num>,
    x: Calculated,
    r: Option<DaySkew>,
    i: int,
)
    requires
        picks@.len() == means@.len(),
        call_ensures(compute_day_skew, (date, &picks, &means, x), r),
        ymd_value(date@) is Some,
        0 <= i < picks@.len(),
        picks@[i].iv_25p is Some,
        picks@[i].iv_25c is Some,
        picks@[i].atm !is Missing,
        forall|k: int|
            0 <= k < picks@.len() && k != i ==> (#[trigger] picks@[k]).iv_25p is None || picks@[k].iv_25c is None
                || (picks@[k].dte < picks@[i].dte <= 30) || (30 < picks@[i].dte < picks@[k].dte),
    ensures
        ({
            let atm = if picks@[i].atm is Mean {
                means@[i]
            } else {
                picks@[i].atm->Sole_0
            };
            &&& r is Some <==> (Num { bits: 0 }).below(atm) && is_plausible(
                picks@[i].iv_25p->0,
                picks@[i].iv_25c->0,
                atm,
                x.ratio,
                x.skew_abs,
            )
            &&& r matches Some(s) ==> s.dte_lo == picks@[i].dte && s.dte_hi == picks@[i].dte && Some(s.iv_25p)
                == picks@[i].iv_25p && Some(s.iv_25c) == picks@[i].iv_25c && s.iv_atm == atm
        }),
{
    let es = points_of(picks@, means@);
    let found = choose|found: Option<(usize, Option<usize>)>|
        #[trigger] is_bracket(found, es) && is_skew_at(r, date@, es, found, x);
    assert(is_below(es, i) || is_above(es, i));
    assert forall|k: int| (is_below(es, k) || is_above(es, k)) && k != i implies (es[k].dte < es[i].dte <= 30) || (
    30 < es[i].dte < es[k].dte) by {
        assert(es[k].dte == picks@[k].dte);
    }
    assert(found is Some);
    let (lo, hi) = found->0;
    assert(is_below(es, lo as int) || is_above(es, lo as int));
    assert(hi is None) by {
        if let Some(h) = hi {
            assert(is_below(es, lo as int) && is_above(es, h as int));
        }
    }
    assert(lo == i);
}

/// A day takes the term structure that was calculated for it exactly where its expiries have
/// one; else both of its numbers are none.
pub proof fn law_term_of_a_day(
    date: &str,
    picks: Vec<ExpiryPick>,
    means: Vec<Num>,
    x: Calculated,
    r: Option<DaySkew>,
    es: Vec<ExpiryIv>,
    t: Option<(usize, usize)>,
)
    requires
        picks@.len() == means@.len(),
        call_ensures(compute_day_skew, (date, &picks, &means, x), r),
        call_ensures(expiry_points, (&picks, &means), es),
        call_ensures(term_structure, (&es,), t),
        r is Some,
    ensures
        t is Some ==> r->0.ts_slope == x.ts_slope && r->0.ts_ratio == x.ts_ratio,
        t is None ==> r->0.ts_slope.nan() && r->0.ts_ratio.nan(),
{
    let s = r->0;
    let found = choose|found: Option<(usize, Option<usize>)>|
        #[trigger] is_bracket(found, es@) && is_skew_at(r, date@, es@, found, x);
    let u = choose|u: Option<(usize, usize)>|
        #[trigger] is_term(u, es@) && (s.ts_slope, s.ts_ratio) == (if u is Some {
            (x.ts_slope, x.ts_ratio)
        } else {
            (Num { bits: NAN }, Num { bits: NAN })
        });
    assert(is_term(t, es@));
    if let Some((f, b)) = t {
        assert(is_front_and_back(es@, f as int, b as int));
    }
    if let Some((f, b)) = u {
        assert(is_front_and_back(es@, f as int, b as int));
    }
}

} // verus!

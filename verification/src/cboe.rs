//! Delayed-quote option chains: what a chain document holds, which of its contracts
//! count for dealer gamma, and the trading session that it belongs to.

use crate::csv::is_field;
use crate::dates::{
    day_in_range, day_number, day_text, days_from_civil, falls_on_weekend, fits, fmt_ymd,
    is_weekend, law_day_text_is_field, law_every_day_has_a_date, law_parse_undoes_format,
    lemma_short_date_in_range, lemma_short_fields_fit, parse_ymd, ymd_value,
};
use crate::json::{
    field_of, items, items_of, json_parsed, json_view, json_views, member, number_field, number_of,
    parse, text_field, text_of, JsonView,
};
use crate::num::{Num, ZERO};
use crate::numeral::{denotes_number, is_decimal, is_numeral, lemma_digit_run_whole, unsigned};
use crate::pick::{law_pick, pick};
use crate::text::{
    all_digits, byte_prefix, cat, chars_of, decimal, first_bytes, int_value, is_digit,
    law_ascii_prefix, law_padded_value, law_short_prefix, law_trimmed, lemma_byte_prefix_short,
    lemma_int_value_bound, padded, parse_int, string_of, ten_to, trimmed,
};
use vstd::prelude::*;

verus! {

// ---- sessions ----

/// The working day that a day belongs to: weekends belong to the Friday before.
pub open spec fn last_session(z: int) -> int {
    if (z + 4) % 7 == 6 {
        z - 1
    } else if (z + 4) % 7 == 0 {
        z - 2
    } else {
        z
    }
}

/// The date of the session that a timestamp belongs to; the text itself where it is
/// no date.
pub open spec fn session_text(raw: Seq<char>) -> Seq<char> {
    match ymd_value(raw) {
        Some(z) => day_text(last_session(z)),
        None => raw,
    }
}

/// The session that a timestamp belongs to. Chains carry the time at which they were
/// fetched, but hold the last completed session: weekends roll back to Friday.
#[verifier::spinoff_prover]
#[verifier::rlimit(40)]
pub fn session_date(raw: &str) -> (r: String)
    requires
        ymd_value(raw@) matches Some(z) ==> day_in_range(last_session(z)),
    ensures
        r@ == session_text(raw@),
{
    match parse_ymd(raw) {
        Some(day) => {
            let mut d: i64 = day;
            while is_weekend(d)
                invariant
                    day_in_range(last_session(day as int)),
                    last_session(d as int) == last_session(day as int),
                    day - 2 <= d <= day,
                    (day + 4) % 7 == 6 ==> d >= day - 1,
                decreases d - last_session(day as int),
            {
                d = d - 1;
            }
            fmt_ymd(d)
        },
        None => raw.to_string(),
    }
}

/// A session is never on a weekend, at most two days before the day that belongs to
/// it, and the session of itself.
#[verifier::spinoff_prover]
#[verifier::rlimit(40)]
pub proof fn law_session(z: int)
    ensures
        !falls_on_weekend(last_session(z)),
        z - 2 <= last_session(z) <= z,
        last_session(last_session(z)) == last_session(z),
        forall|d: int| last_session(z) < d <= z ==> #[trigger] falls_on_weekend(d),
{
}

/// The date of a session reads back as the session.
pub proof fn law_session_reads_back(raw: Seq<char>, z: int)
    requires
        ymd_value(raw) == Some(z),
        day_in_range(last_session(z)),
        last_session(z) >= -719528,
    ensures
        ymd_value(session_text(raw)) == Some(last_session(z)),
{
    law_every_day_has_a_date(last_session(z));
    law_parse_undoes_format(session_text(raw), last_session(z));
}

// ---- contract symbols ----

/// What an option symbol says: the strike in thousandths, as text, whether it is a
/// call, and the day on which it expires.
pub struct Occ {
    pub strike: String,
    pub is_call: bool,
    pub expiry: i64,
}

pub open spec fn is_ascii(s: Seq<char>) -> bool {
    forall|i: int| 0 <= i < s.len() ==> (#[trigger] s[i]) < '\u{80}'
}

/// The fields of an option symbol, which stand at its end: six digits of the date,
/// `C` or `P`, and the strike.
pub open spec fn occ_fields(sym: Seq<char>) -> (Seq<char>, Seq<char>, Seq<char>, char, Seq<char>) {
    let n = sym.len() as int;
    (
        sym.subrange(n - 15, n - 13),
        sym.subrange(n - 13, n - 11),
        sym.subrange(n - 11, n - 9),
        sym[n - 9],
        sym.subrange(n - 8, n),
    )
}

/// What a symbol like `SPX260618C06525000` says: the strike in thousandths, whether
/// it is a call, and the day number of its expiry in this century.
pub open spec fn occ_value(sym: Seq<char>) -> Option<(Seq<char>, bool, int)> {
    let (yy, mm, dd, cp, strike) = occ_fields(sym);
    let call = cp == 'C' || cp == 'c';
    let put = cp == 'P' || cp == 'p';
    if sym.len() < 15 || !is_ascii(sym) || !is_numeral(strike) || !(call || put) {
        None
    } else {
        match (int_value(yy), int_value(mm), int_value(dd)) {
            (Some(y), Some(m), Some(d)) => Some((strike, call, day_number(2000 + y, m, d))),
            _ => None,
        }
    }
}

fn ascii(cs: &Vec<char>) -> (r: bool)
    ensures
        r == is_ascii(cs@),
{
    let mut i: usize = 0;
    while i < cs.len()
        invariant
            i <= cs@.len(),
            forall|k: int| 0 <= k < i ==> (#[trigger] cs@[k]) < '\u{80}',
        decreases cs@.len() - i,
    {
        if cs[i] >= '\u{80}' {
            return false;
        }
        i = i + 1;
    }
    true
}

/// Parse an option symbol.
pub fn parse_occ(sym: &str) -> (r: Option<Occ>)
    ensures
        match r {
            Some(o) => occ_value(sym@) == Some((o.strike@, o.is_call, o.expiry as int)),
            None => occ_value(sym@) is None,
        },
{
    let cs: Vec<char> = chars_of(sym);
    let n: usize = cs.len();
    if n < 15 || !ascii(&cs) {
        return None;
    }
    let strike: String = string_of(&cs, n - 8, n);
    if !denotes_number(strike.as_str()) {
        return None;
    }
    let cp: char = cs[n - 9];
    let is_call: bool = cp == 'C' || cp == 'c';
    if !is_call && cp != 'P' && cp != 'p' {
        return None;
    }
    let yy: String = string_of(&cs, n - 15, n - 13);
    let mm: String = string_of(&cs, n - 13, n - 11);
    let dd: String = string_of(&cs, n - 11, n - 9);
    match (parse_int(yy.as_str()), parse_int(mm.as_str()), parse_int(dd.as_str())) {
        (Some(y), Some(m), Some(d)) => {
            proof {
                lemma_int_value_bound(yy@);
                lemma_int_value_bound(mm@);
                lemma_int_value_bound(dd@);
                reveal_with_fuel(ten_to, 3);
                lemma_short_fields_fit(2000 + y, m as int, d as int);
            }
            Some(Occ { strike, is_call, expiry: days_from_civil(2000 + y, m, d) })
        },
        _ => None,
    }
}

/// The symbol of a contract: the root, the date, `C` or `P`, and the strike in
/// thousandths.
pub open spec fn occ_symbol(root: Seq<char>, y: int, m: int, d: int, call: bool, strike: Seq<char>) -> Seq<char> {
    root + padded(y, 2) + padded(m, 2) + padded(d, 2) + seq![if call { 'C' } else { 'P' }] + strike
}

proof fn lemma_two_digits(n: int)
    requires
        0 <= n <= 99,
    ensures
        padded(n, 2).len() == 2,
        all_digits(padded(n, 2)),
        int_value(padded(n, 2)) == Some(n),
{
    law_padded_value(n as nat, 2);
    reveal_with_fuel(decimal, 3);
}

proof fn lemma_digits_are_a_number(s: Seq<char>)
    requires
        s.len() > 0,
        all_digits(s),
    ensures
        is_numeral(s),
{
    lemma_digit_run_whole(s);
    assert(is_digit(s[0]));
    assert(unsigned(s) == s);
    assert(s.skip(s.len() as int).len() == 0);
    assert(is_decimal(s));
}

/// The symbol of a contract says what the contract is.
pub proof fn law_symbol_reads_back(
    root: Seq<char>,
    y: int,
    m: int,
    d: int,
    call: bool,
    strike: Seq<char>,
)
    requires
        is_ascii(root),
        0 <= y <= 99,
        0 <= m <= 99,
        0 <= d <= 99,
        strike.len() == 8,
        all_digits(strike),
    ensures
        occ_value(occ_symbol(root, y, m, d, call, strike)) == Some(
            (strike, call, day_number(2000 + y, m, d)),
        ),
{
    let sym = occ_symbol(root, y, m, d, call, strike);
    let n = sym.len() as int;
    lemma_two_digits(y);
    lemma_two_digits(m);
    lemma_two_digits(d);
    lemma_digits_are_a_number(strike);
    assert(sym.subrange(n - 15, n - 13) =~= padded(y, 2));
    assert(sym.subrange(n - 13, n - 11) =~= padded(m, 2));
    assert(sym.subrange(n - 11, n - 9) =~= padded(d, 2));
    assert(sym.subrange(n - 8, n) =~= strike);
    assert forall|i: int| 0 <= i < n implies (#[trigger] sym[i]) < '\u{80}' by {
        let k = i - root.len();
        if k < 0 {
            assert(sym[i] == root[i]);
        } else if k < 2 {
            assert(is_digit(padded(y, 2)[k]));
        } else if k < 4 {
            assert(is_digit(padded(m, 2)[k - 2]));
        } else if k < 6 {
            assert(is_digit(padded(d, 2)[k - 4]));
        } else if k > 6 {
            assert(is_digit(strike[k - 7]));
        }
    }
}

// ---- chains ----

/// One contract as a chain document quotes it.
pub struct RawQuote {
    pub symbol: String,
    pub oi: Num,
    pub gamma: Num,
    pub delta: Num,
    pub iv: Num,
    pub bid: Num,
    pub ask: Num,
}

/// What a quote holds.
pub struct QuoteView {
    pub symbol: Seq<char>,
    pub oi: Num,
    pub gamma: Num,
    pub delta: Num,
    pub iv: Num,
    pub bid: Num,
    pub ask: Num,
}

impl View for RawQuote {
    type V = QuoteView;

    open spec fn view(&self) -> QuoteView {
        QuoteView {
            symbol: self.symbol@,
            oi: self.oi,
            gamma: self.gamma,
            delta: self.delta,
            iv: self.iv,
            bid: self.bid,
            ask: self.ask,
        }
    }
}

/// One contract of a chain, its strike in thousandths.
pub struct Opt {
    pub strike: String,
    pub dte: i64,
    pub is_call: bool,
    pub oi: Num,
    pub gamma: Num,
    pub delta: Num,
    pub iv: Num,
    pub bid: Num,
    pub ask: Num,
}

/// The contracts of one underlying at one session.
pub struct Chain {
    pub date: String,
    pub timestamp: String,
    pub spot: Num,
    pub opts: Vec<Opt>,
}

/// Zero.
pub open spec fn zero() -> Num {
    Num { bits: ZERO }
}

/// Whether a quote counts on day `d0`: it has open interest, its symbol can be read,
/// and it has not expired.
pub open spec fn is_live(q: QuoteView, d0: int) -> bool {
    !q.oi.at_most(zero()) && match occ_value(q.symbol) {
        Some((_, _, expiry)) => expiry >= d0 && fits(expiry - d0),
        None => false,
    }
}

/// Whether `o` is the contract that `q` quotes, on day `d0`.
pub open spec fn is_contract(o: Opt, q: QuoteView, d0: int) -> bool {
    &&& occ_value(q.symbol) == Some((o.strike@, o.is_call, d0 + o.dte))
    &&& (o.oi, o.gamma, o.delta) == (q.oi, q.gamma, q.delta)
    &&& (o.iv, o.bid, o.ask) == (q.iv, q.bid, q.ask)
}

/// Whether `opts` are the live contracts among `quotes`, in order.
pub open spec fn are_live_contracts(opts: Seq<Opt>, quotes: Seq<QuoteView>, d0: int) -> bool {
    let live = pick(quotes.len() as int, |k: int| is_live(quotes[k], d0));
    &&& opts.len() == live.len()
    &&& forall|i: int| 0 <= i < opts.len() ==> is_contract(#[trigger] opts[i], quotes[live[i] as int], d0)
}

/// What quotes hold.
pub open spec fn quote_views(quotes: Seq<RawQuote>) -> Seq<QuoteView> {
    quotes.map_values(|q: RawQuote| q@)
}

/// The session of a timestamp, which stands in its first ten bytes.
pub open spec fn chain_date(timestamp: Seq<char>) -> Seq<char> {
    session_text(byte_prefix(timestamp, 10))
}

/// The chain of a timestamp, a spot and quotes, or the first thing that is missing.
pub open spec fn is_chain(
    r: Result<Chain, String>,
    timestamp: Seq<char>,
    spot: Option<Num>,
    quotes: Option<Seq<QuoteView>>,
) -> bool {
    match (ymd_value(chain_date(timestamp)), spot, quotes) {
        (None, _, _) => r matches Err(e) && e@ == "cboe: bad timestamp date"@,
        (_, None, _) => r matches Err(e) && e@ == "cboe: no spot"@,
        (_, _, None) => r matches Err(e) && e@ == "cboe: no options"@,
        (Some(d0), Some(s), Some(q)) => {
            &&& r matches Ok(c)
            &&& c.date@ == chain_date(timestamp)
            &&& c.timestamp@ == timestamp
            &&& c.spot == s
            &&& are_live_contracts(c.opts@, q, d0)
        },
    }
}

/// The date of a chain can stand in a field of a file, with nothing to trim.
pub proof fn law_chain_date_is_field(timestamp: Seq<char>)
    requires
        ymd_value(chain_date(timestamp)) is Some,
    ensures
        is_field(chain_date(timestamp)),
        trimmed(chain_date(timestamp)) == chain_date(timestamp),
{
    let z = last_session(ymd_value(byte_prefix(timestamp, 10))->0);
    law_every_day_has_a_date(z);
    law_day_text_is_field(chain_date(timestamp), z);
}

/// The contract that a quote is of on day `d0`, where it counts.
fn live_contract(q: &RawQuote, d0: i64) -> (r: Option<Opt>)
    ensures
        match r {
            Some(o) => is_live(q@, d0 as int) && is_contract(o, q@, d0 as int),
            None => !is_live(q@, d0 as int),
        },
{
    if q.oi.le(Num::new(ZERO)) {
        return None;
    }
    match parse_occ(q.symbol.as_str()) {
        Some(occ) => {
            let dte: i128 = occ.expiry as i128 - d0 as i128;
            if 0 <= dte && dte <= 0x7fff_ffff_ffff_ffff {
                Some(
                    Opt {
                        strike: occ.strike,
                        dte: dte as i64,
                        is_call: occ.is_call,
                        oi: q.oi,
                        gamma: q.gamma,
                        delta: q.delta,
                        iv: q.iv,
                        bid: q.bid,
                        ask: q.ask,
                    },
                )
            } else {
                None
            }
        },
        None => None,
    }
}

/// The live contracts among `quotes` on day `d0`.
pub fn live_contracts(quotes: &Vec<RawQuote>, d0: i64) -> (r: Vec<Opt>)
    ensures
        are_live_contracts(r@, quote_views(quotes@), d0 as int),
{
    let ghost views = quote_views(quotes@);
    let ghost live = |k: int| is_live(views[k], d0 as int);
    let mut out: Vec<Opt> = Vec::new();
    let mut i: usize = 0;
    while i < quotes.len()
        invariant
            i <= quotes@.len(),
            views == quote_views(quotes@),
            live == (|k: int| is_live(views[k], d0 as int)),
            out@.len() == pick(i as int, live).len(),
            forall|k: int|
                0 <= k < out@.len() ==> is_contract(
                    #[trigger] out@[k],
                    views[pick(i as int, live)[k] as int],
                    d0 as int,
                ),
        decreases quotes@.len() - i,
    {
        assert(views[i as int] == quotes@[i as int]@);
        match live_contract(&quotes[i], d0) {
            Some(o) => {
                let ghost was = out@;
                out.push(o);
                assert forall|k: int| 0 <= k < out@.len() implies is_contract(
                    #[trigger] out@[k],
                    views[pick(i + 1, live)[k] as int],
                    d0 as int,
                ) by {
                    if k < was.len() {
                        assert(out@[k] == was[k]);
                    }
                }
            },
            None => {},
        }
        i = i + 1;
    }
    out
}

/// The chain of a timestamp, a spot and quotes.
pub fn assemble(timestamp: String, spot: Option<Num>, quotes: Option<Vec<RawQuote>>) -> (r: Result<
    Chain,
    String,
>)
    ensures
        is_chain(
            r,
            timestamp@,
            spot,
            match quotes {
                Some(q) => Some(quote_views(q@)),
                None => None,
            },
        ),
{
    let day: String = first_bytes(timestamp.as_str(), 10);
    proof {
        lemma_byte_prefix_short(timestamp@, 10);
        lemma_short_date_in_range(day@);
    }
    let date: String = session_date(day.as_str());
    let d0: i64 = match parse_ymd(date.as_str()) {
        Some(d) => d,
        None => {
            return Err("cboe: bad timestamp date".to_string());
        },
    };
    let price: Num = match spot {
        Some(s) => s,
        None => {
            return Err("cboe: no spot".to_string());
        },
    };
    match quotes {
        Some(q) => Ok(Chain { date, timestamp, spot: price, opts: live_contracts(&q, d0) }),
        None => Err("cboe: no options".to_string()),
    }
}

// ---- documents ----

/// The number that member `key` is, or zero.
pub open spec fn number_or_zero(v: JsonView, key: Seq<char>) -> Num {
    match number_of(field_of(v, key)) {
        Some(x) => x,
        None => zero(),
    }
}

/// The text that member `key` is, or none of it.
pub open spec fn text_or_empty(v: JsonView, key: Seq<char>) -> Seq<char> {
    match text_of(field_of(v, key)) {
        Some(s) => s,
        None => Seq::empty(),
    }
}

/// The quote that an item of a chain document holds.
pub open spec fn quote_in(v: JsonView) -> QuoteView {
    QuoteView {
        symbol: text_or_empty(v, "option"@),
        oi: number_or_zero(v, "open_interest"@),
        gamma: number_or_zero(v, "gamma"@),
        delta: number_or_zero(v, "delta"@),
        iv: number_or_zero(v, "iv"@),
        bid: number_or_zero(v, "bid"@),
        ask: number_or_zero(v, "ask"@),
    }
}

/// The quotes of a list of items.
pub open spec fn quotes_in(v: JsonView) -> Option<Seq<QuoteView>> {
    match items_of(v) {
        Some(items) => Some(items.map_values(|x: JsonView| quote_in(x))),
        None => None,
    }
}

/// The chain that a document holds.
pub open spec fn is_chain_of(r: Result<Chain, String>, v: JsonView) -> bool {
    let data = field_of(v, "data"@);
    is_chain(
        r,
        text_or_empty(v, "timestamp"@),
        number_of(field_of(data, "current_price"@)),
        quotes_in(field_of(data, "options"@)),
    )
}

fn number_at(v: &serde_json::Value, key: &str) -> (r: Num)
    ensures
        r == number_or_zero(json_view(*v), key@),
{
    match number_field(v, key) {
        Some(x) => x,
        None => Num::new(ZERO),
    }
}

fn text_at(v: &serde_json::Value, key: &str) -> (r: String)
    ensures
        r@ == text_or_empty(json_view(*v), key@),
{
    match text_field(v, key) {
        Some(s) => s,
        None => String::new(),
    }
}

fn read_quote(v: &serde_json::Value) -> (r: RawQuote)
    ensures
        r@ == quote_in(json_view(*v)),
{
    RawQuote {
        symbol: text_at(v, "option"),
        oi: number_at(v, "open_interest"),
        gamma: number_at(v, "gamma"),
        delta: number_at(v, "delta"),
        iv: number_at(v, "iv"),
        bid: number_at(v, "bid"),
        ask: number_at(v, "ask"),
    }
}

fn read_quotes(v: &serde_json::Value) -> (r: Option<Vec<RawQuote>>)
    ensures
        match r {
            Some(q) => quotes_in(json_view(*v)) == Some(quote_views(q@)),
            None => quotes_in(json_view(*v)) is None,
        },
{
    match items(v) {
        Some(list) => {
            let mut out: Vec<RawQuote> = Vec::new();
            let mut i: usize = 0;
            while i < list.len()
                invariant
                    i <= list@.len(),
                    out@.len() == i,
                    forall|k: int| 0 <= k < i ==> (#[trigger] out@[k])@ == quote_in(json_view(list@[k])),
                decreases list@.len() - i,
            {
                out.push(read_quote(&list[i]));
                i = i + 1;
            }
            assert(quote_views(out@) =~= json_views(list@).map_values(|x: JsonView| quote_in(x)));
            Some(out)
        },
        None => None,
    }
}

/// The chain that a document of the quote service holds: the parts of it, and of
/// every quote, that are missing count as empty, and numbers as zero.
pub fn fetch_chain(body: &[u8]) -> (r: Result<Chain, String>)
    ensures
        match json_parsed(body@) {
            Ok(v) => is_chain_of(r, v),
            Err(e) => r matches Err(m) && m@ == "cboe json: "@ + e,
        },
{
    match parse(body) {
        Ok(v) => {
            let timestamp: String = text_at(&v, "timestamp");
            let (spot, quotes): (Option<Num>, Option<Vec<RawQuote>>) = match member(&v, "data") {
                Some(data) => {
                    let quotes: Option<Vec<RawQuote>> = match member(data, "options") {
                        Some(list) => read_quotes(list),
                        None => None,
                    };
                    (number_field(data, "current_price"), quotes)
                },
                None => (None, None),
            };
            assemble(timestamp, spot, quotes)
        },
        Err(e) => Err(cat("cboe json: ", e.as_str())),
    }
}

// ---- dealer positions ----

/// The sign with which a contract counts in the dealers' book: they are long the calls
/// and short the puts of an equity index, and the other way round for the VIX.
pub open spec fn dealer_sign(vix: bool, is_call: bool) -> int {
    if vix == is_call {
        -1
    } else {
        1
    }
}

/// Whether the dealers are long a contract.
pub fn dealers_long(vix: bool, is_call: bool) -> (r: bool)
    ensures
        r == (dealer_sign(vix, is_call) == 1),
{
    vix != is_call
}

/// Calls and puts count with opposite signs, and so do an index and the VIX.
pub proof fn law_dealer_sign(vix: bool, is_call: bool)
    ensures
        dealer_sign(vix, is_call) == -dealer_sign(vix, !is_call),
        dealer_sign(vix, is_call) == -dealer_sign(!vix, is_call),
{
}

/// The range of volatilities for which greeks are calculated: from 0.01 to 2.
pub const VOL_LEAST: u64 = 0x3f84_7ae1_47ae_147b;

pub const VOL_MOST: u64 = 0x4000_0000_0000_0000;

/// The contracts whose volatility lies in the range for which greeks are calculated.
pub fn has_vanna(iv: Num) -> (r: bool)
    ensures
        r == iv.between(Num { bits: VOL_LEAST }, Num { bits: VOL_MOST }),
{
    iv.within(Num::new(VOL_LEAST), Num::new(VOL_MOST))
}

// ---- what a chain owes to its document ----

/// Whether `x` is the number that stands at `key` among the members of an object: zero
/// where nothing stands there, or no number.
pub open spec fn stands_at(x: Num, m: Map<Seq<char>, JsonView>, key: Seq<char>) -> bool {
    if m.contains_key(key) && m[key] is Number {
        m[key]->Number_2 == x
    } else {
        x.bits == 0
    }
}

/// What a symbol says, field by field from its end: eight characters of the strike, `C`,
/// `c`, `P` or `p` for the side, two digits each of day, month and year of this century.
/// Shorter symbols, and those with characters outside ASCII, say nothing.
pub proof fn law_symbol_fields(sym: &str, r: Option<Occ>)
    requires
        call_ensures(parse_occ, (sym,), r),
    ensures
        r matches Some(o) ==> {
            let n = sym@.len() as int;
            &&& n >= 15
            &&& o.strike@ == sym@.subrange(n - 8, n)
            &&& o.is_call <==> sym@[n - 9] == 'C' || sym@[n - 9] == 'c'
            &&& !o.is_call <==> sym@[n - 9] == 'P' || sym@[n - 9] == 'p'
            &&& int_value(sym@.subrange(n - 15, n - 13)) matches Some(y) && int_value(
                sym@.subrange(n - 13, n - 11),
            ) matches Some(m) && int_value(sym@.subrange(n - 11, n - 9)) matches Some(d) && o.expiry
                == day_number(2000 + y, m, d)
        },
        r is Some <==> {
            let n = sym@.len() as int;
            &&& n >= 15
            &&& forall|i: int| 0 <= i < n ==> (#[trigger] sym@[i]) as int <= 0x7f
            &&& is_numeral(sym@.subrange(n - 8, n))
            &&& sym@[n - 9] == 'C' || sym@[n - 9] == 'c' || sym@[n - 9] == 'P' || sym@[n - 9] == 'p'
            &&& int_value(sym@.subrange(n - 15, n - 13)) is Some
            &&& int_value(sym@.subrange(n - 13, n - 11)) is Some
            &&& int_value(sym@.subrange(n - 11, n - 9)) is Some
        },
{
    let n = sym@.len() as int;
    if forall|i: int| 0 <= i < n ==> (#[trigger] sym@[i]) as int <= 0x7f {
        assert forall|i: int| 0 <= i < n implies (#[trigger] sym@[i]) < '\u{80}' by {
            assert(sym@[i] as int <= 0x7f);
        }
        assert(is_ascii(sym@));
    }
    if is_ascii(sym@) {
        assert forall|i: int| 0 <= i < n implies (#[trigger] sym@[i]) as int <= 0x7f by {
            assert(sym@[i] < '\u{80}');
        }
    }
}

/// Every contract of a chain comes from an item of its document, in the order of the
/// items, and each of its numbers is the one that stands in that item under its own name.
/// Its strike and its side are those of the symbol of that item, and its days run from
/// the date of the chain to the expiry in the symbol. Every item with open interest and a
/// symbol that has not expired is there.
pub proof fn law_contracts_of_document(
    body: &[u8],
    r: Result<Chain, String>,
    root: Map<Seq<char>, JsonView>,
    data: Map<Seq<char>, JsonView>,
    items: Seq<JsonView>,
) -> (from: Seq<usize>)
    requires
        call_ensures(fetch_chain, (body,), r),
        json_parsed(body@) == Ok::<JsonView, Seq<char>>(JsonView::Object(root)),
        root.contains_key("data"@) && root["data"@] == JsonView::Object(data),
        data.contains_key("options"@) && data["options"@] == JsonView::List(items),
        items.len() <= usize::MAX,
        r is Ok,
    ensures
        from.len() == r->Ok_0.opts@.len(),
        forall|k: int| 0 <= k < from.len() ==> #[trigger] from[k] < items.len(),
        forall|j: int, k: int| 0 <= j < k < from.len() ==> #[trigger] from[j] < #[trigger] from[k],
        forall|k: int|
            0 <= k < from.len() ==> items[#[trigger] from[k] as int] is Object && ({
                let o = r->Ok_0.opts@[k];
                let m = items[from[k] as int]->Object_0;
                &&& stands_at(o.oi, m, "open_interest"@)
                &&& stands_at(o.gamma, m, "gamma"@)
                &&& stands_at(o.delta, m, "delta"@)
                &&& stands_at(o.iv, m, "iv"@)
                &&& stands_at(o.bid, m, "bid"@)
                &&& stands_at(o.ask, m, "ask"@)
            }),
        forall|k: int|
            0 <= k < from.len() ==> items[#[trigger] from[k] as int] is Object && ({
                let o = r->Ok_0.opts@[k];
                let m = items[from[k] as int]->Object_0;
                let sym = m["option"@]->Text_0;
                &&& m.contains_key("option"@) && m["option"@] is Text
                &&& sym.len() >= 15
                &&& o.strike@ == sym.subrange(sym.len() - 8, sym.len() as int)
                &&& o.is_call <==> sym[sym.len() - 9] == 'C' || sym[sym.len() - 9] == 'c'
                &&& o.dte >= 0
                &&& !o.oi.at_most(Num { bits: 0 })
                &&& ymd_value(r->Ok_0.date@) matches Some(d0) && (occ_value(sym) matches Some((_, _, expiry))
                    && expiry == d0 + o.dte)
            }),
        forall|i: int|
            0 <= i < items.len() ==> ((#[trigger] items[i] matches JsonView::Object(m) && m.contains_key(
                "open_interest"@,
            ) && m["open_interest"@] is Number && !m["open_interest"@]->Number_2.at_most(Num { bits: 0 })
                && m.contains_key("option"@) && (m["option"@] matches JsonView::Text(sym) && (occ_value(
                sym,
            ) matches Some((_, _, expiry)) && 0 <= expiry - ymd_value(r->Ok_0.date@)->0
                <= 0x7fff_ffff_ffff_ffff))) <==> from.contains(i as usize)),
{
    let c = r->Ok_0;
    let v = JsonView::Object(root);
    assert(field_of(v, "data"@) == JsonView::Object(data));
    assert(field_of(JsonView::Object(data), "options"@) == JsonView::List(items));
    let quotes = quotes_in(JsonView::List(items))->0;
    assert(quotes.len() == items.len());
    let d0 = ymd_value(c.date@)->0;
    assert(is_chain_of(r, v));
    let live = |k: int| is_live(quotes[k], d0);
    let from = pick(quotes.len() as int, live);
    law_pick(quotes.len() as int, live);
    assert(are_live_contracts(c.opts@, quotes, d0));
    assert forall|k: int| 0 <= k < from.len() implies is_read_from(
        c.opts@[k],
        items[#[trigger] from[k] as int],
        d0,
    ) by {
        let i = from[k] as int;
        assert(live(i));
        assert(is_contract(c.opts@[k], quotes[i], d0));
        assert(quotes[i] == quote_in(items[i]));
    }
    assert forall|i: int| 0 <= i < items.len() implies ((#[trigger] items[i] matches JsonView::Object(m)
        && m.contains_key("open_interest"@) && m["open_interest"@] is Number
        && !m["open_interest"@]->Number_2.at_most(Num { bits: 0 }) && m.contains_key("option"@) && (
    m["option"@] matches JsonView::Text(sym) && (occ_value(sym) matches Some((_, _, expiry)) && 0 <= expiry
        - d0 <= 0x7fff_ffff_ffff_ffff))) <==> from.contains(i as usize)) by {
        assert(quotes[i] == quote_in(items[i]));
        assert(occ_value(Seq::empty()) is None);
        if from.contains(i as usize) {
            let k = choose|k: int| 0 <= k < from.len() && from[k] == i as usize;
            assert(live(from[k] as int));
        }
        if live(i) {
            assert(from.contains(i as usize));
        }
    }
    from
}

/// Whether a contract says what an item of a document says.
spec fn is_read_from(o: Opt, item: JsonView, d0: int) -> bool {
    &&& item is Object
    &&& ({
        let m = item->Object_0;
        let sym = m["option"@]->Text_0;
        &&& stands_at(o.oi, m, "open_interest"@)
        &&& stands_at(o.gamma, m, "gamma"@)
        &&& stands_at(o.delta, m, "delta"@)
        &&& stands_at(o.iv, m, "iv"@)
        &&& stands_at(o.bid, m, "bid"@)
        &&& stands_at(o.ask, m, "ask"@)
        &&& m.contains_key("option"@) && m["option"@] is Text
        &&& sym.len() >= 15
        &&& o.strike@ == sym.subrange(sym.len() - 8, sym.len() as int)
        &&& o.is_call <==> sym[sym.len() - 9] == 'C' || sym[sym.len() - 9] == 'c'
        &&& o.dte >= 0
        &&& !o.oi.at_most(Num { bits: 0 })
        &&& occ_value(sym) matches Some((_, _, expiry)) && expiry == d0 + o.dte
    })
}

/// The spot of a chain is the "current_price" in the "data" of its document, its timestamp
/// the "timestamp" of the document. There is a chain exactly where the session of the
/// timestamp is a date, the price is a number, and the "options" are a list; else the
/// error names the first of these that fails.
pub proof fn law_chain_of_document(
    body: &[u8],
    r: Result<Chain, String>,
    root: Map<Seq<char>, JsonView>,
    data: Map<Seq<char>, JsonView>,
    timestamp: Seq<char>,
)
    requires
        call_ensures(fetch_chain, (body,), r),
        json_parsed(body@) == Ok::<JsonView, Seq<char>>(JsonView::Object(root)),
        root.contains_key("timestamp"@) && root["timestamp"@] == JsonView::Text(timestamp),
        root.contains_key("data"@) && root["data"@] == JsonView::Object(data),
    ensures
        r matches Ok(c) ==> c.timestamp@ == timestamp && data.contains_key("current_price"@) && (
        data["current_price"@] matches JsonView::Number(_, _, x) && c.spot == x),
        r is Ok <==> ymd_value(chain_date(timestamp)) is Some && data.contains_key("current_price"@)
            && data["current_price"@] is Number && data.contains_key("options"@) && data["options"@] is List,
        r matches Err(e) ==> if ymd_value(chain_date(timestamp)) is None {
            e@ == "cboe: bad timestamp date"@
        } else if !(data.contains_key("current_price"@) && data["current_price"@] is Number) {
            e@ == "cboe: no spot"@
        } else {
            e@ == "cboe: no options"@
        },
{
    let v = JsonView::Object(root);
    assert(is_chain_of(r, v));
    assert(field_of(v, "data"@) == JsonView::Object(data));
    assert(text_of(field_of(v, "timestamp"@)) == Some(timestamp));
}

/// What does not parse gives the error of the parser behind "cboe json: ".
pub proof fn law_chain_of_no_document(body: &[u8], r: Result<Chain, String>, e: Seq<char>)
    requires
        call_ensures(fetch_chain, (body,), r),
        json_parsed(body@) == Err::<JsonView, Seq<char>>(e),
    ensures
        r matches Err(m) && m@ == "cboe json: "@ + e,
{
}

/// The date of a chain is that of the day in the first ten characters of its timestamp on
/// a working day, of the day before on a Saturday, and of two days before on a Sunday.
#[verifier::spinoff_prover]
#[verifier::rlimit(40)]
pub proof fn law_chain_date(timestamp: Seq<char>, z: int)
    requires
        timestamp.len() >= 10,
        forall|i: int| 0 <= i < 10 ==> (#[trigger] timestamp[i] as u32) < 0x80,
        ymd_value(timestamp.take(10)) == Some(z),
        z >= -719526,
    ensures
        z % 7 == 2 ==> ymd_value(chain_date(timestamp)) == Some(z - 1),
        z % 7 == 3 ==> ymd_value(chain_date(timestamp)) == Some(z - 2),
        z % 7 != 2 && z % 7 != 3 ==> ymd_value(chain_date(timestamp)) == Some(z),
{
    let raw = timestamp.take(10);
    law_ascii_prefix(timestamp, 10);
    lemma_short_date_in_range(raw);
    lemma_session_by_weekday(z);
    law_session_reads_back(raw, z);
}

/// The session of a day, counted from Thursday, the first of January 1970.
#[verifier::spinoff_prover]
#[verifier::rlimit(40)]
proof fn lemma_session_by_weekday(z: int)
    ensures
        z % 7 == 2 ==> last_session(z) == z - 1,
        z % 7 == 3 ==> last_session(z) == z - 2,
        z % 7 != 2 && z % 7 != 3 ==> last_session(z) == z,
{
}

/// What is no date is the session of itself.
pub proof fn law_session_of_no_date(raw: &str, r: String)
    requires
        call_ensures(session_date, (raw,), r),
        ymd_value(raw@) is None,
    ensures
        r@ == raw@,
{
}

/// The dealers are long the calls of an index and the puts of the VIX, and short the rest.
pub proof fn law_dealers_long(call: bool, put: bool, vix_call: bool, vix_put: bool)
    requires
        call_ensures(dealers_long, (false, true), call),
        call_ensures(dealers_long, (false, false), put),
        call_ensures(dealers_long, (true, true), vix_call),
        call_ensures(dealers_long, (true, false), vix_put),
    ensures
        call && !put && !vix_call && vix_put,
{
}

/// Greeks are calculated for volatilities from 0.01 to 2.
pub proof fn law_has_vanna(iv: Num, r: bool)
    requires
        call_ensures(has_vanna, (iv,), r),
    ensures
        r <==> (Num { bits: 0x3f84_7ae1_47ae_147b }).at_most(iv) && iv.at_most(
            Num { bits: 0x4000_0000_0000_0000 },
        ),
{
}

/// A document without a timestamp has no date, and one with a date but without data has no
/// spot.
pub proof fn law_chain_of_missing_parts(
    body: &[u8],
    r: Result<Chain, String>,
    root: Map<Seq<char>, JsonView>,
)
    requires
        call_ensures(fetch_chain, (body,), r),
        json_parsed(body@) == Ok::<JsonView, Seq<char>>(JsonView::Object(root)),
    ensures
        !(root.contains_key("timestamp"@) && root["timestamp"@] is Text) ==> (r matches Err(e) && e@
            == "cboe: bad timestamp date"@),
        root.contains_key("timestamp"@) && root["timestamp"@] is Text && ymd_value(
            chain_date(root["timestamp"@]->Text_0),
        ) is Some && !(root.contains_key("data"@) && root["data"@] is Object) ==> (r matches Err(e) && e@
            == "cboe: no spot"@),
{
    let v = JsonView::Object(root);
    assert(is_chain_of(r, v));
    let none = Seq::<char>::empty();
    law_short_prefix(none, 10);
    assert(byte_prefix(none, 10) =~= none);
    law_trimmed(none, none, none);
    assert(none + none + none =~= none);
    assert(ymd_value(none) is None);
}

} // verus!

use skew::align::{as_of, fill, spot_up_vol_up};
use skew::backtest::{
    average_from, can_price, decide, decisions, too_cheap, trades, volatility, Day, Decision, Signal, Strike,
    IV_PCT_LOW, PREMIUM_MIN, SKEW_PCT_HI, SKEW_PCT_LO,
};
use skew::csv::rows;
use skew::hedge::{
    days_left, entry_signal, equity_file, last_upto, latest_on, Book, Hedge, Mark, Metrics, Pos, Reason, BASE, CASH_MIN,
    CONTANGO, PRICE_MIN, SKEW_PCT_MIN, TRANCHE, TS_MIN,
};
use skew::num::Num;
use skew::svi::{admissible, can_fit, fit, RHO_LIMIT};

fn num(x: f64) -> Num {
    Num::new(x.to_bits())
}

fn nums(xs: &[f64]) -> Vec<Num> {
    xs.iter().map(|x| num(*x)).collect()
}

fn strings(xs: &[&str]) -> Vec<String> {
    xs.iter().map(|x| x.to_string()).collect()
}

fn mark(value: f64, stop: f64, peak: f64) -> Mark {
    Mark {
        value: num(value),
        stop: num(stop),
        trail_of_peak: num(peak * 0.7),
        trail_of_value: num(value * 0.7),
    }
}

#[test]
fn limits_of_trading() {
    assert_eq!(SKEW_PCT_MIN, 90.0f64.to_bits());
    assert_eq!(TS_MIN, 1.05f64.to_bits());
    assert_eq!(CONTANGO, 1.0f64.to_bits());
    assert_eq!(BASE, 10000.0f64.to_bits());
    assert_eq!(TRANCHE, 5000.0f64.to_bits());
    assert_eq!(CASH_MIN, 1.0f64.to_bits());
    assert_eq!(PRICE_MIN, 1e-9f64.to_bits());
    assert_eq!(IV_PCT_LOW, 30.0f64.to_bits());
    assert_eq!(SKEW_PCT_HI, 80.0f64.to_bits());
    assert_eq!(SKEW_PCT_LO, 20.0f64.to_bits());
    assert_eq!(PREMIUM_MIN, 1e-6f64.to_bits());
    assert_eq!(RHO_LIMIT, 0.999f64.to_bits());
}

#[test]
fn observations_on_a_grid() {
    let obs = strings(&["2026-01-02", "2026-01-05", "2026-01-05", "2026-01-09"]);
    let grid = strings(&["2026-01-01", "2026-01-02", "2026-01-06", "2026-01-30"]);
    let places = as_of(&obs, &grid);
    assert_eq!(places, vec![None, Some(0), Some(2), Some(3)]);
    let vals = fill(&nums(&[1.0, 2.0, 3.0, 4.0]), &places, num(-1.0));
    assert_eq!(vals, nums(&[-1.0, 1.0, 3.0, 4.0]));
    assert_eq!(as_of(&strings(&["b", "a"]), &strings(&["a", "b"])), vec![None, Some(1)]);
}

#[test]
fn spot_and_volatility_rise_together() {
    let c = nums(&[1.0, 2.0, 3.0]);
    let v = nums(&[0.1, 0.2, f64::NAN]);
    assert!(spot_up_vol_up(&c, &v, 1, 1));
    assert!(!spot_up_vol_up(&c, &v, 0, 1));
    assert!(!spot_up_vol_up(&c, &v, 2, 1));
    assert!(!spot_up_vol_up(&nums(&[2.0, 1.0]), &v, 1, 1));
    assert!(!spot_up_vol_up(&c, &nums(&[0.2, 0.2, 0.2]), 1, 1));
}

#[test]
fn entries_of_the_hedge() {
    let c = nums(&[1.0, 1.0, 1.0, 1.0, 1.0, 2.0]);
    let v = nums(&[0.1, 0.1, 0.1, 0.1, 0.1, 0.2]);
    assert!(entry_signal(num(90.0), num(1.06), &c, &v, 5));
    assert!(!entry_signal(num(89.9), num(1.06), &c, &v, 5));
    assert!(!entry_signal(num(f64::NAN), num(1.06), &c, &v, 5));
    assert!(!entry_signal(num(90.0), num(1.05), &c, &v, 5));
    assert!(!entry_signal(num(90.0), num(f64::INFINITY), &c, &v, 5));
    assert!(!entry_signal(num(90.0), num(1.06), &c, &v, 4));
}

/// Closes and volatilities under which both rise over five days, on every day from the fifth.
fn rising() -> (Vec<Num>, Vec<Num>) {
    let c = (0..60).map(|i| num(100.0 + i as f64)).collect();
    let v = (0..60).map(|i| num(0.1 + i as f64 / 1000.0)).collect();
    (c, v)
}

fn enter(b: &mut Book, i: usize, p0: f64, cash: f64) -> Option<Num> {
    let (c, v) = rising();
    b.enter(i, num(95.0), num(1.1), &c, &v, num(p0), num(cash))
}

#[test]
fn buying_tranches() {
    let mut b = Book::new();
    assert!(b.open.is_empty());
    assert_eq!(enter(&mut b, 7, 2.0, 6000.0), Some(num(5000.0)));
    assert_eq!(
        b.open[0],
        Pos { entry_i: 7, entry_spot: num(107.0), p0: num(2.0), cost: num(5000.0), peak: num(5000.0) }
    );
    assert_eq!(enter(&mut b, 8, 1e-9, 1000.0), None);
    assert_eq!(enter(&mut b, 8, 2.0, 0.5), None);
    assert_eq!(enter(&mut b, 8, 2.0, 1000.0), Some(num(1000.0)));
    assert_eq!(enter(&mut b, 9, 2.0, 9000.0), None);
    assert_eq!(b.open.len(), 2);
}

#[test]
fn nothing_is_bought_without_the_signal() {
    let (c, v) = rising();
    let mut b = Book::new();
    let flat = nums(&[1.0; 60]);
    assert_eq!(b.enter(7, num(89.0), num(1.1), &c, &v, num(2.0), num(6000.0)), None);
    assert_eq!(b.enter(7, num(95.0), num(1.05), &c, &v, num(2.0), num(6000.0)), None);
    assert_eq!(b.enter(7, num(95.0), num(1.1), &flat, &v, num(2.0), num(6000.0)), None);
    assert_eq!(b.enter(7, num(95.0), num(1.1), &c, &flat, num(2.0), num(6000.0)), None);
    assert_eq!(b.enter(4, num(95.0), num(1.1), &c, &v, num(2.0), num(6000.0)), None);
    assert!(b.open.is_empty());
    assert!(b.enter(7, num(95.0), num(1.1), &c, &v, num(2.0), num(6000.0)).is_some());
}

#[test]
fn selling_tranches() {
    let fresh = || {
        let mut b = Book::new();
        let _ = enter(&mut b, 10, 2.0, 6000.0);
        b
    };
    let ts = num(1.1);
    let mut b = fresh();
    assert!(b.close_out(10, num(50.0), num(0.5), &vec![mark(9000.0, 97.0, 5000.0)]).is_empty());
    assert_eq!(b.open[0].peak, num(9000.0));
    let mut b = fresh();
    assert!(b.close_out(11, num(97.0), ts, &vec![mark(6000.0, 97.0, 5000.0)]).is_empty());
    let s = b.close_out(12, num(96.9), ts, &vec![mark(6000.0, 97.0, 6000.0)]);
    assert_eq!((s.len(), s[0].reason, s[0].value), (1, Reason::Stop, num(6000.0)));
    assert!(b.open.is_empty());
    let mut b = fresh();
    assert!(b.close_out(11, num(99.0), ts, &vec![mark(8000.0, 97.0, 5000.0)]).is_empty());
    assert!(b.close_out(12, num(99.0), ts, &vec![mark(5700.0, 97.0, 8000.0)]).is_empty());
    let s = b.close_out(13, num(99.0), ts, &vec![mark(5600.0, 97.0, 8000.0)]);
    assert_eq!(s[0].reason, Reason::Trail);
    assert_eq!(s[0].pos.peak, num(8000.0));
    let mut b = fresh();
    assert!(b.close_out(30, num(99.0), ts, &vec![mark(100.0, 97.0, 5000.0)]).is_empty());
    assert_eq!(b.close_out(31, num(99.0), ts, &vec![mark(100.0, 97.0, 5000.0)])[0].reason, Reason::Expiry);
    assert_eq!(days_left(fresh().open[0], 10), 21);
    assert_eq!(days_left(fresh().open[0], 30), 1);
    assert_eq!(days_left(fresh().open[0], 40), 0);
}

#[test]
fn a_return_to_contango_sells() {
    let fresh = || {
        let mut b = Book::new();
        let _ = enter(&mut b, 10, 2.0, 6000.0);
        b
    };
    let at = |ts: f64| {
        let mut b = fresh();
        let s = b.close_out(11, num(110.0), num(ts), &vec![mark(4000.0, 97.0, 5000.0)]);
        (s.iter().map(|x| x.reason).collect::<Vec<_>>(), b.open.len())
    };
    assert_eq!(at(0.99), (vec![Reason::Contango], 0));
    assert_eq!(at(1.0), (vec![], 1));
    assert_eq!(at(1.02), (vec![], 1));
    assert_eq!(at(f64::NAN), (vec![], 1));
    let mut b = fresh();
    let s = b.close_out(11, num(96.0), num(0.9), &vec![mark(4000.0, 97.0, 5000.0)]);
    assert_eq!(s[0].reason, Reason::Stop);
}

#[test]
fn one_is_sold_and_one_kept() {
    let mut b = Book::new();
    let _ = enter(&mut b, 5, 2.0, 6000.0);
    let _ = enter(&mut b, 6, 2.0, 1000.0);
    let s = b.close_out(7, num(106.0), num(1.1), &vec![mark(100.0, 97.0, 5000.0), mark(100.0, 106.7, 1000.0)]);
    assert_eq!(s.len() + b.open.len(), 2);
    assert_eq!(s[0].pos.entry_i, 6);
    assert_eq!(b.open[0].entry_i, 5);
}

#[test]
fn a_run_of_the_hedge() {
    let dates: Vec<String> = (1..13).map(|i| format!("2026-01-{:02}", i)).collect();
    let closes: Vec<Num> = (0..12).map(|i| num(100.0 + i as f64)).collect();
    let m = Metrics {
        dates: strings(&["2026-01-02", "2026-01-06", "2026-01-09"]),
        iv: nums(&[0.1, 0.2, 0.3]),
        ts: nums(&[1.2, 1.1, 0.9]),
        skew_pct: nums(&[50.0, 95.0, 95.0]),
    };
    let mut h = Hedge::new(&dates, closes, &m);
    assert!(h.ivs[0].is_nan() && h.ts[0].is_nan() && h.skew_pct[0].is_nan());
    assert_eq!((h.ivs[1], h.ivs[4], h.ivs[5], h.ivs[11]), (num(0.1), num(0.1), num(0.2), num(0.3)));
    assert_eq!((h.ts[5], h.ts[8]), (num(1.1), num(0.9)));
    let mut cash = f64::from_bits(BASE);
    let mut bought = Vec::new();
    let mut sold = Vec::new();
    for i in 0..12 {
        let marks = h.book.open.iter().map(|_| mark(4000.0, 97.0, 5000.0)).collect::<Vec<_>>();
        for s in h.sell(&marks) {
            cash += f64::from_bits(s.value.bits);
            sold.push((s.pos.entry_i, i, s.reason));
        }
        if let Some(cost) = h.buy(num(2.0), num(cash)) {
            cash -= f64::from_bits(cost.bits);
            bought.push(i);
        }
        assert!(h.book.open.len() <= 2 && cash >= 0.0);
        assert_eq!(h.day, i + 1);
    }
    assert_eq!(bought, vec![6, 7]);
    assert_eq!(sold, vec![(6, 8, Reason::Contango), (7, 8, Reason::Contango)]);
    assert!(h.book.open.is_empty());
}

#[test]
fn equity_has_a_row_per_date() {
    let f = equity_file(&strings(&["2026-01-02", "2026-01-05"]), &strings(&["10000.00", "9876.54"]));
    assert_eq!(f, "date,equity\n2026-01-02,10000.00\n2026-01-05,9876.54\n");
    assert_eq!(
        rows(&f, 2),
        vec![strings(&["2026-01-02", "10000.00"]), strings(&["2026-01-05", "9876.54"])]
    );
    assert_eq!(equity_file(&vec![], &vec![]), "date,equity\n");
}

#[test]
fn latest_observations_on_a_grid() {
    let obs = strings(&["2026-01-05", "2026-01-02", "2026-01-05", "2026-01-09"]);
    let grid = strings(&["2026-01-01", "2026-01-02", "2026-01-05", "2026-01-08", "2026-01-09"]);
    assert_eq!(latest_on(&obs, &grid), vec![None, Some(1), Some(2), Some(2), Some(3)]);
    assert_eq!(latest_on(&vec![], &grid), vec![None; 5]);
}

#[test]
fn the_last_date_up_to_another() {
    let d = strings(&["2026-01-02", "2026-01-05", "2026-01-09"]);
    assert_eq!(last_upto(&d, "2026-01-06"), Some(1));
    assert_eq!(last_upto(&d, "2026-01-09"), Some(2));
    assert_eq!(last_upto(&d, "2026-01-01"), None);
}

fn day(pct: f64) -> Day {
    Day { iv_25p: num(0.2), iv_25c: num(0.15), iv_atm: num(0.17), iv_pct: num(pct), skew_pct: num(50.0) }
}

#[test]
fn days_that_can_be_traded() {
    assert_eq!((average_from(98), average_from(99), average_from(100)), (None, Some(0), Some(1)));
    let dates: Vec<String> = (0..25).map(|i| format!("2026-01-{:02}", i + 1)).collect();
    let closes: Vec<Num> = (0..25).map(|i| num(100.0 + i as f64)).collect();
    let mut ma: Vec<Num> = (0..25).map(|_| num(101.5)).collect();
    ma[2] = num(f64::NAN);
    let sdates = strings(&["2026-01-02", "2026-01-03", "2026-01-04", "2026-01-05", "1999-01-01"]);
    let mut days = vec![day(10.0), day(10.0), day(10.0), day(10.0), day(10.0)];
    let d = decisions(&sdates, &days, &dates, &closes, &ma);
    assert_eq!(d.len(), 2);
    assert_eq!((d[0].pidx, d[0].s_entry, d[0].s_exit, d[0].uptrend), (1, num(101.0), num(122.0), false));
    assert_eq!((d[1].pidx, d[1].s_exit, d[1].uptrend), (3, num(124.0), true));
    days[0].iv_pct = num(f64::NAN);
    days[2].iv_25p = num(f64::INFINITY);
    assert!(decisions(&sdates, &days, &dates, &closes, &ma).is_empty());
}

#[test]
fn signals_and_sides() {
    let d = |iv: f64, skew: f64, up: bool| Decision {
        pidx: 0,
        s_entry: num(1.0),
        s_exit: num(1.0),
        iv_atm: num(0.17),
        iv_25p: num(0.2),
        iv_25c: num(0.15),
        iv_pct: num(iv),
        skew_pct: num(skew),
        uptrend: up,
    };
    assert_eq!(decide(Signal::CheapVol, &d(30.0, 50.0, true)), Some(true));
    assert_eq!(decide(Signal::CheapVol, &d(10.0, 50.0, false)), Some(false));
    assert_eq!(decide(Signal::CheapVol, &d(30.1, 50.0, true)), None);
    assert_eq!(decide(Signal::SkewContrarian, &d(50.0, 80.0, false)), Some(true));
    assert_eq!(decide(Signal::SkewContrarian, &d(50.0, 20.0, true)), Some(false));
    assert_eq!(decide(Signal::SkewContrarian, &d(50.0, 50.0, true)), None);
    assert_eq!(decide(Signal::AlwaysCall, &d(99.0, 50.0, false)), Some(true));
    assert_eq!(decide(Signal::AlwaysPut, &d(99.0, 50.0, true)), Some(false));
    assert_eq!(volatility(Strike::Atm, true, &d(1.0, 1.0, true)), num(0.17));
    assert_eq!(volatility(Strike::Otm25, true, &d(1.0, 1.0, true)), num(0.15));
    assert_eq!(volatility(Strike::Otm25, false, &d(1.0, 1.0, true)), num(0.2));
}

#[test]
fn trades_of_a_signal() {
    let d = |iv: f64, iv_25c: f64| Decision {
        pidx: 0,
        s_entry: num(100.0),
        s_exit: num(110.0),
        iv_atm: num(0.17),
        iv_25p: num(0.2),
        iv_25c: num(iv_25c),
        iv_pct: num(iv),
        skew_pct: num(50.0),
        uptrend: true,
    };
    let ds = vec![d(10.0, 0.15), d(31.0, 0.15), d(10.0, 0.15), d(10.0, -0.1), d(10.0, 0.15), d(10.0, 0.15)];
    let ks = nums(&[105.0, 105.0, 0.0, 105.0, 105.0, 105.0]);
    let premiums = nums(&[2.0, 2.0, 2.0, 2.0, 1e-6, f64::NAN]);
    assert_eq!(trades(&ds, Signal::CheapVol, Strike::Otm25, &ks, &premiums), vec![0, 5]);
    assert_eq!(trades(&ds, Signal::CheapVol, Strike::Atm, &ks, &premiums), vec![0, 3, 5]);
    assert_eq!(trades(&ds, Signal::AlwaysPut, Strike::Otm25, &ks, &premiums), vec![0, 1, 3, 5]);
    assert!(trades(&ds, Signal::SkewContrarian, Strike::Atm, &ks, &premiums).is_empty());
    assert!(trades(&vec![], Signal::AlwaysCall, Strike::Atm, &vec![], &vec![]).is_empty());
}

#[test]
fn what_can_be_priced() {
    assert!(can_price(num(0.2), num(100.0)));
    assert!(!can_price(num(0.0), num(100.0)) && !can_price(num(f64::NAN), num(100.0)));
    assert!(!can_price(num(0.2), num(-1.0)) && !can_price(num(0.2), num(f64::INFINITY)));
    assert!(too_cheap(num(1e-6)) && !too_cheap(num(1e-5)) && !too_cheap(num(f64::NAN)));
}

#[test]
fn fits_of_a_smile() {
    assert!(can_fit(4, num(-0.1), num(0.1)));
    assert!(!can_fit(3, num(-0.1), num(0.1)) && !can_fit(4, num(0.1), num(0.1)));
    assert!(admissible(num(0.1), num(-0.5), num(0.0)));
    assert!(!admissible(num(0.0), num(-0.5), num(0.1)));
    assert!(!admissible(num(0.1), num(-0.999), num(0.1)));
    assert!(!admissible(num(0.1), num(0.5), num(-0.1)));
    assert_eq!(fit(&nums(&[0.3, 0.1, 0.1])), Some(1));
    assert_eq!(fit(&vec![]), None);
}

use skew::num::{Num, NAN};
use skew::skew::{
    bracket, clean_quotes, compute_day_skew, expiry_days, expiry_iv, expiry_ivs, expiry_points,
    interp_variance, iv_range, option_rows, parse_f, plausible, point_blends, resolve, term_structure,
    AtTheMoney, Blend, Calculated, DeltaErrors, ExpiryIv, ExpiryPick, OptionRow, Quote, Reading, ATM_IV_MAX, ATM_IV_MIN, ATM_TOL,
    IV_MAX, IV_MIN, MAX_IV_RATIO, MAX_REL_SPREAD, POINT_IV_MIN, SKEW_ABS_HI, SKEW_ABS_LO, WING_TOL,
};

fn num(x: f64) -> Num {
    Num::new(x.to_bits())
}

fn row(exp: &str, cp: &str) -> OptionRow {
    OptionRow {
        expiration: Some(exp.to_string()),
        call_put: Some(cp.to_string()),
        vol: None,
        delta: None,
        bid: None,
        ask: None,
    }
}

fn reading(iv: f64, delta: f64) -> Reading {
    Reading { iv: Some(num(iv)), delta: Some(num(delta)), spread: None }
}

fn quote(dte: i64, is_call: bool, iv: f64, delta: f64) -> Quote {
    Quote { dte, is_call, iv: num(iv), delta: num(delta) }
}

fn errors(quotes: &[Quote]) -> DeltaErrors {
    let e = |want: f64| {
        quotes.iter().map(|q| num((f64::from_bits(q.delta.bits) - want).abs())).collect::<Vec<_>>()
    };
    DeltaErrors { put_25: e(-0.25), call_25: e(0.25), call_50: e(0.50), put_50: e(-0.50) }
}

fn expiry(dte: i64, p: Option<f64>, c: Option<f64>, atm: Option<f64>) -> ExpiryIv {
    ExpiryIv { dte, iv_25p: p.map(num), iv_25c: c.map(num), iv_atm: atm.map(num) }
}

#[test]
fn limits_of_the_skew() {
    assert_eq!(WING_TOL, 0.10f64.to_bits());
    assert_eq!(ATM_TOL, 0.15f64.to_bits());
    assert_eq!(MAX_REL_SPREAD, 0.25f64.to_bits());
    assert_eq!(IV_MIN, 0.01f64.to_bits());
    assert_eq!(IV_MAX, 2.5f64.to_bits());
    assert_eq!(ATM_IV_MIN, 0.03f64.to_bits());
    assert_eq!(ATM_IV_MAX, 1.5f64.to_bits());
    assert_eq!(POINT_IV_MIN, 0.02f64.to_bits());
    assert_eq!(MAX_IV_RATIO, 4.0f64.to_bits());
    assert_eq!(SKEW_ABS_LO, (-0.05f64).to_bits());
    assert_eq!(SKEW_ABS_HI, 0.80f64.to_bits());
}

#[test]
fn rows_of_a_chain() {
    let v: serde_json::Value = serde_json::from_str(
        r#"{"expiration":"2026-06-18","call_put":"Call","vol":" 0.2 ","delta":"x","bid":1,"ask":"2"}"#,
    )
    .unwrap();
    assert_eq!(parse_f(&v, "vol"), Some("0.2".to_string()));
    assert_eq!(parse_f(&v, "delta"), None);
    assert_eq!(parse_f(&v, "bid"), None);
    assert_eq!(parse_f(&v, "none"), None);
    let rows = option_rows(&vec![v, serde_json::Value::Null]);
    assert_eq!(rows.len(), 2);
    assert_eq!(rows[0].expiration, Some("2026-06-18".to_string()));
    assert_eq!(rows[0].call_put, Some("Call".to_string()));
    assert_eq!(rows[0].vol, Some("0.2".to_string()));
    assert_eq!(rows[0].ask, Some("2".to_string()));
    assert_eq!(rows[1].expiration, None);
}

#[test]
fn usable_quotes() {
    let day = skew::dates::days_from_civil(2026, 5, 15);
    let keep = |r: OptionRow, x: Reading| clean_quotes(day, &vec![r], &vec![x]);
    let q = keep(row("2026-06-14", "call"), reading(0.2, 0.5));
    assert_eq!(q, vec![quote(30, true, 0.2, 0.5)]);
    assert!(keep(row("2026-06-14", "C"), reading(0.2, 0.5))[0].is_call);
    assert!(!keep(row("2026-06-14", "c"), reading(0.2, 0.5))[0].is_call);
    assert!(!keep(row("2026-06-14", "Put"), reading(0.2, 0.5))[0].is_call);
    assert!(keep(row("2026-05-15", "Call"), reading(0.2, 0.5)).is_empty());
    assert!(keep(row("soon", "Call"), reading(0.2, 0.5)).is_empty());
    assert!(keep(row("2026-06-14", "Call"), reading(2.6, 0.5)).is_empty());
    assert!(keep(row("2026-06-14", "Call"), reading(0.009, 0.5)).is_empty());
    assert!(keep(row("2026-06-14", "Call"), reading(f64::NAN, 0.5)).is_empty());
    assert!(keep(row("2026-06-14", "Call"), reading(0.2, f64::INFINITY)).is_empty());
    let mut no_side = row("2026-06-14", "Call");
    no_side.call_put = None;
    assert!(keep(no_side, reading(0.2, 0.5)).is_empty());
    let wide = |mid: f64, rel: f64| Reading { spread: Some((num(mid), num(rel))), ..reading(0.2, 0.5) };
    assert!(keep(row("2026-06-14", "Call"), wide(1.0, 0.26)).is_empty());
    assert_eq!(keep(row("2026-06-14", "Call"), wide(1.0, 0.25)).len(), 1);
    assert_eq!(keep(row("2026-06-14", "Call"), wide(0.0, 9.0)).len(), 1);
}

#[test]
fn picks_of_an_expiry() {
    let quotes = vec![
        quote(30, false, 0.25, -0.22),
        quote(30, false, 0.26, -0.26),
        quote(30, true, 0.15, 0.30),
        quote(30, true, 0.16, 0.48),
        quote(7, true, 0.30, 0.25),
        quote(30, false, 0.99, 0.25),
    ];
    let e = errors(&quotes);
    assert_eq!(expiry_days(&quotes), vec![7, 30]);
    let p = expiry_iv(&quotes, &e, 30);
    assert_eq!(p.iv_25p, Some(num(0.26)));
    assert_eq!(p.iv_25c, Some(num(0.15)));
    assert_eq!(p.atm, AtTheMoney::Sole(num(0.16)));
    let all = expiry_ivs(&quotes, &e);
    assert_eq!(all.len(), 2);
    assert_eq!(all[0].dte, 7);
    assert_eq!((all[0].iv_25p, all[0].iv_25c, all[0].atm), (None, Some(num(0.30)), AtTheMoney::Missing));
    let both = vec![quote(5, true, 0.2, 0.5), quote(5, false, 0.3, -0.5)];
    assert_eq!(expiry_iv(&both, &errors(&both), 5).atm, AtTheMoney::Mean(num(0.2), num(0.3)));
    let put = vec![quote(5, false, 0.3, -0.4)];
    assert_eq!(expiry_iv(&put, &errors(&put), 5).atm, AtTheMoney::Sole(num(0.3)));
}

#[test]
fn expiries_around_the_target() {
    let w = Some(0.2);
    let es = vec![
        expiry(7, w, w, w),
        expiry(25, w, w, None),
        expiry(30, None, w, w),
        expiry(32, w, w, w),
        expiry(60, w, w, w),
    ];
    assert_eq!(bracket(&es), Some((1, Some(3))));
    assert_eq!(bracket(&es[..3].to_vec()), Some((1, None)));
    assert_eq!(bracket(&es[3..].to_vec()), Some((0, None)));
    assert_eq!(bracket(&es[2..3].to_vec()), None);
    assert_eq!(bracket(&vec![]), None);
}

#[test]
fn how_volatilities_come_about() {
    let (a, b) = (num(0.2), num(0.3));
    assert_eq!(interp_variance(Some((20, a)), Some((40, b))), Blend::Between(20, a, 40, b));
    assert_eq!(interp_variance(Some((20, a)), Some((20, b))), Blend::Same(a));
    assert_eq!(interp_variance(Some((20, a)), None), Blend::Same(a));
    assert_eq!(interp_variance(None, Some((40, b))), Blend::Same(b));
    assert_eq!(interp_variance(None, None), Blend::Missing);
    let lo = expiry(20, Some(0.2), Some(0.1), None);
    let hi = expiry(40, Some(0.3), Some(0.15), Some(0.2));
    let (p, c, m) = point_blends(lo, Some(hi));
    assert_eq!(p, Blend::Between(20, num(0.2), 40, num(0.3)));
    assert_eq!(c, Blend::Between(20, num(0.1), 40, num(0.15)));
    assert_eq!(m, Blend::Same(num(0.2)));
    assert_eq!(point_blends(lo, None), (Blend::Same(num(0.2)), Blend::Same(num(0.1)), Blend::Missing));
    assert_eq!(resolve(p, Some(num(0.25))), Some(num(0.25)));
    assert_eq!(resolve(p, None), None);
    assert_eq!(resolve(m, Some(num(0.9))), Some(num(0.2)));
    assert_eq!(resolve(Blend::Missing, Some(num(0.9))), None);
}

fn expiry_pick(dte: i64, p: f64, c: f64, atm: AtTheMoney) -> ExpiryPick {
    ExpiryPick { dte, iv_25p: Some(num(p)), iv_25c: Some(num(c)), atm }
}

#[test]
fn volatilities_of_expiries() {
    let picks = vec![
        expiry_pick(20, 0.2, 0.15, AtTheMoney::Mean(num(0.16), num(0.18))),
        expiry_pick(40, 0.2, 0.15, AtTheMoney::Sole(num(0.19))),
        expiry_pick(60, 0.2, 0.15, AtTheMoney::Missing),
    ];
    let means = vec![num(0.17), num(0.5), num(0.5)];
    let points = expiry_points(&picks, &means);
    assert_eq!(points[0], expiry(20, Some(0.2), Some(0.15), Some(0.17)));
    assert_eq!(points[1], expiry(40, Some(0.2), Some(0.15), Some(0.19)));
    assert_eq!(points[2], expiry(60, Some(0.2), Some(0.15), None));
}

#[test]
fn plausible_points() {
    let ok = |p: f64, c: f64, a: f64, r: f64, s: f64| plausible(num(p), num(c), num(a), num(r), num(s));
    assert!(ok(0.2, 0.15, 0.17, 1.3, 0.05));
    assert!(!ok(0.2, 0.15, 0.03, 1.3, 0.05));
    assert!(!ok(0.2, 0.15, 1.51, 1.3, 0.05));
    assert!(!ok(0.2, 0.15, f64::NAN, 1.3, 0.05));
    assert!(!ok(0.2, 0.019, 0.17, 1.3, 0.05));
    assert!(!ok(2.6, 0.15, 0.17, 1.3, 0.05));
    assert!(!ok(0.2, 0.15, 0.17, 4.1, 0.05));
    assert!(!ok(0.2, 0.15, 0.17, 1.3, -0.06));
    assert!(!ok(0.2, 0.15, 0.17, 1.3, 0.81));
    assert!(!ok(0.2, 0.15, 0.17, 1.3, f64::NAN));
    assert_eq!(iv_range(num(0.2), num(0.1), num(0.3)), Some((num(0.1), num(0.3))));
    assert_eq!(iv_range(num(0.2), num(f64::NAN), num(0.3)), None);
}

#[test]
fn ends_of_the_term_structure() {
    let es = vec![
        expiry(3, None, None, Some(0.9)),
        expiry(5, None, None, None),
        expiry(6, None, None, Some(0.3)),
        expiry(16, None, None, Some(0.2)),
        expiry(90, None, None, None),
    ];
    assert_eq!(term_structure(&es), Some((2, 3)));
    assert_eq!(term_structure(&es[..3].to_vec()), None);
    assert_eq!(term_structure(&vec![expiry(6, None, None, Some(0.3)), expiry(15, None, None, Some(0.2))]), None);
    assert_eq!(term_structure(&vec![expiry(6, None, None, Some(0.0)), expiry(30, None, None, Some(0.2))]), None);
    assert_eq!(term_structure(&vec![]), None);
}

#[test]
fn the_skew_of_a_day() {
    let day = "2026-05-15";
    let picks = vec![
        expiry_pick(20, 0.21, 0.16, AtTheMoney::Sole(num(0.18))),
        expiry_pick(40, 0.19, 0.14, AtTheMoney::Mean(num(0.15), num(0.17))),
    ];
    let means = vec![num(f64::NAN), num(0.16)];
    let x = Calculated {
        iv_25p: Some(num(0.2)),
        iv_25c: Some(num(0.15)),
        iv_atm: Some(num(0.17)),
        ratio: num(0.2 / 0.15),
        skew_abs: num(0.2 - 0.15),
        skew_norm: num((0.2 - 0.15) / 0.17),
        ts_slope: num(0.0),
        ts_ratio: num(1.0),
    };
    let s = compute_day_skew(day, &picks, &means, x).unwrap();
    assert_eq!(s.date, "2026-05-15");
    assert_eq!((s.dte_lo, s.dte_hi), (20, 40));
    assert_eq!((s.iv_25p, s.iv_25c, s.iv_atm), (num(0.2), num(0.15), num(0.17)));
    assert_eq!((s.skew_abs, s.skew_norm), (x.skew_abs, x.skew_norm));
    assert_eq!((s.ts_slope, s.ts_ratio), (num(0.0), num(1.0)));
    let with = |y: Calculated| compute_day_skew(day, &picks, &means, y);
    assert!(with(Calculated { iv_25p: None, ..x }).is_none());
    assert!(with(Calculated { iv_25c: None, ..x }).is_none());
    assert!(with(Calculated { iv_atm: None, ..x }).is_none());
    assert!(with(Calculated { iv_atm: Some(num(0.0)), ..x }).is_none());
    assert!(with(Calculated { ratio: num(5.0), ..x }).is_none());
    assert!(compute_day_skew(day, &vec![], &vec![], x).is_none());
}

#[test]
fn one_side_alone_keeps_its_own_volatilities() {
    let x = Calculated {
        iv_25p: Some(num(0.9)),
        iv_25c: Some(num(0.8)),
        iv_atm: None,
        ratio: num(1.3),
        skew_abs: num(0.05),
        skew_norm: num(0.3),
        ts_slope: num(0.0),
        ts_ratio: num(1.0),
    };
    let lone = |p: ExpiryPick, mean: f64| compute_day_skew("2026-05-15", &vec![p], &vec![num(mean)], x).unwrap();
    let sole = lone(expiry_pick(20, 0.21, 0.16, AtTheMoney::Sole(num(0.18))), f64::NAN);
    assert_eq!((sole.dte_lo, sole.dte_hi), (20, 20));
    assert_eq!((sole.iv_25p, sole.iv_25c, sole.iv_atm), (num(0.21), num(0.16), num(0.18)));
    assert_eq!((sole.ts_slope.bits, sole.ts_ratio.bits), (NAN, NAN));
    let mean = lone(expiry_pick(45, 0.21, 0.16, AtTheMoney::Mean(num(0.17), num(0.19))), 0.18);
    assert_eq!((mean.dte_lo, mean.dte_hi, mean.iv_atm), (45, 45, num(0.18)));
}

#[test]
fn no_skew_without_a_date() {
    let picks = vec![expiry_pick(20, 0.21, 0.16, AtTheMoney::Sole(num(0.18)))];
    let x = Calculated {
        iv_25p: None,
        iv_25c: None,
        iv_atm: None,
        ratio: num(1.3),
        skew_abs: num(0.05),
        skew_norm: num(0.3),
        ts_slope: num(0.0),
        ts_ratio: num(1.0),
    };
    let on = |date: &str| compute_day_skew(date, &picks, &vec![num(0.0)], x);
    assert!(on("2026-05-15").is_some());
    assert!(on("d").is_none() && on("").is_none() && on("2026-05").is_none());
}

#[test]
fn sides_are_the_nearest_with_both_wings() {
    let mut quotes = Vec::new();
    for dte in [7, 25, 28, 33, 60] {
        quotes.push(quote(dte, false, 0.21, -0.25));
        if dte != 28 {
            quotes.push(quote(dte, true, 0.16, 0.25));
        }
        quotes.push(quote(dte, true, 0.18, 0.5));
    }
    let picks = expiry_ivs(&quotes, &errors(&quotes));
    let means = vec![num(f64::NAN); picks.len()];
    let x = Calculated {
        iv_25p: Some(num(0.21)),
        iv_25c: Some(num(0.16)),
        iv_atm: Some(num(0.18)),
        ratio: num(1.3),
        skew_abs: num(0.05),
        skew_norm: num(0.3),
        ts_slope: num(0.0),
        ts_ratio: num(1.0),
    };
    let s = compute_day_skew("2026-05-15", &picks, &means, x).unwrap();
    assert_eq!((s.dte_lo, s.dte_hi), (25, 33));
}

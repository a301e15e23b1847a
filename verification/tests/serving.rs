use skew::candles::{build_ohlc, Observed};
use skew::chart::{constants, date_arr, hover_data, num_arr, write_dashboard, Cell, Columns, Hover};
use skew::num::Num;
use skew::route::{
    answer_kind, dates_body, fill_page, handle, param, replace_all, request_path, respond, route_of,
    split_path, words_of, Page, Route,
};
use skew::series::{
    common_dates, credit_links, csv_stem, finite_pairs, finite_places, markers, ranked_texts, since,
    snap_dates, sorted, splice, split_by_drop, year_starts, DROP,
};
use skew::table::tabulate;

fn num(x: f64) -> Num {
    Num::new(x.to_bits())
}

fn nums(xs: &[f64]) -> Vec<Num> {
    xs.iter().map(|x| num(*x)).collect()
}

fn strings(xs: &[&str]) -> Vec<String> {
    xs.iter().map(|x| x.to_string()).collect()
}

fn cell(x: f64) -> Cell {
    Cell { value: num(x), text: format!("{:.2}", x) }
}

#[test]
fn words_between_white_space() {
    assert_eq!(words_of("  GET  /x\tHTTP/1.1 "), strings(&["GET", "/x", "HTTP/1.1"]));
    assert!(words_of(" \n").is_empty());
}

#[test]
fn paths_of_requests() {
    assert_eq!(request_path("GET /gamma?und=VIX HTTP/1.1\r\nHost: x\r\n"), "/gamma?und=VIX");
    assert_eq!(request_path("GET"), "/");
    assert_eq!(request_path(""), "/");
    assert_eq!(split_path("/a?b?c"), ("/a".to_string(), "b?c".to_string()));
    assert_eq!(split_path("/a"), ("/a".to_string(), "".to_string()));
    assert_eq!(split_path("?"), ("".to_string(), "".to_string()));
}

#[test]
fn parameters_of_queries() {
    assert_eq!(param("und=VIX&date=2026-01-02&und=SPX", "und"), "VIX");
    assert_eq!(param("und=VIX&date=2026-01-02", "date"), "2026-01-02");
    assert_eq!(param("und=VIX", "dat"), "");
    assert_eq!(param("xund=VIX", "und"), "");
    assert_eq!(param("", "und"), "");
}

#[test]
fn routes_of_pages() {
    let page = |p: &str| match handle(format!("GET {} HTTP/1.1", p).as_bytes()) {
        Route::Html(x) => x,
        _ => panic!("{}", p),
    };
    assert_eq!(page("/"), Page::Candles);
    assert_eq!(page("/candles?x=1"), Page::Candles);
    assert_eq!(page("/vix"), Page::Vix);
    assert_eq!(page("/credit"), Page::Credit);
    assert_eq!(page("/surface"), Page::Surface);
    assert_eq!(page("/gamma"), Page::Gamma);
    assert_eq!(page("/gex"), Page::Gex);
    assert_eq!(page("/gexplus"), Page::GexPlus);
}

#[test]
fn routes_of_data() {
    let at = |p: &str| handle(format!("GET {} HTTP/1.1", p).as_bytes());
    assert!(matches!(at("/api/ohlc"), Route::Ohlc));
    assert!(matches!(at("/api/dates"), Route::Dates));
    assert!(matches!(at("/api/vix_skew"), Route::VixSkew));
    assert!(matches!(at("/api/vix_gamma"), Route::VixGamma));
    assert!(matches!(at("/api/credit"), Route::Credit));
    assert!(matches!(at("/api/gex_history"), Route::GexHistory));
    assert!(matches!(at("/api/surface?date=2026-01-02"), Route::Surface(d) if d == "2026-01-02"));
    assert!(matches!(at("/api/gexplus"), Route::GexPlus(u) if u == "SPX"));
    assert!(matches!(at("/api/gexplus?und=VIX"), Route::GexPlus(u) if u == "VIX"));
    assert!(matches!(at("/api/gamma_dates?und="), Route::GammaDates(u) if u == "SPX"));
    assert!(matches!(at("/api/gamma?date=d&und=VIX"), Route::Gamma(u, d) if u == "VIX" && d == "d"));
    assert!(matches!(route_of("GET /api/surface?date=x HTTP/1.1"), Route::Surface(d) if d == "x"));
    assert!(matches!(handle(b"GET /api/surface?date=\xff HTTP/1.1"), Route::Surface(d) if d == "\u{fffd}"));
    assert!(matches!(at("/favicon.ico"), Route::NotFound));
    assert!(matches!(at("/candles/"), Route::NotFound));
}

#[test]
fn heads_of_answers() {
    assert_eq!(
        respond("200 OK", "application/json", 12),
        "HTTP/1.1 200 OK\r\nContent-Type: application/json\r\nContent-Length: 12\r\n\
         Cache-Control: no-cache, no-store, must-revalidate\r\nConnection: close\r\n\r\n"
    );
    let kind = |r: Route| answer_kind(&r);
    assert_eq!(kind(Route::NotFound), ("404 Not Found".to_string(), "text/plain".to_string()));
    assert_eq!(kind(Route::Html(Page::Vix)).1, "text/html; charset=utf-8");
    assert_eq!(kind(Route::Ohlc), ("200 OK".to_string(), "application/json".to_string()));
}

#[test]
fn lists_of_dates() {
    assert_eq!(dates_body(&strings(&["2026-01-02", "2026-01-05"])), "[\"2026-01-02\",\"2026-01-05\"]");
    assert_eq!(dates_body(&strings(&["a\"b\\"])), "[\"a\\\"b\\\\\"]");
    assert_eq!(dates_body(&vec![]), "[]");
}

#[test]
fn pages_are_filled() {
    assert_eq!(fill_page("<__STYLE__>__NAV__!__NAV__", "s __NAV__", "n"), "<s n>n!n");
    assert_eq!(replace_all("aaaa", "aa", "b"), "bb");
    assert_eq!(replace_all("aba", "ba", "x"), "ax");
    assert_eq!(replace_all("plain", "mark", "x"), "plain");
}

#[test]
fn texts_in_order() {
    let k = strings(&["b", "a", "b", ""]);
    assert_eq!(ranked_texts(&k), vec![3, 1, 0, 2]);
    assert_eq!(sorted(&k), strings(&["", "a", "b", "b"]));
    assert_eq!(csv_stem("2026-01-02.csv"), Some("2026-01-02".to_string()));
    assert_eq!(csv_stem(".csv"), None);
    assert_eq!(csv_stem("x.CSV"), None);
    let names = strings(&["2026-01-05.csv", "notes.txt", "2026-01-02.csv", ".csv"]);
    assert_eq!(snap_dates(&names), strings(&["2026-01-02", "2026-01-05"]));
}

#[test]
fn bars_and_markers() {
    let dates = strings(&["2026-01-02", "2026-01-05", "2026-01-06"]);
    assert_eq!(since(&dates, "2026-01-05"), vec![1, 2]);
    assert_eq!(since(&dates, ""), vec![0, 1, 2]);
    let v = splice(&nums(&[1.0, 2.0, 3.0]), &vec![None, Some(num(9.0)), Some(num(f64::NAN))]);
    assert_eq!(v, nums(&[1.0, 9.0, 3.0]));
    let signals = tabulate(&vec![("2026-01-05".to_string(), (true, false))]);
    let m = markers(&dates, &nums(&[1.0, 2.0, 1.0]), &nums(&[0.1, 0.2, 0.3]), &signals);
    assert_eq!(m.iter().map(|x| x.sig).collect::<Vec<_>>(), vec![false, true, false]);
    assert!(m[1].top && !m[1].bot && !m[0].top);
}

#[test]
fn joins_of_credit() {
    let hy: Vec<String> = (0..22).map(|i| format!("d{:02}", i)).collect();
    let l = credit_links(&hy, &strings(&["d01", "d00"]), &strings(&["d21", "d21"]));
    assert_eq!((l[0].ig, l[0].close, l[0].back), (Some(1), None, None));
    assert_eq!((l[1].ig, l[19].back, l[20].back), (Some(0), None, Some(0)));
    assert_eq!((l[21].close, l[21].back), (Some(1), Some(1)));
}

#[test]
fn dates_in_common() {
    let a = strings(&["c", "a", "b", "a"]);
    let b = strings(&["a", "x", "c"]);
    assert_eq!(common_dates(&a, &b), vec![(3, 0), (0, 2)]);
    assert!(common_dates(&a, &vec![]).is_empty());
}

#[test]
fn selections_of_days() {
    assert_eq!(finite_places(&nums(&[1.0, f64::NAN, f64::INFINITY, 2.0])), vec![0, 3]);
    assert_eq!(finite_pairs(&nums(&[1.0, f64::NAN, 3.0]), &nums(&[1.0, 2.0])), vec![0]);
    assert_eq!(DROP, (-0.10f64).to_bits());
    let (pre, other) = split_by_drop(&nums(&[-0.1, -0.05, f64::NAN, -0.3, 0.0]));
    assert_eq!((pre, other), (vec![0, 3], vec![1, 4]));
}

#[test]
fn starts_of_years() {
    let d = strings(&["2025-12-30", "2025-12-31", "2026-01-02", "26", "2026-01-05"]);
    let y = year_starts(&d);
    assert_eq!(
        y,
        vec![
            (0, "2025".to_string()),
            (2, "2026".to_string()),
            (3, "".to_string()),
            (4, "2026".to_string())
        ]
    );
    assert!(year_starts(&strings(&["x"])).is_empty());
}

#[test]
fn literals_of_charts() {
    assert_eq!(num_arr(&vec![cell(1.5), cell(f64::NAN), cell(-2.0)]), "[1.50,null,-2.00]");
    assert_eq!(num_arr(&vec![]), "[]");
    assert_eq!(date_arr(&strings(&["2026-01-02", "2026-01-05"])), "[\"2026-01-02\",\"2026-01-05\"]");
    let c = || Columns {
        close: vec![cell(1.0)],
        atm: vec![cell(2.0)],
        skew_norm: vec![cell(3.0)],
        skew_abs: vec![cell(f64::INFINITY)],
        vrp: vec![cell(5.0)],
    };
    let want = "const TITLE=\"a\\\"b\";\nconst DATES=[\"d\"];\nconst CLOSE=[1.00];\nconst ATM=[2.00];\n\
                const SKEWN=[3.00];\nconst SKEWA=[null];\nconst VRP=[5.00];\n";
    assert_eq!(constants("\"a\\\"b\"", &strings(&["d"]), &c()), want);
    assert_eq!(write_dashboard("a\"b", &strings(&["d"]), &c()), want);
    let titled = |t: &str| write_dashboard(t, &vec![], &c()).lines().next().unwrap().to_string();
    assert_eq!(titled("\n\r\t\u{8}\u{c}"), "const TITLE=\"\\n\\r\\t\\b\\f\";");
    assert_eq!(titled("\u{0}\u{b}\u{1f}"), "const TITLE=\"\\u0000\\u000b\\u001f\";");
    assert_eq!(titled("a\\/\u{7f}é\u{2028}😀"), "const TITLE=\"a\\\\/\u{7f}é\u{2028}😀\";");
}

#[test]
fn literals_under_the_pointer() {
    let h = Hover {
        date: "2026-01-02".to_string(),
        close: cell(1.0),
        drawdown: cell(-0.1),
        skew_abs: cell(f64::NAN),
        skew_norm: cell(0.3),
        atm_iv: cell(0.2),
    };
    assert_eq!(
        hover_data(&vec![h]),
        "[{\"d\":\"2026-01-02\",\"c\":1.00,\"dd\":-0.10,\"sa\":null,\"sn\":0.30,\"a\":0.20}]"
    );
    assert_eq!(hover_data(&vec![]), "[]");
}

#[test]
fn candles_of_the_chart() {
    let bars = strings(&["2026-01-01", "2026-01-02", "2026-01-05", "2026-01-06"]);
    let closes = nums(&[9.0, 1.0, 2.0, 3.0]);
    let obs = Observed {
        dates: strings(&["2026-01-02", "2026-01-06"]),
        skew: nums(&[0.3, 0.1]),
        iv: nums(&[0.2, 0.4]),
    };
    let snaps = tabulate(&vec![("2026-01-05".to_string(), (num(f64::NAN), num(0.25)))]);
    let signals = tabulate(&vec![("2026-01-06".to_string(), (false, true))]);
    let c = build_ohlc(&bars, &closes, &obs, &snaps, &signals);
    assert_eq!(c.iter().map(|x| x.bar).collect::<Vec<_>>(), vec![1, 2, 3]);
    assert_eq!(c.iter().map(|x| x.iv).collect::<Vec<_>>(), nums(&[0.2, 0.25, 0.4]));
    assert_eq!(
        c.iter().map(|x| x.skew_rank).collect::<Vec<_>>(),
        vec![None, Some((2, 2)), Some((1, 3))]
    );
    assert_eq!(c.iter().map(|x| x.iv_rank).collect::<Vec<_>>(), vec![None, Some((2, 2)), Some((3, 3))]);
    assert_eq!(c.iter().map(|x| x.mark.sig).collect::<Vec<_>>(), vec![false, true, true]);
    assert!(c[2].mark.bot && !c[2].mark.top && !c[1].mark.bot);
    let first = |n: usize| build_ohlc(&bars[..n].to_vec(), &closes[..n].to_vec(), &obs, &snaps, &signals);
    for n in 1..4 {
        for (x, y) in first(n).iter().zip(&c) {
            assert_eq!((x.bar, x.iv, x.skew_rank, x.iv_rank), (y.bar, y.iv, y.skew_rank, y.iv_rank));
            assert_eq!(x.mark.sig, y.mark.sig);
        }
    }
    let none = Observed { dates: vec![], skew: vec![], iv: vec![] };
    let all = build_ohlc(&bars, &closes, &none, &snaps, &signals);
    assert_eq!(all.len(), 4);
    assert!(all[0].iv.is_nan());
    assert_eq!(all[2].iv, num(0.25));
}

use skew::csv::{
    gamma_entry, gamma_lines, number_rows, observed_values, rows, signals, skew_lines, trimmed_rows,
    write_file, GammaText,
};
use skew::fred::{cache_text, fetch_series, load};
use skew::price::{load_spx, spx_rows};
use skew::num::Num;

fn strings(xs: &[&str]) -> Vec<String> {
    xs.iter().map(|x| x.to_string()).collect()
}

fn pairs(xs: &[(&str, &str)]) -> Vec<(String, String)> {
    xs.iter().map(|(a, b)| (a.to_string(), b.to_string())).collect()
}

#[test]
fn rows_with_enough_fields() {
    let text = "h\na,b,c\nx,y\r\n1,2,3,4";
    assert_eq!(rows(text, 3), vec![strings(&["a", "b", "c"]), strings(&["1", "2", "3", "4"])]);
    assert!(rows("", 1).is_empty());
    assert_eq!(trimmed_rows("h\n a , b \n", 2), vec![strings(&["a ", " b"])]);
}

#[test]
fn signals_of_a_file() {
    let t = signals("date,top,bottom\n2026-01-02, 1 ,0\n2026-01-03,0,1\n2026-01-02,0,x\nbad,1\n");
    assert_eq!(t.get("2026-01-02"), Some(&(false, false)));
    assert_eq!(t.get("2026-01-03"), Some(&(false, true)));
    assert_eq!(t.get("bad"), None);
}

#[test]
fn observations_without_missing_values() {
    let text = "date,value\n2026-01-02, 3.5 \n2026-01-03,.\n,4\nalone\n2026-01-05,1e2,x\n";
    assert_eq!(observed_values(text, true), pairs(&[("2026-01-02", "3.5"), ("2026-01-05", "1e2")]));
    assert_eq!(load(text), pairs(&[("2026-01-02", "3.5"), ("", "4"), ("2026-01-05", "1e2")]));
    assert_eq!(fetch_series(text.as_bytes()), load(text));
}

#[test]
fn fetched_series_load_back() {
    let body = b"DATE,X\n 2026-01-02 ,3.50\r\n2026\r-01-03,.\n2026\r-01-05,-1e-7\n,nan\n\xff,inf,x\n";
    let rows = fetch_series(body);
    assert_eq!(
        rows,
        pairs(&[("2026-01-02", "3.50"), ("2026\r-01-05", "-1e-7"), ("", "nan"), ("\u{fffd}", "inf")])
    );
    let text = cache_text(&rows).unwrap();
    assert!(text.starts_with("date,value\n2026-01-02,3.50\n"));
    assert_eq!(load(&text), rows);
    let written: Vec<(String, String)> =
        rows.iter().map(|(d, v)| (d.clone(), format!("{}", v.parse::<f64>().unwrap()))).collect();
    assert_eq!(load(&cache_text(&written).unwrap()), written);
    assert_eq!(cache_text(&vec![]), None);
    assert_eq!(cache_text(&fetch_series(b"")), None);
}

#[test]
fn bytes_that_are_no_text() {
    let rows = spx_rows(b"date,value\n2026-01-\xff,1\n");
    assert_eq!(rows, pairs(&[("2026-01-\u{fffd}", "1")]));
}

#[test]
fn closes_by_date() {
    let n = |x: f64| Num::new(x.to_bits());
    let t = load_spx(&vec![
        ("2026-01-03".to_string(), n(2.0)),
        ("2026-01-02".to_string(), n(1.0)),
        ("2026-01-03".to_string(), n(3.0)),
    ])
    .unwrap();
    assert_eq!(t.entries().len(), 2);
    assert_eq!(t.entries()[0], ("2026-01-02".to_string(), n(1.0)));
    assert_eq!(t.entries()[1], ("2026-01-03".to_string(), n(3.0)));
    assert_eq!(load_spx(&vec![]).err(), Some("no SP500 rows parsed from FRED".to_string()));
}

#[test]
fn rows_of_numbers() {
    let text = "date,o,h,l,c\n2026-01-02,1,2,0.5,1.5\n2026-01-03,1,x,0.5,1.5\n2026-01-04,1,2,3\n2026-01-05, 1,2,3,4\n";
    assert_eq!(number_rows(text, 4, false), vec![strings(&["2026-01-02", "1", "2", "0.5", "1.5"])]);
    assert_eq!(
        number_rows(" h\n 2026-01-05 , 1 ,2, 3\n", 3, true),
        vec![strings(&["2026-01-05", "1", "2", "3"])]
    );
}

#[test]
fn written_files_read_back() {
    let data = vec![strings(&["2026-01-02", "1.50", "NaN"]), strings(&["2026-01-03", "", "x"])];
    let text = write_file("date,a,b", &data);
    assert_eq!(text, "date,a,b\n2026-01-02,1.50,NaN\n2026-01-03,,x\n");
    assert_eq!(rows(&text, 3), data);
}

#[test]
fn lines_of_a_skew_file() {
    let text = "date,iv_25p,iv_25c,iv_atm,skew_abs,skew_norm,dte_lo,dte_hi,ts_slope,ts_ratio\n\
                2026-01-02,0.2,0.15,0.17,0.05,0.29,25,32,0.01,1.06\n\
                2026-01-03,0.2,oops,0.17,0.05,NaN\n\
                short,1\n";
    let all = skew_lines(text, 6);
    assert_eq!(all.len(), 2);
    assert_eq!(all[0].date, "2026-01-02");
    assert_eq!(all[0].iv_25p, Some("0.2".to_string()));
    assert_eq!(all[0].iv_25c, Some("0.15".to_string()));
    assert_eq!(all[0].iv_atm, Some("0.17".to_string()));
    assert_eq!(all[0].skew_abs, Some("0.05".to_string()));
    assert_eq!(all[0].skew_norm, Some("0.29".to_string()));
    assert_eq!(all[0].ts_ratio, Some("1.06".to_string()));
    assert_eq!(all[1].iv_25c, None);
    assert_eq!(all[1].skew_norm, Some("NaN".to_string()));
    assert_eq!(all[1].ts_ratio, None);
    assert_eq!(skew_lines(text, 10).len(), 1);
}

#[test]
fn lines_of_a_gamma_file() {
    let text = "date,spot,call,put,net,vex,plus,oi\n2026-01-02,6500.1, 10 ,4,6,2,8,100\n2026-01-03,1,2,3,x\n";
    let all = gamma_lines(text, 5);
    assert_eq!(all.len(), 2);
    assert_eq!(all[0].spot, Some("6500.1".to_string()));
    assert_eq!(all[0].call, Some("10".to_string()));
    assert_eq!(all[0].net, Some("6".to_string()));
    assert_eq!(all[0].vex, Some("2".to_string()));
    assert_eq!(all[0].gexplus, Some("8".to_string()));
    assert_eq!(all[1].net, None);
    assert_eq!(gamma_lines(text, 7).len(), 1);
}

#[test]
fn appended_gamma_reads_back() {
    let row = |date: &str, net: &str| GammaText {
        date: date.to_string(),
        spot: "6500.10".to_string(),
        call: "10.0".to_string(),
        put: "4.0".to_string(),
        net: net.to_string(),
        vex: "-2.5".to_string(),
        gexplus: "NaN".to_string(),
        oi: "100".to_string(),
    };
    let mut text = gamma_entry(true, &row("2026-01-02", "6.0"));
    assert_eq!(
        text,
        "date,spot,call_gex_mm,put_gex_mm,net_gex_mm,net_vex_mm,gexplus_mm,total_oi\n\
         2026-01-02,6500.10,10.0,4.0,6.0,-2.5,NaN,100\n"
    );
    text.push_str(&gamma_entry(false, &row("2026-01-05", "-7.0")));
    let all = gamma_lines(&text, 7);
    assert_eq!(all.iter().map(|l| l.date.as_str()).collect::<Vec<_>>(), vec!["2026-01-02", "2026-01-05"]);
    assert_eq!(all[1].net, Some("-7.0".to_string()));
    assert_eq!((all[1].spot.clone(), all[1].call.clone()), (Some("6500.10".to_string()), Some("10.0".to_string())));
    assert_eq!((all[0].vex.clone(), all[0].gexplus.clone()), (Some("-2.5".to_string()), Some("NaN".to_string())));
    assert_eq!(trimmed_rows(&text, 8).len(), 2);
}

#[test]
fn written_numbers_read_back() {
    let bars = vec![strings(&["2026-01-02", "1.00", "2.00", "0.50", "1.50"])];
    assert_eq!(number_rows(&write_file("date,o,h,l,c", &bars), 4, false), bars);
    let series = vec![strings(&["2026-01-02", "3.5"]), strings(&["2026-01-05", "-1e-7"])];
    assert_eq!(
        load(&write_file("date,value", &series)),
        pairs(&[("2026-01-02", "3.5"), ("2026-01-05", "-1e-7")])
    );
}

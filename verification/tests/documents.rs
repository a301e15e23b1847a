use skew::cboe::{
    assemble, dealers_long, fetch_chain, has_vanna, live_contracts, parse_occ, session_date, RawQuote,
    VOL_LEAST, VOL_MOST,
};
use skew::dates::days_from_civil;
use skew::fetch::{cached_rows, day_query, default_cache_root, dolt_day_rows, dolt_query};
use skew::json::DEEPEST;
use skew::num::Num;
use skew::price::{enrich, fetch_ohlc_yahoo, summary, update_ohlc, worst, LEAST};

fn num(x: f64) -> Num {
    Num::new(x.to_bits())
}

fn quote(symbol: &str, oi: f64) -> RawQuote {
    RawQuote {
        symbol: symbol.to_string(),
        oi: num(oi),
        gamma: num(0.001),
        delta: num(0.5),
        iv: num(0.2),
        bid: num(1.0),
        ask: num(1.2),
    }
}

#[test]
fn symbols_of_contracts() {
    let o = parse_occ("SPX260618C06525000").unwrap();
    assert_eq!(o.strike, "06525000");
    assert!(o.is_call);
    assert_eq!(o.expiry, days_from_civil(2026, 6, 18));
    let p = parse_occ("260618p00012500").unwrap();
    assert!(!p.is_call);
    assert_eq!(p.strike, "00012500");
    for bad in [
        "", "SPX", "60618C06525000", "SPX260618X06525000", "SPX26061xC06525000",
        "SPX260618C0652500x", "SPX2606 8C06525000", "ÉPX260618C06525000",
    ] {
        assert!(parse_occ(bad).is_none(), "{}", bad);
    }
    assert_eq!(parse_occ("X+1-2+3P1e000000").unwrap().expiry, days_from_civil(2001, -2, 3));
}

#[test]
fn sessions_roll_back_over_weekends() {
    assert_eq!(session_date("2026-06-12"), "2026-06-12");
    assert_eq!(session_date("2026-06-13 10:00"), "2026-06-12");
    assert_eq!(session_date("2026-06-14"), "2026-06-12");
    assert_eq!(session_date("2026-06-15"), "2026-06-15");
    assert_eq!(session_date("soon"), "soon");
}

#[test]
fn contracts_that_count() {
    let d0 = days_from_civil(2026, 6, 15);
    let quotes = vec![
        quote("SPX260618C06525000", 10.0),
        quote("SPX260618P06525000", 0.0),
        quote("SPX260614P06525000", 5.0),
        quote("nonsense", 5.0),
        quote("SPX260615P06000000", 1.0),
        quote("SPX260616P06000000", f64::NAN),
    ];
    let live = live_contracts(&quotes, d0);
    assert_eq!(live.len(), 3);
    assert_eq!((live[0].dte, live[0].is_call, live[0].strike.as_str()), (3, true, "06525000"));
    assert_eq!((live[1].dte, live[1].is_call), (0, false));
    assert_eq!(live[2].dte, 1);
    assert_eq!(live[0].gamma, num(0.001));
    assert_eq!(live[0].ask, num(1.2));
}

#[test]
fn chains_and_what_is_missing() {
    let ts = || "2026-06-13 21:00:00".to_string();
    let q = || Some(vec![quote("SPX260618C06525000", 10.0)]);
    let ok = assemble(ts(), Some(num(6500.0)), q()).ok().unwrap();
    assert_eq!(ok.date, "2026-06-12");
    assert_eq!(ok.timestamp, "2026-06-13 21:00:00");
    assert_eq!(ok.opts[0].dte, 6);
    let err = |r: Result<skew::cboe::Chain, String>| r.err().unwrap();
    assert_eq!(err(assemble("2026".to_string(), Some(num(1.0)), q())), "cboe: bad timestamp date");
    assert_eq!(err(assemble("".to_string(), None, None)), "cboe: bad timestamp date");
    assert_eq!(err(assemble(ts(), None, None)), "cboe: no spot");
    assert_eq!(err(assemble(ts(), Some(num(1.0)), None)), "cboe: no options");
}

#[test]
fn chain_documents() {
    let doc = br#"{"timestamp":"2026-06-13 21:00:00","data":{"current_price":6500.5,"options":[
        {"option":"SPX260618C06525000","open_interest":10,"gamma":0.001,"delta":0.5,"iv":0.2,"bid":1,"ask":1.5},
        {"option":"SPX260618P06525000","open_interest":7},
        {"option":"SPX260618P06525000"}]}}"#;
    let c = fetch_chain(doc).ok().unwrap();
    assert_eq!(c.date, "2026-06-12");
    assert_eq!(c.spot, num(6500.5));
    assert_eq!(c.opts.len(), 2);
    assert_eq!(c.opts[0].oi, num(10.0));
    assert_eq!(c.opts[0].delta, num(0.5));
    assert_eq!(c.opts[1].oi, num(7.0));
    assert_eq!(c.opts[1].iv, num(0.0));
    assert_eq!(fetch_chain(b"{}").err().unwrap(), "cboe: bad timestamp date");
    assert_eq!(fetch_chain(br#"{"timestamp":"2026-06-12"}"#).err().unwrap(), "cboe: no spot");
    assert_eq!(
        fetch_chain(br#"{"timestamp":"2026-06-12","data":{"current_price":1}}"#).err().unwrap(),
        "cboe: no options"
    );
    assert!(fetch_chain(b"oops").err().unwrap().starts_with("cboe json: expected value"));
}

#[test]
fn dealer_signs() {
    assert!(dealers_long(false, true) && !dealers_long(false, false));
    assert!(!dealers_long(true, true) && dealers_long(true, false));
    assert_eq!(VOL_LEAST, 0.01f64.to_bits());
    assert_eq!(VOL_MOST, 2.0f64.to_bits());
    assert!(has_vanna(num(0.01)) && has_vanna(num(2.0)) && !has_vanna(num(2.01)) && !has_vanna(num(0.0)));
}

#[test]
fn cache_root_and_query() {
    assert_eq!(default_cache_root(), "data");
    assert_eq!(
        day_query("SPY", "2026-05-15"),
        "select `date`,expiration,strike,call_put,bid,ask,vol,delta from option_chain where \
         act_symbol='SPY' and `date`='2026-05-15' order by expiration,strike"
    );
}

#[test]
fn answers_to_queries() {
    let ok = dolt_query(br#"{"query_execution_status":"Success","rows":[]}"#);
    assert!(ok.is_ok());
    assert_eq!(
        dolt_query(br#"{"query_execution_status":"Error","query_execution_message":"no table"}"#)
            .err()
            .unwrap(),
        "dolt query error: no table"
    );
    assert_eq!(dolt_query(b"{}").err().unwrap(), "dolt query error: unknown error");
    let long = vec![b'x'; 300];
    let e = dolt_query(&long).err().unwrap();
    assert!(e.starts_with("json parse failed: "));
    assert!(e.ends_with(&format!("; body={}", "x".repeat(200))));
}

#[test]
fn days_come_back_from_the_cache() {
    let body = br#"{"query_execution_status":"Success","rows":[
        {"expiration":"2026-06-18","vol":"0.2","bid":null},{"expiration":"2026-06-19"}]}"#;
    let day = dolt_day_rows(body).ok().unwrap();
    assert_eq!(day.rows.len(), 2);
    assert_eq!(cached_rows(&day.cache).unwrap(), day.rows);
    assert_eq!(cached_rows(b"[]").unwrap().len(), 0);
    assert!(cached_rows(b"{}").is_none());
    assert!(cached_rows(b"[").is_none());
    let none = dolt_day_rows(br#"{"query_execution_status":"Success"}"#).ok().unwrap();
    assert_eq!(none.cache, b"[]");
    assert!(dolt_day_rows(b"{}").is_err());
}

#[test]
fn whole_numbers_flags_and_nests_come_back_from_the_cache() {
    let body = br#"{"query_execution_status":"Success","rows":[
        {"strike":6500,"least":-9223372036854775808,"most":18446744073709551615,"live":true,
         "legs":[1,{"a":[null,false,"x\u0001\"\n"]}]},7,"text",[],{}]}"#;
    let day = dolt_day_rows(body).ok().unwrap();
    assert_eq!(day.rows.len(), 5);
    assert_eq!(cached_rows(&day.cache).unwrap(), day.rows);
    assert_eq!(day.rows[0]["most"].as_u64(), Some(u64::MAX));
    assert_eq!(day.rows[0]["legs"][1]["a"][2].as_str(), Some("x\u{1}\"\n"));
}

#[test]
fn fractions_can_change_in_the_cache() {
    let day = |t: &str| {
        let body = format!(r#"{{"query_execution_status":"Success","rows":[{{"vol":{}}}]}}"#, t);
        dolt_day_rows(body.as_bytes()).ok().unwrap()
    };
    for t in ["0.1", "0.25", "1e-10"] {
        assert_eq!(cached_rows(&day(t).cache).unwrap(), day(t).rows);
    }
    let odd = day("91321.334742217310");
    assert_ne!(cached_rows(&odd.cache).unwrap(), odd.rows);
}

#[test]
fn documents_are_read_to_a_fixed_depth() {
    let nested = |n: usize| format!("{}{}", "[".repeat(n), "]".repeat(n));
    assert_eq!(DEEPEST, 127);
    assert!(cached_rows(nested(DEEPEST).as_bytes()).is_some());
    assert!(cached_rows(nested(DEEPEST + 1).as_bytes()).is_none());
    let body = format!(r#"{{"query_execution_status":"Success","rows":[{}]}}"#, nested(DEEPEST - 2));
    let day = dolt_day_rows(body.as_bytes()).ok().unwrap();
    assert_eq!(cached_rows(&day.cache).unwrap(), day.rows);
}

#[test]
fn price_documents() {
    let doc = br#"{"chart":{"result":[{"timestamp":[86400,172800,259200,"x"],
        "indicators":{"quote":[{"open":[1,2,null,5],"high":[1.5,2,3,5],"low":[0.5,2,3,5],"close":[1.25,2.5,3,5]}]}}]}}"#;
    let bars = fetch_ohlc_yahoo(doc).ok().unwrap();
    assert_eq!(bars.len(), 3);
    assert_eq!(bars[0].date, "1970-01-02");
    assert_eq!((bars[0].o, bars[0].h, bars[0].l, bars[0].c), (num(1.0), num(1.5), num(0.5), num(1.25)));
    assert_eq!(bars[1].date, "1970-01-03");
    assert_eq!(bars[2].date, "1970-01-01");
    let (all, n, last) = update_ohlc(doc).ok().unwrap();
    assert_eq!((all.len(), n, last.as_str()), (3, 3, "1970-01-01"));
    assert_eq!(summary(&vec![]), (0, String::new()));
    let err = |b: &[u8]| fetch_ohlc_yahoo(b).err().unwrap();
    assert_eq!(err(b"{}"), "yahoo: no timestamp");
    assert_eq!(err(br#"{"chart":{"result":[{"timestamp":[1]}]}}"#), "yahoo: no OHLC bars parsed");
    assert!(err(b"").starts_with("yahoo json: EOF"));
    assert!(update_ohlc(b"{}").is_err());
}

#[test]
fn days_that_measures_look_at() {
    assert_eq!(LEAST, f64::MIN.to_bits());
    let mut closes: Vec<Num> = (0..30).map(|i| num(100.0 - i as f64)).collect();
    closes[2] = num(150.0);
    closes[3] = num(150.0);
    let o = enrich(&closes);
    assert_eq!(o.len(), 30);
    assert_eq!((o[0].peak, o[1].peak, o[2].peak, o[29].peak), (Some(0), Some(0), Some(2), Some(2)));
    assert_eq!((o[20].trailing, o[21].trailing, o[29].trailing), (None, Some(1), Some(9)));
    assert_eq!((o[24].week, o[25].week), (Some(29), None));
    assert_eq!((o[8].month, o[9].month), (Some(29), None));
    assert_eq!((o[0].until, o[7].until, o[8].until, o[29].until), (22, 29, 30, 30));
    assert_eq!(enrich(&vec![num(f64::NAN)])[0].peak, None);
}

#[test]
fn the_worst_return() {
    assert_eq!(worst(&vec![num(0.1), num(-0.2), num(f64::NAN), num(-0.1)]), num(-0.2));
    assert_eq!(worst(&vec![num(0.1)]), num(0.0));
    assert_eq!(worst(&vec![]), num(0.0));
}

use skew::group::Group;
use skew::num::Num;
use skew::snapshot::{
    atm_members, bucket_members, by_strike, closest, counts_for_flip, crossings, is_vix, keeps_point,
    nearest_expiry, otm_members, profile_members, read_snapshot, snap_smile, surface_smiles, vix_calls,
    vix_smile, wing_members, write_snapshot, Bucket, ContractText, SnapNums, SnapRow, DAYS_20, DAYS_45, DELTA_02, DELTA_03,
    DELTA_100, DELTA_20, DELTA_30, DELTA_40, DELTA_45, DELTA_50, DELTA_55, DELTA_60, DELTA_98, IV_LOW,
    IV_SMILE, IV_TWO, IV_VIX, PUT_03, PUT_20, PUT_30, PUT_50,
};

fn num(x: f64) -> Num {
    Num::new(x.to_bits())
}

fn nums(xs: &[f64]) -> Vec<Num> {
    xs.iter().map(|x| num(*x)).collect()
}

fn row(cp: &str) -> SnapRow {
    SnapRow {
        commented: false,
        strike: None,
        dte: None,
        cp: cp.to_string(),
        oi: None,
        gamma: None,
        delta: None,
        iv: None,
    }
}

fn x(strike: f64, dte: f64, delta: f64, iv: f64) -> SnapNums {
    SnapNums {
        strike: Some(num(strike)),
        dte: Some(num(dte)),
        days: dte.round() as i64,
        oi: Some(num(1.0)),
        gamma: Some(num(0.01)),
        delta: Some(num(delta)),
        iv: Some(num(iv)),
    }
}

#[test]
fn bounds_of_snapshots() {
    for (bits, want) in [
        (IV_LOW, 0.01), (IV_TWO, 2.0), (IV_SMILE, 2.5), (IV_VIX, 10.0), (DAYS_20, 20.0), (DAYS_45, 45.0),
        (DELTA_02, 0.02), (DELTA_03, 0.03), (DELTA_20, 0.20), (DELTA_30, 0.30), (DELTA_40, 0.40),
        (DELTA_45, 0.45), (DELTA_50, 0.5), (DELTA_55, 0.55), (DELTA_60, 0.60), (DELTA_98, 0.98),
        (DELTA_100, 1.0), (PUT_30, -0.30), (PUT_20, -0.20), (PUT_50, -0.5), (PUT_03, -0.03),
    ] {
        assert_eq!(f64::from_bits(bits), want);
    }
}

#[test]
fn lines_of_a_snapshot() {
    let s = read_snapshot(
        "# spot,6500.5000,ts,2026-06-12 21:00\nstrike,dte,cp,oi,gamma,delta,iv,bid,ask\n\
         6500.00,30,C,10,0.001,0.5,0.2,1,2\n6500.00,x,P,10,0.001,-0.5,0.2\nshort,1\n# note,2,3,4,5,6,7\n",
    );
    assert_eq!(s.spot, Some("6500.5000".to_string()));
    assert_eq!(s.rows.len(), 3);
    assert_eq!(s.rows[0].strike, Some("6500.00".to_string()));
    assert_eq!(s.rows[0].dte, Some("30".to_string()));
    assert_eq!(s.rows[0].cp, "C");
    assert_eq!(s.rows[0].oi, Some("10".to_string()));
    assert_eq!(s.rows[0].gamma, Some("0.001".to_string()));
    assert_eq!(s.rows[0].delta, Some("0.5".to_string()));
    assert_eq!(s.rows[0].iv, Some("0.2".to_string()));
    assert_eq!(s.rows[1].dte, None);
    assert!(s.rows[2].commented && !s.rows[1].commented);
    assert_eq!(read_snapshot("# spot,1\n# spot,x\n").spot, None);
    assert_eq!(read_snapshot("").spot, None);
}

#[test]
fn written_snapshots_read_back() {
    let t = |s: &str| s.to_string();
    let c = |cp: bool| ContractText {
        strike: t("6500.00"),
        dte: t("30"),
        is_call: cp,
        oi: t("10"),
        gamma: t("0.001000"),
        delta: t("0.5000"),
        iv: t("0.2000"),
        bid: t("1.00"),
        ask: t("1.20"),
    };
    let text = write_snapshot("6500.5000", "2026-06-12 21:00:00", &vec![c(true), c(false)]);
    assert_eq!(
        text,
        "# spot,6500.5000,ts,2026-06-12 21:00:00\nstrike,dte,cp,oi,gamma,delta,iv,bid,ask\n\
         6500.00,30,C,10,0.001000,0.5000,0.2000,1.00,1.20\n6500.00,30,P,10,0.001000,0.5000,0.2000,1.00,1.20\n"
    );
    let s = read_snapshot(&text);
    assert_eq!(s.spot, Some(t("6500.5000")));
    assert_eq!(s.rows.len(), 2);
    assert_eq!((s.rows[0].cp.as_str(), s.rows[1].cp.as_str()), ("C", "P"));
    assert_eq!(s.rows[1].iv, Some(t("0.2000")));
}

#[test]
fn buckets_of_the_thirty_day_point() {
    let rows = vec![row("C"), row("C"), row("C"), row("P"), row("c"), row("C"), row("C")];
    let xs = vec![
        x(1.0, 30.0, 0.5, 0.2),
        x(1.0, 30.0, 0.41, 0.2),
        x(1.0, 20.0, 0.25, 0.2),
        x(1.0, 45.0, -0.25, 0.2),
        x(1.0, 30.0, -0.2, 0.2),
        x(1.0, 46.0, 0.5, 0.2),
        x(1.0, 30.0, 0.5, 2.1),
    ];
    assert_eq!(bucket_members(&rows, &xs, Bucket::Atm), vec![0]);
    assert_eq!(bucket_members(&rows, &xs, Bucket::Wide), vec![0, 1]);
    assert_eq!(bucket_members(&rows, &xs, Bucket::Call25), vec![2]);
    assert_eq!(bucket_members(&rows, &xs, Bucket::Put25), vec![3, 4]);
    assert_eq!(atm_members(&rows, &xs), Some(vec![0]));
    let rest = rows.len() - 1;
    let (r1, x1): (Vec<SnapRow>, Vec<SnapNums>) =
        (vec![row("C"), row("C")], vec![xs[1], xs[rest]]);
    assert_eq!(atm_members(&r1, &x1), Some(vec![0]));
    assert_eq!(atm_members(&vec![], &vec![]), None);
    assert_eq!(wing_members(&rows, &xs, num(0.2)), Some((vec![3, 4], vec![2])));
    assert_eq!(wing_members(&rows, &xs, num(0.0)), None);
    assert_eq!(wing_members(&r1, &x1, num(0.2)), None);
    let mut commented = vec![row("C")];
    commented[0].commented = true;
    assert!(bucket_members(&commented, &vec![xs[0]], Bucket::Atm).is_empty());
}

#[test]
fn smiles_by_expiry() {
    let rows = vec![row("C"), row("p"), row("C"), row("X"), row("C"), row("P"), row("C")];
    let xs = vec![
        x(100.0, 30.0, 0.4, 0.2),
        x(100.0, 7.4, -0.4, 0.2),
        x(100.0, 30.0, 0.99, 0.2),
        x(100.0, 30.0, 0.4, 0.2),
        x(100.0, 181.0, 0.4, 0.2),
        x(0.0, 30.0, -0.4, 0.2),
        x(100.0, 30.0, 0.02, 0.01),
    ];
    let g = snap_smile(&rows, &xs, num(100.0)).unwrap();
    assert_eq!(g.len(), 2);
    assert_eq!((g[0].key, g[0].members.clone()), (7, vec![1]));
    assert_eq!((g[1].key, g[1].members.clone()), (30, vec![0]));
    assert!(snap_smile(&rows, &xs, num(0.0)).is_none());
    assert!(snap_smile(&rows, &xs, num(f64::NAN)).is_none());
    assert!(snap_smile(&vec![row("C")], &vec![xs[0]], num(100.0)).is_none());
}

#[test]
fn contracts_out_of_the_money() {
    let rows = vec![row("C"), row("P"), row("C"), row("P"), row("C"), row("P")];
    let xs = vec![
        x(1.0, 30.0, 0.5, 0.2),
        x(1.0, 30.0, -0.5, 0.2),
        x(1.0, 30.0, 0.03, 0.2),
        x(1.0, 30.0, -0.03, 0.2),
        x(1.0, 30.0, 0.6, 0.2),
        x(1.0, 30.0, -0.02, 0.2),
    ];
    assert_eq!(otm_members(&rows, &xs, &vec![0, 1, 2, 3, 4, 5]), Some(vec![0, 1, 2, 3]));
    assert_eq!(otm_members(&rows, &xs, &vec![0, 1, 2, 4, 5]), None);
}

#[test]
fn smiles_of_the_surface() {
    let rows: Vec<SnapRow> = (0..13).map(|_| row("C")).collect();
    let at = |k: usize| if k < 4 { 30.0 } else if k < 8 { 60.0 } else { 90.0 };
    let delta = |k: usize| if k == 8 || k == 9 { 0.7 } else { 0.1 + k as f64 / 100.0 };
    let xs: Vec<SnapNums> = (0..13).map(|k| x(100.0, at(k), delta(k), 0.2)).collect();
    let s = surface_smiles(&rows, &xs, num(100.0)).unwrap();
    assert_eq!(s.len(), 2);
    assert_eq!((s[0].key, s[0].members.clone()), (30, vec![0, 1, 2, 3]));
    assert_eq!((s[1].key, s[1].members.clone()), (60, vec![4, 5, 6, 7]));
    assert!(surface_smiles(&rows, &xs, num(f64::INFINITY)).is_none());
    assert!(surface_smiles(&rows, &xs, num(0.0)).is_none());
    let few = surface_smiles(&(0..7).map(|_| row("C")).collect(), &xs[..7].to_vec(), num(100.0));
    assert!(few.is_none());
}

#[test]
fn the_smile_of_the_vix() {
    let rows: Vec<SnapRow> = (0..9).map(|_| row("C")).collect();
    let xs: Vec<SnapNums> = (0..9).map(|k| x(20.0, if k < 5 { 60.0 } else { 100.0 }, 0.4, 0.9)).collect();
    assert_eq!(vix_smile(&rows, &xs, num(18.0)), Some(vec![5, 6, 7, 8]));
    assert_eq!(vix_smile(&rows, &xs, num(f64::NAN)), None);
    assert_eq!(vix_smile(&(0..3).map(|_| row("C")).collect(), &xs[..3].to_vec(), num(18.0)), None);
}

#[test]
fn calls_of_the_vix() {
    assert!(is_vix("vix") && is_vix("VIX") && !is_vix("SPX"));
    let rows = vec![row("C"), row("c"), row("C"), row("C")];
    let xs = vec![
        x(1.0, 90.0, 0.5, 0.9),
        x(1.0, 90.0, 0.5, 0.9),
        x(1.0, 90.0, 1.0, 0.9),
        x(1.0, 60.0, 0.5, 9.9),
    ];
    let g = vix_calls(&rows, &xs);
    assert_eq!(g.len(), 2);
    assert_eq!((g[0].key, g[0].members.clone()), (60, vec![3]));
    assert_eq!((g[1].key, g[1].members.clone()), (90, vec![0]));
    let group = |key: i64, n: usize| Group { key, members: (0..n).collect() };
    assert_eq!(nearest_expiry(&vec![group(30, 4), group(80, 4), group(90, 3), group(100, 4)]), Some(1));
    assert_eq!(nearest_expiry(&vec![group(90, 3)]), None);
    assert!(keeps_point(num(0.1), num(0.1)) && !keeps_point(num(0.0), num(0.1)));
    assert!(!keeps_point(num(0.1), num(f64::NAN)));
}

#[test]
fn contracts_of_the_profile() {
    let mut xs = vec![x(90.0, 1.0, 0.5, 0.2), x(100.0, 1.0, 0.5, 0.2), x(110.0, 1.0, 0.5, 0.2)];
    xs[1].oi = None;
    assert_eq!(profile_members(&xs, num(100.0)), Some(vec![0, 2]));
    assert_eq!(profile_members(&xs, num(f64::NAN)), None);
    assert_eq!(profile_members(&vec![], num(100.0)), None);
    let g = by_strike(&nums(&[80.0, 79.9, 120.0, 80.0]), &vec![8000, 7990, 12000, 8000], num(80.0), num(120.0));
    assert_eq!(g.len(), 2);
    assert_eq!((g[0].key, g[0].members.clone()), (8000, vec![0, 3]));
    assert_eq!(g[1].key, 12000);
    assert!(counts_for_flip(num(2.0)) && !counts_for_flip(num(0.01)) && !counts_for_flip(num(2.1)));
    assert!(counts_for_flip(num(f64::NAN)));
}

#[test]
fn changes_of_sign() {
    let v = nums(&[-1.0, 1.0, 2.0, -0.0, 0.0, f64::NAN, -1.0, 0.0]);
    assert_eq!(crossings(&v), vec![1, 3, 7]);
    assert!(crossings(&vec![]).is_empty());
    assert_eq!(closest(&nums(&[3.0, 1.0, 1.0])), Some(1));
    assert_eq!(closest(&nums(&[f64::NAN, f64::INFINITY])), None);
    assert_eq!(closest(&nums(&[f64::MAX])), Some(0));
}

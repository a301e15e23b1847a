use skew::group::group_by_key;
use skew::num::{Num, INFINITE, NAN, ZERO};
use skew::order::{
    count_above, extremes, fifth, least, locate, median_place, nearest, quintiles, ranked, ranked_finite,
    rolling_standing, runs, Place,
};
use skew::table::{index_of, tabulate};

fn num(x: f64) -> Num {
    Num::new(x.to_bits())
}

fn nums(xs: &[f64]) -> Vec<Num> {
    xs.iter().map(|x| num(*x)).collect()
}

#[test]
fn constants_of_numbers() {
    assert_eq!(INFINITE, f64::INFINITY.to_bits());
    assert!(f64::from_bits(NAN).is_nan());
    assert_eq!(ZERO, 0.0f64.to_bits());
}

#[test]
fn numbers_compare_as_doubles() {
    let xs = [
        0.0, -0.0, 1.0, -1.0, 1e-310, -1e-310, f64::MAX, f64::MIN, f64::INFINITY,
        f64::NEG_INFINITY, f64::NAN, -f64::NAN, 0.1, 2.5,
    ];
    for a in xs {
        assert_eq!(num(a).is_finite(), a.is_finite());
        assert_eq!(num(a).is_nan(), a.is_nan());
        assert_eq!(num(a).is_negative(), a.is_sign_negative());
        assert_eq!(num(a).abs().bits, a.abs().to_bits());
        for b in xs {
            assert_eq!(num(a).le(num(b)), a <= b, "{} {}", a, b);
            assert_eq!(num(a).lt(num(b)), a < b, "{} {}", a, b);
            assert_eq!(num(a).within(num(b), num(2.0)), (b..=2.0).contains(&a));
        }
    }
}

#[test]
fn standings_in_a_window() {
    let vals = nums(&[1.0, 3.0, f64::NAN, 2.0, 2.0]);
    let s = rolling_standing(&vals, 3);
    assert_eq!(s, vec![None, Some((2, 2)), None, Some((1, 2)), Some((2, 2))]);
    assert_eq!(rolling_standing(&vals, 252)[4], Some((3, 4)));
    assert_eq!(rolling_standing(&vals, 1), vec![None; 5]);
}

#[test]
fn the_greatest_stands_at_the_top() {
    let s = rolling_standing(&nums(&[1.0, 2.0, 3.0]), 252);
    assert_eq!(s[2], Some((3, 3)));
}

#[test]
fn rankings_keep_the_order_of_equals() {
    let keys = nums(&[2.0, 1.0, f64::NAN, 1.0, -0.0, 0.0, f64::INFINITY]);
    assert_eq!(ranked_finite(&keys), vec![4, 5, 1, 3, 0]);
    assert_eq!(ranked(&nums(&[3.0, f64::NEG_INFINITY, 3.0])), vec![1, 0, 2]);
}

#[test]
fn medians() {
    assert_eq!(median_place(&nums(&[3.0, 1.0, 2.0])), Some(2));
    assert_eq!(median_place(&nums(&[4.0, 1.0, 3.0, 2.0])), Some(2));
    assert_eq!(median_place(&vec![]), None);
}

#[test]
fn fifths_cover_all() {
    assert_eq!((0..5).map(|q| fifth(12, q)).collect::<Vec<_>>(), vec![(0, 2), (2, 4), (4, 7), (7, 9), (9, 12)]);
    assert_eq!(fifth(5, 4), (4, 5));
}

#[test]
fn quintiles_of_the_finite() {
    let keys = nums(&[5.0, f64::NAN, 3.0, 1.0, 4.0, 2.0, 6.0]);
    let q = quintiles(&keys).unwrap();
    assert_eq!(q, vec![vec![3], vec![5], vec![2], vec![4], vec![0, 6]]);
    assert_eq!(quintiles(&nums(&[1.0, 2.0, 3.0, 4.0, f64::INFINITY])), None);
}

#[test]
fn nearest_within_reach() {
    let d = nums(&[0.3, 0.05, 0.02, 0.02]);
    let all = vec![true, true, true, true];
    assert_eq!(nearest(&all, &d, num(0.1)), Some(2));
    assert_eq!(nearest(&vec![true, true, false, false], &d, num(0.1)), Some(1));
    assert_eq!(nearest(&vec![true, false, false, false], &d, num(0.1)), None);
}

#[test]
fn the_first_of_the_least() {
    assert_eq!(least(&nums(&[3.0, 1.0, 1.0])), Some(1));
    assert_eq!(least(&nums(&[f64::NAN, 1.0])), Some(0));
    assert_eq!(least(&vec![]), None);
}

#[test]
fn extremes_of_the_finite() {
    assert_eq!(extremes(&nums(&[f64::NAN, 2.0, -1.0, 2.0, f64::INFINITY])), Some((2, 1)));
    assert_eq!(extremes(&nums(&[f64::NAN])), None);
    assert_eq!(count_above(&nums(&[1.0, 0.0, -1.0, f64::NAN]), num(0.0)), 1);
}

#[test]
fn runs_below_a_level() {
    let v = nums(&[-0.2, -0.1, 0.0, -0.05, -0.15, f64::NAN, -0.3]);
    assert_eq!(runs(&v, num(-0.1)), vec![(0, 1), (4, 4), (6, 6)]);
    assert!(runs(&vec![], num(0.0)).is_empty());
}

#[test]
fn places_among_nodes() {
    let nodes = nums(&[1.0, 2.0, 2.0, 4.0]);
    assert_eq!(locate(&nodes, num(0.5)), Place::First);
    assert_eq!(locate(&nodes, num(1.0)), Place::First);
    assert_eq!(locate(&nodes, num(1.5)), Place::Between(0));
    assert_eq!(locate(&nodes, num(2.0)), Place::Between(0));
    assert_eq!(locate(&nodes, num(3.0)), Place::Between(2));
    assert_eq!(locate(&nodes, num(4.0)), Place::Last);
    assert_eq!(locate(&nodes, num(f64::NAN)), Place::Last);
    assert_eq!(locate(&vec![], num(1.0)), Place::Nowhere);
}

#[test]
fn groups_by_key() {
    let g = group_by_key(&vec![30, 7, 30, 9, 7], &vec![true, true, true, false, true]);
    assert_eq!(g.len(), 2);
    assert_eq!((g[0].key, g[0].members.clone()), (7, vec![1, 4]));
    assert_eq!((g[1].key, g[1].members.clone()), (30, vec![0, 2]));
}

#[test]
fn tables_keep_the_last_row() {
    let rows = vec![("b".to_string(), 1), ("a".to_string(), 2), ("b".to_string(), 3)];
    let t = tabulate(&rows);
    assert_eq!(t.get("a"), Some(&2));
    assert_eq!(t.get("b"), Some(&3));
    assert_eq!(t.get("c"), None);
    assert_eq!(t.entries(), &vec![("a".to_string(), 2), ("b".to_string(), 3)]);
    let i = index_of(&vec!["x".to_string(), "y".to_string(), "x".to_string()]);
    assert_eq!(i.get("x"), Some(&2));
    assert_eq!(i.get("y"), Some(&1));
}

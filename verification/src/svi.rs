//! The choice among candidate fits of a volatility smile.
//!
//! A smile is fitted on a grid of shifts and curvatures, with the other parameters from
//! a linear least-squares fit at each point of the grid. The fits are calculated
//! outside.

use crate::num::{Num, ZERO};
use crate::order::{comes_first, descent, law_least_is_first_minimum, least};
use vstd::prelude::*;

verus! {

/// The correlation is less than 0.999 in either direction.
pub const RHO_LIMIT: u64 = 0x3fef_f7ce_d916_872b;

/// The shifts of the grid.
pub const SHIFTS: usize = 28;

/// The curvatures of the grid.
pub const CURVATURES: usize = 20;

/// The least points that a fit takes.
pub const MIN_POINTS: usize = 4;

/// Whether there is anything to fit: enough points, and not all in one place.
pub fn can_fit(points: usize, kmin: Num, kmax: Num) -> (r: bool)
    ensures
        r == (points >= MIN_POINTS && kmin.below(kmax)),
{
    points >= MIN_POINTS && kmin.lt(kmax)
}

/// Whether a fit is a smile: its wings rise, its correlation is one, and its least
/// variance is not below zero.
pub open spec fn is_smile(slope: Num, rho: Num, floor: Num) -> bool {
    &&& !slope.at_most(Num { bits: ZERO })
    &&& !(Num { bits: RHO_LIMIT }).at_most(rho.unsigned())
    &&& !floor.below(Num { bits: ZERO })
}

/// Whether a fit is a smile.
pub fn admissible(slope: Num, rho: Num, floor: Num) -> (r: bool)
    ensures
        r == is_smile(slope, rho, floor),
{
    !slope.le(Num::new(ZERO)) && !Num::new(RHO_LIMIT).le(rho.abs()) && !floor.lt(Num::new(ZERO))
}

/// The fit with the least error, the first of several.
pub fn fit(errors: &Vec<Num>) -> (r: Option<usize>)
    ensures
        match r {
            Some(k) => k < errors@.len() && descent(errors@, errors@.len() as int) == Some(k as int),
            None => errors@.len() == 0,
        },
{
    least(errors)
}

/// Nothing is fitted to fewer than four points, nor to points in one place.
pub proof fn law_can_fit(points: usize, kmin: Num, kmax: Num, r: bool)
    requires
        call_ensures(can_fit, (points, kmin, kmax), r),
    ensures
        r <==> points >= 4 && kmin.below(kmax),
{
}

/// A fit is turned down exactly where its wings do not rise, its correlation is 0.999 or
/// more in either direction, or its least variance is below zero.
pub proof fn law_admissible(slope: Num, rho: Num, floor: Num, r: bool)
    requires
        call_ensures(admissible, (slope, rho, floor), r),
    ensures
        !r <==> slope.at_most(Num { bits: 0 }) || (Num { bits: 0x3fef_f7ce_d916_872b }).at_most(rho)
            || rho.at_most(Num { bits: 0xbfef_f7ce_d916_872b }) || floor.below(Num { bits: 0 }),
{
}

/// The fit that is chosen is one of the candidates, and no later one has a lesser error;
/// where all errors are numbers, no earlier one has an error that is as small.
pub proof fn law_fit_is_best(errors: Vec<Num>, r: Option<usize>)
    requires
        call_ensures(fit, (&errors,), r),
    ensures
        r is None <==> errors@.len() == 0,
        r matches Some(k) ==> k < errors@.len() && (forall|j: int|
            k < j < errors@.len() ==> !(#[trigger] errors@[j]).below(errors@[k as int])),
        r matches Some(k) ==> (forall|j: int|
            0 <= j < errors@.len() ==> !(#[trigger] errors@[j]).nan()) ==> (forall|j: int|
            0 <= j < k ==> errors@[k as int].below(#[trigger] errors@[j])),
{
    let n = errors@.len() as int;
    if n > 0 {
        lemma_descent_is_last(errors@, n);
        if forall|j: int| 0 <= j < errors@.len() ==> !(#[trigger] errors@[j]).nan() {
            assert forall|i: int| 0 <= i < n implies !#[trigger] errors@[i].nan() by {}
            law_least_is_first_minimum(errors@, n);
            let k = r->0;
            assert forall|j: int| 0 <= j < k implies errors@[k as int].below(#[trigger] errors@[j]) by {
                assert(!errors@[j].nan() && !errors@[k as int].nan());
                assert(comes_first(errors@, k as int, j));
            }
        }
    }
}

proof fn lemma_descent_is_last(keys: Seq<Num>, n: int)
    requires
        0 < n <= keys.len(),
    ensures
        descent(keys, n) matches Some(k) && 0 <= k < n && forall|j: int|
            k < j < n ==> !(#[trigger] keys[j]).below(keys[k]),
    decreases n,
{
    if n > 1 {
        lemma_descent_is_last(keys, n - 1);
    } else {
        assert(descent(keys, 0) is None);
    }
}

} // verus!

//! Picking the entries of a series that meet a condition.

use vstd::prelude::*;

verus! {

/// The places among the first `n` that `chosen` holds of, in order.
pub open spec fn pick(n: int, chosen: spec_fn(int) -> bool) -> Seq<usize>
    decreases n,
{
    if n <= 0 {
        Seq::empty()
    } else if chosen(n - 1) {
        pick(n - 1, chosen).push((n - 1) as usize)
    } else {
        pick(n - 1, chosen)
    }
}

/// A pick holds each chosen place once and no other, and the places ascend.
pub proof fn law_pick(n: int, chosen: spec_fn(int) -> bool)
    requires
        n <= usize::MAX + 1,
    ensures
        forall|i: int|
            0 <= i < pick(n, chosen).len() ==> #[trigger] pick(n, chosen)[i] < n && chosen(
                pick(n, chosen)[i] as int,
            ),
        forall|k: int| 0 <= k < n && chosen(k) ==> #[trigger] pick(n, chosen).contains(k as usize),
        forall|i: int, j: int|
            0 <= i < j < pick(n, chosen).len() ==> #[trigger] pick(n, chosen)[i] < #[trigger] pick(
                n,
                chosen,
            )[j],
    decreases n,
{
    if n > 0 {
        law_pick(n - 1, chosen);
        let front = pick(n - 1, chosen);
        let all = pick(n, chosen);
        assert forall|k: int| 0 <= k < n && chosen(k) implies #[trigger] all.contains(k as usize) by {
            if k < n - 1 {
                assert(front.contains(k as usize));
                let i = choose|i: int| 0 <= i < front.len() && front[i] == k as usize;
                assert(all[i] == k as usize);
            } else {
                assert(all[all.len() - 1] == k as usize);
            }
        }
    }
}

/// What a filter keeps, with the places that it keeps: they ascend, and every entry that it
/// lets through is among them.
pub proof fn lemma_filter_places<A>(s: Seq<A>, f: spec_fn(A) -> bool) -> (from: Seq<int>)
    ensures
        from.len() == s.filter(f).len(),
        forall|k: int| 0 <= k < from.len() ==> 0 <= #[trigger] from[k] < s.len(),
        forall|j: int, k: int| 0 <= j < k < from.len() ==> #[trigger] from[j] < #[trigger] from[k],
        forall|k: int| 0 <= k < from.len() ==> s.filter(f)[k] == s[#[trigger] from[k]] && f(s[from[k]]),
        forall|i: int| 0 <= i < s.len() && f(#[trigger] s[i]) ==> from.contains(i),
    decreases s.len(),
{
    reveal(Seq::filter);
    if s.len() == 0 {
        Seq::empty()
    } else {
        let t = s.drop_last();
        let n = s.len() as int;
        let front = lemma_filter_places(t, f);
        let from = if f(s.last()) {
            front.push(n - 1)
        } else {
            front
        };
        assert forall|i: int| 0 <= i < s.len() && f(#[trigger] s[i]) implies from.contains(i) by {
            if i < n - 1 {
                assert(t[i] == s[i]);
                let k = choose|k: int| 0 <= k < front.len() && front[k] == i;
                assert(from[k] == i);
            } else {
                assert(from[front.len() as int] == i);
            }
        }
        assert forall|k: int| 0 <= k < from.len() implies s.filter(f)[k] == s[#[trigger] from[k]] && f(
            s[from[k]],
        ) by {
            if k < front.len() {
                assert(from[k] == front[k]);
                assert(t.filter(f)[k] == t[front[k]]);
            }
        }
        from
    }
}

} // verus!

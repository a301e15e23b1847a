//! Economic series: a header line, then a date and a value a line, with a point for
//! days without one.

use crate::csv::{
    file_text, is_observation, law_file_starts, law_observations, law_observations_of_lines,
    law_observations_read_back, observations, observed_values, pair_rows, pair_views, row_views,
    write_file,
};
use crate::numeral::is_numeral;
use crate::text::{is_line, lines, lossy, split, trimmed, utf8_lossy, views};
use vstd::prelude::*;

verus! {

/// The dates and values, as text, of the series that the service sent.
pub fn fetch_series(body: &[u8]) -> (r: Vec<(String, String)>)
    ensures
        pair_views(r@) == observations(utf8_lossy(body@), false),
{
    observed_values(lossy(body).as_str(), false)
}

/// The dates and values, as text, of a cached series.
pub fn load(text: &str) -> (r: Vec<(String, String)>)
    ensures
        pair_views(r@) == observations(text@, false),
{
    observed_values(text, false)
}

/// The text of a cached series.
pub open spec fn series_text(pairs: Seq<(Seq<char>, Seq<char>)>) -> Seq<char> {
    file_text("date,value"@, pair_rows(pairs))
}

/// What the cache is to hold of a series: nothing new where it is empty.
pub fn cache_text(rows: &Vec<(String, String)>) -> (r: Option<String>)
    ensures
        r is None <==> rows@.len() == 0,
        r matches Some(s) ==> s@ == series_text(pair_views(rows@)),
{
    if rows.len() == 0 {
        return None;
    }
    let mut out: Vec<Vec<String>> = Vec::new();
    let mut i: usize = 0;
    while i < rows.len()
        invariant
            i <= rows@.len(),
            out@.len() == i,
            forall|k: int|
                0 <= k < i ==> views((#[trigger] out@[k])@) == seq![rows@[k].0@, rows@[k].1@],
        decreases rows@.len() - i,
    {
        let mut f: Vec<String> = Vec::new();
        f.push(rows[i].0.clone());
        f.push(rows[i].1.clone());
        assert(views(f@) =~= seq![rows@[i as int].0@, rows@[i as int].1@]);
        out.push(f);
        i = i + 1;
    }
    assert(row_views(out@) =~= pair_rows(pair_views(rows@)));
    Some(write_file("date,value", &out))
}

/// The dates of `pairs`, each with the value at its place.
pub open spec fn with_values(pairs: Seq<(Seq<char>, Seq<char>)>, values: Seq<Seq<char>>) -> Seq<
    (Seq<char>, Seq<char>),
> {
    Seq::new(pairs.len(), |i: int| (pairs[i].0, values[i]))
}

/// Whatever the service sent, what is cached of it loads back: the dates as they were
/// read, in order, each with the number that was written for it.
pub proof fn law_series_loads_back(body: Seq<u8>, values: Seq<Seq<char>>)
    requires
        values.len() == observations(utf8_lossy(body), false).len(),
        forall|i: int| 0 <= i < values.len() ==> is_numeral(#[trigger] values[i]),
    ensures
        ({
            let rows = with_values(observations(utf8_lossy(body), false), values);
            observations(series_text(rows), false) == rows
        }),
{
    let text = utf8_lossy(body);
    let rows = with_values(observations(text, false), values);
    reveal_strlit("date,value");
    assert(is_line("date,value"@));
    assert forall|i: int| 0 <= i < rows.len() implies is_observation(#[trigger] rows[i]) by {
        law_observations(text, false, i);
        assert(is_numeral(values[i]));
    }
    law_observations_read_back("date,value"@, rows);
}

/// A series is read from the lines of its text behind the first: the date and the value of
/// each line whose second field denotes a number, in order, white space around both
/// dropped.
pub proof fn law_load(text: &str, r: Vec<(String, String)>) -> (from: Seq<int>)
    requires
        call_ensures(load, (text,), r),
    ensures
        from.len() == r@.len(),
        forall|k: int| 0 <= k < from.len() ==> 1 <= #[trigger] from[k] < lines(text@).len(),
        forall|j: int, k: int| 0 <= j < k < from.len() ==> #[trigger] from[j] < #[trigger] from[k],
        forall|k: int|
            0 <= k < from.len() ==> r@[k].0@ == trimmed(split(lines(text@)[#[trigger] from[k]], ',')[0])
                && r@[k].1@ == trimmed(split(lines(text@)[from[k]], ',')[1]),
        forall|i: int|
            1 <= i < lines(text@).len() ==> (from.contains(i) <==> split(#[trigger] lines(text@)[i], ',').len() >= 2
                && is_numeral(trimmed(split(lines(text@)[i], ',')[1]))),
{
    let from = law_observations_of_lines(text@, false);
    let pv = pair_views(r@);
    assert(pv.len() == r@.len());
    assert forall|k: int| 0 <= k < from.len() implies r@[k].0@ == trimmed(
        split(lines(text@)[#[trigger] from[k]], ',')[0],
    ) && r@[k].1@ == trimmed(split(lines(text@)[from[k]], ',')[1]) by {
        assert(pv[k] == (r@[k].0@, r@[k].1@));
    }
    from
}

/// What the service sent is read as its text is loaded.
pub proof fn law_fetch_series(body: &[u8], r: Vec<(String, String)>, text: &str, s: Vec<(String, String)>)
    requires
        call_ensures(fetch_series, (body,), r),
        text@ == utf8_lossy(body@),
        call_ensures(load, (text,), s),
    ensures
        r@.len() == s@.len(),
        forall|i: int| 0 <= i < r@.len() ==> (#[trigger] r@[i]).0@ == s@[i].0@ && r@[i].1@ == s@[i].1@,
{
    let (a, b) = (pair_views(r@), pair_views(s@));
    assert(a == b);
    assert(a.len() == r@.len() && b.len() == s@.len());
    assert forall|i: int| 0 <= i < r@.len() implies (#[trigger] r@[i]).0@ == s@[i].0@ && r@[i].1@ == s@[i].1@ by {
        assert(a[i] == (r@[i].0@, r@[i].1@) && b[i] == (s@[i].0@, s@[i].1@));
    }
}

/// What is cached of a series loads back pair by pair.
pub proof fn law_cache_loads_back(
    rows: Vec<(String, String)>,
    cached: Option<String>,
    text: &str,
    r: Vec<(String, String)>,
    i: int,
)
    requires
        call_ensures(cache_text, (&rows,), cached),
        cached matches Some(s) && text@ == s@,
        call_ensures(load, (text,), r),
        forall|i: int| 0 <= i < rows@.len() ==> is_observation(((#[trigger] rows@[i]).0@, rows@[i].1@)),
        0 <= i < rows@.len(),
    ensures
        r@.len() == rows@.len(),
        r@[i].0@ == rows@[i].0@,
        r@[i].1@ == rows@[i].1@,
{
    let (a, b) = (pair_views(r@), pair_views(rows@));
    reveal_strlit("date,value");
    assert(is_line("date,value"@));
    assert forall|k: int| 0 <= k < b.len() implies is_observation(#[trigger] b[k]) by {
        assert(b[k] == (rows@[k].0@, rows@[k].1@));
    }
    law_observations_read_back("date,value"@, b);
    assert(a == b);
    assert(a.len() == r@.len() && b.len() == rows@.len());
    assert(a[i] == (r@[i].0@, r@[i].1@) && b[i] == (rows@[i].0@, rows@[i].1@));
}

/// An empty series is not cached, and every other one is.
pub proof fn law_cache_of_nothing(rows: Vec<(String, String)>, cached: Option<String>)
    requires
        call_ensures(cache_text, (&rows,), cached),
    ensures
        cached is Some <==> rows@.len() > 0,
{
}

/// What is cached of a series starts with the line "date,value".
pub proof fn law_cache_header(rows: Vec<(String, String)>, cached: Option<String>)
    requires
        call_ensures(cache_text, (&rows,), cached),
        rows@.len() > 0,
    ensures
        cached matches Some(s) && s@.len() >= 11 && s@.take(11) == "date,value"@.push('\n'),
{
    reveal_strlit("date,value");
    law_file_starts("date,value"@, pair_rows(pair_views(rows@)));
}

} // verus!

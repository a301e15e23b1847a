//! Comma-separated files: a header line, then rows of fields.

use crate::numeral::{denotes_number, is_numeral, lemma_numeral_chars};
use crate::table::{last_values, tabulate, Table};
use crate::text::{
    is_line, is_white, join, joined, lacks, law_join_split, law_lines_read_back, law_split_join,
    lemma_lines_lack, lemma_pieces_lack, lemma_trimmed, lemma_trimmed_ends, lines, lines_of, same,
    split, split_on, trim, trimmed, views,
};
use crate::pick::lemma_filter_places;
use vstd::prelude::*;

verus! {

/// The lines of a file behind its header.
pub open spec fn body(text: Seq<char>) -> Seq<Seq<char>> {
    let all = lines(text);
    if all.len() > 0 {
        all.skip(1)
    } else {
        all
    }
}

/// The fields of the lines that have at least `n`, in order.
pub open spec fn wide_rows(rows: Seq<Seq<char>>, n: int) -> Seq<Seq<Seq<char>>>
    decreases rows.len(),
{
    if rows.len() == 0 {
        Seq::empty()
    } else {
        let front = wide_rows(rows.drop_last(), n);
        let f = split(rows.last(), ',');
        if f.len() >= n {
            front.push(f)
        } else {
            front
        }
    }
}

/// The rows of a file with at least `n` fields.
pub open spec fn rows_of(text: Seq<char>, n: int) -> Seq<Seq<Seq<char>>> {
    wide_rows(body(text), n)
}

/// The rows of a file with at least `n` fields, white space around each line dropped.
pub open spec fn trimmed_rows_of(text: Seq<char>, n: int) -> Seq<Seq<Seq<char>>> {
    wide_rows(body(text).map_values(|l: Seq<char>| trimmed(l)), n)
}

/// The views of rows of fields.
pub open spec fn row_views(rows: Seq<Vec<String>>) -> Seq<Seq<Seq<char>>> {
    rows.map_values(|r: Vec<String>| views(r@))
}

/// The fields of the lines of `all`, from `from` on, that have at least `n`.
fn wide(all: &Vec<String>, from: usize, trimming: bool, n: usize) -> (r: Vec<Vec<String>>)
    requires
        from <= all@.len(),
    ensures
        row_views(r@) == wide_rows(
            if trimming {
                views(all@).skip(from as int).map_values(|l: Seq<char>| trimmed(l))
            } else {
                views(all@).skip(from as int)
            },
            n as int,
        ),
{
    let ghost rows = if trimming {
        views(all@).skip(from as int).map_values(|l: Seq<char>| trimmed(l))
    } else {
        views(all@).skip(from as int)
    };
    let mut out: Vec<Vec<String>> = Vec::new();
    let mut i: usize = from;
    assert(row_views(out@) =~= wide_rows(rows.take(0), n as int));
    while i < all.len()
        invariant
            from <= i <= all@.len(),
            rows.len() == all@.len() - from,
            forall|k: int|
                from <= k < all@.len() ==> #[trigger] rows[k - from] == (if trimming {
                    trimmed(all@[k]@)
                } else {
                    all@[k]@
                }),
            row_views(out@) == wide_rows(rows.take(i - from), n as int),
        decreases all@.len() - i,
    {
        let line: String = if trimming { trim(all[i].as_str()) } else { all[i].clone() };
        let f: Vec<String> = split_on(line.as_str(), ',');
        assert(rows.take(i + 1 - from).drop_last() =~= rows.take(i - from));
        assert(rows[i - from] == line@);
        assert(rows.take(i + 1 - from).last() == line@);
        if f.len() >= n {
            let ghost was = out@;
            let ghost fv = views(f@);
            out.push(f);
            assert(row_views(out@) =~= row_views(was).push(fv));
        }
        i = i + 1;
    }
    assert(rows.take(all@.len() - from) =~= rows);
    out
}

fn header(all: &Vec<String>) -> (r: usize)
    ensures
        r <= all@.len(),
        r == (if all@.len() > 0 {
            1int
        } else {
            0
        }),
{
    if all.len() > 0 {
        1
    } else {
        0
    }
}

/// The rows of a file with at least `n` fields.
pub fn rows(text: &str, n: usize) -> (r: Vec<Vec<String>>)
    ensures
        row_views(r@) == rows_of(text@, n as int),
{
    let all: Vec<String> = lines_of(text);
    let from: usize = header(&all);
    assert(views(all@).skip(from as int) =~= body(text@));
    wide(&all, from, false, n)
}

/// The rows of a file with at least `n` fields, white space around each line dropped.
pub fn trimmed_rows(text: &str, n: usize) -> (r: Vec<Vec<String>>)
    ensures
        row_views(r@) == trimmed_rows_of(text@, n as int),
{
    let all: Vec<String> = lines_of(text);
    let from: usize = header(&all);
    assert(views(all@).skip(from as int) =~= body(text@));
    wide(&all, from, true, n)
}

// ---- turning-point signals ----

/// The two flags of a row, each set by a lone `1`.
pub open spec fn flags_of(row: Seq<Seq<char>>) -> (bool, bool) {
    (trimmed(row[1]) == seq!['1'], trimmed(row[2]) == seq!['1'])
}

/// The flags by date, of the rows with at least three fields; the last row of a date
/// counts.
pub open spec fn signals_of(rows: Seq<Seq<Seq<char>>>) -> Map<Seq<char>, (bool, bool)>
    decreases rows.len(),
{
    if rows.len() == 0 {
        Map::empty()
    } else {
        signals_of(rows.drop_last()).insert(rows.last()[0], flags_of(rows.last()))
    }
}

fn is_one(s: &str) -> (r: bool)
    ensures
        r == (trimmed(s@) == seq!['1']),
{
    proof {
        reveal_strlit("1");
    }
    assert("1"@ =~= seq!['1']);
    same(trim(s).as_str(), "1")
}

/// The turning-point signals of a file of `date,top,bottom`.
pub fn signals(text: &str) -> (r: Table<(bool, bool)>)
    ensures
        r@ == signals_of(rows_of(text@, 3)),
{
    let all: Vec<Vec<String>> = rows(text, 3);
    let mut out: Vec<(String, (bool, bool))> = Vec::new();
    let ghost want = rows_of(text@, 3);
    proof {
        lemma_wide_rows_are_wide(body(text@), 3);
    }
    let mut i: usize = 0;
    while i < all.len()
        invariant
            i <= all@.len(),
            want == row_views(all@),
            forall|k: int| 0 <= k < want.len() ==> (#[trigger] want[k]).len() >= 3,
            last_values(out@) == signals_of(want.take(i as int)),
        decreases all@.len() - i,
    {
        assert(want[i as int] == views(all@[i as int]@));
        assert(want[i as int].len() >= 3);
        let ghost was = out@;
        let row: (String, (bool, bool)) = (
            all[i][0].clone(),
            (is_one(all[i][1].as_str()), is_one(all[i][2].as_str())),
        );
        assert(want.take(i + 1).drop_last() =~= want.take(i as int));
        assert(want.take(i + 1).last() == want[i as int]);
        assert(row.0@ == want[i as int][0]);
        assert(row.1 == flags_of(want[i as int]));
        out.push(row);
        assert(out@.drop_last() =~= was);
        i = i + 1;
    }
    assert(want.take(want.len() as int) =~= want);
    tabulate(&out)
}

pub proof fn lemma_wide_rows_are_wide(rows: Seq<Seq<char>>, n: int)
    ensures
        forall|k: int| 0 <= k < wide_rows(rows, n).len() ==> (#[trigger] wide_rows(rows, n)[k]).len() >= n,
    decreases rows.len(),
{
    if rows.len() > 0 {
        let front = wide_rows(rows.drop_last(), n);
        lemma_wide_rows_are_wide(rows.drop_last(), n);
        assert forall|k: int| 0 <= k < wide_rows(rows, n).len() implies (#[trigger] wide_rows(
            rows,
            n,
        )[k]).len() >= n by {
            if k < front.len() {
                assert(wide_rows(rows, n)[k] == front[k]);
            }
        }
    }
}

// ---- dated values ----

/// The date and the value of each row, white space around both dropped.
pub open spec fn dated_of(rows: Seq<Seq<Seq<char>>>) -> Seq<(Seq<char>, Seq<char>)> {
    rows.map_values(|f: Seq<Seq<char>>| (trimmed(f[0]), trimmed(f[1])))
}

/// The views of pairs of strings.
pub open spec fn pair_views(v: Seq<(String, String)>) -> Seq<(Seq<char>, Seq<char>)> {
    v.map_values(|p: (String, String)| (p.0@, p.1@))
}

/// The date and the value, as text, of each row with two fields or more.
fn pairs(text: &str) -> (r: Vec<(String, String)>)
    ensures
        pair_views(r@) == dated_of(rows_of(text@, 2)),
{
    let all: Vec<Vec<String>> = rows(text, 2);
    let ghost want = rows_of(text@, 2);
    proof {
        lemma_wide_rows_are_wide(body(text@), 2);
    }
    let mut out: Vec<(String, String)> = Vec::new();
    let mut i: usize = 0;
    while i < all.len()
        invariant
            i <= all@.len(),
            want == row_views(all@),
            forall|k: int| 0 <= k < want.len() ==> (#[trigger] want[k]).len() >= 2,
            pair_views(out@) == dated_of(want).take(i as int),
        decreases all@.len() - i,
    {
        assert(want[i as int] == views(all@[i as int]@));
        assert(want[i as int].len() >= 2);
        let ghost was = out@;
        let d: String = trim(all[i][0].as_str());
        let v: String = trim(all[i][1].as_str());
        assert(d@ == trimmed(want[i as int][0]) && v@ == trimmed(want[i as int][1]));
        out.push((d, v));
        assert(pair_views(out@) =~= pair_views(was).push((d@, v@)));
        assert(dated_of(want).take(i + 1) =~= dated_of(want).take(i as int).push(
            dated_of(want)[i as int],
        ));
        i = i + 1;
    }
    assert(dated_of(want).take(want.len() as int) =~= dated_of(want));
    out
}

/// Whether a row counts: its value is a number, and it has a date where `dated` asks
/// for one.
pub open spec fn counts(p: (Seq<char>, Seq<char>), dated: bool) -> bool {
    is_numeral(p.1) && (dated ==> p.0.len() > 0)
}

/// The rows of a two-column file that count: date and value, as text.
pub open spec fn observations(text: Seq<char>, dated: bool) -> Seq<(Seq<char>, Seq<char>)> {
    dated_of(rows_of(text, 2)).filter(|p: (Seq<char>, Seq<char>)| counts(p, dated))
}

/// The date and the value, as text, of each row whose value is a number. Where
/// `dated`, rows without a date are left out too.
pub fn observed_values(text: &str, dated: bool) -> (r: Vec<(String, String)>)
    ensures
        pair_views(r@) == observations(text@, dated),
{
    let all: Vec<(String, String)> = pairs(text);
    let ghost want = dated_of(rows_of(text@, 2));
    let ghost keep = |p: (Seq<char>, Seq<char>)| counts(p, dated);
    let mut out: Vec<(String, String)> = Vec::new();
    let mut i: usize = 0;
    proof {
        reveal(Seq::filter);
        assert(pair_views(out@) =~= want.take(0).filter(keep));
    }
    while i < all.len()
        invariant
            i <= all@.len(),
            want == pair_views(all@),
            keep == (|p: (Seq<char>, Seq<char>)| counts(p, dated)),
            pair_views(out@) == want.take(i as int).filter(keep),
        decreases all@.len() - i,
    {
        reveal(Seq::filter);
        assert(want.take(i + 1).drop_last() =~= want.take(i as int));
        assert(want.take(i + 1).last() == want[i as int]);
        assert(want[i as int] == (all@[i as int].0@, all@[i as int].1@));
        if denotes_number(all[i].1.as_str()) && (!dated || !all[i].0.as_str().is_empty()) {
            let ghost was = out@;
            let row: (String, String) = (all[i].0.clone(), all[i].1.clone());
            out.push(row);
            assert(pair_views(out@) =~= pair_views(was).push((row.0@, row.1@)));
        }
        i = i + 1;
    }
    assert(want.take(want.len() as int) =~= want);
    out
}

// ---- rows of numbers ----

/// The fields of a row from the second to the `n`-th, white space around each dropped
/// where `trimming`.
pub open spec fn cell(row: Seq<Seq<char>>, k: int, trimming: bool) -> Seq<char> {
    if trimming {
        trimmed(row[k])
    } else {
        row[k]
    }
}

/// Whether fields 1 to `n` of a row are all numbers.
pub open spec fn all_numbers(row: Seq<Seq<char>>, n: int, trimming: bool) -> bool {
    forall|k: int| 1 <= k <= n ==> is_numeral(#[trigger] cell(row, k, trimming))
}

/// The date and the first `n` numbers of each row that has them.
pub open spec fn number_rows_of(rows: Seq<Seq<Seq<char>>>, n: int, trimming: bool) -> Seq<Seq<Seq<char>>> {
    rows.filter(|r: Seq<Seq<char>>| all_numbers(r, n, trimming)).map_values(
        |r: Seq<Seq<char>>| Seq::new((n + 1) as nat, |k: int| cell(r, k, trimming)),
    )
}

/// The date and the first `n` numbers, as text, of each row that has them. Where
/// `trimming`, white space around lines and fields is dropped.
pub fn number_rows(text: &str, n: usize, trimming: bool) -> (r: Vec<Vec<String>>)
    requires
        n < usize::MAX,
    ensures
        row_views(r@) == number_rows_of(
            if trimming {
                trimmed_rows_of(text@, n + 1)
            } else {
                rows_of(text@, n + 1)
            },
            n as int,
            trimming,
        ),
{
    let all: Vec<Vec<String>> = if trimming {
        trimmed_rows(text, n + 1)
    } else {
        rows(text, n + 1)
    };
    let ghost want = if trimming { trimmed_rows_of(text@, n + 1) } else { rows_of(text@, n + 1) };
    let ghost keep = |r: Seq<Seq<char>>| all_numbers(r, n as int, trimming);
    proof {
        lemma_wide_rows_are_wide(body(text@), n + 1);
        lemma_wide_rows_are_wide(body(text@).map_values(|l: Seq<char>| trimmed(l)), n + 1);
    }
    let mut out: Vec<Vec<String>> = Vec::new();
    let mut i: usize = 0;
    proof {
        reveal(Seq::filter);
        assert(row_views(out@) =~= number_rows_of(want.take(0), n as int, trimming));
    }
    while i < all.len()
        invariant
            i <= all@.len(),
            n < usize::MAX,
            want == row_views(all@),
            keep == (|r: Seq<Seq<char>>| all_numbers(r, n as int, trimming)),
            forall|k: int| 0 <= k < want.len() ==> (#[trigger] want[k]).len() >= n + 1,
            row_views(out@) == number_rows_of(want.take(i as int), n as int, trimming),
        decreases all@.len() - i,
    {
        reveal(Seq::filter);
        let ghost row = want[i as int];
        assert(row == views(all@[i as int]@));
        assert(row.len() >= n + 1);
        assert(want.take(i + 1).drop_last() =~= want.take(i as int));
        assert(want.take(i + 1).last() == row);
        let mut cells: Vec<String> = Vec::new();
        let mut good: bool = true;
        let mut k: usize = 0;
        while k <= n
            invariant
                k <= n + 1,
                n < usize::MAX,
                i < all@.len(),
                row == views(all@[i as int]@),
                row.len() >= n + 1,
                views(cells@) == Seq::new(k as nat, |j: int| cell(row, j, trimming)),
                good == (forall|j: int| 1 <= j < k ==> is_numeral(#[trigger] cell(row, j, trimming))),
            decreases n + 1 - k,
        {
            let c: String = if trimming { trim(all[i][k].as_str()) } else { all[i][k].clone() };
            assert(row[k as int] == all@[i as int]@[k as int]@);
            assert(c@ == cell(row, k as int, trimming));
            let ghost was = cells@;
            if k >= 1 && !denotes_number(c.as_str()) {
                good = false;
            }
            cells.push(c);
            assert(views(cells@) =~= views(was).push(c@));
            k = k + 1;
            assert(views(cells@) =~= Seq::new(k as nat, |j: int| cell(row, j, trimming)));
        }
        if good {
            let ghost was = out@;
            let ghost cv = views(cells@);
            out.push(cells);
            assert(row_views(out@) =~= row_views(was).push(cv));
            assert(number_rows_of(want.take(i + 1), n as int, trimming) =~= number_rows_of(
                want.take(i as int),
                n as int,
                trimming,
            ).push(cv));
        }
        i = i + 1;
    }
    assert(want.take(want.len() as int) =~= want);
    out
}

// ---- writing ----

/// The line of a row of fields.
pub open spec fn line_of(row: Seq<Seq<char>>) -> Seq<char> {
    joined(row, ',')
}

/// A file of a header and rows, a line each.
pub open spec fn file_text(header: Seq<char>, rows: Seq<Seq<Seq<char>>>) -> Seq<char> {
    joined(seq![header] + rows.map_values(|r: Seq<Seq<char>>| line_of(r)), '\n').push('\n')
}

/// The text of a file of a header and rows.
pub fn write_file(header: &str, rows: &Vec<Vec<String>>) -> (r: String)
    ensures
        r@ == file_text(header@, row_views(rows@)),
{
    let ghost want = seq![header@] + row_views(rows@).map_values(|r: Seq<Seq<char>>| line_of(r));
    let mut ls: Vec<String> = Vec::new();
    ls.push(header.to_string());
    let mut i: usize = 0;
    assert(views(ls@) =~= want.take(1));
    while i < rows.len()
        invariant
            i <= rows@.len(),
            want == seq![header@] + row_views(rows@).map_values(|r: Seq<Seq<char>>| line_of(r)),
            views(ls@) == want.take(i + 1),
        decreases rows@.len() - i,
    {
        let ghost was = ls@;
        let l: String = join(&rows[i], ',');
        ls.push(l);
        assert(views(ls@) =~= views(was).push(l@));
        assert(want[i + 1] == l@) by {
            assert(row_views(rows@)[i as int] == views(rows@[i as int]@));
        }
        assert(views(ls@) =~= want.take(i + 2));
        i = i + 1;
    }
    assert(want.take(1 + rows@.len() as int) =~= want);
    let mut s: String = join(&ls, '\n');
    s.push('\n');
    s
}

/// Text that can stand in a field: without comma or line feed.
pub open spec fn is_field(s: Seq<char>) -> bool {
    lacks(s, ',') && lacks(s, '\n')
}

/// A line of fields holds no line feed.
proof fn lemma_line_lacks(row: Seq<Seq<char>>)
    requires
        forall|i: int| 0 <= i < row.len() ==> is_field(#[trigger] row[i]),
    ensures
        lacks(line_of(row), '\n'),
    decreases row.len(),
{
    if row.len() > 0 {
        assert(is_field(row[row.len() - 1]));
        let front = row.drop_last();
        assert forall|i: int| 0 <= i < front.len() implies is_field(#[trigger] front[i]) by {
            assert(is_field(row[i]));
        }
        lemma_line_lacks(front);
        if row.len() > 1 {
            let (a, b) = (joined(front, ',').push(','), row.last());
            assert(line_of(row) == a + b);
            assert forall|i: int| 0 <= i < (a + b).len() implies #[trigger] (a + b)[i] != '\n' by {
                if i < a.len() - 1 {
                    assert(joined(front, ',')[i] != '\n');
                } else if i >= a.len() {
                    assert((a + b)[i] == b[i - a.len()]);
                }
            }
        }
    }
}

/// Whether a row can be written: it has at least `n` fields, and at least one, each can
/// stand in one, and the last does not end in a carriage return.
pub open spec fn is_writable(row: Seq<Seq<char>>, n: int) -> bool {
    &&& row.len() >= n && row.len() > 0
    &&& forall|i: int| 0 <= i < row.len() ==> is_field(#[trigger] row[i])
    &&& is_line(row.last())
}

/// A row that can be written is a line.
pub proof fn lemma_line_is_one_line(row: Seq<Seq<char>>, n: int)
    requires
        is_writable(row, n),
    ensures
        is_line(line_of(row)),
{
    lemma_line_lacks(row);
    if row.len() > 1 && row.last().len() == 0 {
        assert(line_of(row).last() == ',');
    }
}

/// A file reads back as the rows that were written.
pub proof fn law_file_reads_back(header: Seq<char>, rows: Seq<Seq<Seq<char>>>, n: int)
    requires
        is_line(header),
        forall|i: int| 0 <= i < rows.len() ==> is_writable(#[trigger] rows[i], n),
    ensures
        rows_of(file_text(header, rows), n) == rows,
{
    let made = rows.map_values(|r: Seq<Seq<char>>| line_of(r));
    let all = seq![header] + made;
    assert forall|i: int| 0 <= i < all.len() implies is_line(#[trigger] all[i]) by {
        if i > 0 {
            assert(is_writable(rows[i - 1], n));
            lemma_line_is_one_line(rows[i - 1], n);
        }
    }
    law_lines_read_back(all);
    assert(all.skip(1) =~= made);
    lemma_lines_split(rows, made, n);
}

proof fn lemma_lines_split(rows: Seq<Seq<Seq<char>>>, made: Seq<Seq<char>>, n: int)
    requires
        rows.len() == made.len(),
        forall|i: int| 0 <= i < rows.len() ==> is_writable(#[trigger] rows[i], n),
        forall|i: int| 0 <= i < rows.len() ==> #[trigger] made[i] == line_of(rows[i]),
    ensures
        wide_rows(made, n) == rows,
    decreases rows.len(),
{
    if rows.len() > 0 {
        let (r, m) = (rows.drop_last(), made.drop_last());
        assert forall|i: int| 0 <= i < r.len() implies is_writable(#[trigger] r[i], n) by {
            assert(is_writable(rows[i], n));
        }
        assert forall|i: int| 0 <= i < r.len() implies #[trigger] m[i] == line_of(r[i]) by {
            assert(made[i] == line_of(rows[i]));
        }
        lemma_lines_split(r, m, n);
        let last = rows[rows.len() - 1];
        assert(is_writable(last, n));
        assert(made[made.len() - 1] == line_of(last));
        assert forall|i: int| 0 <= i < last.len() implies lacks(#[trigger] last[i], ',') by {
            assert(is_field(last[i]));
        }
        law_join_split(last, ',');
        assert(r.push(last) =~= rows);
    } else {
        assert(rows =~= Seq::empty());
    }
}

proof fn lemma_filter_all<A>(s: Seq<A>, f: spec_fn(A) -> bool)
    requires
        forall|i: int| 0 <= i < s.len() ==> f(#[trigger] s[i]),
    ensures
        s.filter(f) == s,
    decreases s.len(),
{
    reveal(Seq::filter);
    if s.len() > 0 {
        let t = s.drop_last();
        assert forall|i: int| 0 <= i < t.len() implies f(#[trigger] t[i]) by {
            assert(f(s[i]));
        }
        lemma_filter_all(t, f);
        assert(f(s[s.len() - 1]));
        assert(t.push(s.last()) =~= s);
    } else {
        assert(s.filter(f) =~= s);
    }
}

/// What passes a filter was there before.
proof fn lemma_filter_comes_from<A>(s: Seq<A>, f: spec_fn(A) -> bool, k: int) -> (j: int)
    requires
        0 <= k < s.filter(f).len(),
    ensures
        0 <= j < s.len(),
        s[j] == s.filter(f)[k],
    decreases s.len(),
{
    reveal(Seq::filter);
    let front = s.drop_last().filter(f);
    if k < front.len() {
        lemma_filter_comes_from(s.drop_last(), f, k)
    } else {
        s.len() - 1
    }
}

/// A file of a date and `n` numbers a row reads back as the rows that were written.
pub proof fn law_number_rows_read_back(header: Seq<char>, rows: Seq<Seq<Seq<char>>>, n: int)
    requires
        n >= 0,
        is_line(header),
        forall|i: int|
            0 <= i < rows.len() ==> is_writable(#[trigger] rows[i], n + 1) && rows[i].len() == n + 1
                && all_numbers(rows[i], n, false),
    ensures
        number_rows_of(rows_of(file_text(header, rows), n + 1), n, false) == rows,
{
    law_file_reads_back(header, rows, n + 1);
    let f = |r: Seq<Seq<char>>| all_numbers(r, n, false);
    lemma_filter_all(rows, f);
    let read = number_rows_of(rows, n, false);
    assert forall|i: int| 0 <= i < rows.len() implies #[trigger] read[i] == rows[i] by {
        assert(is_writable(rows[i], n + 1) && rows[i].len() == n + 1);
        assert(read[i] =~= rows[i]);
    }
    assert(read =~= rows);
}

/// Whether a pair can be an observation: the date can stand in a field and has no white
/// space around it, and the value is a number.
pub open spec fn is_observation(p: (Seq<char>, Seq<char>)) -> bool {
    is_field(p.0) && trimmed(p.0) == p.0 && is_numeral(p.1)
}

/// Each line with two fields or more is among the rows, field by field.
proof fn lemma_wide_rows_come_from(rows: Seq<Seq<char>>, n: int, k: int) -> (i: int)
    requires
        0 <= k < wide_rows(rows, n).len(),
    ensures
        0 <= i < rows.len(),
        wide_rows(rows, n)[k] == split(rows[i], ','),
    decreases rows.len(),
{
    let front = wide_rows(rows.drop_last(), n);
    if k < front.len() {
        lemma_wide_rows_come_from(rows.drop_last(), n, k)
    } else {
        rows.len() - 1
    }
}

/// All that is read from a file are observations.
pub proof fn law_observations(text: Seq<char>, dated: bool, k: int)
    requires
        0 <= k < observations(text, dated).len(),
    ensures
        is_observation(observations(text, dated)[k]),
{
    let pairs = dated_of(rows_of(text, 2));
    let f = |p: (Seq<char>, Seq<char>)| counts(p, dated);
    pairs.lemma_filter_pred(f, k);
    let p = observations(text, dated)[k];
    let j = lemma_filter_comes_from(pairs, f, k);
    lemma_wide_rows_are_wide(body(text), 2);
    let i = lemma_wide_rows_come_from(body(text), 2, j);
    let line = body(text)[i];
    lemma_lines_lack(text);
    assert(lines(text)[i + 1] == line);
    lemma_pieces_lack(line, ',', '\n');
    law_split_join(line, ',');
    let field = split(line, ',')[0];
    assert(rows_of(text, 2)[j].len() >= 2);
    assert(p.0 == trimmed(field));
    assert forall|q: int| 0 <= q < field.len() implies #[trigger] field[q] != ',' by {
        assert(split(line, ',')[0][q] != ',');
    }
    assert(lacks(field, '\n'));
    lemma_trimmed(field, ',');
    lemma_trimmed(field, '\n');
}

/// The rows of a file of pairs.
pub open spec fn pair_rows(pairs: Seq<(Seq<char>, Seq<char>)>) -> Seq<Seq<Seq<char>>> {
    pairs.map_values(|p: (Seq<char>, Seq<char>)| seq![p.0, p.1])
}

/// A file of observations reads back as the pairs that were written.
pub proof fn law_observations_read_back(header: Seq<char>, pairs: Seq<(Seq<char>, Seq<char>)>)
    requires
        is_line(header),
        forall|i: int| 0 <= i < pairs.len() ==> is_observation(#[trigger] pairs[i]),
    ensures
        observations(file_text(header, pair_rows(pairs)), false) == pairs,
{
    let rows = pair_rows(pairs);
    assert forall|i: int| 0 <= i < rows.len() implies is_writable(#[trigger] rows[i], 2) by {
        assert(is_observation(pairs[i]));
        lemma_numeral_chars(pairs[i].1);
        let v = pairs[i].1;
        assert(v[v.len() - 1] != '\r');
        assert(rows[i].last() == v);
        assert forall|j: int| 0 <= j < rows[i].len() implies is_field(#[trigger] rows[i][j]) by {}
    }
    law_file_reads_back(header, rows, 2);
    let read = dated_of(rows);
    assert forall|i: int| 0 <= i < pairs.len() implies #[trigger] read[i] == pairs[i] && counts(
        read[i],
        false,
    ) by {
        assert(is_observation(pairs[i]));
        lemma_numeral_chars(pairs[i].1);
        assert(rows[i][0] == pairs[i].0 && rows[i][1] == pairs[i].1);
    }
    assert(read =~= pairs);
    lemma_filter_all(read, |p: (Seq<char>, Seq<char>)| counts(p, false));
}

// ---- series of the library's own ----

/// The number, as text, that field `k` of a row denotes.
pub open spec fn numeral_at(row: Seq<Seq<char>>, k: int, trimming: bool) -> Option<Seq<char>> {
    if 0 <= k < row.len() && is_numeral(cell(row, k, trimming)) {
        Some(cell(row, k, trimming))
    } else {
        None
    }
}

/// The text that may be there.
pub open spec fn text_view(s: Option<String>) -> Option<Seq<char>> {
    match s {
        Some(t) => Some(t@),
        None => None,
    }
}

fn numeral_field(row: &Vec<String>, k: usize, trimming: bool) -> (r: Option<String>)
    ensures
        text_view(r) == numeral_at(views(row@), k as int, trimming),
{
    if k < row.len() {
        let c: String = if trimming { trim(row[k].as_str()) } else { row[k].clone() };
        assert(views(row@)[k as int] == row@[k as int]@);
        if denotes_number(c.as_str()) {
            return Some(c);
        }
    }
    None
}

/// A line of a skew file; numbers as text, where they are numbers.
pub struct SkewLine {
    pub date: String,
    pub iv_25p: Option<String>,
    pub iv_25c: Option<String>,
    pub iv_atm: Option<String>,
    pub skew_abs: Option<String>,
    pub skew_norm: Option<String>,
    pub ts_ratio: Option<String>,
}

/// Whether `l` is the line of a row: the date, the volatilities, the skew and its
/// normalized form, and the ratio of the term structure behind them.
pub open spec fn is_skew_line(l: SkewLine, row: Seq<Seq<char>>) -> bool {
    &&& l.date@ == row[0]
    &&& text_view(l.iv_25p) == numeral_at(row, 1, false)
    &&& text_view(l.iv_25c) == numeral_at(row, 2, false)
    &&& text_view(l.iv_atm) == numeral_at(row, 3, false)
    &&& text_view(l.skew_abs) == numeral_at(row, 4, false)
    &&& text_view(l.skew_norm) == numeral_at(row, 5, false)
    &&& text_view(l.ts_ratio) == numeral_at(row, 9, false)
}

/// The lines of a skew file that have at least `least` fields.
pub fn skew_lines(text: &str, least: usize) -> (r: Vec<SkewLine>)
    requires
        least >= 1,
    ensures
        r@.len() == rows_of(text@, least as int).len(),
        forall|i: int|
            0 <= i < r@.len() ==> is_skew_line(#[trigger] r@[i], rows_of(text@, least as int)[i]),
{
    let all: Vec<Vec<String>> = rows(text, least);
    let ghost want = rows_of(text@, least as int);
    proof {
        lemma_wide_rows_are_wide(body(text@), least as int);
    }
    assert(want.len() == all@.len());
    let mut out: Vec<SkewLine> = Vec::new();
    let mut i: usize = 0;
    while i < all.len()
        invariant
            i <= all@.len(),
            least >= 1,
            want == row_views(all@),
            forall|k: int| 0 <= k < want.len() ==> (#[trigger] want[k]).len() >= least,
            out@.len() == i,
            forall|k: int| 0 <= k < i ==> is_skew_line(#[trigger] out@[k], want[k]),
        decreases all@.len() - i,
    {
        let row: &Vec<String> = &all[i];
        assert(want[i as int] == views(row@));
        assert(want[i as int].len() >= least);
        assert(views(row@)[0] == row@[0]@);
        out.push(
            SkewLine {
                date: row[0].clone(),
                iv_25p: numeral_field(row, 1, false),
                iv_25c: numeral_field(row, 2, false),
                iv_atm: numeral_field(row, 3, false),
                skew_abs: numeral_field(row, 4, false),
                skew_norm: numeral_field(row, 5, false),
                ts_ratio: numeral_field(row, 9, false),
            },
        );
        i = i + 1;
    }
    out
}

/// The header of a gamma file.
pub open spec fn gamma_header() -> Seq<char> {
    "date,spot,call_gex_mm,put_gex_mm,net_gex_mm,net_vex_mm,gexplus_mm,total_oi"@
}

/// A row of a gamma file: the date, the spot, the exposures, and the open interest, numbers
/// as text.
pub struct GammaText {
    pub date: String,
    pub spot: String,
    pub call: String,
    pub put: String,
    pub net: String,
    pub vex: String,
    pub gexplus: String,
    pub oi: String,
}

/// The fields of a row of a gamma file.
pub open spec fn gamma_fields(g: GammaText) -> Seq<Seq<char>> {
    seq![g.date@, g.spot@, g.call@, g.put@, g.net@, g.vex@, g.gexplus@, g.oi@]
}

/// What is appended to a gamma file for a row: the header too where the file is `new`.
pub fn gamma_entry(new: bool, g: &GammaText) -> (r: String)
    ensures
        r@ == (if new {
            gamma_header().push('\n')
        } else {
            Seq::empty()
        }) + line_of(gamma_fields(*g)).push('\n'),
{
    let mut f: Vec<String> = Vec::new();
    f.push(g.date.clone());
    f.push(g.spot.clone());
    f.push(g.call.clone());
    f.push(g.put.clone());
    f.push(g.net.clone());
    f.push(g.vex.clone());
    f.push(g.gexplus.clone());
    f.push(g.oi.clone());
    assert(views(f@) =~= gamma_fields(*g));
    let mut s: String = String::new();
    if new {
        s.append("date,spot,call_gex_mm,put_gex_mm,net_gex_mm,net_vex_mm,gexplus_mm,total_oi");
        s.push('\n');
    }
    assert(s@ =~= (if new { gamma_header().push('\n') } else { Seq::empty() }));
    s.append(join(&f, ',').as_str());
    s.push('\n');
    assert(s@ =~= (if new { gamma_header().push('\n') } else { Seq::empty() }) + line_of(
        gamma_fields(*g),
    ).push('\n'));
    s
}

/// The text of a gamma file that rows were appended to, one after the other.
pub open spec fn gamma_text(rows: Seq<Seq<Seq<char>>>) -> Seq<char> {
    file_text(gamma_header(), rows)
}

/// A file grows by the line of the row that is appended, and starts with its header.
pub proof fn law_file_grows(header: Seq<char>, rows: Seq<Seq<Seq<char>>>, row: Seq<Seq<char>>)
    ensures
        file_text(header, Seq::empty()) == header.push('\n'),
        file_text(header, rows.push(row)) == file_text(header, rows) + line_of(row).push('\n'),
{
    let f = |r: Seq<Seq<char>>| line_of(r);
    let none = Seq::<Seq<Seq<char>>>::empty();
    assert(seq![header] + none.map_values(f) =~= seq![header]);
    let was = seq![header] + rows.map_values(f);
    let now = seq![header] + rows.push(row).map_values(f);
    assert(now.drop_last() =~= was);
    assert(now.last() == line_of(row));
    assert(file_text(header, rows.push(row)) =~= file_text(header, rows) + line_of(row).push('\n'));
}

/// Whether a row is one of a gamma file: a date that can stand in a field, without white
/// space around it, and seven numbers.
pub open spec fn is_gamma_row(row: Seq<Seq<char>>) -> bool {
    &&& row.len() == 8
    &&& is_field(row[0]) && trimmed(row[0]) == row[0]
    &&& forall|k: int| 1 <= k < 8 ==> is_numeral(#[trigger] row[k])
}

proof fn lemma_line_start(row: Seq<Seq<char>>)
    requires
        row.len() > 1,
    ensures
        line_of(row).len() > 0,
        line_of(row)[0] == (if row[0].len() > 0 {
            row[0][0]
        } else {
            ','
        }),
    decreases row.len(),
{
    let front = row.drop_last();
    if front.len() > 1 {
        lemma_line_start(front);
    } else {
        assert(joined(front, ',') == row[0]);
    }
}

proof fn lemma_gamma_line(row: Seq<Seq<char>>)
    requires
        is_gamma_row(row),
    ensures
        is_writable(row, 8),
        trimmed(line_of(row)) == line_of(row),
{
    let last = row[7];
    assert(is_numeral(row[7]));
    lemma_numeral_chars(last);
    assert(last[last.len() - 1] != '\r');
    assert forall|i: int| 0 <= i < row.len() implies is_field(#[trigger] row[i]) by {
        if i > 0 {
            lemma_numeral_chars(row[i]);
        }
    }
    lemma_line_start(row);
    lemma_trimmed_ends(row[0]);
    lemma_trimmed_ends(last);
    let line = line_of(row);
    assert(line.last() == last.last());
    assert(!is_white(line[0]) && !is_white(line.last()));
}

/// A gamma file reads back as the rows that were appended, and each of their numbers as
/// what it was.
pub proof fn law_gamma_reads_back(rows: Seq<Seq<Seq<char>>>, n: int)
    requires
        n <= 8,
        forall|i: int| 0 <= i < rows.len() ==> is_gamma_row(#[trigger] rows[i]),
    ensures
        trimmed_rows_of(gamma_text(rows), n) == rows,
        forall|i: int, k: int|
            0 <= i < rows.len() && 1 <= k < 8 ==> numeral_at(#[trigger] rows[i], k, true) == Some(
                #[trigger] rows[i][k],
            ),
{
    let f = |r: Seq<Seq<char>>| line_of(r);
    let made = rows.map_values(f);
    let all = seq![gamma_header()] + made;
    assert(is_line(gamma_header())) by {
        reveal_strlit("date,spot,call_gex_mm,put_gex_mm,net_gex_mm,net_vex_mm,gexplus_mm,total_oi");
    }
    assert forall|i: int| 0 <= i < all.len() implies is_line(#[trigger] all[i]) by {
        if i > 0 {
            assert(is_gamma_row(rows[i - 1]));
            lemma_gamma_line(rows[i - 1]);
            lemma_line_is_one_line(rows[i - 1], 8);
        }
    }
    law_lines_read_back(all);
    assert(all.skip(1) =~= made);
    let kept = made.map_values(|l: Seq<char>| trimmed(l));
    assert forall|i: int| 0 <= i < made.len() implies #[trigger] kept[i] == made[i] by {
        assert(is_gamma_row(rows[i]));
        lemma_gamma_line(rows[i]);
    }
    assert(kept =~= made);
    assert forall|i: int| 0 <= i < rows.len() implies is_writable(#[trigger] rows[i], n) by {
        assert(is_gamma_row(rows[i]));
        lemma_gamma_line(rows[i]);
    }
    lemma_lines_split(rows, made, n);
    assert forall|i: int, k: int| 0 <= i < rows.len() && 1 <= k < 8 implies numeral_at(
        #[trigger] rows[i],
        k,
        true,
    ) == Some(#[trigger] rows[i][k]) by {
        assert(is_gamma_row(rows[i]));
        lemma_numeral_chars(rows[i][k]);
    }
}

/// A line of a gamma file; numbers as text, where they are numbers.
pub struct GammaLine {
    pub date: String,
    pub spot: Option<String>,
    pub call: Option<String>,
    pub net: Option<String>,
    pub vex: Option<String>,
    pub gexplus: Option<String>,
}

/// Whether `l` is the line of a row: the date, the spot, the exposure of the calls and
/// of all contracts, and the exposures behind them.
pub open spec fn is_gamma_line(l: GammaLine, row: Seq<Seq<char>>) -> bool {
    &&& l.date@ == row[0]
    &&& text_view(l.spot) == numeral_at(row, 1, true)
    &&& text_view(l.call) == numeral_at(row, 2, true)
    &&& text_view(l.net) == numeral_at(row, 4, true)
    &&& text_view(l.vex) == numeral_at(row, 5, true)
    &&& text_view(l.gexplus) == numeral_at(row, 6, true)
}

/// The lines of a gamma file that have at least `least` fields.
pub fn gamma_lines(text: &str, least: usize) -> (r: Vec<GammaLine>)
    requires
        least >= 1,
    ensures
        r@.len() == trimmed_rows_of(text@, least as int).len(),
        forall|i: int|
            0 <= i < r@.len() ==> is_gamma_line(
                #[trigger] r@[i],
                trimmed_rows_of(text@, least as int)[i],
            ),
{
    let all: Vec<Vec<String>> = trimmed_rows(text, least);
    let ghost want = trimmed_rows_of(text@, least as int);
    proof {
        lemma_wide_rows_are_wide(body(text@).map_values(|l: Seq<char>| trimmed(l)), least as int);
    }
    assert(want.len() == all@.len());
    let mut out: Vec<GammaLine> = Vec::new();
    let mut i: usize = 0;
    while i < all.len()
        invariant
            i <= all@.len(),
            least >= 1,
            want == row_views(all@),
            forall|k: int| 0 <= k < want.len() ==> (#[trigger] want[k]).len() >= least,
            out@.len() == i,
            forall|k: int| 0 <= k < i ==> is_gamma_line(#[trigger] out@[k], want[k]),
        decreases all@.len() - i,
    {
        let row: &Vec<String> = &all[i];
        assert(want[i as int] == views(row@));
        assert(want[i as int].len() >= least);
        assert(views(row@)[0] == row@[0]@);
        out.push(
            GammaLine {
                date: row[0].clone(),
                spot: numeral_field(row, 1, true),
                call: numeral_field(row, 2, true),
                net: numeral_field(row, 4, true),
                vex: numeral_field(row, 5, true),
                gexplus: numeral_field(row, 6, true),
            },
        );
        i = i + 1;
    }
    out
}

// ---- what is read, line by line ----

/// The rows of some lines, with the line that each comes from.
proof fn lemma_wide_places(rows: Seq<Seq<char>>, n: int) -> (from: Seq<int>)
    ensures
        from.len() == wide_rows(rows, n).len(),
        forall|k: int| 0 <= k < from.len() ==> 0 <= #[trigger] from[k] < rows.len(),
        forall|j: int, k: int| 0 <= j < k < from.len() ==> #[trigger] from[j] < #[trigger] from[k],
        forall|k: int|
            0 <= k < from.len() ==> wide_rows(rows, n)[k] == split(rows[#[trigger] from[k]], ',') && split(
                rows[from[k]],
                ',',
            ).len() >= n,
        forall|i: int| 0 <= i < rows.len() && split(#[trigger] rows[i], ',').len() >= n ==> from.contains(i),
    decreases rows.len(),
{
    if rows.len() == 0 {
        Seq::empty()
    } else {
        let m = rows.len() as int;
        let t = rows.drop_last();
        let front = lemma_wide_places(t, n);
        let from = if split(rows.last(), ',').len() >= n {
            front.push(m - 1)
        } else {
            front
        };
        assert forall|i: int| 0 <= i < rows.len() && split(#[trigger] rows[i], ',').len() >= n implies from.contains(
            i,
        ) by {
            if i < m - 1 {
                assert(t[i] == rows[i]);
                let k = choose|k: int| 0 <= k < front.len() && front[k] == i;
                assert(from[k] == i);
            } else {
                assert(from[front.len() as int] == i);
            }
        }
        assert forall|k: int| 0 <= k < from.len() implies wide_rows(rows, n)[k] == split(
            rows[#[trigger] from[k]],
            ',',
        ) && split(rows[from[k]], ',').len() >= n by {
            if k < front.len() {
                assert(from[k] == front[k]);
                assert(wide_rows(t, n)[k] == split(t[front[k]], ','));
            }
        }
        from
    }
}

/// The rows of a file are its lines behind the first, split at their commas: those with
/// enough fields, in order, and no other.
pub proof fn law_rows_of_lines(text: Seq<char>, n: int) -> (from: Seq<int>)
    ensures
        from.len() == rows_of(text, n).len(),
        forall|k: int| 0 <= k < from.len() ==> 1 <= #[trigger] from[k] < lines(text).len(),
        forall|j: int, k: int| 0 <= j < k < from.len() ==> #[trigger] from[j] < #[trigger] from[k],
        forall|k: int|
            0 <= k < from.len() ==> rows_of(text, n)[k] == split(lines(text)[#[trigger] from[k]], ',') && split(
                lines(text)[from[k]],
                ',',
            ).len() >= n,
        forall|i: int|
            1 <= i < lines(text).len() && split(#[trigger] lines(text)[i], ',').len() >= n ==> from.contains(i),
{
    let b = body(text);
    let at = lemma_wide_places(b, n);
    let from = at.map_values(|i: int| i + 1);
    assert forall|i: int| 1 <= i < lines(text).len() && split(#[trigger] lines(text)[i], ',').len() >= n
        implies from.contains(i) by {
        assert(b[i - 1] == lines(text)[i]);
        let k = choose|k: int| 0 <= k < at.len() && at[k] == i - 1;
        assert(from[k] == i);
    }
    assert forall|k: int| 0 <= k < from.len() implies 1 <= #[trigger] from[k] < lines(text).len() && rows_of(
        text,
        n,
    )[k] == split(lines(text)[from[k]], ',') && split(lines(text)[from[k]], ',').len() >= n by {
        assert(from[k] == at[k] + 1);
        assert(b[at[k]] == lines(text)[from[k]]);
    }
    assert forall|j: int, k: int| 0 <= j < k < from.len() implies #[trigger] from[j] < #[trigger] from[k] by {
        assert(at[j] < at[k]);
    }
    from
}

/// The rows of a file whose lines are trimmed: its lines behind the first, the white space
/// around each dropped, split at their commas.
pub proof fn law_trimmed_rows_of_lines(text: Seq<char>, n: int) -> (from: Seq<int>)
    ensures
        from.len() == trimmed_rows_of(text, n).len(),
        forall|k: int| 0 <= k < from.len() ==> 1 <= #[trigger] from[k] < lines(text).len(),
        forall|j: int, k: int| 0 <= j < k < from.len() ==> #[trigger] from[j] < #[trigger] from[k],
        forall|k: int|
            0 <= k < from.len() ==> trimmed_rows_of(text, n)[k] == split(
                trimmed(lines(text)[#[trigger] from[k]]),
                ',',
            ) && split(trimmed(lines(text)[from[k]]), ',').len() >= n,
        forall|i: int|
            1 <= i < lines(text).len() && split(trimmed(#[trigger] lines(text)[i]), ',').len() >= n
                ==> from.contains(i),
{
    let b = body(text).map_values(|l: Seq<char>| trimmed(l));
    let at = lemma_wide_places(b, n);
    let from = at.map_values(|i: int| i + 1);
    assert forall|i: int|
        1 <= i < lines(text).len() && split(trimmed(#[trigger] lines(text)[i]), ',').len() >= n implies from.contains(
        i,
    ) by {
        assert(b[i - 1] == trimmed(lines(text)[i]));
        let k = choose|k: int| 0 <= k < at.len() && at[k] == i - 1;
        assert(from[k] == i);
    }
    assert forall|k: int| 0 <= k < from.len() implies 1 <= #[trigger] from[k] < lines(text).len()
        && trimmed_rows_of(text, n)[k] == split(trimmed(lines(text)[from[k]]), ',') && split(
        trimmed(lines(text)[from[k]]),
        ',',
    ).len() >= n by {
        assert(from[k] == at[k] + 1);
        assert(b[at[k]] == trimmed(lines(text)[from[k]]));
    }
    assert forall|j: int, k: int| 0 <= j < k < from.len() implies #[trigger] from[j] < #[trigger] from[k] by {
        assert(at[j] < at[k]);
    }
    from
}

/// Whether `x` is field `k` where there is one and it denotes a number, and nothing else.
pub open spec fn is_number_at(x: Option<String>, fields: Seq<Seq<char>>, k: int) -> bool {
    (x is Some <==> k < fields.len() && is_numeral(fields[k])) && (x matches Some(s) ==> s@ == fields[k])
}

/// A line of a skew file holds the date, the volatilities of put, call and at the money,
/// the skew, its normalized form, and in the tenth field the ratio of the term structure.
pub proof fn law_skew_lines(text: &str, least: usize, r: Vec<SkewLine>) -> (from: Seq<int>)
    requires
        least >= 1,
        call_ensures(skew_lines, (text, least), r),
    ensures
        from.len() == r@.len(),
        forall|k: int| 0 <= k < from.len() ==> 1 <= #[trigger] from[k] < lines(text@).len(),
        forall|j: int, k: int| 0 <= j < k < from.len() ==> #[trigger] from[j] < #[trigger] from[k],
        forall|i: int|
            1 <= i < lines(text@).len() && split(#[trigger] lines(text@)[i], ',').len() >= least
                ==> from.contains(i),
        forall|k: int|
            0 <= k < from.len() ==> split(lines(text@)[#[trigger] from[k]], ',').len() >= least
                && r@[k].date@ == split(lines(text@)[from[k]], ',')[0] && is_number_at(
                r@[k].iv_25p,
                split(lines(text@)[from[k]], ','),
                1,
            ) && is_number_at(r@[k].iv_25c, split(lines(text@)[from[k]], ','), 2) && is_number_at(
                r@[k].iv_atm,
                split(lines(text@)[from[k]], ','),
                3,
            ) && is_number_at(r@[k].skew_abs, split(lines(text@)[from[k]], ','), 4) && is_number_at(
                r@[k].skew_norm,
                split(lines(text@)[from[k]], ','),
                5,
            ) && is_number_at(r@[k].ts_ratio, split(lines(text@)[from[k]], ','), 9),
{
    let from = law_rows_of_lines(text@, least as int);
    assert forall|k: int| 0 <= k < from.len() implies is_skew_line(
        r@[k],
        split(lines(text@)[#[trigger] from[k]], ','),
    ) by {
        assert(is_skew_line(r@[k], rows_of(text@, least as int)[k]));
    }
    from
}

/// Whether `x` is field `k`, the white space around it dropped, where there is one and it
/// denotes a number, and nothing else.
pub open spec fn is_number_within(x: Option<String>, fields: Seq<Seq<char>>, k: int) -> bool {
    (x is Some <==> k < fields.len() && is_numeral(trimmed(fields[k]))) && (x matches Some(s) ==> s@ == trimmed(
        fields[k],
    ))
}

/// A line of a gamma file holds the date, the spot, the exposure of the calls, in the fifth
/// field that of all contracts, and behind it the exposure to volatility and the sum.
pub proof fn law_gamma_lines(text: &str, least: usize, r: Vec<GammaLine>) -> (from: Seq<int>)
    requires
        least >= 1,
        call_ensures(gamma_lines, (text, least), r),
    ensures
        from.len() == r@.len(),
        forall|k: int| 0 <= k < from.len() ==> 1 <= #[trigger] from[k] < lines(text@).len(),
        forall|j: int, k: int| 0 <= j < k < from.len() ==> #[trigger] from[j] < #[trigger] from[k],
        forall|i: int|
            1 <= i < lines(text@).len() && split(trimmed(#[trigger] lines(text@)[i]), ',').len() >= least
                ==> from.contains(i),
        forall|k: int|
            0 <= k < from.len() ==> r@[k].date@ == split(trimmed(lines(text@)[#[trigger] from[k]]), ',')[0]
                && is_number_within(r@[k].spot, split(trimmed(lines(text@)[from[k]]), ','), 1)
                && is_number_within(r@[k].call, split(trimmed(lines(text@)[from[k]]), ','), 2)
                && is_number_within(r@[k].net, split(trimmed(lines(text@)[from[k]]), ','), 4)
                && is_number_within(r@[k].vex, split(trimmed(lines(text@)[from[k]]), ','), 5)
                && is_number_within(r@[k].gexplus, split(trimmed(lines(text@)[from[k]]), ','), 6),
{
    let from = law_trimmed_rows_of_lines(text@, least as int);
    assert forall|k: int| 0 <= k < from.len() implies is_gamma_line(
        r@[k],
        split(trimmed(lines(text@)[#[trigger] from[k]]), ','),
    ) by {
        assert(is_gamma_line(r@[k], trimmed_rows_of(text@, least as int)[k]));
    }
    from
}

/// What is appended for a row is one line: date, spot, exposure of the calls, of the puts,
/// of all contracts, to volatility, their sum, and the open interest. The header, which
/// names them in that order, comes first where the file is new.
pub proof fn law_gamma_entry(new: bool, g: GammaText, r: String)
    requires
        call_ensures(gamma_entry, (new, &g), r),
    ensures
        r@ == (if new {
            "date,spot,call_gex_mm,put_gex_mm,net_gex_mm,net_vex_mm,gexplus_mm,total_oi"@.push('\n')
        } else {
            Seq::empty()
        }) + joined(seq![g.date@, g.spot@, g.call@, g.put@, g.net@, g.vex@, g.gexplus@, g.oi@], ',').push('\n'),
{
    assert(gamma_fields(g) =~= seq![g.date@, g.spot@, g.call@, g.put@, g.net@, g.vex@, g.gexplus@, g.oi@]);
}

/// A row of numbers that starts a gamma file is read back from it by name.
pub proof fn law_gamma_entry_reads_back(g: GammaText, written: String, text: &str, least: usize, r: Vec<GammaLine>)
    requires
        call_ensures(gamma_entry, (true, &g), written),
        text@ == written@,
        1 <= least <= 8,
        call_ensures(gamma_lines, (text, least), r),
        is_field(g.date@) && trimmed(g.date@) == g.date@,
        is_numeral(g.spot@) && is_numeral(g.call@) && is_numeral(g.put@) && is_numeral(g.net@),
        is_numeral(g.vex@) && is_numeral(g.gexplus@) && is_numeral(g.oi@),
    ensures
        r@.len() == 1,
        r@[0].date@ == g.date@,
        r@[0].spot matches Some(s) && s@ == g.spot@,
        r@[0].call matches Some(s) && s@ == g.call@,
        r@[0].net matches Some(s) && s@ == g.net@,
        r@[0].vex matches Some(s) && s@ == g.vex@,
        r@[0].gexplus matches Some(s) && s@ == g.gexplus@,
{
    let row = gamma_fields(g);
    let none = Seq::<Seq<Seq<char>>>::empty();
    let rows = none.push(row);
    law_file_grows(gamma_header(), none, row);
    assert forall|i: int| 0 <= i < rows.len() implies is_gamma_row(#[trigger] rows[i]) by {
        assert forall|k: int| 1 <= k < 8 implies is_numeral(#[trigger] rows[i][k]) by {
            assert(k == 1 || k == 2 || k == 3 || k == 4 || k == 5 || k == 6 || k == 7);
        }
    }
    law_gamma_reads_back(rows, least as int);
    assert(text@ == gamma_text(rows));
    assert(trimmed_rows_of(text@, least as int)[0] == row);
    assert(is_gamma_line(r@[0], row));
    assert(numeral_at(rows[0], 1, true) == Some(rows[0][1]));
    assert(numeral_at(rows[0], 2, true) == Some(rows[0][2]));
    assert(numeral_at(rows[0], 4, true) == Some(rows[0][4]));
    assert(numeral_at(rows[0], 5, true) == Some(rows[0][5]));
    assert(numeral_at(rows[0], 6, true) == Some(rows[0][6]));
}

/// The observations of a file come from its lines, in order: the first field and the
/// second, white space around both dropped. A line is one exactly where the second denotes
/// a number and, where dates are asked for, the first is not empty.
pub proof fn law_observations_of_lines(text: Seq<char>, dated: bool) -> (from: Seq<int>)
    ensures
        from.len() == observations(text, dated).len(),
        forall|k: int| 0 <= k < from.len() ==> 1 <= #[trigger] from[k] < lines(text).len(),
        forall|j: int, k: int| 0 <= j < k < from.len() ==> #[trigger] from[j] < #[trigger] from[k],
        forall|k: int|
            0 <= k < from.len() ==> split(lines(text)[#[trigger] from[k]], ',').len() >= 2
                && observations(text, dated)[k].0 == trimmed(split(lines(text)[from[k]], ',')[0]) && observations(text, dated)[k].1 == trimmed(
                split(lines(text)[from[k]], ',')[1],
            ),
        forall|i: int|
            1 <= i < lines(text).len() ==> (from.contains(i) <==> split(#[trigger] lines(text)[i], ',').len() >= 2
                && is_numeral(trimmed(split(lines(text)[i], ',')[1])) && (dated ==> trimmed(
                split(lines(text)[i], ',')[0],
            ).len() > 0)),
{
    let at = law_rows_of_lines(text, 2);
    let rows = rows_of(text, 2);
    let pairs = dated_of(rows);
    let f = |p: (Seq<char>, Seq<char>)| counts(p, dated);
    let kept = lemma_filter_places(pairs, f);
    let from = kept.map_values(|i: int| at[i]);
    let pv = observations(text, dated);
    assert forall|k: int| 0 <= k < from.len() implies 1 <= #[trigger] from[k] < lines(text).len() && split(
        lines(text)[from[k]],
        ',',
    ).len() >= 2 && pv[k].0 == trimmed(split(lines(text)[from[k]], ',')[0]) && pv[k].1 == trimmed(
        split(lines(text)[from[k]], ',')[1],
    ) && counts(pairs[kept[k]], dated) by {
        assert(from[k] == at[kept[k]]);
        assert(pv[k] == pairs[kept[k]]);
        assert(f(pairs[kept[k]]));
        assert(rows[kept[k]] == split(lines(text)[at[kept[k]]], ','));
    }
    assert forall|j: int, k: int| 0 <= j < k < from.len() implies #[trigger] from[j] < #[trigger] from[k] by {
        assert(kept[j] < kept[k]);
        assert(at[kept[j]] < at[kept[k]]);
    }
    assert forall|i: int| 1 <= i < lines(text).len() implies (from.contains(i) <==> split(
        #[trigger] lines(text)[i],
        ',',
    ).len() >= 2 && is_numeral(trimmed(split(lines(text)[i], ',')[1])) && (dated ==> trimmed(
        split(lines(text)[i], ',')[0],
    ).len() > 0)) by {
        if from.contains(i) {
            let k = choose|k: int| 0 <= k < from.len() && from[k] == i;
            assert(from[k] == at[kept[k]]);
            assert(counts(pairs[kept[k]], dated));
            assert(rows[kept[k]] == split(lines(text)[at[kept[k]]], ','));
        }
        if split(lines(text)[i], ',').len() >= 2 && is_numeral(trimmed(split(lines(text)[i], ',')[1])) && (
        dated ==> trimmed(split(lines(text)[i], ',')[0]).len() > 0) {
            let j = choose|j: int| 0 <= j < at.len() && at[j] == i;
            assert(rows[j] == split(lines(text)[at[j]], ','));
            assert(f(pairs[j]));
            let k = choose|k: int| 0 <= k < kept.len() && kept[k] == j;
            assert(from[k] == i);
        }
    }
    from
}

/// The observations that are read from a file, line by line.
pub proof fn law_observed_values(text: &str, dated: bool, r: Vec<(String, String)>) -> (from: Seq<int>)
    requires
        call_ensures(observed_values, (text, dated), r),
    ensures
        from.len() == r@.len(),
        forall|k: int| 0 <= k < from.len() ==> 1 <= #[trigger] from[k] < lines(text@).len(),
        forall|j: int, k: int| 0 <= j < k < from.len() ==> #[trigger] from[j] < #[trigger] from[k],
        forall|k: int|
            0 <= k < from.len() ==> r@[k].0@ == trimmed(split(lines(text@)[#[trigger] from[k]], ',')[0])
                && r@[k].1@ == trimmed(split(lines(text@)[from[k]], ',')[1]),
        forall|i: int|
            1 <= i < lines(text@).len() ==> (from.contains(i) <==> split(#[trigger] lines(text@)[i], ',').len() >= 2
                && is_numeral(trimmed(split(lines(text@)[i], ',')[1])) && (dated ==> trimmed(
                split(lines(text@)[i], ',')[0],
            ).len() > 0)),
{
    let from = law_observations_of_lines(text@, dated);
    let pv = pair_views(r@);
    assert(pv.len() == r@.len());
    assert forall|k: int| 0 <= k < from.len() implies r@[k].0@ == trimmed(
        split(lines(text@)[#[trigger] from[k]], ',')[0],
    ) && r@[k].1@ == trimmed(split(lines(text@)[from[k]], ',')[1]) by {
        assert(pv[k] == (r@[k].0@, r@[k].1@));
    }
    from
}

/// The rows of numbers of a file come from its lines, in order: field by field the date and
/// the numbers that follow it. A line is one exactly where it has enough fields and those
/// behind the first denote numbers.
pub proof fn law_number_rows(text: &str, n: usize, r: Vec<Vec<String>>) -> (from: Seq<int>)
    requires
        n < usize::MAX,
        call_ensures(number_rows, (text, n, false), r),
    ensures
        from.len() == r@.len(),
        forall|k: int| 0 <= k < from.len() ==> 1 <= #[trigger] from[k] < lines(text@).len(),
        forall|j: int, k: int| 0 <= j < k < from.len() ==> #[trigger] from[j] < #[trigger] from[k],
        forall|k: int|
            0 <= k < from.len() ==> views(r@[k]@) == split(lines(text@)[#[trigger] from[k]], ',').take(n + 1)
                && split(lines(text@)[from[k]], ',').len() >= n + 1,
        forall|i: int|
            1 <= i < lines(text@).len() ==> (from.contains(i) <==> split(#[trigger] lines(text@)[i], ',').len() >= n
                + 1 && are_numbers(split(lines(text@)[i], ','), n as int)),
{
    let at = law_rows_of_lines(text@, n + 1);
    let rows = rows_of(text@, n + 1);
    let f = |r: Seq<Seq<char>>| all_numbers(r, n as int, false);
    let kept = lemma_filter_places(rows, f);
    let from = kept.map_values(|i: int| at[i]);
    let rv = row_views(r@);
    let want = number_rows_of(rows, n as int, false);
    assert(rv == want);
    assert(rv.len() == r@.len());
    assert forall|k: int| 0 <= k < from.len() implies 1 <= #[trigger] from[k] < lines(text@).len() && views(
        r@[k]@,
    ) == split(lines(text@)[from[k]], ',').take(n + 1) && split(lines(text@)[from[k]], ',').len() >= n + 1 by {
        assert(from[k] == at[kept[k]]);
        assert(rv[k] == views(r@[k]@));
        let row = rows[kept[k]];
        assert(row == split(lines(text@)[at[kept[k]]], ','));
        assert(want[k] =~= row.take(n + 1));
    }
    assert forall|j: int, k: int| 0 <= j < k < from.len() implies #[trigger] from[j] < #[trigger] from[k] by {
        assert(kept[j] < kept[k]);
        assert(at[kept[j]] < at[kept[k]]);
    }
    assert forall|i: int| 1 <= i < lines(text@).len() implies (from.contains(i) <==> split(
        #[trigger] lines(text@)[i],
        ',',
    ).len() >= n + 1 && are_numbers(split(lines(text@)[i], ','), n as int)) by {
        let row = split(lines(text@)[i], ',');
        lemma_are_numbers(row, n as int);
        if from.contains(i) {
            let k = choose|k: int| 0 <= k < from.len() && from[k] == i;
            assert(from[k] == at[kept[k]]);
            assert(f(rows[kept[k]]));
            assert(rows[kept[k]] == split(lines(text@)[at[kept[k]]], ','));
        }
        if row.len() >= n + 1 && are_numbers(row, n as int) {
            let j = choose|j: int| 0 <= j < at.len() && at[j] == i;
            assert(rows[j] == split(lines(text@)[at[j]], ','));
            assert(f(rows[j]));
            let k = choose|k: int| 0 <= k < kept.len() && kept[k] == j;
            assert(from[k] == i);
        }
    }
    from
}

/// Whether the `n` fields behind the first all denote numbers.
pub open spec fn are_numbers(fields: Seq<Seq<char>>, n: int) -> bool {
    forall|k: int| 1 <= k <= n ==> is_numeral(#[trigger] fields[k])
}

proof fn lemma_are_numbers(row: Seq<Seq<char>>, n: int)
    ensures
        are_numbers(row, n) <==> all_numbers(row, n, false),
{
    if are_numbers(row, n) {
        assert forall|k: int| 1 <= k <= n implies is_numeral(#[trigger] cell(row, k, false)) by {
            assert(is_numeral(row[k]));
        }
    }
    if all_numbers(row, n, false) {
        assert forall|k: int| 1 <= k <= n implies is_numeral(#[trigger] row[k]) by {
            assert(is_numeral(cell(row, k, false)));
        }
    }
}

proof fn lemma_signals(rows: Seq<Seq<Seq<char>>>, i: int)
    requires
        0 <= i < rows.len(),
        forall|j: int| i < j < rows.len() ==> (#[trigger] rows[j])[0] != rows[i][0],
    ensures
        signals_of(rows).contains_key(rows[i][0]),
        signals_of(rows)[rows[i][0]] == flags_of(rows[i]),
    decreases rows.len(),
{
    let t = rows.drop_last();
    if i < t.len() {
        assert forall|j: int| i < j < t.len() implies (#[trigger] t[j])[0] != t[i][0] by {
            assert(t[j] == rows[j]);
        }
        lemma_signals(t, i);
        assert(rows[rows.len() - 1][0] != rows[i][0]);
    }
}

/// The signals of a date are those of the last line that starts with it: a top where the
/// second field is a lone `1`, a bottom where the third is, white space dropped.
pub proof fn law_signals(text: &str, r: Table<(bool, bool)>, i: int)
    requires
        call_ensures(signals, (text,), r),
        1 <= i < lines(text@).len(),
        split(lines(text@)[i], ',').len() >= 3,
        forall|j: int|
            i < j < lines(text@).len() && split(#[trigger] lines(text@)[j], ',').len() >= 3 ==> split(
                lines(text@)[j],
                ',',
            )[0] != split(lines(text@)[i], ',')[0],
    ensures
        r@.contains_key(split(lines(text@)[i], ',')[0]),
        r@[split(lines(text@)[i], ',')[0]].0 <==> trimmed(split(lines(text@)[i], ',')[1]) == seq!['1'],
        r@[split(lines(text@)[i], ',')[0]].1 <==> trimmed(split(lines(text@)[i], ',')[2]) == seq!['1'],
{
    let at = law_rows_of_lines(text@, 3);
    let rows = rows_of(text@, 3);
    let k = choose|k: int| 0 <= k < at.len() && at[k] == i;
    assert(rows[k] == split(lines(text@)[at[k]], ','));
    assert forall|j: int| k < j < rows.len() implies (#[trigger] rows[j])[0] != rows[k][0] by {
        assert(at[k] < at[j]);
        assert(rows[j] == split(lines(text@)[at[j]], ','));
    }
    lemma_signals(rows, k);
}

proof fn lemma_signals_come_from(rows: Seq<Seq<Seq<char>>>, key: Seq<char>)
    requires
        signals_of(rows).contains_key(key),
    ensures
        exists|i: int| 0 <= i < rows.len() && (#[trigger] rows[i])[0] == key,
    decreases rows.len(),
{
    if rows.len() > 0 {
        let t = rows.drop_last();
        if rows.last()[0] == key {
            assert(rows[rows.len() - 1][0] == key);
        } else {
            lemma_signals_come_from(t, key);
            let i = choose|i: int| 0 <= i < t.len() && (#[trigger] t[i])[0] == key;
            assert(rows[i][0] == key);
        }
    }
}

/// Only dates that start a line have signals.
pub proof fn law_no_other_signals(text: &str, r: Table<(bool, bool)>, key: Seq<char>)
    requires
        call_ensures(signals, (text,), r),
        forall|i: int| 1 <= i < lines(text@).len() ==> split(#[trigger] lines(text@)[i], ',')[0] != key,
    ensures
        !r@.contains_key(key),
{
    let at = law_rows_of_lines(text@, 3);
    let rows = rows_of(text@, 3);
    if r@.contains_key(key) {
        lemma_signals_come_from(rows, key);
        let k = choose|k: int| 0 <= k < rows.len() && (#[trigger] rows[k])[0] == key;
        assert(rows[k] == split(lines(text@)[at[k]], ','));
    }
}

/// A file starts with the line of its header.
pub proof fn law_file_starts(header: Seq<char>, rows: Seq<Seq<Seq<char>>>)
    ensures
        file_text(header, rows).len() >= header.len() + 1,
        file_text(header, rows).take(header.len() as int + 1) == header.push('\n'),
    decreases rows.len(),
{
    let n = header.len() as int + 1;
    if rows.len() == 0 {
        assert(rows =~= Seq::empty());
        law_file_grows(header, rows, Seq::empty());
        assert(file_text(header, rows).take(n) =~= header.push('\n'));
    } else {
        let front = rows.drop_last();
        law_file_starts(header, front);
        law_file_grows(header, front, rows.last());
        assert(front.push(rows.last()) =~= rows);
        assert(file_text(header, rows).take(n) =~= file_text(header, front).take(n));
    }
}

/// The same of a file whose lines and fields are trimmed.
pub proof fn law_trimmed_number_rows(text: &str, n: usize, r: Vec<Vec<String>>) -> (from: Seq<int>)
    requires
        n < usize::MAX,
        call_ensures(number_rows, (text, n, true), r),
    ensures
        from.len() == r@.len(),
        forall|k: int| 0 <= k < from.len() ==> 1 <= #[trigger] from[k] < lines(text@).len(),
        forall|j: int, k: int| 0 <= j < k < from.len() ==> #[trigger] from[j] < #[trigger] from[k],
        forall|k: int|
            0 <= k < from.len() ==> views(r@[k]@) == trimmed_fields(split(trimmed(lines(text@)[#[trigger] from[k]]), ',').take(n + 1))
                && split(trimmed(lines(text@)[from[k]]), ',').len() >= n + 1,
        forall|i: int|
            1 <= i < lines(text@).len() ==> (from.contains(i) <==> split(trimmed(#[trigger] lines(text@)[i]), ',').len() >= n
                + 1 && are_numbers(trimmed_fields(split(trimmed(lines(text@)[i]), ',')), n as int)),
{
    let at = law_trimmed_rows_of_lines(text@, n + 1);
    let rows = trimmed_rows_of(text@, n + 1);
    let f = |r: Seq<Seq<char>>| all_numbers(r, n as int, true);
    let kept = lemma_filter_places(rows, f);
    let from = kept.map_values(|i: int| at[i]);
    let rv = row_views(r@);
    let want = number_rows_of(rows, n as int, true);
    assert(rv == want);
    assert(rv.len() == r@.len());
    assert forall|k: int| 0 <= k < from.len() implies 1 <= #[trigger] from[k] < lines(text@).len() && views(
        r@[k]@,
    ) == trimmed_fields(split(trimmed(lines(text@)[from[k]]), ',').take(n + 1)) && split(trimmed(lines(text@)[from[k]]), ',').len() >= n + 1 by {
        assert(from[k] == at[kept[k]]);
        assert(rv[k] == views(r@[k]@));
        let row = rows[kept[k]];
        assert(row == split(trimmed(lines(text@)[at[kept[k]]]), ','));
        assert(want[k] =~= trimmed_fields(row.take(n + 1)));
    }
    assert forall|j: int, k: int| 0 <= j < k < from.len() implies #[trigger] from[j] < #[trigger] from[k] by {
        assert(kept[j] < kept[k]);
        assert(at[kept[j]] < at[kept[k]]);
    }
    assert forall|i: int| 1 <= i < lines(text@).len() implies (from.contains(i) <==> split(
        trimmed(#[trigger] lines(text@)[i]),
        ',',
    ).len() >= n + 1 && are_numbers(trimmed_fields(split(trimmed(lines(text@)[i]), ',')), n as int)) by {
        let row = split(trimmed(lines(text@)[i]), ',');
        lemma_are_trimmed_numbers(row, n as int);
        if from.contains(i) {
            let k = choose|k: int| 0 <= k < from.len() && from[k] == i;
            assert(from[k] == at[kept[k]]);
            assert(f(rows[kept[k]]));
            assert(rows[kept[k]] == split(trimmed(lines(text@)[at[kept[k]]]), ','));
        }
        if row.len() >= n + 1 && are_numbers(trimmed_fields(row), n as int) {
            let j = choose|j: int| 0 <= j < at.len() && at[j] == i;
            assert(rows[j] == split(trimmed(lines(text@)[at[j]]), ','));
            assert(f(rows[j]));
            let k = choose|k: int| 0 <= k < kept.len() && kept[k] == j;
            assert(from[k] == i);
        }
    }
    from
}

/// The fields, white space around each dropped.
pub open spec fn trimmed_fields(fields: Seq<Seq<char>>) -> Seq<Seq<char>> {
    fields.map_values(|f: Seq<char>| trimmed(f))
}

proof fn lemma_are_trimmed_numbers(row: Seq<Seq<char>>, n: int)
    ensures
        row.len() >= n + 1 ==> (are_numbers(trimmed_fields(row), n) <==> all_numbers(row, n, true)),
{
    let t = trimmed_fields(row);
    if row.len() >= n + 1 && are_numbers(t, n) {
        assert forall|k: int| 1 <= k <= n implies is_numeral(#[trigger] cell(row, k, true)) by {
            assert(is_numeral(t[k]));
        }
    }
    if row.len() >= n + 1 && all_numbers(row, n, true) {
        assert forall|k: int| 1 <= k <= n implies is_numeral(#[trigger] t[k]) by {
            assert(is_numeral(cell(row, k, true)));
        }
    }
}

} // verus!

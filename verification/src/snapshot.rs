//! Stored option snapshots: what their lines hold, and which contracts each measure
//! looks at.
//!
//! A snapshot starts with a line `# spot,` and the spot, then a header line that starts
//! with `strike`, then one line per contract: strike, days to expiry, `C` or `P`, open
//! interest, gamma, delta, volatility, and more.

use crate::csv::{is_field, is_writable, lemma_line_is_one_line, line_of, text_view};
use crate::group::{group_by_key, is_group, is_grouping, law_group_holds_its_key, Group};
use crate::num::{Num, INFINITE, ZERO};
use crate::numeral::{denotes_number, is_numeral, lemma_numeral_chars, unsigned};
use crate::order::{comes_first, is_candidate, nearest};
use crate::pick::{law_pick, lemma_filter_places, pick};
use crate::text::{
    after_prefix, ascii_lower, begins, is_line, join, joined, lacks, law_join_split,
    law_lines_read_back, lemma_split_across, lemma_split_nonempty, lemma_split_plain, lines,
    lines_of, same, same_ignoring_case, same_no_case, split, split_on, starts_with, views,
};
use vstd::prelude::*;

verus! {

// ---- lines ----

/// One contract of a snapshot; numbers as text, where they are numbers.
pub struct SnapRow {
    /// Whether the line begins with `#`.
    pub commented: bool,
    pub strike: Option<String>,
    pub dte: Option<String>,
    pub cp: String,
    pub oi: Option<String>,
    pub gamma: Option<String>,
    pub delta: Option<String>,
    pub iv: Option<String>,
}

/// A snapshot: the spot, as text, and the contracts.
pub struct Snapshot {
    pub spot: Option<String>,
    pub rows: Vec<SnapRow>,
}

/// The number, as text, that a field denotes.
pub open spec fn numeral_of(field: Seq<char>) -> Option<Seq<char>> {
    if is_numeral(field) {
        Some(field)
    } else {
        None
    }
}

/// The spot that the first `n` lines give: that of the last line which names it.
pub open spec fn spot_in(all: Seq<Seq<char>>, n: int) -> Option<Seq<char>>
    decreases n,
{
    if n <= 0 {
        None
    } else if begins(all[n - 1], "# spot,"@) {
        numeral_of(split(all[n - 1].skip("# spot,"@.len() as int), ',')[0])
    } else {
        spot_in(all, n - 1)
    }
}

/// Whether a line is that of a contract: neither the spot nor the header, and with at
/// least seven fields.
pub open spec fn is_contract_line(line: Seq<char>) -> bool {
    !begins(line, "# spot,"@) && !begins(line, "strike"@) && split(line, ',').len() >= 7
}

/// The lines of contracts among the first `n`.
pub open spec fn contract_lines(all: Seq<Seq<char>>, n: int) -> Seq<Seq<char>>
    decreases n,
{
    if n <= 0 {
        Seq::empty()
    } else if is_contract_line(all[n - 1]) {
        contract_lines(all, n - 1).push(all[n - 1])
    } else {
        contract_lines(all, n - 1)
    }
}

/// Whether `row` is the contract of a line.
pub open spec fn is_row_of(row: SnapRow, line: Seq<char>) -> bool {
    let f = split(line, ',');
    &&& row.commented == begins(line, "#"@)
    &&& text_view(row.strike) == numeral_of(f[0])
    &&& text_view(row.dte) == numeral_of(f[1])
    &&& row.cp@ == f[2]
    &&& text_view(row.oi) == numeral_of(f[3])
    &&& text_view(row.gamma) == numeral_of(f[4])
    &&& text_view(row.delta) == numeral_of(f[5])
    &&& text_view(row.iv) == numeral_of(f[6])
}

fn numeral(field: &String) -> (r: Option<String>)
    ensures
        text_view(r) == numeral_of(field@),
{
    if denotes_number(field.as_str()) {
        Some(field.clone())
    } else {
        None
    }
}

/// The spot and the contracts that the text of a snapshot holds.
pub fn read_snapshot(text: &str) -> (r: Snapshot)
    ensures
        text_view(r.spot) == spot_in(lines(text@), lines(text@).len() as int),
        r.rows@.len() == contract_lines(lines(text@), lines(text@).len() as int).len(),
        forall|i: int|
            0 <= i < r.rows@.len() ==> is_row_of(
                #[trigger] r.rows@[i],
                contract_lines(lines(text@), lines(text@).len() as int)[i],
            ),
{
    let all: Vec<String> = lines_of(text);
    let ghost ls = lines(text@);
    assert(ls.len() == all@.len());
    let mut spot: Option<String> = None;
    let mut rows: Vec<SnapRow> = Vec::new();
    let mut i: usize = 0;
    while i < all.len()
        invariant
            i <= all@.len(),
            ls == views(all@),
            text_view(spot) == spot_in(ls, i as int),
            rows@.len() == contract_lines(ls, i as int).len(),
            forall|k: int|
                0 <= k < rows@.len() ==> is_row_of(#[trigger] rows@[k], contract_lines(ls, i as int)[k]),
        decreases all@.len() - i,
    {
        let line: &str = all[i].as_str();
        assert(ls[i as int] == line@);
        let ghost was = rows@;
        match after_prefix(line, "# spot,") {
            Some(rest) => {
                let f: Vec<String> = split_on(rest.as_str(), ',');
                assert(views(f@)[0] == f@[0]@);
                spot = numeral(&f[0]);
            },
            None => {
                if !starts_with(line, "strike") {
                    let f: Vec<String> = split_on(line, ',');
                    let ghost fv = views(f@);
                    if f.len() >= 7 {
                        assert(fv[0] == f@[0]@ && fv[1] == f@[1]@ && fv[2] == f@[2]@ && fv[3] == f@[3]@);
                        assert(fv[4] == f@[4]@ && fv[5] == f@[5]@ && fv[6] == f@[6]@);
                        let row: SnapRow = SnapRow {
                            commented: starts_with(line, "#"),
                            strike: numeral(&f[0]),
                            dte: numeral(&f[1]),
                            cp: f[2].clone(),
                            oi: numeral(&f[3]),
                            gamma: numeral(&f[4]),
                            delta: numeral(&f[5]),
                            iv: numeral(&f[6]),
                        };
                        assert(is_row_of(row, line@));
                        rows.push(row);
                    }
                }
            },
        }
        assert forall|k: int| 0 <= k < rows@.len() implies is_row_of(
            #[trigger] rows@[k],
            contract_lines(ls, i + 1)[k],
        ) by {
            if k < was.len() {
                assert(rows@[k] == was[k]);
            }
        }
        i = i + 1;
    }
    Snapshot { spot, rows }
}

// ---- writing ----

/// The fields of a contract, as text.
pub struct ContractText {
    pub strike: String,
    pub dte: String,
    pub is_call: bool,
    pub oi: String,
    pub gamma: String,
    pub delta: String,
    pub iv: String,
    pub bid: String,
    pub ask: String,
}

/// The fields of the line of a contract.
pub open spec fn contract_fields(c: ContractText) -> Seq<Seq<char>> {
    seq![
        c.strike@,
        c.dte@,
        if c.is_call { "C"@ } else { "P"@ },
        c.oi@,
        c.gamma@,
        c.delta@,
        c.iv@,
        c.bid@,
        c.ask@,
    ]
}

/// The first line of a snapshot.
pub open spec fn spot_line(spot: Seq<char>, timestamp: Seq<char>) -> Seq<char> {
    "# spot,"@ + spot + ",ts,"@ + timestamp
}

/// The fields of contracts.
pub open spec fn fields_of(contracts: Seq<ContractText>) -> Seq<Seq<Seq<char>>> {
    contracts.map_values(|c: ContractText| contract_fields(c))
}

/// The lines of a snapshot.
pub open spec fn snapshot_lines(spot: Seq<char>, timestamp: Seq<char>, rows: Seq<Seq<Seq<char>>>) -> Seq<
    Seq<char>,
> {
    seq![spot_line(spot, timestamp), "strike,dte,cp,oi,gamma,delta,iv,bid,ask"@] + rows.map_values(
        |r: Seq<Seq<char>>| line_of(r),
    )
}

/// The text of a snapshot.
pub open spec fn snapshot_text(spot: Seq<char>, timestamp: Seq<char>, rows: Seq<Seq<Seq<char>>>) -> Seq<char> {
    joined(snapshot_lines(spot, timestamp, rows), '\n').push('\n')
}

fn contract_row(c: &ContractText) -> (r: Vec<String>)
    ensures
        views(r@) == contract_fields(*c),
{
    let mut f: Vec<String> = Vec::new();
    f.push(c.strike.clone());
    f.push(c.dte.clone());
    f.push(if c.is_call { "C".to_string() } else { "P".to_string() });
    f.push(c.oi.clone());
    f.push(c.gamma.clone());
    f.push(c.delta.clone());
    f.push(c.iv.clone());
    f.push(c.bid.clone());
    f.push(c.ask.clone());
    assert(views(f@) =~= contract_fields(*c));
    f
}

/// The text of a snapshot of contracts.
pub fn write_snapshot(spot: &str, timestamp: &str, contracts: &Vec<ContractText>) -> (r: String)
    ensures
        r@ == snapshot_text(spot@, timestamp@, fields_of(contracts@)),
{
    let ghost want = snapshot_lines(spot@, timestamp@, fields_of(contracts@));
    let mut first: String = "# spot,".to_string();
    first.append(spot);
    first.append(",ts,");
    first.append(timestamp);
    assert(first@ =~= spot_line(spot@, timestamp@));
    let mut ls: Vec<String> = Vec::new();
    ls.push(first);
    ls.push("strike,dte,cp,oi,gamma,delta,iv,bid,ask".to_string());
    assert(views(ls@) =~= want.take(2));
    let mut i: usize = 0;
    while i < contracts.len()
        invariant
            i <= contracts@.len(),
            want == snapshot_lines(spot@, timestamp@, fields_of(contracts@)),
            views(ls@) == want.take(i + 2),
        decreases contracts@.len() - i,
    {
        let ghost was = ls@;
        let l: String = join(&contract_row(&contracts[i]), ',');
        ls.push(l);
        assert(views(ls@) =~= views(was).push(l@));
        assert(fields_of(contracts@)[i as int] == contract_fields(contracts@[i as int]));
        assert(want[i + 2] == l@);
        assert(views(ls@) =~= want.take(i + 3));
        i = i + 1;
    }
    assert(want.take(2 + contracts@.len() as int) =~= want);
    let mut s: String = join(&ls, '\n');
    s.push('\n');
    s
}

/// Whether a row is that of a contract: seven fields or more, the first a number, and
/// each can stand in a field.
pub open spec fn is_contract_row(row: Seq<Seq<char>>) -> bool {
    is_writable(row, 7) && is_numeral(row[0])
}

proof fn lemma_numeral_start(s: Seq<char>)
    requires
        is_numeral(s),
    ensures
        s.len() > 0,
        s[0] != '#',
        s[0] != 's',
{
    if s.len() == 0 {
        assert(unsigned(s) == s);
    } else {
        let u = unsigned(s);
        if u == s {
            assert(s.skip(0) =~= s);
        }
    }
}

proof fn lemma_first_of_line(row: Seq<Seq<char>>)
    requires
        row.len() > 0,
        row[0].len() > 0,
    ensures
        line_of(row).len() > 0,
        line_of(row)[0] == row[0][0],
    decreases row.len(),
{
    if row.len() > 1 {
        lemma_first_of_line(row.drop_last());
    }
}

proof fn lemma_row_is_contract_line(row: Seq<Seq<char>>)
    requires
        is_contract_row(row),
    ensures
        is_contract_line(line_of(row)),
        split(line_of(row), ',') == row,
        is_line(line_of(row)),
{
    lemma_numeral_start(row[0]);
    lemma_first_of_line(row);
    lemma_line_is_one_line(row, 7);
    assert forall|i: int| 0 <= i < row.len() implies lacks(#[trigger] row[i], ',') by {
        assert(is_field(row[i]));
    }
    law_join_split(row, ',');
    reveal_strlit("# spot,");
    reveal_strlit("strike");
    let line = line_of(row);
    if begins(line, "# spot,"@) {
        assert(line.take(7)[0] == '#');
    }
    if begins(line, "strike"@) {
        assert(line.take(6)[0] == 's');
    }
}

proof fn lemma_lines_of_contracts(all: Seq<Seq<char>>, rows: Seq<Seq<Seq<char>>>, n: int)
    requires
        2 <= n <= all.len(),
        all.len() == rows.len() + 2,
        begins(all[0], "# spot,"@),
        begins(all[1], "strike"@),
        !begins(all[1], "# spot,"@),
        forall|i: int| 0 <= i < rows.len() ==> is_contract_row(#[trigger] rows[i]),
        forall|i: int| 0 <= i < rows.len() ==> #[trigger] all[i + 2] == line_of(rows[i]),
    ensures
        contract_lines(all, n) == rows.take(n - 2).map_values(|r: Seq<Seq<char>>| line_of(r)),
        spot_in(all, n) == spot_in(all, 1),
    decreases n,
{
    let f = |r: Seq<Seq<char>>| line_of(r);
    if n == 2 {
        reveal_with_fuel(contract_lines, 3);
        reveal_with_fuel(spot_in, 3);
        assert(contract_lines(all, 2) =~= rows.take(0).map_values(f));
    } else {
        lemma_lines_of_contracts(all, rows, n - 1);
        let row = rows[n - 3];
        assert(is_contract_row(row));
        assert(all[n - 3 + 2] == line_of(row));
        lemma_row_is_contract_line(row);
        assert(rows.take(n - 2).map_values(f) =~= rows.take(n - 3).map_values(f).push(line_of(row)));
    }
}

/// A snapshot reads back as the spot and the contracts that were written.
pub proof fn law_snapshot_reads_back(spot: Seq<char>, timestamp: Seq<char>, rows: Seq<Seq<Seq<char>>>)
    requires
        is_numeral(spot),
        is_line(timestamp),
        forall|i: int| 0 <= i < rows.len() ==> is_contract_row(#[trigger] rows[i]),
    ensures
        ({
            let all = lines(snapshot_text(spot, timestamp, rows));
            let n = all.len() as int;
            &&& spot_in(all, n) == Some(spot)
            &&& contract_lines(all, n).len() == rows.len()
            &&& forall|i: int|
                0 <= i < rows.len() ==> split(#[trigger] contract_lines(all, n)[i], ',') == rows[i]
        }),
{
    let all = snapshot_lines(spot, timestamp, rows);
    let head = spot_line(spot, timestamp);
    let second = "strike,dte,cp,oi,gamma,delta,iv,bid,ask"@;
    reveal_strlit("# spot,");
    reveal_strlit(",ts,");
    reveal_strlit("strike");
    reveal_strlit("strike,dte,cp,oi,gamma,delta,iv,bid,ask");
    assert(begins(head, "# spot,"@)) by {
        assert(head.take(7) =~= "# spot,"@);
    }
    assert(begins(second, "strike"@)) by {
        assert(second.take(6) =~= "strike"@);
    }
    assert(!begins(second, "# spot,"@)) by {
        assert(second.take(7)[0] == 's');
    }
    lemma_numeral_chars(spot);
    assert forall|i: int| 0 <= i < all.len() implies is_line(#[trigger] all[i]) by {
        if i == 0 {
            lemma_spot_line_is_one_line(spot, timestamp);
        } else if i > 1 {
            assert(is_contract_row(rows[i - 2]));
            lemma_row_is_contract_line(rows[i - 2]);
        }
    }
    law_lines_read_back(all);
    let n = all.len() as int;
    assert forall|i: int| 0 <= i < rows.len() implies #[trigger] all[i + 2] == line_of(rows[i]) by {}
    lemma_lines_of_contracts(all, rows, n);
    assert(rows.take(n - 2) =~= rows);
    assert forall|i: int| 0 <= i < rows.len() implies split(#[trigger] contract_lines(all, n)[i], ',')
        == rows[i] by {
        assert(is_contract_row(rows[i]));
        lemma_row_is_contract_line(rows[i]);
    }
    let rest = head.skip(7);
    let tail = "ts,"@ + timestamp;
    reveal_strlit("ts,");
    assert(rest =~= spot.push(',') + tail);
    lemma_split_across(spot, tail, ',');
    lemma_split_plain(spot, ',');
    lemma_split_nonempty(tail, ',');
    assert(split(rest, ',')[0] == spot);
    reveal_with_fuel(spot_in, 2);
}

proof fn lemma_spot_line_is_one_line(spot: Seq<char>, timestamp: Seq<char>)
    requires
        is_field(spot),
        is_line(timestamp),
    ensures
        is_line(spot_line(spot, timestamp)),
{
    reveal_strlit("# spot,");
    reveal_strlit(",ts,");
    let s = spot_line(spot, timestamp);
    assert forall|i: int| 0 <= i < s.len() implies #[trigger] s[i] != '\n' by {
        if i < 7 {
            assert(s[i] == "# spot,"@[i]);
        } else if i < 7 + spot.len() {
            assert(s[i] == spot[i - 7]);
        } else if i < 11 + spot.len() {
            assert(s[i] == ",ts,"@[i - 7 - spot.len()]);
        } else {
            assert(s[i] == timestamp[i - 11 - spot.len()]);
        }
    }
}

// ---- numbers ----

/// The numbers of a contract; days to expiry also rounded to whole days.
#[derive(Clone, Copy, Debug, PartialEq, Eq, Structural)]
pub struct SnapNums {
    pub strike: Option<Num>,
    pub dte: Option<Num>,
    pub days: i64,
    pub oi: Option<Num>,
    pub gamma: Option<Num>,
    pub delta: Option<Num>,
    pub iv: Option<Num>,
}

/// 0.01.
pub const IV_LOW: u64 = 0x3f84_7ae1_47ae_147b;

/// 2.
pub const IV_TWO: u64 = 0x4000_0000_0000_0000;

/// 2.5.
pub const IV_SMILE: u64 = 0x4004_0000_0000_0000;

/// 10.
pub const IV_VIX: u64 = 0x4024_0000_0000_0000;

/// 20 days.
pub const DAYS_20: u64 = 0x4034_0000_0000_0000;

/// 45 days.
pub const DAYS_45: u64 = 0x4046_8000_0000_0000;

/// Bounds of deltas, in hundredths; those of puts are below zero.
pub const DELTA_02: u64 = 0x3f94_7ae1_47ae_147b;

pub const DELTA_03: u64 = 0x3f9e_b851_eb85_1eb8;

pub const DELTA_20: u64 = 0x3fc9_9999_9999_999a;

pub const DELTA_30: u64 = 0x3fd3_3333_3333_3333;

pub const DELTA_40: u64 = 0x3fd9_9999_9999_999a;

pub const DELTA_45: u64 = 0x3fdc_cccc_cccc_cccd;

pub const DELTA_50: u64 = 0x3fe0_0000_0000_0000;

pub const DELTA_55: u64 = 0x3fe1_9999_9999_999a;

pub const DELTA_60: u64 = 0x3fe3_3333_3333_3333;

pub const DELTA_98: u64 = 0x3fef_5c28_f5c2_8f5c;

pub const DELTA_100: u64 = 0x3ff0_0000_0000_0000;

pub const PUT_30: u64 = 0xbfd3_3333_3333_3333;

pub const PUT_20: u64 = 0xbfc9_9999_9999_999a;

pub const PUT_50: u64 = 0xbfe0_0000_0000_0000;

pub const PUT_03: u64 = 0xbf9e_b851_eb85_1eb8;

/// Strictly between two bounds.
pub open spec fn inside(x: Num, lo: u64, hi: u64) -> bool {
    (Num { bits: lo }).below(x) && x.below(Num { bits: hi })
}

/// From one bound to the other.
pub open spec fn from_to(x: Num, lo: u64, hi: u64) -> bool {
    x.between(Num { bits: lo }, Num { bits: hi })
}

fn is_inside(x: Num, lo: u64, hi: u64) -> (r: bool)
    ensures
        r == inside(x, lo, hi),
{
    Num::new(lo).lt(x) && x.lt(Num::new(hi))
}

fn is_from_to(x: Num, lo: u64, hi: u64) -> (r: bool)
    ensures
        r == from_to(x, lo, hi),
{
    x.within(Num::new(lo), Num::new(hi))
}

// ---- the thirty-day point ----

/// The contracts that the thirty-day point is made of.
#[derive(Clone, Copy, Debug, PartialEq, Eq, Structural)]
pub enum Bucket {
    /// Calls close to the money.
    Atm,
    /// Calls not far from the money.
    Wide,
    /// Calls around 25 delta.
    Call25,
    /// Puts around 25 delta.
    Put25,
}

/// Whether a delta falls into a bucket.
pub open spec fn delta_in(delta: Num, bucket: Bucket) -> bool {
    match bucket {
        Bucket::Atm => from_to(delta, DELTA_45, DELTA_55),
        Bucket::Wide => from_to(delta, DELTA_40, DELTA_60),
        Bucket::Call25 => from_to(delta, DELTA_20, DELTA_30),
        Bucket::Put25 => from_to(delta, PUT_30, PUT_20),
    }
}

/// Whether a contract falls into a bucket: it expires in 20 to 45 days, its volatility
/// lies between 0.01 and 2, it is on the bucket's side and its delta within bounds.
pub open spec fn in_bucket(row: SnapRow, x: SnapNums, bucket: Bucket) -> bool {
    match (x.dte, x.delta, x.iv) {
        (Some(dte), Some(delta), Some(iv)) => !row.commented && from_to(iv, IV_LOW, IV_TWO) && from_to(
            dte,
            DAYS_20,
            DAYS_45,
        ) && (row.cp@ == "C"@ <==> bucket != Bucket::Put25) && delta_in(delta, bucket),
        _ => false,
    }
}

/// The contracts of a bucket.
pub open spec fn bucket_of(rows: Seq<SnapRow>, xs: Seq<SnapNums>, bucket: Bucket) -> Seq<usize> {
    pick(rows.len() as int, |k: int| in_bucket(rows[k], xs[k], bucket))
}

fn falls_into(row: &SnapRow, x: SnapNums, bucket: Bucket) -> (r: bool)
    ensures
        r == in_bucket(*row, x, bucket),
{
    match (x.dte, x.delta, x.iv) {
        (Some(dte), Some(delta), Some(iv)) => {
            let (call, lo, hi): (bool, u64, u64) = match bucket {
                Bucket::Atm => (true, DELTA_45, DELTA_55),
                Bucket::Wide => (true, DELTA_40, DELTA_60),
                Bucket::Call25 => (true, DELTA_20, DELTA_30),
                Bucket::Put25 => (false, PUT_30, PUT_20),
            };
            !row.commented && is_from_to(iv, IV_LOW, IV_TWO) && is_from_to(dte, DAYS_20, DAYS_45) && same(
                row.cp.as_str(),
                "C",
            ) == call && is_from_to(delta, lo, hi)
        },
        _ => false,
    }
}

/// The contracts of a bucket, in order.
pub fn bucket_members(rows: &Vec<SnapRow>, xs: &Vec<SnapNums>, bucket: Bucket) -> (r: Vec<usize>)
    requires
        rows@.len() == xs@.len(),
    ensures
        r@ == bucket_of(rows@, xs@, bucket),
{
    let ghost f = |k: int| in_bucket(rows@[k], xs@[k], bucket);
    let mut out: Vec<usize> = Vec::new();
    let mut i: usize = 0;
    while i < rows.len()
        invariant
            i <= rows@.len() == xs@.len(),
            f == (|k: int| in_bucket(rows@[k], xs@[k], bucket)),
            out@ == pick(i as int, f),
        decreases rows@.len() - i,
    {
        if falls_into(&rows[i], xs[i], bucket) {
            out.push(i);
        }
        i = i + 1;
    }
    out
}

/// The contracts at the money: the close ones, or where there are none those not far
/// from it.
pub open spec fn atm_of(rows: Seq<SnapRow>, xs: Seq<SnapNums>) -> Option<Seq<usize>> {
    if bucket_of(rows, xs, Bucket::Atm).len() > 0 {
        Some(bucket_of(rows, xs, Bucket::Atm))
    } else if bucket_of(rows, xs, Bucket::Wide).len() > 0 {
        Some(bucket_of(rows, xs, Bucket::Wide))
    } else {
        None
    }
}

/// The contracts at the money.
pub fn atm_members(rows: &Vec<SnapRow>, xs: &Vec<SnapNums>) -> (r: Option<Vec<usize>>)
    requires
        rows@.len() == xs@.len(),
    ensures
        match r {
            Some(m) => atm_of(rows@, xs@) == Some(m@),
            None => atm_of(rows@, xs@) is None,
        },
{
    let close: Vec<usize> = bucket_members(rows, xs, Bucket::Atm);
    if close.len() > 0 {
        return Some(close);
    }
    let wide: Vec<usize> = bucket_members(rows, xs, Bucket::Wide);
    if wide.len() > 0 {
        Some(wide)
    } else {
        None
    }
}

/// The puts and the calls of the wings, where there are some of both and the volatility
/// at the money is positive.
pub fn wing_members(rows: &Vec<SnapRow>, xs: &Vec<SnapNums>, atm_iv: Num) -> (r: Option<
    (Vec<usize>, Vec<usize>),
>)
    requires
        rows@.len() == xs@.len(),
    ensures
        match r {
            Some((p, c)) => p@ == bucket_of(rows@, xs@, Bucket::Put25) && c@ == bucket_of(
                rows@,
                xs@,
                Bucket::Call25,
            ) && p@.len() > 0 && c@.len() > 0 && (Num { bits: ZERO }).below(atm_iv),
            None => bucket_of(rows@, xs@, Bucket::Put25).len() == 0 || bucket_of(
                rows@,
                xs@,
                Bucket::Call25,
            ).len() == 0 || !(Num { bits: ZERO }).below(atm_iv),
        },
{
    let p: Vec<usize> = bucket_members(rows, xs, Bucket::Put25);
    let c: Vec<usize> = bucket_members(rows, xs, Bucket::Call25);
    if p.len() > 0 && c.len() > 0 && Num::new(ZERO).lt(atm_iv) {
        Some((p, c))
    } else {
        None
    }
}

/// Every contract close to the money is one not far from it, and no call is a put.
pub proof fn law_buckets(row: SnapRow, x: SnapNums)
    ensures
        in_bucket(row, x, Bucket::Atm) ==> in_bucket(row, x, Bucket::Wide),
        in_bucket(row, x, Bucket::Put25) ==> !in_bucket(row, x, Bucket::Wide) && !in_bucket(
            row,
            x,
            Bucket::Call25,
        ),
        in_bucket(row, x, Bucket::Call25) ==> !in_bucket(row, x, Bucket::Wide),
{
}

// ---- smiles ----

/// The least days to expiry of a surface.
pub const MIN_DTE: i64 = 3;

/// The most days to expiry of a surface.
pub const MAX_DTE: i64 = 180;

/// The least contracts of a smile.
pub const MIN_QUOTES: usize = 4;

pub open spec fn is_put(cp: Seq<char>) -> bool {
    same_ignoring_case(cp, "P"@)
}

/// Whether a contract counts for the surface: it is a put or a call, volatility and
/// delta lie within bounds, it is neither about to expire nor far from it, and the
/// strike is positive.
pub open spec fn on_surface(row: SnapRow, x: SnapNums) -> bool {
    match (x.strike, x.dte, x.delta, x.iv) {
        (Some(k), Some(_), Some(d), Some(iv)) => {
            &&& is_put(row.cp@) || same_ignoring_case(row.cp@, "C"@)
            &&& inside(iv, IV_LOW, IV_SMILE)
            &&& from_to(d.unsigned(), DELTA_02, DELTA_98)
            &&& MIN_DTE <= x.days <= MAX_DTE
            &&& (Num { bits: ZERO }).below(k)
        },
        _ => false,
    }
}

fn counts_on_surface(row: &SnapRow, x: SnapNums) -> (r: bool)
    ensures
        r == on_surface(*row, x),
{
    match (x.strike, x.dte, x.delta, x.iv) {
        (Some(k), Some(_), Some(d), Some(iv)) => {
            (same_no_case(row.cp.as_str(), "P") || same_no_case(row.cp.as_str(), "C")) && is_inside(
                iv,
                IV_LOW,
                IV_SMILE,
            ) && is_from_to(d.abs(), DELTA_02, DELTA_98) && MIN_DTE <= x.days && x.days <= MAX_DTE
                && Num::new(ZERO).lt(k)
        },
        _ => false,
    }
}

/// The days to expiry of all contracts.
pub open spec fn days_of(xs: Seq<SnapNums>) -> Seq<i64> {
    xs.map_values(|x: SnapNums| x.days)
}

/// Which contracts count for the surface.
pub open spec fn surface_flags(rows: Seq<SnapRow>, xs: Seq<SnapNums>) -> Seq<bool> {
    Seq::new(rows.len(), |k: int| on_surface(rows[k], xs[k]))
}

/// Whether a spot is one: finite and positive.
pub open spec fn is_spot(spot: Num) -> bool {
    spot.finite() && !spot.at_most(Num { bits: ZERO })
}

fn all_days(xs: &Vec<SnapNums>) -> (r: Vec<i64>)
    ensures
        r@ == days_of(xs@),
{
    let mut out: Vec<i64> = Vec::new();
    let mut i: usize = 0;
    while i < xs.len()
        invariant
            i <= xs@.len(),
            out@ == days_of(xs@).take(i as int),
        decreases xs@.len() - i,
    {
        out.push(xs[i].days);
        assert(out@ =~= days_of(xs@).take(i + 1));
        i = i + 1;
    }
    assert(days_of(xs@).take(xs@.len() as int) =~= days_of(xs@));
    out
}

/// Whether two contracts that are kept expire on different days.
pub open spec fn has_two_expiries(days: Seq<i64>, keep: Seq<bool>) -> bool {
    exists|a: int, b: int|
        0 <= a < keep.len() && 0 <= b < keep.len() && #[trigger] keep[a] && #[trigger] keep[b] && days[a]
            != days[b]
}

/// There are two groups exactly where two contracts expire on different days.
proof fn lemma_two_groups(days: Seq<i64>, keep: Seq<bool>, groups: Seq<Group>)
    requires
        is_grouping(days, keep, groups),
        days.len() == keep.len(),
        days.len() <= usize::MAX,
    ensures
        groups.len() >= 2 <==> has_two_expiries(days, keep),
{
    if groups.len() >= 2 {
        let (m, n) = (groups[0].members@, groups[1].members@);
        assert(is_group(days, keep, groups[0].key, m));
        assert(is_group(days, keep, groups[1].key, n));
        assert(groups[0].key < groups[1].key);
        assert(keep[m[0] as int] && keep[n[0] as int]);
        assert(days[m[0] as int] != days[n[0] as int]);
    }
    if has_two_expiries(days, keep) {
        let (a, b) = choose|a: int, b: int|
            0 <= a < keep.len() && 0 <= b < keep.len() && #[trigger] keep[a] && #[trigger] keep[b]
                && days[a] != days[b];
        let g = choose|g: int|
            0 <= g < groups.len() && (#[trigger] groups[g]).members@.contains(a as usize);
        law_group_holds_its_key(days, keep, groups, g, a);
        law_group_holds_its_key(days, keep, groups, g, b);
        let h = choose|h: int| 0 <= h < groups.len() && (#[trigger] groups[h]).key == days[b];
        assert(g != h);
    }
}

/// The contracts of the surface by days to expiry, where the spot is one and there are
/// at least two expiries.
pub fn snap_smile(rows: &Vec<SnapRow>, xs: &Vec<SnapNums>, spot: Num) -> (r: Option<Vec<Group>>)
    requires
        rows@.len() == xs@.len(),
    ensures
        match r {
            Some(g) => is_spot(spot) && has_two_expiries(days_of(xs@), surface_flags(rows@, xs@))
                && is_grouping(days_of(xs@), surface_flags(rows@, xs@), g@),
            None => !is_spot(spot) || !has_two_expiries(days_of(xs@), surface_flags(rows@, xs@)),
        },
{
    let mut keep: Vec<bool> = Vec::new();
    let mut i: usize = 0;
    while i < rows.len()
        invariant
            i <= rows@.len() == xs@.len(),
            keep@.len() == i,
            forall|k: int| 0 <= k < i ==> #[trigger] keep@[k] == on_surface(rows@[k], xs@[k]),
        decreases rows@.len() - i,
    {
        keep.push(counts_on_surface(&rows[i], xs[i]));
        i = i + 1;
    }
    assert(keep@ =~= surface_flags(rows@, xs@));
    let days: Vec<i64> = all_days(xs);
    let groups: Vec<Group> = group_by_key(&days, &keep);
    proof {
        lemma_two_groups(days@, keep@, groups@);
    }
    if !spot.is_finite() || spot.le(Num::new(ZERO)) || groups.len() < 2 {
        None
    } else {
        Some(groups)
    }
}

/// Whether a contract is out of the money: puts from -0.5 to -0.03, calls from 0.03 to
/// 0.5.
pub open spec fn out_of_the_money(row: SnapRow, x: SnapNums) -> bool {
    match x.delta {
        Some(d) => if is_put(row.cp@) {
            from_to(d, PUT_50, PUT_03)
        } else {
            from_to(d, DELTA_03, DELTA_50)
        },
        None => false,
    }
}

/// The members of an expiry that are out of the money.
pub open spec fn otm_of(rows: Seq<SnapRow>, xs: Seq<SnapNums>, members: Seq<usize>) -> Seq<usize> {
    members.filter(|k: usize| out_of_the_money(rows[k as int], xs[k as int]))
}

/// The members of an expiry that are out of the money, where they are enough for a
/// smile.
pub fn otm_members(rows: &Vec<SnapRow>, xs: &Vec<SnapNums>, members: &Vec<usize>) -> (r: Option<Vec<usize>>)
    requires
        rows@.len() == xs@.len(),
        forall|i: int| 0 <= i < members@.len() ==> #[trigger] members@[i] < rows@.len(),
    ensures
        match r {
            Some(m) => m@ == otm_of(rows@, xs@, members@) && m@.len() >= MIN_QUOTES,
            None => otm_of(rows@, xs@, members@).len() < MIN_QUOTES,
        },
{
    let ghost f = |k: usize| out_of_the_money(rows@[k as int], xs@[k as int]);
    let mut out: Vec<usize> = Vec::new();
    let mut i: usize = 0;
    reveal(Seq::filter);
    while i < members.len()
        invariant
            rows@.len() == xs@.len(),
            forall|i: int| 0 <= i < members@.len() ==> #[trigger] members@[i] < rows@.len(),
            i <= members@.len(),
            f == (|k: usize| out_of_the_money(rows@[k as int], xs@[k as int])),
            out@ == members@.take(i as int).filter(f),
        decreases members@.len() - i,
    {
        reveal(Seq::filter);
        assert(members@.take(i + 1).drop_last() =~= members@.take(i as int));
        let k: usize = members[i];
        let keep: bool = match xs[k].delta {
            Some(d) => if same_no_case(rows[k].cp.as_str(), "P") {
                is_from_to(d, PUT_50, PUT_03)
            } else {
                is_from_to(d, DELTA_03, DELTA_50)
            },
            None => false,
        };
        if keep {
            out.push(k);
        }
        i = i + 1;
    }
    assert(members@.take(members@.len() as int) =~= members@);
    if out.len() < MIN_QUOTES {
        None
    } else {
        Some(out)
    }
}

/// The key and the members of each group.
pub open spec fn group_views(groups: Seq<Group>) -> Seq<(i64, Seq<usize>)> {
    groups.map_values(|g: Group| (g.key, g.members@))
}

/// The smile of an expiry: its days, and its members that are out of the money.
pub open spec fn smile_of(rows: Seq<SnapRow>, xs: Seq<SnapNums>, g: Group) -> (i64, Seq<usize>) {
    (g.key, otm_of(rows, xs, g.members@))
}

/// The smiles of the expiries that have enough quotes for one.
pub open spec fn smiles_of(rows: Seq<SnapRow>, xs: Seq<SnapNums>, groups: Seq<Group>) -> Seq<
    (i64, Seq<usize>),
> {
    groups.map_values(|g: Group| smile_of(rows, xs, g)).filter(
        |s: (i64, Seq<usize>)| s.1.len() >= MIN_QUOTES,
    )
}

/// Whether `r` are the smiles, where a surface goes through them: at least two.
pub open spec fn are_smiles(r: Option<Vec<Group>>, smiles: Seq<(i64, Seq<usize>)>) -> bool {
    match r {
        Some(s) => smiles.len() >= 2 && group_views(s@) == smiles,
        None => smiles.len() < 2,
    }
}

/// The smiles that the surface goes through, by days to expiry; none where the spot is
/// none, or there are fewer than two expiries or smiles.
pub fn surface_smiles(rows: &Vec<SnapRow>, xs: &Vec<SnapNums>, spot: Num) -> (r: Option<Vec<Group>>)
    requires
        rows@.len() == xs@.len(),
    ensures
        if is_spot(spot) && has_two_expiries(days_of(xs@), surface_flags(rows@, xs@)) {
            exists|groups: Seq<Group>| #[trigger]
                is_grouping(days_of(xs@), surface_flags(rows@, xs@), groups) && are_smiles(
                    r,
                    smiles_of(rows@, xs@, groups),
                )
        } else {
            r is None
        },
{
    let groups: Vec<Group> = match snap_smile(rows, xs, spot) {
        Some(g) => g,
        None => {
            return None;
        },
    };
    let ghost all = groups@.map_values(|g: Group| smile_of(rows@, xs@, g));
    let ghost f = |s: (i64, Seq<usize>)| s.1.len() >= MIN_QUOTES;
    let mut out: Vec<Group> = Vec::new();
    let mut i: usize = 0;
    proof {
        reveal(Seq::filter);
        assert(group_views(out@) =~= all.take(0).filter(f));
    }
    while i < groups.len()
        invariant
            rows@.len() == xs@.len(),
            i <= groups@.len(),
            is_grouping(days_of(xs@), surface_flags(rows@, xs@), groups@),
            all == groups@.map_values(|g: Group| smile_of(rows@, xs@, g)),
            f == (|s: (i64, Seq<usize>)| s.1.len() >= MIN_QUOTES),
            group_views(out@) == all.take(i as int).filter(f),
        decreases groups@.len() - i,
    {
        reveal(Seq::filter);
        assert(all.take(i + 1).drop_last() =~= all.take(i as int));
        assert(all.take(i + 1).last() == smile_of(rows@, xs@, groups@[i as int]));
        assert(is_group(
            days_of(xs@),
            surface_flags(rows@, xs@),
            groups@[i as int].key,
            groups@[i as int].members@,
        ));
        match otm_members(rows, xs, &groups[i].members) {
            Some(members) => {
                let ghost was = out@;
                out.push(Group { key: groups[i].key, members });
                assert(group_views(out@) =~= group_views(was).push(
                    smile_of(rows@, xs@, groups@[i as int]),
                ));
            },
            None => {},
        }
        i = i + 1;
    }
    assert(all.take(all.len() as int) =~= all);
    assert(is_grouping(days_of(xs@), surface_flags(rows@, xs@), groups@));
    assert(group_views(out@) == smiles_of(rows@, xs@, groups@));
    assert(out@.len() == group_views(out@).len());
    if out.len() < 2 {
        None
    } else {
        Some(out)
    }
}

// ---- the VIX ----

/// The days to expiry that the call skew of the VIX is measured at.
pub const VIX_DTE: i64 = 90;

/// Whether the underlying is the VIX.
pub fn is_vix(und: &str) -> (r: bool)
    ensures
        r == same_ignoring_case(und@, "VIX"@),
{
    same_no_case(und, "VIX")
}

/// Whether a contract counts for the call skew of the VIX.
pub open spec fn is_vix_call(row: SnapRow, x: SnapNums) -> bool {
    match (x.dte, x.delta, x.iv) {
        (Some(_), Some(d), Some(iv)) => row.cp@ == "C"@ && inside(iv, IV_LOW, IV_VIX) && inside(
            d,
            ZERO,
            DELTA_100,
        ),
        _ => false,
    }
}

/// Which contracts count for the call skew of the VIX.
pub open spec fn vix_flags(rows: Seq<SnapRow>, xs: Seq<SnapNums>) -> Seq<bool> {
    Seq::new(rows.len(), |k: int| is_vix_call(rows[k], xs[k]))
}

/// The calls of the VIX by days to expiry.
pub fn vix_calls(rows: &Vec<SnapRow>, xs: &Vec<SnapNums>) -> (r: Vec<Group>)
    requires
        rows@.len() == xs@.len(),
    ensures
        is_grouping(days_of(xs@), vix_flags(rows@, xs@), r@),
{
    let mut keep: Vec<bool> = Vec::new();
    let mut i: usize = 0;
    while i < rows.len()
        invariant
            i <= rows@.len() == xs@.len(),
            keep@.len() == i,
            forall|k: int| 0 <= k < i ==> #[trigger] keep@[k] == is_vix_call(rows@[k], xs@[k]),
        decreases rows@.len() - i,
    {
        let x: SnapNums = xs[i];
        keep.push(
            match (x.dte, x.delta, x.iv) {
                (Some(_), Some(d), Some(iv)) => same(rows[i].cp.as_str(), "C") && is_inside(
                    iv,
                    IV_LOW,
                    IV_VIX,
                ) && is_inside(d, ZERO, DELTA_100),
                _ => false,
            },
        );
        i = i + 1;
    }
    assert(keep@ =~= vix_flags(rows@, xs@));
    let days: Vec<i64> = all_days(xs);
    group_by_key(&days, &keep)
}

/// How far days to expiry are from those that are measured at.
pub open spec fn vix_distance(days: i64) -> int {
    if days >= VIX_DTE {
        days - VIX_DTE
    } else {
        VIX_DTE - days
    }
}

/// Whether an expiry has enough calls, and its distance is a number of days.
pub open spec fn has_smile(groups: Seq<Group>, g: int) -> bool {
    0 <= g < groups.len() && groups[g].members@.len() >= MIN_QUOTES && vix_distance(groups[g].key)
        < i64::MAX
}

/// Whether `r` is the expiry nearest to three months with enough calls, the first of two.
pub open spec fn is_nearest_expiry(r: Option<usize>, groups: Seq<Group>) -> bool {
    match r {
        Some(g) => has_smile(groups, g as int) && forall|h: int| #[trigger]
            has_smile(groups, h) && h != g ==> vix_distance(groups[g as int].key) < vix_distance(
                groups[h].key,
            ) || (vix_distance(groups[g as int].key) == vix_distance(groups[h].key) && g < h),
        None => forall|h: int| !has_smile(groups, h),
    }
}

/// The expiry nearest to three months with enough calls, the first of two.
pub fn nearest_expiry(groups: &Vec<Group>) -> (r: Option<usize>)
    ensures
        is_nearest_expiry(r, groups@),
{
    let mut best: Option<usize> = None;
    let mut bestd: i128 = i64::MAX as i128;
    let mut g: usize = 0;
    while g < groups.len()
        invariant
            g <= groups@.len(),
            match best {
                Some(b) => b < g && has_smile(groups@, b as int) && bestd == vix_distance(
                    groups@[b as int].key,
                ) && forall|h: int| #[trigger]
                    has_smile(groups@, h) && h != b && h < g ==> vix_distance(groups@[b as int].key)
                        < vix_distance(groups@[h].key) || (vix_distance(groups@[b as int].key)
                        == vix_distance(groups@[h].key) && b < h),
                None => bestd == i64::MAX && forall|h: int| h < g ==> !has_smile(groups@, h),
            },
        decreases groups@.len() - g,
    {
        if groups[g].members.len() >= MIN_QUOTES {
            let d: i128 = if groups[g].key >= VIX_DTE {
                groups[g].key as i128 - VIX_DTE as i128
            } else {
                VIX_DTE as i128 - groups[g].key as i128
            };
            if d < bestd {
                best = Some(g);
                bestd = d;
            }
        }
        g = g + 1;
    }
    best
}

/// Whether `r` are the calls of the expiry nearest to three months, if there is one.
pub open spec fn is_vix_smile(r: Option<Vec<usize>>, groups: Seq<Group>) -> bool {
    exists|g: Option<usize>| #[trigger]
        is_nearest_expiry(g, groups) && match g {
            Some(k) => r matches Some(m) && m@ == groups[k as int].members@,
            None => r is None,
        }
}

/// The calls that the call skew of the VIX is measured from: those of the expiry nearest
/// to three months that has enough; none where the spot is not finite.
pub fn vix_smile(rows: &Vec<SnapRow>, xs: &Vec<SnapNums>, spot: Num) -> (r: Option<Vec<usize>>)
    requires
        rows@.len() == xs@.len(),
    ensures
        !spot.finite() ==> r is None,
        spot.finite() ==> exists|groups: Seq<Group>| #[trigger]
            is_grouping(days_of(xs@), vix_flags(rows@, xs@), groups) && is_vix_smile(r, groups),
{
    if !spot.is_finite() {
        return None;
    }
    let mut groups: Vec<Group> = vix_calls(rows, xs);
    let ghost all = groups@;
    let found: Option<usize> = nearest_expiry(&groups);
    assert(is_grouping(days_of(xs@), vix_flags(rows@, xs@), all));
    assert(is_nearest_expiry(found, all));
    match found {
        Some(g) => {
            let chosen: Group = groups.remove(g);
            Some(chosen.members)
        },
        None => None,
    }
}

/// Whether a point of the call skew is kept: both volatilities are positive.
pub fn keeps_point(iv_atm: Num, iv_25c: Num) -> (r: bool)
    ensures
        r == ((Num { bits: ZERO }).below(iv_atm) && (Num { bits: ZERO }).below(iv_25c)),
{
    Num::new(ZERO).lt(iv_atm) && Num::new(ZERO).lt(iv_25c)
}

// ---- dealer gamma ----

/// Whether a contract counts for the gamma profile: all its numbers are there.
pub open spec fn in_profile(x: SnapNums) -> bool {
    x.strike is Some && x.dte is Some && x.oi is Some && x.gamma is Some && x.iv is Some
}

/// The contracts of the gamma profile, where the spot is finite and there are any.
pub fn profile_members(xs: &Vec<SnapNums>, spot: Num) -> (r: Option<Vec<usize>>)
    ensures
        match r {
            Some(m) => spot.finite() && m@.len() > 0 && m@ == pick(
                xs@.len() as int,
                |k: int| in_profile(xs@[k]),
            ),
            None => !spot.finite() || pick(xs@.len() as int, |k: int| in_profile(xs@[k])).len() == 0,
        },
{
    let ghost f = |k: int| in_profile(xs@[k]);
    let mut out: Vec<usize> = Vec::new();
    let mut i: usize = 0;
    while i < xs.len()
        invariant
            i <= xs@.len(),
            f == (|k: int| in_profile(xs@[k])),
            out@ == pick(i as int, f),
        decreases xs@.len() - i,
    {
        let x: SnapNums = xs[i];
        if x.strike.is_some() && x.dte.is_some() && x.oi.is_some() && x.gamma.is_some() && x.iv.is_some() {
            out.push(i);
        }
        i = i + 1;
    }
    if spot.is_finite() && out.len() > 0 {
        Some(out)
    } else {
        None
    }
}

/// Which strikes lie in the band around the spot.
pub open spec fn band_flags(strikes: Seq<Num>, lo: Num, hi: Num) -> Seq<bool> {
    strikes.map_values(|k: Num| k.between(lo, hi))
}

/// The contracts in the band around the spot, by strike in hundredths.
pub fn by_strike(strikes: &Vec<Num>, cents: &Vec<i64>, lo: Num, hi: Num) -> (r: Vec<Group>)
    requires
        strikes@.len() == cents@.len(),
    ensures
        is_grouping(cents@, band_flags(strikes@, lo, hi), r@),
{
    let mut keep: Vec<bool> = Vec::new();
    let mut i: usize = 0;
    while i < strikes.len()
        invariant
            i <= strikes@.len(),
            keep@.len() == i,
            forall|k: int| 0 <= k < i ==> #[trigger] keep@[k] == strikes@[k].between(lo, hi),
        decreases strikes@.len() - i,
    {
        keep.push(strikes[i].within(lo, hi));
        i = i + 1;
    }
    assert(keep@ =~= band_flags(strikes@, lo, hi));
    group_by_key(cents, &keep)
}

/// Whether a contract counts for the exposure at another spot: its volatility is not
/// outside of 0.01 to 2.
pub fn counts_for_flip(iv: Num) -> (r: bool)
    ensures
        r == (!iv.at_most(Num { bits: IV_LOW }) && !(Num { bits: IV_TWO }).below(iv)),
{
    !iv.le(Num::new(IV_LOW)) && !Num::new(IV_TWO).lt(iv)
}

/// Whether the exposure changes its sign on step `i`.
pub open spec fn crosses(vals: Seq<Num>, i: int) -> bool {
    0 < i < vals.len() && vals[i - 1].finite() && vals[i].finite() && vals[i - 1].negative()
        != vals[i].negative() && vals[i - 1].rank() != vals[i].rank()
}

/// The steps on which the exposure changes its sign.
pub fn crossings(vals: &Vec<Num>) -> (r: Vec<usize>)
    ensures
        r@ == pick(vals@.len() as int, |i: int| crosses(vals@, i)),
{
    let ghost f = |i: int| crosses(vals@, i);
    let mut out: Vec<usize> = Vec::new();
    if vals.len() == 0 {
        return out;
    }
    let mut i: usize = 1;
    assert(!crosses(vals@, 0));
    assert(pick(1, f) =~= Seq::empty()) by {
        reveal_with_fuel(pick, 2);
    }
    while i < vals.len()
        invariant
            1 <= i <= vals@.len(),
            f == (|i: int| crosses(vals@, i)),
            out@ == pick(i as int, f),
        decreases vals@.len() - i,
    {
        let (a, b): (Num, Num) = (vals[i - 1], vals[i]);
        if a.is_finite() && b.is_finite() && a.is_negative() != b.is_negative() && (a.lt(b) || b.lt(a)) {
            out.push(i);
        }
        i = i + 1;
    }
    out
}

/// A change of sign goes from below zero to above or to zero, or back: zero lies
/// between.
pub proof fn law_crossing(vals: Seq<Num>, i: int)
    requires
        crosses(vals, i),
    ensures
        vals[i - 1].rank() <= 0 <= vals[i].rank() || vals[i].rank() <= 0 <= vals[i - 1].rank(),
        vals[i - 1].rank() < vals[i].rank() || vals[i].rank() < vals[i - 1].rank(),
{
}

/// Whether `k` is the first of the least distances that are finite.
pub open spec fn is_closest(distances: Seq<Num>, k: int) -> bool {
    0 <= k < distances.len() && is_close(distances[k]) && forall|j: int|
        0 <= j < distances.len() && is_close(#[trigger] distances[j]) && j != k ==> comes_first(
            distances,
            k,
            j,
        )
}

/// Whether a distance is less than infinite.
pub open spec fn is_close(d: Num) -> bool {
    d.below(Num { bits: INFINITE })
}

/// Whether no distance is less than infinite.
pub open spec fn none_close(distances: Seq<Num>) -> bool {
    forall|j: int| 0 <= j < distances.len() ==> !is_close(#[trigger] distances[j])
}

/// The first of the least distances that are less than infinite.
pub fn closest(distances: &Vec<Num>) -> (r: Option<usize>)
    ensures
        match r {
            Some(k) => is_closest(distances@, k as int),
            None => none_close(distances@),
        },
{
    let mut eligible: Vec<bool> = Vec::new();
    let mut i: usize = 0;
    while i < distances.len()
        invariant
            i <= distances@.len(),
            eligible@.len() == i,
            forall|k: int| 0 <= k < i ==> #[trigger] eligible@[k],
        decreases distances@.len() - i,
    {
        eligible.push(true);
        i = i + 1;
    }
    let reach: Num = Num::new(INFINITE - 1);
    assert forall|k: int| 0 <= k < distances@.len() implies is_candidate(
        eligible@,
        distances@,
        reach,
        k,
    ) == is_close(#[trigger] distances@[k]) by {
        assert(eligible@[k]);
    }
    let found: Option<usize> = nearest(&eligible, distances, reach);
    proof {
        match found {
            Some(k) => {
                assert(is_candidate(eligible@, distances@, reach, k as int));
                assert(is_close(distances@[k as int]));
                assert forall|j: int|
                    0 <= j < distances@.len() && is_close(#[trigger] distances@[j]) && j != k implies comes_first(
                    distances@,
                    k as int,
                    j,
                ) by {
                    assert(is_candidate(eligible@, distances@, reach, j));
                }
            },
            None => {
                assert forall|j: int| 0 <= j < distances@.len() implies !is_close(#[trigger] distances@[j]) by {
                    assert(!is_candidate(eligible@, distances@, reach, j));
                }
            },
        }
    }
    found
}

// ---- what snapshots owe to their lines ----

/// The lines of contracts among the first lines, with the place of each.
proof fn lemma_contract_places(all: Seq<Seq<char>>, n: int) -> (from: Seq<int>)
    requires
        0 <= n <= all.len(),
    ensures
        from.len() == contract_lines(all, n).len(),
        forall|k: int| 0 <= k < from.len() ==> 0 <= #[trigger] from[k] < n,
        forall|j: int, k: int| 0 <= j < k < from.len() ==> #[trigger] from[j] < #[trigger] from[k],
        forall|k: int|
            0 <= k < from.len() ==> contract_lines(all, n)[k] == all[#[trigger] from[k]] && is_contract_line(
                all[from[k]],
            ),
        forall|i: int| 0 <= i < n && is_contract_line(#[trigger] all[i]) ==> from.contains(i),
    decreases n,
{
    if n <= 0 {
        Seq::empty()
    } else {
        let front = lemma_contract_places(all, n - 1);
        if is_contract_line(all[n - 1]) {
            let from = front.push(n - 1);
            assert forall|i: int| 0 <= i < n && is_contract_line(#[trigger] all[i]) implies from.contains(i) by {
                if i < n - 1 {
                    let k = choose|k: int| 0 <= k < front.len() && front[k] == i;
                    assert(from[k] == i);
                } else {
                    assert(from[front.len() as int] == i);
                }
            }
            from
        } else {
            front
        }
    }
}

/// Whether `x` is the field where it denotes a number, and nothing where it does not.
pub open spec fn is_numeral_field(x: Option<String>, field: Seq<char>) -> bool {
    (x is Some <==> is_numeral(field)) && (x matches Some(s) ==> s@ == field)
}

/// The contracts of a snapshot come from its lines, in order: the fields of a line are
/// strike, days, side, open interest, gamma, delta and volatility, in the order of the
/// header that is written. Every line of seven fields or more is one, but for the header,
/// which begins with "strike", and those that name the spot.
pub proof fn law_contracts_of_lines(text: &str, r: Snapshot) -> (from: Seq<int>)
    requires
        call_ensures(read_snapshot, (text,), r),
    ensures
        from.len() == r.rows@.len(),
        forall|k: int| 0 <= k < from.len() ==> 0 <= #[trigger] from[k] < lines(text@).len(),
        forall|j: int, k: int| 0 <= j < k < from.len() ==> #[trigger] from[j] < #[trigger] from[k],
        forall|k: int|
            0 <= k < from.len() ==> split(lines(text@)[#[trigger] from[k]], ',').len() >= 7
                && is_numeral_field(r.rows@[k].strike, split(lines(text@)[from[k]], ',')[0])
                && is_numeral_field(r.rows@[k].dte, split(lines(text@)[from[k]], ',')[1])
                && r.rows@[k].cp@ == split(lines(text@)[from[k]], ',')[2] && is_numeral_field(
                r.rows@[k].oi,
                split(lines(text@)[from[k]], ',')[3],
            ) && is_numeral_field(r.rows@[k].gamma, split(lines(text@)[from[k]], ',')[4])
                && is_numeral_field(r.rows@[k].delta, split(lines(text@)[from[k]], ',')[5])
                && is_numeral_field(r.rows@[k].iv, split(lines(text@)[from[k]], ',')[6]),
        forall|k: int|
            0 <= k < from.len() ==> (r.rows@[k].commented <==> lines(text@)[#[trigger] from[k]].len() > 0
                && lines(text@)[from[k]][0] == '#'),
        forall|i: int|
            0 <= i < lines(text@).len() ==> (from.contains(i) <==> split(#[trigger] lines(text@)[i], ',').len() >= 7
                && !begins(lines(text@)[i], "# spot,"@) && !begins(lines(text@)[i], "strike"@)),
{
    let all = lines(text@);
    let n = all.len() as int;
    let from = lemma_contract_places(all, n);
    assert forall|k: int| 0 <= k < from.len() implies is_row_of(r.rows@[k], all[#[trigger] from[k]]) by {
        assert(is_row_of(r.rows@[k], contract_lines(all, n)[k]));
    }
    reveal_strlit("#");
    assert forall|k: int| 0 <= k < from.len() implies (r.rows@[k].commented <==> all[#[trigger] from[k]].len() > 0
        && all[from[k]][0] == '#') by {
        let line = all[from[k]];
        assert(is_row_of(r.rows@[k], line));
        if begins(line, "#"@) {
            assert(line.take(1)[0] == "#"@[0]);
        }
        if line.len() > 0 && line[0] == '#' {
            assert(line.take(1) =~= "#"@);
        }
    }
    assert forall|i: int| 0 <= i < all.len() implies (from.contains(i) <==> is_contract_line(#[trigger] all[i])) by {
        if from.contains(i) {
            let k = choose|k: int| 0 <= k < from.len() && from[k] == i;
            assert(is_contract_line(all[from[k]]));
        }
    }
    from
}

/// The spot of a snapshot is the first field behind "# spot," on the last line that begins
/// so, where it denotes a number.
pub proof fn law_spot_of_lines(text: &str, r: Snapshot, i: int, rest: Seq<char>)
    requires
        call_ensures(read_snapshot, (text,), r),
        0 <= i < lines(text@).len(),
        lines(text@)[i] == "# spot,"@ + rest,
        forall|j: int| i < j < lines(text@).len() ==> !begins(#[trigger] lines(text@)[j], "# spot,"@),
    ensures
        is_numeral_field(r.spot, split(rest, ',')[0]),
{
    let all = lines(text@);
    let p = "# spot,"@;
    assert((p + rest).take(p.len() as int) =~= p);
    assert((p + rest).skip(p.len() as int) =~= rest);
    lemma_spot_at(all, i, all.len() as int);
}

proof fn lemma_spot_at(all: Seq<Seq<char>>, i: int, n: int)
    requires
        0 <= i < n <= all.len(),
        begins(all[i], "# spot,"@),
        forall|j: int| i < j < n ==> !begins(#[trigger] all[j], "# spot,"@),
    ensures
        spot_in(all, n) == numeral_of(split(all[i].skip("# spot,"@.len() as int), ',')[0]),
    decreases n,
{
    if i < n - 1 {
        assert(!begins(all[n - 1], "# spot,"@));
        lemma_spot_at(all, i, n - 1);
    }
}

/// What is written of a chain reads back contract by contract: strike, days, side, open
/// interest, gamma, delta and volatility of each are those that were written for it, and
/// so is the spot.
pub proof fn law_written_contracts_read_back(
    spot: &str,
    timestamp: &str,
    contracts: Vec<ContractText>,
    written: String,
    text: &str,
    r: Snapshot,
    i: int,
)
    requires
        call_ensures(write_snapshot, (spot, timestamp, &contracts), written),
        text@ == written@,
        call_ensures(read_snapshot, (text,), r),
        is_numeral(spot@),
        is_line(timestamp@),
        forall|i: int|
            0 <= i < contracts@.len() ==> is_numeral((#[trigger] contracts@[i]).strike@) && is_numeral(
                contracts@[i].dte@,
            ) && is_numeral(contracts@[i].oi@) && is_numeral(contracts@[i].gamma@) && is_numeral(
                contracts@[i].delta@,
            ) && is_numeral(contracts@[i].iv@) && is_numeral(contracts@[i].bid@) && is_numeral(
                contracts@[i].ask@,
            ),
        0 <= i < contracts@.len(),
    ensures
        r.spot matches Some(s) && s@ == spot@,
        r.rows@.len() == contracts@.len(),
        r.rows@[i].strike matches Some(s) && s@ == contracts@[i].strike@,
        r.rows@[i].dte matches Some(s) && s@ == contracts@[i].dte@,
        contracts@[i].is_call ==> r.rows@[i].cp@ == seq!['C'],
        !contracts@[i].is_call ==> r.rows@[i].cp@ == seq!['P'],
        r.rows@[i].oi matches Some(s) && s@ == contracts@[i].oi@,
        r.rows@[i].gamma matches Some(s) && s@ == contracts@[i].gamma@,
        r.rows@[i].delta matches Some(s) && s@ == contracts@[i].delta@,
        r.rows@[i].iv matches Some(s) && s@ == contracts@[i].iv@,
{
    let rows = fields_of(contracts@);
    reveal_strlit("C");
    reveal_strlit("P");
    assert("C"@ =~= seq!['C'] && "P"@ =~= seq!['P']);
    assert forall|k: int| 0 <= k < rows.len() implies is_contract_row(#[trigger] rows[k]) by {
        let c = contracts@[k];
        assert(rows[k] == contract_fields(c));
        lemma_numeral_chars(c.strike@);
        lemma_numeral_chars(c.dte@);
        lemma_numeral_chars(c.oi@);
        lemma_numeral_chars(c.gamma@);
        lemma_numeral_chars(c.delta@);
        lemma_numeral_chars(c.iv@);
        lemma_numeral_chars(c.bid@);
        lemma_numeral_chars(c.ask@);
        let f = rows[k];
        assert(lacks(f[2], ',') && lacks(f[2], '\n'));
        assert forall|j: int| 0 <= j < f.len() implies is_field(#[trigger] f[j]) by {
            assert(j == 0 || j == 1 || j == 2 || j == 3 || j == 4 || j == 5 || j == 6 || j == 7 || j == 8);
        }
        assert(f.last() == c.ask@);
        assert(c.ask@[c.ask@.len() - 1] != '\r');
    }
    law_snapshot_reads_back(spot@, timestamp@, rows);
    let all = lines(text@);
    let n = all.len() as int;
    assert(is_row_of(r.rows@[i], contract_lines(all, n)[i]));
    assert(split(contract_lines(all, n)[i], ',') == rows[i]);
    assert(rows[i] == contract_fields(contracts@[i]));
}

// ---- which contracts count ----

/// A contract is in a bucket exactly where its line is no comment, it expires in 20 to 45
/// days, its volatility is from 0.01 to 2, and its delta lies, for a call, from 0.45 to
/// 0.55, from 0.40 to 0.60 or from 0.20 to 0.30, and for any other side from -0.30 to
/// -0.20.
pub proof fn law_bucket_members(rows: Vec<SnapRow>, xs: Vec<SnapNums>, bucket: Bucket, r: Vec<usize>, k: usize)
    requires
        rows@.len() == xs@.len(),
        call_ensures(bucket_members, (&rows, &xs, bucket), r),
        k < rows@.len(),
    ensures
        forall|i: int, j: int| 0 <= i < j < r@.len() ==> #[trigger] r@[i] < #[trigger] r@[j],
        r@.contains(k) <==> {
            let row = rows@[k as int];
            let x = xs@[k as int];
            &&& !row.commented
            &&& x.iv matches Some(v) && (Num { bits: 0x3f84_7ae1_47ae_147b }).at_most(v) && v.at_most(
                Num { bits: 0x4000_0000_0000_0000 },
            )
            &&& x.dte matches Some(d) && (Num { bits: 0x4034_0000_0000_0000 }).at_most(d) && d.at_most(
                Num { bits: 0x4046_8000_0000_0000 },
            )
            &&& x.delta matches Some(d) && match bucket {
                Bucket::Atm => row.cp@ == seq!['C'] && (Num { bits: 0x3fdc_cccc_cccc_cccd }).at_most(d)
                    && d.at_most(Num { bits: 0x3fe1_9999_9999_999a }),
                Bucket::Wide => row.cp@ == seq!['C'] && (Num { bits: 0x3fd9_9999_9999_999a }).at_most(d)
                    && d.at_most(Num { bits: 0x3fe3_3333_3333_3333 }),
                Bucket::Call25 => row.cp@ == seq!['C'] && (Num { bits: 0x3fc9_9999_9999_999a }).at_most(d)
                    && d.at_most(Num { bits: 0x3fd3_3333_3333_3333 }),
                Bucket::Put25 => row.cp@ != seq!['C'] && (Num { bits: 0xbfd3_3333_3333_3333 }).at_most(d)
                    && d.at_most(Num { bits: 0xbfc9_9999_9999_999a }),
            }
        },
{
    let f = |k: int| in_bucket(rows@[k], xs@[k], bucket);
    assert(rows.len() == rows@.len());
    law_pick(rows@.len() as int, f);
    reveal_strlit("C");
    assert("C"@ =~= seq!['C']);
    if r@.contains(k) {
        let i = choose|i: int| 0 <= i < r@.len() && r@[i] == k;
        assert(f(r@[i] as int));
    }
    if f(k as int) {
        assert(r@.contains(k as int as usize));
    }
}

/// At the money are the contracts of the narrow bucket, and those of the wide one only
/// where the narrow one is empty.
pub proof fn law_atm_members(
    rows: Vec<SnapRow>,
    xs: Vec<SnapNums>,
    close: Vec<usize>,
    wide: Vec<usize>,
    r: Option<Vec<usize>>,
)
    requires
        rows@.len() == xs@.len(),
        call_ensures(bucket_members, (&rows, &xs, Bucket::Atm), close),
        call_ensures(bucket_members, (&rows, &xs, Bucket::Wide), wide),
        call_ensures(atm_members, (&rows, &xs), r),
    ensures
        close@.len() > 0 ==> (r matches Some(m) && m@ == close@),
        close@.len() == 0 && wide@.len() > 0 ==> (r matches Some(m) && m@ == wide@),
        close@.len() == 0 && wide@.len() == 0 ==> r is None,
{
}

/// The wings are the puts and the calls around 25 delta, puts first; there are none where
/// a side is empty or the volatility at the money is not above zero.
pub proof fn law_wing_members(
    rows: Vec<SnapRow>,
    xs: Vec<SnapNums>,
    atm_iv: Num,
    puts: Vec<usize>,
    calls: Vec<usize>,
    r: Option<(Vec<usize>, Vec<usize>)>,
)
    requires
        rows@.len() == xs@.len(),
        call_ensures(bucket_members, (&rows, &xs, Bucket::Put25), puts),
        call_ensures(bucket_members, (&rows, &xs, Bucket::Call25), calls),
        call_ensures(wing_members, (&rows, &xs, atm_iv), r),
    ensures
        r is Some <==> puts@.len() > 0 && calls@.len() > 0 && !atm_iv.nan() && atm_iv.rank() > 0,
        r matches Some((p, c)) ==> p@ == puts@ && c@ == calls@,
{
}

/// What names a put, and what a call.
proof fn lemma_sides(cp: Seq<char>)
    ensures
        is_put(cp) <==> cp.len() == 1 && (cp[0] == 'P' || cp[0] == 'p'),
        same_ignoring_case(cp, "C"@) <==> cp.len() == 1 && (cp[0] == 'C' || cp[0] == 'c'),
{
    reveal_strlit("P");
    reveal_strlit("C");
    if same_ignoring_case(cp, "P"@) {
        assert(ascii_lower(cp[0]) == ascii_lower("P"@[0]));
    }
    if same_ignoring_case(cp, "C"@) {
        assert(ascii_lower(cp[0]) == ascii_lower("C"@[0]));
    }
}

/// A contract is on the surface exactly where it is a put or a call in either case, its
/// volatility is above 0.01 and below 2.5, its delta is from 0.02 to 0.98 in either
/// direction, it expires in 3 to 180 days, and its strike is above zero.
pub proof fn law_on_surface(row: SnapRow, x: SnapNums)
    ensures
        on_surface(row, x) <==> {
            &&& row.cp@.len() == 1 && (row.cp@[0] == 'P' || row.cp@[0] == 'p' || row.cp@[0] == 'C' || row.cp@[0]
                == 'c')
            &&& x.dte is Some
            &&& x.iv matches Some(v) && (Num { bits: 0x3f84_7ae1_47ae_147b }).below(v) && v.below(
                Num { bits: 0x4004_0000_0000_0000 },
            )
            &&& x.delta matches Some(d) && (((Num { bits: 0x3f94_7ae1_47ae_147b }).at_most(d) && d.at_most(
                Num { bits: 0x3fef_5c28_f5c2_8f5c },
            )) || ((Num { bits: 0xbfef_5c28_f5c2_8f5c }).at_most(d) && d.at_most(
                Num { bits: 0xbf94_7ae1_47ae_147b },
            )))
            &&& 3 <= x.days <= 180
            &&& x.strike matches Some(k) && !k.nan() && k.rank() > 0
        },
{
    lemma_sides(row.cp@);
}

/// A contract is out of the money exactly where its delta is from -0.5 to -0.03 for a put,
/// and from 0.03 to 0.5 for any other side.
pub proof fn law_out_of_the_money(row: SnapRow, x: SnapNums)
    ensures
        row.cp@.len() == 1 && (row.cp@[0] == 'P' || row.cp@[0] == 'p') ==> (out_of_the_money(row, x) <==> (
        x.delta matches Some(d) && (Num { bits: 0xbfe0_0000_0000_0000 }).at_most(d) && d.at_most(
            Num { bits: 0xbf9e_b851_eb85_1eb8 },
        ))),
        !(row.cp@.len() == 1 && (row.cp@[0] == 'P' || row.cp@[0] == 'p')) ==> (out_of_the_money(row, x) <==> (
        x.delta matches Some(d) && (Num { bits: 0x3f9e_b851_eb85_1eb8 }).at_most(d) && d.at_most(
            Num { bits: 0x3fe0_0000_0000_0000 },
        ))),
{
    lemma_sides(row.cp@);
}

/// The expiries of a surface: each holds the contracts of its own days that count, and every
/// contract that counts is in the one of its days. There are expiries exactly where the
/// spot is finite and above zero, and two contracts that count expire on different days.
pub proof fn law_expiries(rows: Vec<SnapRow>, xs: Vec<SnapNums>, spot: Num, r: Option<Vec<Group>>, a: int, b: int)
    requires
        rows@.len() == xs@.len(),
        call_ensures(snap_smile, (&rows, &xs, spot), r),
        0 <= a < rows@.len(),
        0 <= b < rows@.len(),
    ensures
        r is Some ==> 0 < spot.rank() < 0x7ff0_0000_0000_0000,
        0 < spot.rank() < 0x7ff0_0000_0000_0000 && on_surface(rows@[a], xs@[a]) && on_surface(rows@[b], xs@[b])
            && xs@[a].days != xs@[b].days ==> r is Some,
        r matches Some(g) ==> g@.len() >= 2 && (forall|h: int|
            0 <= h < g@.len() ==> ((#[trigger] g@[h]).members@.contains(a as usize) <==> on_surface(
                rows@[a],
                xs@[a],
            ) && xs@[a].days == g@[h].key)) && (forall|h: int, i: int|
            0 <= h < i < g@.len() ==> (#[trigger] g@[h]).key < (#[trigger] g@[i]).key) && (on_surface(
            rows@[a],
            xs@[a],
        ) ==> exists|h: int| 0 <= h < g@.len() && (#[trigger] g@[h]).key == xs@[a].days),
{
    let days = days_of(xs@);
    let keep = surface_flags(rows@, xs@);
    assert(days.len() == keep.len());
    assert(rows.len() == rows@.len());
    assert(keep[a] == on_surface(rows@[a], xs@[a]) && keep[b] == on_surface(rows@[b], xs@[b]));
    assert(days[a] == xs@[a].days && days[b] == xs@[b].days);
    if let Some(g) = r {
        lemma_two_groups(days, keep, g@);
        assert forall|h: int| 0 <= h < g@.len() implies ((#[trigger] g@[h]).members@.contains(
            a as usize,
        ) <==> on_surface(
            rows@[a],
            xs@[a],
        ) && xs@[a].days == g@[h].key) by {
            law_group_holds_its_key(days, keep, g@, h, a);
        }
        law_group_holds_its_key(days, keep, g@, 0, a);
    }
}

/// Whether `m` is the entry of a filtered sequence.
proof fn lemma_filter_holds(s: Seq<usize>, f: spec_fn(usize) -> bool, x: usize)
    ensures
        s.filter(f).contains(x) <==> s.contains(x) && f(x),
    decreases s.len(),
{
    reveal(Seq::filter);
    if s.len() > 0 {
        let t = s.drop_last();
        lemma_filter_holds(t, f, x);
        let front = t.filter(f);
        let l = s.last();
        if s.contains(x) {
            let i = choose|i: int| 0 <= i < s.len() && s[i] == x;
            if i < t.len() {
                assert(t[i] == x);
            }
        }
        if t.contains(x) {
            let i = choose|i: int| 0 <= i < t.len() && t[i] == x;
            assert(s[i] == x);
        }
        assert(s[s.len() - 1] == l);
        if f(l) {
            let all = front.push(l);
            assert(s.filter(f) == all);
            if front.contains(x) {
                let i = choose|i: int| 0 <= i < front.len() && front[i] == x;
                assert(all[i] == x);
            }
            assert(all[front.len() as int] == l);
            if all.contains(x) && x != l {
                let i = choose|i: int| 0 <= i < all.len() && all[i] == x;
                assert(front[i] == x);
            }
        }
    }
}

/// The members of an expiry that are out of the money are kept, and no other; there must be
/// four of them.
pub proof fn law_otm_members(
    rows: Vec<SnapRow>,
    xs: Vec<SnapNums>,
    members: Vec<usize>,
    r: Option<Vec<usize>>,
    k: usize,
)
    requires
        rows@.len() == xs@.len(),
        forall|i: int| 0 <= i < members@.len() ==> #[trigger] members@[i] < rows@.len(),
        call_ensures(otm_members, (&rows, &xs, &members), r),
    ensures
        r matches Some(m) ==> m@.len() >= 4 && (m@.contains(k) <==> members@.contains(k) && out_of_the_money(
            rows@[k as int],
            xs@[k as int],
        )),
{
    let f = |k: usize| out_of_the_money(rows@[k as int], xs@[k as int]);
    lemma_filter_holds(members@, f, k);
}

/// The underlying is the VIX where it is called so, in whatever case.
pub proof fn law_is_vix(und: &str, r: bool)
    requires
        call_ensures(is_vix, (und,), r),
    ensures
        r <==> und@.len() == 3 && (und@[0] == 'V' || und@[0] == 'v') && (und@[1] == 'I' || und@[1] == 'i') && (
        und@[2] == 'X' || und@[2] == 'x'),
{
    reveal_strlit("VIX");
    let v = "VIX"@;
    if same_ignoring_case(und@, v) {
        assert(ascii_lower(und@[0]) == ascii_lower(v[0]));
        assert(ascii_lower(und@[1]) == ascii_lower(v[1]));
        assert(ascii_lower(und@[2]) == ascii_lower(v[2]));
    }
}

/// A contract counts for the call skew of the VIX exactly where it is a call, its
/// volatility is above 0.01 and below 10, and its delta is above 0 and below 1; it stands
/// in the group of its days.
pub proof fn law_vix_calls(rows: Vec<SnapRow>, xs: Vec<SnapNums>, r: Vec<Group>, g: int, k: int)
    requires
        rows@.len() == xs@.len(),
        call_ensures(vix_calls, (&rows, &xs), r),
        0 <= g < r@.len(),
        0 <= k < rows@.len(),
    ensures
        r@[g].members@.contains(k as usize) <==> {
            let x = xs@[k];
            &&& rows@[k].cp@ == seq!['C']
            &&& x.days == r@[g].key
            &&& x.dte is Some
            &&& x.delta matches Some(d) && (Num { bits: 0 }).below(d) && d.below(
                Num { bits: 0x3ff0_0000_0000_0000 },
            )
            &&& x.iv matches Some(v) && (Num { bits: 0x3f84_7ae1_47ae_147b }).below(v) && v.below(
                Num { bits: 0x4024_0000_0000_0000 },
            )
        },
        g > 0 ==> r@[g - 1].key < r@[g].key,
        r@[g].members@.len() > 0,
{
    let days = days_of(xs@);
    let keep = vix_flags(rows@, xs@);
    assert(rows.len() == rows@.len());
    reveal_strlit("C");
    assert("C"@ =~= seq!['C']);
    assert(days[k] == xs@[k].days && keep[k] == is_vix_call(rows@[k], xs@[k]));
    law_group_holds_its_key(days, keep, r@, g, k);
    assert(is_group(days, keep, r@[g].key, r@[g].members@));
}

/// The expiry of the call skew has four calls or more, and none with as many is nearer to
/// 90 days, nor as near and earlier. There is one wherever some expiry has four.
pub proof fn law_nearest_expiry(groups: Vec<Group>, r: Option<usize>, h: int)
    requires
        call_ensures(nearest_expiry, (&groups,), r),
        0 <= h < groups@.len(),
        groups@[h].members@.len() >= 4,
        -0x7fff_ffff_ffff_ff00 <= groups@[h].key,
    ensures
        r matches Some(g) && g < groups@.len() && groups@[g as int].members@.len() >= 4 && ({
            let near = groups@[g as int].key - 90;
            let far = groups@[h].key - 90;
            let a = if near < 0 {
                -near
            } else {
                near
            };
            let b = if far < 0 {
                -far
            } else {
                far
            };
            a < b || (a == b && g <= h)
        }),
{
    assert(has_smile(groups@, h));
}

/// The calls that the skew of the VIX is measured from are those of one group of its calls,
/// the one that is nearest to 90 days with four or more.
pub proof fn law_vix_smile(rows: Vec<SnapRow>, xs: Vec<SnapNums>, spot: Num, r: Option<Vec<usize>>) -> (groups:
    Seq<Group>)
    requires
        rows@.len() == xs@.len(),
        call_ensures(vix_smile, (&rows, &xs, spot), r),
    ensures
        !spot.finite() ==> r is None,
        spot.finite() ==> is_grouping(days_of(xs@), vix_flags(rows@, xs@), groups),
        spot.finite() ==> (r matches Some(m) ==> m@.len() >= 4 && exists|g: int|
            0 <= g < groups.len() && (#[trigger] groups[g]).members@ == m@ && forall|h: int|
                0 <= h < groups.len() && (#[trigger] groups[h]).members@.len() >= 4 ==> off_by(
                    groups[g].key,
                ) <= off_by(groups[h].key) || off_by(groups[h].key) >= i64::MAX),
{
    if spot.finite() {
        let groups = choose|groups: Seq<Group>| #[trigger]
            is_grouping(days_of(xs@), vix_flags(rows@, xs@), groups) && is_vix_smile(r, groups);
        let found = choose|g: Option<usize>| #[trigger]
            is_nearest_expiry(g, groups) && match g {
                Some(k) => r matches Some(m) && m@ == groups[k as int].members@,
                None => r is None,
            };
        if let Some(m) = r {
            let g = found->0 as int;
            assert(has_smile(groups, g));
            assert(groups[g].members@ == m@);
            assert forall|h: int| 0 <= h < groups.len() && (#[trigger] groups[h]).members@.len() >= 4 implies off_by(
                groups[g].key,
            ) <= off_by(groups[h].key) || off_by(groups[h].key) >= i64::MAX by {
                if off_by(groups[h].key) < i64::MAX {
                    assert(has_smile(groups, h));
                }
            }
        }
        groups
    } else {
        Seq::empty()
    }
}

/// How far some days are from 90.
pub open spec fn off_by(days: i64) -> int {
    if days < 90 {
        90 - days
    } else {
        days - 90
    }
}

/// A point of the call skew is kept exactly where both volatilities are above zero.
pub proof fn law_keeps_point(iv_atm: Num, iv_25c: Num, r: bool)
    requires
        call_ensures(keeps_point, (iv_atm, iv_25c), r),
    ensures
        r <==> !iv_atm.nan() && iv_atm.rank() > 0 && !iv_25c.nan() && iv_25c.rank() > 0,
{
}

/// The gamma profile is of the contracts with strike, days, open interest, gamma and
/// volatility; it asks for a finite spot and one such contract.
pub proof fn law_profile_members(xs: Vec<SnapNums>, spot: Num, r: Option<Vec<usize>>, k: usize)
    requires
        call_ensures(profile_members, (&xs, spot), r),
        k < xs@.len(),
    ensures
        r is Some ==> spot.finite(),
        r matches Some(m) ==> (m@.contains(k) <==> xs@[k as int].strike is Some && xs@[k as int].dte is Some
            && xs@[k as int].oi is Some && xs@[k as int].gamma is Some && xs@[k as int].iv is Some),
        spot.finite() && xs@[k as int].strike is Some && xs@[k as int].dte is Some && xs@[k as int].oi is Some
            && xs@[k as int].gamma is Some && xs@[k as int].iv is Some ==> r is Some,
{
    let f = |k: int| in_profile(xs@[k]);
    assert(xs.len() == xs@.len());
    law_pick(xs@.len() as int, f);
    if f(k as int) {
        assert(pick(xs@.len() as int, f).contains(k as int as usize));
    }
    if let Some(m) = r {
        if m@.contains(k) {
            let i = choose|i: int| 0 <= i < m@.len() && m@[i] == k;
            assert(f(m@[i] as int));
        }
    }
}

/// Strikes are grouped by their hundredths, where they lie in the band, both ends
/// included.
pub proof fn law_by_strike(
    strikes: Vec<Num>,
    cents: Vec<i64>,
    lo: Num,
    hi: Num,
    r: Vec<Group>,
    g: int,
    k: int,
)
    requires
        strikes@.len() == cents@.len(),
        call_ensures(by_strike, (&strikes, &cents, lo, hi), r),
        0 <= g < r@.len(),
        0 <= k < strikes@.len(),
    ensures
        r@[g].members@.contains(k as usize) <==> cents@[k] == r@[g].key && lo.at_most(strikes@[k])
            && strikes@[k].at_most(hi),
        g > 0 ==> r@[g - 1].key < r@[g].key,
        lo.at_most(strikes@[k]) && strikes@[k].at_most(hi) ==> exists|h: int|
            0 <= h < r@.len() && (#[trigger] r@[h]).key == cents@[k],
{
    let keep = band_flags(strikes@, lo, hi);
    assert(strikes.len() == strikes@.len());
    assert(keep[k] == strikes@[k].between(lo, hi));
    law_group_holds_its_key(cents@, keep, r@, g, k);
}

/// A contract is left out of the exposure at another spot exactly where its volatility is
/// 0.01 or less, or above 2.
pub proof fn law_counts_for_flip(iv: Num, r: bool)
    requires
        call_ensures(counts_for_flip, (iv,), r),
    ensures
        !r <==> iv.at_most(Num { bits: 0x3f84_7ae1_47ae_147b }) || (Num { bits: 0x4000_0000_0000_0000 }).below(
            iv,
        ),
{
}

/// The exposure changes its sign on a step exactly where both values are finite and differ,
/// and one of them alone has a sign.
pub proof fn law_crossings(vals: Vec<Num>, r: Vec<usize>, k: usize)
    requires
        call_ensures(crossings, (&vals,), r),
        k < vals@.len(),
    ensures
        r@.contains(k) <==> k >= 1 && vals@[k - 1].finite() && vals@[k as int].finite() && (vals@[k - 1].below(
            vals@[k as int],
        ) || vals@[k as int].below(vals@[k - 1])) && ((vals@[k - 1].bits >= 0x8000_0000_0000_0000)
            != (vals@[k as int].bits >= 0x8000_0000_0000_0000)),
        forall|i: int, j: int| 0 <= i < j < r@.len() ==> #[trigger] r@[i] < #[trigger] r@[j],
{
    let f = |i: int| crosses(vals@, i);
    assert(vals.len() == vals@.len());
    law_pick(vals@.len() as int, f);
    if r@.contains(k) {
        let i = choose|i: int| 0 <= i < r@.len() && r@[i] == k;
        assert(f(r@[i] as int));
    }
    if f(k as int) {
        assert(r@.contains(k as int as usize));
    }
}

/// The closest distance is below infinity, none is less, and none as little and earlier.
pub proof fn law_closest(distances: Vec<Num>, r: Option<usize>, j: int)
    requires
        call_ensures(closest, (&distances,), r),
        0 <= j < distances@.len(),
        distances@[j].below(Num { bits: 0x7ff0_0000_0000_0000 }),
    ensures
        r matches Some(k) && k < distances@.len() && distances@[k as int].at_most(distances@[j]) && (
        distances@[j].at_most(distances@[k as int]) ==> k <= j),
{
    assert(is_close(distances@[j]));
}

/// The smiles of a surface are of some of its expiries, by ascending days: each holds the
/// contracts of its own days that are on the surface and out of the money, four or more.
/// There are two smiles or more, and no expiry with four such contracts is left out.
pub proof fn law_surface_smiles(
    rows: Vec<SnapRow>,
    xs: Vec<SnapNums>,
    spot: Num,
    r: Option<Vec<Group>>,
    k: int,
) -> (groups: Seq<Group>)
    requires
        rows@.len() == xs@.len(),
        call_ensures(surface_smiles, (&rows, &xs, spot), r),
        0 <= k < rows@.len(),
    ensures
        r is Some ==> 0 < spot.rank() < 0x7ff0_0000_0000_0000,
        r is Some ==> is_grouping(days_of(xs@), surface_flags(rows@, xs@), groups),
        r matches Some(s) ==> s@.len() >= 2 && (forall|h: int|
            0 <= h < s@.len() ==> (#[trigger] s@[h]).members@.len() >= 4 && (s@[h].members@.contains(k as usize)
                <==> on_surface(rows@[k], xs@[k]) && out_of_the_money(rows@[k], xs@[k]) && xs@[k].days
                == s@[h].key)),
        r matches Some(s) ==> (forall|h: int, i: int|
            0 <= h < i < s@.len() ==> (#[trigger] s@[h]).key < (#[trigger] s@[i]).key),
        r matches Some(s) ==> (forall|g: int|
            0 <= g < groups.len() && otm_of(rows@, xs@, (#[trigger] groups[g]).members@).len() >= 4
                ==> has_key(s@, groups[g].key)),
{
    let days = days_of(xs@);
    let keep = surface_flags(rows@, xs@);
    assert(rows.len() == rows@.len());
    if let Some(s) = r {
        let groups = choose|groups: Seq<Group>| #[trigger]
            is_grouping(days, keep, groups) && are_smiles(r, smiles_of(rows@, xs@, groups));
        let all = groups.map_values(|g: Group| smile_of(rows@, xs@, g));
        let f = |s: (i64, Seq<usize>)| s.1.len() >= MIN_QUOTES;
        let smiles = all.filter(f);
        assert(smiles == smiles_of(rows@, xs@, groups));
        let from = lemma_filter_places(all, f);
        let gv = group_views(s@);
        assert(gv == smiles);
        assert(gv.len() == s@.len());
        assert(keep[k] == on_surface(rows@[k], xs@[k]) && days[k] == xs@[k].days);
        assert forall|h: int| 0 <= h < s@.len() implies (#[trigger] s@[h]).key == groups[from[h]].key
            && s@[h].members@ == otm_of(rows@, xs@, groups[from[h]].members@) && s@[h].members@.len() >= 4 by {
            assert(gv[h] == (s@[h].key, s@[h].members@));
            assert(smiles[h] == all[from[h]]);
            assert(all[from[h]] == smile_of(rows@, xs@, groups[from[h]]));
        }
        let out = |m: usize| out_of_the_money(rows@[m as int], xs@[m as int]);
        assert forall|h: int| 0 <= h < s@.len() implies (#[trigger] s@[h]).members@.len() >= 4 && (
        s@[h].members@.contains(k as usize) <==> on_surface(rows@[k], xs@[k]) && out_of_the_money(
            rows@[k],
            xs@[k],
        ) && xs@[k].days == s@[h].key) by {
            let g = from[h];
            law_group_holds_its_key(days, keep, groups, g, k);
            lemma_filter_holds(groups[g].members@, out, k as usize);
        }
        assert forall|h: int, i: int| 0 <= h < i < s@.len() implies (#[trigger] s@[h]).key < (
        #[trigger] s@[i]).key by {
            assert(from[h] < from[i]);
            assert(groups[from[h]].key < groups[from[i]].key);
        }
        assert forall|g: int|
            0 <= g < groups.len() && otm_of(rows@, xs@, (#[trigger] groups[g]).members@).len() >= 4 implies has_key(
            s@,
            groups[g].key,
        ) by {
            assert(all[g] == smile_of(rows@, xs@, groups[g]));
            assert(f(all[g]));
            let h = choose|h: int| 0 <= h < from.len() && from[h] == g;
            assert(s@[h].key == groups[g].key);
        }
        groups
    } else {
        Seq::empty()
    }
}

/// Whether some group has the key.
pub open spec fn has_key(groups: Seq<Group>, key: i64) -> bool {
    exists|h: int| 0 <= h < groups.len() && (#[trigger] groups[h]).key == key
}

/// A snapshot starts with the line of its spot and timestamp, and goes on with its header.
pub proof fn law_snapshot_starts(spot: &str, timestamp: &str, contracts: Vec<ContractText>, r: String)
    requires
        call_ensures(write_snapshot, (spot, timestamp, &contracts), r),
        contracts@.len() == 0,
    ensures
        r@ == "# spot,"@ + spot@ + ",ts,"@ + timestamp@ + seq!['\n']
            + "strike,dte,cp,oi,gamma,delta,iv,bid,ask"@ + seq!['\n'],
{
    let rows = fields_of(contracts@);
    let all = snapshot_lines(spot@, timestamp@, rows);
    let a = spot_line(spot@, timestamp@);
    let b = "strike,dte,cp,oi,gamma,delta,iv,bid,ask"@;
    assert(rows =~= Seq::<Seq<Seq<char>>>::empty());
    assert(all =~= seq![a, b]);
    reveal_with_fuel(joined, 3);
    assert(all.drop_last() =~= seq![a]);
    assert(joined(all, '\n') =~= a.push('\n') + b);
    assert(r@ =~= a + seq!['\n'] + b + seq!['\n']);
}

/// Four members of an expiry that are out of the money make a smile.
pub proof fn law_four_make_a_smile(
    rows: Vec<SnapRow>,
    xs: Vec<SnapNums>,
    members: Vec<usize>,
    r: Option<Vec<usize>>,
    a: int,
    b: int,
    c: int,
    d: int,
)
    requires
        rows@.len() == xs@.len(),
        forall|i: int| 0 <= i < members@.len() ==> #[trigger] members@[i] < rows@.len(),
        call_ensures(otm_members, (&rows, &xs, &members), r),
        0 <= a < b < c < d < members@.len(),
        out_of_the_money(rows@[members@[a] as int], xs@[members@[a] as int]),
        out_of_the_money(rows@[members@[b] as int], xs@[members@[b] as int]),
        out_of_the_money(rows@[members@[c] as int], xs@[members@[c] as int]),
        out_of_the_money(rows@[members@[d] as int], xs@[members@[d] as int]),
    ensures
        r is Some,
{
    let f = |k: usize| out_of_the_money(rows@[k as int], xs@[k as int]);
    let from = lemma_filter_places(members@, f);
    assert(f(members@[a]) && f(members@[b]) && f(members@[c]) && f(members@[d]));
    let i = choose|i: int| 0 <= i < from.len() && from[i] == a;
    let j = choose|j: int| 0 <= j < from.len() && from[j] == b;
    let k = choose|k: int| 0 <= k < from.len() && from[k] == c;
    let l = choose|l: int| 0 <= l < from.len() && from[l] == d;
    assert(i < j && j < k && k < l) by {
        if j <= i {
            assert(j == i || from[j] < from[i]);
        }
        if k <= j {
            assert(k == j || from[k] < from[j]);
        }
        if l <= k {
            assert(l == k || from[l] < from[k]);
        }
    }
    assert(members@.filter(f).len() >= 4);
}

/// A surface is owed wherever the spot is finite and above zero and two expiries have four
/// contracts each that count and are out of the money.
pub proof fn law_surface_is_owed(rows: Vec<SnapRow>, xs: Vec<SnapNums>, spot: Num, r: Option<Vec<Group>>) -> (groups:
    Seq<Group>)
    requires
        rows@.len() == xs@.len(),
        call_ensures(surface_smiles, (&rows, &xs, spot), r),
        0 < spot.rank() < 0x7ff0_0000_0000_0000,
        r is None,
        exists|a: int, b: int|
            0 <= a < rows@.len() && 0 <= b < rows@.len() && on_surface(#[trigger] rows@[a], xs@[a]) && on_surface(
                #[trigger] rows@[b],
                xs@[b],
            ) && xs@[a].days != xs@[b].days,
    ensures
        is_grouping(days_of(xs@), surface_flags(rows@, xs@), groups),
        forall|g: int, h: int|
            0 <= g < h < groups.len() ==> otm_of(rows@, xs@, (#[trigger] groups[g]).members@).len() < 4 || otm_of(
                rows@,
                xs@,
                (#[trigger] groups[h]).members@,
            ).len() < 4,
{
    let days = days_of(xs@);
    let keep = surface_flags(rows@, xs@);
    let (a, b) = choose|a: int, b: int|
        0 <= a < rows@.len() && 0 <= b < rows@.len() && on_surface(#[trigger] rows@[a], xs@[a]) && on_surface(
            #[trigger] rows@[b],
            xs@[b],
        ) && xs@[a].days != xs@[b].days;
    assert(keep[a] && keep[b] && days[a] != days[b]);
    assert(has_two_expiries(days, keep));
    let groups = choose|groups: Seq<Group>| #[trigger]
        is_grouping(days, keep, groups) && are_smiles(r, smiles_of(rows@, xs@, groups));
    let all = groups.map_values(|g: Group| smile_of(rows@, xs@, g));
    let f = |s: (i64, Seq<usize>)| s.1.len() >= MIN_QUOTES;
    assert(all.filter(f) == smiles_of(rows@, xs@, groups));
    let from = lemma_filter_places(all, f);
    assert forall|g: int, h: int| 0 <= g < h < groups.len() implies otm_of(
        rows@,
        xs@,
        (#[trigger] groups[g]).members@,
    ).len() < 4 || otm_of(rows@, xs@, (#[trigger] groups[h]).members@).len() < 4 by {
        assert(all[g] == smile_of(rows@, xs@, groups[g]) && all[h] == smile_of(rows@, xs@, groups[h]));
        if f(all[g]) && f(all[h]) {
            let i = choose|i: int| 0 <= i < from.len() && from[i] == g;
            let j = choose|j: int| 0 <= j < from.len() && from[j] == h;
            assert(i != j);
        }
    }
    groups
}

/// The call skew of the VIX is owed wherever the spot is finite and some group of its calls
/// has four: where there is none, all groups have fewer, or are too far from 90 days for
/// the distance to be a number of days.
pub proof fn law_vix_smile_is_owed(
    rows: Vec<SnapRow>,
    xs: Vec<SnapNums>,
    spot: Num,
    r: Option<Vec<usize>>,
) -> (groups: Seq<Group>)
    requires
        rows@.len() == xs@.len(),
        call_ensures(vix_smile, (&rows, &xs, spot), r),
        spot.finite(),
        r is None,
    ensures
        is_grouping(days_of(xs@), vix_flags(rows@, xs@), groups),
        forall|h: int|
            0 <= h < groups.len() ==> (#[trigger] groups[h]).members@.len() < 4 || off_by(groups[h].key)
                >= 0x7fff_ffff_ffff_ffff,
{
    let groups = choose|groups: Seq<Group>| #[trigger]
        is_grouping(days_of(xs@), vix_flags(rows@, xs@), groups) && is_vix_smile(r, groups);
    let found = choose|g: Option<usize>| #[trigger]
        is_nearest_expiry(g, groups) && match g {
            Some(k) => r matches Some(m) && m@ == groups[k as int].members@,
            None => r is None,
        };
    assert forall|h: int| 0 <= h < groups.len() implies (#[trigger] groups[h]).members@.len() < 4 || off_by(
        groups[h].key,
    ) >= 0x7fff_ffff_ffff_ffff by {
        assert(!has_smile(groups, h));
    }
    groups
}

} // verus!

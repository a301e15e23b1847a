//! The data of the charts, as script literals.

use crate::json::{quoted, quoted_text};
use crate::num::Num;
use crate::text::{join, joined, views};
use vstd::prelude::*;

verus! {

/// A number with its text.
pub struct Cell {
    pub value: Num,
    pub text: String,
}

/// The literal of a number: its text where it is finite, else `null`.
pub open spec fn cell_text(c: Cell) -> Seq<char> {
    if c.value.finite() {
        c.text@
    } else {
        "null"@
    }
}

/// The literal of a list.
pub open spec fn list_text(items: Seq<Seq<char>>) -> Seq<char> {
    seq!['['] + joined(items, ',') + seq![']']
}

/// The literal of a list of numbers.
pub open spec fn numbers_text(cells: Seq<Cell>) -> Seq<char> {
    list_text(cells.map_values(|c: Cell| cell_text(c)))
}

/// A date in quotation marks.
pub open spec fn date_text(date: Seq<char>) -> Seq<char> {
    seq!['"'] + date + seq!['"']
}

/// The literal of a list of dates.
pub open spec fn dates_text(dates: Seq<Seq<char>>) -> Seq<char> {
    list_text(dates.map_values(|d: Seq<char>| date_text(d)))
}

fn cell(c: &Cell) -> (r: String)
    ensures
        r@ == cell_text(*c),
{
    if c.value.is_finite() {
        c.text.clone()
    } else {
        "null".to_string()
    }
}

fn list(items: &Vec<String>) -> (r: String)
    ensures
        r@ == list_text(views(items@)),
{
    let mut s: String = String::new();
    s.push('[');
    s.append(join(items, ',').as_str());
    s.push(']');
    assert(s@ =~= list_text(views(items@)));
    s
}

/// The literal of a list of numbers, `null` for those that are not finite.
pub fn num_arr(cells: &Vec<Cell>) -> (r: String)
    ensures
        r@ == numbers_text(cells@),
{
    let mut items: Vec<String> = Vec::new();
    let mut i: usize = 0;
    while i < cells.len()
        invariant
            i <= cells@.len(),
            items@.len() == i,
            forall|k: int| 0 <= k < i ==> (#[trigger] items@[k])@ == cell_text(cells@[k]),
        decreases cells@.len() - i,
    {
        items.push(cell(&cells[i]));
        i = i + 1;
    }
    assert(views(items@) =~= cells@.map_values(|c: Cell| cell_text(c)));
    list(&items)
}

/// The literal of a list of dates.
pub fn date_arr(dates: &Vec<String>) -> (r: String)
    ensures
        r@ == dates_text(views(dates@)),
{
    let mut items: Vec<String> = Vec::new();
    let mut i: usize = 0;
    while i < dates.len()
        invariant
            i <= dates@.len(),
            items@.len() == i,
            forall|k: int| 0 <= k < i ==> (#[trigger] items@[k])@ == date_text(dates@[k]@),
        decreases dates@.len() - i,
    {
        let mut s: String = String::new();
        s.push('"');
        s.append(dates[i].as_str());
        s.push('"');
        assert(s@ =~= date_text(dates@[i as int]@));
        items.push(s);
        i = i + 1;
    }
    assert(views(items@) =~= views(dates@).map_values(|d: Seq<char>| date_text(d)));
    list(&items)
}

/// The columns of the dashboard.
pub struct Columns {
    pub close: Vec<Cell>,
    pub atm: Vec<Cell>,
    pub skew_norm: Vec<Cell>,
    pub skew_abs: Vec<Cell>,
    pub vrp: Vec<Cell>,
}

/// The constants of the dashboard, where `title` is the literal of its title.
pub open spec fn constants_text(title: Seq<char>, dates: Seq<Seq<char>>, c: Columns) -> Seq<char> {
    "const TITLE="@ + title + ";\nconst DATES="@ + dates_text(dates) + ";\nconst CLOSE="@
        + numbers_text(c.close@) + ";\nconst ATM="@ + numbers_text(c.atm@) + ";\nconst SKEWN="@
        + numbers_text(c.skew_norm@) + ";\nconst SKEWA="@ + numbers_text(c.skew_abs@)
        + ";\nconst VRP="@ + numbers_text(c.vrp@) + ";\n"@
}

/// The constants of the dashboard, from the literal of its title.
pub fn constants(title: &str, dates: &Vec<String>, c: &Columns) -> (r: String)
    ensures
        r@ == constants_text(title@, views(dates@), *c),
{
    let mut s: String = "const TITLE=".to_string();
    s.append(title);
    s.append(";\nconst DATES=");
    s.append(date_arr(dates).as_str());
    s.append(";\nconst CLOSE=");
    s.append(num_arr(&c.close).as_str());
    s.append(";\nconst ATM=");
    s.append(num_arr(&c.atm).as_str());
    s.append(";\nconst SKEWN=");
    s.append(num_arr(&c.skew_norm).as_str());
    s.append(";\nconst SKEWA=");
    s.append(num_arr(&c.skew_abs).as_str());
    s.append(";\nconst VRP=");
    s.append(num_arr(&c.vrp).as_str());
    s.append(";\n");
    assert(s@ =~= constants_text(title@, views(dates@), *c));
    s
}

/// The constants of the dashboard of a title.
pub fn write_dashboard(title: &str, dates: &Vec<String>, c: &Columns) -> (r: String)
    ensures
        r@ == constants_text(quoted_text(title@), views(dates@), *c),
{
    constants(quoted(title).as_str(), dates, c)
}

/// What the chart shows of a day under the pointer.
pub struct Hover {
    pub date: String,
    pub close: Cell,
    pub drawdown: Cell,
    pub skew_abs: Cell,
    pub skew_norm: Cell,
    pub atm_iv: Cell,
}

/// The literal of what the chart shows of a day.
pub open spec fn hover_text(h: Hover) -> Seq<char> {
    "{\"d\":\""@ + h.date@ + "\",\"c\":"@ + cell_text(h.close) + ",\"dd\":"@ + cell_text(h.drawdown)
        + ",\"sa\":"@ + cell_text(h.skew_abs) + ",\"sn\":"@ + cell_text(h.skew_norm) + ",\"a\":"@
        + cell_text(h.atm_iv) + "}"@
}

fn hover(h: &Hover) -> (r: String)
    ensures
        r@ == hover_text(*h),
{
    let mut s: String = "{\"d\":\"".to_string();
    s.append(h.date.as_str());
    s.append("\",\"c\":");
    s.append(cell(&h.close).as_str());
    s.append(",\"dd\":");
    s.append(cell(&h.drawdown).as_str());
    s.append(",\"sa\":");
    s.append(cell(&h.skew_abs).as_str());
    s.append(",\"sn\":");
    s.append(cell(&h.skew_norm).as_str());
    s.append(",\"a\":");
    s.append(cell(&h.atm_iv).as_str());
    s.append("}");
    assert(s@ =~= hover_text(*h));
    s
}

/// The literal of what the chart shows of all days.
pub fn hover_data(rows: &Vec<Hover>) -> (r: String)
    ensures
        r@ == list_text(rows@.map_values(|h: Hover| hover_text(h))),
{
    let mut items: Vec<String> = Vec::new();
    let mut i: usize = 0;
    while i < rows.len()
        invariant
            i <= rows@.len(),
            items@.len() == i,
            forall|k: int| 0 <= k < i ==> (#[trigger] items@[k])@ == hover_text(rows@[k]),
        decreases rows@.len() - i,
    {
        items.push(hover(&rows[i]));
        i = i + 1;
    }
    assert(views(items@) =~= rows@.map_values(|h: Hover| hover_text(h)));
    list(&items)
}

// ---- what literals owe to their data ----

/// A list of numbers gives each in its place: the text of a finite one, and `null` for the
/// rest, with commas between them, in brackets.
pub proof fn law_num_arr(cells: Vec<Cell>, r: String, items: Seq<Seq<char>>)
    requires
        call_ensures(num_arr, (&cells,), r),
        items.len() == cells@.len(),
        forall|i: int|
            0 <= i < items.len() ==> #[trigger] items[i] == (if cells@[i].value.finite() {
                cells@[i].text@
            } else {
                seq!['n', 'u', 'l', 'l']
            }),
    ensures
        r@ == seq!['['] + joined(items, ',') + seq![']'],
{
    reveal_strlit("null");
    assert("null"@ =~= seq!['n', 'u', 'l', 'l']);
    assert(cells@.map_values(|c: Cell| cell_text(c)) =~= items);
}

/// A list of dates gives each in its place, in quotation marks.
pub proof fn law_date_arr(dates: Vec<String>, r: String, items: Seq<Seq<char>>)
    requires
        call_ensures(date_arr, (&dates,), r),
        items.len() == dates@.len(),
        forall|i: int| 0 <= i < items.len() ==> #[trigger] items[i] == seq!['"'] + dates@[i]@ + seq!['"'],
    ensures
        r@ == seq!['['] + joined(items, ',') + seq![']'],
{
    assert(views(dates@).map_values(|d: Seq<char>| date_text(d)) =~= items);
}

/// Each constant of the dashboard has the list of its own column.
pub proof fn law_dashboard(
    title: &str,
    dates: Vec<String>,
    c: Columns,
    r: String,
    days: String,
    close: String,
    atm: String,
    skew_norm: String,
    skew_abs: String,
    vrp: String,
)
    requires
        call_ensures(write_dashboard, (title, &dates, &c), r),
        call_ensures(date_arr, (&dates,), days),
        call_ensures(num_arr, (&c.close,), close),
        call_ensures(num_arr, (&c.atm,), atm),
        call_ensures(num_arr, (&c.skew_norm,), skew_norm),
        call_ensures(num_arr, (&c.skew_abs,), skew_abs),
        call_ensures(num_arr, (&c.vrp,), vrp),
    ensures
        r@ == "const TITLE="@ + quoted_text(title@) + ";\nconst DATES="@ + days@ + ";\nconst CLOSE="@ + close@
            + ";\nconst ATM="@ + atm@ + ";\nconst SKEWN="@ + skew_norm@ + ";\nconst SKEWA="@ + skew_abs@
            + ";\nconst VRP="@ + vrp@ + ";\n"@,
{
}

/// The literal of a number that is shown: its text where it is finite, else `null`.
pub open spec fn shown_as(c: Cell) -> Seq<char> {
    if c.value.finite() {
        c.text@
    } else {
        seq!['n', 'u', 'l', 'l']
    }
}

/// What is shown of a day holds, each under its own name, the date, the close, the
/// drawdown, the skew, its normalized form, and the volatility at the money.
pub proof fn law_hover_data(rows: Vec<Hover>, r: String, items: Seq<Seq<char>>)
    requires
        call_ensures(hover_data, (&rows,), r),
        items.len() == rows@.len(),
        forall|i: int|
            0 <= i < items.len() ==> #[trigger] items[i] == "{\"d\":\""@ + rows@[i].date@ + "\",\"c\":"@ + shown_as(
                rows@[i].close,
            ) + ",\"dd\":"@ + shown_as(rows@[i].drawdown) + ",\"sa\":"@ + shown_as(rows@[i].skew_abs) + ",\"sn\":"@
                + shown_as(rows@[i].skew_norm) + ",\"a\":"@ + shown_as(rows@[i].atm_iv) + "}"@,
    ensures
        r@ == seq!['['] + joined(items, ',') + seq![']'],
{
    reveal_strlit("null");
    assert("null"@ =~= seq!['n', 'u', 'l', 'l']);
    assert(rows@.map_values(|h: Hover| hover_text(h)) =~= items);
}

} // verus!

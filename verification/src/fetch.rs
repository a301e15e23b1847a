//! The daily option chains of the query service, and the cache that holds their rows.

use crate::json::{
    copy, field_of, is_steady, items, items_of, json_parsed, json_view, json_views, json_written,
    lemma_nests_within, member, member_of, nests_within, parse, steady_to, text_field, text_of,
    written, JsonView, DEEPEST,
};
use crate::text::{first_chars, head, lossy, same, utf8_lossy};
use vstd::prelude::*;

verus! {

/// The directory that holds all cached data.
pub fn default_cache_root() -> (r: String)
    ensures
        r@ == "data"@,
{
    "data".to_string()
}

/// The query for the chain of one underlying on one day.
pub open spec fn day_query_text(symbol: Seq<char>, date: Seq<char>) -> Seq<char> {
    "select `date`,expiration,strike,call_put,bid,ask,vol,delta from option_chain where act_symbol='"@
        + symbol + "' and `date`='"@ + date + "' order by expiration,strike"@
}

/// The query for the chain of one underlying on one day.
pub fn day_query(symbol: &str, date: &str) -> (r: String)
    ensures
        r@ == day_query_text(symbol@, date@),
{
    let mut s: String = String::new();
    s.append(
        "select `date`,expiration,strike,call_put,bid,ask,vol,delta from option_chain where act_symbol='",
    );
    s.append(symbol);
    s.append("' and `date`='");
    s.append(date);
    s.append("' order by expiration,strike");
    assert(s@ =~= day_query_text(symbol@, date@));
    s
}

/// The text of member `key`, or `other`.
pub open spec fn text_or(v: JsonView, key: Seq<char>, other: Seq<char>) -> Seq<char> {
    match text_of(field_of(v, key)) {
        Some(s) => s,
        None => other,
    }
}

/// What the answer to a query says: the document where the query succeeded, else why
/// there is none.
pub open spec fn answer(body: Seq<u8>) -> Result<JsonView, Seq<char>> {
    match json_parsed(body) {
        Err(e) => Err("json parse failed: "@ + e + "; body="@ + head(utf8_lossy(body), 200)),
        Ok(v) => if text_or(v, "query_execution_status"@, ""@) == "Success"@ {
            Ok(v)
        } else {
            Err("dolt query error: "@ + text_or(v, "query_execution_message"@, "unknown error"@))
        },
    }
}

fn text_else(v: &serde_json::Value, key: &str, other: &str) -> (r: String)
    ensures
        r@ == text_or(json_view(*v), key@, other@),
{
    match text_field(v, key) {
        Some(s) => s,
        None => other.to_string(),
    }
}

/// The document that answers a query, or why there is none.
pub fn dolt_query(body: &[u8]) -> (r: Result<serde_json::Value, String>)
    ensures
        match r {
            Ok(v) => answer(body@) matches Ok(x) && json_view(v) == x && nests_within(
                x,
                DEEPEST as nat,
            ),
            Err(e) => answer(body@) matches Err(m) && e@ == m,
        },
{
    match parse(body) {
        Ok(v) => {
            let status: String = text_else(&v, "query_execution_status", "");
            if same(status.as_str(), "Success") {
                Ok(v)
            } else {
                let mut m: String = "dolt query error: ".to_string();
                let why: String = text_else(&v, "query_execution_message", "unknown error");
                m.append(why.as_str());
                Err(m)
            }
        },
        Err(e) => {
            let mut m: String = "json parse failed: ".to_string();
            m.append(e.as_str());
            m.append("; body=");
            m.append(first_chars(lossy(body).as_str(), 200).as_str());
            Err(m)
        },
    }
}

/// The items of a list, none where it is no list.
pub open spec fn items_or_none(v: JsonView) -> Seq<JsonView> {
    match items_of(v) {
        Some(items) => items,
        None => Seq::empty(),
    }
}

fn copies(list: &Vec<serde_json::Value>) -> (r: Vec<serde_json::Value>)
    ensures
        json_views(r@) == json_views(list@),
{
    let mut out: Vec<serde_json::Value> = Vec::new();
    let mut i: usize = 0;
    while i < list.len()
        invariant
            i <= list@.len(),
            out@.len() == i,
            forall|k: int| 0 <= k < i ==> json_view(#[trigger] out@[k]) == json_view(list@[k]),
        decreases list@.len() - i,
    {
        out.push(copy(&list[i]));
        i = i + 1;
    }
    assert(json_views(out@) =~= json_views(list@));
    out
}

/// The items of a member stand two levels below a document.
proof fn lemma_rows_nest(v: JsonView, key: Seq<char>)
    requires
        nests_within(v, DEEPEST as nat),
    ensures
        forall|i: int|
            0 <= i < items_or_none(field_of(v, key)).len() ==> nests_within(
                #[trigger] items_or_none(field_of(v, key))[i],
                (DEEPEST - 1) as nat,
            ),
{
    let rows = items_or_none(field_of(v, key));
    if member_of(v, key) is Some {
        let m = v->Object_0;
        assert(nests_within(m[key], (DEEPEST - 1) as nat));
        assert forall|i: int| 0 <= i < rows.len() implies nests_within(
            #[trigger] rows[i],
            (DEEPEST - 1) as nat,
        ) by {
            lemma_nests_within(rows[i], (DEEPEST - 2) as nat, (DEEPEST - 1) as nat);
        }
    }
}

/// The rows of a day, and the bytes that the cache keeps of them.
pub struct DayRows {
    pub rows: Vec<serde_json::Value>,
    pub cache: Vec<u8>,
}

/// The rows of the answer to the query of a day, and what the cache keeps of them.
/// The cache keeps days without rows too, so that they are not asked for again. A day is
/// the same when it comes from the cache, unless a number in it is none that is the same
/// once it is written and read.
pub fn dolt_day_rows(body: &[u8]) -> (r: Result<DayRows, String>)
    ensures
        match answer(body@) {
            Ok(v) => r matches Ok(day) && json_views(day.rows@) == items_or_none(field_of(v, "rows"@)),
            Err(m) => r matches Err(e) && e@ == m,
        },
        r matches Ok(day) ==> day.cache@ == json_written(json_views(day.rows@)),
        r matches Ok(day) ==> ((forall|i: int|
            0 <= i < day.rows@.len() ==> is_steady(json_view(#[trigger] day.rows@[i])))
            ==> rows_in_cache(day.cache@) == Some(json_views(day.rows@))),
{
    match dolt_query(body) {
        Ok(v) => {
            let rows: Vec<serde_json::Value> = match member(&v, "rows") {
                Some(x) => match items(x) {
                    Some(list) => copies(list),
                    None => Vec::new(),
                },
                None => Vec::new(),
            };
            assert(json_views(rows@) =~= items_or_none(field_of(json_view(v), "rows"@)));
            proof {
                lemma_rows_nest(json_view(v), "rows"@);
                let views = json_views(rows@);
                assert forall|i: int| 0 <= i < rows@.len() && is_steady(
                    json_view(rows@[i]),
                ) implies steady_to(json_view(#[trigger] rows@[i]), (DEEPEST - 1) as nat) by {}
                assert forall|i: int| 0 <= i < rows@.len() implies nests_within(
                    json_view(#[trigger] rows@[i]),
                    (DEEPEST - 1) as nat,
                ) by {
                    assert(views[i] == json_view(rows@[i]));
                }
            }
            let cache: Vec<u8> = written(&rows);
            Ok(DayRows { rows, cache })
        },
        Err(e) => Err(e),
    }
}

/// The rows that a cached file holds; nothing where it is no list.
pub open spec fn rows_in_cache(bytes: Seq<u8>) -> Option<Seq<JsonView>> {
    match json_parsed(bytes) {
        Ok(v) => items_of(v),
        Err(_) => None,
    }
}

/// The rows that a cached file holds. Where it gives none, the day is asked for anew.
pub fn cached_rows(bytes: &[u8]) -> (r: Option<Vec<serde_json::Value>>)
    ensures
        match r {
            Some(rows) => rows_in_cache(bytes@) == Some(json_views(rows@)),
            None => rows_in_cache(bytes@) is None,
        },
{
    match parse(bytes) {
        Ok(v) => match items(&v) {
            Some(list) => Some(copies(list)),
            None => None,
        },
        Err(_) => None,
    }
}

// ---- what answers owe to their documents ----

/// The query of a day asks for the columns that rows are read from, of the symbol and the
/// day alone, by expiration and strike.
pub proof fn law_day_query(symbol: &str, date: &str, r: String)
    requires
        call_ensures(day_query, (symbol, date), r),
    ensures
        r@ == "select `date`,expiration,strike,call_put,bid,ask,vol,delta from option_chain where act_symbol='"@
            + symbol@ + "' and `date`='"@ + date@ + "' order by expiration,strike"@,
{
}

/// A query succeeded exactly where the "query_execution_status" of its answer is the text
/// "Success"; the answer is the document. Else the error gives its
/// "query_execution_message", or says that it is unknown.
pub proof fn law_query_status(body: &[u8], r: Result<serde_json::Value, String>, m: Map<Seq<char>, JsonView>)
    requires
        call_ensures(dolt_query, (body,), r),
        json_parsed(body@) == Ok::<JsonView, Seq<char>>(JsonView::Object(m)),
    ensures
        r is Ok <==> m.contains_key("query_execution_status"@) && m["query_execution_status"@] == JsonView::Text(
            "Success"@,
        ),
        r matches Ok(v) ==> json_view(v) == JsonView::Object(m),
        r matches Err(e) ==> if m.contains_key("query_execution_message"@) && m["query_execution_message"@] is Text {
            e@ == "dolt query error: "@ + m["query_execution_message"@]->Text_0
        } else {
            e@ == "dolt query error: unknown error"@
        },
{
    reveal_strlit("Success");
    reveal_strlit("");
    reveal_strlit("dolt query error: ");
    reveal_strlit("unknown error");
    reveal_strlit("dolt query error: unknown error");
    assert("dolt query error: "@ + "unknown error"@ =~= "dolt query error: unknown error"@);
    assert(""@.len() == 0 && "Success"@.len() == 7);
}

/// What does not parse gives the error of the parser and the first two hundred characters
/// of the answer; a document that is no object has no status.
pub proof fn law_query_without_answer(body: &[u8], r: Result<serde_json::Value, String>)
    requires
        call_ensures(dolt_query, (body,), r),
    ensures
        json_parsed(body@) matches Err(e) ==> (r matches Err(m) && m@ == "json parse failed: "@ + e + "; body="@
            + utf8_lossy(body@).take(
            if utf8_lossy(body@).len() < 200 {
                utf8_lossy(body@).len() as int
            } else {
                200
            },
        )),
        json_parsed(body@) matches Ok(v) && v !is Object ==> (r matches Err(m) && m@
            == "dolt query error: unknown error"@),
{
    reveal_strlit("Success");
    reveal_strlit("");
    reveal_strlit("dolt query error: ");
    reveal_strlit("unknown error");
    reveal_strlit("dolt query error: unknown error");
    assert("dolt query error: "@ + "unknown error"@ =~= "dolt query error: unknown error"@);
    assert(""@.len() == 0 && "Success"@.len() == 7);
    let t = utf8_lossy(body@);
    assert(t.take(t.len() as int) =~= t);
}

/// The rows of a day are the items of the "rows" of its answer, in order; a day without
/// them has none, and is kept as such.
pub proof fn law_day_rows(body: &[u8], r: Result<DayRows, String>, m: Map<Seq<char>, JsonView>)
    requires
        call_ensures(dolt_day_rows, (body,), r),
        json_parsed(body@) == Ok::<JsonView, Seq<char>>(JsonView::Object(m)),
        m.contains_key("query_execution_status"@) && m["query_execution_status"@] == JsonView::Text("Success"@),
    ensures
        r is Ok,
        m.contains_key("rows"@) ==> (m["rows"@] matches JsonView::List(items) ==> json_views(r->Ok_0.rows@)
            == items),
        !(m.contains_key("rows"@) && m["rows"@] is List) ==> r->Ok_0.rows@.len() == 0,
        r->Ok_0.cache@ == json_written(json_views(r->Ok_0.rows@)),
{
    assert(json_views(r->Ok_0.rows@).len() == r->Ok_0.rows@.len());
}

/// A cached file gives its items exactly where it is a list.
pub proof fn law_cached_rows(bytes: &[u8], r: Option<Vec<serde_json::Value>>)
    requires
        call_ensures(cached_rows, (bytes,), r),
    ensures
        r is Some <==> (json_parsed(bytes@) matches Ok(v) && v is List),
        r matches Some(rows) ==> json_parsed(bytes@) == Ok::<JsonView, Seq<char>>(
            JsonView::List(json_views(rows@)),
        ),
{
}

/// All cached data are in the directory "data".
pub proof fn law_cache_root(r: String)
    requires
        call_ensures(default_cache_root, (), r),
    ensures
        r@ == seq!['d', 'a', 't', 'a'],
{
    reveal_strlit("data");
    assert("data"@ =~= seq!['d', 'a', 't', 'a']);
}

} // verus!

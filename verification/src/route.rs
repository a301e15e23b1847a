//! What a request asks for, and the text of answers and pages.

use crate::json::{quoted_list, quoted_list_text};
use crate::text::{
    after_prefix, begins, chars_of, decimal, decimal_of, is_white, lines, lines_of, lossy, same,
    split, split_on, string_of, utf8_lossy, views, white,
};
use vstd::prelude::*;

verus! {

// ---- requests ----

/// The words of a text: the stretches between white space.
pub open spec fn words(s: Seq<char>) -> Seq<Seq<char>>
    decreases s.len(),
{
    if s.len() == 0 {
        Seq::empty()
    } else {
        let front = words(s.drop_last());
        if is_white(s.last()) {
            front
        } else if s.len() > 1 && !is_white(s[s.len() - 2]) {
            front.drop_last().push(front.last().push(s.last()))
        } else {
            front.push(seq![s.last()])
        }
    }
}

/// The words of a text.
pub fn words_of(s: &str) -> (r: Vec<String>)
    ensures
        views(r@) == words(s@),
{
    let cs: Vec<char> = chars_of(s);
    let mut out: Vec<String> = Vec::new();
    let mut cur: String = String::new();
    let mut i: usize = 0;
    assert(views(out@) =~= words(cs@.take(0)));
    while i < cs.len()
        invariant
            i <= cs@.len(),
            cur@.len() > 0 <==> i > 0 && !is_white(cs@[i - 1]),
            words(cs@.take(i as int)) == (if cur@.len() > 0 {
                views(out@).push(cur@)
            } else {
                views(out@)
            }),
        decreases cs@.len() - i,
    {
        let ghost t = cs@.take(i + 1);
        let ghost before = words(cs@.take(i as int));
        assert(t.drop_last() =~= cs@.take(i as int));
        assert(t.last() == cs@[i as int]);
        if white(cs[i]) {
            if !cur.as_str().is_empty() {
                let ghost was = out@;
                let w: String = cur;
                out.push(w);
                assert(views(out@) =~= views(was).push(w@));
                cur = String::new();
            }
        } else {
            let ghost was = cur@;
            cur.push(cs[i]);
            proof {
                if was.len() > 0 {
                    assert(t[t.len() - 2] == cs@[i - 1]);
                    assert(before.drop_last() =~= views(out@));
                    assert(before.last() == was);
                } else {
                    assert(t.len() > 1 ==> t[t.len() - 2] == cs@[i - 1]);
                    assert(cur@ =~= seq![cs@[i as int]]);
                }
            }
        }
        i = i + 1;
    }
    assert(cs@.take(cs@.len() as int) =~= s@);
    if !cur.as_str().is_empty() {
        let ghost was = out@;
        out.push(cur);
        assert(views(out@) =~= views(was).push(cur@));
    }
    out
}

/// The path that a request asks for: the second word of its first line.
pub open spec fn path_of(request: Seq<char>) -> Seq<char> {
    let ls = lines(request);
    if ls.len() > 0 && words(ls[0]).len() > 1 {
        words(ls[0])[1]
    } else {
        "/"@
    }
}

/// The path that a request asks for.
pub fn request_path(request: &str) -> (r: String)
    ensures
        r@ == path_of(request@),
{
    let ls: Vec<String> = lines_of(request);
    if ls.len() > 0 {
        assert(lines(request@)[0] == ls@[0]@);
        let ws: Vec<String> = words_of(ls[0].as_str());
        if ws.len() > 1 {
            assert(words(ls@[0]@)[1] == ws@[1]@);
            return ws[1].clone();
        }
        assert(words(ls@[0]@).len() == ws@.len());
    } else {
        assert(lines(request@).len() == 0);
    }
    "/".to_string()
}

/// What stands before the first `?` of a path.
pub open spec fn route_part(path: Seq<char>) -> Seq<char> {
    split(path, '?')[0]
}

/// What stands behind the first `?` of a path.
pub open spec fn query_part(path: Seq<char>) -> Seq<char> {
    if split(path, '?').len() > 1 {
        path.skip(1 + route_part(path).len() as int)
    } else {
        Seq::empty()
    }
}

proof fn lemma_first_piece(s: Seq<char>, sep: char, n: int)
    requires
        0 <= n <= s.len(),
        forall|i: int| 0 <= i < n ==> #[trigger] s[i] != sep,
        n < s.len() ==> s[n] == sep,
    ensures
        split(s, sep)[0] == s.take(n),
        split(s, sep).len() > 1 <==> n < s.len(),
{
    crate::text::lemma_split_plain(s.take(n), sep);
    if n < s.len() {
        let rest = s.skip(n + 1);
        assert(s =~= s.take(n).push(sep) + rest);
        crate::text::lemma_split_across(s.take(n), rest, sep);
        crate::text::lemma_split_nonempty(rest, sep);
    } else {
        assert(s.take(n) =~= s);
    }
}

/// The route and the query of a path, which the first `?` separates.
pub fn split_path(path: &str) -> (r: (String, String))
    ensures
        r.0@ == route_part(path@),
        r.1@ == query_part(path@),
{
    let cs: Vec<char> = chars_of(path);
    let mut n: usize = 0;
    while n < cs.len() && cs[n] != '?'
        invariant
            n <= cs@.len(),
            forall|i: int| 0 <= i < n ==> #[trigger] cs@[i] != '?',
        decreases cs@.len() - n,
    {
        n = n + 1;
    }
    proof {
        lemma_first_piece(cs@, '?', n as int);
    }
    let route: String = string_of(&cs, 0, n);
    assert(route@ =~= cs@.take(n as int));
    if n < cs.len() {
        let query: String = string_of(&cs, n + 1, cs.len());
        assert(query@ =~= query_part(path@));
        (route, query)
    } else {
        (route, String::new())
    }
}

/// The value of the first of the pieces that begins with the key.
pub open spec fn first_value(pieces: Seq<Seq<char>>, key: Seq<char>) -> Seq<char>
    decreases pieces.len(),
{
    if pieces.len() == 0 {
        Seq::empty()
    } else if begins(pieces[0], key) {
        pieces[0].skip(key.len() as int)
    } else {
        first_value(pieces.drop_first(), key)
    }
}

/// The value of a parameter, empty where the query does not name it.
pub open spec fn param_of(query: Seq<char>, name: Seq<char>) -> Seq<char> {
    first_value(split(query, '&'), name.push('='))
}

/// The value of a parameter, empty where the query does not name it.
pub fn param(query: &str, name: &str) -> (r: String)
    ensures
        r@ == param_of(query@, name@),
{
    let mut key: String = name.to_string();
    key.push('=');
    let pieces: Vec<String> = split_on(query, '&');
    let ghost all = split(query@, '&');
    let mut i: usize = 0;
    assert(all.skip(0) =~= all);
    while i < pieces.len()
        invariant
            i <= pieces@.len(),
            all == views(pieces@),
            all == split(query@, '&'),
            key@ == name@.push('='),
            first_value(all.skip(i as int), key@) == first_value(all, key@),
        decreases pieces@.len() - i,
    {
        assert(all.skip(i as int)[0] == pieces@[i as int]@);
        assert(all.skip(i as int).drop_first() =~= all.skip(i + 1));
        match after_prefix(pieces[i].as_str(), key.as_str()) {
            Some(v) => {
                return v;
            },
            None => {},
        }
        i = i + 1;
    }
    String::new()
}

/// The pages.
#[derive(Clone, Copy, Debug, PartialEq, Eq, Structural)]
pub enum Page {
    Candles,
    Vix,
    Credit,
    Surface,
    Gamma,
    Gex,
    GexPlus,
}

/// What a request asks for.
pub enum Route {
    /// A page.
    Html(Page),
    /// The daily bars.
    Ohlc,
    /// The dates of the surface.
    Dates,
    VixSkew,
    VixGamma,
    Credit,
    /// The surface of a date.
    Surface(String),
    GexHistory,
    /// The exposures of an underlying.
    GexPlus(String),
    /// The snapshot dates of an underlying.
    GammaDates(String),
    /// The profile of an underlying on a date.
    Gamma(String, String),
    /// Nothing that is there.
    NotFound,
}

/// The underlying that a query names, the index where it names none.
pub open spec fn und_of(query: Seq<char>) -> Seq<char> {
    if param_of(query, "und"@).len() == 0 {
        "SPX"@
    } else {
        param_of(query, "und"@)
    }
}

/// The page of a route.
pub open spec fn page_at(route: Seq<char>) -> Option<Page> {
    if route == "/"@ || route == "/candles"@ {
        Some(Page::Candles)
    } else if route == "/vix"@ {
        Some(Page::Vix)
    } else if route == "/credit"@ {
        Some(Page::Credit)
    } else if route == "/surface"@ {
        Some(Page::Surface)
    } else if route == "/gamma"@ {
        Some(Page::Gamma)
    } else if route == "/gex"@ {
        Some(Page::Gex)
    } else if route == "/gexplus"@ {
        Some(Page::GexPlus)
    } else {
        None
    }
}

/// Whether `r` is what a route with a query asks for.
pub open spec fn is_route(r: Route, route: Seq<char>, query: Seq<char>) -> bool {
    match page_at(route) {
        Some(p) => r matches Route::Html(q) && p == q,
        None => if route == "/api/ohlc"@ {
            r is Ohlc
        } else if route == "/api/dates"@ {
            r is Dates
        } else if route == "/api/vix_skew"@ {
            r is VixSkew
        } else if route == "/api/vix_gamma"@ {
            r is VixGamma
        } else if route == "/api/credit"@ {
            r is Credit
        } else if route == "/api/surface"@ {
            r matches Route::Surface(d) && d@ == param_of(query, "date"@)
        } else if route == "/api/gex_history"@ {
            r is GexHistory
        } else if route == "/api/gexplus"@ {
            r matches Route::GexPlus(u) && u@ == und_of(query)
        } else if route == "/api/gamma_dates"@ {
            r matches Route::GammaDates(u) && u@ == und_of(query)
        } else if route == "/api/gamma"@ {
            r matches Route::Gamma(u, d) && u@ == und_of(query) && d@ == param_of(query, "date"@)
        } else {
            r is NotFound
        },
    }
}

fn und(query: &str) -> (r: String)
    ensures
        r@ == und_of(query@),
{
    let u: String = param(query, "und");
    if u.as_str().is_empty() {
        "SPX".to_string()
    } else {
        u
    }
}

fn page(route: &str) -> (r: Option<Page>)
    ensures
        r == page_at(route@),
{
    if same(route, "/") || same(route, "/candles") {
        Some(Page::Candles)
    } else if same(route, "/vix") {
        Some(Page::Vix)
    } else if same(route, "/credit") {
        Some(Page::Credit)
    } else if same(route, "/surface") {
        Some(Page::Surface)
    } else if same(route, "/gamma") {
        Some(Page::Gamma)
    } else if same(route, "/gex") {
        Some(Page::Gex)
    } else if same(route, "/gexplus") {
        Some(Page::GexPlus)
    } else {
        None
    }
}

/// What the bytes of a request ask for.
pub fn handle(request: &[u8]) -> (r: Route)
    ensures
        ({
            let path = path_of(utf8_lossy(request@));
            is_route(r, route_part(path), query_part(path))
        }),
{
    route_of(lossy(request).as_str())
}

/// What the text of a request asks for.
pub fn route_of(request: &str) -> (r: Route)
    ensures
        is_route(r, route_part(path_of(request@)), query_part(path_of(request@))),
{
    let path: String = request_path(request);
    let (route, query): (String, String) = split_path(path.as_str());
    let at: &str = route.as_str();
    let q: &str = query.as_str();
    match page(at) {
        Some(p) => Route::Html(p),
        None => if same(at, "/api/ohlc") {
            Route::Ohlc
        } else if same(at, "/api/dates") {
            Route::Dates
        } else if same(at, "/api/vix_skew") {
            Route::VixSkew
        } else if same(at, "/api/vix_gamma") {
            Route::VixGamma
        } else if same(at, "/api/credit") {
            Route::Credit
        } else if same(at, "/api/surface") {
            Route::Surface(param(q, "date"))
        } else if same(at, "/api/gex_history") {
            Route::GexHistory
        } else if same(at, "/api/gexplus") {
            Route::GexPlus(und(q))
        } else if same(at, "/api/gamma_dates") {
            Route::GammaDates(und(q))
        } else if same(at, "/api/gamma") {
            Route::Gamma(und(q), param(q, "date"))
        } else {
            Route::NotFound
        },
    }
}

// ---- answers ----

/// The head of an answer.
pub open spec fn head_text(status: Seq<char>, ctype: Seq<char>, len: nat) -> Seq<char> {
    "HTTP/1.1 "@ + status + "\r\nContent-Type: "@ + ctype + "\r\nContent-Length: "@ + decimal(len)
        + "\r\nCache-Control: no-cache, no-store, must-revalidate\r\nConnection: close\r\n\r\n"@
}

/// The head of an answer whose body has `len` bytes.
pub fn respond(status: &str, ctype: &str, len: u64) -> (r: String)
    ensures
        r@ == head_text(status@, ctype@, len as nat),
{
    let mut s: String = "HTTP/1.1 ".to_string();
    s.append(status);
    s.append("\r\nContent-Type: ");
    s.append(ctype);
    s.append("\r\nContent-Length: ");
    s.append(decimal_of(len).as_str());
    s.append(
        "\r\nCache-Control: no-cache, no-store, must-revalidate\r\nConnection: close\r\n\r\n",
    );
    assert(s@ =~= head_text(status@, ctype@, len as nat));
    s
}

/// Status and content type of the answer to a route.
pub fn answer_kind(route: &Route) -> (r: (String, String))
    ensures
        match route {
            Route::NotFound => r.0@ == "404 Not Found"@ && r.1@ == "text/plain"@,
            Route::Html(_) => r.0@ == "200 OK"@ && r.1@ == "text/html; charset=utf-8"@,
            _ => r.0@ == "200 OK"@ && r.1@ == "application/json"@,
        },
{
    match route {
        Route::NotFound => ("404 Not Found".to_string(), "text/plain".to_string()),
        Route::Html(_) => ("200 OK".to_string(), "text/html; charset=utf-8".to_string()),
        _ => ("200 OK".to_string(), "application/json".to_string()),
    }
}

/// The answer that is a list of dates.
pub fn dates_body(dates: &Vec<String>) -> (r: String)
    ensures
        r@ == quoted_list_text(views(dates@)),
{
    quoted_list(dates)
}

// ---- pages ----

/// `s` with each occurrence of `mark`, from the front and without overlap, replaced.
pub open spec fn replaced(s: Seq<char>, mark: Seq<char>, with: Seq<char>) -> Seq<char>
    decreases s.len(),
{
    if s.len() == 0 || mark.len() == 0 {
        s
    } else if begins(s, mark) {
        with + replaced(s.skip(mark.len() as int), mark, with)
    } else {
        seq![s[0]] + replaced(s.drop_first(), mark, with)
    }
}

fn occurs_at(cs: &Vec<char>, mark: &Vec<char>, i: usize) -> (r: bool)
    requires
        i <= cs@.len(),
    ensures
        r == begins(cs@.skip(i as int), mark@),
{
    let ghost rest = cs@.skip(i as int);
    if cs.len() - i < mark.len() {
        return false;
    }
    let mut k: usize = 0;
    while k < mark.len()
        invariant
            k <= mark@.len(),
            i <= cs.len(),
            mark@.len() <= cs@.len() - i,
            rest == cs@.skip(i as int),
            rest.take(k as int) == mark@.take(k as int),
        decreases mark@.len() - k,
    {
        assert(rest[k as int] == cs@[i + k]);
        if cs[i + k] != mark[k] {
            assert(rest.take(mark@.len() as int)[k as int] != mark@[k as int]);
            return false;
        }
        assert(rest.take(k + 1) =~= rest.take(k as int).push(rest[k as int]));
        assert(mark@.take(k + 1) =~= mark@.take(k as int).push(mark@[k as int]));
        k = k + 1;
    }
    assert(mark@.take(mark@.len() as int) =~= mark@);
    true
}

/// `s` with each occurrence of `mark` replaced. The mark is not empty.
pub fn replace_all(s: &str, mark: &str, with: &str) -> (r: String)
    requires
        mark@.len() > 0,
    ensures
        r@ == replaced(s@, mark@, with@),
{
    let cs: Vec<char> = chars_of(s);
    let m: Vec<char> = chars_of(mark);
    let mut out: String = String::new();
    let mut i: usize = 0;
    assert(cs@.skip(0) =~= s@);
    while i < cs.len()
        invariant
            i <= cs@.len(),
            m@ == mark@,
            m@.len() > 0,
            out@ + replaced(cs@.skip(i as int), mark@, with@) == replaced(s@, mark@, with@),
        decreases cs@.len() - i,
    {
        let ghost rest = cs@.skip(i as int);
        let ghost was = out@;
        if occurs_at(&cs, &m, i) {
            out.append(with);
            i = i + m.len();
            assert(rest.skip(m@.len() as int) =~= cs@.skip(i as int));
            assert(out@ + replaced(cs@.skip(i as int), mark@, with@) =~= was + (with@ + replaced(
                cs@.skip(i as int),
                mark@,
                with@,
            )));
        } else {
            out.push(cs[i]);
            assert(rest.drop_first() =~= cs@.skip(i + 1));
            assert(rest[0] == cs@[i as int]);
            i = i + 1;
            assert(out@ + replaced(cs@.skip(i as int), mark@, with@) =~= was + (seq![rest[0]]
                + replaced(cs@.skip(i as int), mark@, with@)));
        }
    }
    assert(cs@.skip(cs@.len() as int).len() == 0);
    assert(out@ =~= replaced(s@, mark@, with@));
    out
}

/// A page with its style and its navigation in their places.
pub fn fill_page(html: &str, style: &str, nav: &str) -> (r: String)
    ensures
        r@ == replaced(replaced(html@, "__STYLE__"@, style@), "__NAV__"@, nav@),
{
    proof {
        reveal_strlit("__STYLE__");
        reveal_strlit("__NAV__");
    }
    replace_all(replace_all(html, "__STYLE__", style).as_str(), "__NAV__", nav)
}

/// A text without the mark stays as it is.
pub proof fn law_replace_nothing(s: Seq<char>, mark: Seq<char>, with: Seq<char>)
    requires
        forall|i: int| 0 <= i <= s.len() ==> !begins(#[trigger] s.skip(i), mark),
    ensures
        replaced(s, mark, with) == s,
    decreases s.len(),
{
    assert(s.skip(0) =~= s);
    if s.len() > 0 {
        let t = s.drop_first();
        assert forall|i: int| 0 <= i <= t.len() implies !begins(#[trigger] t.skip(i), mark) by {
            assert(t.skip(i) =~= s.skip(i + 1));
        }
        law_replace_nothing(t, mark, with);
        assert(seq![s[0]] + t =~= s);
    }
}

// ---- what requests and pages owe to their text ----

proof fn lemma_words_nonempty(s: Seq<char>)
    requires
        s.len() > 0,
        !is_white(s.last()),
    ensures
        words(s).len() > 0,
    decreases s.len(),
{
    let t = s.drop_last();
    if t.len() > 0 && !is_white(t.last()) {
        lemma_words_nonempty(t);
    }
}

/// White space parts words: those before it and those behind it are the words of a text,
/// in order.
pub proof fn law_words_across(a: Seq<char>, c: char, b: Seq<char>)
    requires
        is_white(c),
    ensures
        words(a.push(c) + b) == words(a) + words(b),
    decreases b.len(),
{
    let s = a.push(c) + b;
    if b.len() == 0 {
        assert(s.drop_last() =~= a);
        assert(words(a) + words(b) =~= words(a));
    } else {
        let t = b.drop_last();
        law_words_across(a, c, t);
        assert(s.drop_last() =~= a.push(c) + t);
        assert(s.last() == b.last());
        if !is_white(b.last()) {
            if t.len() > 0 && !is_white(t.last()) {
                lemma_words_nonempty(t);
                assert(s[s.len() - 2] == b[b.len() - 2]);
                let (x, y) = (words(a), words(t));
                assert((x + y).drop_last() =~= x + y.drop_last());
                assert((x + y).last() == y.last());
                assert(words(s) =~= words(a) + words(b));
            } else {
                assert(s[s.len() - 2] == (if t.len() > 0 {
                    t.last()
                } else {
                    c
                }));
                assert(words(s) =~= words(a) + words(b));
            }
        }
    }
}

/// A text without white space is its own word, and an empty one has none.
pub proof fn law_one_word(w: Seq<char>)
    requires
        forall|i: int| 0 <= i < w.len() ==> !is_white(#[trigger] w[i]),
    ensures
        w.len() > 0 ==> words(w) == seq![w],
        w.len() == 0 ==> words(w).len() == 0,
    decreases w.len(),
{
    if w.len() > 0 {
        let t = w.drop_last();
        assert forall|i: int| 0 <= i < t.len() implies !is_white(#[trigger] t[i]) by {
            assert(t[i] == w[i]);
        }
        law_one_word(t);
        assert(!is_white(w[w.len() - 1]));
        if t.len() > 0 {
            assert(!is_white(w[w.len() - 2]));
            assert(words(t).drop_last() =~= Seq::empty());
            assert(t.push(w.last()) =~= w);
            assert(words(w) =~= seq![w]);
        } else {
            assert(seq![w.last()] =~= w);
            assert(words(w) =~= seq![w]);
        }
    }
}

/// The path of a request is the second word of its first line, whatever follows it; the
/// root where that line has one word, or none.
pub proof fn law_request_path(request: &str, r: String, method: Seq<char>, path: Seq<char>, rest: Seq<char>)
    requires
        call_ensures(request_path, (request,), r),
        lines(request@).len() > 0,
        forall|i: int| 0 <= i < method.len() ==> !is_white(#[trigger] method[i]),
        forall|i: int| 0 <= i < path.len() ==> !is_white(#[trigger] path[i]),
        method.len() > 0,
        path.len() > 0,
    ensures
        lines(request@)[0] == method.push(' ') + (path.push(' ') + rest) ==> r@ == path,
        lines(request@)[0] == method.push(' ') + path ==> r@ == path,
        lines(request@)[0] == method ==> r@ == seq!['/'],
        lines(request@)[0].len() == 0 ==> r@ == seq!['/'],
{
    law_one_word(method);
    law_one_word(path);
    law_words_across(method, ' ', path.push(' ') + rest);
    law_words_across(path, ' ', rest);
    law_words_across(method, ' ', path);
    reveal_strlit("/");
    assert("/"@ =~= seq!['/']);
    assert(words(method.push(' ') + (path.push(' ') + rest))[1] == path);
    assert(words(method.push(' ') + path)[1] == path);
}

/// The first `?` parts the route from the query.
pub proof fn law_split_path(path: &str, route: Seq<char>, query: Seq<char>, r: (String, String))
    requires
        call_ensures(split_path, (path,), r),
        forall|i: int| 0 <= i < route.len() ==> #[trigger] route[i] != '?',
    ensures
        path@ == route.push('?') + query ==> r.0@ == route && r.1@ == query,
        path@ == route ==> r.0@ == route && r.1@.len() == 0,
{
    let n = route.len() as int;
    if path@ == route.push('?') + query {
        assert forall|i: int| 0 <= i < n implies #[trigger] path@[i] != '?' by {
            assert(path@[i] == route[i]);
        }
        lemma_first_piece(path@, '?', n);
        assert(path@.take(n) =~= route);
        assert(path@.skip(1 + n) =~= query);
    }
    if path@ == route {
        lemma_first_piece(path@, '?', n);
        assert(path@.take(n) =~= route);
    }
}

proof fn lemma_first_value(pieces: Seq<Seq<char>>, key: Seq<char>, i: int)
    requires
        0 <= i <= pieces.len(),
        forall|j: int| 0 <= j < i ==> !begins(#[trigger] pieces[j], key),
    ensures
        i < pieces.len() && begins(pieces[i], key) ==> first_value(pieces, key) == pieces[i].skip(key.len() as int),
        i == pieces.len() ==> first_value(pieces, key).len() == 0,
    decreases pieces.len(),
{
    if pieces.len() > 0 && i > 0 {
        let t = pieces.drop_first();
        assert(!begins(pieces[0], key));
        assert forall|j: int| 0 <= j < i - 1 implies !begins(#[trigger] t[j], key) by {
            assert(t[j] == pieces[j + 1]);
        }
        lemma_first_value(t, key, i - 1);
    }
}

/// The value of a parameter is what stands behind its name and `=` in the first of the
/// pieces between `&` that begins so; it is empty where none does.
pub proof fn law_param(query: &str, name: &str, r: String, i: int, value: Seq<char>)
    requires
        call_ensures(param, (query, name), r),
        0 <= i <= split(query@, '&').len(),
        forall|j: int| 0 <= j < i ==> !begins(#[trigger] split(query@, '&')[j], name@.push('=')),
    ensures
        i < split(query@, '&').len() && split(query@, '&')[i] == name@.push('=') + value ==> r@ == value,
        i == split(query@, '&').len() ==> r@.len() == 0,
{
    let key = name@.push('=');
    lemma_first_value(split(query@, '&'), key, i);
    assert((key + value).take(key.len() as int) =~= key);
    assert((key + value).skip(key.len() as int) =~= value);
}

/// Each page and each kind of data has its own route, and what is none of them is not
/// found. The surface is of the date in the query; the exposures, the snapshot dates and
/// the profile are of the underlying in it, the profile also of the date.
pub proof fn law_route_of(request: &str, r: Route, route: Seq<char>, query: Seq<char>)
    requires
        call_ensures(route_of, (request,), r),
        forall|i: int| 0 <= i < route.len() ==> #[trigger] route[i] != '?',
        path_of(request@) == route.push('?') + query || (path_of(request@) == route && query.len() == 0),
    ensures
        route == "/"@ || route == "/candles"@ ==> (r matches Route::Html(p) && p == Page::Candles),
        route == "/vix"@ ==> (r matches Route::Html(p) && p == Page::Vix),
        route == "/credit"@ ==> (r matches Route::Html(p) && p == Page::Credit),
        route == "/surface"@ ==> (r matches Route::Html(p) && p == Page::Surface),
        route == "/gamma"@ ==> (r matches Route::Html(p) && p == Page::Gamma),
        route == "/gex"@ ==> (r matches Route::Html(p) && p == Page::Gex),
        route == "/gexplus"@ ==> (r matches Route::Html(p) && p == Page::GexPlus),
        route == "/api/ohlc"@ ==> r is Ohlc,
        route == "/api/dates"@ ==> r is Dates,
        route == "/api/vix_skew"@ ==> r is VixSkew,
        route == "/api/vix_gamma"@ ==> r is VixGamma,
        route == "/api/credit"@ ==> r is Credit,
        route == "/api/surface"@ ==> (r matches Route::Surface(d) && d@ == param_of(query, "date"@)),
        route == "/api/gex_history"@ ==> r is GexHistory,
        route == "/api/gexplus"@ ==> (r matches Route::GexPlus(u) && is_underlying(u@, query)),
        route == "/api/gamma_dates"@ ==> (r matches Route::GammaDates(u) && is_underlying(u@, query)),
        route == "/api/gamma"@ ==> (r matches Route::Gamma(u, d) && is_underlying(u@, query) && d@ == param_of(
            query,
            "date"@,
        )),
        route != "/"@ && route != "/candles"@ && route != "/vix"@ && route != "/credit"@ && route != "/surface"@
            && route != "/gamma"@ && route != "/gex"@ && route != "/gexplus"@ && route != "/api/ohlc"@ && route
            != "/api/dates"@ && route != "/api/vix_skew"@ && route != "/api/vix_gamma"@ && route
            != "/api/credit"@ && route != "/api/surface"@ && route != "/api/gex_history"@ && route
            != "/api/gexplus"@ && route != "/api/gamma_dates"@ && route != "/api/gamma"@ ==> r is NotFound,
{
    let path = path_of(request@);
    let n = route.len() as int;
    assert forall|i: int| 0 <= i < n implies #[trigger] path[i] != '?' by {
        assert(path[i] == route[i]);
    }
    lemma_first_piece(path, '?', n);
    assert(path.take(n) =~= route);
    if path == route.push('?') + query {
        assert(path.skip(1 + n) =~= query);
    } else {
        assert(query =~= Seq::<char>::empty());
    }
    assert(is_route(r, route, query));
    lemma_routes_differ();
}

/// Whether `u` is the underlying that a query names, the index where it names none.
pub open spec fn is_underlying(u: Seq<char>, query: Seq<char>) -> bool {
    if param_of(query, "und"@).len() > 0 {
        u == param_of(query, "und"@)
    } else {
        u == seq!['S', 'P', 'X']
    }
}

/// No two routes are the same.
proof fn lemma_routes_differ()
    ensures
        "SPX"@ == seq!['S', 'P', 'X'],
        "/"@.len() == 1,
        "/candles"@.len() == 8 && "/candles"@[1] == 'c',
        "/vix"@.len() == 4 && "/vix"@[1] == 'v',
        "/credit"@.len() == 7,
        "/surface"@.len() == 8 && "/surface"@[1] == 's',
        "/gamma"@.len() == 6,
        "/gex"@.len() == 4 && "/gex"@[1] == 'g',
        "/gexplus"@.len() == 8 && "/gexplus"@[1] == 'g',
        "/api/ohlc"@.len() == 9,
        "/api/dates"@.len() == 10 && "/api/dates"@[5] == 'd',
        "/api/vix_skew"@.len() == 13,
        "/api/vix_gamma"@.len() == 14,
        "/api/credit"@.len() == 11,
        "/api/surface"@.len() == 12 && "/api/surface"@[5] == 's',
        "/api/gex_history"@.len() == 16 && "/api/gex_history"@[7] == 'x',
        "/api/gexplus"@.len() == 12 && "/api/gexplus"@[5] == 'g',
        "/api/gamma_dates"@.len() == 16 && "/api/gamma_dates"@[7] == 'm',
        "/api/gamma"@.len() == 10 && "/api/gamma"@[5] == 'g',
{
    reveal_strlit("SPX");
    assert("SPX"@ =~= seq!['S', 'P', 'X']);
    reveal_strlit("/");
    reveal_strlit("/candles");
    reveal_strlit("/vix");
    reveal_strlit("/credit");
    reveal_strlit("/surface");
    reveal_strlit("/gamma");
    reveal_strlit("/gex");
    reveal_strlit("/gexplus");
    reveal_strlit("/api/ohlc");
    reveal_strlit("/api/dates");
    reveal_strlit("/api/vix_skew");
    reveal_strlit("/api/vix_gamma");
    reveal_strlit("/api/credit");
    reveal_strlit("/api/surface");
    reveal_strlit("/api/gex_history");
    reveal_strlit("/api/gexplus");
    reveal_strlit("/api/gamma_dates");
    reveal_strlit("/api/gamma");
}

/// What the bytes of a request ask for is what their text asks for.
pub proof fn law_handle(request: &[u8], r: Route, text: &str, s: Route)
    requires
        call_ensures(handle, (request,), r),
        text@ == utf8_lossy(request@),
        call_ensures(route_of, (text,), s),
    ensures
        r matches Route::Html(p) ==> s == Route::Html(p),
        r is Ohlc <==> s is Ohlc,
        r is Dates <==> s is Dates,
        r is VixSkew <==> s is VixSkew,
        r is VixGamma <==> s is VixGamma,
        r is Credit <==> s is Credit,
        r is GexHistory <==> s is GexHistory,
        r is NotFound <==> s is NotFound,
        r matches Route::Surface(d) ==> (s matches Route::Surface(e) && d@ == e@),
        r matches Route::GexPlus(u) ==> (s matches Route::GexPlus(v) && u@ == v@),
        r matches Route::GammaDates(u) ==> (s matches Route::GammaDates(v) && u@ == v@),
        r matches Route::Gamma(u, d) ==> (s matches Route::Gamma(v, e) && u@ == v@ && d@ == e@),
{
}

/// The head of an answer gives status, content type and the length of the body in decimal,
/// a line each, and ends with an empty line.
pub proof fn law_respond(status: &str, ctype: &str, len: u64, r: String)
    requires
        call_ensures(respond, (status, ctype, len), r),
    ensures
        r@ == "HTTP/1.1 "@ + status@ + "\r\nContent-Type: "@ + ctype@ + "\r\nContent-Length: "@ + decimal(
            len as nat,
        ) + "\r\nCache-Control: no-cache, no-store, must-revalidate\r\nConnection: close\r\n\r\n"@,
{
}

/// What is not found is answered so, in plain text; pages are HTML and all else is JSON.
pub proof fn law_answer_kind(route: Route, r: (String, String))
    requires
        call_ensures(answer_kind, (&route,), r),
    ensures
        r.0@ == (if route is NotFound {
            "404 Not Found"@
        } else {
            "200 OK"@
        }),
        r.1@ == (if route is NotFound {
            "text/plain"@
        } else if route is Html {
            "text/html; charset=utf-8"@
        } else {
            "application/json"@
        }),
{
}

/// The first occurrence of a mark is replaced, what stands before it stays, and so on
/// behind it.
pub proof fn law_replace_first(a: Seq<char>, b: Seq<char>, mark: Seq<char>, with: Seq<char>)
    requires
        mark.len() > 0,
        forall|i: int| 0 <= i < a.len() ==> !begins(#[trigger] (a + mark + b).skip(i), mark),
    ensures
        replaced(a + mark + b, mark, with) == a + with + replaced(b, mark, with),
    decreases a.len(),
{
    let s = a + mark + b;
    if a.len() == 0 {
        assert(s.take(mark.len() as int) =~= mark);
        assert(s.skip(mark.len() as int) =~= b);
        assert(a + with + replaced(b, mark, with) =~= with + replaced(b, mark, with));
    } else {
        let t = a.drop_first();
        assert(s.skip(0) =~= s);
        assert(s.drop_first() =~= t + mark + b);
        assert forall|i: int| 0 <= i < t.len() implies !begins(#[trigger] (t + mark + b).skip(i), mark) by {
            assert((t + mark + b).skip(i) =~= s.skip(i + 1));
        }
        law_replace_first(t, b, mark, with);
        assert(seq![s[0]] + (t + with + replaced(b, mark, with)) =~= a + with + replaced(b, mark, with));
    }
}

/// A page takes its style first and its navigation next, each in the place of its mark.
pub proof fn law_fill_page(html: &str, style: &str, nav: &str, r: String, s: String, styled: &str, done: String)
    requires
        call_ensures(fill_page, (html, style, nav), r),
        call_ensures(replace_all, (html, "__STYLE__", style), s),
        styled@ == s@,
        call_ensures(replace_all, (styled, "__NAV__", nav), done),
    ensures
        r@ == done@,
{
}

} // verus!

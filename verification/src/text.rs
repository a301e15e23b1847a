//! Text as sequences of Unicode scalar values: splitting, trimming, comparing and
//! the decimal notation of integers.

use vstd::prelude::*;
use vstd::utf8::{decode_utf8, valid_utf8};

verus! {

// ---- trusted ----

/// `String::push` appends one scalar value to the end of the string and changes
/// nothing before it.
pub assume_specification[ String::push ](s: &mut String, c: char)
    ensures
        final(s)@ == old(s)@.push(c),
;

// ---- the model ----

/// The scalar values with the Unicode property `White_Space`.
pub open spec fn is_white(c: char) -> bool {
    ||| '\u{9}' <= c <= '\u{d}'
    ||| c == ' '
    ||| c == '\u{85}'
    ||| c == '\u{a0}'
    ||| c == '\u{1680}'
    ||| '\u{2000}' <= c <= '\u{200a}'
    ||| c == '\u{2028}'
    ||| c == '\u{2029}'
    ||| c == '\u{202f}'
    ||| c == '\u{205f}'
    ||| c == '\u{3000}'
}

/// `s` without its leading white space.
pub open spec fn trim_front(s: Seq<char>) -> Seq<char>
    decreases s.len(),
{
    if s.len() > 0 && is_white(s[0]) {
        trim_front(s.drop_first())
    } else {
        s
    }
}

/// `s` without its trailing white space.
pub open spec fn trim_back(s: Seq<char>) -> Seq<char>
    decreases s.len(),
{
    if s.len() > 0 && is_white(s.last()) {
        trim_back(s.drop_last())
    } else {
        s
    }
}

/// `s` without white space at either end.
pub open spec fn trimmed(s: Seq<char>) -> Seq<char> {
    trim_back(trim_front(s))
}

/// The pieces of `s` between the occurrences of `sep`: one more piece than there
/// are separators, so never none.
pub open spec fn split(s: Seq<char>, sep: char) -> Seq<Seq<char>>
    decreases s.len(),
{
    if s.len() == 0 {
        seq![Seq::<char>::empty()]
    } else {
        let front = split(s.drop_last(), sep);
        if s.last() == sep {
            front.push(Seq::<char>::empty())
        } else {
            front.drop_last().push(front.last().push(s.last()))
        }
    }
}

/// The pieces put back together with `sep` between them.
pub open spec fn joined(pieces: Seq<Seq<char>>, sep: char) -> Seq<char>
    decreases pieces.len(),
{
    if pieces.len() == 0 {
        Seq::empty()
    } else if pieces.len() == 1 {
        pieces[0]
    } else {
        joined(pieces.drop_last(), sep).push(sep) + pieces.last()
    }
}

/// A line without the carriage return of its `\r\n` ending.
pub open spec fn without_cr(s: Seq<char>) -> Seq<char> {
    if s.len() > 0 && s.last() == '\r' {
        s.drop_last()
    } else {
        s
    }
}

/// The lines of `s`: each ends at `\n` or `\r\n`, and what follows the last line
/// feed is a line of its own only where there is something.
pub open spec fn lines(s: Seq<char>) -> Seq<Seq<char>> {
    let pieces = split(s, '\n');
    let ended = pieces.drop_last().map_values(|p: Seq<char>| without_cr(p));
    if pieces.last().len() > 0 {
        ended.push(pieces.last())
    } else {
        ended
    }
}

/// Whether `s` begins with `prefix`.
pub open spec fn begins(s: Seq<char>, prefix: Seq<char>) -> bool {
    s.len() >= prefix.len() && s.take(prefix.len() as int) == prefix
}

/// Lexicographic order by scalar value, which is also the order of the UTF-8 bytes.
pub open spec fn before(a: Seq<char>, b: Seq<char>) -> bool
    decreases b.len(),
{
    if b.len() == 0 {
        false
    } else if a.len() == 0 {
        true
    } else if a[0] != b[0] {
        a[0] < b[0]
    } else {
        before(a.drop_first(), b.drop_first())
    }
}

/// `c` with the letters `A` to `Z` made small.
pub open spec fn ascii_lower(c: char) -> char {
    if 'A' <= c <= 'Z' {
        ((c as u32) + 32) as char
    } else {
        c
    }
}

/// Equal but for the case of ASCII letters.
pub open spec fn same_ignoring_case(a: Seq<char>, b: Seq<char>) -> bool {
    &&& a.len() == b.len()
    &&& forall|i: int| 0 <= i < a.len() ==> ascii_lower(#[trigger] a[i]) == ascii_lower(b[i])
}

pub open spec fn is_digit(c: char) -> bool {
    '0' <= c <= '9'
}

pub open spec fn all_digits(s: Seq<char>) -> bool {
    forall|i: int| 0 <= i < s.len() ==> is_digit(#[trigger] s[i])
}

/// The number that a sequence of decimal digits stands for.
pub open spec fn digits_value(s: Seq<char>) -> int
    decreases s.len(),
{
    if s.len() == 0 {
        0
    } else {
        digits_value(s.drop_last()) * 10 + (s.last() as int - '0' as int)
    }
}

/// The integer that `s` denotes: an optional sign, then at least one digit, and a
/// value that an `i64` holds.
pub open spec fn int_value(s: Seq<char>) -> Option<int> {
    let signed = s.len() > 0 && (s[0] == '+' || s[0] == '-');
    let digits = if signed { s.drop_first() } else { s };
    let value = if signed && s[0] == '-' { -digits_value(digits) } else { digits_value(digits) };
    if digits.len() > 0 && all_digits(digits) && i64::MIN <= value <= i64::MAX {
        Some(value)
    } else {
        None
    }
}

/// The digit for a number below ten.
pub open spec fn digit_char(d: int) -> char {
    (('0' as int) + d) as char
}

/// The decimal digits of `n`, without leading zeros.
pub open spec fn decimal(n: nat) -> Seq<char>
    decreases n,
{
    if n < 10 {
        seq![digit_char(n as int)]
    } else {
        decimal(n / 10).push(digit_char((n % 10) as int))
    }
}

/// `s` filled up with zeros in front to `width` characters.
pub open spec fn zero_filled(s: Seq<char>, width: nat) -> Seq<char> {
    if s.len() >= width {
        s
    } else {
        Seq::new((width - s.len()) as nat, |i: int| '0') + s
    }
}

/// `n` in decimal, filled up with zeros behind the sign to `width` characters.
pub open spec fn padded(n: int, width: nat) -> Seq<char> {
    if n >= 0 {
        zero_filled(decimal(n as nat), width)
    } else {
        seq!['-'] + zero_filled(decimal((-n) as nat), if width > 0 { (width - 1) as nat } else { 0 })
    }
}

/// The number of bytes of `c` in UTF-8.
pub open spec fn utf8_len(c: char) -> nat {
    if (c as u32) < 0x80 {
        1
    } else if (c as u32) < 0x800 {
        2
    } else if (c as u32) < 0x10000 {
        3
    } else {
        4
    }
}

/// The number of bytes of `s` in UTF-8.
pub open spec fn utf8_size(s: Seq<char>) -> nat
    decreases s.len(),
{
    if s.len() == 0 {
        0
    } else {
        utf8_size(s.drop_last()) + utf8_len(s.last())
    }
}

/// The characters that fill exactly the first `n` bytes of `s`; nothing where `s` is
/// shorter or the boundary falls inside a character.
pub open spec fn byte_prefix(s: Seq<char>, n: nat) -> Seq<char> {
    if exists|k: int| 0 <= k <= s.len() && utf8_size(#[trigger] s.take(k)) == n {
        s.take(choose|k: int| 0 <= k <= s.len() && utf8_size(#[trigger] s.take(k)) == n)
    } else {
        Seq::empty()
    }
}

/// The views of a vector of strings.
pub open spec fn views(v: Seq<String>) -> Seq<Seq<char>> {
    v.map_values(|s: String| s@)
}

// ---- lemmas ----

pub proof fn lemma_split_nonempty(s: Seq<char>, sep: char)
    ensures
        split(s, sep).len() > 0,
    decreases s.len(),
{
    if s.len() > 0 {
        lemma_split_nonempty(s.drop_last(), sep);
    }
}

// ---- code ----

/// The characters of `s`.
pub(crate) fn chars_of(s: &str) -> (r: Vec<char>)
    ensures
        r@ == s@,
{
    let mut v: Vec<char> = Vec::new();
    for c in it: s.chars()
        invariant
            v@ == s@.take(it.index()),
            it.seq() == s@,
    {
        v.push(c);
        assert(v@ =~= s@.take(it.index() + 1));
    }
    assert(s@.take(s@.len() as int) =~= s@);
    v
}

/// The string of the characters from `from` up to `to`.
pub(crate) fn string_of(cs: &Vec<char>, from: usize, to: usize) -> (r: String)
    requires
        from <= to <= cs@.len(),
    ensures
        r@ == cs@.subrange(from as int, to as int),
{
    let mut s: String = String::new();
    let mut i: usize = from;
    while i < to
        invariant
            from <= i <= to <= cs@.len(),
            s@ == cs@.subrange(from as int, i as int),
        decreases to - i,
    {
        s.push(cs[i]);
        assert(cs@.subrange(from as int, i + 1) =~= cs@.subrange(from as int, i as int).push(
            cs@[i as int],
        ));
        i = i + 1;
    }
    s
}

/// Whether two strings hold the same characters.
pub fn same(a: &str, b: &str) -> (r: bool)
    ensures
        r == (a@ == b@),
{
    let x: Vec<char> = chars_of(a);
    let y: Vec<char> = chars_of(b);
    if x.len() != y.len() {
        return false;
    }
    let mut i: usize = 0;
    while i < x.len()
        invariant
            i <= x@.len(),
            x@.len() == y@.len(),
            x@ == a@,
            y@ == b@,
            forall|j: int| 0 <= j < i ==> x@[j] == y@[j],
        decreases x@.len() - i,
    {
        if x[i] != y[i] {
            return false;
        }
        i = i + 1;
    }
    assert(x@ =~= y@);
    true
}

/// Whether `c` has the Unicode property `White_Space`.
pub(crate) fn white(c: char) -> (r: bool)
    ensures
        r == is_white(c),
{
    ('\u{9}' <= c && c <= '\u{d}') || c == ' ' || c == '\u{85}' || c == '\u{a0}' || c
        == '\u{1680}' || ('\u{2000}' <= c && c <= '\u{200a}') || c == '\u{2028}' || c
        == '\u{2029}' || c == '\u{202f}' || c == '\u{205f}' || c == '\u{3000}'
}

/// `s` without white space at either end.
pub fn trim(s: &str) -> (r: String)
    ensures
        r@ == trimmed(s@),
{
    let cs: Vec<char> = chars_of(s);
    let mut from: usize = 0;
    assert(cs@.skip(0) =~= s@);
    while from < cs.len() && white(cs[from])
        invariant
            from <= cs@.len(),
            trim_front(cs@.skip(from as int)) == trim_front(s@),
        decreases cs@.len() - from,
    {
        assert(cs@.skip(from as int).drop_first() =~= cs@.skip(from + 1));
        from = from + 1;
    }
    let mut to: usize = cs.len();
    assert(cs@.subrange(from as int, to as int) =~= cs@.skip(from as int));
    while from < to && white(cs[to - 1])
        invariant
            from <= to <= cs@.len(),
            trim_back(cs@.subrange(from as int, to as int)) == trimmed(s@),
        decreases to,
    {
        assert(cs@.subrange(from as int, to as int).drop_last() =~= cs@.subrange(
            from as int,
            to - 1,
        ));
        to = to - 1;
    }
    string_of(&cs, from, to)
}

/// The pieces of `s` between the occurrences of `sep`.
pub fn split_on(s: &str, sep: char) -> (r: Vec<String>)
    ensures
        views(r@) == split(s@, sep),
        r@.len() > 0,
{
    let cs: Vec<char> = chars_of(s);
    let mut out: Vec<String> = Vec::new();
    let mut cur: String = String::new();
    let mut i: usize = 0;
    assert(views(out@).push(cur@) =~= split(cs@.take(0), sep));
    while i < cs.len()
        invariant
            i <= cs@.len(),
            views(out@).push(cur@) == split(cs@.take(i as int), sep),
        decreases cs@.len() - i,
    {
        let ghost was = views(out@).push(cur@);
        assert(cs@.take(i + 1).drop_last() =~= cs@.take(i as int));
        assert(cs@.take(i + 1).last() == cs@[i as int]);
        assert(was.drop_last() =~= views(out@));
        if cs[i] == sep {
            out.push(cur);
            cur = String::new();
            assert(views(out@) =~= was);
        } else {
            cur.push(cs[i]);
        }
        i = i + 1;
    }
    assert(cs@.take(cs@.len() as int) =~= s@);
    let ghost before = out@;
    out.push(cur);
    assert(views(out@) =~= views(before).push(cur@));
    out
}

/// The lines of `s`.
pub fn lines_of(s: &str) -> (r: Vec<String>)
    ensures
        views(r@) == lines(s@),
{
    let pieces: Vec<String> = split_on(s, '\n');
    let mut out: Vec<String> = Vec::new();
    let n: usize = pieces.len();
    let ghost ended = split(s@, '\n').drop_last().map_values(|p: Seq<char>| without_cr(p));
    let mut i: usize = 0;
    while i + 1 < n
        invariant
            n == pieces@.len(),
            n > 0,
            i < n,
            views(pieces@) == split(s@, '\n'),
            ended == split(s@, '\n').drop_last().map_values(|p: Seq<char>| without_cr(p)),
            views(out@) == ended.take(i as int),
        decreases n - i,
    {
        let cs: Vec<char> = chars_of(pieces[i].as_str());
        let ghost before = out@;
        assert(views(pieces@)[i as int] == pieces@[i as int]@);
        let line: String = if cs.len() > 0 && cs[cs.len() - 1] == '\r' {
            string_of(&cs, 0, cs.len() - 1)
        } else {
            string_of(&cs, 0, cs.len())
        };
        assert(line@ =~= without_cr(cs@));
        assert(line@ == ended[i as int]);
        out.push(line);
        assert(views(out@) =~= views(before).push(line@));
        assert(ended.take(i + 1) =~= ended.take(i as int).push(ended[i as int]));
        i = i + 1;
    }
    assert(views(pieces@).last() == pieces@[n - 1]@);
    assert(ended.take(i as int) =~= ended);
    if !pieces[n - 1].as_str().is_empty() {
        out.push(pieces[n - 1].clone());
        assert(views(out@) =~= ended.push(pieces@[n - 1]@));
    }
    out
}

/// What follows `prefix` in `s`, or `None` where `s` does not begin with it.
pub fn after_prefix(s: &str, prefix: &str) -> (r: Option<String>)
    ensures
        match r {
            Some(rest) => begins(s@, prefix@) && rest@ == s@.skip(prefix@.len() as int),
            None => !begins(s@, prefix@),
        },
{
    let x: Vec<char> = chars_of(s);
    let p: Vec<char> = chars_of(prefix);
    if x.len() < p.len() {
        return None;
    }
    let mut i: usize = 0;
    while i < p.len()
        invariant
            i <= p@.len() <= x@.len(),
            x@ == s@,
            p@ == prefix@,
            forall|j: int| 0 <= j < i ==> x@[j] == p@[j],
        decreases p@.len() - i,
    {
        if x[i] != p[i] {
            assert(s@.take(p@.len() as int)[i as int] == x@[i as int]);
            return None;
        }
        i = i + 1;
    }
    assert(s@.take(p@.len() as int) =~= p@);
    let rest: String = string_of(&x, p.len(), x.len());
    assert(rest@ =~= s@.skip(p@.len() as int));
    Some(rest)
}

/// Whether `s` begins with `prefix`.
pub fn starts_with(s: &str, prefix: &str) -> (r: bool)
    ensures
        r == begins(s@, prefix@),
{
    after_prefix(s, prefix).is_some()
}

/// Whether `a` comes before `b` in lexicographic order.
pub fn is_before(a: &str, b: &str) -> (r: bool)
    ensures
        r == before(a@, b@),
{
    let x: Vec<char> = chars_of(a);
    let y: Vec<char> = chars_of(b);
    let mut i: usize = 0;
    assert(x@.skip(0) =~= a@);
    assert(y@.skip(0) =~= b@);
    while i < x.len() && i < y.len() && x[i] == y[i]
        invariant
            i <= x@.len(),
            i <= y@.len(),
            before(x@.skip(i as int), y@.skip(i as int)) == before(a@, b@),
        decreases x@.len() - i,
    {
        assert(x@.skip(i as int).drop_first() =~= x@.skip(i + 1));
        assert(y@.skip(i as int).drop_first() =~= y@.skip(i + 1));
        i = i + 1;
    }
    if i >= y.len() {
        false
    } else if i >= x.len() {
        true
    } else {
        x[i] < y[i]
    }
}

fn lower(c: char) -> (r: char)
    ensures
        r == ascii_lower(c),
{
    if 'A' <= c && c <= 'Z' {
        ((c as u8) + 32u8) as char
    } else {
        c
    }
}

/// Whether `a` and `b` are equal but for the case of ASCII letters.
pub fn same_no_case(a: &str, b: &str) -> (r: bool)
    ensures
        r == same_ignoring_case(a@, b@),
{
    let x: Vec<char> = chars_of(a);
    let y: Vec<char> = chars_of(b);
    if x.len() != y.len() {
        return false;
    }
    let mut i: usize = 0;
    while i < x.len()
        invariant
            i <= x@.len(),
            x@.len() == y@.len(),
            x@ == a@,
            y@ == b@,
            forall|j: int| 0 <= j < i ==> ascii_lower(#[trigger] x@[j]) == ascii_lower(y@[j]),
        decreases x@.len() - i,
    {
        if lower(x[i]) != lower(y[i]) {
            return false;
        }
        i = i + 1;
    }
    true
}

/// The value of leading digits is bounded by the value of all of them.
proof fn lemma_digits_value_grows(s: Seq<char>, k: int)
    requires
        all_digits(s),
        0 <= k <= s.len(),
    ensures
        0 <= digits_value(s.take(k)) <= digits_value(s),
    decreases s.len(),
{
    if s.len() == 0 {
        assert(s.take(k) =~= s);
    } else if k == s.len() {
        assert(s.take(k) =~= s);
        lemma_digits_value_grows(s.drop_last(), s.len() - 1);
        assert(s.drop_last().take(s.len() - 1) =~= s.drop_last());
    } else {
        lemma_digits_value_grows(s.drop_last(), k);
        assert(s.drop_last().take(k) =~= s.take(k));
    }
}

/// The integer that `s` denotes, or `None` where it denotes none that an `i64` holds.
pub fn parse_int(s: &str) -> (r: Option<i64>)
    ensures
        match r {
            Some(n) => int_value(s@) == Some(n as int),
            None => int_value(s@) is None,
        },
{
    let cs: Vec<char> = chars_of(s);
    let signed: bool = cs.len() > 0 && (cs[0] == '+' || cs[0] == '-');
    let negative: bool = signed && cs[0] == '-';
    let first: usize = if signed { 1 } else { 0 };
    let ghost digits = cs@.skip(first as int);
    assert(signed ==> digits =~= s@.drop_first());
    assert(!signed ==> digits =~= s@);
    if first == cs.len() {
        return None;
    }
    let mut i: usize = first;
    let mut value: i128 = 0;
    while i < cs.len()
        invariant
            first <= i <= cs@.len(),
            digits == cs@.skip(first as int),
            all_digits(digits.take(i - first)),
            value == digits_value(digits.take(i - first)),
            0 <= value <= 0x8000_0000_0000_0000,
            int_value(s@) is Some ==> all_digits(digits) && digits_value(digits)
                <= 0x8000_0000_0000_0000,
        decreases cs@.len() - i,
    {
        let c: char = cs[i];
        assert(digits[i - first] == c);
        if c < '0' || c > '9' {
            return None;
        }
        assert(digits.take(i + 1 - first).drop_last() =~= digits.take(i - first));
        let next: i128 = value * 10 + ((c as u8) - 48u8) as i128;
        assert(next == digits_value(digits.take(i + 1 - first)));
        if next > 0x8000_0000_0000_0000 {
            proof {
                if all_digits(digits) {
                    lemma_digits_value_grows(digits, i + 1 - first);
                }
            }
            return None;
        }
        assert forall|j: int| 0 <= j < i + 1 - first implies is_digit(
            #[trigger] digits.take(i + 1 - first)[j],
        ) by {
            if j < i - first {
                assert(is_digit(digits.take(i - first)[j]));
            }
        }
        value = next;
        i = i + 1;
    }
    assert(digits.take(cs@.len() - first) =~= digits);
    if negative {
        Some((-value) as i64)
    } else if value <= 0x7fff_ffff_ffff_ffff {
        Some(value as i64)
    } else {
        None
    }
}

/// The decimal digits of `n`.
fn push_decimal(s: &mut String, n: u64)
    ensures
        final(s)@ == old(s)@ + decimal(n as nat),
    decreases n,
{
    if n >= 10 {
        push_decimal(s, n / 10);
    }
    s.push(((n % 10) as u8 + 48u8) as char);
    assert(s@ =~= old(s)@ + decimal(n as nat));
}

/// `n` in decimal, without leading zeros.
pub fn decimal_of(n: u64) -> (r: String)
    ensures
        r@ == decimal(n as nat),
{
    let mut s: String = String::new();
    push_decimal(&mut s, n);
    assert(s@ =~= decimal(n as nat));
    s
}

/// `n` in decimal, filled up with zeros behind the sign to `width` characters.
pub fn pad(n: i64, width: usize) -> (r: String)
    ensures
        r@ == padded(n as int, width as nat),
{
    let mut s: String = String::new();
    let magnitude: u64 = if n >= 0 { n as u64 } else { (-(n as i128)) as u64 };
    let digits: Vec<char> = chars_of(decimal_of(magnitude).as_str());
    let room: usize = if n >= 0 { width } else if width > 0 { width - 1 } else { 0 };
    if n < 0 {
        s.push('-');
    }
    let ghost sign = s@;
    let mut k: usize = digits.len();
    let ghost zeros = Seq::<char>::empty();
    while k < room
        invariant
            digits@.len() <= k,
            k <= room || k == digits@.len(),
            zeros == Seq::new((k - digits@.len()) as nat, |i: int| '0'),
            s@ == sign + zeros,
        decreases room - k,
    {
        s.push('0');
        proof {
            zeros = zeros.push('0');
        }
        k = k + 1;
        assert(zeros =~= Seq::new((k - digits@.len()) as nat, |i: int| '0'));
        assert(s@ =~= sign + zeros);
    }
    let ghost head = s@;
    let mut i: usize = 0;
    while i < digits.len()
        invariant
            i <= digits@.len(),
            s@ == head + digits@.take(i as int),
        decreases digits@.len() - i,
    {
        s.push(digits[i]);
        i = i + 1;
        assert(s@ =~= head + digits@.take(i as int));
    }
    assert(s@ =~= padded(n as int, width as nat));
    s
}

/// One string after the other.
pub(crate) fn cat(a: &str, b: &str) -> (r: String)
    ensures
        r@ == a@ + b@,
{
    let mut s: String = String::new();
    s.append(a);
    s.append(b);
    assert(s@ =~= a@ + b@);
    s
}

/// The pieces put together with `sep` between them.
pub fn join(pieces: &Vec<String>, sep: char) -> (r: String)
    ensures
        r@ == joined(views(pieces@), sep),
{
    let ghost all = views(pieces@);
    let mut s: String = String::new();
    let mut i: usize = 0;
    assert(s@ =~= joined(all.take(0), sep));
    while i < pieces.len()
        invariant
            i <= pieces@.len(),
            all == views(pieces@),
            s@ == joined(all.take(i as int), sep),
        decreases pieces@.len() - i,
    {
        assert(all.take(i + 1).drop_last() =~= all.take(i as int));
        assert(all[i as int] == pieces@[i as int]@);
        if i > 0 {
            s.push(sep);
        }
        s.append(pieces[i].as_str());
        assert(s@ =~= joined(all.take(i + 1), sep));
        i = i + 1;
    }
    assert(all.take(all.len() as int) =~= all);
    s
}

/// What `String::from_utf8_lossy` makes of some bytes.
pub uninterp spec fn utf8_lossy(bytes: Seq<u8>) -> Seq<char>;

/// `String::from_utf8_lossy`: the text of the bytes where they are UTF-8, else the text
/// with a mark in place of what is none. Where the marks stand is not stated.
#[verifier::external_body]
pub(crate) fn lossy(bytes: &[u8]) -> (r: String)
    ensures
        r@ == utf8_lossy(bytes@),
        valid_utf8(bytes@) ==> r@ == decode_utf8(bytes@),
{
    String::from_utf8_lossy(bytes).into_owned()
}

/// The first `n` characters, or all where there are fewer.
pub open spec fn head(s: Seq<char>, n: int) -> Seq<char> {
    if s.len() > n {
        s.take(n)
    } else {
        s
    }
}

/// The first `n` characters, or all where there are fewer.
pub fn first_chars(s: &str, n: usize) -> (r: String)
    ensures
        r@ == head(s@, n as int),
{
    let cs: Vec<char> = chars_of(s);
    let to: usize = if cs.len() > n { n } else { cs.len() };
    assert(cs@.subrange(0, to as int) =~= head(s@, n as int));
    string_of(&cs, 0, to)
}

/// The bytes of a character in UTF-8.
fn bytes_in(c: char) -> (r: usize)
    ensures
        r == utf8_len(c),
{
    if (c as u32) < 0x80 {
        1
    } else if (c as u32) < 0x800 {
        2
    } else if (c as u32) < 0x10000 {
        3
    } else {
        4
    }
}

/// A longer prefix takes more bytes.
proof fn lemma_utf8_size_grows(s: Seq<char>, j: int, k: int)
    requires
        0 <= j <= k <= s.len(),
    ensures
        utf8_size(s.take(k)) - utf8_size(s.take(j)) >= k - j,
    decreases k,
{
    if j < k {
        lemma_utf8_size_grows(s, j, k - 1);
        assert(s.take(k).drop_last() =~= s.take(k - 1));
    }
}

/// The characters that fill exactly the first `n` bytes of `s`, or nothing where
/// there are none.
pub fn first_bytes(s: &str, n: usize) -> (r: String)
    ensures
        r@ == byte_prefix(s@, n as nat),
{
    let cs: Vec<char> = chars_of(s);
    let mut i: usize = 0;
    let mut left: usize = n;
    assert(cs@.take(0).len() == 0);
    while i < cs.len() && left > 0
        invariant
            i <= cs@.len(),
            cs@ == s@,
            left + utf8_size(cs@.take(i as int)) == n,
        decreases cs@.len() - i,
    {
        let b: usize = bytes_in(cs[i]);
        assert(cs@.take(i + 1).drop_last() =~= cs@.take(i as int));
        if b > left {
            assert forall|k: int| 0 <= k <= s@.len() implies utf8_size(#[trigger] s@.take(k)) != n by {
                if k <= i {
                    lemma_utf8_size_grows(s@, k, i as int);
                } else {
                    lemma_utf8_size_grows(s@, i + 1, k);
                }
            }
            return String::new();
        }
        left = left - b;
        i = i + 1;
    }
    if left > 0 {
        assert forall|k: int| 0 <= k <= s@.len() implies utf8_size(#[trigger] s@.take(k)) != n by {
            lemma_utf8_size_grows(s@, k, i as int);
        }
        return String::new();
    }
    proof {
        let k = choose|k: int| 0 <= k <= s@.len() && utf8_size(#[trigger] s@.take(k)) == n;
        assert(utf8_size(s@.take(i as int)) == n);
        if k < i {
            lemma_utf8_size_grows(s@, k, i as int);
        } else {
            lemma_utf8_size_grows(s@, i as int, k);
        }
    }
    assert(cs@.subrange(0, i as int) =~= s@.take(i as int));
    string_of(&cs, 0, i)
}

/// `10` to the power of `n`.
pub open spec fn ten_to(n: nat) -> int
    decreases n,
{
    if n == 0 {
        1
    } else {
        10 * ten_to((n - 1) as nat)
    }
}

pub proof fn lemma_ten_to_grows(a: nat, b: nat)
    requires
        a <= b,
    ensures
        1 <= ten_to(a) <= ten_to(b),
    decreases b,
{
    if a < b {
        lemma_ten_to_grows(a, (b - 1) as nat);
    } else if b > 0 {
        lemma_ten_to_grows((a - 1) as nat, (b - 1) as nat);
    }
}

proof fn lemma_digits_value_bound(s: Seq<char>)
    requires
        all_digits(s),
    ensures
        0 <= digits_value(s) < ten_to(s.len()),
    decreases s.len(),
{
    if s.len() > 0 {
        let t = s.drop_last();
        assert forall|i: int| 0 <= i < t.len() implies is_digit(#[trigger] t[i]) by {
            assert(is_digit(s[i]));
        }
        assert(is_digit(s[s.len() - 1]));
        lemma_digits_value_bound(t);
    }
}

/// An integer of `n` characters is less than `10` to the power of `n`.
pub proof fn lemma_int_value_bound(s: Seq<char>)
    ensures
        int_value(s) matches Some(v) ==> -ten_to(s.len()) < v < ten_to(s.len()),
{
    let digits = if s.len() > 0 && (s[0] == '+' || s[0] == '-') {
        s.drop_first()
    } else {
        s
    };
    if int_value(s) is Some {
        lemma_digits_value_bound(digits);
    }
}

/// No piece is longer than what it was split from.
pub proof fn lemma_pieces_short(s: Seq<char>, sep: char)
    ensures
        forall|i: int| 0 <= i < split(s, sep).len() ==> (#[trigger] split(s, sep)[i]).len() <= s.len(),
    decreases s.len(),
{
    if s.len() > 0 {
        lemma_pieces_short(s.drop_last(), sep);
        lemma_split_nonempty(s.drop_last(), sep);
    }
}

pub proof fn lemma_trimmed_short(s: Seq<char>)
    ensures
        trimmed(s).len() <= s.len(),
{
    lemma_trim_front_short(s);
    lemma_trim_back_short(trim_front(s));
}

proof fn lemma_trim_front_short(s: Seq<char>)
    ensures
        trim_front(s).len() <= s.len(),
    decreases s.len(),
{
    if s.len() > 0 {
        lemma_trim_front_short(s.drop_first());
    }
}

proof fn lemma_trim_back_short(s: Seq<char>)
    ensures
        trim_back(s).len() <= s.len(),
    decreases s.len(),
{
    if s.len() > 0 {
        lemma_trim_back_short(s.drop_last());
    }
}

proof fn lemma_trim_front_lacks(s: Seq<char>, c: char)
    requires
        lacks(s, c),
    ensures
        lacks(trim_front(s), c),
    decreases s.len(),
{
    if s.len() > 0 && is_white(s[0]) {
        let t = s.drop_first();
        assert forall|i: int| 0 <= i < t.len() implies #[trigger] t[i] != c by {
            assert(s[i + 1] != c);
        }
        lemma_trim_front_lacks(t, c);
    }
}

proof fn lemma_trim_back_lacks(s: Seq<char>, c: char)
    requires
        lacks(s, c),
    ensures
        lacks(trim_back(s), c),
    decreases s.len(),
{
    if s.len() > 0 && is_white(s.last()) {
        let t = s.drop_last();
        assert forall|i: int| 0 <= i < t.len() implies #[trigger] t[i] != c by {
            assert(s[i] != c);
        }
        lemma_trim_back_lacks(t, c);
    }
}

proof fn lemma_trim_front_starts(s: Seq<char>)
    ensures
        trim_front(s).len() > 0 ==> !is_white(trim_front(s)[0]),
    decreases s.len(),
{
    if s.len() > 0 && is_white(s[0]) {
        lemma_trim_front_starts(s.drop_first());
    }
}

proof fn lemma_trim_back_ends(s: Seq<char>)
    requires
        s.len() > 0 ==> !is_white(s[0]),
    ensures
        trim_back(s).len() > 0 ==> !is_white(trim_back(s)[0]) && !is_white(trim_back(s).last()),
    decreases s.len(),
{
    if s.len() > 0 && is_white(s.last()) {
        lemma_trim_back_ends(s.drop_last());
    }
}

/// Trimming adds no character and leaves nothing to trim.
pub proof fn lemma_trimmed(s: Seq<char>, c: char)
    requires
        lacks(s, c),
    ensures
        lacks(trimmed(s), c),
        trimmed(trimmed(s)) == trimmed(s),
{
    let t = trim_front(s);
    lemma_trim_front_lacks(s, c);
    lemma_trim_back_lacks(t, c);
    lemma_trim_front_starts(s);
    lemma_trim_back_ends(t);
}

/// What needs no trimming neither starts nor ends with white space.
pub proof fn lemma_trimmed_ends(s: Seq<char>)
    requires
        trimmed(s) == s,
    ensures
        s.len() > 0 ==> !is_white(s[0]) && !is_white(s.last()),
{
    lemma_trim_front_starts(s);
    lemma_trim_back_ends(trim_front(s));
}

/// Splitting adds no character.
pub proof fn lemma_pieces_lack(s: Seq<char>, sep: char, c: char)
    requires
        lacks(s, c),
    ensures
        forall|i: int| 0 <= i < split(s, sep).len() ==> lacks(#[trigger] split(s, sep)[i], c),
    decreases s.len(),
{
    if s.len() > 0 {
        let f = s.drop_last();
        assert forall|i: int| 0 <= i < f.len() implies #[trigger] f[i] != c by {
            assert(s[i] != c);
        }
        lemma_pieces_lack(f, sep, c);
        lemma_split_nonempty(f, sep);
        let (front, all) = (split(f, sep), split(s, sep));
        assert(s[s.len() - 1] != c);
        assert(lacks(front[front.len() - 1], c));
        assert forall|i: int| 0 <= i < all.len() implies lacks(#[trigger] all[i], c) by {
            if i < front.len() - 1 || s.last() == sep && i < front.len() {
                assert(all[i] == front[i]);
            } else if s.last() != sep {
                let last = front[front.len() - 1];
                assert(all[i] == last.push(s.last()));
                assert forall|j: int| 0 <= j < all[i].len() implies #[trigger] all[i][j] != c by {
                    if j < last.len() {
                        assert(last[j] != c);
                    }
                }
            }
        }
    }
}

/// No line holds a line feed.
pub proof fn lemma_lines_lack(s: Seq<char>)
    ensures
        forall|i: int| 0 <= i < lines(s).len() ==> lacks(#[trigger] lines(s)[i], '\n'),
{
    law_split_join(s, '\n');
    let (pieces, all) = (split(s, '\n'), lines(s));
    assert forall|i: int| 0 <= i < all.len() implies lacks(#[trigger] all[i], '\n') by {
        let p = pieces[i];
        assert forall|j: int| 0 <= j < all[i].len() implies #[trigger] all[i][j] != '\n' by {
            assert(all[i][j] == p[j]);
            assert(pieces[i][j] != '\n');
        }
    }
}

/// The first `n` bytes hold at most `n` characters.
pub proof fn lemma_byte_prefix_short(s: Seq<char>, n: nat)
    ensures
        byte_prefix(s, n).len() <= n,
{
    if exists|k: int| 0 <= k <= s.len() && utf8_size(#[trigger] s.take(k)) == n {
        let k = choose|k: int| 0 <= k <= s.len() && utf8_size(#[trigger] s.take(k)) == n;
        lemma_utf8_size_grows(s, 0, k);
        assert(s.take(0) =~= Seq::<char>::empty());
    }
}

// ---- laws ----

proof fn lemma_joined_push(front: Seq<Seq<char>>, piece: Seq<char>, sep: char)
    requires
        front.len() > 0,
    ensures
        joined(front.push(piece), sep) == joined(front, sep).push(sep) + piece,
{
    assert(front.push(piece).drop_last() =~= front);
}

/// Joining the pieces of a split with the separator gives the text back, and no
/// piece holds the separator.
pub proof fn law_split_join(s: Seq<char>, sep: char)
    ensures
        split(s, sep).len() > 0,
        joined(split(s, sep), sep) == s,
        forall|i: int, j: int|
            0 <= i < split(s, sep).len() && 0 <= j < split(s, sep)[i].len()
                ==> #[trigger] split(s, sep)[i][j] != sep,
    decreases s.len(),
{
    let p = split(s, sep);
    if s.len() == 0 {
        assert(joined(p, sep) =~= s);
    } else {
        law_split_join(s.drop_last(), sep);
        let front = split(s.drop_last(), sep);
        assert(s =~= s.drop_last().push(s.last()));
        if s.last() == sep {
            lemma_joined_push(front, Seq::empty(), sep);
            assert(joined(p, sep) =~= s);
            assert forall|i: int, j: int|
                0 <= i < p.len() && 0 <= j < p[i].len() implies #[trigger] p[i][j] != sep by {
                assert(p[i] == front[i]);
                assert(front[i][j] != sep);
            }
        } else {
            let heads = front.drop_last();
            let last = front.last();
            if heads.len() == 0 {
                assert(joined(front, sep) == front[0]);
                assert(p =~= seq![last.push(s.last())]);
            } else {
                lemma_joined_push(heads, last.push(s.last()), sep);
                lemma_joined_push(heads, last, sep);
                assert(heads.push(last) =~= front);
            }
            assert(joined(p, sep) =~= joined(front, sep).push(s.last()));
            assert forall|i: int, j: int|
                0 <= i < p.len() && 0 <= j < p[i].len() implies #[trigger] p[i][j] != sep by {
                if i < front.len() - 1 {
                    assert(p[i] == front[i]);
                    assert(front[i][j] != sep);
                } else if j < last.len() {
                    assert(p[i][j] == last[j]);
                    assert(front[front.len() - 1][j] != sep);
                }
            }
        }
    }
}

/// Whether `c` occurs nowhere in `s`.
pub open spec fn lacks(s: Seq<char>, c: char) -> bool {
    forall|i: int| 0 <= i < s.len() ==> #[trigger] s[i] != c
}

/// Splitting joined pieces, none of which holds the separator, gives the pieces back.
pub proof fn law_join_split(pieces: Seq<Seq<char>>, sep: char)
    requires
        pieces.len() > 0,
        forall|i: int| 0 <= i < pieces.len() ==> lacks(#[trigger] pieces[i], sep),
    ensures
        split(joined(pieces, sep), sep) == pieces,
    decreases pieces.len(),
{
    assert(lacks(pieces[pieces.len() - 1], sep));
    lemma_split_plain(pieces.last(), sep);
    if pieces.len() == 1 {
        assert(split(joined(pieces, sep), sep) =~= pieces);
    } else {
        let front = pieces.drop_last();
        assert forall|i: int| 0 <= i < front.len() implies lacks(#[trigger] front[i], sep) by {
            assert(lacks(pieces[i], sep));
        }
        law_join_split(front, sep);
        lemma_split_across(joined(front, sep), pieces.last(), sep);
        assert(split(joined(pieces, sep), sep) =~= pieces);
    }
}

/// Whether `s` can stand as a line: without line feed, and without a carriage return at
/// its end.
pub open spec fn is_line(s: Seq<char>) -> bool {
    lacks(s, '\n') && (s.len() > 0 ==> s.last() != '\r')
}

/// Lines that are written one below the other, each with a line feed, read back.
pub proof fn law_lines_read_back(ls: Seq<Seq<char>>)
    requires
        ls.len() > 0,
        forall|i: int| 0 <= i < ls.len() ==> is_line(#[trigger] ls[i]),
    ensures
        lines(joined(ls, '\n').push('\n')) == ls,
{
    let s = joined(ls, '\n');
    assert forall|i: int| 0 <= i < ls.len() implies lacks(#[trigger] ls[i], '\n') by {
        assert(is_line(ls[i]));
    }
    law_join_split(ls, '\n');
    lemma_split_across(s, Seq::empty(), '\n');
    assert(s.push('\n') + Seq::<char>::empty() =~= s.push('\n'));
    assert(split(s.push('\n'), '\n') =~= ls.push(Seq::empty()));
    assert forall|i: int| 0 <= i < ls.len() implies without_cr(#[trigger] ls[i]) == ls[i] by {
        assert(is_line(ls[i]));
    }
    assert(ls.push(Seq::<char>::empty()).drop_last() =~= ls);
    assert(lines(s.push('\n')) =~= ls);
}

proof fn lemma_not_before_itself(a: Seq<char>)
    ensures
        !before(a, a),
    decreases a.len(),
{
    if a.len() > 0 {
        lemma_not_before_itself(a.drop_first());
    }
}

/// The order of text is a strict total order.
pub proof fn law_before_is_total_order(a: Seq<char>, b: Seq<char>, c: Seq<char>)
    ensures
        !before(a, a),
        before(a, b) && before(b, c) ==> before(a, c),
        a == b || before(a, b) || before(b, a),
        !(before(a, b) && before(b, a)),
    decreases a.len() + b.len() + c.len(),
{
    lemma_not_before_itself(a);
    if a.len() > 0 && b.len() > 0 && c.len() > 0 {
        law_before_is_total_order(a.drop_first(), b.drop_first(), c.drop_first());
    } else if a.len() > 0 && b.len() > 0 {
        law_before_is_total_order(a.drop_first(), b.drop_first(), c);
    }
    if a.len() > 0 && b.len() > 0 && a[0] == b[0] && a.drop_first() == b.drop_first() {
        assert(a =~= seq![a[0]] + a.drop_first());
        assert(b =~= seq![b[0]] + b.drop_first());
    }
    if a.len() == 0 && b.len() == 0 {
        assert(a =~= b);
    }
}

/// The decimal digits of a number are digits, at least one, and stand for it.
pub proof fn law_decimal_value(n: nat)
    ensures
        all_digits(decimal(n)),
        decimal(n).len() > 0,
        digits_value(decimal(n)) == n,
    decreases n,
{
    if n < 10 {
        reveal_with_fuel(digits_value, 2);
        assert(decimal(n).drop_last() =~= Seq::<char>::empty());
    } else {
        law_decimal_value(n / 10);
        let d = decimal(n);
        let f = decimal(n / 10);
        assert(d.drop_last() =~= f);
        assert forall|i: int| 0 <= i < d.len() implies is_digit(#[trigger] d[i]) by {
            if i < f.len() {
                assert(is_digit(f[i]));
            }
        }
    }
}

/// Text without the separator is its own only piece.
pub proof fn lemma_split_plain(s: Seq<char>, sep: char)
    requires
        forall|i: int| 0 <= i < s.len() ==> #[trigger] s[i] != sep,
    ensures
        split(s, sep) == seq![s],
    decreases s.len(),
{
    if s.len() > 0 {
        let f = s.drop_last();
        assert forall|i: int| 0 <= i < f.len() implies #[trigger] f[i] != sep by {
            assert(f[i] == s[i]);
        }
        lemma_split_plain(f, sep);
        assert(s.last() == s[s.len() - 1]);
        assert(f.push(s.last()) =~= s);
        assert(split(s, sep) =~= seq![s]);
    } else {
        assert(s =~= Seq::<char>::empty());
    }
}

/// The pieces of two texts with a separator between them are those of the one and
/// then those of the other.
pub proof fn lemma_split_across(a: Seq<char>, b: Seq<char>, sep: char)
    ensures
        split(a.push(sep) + b, sep) == split(a, sep) + split(b, sep),
    decreases b.len(),
{
    let s = a.push(sep) + b;
    if b.len() == 0 {
        assert(s.drop_last() =~= a);
        assert(split(s, sep) =~= split(a, sep) + split(b, sep));
    } else {
        lemma_split_across(a, b.drop_last(), sep);
        lemma_split_nonempty(b.drop_last(), sep);
        assert(s.drop_last() =~= a.push(sep) + b.drop_last());
        assert(split(s, sep) =~= split(a, sep) + split(b, sep));
    }
}

/// A number in decimal with zeros in front denotes the number.
pub proof fn law_padded_value(n: nat, width: nat)
    requires
        n <= i64::MAX,
    ensures
        all_digits(padded(n as int, width)),
        padded(n as int, width).len() >= 1,
        int_value(padded(n as int, width)) == Some(n as int),
{
    law_decimal_value(n);
    let d = decimal(n);
    let p = padded(n as int, width);
    lemma_zero_filled_value(d, width);
    assert(is_digit(p[0]));
}

/// Zeros in front leave digits digits and their value as it is.
pub proof fn lemma_zero_filled_value(d: Seq<char>, width: nat)
    requires
        all_digits(d),
    ensures
        all_digits(zero_filled(d, width)),
        digits_value(zero_filled(d, width)) == digits_value(d),
        zero_filled(d, width).len() >= d.len(),
    decreases d.len(),
{
    let p = zero_filled(d, width);
    if d.len() < width {
        let zeros = Seq::new((width - d.len()) as nat, |i: int| '0');
        assert(p =~= zeros + d);
        assert forall|i: int| 0 <= i < p.len() implies is_digit(#[trigger] p[i]) by {
            if i >= zeros.len() {
                assert(is_digit(d[i - zeros.len()]));
            }
        }
        lemma_zeros_in_front(zeros, d);
    }
}

proof fn lemma_zeros_in_front(zeros: Seq<char>, d: Seq<char>)
    requires
        forall|i: int| 0 <= i < zeros.len() ==> #[trigger] zeros[i] == '0',
    ensures
        digits_value(zeros + d) == digits_value(d),
    decreases zeros.len() + d.len(),
{
    let s = zeros + d;
    if d.len() > 0 {
        assert(s.drop_last() =~= zeros + d.drop_last());
        lemma_zeros_in_front(zeros, d.drop_last());
    } else if zeros.len() > 0 {
        assert(s.drop_last() =~= zeros.drop_last() + d);
        assert(s.last() == zeros[zeros.len() - 1]);
        assert forall|i: int| 0 <= i < zeros.drop_last().len() implies #[trigger] zeros.drop_last()[i]
            == '0' by {
            assert(zeros.drop_last()[i] == zeros[i]);
        }
        lemma_zeros_in_front(zeros.drop_last(), d);
    } else {
        assert(s =~= d);
    }
}

/// Of a text that starts with `n` ASCII characters, the first `n` bytes are those
/// characters.
pub proof fn law_ascii_prefix(s: Seq<char>, n: nat)
    requires
        n <= s.len(),
        forall|i: int| 0 <= i < n ==> (#[trigger] s[i] as u32) < 0x80,
    ensures
        byte_prefix(s, n) == s.take(n as int),
{
    lemma_ascii_size(s, n as int);
    assert(utf8_size(s.take(n as int)) == n);
    let k = choose|k: int| 0 <= k <= s.len() && utf8_size(#[trigger] s.take(k)) == n;
    if k < n {
        lemma_utf8_size_grows(s, k, n as int);
    } else {
        lemma_utf8_size_grows(s, n as int, k);
    }
}

proof fn lemma_ascii_size(s: Seq<char>, n: int)
    requires
        0 <= n <= s.len(),
        forall|i: int| 0 <= i < n ==> (#[trigger] s[i] as u32) < 0x80,
    ensures
        utf8_size(s.take(n)) == n,
    decreases n,
{
    if n > 0 {
        lemma_ascii_size(s, n - 1);
        assert(s.take(n).drop_last() =~= s.take(n - 1));
        assert(s.take(n).last() == s[n - 1]);
    }
}

/// What white space surrounds is what trimming leaves: the ends that stay are not white.
pub proof fn law_trimmed(a: Seq<char>, t: Seq<char>, b: Seq<char>)
    requires
        forall|i: int| 0 <= i < a.len() ==> is_white(#[trigger] a[i]),
        forall|i: int| 0 <= i < b.len() ==> is_white(#[trigger] b[i]),
        t.len() > 0 ==> !is_white(t[0]) && !is_white(t[t.len() - 1]),
    ensures
        trimmed(a + t + b) == t,
{
    lemma_trim_front_white(a, t + b);
    assert(a + t + b =~= a + (t + b));
    if t.len() > 0 {
        assert((t + b)[0] == t[0]);
        assert(trim_front(t + b) == t + b);
        lemma_trim_back_white(t, b);
        assert(trim_back(t) == t);
    } else {
        assert(t + b =~= b);
        lemma_trim_front_white(b, Seq::empty());
        assert(b + Seq::<char>::empty() =~= b);
        assert(t =~= Seq::<char>::empty());
    }
}

proof fn lemma_trim_front_white(a: Seq<char>, s: Seq<char>)
    requires
        forall|i: int| 0 <= i < a.len() ==> is_white(#[trigger] a[i]),
    ensures
        trim_front(a + s) == trim_front(s),
    decreases a.len(),
{
    if a.len() == 0 {
        assert(a + s =~= s);
    } else {
        let t = a.drop_first();
        assert forall|i: int| 0 <= i < t.len() implies is_white(#[trigger] t[i]) by {
            assert(t[i] == a[i + 1]);
        }
        assert(is_white(a[0]));
        assert((a + s).drop_first() =~= t + s);
        lemma_trim_front_white(t, s);
    }
}

proof fn lemma_trim_back_white(s: Seq<char>, b: Seq<char>)
    requires
        forall|i: int| 0 <= i < b.len() ==> is_white(#[trigger] b[i]),
    ensures
        trim_back(s + b) == trim_back(s),
    decreases b.len(),
{
    if b.len() == 0 {
        assert(s + b =~= s);
    } else {
        let t = b.drop_last();
        assert forall|i: int| 0 <= i < t.len() implies is_white(#[trigger] t[i]) by {
            assert(t[i] == b[i]);
        }
        assert(is_white(b[b.len() - 1]));
        assert((s + b).drop_last() =~= s + t);
        assert((s + b).last() == b.last());
        lemma_trim_back_white(s, t);
    }
}

/// White space, by code point: tab to carriage return, the blank, the next line, the
/// no-break spaces, and the blanks and separators of general punctuation.
pub proof fn law_white(c: char)
    ensures
        is_white(c) <==> 9 <= c as int <= 13 || c as int == 32 || c as int == 0x85 || c as int == 0xa0 || c as int
            == 0x1680 || 0x2000 <= c as int <= 0x200a || c as int == 0x2028 || c as int == 0x2029 || c as int
            == 0x202f || c as int == 0x205f || c as int == 0x3000,
{
}

/// Lines that end in a carriage return and a line feed read back without either, whatever
/// else they hold.
pub proof fn law_lines_with_returns_read_back(ls: Seq<Seq<char>>)
    requires
        ls.len() > 0,
        forall|i: int| 0 <= i < ls.len() ==> lacks(#[trigger] ls[i], '\n'),
    ensures
        lines(joined(ls.map_values(|l: Seq<char>| l.push('\r')), '\n').push('\n')) == ls,
{
    let rs = ls.map_values(|l: Seq<char>| l.push('\r'));
    let s = joined(rs, '\n');
    assert forall|i: int| 0 <= i < rs.len() implies lacks(#[trigger] rs[i], '\n') by {
        assert(lacks(ls[i], '\n'));
        assert forall|j: int| 0 <= j < rs[i].len() implies #[trigger] rs[i][j] != '\n' by {
            if j < ls[i].len() {
                assert(rs[i][j] == ls[i][j]);
            }
        }
    }
    law_join_split(rs, '\n');
    lemma_split_across(s, Seq::empty(), '\n');
    assert(s.push('\n') + Seq::<char>::empty() =~= s.push('\n'));
    assert(split(s.push('\n'), '\n') =~= rs.push(Seq::empty()));
    assert forall|i: int| 0 <= i < ls.len() implies without_cr(#[trigger] rs[i]) == ls[i] by {
        assert(rs[i].drop_last() =~= ls[i]);
    }
    assert(rs.push(Seq::<char>::empty()).drop_last() =~= rs);
    assert(lines(s.push('\n')) =~= ls);
}

/// The last line needs no line feed.
pub proof fn law_last_line_unended(ls: Seq<Seq<char>>)
    requires
        ls.len() > 0,
        forall|i: int| 0 <= i < ls.len() ==> is_line(#[trigger] ls[i]),
        ls.last().len() > 0,
    ensures
        lines(joined(ls, '\n')) == ls,
{
    assert forall|i: int| 0 <= i < ls.len() implies lacks(#[trigger] ls[i], '\n') by {
        assert(is_line(ls[i]));
    }
    law_join_split(ls, '\n');
    assert forall|i: int| 0 <= i < ls.len() implies without_cr(#[trigger] ls[i]) == ls[i] by {
        assert(is_line(ls[i]));
    }
    assert(lines(joined(ls, '\n')) =~= ls);
}

/// Of two texts that agree up to a place, the one with the lesser character there comes
/// first, and one that ends there comes before one that goes on.
pub proof fn law_first_difference(a: Seq<char>, b: Seq<char>, n: int)
    requires
        0 <= n <= a.len(),
        n < b.len(),
        forall|i: int| 0 <= i < n ==> #[trigger] a[i] == b[i],
        n < a.len() ==> a[n] != b[n],
    ensures
        n == a.len() ==> before(a, b) && !before(b, a),
        n < a.len() ==> (before(a, b) <==> (a[n] as int) < (b[n] as int)),
    decreases n,
{
    if n > 0 {
        assert(a[0] == b[0]);
        let (x, y) = (a.drop_first(), b.drop_first());
        assert forall|i: int| 0 <= i < n - 1 implies #[trigger] x[i] == y[i] by {
            assert(a[i + 1] == b[i + 1]);
        }
        law_first_difference(x, y, n - 1);
    }
}

/// Small and capital letters differ by 32, and case tells no other characters apart.
pub proof fn law_case(c: char, d: char)
    ensures
        same_ignoring_case(seq![c], seq![d]) <==> c == d || ('A' <= c <= 'Z' && d as int == c as int + 32) || (
        'A' <= d <= 'Z' && c as int == d as int + 32),
{
    let (a, b) = (seq![c], seq![d]);
    if same_ignoring_case(a, b) {
        assert(ascii_lower(a[0]) == ascii_lower(b[0]));
    }
}

/// A sign in front of digits is a sign: the value of the digits, or what is opposite to it.
pub proof fn law_signed_value(n: nat)
    requires
        n <= i64::MAX,
    ensures
        int_value(seq!['-'] + decimal(n)) == Some(-(n as int)),
        int_value(seq!['+'] + decimal(n)) == Some(n as int),
        int_value(decimal(n)) == Some(n as int),
{
    law_decimal_value(n);
    let d = decimal(n);
    assert((seq!['-'] + d).drop_first() =~= d);
    assert((seq!['+'] + d).drop_first() =~= d);
    assert(is_digit(d[0]));
}

/// What holds anything but digits behind its first character is no integer, nor is a sign
/// alone, nor nothing.
pub proof fn law_no_integer(s: Seq<char>, i: int)
    ensures
        s.len() == 0 ==> int_value(s) is None,
        s.len() == 1 && !is_digit(s[0]) ==> int_value(s) is None,
        1 <= i < s.len() && !is_digit(s[i]) ==> int_value(s) is None,
        s.len() > 0 && !is_digit(s[0]) && s[0] != '+' && s[0] != '-' ==> int_value(s) is None,
{
    let t = s.drop_first();
    if 1 <= i < s.len() && !is_digit(s[i]) {
        assert(t[i - 1] == s[i]);
        assert(!all_digits(s));
        assert(!all_digits(t));
    }
    if s.len() > 0 && !is_digit(s[0]) {
        assert(!all_digits(s));
    }
}

/// A prefix leaves what follows it.
pub proof fn law_after_prefix(s: &str, prefix: &str, rest: Seq<char>, r: Option<String>, b: bool)
    requires
        call_ensures(after_prefix, (s, prefix), r),
        call_ensures(starts_with, (s, prefix), b),
    ensures
        s@ == prefix@ + rest ==> b && (r matches Some(t) && t@ == rest),
        r matches Some(t) ==> s@ == prefix@ + t@,
        b <==> r is Some,
{
    let n = prefix@.len() as int;
    if s@ == prefix@ + rest {
        assert(s@.take(n) =~= prefix@);
        assert(s@.skip(n) =~= rest);
    }
    if r is Some {
        assert(s@ =~= s@.take(n) + s@.skip(n));
    }
}

/// The first characters of a text, or all where there are fewer.
pub proof fn law_first_chars(s: &str, n: usize, r: String)
    requires
        call_ensures(first_chars, (s, n), r),
    ensures
        r@.len() == (if s@.len() < n {
            s@.len() as int
        } else {
            n as int
        }),
        r@ == s@.take(r@.len() as int),
{
    assert(s@.take(s@.len() as int) =~= s@);
}

/// The bytes of a text are those of its characters: one each up to 0x7f, two up to 0x7ff,
/// three up to 0xffff and four above.
pub proof fn law_utf8_size(s: Seq<char>, c: char)
    ensures
        utf8_size(s.push(c)) == utf8_size(s) + (if c as u32 <= 0x7f {
            1int
        } else if c as u32 <= 0x7ff {
            2
        } else if c as u32 <= 0xffff {
            3
        } else {
            4
        }),
        utf8_size(Seq::empty()) == 0,
{
    assert(s.push(c).drop_last() =~= s);
}

/// An ASCII text that is shorter than `n` bytes does not fill them.
pub proof fn law_short_prefix(s: Seq<char>, n: nat)
    requires
        s.len() < n,
        forall|i: int| 0 <= i < s.len() ==> (#[trigger] s[i] as u32) < 0x80,
    ensures
        byte_prefix(s, n).len() == 0,
{
    assert forall|k: int| 0 <= k <= s.len() implies utf8_size(#[trigger] s.take(k)) != n by {
        lemma_ascii_size(s, k);
    }
}

/// Integers run from the least to the greatest of 64 bits with a sign; beyond them a text
/// denotes none.
pub proof fn law_integer_bounds(n: nat)
    ensures
        n > 0x7fff_ffff_ffff_ffff ==> int_value(decimal(n)) is None,
        n <= 0x8000_0000_0000_0000 ==> int_value(seq!['-'] + decimal(n)) == Some(-(n as int)),
        n > 0x8000_0000_0000_0000 ==> int_value(seq!['-'] + decimal(n)) is None,
{
    law_decimal_value(n);
    let d = decimal(n);
    assert((seq!['-'] + d).drop_first() =~= d);
    assert(is_digit(d[0]));
}

/// A number in decimal has no zero in front, but for zero itself.
pub proof fn law_no_leading_zero(n: nat)
    ensures
        n > 0 ==> decimal(n)[0] != '0',
        decimal(0) == seq!['0'],
        n < 10 ==> decimal(n).len() == 1,
        n >= 10 ==> decimal(n).len() == decimal(n / 10).len() + 1,
    decreases n,
{
    if n >= 10 {
        law_no_leading_zero(n / 10);
        law_decimal_value(n / 10);
        assert(decimal(n)[0] == decimal(n / 10)[0]);
    }
}

/// A number below zero has its sign in front of the zeros that fill it up, and denotes the
/// number.
pub proof fn law_padded_negative(n: nat, width: nat)
    requires
        0 < n <= i64::MAX,
    ensures
        padded(-(n as int), width)[0] == '-',
        padded(-(n as int), width).len() >= width,
        int_value(padded(-(n as int), width)) == Some(-(n as int)),
{
    let w = if width > 0 {
        (width - 1) as nat
    } else {
        0
    };
    law_decimal_value(n);
    lemma_zero_filled_value(decimal(n), w);
    let z = zero_filled(decimal(n), w);
    let p = padded(-(n as int), width);
    assert(p == seq!['-'] + z);
    assert(p.drop_first() =~= z);
}

} // verus!

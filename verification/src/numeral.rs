//! Which texts denote a floating-point number.

use crate::text::{
    all_digits, ascii_lower, chars_of, is_digit, is_white, lacks, same_ignoring_case, same_no_case,
    string_of, trimmed,
};
use vstd::prelude::*;

verus! {

/// The number of digits that `s` begins with.
pub open spec fn digit_run(s: Seq<char>) -> nat
    decreases s.len(),
{
    if s.len() > 0 && is_digit(s[0]) {
        1 + digit_run(s.drop_first())
    } else {
        0
    }
}

/// `s` without a sign in front.
pub open spec fn unsigned(s: Seq<char>) -> Seq<char> {
    if s.len() > 0 && (s[0] == '+' || s[0] == '-') {
        s.drop_first()
    } else {
        s
    }
}

/// Nothing, or `e` and an integer.
pub open spec fn is_exponent(s: Seq<char>) -> bool {
    ||| s.len() == 0
    ||| {
        let digits = unsigned(s.drop_first());
        (s[0] == 'e' || s[0] == 'E') && digits.len() > 0 && digit_run(digits) == digits.len()
    }
}

/// What follows the whole part of a number: nothing, or a point and the fraction,
/// each with the count of the fraction's digits.
pub open spec fn fraction_run(s: Seq<char>) -> nat {
    if s.len() > 0 && s[0] == '.' {
        digit_run(s.drop_first())
    } else {
        0
    }
}

/// Digits with at most one point among them, and an exponent or none.
pub open spec fn is_decimal(s: Seq<char>) -> bool {
    let whole = digit_run(s);
    let after = s.skip(whole as int);
    let fraction = fraction_run(after);
    let tail = if after.len() > 0 && after[0] == '.' {
        after.skip((1 + fraction) as int)
    } else {
        after
    };
    whole + fraction > 0 && is_exponent(tail)
}

/// A sign or none, then a decimal number, `inf`, `infinity` or `nan` in any case.
pub open spec fn is_numeral(s: Seq<char>) -> bool {
    let u = unsigned(s);
    ||| is_decimal(u)
    ||| same_ignoring_case(u, seq!['i', 'n', 'f'])
    ||| same_ignoring_case(u, seq!['i', 'n', 'f', 'i', 'n', 'i', 't', 'y'])
    ||| same_ignoring_case(u, seq!['n', 'a', 'n'])
}

/// Digits alone are a run of digits.
pub proof fn lemma_digit_run_whole(s: Seq<char>)
    requires
        all_digits(s),
    ensures
        digit_run(s) == s.len(),
    decreases s.len(),
{
    if s.len() > 0 {
        let t = s.drop_first();
        assert forall|i: int| 0 <= i < t.len() implies is_digit(#[trigger] t[i]) by {
            assert(is_digit(s[i + 1]));
        }
        assert(is_digit(s[0]));
        lemma_digit_run_whole(t);
    }
}

/// A run of digits consists of digits.
proof fn lemma_digit_run(s: Seq<char>)
    ensures
        digit_run(s) <= s.len(),
        forall|i: int| 0 <= i < digit_run(s) ==> is_digit(#[trigger] s[i]),
    decreases s.len(),
{
    if s.len() > 0 && is_digit(s[0]) {
        let t = s.drop_first();
        lemma_digit_run(t);
        assert forall|i: int| 0 <= i < digit_run(s) implies is_digit(#[trigger] s[i]) by {
            if i > 0 {
                assert(is_digit(t[i - 1]));
            }
        }
    }
}

/// A character that may stand in a number: none is a comma or white space.
pub open spec fn is_number_char(c: char) -> bool {
    is_digit(c) || c == '+' || c == '-' || c == '.' || 'A' <= c <= 'Z' || 'a' <= c <= 'z'
}

pub open spec fn all_number_chars(s: Seq<char>) -> bool {
    forall|i: int| 0 <= i < s.len() ==> is_number_char(#[trigger] s[i])
}

proof fn lemma_exponent_chars(s: Seq<char>)
    requires
        is_exponent(s),
    ensures
        all_number_chars(s),
{
    if s.len() > 0 {
        let t = s.drop_first();
        let digits = unsigned(t);
        lemma_digit_run(digits);
        assert forall|i: int| 0 <= i < s.len() implies is_number_char(#[trigger] s[i]) by {
            if i > 0 {
                assert(s[i] == t[i - 1]);
                if digits == t {
                    assert(is_digit(digits[i - 1]));
                } else if i > 1 {
                    assert(t[i - 1] == digits[i - 2]);
                }
            }
        }
    }
}

proof fn lemma_decimal_chars(s: Seq<char>)
    requires
        is_decimal(s),
    ensures
        all_number_chars(s),
        s.len() > 0,
{
    let whole = digit_run(s);
    let after = s.skip(whole as int);
    lemma_digit_run(s);
    if after.len() > 0 && after[0] == '.' {
        let behind = after.drop_first();
        let fraction = digit_run(behind);
        let tail = after.skip((1 + fraction) as int);
        lemma_digit_run(behind);
        lemma_exponent_chars(tail);
        assert forall|i: int| 0 <= i < s.len() implies is_number_char(#[trigger] s[i]) by {
            if i > whole {
                if i <= whole + fraction {
                    assert(s[i] == behind[i - whole - 1]);
                } else {
                    assert(s[i] == tail[i - whole - 1 - fraction]);
                }
            } else if i == whole {
                assert(s[i] == after[0]);
            }
        }
    } else {
        lemma_exponent_chars(after);
        assert forall|i: int| 0 <= i < s.len() implies is_number_char(#[trigger] s[i]) by {
            if i >= whole {
                assert(s[i] == after[i - whole]);
            }
        }
    }
}

proof fn lemma_word_chars(s: Seq<char>, word: Seq<char>)
    requires
        same_ignoring_case(s, word),
        forall|i: int| 0 <= i < word.len() ==> 'a' <= #[trigger] word[i] <= 'z',
    ensures
        all_number_chars(s),
{
    assert forall|i: int| 0 <= i < s.len() implies is_number_char(#[trigger] s[i]) by {
        assert('a' <= word[i] <= 'z');
        assert(ascii_lower(s[i]) == ascii_lower(word[i]));
        assert(ascii_lower(word[i]) == word[i]);
    }
}

/// A number is some characters that may stand in one, so there is nothing to trim and
/// nothing at which a file is split.
pub proof fn lemma_numeral_chars(s: Seq<char>)
    requires
        is_numeral(s),
    ensures
        s.len() > 0,
        all_number_chars(s),
        lacks(s, ','),
        lacks(s, '\n'),
        lacks(s, '\r'),
        trimmed(s) == s,
{
    let u = unsigned(s);
    if is_decimal(u) {
        lemma_decimal_chars(u);
    } else if same_ignoring_case(u, seq!['i', 'n', 'f']) {
        lemma_word_chars(u, seq!['i', 'n', 'f']);
    } else if same_ignoring_case(u, seq!['n', 'a', 'n']) {
        lemma_word_chars(u, seq!['n', 'a', 'n']);
    } else {
        lemma_word_chars(u, seq!['i', 'n', 'f', 'i', 'n', 'i', 't', 'y']);
    }
    assert forall|i: int| 0 <= i < s.len() implies is_number_char(#[trigger] s[i]) by {
        if u == s {
            assert(is_number_char(u[i]));
        } else if i > 0 {
            assert(s[i] == u[i - 1]);
        }
    }
    lemma_number_chars(s);
}

/// Characters that may stand in a number leave nothing to trim and nothing at which a file
/// is split.
pub proof fn lemma_number_chars(s: Seq<char>)
    requires
        s.len() > 0,
        all_number_chars(s),
    ensures
        lacks(s, ','),
        lacks(s, '\n'),
        lacks(s, '\r'),
        trimmed(s) == s,
{
    assert(is_number_char(s[0]) && is_number_char(s[s.len() - 1]));
    assert(!is_white(s[0]) && !is_white(s.last()));
}

/// The number of digits from `from` on.
fn digits_at(cs: &Vec<char>, from: usize) -> (r: usize)
    requires
        from <= cs@.len(),
    ensures
        r == digit_run(cs@.skip(from as int)),
        from + r <= cs.len(),
{
    let mut i: usize = from;
    while i < cs.len() && '0' <= cs[i] && cs[i] <= '9'
        invariant
            from <= i <= cs@.len(),
            i - from + digit_run(cs@.skip(i as int)) == digit_run(cs@.skip(from as int)),
        decreases cs@.len() - i,
    {
        assert(cs@.skip(i as int).drop_first() =~= cs@.skip(i + 1));
        i = i + 1;
    }
    i - from
}

/// Where `s` begins behind its sign.
fn behind_sign(cs: &Vec<char>, from: usize) -> (r: usize)
    requires
        from <= cs@.len(),
    ensures
        from <= r <= cs@.len(),
        cs@.skip(r as int) == unsigned(cs@.skip(from as int)),
{
    if from < cs.len() && (cs[from] == '+' || cs[from] == '-') {
        assert(cs@.skip(from as int).drop_first() =~= cs@.skip(from + 1));
        from + 1
    } else {
        from
    }
}

fn exponent_at(cs: &Vec<char>, from: usize) -> (r: bool)
    requires
        from <= cs@.len(),
    ensures
        r == is_exponent(cs@.skip(from as int)),
{
    if from == cs.len() {
        return true;
    }
    assert(cs@.skip(from as int)[0] == cs@[from as int]);
    if cs[from] != 'e' && cs[from] != 'E' {
        return false;
    }
    assert(cs@.skip(from as int).drop_first() =~= cs@.skip(from + 1));
    let first: usize = behind_sign(cs, from + 1);
    first < cs.len() && digits_at(cs, first) == cs.len() - first
}

fn decimal_at(cs: &Vec<char>, from: usize) -> (r: bool)
    requires
        from <= cs@.len(),
    ensures
        r == is_decimal(cs@.skip(from as int)),
{
    let whole: usize = digits_at(cs, from);
    let point: usize = from + whole;
    assert(cs@.skip(from as int).skip(whole as int) =~= cs@.skip(point as int));
    if point < cs.len() && cs[point] == '.' {
        let fraction: usize = digits_at(cs, point + 1);
        assert(cs@.skip(point as int).drop_first() =~= cs@.skip(point + 1));
        assert(cs@.skip(point as int).skip(1 + fraction) =~= cs@.skip(point + 1 + fraction));
        (whole > 0 || fraction > 0) && exponent_at(cs, point + 1 + fraction)
    } else {
        whole > 0 && exponent_at(cs, point)
    }
}

/// Whether `s` denotes a floating-point number.
pub fn denotes_number(s: &str) -> (r: bool)
    ensures
        r == is_numeral(s@),
{
    let cs: Vec<char> = chars_of(s);
    assert(cs@.skip(0) =~= s@);
    let first: usize = behind_sign(&cs, 0);
    let rest: String = string_of(&cs, first, cs.len());
    assert(rest@ =~= unsigned(s@));
    proof {
        reveal_strlit("inf");
        reveal_strlit("infinity");
        reveal_strlit("nan");
        assert("inf"@ =~= seq!['i', 'n', 'f']);
        assert("infinity"@ =~= seq!['i', 'n', 'f', 'i', 'n', 'i', 't', 'y']);
        assert("nan"@ =~= seq!['n', 'a', 'n']);
    }
    decimal_at(&cs, first) || same_no_case(rest.as_str(), "inf") || same_no_case(
        rest.as_str(),
        "infinity",
    ) || same_no_case(rest.as_str(), "nan")
}

/// The digits that a text begins with, up to the first other character.
proof fn lemma_digit_run_stops(d: Seq<char>, rest: Seq<char>)
    requires
        all_digits(d),
        rest.len() > 0 ==> !is_digit(rest[0]),
    ensures
        digit_run(d + rest) == d.len(),
    decreases d.len(),
{
    if d.len() == 0 {
        assert(d + rest =~= rest);
    } else {
        let t = d.drop_first();
        assert forall|i: int| 0 <= i < t.len() implies is_digit(#[trigger] t[i]) by {
            assert(is_digit(d[i + 1]));
        }
        assert(is_digit(d[0]));
        assert((d + rest)[0] == d[0]);
        assert((d + rest).drop_first() =~= t + rest);
        lemma_digit_run_stops(t, rest);
    }
}

proof fn lemma_decimal_form(whole: Seq<char>, fraction: Seq<char>, tail: Seq<char>)
    requires
        all_digits(whole),
        all_digits(fraction),
        tail.len() > 0 ==> !is_digit(tail[0]) && tail[0] != '.',
    ensures
        is_decimal(whole + seq!['.'] + fraction + tail) <==> whole.len() + fraction.len() > 0 && is_exponent(tail),
        is_decimal(whole + tail) <==> whole.len() > 0 && is_exponent(tail),
{
    let s = whole + seq!['.'] + fraction + tail;
    let after = seq!['.'] + fraction + tail;
    assert(s =~= whole + after);
    assert(after[0] == '.');
    lemma_digit_run_stops(whole, after);
    assert(s.skip(whole.len() as int) =~= after);
    assert(after.drop_first() =~= fraction + tail);
    lemma_digit_run_stops(fraction, tail);
    assert(after.skip(1 + fraction.len() as int) =~= tail);
    lemma_digit_run_stops(whole, tail);
    assert((whole + tail).skip(whole.len() as int) =~= tail);
}

proof fn lemma_exponent_form(sign: Seq<char>, digits: Seq<char>, e: char)
    requires
        all_digits(digits),
        digits.len() > 0,
        sign.len() == 0 || sign == seq!['-'] || sign == seq!['+'],
        e == 'e' || e == 'E',
    ensures
        is_exponent(seq![e] + sign + digits),
{
    let s = seq![e] + sign + digits;
    assert(s.drop_first() =~= sign + digits);
    assert(is_digit(digits[0]));
    if sign.len() == 0 {
        assert(sign + digits =~= digits);
    } else {
        assert((sign + digits).drop_first() =~= digits);
    }
    assert(unsigned(s.drop_first()) =~= digits);
    lemma_digit_run_whole(digits);
}

/// Numbers are digits, with a sign or none before them, a point and a fraction or none
/// behind them, and an exponent or none; the whole part or the fraction may be missing, not
/// both.
pub proof fn law_numerals(
    s: &str,
    r: bool,
    sign: Seq<char>,
    whole: Seq<char>,
    fraction: Seq<char>,
    e: char,
    power: Seq<char>,
    digits: Seq<char>,
)
    requires
        call_ensures(denotes_number, (s,), r),
        all_digits(whole),
        all_digits(fraction),
        all_digits(digits),
        digits.len() > 0,
        sign.len() == 0 || sign == seq!['-'] || sign == seq!['+'],
        power.len() == 0 || power == seq!['-'] || power == seq!['+'],
        e == 'e' || e == 'E',
        whole.len() + fraction.len() > 0,
    ensures
        s@ == sign + (whole + seq!['.'] + fraction) ==> r,
        s@ == sign + (whole + seq!['.'] + fraction + (seq![e] + power + digits)) ==> r,
        whole.len() > 0 && s@ == sign + whole ==> r,
        whole.len() > 0 && s@ == sign + (whole + (seq![e] + power + digits)) ==> r,
{
    let none = Seq::<char>::empty();
    let tail = seq![e] + power + digits;
    lemma_exponent_form(power, digits, e);
    assert(tail[0] == e);
    lemma_decimal_form(whole, fraction, none);
    lemma_decimal_form(whole, fraction, tail);
    assert(whole + seq!['.'] + fraction + none =~= whole + seq!['.'] + fraction);
    assert(whole + none =~= whole);
    lemma_behind_sign(sign, whole + seq!['.'] + fraction);
    lemma_behind_sign(sign, whole + seq!['.'] + fraction + tail);
    if whole.len() > 0 {
        assert(is_digit(whole[0]));
        lemma_behind_sign(sign, whole);
        lemma_behind_sign(sign, whole + tail);
    }
}

proof fn lemma_behind_sign(sign: Seq<char>, u: Seq<char>)
    requires
        sign.len() == 0 || sign == seq!['-'] || sign == seq!['+'],
        u.len() > 0,
        u[0] != '+' && u[0] != '-',
    ensures
        unsigned(sign + u) == u,
{
    if sign.len() == 0 {
        assert(sign + u =~= u);
    } else {
        assert((sign + u).drop_first() =~= u);
    }
}

/// What is empty, a point or a sign alone denotes no number, and no number has two points.
pub proof fn law_no_numerals(s: &str, r: bool, a: Seq<char>, b: Seq<char>, c: Seq<char>)
    requires
        call_ensures(denotes_number, (s,), r),
        all_digits(a),
        all_digits(b),
    ensures
        s@.len() == 0 ==> !r,
        s@ == seq!['.'] || s@ == seq!['-'] || s@ == seq!['+'] ==> !r,
        s@ == a + seq!['.'] + b + (seq!['.'] + c) ==> !r,
{
    let none = Seq::<char>::empty();
    if s@.len() == 0 {
        assert(s@ =~= none);
        lemma_decimal_form(none, none, none);
        assert(none + none =~= none);
    }
    if s@ == seq!['-'] || s@ == seq!['+'] {
        assert(unsigned(s@) =~= none);
        lemma_decimal_form(none, none, none);
        assert(none + none =~= none);
    }
    if s@ == seq!['.'] {
        lemma_decimal_form(none, none, none);
        assert(none + seq!['.'] + none + none =~= s@);
    }
    if s@ == a + seq!['.'] + b + (seq!['.'] + c) {
        let after = seq!['.'] + b + (seq!['.'] + c);
        let tail = seq!['.'] + c;
        assert(s@ =~= a + after);
        assert(after[0] == '.');
        lemma_digit_run_stops(a, after);
        assert(s@.skip(a.len() as int) =~= after);
        assert(after.drop_first() =~= b + tail);
        lemma_digit_run_stops(b, tail);
        assert(after.skip(1 + b.len() as int) =~= tail);
        assert(tail[0] == '.');
        if a.len() > 0 {
            assert(is_digit(a[0]));
            assert(s@[0] == a[0]);
        } else {
            assert(s@[0] == '.');
        }
        assert(unsigned(s@) == s@);
        assert(s@[a.len() as int] == '.');
        if same_ignoring_case(s@, seq!['i', 'n', 'f']) || same_ignoring_case(s@, seq!['n', 'a', 'n'])
            || same_ignoring_case(s@, seq!['i', 'n', 'f', 'i', 'n', 'i', 't', 'y']) {
            assert(ascii_lower(s@[0]) == 'i' || ascii_lower(s@[0]) == 'n');
        }
    }
}

/// The words for infinity and for no number count, with a sign or none, in whatever case.
pub proof fn law_number_words(s: &str, r: bool, sign: Seq<char>, word: Seq<char>)
    requires
        call_ensures(denotes_number, (s,), r),
        sign.len() == 0 || sign == seq!['-'] || sign == seq!['+'],
        same_ignoring_case(word, seq!['n', 'a', 'n']) || same_ignoring_case(word, seq!['i', 'n', 'f'])
            || same_ignoring_case(word, seq!['i', 'n', 'f', 'i', 'n', 'i', 't', 'y']),
    ensures
        s@ == sign + word ==> r,
{
    assert(ascii_lower(word[0]) == 'n' || ascii_lower(word[0]) == 'i');
    lemma_behind_sign(sign, word);
}

/// An exponent needs digits, and digits are followed by nothing but a point, an exponent or
/// the end.
pub proof fn law_no_numeral_behind_digits(s: &str, r: bool, digits: Seq<char>, c: char)
    requires
        call_ensures(denotes_number, (s,), r),
        all_digits(digits),
        digits.len() > 0,
        !is_digit(c),
        c != '.',
    ensures
        s@ == digits + seq![c] ==> !r,
        s@ == digits + seq!['e', '-'] || s@ == digits + seq!['E', '+'] ==> !r,
{
    let none = Seq::<char>::empty();
    assert(is_digit(digits[0]));
    lemma_decimal_form(digits, none, seq![c]);
    lemma_decimal_form(digits, none, seq!['e', '-']);
    lemma_decimal_form(digits, none, seq!['E', '+']);
    assert(seq![c].drop_first() =~= none);
    assert(unsigned(none) == none);
    assert(unsigned(seq!['e', '-'].drop_first()) =~= none);
    assert(unsigned(seq!['E', '+'].drop_first()) =~= none);
    assert(!is_exponent(seq![c]));
    assert(!is_exponent(seq!['e', '-']));
    assert(!is_exponent(seq!['E', '+']));
    assert(s@ == digits + seq![c] ==> s@[0] == digits[0]);
    assert(s@ == digits + seq!['e', '-'] ==> s@[0] == digits[0]);
    assert(s@ == digits + seq!['E', '+'] ==> s@[0] == digits[0]);
    if s@.len() > 0 && s@[0] == digits[0] {
        assert(unsigned(s@) == s@);
        if same_ignoring_case(s@, seq!['i', 'n', 'f']) || same_ignoring_case(s@, seq!['n', 'a', 'n'])
            || same_ignoring_case(s@, seq!['i', 'n', 'f', 'i', 'n', 'i', 't', 'y']) {
            assert(ascii_lower(s@[0]) == 'i' || ascii_lower(s@[0]) == 'n');
        }
    }
}

} // verus!

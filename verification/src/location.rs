//! The location of an entity: two decimal floating-point numbers with a
//! `|` between them.
//!
//! A number is written as Rust's `f64` reads it:
//!
//! ```text
//! Float  ::= Sign? ( 'inf' | 'infinity' | 'nan' | Number )
//! Number ::= ( Digit+ | Digit+ '.' Digit* | Digit* '.' Digit+ ) Exp?
//! Exp    ::= 'e' Sign? Digit+
//! Sign   ::= [+-]
//! Digit  ::= [0-9]
//! ```
//!
//! with letters in either case. Nothing is trimmed.

use vstd::prelude::*;
use crate::model::{Position, PositionView};
use crate::text::{chars_of, copy_range};

verus! {

pub open spec fn is_digit(c: char) -> bool {
    '0' <= c && c <= '9'
}

pub open spec fn is_sign(c: char) -> bool {
    c == '+' || c == '-'
}

pub open spec fn all_digits(s: Seq<char>) -> bool {
    forall|i: int| 0 <= i < s.len() ==> is_digit(#[trigger] s[i])
}

/// `Digit+ | Digit+ '.' Digit* | Digit* '.' Digit+`
pub open spec fn is_mantissa(s: Seq<char>) -> bool {
    ||| s.len() >= 1 && all_digits(s)
    ||| exists|d: int| is_mantissa_with_point(s, d)
}

/// `s` has its point at `d`, digits around it, and at least one digit.
pub open spec fn is_mantissa_with_point(s: Seq<char>, d: int) -> bool {
    &&& 0 <= d < s.len()
    &&& s.len() >= 2
    &&& s[d] == '.'
    &&& all_digits(s.subrange(0, d))
    &&& all_digits(s.subrange(d + 1, s.len() as int))
}

/// `'e' Sign? Digit+`, the letter in either case.
pub open spec fn is_exponent(s: Seq<char>) -> bool {
    &&& s.len() >= 2
    &&& (s[0] == 'e' || s[0] == 'E')
    &&& if is_sign(s[1]) {
        s.len() >= 3 && all_digits(s.subrange(2, s.len() as int))
    } else {
        all_digits(s.subrange(1, s.len() as int))
    }
}

/// `s` is a mantissa of `m` characters, and an exponent where it goes on.
pub open spec fn is_number_split(s: Seq<char>, m: int) -> bool {
    &&& 0 <= m <= s.len()
    &&& is_mantissa(s.subrange(0, m))
    &&& (m == s.len() || is_exponent(s.subrange(m, s.len() as int)))
}

/// `Number` of the grammar.
pub open spec fn is_number(s: Seq<char>) -> bool {
    exists|m: int| is_number_split(s, m)
}

/// `c` is the lower-case letter `letter`, or its capital.
pub open spec fn is_letter(c: char, letter: char) -> bool {
    c == letter || ('A' <= c && c <= 'Z' && c as u32 + 32 == letter as u32)
}

/// `s` is the lower-case word `word`, with any of its letters capital.
pub open spec fn is_word(s: Seq<char>, word: Seq<char>) -> bool {
    &&& s.len() == word.len()
    &&& forall|i: int| 0 <= i < s.len() ==> is_letter(#[trigger] s[i], word[i])
}

pub open spec fn word_inf() -> Seq<char> {
    seq!['i', 'n', 'f']
}

pub open spec fn word_infinity() -> Seq<char> {
    seq!['i', 'n', 'f', 'i', 'n', 'i', 't', 'y']
}

pub open spec fn word_nan() -> Seq<char> {
    seq!['n', 'a', 'n']
}

/// `s` without its sign, if it starts with one.
pub open spec fn unsigned_part(s: Seq<char>) -> Seq<char> {
    if s.len() > 0 && is_sign(s[0]) {
        s.subrange(1, s.len() as int)
    } else {
        s
    }
}

/// `Float` of the grammar: the texts that stand for a number.
pub open spec fn is_float_text(s: Seq<char>) -> bool {
    let body = unsigned_part(s);
    ||| is_word(body, word_inf())
    ||| is_word(body, word_infinity())
    ||| is_word(body, word_nan())
    ||| is_number(body)
}

/// Where the digits that start at `from` end.
pub open spec fn digits_end(s: Seq<char>, from: int) -> int
    decreases s.len() - from,
{
    if 0 <= from < s.len() && is_digit(s[from]) {
        digits_end(s, from + 1)
    } else {
        from
    }
}

/// Where the mantissa that starts a text ends, read greedily.
pub open spec fn mantissa_end(s: Seq<char>) -> int {
    let a = digits_end(s, 0);
    if a < s.len() && s[a] == '.' {
        digits_end(s, a + 1)
    } else {
        a
    }
}

/// How many digits that mantissa has.
pub open spec fn mantissa_digits(s: Seq<char>) -> int {
    let a = digits_end(s, 0);
    if a < s.len() && s[a] == '.' {
        mantissa_end(s) - 1
    } else {
        a
    }
}

proof fn lemma_digits_end(s: Seq<char>, from: int)
    requires
        0 <= from <= s.len(),
    ensures
        from <= digits_end(s, from) <= s.len(),
        forall|i: int| from <= i < digits_end(s, from) ==> is_digit(#[trigger] s[i]),
        digits_end(s, from) < s.len() ==> !is_digit(s[digits_end(s, from)]),
    decreases s.len() - from,
{
    if from < s.len() && is_digit(s[from]) {
        lemma_digits_end(s, from + 1);
    }
}

proof fn lemma_digits_end_is(s: Seq<char>, from: int, k: int)
    requires
        0 <= from <= k <= s.len(),
        forall|i: int| from <= i < k ==> is_digit(#[trigger] s[i]),
        k < s.len() ==> !is_digit(s[k]),
    ensures
        digits_end(s, from) == k,
    decreases k - from,
{
    if from < k {
        assert(is_digit(s[from]));
        lemma_digits_end_is(s, from + 1, k);
    }
}

/// The greedy reading gives a mantissa, if it holds a digit.
proof fn lemma_greedy_mantissa(s: Seq<char>)
    requires
        mantissa_digits(s) >= 1,
    ensures
        0 <= mantissa_end(s) <= s.len(),
        is_mantissa(s.subrange(0, mantissa_end(s))),
        mantissa_end(s) < s.len() ==> !is_digit(s[mantissa_end(s)]),
{
    lemma_digits_end(s, 0);
    let a = digits_end(s, 0);
    let m = mantissa_end(s);
    let head = s.subrange(0, m);
    if a < s.len() && s[a] == '.' {
        lemma_digits_end(s, a + 1);
        assert forall|i: int| 0 <= i < head.subrange(0, a).len() implies is_digit(
            #[trigger] head.subrange(0, a)[i],
        ) by {
            assert(head.subrange(0, a)[i] == s[i]);
        }
        assert forall|i: int| 0 <= i < head.subrange(a + 1, m).len() implies is_digit(
            #[trigger] head.subrange(a + 1, m)[i],
        ) by {
            assert(head.subrange(a + 1, m)[i] == s[a + 1 + i]);
        }
        assert(is_mantissa_with_point(head, a));
    } else {
        assert forall|i: int| 0 <= i < head.len() implies is_digit(#[trigger] head[i]) by {
            assert(head[i] == s[i]);
        }
    }
}

/// A mantissa that is followed by neither a digit nor a point is the one
/// that the greedy reading finds.
proof fn lemma_mantissa_is_greedy(s: Seq<char>, m: int)
    requires
        0 <= m <= s.len(),
        is_mantissa(s.subrange(0, m)),
        m < s.len() ==> !is_digit(s[m]) && s[m] != '.',
    ensures
        mantissa_end(s) == m,
        mantissa_digits(s) >= 1,
{
    let head = s.subrange(0, m);
    if head.len() >= 1 && all_digits(head) {
        assert forall|i: int| 0 <= i < m implies is_digit(#[trigger] s[i]) by {
            assert(head[i] == s[i]);
        }
        lemma_digits_end_is(s, 0, m);
    } else {
        let d = choose|d: int| is_mantissa_with_point(head, d);
        assert(head[d] == s[d]);
        assert forall|i: int| 0 <= i < d implies is_digit(#[trigger] s[i]) by {
            assert(head.subrange(0, d)[i] == s[i]);
        }
        lemma_digits_end_is(s, 0, d);
        assert forall|i: int| d + 1 <= i < m implies is_digit(#[trigger] s[i]) by {
            assert(head.subrange(d + 1, m)[i - d - 1] == s[i]);
        }
        lemma_digits_end_is(s, d + 1, m);
    }
}

/// A number splits where the greedy reading of its mantissa ends.
proof fn lemma_number_split_is_greedy(s: Seq<char>, m: int)
    requires
        is_number_split(s, m),
    ensures
        mantissa_end(s) == m,
        mantissa_digits(s) >= 1,
{
    if m < s.len() {
        let tail = s.subrange(m, s.len() as int);
        assert(tail[0] == s[m]);
    }
    lemma_mantissa_is_greedy(s, m);
}

fn is_digit_char(c: char) -> (r: bool)
    ensures
        r == is_digit(c),
{
    '0' <= c && c <= '9'
}

fn is_sign_char(c: char) -> (r: bool)
    ensures
        r == is_sign(c),
{
    c == '+' || c == '-'
}

fn skip_digits(s: &Vec<char>, from: usize) -> (end: usize)
    requires
        from <= s.len(),
    ensures
        end == digits_end(s@, from as int),
        from <= end <= s.len(),
{
    let mut i = from;
    while i < s.len() && is_digit_char(s[i])
        invariant
            from <= i <= s.len(),
            digits_end(s@, from as int) == digits_end(s@, i as int),
        decreases s.len() - i,
    {
        i += 1;
    }
    i
}

/// Whether the characters after `from` are an exponent.
fn is_exponent_from(s: &Vec<char>, from: usize) -> (r: bool)
    requires
        from < s.len(),
    ensures
        r == is_exponent(s@.subrange(from as int, s.len() as int)),
{
    let n = s.len();
    let ghost tail = s@.subrange(from as int, n as int);
    assert(tail[0] == s@[from as int]);
    if s[from] != 'e' && s[from] != 'E' {
        return false;
    }
    if n - from < 2 {
        return false;
    }
    assert(tail[1] == s@[from + 1]);
    let first = if is_sign_char(s[from + 1]) {
        from + 2
    } else {
        from + 1
    };
    if first == n {
        return false;
    }
    let end = skip_digits(s, first);
    let ghost digits = tail.subrange(first - from, tail.len() as int);
    proof {
        lemma_digits_end(s@, first as int);
        if end == n {
            assert forall|i: int| 0 <= i < digits.len() implies is_digit(#[trigger] digits[i]) by {
                assert(digits[i] == s@[first + i]);
            }
        } else {
            assert(digits[end - first] == s@[end as int]);
        }
    }
    end == n
}

/// Whether `s` is a `Number` of the grammar.
pub fn is_number_chars(s: &Vec<char>) -> (r: bool)
    ensures
        r == is_number(s@),
{
    let n = s.len();
    let a = skip_digits(s, 0);
    let mut m = a;
    let mut digits = a;
    if a < n && s[a] == '.' {
        m = skip_digits(s, a + 1);
        digits = m - 1;
    }
    assert(m == mantissa_end(s@) && digits == mantissa_digits(s@));
    if digits == 0 {
        assert forall|k: int| !is_number_split(s@, k) by {
            if is_number_split(s@, k) {
                lemma_number_split_is_greedy(s@, k);
            }
        }
        return false;
    }
    proof {
        lemma_greedy_mantissa(s@);
    }
    if m == n {
        assert(is_number_split(s@, m as int));
        return true;
    }
    let r = is_exponent_from(s, m);
    proof {
        if r {
            assert(is_number_split(s@, m as int));
        } else {
            assert forall|k: int| !is_number_split(s@, k) by {
                if is_number_split(s@, k) {
                    lemma_number_split_is_greedy(s@, k);
                }
            }
        }
    }
    r
}

fn is_letter_char(c: char, letter: char) -> (r: bool)
    ensures
        r == is_letter(c, letter),
{
    c == letter || ('A' <= c && c <= 'Z' && c as u32 + 32 == letter as u32)
}

fn is_word_chars(s: &Vec<char>, word: &Vec<char>) -> (r: bool)
    ensures
        r == is_word(s@, word@),
{
    if s.len() != word.len() {
        return false;
    }
    let mut i: usize = 0;
    while i < s.len()
        invariant
            i <= s.len(),
            s.len() == word.len(),
            forall|k: int| 0 <= k < i ==> is_letter(#[trigger] s@[k], word@[k]),
        decreases s.len() - i,
    {
        if !is_letter_char(s[i], word[i]) {
            return false;
        }
        i += 1;
    }
    true
}

/// Whether `s` stands for a number.
pub fn is_float_chars(s: &Vec<char>) -> (r: bool)
    ensures
        r == is_float_text(s@),
{
    let start: usize = if s.len() > 0 && is_sign_char(s[0]) {
        1
    } else {
        0
    };
    let body = copy_range(s, start, s.len());
    assert(body@ == unsigned_part(s@));
    let inf = vec!['i', 'n', 'f'];
    let infinity = vec!['i', 'n', 'f', 'i', 'n', 'i', 't', 'y'];
    let nan = vec!['n', 'a', 'n'];
    assert(inf@ == word_inf() && infinity@ == word_infinity() && nan@ == word_nan());
    is_word_chars(&body, &inf) || is_word_chars(&body, &infinity) || is_word_chars(&body, &nan)
        || is_number_chars(&body)
}

/// Where the field that starts at `from` ends: at the next `|`, or at the
/// end of the text.
pub open spec fn field_end(s: Seq<char>, from: int) -> int
    decreases s.len() - from,
{
    if 0 <= from < s.len() && s[from] != '|' {
        field_end(s, from + 1)
    } else {
        from
    }
}

/// The location that a text gives: its first field and its second, where
/// there is a second and both are numbers. Fields after the second are not
/// read.
pub open spec fn location_of(s: Seq<char>) -> Option<PositionView> {
    let a = field_end(s, 0);
    if a >= s.len() {
        None
    } else {
        let pos = PositionView { x: s.subrange(0, a), y: s.subrange(a + 1, field_end(s, a + 1)) };
        if pos.well_formed() {
            Some(pos)
        } else {
            None
        }
    }
}

/// A field ends at the first `|` that follows its start.
pub proof fn lemma_field_end(s: Seq<char>, from: int)
    requires
        0 <= from <= s.len(),
    ensures
        from <= field_end(s, from) <= s.len(),
        forall|i: int| from <= i < field_end(s, from) ==> #[trigger] s[i] != '|',
        field_end(s, from) < s.len() ==> s[field_end(s, from)] == '|',
    decreases s.len() - from,
{
    if from < s.len() && s[from] != '|' {
        lemma_field_end(s, from + 1);
    }
}

fn skip_field(s: &Vec<char>, from: usize) -> (end: usize)
    requires
        from <= s.len(),
    ensures
        end == field_end(s@, from as int),
        from <= end <= s.len(),
{
    let mut i = from;
    while i < s.len() && s[i] != '|'
        invariant
            from <= i <= s.len(),
            field_end(s@, from as int) == field_end(s@, i as int),
        decreases s.len() - i,
    {
        i += 1;
    }
    i
}

/// Reads a location. `None` where the text has no `|` or one of its first
/// two fields is no number.
pub fn parse_vector(v: &str) -> (r: Option<Position>)
    ensures
        match r {
            Some(pos) => location_of(v@) == Some(pos@),
            None => location_of(v@) is None,
        },
{
    let chars = chars_of(v);
    let a = skip_field(&chars, 0);
    if a >= chars.len() {
        return None;
    }
    let b = skip_field(&chars, a + 1);
    let x = copy_range(&chars, 0, a);
    let y = copy_range(&chars, a + 1, b);
    if is_float_chars(&x) && is_float_chars(&y) {
        Some(Position {
            x: v.substring_char(0, a).to_owned(),
            y: v.substring_char(a + 1, b).to_owned(),
        })
    } else {
        None
    }
}

} // verus!

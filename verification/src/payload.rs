//! The payload of an entity: a JSON object, of which the entry under `f0`
//! carries the name to show.

use vstd::prelude::*;
use crate::location::is_digit;
use crate::text::{chars_of, text_of};

verus! {

/// One entry of a JSON object: its key, and its value where that is a
/// string.
#[derive(Debug, Clone, PartialEq, Eq)]
pub struct JsonEntry {
    pub key: String,
    pub text: Option<String>,
}

pub struct JsonEntryView {
    pub key: Seq<char>,
    pub text: Option<Seq<char>>,
}

impl View for JsonEntry {
    type V = JsonEntryView;

    open spec fn view(&self) -> JsonEntryView {
        JsonEntryView { key: self.key@, text: text_of(self.text) }
    }
}

/// The views of a list of entries.
pub open spec fn entries_view(entries: Seq<JsonEntry>) -> Seq<JsonEntryView> {
    entries.map_values(|e: JsonEntry| e@)
}

/// The key under which a payload holds the name.
pub open spec fn name_key() -> Seq<char> {
    "f0"@
}

/// The first entry from `from` on that has the key `key`.
pub open spec fn first_with_key(entries: Seq<JsonEntryView>, key: Seq<char>, from: int) -> Option<
    int,
>
    decreases entries.len() - from,
{
    if 0 <= from < entries.len() {
        if entries[from].key == key {
            Some(from)
        } else {
            first_with_key(entries, key, from + 1)
        }
    } else {
        None
    }
}

/// The name that a payload's entries give: the value of the first entry
/// under `f0`, where that value is a string.
pub open spec fn name_in(entries: Seq<JsonEntryView>) -> Option<Seq<char>> {
    match first_with_key(entries, name_key(), 0) {
        Some(i) => entries[i].text,
        None => None,
    }
}

/// What `first_with_key` finds: an entry with the key, before which, from
/// `from` on, none has it; or nothing, where none has it.
pub proof fn lemma_first_with_key(entries: Seq<JsonEntryView>, key: Seq<char>, from: int)
    requires
        0 <= from <= entries.len(),
    ensures
        match first_with_key(entries, key, from) {
            Some(i) => {
                &&& from <= i < entries.len()
                &&& entries[i].key == key
                &&& forall|k: int| from <= k < i ==> (#[trigger] entries[k]).key != key
            },
            None => forall|k: int| from <= k < entries.len() ==> (#[trigger] entries[k]).key != key,
        },
    decreases entries.len() - from,
{
    if from < entries.len() && entries[from].key != key {
        lemma_first_with_key(entries, key, from + 1);
    }
}

/// Picks the name out of a payload's entries.
pub fn decode_name(entries: &Vec<JsonEntry>) -> (name: Option<String>)
    ensures
        text_of(name) == name_in(entries_view(entries@)),
{
    let key = "f0".to_owned();
    let mut i: usize = 0;
    while i < entries.len()
        invariant
            i <= entries.len(),
            key@ == name_key(),
            first_with_key(entries_view(entries@), name_key(), 0) == first_with_key(
                entries_view(entries@),
                name_key(),
                i as int,
            ),
        decreases entries.len() - i,
    {
        assert(entries_view(entries@)[i as int] == entries@[i as int]@);
        if entries[i].key == key {
            return entries[i].text.clone();
        }
        i += 1;
    }
    None
}

/// The most digits that the fraction of a number in a payload may have.
/// The decoder counts them in sixteen bits, downwards from zero.
pub const MAX_FRACTION_DIGITS: usize = 32768;

/// Where a place of a text stands with regard to its string literals.
#[derive(Debug, Clone, Copy, PartialEq, Eq, Structural)]
pub enum Quoting {
    /// In no string literal.
    Outside,
    /// In a string literal.
    Inside,
    /// In a string literal, right after a `\`.
    Escaped,
}

/// Where the place after the character `c` stands, given where `c` stands:
/// a `"` opens a literal and closes it, unless a `\` stands before it.
pub open spec fn quoting_after(before: Quoting, c: char) -> Quoting {
    match before {
        Quoting::Outside => if c == '"' {
            Quoting::Inside
        } else {
            Quoting::Outside
        },
        Quoting::Inside => if c == '\\' {
            Quoting::Escaped
        } else if c == '"' {
            Quoting::Outside
        } else {
            Quoting::Inside
        },
        Quoting::Escaped => Quoting::Inside,
    }
}

/// Where place `i` of `s` stands.
pub open spec fn quoting_at(s: Seq<char>, i: int) -> Quoting
    decreases i,
{
    if i <= 0 {
        Quoting::Outside
    } else {
        quoting_after(quoting_at(s, i - 1), s[i - 1])
    }
}

/// At place `p` of `s` stands a `.` that is in no string literal.
pub open spec fn is_point(s: Seq<char>, p: int) -> bool {
    0 <= p < s.len() && s[p] == '.' && quoting_at(s, p) == Quoting::Outside
}

/// After such a point at `p` follow `len` decimal digits.
pub open spec fn is_fraction(s: Seq<char>, p: int, len: int) -> bool {
    &&& is_point(s, p)
    &&& p + len < s.len()
    &&& forall|k: int| p < k <= p + len ==> is_digit(#[trigger] s[k])
}

/// `s` holds, outside its string literals, a point with `len` decimal
/// digits after it.
pub open spec fn has_fraction(s: Seq<char>, len: int) -> bool {
    exists|p: int| is_fraction(s, p, len)
}

/// The texts that are handed to the decoder: those in which no point
/// outside a string literal has more than `MAX_FRACTION_DIGITS` digits
/// after it.
pub open spec fn decodable(text: Seq<char>) -> bool {
    !has_fraction(text, MAX_FRACTION_DIGITS + 1)
}

fn quoting_step(before: Quoting, c: char) -> (after: Quoting)
    ensures
        after == quoting_after(before, c),
{
    match before {
        Quoting::Outside => if c == '"' {
            Quoting::Inside
        } else {
            Quoting::Outside
        },
        Quoting::Inside => if c == '\\' {
            Quoting::Escaped
        } else if c == '"' {
            Quoting::Outside
        } else {
            Quoting::Inside
        },
        Quoting::Escaped => Quoting::Inside,
    }
}

/// Whether `text` may be handed to the decoder.
pub fn is_decodable(text: &str) -> (r: bool)
    ensures
        r == decodable(text@),
{
    let s = chars_of(text);
    let limit = MAX_FRACTION_DIGITS;
    let ghost window: int = MAX_FRACTION_DIGITS + 1;
    let mut quoting = Quoting::Outside;
    let mut in_fraction = false;
    let mut run: usize = 0;
    let mut i: usize = 0;
    while i < s.len()
        invariant
            i <= s.len(),
            limit == MAX_FRACTION_DIGITS,
            window == limit + 1,
            s@ == text@,
            quoting == quoting_at(s@, i as int),
            in_fraction ==> run < i && run <= limit && is_fraction(s@, i - run - 1, run as int),
            !in_fraction ==> forall|p: int|
                #![trigger is_point(s@, p)]
                is_point(s@, p) && p < i ==> exists|k: int| p < k < i && !is_digit(#[trigger] s@[k]),
            forall|p: int| p + window < i ==> !#[trigger] is_fraction(s@, p, window),
        decreases s.len() - i,
    {
        let c = s[i];
        let ghost was_in_fraction = in_fraction;
        let ghost old_run = run;
        let outside = match quoting {
            Quoting::Outside => true,
            _ => false,
        };
        if outside && c == '.' {
            in_fraction = true;
            run = 0;
        } else if in_fraction && '0' <= c && c <= '9' {
            if run == limit {
                assert(is_fraction(s@, i - run - 1, window));
                assert(has_fraction(s@, window));
                return false;
            }
            run += 1;
        } else {
            in_fraction = false;
            assert forall|p: int|
                #![trigger is_point(s@, p)]
                is_point(s@, p) && p < i + 1 implies exists|k: int|
                p < k < i + 1 && !is_digit(#[trigger] s@[k]) by {
                if !is_digit(c) {
                    assert(!is_digit(s@[i as int]));
                } else {
                    let k = choose|k: int| p < k < i && !is_digit(#[trigger] s@[k]);
                    assert(!is_digit(s@[k]));
                }
            }
        }
        quoting = quoting_step(quoting, c);
        i += 1;
        assert forall|p: int| p + window < i implies !#[trigger] is_fraction(s@, p, window) by {
            if p + window + 1 == i && is_fraction(s@, p, window) {
                assert(is_digit(s@[i - 1]));
                if was_in_fraction {
                    let q = i - 1 - old_run - 1;
                    assert(is_point(s@, q));
                    if p < q {
                        assert(is_digit(s@[q]));
                    } else if q < p {
                        assert(is_digit(s@[p]));
                    }
                } else {
                    assert(is_point(s@, p));
                    let k = choose|k: int| p < k < i - 1 && !is_digit(#[trigger] s@[k]);
                    assert(is_digit(s@[k]));
                }
            }
        }
    }
    true
}

/// The entries that the json crate makes of a text that it reads as an
/// object, in the order in which their keys first occur; no entries where
/// it reads another value; `None` where it rejects the text.
pub uninterp spec fn json_entries(text: Seq<char>) -> Option<Seq<JsonEntryView>>;

/// `json::Error`, which is not read: a payload that is rejected gives no
/// name, whatever the reason.
#[verifier::external_type_specification]
#[verifier::external_body]
pub struct ExJsonError(json::Error);

/// Calls `json::parse` and copies out of each item of `JsonValue::entries`
/// its key and what `JsonValue::as_str` gives for its value.
///
/// Trusted: the entries are a function of the text alone.
///
/// The parser counts the digits of a fraction downwards from zero in
/// sixteen bits, one for each digit at most, and checks nothing as it
/// does. It reads a point as the start of a fraction only outside a string
/// literal, and it follows `"` and `\` as `quoting_at` does. So no count
/// leaves its range on a text that is `decodable`.
#[verifier::external_body]
fn parse_entries(text: &str) -> (r: Result<Vec<JsonEntry>, json::Error>)
    requires
        decodable(text@),
    ensures
        match r {
            Ok(entries) => json_entries(text@) == Some(entries_view(entries@)),
            Err(_) => json_entries(text@) is None,
        },
{
    let value = json::parse(text)?;
    Ok(value.entries().map(|(key, v)| JsonEntry {
        key: key.to_string(),
        text: v.as_str().map(str::to_string),
    }).collect())
}

/// The name that a payload gives: that of its entries, where the decoder
/// accepts the text. A text that may not be handed to the decoder, for a
/// fraction of more than `MAX_FRACTION_DIGITS` digits, gives none.
pub open spec fn payload_name(text: Seq<char>) -> Option<Seq<char>> {
    if decodable(text) {
        match json_entries(text) {
            Some(entries) => name_in(entries),
            None => None,
        }
    } else {
        None
    }
}

/// Decodes a payload and picks the name out of it.
pub fn decode_payload(text: &str) -> (name: Option<String>)
    ensures
        text_of(name) == payload_name(text@),
{
    if !is_decodable(text) {
        return None;
    }
    match parse_entries(text) {
        Ok(entries) => decode_name(&entries),
        Err(_) => None,
    }
}

} // verus!

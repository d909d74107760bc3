//! A scanner for flat JSON objects that copies nothing: keys and values
//! borrow from the scanned text.
//!
//! The scanner reads one object of the form `{"key": value, ...}`. A value
//! is a string, a number, `true`, `false` or `null`. It is a small scanner,
//! not a full JSON reader:
//!
//! - white space before the opening brace is skipped, and nothing after the
//!   closing brace is read;
//! - a string ends at the next `"`: there are no escapes;
//! - whatever stands between a member's start and the `"` that opens its key
//!   is skipped;
//! - a comma may be followed by the closing brace;
//! - a number is kept as its text: an optional `-`, then decimal digits with
//!   at most one `.` among them, and at least one digit;
//! - nested objects and arrays are no values.

use crate::text::{
    after_leading, drop_first_char, first_char, is_white_space, is_white_space_char, leading,
    lemma_find, lemma_leading_is, lemma_prefix_len, prefix_len, same_text, span, split_first,
    split_first_char, split_once,
};
use vstd::prelude::*;
use vstd::string::*;

verus! {

/// A value of a scanned object.
#[derive(Debug)]
pub enum JsonValue<'a> {
    /// The text between the quotes.
    String(&'a str),
    /// The numeral as it stands in the text.
    Number(&'a str),
    Bool(bool),
    Null,
}

/// A scanned object: its members in the order of the text.
#[derive(Debug)]
pub struct JsonObject<'a> {
    pub pairs: Vec<(&'a str, JsonValue<'a>)>,
}

/// What a [`JsonValue`] says, as plain text.
pub enum ValueText {
    String(Seq<char>),
    Number(Seq<char>),
    Bool(bool),
    Null,
}

impl<'a> View for JsonValue<'a> {
    type V = ValueText;

    open spec fn view(&self) -> ValueText {
        match *self {
            JsonValue::String(text) => ValueText::String(text@),
            JsonValue::Number(text) => ValueText::Number(text@),
            JsonValue::Bool(b) => ValueText::Bool(b),
            JsonValue::Null => ValueText::Null,
        }
    }
}

/// The members `pairs` as plain text, in order.
pub open spec fn member_texts(pairs: Seq<(&str, JsonValue<'_>)>) -> Seq<(Seq<char>, ValueText)> {
    Seq::new(pairs.len(), |i: int| (pairs[i].0@, pairs[i].1@))
}

impl<'a> View for JsonObject<'a> {
    type V = Seq<(Seq<char>, ValueText)>;

    open spec fn view(&self) -> Seq<(Seq<char>, ValueText)> {
        member_texts(self.pairs@)
    }
}

/// Whether Unicode gives `c` the property Alphabetic.
pub uninterp spec fn alphabetic(c: char) -> bool;

/// Whether `c` is in one of the Unicode categories of numbers: decimal
/// digits, letter numbers and other numbers.
pub uninterp spec fn numeric(c: char) -> bool;

/// Calls [`char::is_alphabetic`], which looks the character up in the
/// Unicode tables of the standard library. The contract only gives that
/// answer its name.
#[verifier::external_body]
fn is_alphabetic(c: char) -> (answer: bool)
    ensures
        answer == alphabetic(c),
{
    c.is_alphabetic()
}

/// Calls [`char::is_numeric`], which looks the character up in the Unicode
/// tables of the standard library. The contract only gives that answer its
/// name.
#[verifier::external_body]
fn is_numeric(c: char) -> (answer: bool)
    ensures
        answer == numeric(c),
{
    c.is_numeric()
}

/// Whether `c` is one of the four blanks that may stand between tokens:
/// space, tab, line feed and carriage return.
pub open spec fn is_blank(c: char) -> bool {
    c == ' ' || c == '\t' || c == '\n' || c == '\r'
}

/// Whether `c` may stand in a number token: a numeric character, a point or
/// a minus sign.
pub open spec fn is_number_char(c: char) -> bool {
    numeric(c) || c == '.' || c == '-'
}

/// Whether `c` is one of the decimal digits `0` to `9`.
pub open spec fn is_digit(c: char) -> bool {
    0x30 <= (c as u32) <= 0x39
}

/// The blanks, as a predicate.
pub open spec fn blanks() -> spec_fn(char) -> bool {
    |c: char| is_blank(c)
}

/// The characters other than `target`, as a predicate.
pub open spec fn other_than(target: char) -> spec_fn(char) -> bool {
    |c: char| c != target
}

/// The alphabetic characters, as a predicate.
pub open spec fn word_chars() -> spec_fn(char) -> bool {
    |c: char| alphabetic(c)
}

/// The characters of number tokens, as a predicate.
pub open spec fn number_chars() -> spec_fn(char) -> bool {
    |c: char| is_number_char(c)
}

/// White space, as a predicate.
pub open spec fn white_space() -> spec_fn(char) -> bool {
    |c: char| is_white_space(c)
}

/// `s` without the minus sign at its start, if it has one there.
pub open spec fn without_sign(s: Seq<char>) -> Seq<char> {
    if s.len() > 0 && s[0] == '-' {
        s.drop_first()
    } else {
        s
    }
}

/// Whether `digits` is a decimal numeral without a sign: digits with at most
/// one point among them, and at least one digit.
pub open spec fn is_unsigned_numeral(digits: Seq<char>) -> bool {
    &&& forall|i: int| 0 <= i < digits.len() ==> is_digit(#[trigger] digits[i]) || digits[i] == '.'
    &&& forall|i: int, j: int|
        0 <= i < j < digits.len() ==> !(#[trigger] digits[i] == '.' && #[trigger] digits[j] == '.')
    &&& exists|i: int| 0 <= i < digits.len() && is_digit(#[trigger] digits[i])
}

/// Whether `s` is a decimal numeral: an optional minus sign, then digits
/// with at most one point among them, and at least one digit.
pub open spec fn is_numeral(s: Seq<char>) -> bool {
    is_unsigned_numeral(without_sign(s))
}

/// The value that the word `word` stands for: `true`, `false` and `null`
/// are values, no other word is.
pub open spec fn value_of_word(word: Seq<char>) -> Option<ValueText> {
    if word == "true"@ {
        Some(ValueText::Bool(true))
    } else if word == "false"@ {
        Some(ValueText::Bool(false))
    } else if word == "null"@ {
        Some(ValueText::Null)
    } else {
        None
    }
}

/// The value at the start of `s` and the text after it, if a value starts
/// there. A quote starts a string, which runs to the next quote. The letters
/// `t`, `f` and `n` start a word, which takes in every alphabetic character
/// that follows. A numeric character or a minus sign starts a number, which
/// takes in every numeric character, point and minus sign that follows, and
/// must be a decimal numeral.
pub open spec fn value_at(s: Seq<char>) -> Option<(ValueText, Seq<char>)> {
    if s.len() == 0 {
        None
    } else if s[0] == '"' {
        match split_once(s.drop_first(), '"') {
            Some((text, rest)) => Some((ValueText::String(text), rest)),
            None => None,
        }
    } else if s[0] == 't' || s[0] == 'f' || s[0] == 'n' {
        match value_of_word(leading(s, word_chars())) {
            Some(value) => Some((value, after_leading(s, word_chars()))),
            None => None,
        }
    } else if numeric(s[0]) || s[0] == '-' {
        let numeral = leading(s, number_chars());
        if is_numeral(numeral) {
            Some((ValueText::Number(numeral), after_leading(s, number_chars())))
        } else {
            None
        }
    } else {
        None
    }
}

/// The member at the start of `s`: its key, its value, and the text after
/// the value and the blanks that follow it. Whatever stands before the
/// opening quote of the key is skipped.
pub open spec fn member_at(s: Seq<char>) -> Option<(Seq<char>, ValueText, Seq<char>)> {
    match split_once(s, '"') {
        None => None,
        Some((_, after_quote)) => match split_once(after_quote, '"') {
            None => None,
            Some((key, after_key)) => {
                let at_colon = after_leading(after_key, blanks());
                if at_colon.len() > 0 && at_colon[0] == ':' {
                    match value_at(after_leading(at_colon.drop_first(), blanks())) {
                        Some((value, after_value)) => Some(
                            (key, value, after_leading(after_value, blanks())),
                        ),
                        None => None,
                    }
                } else {
                    None
                }
            },
        },
    }
}

/// The members of an object whose text, after the opening brace or after a
/// comma, is `s`.
pub open spec fn members(s: Seq<char>) -> Option<Seq<(Seq<char>, ValueText)>>
    decreases s.len(),
{
    let start = after_leading(s, blanks());
    if start.len() > 0 && start[0] == '}' {
        Some(Seq::empty())
    } else {
        match member_at(start) {
            None => None,
            Some((key, value, rest)) => {
                if rest.len() > 0 && rest[0] == '}' {
                    Some(seq![(key, value)])
                } else if rest.len() > 0 && rest[0] == ',' {
                    proof {
                        lemma_member_shrinks(s);
                    }
                    match members(rest.drop_first()) {
                        Some(more) => Some(seq![(key, value)] + more),
                        None => None,
                    }
                } else {
                    None
                }
            },
        }
    }
}

/// The members of the object that `input` holds, if it holds one.
pub open spec fn object_in(input: Seq<char>) -> Option<Seq<(Seq<char>, ValueText)>> {
    let s = after_leading(input, white_space());
    if s.len() > 0 && s[0] == '{' {
        members(s.drop_first())
    } else {
        None
    }
}

/// The text after a value is shorter than the text the value starts in.
pub proof fn lemma_value_shrinks(s: Seq<char>)
    ensures
        value_at(s) matches Some((_, rest)) ==> rest.len() < s.len(),
{
    if s.len() > 0 {
        lemma_find(s.drop_first(), '"');
        lemma_prefix_len(s, word_chars());
        lemma_prefix_len(s, number_chars());
        if s[0] == 't' || s[0] == 'f' || s[0] == 'n' {
            if value_at(s) is Some {
                let word = leading(s, word_chars());
                assert(word.len() > 0) by {
                    reveal_strlit("true");
                    reveal_strlit("false");
                    reveal_strlit("null");
                }
            }
        } else if numeric(s[0]) || s[0] == '-' {
            assert(is_number_char(s[0]));
            assert(prefix_len(s, number_chars()) > 0);
        }
    }
}

/// The text after a member is shorter than the text the member starts in,
/// blanks before it included.
pub proof fn lemma_member_shrinks(s: Seq<char>)
    ensures
        member_at(after_leading(s, blanks())) matches Some((_, _, rest)) ==> rest.len() < s.len(),
{
    let start = after_leading(s, blanks());
    lemma_prefix_len(s, blanks());
    lemma_find(start, '"');
    if let Some((_, after_quote)) = split_once(start, '"') {
        lemma_find(after_quote, '"');
        if let Some((key, after_key)) = split_once(after_quote, '"') {
            lemma_prefix_len(after_key, blanks());
            let at_colon = after_leading(after_key, blanks());
            if at_colon.len() > 0 {
                let before_value = after_leading(at_colon.drop_first(), blanks());
                lemma_prefix_len(at_colon.drop_first(), blanks());
                lemma_value_shrinks(before_value);
                if let Some((_, after_value)) = value_at(before_value) {
                    lemma_prefix_len(after_value, blanks());
                }
            }
        }
    }
}

/// Whether `c` is a blank.
fn is_blank_char(c: char) -> (answer: bool)
    ensures
        answer == is_blank(c),
{
    c == ' ' || c == '\t' || c == '\n' || c == '\r'
}

/// Whether `c` may stand in a number token.
fn is_number_token_char(c: char) -> (answer: bool)
    ensures
        answer == is_number_char(c),
{
    is_numeric(c) || c == '.' || c == '-'
}

/// The text after the blanks at the start of `s`.
pub fn skip_whitespace<'a>(s: &'a str) -> (rest: &'a str)
    ensures
        rest@ == after_leading(s@, blanks()),
{
    let (head, rest) = span(s, is_blank_char);
    proof {
        lemma_leading_is(s@, blanks(), head@, rest@);
    }
    rest
}

/// The text from the first `target` in `s` on, or the empty end of `s` where
/// it holds no `target`.
pub fn skip_until<'a>(s: &'a str, target: char) -> (rest: &'a str)
    ensures
        rest@ == after_leading(s@, other_than(target)),
{
    let differs = |c: char| -> (answer: bool)
        ensures
            answer == (c != target),
        { c != target };
    let (head, rest) = span(s, differs);
    proof {
        lemma_leading_is(s@, other_than(target), head@, rest@);
    }
    rest
}

/// Cuts `s` after its longest prefix of characters on which `predicate`
/// answers `true`, and gives that prefix and the rest: `predicate` accepts
/// every character of the prefix, and turns down the first character of the
/// rest, if there is one.
pub fn take_while<'a, F: Fn(char) -> bool>(s: &'a str, predicate: F) -> (parts: (&'a str, &'a str))
    requires
        forall|c: char| call_requires(predicate, (c,)),
    ensures
        s@ == parts.0@ + parts.1@,
        forall|i: int|
            0 <= i < parts.0@.len() ==> call_ensures(predicate, (#[trigger] parts.0@[i],), true),
        parts.1@.len() > 0 ==> call_ensures(predicate, (parts.1@[0],), false),
{
    span(s, predicate)
}

/// The members `done` followed by the members `more`, where there are any.
pub open spec fn followed_by(
    done: Seq<(Seq<char>, ValueText)>,
    more: Option<Seq<(Seq<char>, ValueText)>>,
) -> Option<Seq<(Seq<char>, ValueText)>> {
    match more {
        Some(members) => Some(done + members),
        None => None,
    }
}

/// Whether `c` is a decimal digit.
fn is_digit_char(c: char) -> (answer: bool)
    ensures
        answer == is_digit(c),
{
    let v = c as u32;
    0x30 <= v && v <= 0x39
}

/// Whether `text` is a decimal numeral: an optional minus sign, then digits
/// with at most one point among them, and at least one digit.
pub fn is_numeral_text(text: &str) -> (answer: bool)
    ensures
        answer == is_numeral(text@),
{
    let digits = match split_first_char(text) {
        Some((c, rest)) => if c == '-' {
            rest
        } else {
            text
        },
        None => text,
    };
    let mut rest = digits;
    let mut seen_digit = false;
    let mut seen_point = false;
    let ghost mut k: int = 0;
    let ghost mut digit_at: int = 0;
    let ghost mut point_at: int = 0;
    proof {
        assert(digits@.skip(0) =~= digits@);
    }
    while !rest.is_empty()
        invariant
            0 <= k <= digits@.len(),
            rest@ == digits@.skip(k),
            forall|i: int| 0 <= i < k ==> is_digit(#[trigger] digits@[i]) || digits@[i] == '.',
            forall|i: int, j: int|
                0 <= i < j < k ==> !(#[trigger] digits@[i] == '.' && #[trigger] digits@[j] == '.'),
            seen_point ==> 0 <= point_at < k && digits@[point_at] == '.',
            !seen_point ==> forall|i: int| 0 <= i < k ==> #[trigger] digits@[i] != '.',
            seen_digit ==> 0 <= digit_at < k && is_digit(digits@[digit_at]),
            !seen_digit ==> forall|i: int| 0 <= i < k ==> !is_digit(#[trigger] digits@[i]),
            digits@ == without_sign(text@),
        decreases rest@.len(),
    {
        let (c, tail) = match split_first_char(rest) {
            Some(parts) => parts,
            None => {
                return false;
            },
        };
        assert(c == digits@[k]);
        if is_digit_char(c) {
            seen_digit = true;
            proof {
                digit_at = k;
            }
        } else if c == '.' && !seen_point {
            seen_point = true;
            proof {
                point_at = k;
            }
        } else {
            proof {
                if c == '.' {
                    assert(digits@[point_at] == '.' && digits@[k] == '.');
                } else {
                    assert(!(is_digit(digits@[k]) || digits@[k] == '.'));
                }
            }
            return false;
        }
        proof {
            assert(tail@ =~= digits@.skip(k + 1));
            k = k + 1;
        }
        rest = tail;
    }
    proof {
        assert(k == digits@.len());
        if seen_digit {
            assert(is_digit(digits@[digit_at]));
        }
    }
    seen_digit
}

/// The value that `word` stands for: `true`, `false` and `null` are values,
/// no other word is.
pub fn word_value<'a>(word: &str) -> (value: Option<JsonValue<'a>>)
    ensures
        match value {
            Some(v) => value_of_word(word@) == Some(v@),
            None => value_of_word(word@) is None,
        },
{
    if same_text(word, "true") {
        Some(JsonValue::Bool(true))
    } else if same_text(word, "false") {
        Some(JsonValue::Bool(false))
    } else if same_text(word, "null") {
        Some(JsonValue::Null)
    } else {
        None
    }
}

/// Scans the value at the start of `s`, and gives it with the text after
/// it. Gives `None` where no value starts there: at the end of the text, at a
/// string without its closing quote, at a word other than `true`, `false` and
/// `null`, at a number token that is no decimal numeral, and at any other
/// character.
pub fn parse_value<'a>(s: &'a str) -> (parsed: Option<(JsonValue<'a>, &'a str)>)
    ensures
        match parsed {
            Some((value, rest)) => value_at(s@) == Some((value@, rest@)),
            None => value_at(s@) is None,
        },
{
    let c = match first_char(s) {
        Some(c) => c,
        None => {
            return None;
        },
    };
    if c == '"' {
        match split_first(drop_first_char(s), '"') {
            Some((text, rest)) => Some((JsonValue::String(text), rest)),
            None => None,
        }
    } else if c == 't' || c == 'f' || c == 'n' {
        let (word, rest) = span(s, is_alphabetic);
        proof {
            lemma_leading_is(s@, word_chars(), word@, rest@);
        }
        match word_value(word) {
            Some(value) => Some((value, rest)),
            None => None,
        }
    } else if is_numeric(c) || c == '-' {
        let (numeral, rest) = span(s, is_number_token_char);
        proof {
            lemma_leading_is(s@, number_chars(), numeral@, rest@);
        }
        if is_numeral_text(numeral) {
            Some((JsonValue::Number(numeral), rest))
        } else {
            None
        }
    } else {
        None
    }
}

/// Scans the member at the start of `s`: a key in quotes, a colon and a
/// value, with blanks between them as they come. Gives the key, the value,
/// and the text after the value and the blanks that follow it.
pub fn parse_member<'a>(s: &'a str) -> (parsed: Option<(&'a str, JsonValue<'a>, &'a str)>)
    ensures
        match parsed {
            Some((key, value, rest)) => member_at(s@) == Some((key@, value@, rest@)),
            None => member_at(s@) is None,
        },
{
    let after_quote = match split_first(s, '"') {
        Some((_, after_quote)) => after_quote,
        None => {
            return None;
        },
    };
    let (key, after_key) = match split_first(after_quote, '"') {
        Some(parts) => parts,
        None => {
            return None;
        },
    };
    let at_colon = skip_whitespace(after_key);
    let after_colon = match split_first_char(at_colon) {
        Some((c, after_colon)) => {
            if c != ':' {
                return None;
            }
            after_colon
        },
        None => {
            return None;
        },
    };
    match parse_value(skip_whitespace(after_colon)) {
        Some((value, after_value)) => Some((key, value, skip_whitespace(after_value))),
        None => None,
    }
}

/// Scans the object that `input` holds and gives its members in the order of
/// the text. Gives `None` where `input` does not start, after white space,
/// with an object of the form that this scanner reads.
pub fn parse_json_object<'a>(input: &'a str) -> (object: Option<JsonObject<'a>>)
    ensures
        match object {
            Some(o) => object_in(input@) == Some(o@),
            None => object_in(input@) is None,
        },
{
    let (white, trimmed) = span(input, is_white_space_char);
    proof {
        lemma_leading_is(input@, white_space(), white@, trimmed@);
    }
    let after_brace = match split_first_char(trimmed) {
        Some((c, after_brace)) => {
            if c != '{' {
                return None;
            }
            after_brace
        },
        None => {
            return None;
        },
    };
    let mut pairs: Vec<(&'a str, JsonValue<'a>)> = Vec::new();
    let mut cur = after_brace;
    proof {
        assert(member_texts(pairs@) =~= Seq::empty());
        assert(followed_by(member_texts(pairs@), members(cur@)) =~= members(after_brace@)) by {
            if let Some(all) = members(cur@) {
                assert(member_texts(pairs@) + all =~= all);
            }
        }
    }
    loop
        invariant
            followed_by(member_texts(pairs@), members(cur@)) == object_in(input@),
        decreases cur@.len(),
    {
        let ghost done = member_texts(pairs@);
        let start = skip_whitespace(cur);
        let closes = match first_char(start) {
            Some(c) => c == '}',
            None => false,
        };
        if closes {
            proof {
                assert(done + Seq::empty() =~= done);
            }
            return Some(JsonObject { pairs });
        }
        let (key, value, rest) = match parse_member(start) {
            Some(member) => member,
            None => {
                return None;
            },
        };
        proof {
            lemma_member_shrinks(cur@);
        }
        pairs.push((key, value));
        proof {
            assert(member_texts(pairs@) =~= done + seq![(key@, value@)]);
        }
        match split_first_char(rest) {
            Some((c, after)) => {
                if c == '}' {
                    return Some(JsonObject { pairs });
                } else if c == ',' {
                    proof {
                        if let Some(more) = members(after@) {
                            assert(member_texts(pairs@) + more =~= done + (seq![(key@, value@)]
                                + more));
                        }
                    }
                    cur = after;
                } else {
                    return None;
                }
            },
            None => {
                return None;
            },
        }
    }
}

} // verus!

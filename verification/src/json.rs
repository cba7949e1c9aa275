//! A small JSON value type with its parser and its serializer: just enough
//! for request bodies and response payloads.
//!
//! A number is kept as the literal that spells it, so that no digit of it is
//! ever lost; turning a literal into a machine number is left to the caller.

use crate::platform;
use crate::json_laws;
use crate::text;
use vstd::prelude::*;

verus! {

/// A JSON number: a literal that spells one, as it was written.
#[derive(Debug, PartialEq)]
pub struct Number {
    literal: String,
}

impl View for Number {
    type V = Seq<char>;

    closed spec fn view(&self) -> Seq<char> {
        self.literal@
    }
}

/// A JSON value.
#[derive(Debug, PartialEq)]
pub enum Value {
    Null,
    Bool(bool),
    Number(Number),
    String(String),
    Array(Vec<Value>),
    /// The entries in the order of their insertion, which makes the
    /// serialized form deterministic.
    Object(Vec<(String, Value)>),
}

/// What a [`Value`] stands for.
#[verifier::ext_equal]
pub enum JsonView {
    Null,
    Bool(bool),
    Number(Seq<char>),
    Text(Seq<char>),
    Array(Seq<JsonView>),
    Object(Seq<(Seq<char>, JsonView)>),
}

/// What a value stands for, with everything in it.
pub open spec fn value_view(v: Value) -> JsonView
    decreases v,
{
    match v {
        Value::Null => JsonView::Null,
        Value::Bool(b) => JsonView::Bool(b),
        Value::Number(n) => JsonView::Number(n@),
        Value::String(s) => JsonView::Text(s@),
        Value::Array(items) => JsonView::Array(
            Seq::new(
                items@.len(),
                |i: int|
                    if 0 <= i < items@.len() {
                        value_view(items@[i])
                    } else {
                        JsonView::Null
                    },
            ),
        ),
        Value::Object(entries) => JsonView::Object(
            Seq::new(
                entries@.len(),
                |i: int|
                    if 0 <= i < entries@.len() {
                        (entries@[i].0@, value_view(entries@[i].1))
                    } else {
                        (seq![], JsonView::Null)
                    },
            ),
        ),
    }
}

impl View for Value {
    type V = JsonView;

    open spec fn view(&self) -> JsonView {
        value_view(*self)
    }
}

/// What a list of values stands for.
pub open spec fn items_view(items: Seq<Value>) -> Seq<JsonView> {
    items.map_values(|v: Value| v@)
}

/// What a list of entries stands for.
pub open spec fn entries_view(entries: Seq<(String, Value)>) -> Seq<(Seq<char>, JsonView)> {
    entries.map_values(|e: (String, Value)| (e.0@, e.1@))
}

/// An array stands for what its items stand for.
pub proof fn lemma_array_view(items: Vec<Value>)
    ensures
        Value::Array(items)@ == JsonView::Array(items_view(items@)),
{
    let seen = value_view(Value::Array(items))->Array_0;
    assert(seen =~= items_view(items@));
}

/// An object stands for what its entries stand for.
pub proof fn lemma_object_view(entries: Vec<(String, Value)>)
    ensures
        Value::Object(entries)@ == JsonView::Object(entries_view(entries@)),
{
    let seen = value_view(Value::Object(entries))->Object_0;
    assert(seen =~= entries_view(entries@));
}

/// Where `key` first occurs among the entries; their number if it does not.
pub open spec fn key_position(entries: Seq<(Seq<char>, JsonView)>, key: Seq<char>) -> int {
    text::position(entries.map_values(|e: (Seq<char>, JsonView)| e.0), key)
}

/// The entries after inserting one: in the place of the first entry with
/// that key, or at the end.
pub open spec fn with_entry(
    entries: Seq<(Seq<char>, JsonView)>,
    key: Seq<char>,
    value: JsonView,
) -> Seq<(Seq<char>, JsonView)> {
    let p = key_position(entries, key);
    if p < entries.len() {
        entries.update(p, (key, value))
    } else {
        entries.push((key, value))
    }
}

/// The entries without those that have this key.
pub open spec fn without_key(entries: Seq<(Seq<char>, JsonView)>, key: Seq<char>) -> Seq<
    (Seq<char>, JsonView),
>
    decreases entries.len(),
{
    if entries.len() == 0 {
        entries
    } else if entries.last().0 == key {
        without_key(entries.drop_last(), key)
    } else {
        without_key(entries.drop_last(), key).push(entries.last())
    }
}

/// The character at a place, if the text reaches that far.
pub open spec fn char_at(s: Seq<char>, i: int) -> Option<char> {
    if 0 <= i < s.len() {
        Some(s[i])
    } else {
        None
    }
}

/// A place in the text, as the byte offset that messages give.
pub open spec fn at_byte(s: Seq<char>, i: int) -> Seq<char> {
    text::decimal(vstd::utf8::encode_utf8(s.take(i)).len())
}

/// How messages show the byte at a place.
pub open spec fn shown(s: Seq<char>, i: int) -> Seq<char> {
    platform::debug_char_text(
        match char_at(s, i) {
            Some(c) => Some(text::lead_byte(c)),
            None => None,
        },
    )
}

/// The message for a missing character.
pub open spec fn expected(s: Seq<char>, i: int, c: char) -> Seq<char> {
    "expected `"@ + seq![c] + "` at byte "@ + at_byte(s, i) + ", found "@ + shown(s, i)
}

/// White space between tokens.
pub open spec fn is_blank(c: char) -> bool {
    c == ' ' || c == '\t' || c == '\n' || c == '\r'
}

pub open spec fn is_digit(c: char) -> bool {
    '0' <= c <= '9'
}

/// The first place from `i` on that holds no white space.
pub open spec fn skip_blanks(s: Seq<char>, i: int) -> int
    decreases s.len() - i,
{
    if 0 <= i < s.len() && is_blank(s[i]) {
        skip_blanks(s, i + 1)
    } else {
        i
    }
}

/// The first place from `i` on that holds no digit.
pub open spec fn skip_digits(s: Seq<char>, i: int) -> int
    decreases s.len() - i,
{
    if 0 <= i < s.len() && is_digit(s[i]) {
        skip_digits(s, i + 1)
    } else {
        i
    }
}

pub proof fn lemma_skip_blanks(s: Seq<char>, i: int)
    ensures
        i <= skip_blanks(s, i),
        i <= s.len() ==> skip_blanks(s, i) <= s.len(),
    decreases s.len() - i,
{
    if 0 <= i < s.len() && is_blank(s[i]) {
        lemma_skip_blanks(s, i + 1);
    }
}

pub proof fn lemma_skip_digits(s: Seq<char>, i: int)
    ensures
        i <= skip_digits(s, i),
        i <= s.len() ==> skip_digits(s, i) <= s.len(),
    decreases s.len() - i,
{
    if 0 <= i < s.len() && is_digit(s[i]) {
        lemma_skip_digits(s, i + 1);
    }
}

/// The number of four hexadecimal digits (or a plus sign and three), or why
/// there is none.
pub open spec fn hex4(s: Seq<char>, i: int) -> Result<nat, Seq<char>> {
    let rest = s.skip(i);
    if vstd::utf8::encode_utf8(rest).len() < 4 {
        Err("truncated unicode escape"@)
    } else if rest.len() < 4 {
        Err("invalid unicode escape"@)
    } else {
        match text::bounded_value(rest.take(4), 16, 0xffff_ffff) {
            Some(v) => Ok(v),
            None => Err("invalid unicode escape"@),
        }
    }
}

/// The character that a surrogate pair stands for.
pub open spec fn paired(high: nat, low: nat) -> char {
    ((0x10000 + (high - 0xD800) * 1024 + (low - 0xDC00)) as u32) as char
}

/// The character of an escape whose digits start at `i`, and where the
/// escape ends.
pub open spec fn unicode_escape(s: Seq<char>, i: int) -> Result<(char, int), Seq<char>> {
    match hex4(s, i) {
        Err(e) => Err(e),
        Ok(high) => if 0xD800 <= high <= 0xDBFF {
            if char_at(s, i + 4) == Some('\\') && char_at(s, i + 5) == Some('u') {
                match hex4(s, i + 6) {
                    Err(e) => Err(e),
                    Ok(low) => if 0xDC00 <= low <= 0xDFFF {
                        Ok((paired(high, low), i + 10))
                    } else {
                        Err("invalid low surrogate"@)
                    },
                }
            } else {
                Err("unpaired high surrogate"@)
            }
        } else if 0xDC00 <= high <= 0xDFFF {
            Err("invalid unicode escape"@)
        } else {
            Ok(((high as u32) as char, i + 4))
        },
    }
}

/// The character of an escape whose backslash is just before `i`, and where
/// the escape ends.
pub open spec fn escape(s: Seq<char>, i: int) -> Result<(char, int), Seq<char>> {
    match char_at(s, i) {
        Some('"') => Ok(('"', i + 1)),
        Some('\\') => Ok(('\\', i + 1)),
        Some('/') => Ok(('/', i + 1)),
        Some('b') => Ok(('\u{8}', i + 1)),
        Some('f') => Ok(('\u{c}', i + 1)),
        Some('n') => Ok(('\n', i + 1)),
        Some('r') => Ok(('\r', i + 1)),
        Some('t') => Ok(('\t', i + 1)),
        Some('u') => unicode_escape(s, i + 1),
        _ => Err("invalid escape "@ + shown(s, i)),
    }
}

/// The rest of a string from `i` on, after `done`, and where it ends.
pub open spec fn string_rest(s: Seq<char>, i: int, done: Seq<char>) -> Result<
    (Seq<char>, int),
    Seq<char>,
>
    decreases s.len() - i,
{
    match char_at(s, i) {
        None => Err("unterminated string"@),
        Some('"') => Ok((done, i + 1)),
        Some('\\') => match escape(s, i + 1) {
            Err(e) => Err(e),
            Ok((c, next)) => string_rest(s, next, done.push(c)),
        },
        Some(c) => string_rest(s, i + 1, done.push(c)),
    }
}

/// The string that starts at `i`, and where it ends.
pub open spec fn string_at(s: Seq<char>, i: int) -> Result<(Seq<char>, int), Seq<char>> {
    if char_at(s, i) == Some('"') {
        string_rest(s, i + 1, seq![])
    } else {
        Err(expected(s, i, '"'))
    }
}

proof fn lemma_string_rest(s: Seq<char>, i: int, done: Seq<char>)
    ensures
        string_rest(s, i, done) matches Ok((_, end)) ==> i < end <= s.len(),
    decreases s.len() - i,
{
    match char_at(s, i) {
        None => {},
        Some('"') => {},
        Some('\\') => match escape(s, i + 1) {
            Err(e) => {},
            Ok((c, next)) => {
                lemma_string_rest(s, next, done.push(c));
            },
        },
        Some(c) => {
            lemma_string_rest(s, i + 1, done.push(c));
        },
    }
}

/// A string ends past its start.
pub proof fn lemma_string_at(s: Seq<char>, i: int)
    ensures
        string_at(s, i) matches Ok((_, end)) ==> i < end <= s.len(),
{
    lemma_string_rest(s, i + 1, seq![]);
}

/// Where the parts of the number that starts at `i` end: its sign, its whole
/// part, its fraction, and (where it has one) the sign of its exponent and
/// its exponent.
pub open spec fn sign_end(s: Seq<char>, i: int) -> int {
    if char_at(s, i) == Some('-') {
        i + 1
    } else {
        i
    }
}

pub open spec fn whole_end(s: Seq<char>, i: int) -> int {
    skip_digits(s, sign_end(s, i))
}

pub open spec fn fraction_end(s: Seq<char>, i: int) -> int {
    let w = whole_end(s, i);
    if char_at(s, w) == Some('.') {
        skip_digits(s, w + 1)
    } else {
        w
    }
}

pub open spec fn has_exponent(s: Seq<char>, i: int) -> bool {
    let f = fraction_end(s, i);
    char_at(s, f) == Some('e') || char_at(s, f) == Some('E')
}

pub open spec fn exponent_start(s: Seq<char>, i: int) -> int {
    let f = fraction_end(s, i);
    if char_at(s, f + 1) == Some('+') || char_at(s, f + 1) == Some('-') {
        f + 2
    } else {
        f + 1
    }
}

pub open spec fn number_end(s: Seq<char>, i: int) -> int {
    if has_exponent(s, i) {
        skip_digits(s, exponent_start(s, i))
    } else {
        fraction_end(s, i)
    }
}

/// Whether the number that starts at `i` has a digit before or after its
/// point, and one in its exponent if it has an exponent.
pub open spec fn number_complete(s: Seq<char>, i: int) -> bool {
    let w = whole_end(s, i);
    &&& w > sign_end(s, i) || fraction_end(s, i) > w + 1
    &&& has_exponent(s, i) ==> number_end(s, i) > exponent_start(s, i)
}

/// The number that starts at `i`, and where it ends.
pub open spec fn number_at(s: Seq<char>, i: int) -> Result<(JsonView, int), Seq<char>> {
    let end = number_end(s, i);
    let literal = s.subrange(i, end);
    if number_complete(s, i) {
        Ok((JsonView::Number(literal), end))
    } else {
        Err("invalid number `"@ + literal + "`: invalid float literal"@)
    }
}

/// Whether a text is a complete number literal.
pub open spec fn is_number_literal(t: Seq<char>) -> bool {
    &&& t.len() > 0
    &&& t[0] == '-' || is_digit(t[0])
    &&& number_end(t, 0) == t.len()
    &&& number_complete(t, 0)
}

/// The value that the word `word` stands for, if it starts at `i`.
pub open spec fn word_at(s: Seq<char>, i: int, word: Seq<char>, value: JsonView) -> Result<
    (JsonView, int),
    Seq<char>,
> {
    if text::starts_with(s.skip(i), word) {
        Ok((value, i + word.len()))
    } else {
        Err("expected `"@ + word + "` at byte "@ + at_byte(s, i))
    }
}

/// The value that starts at `i` (after white space), and where it ends.
pub open spec fn value_at(s: Seq<char>, i: int) -> Result<(JsonView, int), Seq<char>>
    decreases s.len() - i, 1int,
{
    let start = skip_blanks(s, i);
    proof {
        lemma_skip_blanks(s, i);
        lemma_skip_blanks(s, start + 1);
    }
    match char_at(s, start) {
        Some('{') => {
            let first = skip_blanks(s, start + 1);
            if char_at(s, first) == Some('}') {
                Ok((JsonView::Object(seq![]), first + 1))
            } else {
                entries_at(s, first, seq![])
            }
        },
        Some('[') => {
            let first = skip_blanks(s, start + 1);
            if char_at(s, first) == Some(']') {
                Ok((JsonView::Array(seq![]), first + 1))
            } else {
                items_at(s, first, seq![])
            }
        },
        Some('"') => match string_at(s, start) {
            Ok((t, end)) => Ok((JsonView::Text(t), end)),
            Err(e) => Err(e),
        },
        Some('t') => word_at(s, start, "true"@, JsonView::Bool(true)),
        Some('f') => word_at(s, start, "false"@, JsonView::Bool(false)),
        Some('n') => word_at(s, start, "null"@, JsonView::Null),
        Some(c) if c == '-' || is_digit(c) => number_at(s, start),
        _ => Err("unexpected "@ + shown(s, start) + " at byte "@ + at_byte(s, start)),
    }
}

/// The array whose next item starts at `i`, after the items `done`.
pub open spec fn items_at(s: Seq<char>, i: int, done: Seq<JsonView>) -> Result<
    (JsonView, int),
    Seq<char>,
>
    decreases s.len() - i, 2int,
{
    match value_at(s, i) {
        Err(e) => Err(e),
        Ok((v, end)) => {
            let next = skip_blanks(s, end);
            match char_at(s, next) {
                Some(',') if next >= i => items_at(s, next + 1, done.push(v)),
                Some(']') => Ok((JsonView::Array(done.push(v)), next + 1)),
                _ => Err(
                    "expected `,` or `]` at byte "@ + at_byte(s, next) + ", found "@ + shown(
                        s,
                        next,
                    ),
                ),
            }
        },
    }
}

/// The object whose next entry starts at `i` (after white space), after the
/// entries `done`. An entry takes the place of earlier ones with its key.
pub open spec fn entries_at(s: Seq<char>, i: int, done: Seq<(Seq<char>, JsonView)>) -> Result<
    (JsonView, int),
    Seq<char>,
>
    decreases s.len() - i, 2int,
{
    match string_at(s, skip_blanks(s, i)) {
        Err(e) => Err(e),
        Ok((key, key_end)) => {
            let colon = skip_blanks(s, key_end);
            if char_at(s, colon) != Some(':') {
                Err(expected(s, colon, ':'))
            } else {
                proof {
                    lemma_skip_blanks(s, i);
                    lemma_string_at(s, skip_blanks(s, i));
                    lemma_skip_blanks(s, key_end);
                }
                match value_at(s, colon + 1) {
                    Err(e) => Err(e),
                    Ok((v, end)) => {
                        let now = without_key(done, key).push((key, v));
                        let next = skip_blanks(s, end);
                        match char_at(s, next) {
                            Some(',') if next >= i => entries_at(s, next + 1, now),
                            Some('}') => Ok((JsonView::Object(now), next + 1)),
                            _ => Err(
                                "expected `,` or `}` at byte "@ + at_byte(s, next) + ", found "@
                                    + shown(s, next),
                            ),
                        }
                    },
                }
            }
        },
    }
}

/// The value that a text spells, with nothing but white space around it, or
/// the message that says why it spells none.
pub open spec fn parsed(s: Seq<char>) -> Result<JsonView, Seq<char>> {
    match value_at(s, 0) {
        Err(e) => Err(e),
        Ok((v, end)) => {
            let end = skip_blanks(s, end);
            if end == s.len() {
                Ok(v)
            } else {
                Err("trailing data at byte "@ + at_byte(s, end))
            }
        },
    }
}

/// A value ends past its start.
pub proof fn lemma_value_at(s: Seq<char>, i: int)
    requires
        0 <= i,
    ensures
        value_at(s, i) matches Ok((_, end)) ==> i < end <= s.len(),
    decreases s.len() - i, 1int,
{
    let start = skip_blanks(s, i);
    lemma_skip_blanks(s, i);
    match char_at(s, start) {
        Some('{') => {
            let first = skip_blanks(s, start + 1);
            lemma_skip_blanks(s, start + 1);
            if char_at(s, first) != Some('}') {
                lemma_entries_at(s, first, seq![]);
            }
        },
        Some('[') => {
            let first = skip_blanks(s, start + 1);
            lemma_skip_blanks(s, start + 1);
            if char_at(s, first) != Some(']') {
                lemma_items_at(s, first, seq![]);
            }
        },
        Some('"') => {
            lemma_string_at(s, start);
        },
        Some(c) => {
            reveal_strlit("true");
            reveal_strlit("false");
            reveal_strlit("null");
            if c == '-' || is_digit(c) {
                lemma_number_end(s, start);
            }
        },
        None => {},
    }
}

proof fn lemma_items_at(s: Seq<char>, i: int, done: Seq<JsonView>)
    requires
        0 <= i,
    ensures
        items_at(s, i, done) matches Ok((_, end)) ==> i < end <= s.len(),
    decreases s.len() - i, 2int,
{
    lemma_value_at(s, i);
    if let Ok((v, end)) = value_at(s, i) {
        let next = skip_blanks(s, end);
        lemma_skip_blanks(s, end);
        if char_at(s, next) == Some(',') {
            lemma_items_at(s, next + 1, done.push(v));
        }
    }
}

proof fn lemma_entries_at(s: Seq<char>, i: int, done: Seq<(Seq<char>, JsonView)>)
    requires
        0 <= i,
    ensures
        entries_at(s, i, done) matches Ok((_, end)) ==> i < end <= s.len(),
    decreases s.len() - i, 2int,
{
    lemma_skip_blanks(s, i);
    lemma_string_at(s, skip_blanks(s, i));
    if let Ok((key, key_end)) = string_at(s, skip_blanks(s, i)) {
        let colon = skip_blanks(s, key_end);
        lemma_skip_blanks(s, key_end);
        if char_at(s, colon) == Some(':') {
            lemma_value_at(s, colon + 1);
            if let Ok((v, end)) = value_at(s, colon + 1) {
                let next = skip_blanks(s, end);
                lemma_skip_blanks(s, end);
                if char_at(s, next) == Some(',') {
                    lemma_entries_at(s, next + 1, without_key(done, key).push((key, v)));
                }
            }
        }
    }
}

/// A number that starts with a sign or a digit ends past its start.
pub proof fn lemma_number_end(s: Seq<char>, i: int)
    requires
        0 <= i < s.len(),
        s[i] == '-' || is_digit(s[i]),
    ensures
        i <= sign_end(s, i) <= whole_end(s, i) <= fraction_end(s, i) <= number_end(s, i)
            <= s.len(),
        i < number_end(s, i),
        has_exponent(s, i) ==> fraction_end(s, i) < exponent_start(s, i) <= number_end(s, i),
{
    lemma_skip_digits(s, sign_end(s, i));
    let w = whole_end(s, i);
    lemma_skip_digits(s, w + 1);
    lemma_skip_digits(s, exponent_start(s, i));
    if s[i] != '-' {
        lemma_skip_digits(s, i + 1);
    }
}

proof fn lemma_skip_digits_cut(s: Seq<char>, i: int, end: int, k: int)
    requires
        0 <= i <= end <= s.len(),
        0 <= k <= end - i,
        skip_digits(s, i + k) <= end,
    ensures
        skip_digits(s.subrange(i, end), k) == skip_digits(s, i + k) - i,
    decreases end - i - k,
{
    lemma_skip_digits(s, i + k);
    if k < end - i && is_digit(s[i + k]) {
        lemma_skip_digits_cut(s, i, end, k + 1);
    }
}

/// A number that the parser accepts is a number literal.
pub proof fn lemma_number_is_literal(s: Seq<char>, i: int)
    requires
        0 <= i < s.len(),
        s[i] == '-' || is_digit(s[i]),
        number_complete(s, i),
    ensures
        is_number_literal(s.subrange(i, number_end(s, i))),
{
    lemma_number_end(s, i);
    let end = number_end(s, i);
    let t = s.subrange(i, end);
    assert(t[0] == s[i]);
    assert(sign_end(t, 0) == sign_end(s, i) - i);
    lemma_skip_digits_cut(s, i, end, sign_end(s, i) - i);
    let w = whole_end(s, i);
    assert(whole_end(t, 0) == w - i);
    if char_at(s, w) == Some('.') {
        lemma_skip_digits(s, w + 1);
        lemma_skip_digits_cut(s, i, end, w + 1 - i);
    }
    let f = fraction_end(s, i);
    assert(fraction_end(t, 0) == f - i);
    assert(has_exponent(t, 0) == has_exponent(s, i));
    if has_exponent(s, i) {
        let d = exponent_start(s, i);
        assert(exponent_start(t, 0) == d - i) by {
            if f + 1 < end {
                assert(t[f + 1 - i] == s[f + 1]);
            }
        }
        lemma_skip_digits_cut(s, i, end, d - i);
    }
}

/// Skipping digits passes over all of a text that is made of them.
proof fn lemma_skip_all_digits(t: Seq<char>, i: int)
    requires
        0 <= i <= t.len(),
        forall|j: int| i <= j < t.len() ==> is_digit(#[trigger] t[j]),
    ensures
        skip_digits(t, i) == t.len(),
    decreases t.len() - i,
{
    if i < t.len() {
        lemma_skip_all_digits(t, i + 1);
    }
}

/// An integer in decimal is a number literal.
proof fn lemma_decimal_is_literal(n: int)
    ensures
        is_number_literal(text::signed_decimal(n)),
{
    let t = text::signed_decimal(n);
    let digits = if n < 0 {
        text::decimal((-n) as nat)
    } else {
        text::decimal(n as nat)
    };
    let start = if n < 0 {
        1int
    } else {
        0int
    };
    text::lemma_decimal_digits(
        if n < 0 {
            (-n) as nat
        } else {
            n as nat
        },
    );
    assert forall|j: int| start <= j < t.len() implies is_digit(#[trigger] t[j]) by {
        assert(t[j] == digits[j - start]);
    }
    assert(n >= 0 ==> t[0] == digits[0]);
    lemma_skip_all_digits(t, start);
}

impl Number {
    #[verifier::type_invariant]
    pub closed spec fn well_formed(self) -> bool {
        is_number_literal(self.literal@)
    }

    /// The number that a literal spells, if it spells one.
    pub fn parse(literal: &str) -> (number: Option<Number>)
        ensures
            match number {
                Some(n) => is_number_literal(literal@) && n@ == literal@,
                None => !is_number_literal(literal@),
            },
    {
        let chars = text::chars_of(literal);
        if chars.len() == 0 {
            return None;
        }
        if !(chars[0] == '-' || ('0' <= chars[0] && chars[0] <= '9')) {
            return None;
        }
        let parser = Parser { chars: chars.as_slice() };
        match parser.parse_number(0) {
            Ok((Value::Number(n), end)) => if end == chars.len() {
                assert(literal@.subrange(0, end as int) =~= literal@);
                Some(n)
            } else {
                None
            },
            _ => None,
        }
    }

    /// The literal.
    pub fn as_str(&self) -> (literal: &str)
        ensures
            literal@ == self@,
            is_number_literal(literal@),
    {
        proof {
            use_type_invariant(self);
        }
        self.literal.as_str()
    }

    fn of_signed(n: i128) -> (number: Number)
        requires
            n > i128::MIN,
        ensures
            number@ == text::signed_decimal(n as int),
    {
        let literal = text::signed_decimal_text(n);
        proof {
            lemma_decimal_is_literal(n as int);
        }
        Number { literal }
    }

    fn of_unsigned(n: u128) -> (number: Number)
        ensures
            number@ == text::decimal(n as nat),
    {
        let literal = text::decimal_text(n);
        proof {
            lemma_decimal_is_literal(n as int);
        }
        Number { literal }
    }
}

impl Clone for Number {
    fn clone(&self) -> (copy: Self)
        ensures
            copy@ == self@,
    {
        proof {
            use_type_invariant(self);
        }
        Number { literal: self.literal.clone() }
    }
}

/// Whether a parser's outcome is the one that is wanted.
pub open spec fn string_outcome(
    outcome: Result<(String, usize), String>,
    wanted: Result<(Seq<char>, int), Seq<char>>,
) -> bool {
    match outcome {
        Ok((t, end)) => wanted == Ok::<(Seq<char>, int), Seq<char>>((t@, end as int)),
        Err(m) => wanted == Err::<(Seq<char>, int), Seq<char>>(m@),
    }
}

spec fn value_outcome(
    outcome: Result<(Value, usize), String>,
    wanted: Result<(JsonView, int), Seq<char>>,
) -> bool {
    match outcome {
        Ok((v, end)) => wanted == Ok::<(JsonView, int), Seq<char>>((v@, end as int)),
        Err(m) => wanted == Err::<(JsonView, int), Seq<char>>(m@),
    }
}

/// A text that is being parsed.
pub struct Parser<'a> {
    pub chars: &'a [char],
}

impl<'a> Parser<'a> {
    fn peek(&self, pos: usize) -> (c: Option<char>)
        ensures
            c == char_at(self.chars@, pos as int),
            self.chars@.len() <= usize::MAX,
    {
        if pos < self.chars.len() {
            Some(self.chars[pos])
        } else {
            None
        }
    }

    fn show(&self, pos: usize) -> (shown_text: String)
        ensures
            shown_text@ == shown(self.chars@, pos as int),
    {
        let found = match self.peek(pos) {
            Some(c) => Some(text::lead_byte_of(c)),
            None => None,
        };
        platform::debug_char(found)
    }

    fn offset(&self, pos: usize) -> (offset_text: String)
        requires
            pos <= self.chars@.len(),
        ensures
            offset_text@ == at_byte(self.chars@, pos as int),
    {
        assert(self.chars@.subrange(0, pos as int) == self.chars@.take(pos as int));
        text::decimal_text(text::byte_count(text::part(self.chars, 0, pos)))
    }

    fn skip_ws(&self, pos: usize) -> (next: usize)
        requires
            pos <= self.chars@.len(),
        ensures
            next == skip_blanks(self.chars@, pos as int),
            pos <= next <= self.chars@.len() <= usize::MAX,
    {
        let mut next = pos;
        while next < self.chars.len() && (self.chars[next] == ' ' || self.chars[next] == '\t'
            || self.chars[next] == '\n' || self.chars[next] == '\r')
            invariant
                pos <= next <= self.chars@.len(),
                skip_blanks(self.chars@, next as int) == skip_blanks(self.chars@, pos as int),
            decreases self.chars@.len() - next,
        {
            next = next + 1;
        }
        next
    }

    fn skip_digits(&self, pos: usize) -> (next: usize)
        requires
            pos <= self.chars@.len(),
        ensures
            next == skip_digits(self.chars@, pos as int),
            pos <= next <= self.chars@.len() <= usize::MAX,
    {
        let mut next = pos;
        while next < self.chars.len() && '0' <= self.chars[next] && self.chars[next] <= '9'
            invariant
                pos <= next <= self.chars@.len(),
                skip_digits(self.chars@, next as int) == skip_digits(self.chars@, pos as int),
            decreases self.chars@.len() - next,
        {
            next = next + 1;
        }
        next
    }

    fn expect(&self, pos: usize, c: char) -> (outcome: Result<usize, String>)
        requires
            pos <= self.chars@.len(),
        ensures
            match outcome {
                Ok(next) => char_at(self.chars@, pos as int) == Some(c) && next == pos + 1 && next
                    <= self.chars@.len(),
                Err(m) => char_at(self.chars@, pos as int) != Some(c) && m@ == expected(
                    self.chars@,
                    pos as int,
                    c,
                ),
            },
            self.chars@.len() <= usize::MAX,
    {
        if pos < self.chars.len() && self.chars[pos] == c {
            Ok(pos + 1)
        } else {
            let mut m = text::owned("expected `");
            m.push(c);
            m.push_str("` at byte ");
            m.push_str(self.offset(pos).as_str());
            m.push_str(", found ");
            m.push_str(self.show(pos).as_str());
            assert(m@ == expected(self.chars@, pos as int, c));
            Err(m)
        }
    }

    fn literal(&self, pos: usize, word: &str, value: Value) -> (outcome: Result<
        (Value, usize),
        String,
    >)
        requires
            pos <= self.chars@.len(),
        ensures
            value_outcome(outcome, word_at(self.chars@, pos as int, word@, value@)),
            outcome matches Ok((_, end)) ==> end <= self.chars@.len(),
    {
        let rest = text::part(self.chars, pos, self.chars.len());
        assert(rest@ == self.chars@.skip(pos as int));
        let word_chars = text::chars_of(word);
        if text::has_prefix(rest, word_chars.as_slice()) {
            Ok((value, pos + word_chars.len()))
        } else {
            let mut m = text::owned("expected `");
            m.push_str(word);
            m.push_str("` at byte ");
            m.push_str(self.offset(pos).as_str());
            Err(m)
        }
    }

    fn parse_value(&self, pos: usize) -> (outcome: Result<(Value, usize), String>)
        requires
            pos <= self.chars@.len(),
        ensures
            value_outcome(outcome, value_at(self.chars@, pos as int)),
            outcome matches Ok((_, end)) ==> pos < end <= self.chars@.len(),
        decreases self.chars@.len() - pos, 1int,
    {
        proof {
            lemma_value_at(self.chars@, pos as int);
        }
        let start = self.skip_ws(pos);
        match self.peek(start) {
            Some('{') => self.parse_object(start),
            Some('[') => self.parse_array(start),
            Some('"') => match self.parse_string(start) {
                Ok((t, end)) => Ok((Value::String(t), end)),
                Err(m) => Err(m),
            },
            Some('t') => self.literal(start, "true", Value::Bool(true)),
            Some('f') => self.literal(start, "false", Value::Bool(false)),
            Some('n') => self.literal(start, "null", Value::Null),
            Some(c) if c == '-' || ('0' <= c && c <= '9') => self.parse_number(start),
            _ => {
                let mut m = text::owned("unexpected ");
                m.push_str(self.show(start).as_str());
                m.push_str(" at byte ");
                m.push_str(self.offset(start).as_str());
                Err(m)
            },
        }
    }

    fn parse_object(&self, pos: usize) -> (outcome: Result<(Value, usize), String>)
        requires
            pos < self.chars@.len() <= usize::MAX,
            self.chars@[pos as int] == '{',
        ensures
            ({
                let first = skip_blanks(self.chars@, pos + 1);
                value_outcome(
                    outcome,
                    if char_at(self.chars@, first) == Some('}') {
                        Ok((JsonView::Object(seq![]), first + 1))
                    } else {
                        entries_at(self.chars@, first, seq![])
                    },
                )
            }),
        decreases self.chars@.len() - pos, 0int,
    {
        let ghost s = self.chars@;
        let mut entries: Vec<(String, Value)> = Vec::new();
        let mut next = self.skip_ws(pos + 1);
        let ghost first = next as int;
        if let Some('}') = self.peek(next) {
            proof {
                lemma_object_view(entries);
                assert(entries_view(entries@) =~= seq![]);
            }
            let object = Value::Object(entries);
            return Ok((object, next + 1));
        }
        assert(entries_view(entries@) == Seq::<(Seq<char>, JsonView)>::empty());
        loop
            invariant
                s == self.chars@,
                pos < next <= s.len() <= usize::MAX,
                entries_at(s, first, seq![]) == entries_at(
                    s,
                    next as int,
                    entries_view(entries@),
                ),
                char_at(s, first) != Some('}'),
                first == skip_blanks(s, pos + 1),
            decreases s.len() - next,
        {
            let ghost done = entries_view(entries@);
            let key_start = self.skip_ws(next);
            proof {
                lemma_string_at(s, key_start as int);
            }
            let (key, key_end) = match self.parse_string(key_start) {
                Ok(found) => found,
                Err(m) => {
                    return Err(m);
                },
            };
            let colon = self.skip_ws(key_end);
            let value_start = match self.expect(colon, ':') {
                Ok(after) => after,
                Err(m) => {
                    return Err(m);
                },
            };
            let (value, end) = match self.parse_value(value_start) {
                Ok(found) => found,
                Err(m) => {
                    return Err(m);
                },
            };
            let ghost key_text = key@;
            let ghost value_seen = value@;
            remove_key(&mut entries, &key);
            let ghost kept = entries@;
            entries.push((key, value));
            proof {
                assert(entries_view(entries@) == entries_view(kept).push((key_text, value_seen)));
            }
            let after = self.skip_ws(end);
            match self.peek(after) {
                Some(',') => {
                    next = after + 1;
                },
                Some('}') => {
                    proof {
                        lemma_object_view(entries);
                    }
                    let object = Value::Object(entries);
                    return Ok((object, after + 1));
                },
                _ => {
                    let mut m = text::owned("expected `,` or `}` at byte ");
                    m.push_str(self.offset(after).as_str());
                    m.push_str(", found ");
                    m.push_str(self.show(after).as_str());
                    return Err(m);
                },
            }
        }
    }

    fn parse_array(&self, pos: usize) -> (outcome: Result<(Value, usize), String>)
        requires
            pos < self.chars@.len() <= usize::MAX,
            self.chars@[pos as int] == '[',
        ensures
            ({
                let first = skip_blanks(self.chars@, pos + 1);
                value_outcome(
                    outcome,
                    if char_at(self.chars@, first) == Some(']') {
                        Ok((JsonView::Array(seq![]), first + 1))
                    } else {
                        items_at(self.chars@, first, seq![])
                    },
                )
            }),
        decreases self.chars@.len() - pos, 0int,
    {
        let ghost s = self.chars@;
        let mut items: Vec<Value> = Vec::new();
        let mut next = self.skip_ws(pos + 1);
        let ghost first = next as int;
        if let Some(']') = self.peek(next) {
            proof {
                lemma_array_view(items);
                assert(items_view(items@) =~= seq![]);
            }
            let array = Value::Array(items);
            return Ok((array, next + 1));
        }
        assert(items_view(items@) == Seq::<JsonView>::empty());
        loop
            invariant
                s == self.chars@,
                pos < next <= s.len() <= usize::MAX,
                items_at(s, first, seq![]) == items_at(s, next as int, items_view(items@)),
                char_at(s, first) != Some(']'),
                first == skip_blanks(s, pos + 1),
            decreases s.len() - next,
        {
            let ghost done = items@;
            let (value, end) = match self.parse_value(next) {
                Ok(found) => found,
                Err(m) => {
                    return Err(m);
                },
            };
            let ghost value_seen = value@;
            items.push(value);
            proof {
                assert(items_view(items@) == items_view(done).push(value_seen));
            }
            let after = self.skip_ws(end);
            match self.peek(after) {
                Some(',') => {
                    next = after + 1;
                },
                Some(']') => {
                    proof {
                        lemma_array_view(items);
                    }
                    let array = Value::Array(items);
                    return Ok((array, after + 1));
                },
                _ => {
                    let mut m = text::owned("expected `,` or `]` at byte ");
                    m.push_str(self.offset(after).as_str());
                    m.push_str(", found ");
                    m.push_str(self.show(after).as_str());
                    return Err(m);
                },
            }
        }
    }

    /// Reads the string literal that starts at `pos`, and says where it ends.
    pub fn parse_string(&self, pos: usize) -> (outcome: Result<(String, usize), String>)
        requires
            pos <= self.chars@.len(),
        ensures
            string_outcome(outcome, string_at(self.chars@, pos as int)),
            outcome matches Ok((_, end)) ==> pos < end <= self.chars@.len(),
    {
        let ghost s = self.chars@;
        let mut next = match self.expect(pos, '"') {
            Ok(after) => after,
            Err(m) => {
                return Err(m);
            },
        };
        let mut done = String::new();
        assert(done@ == Seq::<char>::empty());
        loop
            invariant
                s == self.chars@,
                pos < next <= s.len() <= usize::MAX,
                string_at(s, pos as int) == string_rest(s, next as int, done@),
            decreases s.len() - next,
        {
            match self.peek(next) {
                None => {
                    return Err(text::owned("unterminated string"));
                },
                Some('"') => {
                    return Ok((done, next + 1));
                },
                Some('\\') => match self.parse_escape(next + 1) {
                    Ok((c, end)) => {
                        done.push(c);
                        next = end;
                    },
                    Err(m) => {
                        return Err(m);
                    },
                },
                Some(c) => {
                    done.push(c);
                    next = next + 1;
                },
            }
        }
    }

    fn parse_escape(&self, pos: usize) -> (outcome: Result<(char, usize), String>)
        requires
            pos <= self.chars@.len(),
        ensures
            match outcome {
                Ok((c, end)) => escape(self.chars@, pos as int) == Ok::<(char, int), Seq<char>>(
                    (c, end as int),
                ) && pos < end <= self.chars@.len(),
                Err(m) => escape(self.chars@, pos as int) == Err::<(char, int), Seq<char>>(m@),
            },
    {
        match self.peek(pos) {
            Some('"') => Ok(('"', pos + 1)),
            Some('\\') => Ok(('\\', pos + 1)),
            Some('/') => Ok(('/', pos + 1)),
            Some('b') => Ok(('\u{8}', pos + 1)),
            Some('f') => Ok(('\u{c}', pos + 1)),
            Some('n') => Ok(('\n', pos + 1)),
            Some('r') => Ok(('\r', pos + 1)),
            Some('t') => Ok(('\t', pos + 1)),
            Some('u') => self.parse_unicode_escape(pos + 1),
            _ => {
                let mut m = text::owned("invalid escape ");
                m.push_str(self.show(pos).as_str());
                Err(m)
            },
        }
    }

    fn parse_unicode_escape(&self, pos: usize) -> (outcome: Result<(char, usize), String>)
        requires
            pos <= self.chars@.len(),
        ensures
            match outcome {
                Ok((c, end)) => unicode_escape(self.chars@, pos as int) == Ok::<
                    (char, int),
                    Seq<char>,
                >((c, end as int)) && pos < end <= self.chars@.len(),
                Err(m) => unicode_escape(self.chars@, pos as int) == Err::<(char, int), Seq<char>>(
                    m@,
                ),
            },
    {
        let high = match self.parse_hex4(pos) {
            Ok(v) => v,
            Err(m) => {
                return Err(m);
            },
        };
        if 0xD800 <= high && high <= 0xDBFF {
            if !(self.peek(pos + 4) == Some('\\') && self.peek_from(pos + 4, 1) == Some('u')) {
                return Err(text::owned("unpaired high surrogate"));
            }
            let low = match self.parse_hex4(pos + 6) {
                Ok(v) => v,
                Err(m) => {
                    return Err(m);
                },
            };
            if !(0xDC00 <= low && low <= 0xDFFF) {
                return Err(text::owned("invalid low surrogate"));
            }
            match char::from_u32(0x10000 + (high - 0xD800) * 1024 + (low - 0xDC00)) {
                Some(c) => {
                    proof {
                        vstd::utf8::char_u32_cast(c, c as u32);
                    }
                    Ok((c, pos + 10))
                },
                None => Err(text::owned("invalid surrogate pair")),
            }
        } else {
            match char::from_u32(high) {
                Some(c) => {
                    proof {
                        vstd::utf8::char_u32_cast(c, high);
                    }
                    Ok((c, pos + 4))
                },
                None => Err(text::owned("invalid unicode escape")),
            }
        }
    }

    fn peek_from(&self, pos: usize, ahead: usize) -> (c: Option<char>)
        requires
            pos <= self.chars@.len(),
        ensures
            c == char_at(self.chars@, pos + ahead),
    {
        if ahead < self.chars.len() - pos {
            Some(self.chars[pos + ahead])
        } else {
            None
        }
    }

    fn parse_hex4(&self, pos: usize) -> (outcome: Result<u32, String>)
        requires
            pos <= self.chars@.len(),
        ensures
            match outcome {
                Ok(v) => hex4(self.chars@, pos as int) == Ok::<nat, Seq<char>>(v as nat) && v
                    <= 0xffff && pos + 4 <= self.chars@.len() <= usize::MAX,
                Err(m) => hex4(self.chars@, pos as int) == Err::<nat, Seq<char>>(m@),
            },
    {
        let rest = text::part(self.chars, pos, self.chars.len());
        assert(rest@ == self.chars@.skip(pos as int));
        if rest.len() < 4 {
            if text::byte_count(rest) < 4 {
                return Err(text::owned("truncated unicode escape"));
            }
            return Err(text::owned("invalid unicode escape"));
        }
        proof {
            text::lemma_encode_at_least(rest@);
        }
        let digits = text::part(rest, 0, 4);
        assert(digits@ == rest@.take(4));
        match text::read_unsigned(digits, 16, 0xffff_ffff) {
            Some(v) => {
                proof {
                    text::lemma_value_bound(digits@, 16, 4);
                    assert(vstd::arithmetic::power::pow(16, 4) == 65536) by {
                        reveal_with_fuel(vstd::arithmetic::power::pow, 5);
                    }
                }
                Ok(v as u32)
            },
            None => Err(text::owned("invalid unicode escape")),
        }
    }

    fn parse_number(&self, pos: usize) -> (outcome: Result<(Value, usize), String>)
        requires
            pos < self.chars@.len() <= usize::MAX,
            self.chars@[pos as int] == '-' || is_digit(self.chars@[pos as int]),
        ensures
            value_outcome(outcome, number_at(self.chars@, pos as int)),
    {
        let ghost s = self.chars@;
        proof {
            lemma_number_end(s, pos as int);
        }
        let sign = if self.chars[pos] == '-' {
            pos + 1
        } else {
            pos
        };
        let whole = self.skip_digits(sign);
        let mut complete = whole > sign;
        let mut fraction = whole;
        if let Some('.') = self.peek(whole) {
            fraction = self.skip_digits(whole + 1);
            complete = complete || fraction > whole + 1;
        }
        let mut end = fraction;
        let marked = match self.peek(fraction) {
            Some('e') | Some('E') => true,
            _ => false,
        };
        if marked {
            let digits = match self.peek(fraction + 1) {
                Some('+') | Some('-') => fraction + 2,
                _ => fraction + 1,
            };
            end = self.skip_digits(digits);
            complete = complete && end > digits;
        }
        let literal = text::text_of(text::part(self.chars, pos, end));
        assert(complete == number_complete(s, pos as int));
        if complete {
            proof {
                lemma_number_is_literal(s, pos as int);
            }
            Ok((Value::Number(Number { literal }), end))
        } else {
            let mut m = text::owned("invalid number `");
            m.push_str(literal.as_str());
            m.push_str("`: invalid float literal");
            Err(m)
        }
    }
}

/// Takes out all entries with this key.
fn remove_key(entries: &mut Vec<(String, Value)>, key: &String)
    ensures
        entries_view(final(entries)@) == without_key(entries_view(old(entries)@), key@),
{
    let ghost all = entries_view(entries@);
    let ghost mut seen: int = 0;
    let mut i: usize = 0;
    assert(all.take(0) == Seq::<(Seq<char>, JsonView)>::empty());
    while i < entries.len()
        invariant
            0 <= i <= entries@.len(),
            0 <= seen <= all.len(),
            all.len() - seen == entries@.len() - i,
            entries_view(entries@).take(i as int) == without_key(all.take(seen), key@),
            entries_view(entries@).skip(i as int) == all.skip(seen),
        decreases entries@.len() - i,
    {
        let ghost before = entries_view(entries@);
        proof {
            assert(all.take(seen + 1).drop_last() == all.take(seen));
            assert(before.skip(i as int)[0] == all.skip(seen)[0]);
            assert(before[i as int] == all[seen]);
            assert(before.skip(i as int).skip(1) == all.skip(seen).skip(1));
            assert(all.skip(seen).skip(1) == all.skip(seen + 1));
        }
        if entries[i].0 == *key {
            let removed = entries.remove(i);
            proof {
                assert(entries_view(entries@) == before.remove(i as int));
                assert(before.remove(i as int).skip(i as int) == before.skip(i as int).skip(1));
                assert(before.remove(i as int).take(i as int) == before.take(i as int));
            }
        } else {
            i = i + 1;
            proof {
                assert(before.skip(i as int) == before.skip(i - 1).skip(1));
                assert(before.take(i as int) == before.take(i - 1).push(before[i - 1]));
            }
        }
        proof {
            seen = seen + 1;
        }
    }
    proof {
        assert(all.take(seen) == all);
        assert(entries_view(entries@).take(i as int) == entries_view(entries@));
    }
}

/// The lower case hexadecimal digit for a number below sixteen.
pub open spec fn hex_digit(d: nat) -> char {
    if d < 10 {
        ((48 + d) as u32) as char
    } else {
        ((87 + d) as u32) as char
    }
}

/// How a string literal spells a character.
pub open spec fn escaped(c: char) -> Seq<char> {
    if c == '"' {
        seq!['\\', '"']
    } else if c == '\\' {
        seq!['\\', '\\']
    } else if c == '\n' {
        seq!['\\', 'n']
    } else if c == '\r' {
        seq!['\\', 'r']
    } else if c == '\t' {
        seq!['\\', 't']
    } else if (c as u32) < 0x20 {
        seq!['\\', 'u', '0', '0', hex_digit((c as u32 / 16) as nat), hex_digit((c as u32 % 16) as nat)]
    } else {
        seq![c]
    }
}

/// How a string literal spells a text, without the quotes.
pub open spec fn escaped_text(s: Seq<char>) -> Seq<char>
    decreases s.len(),
{
    if s.len() == 0 {
        seq![]
    } else {
        escaped_text(s.drop_last()) + escaped(s.last())
    }
}

/// The string literal for a text.
pub open spec fn quoted(s: Seq<char>) -> Seq<char> {
    seq!['"'] + escaped_text(s) + seq!['"']
}

/// The text of a value, without white space between its tokens.
pub open spec fn rendered(v: JsonView) -> Seq<char>
    decreases v,
{
    match v {
        JsonView::Null => "null"@,
        JsonView::Bool(b) => if b {
            "true"@
        } else {
            "false"@
        },
        JsonView::Number(n) => n,
        JsonView::Text(t) => quoted(t),
        JsonView::Array(items) => seq!['['] + text::joined(item_texts(items), seq![',']) + seq![']'],
        JsonView::Object(entries) => seq!['{'] + text::joined(entry_texts(entries), seq![','])
            + seq!['}'],
    }
}

/// The texts of the items of an array.
pub open spec fn item_texts(items: Seq<JsonView>) -> Seq<Seq<char>>
    decreases items,
{
    if items.len() == 0 {
        seq![]
    } else {
        item_texts(items.drop_last()).push(rendered(items[items.len() - 1]))
    }
}

/// The texts of the entries of an object.
pub open spec fn entry_texts(entries: Seq<(Seq<char>, JsonView)>) -> Seq<Seq<char>>
    decreases entries,
{
    if entries.len() == 0 {
        seq![]
    } else {
        entry_texts(entries.drop_last()).push(
            quoted(entries[entries.len() - 1].0) + seq![':'] + rendered(
                entries[entries.len() - 1].1,
            ),
        )
    }
}

/// The text of an entry of an object.
pub open spec fn entry_text(entry: (Seq<char>, JsonView)) -> Seq<char> {
    quoted(entry.0) + seq![':'] + rendered(entry.1)
}

pub proof fn lemma_item_texts(items: Seq<JsonView>)
    ensures
        item_texts(items).len() == items.len(),
        forall|i: int| 0 <= i < items.len() ==> item_texts(items)[i] == rendered(items[i]),
    decreases items.len(),
{
    if items.len() > 0 {
        lemma_item_texts(items.drop_last());
        assert forall|i: int| 0 <= i < items.len() implies item_texts(items)[i] == rendered(
            items[i],
        ) by {
            if i < items.len() - 1 {
                assert(items.drop_last()[i] == items[i]);
            }
        }
    }
}

pub proof fn lemma_entry_texts(entries: Seq<(Seq<char>, JsonView)>)
    ensures
        entry_texts(entries).len() == entries.len(),
        forall|i: int|
            0 <= i < entries.len() ==> entry_texts(entries)[i] == entry_text(entries[i]),
    decreases entries.len(),
{
    if entries.len() > 0 {
        lemma_entry_texts(entries.drop_last());
        assert forall|i: int| 0 <= i < entries.len() implies entry_texts(entries)[i] == entry_text(
            entries[i],
        ) by {
            if i < entries.len() - 1 {
                assert(entries.drop_last()[i] == entries[i]);
            }
        }
    }
}

pub fn hex_digit_char(d: u32) -> (c: char)
    requires
        d < 16,
    ensures
        c == hex_digit(d as nat),
{
    if d < 10 {
        (48u8 + d as u8) as char
    } else {
        (87u8 + d as u8) as char
    }
}

/// Writes a text as a string literal. What is written reads back as the text.
pub fn write_json_string(s: &str, out: &mut String)
    ensures
        final(out)@ == old(out)@ + quoted(s@),
        string_at(final(out)@, old(out)@.len() as int) == Ok::<(Seq<char>, int), Seq<char>>(
            (s@, final(out)@.len() as int),
        ),
{
    let chars = text::chars_of(s);
    let ghost before = out@;
    out.push('"');
    for i in 0..chars.len()
        invariant
            chars@ == s@,
            out@ == before + seq!['"'] + escaped_text(s@.take(i as int)),
    {
        let c = chars[i];
        proof {
            assert(s@.take(i + 1).drop_last() == s@.take(i as int));
        }
        if c == '"' {
            out.push_str("\\\"");
            proof {
                reveal_strlit("\\\"");
            }
        } else if c == '\\' {
            out.push_str("\\\\");
            proof {
                reveal_strlit("\\\\");
            }
        } else if c == '\n' {
            out.push_str("\\n");
            proof {
                reveal_strlit("\\n");
            }
        } else if c == '\r' {
            out.push_str("\\r");
            proof {
                reveal_strlit("\\r");
            }
        } else if c == '\t' {
            out.push_str("\\t");
            proof {
                reveal_strlit("\\t");
            }
        } else if (c as u32) < 0x20 {
            out.push_str("\\u00");
            out.push(hex_digit_char(c as u32 / 16));
            out.push(hex_digit_char(c as u32 % 16));
            proof {
                reveal_strlit("\\u00");
            }
        } else {
            out.push(c);
        }
        assert(out@ == before + seq!['"'] + (escaped_text(s@.take(i as int)) + escaped(c)));
    }
    out.push('"');
    assert(s@.take(s@.len() as int) == s@);
    assert(out@ == before + quoted(s@));
    proof {
        json_laws::law_written_string_reads_back(before, s@, seq![]);
        assert(before + quoted(s@) + seq![] =~= out@);
    }
}

impl Value {
    /// An object without entries.
    pub fn object() -> (v: Value)
        ensures
            v@ == JsonView::Object(seq![]),
    {
        let entries: Vec<(String, Value)> = Vec::new();
        proof {
            lemma_object_view(entries);
            assert(entries_view(entries@) =~= seq![]);
        }
        Value::Object(entries)
    }

    /// An array without items.
    pub fn array() -> (v: Value)
        ensures
            v@ == JsonView::Array(seq![]),
    {
        let items: Vec<Value> = Vec::new();
        proof {
            lemma_array_view(items);
            assert(items_view(items@) =~= seq![]);
        }
        Value::Array(items)
    }

    /// Inserts an entry into an object, in the place of one with the same
    /// key if there is one, and hands the object back for more.
    pub fn insert(&mut self, key: &str, value: Value) -> (this: &mut Value)
        requires
            old(self)@ is Object,
        ensures
            this@ == JsonView::Object(with_entry(old(self)@->Object_0, key@, value@)),
            *final(self) == *final(this),
    {
        let ghost before = *self;
        if let Value::Object(entries) = self {
            let ghost old_entries = *entries;
            let ghost seen = entries_view(old_entries@);
            let ghost keys = seen.map_values(|e: (Seq<char>, JsonView)| e.0);
            proof {
                lemma_object_view(old_entries);
            }
            let ghost value_seen = value@;
            let name = text::owned(key);
            let p = entry_position(entries.as_slice(), key);
            if p < entries.len() {
                entries[p] = (name, value);
            } else {
                entries.push((name, value));
            }
            proof {
                lemma_object_view(*entries);
                assert(entries_view(entries@) =~= with_entry(seen, key@, value_seen));
            }
        }
        self
    }

    /// Appends an item to an array, and hands the array back for more.
    pub fn push(&mut self, value: Value) -> (this: &mut Value)
        requires
            old(self)@ is Array,
        ensures
            this@ == JsonView::Array(old(self)@->Array_0.push(value@)),
            *final(self) == *final(this),
    {
        if let Value::Array(items) = self {
            let ghost old_items = *items;
            proof {
                lemma_array_view(old_items);
            }
            let ghost value_seen = value@;
            items.push(value);
            proof {
                lemma_array_view(*items);
                assert(items_view(items@) =~= items_view(old_items@).push(value_seen));
            }
        }
        self
    }

    /// The value of the first entry with this key, if the value is an object
    /// that has one.
    pub fn get(&self, key: &str) -> (found: Option<&Value>)
        ensures
            match found {
                Some(v) => self@ is Object && key_position(self@->Object_0, key@)
                    < self@->Object_0.len() && v@ == self@->Object_0[key_position(
                    self@->Object_0,
                    key@,
                )].1,
                None => self@ is Object ==> key_position(self@->Object_0, key@)
                    == self@->Object_0.len(),
            },
    {
        match self {
            Value::Object(entries) => {
                proof {
                    lemma_object_view(*entries);
                }
                let p = entry_position(entries.as_slice(), key);
                if p < entries.len() {
                    Some(&entries[p].1)
                } else {
                    None
                }
            },
            _ => None,
        }
    }

    /// The text of a string.
    pub fn as_str(&self) -> (s: Option<&str>)
        ensures
            match s {
                Some(t) => self@ == JsonView::Text(t@),
                None => !(self@ is Text),
            },
    {
        match self {
            Value::String(s) => Some(s.as_str()),
            _ => None,
        }
    }

    /// The literal of a number.
    pub fn as_number(&self) -> (n: Option<&str>)
        ensures
            match n {
                Some(t) => self@ == JsonView::Number(t@),
                None => !(self@ is Number),
            },
    {
        match self {
            Value::Number(n) => Some(n.as_str()),
            _ => None,
        }
    }

    /// The truth value of a boolean.
    pub fn as_bool(&self) -> (b: Option<bool>)
        ensures
            match b {
                Some(t) => self@ == JsonView::Bool(t),
                None => !(self@ is Bool),
            },
    {
        match self {
            Value::Bool(b) => Some(*b),
            _ => None,
        }
    }

    /// The items of an array.
    pub fn as_array(&self) -> (items: Option<&[Value]>)
        ensures
            match items {
                Some(t) => self@ == JsonView::Array(items_view(t@)),
                None => !(self@ is Array),
            },
    {
        match self {
            Value::Array(items) => {
                proof {
                    lemma_array_view(*items);
                }
                Some(items.as_slice())
            },
            _ => None,
        }
    }

    /// The entries of an object.
    pub fn as_object(&self) -> (entries: Option<&[(String, Value)]>)
        ensures
            match entries {
                Some(t) => self@ == JsonView::Object(entries_view(t@)),
                None => !(self@ is Object),
            },
    {
        match self {
            Value::Object(entries) => {
                proof {
                    lemma_object_view(*entries);
                }
                Some(entries.as_slice())
            },
            _ => None,
        }
    }

    pub fn is_null(&self) -> (yes: bool)
        ensures
            yes == (self@ == JsonView::Null),
    {
        match self {
            Value::Null => true,
            _ => false,
        }
    }

    /// The compact text of the value.
    pub fn to_json_string(&self) -> (out: String)
        ensures
            out@ == rendered(self@),
    {
        let mut out = String::new();
        self.write_json(&mut out);
        assert(out@ == rendered(self@));
        out
    }

    fn write_json(&self, out: &mut String)
        ensures
            final(out)@ == old(out)@ + rendered(self@),
        decreases self,
    {
        let ghost before = out@;
        match self {
            Value::Null => out.push_str("null"),
            Value::Bool(true) => out.push_str("true"),
            Value::Bool(false) => out.push_str("false"),
            Value::Number(n) => out.push_str(n.as_str()),
            Value::String(s) => write_json_string(s.as_str(), out),
            Value::Array(items) => {
                let ghost parts = item_texts(items_view(items@));
                let ghost sep = seq![','];
                proof {
                    lemma_array_view(*items);
                    lemma_item_texts(items_view(items@));
                }
                out.push('[');
                for i in 0..items.len()
                    invariant
                        *self == Value::Array(*items),
                        parts == item_texts(items_view(items@)),
                        parts.len() == items@.len(),
                        forall|j: int|
                            0 <= j < parts.len() ==> parts[j] == rendered(items@[j]@),
                        sep == seq![','],
                        out@ == before + seq!['['] + text::joined(parts.take(i as int), sep),
                {
                    if i > 0 {
                        out.push(',');
                    }
                    assert(decreases_to!(*self => self->Array_0@[i as int]));
                    items[i].write_json(out);
                    proof {
                        text::lemma_joined_next(parts, sep, i as int);
                    }
                }
                assert(parts.take(parts.len() as int) == parts);
                out.push(']');
                assert(out@ == before + rendered(self@));
            },
            Value::Object(entries) => {
                let ghost parts = entry_texts(entries_view(entries@));
                let ghost sep = seq![','];
                proof {
                    lemma_object_view(*entries);
                    lemma_entry_texts(entries_view(entries@));
                }
                out.push('{');
                for i in 0..entries.len()
                    invariant
                        *self == Value::Object(*entries),
                        parts == entry_texts(entries_view(entries@)),
                        parts.len() == entries@.len(),
                        forall|j: int|
                            0 <= j < parts.len() ==> parts[j] == entry_text(
                                entries_view(entries@)[j],
                            ),
                        sep == seq![','],
                        out@ == before + seq!['{'] + text::joined(parts.take(i as int), sep),
                {
                    if i > 0 {
                        out.push(',');
                    }
                    write_json_string(entries[i].0.as_str(), out);
                    out.push(':');
                    assert(decreases_to!(*self => self->Object_0@[i as int].1));
                    entries[i].1.write_json(out);
                    proof {
                        assert(parts[i as int] == entry_text(entries_view(entries@)[i as int]));
                        text::lemma_joined_next(parts, sep, i as int);
                    }
                }
                assert(parts.take(parts.len() as int) == parts);
                out.push('}');
                assert(out@ == before + rendered(self@));
            },
        }
    }

    fn copy(&self) -> (copy: Value)
        ensures
            copy@ == self@,
        decreases self,
    {
        match self {
            Value::Null => Value::Null,
            Value::Bool(b) => Value::Bool(*b),
            Value::Number(n) => Value::Number(n.clone()),
            Value::String(s) => Value::String(s.clone()),
            Value::Array(items) => {
                let mut copies: Vec<Value> = Vec::new();
                for i in 0..items.len()
                    invariant
                        *self == Value::Array(*items),
                        items_view(copies@) == items_view(items@).take(i as int),
                {
                    let ghost before = copies@;
                    assert(decreases_to!(*self => self->Array_0@[i as int]));
                    copies.push(items[i].copy());
                    assert(items_view(copies@) == items_view(before).push(items@[i as int]@));
                }
                proof {
                    lemma_array_view(*items);
                    lemma_array_view(copies);
                    assert(items_view(items@).take(items@.len() as int) == items_view(items@));
                }
                Value::Array(copies)
            },
            Value::Object(entries) => {
                let mut copies: Vec<(String, Value)> = Vec::new();
                for i in 0..entries.len()
                    invariant
                        *self == Value::Object(*entries),
                        entries_view(copies@) == entries_view(entries@).take(i as int),
                {
                    let ghost before = copies@;
                    assert(decreases_to!(*self => self->Object_0@[i as int].1));
                    copies.push((entries[i].0.clone(), entries[i].1.copy()));
                    assert(entries_view(copies@) == entries_view(before).push(
                        entries_view(entries@)[i as int],
                    ));
                }
                proof {
                    lemma_object_view(*entries);
                    lemma_object_view(copies);
                    assert(entries_view(entries@).take(entries@.len() as int) == entries_view(
                        entries@,
                    ));
                }
                Value::Object(copies)
            },
        }
    }

    /// Parses a text that spells one value.
    pub fn parse(input: &str) -> (outcome: Result<Value, String>)
        ensures
            match outcome {
                Ok(v) => parsed(input@) == Ok::<JsonView, Seq<char>>(v@),
                Err(m) => parsed(input@) == Err::<JsonView, Seq<char>>(m@),
            },
    {
        let chars = text::chars_of(input);
        let parser = Parser { chars: chars.as_slice() };
        match parser.parse_value(0) {
            Ok((value, end)) => {
                let end = parser.skip_ws(end);
                if end != chars.len() {
                    let mut m = text::owned("trailing data at byte ");
                    m.push_str(parser.offset(end).as_str());
                    return Err(m);
                }
                Ok(value)
            },
            Err(m) => Err(m),
        }
    }
}

/// Where the first entry with this key stands; the number of entries if none
/// has it.
fn entry_position(entries: &[(String, Value)], key: &str) -> (p: usize)
    ensures
        p == key_position(entries_view(entries@), key@),
        p <= entries@.len(),
{
    let ghost seen = entries_view(entries@);
    let ghost keys = seen.map_values(|e: (Seq<char>, JsonView)| e.0);
    let mut p: usize = 0;
    while p < entries.len() && !text::same_text(entries[p].0.as_str(), key)
        invariant
            p <= entries@.len(),
            seen == entries_view(entries@),
            keys == seen.map_values(|e: (Seq<char>, JsonView)| e.0),
            forall|i: int| 0 <= i < p ==> keys[i] != key@,
        decreases entries@.len() - p,
    {
        p = p + 1;
    }
    proof {
        text::lemma_position_unique(keys, key@, p as int);
    }
    p
}

impl Clone for Value {
    fn clone(&self) -> (copy: Value)
        ensures
            copy@ == self@,
    {
        self.copy()
    }
}

impl From<bool> for Value {
    fn from(b: bool) -> (v: Self) {
        Value::Bool(b)
    }
}

impl vstd::std_specs::convert::FromSpecImpl<bool> for Value {
    open spec fn obeys_from_spec() -> bool {
        true
    }

    open spec fn from_spec(b: bool) -> Value {
        Value::Bool(b)
    }
}

impl From<String> for Value {
    fn from(s: String) -> (v: Self) {
        Value::String(s)
    }
}

impl vstd::std_specs::convert::FromSpecImpl<String> for Value {
    open spec fn obeys_from_spec() -> bool {
        true
    }

    open spec fn from_spec(s: String) -> Value {
        Value::String(s)
    }
}

impl From<Vec<Value>> for Value {
    fn from(items: Vec<Value>) -> (v: Self) {
        Value::Array(items)
    }
}

impl vstd::std_specs::convert::FromSpecImpl<Vec<Value>> for Value {
    open spec fn obeys_from_spec() -> bool {
        true
    }

    open spec fn from_spec(items: Vec<Value>) -> Value {
        Value::Array(items)
    }
}

impl From<&str> for Value {
    fn from(s: &str) -> (v: Self)
        ensures
            v@ == JsonView::Text(s@),
    {
        Value::String(text::owned(s))
    }
}

impl vstd::std_specs::convert::FromSpecImpl<&str> for Value {
    open spec fn obeys_from_spec() -> bool {
        false
    }

    open spec fn from_spec(s: &str) -> Value {
        Value::Null
    }
}

impl<T: Into<Value>> From<Option<T>> for Value {
    fn from(value: Option<T>) -> (v: Self)
        ensures
            value is None ==> v == Value::Null,
            value matches Some(x) ==> call_ensures(<T as Into<Value>>::into, (x,), v),
    {
        match value {
            Some(x) => x.into(),
            None => Value::Null,
        }
    }
}

impl<T: Into<Value>> vstd::std_specs::convert::FromSpecImpl<Option<T>> for Value {
    open spec fn obeys_from_spec() -> bool {
        false
    }

    open spec fn from_spec(value: Option<T>) -> Value {
        Value::Null
    }
}

impl From<i8> for Value {
    fn from(n: i8) -> (v: Self)
        ensures
            v@ == JsonView::Number(text::signed_decimal(n as int)),
    {
        Value::Number(Number::of_signed(n as i128))
    }
}

impl vstd::std_specs::convert::FromSpecImpl<i8> for Value {
    open spec fn obeys_from_spec() -> bool {
        false
    }

    open spec fn from_spec(n: i8) -> Value {
        Value::Null
    }
}

impl From<i16> for Value {
    fn from(n: i16) -> (v: Self)
        ensures
            v@ == JsonView::Number(text::signed_decimal(n as int)),
    {
        Value::Number(Number::of_signed(n as i128))
    }
}

impl vstd::std_specs::convert::FromSpecImpl<i16> for Value {
    open spec fn obeys_from_spec() -> bool {
        false
    }

    open spec fn from_spec(n: i16) -> Value {
        Value::Null
    }
}

impl From<i32> for Value {
    fn from(n: i32) -> (v: Self)
        ensures
            v@ == JsonView::Number(text::signed_decimal(n as int)),
    {
        Value::Number(Number::of_signed(n as i128))
    }
}

impl vstd::std_specs::convert::FromSpecImpl<i32> for Value {
    open spec fn obeys_from_spec() -> bool {
        false
    }

    open spec fn from_spec(n: i32) -> Value {
        Value::Null
    }
}

impl From<i64> for Value {
    fn from(n: i64) -> (v: Self)
        ensures
            v@ == JsonView::Number(text::signed_decimal(n as int)),
    {
        Value::Number(Number::of_signed(n as i128))
    }
}

impl vstd::std_specs::convert::FromSpecImpl<i64> for Value {
    open spec fn obeys_from_spec() -> bool {
        false
    }

    open spec fn from_spec(n: i64) -> Value {
        Value::Null
    }
}

impl From<isize> for Value {
    fn from(n: isize) -> (v: Self)
        ensures
            v@ == JsonView::Number(text::signed_decimal(n as int)),
    {
        Value::Number(Number::of_signed(n as i128))
    }
}

impl vstd::std_specs::convert::FromSpecImpl<isize> for Value {
    open spec fn obeys_from_spec() -> bool {
        false
    }

    open spec fn from_spec(n: isize) -> Value {
        Value::Null
    }
}

impl From<u8> for Value {
    fn from(n: u8) -> (v: Self)
        ensures
            v@ == JsonView::Number(text::decimal(n as nat)),
    {
        Value::Number(Number::of_unsigned(n as u128))
    }
}

impl vstd::std_specs::convert::FromSpecImpl<u8> for Value {
    open spec fn obeys_from_spec() -> bool {
        false
    }

    open spec fn from_spec(n: u8) -> Value {
        Value::Null
    }
}

impl From<u16> for Value {
    fn from(n: u16) -> (v: Self)
        ensures
            v@ == JsonView::Number(text::decimal(n as nat)),
    {
        Value::Number(Number::of_unsigned(n as u128))
    }
}

impl vstd::std_specs::convert::FromSpecImpl<u16> for Value {
    open spec fn obeys_from_spec() -> bool {
        false
    }

    open spec fn from_spec(n: u16) -> Value {
        Value::Null
    }
}

impl From<u32> for Value {
    fn from(n: u32) -> (v: Self)
        ensures
            v@ == JsonView::Number(text::decimal(n as nat)),
    {
        Value::Number(Number::of_unsigned(n as u128))
    }
}

impl vstd::std_specs::convert::FromSpecImpl<u32> for Value {
    open spec fn obeys_from_spec() -> bool {
        false
    }

    open spec fn from_spec(n: u32) -> Value {
        Value::Null
    }
}

impl From<u64> for Value {
    fn from(n: u64) -> (v: Self)
        ensures
            v@ == JsonView::Number(text::decimal(n as nat)),
    {
        Value::Number(Number::of_unsigned(n as u128))
    }
}

impl vstd::std_specs::convert::FromSpecImpl<u64> for Value {
    open spec fn obeys_from_spec() -> bool {
        false
    }

    open spec fn from_spec(n: u64) -> Value {
        Value::Null
    }
}

impl From<usize> for Value {
    fn from(n: usize) -> (v: Self)
        ensures
            v@ == JsonView::Number(text::decimal(n as nat)),
    {
        Value::Number(Number::of_unsigned(n as u128))
    }
}

impl vstd::std_specs::convert::FromSpecImpl<usize> for Value {
    open spec fn obeys_from_spec() -> bool {
        false
    }

    open spec fn from_spec(n: usize) -> Value {
        Value::Null
    }
}

} // verus!

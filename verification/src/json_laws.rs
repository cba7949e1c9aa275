//! What the JSON parser and the JSON serializer promise together.

use crate::json;
use crate::json::JsonView;
use crate::text;
use vstd::prelude::*;

verus! {

/// Whether no two entries have the same key.
pub open spec fn keys_distinct(entries: Seq<(Seq<char>, JsonView)>) -> bool {
    forall|i: int, j: int| 0 <= i < j < entries.len() ==> entries[i].0 != entries[j].0
}

/// Whether a value is one that a text can spell: its numbers are number
/// literals, and no object in it has a key twice.
pub open spec fn can_be_spelled(v: JsonView) -> bool
    decreases v,
{
    match v {
        JsonView::Number(n) => json::is_number_literal(n),
        JsonView::Array(items) => forall|i: int|
            0 <= i < items.len() ==> can_be_spelled(#[trigger] items[i]),
        JsonView::Object(entries) => keys_distinct(entries) && forall|i: int|
            0 <= i < entries.len() ==> can_be_spelled((#[trigger] entries[i]).1),
        _ => true,
    }
}

/// Whether `s` holds `part` at `i`.
pub open spec fn holds_at(s: Seq<char>, i: int, part: Seq<char>) -> bool {
    0 <= i && i + part.len() <= s.len() && s.subrange(i, i + part.len()) == part
}

/// Whether nothing that could belong to a value stands at `i`.
pub open spec fn value_ends(s: Seq<char>, i: int) -> bool {
    i == s.len() || (0 <= i < s.len() && (s[i] == ',' || s[i] == ']' || s[i] == '}'
        || json::is_blank(s[i])))
}

pub proof fn lemma_holds_split(s: Seq<char>, i: int, a: Seq<char>, b: Seq<char>)
    requires
        holds_at(s, i, a + b),
    ensures
        holds_at(s, i, a),
        holds_at(s, i + a.len(), b),
{
    let whole = s.subrange(i, i + (a + b).len());
    assert(whole.take(a.len() as int) == a);
    assert(whole.skip(a.len() as int) == b);
    assert(s.subrange(i, i + a.len()) == whole.take(a.len() as int));
    assert(s.subrange(i + a.len(), i + a.len() + b.len()) == whole.skip(a.len() as int));
}

pub proof fn lemma_holds_char(s: Seq<char>, i: int, part: Seq<char>, k: int)
    requires
        holds_at(s, i, part),
        0 <= k < part.len(),
    ensures
        s[i + k] == part[k],
{
    assert(s.subrange(i, i + part.len())[k] == part[k]);
}

proof fn lemma_hex_digit(d: nat)
    requires
        d < 16,
    ensures
        text::digit_value(json::hex_digit(d), 16) == Some(d),
        json::hex_digit(d) != '+',
{
}

/// A spelled character reads back.
proof fn lemma_escaped_back(s: Seq<char>, i: int, c: char, done: Seq<char>)
    requires
        holds_at(s, i, json::escaped(c)),
    ensures
        json::string_rest(s, i, done) == json::string_rest(
            s,
            i + json::escaped(c).len(),
            done.push(c),
        ),
{
    let e = json::escaped(c);
    assert forall|k: int| 0 <= k < e.len() implies s[i + k] == e[k] by {
        lemma_holds_char(s, i, e, k);
    }
    assert(s[i + 0] == e[0]);
    if e.len() > 1 {
        assert(s[i + 1] == e[1]);
    }
    if c != '"' && c != '\\' && c != '\n' && c != '\r' && c != '\t' && (c as u32) < 0x20 {
        let high = (c as u32 / 16) as nat;
        let low = (c as u32 % 16) as nat;
        let rest = s.skip(i + 2);
        assert(s[i + 2] == '0' && s[i + 3] == '0');
        assert(s[i + 4] == json::hex_digit(high));
        assert(s[i + 5] == json::hex_digit(low));
        text::lemma_encode_at_least(rest);
        let four = rest.take(4);
        assert(four == seq!['0', '0', json::hex_digit(high), json::hex_digit(low)]);
        lemma_hex_digit(high);
        lemma_hex_digit(low);
        assert(text::digits_value(four, 16) == Some(c as u32 as nat)) by {
            let three = four.drop_last();
            let two = three.drop_last();
            let one = two.drop_last();
            let none = one.drop_last();
            assert(text::digits_value(none, 16) == Some(0nat));
            assert(text::digits_value(one, 16) == Some(0nat));
            assert(text::digits_value(two, 16) == Some(0nat));
            assert(text::digits_value(three, 16) == Some(high));
        }
        vstd::utf8::char_u32_cast(c, c as u32);
        assert(json::unicode_escape(s, i + 2) == Ok::<(char, int), Seq<char>>((c, i + 6)));
    }
}

proof fn lemma_escaped_text_first(t: Seq<char>)
    requires
        t.len() > 0,
    ensures
        json::escaped_text(t) == json::escaped(t[0]) + json::escaped_text(t.skip(1)),
    decreases t.len(),
{
    if t.len() == 1 {
        assert(t.drop_last() == Seq::<char>::empty());
        assert(t.skip(1) == Seq::<char>::empty());
    } else {
        lemma_escaped_text_first(t.drop_last());
        assert(t.drop_last().skip(1) == t.skip(1).drop_last());
    }
}

/// A spelled text reads back, up to its closing quote.
proof fn lemma_string_rest_back(s: Seq<char>, i: int, t: Seq<char>, done: Seq<char>)
    requires
        holds_at(s, i, json::escaped_text(t) + seq!['"']),
    ensures
        json::string_rest(s, i, done) == Ok::<(Seq<char>, int), Seq<char>>(
            (done + t, i + json::escaped_text(t).len() + 1),
        ),
    decreases t.len(),
{
    if t.len() == 0 {
        assert(json::escaped_text(t) + seq!['"'] == seq!['"']);
        lemma_holds_char(s, i, seq!['"'], 0);
        assert(done + t == done);
    } else {
        let e = json::escaped(t[0]);
        let tail = json::escaped_text(t.skip(1)) + seq!['"'];
        lemma_escaped_text_first(t);
        assert(json::escaped_text(t) + seq!['"'] == e + tail);
        lemma_holds_split(s, i, e, tail);
        lemma_escaped_back(s, i, t[0], done);
        lemma_string_rest_back(s, i + e.len(), t.skip(1), done.push(t[0]));
        assert(done.push(t[0]) + t.skip(1) == done + t);
    }
}

pub proof fn lemma_string_back(s: Seq<char>, i: int, t: Seq<char>)
    requires
        holds_at(s, i, json::quoted(t)),
    ensures
        json::string_at(s, i) == Ok::<(Seq<char>, int), Seq<char>>(
            (t, i + json::quoted(t).len()),
        ),
{
    let inner = json::escaped_text(t) + seq!['"'];
    assert(json::quoted(t) == seq!['"'] + inner);
    lemma_holds_split(s, i, seq!['"'], inner);
    lemma_holds_char(s, i, seq!['"'], 0);
    lemma_string_rest_back(s, i + 1, t, seq![]);
    assert(Seq::<char>::empty() + t == t);
}

/// A text that is written as a string literal is read back from it, wherever
/// the literal stands and whatever follows it, and the reading ends where the
/// literal does.
pub proof fn law_written_string_reads_back(before: Seq<char>, t: Seq<char>, after: Seq<char>)
    ensures
        json::string_at(before + json::quoted(t) + after, before.len() as int) == Ok::<
            (Seq<char>, int),
            Seq<char>,
        >((t, (before.len() + json::quoted(t).len()) as int)),
{
    let s = before + json::quoted(t) + after;
    let i = before.len() as int;
    assert(s.subrange(i, i + json::quoted(t).len()) =~= json::quoted(t));
    lemma_string_back(s, i, t);
}

/// Skipping digits looks no further than the first character that is none.
proof fn lemma_skip_digits_local(s: Seq<char>, i: int, t: Seq<char>, k: int)
    requires
        holds_at(s, i, t),
        value_ends(s, i + t.len()),
        0 <= k <= t.len(),
    ensures
        json::skip_digits(s, i + k) == i + json::skip_digits(t, k),
    decreases t.len() - k,
{
    if k < t.len() {
        lemma_holds_char(s, i, t, k);
        if json::is_digit(t[k]) {
            lemma_skip_digits_local(s, i, t, k + 1);
        }
    }
}

proof fn lemma_char_at_local(s: Seq<char>, i: int, t: Seq<char>, k: int)
    requires
        holds_at(s, i, t),
        value_ends(s, i + t.len()),
        0 <= k <= t.len(),
    ensures
        k < t.len() ==> json::char_at(s, i + k) == json::char_at(t, k),
        k == t.len() ==> json::char_at(t, k) is None && (json::char_at(s, i + k) is None || (
        json::char_at(s, i + k) matches Some(c) && (c == ',' || c == ']' || c == '}'
            || json::is_blank(c)))),
{
    if k < t.len() {
        lemma_holds_char(s, i, t, k);
    }
}

/// A number literal reads back.
pub proof fn lemma_number_back(s: Seq<char>, i: int, t: Seq<char>)
    requires
        holds_at(s, i, t),
        value_ends(s, i + t.len()),
        json::is_number_literal(t),
    ensures
        json::number_at(s, i) == Ok::<(JsonView, int), Seq<char>>(
            (JsonView::Number(t), i + t.len()),
        ),
{
    json::lemma_number_end(t, 0);
    lemma_char_at_local(s, i, t, 0);
    assert(json::sign_end(s, i) == i + json::sign_end(t, 0));
    lemma_skip_digits_local(s, i, t, json::sign_end(t, 0));
    let w = json::whole_end(t, 0);
    assert(json::whole_end(s, i) == i + w);
    lemma_char_at_local(s, i, t, w);
    if json::char_at(t, w) == Some('.') {
        lemma_skip_digits_local(s, i, t, w + 1);
    }
    let f = json::fraction_end(t, 0);
    assert(json::fraction_end(s, i) == i + f);
    lemma_char_at_local(s, i, t, f);
    assert(json::has_exponent(s, i) == json::has_exponent(t, 0));
    if json::has_exponent(t, 0) {
        lemma_char_at_local(s, i, t, f + 1);
        assert(json::exponent_start(s, i) == i + json::exponent_start(t, 0));
        lemma_skip_digits_local(s, i, t, json::exponent_start(t, 0));
    }
}

/// The text of a value starts with a character that neither separates nor
/// closes.
proof fn lemma_rendered_start(v: JsonView)
    requires
        can_be_spelled(v),
    ensures
        json::rendered(v).len() > 0,
        ({
            let c = json::rendered(v)[0];
            !json::is_blank(c) && c != ']' && c != '}' && c != ','
        }),
{
    reveal_strlit("null");
    reveal_strlit("true");
    reveal_strlit("false");
}

/// Each stretch of joined parts is a prefix of the whole, and the separator
/// follows it.
proof fn lemma_joined_prefix(parts: Seq<Seq<char>>, sep: char, k: int)
    requires
        0 < k <= parts.len(),
    ensures
        ({
            let whole = text::joined(parts, seq![sep]);
            let front = text::joined(parts.take(k), seq![sep]);
            &&& front.len() <= whole.len()
            &&& whole.take(front.len() as int) == front
            &&& k < parts.len() ==> front.len() < whole.len() && whole[front.len() as int] == sep
        }),
    decreases parts.len() - k,
{
    let whole = text::joined(parts, seq![sep]);
    let front = text::joined(parts.take(k), seq![sep]);
    if k == parts.len() {
        assert(parts.take(k) == parts);
        assert(whole.take(front.len() as int) == front);
    } else {
        lemma_joined_prefix(parts, sep, k + 1);
        text::lemma_joined_next(parts, seq![sep], k);
        let longer = text::joined(parts.take(k + 1), seq![sep]);
        assert(longer == front + seq![sep] + parts[k]);
        assert(whole.take(longer.len() as int)[front.len() as int] == sep);
        assert(whole.take(front.len() as int) == whole.take(longer.len() as int).take(
            front.len() as int,
        ));
        assert(longer.take(front.len() as int) == front);
    }
}

/// Where part `k` starts among the joined parts.
pub open spec fn part_start(parts: Seq<Seq<char>>, k: int) -> int {
    if k == 0 {
        0
    } else {
        text::joined(parts.take(k), seq![',']).len() + 1int
    }
}

/// Each joined part stands where its predecessors end, and what follows it
/// separates or closes.
pub proof fn lemma_part_holds(s: Seq<char>, i: int, parts: Seq<Seq<char>>, close: char, k: int)
    requires
        holds_at(s, i, text::joined(parts, seq![',']) + seq![close]),
        0 <= k < parts.len(),
    ensures
        ({
            let start = i + part_start(parts, k);
            let end = start + parts[k].len();
            &&& holds_at(s, start, parts[k])
            &&& end < s.len()
            &&& s[end] == if k + 1 < parts.len() {
                ','
            } else {
                close
            }
            &&& k + 1 < parts.len() ==> end + 1 == i + part_start(parts, k + 1)
            &&& k + 1 == parts.len() ==> end == i + text::joined(parts, seq![',']).len()
        }),
{
    let sep = seq![','];
    let whole = text::joined(parts, sep);
    let front = text::joined(parts.take(k + 1), sep);
    lemma_holds_split(s, i, whole, seq![close]);
    lemma_holds_char(s, i + whole.len(), seq![close], 0);
    lemma_joined_prefix(parts, ',', k + 1);
    text::lemma_joined_next(parts, sep, k);
    assert(parts.take(parts.len() as int) == parts);
    assert(whole == front + whole.skip(front.len() as int));
    lemma_holds_split(s, i, front, whole.skip(front.len() as int));
    if k + 1 < parts.len() {
        lemma_holds_char(s, i, whole, front.len() as int);
    }
    if k == 0 {
        assert(front == parts[0]);
    } else {
        lemma_holds_split(s, i, text::joined(parts.take(k), sep) + sep, parts[k]);
    }
}

/// The text of a value reads back as that value, wherever it stands.
#[verifier::rlimit(60)]
#[verifier::spinoff_prover]
proof fn lemma_value_back(s: Seq<char>, i: int, v: JsonView)
    requires
        can_be_spelled(v),
        holds_at(s, i, json::rendered(v)),
        value_ends(s, i + json::rendered(v).len()),
    ensures
        json::value_at(s, i) == Ok::<(JsonView, int), Seq<char>>((v, i + json::rendered(v).len())),
    decreases v, 1int,
{
    let r = json::rendered(v);
    lemma_rendered_start(v);
    lemma_holds_char(s, i, r, 0);
    assert(json::skip_blanks(s, i) == i);
    match v {
        JsonView::Null => {
            reveal_strlit("null");
            assert(s.skip(i).take(4) == s.subrange(i, i + 4));
        },
        JsonView::Bool(b) => {
            reveal_strlit("true");
            reveal_strlit("false");
            assert(s.skip(i).take(r.len() as int) == s.subrange(i, i + r.len()));
        },
        JsonView::Number(n) => {
            lemma_number_back(s, i, n);
        },
        JsonView::Text(t) => {
            lemma_string_back(s, i, t);
        },
        JsonView::Array(items) => {
            let parts = json::item_texts(items);
            json::lemma_item_texts(items);
            let rest = text::joined(parts, seq![',']) + seq![']'];
            assert(r == seq!['['] + rest);
            lemma_holds_split(s, i, seq!['['], rest);
            if items.len() == 0 {
                assert(rest == seq![']']);
                lemma_holds_char(s, i + 1, rest, 0);
                assert(json::skip_blanks(s, i + 1) == i + 1);
                assert(items == Seq::<JsonView>::empty());
            } else {
                lemma_part_holds(s, i + 1, parts, ']', 0);
                lemma_rendered_start(items[0]);
                lemma_holds_char(s, i + 1, parts[0], 0);
                assert(json::skip_blanks(s, i + 1) == i + 1);
                lemma_items_back(s, i + 1, items, 0);
                assert(items.take(0) == Seq::<JsonView>::empty());
            }
        },
        JsonView::Object(entries) => {
            let parts = json::entry_texts(entries);
            json::lemma_entry_texts(entries);
            let rest = text::joined(parts, seq![',']) + seq!['}'];
            assert(r == seq!['{'] + rest);
            lemma_holds_split(s, i, seq!['{'], rest);
            if entries.len() == 0 {
                assert(rest == seq!['}']);
                lemma_holds_char(s, i + 1, rest, 0);
                assert(json::skip_blanks(s, i + 1) == i + 1);
                assert(entries == Seq::<(Seq<char>, JsonView)>::empty());
            } else {
                lemma_part_holds(s, i + 1, parts, '}', 0);
                assert(parts[0][0] == '"');
                lemma_holds_char(s, i + 1, parts[0], 0);
                assert(json::skip_blanks(s, i + 1) == i + 1);
                lemma_entries_back(s, i + 1, entries, 0);
                assert(entries.take(0) == Seq::<(Seq<char>, JsonView)>::empty());
            }
        },
    }
}

#[verifier::rlimit(60)]
#[verifier::spinoff_prover]
proof fn lemma_items_back(s: Seq<char>, i: int, items: Seq<JsonView>, k: int)
    requires
        0 <= k < items.len(),
        forall|j: int| 0 <= j < items.len() ==> can_be_spelled(#[trigger] items[j]),
        holds_at(s, i, text::joined(json::item_texts(items), seq![',']) + seq![']']),
    ensures
        json::items_at(s, i + part_start(json::item_texts(items), k), items.take(k)) == Ok::<
            (JsonView, int),
            Seq<char>,
        >(
            (
                JsonView::Array(items),
                i + text::joined(json::item_texts(items), seq![',']).len() + 1,
            ),
        ),
    decreases items, items.len() - k,
{
    let parts = json::item_texts(items);
    json::lemma_item_texts(items);
    lemma_part_holds(s, i, parts, ']', k);
    let start = i + part_start(parts, k);
    let end = start + parts[k].len();
    lemma_value_back(s, start, items[k]);
    assert(json::skip_blanks(s, end) == end);
    assert(items.take(k).push(items[k]) == items.take(k + 1));
    if k + 1 < items.len() {
        lemma_items_back(s, i, items, k + 1);
    } else {
        assert(items.take(k + 1) == items);
    }
}

pub proof fn lemma_without_absent_key(entries: Seq<(Seq<char>, JsonView)>, key: Seq<char>)
    requires
        forall|j: int| 0 <= j < entries.len() ==> (#[trigger] entries[j]).0 != key,
    ensures
        json::without_key(entries, key) == entries,
    decreases entries.len(),
{
    if entries.len() > 0 {
        let front = entries.drop_last();
        assert forall|j: int| 0 <= j < front.len() implies (#[trigger] front[j]).0 != key by {
            assert(front[j] == entries[j]);
        }
        lemma_without_absent_key(front, key);
        assert(entries[entries.len() - 1].0 != key);
        assert(front.push(entries.last()) == entries);
    }
}

/// What an array is after one more item.
#[verifier::rlimit(60)]
#[verifier::spinoff_prover]
pub proof fn lemma_item_step(
    s: Seq<char>,
    i: int,
    done: Seq<JsonView>,
    v: JsonView,
    end: int,
    next: int,
)
    requires
        json::value_at(s, i) == Ok::<(JsonView, int), Seq<char>>((v, end)),
        json::skip_blanks(s, end) == next,
        0 <= i <= next < s.len(),
    ensures
        s[next] == ',' ==> json::items_at(s, i, done) == json::items_at(s, next + 1, done.push(v)),
        s[next] == ']' ==> json::items_at(s, i, done) == Ok::<(JsonView, int), Seq<char>>(
            (JsonView::Array(done.push(v)), next + 1),
        ),
{
}

/// What an object is after one more entry.
#[verifier::rlimit(60)]
#[verifier::spinoff_prover]
pub proof fn lemma_entry_step(
    s: Seq<char>,
    i: int,
    done: Seq<(Seq<char>, JsonView)>,
    key: Seq<char>,
    key_end: int,
    v: JsonView,
    end: int,
    next: int,
)
    requires
        json::string_at(s, json::skip_blanks(s, i)) == Ok::<(Seq<char>, int), Seq<char>>(
            (key, key_end),
        ),
        json::char_at(s, json::skip_blanks(s, key_end)) == Some(':'),
        json::value_at(s, json::skip_blanks(s, key_end) + 1) == Ok::<(JsonView, int), Seq<char>>(
            (v, end),
        ),
        json::skip_blanks(s, end) == next,
        0 <= i <= next < s.len(),
    ensures
        ({
            let now = json::without_key(done, key).push((key, v));
            &&& s[next] == ',' ==> json::entries_at(s, i, done) == json::entries_at(
                s,
                next + 1,
                now,
            )
            &&& s[next] == '}' ==> json::entries_at(s, i, done) == Ok::<(JsonView, int), Seq<char>>(
                (JsonView::Object(now), next + 1),
            )
        }),
{
}

/// An array or an object that is not empty is read from its first element on.
#[verifier::rlimit(60)]
#[verifier::spinoff_prover]
pub proof fn lemma_opening_step(s: Seq<char>, i: int, first: int)
    requires
        json::skip_blanks(s, i) == i,
        0 <= i < s.len(),
        json::skip_blanks(s, i + 1) == first,
        0 <= first < s.len(),
    ensures
        s[i] == '[' && s[first] != ']' ==> json::value_at(s, i) == json::items_at(s, first, seq![]),
        s[i] == '{' && s[first] != '}' ==> json::value_at(s, i) == json::entries_at(
            s,
            first,
            seq![],
        ),
{
}

#[verifier::rlimit(60)]
#[verifier::spinoff_prover]
proof fn lemma_entries_back(s: Seq<char>, i: int, entries: Seq<(Seq<char>, JsonView)>, k: int)
    requires
        0 <= k < entries.len(),
        keys_distinct(entries),
        forall|j: int| 0 <= j < entries.len() ==> can_be_spelled((#[trigger] entries[j]).1),
        holds_at(s, i, text::joined(json::entry_texts(entries), seq![',']) + seq!['}']),
    ensures
        json::entries_at(s, i + part_start(json::entry_texts(entries), k), entries.take(k)) == Ok::<
            (JsonView, int),
            Seq<char>,
        >(
            (
                JsonView::Object(entries),
                i + text::joined(json::entry_texts(entries), seq![',']).len() + 1,
            ),
        ),
    decreases entries, entries.len() - k,
{
    let parts = json::entry_texts(entries);
    json::lemma_entry_texts(entries);
    lemma_part_holds(s, i, parts, '}', k);
    let start = i + part_start(parts, k);
    let end = start + parts[k].len();
    let (key, v) = entries[k];
    let name = json::quoted(key);
    assert(parts[k] == name + seq![':'] + json::rendered(v));
    lemma_holds_split(s, start, name + seq![':'], json::rendered(v));
    lemma_holds_split(s, start, name, seq![':']);
    lemma_holds_char(s, start, name, 0);
    lemma_holds_char(s, start + name.len(), seq![':'], 0);
    assert(json::skip_blanks(s, start) == start);
    lemma_string_back(s, start, key);
    let colon = start + name.len();
    assert(json::skip_blanks(s, colon) == colon);
    lemma_value_back(s, colon + 1, v);
    assert(json::skip_blanks(s, end) == end);
    let done = entries.take(k);
    assert forall|j: int| 0 <= j < done.len() implies (#[trigger] done[j]).0 != key by {
        assert(done[j] == entries[j]);
    }
    lemma_without_absent_key(done, key);
    assert(done.push((key, v)) == entries.take(k + 1));
    lemma_entry_step(s, start, done, key, colon, v, end, end);
    if k + 1 < entries.len() {
        lemma_entries_back(s, i, entries, k + 1);
    } else {
        assert(entries.take(k + 1) == entries);
    }
}

/// Parsing the serialized form of a value gives that value back, for every
/// value whose numbers are number literals and whose objects have no key
/// twice.
pub proof fn law_parse_undoes_rendering(v: JsonView)
    requires
        can_be_spelled(v),
    ensures
        json::parsed(json::rendered(v)) == Ok::<JsonView, Seq<char>>(v),
{
    let s = json::rendered(v);
    assert(s.subrange(0, s.len() as int) == s);
    lemma_value_back(s, 0, v);
}

proof fn lemma_value_spelled(s: Seq<char>, i: int)
    requires
        0 <= i,
    ensures
        json::value_at(s, i) matches Ok((v, _)) ==> can_be_spelled(v),
    decreases s.len() - i, 1int,
{
    let start = json::skip_blanks(s, i);
    json::lemma_skip_blanks(s, i);
    match json::char_at(s, start) {
        Some('{') => {
            let first = json::skip_blanks(s, start + 1);
            json::lemma_skip_blanks(s, start + 1);
            if json::char_at(s, first) != Some('}') {
                lemma_entries_spelled(s, first, seq![]);
            }
        },
        Some('[') => {
            let first = json::skip_blanks(s, start + 1);
            json::lemma_skip_blanks(s, start + 1);
            if json::char_at(s, first) != Some(']') {
                lemma_items_spelled(s, first, seq![]);
            }
        },
        Some(c) => {
            if c == '-' || json::is_digit(c) {
                if json::number_complete(s, start) {
                    json::lemma_number_is_literal(s, start);
                }
            }
        },
        None => {},
    }
}

proof fn lemma_items_spelled(s: Seq<char>, i: int, done: Seq<JsonView>)
    requires
        0 <= i,
        forall|j: int| 0 <= j < done.len() ==> can_be_spelled(#[trigger] done[j]),
    ensures
        json::items_at(s, i, done) matches Ok((v, _)) ==> can_be_spelled(v),
    decreases s.len() - i, 2int,
{
    lemma_value_spelled(s, i);
    json::lemma_value_at(s, i);
    if let Ok((v, end)) = json::value_at(s, i) {
        let next = json::skip_blanks(s, end);
        json::lemma_skip_blanks(s, end);
        if json::char_at(s, next) == Some(',') {
            lemma_items_spelled(s, next + 1, done.push(v));
        }
    }
}

proof fn lemma_without_key(entries: Seq<(Seq<char>, JsonView)>, key: Seq<char>)
    requires
        keys_distinct(entries),
        forall|j: int| 0 <= j < entries.len() ==> can_be_spelled((#[trigger] entries[j]).1),
    ensures
        ({
            let rest = json::without_key(entries, key);
            &&& keys_distinct(rest)
            &&& forall|j: int| 0 <= j < rest.len() ==> can_be_spelled((#[trigger] rest[j]).1)
            &&& forall|j: int| 0 <= j < rest.len() ==> (#[trigger] rest[j]).0 != key
            &&& forall|j: int|
                0 <= j < rest.len() ==> exists|m: int|
                    0 <= m < entries.len() && entries[m] == (#[trigger] rest[j])
        }),
    decreases entries.len(),
{
    if entries.len() > 0 {
        let front = entries.drop_last();
        let last = entries.last();
        assert forall|j: int| 0 <= j < front.len() implies can_be_spelled(
            (#[trigger] front[j]).1,
        ) by {
            assert(front[j] == entries[j]);
        }
        lemma_without_key(front, key);
        let kept = json::without_key(front, key);
        let rest = json::without_key(entries, key);
        assert forall|j: int| 0 <= j < rest.len() implies exists|m: int|
            0 <= m < entries.len() && entries[m] == (#[trigger] rest[j]) by {
            if j < kept.len() {
                assert(rest[j] == kept[j]);
                let m = choose|m: int| 0 <= m < front.len() && front[m] == kept[j];
                assert(entries[m] == rest[j]);
            } else {
                assert(entries[entries.len() - 1] == rest[j]);
            }
        }
        if last.0 != key {
            assert forall|a: int, b: int| 0 <= a < b < rest.len() implies rest[a].0 != rest[b].0 by {
                assert(rest[a] == kept[a]);
                if b < kept.len() {
                    assert(rest[b] == kept[b]);
                } else {
                    let m = choose|m: int| 0 <= m < front.len() && front[m] == kept[a];
                    assert(entries[m] == kept[a]);
                    assert(entries[entries.len() - 1] == last);
                }
            }
            assert forall|j: int| 0 <= j < rest.len() implies can_be_spelled(
                (#[trigger] rest[j]).1,
            ) by {
                if j < kept.len() {
                    assert(rest[j] == kept[j]);
                } else {
                    assert(entries[entries.len() - 1] == last);
                }
            }
        }
    }
}

proof fn lemma_entries_spelled(s: Seq<char>, i: int, done: Seq<(Seq<char>, JsonView)>)
    requires
        0 <= i,
        keys_distinct(done),
        forall|j: int| 0 <= j < done.len() ==> can_be_spelled((#[trigger] done[j]).1),
    ensures
        json::entries_at(s, i, done) matches Ok((v, _)) ==> can_be_spelled(v),
    decreases s.len() - i, 2int,
{
    json::lemma_skip_blanks(s, i);
    json::lemma_string_at(s, json::skip_blanks(s, i));
    if let Ok((key, key_end)) = json::string_at(s, json::skip_blanks(s, i)) {
        let colon = json::skip_blanks(s, key_end);
        json::lemma_skip_blanks(s, key_end);
        if json::char_at(s, colon) == Some(':') {
            lemma_value_spelled(s, colon + 1);
            json::lemma_value_at(s, colon + 1);
            if let Ok((v, end)) = json::value_at(s, colon + 1) {
                lemma_without_key(done, key);
                let kept = json::without_key(done, key);
                let now = kept.push((key, v));
                assert forall|a: int, b: int| 0 <= a < b < now.len() implies now[a].0
                    != now[b].0 by {
                    assert(now[a] == kept[a]);
                    if b < kept.len() {
                        assert(now[b] == kept[b]);
                    }
                }
                let next = json::skip_blanks(s, end);
                json::lemma_skip_blanks(s, end);
                if json::char_at(s, next) == Some(',') {
                    lemma_entries_spelled(s, next + 1, now);
                }
            }
        }
    }
}

/// Every value that the parser gives is one that a text can spell, so that
/// serializing and parsing it again gives the same value.
pub proof fn law_parsed_value_reads_back(s: Seq<char>)
    ensures
        json::parsed(s) matches Ok(v) ==> can_be_spelled(v) && json::parsed(json::rendered(v))
            == Ok::<JsonView, Seq<char>>(v),
{
    lemma_value_spelled(s, 0);
    if let Ok(v) = json::parsed(s) {
        law_parse_undoes_rendering(v);
    }
}

/// A hexadecimal digit, as a capital or a small letter where it is a letter.
pub open spec fn hex_char(d: int, capital: bool) -> char {
    if capital {
        "0123456789ABCDEF"@[d]
    } else {
        "0123456789abcdef"@[d]
    }
}

/// The four hexadecimal digits of a number below 0x10000; `capital` says which
/// of them are written with capital letters.
pub open spec fn hex_spelling(n: int, capital: spec_fn(int) -> bool) -> Seq<char> {
    seq![
        hex_char(n / 4096, capital(0)),
        hex_char(n / 256 % 16, capital(1)),
        hex_char(n / 16 % 16, capital(2)),
        hex_char(n % 16, capital(3)),
    ]
}

/// The escape `\u` and four hexadecimal digits.
pub open spec fn unicode_spelling(n: int, capital: spec_fn(int) -> bool) -> Seq<char> {
    seq!['\\', 'u'] + hex_spelling(n, capital)
}

proof fn lemma_hex_char(d: int, capital: bool)
    requires
        0 <= d < 16,
    ensures
        text::digit_value(hex_char(d, capital), 16) == Some(d as nat),
        hex_char(d, capital) != '+',
{
    reveal_strlit("0123456789ABCDEF");
    reveal_strlit("0123456789abcdef");
}

pub proof fn lemma_hex_spelling(s: Seq<char>, i: int, n: int, capital: spec_fn(int) -> bool)
    requires
        0 <= n < 0x10000,
        holds_at(s, i, hex_spelling(n, capital)),
    ensures
        json::hex4(s, i) == Ok::<nat, Seq<char>>(n as nat),
{
    let spelled = hex_spelling(n, capital);
    let rest = s.skip(i);
    let four = rest.take(4);
    assert(four == s.subrange(i, i + 4));
    assert(four == spelled);
    text::lemma_encode_at_least(rest);
    lemma_hex_char(n / 4096, capital(0));
    lemma_hex_char(n / 256 % 16, capital(1));
    lemma_hex_char(n / 16 % 16, capital(2));
    lemma_hex_char(n % 16, capital(3));
    let three = four.drop_last();
    let two = three.drop_last();
    let one = two.drop_last();
    assert(text::digits_value(one.drop_last(), 16) == Some(0nat));
    assert(text::digits_value(one, 16) == Some((n / 4096) as nat));
    assert(text::digits_value(two, 16) == Some((n / 256) as nat));
    assert(text::digits_value(three, 16) == Some((n / 16) as nat));
    assert(text::digits_value(four, 16) == Some(n as nat));
    assert(four[0] != '+');
}

/// For every character of the basic multilingual plane, `\u` and the four
/// hexadecimal digits of its code point stand for it, wherever they stand in a
/// string and in whatever case the digits are written.
#[verifier::rlimit(60)]
#[verifier::spinoff_prover]
pub proof fn law_unicode_escape_stands_for_its_character(
    before: Seq<char>,
    c: char,
    capital: spec_fn(int) -> bool,
    after: Seq<char>,
    done: Seq<char>,
)
    requires
        c as int <= 0xffff,
    ensures
        ({
            let s = before + unicode_spelling(c as int, capital) + after;
            json::string_rest(s, before.len() as int, done) == json::string_rest(
                s,
                before.len() as int + 6,
                done.push(c),
            )
        }),
{
    let escape = unicode_spelling(c as int, capital);
    let s = before + escape + after;
    let i = before.len() as int;
    assert(s.subrange(i, i + escape.len()) =~= escape);
    lemma_holds_split(s, i, seq!['\\', 'u'], hex_spelling(c as int, capital));
    lemma_holds_char(s, i, escape, 0);
    lemma_holds_char(s, i, escape, 1);
    lemma_hex_spelling(s, i + 2, c as int, capital);
    vstd::utf8::char_u32_cast(c, c as u32);
    assert(json::unicode_escape(s, i + 2) == Ok::<(char, int), Seq<char>>((c, i + 6)));
}

/// For every character beyond it, the two escapes of its surrogate pair stand
/// for it.
#[verifier::rlimit(60)]
#[verifier::spinoff_prover]
pub proof fn law_surrogate_pair_stands_for_its_character(
    before: Seq<char>,
    c: char,
    capital: spec_fn(int) -> bool,
    after: Seq<char>,
    done: Seq<char>,
)
    requires
        c as int > 0xffff,
    ensures
        ({
            let beyond = c as int - 0x10000;
            let high = unicode_spelling(0xD800 + beyond / 1024, capital);
            let low = unicode_spelling(0xDC00 + beyond % 1024, capital);
            let s = before + (high + low) + after;
            json::string_rest(s, before.len() as int, done) == json::string_rest(
                s,
                before.len() as int + 12,
                done.push(c),
            )
        }),
{
    let beyond = c as int - 0x10000;
    let (h, l) = (0xD800 + beyond / 1024, 0xDC00 + beyond % 1024);
    let high = unicode_spelling(h, capital);
    let low = unicode_spelling(l, capital);
    let s = before + (high + low) + after;
    let i = before.len() as int;
    assert(s.subrange(i, i + (high + low).len()) =~= high + low);
    lemma_holds_split(s, i, high, low);
    lemma_holds_split(s, i, seq!['\\', 'u'], hex_spelling(h, capital));
    lemma_holds_split(s, i + 6, seq!['\\', 'u'], hex_spelling(l, capital));
    lemma_holds_char(s, i, high, 0);
    lemma_holds_char(s, i, high, 1);
    lemma_holds_char(s, i + 6, low, 0);
    lemma_holds_char(s, i + 6, low, 1);
    lemma_hex_spelling(s, i + 2, h, capital);
    lemma_hex_spelling(s, i + 8, l, capital);
    assert(0x10000 + (h - 0xD800) * 1024 + (l - 0xDC00) == c as int);
    vstd::utf8::char_u32_cast(c, c as u32);
    assert(json::paired(h as nat, l as nat) == c);
    assert(json::unicode_escape(s, i + 2) == Ok::<(char, int), Seq<char>>((c, i + 12)));
}

/// A string that is one escape is the one character that the escape stands
/// for.
pub proof fn law_escaped_character_is_read(c: char, capital: spec_fn(int) -> bool)
    requires
        c as int <= 0xffff,
    ensures
        json::parsed(seq!['"'] + unicode_spelling(c as int, capital) + seq!['"']) == Ok::<
            JsonView,
            Seq<char>,
        >(JsonView::Text(seq![c])),
{
    let escape = unicode_spelling(c as int, capital);
    assert(escape.len() == 6);
    law_unicode_escape_stands_for_its_character(seq!['"'], c, capital, seq!['"'], seq![]);
    lemma_one_escape(escape, c);
}

/// So is one of a surrogate pair.
pub proof fn law_escaped_pair_is_read(c: char, capital: spec_fn(int) -> bool)
    requires
        c as int > 0xffff,
    ensures
        ({
            let beyond = c as int - 0x10000;
            json::parsed(
                seq!['"'] + (unicode_spelling(0xD800 + beyond / 1024, capital) + unicode_spelling(
                    0xDC00 + beyond % 1024,
                    capital,
                )) + seq!['"'],
            ) == Ok::<JsonView, Seq<char>>(JsonView::Text(seq![c]))
        }),
{
    let beyond = c as int - 0x10000;
    let escape = unicode_spelling(0xD800 + beyond / 1024, capital) + unicode_spelling(
        0xDC00 + beyond % 1024,
        capital,
    );
    assert(escape.len() == 12);
    law_surrogate_pair_stands_for_its_character(seq!['"'], c, capital, seq!['"'], seq![]);
    lemma_one_escape(escape, c);
}

#[verifier::rlimit(60)]
#[verifier::spinoff_prover]
proof fn lemma_one_escape(escape: Seq<char>, c: char)
    requires
        json::string_rest(seq!['"'] + escape + seq!['"'], 1, seq![]) == json::string_rest(
            seq!['"'] + escape + seq!['"'],
            escape.len() as int + 1,
            Seq::<char>::empty().push(c),
        ),
    ensures
        json::parsed(seq!['"'] + escape + seq!['"']) == Ok::<JsonView, Seq<char>>(
            JsonView::Text(seq![c]),
        ),
{
    let s = seq!['"'] + escape + seq!['"'];
    assert(s[0] == '"');
    assert(s[s.len() - 1] == '"');
    assert(json::skip_blanks(s, 0) == 0);
    assert(Seq::<char>::empty().push(c) == seq![c]);
    assert(json::skip_blanks(s, s.len() as int) == s.len());
}

/// The short escapes: a backslash and one character.
pub open spec fn short_escapes() -> Seq<(char, char)> {
    seq![
        ('"', '"'),
        ('\\', '\\'),
        ('/', '/'),
        ('b', '\u{8}'),
        ('f', '\u{c}'),
        ('n', '\n'),
        ('r', '\r'),
        ('t', '\t'),
    ]
}

/// A short escape stands for its character, and a character that is neither a
/// quote nor a backslash stands for itself. The next quote ends the string.
pub proof fn law_characters_of_a_string(
    before: Seq<char>,
    c: char,
    k: int,
    after: Seq<char>,
    done: Seq<char>,
)
    requires
        0 <= k < short_escapes().len(),
    ensures
        ({
            let (letter, meant) = short_escapes()[k];
            let s = before + seq!['\\', letter] + after;
            json::string_rest(s, before.len() as int, done) == json::string_rest(
                s,
                before.len() as int + 2,
                done.push(meant),
            )
        }),
        ({
            let s = before + seq![c] + after;
            let i = before.len() as int;
            &&& c != '"' && c != '\\' ==> json::string_rest(s, i, done) == json::string_rest(
                s,
                i + 1,
                done.push(c),
            )
            &&& c == '"' ==> json::string_rest(s, i, done) == Ok::<(Seq<char>, int), Seq<char>>(
                (done, i + 1),
            )
        }),
{
    let (letter, meant) = short_escapes()[k];
    let s = before + seq!['\\', letter] + after;
    let i = before.len() as int;
    assert(s[i] == '\\');
    assert(s[i + 1] == letter);
    assert(k == 0 || k == 1 || k == 2 || k == 3 || k == 4 || k == 5 || k == 6 || k == 7);
    assert(json::escape(s, i + 1) == Ok::<(char, int), Seq<char>>((meant, i + 2)));
    let t = before + seq![c] + after;
    assert(t[i] == c);
}

} // verus!

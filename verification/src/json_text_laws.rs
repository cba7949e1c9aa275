//! What JSON texts look like: how values are spelled, with any white space
//! between their tokens, and that such texts are read.

use crate::json;
use crate::json::JsonView;
use crate::json_laws;
use crate::text;
use crate::text_laws;
use vstd::prelude::*;

verus! {

/// Whether a text is made of spaces, tabs, line feeds and carriage returns.
pub open spec fn is_padding(w: Seq<char>) -> bool {
    forall|i: int|
        0 <= i < w.len() ==> #[trigger] w[i] == ' ' || w[i] == '\t' || w[i] == '\n' || w[i] == '\r'
}

/// The text of a value, with `w` on both sides of every token inside it.
pub open spec fn spaced(v: JsonView, w: Seq<char>) -> Seq<char>
    decreases v,
{
    match v {
        JsonView::Null => seq!['n', 'u', 'l', 'l'],
        JsonView::Bool(true) => seq!['t', 'r', 'u', 'e'],
        JsonView::Bool(false) => seq!['f', 'a', 'l', 's', 'e'],
        JsonView::Number(n) => n,
        JsonView::Text(t) => json::quoted(t),
        JsonView::Array(items) => if items.len() == 0 {
            seq!['['] + w + seq![']']
        } else {
            seq!['['] + text::joined(spaced_items(items, w), seq![',']) + seq![']']
        },
        JsonView::Object(entries) => if entries.len() == 0 {
            seq!['{'] + w + seq!['}']
        } else {
            seq!['{'] + text::joined(spaced_entries(entries, w), seq![',']) + seq!['}']
        },
    }
}

/// The texts of the items of an array.
pub open spec fn spaced_items(items: Seq<JsonView>, w: Seq<char>) -> Seq<Seq<char>>
    decreases items,
{
    if items.len() == 0 {
        seq![]
    } else {
        spaced_items(items.drop_last(), w).push(w + spaced(items[items.len() - 1], w) + w)
    }
}

/// The texts of the entries of an object.
pub open spec fn spaced_entries(entries: Seq<(Seq<char>, JsonView)>, w: Seq<char>) -> Seq<Seq<char>>
    decreases entries,
{
    if entries.len() == 0 {
        seq![]
    } else {
        spaced_entries(entries.drop_last(), w).push(
            w + json::quoted(entries[entries.len() - 1].0) + w + seq![':'] + w + spaced(
                entries[entries.len() - 1].1,
                w,
            ) + w,
        )
    }
}

proof fn lemma_spaced_items(items: Seq<JsonView>, w: Seq<char>)
    ensures
        spaced_items(items, w).len() == items.len(),
        forall|i: int|
            0 <= i < items.len() ==> spaced_items(items, w)[i] == w + spaced(items[i], w) + w,
    decreases items.len(),
{
    if items.len() > 0 {
        lemma_spaced_items(items.drop_last(), w);
        assert forall|i: int| 0 <= i < items.len() implies spaced_items(items, w)[i] == w + spaced(
            items[i],
            w,
        ) + w by {
            if i < items.len() - 1 {
                assert(items.drop_last()[i] == items[i]);
            }
        }
    }
}

/// The text of one entry.
spec fn spaced_entry(entry: (Seq<char>, JsonView), w: Seq<char>) -> Seq<char> {
    w + json::quoted(entry.0) + w + seq![':'] + w + spaced(entry.1, w) + w
}

proof fn lemma_spaced_entries(entries: Seq<(Seq<char>, JsonView)>, w: Seq<char>)
    ensures
        spaced_entries(entries, w).len() == entries.len(),
        forall|i: int|
            0 <= i < entries.len() ==> spaced_entries(entries, w)[i] == spaced_entry(
                entries[i],
                w,
            ),
    decreases entries.len(),
{
    if entries.len() > 0 {
        lemma_spaced_entries(entries.drop_last(), w);
        assert forall|i: int| 0 <= i < entries.len() implies spaced_entries(entries, w)[i]
            == spaced_entry(entries[i], w) by {
            if i < entries.len() - 1 {
                assert(entries.drop_last()[i] == entries[i]);
            }
        }
    }
}

/// White space is passed over up to the first character that is none.
proof fn lemma_padding_is_skipped(s: Seq<char>, i: int, w: Seq<char>)
    requires
        is_padding(w),
        json_laws::holds_at(s, i, w),
        i + w.len() < s.len() ==> !json::is_blank(s[i + w.len()]),
    ensures
        json::skip_blanks(s, i) == i + w.len(),
    decreases w.len(),
{
    if w.len() > 0 {
        json_laws::lemma_holds_char(s, i, w, 0);
        assert(w[0] == ' ' || w[0] == '\t' || w[0] == '\n' || w[0] == '\r');
        let rest = w.skip(1);
        assert(w =~= seq![w[0]] + rest);
        json_laws::lemma_holds_split(s, i, seq![w[0]], rest);
        assert forall|k: int| 0 <= k < rest.len() implies #[trigger] rest[k] == ' ' || rest[k]
            == '\t' || rest[k] == '\n' || rest[k] == '\r' by {
            assert(rest[k] == w[k + 1]);
        }
        lemma_padding_is_skipped(s, i + 1, rest);
    }
}

/// The text of a value starts with a character that neither separates nor
/// closes nor is white space.
proof fn lemma_spaced_start(v: JsonView, w: Seq<char>)
    requires
        json_laws::can_be_spelled(v),
    ensures
        spaced(v, w).len() > 0,
        ({
            let c = spaced(v, w)[0];
            !json::is_blank(c) && c != ']' && c != '}' && c != ','
        }),
{
}

/// Where a value starts after white space, the white space does not matter.
#[verifier::rlimit(60)]
#[verifier::spinoff_prover]
proof fn lemma_value_after_padding(s: Seq<char>, i: int, j: int)
    requires
        json::skip_blanks(s, i) == j,
        json::skip_blanks(s, j) == j,
    ensures
        json::value_at(s, i) == json::value_at(s, j),
{
}

/// A word, a number or a string is read by its first character.
#[verifier::rlimit(60)]
#[verifier::spinoff_prover]
proof fn lemma_scalar_step(s: Seq<char>, i: int)
    requires
        json::skip_blanks(s, i) == i,
        0 <= i < s.len(),
    ensures
        s[i] == 'n' ==> json::value_at(s, i) == json::word_at(s, i, "null"@, JsonView::Null),
        s[i] == 't' ==> json::value_at(s, i) == json::word_at(s, i, "true"@, JsonView::Bool(true)),
        s[i] == 'f' ==> json::value_at(s, i) == json::word_at(
            s,
            i,
            "false"@,
            JsonView::Bool(false),
        ),
        s[i] == '-' || json::is_digit(s[i]) ==> json::value_at(s, i) == json::number_at(s, i),
{
}

#[verifier::rlimit(60)]
#[verifier::spinoff_prover]
proof fn lemma_text_step(s: Seq<char>, i: int, t: Seq<char>, end: int)
    requires
        json::skip_blanks(s, i) == i,
        0 <= i < s.len(),
        s[i] == '"',
        json::string_at(s, i) == Ok::<(Seq<char>, int), Seq<char>>((t, end)),
    ensures
        json::value_at(s, i) == Ok::<(JsonView, int), Seq<char>>((JsonView::Text(t), end)),
{
}

/// An array or an object without anything in it.
#[verifier::rlimit(60)]
#[verifier::spinoff_prover]
proof fn lemma_empty_step(s: Seq<char>, i: int, open: char, close: char, w: Seq<char>)
    requires
        is_padding(w),
        json_laws::holds_at(s, i, seq![open] + w + seq![close]),
        json::skip_blanks(s, i) == i,
        (open == '[' && close == ']') || (open == '{' && close == '}'),
    ensures
        json::value_at(s, i) == Ok::<(JsonView, int), Seq<char>>(
            (
                if open == '[' {
                    JsonView::Array(seq![])
                } else {
                    JsonView::Object(seq![])
                },
                i + w.len() + 2,
            ),
        ),
{
    assert(seq![open] + w + seq![close] =~= seq![open] + (w + seq![close]));
    json_laws::lemma_holds_split(s, i, seq![open], w + seq![close]);
    json_laws::lemma_holds_char(s, i, seq![open], 0);
    json_laws::lemma_holds_split(s, i + 1, w, seq![close]);
    json_laws::lemma_holds_char(s, i + 1 + w.len(), seq![close], 0);
    lemma_padding_is_skipped(s, i + 1, w);
}

/// The text of a value reads back as that value, wherever it stands.
#[verifier::rlimit(60)]
#[verifier::spinoff_prover]
proof fn lemma_spaced_back(s: Seq<char>, i: int, v: JsonView, w: Seq<char>)
    requires
        is_padding(w),
        json_laws::can_be_spelled(v),
        json_laws::holds_at(s, i, spaced(v, w)),
        json_laws::value_ends(s, i + spaced(v, w).len()),
    ensures
        json::value_at(s, i) == Ok::<(JsonView, int), Seq<char>>((v, i + spaced(v, w).len())),
    decreases v, 1int,
{
    let r = spaced(v, w);
    lemma_spaced_start(v, w);
    json_laws::lemma_holds_char(s, i, r, 0);
    assert(json::skip_blanks(s, i) == i);
    match v {
        JsonView::Null | JsonView::Bool(_) => {
            lemma_word_back(s, i, v, w);
        },
        JsonView::Number(n) => {
            json_laws::lemma_number_back(s, i, n);
            lemma_scalar_step(s, i);
        },
        JsonView::Text(t) => {
            json_laws::lemma_string_back(s, i, t);
            lemma_text_step(s, i, t, i + r.len());
        },
        JsonView::Array(items) => {
            if items.len() == 0 {
                lemma_empty_step(s, i, '[', ']', w);
                assert(items =~= Seq::<JsonView>::empty());
            } else {
                lemma_array_back(s, i, items, w);
            }
        },
        JsonView::Object(entries) => {
            if entries.len() == 0 {
                lemma_empty_step(s, i, '{', '}', w);
                assert(entries =~= Seq::<(Seq<char>, JsonView)>::empty());
            } else {
                lemma_object_back(s, i, entries, w);
            }
        },
    }
}

#[verifier::rlimit(60)]
#[verifier::spinoff_prover]
proof fn lemma_word_back(s: Seq<char>, i: int, v: JsonView, w: Seq<char>)
    requires
        v is Null || v is Bool,
        json_laws::holds_at(s, i, spaced(v, w)),
        json::skip_blanks(s, i) == i,
    ensures
        json::value_at(s, i) == Ok::<(JsonView, int), Seq<char>>((v, i + spaced(v, w).len())),
{
    let r = spaced(v, w);
    json_laws::lemma_holds_char(s, i, r, 0);
    lemma_scalar_step(s, i);
    reveal_strlit("null");
    reveal_strlit("true");
    reveal_strlit("false");
    assert("null"@ =~= seq!['n', 'u', 'l', 'l']);
    assert("true"@ =~= seq!['t', 'r', 'u', 'e']);
    assert("false"@ =~= seq!['f', 'a', 'l', 's', 'e']);
    assert(s.skip(i).take(r.len() as int) =~= s.subrange(i, i + r.len()));
}

/// Where an item of an array stands, and what follows it.
proof fn lemma_item_place(s: Seq<char>, i: int, items: Seq<JsonView>, w: Seq<char>, k: int)
    requires
        0 <= k < items.len(),
        is_padding(w),
        forall|j: int| 0 <= j < items.len() ==> json_laws::can_be_spelled(#[trigger] items[j]),
        json_laws::holds_at(s, i, text::joined(spaced_items(items, w), seq![',']) + seq![']']),
    ensures
        ({
            let parts = spaced_items(items, w);
            let start = i + json_laws::part_start(parts, k);
            let end = start + parts[k].len();
            let item = spaced(items[k], w);
            let from = start + w.len();
            let to = from + item.len();
            &&& json::skip_blanks(s, start) == from
            &&& json::skip_blanks(s, from) == from
            &&& 0 <= start <= from < s.len()
            &&& s[from] != ']'
            &&& json_laws::holds_at(s, from, item)
            &&& json_laws::value_ends(s, to)
            &&& json::skip_blanks(s, to) == end
            &&& start <= end < s.len()
            &&& k + 1 < items.len() ==> s[end] == ',' && end + 1 == i + json_laws::part_start(
                parts,
                k + 1,
            )
            &&& k + 1 == items.len() ==> s[end] == ']' && end == i + text::joined(
                parts,
                seq![','],
            ).len()
        }),
{
    let parts = spaced_items(items, w);
    lemma_spaced_items(items, w);
    json_laws::lemma_part_holds(s, i, parts, ']', k);
    let start = i + json_laws::part_start(parts, k);
    let item = spaced(items[k], w);
    let from = start + w.len();
    let to = from + item.len();
    lemma_spaced_start(items[k], w);
    assert(parts[k] =~= w + (item + w));
    json_laws::lemma_holds_split(s, start, w, item + w);
    json_laws::lemma_holds_split(s, from, item, w);
    json_laws::lemma_holds_char(s, from, item, 0);
    lemma_padding_is_skipped(s, start, w);
    if w.len() > 0 {
        json_laws::lemma_holds_char(s, to, w, 0);
        assert(w[0] == ' ' || w[0] == '\t' || w[0] == '\n' || w[0] == '\r');
    }
    lemma_padding_is_skipped(s, to, w);
}

#[verifier::rlimit(60)]
#[verifier::spinoff_prover]
proof fn lemma_array_back(s: Seq<char>, i: int, items: Seq<JsonView>, w: Seq<char>)
    requires
        items.len() > 0,
        is_padding(w),
        forall|j: int| 0 <= j < items.len() ==> json_laws::can_be_spelled(#[trigger] items[j]),
        json_laws::holds_at(
            s,
            i,
            seq!['['] + text::joined(spaced_items(items, w), seq![',']) + seq![']'],
        ),
        json::skip_blanks(s, i) == i,
    ensures
        json::value_at(s, i) == Ok::<(JsonView, int), Seq<char>>(
            (
                JsonView::Array(items),
                i + text::joined(spaced_items(items, w), seq![',']).len() + 2,
            ),
        ),
    decreases items, items.len() + 1,
{
    let parts = spaced_items(items, w);
    let rest = text::joined(parts, seq![',']) + seq![']'];
    assert(seq!['['] + text::joined(parts, seq![',']) + seq![']'] =~= seq!['['] + rest);
    json_laws::lemma_holds_split(s, i, seq!['['], rest);
    json_laws::lemma_holds_char(s, i, seq!['['], 0);
    lemma_item_place(s, i + 1, items, w, 0);
    let from = i + 1 + w.len();
    json_laws::lemma_opening_step(s, i, from);
    lemma_spaced_items_back(s, i + 1, from, items, w, 0);
    assert(items.take(0) =~= Seq::<JsonView>::empty());
}

/// The items from number `k` on are read, from right before their white space
/// or from right after it.
#[verifier::rlimit(30)]
#[verifier::spinoff_prover]
proof fn lemma_spaced_items_back(
    s: Seq<char>,
    i: int,
    at: int,
    items: Seq<JsonView>,
    w: Seq<char>,
    k: int,
)
    requires
        0 <= k < items.len(),
        is_padding(w),
        forall|j: int| 0 <= j < items.len() ==> json_laws::can_be_spelled(#[trigger] items[j]),
        json_laws::holds_at(s, i, text::joined(spaced_items(items, w), seq![',']) + seq![']']),
        at == i + json_laws::part_start(spaced_items(items, w), k) || at == i
            + json_laws::part_start(spaced_items(items, w), k) + w.len(),
    ensures
        json::items_at(s, at, items.take(k)) == Ok::<(JsonView, int), Seq<char>>(
            (
                JsonView::Array(items),
                i + text::joined(spaced_items(items, w), seq![',']).len() + 1,
            ),
        ),
    decreases items, items.len() - k,
{
    let parts = spaced_items(items, w);
    lemma_item_place(s, i, items, w, k);
    lemma_spaced_items(items, w);
    let start = i + json_laws::part_start(parts, k);
    let end = start + parts[k].len();
    let from = start + w.len();
    let to = from + spaced(items[k], w).len();
    lemma_value_after_padding(s, start, from);
    lemma_spaced_back(s, from, items[k], w);
    json_laws::lemma_item_step(s, at, items.take(k), items[k], to, end);
    assert(items.take(k).push(items[k]) =~= items.take(k + 1));
    if k + 1 < items.len() {
        lemma_spaced_items_back(s, i, end + 1, items, w, k + 1);
    } else {
        assert(items.take(k + 1) =~= items);
    }
}

/// Where an entry of an object stands, and what follows it.
#[verifier::rlimit(30)]
#[verifier::spinoff_prover]
proof fn lemma_entry_place(
    s: Seq<char>,
    i: int,
    entries: Seq<(Seq<char>, JsonView)>,
    w: Seq<char>,
    k: int,
)
    requires
        0 <= k < entries.len(),
        is_padding(w),
        forall|j: int|
            0 <= j < entries.len() ==> json_laws::can_be_spelled((#[trigger] entries[j]).1),
        json_laws::holds_at(s, i, text::joined(spaced_entries(entries, w), seq![',']) + seq!['}']),
    ensures
        ({
            let parts = spaced_entries(entries, w);
            let start = i + json_laws::part_start(parts, k);
            let end = start + parts[k].len();
            let (key, v) = entries[k];
            let named = start + w.len();
            let name_end = named + json::quoted(key).len();
            let colon = name_end + w.len();
            let from = colon + 1 + w.len();
            let to = from + spaced(v, w).len();
            &&& json::skip_blanks(s, start) == named
            &&& json::skip_blanks(s, named) == named
            &&& 0 <= start <= named < s.len()
            &&& s[named] != '}'
            &&& json_laws::holds_at(s, named, json::quoted(key))
            &&& json::skip_blanks(s, name_end) == colon
            &&& 0 <= colon < s.len()
            &&& s[colon] == ':'
            &&& json::skip_blanks(s, colon + 1) == from
            &&& json::skip_blanks(s, from) == from
            &&& json_laws::holds_at(s, from, spaced(v, w))
            &&& json_laws::value_ends(s, to)
            &&& json::skip_blanks(s, to) == end
            &&& named <= end < s.len()
            &&& k + 1 < entries.len() ==> s[end] == ',' && end + 1 == i + json_laws::part_start(
                parts,
                k + 1,
            )
            &&& k + 1 == entries.len() ==> s[end] == '}' && end == i + text::joined(
                parts,
                seq![','],
            ).len()
        }),
{
    let parts = spaced_entries(entries, w);
    lemma_spaced_entries(entries, w);
    json_laws::lemma_part_holds(s, i, parts, '}', k);
    let start = i + json_laws::part_start(parts, k);
    let (key, v) = entries[k];
    let name = json::quoted(key);
    let value = spaced(v, w);
    let named = start + w.len();
    let name_end = named + name.len();
    let colon = name_end + w.len();
    let from = colon + 1 + w.len();
    let to = from + value.len();
    lemma_spaced_start(v, w);
    let last = value + w;
    let valued = w + last;
    let marked = seq![':'] + valued;
    let padded = w + marked;
    assert(parts[k] =~= w + (name + padded));
    json_laws::lemma_holds_split(s, start, w, name + padded);
    json_laws::lemma_holds_split(s, named, name, padded);
    json_laws::lemma_holds_split(s, name_end, w, marked);
    json_laws::lemma_holds_split(s, colon, seq![':'], valued);
    json_laws::lemma_holds_split(s, colon + 1, w, last);
    json_laws::lemma_holds_split(s, from, value, w);
    json_laws::lemma_holds_char(s, named, name, 0);
    assert(name[0] == '"');
    json_laws::lemma_holds_char(s, colon, seq![':'], 0);
    json_laws::lemma_holds_char(s, from, value, 0);
    lemma_padding_is_skipped(s, start, w);
    lemma_padding_is_skipped(s, name_end, w);
    lemma_padding_is_skipped(s, colon + 1, w);
    if w.len() > 0 {
        json_laws::lemma_holds_char(s, to, w, 0);
        assert(w[0] == ' ' || w[0] == '\t' || w[0] == '\n' || w[0] == '\r');
    }
    lemma_padding_is_skipped(s, to, w);
}

#[verifier::rlimit(60)]
#[verifier::spinoff_prover]
proof fn lemma_object_back(
    s: Seq<char>,
    i: int,
    entries: Seq<(Seq<char>, JsonView)>,
    w: Seq<char>,
)
    requires
        entries.len() > 0,
        is_padding(w),
        json_laws::keys_distinct(entries),
        forall|j: int|
            0 <= j < entries.len() ==> json_laws::can_be_spelled((#[trigger] entries[j]).1),
        json_laws::holds_at(
            s,
            i,
            seq!['{'] + text::joined(spaced_entries(entries, w), seq![',']) + seq!['}'],
        ),
        json::skip_blanks(s, i) == i,
    ensures
        json::value_at(s, i) == Ok::<(JsonView, int), Seq<char>>(
            (
                JsonView::Object(entries),
                i + text::joined(spaced_entries(entries, w), seq![',']).len() + 2,
            ),
        ),
    decreases entries, entries.len() + 1,
{
    let parts = spaced_entries(entries, w);
    let rest = text::joined(parts, seq![',']) + seq!['}'];
    assert(seq!['{'] + text::joined(parts, seq![',']) + seq!['}'] =~= seq!['{'] + rest);
    json_laws::lemma_holds_split(s, i, seq!['{'], rest);
    json_laws::lemma_holds_char(s, i, seq!['{'], 0);
    lemma_entry_place(s, i + 1, entries, w, 0);
    let from = i + 1 + w.len();
    json_laws::lemma_opening_step(s, i, from);
    lemma_spaced_entries_back(s, i + 1, from, entries, w, 0);
    assert(entries.take(0) =~= Seq::<(Seq<char>, JsonView)>::empty());
}

/// The entries from number `k` on are read, from right before their white space
/// or from right after it.
#[verifier::rlimit(30)]
#[verifier::spinoff_prover]
proof fn lemma_spaced_entries_back(
    s: Seq<char>,
    i: int,
    at: int,
    entries: Seq<(Seq<char>, JsonView)>,
    w: Seq<char>,
    k: int,
)
    requires
        0 <= k < entries.len(),
        is_padding(w),
        json_laws::keys_distinct(entries),
        forall|j: int|
            0 <= j < entries.len() ==> json_laws::can_be_spelled((#[trigger] entries[j]).1),
        json_laws::holds_at(s, i, text::joined(spaced_entries(entries, w), seq![',']) + seq!['}']),
        at == i + json_laws::part_start(spaced_entries(entries, w), k) || at == i
            + json_laws::part_start(spaced_entries(entries, w), k) + w.len(),
    ensures
        json::entries_at(s, at, entries.take(k)) == Ok::<(JsonView, int), Seq<char>>(
            (
                JsonView::Object(entries),
                i + text::joined(spaced_entries(entries, w), seq![',']).len() + 1,
            ),
        ),
    decreases entries, entries.len() - k,
{
    let parts = spaced_entries(entries, w);
    lemma_entry_place(s, i, entries, w, k);
    lemma_spaced_entries(entries, w);
    let start = i + json_laws::part_start(parts, k);
    let end = start + parts[k].len();
    let (key, v) = entries[k];
    let named = start + w.len();
    let name_end = named + json::quoted(key).len();
    let colon = name_end + w.len();
    let from = colon + 1 + w.len();
    let to = from + spaced(v, w).len();
    json_laws::lemma_string_back(s, named, key);
    lemma_value_after_padding(s, colon + 1, from);
    lemma_spaced_back(s, from, v, w);
    let done = entries.take(k);
    assert forall|j: int| 0 <= j < done.len() implies (#[trigger] done[j]).0 != key by {
        assert(done[j] == entries[j]);
    }
    json_laws::lemma_without_absent_key(done, key);
    assert(done.push((key, v)) =~= entries.take(k + 1));
    json_laws::lemma_entry_step(s, at, done, key, name_end, v, to, end);
    if k + 1 < entries.len() {
        lemma_spaced_entries_back(s, i, end + 1, entries, w, k + 1);
    } else {
        assert(entries.take(k + 1) =~= entries);
    }
}

/// A value is read from its text, whatever white space stands around and
/// between its tokens.
#[verifier::rlimit(60)]
#[verifier::spinoff_prover]
pub proof fn law_spaced_text_is_read(v: JsonView, w: Seq<char>)
    requires
        json_laws::can_be_spelled(v),
        is_padding(w),
    ensures
        json::parsed(w + spaced(v, w) + w) == Ok::<JsonView, Seq<char>>(v),
{
    let r = spaced(v, w);
    let s = w + r + w;
    let from = w.len() as int;
    let to = from + r.len();
    assert(s.subrange(0, from) =~= w);
    assert(s.subrange(from, to) =~= r);
    assert(s.subrange(to, to + w.len()) =~= w);
    lemma_spaced_start(v, w);
    json_laws::lemma_holds_char(s, from, r, 0);
    lemma_padding_is_skipped(s, 0, w);
    assert(json::skip_blanks(s, from) == from);
    lemma_value_after_padding(s, 0, from);
    if w.len() > 0 {
        json_laws::lemma_holds_char(s, to, w, 0);
        assert(w[0] == ' ' || w[0] == '\t' || w[0] == '\n' || w[0] == '\r');
    }
    lemma_spaced_back(s, from, v, w);
    lemma_padding_is_skipped(s, to, w);
}

/// A value is written as its text without any white space between its tokens.
pub proof fn law_written_text_has_no_white_space(v: JsonView)
    ensures
        json::rendered(v) == spaced(v, seq![]),
    decreases v, 1int,
{
    let none = Seq::<char>::empty();
    match v {
        JsonView::Null => {
            reveal_strlit("null");
            assert(json::rendered(v) =~= spaced(v, none));
        },
        JsonView::Bool(b) => {
            reveal_strlit("true");
            reveal_strlit("false");
            assert(json::rendered(v) =~= spaced(v, none));
        },
        JsonView::Array(items) => {
            lemma_items_written(items);
            if items.len() == 0 {
                assert(json::rendered(v) =~= spaced(v, none));
            }
        },
        JsonView::Object(entries) => {
            lemma_entries_written(entries);
            if entries.len() == 0 {
                assert(json::rendered(v) =~= spaced(v, none));
            }
        },
        _ => {},
    }
}

proof fn lemma_items_written(items: Seq<JsonView>)
    ensures
        json::item_texts(items) == spaced_items(items, seq![]),
    decreases items, 0int,
{
    let none = Seq::<char>::empty();
    if items.len() > 0 {
        lemma_items_written(items.drop_last());
        let last = items[items.len() - 1];
        law_written_text_has_no_white_space(last);
        assert(none + spaced(last, none) + none =~= spaced(last, none));
    }
}

proof fn lemma_entries_written(entries: Seq<(Seq<char>, JsonView)>)
    ensures
        json::entry_texts(entries) == spaced_entries(entries, seq![]),
    decreases entries, 0int,
{
    let none = Seq::<char>::empty();
    if entries.len() > 0 {
        lemma_entries_written(entries.drop_last());
        let (key, v) = entries[entries.len() - 1];
        law_written_text_has_no_white_space(v);
        assert(none + json::quoted(key) + none + seq![':'] + none + spaced(v, none) + none
            =~= json::quoted(key) + seq![':'] + json::rendered(v));
    }
}

/// How characters are written in a string: quotes, backslashes, line feeds,
/// carriage returns and tabs by their short escapes, the other characters below
/// the space by `\u00` and two digits, and all others as they are. A string is
/// its characters one after the other, between quotes.
pub proof fn law_spelling_of_a_string(a: Seq<char>, c: char)
    ensures
        json::quoted(Seq::empty()) == seq!['"', '"'],
        json::quoted(a.push(c)) == json::quoted(a).drop_last() + (if c == '"' {
            seq!['\\', '"']
        } else if c == '\\' {
            seq!['\\', '\\']
        } else if c == '\n' {
            seq!['\\', 'n']
        } else if c == '\r' {
            seq!['\\', 'r']
        } else if c == '\t' {
            seq!['\\', 't']
        } else if ' ' > c {
            seq!['\\', 'u', '0', '0'] + json_laws::hex_spelling(
                c as int,
                |i: int| false,
            ).skip(2)
        } else {
            seq![c]
        }) + seq!['"'],
{
    reveal_strlit("0123456789abcdef");
    assert(json::quoted(Seq::empty()) =~= seq!['"', '"']);
    assert(a.push(c).drop_last() =~= a);
    assert(json::quoted(a).drop_last() =~= seq!['"'] + json::escaped_text(a));
    let none = |i: int| false;
    if ' ' > c {
        let n = c as int;
        let four = json_laws::hex_spelling(n, none);
        assert(four.skip(2) =~= seq![
            json_laws::hex_char(n / 16 % 16, false),
            json_laws::hex_char(n % 16, false),
        ]);
        assert(json_laws::hex_char(n / 16 % 16, false) == json::hex_digit((n / 16) as nat));
        assert(json_laws::hex_char(n % 16, false) == json::hex_digit((n % 16) as nat));
        assert(seq!['\\', 'u', '0', '0'] + four.skip(2) =~= seq![
            '\\',
            'u',
            '0',
            '0',
            json::hex_digit((n / 16) as nat),
            json::hex_digit((n % 16) as nat),
        ]);
    }
    assert(json::quoted(a.push(c)) =~= json::quoted(a).drop_last() + json::escaped(c) + seq!['"']);
}

/// Whether a text is made of digits.
pub open spec fn all_digits(t: Seq<char>) -> bool {
    forall|i: int| 0 <= i < t.len() ==> '0' <= #[trigger] t[i] <= '9'
}

proof fn lemma_digits_end(before: Seq<char>, digits: Seq<char>, after: Seq<char>)
    requires
        all_digits(digits),
        after.len() > 0 ==> !('0' <= after[0] <= '9'),
    ensures
        json::skip_digits(before + digits + after, before.len() as int) == before.len()
            + digits.len(),
    decreases digits.len(),
{
    let s = before + digits + after;
    if digits.len() == 0 {
        if after.len() > 0 {
            assert(s[before.len() as int] == after[0]);
        }
    } else {
        let (d, rest) = (digits[0], digits.skip(1));
        assert(s[before.len() as int] == d);
        assert(s =~= before.push(d) + rest + after);
        assert forall|i: int| 0 <= i < rest.len() implies '0' <= #[trigger] rest[i] <= '9' by {
            assert(rest[i] == digits[i + 1]);
        }
        lemma_digits_end(before.push(d), rest, after);
    }
}

/// A number literal put together from its parts: an optional minus sign,
/// digits, an optional fraction, and an optional exponent with an optional
/// sign.
pub open spec fn number_text(
    minus: bool,
    whole: Seq<char>,
    fraction: Option<Seq<char>>,
    exponent: Option<(char, Seq<char>, Seq<char>)>,
) -> Seq<char> {
    (if minus {
        seq!['-']
    } else {
        seq![]
    }) + whole + (match fraction {
        Some(f) => seq!['.'] + f,
        None => seq![],
    }) + (match exponent {
        Some((e, sign, digits)) => seq![e] + sign + digits,
        None => seq![],
    })
}

/// Every number is read as it is written: `-12.5e+3` and its like, with or
/// without a fraction and an exponent, and also where a minus sign has no digit
/// before the point, or the point none after it, as long as there is one.
pub proof fn law_number_is_read(
    minus: bool,
    whole: Seq<char>,
    fraction: Option<Seq<char>>,
    exponent: Option<(char, Seq<char>, Seq<char>)>,
)
    requires
        minus || whole.len() > 0,
        all_digits(whole),
        fraction matches Some(f) ==> all_digits(f),
        exponent matches Some((e, sign, digits)) ==> (e == 'e' || e == 'E') && (sign.len() == 0
            || sign == seq!['+'] || sign == seq!['-']) && all_digits(digits),
    ensures
        ({
            let t = number_text(minus, whole, fraction, exponent);
            let has_digits = whole.len() > 0 || (fraction matches Some(f) && f.len() > 0);
            let complete = has_digits && (exponent matches Some((_, _, d)) ==> d.len() > 0);
            &&& complete ==> json::is_number_literal(t) && json::parsed(t) == Ok::<
                JsonView,
                Seq<char>,
            >(JsonView::Number(t))
            &&& !complete ==> json::parsed(t) is Err
        }),
{
    let t = number_text(minus, whole, fraction, exponent);
    let a = if minus {
        seq!['-']
    } else {
        Seq::<char>::empty()
    };
    let f = match fraction {
        Some(f) => seq!['.'] + f,
        None => Seq::<char>::empty(),
    };
    let e = match exponent {
        Some((e, sign, digits)) => seq![e] + sign + digits,
        None => Seq::<char>::empty(),
    };
    assert(t =~= a + whole + (f + e));
    assert(t =~= a + whole + f + e);
    if f.len() > 0 {
        assert((f + e)[0] == '.');
    } else if e.len() > 0 {
        assert((f + e)[0] == e[0]);
    }
    lemma_whole_ends(t, minus, whole, f + e);
    lemma_fraction_ends(t, a + whole, fraction, e);
    lemma_exponent_ends(t, a + whole + f, exponent);
    let has_digits = whole.len() > 0 || (fraction matches Some(d) && d.len() > 0);
    let complete = has_digits && (exponent matches Some((_, _, d)) ==> d.len() > 0);
    assert(json::number_complete(t, 0) == complete);
    if complete {
        assert(json::is_number_literal(t));
        json_laws::law_parse_undoes_rendering(JsonView::Number(t));
    } else {
        assert(json::skip_blanks(t, 0) == 0);
        lemma_scalar_step(t, 0);
    }
}

proof fn lemma_whole_ends(t: Seq<char>, minus: bool, whole: Seq<char>, rest: Seq<char>)
    requires
        minus || whole.len() > 0,
        all_digits(whole),
        rest.len() > 0 ==> rest[0] == '.' || rest[0] == 'e' || rest[0] == 'E',
        t == (if minus {
            seq!['-']
        } else {
            Seq::<char>::empty()
        }) + whole + rest,
    ensures
        t.len() > 0,
        t[0] == '-' || json::is_digit(t[0]),
        json::sign_end(t, 0) == json::whole_end(t, 0) - whole.len(),
        json::whole_end(t, 0) == t.len() - rest.len(),
{
    let a = if minus {
        seq!['-']
    } else {
        Seq::<char>::empty()
    };
    if whole.len() > 0 {
        assert('0' <= whole[0] <= '9');
        assert(t[a.len() as int] == whole[0]);
    }
    if minus {
        assert(t[0] == '-');
    }
    assert(json::sign_end(t, 0) == a.len());
    lemma_digits_end(a, whole, rest);
}

proof fn lemma_fraction_ends(
    t: Seq<char>,
    front: Seq<char>,
    fraction: Option<Seq<char>>,
    rest: Seq<char>,
)
    requires
        json::whole_end(t, 0) == front.len(),
        fraction matches Some(f) ==> all_digits(f),
        rest.len() > 0 ==> rest[0] == 'e' || rest[0] == 'E',
        t == front + (match fraction {
            Some(f) => seq!['.'] + f,
            None => Seq::<char>::empty(),
        }) + rest,
    ensures
        json::fraction_end(t, 0) == t.len() - rest.len(),
{
    let w = front.len() as int;
    match fraction {
        Some(f) => {
            assert(t[w] == '.');
            assert(t =~= front.push('.') + f + rest);
            lemma_digits_end(front.push('.'), f, rest);
        },
        None => {
            assert(t =~= front + rest);
            if rest.len() > 0 {
                assert(t[w] == rest[0]);
            }
        },
    }
}

proof fn lemma_exponent_ends(
    t: Seq<char>,
    front: Seq<char>,
    exponent: Option<(char, Seq<char>, Seq<char>)>,
)
    requires
        json::fraction_end(t, 0) == front.len(),
        exponent matches Some((e, sign, digits)) ==> (e == 'e' || e == 'E') && (sign.len() == 0
            || sign == seq!['+'] || sign == seq!['-']) && all_digits(digits),
        t == front + (match exponent {
            Some((e, sign, digits)) => seq![e] + sign + digits,
            None => Seq::<char>::empty(),
        }),
    ensures
        json::number_end(t, 0) == t.len(),
        json::has_exponent(t, 0) <==> exponent is Some,
        exponent matches Some((_, _, digits)) ==> json::number_end(t, 0) == json::exponent_start(
            t,
            0,
        ) + digits.len(),
{
    let p = front.len() as int;
    match exponent {
        Some((mark, sign, digits)) => {
            let none = Seq::<char>::empty();
            let signed = front + seq![mark] + sign;
            assert(t =~= signed + digits + none);
            assert(t[p] == mark);
            if sign.len() > 0 {
                assert(t[p + 1] == sign[0]);
            } else if digits.len() > 0 {
                assert('0' <= digits[0] <= '9');
                assert(t[p + 1] == digits[0]);
            }
            assert(json::exponent_start(t, 0) == signed.len());
            lemma_digits_end(signed, digits, none);
        },
        None => {
            assert(t =~= front);
        },
    }
}

/// Inserting an entry leaves one entry with its key, in the place of the first
/// that had it or at the end, and the others as they were.
pub proof fn law_entry_is_inserted(
    before: Seq<(Seq<char>, JsonView)>,
    key: Seq<char>,
    old_value: JsonView,
    after: Seq<(Seq<char>, JsonView)>,
    value: JsonView,
)
    requires
        forall|i: int| 0 <= i < before.len() ==> (#[trigger] before[i]).0 != key,
    ensures
        json::with_entry(before + seq![(key, old_value)] + after, key, value) == before + seq![
            (key, value),
        ] + after,
        json::with_entry(before, key, value) == before.push((key, value)),
{
    let name = |e: (Seq<char>, JsonView)| e.0;
    let all = before + seq![(key, old_value)] + after;
    let names = before.map_values(name);
    assert(text_laws::lacks(names, key));
    assert(all.map_values(name) =~= names + seq![key] + after.map_values(name));
    text_laws::law_separator_is_found(names, key, after.map_values(name));
    text_laws::law_missing_separator_is_not_found(names, key);
    assert(all.update(before.len() as int, (key, value)) =~= before + seq![(key, value)] + after);
}

/// No value starts with such a character.
#[verifier::spinoff_prover]
proof fn lemma_no_value(t: Seq<char>, j: int, i: int)
    requires
        json::skip_blanks(t, j) == i,
        0 <= i <= t.len(),
        i < t.len() ==> t[i] != '{' && t[i] != '[' && t[i] != '"' && t[i] != '-' && !('0' <= t[i]
            <= '9'),
        !text::starts_with(t.skip(i), "null"@),
        !text::starts_with(t.skip(i), "true"@),
        !text::starts_with(t.skip(i), "false"@),
    ensures
        json::value_at(t, j) is Err,
{
}

/// A text that starts like no value spells none: neither with a character that
/// starts none, nor with the beginning of a word that does not go on as it
/// should.
#[verifier::rlimit(40)]
#[verifier::spinoff_prover]
pub proof fn law_other_texts_are_refused(w: Seq<char>, s: Seq<char>)
    requires
        is_padding(w),
        s.len() > 0,
        !json::is_blank(s[0]),
        s[0] != '{' && s[0] != '[' && s[0] != '"' && s[0] != '-' && !('0' <= s[0] <= '9'),
        s.len() >= 4 ==> s.take(4) != seq!['n', 'u', 'l', 'l'] && s.take(4) != seq![
            't',
            'r',
            'u',
            'e',
        ],
        s.len() >= 5 ==> s.take(5) != seq!['f', 'a', 'l', 's', 'e'],
    ensures
        json::parsed(w + s) is Err,
        json::parsed(w) is Err,
{
    lemma_refused_start(w, s);
    lemma_refused_start(w, Seq::empty());
    assert(w + Seq::<char>::empty() =~= w);
}

/// Nothing is read from a text that starts like no value.
#[verifier::spinoff_prover]
proof fn lemma_refused_start(w: Seq<char>, s: Seq<char>)
    requires
        is_padding(w),
        s.len() > 0 ==> !json::is_blank(s[0]) && s[0] != '{' && s[0] != '[' && s[0] != '"' && s[0]
            != '-' && !('0' <= s[0] <= '9'),
        s.len() >= 4 ==> s.take(4) != seq!['n', 'u', 'l', 'l'] && s.take(4) != seq![
            't',
            'r',
            'u',
            'e',
        ],
        s.len() >= 5 ==> s.take(5) != seq!['f', 'a', 'l', 's', 'e'],
    ensures
        json::value_at(w + s, 0) is Err,
{
    let t = w + s;
    let i = w.len() as int;
    assert(t.subrange(0, i) =~= w);
    if s.len() > 0 {
        assert(t[i] == s[0]);
    }
    lemma_padding_is_skipped(t, 0, w);
    assert(t.skip(i) =~= s);
    assert(!text::starts_with(s, "null"@) && !text::starts_with(s, "true"@) && !text::starts_with(
        s,
        "false"@,
    )) by {
        reveal_strlit("null");
        reveal_strlit("true");
        reveal_strlit("false");
        assert("null"@ =~= seq!['n', 'u', 'l', 'l']);
        assert("true"@ =~= seq!['t', 'r', 'u', 'e']);
        assert("false"@ =~= seq!['f', 'a', 'l', 's', 'e']);
    }
    lemma_no_value(t, 0, i);
}

/// Nothing but white space may follow a value.
pub proof fn law_trailing_text_is_refused(v: JsonView, w: Seq<char>, more: Seq<char>)
    requires
        json_laws::can_be_spelled(v),
        is_padding(w),
        w.len() > 0,
        more.len() > 0,
        !json::is_blank(more[0]),
    ensures
        json::parsed(spaced(v, w) + (w + more)) is Err,
{
    let r = spaced(v, w);
    let s = r + (w + more);
    let to = r.len() as int;
    assert(s.subrange(0, to) =~= r);
    assert(s.subrange(to, to + w.len()) =~= w);
    assert(s[to] == w[0]);
    assert(w[0] == ' ' || w[0] == '\t' || w[0] == '\n' || w[0] == '\r');
    assert(s[to + w.len()] == more[0]);
    lemma_spaced_back(s, 0, v, w);
    lemma_padding_is_skipped(s, to, w);
}

/// A string that is not closed is refused.
pub proof fn law_open_string_is_refused(t: Seq<char>)
    requires
        text_laws::lacks(t, '"'),
        text_laws::lacks(t, '\\'),
    ensures
        json::parsed(seq!['"'] + t) is Err,
{
    let s = seq!['"'] + t;
    assert(s[0] == '"');
    assert(json::skip_blanks(s, 0) == 0);
    lemma_open_string(s, 1, seq![]);
}

proof fn lemma_open_string(s: Seq<char>, i: int, done: Seq<char>)
    requires
        1 <= i <= s.len(),
        forall|k: int| 1 <= k < s.len() ==> #[trigger] s[k] != '"' && s[k] != '\\',
    ensures
        json::string_rest(s, i, done) is Err,
    decreases s.len() - i,
{
    if i < s.len() {
        assert(s[i] != '"' && s[i] != '\\');
        lemma_open_string(s, i + 1, done.push(s[i]));
    }
}

/// A surrogate without its other half is refused, and so is an escape that is
/// none of those that there are.
pub proof fn law_bad_escapes_are_refused(
    n: int,
    capital: spec_fn(int) -> bool,
    letter: char,
    done: Seq<char>,
)
    requires
        0xD800 <= n <= 0xDFFF,
        !"\"\\/bfnrtu"@.contains(letter),
    ensures
        json::string_rest(json_laws::unicode_spelling(n, capital) + seq!['"'], 0, done) is Err,
        json::string_rest(seq!['\\', letter, '"'], 0, done) is Err,
{
    let escape = json_laws::unicode_spelling(n, capital);
    let s = escape + seq!['"'];
    assert(s.subrange(0, 6) =~= escape);
    json_laws::lemma_holds_split(s, 0, seq!['\\', 'u'], json_laws::hex_spelling(n, capital));
    json_laws::lemma_hex_spelling(s, 2, n, capital);
    assert(s[0] == '\\' && s[1] == 'u' && s[6] == '"');
    assert(json::unicode_escape(s, 2) is Err);
    let letters = "\"\\/bfnrtu"@;
    reveal_strlit("\"\\/bfnrtu");
    assert(letters[0] == '"' && letters[1] == '\\' && letters[2] == '/' && letters[3] == 'b');
    assert(letters[4] == 'f' && letters[5] == 'n' && letters[6] == 'r' && letters[7] == 't');
    assert(letters[8] == 'u');
    let t = seq!['\\', letter, '"'];
    assert(t[0] == '\\' && t[1] == letter);
    assert(json::escape(t, 1) is Err);
}

/// Removing a key leaves the other entries, in their order.
pub proof fn law_removed_key_is_gone(entries: Seq<(Seq<char>, JsonView)>, key: Seq<char>)
    ensures
        json::without_key(entries, key) == entries.filter(|e: (Seq<char>, JsonView)| e.0 != key),
    decreases entries.len(),
{
    reveal(Seq::filter);
    if entries.len() > 0 {
        law_removed_key_is_gone(entries.drop_last(), key);
    }
}

/// What is found under a key is the first entry with it.
pub proof fn law_entry_is_found(
    before: Seq<(Seq<char>, JsonView)>,
    key: Seq<char>,
    value: JsonView,
    after: Seq<(Seq<char>, JsonView)>,
)
    requires
        forall|i: int| 0 <= i < before.len() ==> (#[trigger] before[i]).0 != key,
    ensures
        json::key_position(before + seq![(key, value)] + after, key) == before.len(),
        json::key_position(before, key) == before.len(),
{
    let name = |e: (Seq<char>, JsonView)| e.0;
    let all = before + seq![(key, value)] + after;
    let names = before.map_values(name);
    assert(text_laws::lacks(names, key));
    assert(all.map_values(name) =~= names + seq![key] + after.map_values(name));
    text_laws::law_separator_is_found(names, key, after.map_values(name));
    text_laws::law_missing_separator_is_not_found(names, key);
}

} // verus!

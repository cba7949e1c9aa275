//! What the operations on texts promise.

use crate::text;
use vstd::prelude::*;

verus! {

/// Whether `c` does not occur in `s`.
pub open spec fn lacks<T>(s: Seq<T>, c: T) -> bool {
    forall|i: int| 0 <= i < s.len() ==> #[trigger] s[i] != c
}

/// Whether `s` is made of white space.
pub open spec fn is_blank(s: Seq<char>) -> bool {
    forall|i: int| 0 <= i < s.len() ==> text::is_space(#[trigger] s[i])
}

/// Whether `s` neither starts nor ends with white space.
pub open spec fn is_trim(s: Seq<char>) -> bool {
    s.len() > 0 ==> !text::is_space(s[0]) && !text::is_space(s.last())
}

/// Of the ASCII characters, the space and the five controls from the tab to
/// the carriage return are white space.
pub proof fn law_ascii_white_space(c: char)
    requires
        (c as u32) < 0x80,
    ensures
        text::is_space(c) <==> seq![' ', '\t', '\n', '\u{b}', '\u{c}', '\r'].contains(c),
{
    let all = seq![' ', '\t', '\n', '\u{b}', '\u{c}', '\r'];
    assert(all[0] == ' ' && all[1] == '\t' && all[2] == '\n' && all[3] == '\u{b}' && all[4]
        == '\u{c}' && all[5] == '\r');
    if all.contains(c) {
        let i = choose|i: int| 0 <= i < all.len() && all[i] == c;
        assert(text::is_space(all[i]));
    }
    if text::is_space(c) {
        assert(c == all[0] || c == all[1] || c == all[2] || c == all[3] || c == all[4] || c
            == all[5]);
    }
}

/// Trimming takes away the white space around a text, and nothing else.
pub proof fn law_trimming_takes_what_is_around(before: Seq<char>, s: Seq<char>, after: Seq<char>)
    requires
        is_blank(before),
        is_trim(s),
        is_blank(after),
    ensures
        text::trimmed(before + s + after) == s,
{
    if s.len() == 0 {
        let all = before + s + after;
        assert(is_blank(all)) by {
            assert forall|i: int| 0 <= i < all.len() implies text::is_space(#[trigger] all[i]) by {
                if i < before.len() {
                    assert(all[i] == before[i]);
                } else {
                    assert(all[i] == after[i - before.len()]);
                }
            }
        }
        lemma_blank_start(all, Seq::empty());
        assert(all + Seq::<char>::empty() == all);
        assert(text::trim_start(Seq::<char>::empty()) == Seq::<char>::empty());
        assert(text::trimmed(all) == Seq::<char>::empty());
        assert(s == Seq::<char>::empty());
    } else {
        assert(before + s + after == before + (s + after));
        lemma_blank_start(before, s + after);
        assert((s + after)[0] == s[0]);
        lemma_blank_end(s, after);
    }
}

pub proof fn lemma_blank_start(before: Seq<char>, s: Seq<char>)
    requires
        is_blank(before),
    ensures
        text::trim_start(before + s) == text::trim_start(s),
    decreases before.len(),
{
    if before.len() == 0 {
        assert(before + s == s);
    } else {
        assert(text::is_space(before[0]));
        assert((before + s)[0] == before[0]);
        assert((before + s).skip(1) == before.skip(1) + s);
        assert(is_blank(before.skip(1))) by {
            assert forall|i: int| 0 <= i < before.skip(1).len() implies text::is_space(
                #[trigger] before.skip(1)[i],
            ) by {
                assert(text::is_space(before[i + 1]));
            }
        }
        lemma_blank_start(before.skip(1), s);
    }
}

proof fn lemma_blank_end(s: Seq<char>, after: Seq<char>)
    requires
        is_blank(after),
        is_trim(s),
    ensures
        text::trim_end(s + after) == s,
    decreases after.len(),
{
    if after.len() == 0 {
        assert(s + after == s);
    } else {
        assert(text::is_space(after[after.len() - 1]));
        assert((s + after).last() == after[after.len() - 1]);
        assert((s + after).drop_last() == s + after.drop_last());
        assert(is_blank(after.drop_last())) by {
            assert forall|i: int| 0 <= i < after.drop_last().len() implies text::is_space(
                #[trigger] after.drop_last()[i],
            ) by {
                assert(text::is_space(after[i]));
            }
        }
        lemma_blank_end(s, after.drop_last());
    }
}

/// The first separator of a text stands right after what lacks it.
pub proof fn law_separator_is_found<T>(before: Seq<T>, sep: T, after: Seq<T>)
    requires
        lacks(before, sep),
    ensures
        text::position(before + seq![sep] + after, sep) == before.len(),
        (before + seq![sep] + after).take(before.len() as int) == before,
        (before + seq![sep] + after).skip(before.len() as int + 1) == after,
{
    let s = before + seq![sep] + after;
    assert forall|i: int| 0 <= i < before.len() implies s[i] != sep by {
        assert(s[i] == before[i]);
    }
    text::lemma_position_unique(s, sep, before.len() as int);
    assert(s.take(before.len() as int) == before);
    assert(s.skip(before.len() as int + 1) == after);
}

/// A text that lacks a separator has it nowhere.
pub proof fn law_missing_separator_is_not_found<T>(s: Seq<T>, sep: T)
    requires
        lacks(s, sep),
    ensures
        text::position(s, sep) == s.len(),
{
    text::lemma_position_unique(s, sep, s.len() as int);
}

/// Splitting undoes joining, for pieces that lack the separator.
pub proof fn law_splitting_undoes_joining(pieces: Seq<Seq<char>>, sep: char)
    requires
        pieces.len() > 0,
        forall|i: int| 0 <= i < pieces.len() ==> lacks(#[trigger] pieces[i], sep),
    ensures
        text::split(text::joined(pieces, seq![sep]), sep) == pieces,
    decreases pieces.len(),
{
    let joined = text::joined(pieces, seq![sep]);
    if pieces.len() == 1 {
        law_missing_separator_is_not_found(pieces[0], sep);
        assert(text::split(joined, sep) == pieces);
    } else {
        let rest = pieces.skip(1);
        assert forall|i: int| 0 <= i < rest.len() implies lacks(#[trigger] rest[i], sep) by {
            assert(rest[i] == pieces[i + 1]);
        }
        law_splitting_undoes_joining(rest, sep);
        lemma_joined_first(pieces, seq![sep]);
        assert(lacks(pieces[0], sep));
        law_separator_is_found(pieces[0], sep, text::joined(rest, seq![sep]));
        assert(text::split(joined, sep) == seq![pieces[0]] + rest);
        assert(seq![pieces[0]] + rest == pieces);
    }
}

/// Joining, from the first part on.
pub proof fn lemma_joined_first(parts: Seq<Seq<char>>, sep: Seq<char>)
    requires
        parts.len() > 1,
    ensures
        text::joined(parts, sep) == parts[0] + sep + text::joined(parts.skip(1), sep),
    decreases parts.len(),
{
    let rest = parts.skip(1);
    if parts.len() == 2 {
        assert(text::joined(parts.drop_last(), sep) == parts[0]);
        assert(text::joined(rest, sep) == parts[1]);
    } else {
        lemma_joined_first(parts.drop_last(), sep);
        assert(parts.drop_last().skip(1) == rest.drop_last());
        assert(text::joined(rest, sep) == text::joined(rest.drop_last(), sep) + sep
            + parts.last());
    }
}

/// Splitting loses nothing: joined, the pieces are the text again.
pub proof fn law_joining_undoes_splitting(s: Seq<char>, sep: char)
    ensures
        text::split(s, sep).len() > 0,
        text::joined(text::split(s, sep), seq![sep]) == s,
        forall|i: int|
            0 <= i < text::split(s, sep).len() ==> lacks(#[trigger] text::split(s, sep)[i], sep),
    decreases s.len(),
{
    text::lemma_position(s, sep);
    let p = text::position(s, sep);
    let pieces = text::split(s, sep);
    if p >= s.len() {
        assert(pieces == seq![s]);
    } else {
        let rest = text::split(s.skip(p + 1), sep);
        law_joining_undoes_splitting(s.skip(p + 1), sep);
        assert(pieces == seq![s.take(p)] + rest);
        lemma_joined_first(pieces, seq![sep]);
        assert(pieces.skip(1) == rest);
        assert(s.take(p) + seq![sep] + s.skip(p + 1) == s);
        assert forall|i: int| 0 <= i < pieces.len() implies lacks(#[trigger] pieces[i], sep) by {
            if i > 0 {
                assert(pieces[i] == rest[i - 1]);
            }
        }
    }
}

/// Case does not matter to texts that are alike but for the case of their
/// ASCII letters, and nothing else about them may differ.
pub proof fn law_only_case_is_ignored(a: Seq<char>, b: Seq<char>)
    ensures
        text::same_ignoring_case(a, b) <==> a.len() == b.len() && forall|i: int|
            0 <= i < a.len() ==> {
                ||| #[trigger] a[i] == b[i]
                ||| 'a' <= a[i] <= 'z' && b[i] as u32 + 32 == a[i] as u32
                ||| 'a' <= b[i] <= 'z' && a[i] as u32 + 32 == b[i] as u32
            },
{
    if text::same_ignoring_case(a, b) {
        assert(text::lowered(a).len() == a.len());
        assert(text::lowered(b).len() == b.len());
        assert forall|i: int| 0 <= i < a.len() implies {
            ||| #[trigger] a[i] == b[i]
            ||| 'a' <= a[i] <= 'z' && b[i] as u32 + 32 == a[i] as u32
            ||| 'a' <= b[i] <= 'z' && a[i] as u32 + 32 == b[i] as u32
        } by {
            assert(text::lowered(a)[i] == text::lower(a[i]));
            assert(text::lowered(b)[i] == text::lower(b[i]));
        }
    } else if a.len() == b.len() {
        assert(exists|i: int| 0 <= i < a.len() && text::lowered(a)[i] != text::lowered(b)[i]) by {
            if forall|i: int| 0 <= i < a.len() ==> text::lowered(a)[i] == text::lowered(b)[i] {
                assert(text::lowered(a) =~= text::lowered(b));
            }
        }
        let i = choose|i: int| 0 <= i < a.len() && text::lowered(a)[i] != text::lowered(b)[i];
        assert(text::lowered(a)[i] == text::lower(a[i]));
        assert(text::lowered(b)[i] == text::lower(b[i]));
        assert(a[i] != b[i]);
    }
}

/// A number in decimal reads as itself.
pub proof fn law_decimal_reads_back(n: nat, max: nat)
    requires
        n <= max,
    ensures
        text::unsigned_value(text::decimal(n), 10) == Some(n),
        text::bounded_value(text::decimal(n), 10, max) == Some(n),
        text::trimmed(text::decimal(n)) == text::decimal(n),
{
    let d = text::decimal(n);
    text::lemma_decimal_digits(n);
    assert('0' <= d[0] <= '9');
    assert('0' <= d[d.len() - 1] <= '9');
    law_trimming_takes_what_is_around(Seq::empty(), d, Seq::empty());
    assert(Seq::<char>::empty() + d + Seq::<char>::empty() == d);
}

/// The digits of a number are those of its tenth, and then its last.
pub proof fn law_digits_of_a_number(n: nat, d: nat)
    requires
        d < 10,
    ensures
        n == 0 ==> text::decimal(d) == seq!["0123456789"@[d as int]],
        n > 0 ==> text::decimal(n * 10 + d) == text::decimal(n).push("0123456789"@[d as int]),
{
    reveal_strlit("0123456789");
    assert(text::digit_char(d) == "0123456789"@[d as int]);
    assert((n * 10 + d) / 10 == n);
    assert((n * 10 + d) % 10 == d);
}

/// Texts are encoded one after the other.
pub proof fn lemma_encode_concat(a: Seq<char>, b: Seq<char>)
    ensures
        vstd::utf8::encode_utf8(a + b) == vstd::utf8::encode_utf8(a) + vstd::utf8::encode_utf8(b),
    decreases a.len(),
{
    if a.len() == 0 {
        assert(a + b =~= b);
        assert(vstd::utf8::encode_utf8(a) + vstd::utf8::encode_utf8(b) =~= vstd::utf8::encode_utf8(
            b,
        ));
    } else {
        assert((a + b).drop_first() =~= a.drop_first() + b);
        lemma_encode_concat(a.drop_first(), b);
        assert(vstd::utf8::encode_utf8(a + b) =~= vstd::utf8::encode_utf8(a)
            + vstd::utf8::encode_utf8(b));
    }
}

/// A digit counts by its place among the digits, as a small letter and as a
/// capital, and digits count by their place in the number. What is no digit is
/// refused.
pub proof fn law_digits_are_read(front: Seq<char>, d: nat, base: nat, c: char)
    requires
        d < base <= 16,
    ensures
        text::digits_value(front.push("0123456789abcdef"@[d as int]), base) == match text::digits_value(
            front,
            base,
        ) {
            Some(high) => Some(high * base + d),
            None => None,
        },
        text::digits_value(front.push("0123456789ABCDEF"@[d as int]), base) == text::digits_value(
            front.push("0123456789abcdef"@[d as int]),
            base,
        ),
        text::digits_value(Seq::empty(), base) == Some(0nat),
        !("0123456789abcdefABCDEF"@.contains(c)) ==> text::digits_value(front.push(c), base)
            is None,
{
    reveal_strlit("0123456789abcdef");
    reveal_strlit("0123456789ABCDEF");
    let (small, capital) = ("0123456789abcdef"@[d as int], "0123456789ABCDEF"@[d as int]);
    assert(front.push(small).drop_last() =~= front);
    assert(front.push(capital).drop_last() =~= front);
    assert(text::digit_value(small, base) == Some(d));
    assert(text::digit_value(capital, base) == Some(d));
    assert(front.push(c).drop_last() =~= front);
    let all = "0123456789abcdefABCDEF"@;
    reveal_strlit("0123456789abcdefABCDEF");
    if '0' <= c <= '9' {
        assert(all[c as int - 48] == c);
    } else if 'a' <= c <= 'f' {
        assert(all[c as int - 97 + 10] == c);
    } else if 'A' <= c <= 'F' {
        assert(all[c as int - 65 + 16] == c);
    }
}

/// A number may have a plus sign before it, and a signed one a minus sign; a
/// number that is too large, and a sign alone, is none.
pub proof fn law_signs_are_read(n: nat, max: nat)
    ensures
        text::unsigned_value(seq!['+'] + text::decimal(n), 10) == Some(n),
        text::bounded_value(text::decimal(n), 10, max) == if n <= max {
            Some(n)
        } else {
            None
        },
        n <= i64::MAX ==> text::signed_value(text::decimal(n)) == Some(n as int),
        n <= 0x8000_0000_0000_0000 ==> text::signed_value(seq!['-'] + text::decimal(n)) == Some(
            -n,
        ),
        text::unsigned_value(seq!['+'], 10) is None,
        text::unsigned_value(Seq::empty(), 10) is None,
        text::signed_value(seq!['-']) is None,
        text::signed_decimal(n as int) == text::decimal(n),
        n > 0 ==> text::signed_decimal(-n) == seq!['-'] + text::decimal(n),
{
    let d = text::decimal(n);
    text::lemma_decimal_digits(n);
    assert('0' <= d[0] <= '9');
    assert((seq!['+'] + d).skip(1) =~= d);
    assert((seq!['-'] + d).skip(1) =~= d);
    assert((seq!['-'] + d)[0] == '-');
    assert(seq!['+'].skip(1) =~= Seq::<char>::empty());
}

/// All the dots before a text are taken away, and nothing else.
pub proof fn law_leading_dots_are_taken_away(dots: Seq<char>, s: Seq<char>)
    requires
        forall|i: int| 0 <= i < dots.len() ==> #[trigger] dots[i] == '.',
        s.len() > 0 ==> s[0] != '.',
    ensures
        text::without_leading_dots(dots + s) == s,
    decreases dots.len(),
{
    if dots.len() == 0 {
        assert(dots + s =~= s);
    } else {
        assert((dots + s)[0] == dots[0]);
        let rest = dots.skip(1);
        assert((dots + s).skip(1) =~= rest + s);
        assert forall|i: int| 0 <= i < rest.len() implies #[trigger] rest[i] == '.' by {
            assert(rest[i] == dots[i + 1]);
        }
        law_leading_dots_are_taken_away(rest, s);
    }
}

/// The white space of Unicode.
pub open spec fn white_space() -> Seq<char> {
    seq![
        '\t',
        '\n',
        '\u{b}',
        '\u{c}',
        '\r',
        ' ',
        '\u{85}',
        '\u{a0}',
        '\u{1680}',
        '\u{2000}',
        '\u{2001}',
        '\u{2002}',
        '\u{2003}',
        '\u{2004}',
        '\u{2005}',
        '\u{2006}',
        '\u{2007}',
        '\u{2008}',
        '\u{2009}',
        '\u{200a}',
        '\u{2028}',
        '\u{2029}',
        '\u{202f}',
        '\u{205f}',
        '\u{3000}',
    ]
}

/// White space is the 25 characters that Unicode calls so.
pub proof fn law_white_space(c: char)
    ensures
        text::is_space(c) <==> white_space().contains(c),
{
    let all = white_space();
    assert(all[0] == '\t');
    assert(all[1] == '\n');
    assert(all[2] == '\u{b}');
    assert(all[3] == '\u{c}');
    assert(all[4] == '\r');
    assert(all[5] == ' ');
    assert(all[6] == '\u{85}');
    assert(all[7] == '\u{a0}');
    assert(all[8] == '\u{1680}');
    assert(all[9] == '\u{2000}');
    assert(all[10] == '\u{2001}');
    assert(all[11] == '\u{2002}');
    assert(all[12] == '\u{2003}');
    assert(all[13] == '\u{2004}');
    assert(all[14] == '\u{2005}');
    assert(all[15] == '\u{2006}');
    assert(all[16] == '\u{2007}');
    assert(all[17] == '\u{2008}');
    assert(all[18] == '\u{2009}');
    assert(all[19] == '\u{200a}');
    assert(all[20] == '\u{2028}');
    assert(all[21] == '\u{2029}');
    assert(all[22] == '\u{202f}');
    assert(all[23] == '\u{205f}');
    assert(all[24] == '\u{3000}');
    if all.contains(c) {
        let i = choose|i: int| 0 <= i < all.len() && all[i] == c;
        assert(0 <= i < 25);
        assert(text::is_space(all[i]));
    }
    if '\u{2000}' <= c <= '\u{200a}' {
        assert(all[9 + (c as int - 0x2000)] == c);
    }
}

/// A text in lower case has no capital ASCII letter, and is otherwise the text.
pub proof fn law_lower_case(s: Seq<char>, i: int)
    requires
        0 <= i < s.len(),
    ensures
        text::lowered(s).len() == s.len(),
        !('A' <= text::lowered(s)[i] <= 'Z'),
        text::lowered(s)[i] == s[i] || ('A' <= s[i] <= 'Z' && text::lowered(s)[i] as u32 == s[i] as u32
            + 32),
        text::lowered(text::lowered(s)) == text::lowered(s),
{
    assert(text::lowered(s)[i] == text::lower(s[i]));
    assert(text::lowered(text::lowered(s)) =~= text::lowered(s)) by {
        assert forall|k: int| 0 <= k < s.len() implies text::lowered(text::lowered(s))[k]
            == text::lowered(s)[k] by {
            assert(text::lowered(s)[k] == text::lower(s[k]));
            assert(text::lowered(text::lowered(s))[k] == text::lower(text::lower(s[k])));
        }
    }
}

} // verus!

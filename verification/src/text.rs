//! Text as sequences of characters: the few string operations that the rest
//! of the library is built from.

use vstd::prelude::*;
use vstd::slice::slice_subrange;

verus! {

/// The ASCII lower case of a character.
pub open spec fn lower(c: char) -> char {
    if 'A' <= c <= 'Z' {
        (c as u32 + 32) as char
    } else {
        c
    }
}

/// The ASCII lower case of a text.
pub open spec fn lowered(s: Seq<char>) -> Seq<char> {
    s.map_values(|c: char| lower(c))
}

/// Whether two texts differ at most in the case of ASCII letters.
pub open spec fn same_ignoring_case(a: Seq<char>, b: Seq<char>) -> bool {
    lowered(a) == lowered(b)
}

/// Unicode white space.
pub open spec fn is_space(c: char) -> bool {
    ||| '\u{9}' <= c <= '\u{d}'
    ||| c == ' '
    ||| c == '\u{85}'
    ||| c == '\u{a0}'
    ||| c == '\u{1680}'
    ||| '\u{2000}' <= c <= '\u{200a}'
    ||| c == '\u{2028}'
    ||| c == '\u{2029}'
    ||| c == '\u{202f}'
    ||| c == '\u{205f}'
    ||| c == '\u{3000}'
}

/// `s` without its leading white space.
pub open spec fn trim_start(s: Seq<char>) -> Seq<char>
    decreases s.len(),
{
    if s.len() > 0 && is_space(s[0]) {
        trim_start(s.skip(1))
    } else {
        s
    }
}

/// `s` without its trailing white space.
pub open spec fn trim_end(s: Seq<char>) -> Seq<char>
    decreases s.len(),
{
    if s.len() > 0 && is_space(s.last()) {
        trim_end(s.drop_last())
    } else {
        s
    }
}

/// `s` without the white space around it.
pub open spec fn trimmed(s: Seq<char>) -> Seq<char> {
    trim_end(trim_start(s))
}

/// `s` without the dots it starts with.
pub open spec fn without_leading_dots(s: Seq<char>) -> Seq<char>
    decreases s.len(),
{
    if s.len() > 0 && s[0] == '.' {
        without_leading_dots(s.skip(1))
    } else {
        s
    }
}

/// Where `c` first occurs in `s`; the length of `s` if it does not.
pub open spec fn position<T>(s: Seq<T>, c: T) -> int
    decreases s.len(),
{
    if s.len() == 0 || s[0] == c {
        0
    } else {
        1 + position(s.skip(1), c)
    }
}

/// Where `c` last occurs in `s`; -1 if it does not.
pub open spec fn last_position(s: Seq<char>, c: char) -> int
    decreases s.len(),
{
    if s.len() == 0 {
        -1
    } else if s.last() == c {
        s.len() - 1
    } else {
        last_position(s.drop_last(), c)
    }
}

/// The pieces of `s` between the occurrences of `sep`, the empty ones
/// included.
pub open spec fn split(s: Seq<char>, sep: char) -> Seq<Seq<char>>
    decreases s.len(),
    via split_decreases
{
    let p = position(s, sep);
    if p >= s.len() {
        seq![s]
    } else {
        seq![s.take(p)] + split(s.skip(p + 1), sep)
    }
}

#[via_fn]
proof fn split_decreases(s: Seq<char>, sep: char) {
    lemma_position(s, sep);
}

/// Where `pattern` first occurs in `s`; the length of `s` if it does not.
pub open spec fn text_position(s: Seq<char>, pattern: Seq<char>) -> int
    decreases s.len(),
{
    if s.len() == 0 || starts_with(s, pattern) {
        0
    } else {
        1 + text_position(s.skip(1), pattern)
    }
}

/// Whether `s` starts with `prefix`.
pub open spec fn starts_with(s: Seq<char>, prefix: Seq<char>) -> bool {
    prefix.len() <= s.len() && s.take(prefix.len() as int) == prefix
}

/// Whether `s` ends with `suffix`.
pub open spec fn ends_with(s: Seq<char>, suffix: Seq<char>) -> bool {
    suffix.len() <= s.len() && s.skip(s.len() - suffix.len()) == suffix
}

/// Whether `host` is `domain` itself or a name below it (`domain` preceded
/// by a dot).
pub open spec fn within_domain(host: Seq<char>, domain: Seq<char>) -> bool {
    host == domain || ends_with(host, seq!['.'] + domain)
}

pub proof fn lemma_position<T>(s: Seq<T>, c: T)
    ensures
        0 <= position(s, c) <= s.len(),
        position(s, c) < s.len() ==> s[position(s, c)] == c,
        forall|i: int| 0 <= i < position(s, c) ==> s[i] != c,
    decreases s.len(),
{
    if s.len() > 0 && s[0] != c {
        lemma_position(s.skip(1), c);
        let p = position(s.skip(1), c);
        assert forall|i: int| 0 <= i < 1 + p implies s[i] != c by {
            if i > 0 {
                assert(s[i] == s.skip(1)[i - 1]);
            }
        }
    }
}

/// The first occurrence is the only index with nothing but other elements
/// before it.
pub proof fn lemma_position_unique<T>(s: Seq<T>, c: T, p: int)
    requires
        0 <= p <= s.len(),
        p < s.len() ==> s[p] == c,
        forall|i: int| 0 <= i < p ==> s[i] != c,
    ensures
        position(s, c) == p,
{
    lemma_position(s, c);
    let q = position(s, c);
    if q < p {
        assert(s[q] != c);
    } else if p < q {
        assert(s[p] != c);
    }
}

pub proof fn lemma_last_position(s: Seq<char>, c: char)
    ensures
        -1 <= last_position(s, c) < s.len(),
        0 <= last_position(s, c) ==> s[last_position(s, c)] == c,
        forall|i: int| last_position(s, c) < i < s.len() ==> s[i] != c,
    decreases s.len(),
{
    if s.len() > 0 && s.last() != c {
        let front = s.drop_last();
        lemma_last_position(front, c);
        assert forall|i: int| last_position(s, c) < i < s.len() implies s[i] != c by {
            if i < front.len() {
                assert(front[i] != c);
            }
        }
    }
}

pub proof fn lemma_last_position_unique(s: Seq<char>, c: char, p: int)
    requires
        -1 <= p < s.len(),
        0 <= p ==> s[p] == c,
        forall|i: int| p < i < s.len() ==> s[i] != c,
    ensures
        last_position(s, c) == p,
{
    lemma_last_position(s, c);
    let q = last_position(s, c);
    if q < p {
        assert(s[p] != c);
    } else if p < q {
        assert(s[q] != c);
    }
}

/// The characters of a string slice.
pub fn chars_of(s: &str) -> (out: Vec<char>)
    ensures
        out@ == s@,
{
    let mut out: Vec<char> = Vec::new();
    for c in it: s.chars()
        invariant
            out@ == it.seq().take(it.index() as int),
            it.seq() == s@,
    {
        out.push(c);
    }
    out
}

/// The string with these characters.
pub fn text_of(chars: &[char]) -> (out: String)
    ensures
        out@ == chars@,
{
    let mut out = String::new();
    for i in 0..chars.len()
        invariant
            out@ == chars@.take(i as int),
    {
        out.push(chars[i]);
    }
    assert(chars@.take(chars@.len() as int) == chars@);
    out
}

/// A copy of a string slice.
pub fn owned(s: &str) -> (out: String)
    ensures
        out@ == s@,
{
    s.to_owned()
}

/// A copy of these characters.
pub fn copied(chars: &[char]) -> (out: Vec<char>)
    ensures
        out@ == chars@,
{
    vstd::slice::slice_to_vec(chars)
}

/// The characters from `from` up to `to`.
pub fn part(chars: &[char], from: usize, to: usize) -> (out: &[char])
    requires
        from <= to <= chars@.len(),
    ensures
        out@ == chars@.subrange(from as int, to as int),
{
    slice_subrange(chars, from, to)
}

/// Whether two character slices are equal.
pub fn same_chars(a: &[char], b: &[char]) -> (same: bool)
    ensures
        same == (a@ == b@),
{
    if a.len() != b.len() {
        return false;
    }
    for i in 0..a.len()
        invariant
            a@.len() == b@.len(),
            a@.take(i as int) == b@.take(i as int),
    {
        if a[i] != b[i] {
            assert(a@[i as int] != b@[i as int]);
            return false;
        }
        assert(a@.take(i + 1) == a@.take(i as int).push(a@[i as int]));
        assert(b@.take(i + 1) == b@.take(i as int).push(b@[i as int]));
    }
    assert(a@.take(a@.len() as int) == a@);
    assert(b@.take(b@.len() as int) == b@);
    true
}

/// Whether these characters spell `text`.
pub fn spells(chars: &[char], text: &str) -> (same: bool)
    ensures
        same == (chars@ == text@),
{
    same_chars(chars, chars_of(text).as_slice())
}

/// Whether two string slices are equal.
pub fn same_text(a: &str, b: &str) -> (same: bool)
    ensures
        same == (a@ == b@),
{
    same_chars(chars_of(a).as_slice(), chars_of(b).as_slice())
}

/// The ASCII lower case of a character.
pub fn lower_char(c: char) -> (out: char)
    ensures
        out == lower(c),
{
    if 'A' <= c && c <= 'Z' {
        (c as u8 + 32) as char
    } else {
        c
    }
}

/// The ASCII lower case of these characters.
pub fn lower_chars(chars: &[char]) -> (out: Vec<char>)
    ensures
        out@ == lowered(chars@),
{
    let mut out: Vec<char> = Vec::new();
    for i in 0..chars.len()
        invariant
            out@ == lowered(chars@).take(i as int),
    {
        out.push(lower_char(chars[i]));
    }
    out
}

/// The ASCII lower case of a string slice.
pub fn lower_text(s: &str) -> (out: String)
    ensures
        out@ == lowered(s@),
{
    text_of(lower_chars(chars_of(s).as_slice()).as_slice())
}

/// Whether two string slices differ at most in the case of ASCII letters.
pub fn same_text_ignoring_case(a: &str, b: &str) -> (same: bool)
    ensures
        same == same_ignoring_case(a@, b@),
{
    same_chars(
        lower_chars(chars_of(a).as_slice()).as_slice(),
        lower_chars(chars_of(b).as_slice()).as_slice(),
    )
}

/// Whether these characters spell `text`, the case of ASCII letters aside.
pub fn spells_ignoring_case(chars: &[char], text: &str) -> (same: bool)
    ensures
        same == same_ignoring_case(chars@, text@),
{
    same_chars(
        lower_chars(chars).as_slice(),
        lower_chars(chars_of(text).as_slice()).as_slice(),
    )
}

/// Whether a character is white space.
pub fn is_space_char(c: char) -> (yes: bool)
    ensures
        yes == is_space(c),
{
    ('\u{9}' <= c && c <= '\u{d}') || c == ' ' || c == '\u{85}' || c == '\u{a0}' || c == '\u{1680}'
        || ('\u{2000}' <= c && c <= '\u{200a}') || c == '\u{2028}' || c == '\u{2029}' || c
        == '\u{202f}' || c == '\u{205f}' || c == '\u{3000}'
}

/// The characters without the white space around them.
pub fn trim(chars: &[char]) -> (out: &[char])
    ensures
        out@ == trimmed(chars@),
{
    let mut from: usize = 0;
    assert(chars@.skip(0) == chars@);
    while from < chars.len() && is_space_char(chars[from])
        invariant
            from <= chars@.len(),
            trim_start(chars@) == trim_start(chars@.skip(from as int)),
        decreases chars@.len() - from,
    {
        assert(chars@.skip(from as int).skip(1) == chars@.skip(from + 1));
        from = from + 1;
    }
    let ghost started = chars@.skip(from as int);
    assert(trim_start(chars@) == started);
    let mut to: usize = chars.len();
    assert(chars@.subrange(from as int, to as int) == started);
    while to > from && is_space_char(chars[to - 1])
        invariant
            from <= to <= chars@.len(),
            trim_end(started) == trim_end(chars@.subrange(from as int, to as int)),
        decreases to,
    {
        assert(chars@.subrange(from as int, to as int).drop_last() == chars@.subrange(
            from as int,
            to - 1,
        ));
        to = to - 1;
    }
    slice_subrange(chars, from, to)
}

/// The characters without the dots they start with.
pub fn trim_dots(chars: &[char]) -> (out: &[char])
    ensures
        out@ == without_leading_dots(chars@),
{
    let mut from: usize = 0;
    assert(chars@.skip(0) == chars@);
    while from < chars.len() && chars[from] == '.'
        invariant
            from <= chars@.len(),
            without_leading_dots(chars@) == without_leading_dots(chars@.skip(from as int)),
        decreases chars@.len() - from,
    {
        assert(chars@.skip(from as int).skip(1) == chars@.skip(from + 1));
        from = from + 1;
    }
    assert(chars@.subrange(from as int, chars@.len() as int) == chars@.skip(from as int));
    slice_subrange(chars, from, chars.len())
}

/// Where `c` first occurs; the length if it does not.
pub fn find(chars: &[char], c: char) -> (p: usize)
    ensures
        p == position(chars@, c),
        p <= chars@.len(),
{
    let mut i: usize = 0;
    while i < chars.len() && chars[i] != c
        invariant
            i <= chars@.len(),
            forall|j: int| 0 <= j < i ==> chars@[j] != c,
        decreases chars@.len() - i,
    {
        i = i + 1;
    }
    proof {
        lemma_position_unique(chars@, c, i as int);
    }
    i
}

/// Where `pattern` first occurs; the length if it does not.
pub fn find_text(chars: &[char], pattern: &[char]) -> (p: usize)
    requires
        pattern@.len() > 0,
    ensures
        p == text_position(chars@, pattern@),
        p == chars@.len() || p + pattern@.len() <= chars@.len(),
{
    let mut i: usize = 0;
    assert(chars@.skip(0) == chars@);
    while i < chars.len()
        invariant
            i <= chars@.len(),
            text_position(chars@, pattern@) == i + text_position(chars@.skip(i as int), pattern@),
        decreases chars@.len() - i,
    {
        let rest = slice_subrange(chars, i, chars.len());
        assert(rest@ == chars@.skip(i as int));
        if has_prefix(rest, pattern) {
            return i;
        }
        assert(chars@.skip(i as int).skip(1) == chars@.skip(i + 1));
        i = i + 1;
    }
    i
}

/// Where `c` last occurs, if it does.
pub fn find_last(chars: &[char], c: char) -> (p: Option<usize>)
    ensures
        match p {
            Some(i) => i == last_position(chars@, c) && i < chars@.len() <= usize::MAX,
            None => last_position(chars@, c) == -1,
        },
{
    let mut i: usize = chars.len();
    while i > 0 && chars[i - 1] != c
        invariant
            i <= chars@.len(),
            forall|j: int| i <= j < chars@.len() ==> chars@[j] != c,
        decreases i,
    {
        i = i - 1;
    }
    proof {
        lemma_last_position_unique(chars@, c, i - 1);
    }
    if i == 0 {
        None
    } else {
        Some(i - 1)
    }
}

/// The pieces between the occurrences of `sep`.
pub fn split_chars(chars: &[char], sep: char) -> (pieces: Vec<&[char]>)
    ensures
        pieces@.map_values(|p: &[char]| p@) == split(chars@, sep),
        pieces@.len() > 0,
{
    let mut pieces: Vec<&[char]> = Vec::new();
    let mut rest: &[char] = chars;
    let ghost view = |p: &[char]| p@;
    loop
        invariant
            view == (|p: &[char]| p@),
            split(chars@, sep) == pieces@.map_values(view) + split(rest@, sep),
        decreases rest@.len(),
    {
        let p = find(rest, sep);
        if p == rest.len() {
            let ghost before = pieces@;
            pieces.push(rest);
            assert(pieces@.map_values(view) == before.map_values(view).push(rest@));
            assert(split(chars@, sep) == before.map_values(view) + seq![rest@]);
            return pieces;
        }
        let piece = slice_subrange(rest, 0, p);
        let next = slice_subrange(rest, p + 1, rest.len());
        let ghost before = pieces@;
        pieces.push(piece);
        proof {
            assert(piece@ == rest@.take(p as int));
            assert(next@ == rest@.skip(p + 1));
            assert(split(rest@, sep) == seq![piece@] + split(next@, sep));
            assert(pieces@.map_values(view) == before.map_values(view).push(piece@));
            assert(before.map_values(view) + (seq![piece@] + split(next@, sep))
                == before.map_values(view).push(piece@) + split(next@, sep));
        }
        rest = next;
    }
}

/// Whether the characters start with `prefix`.
pub fn has_prefix(chars: &[char], prefix: &[char]) -> (yes: bool)
    ensures
        yes == starts_with(chars@, prefix@),
{
    if prefix.len() > chars.len() {
        return false;
    }
    assert(chars@.subrange(0, prefix@.len() as int) == chars@.take(prefix@.len() as int));
    same_chars(slice_subrange(chars, 0, prefix.len()), prefix)
}

/// Whether `host` is `domain` or a name below it.
pub fn is_within_domain(host: &[char], domain: &[char]) -> (yes: bool)
    ensures
        yes == within_domain(host@, domain@),
{
    if same_chars(host, domain) {
        return true;
    }
    if host.len() <= domain.len() {
        return false;
    }
    let cut = host.len() - domain.len();
    let tail = slice_subrange(host, cut, host.len());
    let below = host[cut - 1] == '.' && same_chars(tail, domain);
    proof {
        let suffix = seq!['.'] + domain@;
        let end = host@.skip(host@.len() - suffix.len());
        assert(end == seq![host@[cut - 1]] + tail@);
        if end == suffix {
            assert(end[0] == '.');
            assert(tail@ == end.skip(1));
            assert(domain@ == suffix.skip(1));
        }
    }
    below
}

/// The decimal digit for a number below ten.
pub open spec fn digit_char(d: nat) -> char {
    (48 + d) as char
}

/// A number in decimal, without leading zeros.
pub open spec fn decimal(n: nat) -> Seq<char>
    decreases n,
{
    if n < 10 {
        seq![digit_char(n)]
    } else {
        decimal(n / 10).push(digit_char(n % 10))
    }
}

/// An integer in decimal, with a minus sign if it is negative.
pub open spec fn signed_decimal(n: int) -> Seq<char> {
    if n < 0 {
        seq!['-'] + decimal((-n) as nat)
    } else {
        decimal(n as nat)
    }
}

/// A number in decimal is made of digits and has that number's value.
pub proof fn lemma_decimal_digits(n: nat)
    ensures
        decimal(n).len() > 0,
        forall|i: int|
            0 <= i < decimal(n).len() ==> '0' <= #[trigger] decimal(n)[i] <= '9',
        digits_value(decimal(n), 10) == Some(n),
    decreases n,
{
    let d = decimal(n);
    if n < 10 {
        assert(d.drop_last() =~= Seq::<char>::empty());
        assert(digits_value(d.drop_last(), 10) == Some(0nat));
    } else {
        lemma_decimal_digits(n / 10);
        assert(d.drop_last() =~= decimal(n / 10));
        assert forall|i: int| 0 <= i < d.len() implies '0' <= #[trigger] d[i] <= '9' by {
            if i < d.len() - 1 {
                assert(d[i] == decimal(n / 10)[i]);
            }
        }
    }
}

/// A number in decimal, as characters.
pub fn decimal_chars(n: u128) -> (out: Vec<char>)
    ensures
        out@ == decimal(n as nat),
    decreases n,
{
    let d = (n % 10) as u8;
    let c = (48u8 + d) as char;
    if n < 10 {
        let mut out: Vec<char> = Vec::new();
        out.push(c);
        assert(out@ == seq![digit_char(n as nat)]);
        out
    } else {
        let mut out = decimal_chars(n / 10);
        out.push(c);
        out
    }
}

/// A number in decimal.
pub fn decimal_text(n: u128) -> (out: String)
    ensures
        out@ == decimal(n as nat),
{
    text_of(decimal_chars(n).as_slice())
}

/// An integer in decimal.
pub fn signed_decimal_text(n: i128) -> (out: String)
    requires
        n > i128::MIN,
    ensures
        out@ == signed_decimal(n as int),
{
    let mut out = String::new();
    if n < 0 {
        out.push('-');
        out.push_str(decimal_text((-n) as u128).as_str());
        assert(out@ == seq!['-'] + decimal((-n) as nat));
    } else {
        out = decimal_text(n as u128);
    }
    out
}

/// The value of a digit in a base up to sixteen.
pub open spec fn digit_value(c: char, base: nat) -> Option<nat> {
    let v: nat = if '0' <= c <= '9' {
        (c as u32 - 48) as nat
    } else if 'a' <= c <= 'f' {
        (c as u32 - 97 + 10) as nat
    } else if 'A' <= c <= 'F' {
        (c as u32 - 65 + 10) as nat
    } else {
        16
    };
    if v < base {
        Some(v)
    } else {
        None
    }
}

/// The value of a sequence of digits; none if some character is no digit.
pub open spec fn digits_value(s: Seq<char>, base: nat) -> Option<nat>
    decreases s.len(),
{
    if s.len() == 0 {
        Some(0)
    } else {
        match (digits_value(s.drop_last(), base), digit_value(s.last(), base)) {
            (Some(high), Some(low)) => Some(high * base + low),
            _ => None,
        }
    }
}

/// The value of an unsigned number: digits, at least one, after an optional
/// plus sign.
pub open spec fn unsigned_value(s: Seq<char>, base: nat) -> Option<nat> {
    let digits = if s.len() > 0 && s[0] == '+' {
        s.skip(1)
    } else {
        s
    };
    if digits.len() == 0 {
        None
    } else {
        digits_value(digits, base)
    }
}

/// The value of an unsigned number, where it is at most `max`.
pub open spec fn bounded_value(s: Seq<char>, base: nat, max: nat) -> Option<nat> {
    match unsigned_value(s, base) {
        Some(v) if v <= max => Some(v),
        _ => None,
    }
}

/// The value of a signed decimal number that fits in 64 bits.
pub open spec fn signed_value(s: Seq<char>) -> Option<int> {
    if s.len() > 0 && s[0] == '-' {
        if s.len() == 1 {
            None
        } else {
            match digits_value(s.skip(1), 10) {
                Some(v) if -v >= i64::MIN => Some(-v),
                _ => None,
            }
        }
    } else {
        match unsigned_value(s, 10) {
            Some(v) if v <= i64::MAX => Some(v as int),
            _ => None,
        }
    }
}

proof fn lemma_digits_value_none(s: Seq<char>, base: nat, i: int)
    requires
        0 <= i <= s.len(),
        digits_value(s.take(i), base) is None,
    ensures
        digits_value(s, base) is None,
    decreases s.len() - i,
{
    if i == s.len() {
        assert(s.take(i) == s);
    } else {
        assert(s.take(i + 1).drop_last() == s.take(i));
        lemma_digits_value_none(s, base, i + 1);
    }
}

proof fn lemma_digits_value_grows(s: Seq<char>, base: nat, i: int)
    requires
        0 <= i <= s.len(),
        base >= 1,
        digits_value(s, base) is Some,
    ensures
        digits_value(s.take(i), base) is Some,
        digits_value(s.take(i), base)->0 <= digits_value(s, base)->0,
    decreases s.len() - i,
{
    if i == s.len() {
        assert(s.take(i) == s);
    } else {
        lemma_digits_value_grows(s, base, i + 1);
        assert(s.take(i + 1).drop_last() == s.take(i));
        let high = digits_value(s.take(i), base)->0;
        assert(high <= high * base) by (nonlinear_arith)
            requires
                base >= 1,
                high >= 0,
        ;
    }
}

fn digit(c: char, base: u64) -> (d: Option<u64>)
    requires
        2 <= base <= 16,
    ensures
        match d {
            Some(v) => digit_value(c, base as nat) == Some(v as nat),
            None => digit_value(c, base as nat) is None,
        },
{
    let v: u64 = if '0' <= c && c <= '9' {
        (c as u32 - 48) as u64
    } else if 'a' <= c && c <= 'f' {
        (c as u32 - 97 + 10) as u64
    } else if 'A' <= c && c <= 'F' {
        (c as u32 - 65 + 10) as u64
    } else {
        16
    };
    if v < base {
        Some(v)
    } else {
        None
    }
}

/// Reads digits, at least one, whose value is at most `max`.
fn read_digits(chars: &[char], base: u64, max: u64) -> (value: Option<u64>)
    requires
        2 <= base <= 16,
    ensures
        match value {
            Some(v) => chars@.len() > 0 && digits_value(chars@, base as nat) == Some(v as nat) && v
                <= max,
            None => chars@.len() == 0 || digits_value(chars@, base as nat) is None || digits_value(
                chars@,
                base as nat,
            )->0 > max,
        },
{
    if chars.len() == 0 {
        return None;
    }
    let mut v: u64 = 0;
    for i in 0..chars.len()
        invariant
            2 <= base <= 16,
            v <= max,
            digits_value(chars@.take(i as int), base as nat) == Some(v as nat),
    {
        proof {
            assert(chars@.take(i + 1).drop_last() == chars@.take(i as int));
        }
        match digit(chars[i], base) {
            None => {
                proof {
                    lemma_digits_value_none(chars@, base as nat, i + 1);
                }
                return None;
            },
            Some(d) => {
                assert(0 <= v * base <= u64::MAX * 16) by (nonlinear_arith)
                    requires
                        0 <= v <= u64::MAX,
                        0 <= base <= 16,
                ;
                let wide: u128 = v as u128 * base as u128 + d as u128;
                proof {
                    assert(digits_value(chars@.take(i + 1), base as nat) == Some(wide as nat));
                }
                if wide > max as u128 {
                    proof {
                        if digits_value(chars@, base as nat) is Some {
                            lemma_digits_value_grows(chars@, base as nat, i + 1);
                        }
                    }
                    return None;
                }
                v = wide as u64;
            },
        }
    }
    assert(chars@.take(chars@.len() as int) == chars@);
    Some(v)
}

/// Reads an unsigned number of at most `max`.
pub fn read_unsigned(chars: &[char], base: u64, max: u64) -> (value: Option<u64>)
    requires
        2 <= base <= 16,
    ensures
        match value {
            Some(v) => bounded_value(chars@, base as nat, max as nat) == Some(v as nat) && v <= max,
            None => bounded_value(chars@, base as nat, max as nat) is None,
        },
{
    if chars.len() > 0 && chars[0] == '+' {
        assert(chars@.subrange(1, chars@.len() as int) == chars@.skip(1));
        read_digits(slice_subrange(chars, 1, chars.len()), base, max)
    } else {
        read_digits(chars, base, max)
    }
}

/// Reads a signed number of 64 bits.
pub fn read_signed(chars: &[char]) -> (value: Option<i64>)
    ensures
        match value {
            Some(v) => signed_value(chars@) == Some(v as int),
            None => signed_value(chars@) is None,
        },
{
    if chars.len() > 0 && chars[0] == '-' {
        assert(chars@.subrange(1, chars@.len() as int) == chars@.skip(1));
        match read_digits(slice_subrange(chars, 1, chars.len()), 10, 9_223_372_036_854_775_808) {
            Some(v) => Some((-(v as i128)) as i64),
            None => None,
        }
    } else {
        match read_unsigned(chars, 10, 9_223_372_036_854_775_807) {
            Some(v) => Some(v as i64),
            None => None,
        }
    }
}

/// The parts in order, with `sep` between each two.
pub open spec fn joined(parts: Seq<Seq<char>>, sep: Seq<char>) -> Seq<char>
    decreases parts.len(),
{
    if parts.len() == 0 {
        seq![]
    } else if parts.len() == 1 {
        parts[0]
    } else {
        joined(parts.drop_last(), sep) + sep + parts.last()
    }
}

/// Joining one part more.
pub proof fn lemma_joined_next(parts: Seq<Seq<char>>, sep: Seq<char>, i: int)
    requires
        0 <= i < parts.len(),
    ensures
        joined(parts.take(i + 1), sep) == if i == 0 {
            parts[0]
        } else {
            joined(parts.take(i), sep) + sep + parts[i]
        },
{
    assert(parts.take(i + 1).drop_last() == parts.take(i));
}

/// The UTF-8 encoding of a text with one more character.
pub proof fn lemma_encode_push(s: Seq<char>, c: char)
    ensures
        vstd::utf8::encode_utf8(s.push(c)) == vstd::utf8::encode_utf8(s)
            + vstd::utf8::encode_scalar(c as u32),
    decreases s.len(),
{
    let whole = s.push(c);
    if s.len() == 0 {
        assert(whole.drop_first() == Seq::<char>::empty());
        assert(vstd::utf8::encode_utf8(whole.drop_first()) == Seq::<u8>::empty());
        assert(vstd::utf8::encode_utf8(whole) == vstd::utf8::encode_scalar(c as u32));
    } else {
        assert(whole.drop_first() == s.drop_first().push(c));
        lemma_encode_push(s.drop_first(), c);
    }
}

/// Each character takes at least one byte.
pub proof fn lemma_encode_at_least(s: Seq<char>)
    ensures
        vstd::utf8::encode_utf8(s).len() >= s.len(),
    decreases s.len(),
{
    if s.len() > 0 {
        lemma_encode_at_least(s.drop_first());
    }
}

/// A number of at most `n` digits is below the `n`th power of the base.
pub proof fn lemma_value_bound(s: Seq<char>, base: nat, n: nat)
    requires
        s.len() <= n,
        base >= 1,
    ensures
        unsigned_value(s, base) matches Some(v) ==> v < vstd::arithmetic::power::pow(
            base as int,
            n,
        ),
{
    let digits = if s.len() > 0 && s[0] == '+' {
        s.skip(1)
    } else {
        s
    };
    if digits.len() > 0 && digits_value(digits, base) is Some {
        lemma_digits_bound(digits, base);
        vstd::arithmetic::power::lemma_pow_increases(base, digits.len(), n);
    }
}

proof fn lemma_digits_bound(s: Seq<char>, base: nat)
    requires
        base >= 1,
        digits_value(s, base) is Some,
    ensures
        digits_value(s, base)->0 < vstd::arithmetic::power::pow(base as int, s.len()),
    decreases s.len(),
{
    reveal(vstd::arithmetic::power::pow);
    if s.len() > 0 {
        lemma_digits_bound(s.drop_last(), base);
        let high = digits_value(s.drop_last(), base)->0;
        let low = digit_value(s.last(), base)->0;
        let bound = vstd::arithmetic::power::pow(base as int, (s.len() - 1) as nat);
        assert(high * base + low < base * bound) by (nonlinear_arith)
            requires
                high + 1 <= bound,
                low < base,
                base >= 1,
        ;
    }
}

/// How many bytes a character takes in UTF-8.
pub fn char_width(c: char) -> (n: u8)
    ensures
        n == vstd::utf8::encode_scalar(c as u32).len(),
        1 <= n <= 4,
{
    let v = c as u32;
    if v <= 0x7f {
        1
    } else if v <= 0x7ff {
        2
    } else if v <= 0xffff {
        3
    } else {
        4
    }
}

/// How many bytes these characters take in UTF-8.
pub fn byte_count(chars: &[char]) -> (n: u128)
    ensures
        n == vstd::utf8::encode_utf8(chars@).len(),
{
    let mut n: u128 = 0;
    for i in 0..chars.len()
        invariant
            n == vstd::utf8::encode_utf8(chars@.take(i as int)).len(),
            n <= 4 * i,
    {
        proof {
            assert(chars@.take(i + 1) == chars@.take(i as int).push(chars@[i as int]));
            lemma_encode_push(chars@.take(i as int), chars@[i as int]);
        }
        n = n + char_width(chars[i]) as u128;
    }
    assert(chars@.take(chars@.len() as int) == chars@);
    n
}

/// The first byte of a character's UTF-8 encoding, as a character.
pub open spec fn lead_byte(c: char) -> char {
    vstd::utf8::encode_scalar(c as u32)[0] as char
}

/// The first byte of a character's UTF-8 encoding, as a character.
pub fn lead_byte_of(c: char) -> (b: char)
    ensures
        b == lead_byte(c),
{
    let v = c as u32;
    let byte: u8 = if v <= 0x7f {
        (v & 0x7F) as u8
    } else if v <= 0x7ff {
        0xC0 | ((v >> 6) & 0x1F) as u8
    } else if v <= 0xffff {
        0xE0 | ((v >> 12) & 0x0F) as u8
    } else {
        0xF0 | ((v >> 18) & 0x7) as u8
    };
    byte as char
}

/// The UTF-8 encoding of a string slice.
pub fn utf8_bytes(s: &str) -> (bytes: Vec<u8>)
    ensures
        bytes@ == vstd::utf8::encode_utf8(s@),
{
    vstd::slice::slice_to_vec(s.as_bytes())
}

/// Appends bytes.
pub fn append_bytes(out: &mut Vec<u8>, data: &[u8])
    ensures
        final(out)@ == old(out)@ + data@,
{
    let mut copy = vstd::slice::slice_to_vec(data);
    out.append(&mut copy);
}

} // verus!

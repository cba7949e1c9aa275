//! Calendar dates and the HTTP date format.

use crate::text;
use crate::text_laws;
use vstd::prelude::*;

verus! {

/// Days from 1970-01-01 to a date of the proleptic Gregorian calendar. Years
/// are counted from March, so that a leap day is the last day of its year.
pub open spec fn civil_days(year: int, month: int, day: int) -> int {
    let y = if month <= 2 {
        year - 1
    } else {
        year
    };
    let m = (month + 9) % 12;
    y * 365 + y / 4 - y / 100 + y / 400 + (153 * m + 2) / 5 + day - 1 - 719468
}

pub open spec fn is_leap_year(year: int) -> bool {
    year % 4 == 0 && (year % 100 != 0 || year % 400 == 0)
}

pub open spec fn days_in_month(year: int, month: int) -> int {
    if month == 2 {
        if is_leap_year(year) {
            29
        } else {
            28
        }
    } else if month == 4 || month == 6 || month == 9 || month == 11 {
        30
    } else {
        31
    }
}

pub open spec fn is_date(year: int, month: int, day: int) -> bool {
    1 <= month <= 12 && 1 <= day <= days_in_month(year, month)
}

/// The date of the next day.
pub open spec fn next_date(year: int, month: int, day: int) -> (int, int, int) {
    if day < days_in_month(year, month) {
        (year, month, day + 1)
    } else if month < 12 {
        (year, month + 1, 1)
    } else {
        (year + 1, 1, 1)
    }
}

/// The day count of the epoch is zero.
pub proof fn law_epoch_is_day_zero()
    ensures
        civil_days(1970, 1, 1) == 0,
{
}

/// From each day to the next, the day count grows by one, over the ends of
/// months and years and through leap years.
pub proof fn law_next_date_is_one_day_later(year: int, month: int, day: int)
    requires
        is_date(year, month, day),
    ensures
        ({
            let (y, m, d) = next_date(year, month, day);
            civil_days(y, m, d) == civil_days(year, month, day) + 1
        }),
{
    lemma_year_length(year - 1);
}

/// A year counted from March is a day longer if the following February has a
/// leap day.
#[verifier::rlimit(60)]
#[verifier::spinoff_prover]
proof fn lemma_year_length(y: int)
    ensures
        (y + 1) / 4 - y / 4 == if (y + 1) % 4 == 0 {
            1int
        } else {
            0
        },
        (y + 1) / 100 - y / 100 == if (y + 1) % 100 == 0 {
            1int
        } else {
            0
        },
        (y + 1) / 400 - y / 400 == if (y + 1) % 400 == 0 {
            1int
        } else {
            0
        },
        (y + 1) % 400 == 0 ==> (y + 1) % 100 == 0,
        (y + 1) % 100 == 0 ==> (y + 1) % 4 == 0,
{
    lemma_quotient_step(y, 4);
    lemma_quotient_step(y, 100);
    lemma_quotient_step(y, 400);
    let n = y + 1;
    if n % 400 == 0 {
        assert(n == 100 * (4 * (n / 400)));
    }
    if n % 100 == 0 {
        assert(n == 4 * (25 * (n / 100)));
    }
}

/// The quotient grows by one where the divisor divides the next number.
proof fn lemma_quotient_step(y: int, d: int)
    requires
        d == 4 || d == 100 || d == 400,
    ensures
        (y + 1) / d - y / d == if (y + 1) % d == 0 {
            1int
        } else {
            0
        },
{
    if d == 4 {
        assert((y + 1) / 4 - y / 4 == if (y + 1) % 4 == 0 {
            1int
        } else {
            0
        });
    } else if d == 100 {
        assert((y + 1) / 100 - y / 100 == if (y + 1) % 100 == 0 {
            1int
        } else {
            0
        });
    } else {
        assert((y + 1) / 400 - y / 400 == if (y + 1) % 400 == 0 {
            1int
        } else {
            0
        });
    }
}

/// Days from 1970-01-01 to a date.
pub fn days_from_civil(y: i64, m: i64, d: i64) -> (days: i128)
    requires
        1 <= m <= 12,
    ensures
        days == civil_days(y as int, m as int, d as int),
{
    let year: i128 = if m <= 2 {
        y as i128 - 1
    } else {
        y as i128
    };
    let era: i128 = era_of(year);
    let of_era: i128 = year - era * 400;
    let month: i128 = (m as i128 + 9) % 12;
    let of_year: i128 = (153 * month + 2) / 5 + d as i128 - 1;
    let day_of_era: i128 = of_era * 365 + of_era / 4 - of_era / 100 + of_year;
    proof {
        let (e, o) = (era as int, of_era as int);
        assert(year == 400 * e + o && 0 <= o < 400);
        assert((400 * e + o) / 4 == 100 * e + o / 4);
        assert((400 * e + o) / 100 == 4 * e + o / 100);
    }
    era * 146097 + day_of_era - 719468
}

/// The era of four hundred years that a year lies in.
fn era_of(n: i128) -> (q: i128)
    requires
        -0x1_0000_0000_0000_0000 <= n <= 0x1_0000_0000_0000_0000,
    ensures
        q == n as int / 400,
        -0x1_0000_0000_0000_0000 <= q <= 0x1_0000_0000_0000_0000,
{
    if n >= 0 {
        n / 400
    } else {
        -((-n + 399) / 400)
    }
}

/// The length of the word at the start of `s`.
pub open spec fn word_length(s: Seq<char>) -> int
    decreases s.len(),
{
    if s.len() == 0 || text::is_space(s[0]) {
        0
    } else {
        1 + word_length(s.skip(1))
    }
}

pub proof fn lemma_word_length(s: Seq<char>)
    ensures
        0 <= word_length(s) <= s.len(),
        s.len() > 0 && !text::is_space(s[0]) ==> word_length(s) > 0,
    decreases s.len(),
{
    if s.len() > 0 && !text::is_space(s[0]) {
        lemma_word_length(s.skip(1));
    }
}

pub proof fn lemma_trim_start(s: Seq<char>)
    ensures
        text::trim_start(s).len() <= s.len(),
        text::trim_start(s).len() > 0 ==> !text::is_space(text::trim_start(s)[0]),
    decreases s.len(),
{
    if s.len() > 0 && text::is_space(s[0]) {
        lemma_trim_start(s.skip(1));
    }
}

/// The words of a text: what stands between its white space.
pub open spec fn words(s: Seq<char>) -> Seq<Seq<char>>
    decreases s.len(),
    via words_decreases
{
    let t = text::trim_start(s);
    if t.len() == 0 {
        seq![]
    } else {
        seq![t.take(word_length(t))] + words(t.skip(word_length(t)))
    }
}

#[via_fn]
proof fn words_decreases(s: Seq<char>) {
    lemma_trim_start(s);
    lemma_word_length(text::trim_start(s));
}

/// The number of a month by its English abbreviation, in any case.
pub open spec fn month_of(name: Seq<char>) -> Option<int> {
    let n = text::lowered(name);
    if n == "jan"@ {
        Some(1)
    } else if n == "feb"@ {
        Some(2)
    } else if n == "mar"@ {
        Some(3)
    } else if n == "apr"@ {
        Some(4)
    } else if n == "may"@ {
        Some(5)
    } else if n == "jun"@ {
        Some(6)
    } else if n == "jul"@ {
        Some(7)
    } else if n == "aug"@ {
        Some(8)
    } else if n == "sep"@ {
        Some(9)
    } else if n == "oct"@ {
        Some(10)
    } else if n == "nov"@ {
        Some(11)
    } else if n == "dec"@ {
        Some(12)
    } else {
        None
    }
}

/// The instant that an HTTP date (`Sun, 06 Nov 1994 08:49:37 GMT`) names, in
/// seconds since the epoch. The name of the day and that of the zone are not
/// looked at; a date before the epoch counts as the epoch.
pub open spec fn http_date(s: Seq<char>) -> Option<nat> {
    let parts = words(s);
    let time = text::split(parts[4], ':');
    if parts.len() != 6 || time.len() < 3 {
        None
    } else {
        match (
            text::signed_value(parts[1]),
            month_of(parts[2]),
            text::signed_value(parts[3]),
            text::bounded_value(time[0], 10, u64::MAX as nat),
            text::bounded_value(time[1], 10, u64::MAX as nat),
            text::bounded_value(time[2], 10, u64::MAX as nat),
        ) {
            (Some(day), Some(month), Some(year), Some(hour), Some(minute), Some(second)) => {
                let days = civil_days(year, month, day);
                if days < 0 {
                    Some(0)
                } else {
                    Some((days * 86_400 + hour * 3600 + minute * 60 + second) as nat)
                }
            },
            _ => None,
        }
    }
}

fn month_number(name: &[char]) -> (month: Option<i64>)
    ensures
        match month {
            Some(m) => month_of(name@) == Some(m as int) && 1 <= m <= 12,
            None => month_of(name@) is None,
        },
{
    let lower = text::lower_chars(name);
    let n = lower.as_slice();
    if text::spells(n, "jan") {
        Some(1)
    } else if text::spells(n, "feb") {
        Some(2)
    } else if text::spells(n, "mar") {
        Some(3)
    } else if text::spells(n, "apr") {
        Some(4)
    } else if text::spells(n, "may") {
        Some(5)
    } else if text::spells(n, "jun") {
        Some(6)
    } else if text::spells(n, "jul") {
        Some(7)
    } else if text::spells(n, "aug") {
        Some(8)
    } else if text::spells(n, "sep") {
        Some(9)
    } else if text::spells(n, "oct") {
        Some(10)
    } else if text::spells(n, "nov") {
        Some(11)
    } else if text::spells(n, "dec") {
        Some(12)
    } else {
        None
    }
}

/// The words of a text.
fn split_words(chars: &[char]) -> (out: Vec<&[char]>)
    ensures
        out@.map_values(|p: &[char]| p@) == words(chars@),
{
    let mut out: Vec<&[char]> = Vec::new();
    let ghost view = |p: &[char]| p@;
    let mut i: usize = 0;
    assert(chars@.skip(0) == chars@);
    assert(out@.map_values(view) + words(chars@) =~= words(chars@));
    loop
        invariant
            i <= chars@.len(),
            view == (|p: &[char]| p@),
            words(chars@) == out@.map_values(view) + words(chars@.skip(i as int)),
        decreases chars@.len() - i,
    {
        let ghost rest = chars@.skip(i as int);
        let mut from = i;
        while from < chars.len() && text::is_space_char(chars[from])
            invariant
                i <= from <= chars@.len(),
                text::trim_start(chars@.skip(i as int)) == text::trim_start(
                    chars@.skip(from as int),
                ),
            decreases chars@.len() - from,
        {
            assert(chars@.skip(from as int).skip(1) == chars@.skip(from + 1));
            from = from + 1;
        }
        let ghost t = chars@.skip(from as int);
        assert(text::trim_start(rest) == t);
        if from == chars.len() {
            assert(words(rest) =~= seq![]);
            assert(out@.map_values(view) + words(rest) =~= out@.map_values(view));
            return out;
        }
        let mut to = from;
        assert(chars@.skip(to as int) == t);
        while to < chars.len() && !text::is_space_char(chars[to])
            invariant
                from <= to <= chars@.len(),
                t == chars@.skip(from as int),
                word_length(t) == to - from + word_length(chars@.skip(to as int)),
            decreases chars@.len() - to,
        {
            assert(chars@.skip(to as int).skip(1) == chars@.skip(to + 1));
            to = to + 1;
        }
        proof {
            assert(word_length(chars@.skip(to as int)) == 0);
            lemma_word_length(t);
        }
        let word = text::part(chars, from, to);
        let ghost before = out@;
        out.push(word);
        proof {
            assert(word@ =~= t.take(to - from));
            assert(t.skip(to - from) =~= chars@.skip(to as int));
            assert(out@.map_values(view) =~= before.map_values(view).push(word@));
            assert(before.map_values(view) + (seq![word@] + words(chars@.skip(to as int)))
                =~= out@.map_values(view) + words(chars@.skip(to as int)));
        }
        i = to;
    }
}

/// Reads an HTTP date, as seconds since the epoch.
pub fn parse_http_date(s: &str) -> (seconds: Option<u128>)
    ensures
        match seconds {
            Some(n) => http_date(s@) == Some(n as nat) && n < 0x1_0000_0000_0000_0000_0000_0000,
            None => http_date(s@) is None,
        },
{
    let chars = text::chars_of(s);
    let parts = split_words(chars.as_slice());
    let ghost views = parts@.map_values(|p: &[char]| p@);
    if parts.len() != 6 {
        return None;
    }
    assert(views[1] == parts@[1]@ && views[2] == parts@[2]@ && views[3] == parts@[3]@ && views[4]
        == parts@[4]@);
    let time = text::split_chars(parts[4], ':');
    let ghost times = time@.map_values(|p: &[char]| p@);
    if time.len() < 3 {
        return None;
    }
    assert(times[0] == time@[0]@ && times[1] == time@[1]@ && times[2] == time@[2]@);
    let day = text::read_signed(parts[1])?;
    let month = month_number(parts[2])?;
    let year = text::read_signed(parts[3])?;
    let hour = text::read_unsigned(time[0], 10, u64::MAX)?;
    let minute = text::read_unsigned(time[1], 10, u64::MAX)?;
    let second = text::read_unsigned(time[2], 10, u64::MAX)?;
    let days = days_from_civil(year, month, day);
    if days < 0 {
        return Some(0);
    }
    let total: u128 = days as u128 * 86_400 + hour as u128 * 3600 + minute as u128 * 60
        + second as u128;
    Some(total)
}

/// The English abbreviations of the months.
pub open spec fn month_names() -> Seq<Seq<char>> {
    seq![
        "Jan"@,
        "Feb"@,
        "Mar"@,
        "Apr"@,
        "May"@,
        "Jun"@,
        "Jul"@,
        "Aug"@,
        "Sep"@,
        "Oct"@,
        "Nov"@,
        "Dec"@,
    ]
}

/// A number below one hundred in two digits.
pub open spec fn two_digits(n: nat) -> Seq<char> {
    seq!["0123456789"@[n as int / 10], "0123456789"@[n as int % 10]]
}

/// The month names are read in whatever case they are written.
pub proof fn law_months_are_read(month: int, name: Seq<char>)
    requires
        1 <= month <= 12,
        text::same_ignoring_case(name, month_names()[month - 1]),
    ensures
        month_of(name) == Some(month),
{
    lemma_month_names();
}

#[verifier::spinoff_prover]
proof fn lemma_month_names()
    ensures
        forall|month: int, name: Seq<char>|
            1 <= month <= 12 && text::lowered(name) == #[trigger] text::lowered(
                month_names()[month - 1],
            ) ==> #[trigger] month_of(name) == Some(month),
        forall|month: int|
            0 <= month < 12 ==> {
                let n = #[trigger] month_names()[month];
                &&& n.len() == 3
                &&& !text::is_space(n[0]) && !text::is_space(n[1]) && !text::is_space(n[2])
            },
{
    reveal_strlit("Jan");
    reveal_strlit("Feb");
    reveal_strlit("Mar");
    reveal_strlit("Apr");
    reveal_strlit("May");
    reveal_strlit("Jun");
    reveal_strlit("Jul");
    reveal_strlit("Aug");
    reveal_strlit("Sep");
    reveal_strlit("Oct");
    reveal_strlit("Nov");
    reveal_strlit("Dec");
    reveal_strlit("jan");
    reveal_strlit("feb");
    reveal_strlit("mar");
    reveal_strlit("apr");
    reveal_strlit("may");
    reveal_strlit("jun");
    reveal_strlit("jul");
    reveal_strlit("aug");
    reveal_strlit("sep");
    reveal_strlit("oct");
    reveal_strlit("nov");
    reveal_strlit("dec");
    assert(text::lowered("Jan"@) =~= "jan"@);
    assert(text::lowered("Feb"@) =~= "feb"@);
    assert(text::lowered("Mar"@) =~= "mar"@);
    assert(text::lowered("Apr"@) =~= "apr"@);
    assert(text::lowered("May"@) =~= "may"@);
    assert(text::lowered("Jun"@) =~= "jun"@);
    assert(text::lowered("Jul"@) =~= "jul"@);
    assert(text::lowered("Aug"@) =~= "aug"@);
    assert(text::lowered("Sep"@) =~= "sep"@);
    assert(text::lowered("Oct"@) =~= "oct"@);
    assert(text::lowered("Nov"@) =~= "nov"@);
    assert(text::lowered("Dec"@) =~= "dec"@);
    assert("jan"@[0] == 'j' && "jan"@[1] == 'a' && "jun"@[0] == 'j' && "jun"@[1] == 'u');
    assert("jul"@[0] == 'j' && "jul"@[1] == 'u' && "jul"@[2] == 'l' && "jun"@[2] == 'n');
    assert("feb"@[0] == 'f' && "sep"@[0] == 's' && "oct"@[0] == 'o' && "nov"@[0] == 'n');
    assert("dec"@[0] == 'd' && "mar"@[0] == 'm' && "may"@[0] == 'm' && "mar"@[2] == 'r');
    assert("may"@[2] == 'y' && "apr"@[0] == 'a' && "aug"@[0] == 'a' && "apr"@[1] == 'p');
    assert("aug"@[1] == 'u');
}

/// Whether a text is one word.
pub open spec fn is_word(s: Seq<char>) -> bool {
    s.len() > 0 && forall|i: int| 0 <= i < s.len() ==> !text::is_space(#[trigger] s[i])
}

proof fn lemma_word_ends(word: Seq<char>, rest: Seq<char>)
    requires
        forall|i: int| 0 <= i < word.len() ==> !text::is_space(#[trigger] word[i]),
        rest.len() > 0 ==> text::is_space(rest[0]),
    ensures
        word_length(word + rest) == word.len(),
    decreases word.len(),
{
    let s = word + rest;
    if word.len() == 0 {
        assert(s =~= rest);
    } else {
        assert(s[0] == word[0]);
        assert(s.skip(1) =~= word.skip(1) + rest);
        assert forall|i: int| 0 <= i < word.skip(1).len() implies !text::is_space(
            #[trigger] word.skip(1)[i],
        ) by {
            assert(!text::is_space(word[i + 1]));
        }
        lemma_word_ends(word.skip(1), rest);
    }
}

/// Words that are separated by spaces are found again.
pub proof fn law_words_are_found(parts: Seq<Seq<char>>)
    requires
        forall|i: int| 0 <= i < parts.len() ==> is_word(#[trigger] parts[i]),
    ensures
        words(text::joined(parts, seq![' '])) == parts,
    decreases parts.len(),
{
    let s = text::joined(parts, seq![' ']);
    let none = Seq::<char>::empty();
    if parts.len() == 0 {
        assert(words(s) =~= parts);
    } else {
        let first = parts[0];
        assert(is_word(first));
        assert(!text::is_space(first[0]));
        if parts.len() == 1 {
            assert(s =~= first + none);
            lemma_word_ends(first, none);
            assert(s.take(first.len() as int) =~= first);
            assert(s.skip(first.len() as int) =~= none);
            assert(words(none) =~= Seq::<Seq<char>>::empty());
            assert(words(s) =~= parts);
        } else {
            let more = parts.skip(1);
            let later = text::joined(more, seq![' ']);
            text_laws::lemma_joined_first(parts, seq![' ']);
            let rest = seq![' '] + later;
            assert(s =~= first + rest);
            assert(s[0] == first[0]);
            lemma_word_ends(first, rest);
            assert(s.take(first.len() as int) =~= first);
            assert(s.skip(first.len() as int) =~= rest);
            assert(rest.skip(1) =~= later);
            assert(text::trim_start(rest) == text::trim_start(later));
            assert(words(rest) == words(later));
            assert forall|i: int| 0 <= i < more.len() implies is_word(#[trigger] more[i]) by {
                assert(more[i] == parts[i + 1]);
            }
            law_words_are_found(more);
            assert(seq![first] + more =~= parts);
        }
    }
}

proof fn lemma_two_digits(n: nat)
    requires
        n < 100,
    ensures
        is_word(two_digits(n)),
        text_laws::lacks(two_digits(n), ':'),
        text::signed_value(two_digits(n)) == Some(n as int),
        text::bounded_value(two_digits(n), 10, u64::MAX as nat) == Some(n),
{
    reveal_strlit("0123456789");
    let t = two_digits(n);
    let one = t.drop_last();
    assert(text::digits_value(one.drop_last(), 10) == Some(0nat));
    assert(text::digits_value(one, 10) == Some((n / 10) as nat));
    assert(text::digits_value(t, 10) == Some(n));
}

/// An HTTP date (`Sun, 06 Nov 1994 08:49:37 GMT`) names the instant that it
/// spells: so many days after the epoch, and so many hours, minutes and seconds
/// after midnight. A date before the epoch counts as the epoch.
#[verifier::rlimit(40)]
#[verifier::spinoff_prover]
pub proof fn law_http_date_is_read(
    weekday: Seq<char>,
    year: nat,
    month: int,
    day: nat,
    hour: nat,
    minute: nat,
    second: nat,
    zone: Seq<char>,
)
    requires
        is_word(weekday),
        is_word(zone),
        year <= 9999,
        1 <= month <= 12,
        day < 100,
        hour < 100,
        minute < 100,
        second < 100,
    ensures
        ({
            let time = text::joined(
                seq![two_digits(hour), two_digits(minute), two_digits(second)],
                seq![':'],
            );
            let spelled = text::joined(
                seq![
                    weekday,
                    two_digits(day),
                    month_names()[month - 1],
                    text::decimal(year),
                    time,
                    zone,
                ],
                seq![' '],
            );
            let days = civil_days(year as int, month, day as int);
            http_date(spelled) == Some(
                if days < 0 {
                    0nat
                } else {
                    (days * 86_400 + hour * 3600 + minute * 60 + second) as nat
                },
            )
        }),
{
    let fields = seq![two_digits(hour), two_digits(minute), two_digits(second)];
    let time = text::joined(fields, seq![':']);
    let name = month_names()[month - 1];
    let digits = text::decimal(year);
    let parts = seq![weekday, two_digits(day), name, digits, time, zone];
    lemma_two_digits(day);
    lemma_time_text(hour, minute, second);
    lemma_year_text(year);
    lemma_month_name(month);
    assert forall|i: int| 0 <= i < parts.len() implies is_word(#[trigger] parts[i]) by {
        assert(i == 0 || i == 1 || i == 2 || i == 3 || i == 4 || i == 5);
    }
    law_words_are_found(parts);
    lemma_date_of_words(text::joined(parts, seq![' ']), year, month, day, hour, minute, second);
}

/// The instant that the words of a date name.
proof fn lemma_date_of_words(
    s: Seq<char>,
    year: nat,
    month: int,
    day: nat,
    hour: nat,
    minute: nat,
    second: nat,
)
    requires
        words(s).len() == 6,
        text::signed_value(words(s)[1]) == Some(day as int),
        month_of(words(s)[2]) == Some(month),
        text::signed_value(words(s)[3]) == Some(year as int),
        text::split(words(s)[4], ':').len() == 3,
        text::bounded_value(text::split(words(s)[4], ':')[0], 10, u64::MAX as nat) == Some(hour),
        text::bounded_value(text::split(words(s)[4], ':')[1], 10, u64::MAX as nat) == Some(minute),
        text::bounded_value(text::split(words(s)[4], ':')[2], 10, u64::MAX as nat) == Some(second),
    ensures
        ({
            let days = civil_days(year as int, month, day as int);
            http_date(s) == Some(
                if days < 0 {
                    0nat
                } else {
                    (days * 86_400 + hour * 3600 + minute * 60 + second) as nat
                },
            )
        }),
{
}

proof fn lemma_month_name(month: int)
    requires
        1 <= month <= 12,
    ensures
        is_word(month_names()[month - 1]),
        month_of(month_names()[month - 1]) == Some(month),
{
    lemma_month_names();
    let name = month_names()[month - 1];
    assert(text::lowered(name) == text::lowered(month_names()[month - 1]));
}

proof fn lemma_year_text(year: nat)
    requires
        year <= 9999,
    ensures
        is_word(text::decimal(year)),
        text::signed_value(text::decimal(year)) == Some(year as int),
{
    let digits = text::decimal(year);
    text::lemma_decimal_digits(year);
    assert forall|i: int| 0 <= i < digits.len() implies !text::is_space(#[trigger] digits[i]) by {
        assert('0' <= digits[i] <= '9');
    }
    assert('0' <= digits[0] <= '9');
}

proof fn lemma_time_text(hour: nat, minute: nat, second: nat)
    requires
        hour < 100,
        minute < 100,
        second < 100,
    ensures
        ({
            let fields = seq![two_digits(hour), two_digits(minute), two_digits(second)];
            let time = text::joined(fields, seq![':']);
            &&& is_word(time)
            &&& text::split(time, ':') == fields
            &&& text::bounded_value(fields[0], 10, u64::MAX as nat) == Some(hour)
            &&& text::bounded_value(fields[1], 10, u64::MAX as nat) == Some(minute)
            &&& text::bounded_value(fields[2], 10, u64::MAX as nat) == Some(second)
        }),
{
    lemma_two_digits(hour);
    lemma_two_digits(minute);
    lemma_two_digits(second);
    let fields = seq![two_digits(hour), two_digits(minute), two_digits(second)];
    let time = text::joined(fields, seq![':']);
    assert forall|i: int| 0 <= i < fields.len() implies text_laws::lacks(#[trigger] fields[i], ':') by {
        assert(i == 0 || i == 1 || i == 2);
    }
    text_laws::law_splitting_undoes_joining(fields, ':');
    text_laws::lemma_joined_first(fields, seq![':']);
    let later = fields.skip(1);
    text_laws::lemma_joined_first(later, seq![':']);
    assert(later[0] == two_digits(minute) && later.skip(1)[0] == two_digits(second));
    assert(time =~= two_digits(hour) + seq![':'] + (two_digits(minute) + seq![':'] + two_digits(
        second,
    )));
    assert forall|i: int| 0 <= i < time.len() implies !text::is_space(#[trigger] time[i]) by {
        if i < 2 {
            assert(time[i] == two_digits(hour)[i]);
        } else if 3 <= i < 5 {
            assert(time[i] == two_digits(minute)[i - 3]);
        } else if 6 <= i {
            assert(time[i] == two_digits(second)[i - 6]);
        }
    }
}

/// Within a year the day count grows with the days of its months, and from one
/// first of March to the next by 365 days, or by 366 where a 29th of February
/// lies between.
pub proof fn law_length_of_a_year(year: int)
    ensures
        civil_days(year + 1, 3, 1) - civil_days(year, 3, 1) == if (year + 1) % 4 == 0 && ((year + 1)
            % 100 != 0 || (year + 1) % 400 == 0) {
            366int
        } else {
            365int
        },
        civil_days(year, 4, 1) - civil_days(year, 3, 1) == 31,
        civil_days(year, 5, 1) - civil_days(year, 4, 1) == 30,
        civil_days(year, 6, 1) - civil_days(year, 5, 1) == 31,
        civil_days(year, 7, 1) - civil_days(year, 6, 1) == 30,
        civil_days(year, 8, 1) - civil_days(year, 7, 1) == 31,
        civil_days(year, 9, 1) - civil_days(year, 8, 1) == 31,
        civil_days(year, 10, 1) - civil_days(year, 9, 1) == 30,
        civil_days(year, 11, 1) - civil_days(year, 10, 1) == 31,
        civil_days(year, 12, 1) - civil_days(year, 11, 1) == 30,
        civil_days(year + 1, 1, 1) - civil_days(year, 12, 1) == 31,
        civil_days(year, 2, 1) - civil_days(year, 1, 1) == 31,
{
    lemma_year_length(year);
}

/// Words are told apart by white space, however much of it there is and of
/// whatever kind, and white space at the ends makes no word.
pub proof fn law_white_space_parts_words(pad: Seq<char>, word: Seq<char>, rest: Seq<char>)
    requires
        text_laws::is_blank(pad),
        is_word(word),
    ensures
        words(pad + rest) == words(rest),
        words(pad) == Seq::<Seq<char>>::empty(),
        words(word) == seq![word],
        pad.len() > 0 ==> words(word + (pad + rest)) == seq![word] + words(rest),
{
    let none = Seq::<char>::empty();
    text_laws::lemma_blank_start(pad, rest);
    text_laws::lemma_blank_start(pad, none);
    assert(pad + none =~= pad);
    assert(text::trim_start(none) == none);
    assert(words(pad) =~= Seq::<Seq<char>>::empty());
    assert(!text::is_space(word[0]));
    lemma_word_ends(word, none);
    assert(word + none =~= word);
    assert(word.take(word.len() as int) =~= word);
    assert(word.skip(word.len() as int) =~= none);
    assert(words(none) =~= Seq::<Seq<char>>::empty());
    assert(words(word) =~= seq![word]);
    if pad.len() > 0 {
        let s = word + (pad + rest);
        assert(text::is_space(pad[0]));
        assert((pad + rest)[0] == pad[0]);
        lemma_word_ends(word, pad + rest);
        assert(s[0] == word[0]);
        assert(s.take(word.len() as int) =~= word);
        assert(s.skip(word.len() as int) =~= pad + rest);
    }
}

} // verus!

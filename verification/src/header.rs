//! A minimal, case-insensitive multi-map for HTTP headers. The order of
//! insertion is kept; lookups ignore the case of ASCII letters.

use crate::error::Error;
use crate::error::ErrorView;
use crate::error::Result;
use crate::text;
use vstd::prelude::*;

verus! {

/// Header entries: names with their values.
#[derive(Debug, PartialEq, Eq)]
pub struct HeaderMap {
    entries: Vec<(String, String)>,
}

/// A header name that can go on the wire: visible ASCII without a colon, and
/// at least one character of it.
pub open spec fn valid_name(name: Seq<char>) -> bool {
    name.len() > 0 && forall|i: int|
        0 <= i < name.len() ==> '!' <= #[trigger] name[i] <= '~' && name[i] != ':'
}

/// A header value that can go on the wire: one without CR and LF.
pub open spec fn valid_value(value: Seq<char>) -> bool {
    forall|i: int| 0 <= i < value.len() ==> #[trigger] value[i] != '\r' && value[i] != '\n'
}

/// Entries that can all go on the wire.
pub open spec fn valid_entries(entries: Seq<(Seq<char>, Seq<char>)>) -> bool {
    forall|i: int|
        0 <= i < entries.len() ==> valid_name((#[trigger] entries[i]).0) && valid_value(
            entries[i].1,
        )
}

/// The value of the first entry with this name.
pub open spec fn lookup(entries: Seq<(Seq<char>, Seq<char>)>, name: Seq<char>) -> Option<Seq<char>>
    decreases entries.len(),
{
    if entries.len() == 0 {
        None
    } else if text::same_ignoring_case(entries[0].0, name) {
        Some(entries[0].1)
    } else {
        lookup(entries.skip(1), name)
    }
}

/// The values of all entries with this name.
pub open spec fn all_values(entries: Seq<(Seq<char>, Seq<char>)>, name: Seq<char>) -> Seq<Seq<char>>
    decreases entries.len(),
{
    if entries.len() == 0 {
        seq![]
    } else if text::same_ignoring_case(entries.last().0, name) {
        all_values(entries.drop_last(), name).push(entries.last().1)
    } else {
        all_values(entries.drop_last(), name)
    }
}

/// The entries without those that have this name.
pub open spec fn without(entries: Seq<(Seq<char>, Seq<char>)>, name: Seq<char>) -> Seq<
    (Seq<char>, Seq<char>),
>
    decreases entries.len(),
{
    if entries.len() == 0 {
        entries
    } else if text::same_ignoring_case(entries.last().0, name) {
        without(entries.drop_last(), name)
    } else {
        without(entries.drop_last(), name).push(entries.last())
    }
}

/// The entries with `name` set to `value`.
pub open spec fn with_header(
    entries: Seq<(Seq<char>, Seq<char>)>,
    name: Seq<char>,
    value: Seq<char>,
) -> Seq<(Seq<char>, Seq<char>)> {
    without(entries, name).push((name, value))
}

/// The error for an entry that cannot go on the wire.
pub open spec fn refusal(name: Seq<char>, value: Seq<char>) -> ErrorView {
    if !valid_name(name) {
        ErrorView::InvalidHeader("invalid header name `"@ + name + "`"@)
    } else {
        ErrorView::InvalidHeader("header value must not contain CR/LF: `"@ + value + "`"@)
    }
}

/// What stored entries stand for.
pub open spec fn entry_views(entries: Seq<(String, String)>) -> Seq<(Seq<char>, Seq<char>)> {
    entries.map_values(|e: (String, String)| (e.0@, e.1@))
}

impl View for HeaderMap {
    type V = Seq<(Seq<char>, Seq<char>)>;

    closed spec fn view(&self) -> Seq<(Seq<char>, Seq<char>)> {
        entry_views(self.entries@)
    }
}

/// Values that can go on the wire can do so one after the other.
pub proof fn lemma_valid_concat(a: Seq<char>, b: Seq<char>)
    requires
        valid_value(a),
        valid_value(b),
    ensures
        valid_value(a + b),
{
    assert forall|i: int| 0 <= i < (a + b).len() implies #[trigger] (a + b)[i] != '\r' && (a
        + b)[i] != '\n' by {
        if i < a.len() {
            assert((a + b)[i] == a[i]);
        } else {
            assert((a + b)[i] == b[i - a.len()]);
        }
    }
}

/// A name or a value that was stored stays free of what would end its line.
pub proof fn lemma_without_valid(entries: Seq<(Seq<char>, Seq<char>)>, name: Seq<char>)
    requires
        valid_entries(entries),
    ensures
        valid_entries(without(entries, name)),
    decreases entries.len(),
{
    if entries.len() > 0 {
        let front = entries.drop_last();
        assert forall|i: int| 0 <= i < front.len() implies valid_name((#[trigger] front[i]).0)
            && valid_value(front[i].1) by {
            assert(front[i] == entries[i]);
        }
        lemma_without_valid(front, name);
        assert(valid_name(entries[entries.len() - 1].0));
    }
}

proof fn lemma_lookup_of_push(
    entries: Seq<(Seq<char>, Seq<char>)>,
    entry: (Seq<char>, Seq<char>),
    name: Seq<char>,
)
    ensures
        lookup(entries.push(entry), name) == if lookup(entries, name) is Some {
            lookup(entries, name)
        } else if text::same_ignoring_case(entry.0, name) {
            Some(entry.1)
        } else {
            None
        },
    decreases entries.len(),
{
    let more = entries.push(entry);
    if entries.len() == 0 {
        assert(more[0] == entry);
        assert(lookup(more.skip(1), name) is None);
        assert(more.skip(1) == Seq::<(Seq<char>, Seq<char>)>::empty());
    } else {
        assert(more[0] == entries[0]);
        assert(more.skip(1) == entries.skip(1).push(entry));
        lemma_lookup_of_push(entries.skip(1), entry, name);
    }
}

proof fn lemma_lookup_without(
    entries: Seq<(Seq<char>, Seq<char>)>,
    removed: Seq<char>,
    name: Seq<char>,
)
    ensures
        text::same_ignoring_case(removed, name) ==> lookup(without(entries, removed), name) is None,
        !text::same_ignoring_case(removed, name) ==> lookup(without(entries, removed), name)
            == lookup(entries, name),
    decreases entries.len(),
{
    if entries.len() > 0 {
        let front = entries.drop_last();
        lemma_lookup_without(front, removed, name);
        assert(entries == front.push(entries.last()));
        lemma_lookup_of_push(front, entries.last(), name);
        lemma_lookup_of_push(without(front, removed), entries.last(), name);
    }
}

/// Setting a header makes its value the one that is found under every
/// spelling of its name, and leaves what is found under other names alone.
pub proof fn law_lookup_after_setting(
    entries: Seq<(Seq<char>, Seq<char>)>,
    name: Seq<char>,
    value: Seq<char>,
    other: Seq<char>,
)
    ensures
        lookup(with_header(entries, name, value), other) == if text::same_ignoring_case(
            name,
            other,
        ) {
            Some(value)
        } else {
            lookup(entries, other)
        },
{
    lemma_lookup_without(entries, name, other);
    lemma_lookup_of_push(without(entries, name), (name, value), other);
}

/// Removing a header leaves nothing to be found under any spelling of its
/// name, and leaves what is found under other names alone.
pub proof fn law_lookup_after_removal(
    entries: Seq<(Seq<char>, Seq<char>)>,
    name: Seq<char>,
    other: Seq<char>,
)
    ensures
        lookup(without(entries, name), other) == if text::same_ignoring_case(name, other) {
            None
        } else {
            lookup(entries, other)
        },
{
    lemma_lookup_without(entries, name, other);
}

proof fn lemma_values_without(
    entries: Seq<(Seq<char>, Seq<char>)>,
    removed: Seq<char>,
    name: Seq<char>,
)
    ensures
        all_values(without(entries, removed), name) == if text::same_ignoring_case(removed, name) {
            Seq::<Seq<char>>::empty()
        } else {
            all_values(entries, name)
        },
    decreases entries.len(),
{
    if entries.len() > 0 {
        lemma_values_without(entries.drop_last(), removed, name);
        let kept = without(entries.drop_last(), removed);
        assert(kept.push(entries.last()).drop_last() =~= kept);
    }
}

/// Setting a header leaves exactly one value under its name, and the values
/// under other names as they are.
pub proof fn law_values_after_setting(
    entries: Seq<(Seq<char>, Seq<char>)>,
    name: Seq<char>,
    value: Seq<char>,
    other: Seq<char>,
)
    ensures
        all_values(with_header(entries, name, value), other) == if text::same_ignoring_case(
            name,
            other,
        ) {
            seq![value]
        } else {
            all_values(entries, other)
        },
{
    lemma_values_without(entries, name, other);
    let kept = without(entries, name);
    assert(kept.push((name, value)).drop_last() =~= kept);
}

/// Removing a header leaves no value under its name, and the values under
/// other names as they are.
pub proof fn law_values_after_removal(
    entries: Seq<(Seq<char>, Seq<char>)>,
    name: Seq<char>,
    other: Seq<char>,
)
    ensures
        all_values(without(entries, name), other) == if text::same_ignoring_case(name, other) {
            Seq::<Seq<char>>::empty()
        } else {
            all_values(entries, other)
        },
{
    lemma_values_without(entries, name, other);
}

/// Appending a header changes what is found only under its own name, and
/// there only where nothing was found before.
pub proof fn law_lookup_after_appending(
    entries: Seq<(Seq<char>, Seq<char>)>,
    name: Seq<char>,
    value: Seq<char>,
    other: Seq<char>,
)
    ensures
        lookup(entries.push((name, value)), other) == if lookup(entries, other) is None
            && text::same_ignoring_case(name, other) {
            Some(value)
        } else {
            lookup(entries, other)
        },
{
    lemma_lookup_of_push(entries, (name, value), other);
}

impl HeaderMap {
    #[verifier::type_invariant]
    pub closed spec fn well_formed(self) -> bool {
        valid_entries(self@)
    }

    pub fn new() -> (headers: Self)
        ensures
            headers@ == Seq::<(Seq<char>, Seq<char>)>::empty(),
    {
        let entries: Vec<(String, String)> = Vec::new();
        assert(entry_views(entries@) =~= seq![]);
        HeaderMap { entries }
    }

    /// Sets `name` to `value`, in place of any entries with the same name.
    pub fn insert(&mut self, name: &str, value: &str) -> (outcome: Result<()>)
        ensures
            outcome is Ok <==> valid_name(name@) && valid_value(value@),
            outcome is Ok ==> final(self)@ == with_header(old(self)@, name@, value@),
            outcome matches Err(e) ==> e@ == refusal(name@, value@) && final(self)@ == old(self)@,
    {
        validate_name(name)?;
        validate_value(value)?;
        self.remove(name);
        self.push(name, value);
        Ok(())
    }

    /// Adds an entry without removing any, for headers that legitimately
    /// repeat.
    pub fn append(&mut self, name: &str, value: &str) -> (outcome: Result<()>)
        ensures
            outcome is Ok <==> valid_name(name@) && valid_value(value@),
            outcome is Ok ==> final(self)@ == old(self)@.push((name@, value@)),
            outcome matches Err(e) ==> e@ == refusal(name@, value@) && final(self)@ == old(self)@,
    {
        validate_name(name)?;
        validate_value(value)?;
        self.push(name, value);
        Ok(())
    }

    fn push(&mut self, name: &str, value: &str)
        requires
            valid_name(name@),
            valid_value(value@),
        ensures
            final(self)@ == old(self)@.push((name@, value@)),
    {
        proof {
            use_type_invariant(&*self);
        }
        let mut entries: Vec<(String, String)> = Vec::new();
        std::mem::swap(&mut entries, &mut self.entries);
        let ghost before = entries@;
        entries.push((text::owned(name), text::owned(value)));
        assert(entry_views(entries@) =~= entry_views(before).push((name@, value@)));
        self.entries = entries;
    }

    /// Removes all entries with this name.
    pub fn remove(&mut self, name: &str)
        ensures
            final(self)@ == without(old(self)@, name@),
    {
        proof {
            use_type_invariant(&*self);
            lemma_without_valid(self@, name@);
        }
        let ghost all = self@;
        let mut kept: Vec<(String, String)> = Vec::new();
        for i in 0..self.entries.len()
            invariant
                all == entry_views(self.entries@),
                entry_views(kept@) == without(all.take(i as int), name@),
        {
            proof {
                assert(all.take(i + 1).drop_last() == all.take(i as int));
                assert(all.take(i + 1).last() == all[i as int]);
            }
            if !text::same_text_ignoring_case(self.entries[i].0.as_str(), name) {
                let ghost before = kept@;
                kept.push((self.entries[i].0.clone(), self.entries[i].1.clone()));
                assert(entry_views(kept@) =~= entry_views(before).push(all[i as int]));
            }
        }
        assert(all.take(all.len() as int) == all);
        self.entries = kept;
    }

    /// The first value for `name`.
    pub fn get(&self, name: &str) -> (value: Option<&str>)
        ensures
            match value {
                Some(v) => lookup(self@, name@) == Some(v@),
                None => lookup(self@, name@) is None,
            },
    {
        let ghost all = self@;
        assert(all.skip(0) == all);
        for i in 0..self.entries.len()
            invariant
                all == self@,
                lookup(all, name@) == lookup(all.skip(i as int), name@),
        {
            proof {
                assert(all.skip(i as int).skip(1) == all.skip(i + 1));
                assert(all.skip(i as int)[0] == all[i as int]);
            }
            if text::same_text_ignoring_case(self.entries[i].0.as_str(), name) {
                return Some(self.entries[i].1.as_str());
            }
        }
        None
    }

    /// All values for `name`, in order.
    pub fn get_all(&self, name: &str) -> (values: Vec<&str>)
        ensures
            values@.map_values(|v: &str| v@) == all_values(self@, name@),
    {
        let ghost all = self@;
        let ghost view = |v: &str| v@;
        let mut values: Vec<&str> = Vec::new();
        assert(values@.map_values(view) =~= seq![]);
        for i in 0..self.entries.len()
            invariant
                all == self@,
                view == (|v: &str| v@),
                values@.map_values(view) == all_values(all.take(i as int), name@),
        {
            proof {
                assert(all.take(i + 1).drop_last() == all.take(i as int));
                assert(all.take(i + 1).last() == all[i as int]);
            }
            if text::same_text_ignoring_case(self.entries[i].0.as_str(), name) {
                let ghost before = values@;
                values.push(self.entries[i].1.as_str());
                assert(values@.map_values(view) =~= before.map_values(view).push(all[i as int].1));
            }
        }
        assert(all.take(all.len() as int) == all);
        values
    }

    pub fn contains(&self, name: &str) -> (yes: bool)
        ensures
            yes == (lookup(self@, name@) is Some),
    {
        self.get(name).is_some()
    }

    /// The entries in order. They can all go on the wire: no name and no
    /// value of them holds a CR or an LF.
    pub fn iter(&self) -> (entries: Vec<(&str, &str)>)
        ensures
            entries@.map_values(|e: (&str, &str)| (e.0@, e.1@)) == self@,
            valid_entries(self@),
    {
        proof {
            use_type_invariant(self);
        }
        let mut out: Vec<(&str, &str)> = Vec::new();
        let ghost view = |e: (&str, &str)| (e.0@, e.1@);
        for i in 0..self.entries.len()
            invariant
                view == (|e: (&str, &str)| (e.0@, e.1@)),
                out@.map_values(view) == self@.take(i as int),
        {
            let ghost before = out@;
            out.push((self.entries[i].0.as_str(), self.entries[i].1.as_str()));
            assert(out@.map_values(view) =~= before.map_values(view).push(self@[i as int]));
        }
        assert(self@.take(self@.len() as int) == self@);
        out
    }

    pub fn len(&self) -> (n: usize)
        ensures
            n == self@.len(),
    {
        self.entries.len()
    }

    pub fn is_empty(&self) -> (yes: bool)
        ensures
            yes == (self@.len() == 0),
    {
        self.entries.len() == 0
    }
}

impl Default for HeaderMap {
    fn default() -> (headers: Self)
        ensures
            headers@ == Seq::<(Seq<char>, Seq<char>)>::empty(),
    {
        HeaderMap::new()
    }
}

impl Clone for HeaderMap {
    fn clone(&self) -> (copy: Self)
        ensures
            copy@ == self@,
    {
        proof {
            use_type_invariant(self);
        }
        let mut entries: Vec<(String, String)> = Vec::new();
        for i in 0..self.entries.len()
            invariant
                entry_views(entries@) == self@.take(i as int),
        {
            let ghost before = entries@;
            entries.push((self.entries[i].0.clone(), self.entries[i].1.clone()));
            assert(entry_views(entries@) =~= entry_views(before).push(self@[i as int]));
        }
        assert(self@.take(self@.len() as int) == self@);
        HeaderMap { entries }
    }
}

fn validate_name(name: &str) -> (outcome: Result<()>)
    ensures
        match outcome {
            Ok(_) => valid_name(name@),
            Err(e) => !valid_name(name@) && e@ == ErrorView::InvalidHeader(
                "invalid header name `"@ + name@ + "`"@,
            ),
        },
{
    let chars = text::chars_of(name);
    let mut valid = chars.len() > 0;
    for i in 0..chars.len()
        invariant
            chars@ == name@,
            valid == (chars@.len() > 0 && forall|j: int|
                0 <= j < i ==> '!' <= #[trigger] name@[j] <= '~' && name@[j] != ':'),
    {
        let c = chars[i];
        valid = valid && '!' <= c && c <= '~' && c != ':';
    }
    if valid {
        Ok(())
    } else {
        let mut m = text::owned("invalid header name `");
        m.push_str(name);
        m.push_str("`");
        Err(Error::InvalidHeader(m))
    }
}

fn validate_value(value: &str) -> (outcome: Result<()>)
    ensures
        match outcome {
            Ok(_) => valid_value(value@),
            Err(e) => !valid_value(value@) && e@ == ErrorView::InvalidHeader(
                "header value must not contain CR/LF: `"@ + value@ + "`"@,
            ),
        },
{
    let chars = text::chars_of(value);
    let mut valid = true;
    for i in 0..chars.len()
        invariant
            chars@ == value@,
            valid == (forall|j: int|
                0 <= j < i ==> #[trigger] value@[j] != '\r' && value@[j] != '\n'),
    {
        let c = chars[i];
        valid = valid && c != '\r' && c != '\n';
    }
    if valid {
        Ok(())
    } else {
        let mut m = text::owned("header value must not contain CR/LF: `");
        m.push_str(value);
        m.push_str("`");
        Err(Error::InvalidHeader(m))
    }
}

/// What is found under a name is the value of the first entry with it, in
/// whatever case; nothing is found where no entry has it.
pub proof fn law_first_value_is_found(
    before: Seq<(Seq<char>, Seq<char>)>,
    name: Seq<char>,
    value: Seq<char>,
    after: Seq<(Seq<char>, Seq<char>)>,
    asked: Seq<char>,
)
    requires
        forall|i: int|
            0 <= i < before.len() ==> !text::same_ignoring_case((#[trigger] before[i]).0, asked),
        text::same_ignoring_case(name, asked),
    ensures
        lookup(before + seq![(name, value)] + after, asked) == Some(value),
        lookup(before, asked) is None,
    decreases before.len(),
{
    let all = before + seq![(name, value)] + after;
    if before.len() == 0 {
        assert(all[0] == (name, value));
    } else {
        assert(all[0] == before[0]);
        assert(!text::same_ignoring_case(before[0].0, asked));
        let rest = before.skip(1);
        assert(all.skip(1) == rest + seq![(name, value)] + after);
        assert forall|i: int| 0 <= i < rest.len() implies !text::same_ignoring_case(
            (#[trigger] rest[i]).0,
            asked,
        ) by {
            assert(rest[i] == before[i + 1]);
        }
        law_first_value_is_found(rest, name, value, after, asked);
    }
}

/// Removing a header leaves the others as they are and in their order.
pub proof fn law_removal_keeps_the_others(entries: Seq<(Seq<char>, Seq<char>)>, name: Seq<char>)
    ensures
        without(entries, name) == entries.filter(
            |e: (Seq<char>, Seq<char>)| text::lowered(e.0) != text::lowered(name),
        ),
    decreases entries.len(),
{
    reveal(Seq::filter);
    if entries.len() > 0 {
        law_removal_keeps_the_others(entries.drop_last(), name);
    }
}

/// All the values of a name are those of its entries, in their order.
pub proof fn law_all_values_in_order(entries: Seq<(Seq<char>, Seq<char>)>, name: Seq<char>)
    ensures
        all_values(entries, name) == entries.filter(
            |e: (Seq<char>, Seq<char>)| text::lowered(e.0) == text::lowered(name),
        ).map_values(|e: (Seq<char>, Seq<char>)| e.1),
    decreases entries.len(),
{
    reveal(Seq::filter);
    let named = |e: (Seq<char>, Seq<char>)| text::lowered(e.0) == text::lowered(name);
    let value = |e: (Seq<char>, Seq<char>)| e.1;
    if entries.len() > 0 {
        law_all_values_in_order(entries.drop_last(), name);
        let front = entries.drop_last().filter(named);
        assert(front.push(entries.last()).map_values(value) == front.map_values(value).push(
            entries.last().1,
        ));
    } else {
        assert(entries.filter(named).map_values(value) == Seq::<Seq<char>>::empty());
    }
}

/// A value can go on the wire unless it holds a line break. A name can go there
/// unless it is empty or holds a colon, a blank, a control character or one
/// beyond ASCII.
pub proof fn law_what_can_go_on_the_wire(name: Seq<char>, value: Seq<char>)
    ensures
        valid_value(value) <==> !value.contains('\r') && !value.contains('\n'),
        valid_name(name) <==> name.len() > 0 && !name.contains(':') && forall|i: int|
            0 <= i < name.len() ==> ' ' < #[trigger] name[i] < '\u{7f}',
{
    if !value.contains('\r') && !value.contains('\n') {
        assert forall|i: int| 0 <= i < value.len() implies #[trigger] value[i] != '\r' && value[i]
            != '\n' by {
            assert(value.contains(value[i]));
        }
    }
    if !name.contains(':') {
        assert forall|i: int| 0 <= i < name.len() implies #[trigger] name[i] != ':' by {
            assert(name.contains(name[i]));
        }
    }
}

/// The case of a name makes no difference to what is found under it.
pub proof fn law_lookup_ignores_case(
    entries: Seq<(Seq<char>, Seq<char>)>,
    a: Seq<char>,
    b: Seq<char>,
)
    requires
        text::same_ignoring_case(a, b),
    ensures
        lookup(entries, a) == lookup(entries, b),
        all_values(entries, a) == all_values(entries, b),
    decreases entries.len(),
{
    if entries.len() > 0 {
        law_lookup_ignores_case(entries.skip(1), a, b);
        law_lookup_ignores_case(entries.drop_last(), a, b);
    }
}

/// Setting a header takes its other values away and puts it behind the others,
/// which keep their order.
pub proof fn law_set_header_comes_last(
    entries: Seq<(Seq<char>, Seq<char>)>,
    name: Seq<char>,
    value: Seq<char>,
)
    ensures
        with_header(entries, name, value) == entries.filter(
            |e: (Seq<char>, Seq<char>)| text::lowered(e.0) != text::lowered(name),
        ).push((name, value)),
{
    law_removal_keeps_the_others(entries, name);
}

} // verus!

//! `multipart/form-data` bodies (RFC 7578).

use crate::rand;
use crate::text;
use vstd::prelude::*;

verus! {

/// A part of a form.
#[derive(Debug)]
pub struct Part {
    pub name: String,
    pub filename: Option<String>,
    pub content_type: Option<String>,
    pub value: Vec<u8>,
}

/// What a [`Part`] stands for.
#[verifier::ext_equal]
pub struct PartView {
    pub name: Seq<char>,
    pub filename: Option<Seq<char>>,
    pub content_type: Option<Seq<char>>,
    pub value: Seq<u8>,
}

impl View for Part {
    type V = PartView;

    open spec fn view(&self) -> PartView {
        PartView {
            name: self.name@,
            filename: crate::url::text_view(self.filename),
            content_type: crate::url::text_view(self.content_type),
            value: self.value@,
        }
    }
}

/// A form under construction: named parts, each a plain field or a file.
#[derive(Debug)]
pub struct Multipart {
    pub parts: Vec<Part>,
}

impl View for Multipart {
    type V = Seq<PartView>;

    open spec fn view(&self) -> Seq<PartView> {
        self.parts@.map_values(|p: Part| p@)
    }
}

/// A name in a quoted string: `"` and `\` get a backslash.
pub open spec fn escaped(s: Seq<char>) -> Seq<char>
    decreases s.len(),
{
    if s.len() == 0 {
        seq![]
    } else if s.last() == '"' || s.last() == '\\' {
        escaped(s.drop_last()).push('\\').push(s.last())
    } else {
        escaped(s.drop_last()).push(s.last())
    }
}

/// The head of a part: its disposition, its type if it has one, and a blank
/// line.
pub open spec fn part_head(p: PartView) -> Seq<char> {
    "Content-Disposition: form-data; name=\""@ + escaped(p.name) + "\""@ + filename_text(p.filename)
        + "\r\n"@ + type_text(p.content_type) + "\r\n"@
}

/// A part between its boundary line and the next.
pub open spec fn part_bytes(boundary: Seq<char>, p: PartView) -> Seq<u8> {
    vstd::utf8::encode_utf8("--"@ + boundary + "\r\n"@ + part_head(p)) + p.value
        + vstd::utf8::encode_utf8("\r\n"@)
}

pub open spec fn parts_bytes(boundary: Seq<char>, parts: Seq<PartView>) -> Seq<u8>
    decreases parts.len(),
{
    if parts.len() == 0 {
        seq![]
    } else {
        parts_bytes(boundary, parts.drop_last()) + part_bytes(boundary, parts.last())
    }
}

/// The body of a form: its parts, and the closing boundary.
pub open spec fn form_bytes(boundary: Seq<char>, parts: Seq<PartView>) -> Seq<u8> {
    parts_bytes(boundary, parts) + vstd::utf8::encode_utf8("--"@ + boundary + "--\r\n"@)
}

/// The `Content-Type` of a form.
pub open spec fn form_type(boundary: Seq<char>) -> Seq<char> {
    "multipart/form-data; boundary="@ + boundary
}

/// The lowest `digits` hexadecimal digits of a number.
pub open spec fn padded_hex(n: nat, digits: nat) -> Seq<char>
    decreases digits,
{
    if digits == 0 {
        seq![]
    } else {
        padded_hex(n / 16, (digits - 1) as nat).push(crate::json::hex_digit(n % 16))
    }
}

/// The boundary that two numbers give.
pub open spec fn boundary_text(a: u64, b: u64) -> Seq<char> {
    "RustyRequestBoundary"@ + padded_hex(a as nat, 16) + padded_hex(b as nat, 16)
}

/// What [`Multipart::encode`] gives for the boundary of two numbers.
pub open spec fn encoded_with(parts: Seq<PartView>, a: u64, b: u64, out: (Vec<u8>, String)) -> bool {
    out.0@ == form_bytes(boundary_text(a, b), parts) && out.1@ == form_type(boundary_text(a, b))
}

/// The `filename` parameter of a part, if it has one.
pub open spec fn filename_text(filename: Option<Seq<char>>) -> Seq<char> {
    match filename {
        Some(f) => "; filename=\""@ + escaped(f) + "\""@,
        None => seq![],
    }
}

/// The `Content-Type` line of a part, if it has one.
pub open spec fn type_text(content_type: Option<Seq<char>>) -> Seq<char> {
    match content_type {
        Some(t) => "Content-Type: "@ + t + "\r\n"@,
        None => seq![],
    }
}

impl Part {
    fn filename_parameter(&self) -> (s: String)
        ensures
            s@ == filename_text(self@.filename),
    {
        match &self.filename {
            Some(filename) => {
                let mut s = text::owned("; filename=\"");
                s.push_str(quote_escape(filename.as_str()).as_str());
                s.push_str("\"");
                s
            },
            None => {
                let s = String::new();
                assert(s@ =~= seq![]);
                s
            },
        }
    }

    fn type_line(&self) -> (s: String)
        ensures
            s@ == type_text(self@.content_type),
    {
        match &self.content_type {
            Some(content_type) => {
                let mut s = text::owned("Content-Type: ");
                s.push_str(content_type.as_str());
                s.push_str("\r\n");
                s
            },
            None => {
                let s = String::new();
                assert(s@ =~= seq![]);
                s
            },
        }
    }

    fn head(&self) -> (s: String)
        ensures
            s@ == part_head(self@),
    {
        let mut s = text::owned("Content-Disposition: form-data; name=\"");
        s.push_str(quote_escape(self.name.as_str()).as_str());
        s.push_str("\"");
        s.push_str(self.filename_parameter().as_str());
        s.push_str("\r\n");
        s.push_str(self.type_line().as_str());
        s.push_str("\r\n");
        s
    }

    /// The part between its boundary line and the next.
    fn encode(&self, boundary: &str) -> (bytes: Vec<u8>)
        ensures
            bytes@ == part_bytes(boundary@, self@),
    {
        let mut head = text::owned("--");
        head.push_str(boundary);
        head.push_str("\r\n");
        head.push_str(self.head().as_str());
        let mut bytes = text::utf8_bytes(head.as_str());
        text::append_bytes(&mut bytes, self.value.as_slice());
        text::append_bytes(&mut bytes, text::utf8_bytes("\r\n").as_slice());
        bytes
    }
}

impl Multipart {
    pub fn new() -> (form: Self)
        ensures
            form@ == Seq::<PartView>::empty(),
    {
        let form = Multipart { parts: Vec::new() };
        assert(form@ =~= seq![]);
        form
    }

    fn with_part(self, part: Part) -> (form: Self)
        ensures
            form@ == self@.push(part@),
    {
        let mut parts = self.parts;
        parts.push(part);
        let form = Multipart { parts };
        assert(form@ =~= self@.push(part@));
        form
    }

    /// Adds a plain field, without a type or a filename.
    pub fn text(self, name: &str, value: &str) -> (form: Self)
        ensures
            form@ == self@.push(
                (PartView {
                    name: name@,
                    filename: None,
                    content_type: None,
                    value: vstd::utf8::encode_utf8(value@),
                }),
            ),
    {
        self.with_part(
            Part {
                name: text::owned(name),
                filename: None,
                content_type: None,
                value: text::utf8_bytes(value),
            },
        )
    }

    /// Adds a file of type `application/octet-stream`.
    pub fn file(self, name: &str, filename: &str, bytes: Vec<u8>) -> (form: Self)
        ensures
            form@ == self@.push(
                (PartView {
                    name: name@,
                    filename: Some(filename@),
                    content_type: Some("application/octet-stream"@),
                    value: bytes@,
                }),
            ),
    {
        self.file_with_content_type(name, filename, "application/octet-stream", bytes)
    }

    /// Adds a file of the given type.
    pub fn file_with_content_type(
        self,
        name: &str,
        filename: &str,
        content_type: &str,
        bytes: Vec<u8>,
    ) -> (form: Self)
        ensures
            form@ == self@.push(
                (PartView {
                    name: name@,
                    filename: Some(filename@),
                    content_type: Some(content_type@),
                    value: bytes@,
                }),
            ),
    {
        self.with_part(
            Part {
                name: text::owned(name),
                filename: Some(text::owned(filename)),
                content_type: Some(text::owned(content_type)),
                value: bytes,
            },
        )
    }

    pub fn is_empty(&self) -> (yes: bool)
        ensures
            yes == (self@.len() == 0),
    {
        self.parts.len() == 0
    }

    /// The form's body and its `Content-Type`, with a fresh boundary.
    pub fn encode(&self) -> (out: (Vec<u8>, String))
        ensures
            exists|a: u64, b: u64| #[trigger] encoded_with(self@, a, b, out),
    {
        let a = rand::next_u64();
        let b = rand::next_u64();
        let boundary = boundary_of(a, b);
        let out = self.encode_with_boundary(boundary.as_str());
        assert(encoded_with(self@, a, b, out));
        out
    }

    /// The form's body and its `Content-Type`, with the given boundary.
    pub fn encode_with_boundary(&self, boundary: &str) -> (out: (Vec<u8>, String))
        ensures
            out.0@ == form_bytes(boundary@, self@),
            out.1@ == form_type(boundary@),
    {
        let mut body: Vec<u8> = Vec::new();
        assert(body@ =~= parts_bytes(boundary@, self@.take(0)));
        for i in 0..self.parts.len()
            invariant
                body@ == parts_bytes(boundary@, self@.take(i as int)),
        {
            proof {
                assert(self@.take(i + 1).drop_last() =~= self@.take(i as int));
                assert(self@.take(i + 1).last() == self.parts@[i as int]@);
            }
            text::append_bytes(&mut body, self.parts[i].encode(boundary).as_slice());
        }
        assert(self@.take(self@.len() as int) =~= self@);
        let mut closing = text::owned("--");
        closing.push_str(boundary);
        closing.push_str("--\r\n");
        text::append_bytes(&mut body, text::utf8_bytes(closing.as_str()).as_slice());
        let mut content_type = text::owned("multipart/form-data; boundary=");
        content_type.push_str(boundary);
        (body, content_type)
    }
}

impl Default for Multipart {
    fn default() -> (form: Self)
        ensures
            form@ == Seq::<PartView>::empty(),
    {
        Multipart::new()
    }
}

/// Backslash-escapes `"` and `\`, so that a name cannot end the quoted
/// string that it stands in.
pub fn quote_escape(s: &str) -> (out: String)
    ensures
        out@ == escaped(s@),
{
    let chars = text::chars_of(s);
    let mut out = String::new();
    for i in 0..chars.len()
        invariant
            chars@ == s@,
            out@ == escaped(s@.take(i as int)),
    {
        proof {
            assert(s@.take(i + 1).drop_last() =~= s@.take(i as int));
        }
        let c = chars[i];
        if c == '"' || c == '\\' {
            out.push('\\');
        }
        out.push(c);
    }
    assert(s@.take(s@.len() as int) =~= s@);
    out
}

fn push_hex(out: &mut String, n: u64, digits: u32)
    requires
        digits <= 16,
    ensures
        final(out)@ == old(out)@ + padded_hex(n as nat, digits as nat),
    decreases digits,
{
    if digits > 0 {
        let ghost before = out@;
        push_hex(out, n / 16, digits - 1);
        out.push(crate::json::hex_digit_char((n % 16) as u32));
        assert(out@ =~= before + padded_hex(n as nat, digits as nat));
    }
}

/// The boundary that two numbers give: a distinctive prefix and 128 bits.
pub fn boundary_of(a: u64, b: u64) -> (boundary: String)
    ensures
        boundary@ == boundary_text(a, b),
{
    let mut boundary = text::owned("RustyRequestBoundary");
    push_hex(&mut boundary, a, 16);
    push_hex(&mut boundary, b, 16);
    boundary
}

/// The text of a quoted string, from just after its opening quote, and what
/// follows its closing quote; none if it is not closed.
pub open spec fn quoted_text(s: Seq<char>) -> Option<(Seq<char>, Seq<char>)>
    decreases s.len(),
{
    if s.len() == 0 {
        None
    } else if s[0] == '"' {
        Some((seq![], s.skip(1)))
    } else if s[0] == '\\' {
        if s.len() == 1 {
            None
        } else {
            match quoted_text(s.skip(2)) {
                Some((t, rest)) => Some((seq![s[1]] + t, rest)),
                None => None,
            }
        }
    } else {
        match quoted_text(s.skip(1)) {
            Some((t, rest)) => Some((seq![s[0]] + t, rest)),
            None => None,
        }
    }
}

proof fn lemma_escaped_first(s: Seq<char>)
    requires
        s.len() > 0,
    ensures
        escaped(s) == (if s[0] == '"' || s[0] == '\\' {
            seq!['\\', s[0]]
        } else {
            seq![s[0]]
        }) + escaped(s.skip(1)),
    decreases s.len(),
{
    if s.len() == 1 {
        assert(s.drop_last() =~= Seq::<char>::empty());
        assert(s.skip(1) =~= Seq::<char>::empty());
        assert(escaped(s.drop_last()) =~= seq![]);
    } else {
        lemma_escaped_first(s.drop_last());
        assert(s.drop_last().skip(1) =~= s.skip(1).drop_last());
    }
}

/// A name reads back from the quoted string that it was written into, and
/// whatever follows the closing quote still follows it: no name can end its
/// string early or add a parameter.
pub proof fn law_quoted_name_reads_back(name: Seq<char>, after: Seq<char>)
    ensures
        quoted_text(escaped(name) + seq!['"'] + after) == Some((name, after)),
    decreases name.len(),
{
    let s = escaped(name) + seq!['"'] + after;
    if name.len() == 0 {
        assert(escaped(name) =~= seq![]);
        assert(s[0] == '"');
        assert(s.skip(1) =~= after);
        assert(name =~= seq![]);
    } else {
        lemma_escaped_first(name);
        law_quoted_name_reads_back(name.skip(1), after);
        let rest = escaped(name.skip(1)) + seq!['"'] + after;
        assert(seq![name[0]] + name.skip(1) =~= name);
        if name[0] == '"' || name[0] == '\\' {
            assert(s[0] == '\\' && s[1] == name[0]);
            assert(s.skip(2) =~= rest);
        } else {
            assert(s[0] == name[0]);
            assert(s.skip(1) =~= rest);
        }
    }
}

/// Every boundary has the same length and consists of letters and digits, so
/// that it needs no quoting anywhere.
pub proof fn law_boundary_is_alphanumeric(a: u64, b: u64)
    ensures
        boundary_text(a, b).len() == 52,
        forall|i: int|
            0 <= i < 52 ==> ({
                let c = #[trigger] boundary_text(a, b)[i];
                'a' <= c <= 'z' || 'A' <= c <= 'Z' || '0' <= c <= '9'
            }),
{
    reveal_strlit("RustyRequestBoundary");
    lemma_padded_hex(a as nat, 16);
    lemma_padded_hex(b as nat, 16);
    let (p, x, y) = ("RustyRequestBoundary"@, padded_hex(a as nat, 16), padded_hex(b as nat, 16));
    assert forall|i: int| 0 <= i < 52 implies ({
        let c = #[trigger] boundary_text(a, b)[i];
        'a' <= c <= 'z' || 'A' <= c <= 'Z' || '0' <= c <= '9'
    }) by {
        if i < 20 {
            assert(boundary_text(a, b)[i] == p[i]);
        } else if i < 36 {
            assert(boundary_text(a, b)[i] == x[i - 20]);
        } else {
            assert(boundary_text(a, b)[i] == y[i - 36]);
        }
    }
}

proof fn lemma_padded_hex(n: nat, digits: nat)
    ensures
        padded_hex(n, digits).len() == digits,
        forall|i: int|
            0 <= i < digits ==> 'a' <= #[trigger] padded_hex(n, digits)[i] <= 'f' || '0'
                <= padded_hex(n, digits)[i] <= '9',
    decreases digits,
{
    if digits > 0 {
        lemma_padded_hex(n / 16, (digits - 1) as nat);
        let front = padded_hex(n / 16, (digits - 1) as nat);
        assert forall|i: int| 0 <= i < digits implies 'a' <= #[trigger] padded_hex(n, digits)[i]
            <= 'f' || '0' <= padded_hex(n, digits)[i] <= '9' by {
            if i < digits - 1 {
                assert(padded_hex(n, digits)[i] == front[i]);
            }
        }
    }
}

/// The text before the value of a part: the boundary line, the disposition with
/// the name and the file name, the type, and a blank line.
pub open spec fn part_opening(boundary: Seq<char>, p: PartView) -> Seq<char> {
    let front = "--"@ + boundary + "\r\nContent-Disposition: form-data; name=\""@ + escaped(p.name)
        + "\""@;
    let named = match p.filename {
        Some(f) => front + "; filename=\""@ + escaped(f) + "\""@,
        None => front,
    };
    match p.content_type {
        Some(t) => named + "\r\nContent-Type: "@ + t + "\r\n\r\n"@,
        None => named + "\r\n\r\n"@,
    }
}

/// A form is its parts, in their order, and a closing boundary: each part is
/// its opening, its value as it is, and a line end.
pub proof fn law_form_holds_its_parts(boundary: Seq<char>, p: PartView, rest: Seq<PartView>)
    ensures
        form_bytes(boundary, Seq::empty()) == vstd::utf8::encode_utf8(
            "--"@ + boundary + "--\r\n"@,
        ),
        form_bytes(boundary, seq![p] + rest) == vstd::utf8::encode_utf8(
            part_opening(boundary, p),
        ) + p.value + seq![13u8, 10u8] + form_bytes(boundary, rest),
{
    let end = vstd::utf8::encode_utf8("--"@ + boundary + "--\r\n"@);
    assert(parts_bytes(boundary, Seq::empty()) + end =~= end);
    lemma_parts_first(boundary, p, rest);
    reveal_strlit("\r\n");
    assert(vstd::utf8::encode_utf8("\r\n"@) =~= seq![13u8, 10u8]) by {
        vstd::utf8::is_ascii_chars_encode_utf8("\r\n"@);
    }
    assert("--"@ + boundary + "\r\n"@ + part_head(p) =~= part_opening(boundary, p)) by {
        reveal_strlit("\r\nContent-Disposition: form-data; name=\"");
        reveal_strlit("Content-Disposition: form-data; name=\"");
        reveal_strlit("\r\nContent-Type: ");
        reveal_strlit("Content-Type: ");
        reveal_strlit("\r\n\r\n");
        assert("\r\nContent-Disposition: form-data; name=\""@ =~= "\r\n"@
            + "Content-Disposition: form-data; name=\""@);
        assert("\r\nContent-Type: "@ =~= "\r\n"@ + "Content-Type: "@);
        assert("\r\n\r\n"@ =~= "\r\n"@ + "\r\n"@);
    }
    assert(form_bytes(boundary, seq![p] + rest) =~= part_bytes(boundary, p) + form_bytes(
        boundary,
        rest,
    ));
}

proof fn lemma_parts_first(boundary: Seq<char>, p: PartView, rest: Seq<PartView>)
    ensures
        parts_bytes(boundary, seq![p] + rest) == part_bytes(boundary, p) + parts_bytes(
            boundary,
            rest,
        ),
    decreases rest.len(),
{
    let all = seq![p] + rest;
    if rest.len() == 0 {
        assert(all.drop_last() =~= Seq::<PartView>::empty());
        assert(all.last() == p);
        assert(parts_bytes(boundary, all.drop_last()) =~= Seq::<u8>::empty());
        assert(parts_bytes(boundary, all) =~= part_bytes(boundary, p) + parts_bytes(
            boundary,
            rest,
        ));
    } else {
        lemma_parts_first(boundary, p, rest.drop_last());
        assert(all.drop_last() =~= seq![p] + rest.drop_last());
        assert(all.last() == rest.last());
        assert(parts_bytes(boundary, all) =~= part_bytes(boundary, p) + parts_bytes(
            boundary,
            rest,
        ));
    }
}

/// Different numbers give different boundaries.
pub proof fn law_boundaries_tell_numbers_apart(a: u64, b: u64, c: u64, d: u64)
    requires
        boundary_text(a, b) == boundary_text(c, d),
    ensures
        a == c && b == d,
{
    reveal_strlit("RustyRequestBoundary");
    lemma_padded_hex(a as nat, 16);
    lemma_padded_hex(b as nat, 16);
    lemma_padded_hex(c as nat, 16);
    lemma_padded_hex(d as nat, 16);
    let one = boundary_text(a, b);
    let two = boundary_text(c, d);
    assert(one.subrange(20, 36) =~= padded_hex(a as nat, 16));
    assert(two.subrange(20, 36) =~= padded_hex(c as nat, 16));
    assert(one.subrange(36, 52) =~= padded_hex(b as nat, 16));
    assert(two.subrange(36, 52) =~= padded_hex(d as nat, 16));
    assert(vstd::arithmetic::power::pow(16, 16) == 0x1_0000_0000_0000_0000) by {
        reveal_with_fuel(vstd::arithmetic::power::pow, 17);
    }
    lemma_padded_hex_injective(a as nat, c as nat, 16);
    lemma_padded_hex_injective(b as nat, d as nat, 16);
}

proof fn lemma_padded_hex_injective(a: nat, b: nat, digits: nat)
    requires
        padded_hex(a, digits) == padded_hex(b, digits),
        a < vstd::arithmetic::power::pow(16, digits),
        b < vstd::arithmetic::power::pow(16, digits),
    ensures
        a == b,
    decreases digits,
{
    reveal(vstd::arithmetic::power::pow);
    if digits > 0 {
        let fewer = (digits - 1) as nat;
        let one = padded_hex(a, digits);
        let two = padded_hex(b, digits);
        assert(one.drop_last() =~= padded_hex(a / 16, fewer));
        assert(two.drop_last() =~= padded_hex(b / 16, fewer));
        assert(one.last() == crate::json::hex_digit(a % 16));
        assert(two.last() == crate::json::hex_digit(b % 16));
        assert(vstd::arithmetic::power::pow(16, digits) == 16 * vstd::arithmetic::power::pow(
            16,
            fewer,
        ));
        lemma_padded_hex_injective(a / 16, b / 16, fewer);
    }
}

/// A form is announced with its boundary, and the boundary is a fixed word and
/// the two numbers in sixteen hexadecimal digits each.
pub proof fn law_form_is_announced(a: u64, b: u64, n: nat, d: nat, digits: nat)
    requires
        d < 16,
    ensures
        form_type(boundary_text(a, b)) == "multipart/form-data; boundary=RustyRequestBoundary"@ + (
        padded_hex(a as nat, 16) + padded_hex(b as nat, 16)),
        padded_hex(n * 16 + d, digits + 1) == padded_hex(n, digits).push(
            "0123456789abcdef"@[d as int],
        ),
        padded_hex(n, 0) == Seq::<char>::empty(),
{
    reveal_strlit("multipart/form-data; boundary=RustyRequestBoundary");
    reveal_strlit("multipart/form-data; boundary=");
    reveal_strlit("RustyRequestBoundary");
    reveal_strlit("0123456789abcdef");
    assert("multipart/form-data; boundary=RustyRequestBoundary"@
        =~= "multipart/form-data; boundary="@ + "RustyRequestBoundary"@);
    assert(form_type(boundary_text(a, b)) =~= "multipart/form-data; boundary="@
        + "RustyRequestBoundary"@ + (padded_hex(a as nat, 16) + padded_hex(b as nat, 16)));
    assert(crate::json::hex_digit(d) == "0123456789abcdef"@[d as int]);
    assert((n * 16 + d) / 16 == n);
    assert((n * 16 + d) % 16 == d);
}

} // verus!

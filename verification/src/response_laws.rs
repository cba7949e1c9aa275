//! What reading a response promises, in terms of the bytes of the message.

use crate::error::ErrorView;
use crate::header;
use crate::http1;
use crate::http1::HeadView;
use crate::http1::Line;
use crate::http1::ResponseView;
use crate::method::Method;
use crate::status::StatusCode;
use crate::text;
use crate::text_laws;
use crate::wire;
use crate::wire::SentChunk;
use vstd::prelude::*;

verus! {

/// The status line of a response: its version, its status and its reason.
pub open spec fn status_text(minor: Seq<char>, code: u16, reason: Seq<char>) -> Seq<char> {
    "HTTP/1."@ + minor + seq![' '] + text::decimal(code as nat) + seq![' '] + reason
}

/// The lines of header entries.
pub open spec fn field_lines(headers: Seq<(Seq<char>, Seq<char>)>) -> Seq<Seq<char>> {
    headers.map_values(|e: (Seq<char>, Seq<char>)| e.0 + seq![':', ' '] + e.1)
}

/// A response head as a server sends it: the status line, the header lines and
/// a blank line, each ended by CR and LF.
pub open spec fn head_bytes(
    minor: Seq<char>,
    code: u16,
    reason: Seq<char>,
    headers: Seq<(Seq<char>, Seq<char>)>,
) -> Seq<u8> {
    wire::line_bytes(status_text(minor, code, reason)) + (wire::all_line_bytes(field_lines(headers))
        + wire::line_bytes(seq![]))
}

/// Whether a response head can be sent and read: no part of it breaks its
/// line, no value has white space around it, and the whole is not too long.
pub open spec fn head_fits(
    minor: Seq<char>,
    code: u16,
    reason: Seq<char>,
    headers: Seq<(Seq<char>, Seq<char>)>,
) -> bool {
    &&& text_laws::lacks(minor, ' ') && text_laws::lacks(minor, '\n')
    &&& text_laws::lacks(reason, '\n')
    &&& header::valid_entries(headers)
    &&& forall|i: int| 0 <= i < headers.len() ==> text_laws::is_trim((#[trigger] headers[i]).1)
    &&& head_bytes(minor, code, reason, headers).len() <= 8_388_608
}

/// A line that ends within the limit is read as it was written.
proof fn lemma_line_within(line: Seq<char>, rest: Seq<u8>, limit: int, too_long: Seq<char>)
    requires
        text_laws::lacks(line, '\n'),
        wire::line_bytes(line).len() <= limit,
    ensures
        http1::line_within(wire::line_bytes(line) + rest, limit, too_long) == Line::Text(
            line,
            rest,
        ),
{
    let bytes = vstd::utf8::encode_utf8(line);
    let t = wire::line_bytes(line) + rest;
    wire::lemma_no_line_feeds(line);
    let p = bytes.len() + 1int;
    assert forall|i: int| 0 <= i < p implies t[i] != 10u8 by {
        if i < bytes.len() {
            assert(t[i] == bytes[i]);
        } else {
            assert(t[i] == 13u8);
        }
    }
    assert(t[p] == 10u8);
    text::lemma_position_unique(t, 10u8, p);
    assert(t.take(p) =~= bytes.push(13u8));
    assert(http1::chomped(t.take(p)) =~= bytes);
    assert(t.skip(p + 1) =~= rest);
    vstd::utf8::encode_utf8_valid_utf8(line);
    vstd::utf8::encode_utf8_decode_utf8(line);
}

/// A status line gives its status and its reason, of whatever version 1.x it
/// is; a line that stops after the status has no reason.
pub proof fn law_status_line_is_read(minor: Seq<char>, code: u16, reason: Seq<char>)
    requires
        text_laws::lacks(minor, ' '),
    ensures
        http1::status_line(status_text(minor, code, reason)) == Ok::<
            (StatusCode, Seq<char>),
            ErrorView,
        >((StatusCode { code }, reason)),
        http1::status_line("HTTP/1."@ + minor + seq![' '] + text::decimal(code as nat)) == Ok::<
            (StatusCode, Seq<char>),
            ErrorView,
        >((StatusCode { code }, seq![])),
{
    reveal_strlit("HTTP/1.");
    let version = "HTTP/1."@ + minor;
    let digits = text::decimal(code as nat);
    assert(text_laws::lacks(version, ' ')) by {
        assert forall|i: int| 0 <= i < version.len() implies #[trigger] version[i] != ' ' by {
            if i >= 7 {
                assert(version[i] == minor[i - 7]);
            }
        }
    }
    text::lemma_decimal_digits(code as nat);
    assert(text_laws::lacks(digits, ' '));
    assert(version.take(7) == "HTTP/1."@);
    text_laws::law_decimal_reads_back(code as nat, 65535);
    let rest = digits + seq![' '] + reason;
    assert(status_text(minor, code, reason) == version + seq![' '] + rest);
    text_laws::law_separator_is_found(version, ' ', rest);
    text_laws::law_separator_is_found(digits, ' ', reason);
    text_laws::law_separator_is_found(version, ' ', digits);
    text_laws::law_missing_separator_is_not_found(digits, ' ');
    assert(digits.take(digits.len() as int) == digits);
}

/// A status line of another protocol or version is refused.
pub proof fn law_other_versions_are_refused(line: Seq<char>, code: u16)
    requires
        line.len() < 7 || line.take(7) != "HTTP/1."@,
    ensures
        http1::status_line(line) is Err,
{
    reveal_strlit("HTTP/1.");
    text::lemma_position(line, ' ');
    let version = line.take(text::position(line, ' '));
    if text::starts_with(version, "HTTP/1."@) {
        assert(version.take(7) == line.take(7));
    }
}

/// A header line gives its name and its value, without the white space around
/// them; a line without a colon is refused.
pub proof fn law_header_line_is_read(
    name: Seq<char>,
    before: Seq<char>,
    value: Seq<char>,
    after: Seq<char>,
    line: Seq<char>,
)
    requires
        text_laws::lacks(name, ':'),
        text_laws::is_trim(name),
        text_laws::is_blank(before),
        text_laws::is_trim(value),
        text_laws::is_blank(after),
        text_laws::lacks(line, ':'),
    ensures
        http1::header_line(name + seq![':'] + (before + value + after)) == Ok::<
            (Seq<char>, Seq<char>),
            ErrorView,
        >((name, value)),
        http1::header_line(line) is Err,
{
    text_laws::law_separator_is_found(name, ':', before + value + after);
    text_laws::law_trimming_takes_what_is_around(before, value, after);
    let none = Seq::<char>::empty();
    text_laws::law_trimming_takes_what_is_around(none, name, none);
    assert(none + name + none == name);
    text_laws::law_missing_separator_is_not_found(line, ':');
}

proof fn lemma_field_line(name: Seq<char>, value: Seq<char>)
    requires
        header::valid_name(name),
        header::valid_value(value),
        text_laws::is_trim(value),
    ensures
        ({
            let line = name + seq![':', ' '] + value;
            &&& line.len() > 0
            &&& text_laws::lacks(line, '\n')
            &&& http1::header_line(line) == Ok::<(Seq<char>, Seq<char>), ErrorView>((name, value))
        }),
{
    let line = name + seq![':', ' '] + value;
    let none = Seq::<char>::empty();
    assert(line == name + seq![':'] + (seq![' '] + value + none));
    assert(!text::is_space(name[0]));
    assert(!text::is_space(name[name.len() - 1]));
    law_header_line_is_read(name, seq![' '], value, none, none);
    assert forall|i: int| 0 <= i < line.len() implies #[trigger] line[i] != '\n' by {
        if i < name.len() {
            assert(line[i] == name[i]);
        } else if i >= name.len() + 2 {
            assert(line[i] == value[i - name.len() - 2]);
        }
    }
}

proof fn lemma_headers_back(
    status: StatusCode,
    reason: Seq<char>,
    done: Seq<(Seq<char>, Seq<char>)>,
    left: int,
    headers: Seq<(Seq<char>, Seq<char>)>,
    body: Seq<u8>,
)
    requires
        header::valid_entries(headers),
        forall|i: int| 0 <= i < headers.len() ==> text_laws::is_trim((#[trigger] headers[i]).1),
        (wire::all_line_bytes(field_lines(headers)) + wire::line_bytes(seq![])).len() <= left,
        left <= 8_388_608,
    ensures
        http1::headers_rest(
            status,
            reason,
            done,
            left,
            wire::all_line_bytes(field_lines(headers)) + wire::line_bytes(seq![]) + body,
        ) == Ok::<HeadView, ErrorView>(
            HeadView { status, reason, headers: done + headers, rest: body },
        ),
    decreases headers.len(),
{
    let lines = field_lines(headers);
    let end = wire::line_bytes(seq![]);
    let t = wire::all_line_bytes(lines) + end + body;
    let too_long = "response head exceeded the maximum allowed length"@;
    if headers.len() == 0 {
        assert(lines =~= Seq::<Seq<char>>::empty());
        assert(t =~= end + body);
        lemma_line_within(seq![], body, left, too_long);
        assert(done + headers =~= done);
    } else {
        let (name, value) = headers[0];
        let line = name + seq![':', ' '] + value;
        let later = headers.skip(1);
        let rest = wire::all_line_bytes(field_lines(later)) + end + body;
        assert(lines[0] == line);
        assert(lines.skip(1) =~= field_lines(later));
        assert(t =~= wire::line_bytes(line) + rest);
        assert(header::valid_name(headers[0].0) && header::valid_value(headers[0].1));
        assert(text_laws::is_trim(headers[0].1));
        lemma_field_line(name, value);
        lemma_line_within(line, rest, left, too_long);
        assert forall|i: int| 0 <= i < later.len() implies header::valid_name(
            (#[trigger] later[i]).0,
        ) && header::valid_value(later[i].1) && text_laws::is_trim(later[i].1) by {
            assert(later[i] == headers[i + 1]);
        }
        let used = t.len() - rest.len();
        assert(used == wire::line_bytes(line).len());
        lemma_headers_back(status, reason, done.push((name, value)), left - used, later, body);
        assert(done.push((name, value)) + later =~= done + headers);
    }
}

proof fn lemma_status_text_is_one_line(minor: Seq<char>, code: u16, reason: Seq<char>)
    requires
        text_laws::lacks(minor, '\n'),
        text_laws::lacks(reason, '\n'),
    ensures
        text_laws::lacks(status_text(minor, code, reason), '\n'),
{
    let line = status_text(minor, code, reason);
    reveal_strlit("HTTP/1.");
    let digits = text::decimal(code as nat);
    text::lemma_decimal_digits(code as nat);
    assert(text_laws::lacks(line, '\n')) by {
        let version = "HTTP/1."@ + minor;
        let front = version + seq![' '] + digits + seq![' '];
        assert forall|i: int| 0 <= i < line.len() implies #[trigger] line[i] != '\n' by {
            if i < 7 {
                assert(line[i] == "HTTP/1."@[i]);
            } else if i < version.len() {
                assert(line[i] == minor[i - 7]);
            } else if version.len() < i < version.len() + 1 + digits.len() {
                assert(line[i] == digits[i - version.len() - 1]);
            } else if i >= front.len() {
                assert(line[i] == reason[i - front.len()]);
            }
        }
    }
}

/// A response head is read as it was sent: its status, its reason and its
/// headers in their order. What follows it is left.
pub proof fn law_head_reads_back(
    minor: Seq<char>,
    code: u16,
    reason: Seq<char>,
    headers: Seq<(Seq<char>, Seq<char>)>,
    body: Seq<u8>,
)
    requires
        head_fits(minor, code, reason, headers),
    ensures
        http1::head_of(head_bytes(minor, code, reason, headers) + body) == Ok::<
            HeadView,
            ErrorView,
        >(HeadView { status: StatusCode { code }, reason, headers, rest: body }),
{
    let line = status_text(minor, code, reason);
    let fields = wire::all_line_bytes(field_lines(headers)) + wire::line_bytes(seq![]);
    let t = head_bytes(minor, code, reason, headers) + body;
    let rest = fields + body;
    assert(t =~= wire::line_bytes(line) + rest);
    lemma_status_text_is_one_line(minor, code, reason);
    lemma_line_within(
        line,
        rest,
        8_388_608,
        "response head exceeded the maximum allowed length"@,
    );
    law_status_line_is_read(minor, code, reason);
    lemma_headers_back(
        StatusCode { code },
        reason,
        seq![],
        8_388_608 - wire::line_bytes(line).len(),
        headers,
        body,
    );
    assert(Seq::<(Seq<char>, Seq<char>)>::empty() + headers =~= headers);
}

/// Whether the response to a request with this method, and with this status,
/// has no body whatever its headers say.
pub open spec fn never_has_a_body(method: Method, code: u16) -> bool {
    method == Method::Head || 100 <= code <= 199 || code == 204 || code == 304
}

/// What is found under the names of the headers that frame a body, however
/// they are written.
proof fn lemma_framing_names(headers: Seq<(Seq<char>, Seq<char>)>)
    ensures
        header::lookup(headers, "transfer-encoding"@) == header::lookup(
            headers,
            "Transfer-Encoding"@,
        ),
        header::lookup(headers, "content-length"@) == header::lookup(headers, "Content-Length"@),
        header::lookup(headers, "connection"@) == header::lookup(headers, "Connection"@),
{
    reveal_strlit("transfer-encoding");
    reveal_strlit("Transfer-Encoding");
    reveal_strlit("content-length");
    reveal_strlit("Content-Length");
    reveal_strlit("connection");
    reveal_strlit("Connection");
    assert(text::lowered("transfer-encoding"@) =~= text::lowered("Transfer-Encoding"@));
    assert(text::lowered("content-length"@) =~= text::lowered("Content-Length"@));
    assert(text::lowered("connection"@) =~= text::lowered("Connection"@));
    header::law_lookup_ignores_case(headers, "transfer-encoding"@, "Transfer-Encoding"@);
    header::law_lookup_ignores_case(headers, "content-length"@, "Content-Length"@);
    header::law_lookup_ignores_case(headers, "connection"@, "Connection"@);
}

/// A response with `Content-Length: n`, and without `Transfer-Encoding`, has
/// the `n` bytes after its head as its body, whatever its status and whatever
/// follows, unless its request or its status rules a body out.
pub proof fn law_counted_response_is_read(
    method: Method,
    minor: Seq<char>,
    code: u16,
    reason: Seq<char>,
    headers: Seq<(Seq<char>, Seq<char>)>,
    body: Seq<u8>,
    after: Seq<u8>,
)
    requires
        head_fits(minor, code, reason, headers),
        method != Method::Head,
        !(100 <= code <= 199),
        code != 204,
        code != 304,
        header::lookup(headers, "Transfer-Encoding"@) is None,
        header::lookup(headers, "Content-Length"@) == Some(text::decimal(body.len())),
        body.len() <= usize::MAX,
    ensures
        ({
            let message = head_bytes(minor, code, reason, headers) + (body + after);
            &&& http1::response_of(method, message) matches Ok(r)
            &&& r.status.code == code
            &&& r.reason == reason
            &&& r.headers == headers
            &&& r.body == body
            &&& header::lookup(headers, "Connection"@) is None ==> r.keep_alive
        }),
{
    law_head_reads_back(minor, code, reason, headers, body + after);
    lemma_framing_names(headers);
    text_laws::law_decimal_reads_back(body.len(), usize::MAX as nat);
    assert((body + after).take(body.len() as int) =~= body);
}

/// A response whose body is shorter than its `Content-Length` is refused.
pub proof fn law_cut_response_is_refused(
    method: Method,
    minor: Seq<char>,
    code: u16,
    reason: Seq<char>,
    headers: Seq<(Seq<char>, Seq<char>)>,
    n: usize,
    body: Seq<u8>,
)
    requires
        head_fits(minor, code, reason, headers),
        method != Method::Head,
        !(100 <= code <= 199),
        code != 204,
        code != 304,
        header::lookup(headers, "Transfer-Encoding"@) is None,
        header::lookup(headers, "Content-Length"@) == Some(text::decimal(n as nat)),
        body.len() < n,
    ensures
        http1::response_of(method, head_bytes(minor, code, reason, headers) + body) is Err,
{
    law_head_reads_back(minor, code, reason, headers, body);
    lemma_framing_names(headers);
    text_laws::law_decimal_reads_back(n as nat, usize::MAX as nat);
}

/// A response whose `Transfer-Encoding` is `chunked`, or ends with it, has the
/// data of its chunks as its body, whatever its status, whatever its
/// `Content-Length` and whatever follows, unless its request or its status
/// rules a body out.
pub proof fn law_chunked_response_is_read(
    method: Method,
    minor: Seq<char>,
    code: u16,
    reason: Seq<char>,
    headers: Seq<(Seq<char>, Seq<char>)>,
    codings: Seq<char>,
    pad: Seq<char>,
    last: Seq<char>,
    chunks: Seq<SentChunk>,
    last_extension: Seq<char>,
    trailers: Seq<Seq<char>>,
    after: Seq<u8>,
)
    requires
        head_fits(minor, code, reason, headers),
        method != Method::Head,
        !(100 <= code <= 199),
        code != 204,
        code != 304,
        text::same_ignoring_case(last, "chunked"@),
        text_laws::is_blank(pad),
        header::lookup(headers, "Transfer-Encoding"@) == Some(last) || header::lookup(
            headers,
            "Transfer-Encoding"@,
        ) == Some(codings + seq![','] + (pad + last)),
        forall|i: int| 0 <= i < chunks.len() ==> wire::chunk_fits(#[trigger] chunks[i]),
        wire::size_line_fits(0, last_extension),
        forall|i: int|
            0 <= i < trailers.len() ==> (#[trigger] trailers[i]).len() > 0 && wire::fits_a_line(
                trailers[i],
            ),
    ensures
        ({
            let message = head_bytes(minor, code, reason, headers) + (wire::chunked_message(
                chunks,
                last_extension,
                trailers,
            ) + after);
            &&& http1::response_of(method, message) matches Ok(r)
            &&& r.status.code == code
            &&& r.reason == reason
            &&& r.headers == headers
            &&& r.body == wire::data_of(chunks)
            &&& header::lookup(headers, "Connection"@) is None ==> r.keep_alive
        }),
{
    let body = wire::chunked_message(chunks, last_extension, trailers);
    law_head_reads_back(minor, code, reason, headers, body + after);
    lemma_framing_names(headers);
    lemma_chunked_coding(codings, pad, last);
    wire::law_extended_chunks_read_back(chunks, last_extension, trailers, true, after);
}

proof fn lemma_chunked_coding(codings: Seq<char>, pad: Seq<char>, last: Seq<char>)
    requires
        text_laws::is_blank(pad),
        text::same_ignoring_case(last, "chunked"@),
    ensures
        ({
            let v = codings + seq![','] + (pad + last);
            text::trimmed(v.skip(text::last_position(v, ',') + 1)) == last
        }),
        text::trimmed(last.skip(text::last_position(last, ',') + 1)) == last,
{
    reveal_strlit("chunked");
    let none = Seq::<char>::empty();
    assert(text::lowered(last).len() == last.len());
    assert forall|i: int| 0 <= i < last.len() implies #[trigger] last[i] != ',' && !text::is_space(
        last[i],
    ) by {
        assert(text::lowered(last)[i] == text::lower(last[i]));
        assert(text::lowered("chunked"@)[i] == text::lower("chunked"@[i]));
    }
    assert(last.len() == 7);
    let v = codings + seq![','] + (pad + last);
    assert forall|i: int| codings.len() < i < v.len() implies v[i] != ',' by {
        let k = i - codings.len() - 1;
        if k < pad.len() {
            assert(text::is_space(pad[k]));
        } else {
            assert(v[i] == last[k - pad.len()]);
        }
    }
    text::lemma_last_position_unique(v, ',', codings.len() as int);
    assert(v.skip(codings.len() + 1int) =~= pad + last + none);
    text_laws::law_trimming_takes_what_is_around(pad, last, none);
    text::lemma_last_position_unique(last, ',', -1);
    assert(last.skip(0) =~= none + last + none);
    text_laws::law_trimming_takes_what_is_around(none, last, none);
}

/// A response that says nothing of its length has everything up to the end of
/// the connection as its body, and the connection is then of no more use.
pub proof fn law_response_up_to_the_close_is_read(
    method: Method,
    minor: Seq<char>,
    code: u16,
    reason: Seq<char>,
    headers: Seq<(Seq<char>, Seq<char>)>,
    body: Seq<u8>,
)
    requires
        head_fits(minor, code, reason, headers),
        method != Method::Head,
        !(100 <= code <= 199),
        code != 204,
        code != 304,
        header::lookup(headers, "Transfer-Encoding"@) is None,
        header::lookup(headers, "Content-Length"@) is None,
    ensures
        ({
            &&& http1::response_of(
                method,
                head_bytes(minor, code, reason, headers) + body,
            ) matches Ok(r)
            &&& r.status.code == code
            &&& r.reason == reason
            &&& r.headers == headers
            &&& r.body == body
            &&& !r.keep_alive
        }),
{
    law_head_reads_back(minor, code, reason, headers, body);
    lemma_framing_names(headers);
}

/// The response to a `HEAD`, and one with a status from 100 to 199, 204 or 304,
/// has no body, whatever its headers say and whatever follows.
pub proof fn law_bodiless_response_is_read(
    method: Method,
    minor: Seq<char>,
    code: u16,
    reason: Seq<char>,
    headers: Seq<(Seq<char>, Seq<char>)>,
    after: Seq<u8>,
)
    requires
        head_fits(minor, code, reason, headers),
        never_has_a_body(method, code),
    ensures
        ({
            &&& http1::response_of(
                method,
                head_bytes(minor, code, reason, headers) + after,
            ) matches Ok(r)
            &&& r.status.code == code
            &&& r.reason == reason
            &&& r.headers == headers
            &&& r.body == Seq::<u8>::empty()
            &&& header::lookup(headers, "Connection"@) is None ==> r.keep_alive
        }),
{
    law_head_reads_back(minor, code, reason, headers, after);
    lemma_framing_names(headers);
}

/// A connection whose peer lists `close` in `Connection`, in whatever case and
/// among whatever else, is of no more use after the response; one whose peer
/// lists other things only is, if the body said where it ends.
pub proof fn law_close_is_heeded(
    method: Method,
    message: Seq<u8>,
    items: Seq<Seq<char>>,
    r: ResponseView,
)
    requires
        http1::response_of(method, message) == Ok::<ResponseView, ErrorView>(r),
        items.len() > 0,
        forall|i: int| 0 <= i < items.len() ==> text_laws::lacks(#[trigger] items[i], ','),
        header::lookup(r.headers, "Connection"@) == Some(text::joined(items, seq![','])),
    ensures
        (exists|i: int|
            0 <= i < items.len() && text::same_ignoring_case(
                text::trimmed(#[trigger] items[i]),
                "close"@,
            )) ==> !r.keep_alive,
        (forall|i: int|
            0 <= i < items.len() ==> !text::same_ignoring_case(
                text::trimmed(#[trigger] items[i]),
                "close"@,
            )) ==> (r.keep_alive <==> never_has_a_body(method, r.status.code) || header::lookup(
            r.headers,
            "Content-Length"@,
        ) is Some || http1::framing_of(r.headers, method, r.status) == Ok::<
            http1::Framing,
            ErrorView,
        >(http1::Framing::Chunked)),
{
    lemma_framing_names(r.headers);
    text_laws::law_splitting_undoes_joining(items, ',');
}

/// A response that is cut off before the end of its first line, or has no line
/// end among the first 8 MiB, is refused; so is one with no bytes at all.
pub proof fn law_broken_heads_are_refused(method: Method, t: Seq<u8>)
    requires
        forall|i: int| 0 <= i < t.len() && i < 8_388_608 ==> #[trigger] t[i] != 10u8,
    ensures
        http1::response_of(method, t) is Err,
{
    text::lemma_position(t, 10u8);
}

/// A response that is cut off between its headers is refused.
pub proof fn law_cut_heads_are_refused(
    method: Method,
    minor: Seq<char>,
    code: u16,
    reason: Seq<char>,
)
    requires
        head_fits(minor, code, reason, seq![]),
    ensures
        http1::response_of(method, wire::line_bytes(status_text(minor, code, reason))) is Err,
{
    let line = status_text(minor, code, reason);
    let none = Seq::<u8>::empty();
    let empty = Seq::<(Seq<char>, Seq<char>)>::empty();
    let head = head_bytes(minor, code, reason, empty);
    assert(head.len() >= wire::line_bytes(line).len() + 2);
    law_status_line_is_read(minor, code, reason);
    lemma_status_text_is_one_line(minor, code, reason);
    lemma_line_within(
        line,
        none,
        8_388_608,
        "response head exceeded the maximum allowed length"@,
    );
    assert(wire::line_bytes(line) + none =~= wire::line_bytes(line));
    assert(text::position(none, 10u8) == 0);
}

/// Whether a response is not chunked: it has no `Transfer-Encoding`, or one
/// whose last coding is another.
pub open spec fn not_chunked(
    headers: Seq<(Seq<char>, Seq<char>)>,
    codings: Seq<char>,
    last: Seq<char>,
) -> bool {
    let coding = header::lookup(headers, "Transfer-Encoding"@);
    &&& text_laws::lacks(last, ',')
    &&& !text::same_ignoring_case(text::trimmed(last), "chunked"@)
    &&& coding is None || coding == Some(last) || coding == Some(codings + seq![','] + last)
}

proof fn lemma_not_chunked(codings: Seq<char>, last: Seq<char>)
    requires
        text_laws::lacks(last, ','),
    ensures
        last.skip(text::last_position(last, ',') + 1) == last,
        ({
            let v = codings + seq![','] + last;
            v.skip(text::last_position(v, ',') + 1) == last
        }),
{
    text::lemma_last_position_unique(last, ',', -1);
    assert(last.skip(0) =~= last);
    let v = codings + seq![','] + last;
    assert forall|i: int| codings.len() < i < v.len() implies v[i] != ',' by {
        assert(v[i] == last[i - codings.len() - 1]);
    }
    text::lemma_last_position_unique(v, ',', codings.len() as int);
    assert(v.skip(codings.len() + 1int) =~= last);
}

/// A coding other than `chunked` changes nothing about where a body ends: with
/// `Content-Length: n` it is the `n` bytes after the head, and without it goes
/// up to the end of the connection.
pub proof fn law_other_codings_do_not_frame_a_body(
    method: Method,
    minor: Seq<char>,
    code: u16,
    reason: Seq<char>,
    headers: Seq<(Seq<char>, Seq<char>)>,
    codings: Seq<char>,
    last: Seq<char>,
    body: Seq<u8>,
    after: Seq<u8>,
)
    requires
        head_fits(minor, code, reason, headers),
        method != Method::Head,
        !(100 <= code <= 199),
        code != 204,
        code != 304,
        not_chunked(headers, codings, last),
        body.len() <= usize::MAX,
    ensures
        header::lookup(headers, "Content-Length"@) == Some(text::decimal(body.len())) ==> (
        http1::response_of(
            method,
            head_bytes(minor, code, reason, headers) + (body + after),
        ) matches Ok(r) && r.body == body && r.headers == headers && r.status.code == code),
        header::lookup(headers, "Content-Length"@) is None ==> (http1::response_of(
            method,
            head_bytes(minor, code, reason, headers) + body,
        ) matches Ok(r) && r.body == body && !r.keep_alive),
{
    law_head_reads_back(minor, code, reason, headers, body + after);
    law_head_reads_back(minor, code, reason, headers, body);
    lemma_framing_names(headers);
    lemma_not_chunked(codings, last);
    text_laws::law_decimal_reads_back(body.len(), usize::MAX as nat);
    assert((body + after).take(body.len() as int) =~= body);
}

/// A response whose `Content-Length` is no number is refused.
pub proof fn law_bad_lengths_are_refused(
    method: Method,
    minor: Seq<char>,
    code: u16,
    reason: Seq<char>,
    headers: Seq<(Seq<char>, Seq<char>)>,
    codings: Seq<char>,
    last: Seq<char>,
    value: Seq<char>,
    body: Seq<u8>,
)
    requires
        head_fits(minor, code, reason, headers),
        method != Method::Head,
        !(100 <= code <= 199),
        code != 204,
        code != 304,
        not_chunked(headers, codings, last),
        header::lookup(headers, "Content-Length"@) == Some(value),
        text::unsigned_value(text::trimmed(value), 10) is None,
    ensures
        http1::response_of(method, head_bytes(minor, code, reason, headers) + body) is Err,
{
    law_head_reads_back(minor, code, reason, headers, body);
    lemma_framing_names(headers);
    lemma_not_chunked(codings, last);
}

/// A status that is no number is refused.
pub proof fn law_bad_statuses_are_refused(minor: Seq<char>, status: Seq<char>, reason: Seq<char>)
    requires
        text_laws::lacks(minor, ' '),
        text_laws::lacks(status, ' '),
        text::unsigned_value(status, 10) is None,
    ensures
        http1::status_line("HTTP/1."@ + minor + seq![' '] + (status + seq![' '] + reason)) is Err,
        http1::status_line("HTTP/1."@ + minor + seq![' '] + status) is Err,
        http1::status_line("HTTP/1."@ + minor) is Err,
{
    reveal_strlit("HTTP/1.");
    let version = "HTTP/1."@ + minor;
    assert(text_laws::lacks(version, ' ')) by {
        assert forall|i: int| 0 <= i < version.len() implies #[trigger] version[i] != ' ' by {
            if i >= 7 {
                assert(version[i] == minor[i - 7]);
            }
        }
    }
    text_laws::law_separator_is_found(version, ' ', status + seq![' '] + reason);
    text_laws::law_separator_is_found(status, ' ', reason);
    text_laws::law_separator_is_found(version, ' ', status);
    text_laws::law_missing_separator_is_not_found(status, ' ');
    text_laws::law_missing_separator_is_not_found(version, ' ');
    assert(status.take(status.len() as int) =~= status);
}

/// The headers that come first are read, whatever follows them.
proof fn lemma_headers_first(
    status: StatusCode,
    reason: Seq<char>,
    done: Seq<(Seq<char>, Seq<char>)>,
    left: int,
    headers: Seq<(Seq<char>, Seq<char>)>,
    tail: Seq<u8>,
)
    requires
        header::valid_entries(headers),
        forall|i: int| 0 <= i < headers.len() ==> text_laws::is_trim((#[trigger] headers[i]).1),
        wire::all_line_bytes(field_lines(headers)).len() <= left <= 8_388_608,
    ensures
        http1::headers_rest(
            status,
            reason,
            done,
            left,
            wire::all_line_bytes(field_lines(headers)) + tail,
        ) == http1::headers_rest(
            status,
            reason,
            done + headers,
            left - wire::all_line_bytes(field_lines(headers)).len(),
            tail,
        ),
    decreases headers.len(),
{
    let lines = field_lines(headers);
    let t = wire::all_line_bytes(lines) + tail;
    let too_long = "response head exceeded the maximum allowed length"@;
    if headers.len() == 0 {
        assert(lines =~= Seq::<Seq<char>>::empty());
        assert(t =~= tail);
        assert(done + headers =~= done);
    } else {
        let (name, value) = headers[0];
        let line = name + seq![':', ' '] + value;
        let later = headers.skip(1);
        let rest = wire::all_line_bytes(field_lines(later)) + tail;
        assert(lines[0] == line);
        assert(lines.skip(1) =~= field_lines(later));
        assert(t =~= wire::line_bytes(line) + rest);
        assert(header::valid_name(headers[0].0) && header::valid_value(headers[0].1));
        assert(text_laws::is_trim(headers[0].1));
        lemma_field_line(name, value);
        lemma_line_within(line, rest, left, too_long);
        assert forall|i: int| 0 <= i < later.len() implies header::valid_name(
            (#[trigger] later[i]).0,
        ) && header::valid_value(later[i].1) && text_laws::is_trim(later[i].1) by {
            assert(later[i] == headers[i + 1]);
        }
        let used = t.len() - rest.len();
        assert(used == wire::line_bytes(line).len());
        lemma_headers_first(status, reason, done.push((name, value)), left - used, later, tail);
        assert(done.push((name, value)) + later =~= done + headers);
    }
}

/// A head with a line among its headers that has no colon, or whose name could
/// not go on the wire, is refused, however many good lines go before it.
pub proof fn law_bad_header_lines_are_refused(
    method: Method,
    minor: Seq<char>,
    code: u16,
    reason: Seq<char>,
    headers: Seq<(Seq<char>, Seq<char>)>,
    line: Seq<char>,
    name: Seq<char>,
    value: Seq<char>,
    after: Seq<u8>,
)
    requires
        head_fits(minor, code, reason, headers),
        head_bytes(minor, code, reason, headers).len() + wire::line_bytes(line).len() <= 8_388_608,
        line.len() > 0,
        text_laws::lacks(line, '\n'),
        text_laws::lacks(line, ':') || (line == name + seq![':'] + value && text_laws::lacks(
            name,
            ':',
        ) && text_laws::is_trim(name) && !header::valid_name(name)),
    ensures
        http1::response_of(
            method,
            wire::line_bytes(status_text(minor, code, reason)) + (wire::all_line_bytes(
                field_lines(headers),
            ) + (wire::line_bytes(line) + after)),
        ) is Err,
{
    let first = status_text(minor, code, reason);
    let fields = wire::all_line_bytes(field_lines(headers));
    let tail = wire::line_bytes(line) + after;
    let too_long = "response head exceeded the maximum allowed length"@;
    assert(head_bytes(minor, code, reason, headers).len() == wire::line_bytes(first).len()
        + fields.len() + wire::line_bytes(seq![]).len());
    lemma_status_text_is_one_line(minor, code, reason);
    lemma_line_within(first, fields + tail, 8_388_608, too_long);
    law_status_line_is_read(minor, code, reason);
    let left = 8_388_608 - wire::line_bytes(first).len();
    lemma_headers_first(StatusCode { code }, reason, seq![], left, headers, tail);
    lemma_line_within(line, after, left - fields.len(), too_long);
    if text_laws::lacks(line, ':') {
        text_laws::law_missing_separator_is_not_found(line, ':');
    } else {
        text_laws::law_separator_is_found(name, ':', value);
        let none = Seq::<char>::empty();
        text_laws::law_trimming_takes_what_is_around(none, name, none);
        assert(none + name + none =~= name);
    }
}

/// What is wrong with a chunked body is found: a size that is no hexadecimal
/// number, data that breaks off, and data that no line end follows.
pub proof fn law_broken_chunks_are_refused(
    line: Seq<char>,
    data: Seq<u8>,
    n: nat,
    junk: Seq<char>,
    after: Seq<u8>,
    in_one_go: bool,
)
    requires
        wire::fits_a_line(line),
        text::unsigned_value(text::trimmed(line), 16) is None,
        text_laws::lacks(line, ';'),
        data.len() < n <= usize::MAX,
        wire::size_line_fits(n, seq![]),
        data.len() > 0 ==> wire::size_line_fits(data.len(), seq![]),
        wire::fits_a_line(junk),
        junk.len() > 0,
    ensures
        http1::chunked_rest(
            http1::ChunkedState::Size,
            in_one_go,
            wire::line_bytes(line) + after,
        ).fault is Some,
        http1::chunked_rest(
            http1::ChunkedState::Size,
            in_one_go,
            wire::line_bytes(wire::hex(n)) + data,
        ).fault is Some,
        data.len() > 0 ==> http1::chunked_rest(
            http1::ChunkedState::Size,
            in_one_go,
            wire::line_bytes(wire::hex(data.len())) + (data + (wire::line_bytes(junk) + after)),
        ).fault is Some,
{
    wire::law_line_reads_back(line, after);
    text_laws::law_missing_separator_is_not_found(line, ';');
    assert(line.take(line.len() as int) =~= line);
    let none = Seq::<char>::empty();
    assert(wire::hex(n) + none =~= wire::hex(n));
    wire::law_line_reads_back(wire::hex(n), data);
    wire::lemma_extended_size_line(n, none);
    assert(http1::chunked_rest(
        http1::ChunkedState::Data(n as usize),
        in_one_go,
        data,
    ).fault is Some);
    if data.len() > 0 {
        let tail = wire::line_bytes(junk) + after;
        assert(wire::hex(data.len()) + none =~= wire::hex(data.len()));
        wire::law_line_reads_back(wire::hex(data.len()), data + tail);
        wire::lemma_extended_size_line(data.len(), none);
        assert((data + tail).skip(data.len() as int) =~= tail);
        wire::law_line_reads_back(junk, after);
        let from = http1::chunked_rest(
            http1::ChunkedState::Data(data.len() as usize),
            in_one_go,
            data + tail,
        );
        let end = http1::chunked_rest(http1::ChunkedState::DataTerminator, in_one_go, tail);
        assert(end.fault is Some);
        assert(from.fault == end.fault);
    }
}

/// A response whose first line is no text is refused.
pub proof fn law_undecodable_heads_are_refused(method: Method, line: Seq<u8>, rest: Seq<u8>)
    requires
        text_laws::lacks(line, 10u8),
        line.len() > 0 ==> line.last() != 13,
        !vstd::utf8::valid_utf8(line),
    ensures
        http1::response_of(method, line + seq![10u8] + rest) is Err,
        http1::response_of(method, line + seq![13u8, 10u8] + rest) is Err,
{
    let t = line + seq![10u8] + rest;
    text_laws::law_separator_is_found(line, 10u8, rest);
    assert(http1::chomped(line) == line);
    let u = line + seq![13u8, 10u8] + rest;
    let longer = line.push(13u8);
    assert(text_laws::lacks(longer, 10u8)) by {
        assert forall|i: int| 0 <= i < longer.len() implies #[trigger] longer[i] != 10u8 by {
            if i < line.len() {
                assert(longer[i] == line[i]);
            }
        }
    }
    assert(u =~= longer + seq![10u8] + rest);
    text_laws::law_separator_is_found(longer, 10u8, rest);
    assert(http1::chomped(longer) =~= line);
}

} // verus!

//! What goes out on the wire: request heads, and request bodies of unknown
//! length in chunks.

use crate::body;
use crate::body::Body;
use crate::header;
use crate::header::HeaderMap;
use crate::http1;
use crate::http1::BodyOutcome;
use crate::http1::ChunkedState;
use crate::http1::Line;
use crate::method::Method;
use crate::text;
use vstd::prelude::*;

verus! {

/// The header lines of a head.
pub open spec fn fields_text(headers: Seq<(Seq<char>, Seq<char>)>) -> Seq<char>
    decreases headers.len(),
{
    if headers.len() == 0 {
        seq![]
    } else {
        fields_text(headers.drop_last()) + headers.last().0 + ": "@ + headers.last().1 + "\r\n"@
    }
}

/// A request head: the request line, the `Host` line, the header lines, and
/// a blank line.
pub open spec fn head_text(
    method: Method,
    target: Seq<char>,
    host: Seq<char>,
    headers: Seq<(Seq<char>, Seq<char>)>,
) -> Seq<char> {
    method.token() + " "@ + target + " HTTP/1.1\r\n"@ + "Host: "@ + host + "\r\n"@ + fields_text(
        headers,
    ) + "\r\n"@
}

/// The request head followed by the body's bytes that are in memory.
pub fn write_request(
    method: Method,
    target: &str,
    host: &str,
    headers: &HeaderMap,
    body: &Body,
) -> (bytes: Vec<u8>)
    ensures
        bytes@ == vstd::utf8::encode_utf8(head_text(method, target@, host@, headers@))
            + body::in_memory(body@),
        header::valid_entries(headers@),
{
    let mut head = text::owned(method.as_str());
    head.push_str(" ");
    head.push_str(target);
    head.push_str(" HTTP/1.1\r\n");
    head.push_str("Host: ");
    head.push_str(host);
    head.push_str("\r\n");
    let ghost begun = head@;
    let entries = headers.iter();
    let ghost views = entries@.map_values(|e: (&str, &str)| (e.0@, e.1@));
    for i in 0..entries.len()
        invariant
            views == entries@.map_values(|e: (&str, &str)| (e.0@, e.1@)),
            head@ == begun + fields_text(views.take(i as int)),
    {
        proof {
            assert(views.take(i + 1).drop_last() == views.take(i as int));
            assert(views.take(i + 1).last() == views[i as int]);
        }
        head.push_str(entries[i].0);
        head.push_str(": ");
        head.push_str(entries[i].1);
        head.push_str("\r\n");
        assert(head@ =~= begun + fields_text(views.take(i + 1)));
    }
    assert(views.take(views.len() as int) == views);
    head.push_str("\r\n");
    let mut bytes = text::utf8_bytes(head.as_str());
    text::append_bytes(&mut bytes, body.as_bytes());
    bytes
}

/// A number in lower case hexadecimal, without leading zeros.
pub open spec fn hex(n: nat) -> Seq<char>
    decreases n,
{
    if n < 16 {
        seq![crate::json::hex_digit(n)]
    } else {
        hex(n / 16).push(crate::json::hex_digit(n % 16))
    }
}

fn hex_chars(n: usize) -> (out: Vec<char>)
    ensures
        out@ == hex(n as nat),
    decreases n,
{
    let c = crate::json::hex_digit_char((n % 16) as u32);
    if n < 16 {
        let mut out: Vec<char> = Vec::new();
        out.push(c);
        assert(out@ =~= seq![crate::json::hex_digit(n as nat)]);
        out
    } else {
        let mut out = hex_chars(n / 16);
        out.push(c);
        out
    }
}

/// One chunk of a chunked body: its size, its data, and the line ends.
pub open spec fn chunk_frame(data: Seq<u8>) -> Seq<u8> {
    vstd::utf8::encode_utf8(hex(data.len())) + seq![13u8, 10u8] + data + seq![13u8, 10u8]
}

/// The end of a chunked body.
pub open spec fn last_chunk() -> Seq<u8> {
    seq![48u8, 13u8, 10u8, 13u8, 10u8]
}

/// What goes out for a piece of a body that is read from a source: the piece
/// itself if the body's length was announced, otherwise a chunk.
pub open spec fn piece_bytes(known_length: bool, piece: Seq<u8>) -> Seq<u8> {
    if known_length {
        piece
    } else {
        chunk_frame(piece)
    }
}

/// What goes out after the last piece.
pub open spec fn ending_bytes(known_length: bool) -> Seq<u8> {
    if known_length {
        seq![]
    } else {
        last_chunk()
    }
}

/// What goes out for a whole body that is read from a source in pieces.
pub open spec fn stream_bytes(known_length: bool, pieces: Seq<Seq<u8>>) -> Seq<u8>
    decreases pieces.len(),
{
    if pieces.len() == 0 {
        ending_bytes(known_length)
    } else {
        piece_bytes(known_length, pieces[0]) + stream_bytes(known_length, pieces.skip(1))
    }
}

/// The bytes to send for a piece of a body that is read from a source.
pub fn write_piece(known_length: bool, piece: &[u8]) -> (bytes: Vec<u8>)
    requires
        piece@.len() > 0,
    ensures
        bytes@ == piece_bytes(known_length, piece@),
{
    if known_length {
        return vstd::slice::slice_to_vec(piece);
    }
    let size = text::text_of(hex_chars(piece.len()).as_slice());
    let mut bytes = text::utf8_bytes(size.as_str());
    let line_end: [u8; 2] = [13, 10];
    text::append_bytes(&mut bytes, &line_end);
    text::append_bytes(&mut bytes, piece);
    text::append_bytes(&mut bytes, &line_end);
    assert(line_end@ =~= seq![13u8, 10u8]);
    bytes
}

/// The bytes to send after the last piece.
pub fn write_ending(known_length: bool) -> (bytes: Vec<u8>)
    ensures
        bytes@ == ending_bytes(known_length),
{
    let mut bytes: Vec<u8> = Vec::new();
    if !known_length {
        bytes.push(48);
        bytes.push(13);
        bytes.push(10);
        bytes.push(13);
        bytes.push(10);
    }
    assert(bytes@ =~= ending_bytes(known_length));
    bytes
}

/// The pieces one after the other.
pub open spec fn concatenated(pieces: Seq<Seq<u8>>) -> Seq<u8>
    decreases pieces.len(),
{
    if pieces.len() == 0 {
        seq![]
    } else {
        pieces[0] + concatenated(pieces.skip(1))
    }
}

proof fn lemma_hex_digits(n: nat)
    ensures
        hex(n).len() > 0,
        text::digits_value(hex(n), 16) == Some(n),
        forall|i: int|
            0 <= i < hex(n).len() ==> '0' <= #[trigger] hex(n)[i] <= 'f' && hex(n)[i] != ';',
    decreases n,
{
    assert(hex(n).last() == crate::json::hex_digit(n % 16));
    if n >= 16 {
        lemma_hex_digits(n / 16);
        assert(hex(n).drop_last() =~= hex(n / 16));
        assert forall|i: int| 0 <= i < hex(n).len() implies '0' <= #[trigger] hex(n)[i] <= 'f'
            && hex(n)[i] != ';' by {
            if i < hex(n / 16).len() {
                assert(hex(n)[i] == hex(n / 16)[i]);
            }
        }
    } else {
        assert(hex(n).drop_last() =~= Seq::<char>::empty());
        assert(text::digits_value(hex(n).drop_last(), 16) == Some(0nat));
    }
}

proof fn lemma_hex_length(n: nat, digits: nat)
    requires
        n < vstd::arithmetic::power::pow(16, digits),
        digits > 0,
    ensures
        hex(n).len() <= digits,
    decreases digits,
{
    if n >= 16 {
        reveal(vstd::arithmetic::power::pow);
        if digits == 1 {
            assert(vstd::arithmetic::power::pow(16, 1) == 16 * vstd::arithmetic::power::pow(16, 0));
            assert(false);
        }
        let fewer = (digits - 1) as nat;
        assert(vstd::arithmetic::power::pow(16, digits) == 16 * vstd::arithmetic::power::pow(
            16,
            fewer,
        ));
        assert(n / 16 < vstd::arithmetic::power::pow(16, fewer));
        lemma_hex_length(n / 16, fewer);
    }
}

proof fn lemma_untrimmed(s: Seq<char>)
    requires
        s.len() > 0,
        !text::is_space(s[0]),
        !text::is_space(s.last()),
    ensures
        text::trimmed(s) == s,
{
}

/// Text without line feeds is encoded without line feeds.
pub proof fn lemma_no_line_feeds(s: Seq<char>)
    requires
        forall|i: int| 0 <= i < s.len() ==> #[trigger] s[i] != '\n',
    ensures
        forall|i: int|
            0 <= i < vstd::utf8::encode_utf8(s).len() ==> #[trigger] vstd::utf8::encode_utf8(s)[i]
                != 10u8,
    decreases s.len(),
{
    if s.len() > 0 {
        let bytes = vstd::utf8::encode_utf8(s);
        let first = vstd::utf8::encode_scalar(s[0] as u32);
        let rest = vstd::utf8::encode_utf8(s.drop_first());
        assert forall|i: int| 0 <= i < s.drop_first().len() implies #[trigger] s.drop_first()[i]
            != '\n' by {
            assert(s.drop_first()[i] == s[i + 1]);
        }
        lemma_no_line_feeds(s.drop_first());
        vstd::utf8::encode_utf8_first_scalar(s);
        assert(bytes =~= first + rest);
        assert(10u8 & 0x7f == 10u8) by (bit_vector);
        assert forall|i: int| 0 <= i < bytes.len() implies #[trigger] bytes[i] != 10u8 by {
            if i >= first.len() {
                assert(bytes[i] == rest[i - first.len()]);
            } else if i == 0 && bytes[0] == 10u8 {
                assert(vstd::utf8::decode_first_scalar(bytes) == 10u32);
                vstd::utf8::char_u32_cast(s[0], 10u32);
                vstd::utf8::char_u32_cast('\n', 10u32);
            } else if i > 0 {
                assert(i == 1 || i == 2 || i == 3);
                assert(vstd::utf8::is_continuation_byte(bytes[i]));
            }
        }
    }
}

/// Whether a text is one line that is not too long to be read.
pub open spec fn fits_a_line(line: Seq<char>) -> bool {
    &&& forall|i: int| 0 <= i < line.len() ==> #[trigger] line[i] != '\n'
    &&& vstd::utf8::encode_utf8(line).len() + 1 < http1::MAX_LINE_LEN
}

/// The bytes of a line with its end.
pub open spec fn line_bytes(line: Seq<char>) -> Seq<u8> {
    vstd::utf8::encode_utf8(line) + seq![13u8, 10u8]
}

/// A line is read as it was written.
pub proof fn law_line_reads_back(line: Seq<char>, rest: Seq<u8>)
    requires
        fits_a_line(line),
    ensures
        http1::first_line(line_bytes(line) + rest) == Line::Text(line, rest),
{
    let bytes = vstd::utf8::encode_utf8(line);
    let t = line_bytes(line) + rest;
    lemma_no_line_feeds(line);
    let p = bytes.len() + 1;
    assert forall|i: int| 0 <= i < p implies t[i] != 10u8 by {
        if i < bytes.len() {
            assert(t[i] == bytes[i]);
        } else {
            assert(t[i] == 13u8);
        }
    }
    assert(t[p as int] == 10u8);
    text::lemma_position_unique(t, 10u8, p as int);
    assert(t.take(p as int) =~= bytes.push(13u8));
    assert(http1::chomped(t.take(p as int)) =~= bytes);
    assert(t.skip(p + 1int) =~= rest);
    vstd::utf8::encode_utf8_valid_utf8(line);
    vstd::utf8::encode_utf8_decode_utf8(line);
}

/// A line of ASCII text is read as it was written.
proof fn lemma_ascii_line(line: Seq<char>, rest: Seq<u8>)
    requires
        forall|i: int| 0 <= i < line.len() ==> ' ' <= #[trigger] line[i] <= '~',
        line.len() < 1000,
    ensures
        http1::first_line(vstd::utf8::encode_utf8(line) + seq![13u8, 10u8] + rest) == Line::Text(
            line,
            rest,
        ),
{
    assert(vstd::utf8::is_ascii_chars(line));
    vstd::utf8::is_ascii_chars_encode_utf8(line);
    law_line_reads_back(line, rest);
}

proof fn lemma_size_line(n: nat, rest: Seq<u8>)
    requires
        n <= usize::MAX,
    ensures
        http1::first_line(vstd::utf8::encode_utf8(hex(n)) + seq![13u8, 10u8] + rest) == Line::Text(
            hex(n),
            rest,
        ),
        text::bounded_value(http1::size_text(hex(n)), 16, usize::MAX as nat) == Some(n),
{
    lemma_hex_digits(n);
    let h = hex(n);
    assert(vstd::arithmetic::power::pow(16, 16) == 0x1_0000_0000_0000_0000) by {
        reveal_with_fuel(vstd::arithmetic::power::pow, 17);
    }
    lemma_hex_length(n, 16);
    lemma_ascii_line(h, rest);
    text::lemma_position_unique(h, ';', h.len() as int);
    assert(h.take(h.len() as int) =~= h);
    lemma_untrimmed(h);
}

proof fn lemma_blank_line(rest: Seq<u8>)
    ensures
        http1::first_line(seq![13u8, 10u8] + rest) == Line::Text(seq![], rest),
{
    lemma_ascii_line(seq![], rest);
    assert(vstd::utf8::encode_utf8(Seq::<char>::empty()) =~= Seq::<u8>::empty());
    assert(Seq::<u8>::empty() + seq![13u8, 10u8] + rest =~= seq![13u8, 10u8] + rest);
}

/// Reading a chunked body gives back what was written, whatever pieces it
/// was written in and whatever follows it.
#[verifier::rlimit(60)]
#[verifier::spinoff_prover]
pub proof fn law_chunked_body_reads_back(pieces: Seq<Seq<u8>>, in_one_go: bool, after: Seq<u8>)
    requires
        forall|i: int| 0 <= i < pieces.len() ==> 0 < (#[trigger] pieces[i]).len() <= usize::MAX,
    ensures
        http1::chunked_rest(ChunkedState::Size, in_one_go, stream_bytes(false, pieces) + after)
            == (BodyOutcome { data: concatenated(pieces), fault: None }),
    decreases pieces.len(),
{
    let t = stream_bytes(false, pieces) + after;
    if pieces.len() == 0 {
        let rest = seq![13u8, 10u8] + after;
        assert(hex(0) =~= seq!['0']);
        assert(vstd::utf8::encode_utf8(hex(0)) =~= seq![48u8]) by {
            vstd::utf8::is_ascii_chars_encode_utf8(hex(0));
        }
        assert(t =~= vstd::utf8::encode_utf8(hex(0)) + seq![13u8, 10u8] + rest);
        lemma_size_line(0, rest);
        lemma_blank_line(after);
        assert(http1::chunked_rest(ChunkedState::Trailers, in_one_go, rest) == (BodyOutcome {
            data: seq![],
            fault: None,
        }));
    } else {
        let piece = pieces[0];
        let later = stream_bytes(false, pieces.skip(1)) + after;
        let from_data = piece + (seq![13u8, 10u8] + later);
        assert(t =~= vstd::utf8::encode_utf8(hex(piece.len())) + seq![13u8, 10u8] + from_data);
        lemma_size_line(piece.len(), from_data);
        assert(from_data.take(piece.len() as int) =~= piece);
        assert(from_data.skip(piece.len() as int) =~= seq![13u8, 10u8] + later);
        lemma_blank_line(later);
        assert forall|i: int| 0 <= i < pieces.skip(1).len() implies 0 < (#[trigger] pieces.skip(
            1,
        )[i]).len() <= usize::MAX by {
            assert(pieces.skip(1)[i] == pieces[i + 1]);
        }
        law_chunked_body_reads_back(pieces.skip(1), in_one_go, after);
        assert(http1::chunked_rest(
            ChunkedState::DataTerminator,
            in_one_go,
            seq![13u8, 10u8] + later,
        ) == http1::chunked_rest(ChunkedState::Size, in_one_go, later));
        assert(http1::chunked_rest(ChunkedState::Data(piece.len() as usize), in_one_go, from_data)
            == (BodyOutcome { data: concatenated(pieces), fault: None }));
    }
}

/// A chunk as a server may send it.
pub struct SentChunk {
    pub data: Seq<u8>,
    /// What follows the size on its line: nothing, or a semicolon and more.
    pub extension: Seq<char>,
}

/// Whether the line with this size and extension can be sent and read.
pub open spec fn size_line_fits(size: nat, extension: Seq<char>) -> bool {
    &&& extension.len() > 0 ==> extension[0] == ';'
    &&& fits_a_line(hex(size) + extension)
}

/// Whether a chunk can be sent and read.
pub open spec fn chunk_fits(chunk: SentChunk) -> bool {
    &&& 0 < chunk.data.len() <= usize::MAX
    &&& size_line_fits(chunk.data.len(), chunk.extension)
}

/// The bytes of lines, each with its end.
pub open spec fn all_line_bytes(lines: Seq<Seq<char>>) -> Seq<u8>
    decreases lines.len(),
{
    if lines.len() == 0 {
        seq![]
    } else {
        line_bytes(lines[0]) + all_line_bytes(lines.skip(1))
    }
}

/// A chunked body with extensions and trailers: the chunks, the last chunk
/// with its own extension, the trailers, and a blank line.
pub open spec fn chunked_message(
    chunks: Seq<SentChunk>,
    last_extension: Seq<char>,
    trailers: Seq<Seq<char>>,
) -> Seq<u8>
    decreases chunks.len(),
{
    if chunks.len() == 0 {
        line_bytes(hex(0) + last_extension) + (all_line_bytes(trailers) + line_bytes(seq![]))
    } else {
        line_bytes(hex(chunks[0].data.len()) + chunks[0].extension) + (chunks[0].data + (line_bytes(
            seq![],
        ) + chunked_message(chunks.skip(1), last_extension, trailers)))
    }
}

/// The data of chunks, one after the other.
pub open spec fn data_of(chunks: Seq<SentChunk>) -> Seq<u8> {
    concatenated(chunks.map_values(|c: SentChunk| c.data))
}

pub proof fn lemma_extended_size_line(n: nat, extension: Seq<char>)
    requires
        n <= usize::MAX,
        extension.len() > 0 ==> extension[0] == ';',
    ensures
        text::bounded_value(http1::size_text(hex(n) + extension), 16, usize::MAX as nat) == Some(n),
{
    let h = hex(n);
    let line = h + extension;
    lemma_hex_digits(n);
    assert forall|i: int| 0 <= i < h.len() implies line[i] != ';' by {
        assert(line[i] == h[i]);
    }
    text::lemma_position_unique(line, ';', h.len() as int);
    assert(line.take(h.len() as int) =~= h);
    lemma_untrimmed(h);
}

proof fn lemma_trailers_are_skipped(
    trailers: Seq<Seq<char>>,
    in_one_go: bool,
    after: Seq<u8>,
)
    requires
        forall|i: int|
            0 <= i < trailers.len() ==> (#[trigger] trailers[i]).len() > 0 && fits_a_line(
                trailers[i],
            ),
    ensures
        http1::chunked_rest(
            ChunkedState::Trailers,
            in_one_go,
            all_line_bytes(trailers) + line_bytes(seq![]) + after,
        ) == (BodyOutcome { data: seq![], fault: None }),
    decreases trailers.len(),
{
    let t = all_line_bytes(trailers) + line_bytes(seq![]) + after;
    if trailers.len() == 0 {
        assert(t =~= line_bytes(seq![]) + after);
        assert(vstd::utf8::encode_utf8(Seq::<char>::empty()) =~= Seq::<u8>::empty());
        law_line_reads_back(seq![], after);
    } else {
        let later = trailers.skip(1);
        let rest = all_line_bytes(later) + line_bytes(seq![]) + after;
        assert(t =~= line_bytes(trailers[0]) + rest);
        law_line_reads_back(trailers[0], rest);
        assert forall|i: int| 0 <= i < later.len() implies (#[trigger] later[i]).len() > 0
            && fits_a_line(later[i]) by {
            assert(later[i] == trailers[i + 1]);
        }
        lemma_trailers_are_skipped(later, in_one_go, after);
    }
}

/// Reading a chunked body gives back the data of its chunks and nothing of
/// their sizes, of the extensions or of the trailers, whatever follows it.
pub proof fn law_extended_chunks_read_back(
    chunks: Seq<SentChunk>,
    last_extension: Seq<char>,
    trailers: Seq<Seq<char>>,
    in_one_go: bool,
    after: Seq<u8>,
)
    requires
        forall|i: int| 0 <= i < chunks.len() ==> chunk_fits(#[trigger] chunks[i]),
        size_line_fits(0, last_extension),
        forall|i: int|
            0 <= i < trailers.len() ==> (#[trigger] trailers[i]).len() > 0 && fits_a_line(
                trailers[i],
            ),
    ensures
        http1::chunked_rest(
            ChunkedState::Size,
            in_one_go,
            chunked_message(chunks, last_extension, trailers) + after,
        ) == (BodyOutcome { data: data_of(chunks), fault: None }),
    decreases chunks.len(),
{
    let t = chunked_message(chunks, last_extension, trailers) + after;
    let datas = chunks.map_values(|c: SentChunk| c.data);
    if chunks.len() == 0 {
        let line = hex(0) + last_extension;
        let rest = all_line_bytes(trailers) + line_bytes(seq![]) + after;
        assert(t =~= line_bytes(line) + rest);
        law_line_reads_back(line, rest);
        lemma_extended_size_line(0, last_extension);
        lemma_trailers_are_skipped(trailers, in_one_go, after);
        assert(datas =~= Seq::<Seq<u8>>::empty());
    } else {
        let piece = chunks[0].data;
        let line = hex(piece.len()) + chunks[0].extension;
        let more = chunks.skip(1);
        let later = chunked_message(more, last_extension, trailers) + after;
        let from_data = piece + (line_bytes(seq![]) + later);
        assert(chunk_fits(chunks[0]));
        assert(t =~= line_bytes(line) + from_data);
        law_line_reads_back(line, from_data);
        lemma_extended_size_line(piece.len(), chunks[0].extension);
        assert(from_data.take(piece.len() as int) =~= piece);
        assert(from_data.skip(piece.len() as int) =~= line_bytes(seq![]) + later);
        assert(vstd::utf8::encode_utf8(Seq::<char>::empty()) =~= Seq::<u8>::empty());
        law_line_reads_back(seq![], later);
        assert forall|i: int| 0 <= i < more.len() implies chunk_fits(#[trigger] more[i]) by {
            assert(more[i] == chunks[i + 1]);
        }
        law_extended_chunks_read_back(more, last_extension, trailers, in_one_go, after);
        assert(datas[0] == piece);
        assert(datas.skip(1) =~= more.map_values(|c: SentChunk| c.data));
        assert(http1::chunked_rest(
            ChunkedState::DataTerminator,
            in_one_go,
            line_bytes(seq![]) + later,
        ) == http1::chunked_rest(ChunkedState::Size, in_one_go, later));
        assert(http1::chunked_rest(ChunkedState::Data(piece.len() as usize), in_one_go, from_data)
            == (BodyOutcome { data: data_of(chunks), fault: None }));
    }
}

/// The pieces in which a chunked body is handed out, if each is what the rest
/// of the body before it starts with and nothing is left after the last one,
/// come to the data of its chunks, and no fault ends them.
pub proof fn law_pieces_of_chunks_come_to_their_data(
    chunks: Seq<SentChunk>,
    last_extension: Seq<char>,
    trailers: Seq<Seq<char>>,
    after: Seq<u8>,
    rests: Seq<BodyOutcome>,
    pieces: Seq<Seq<u8>>,
)
    requires
        forall|i: int| 0 <= i < chunks.len() ==> chunk_fits(#[trigger] chunks[i]),
        size_line_fits(0, last_extension),
        forall|i: int|
            0 <= i < trailers.len() ==> (#[trigger] trailers[i]).len() > 0 && fits_a_line(
                trailers[i],
            ),
        rests.len() == pieces.len() + 1,
        rests[0] == http1::chunked_rest(
            ChunkedState::Size,
            false,
            chunked_message(chunks, last_extension, trailers) + after,
        ),
        forall|i: int|
            0 <= i < pieces.len() ==> #[trigger] rests[i] == (BodyOutcome {
                data: pieces[i] + rests[i + 1].data,
                fault: rests[i + 1].fault,
            }),
        rests.last().data.len() == 0,
    ensures
        concatenated(pieces) == data_of(chunks),
        rests.last().fault is None,
{
    law_extended_chunks_read_back(chunks, last_extension, trailers, false, after);
    http1::law_pieces_come_to_the_body(rests, pieces);
}

/// A body of announced length is read back from what was written, whatever
/// pieces it was written in and whatever follows it.
pub proof fn law_counted_body_reads_back(pieces: Seq<Seq<u8>>, in_one_go: bool, after: Seq<u8>)
    requires
        concatenated(pieces).len() <= usize::MAX,
    ensures
        http1::body_rest(
            http1::Framing::ContentLength(concatenated(pieces).len() as usize),
            ChunkedState::Size,
            in_one_go,
            stream_bytes(true, pieces) + after,
        ) == (BodyOutcome { data: concatenated(pieces), fault: None }),
{
    lemma_plain_stream(pieces);
    let all = concatenated(pieces);
    assert((all + after).take(all.len() as int) =~= all);
}

proof fn lemma_plain_stream(pieces: Seq<Seq<u8>>)
    ensures
        stream_bytes(true, pieces) == concatenated(pieces),
    decreases pieces.len(),
{
    if pieces.len() > 0 {
        lemma_plain_stream(pieces.skip(1));
    }
}

/// The lines of a request head, without their line ends.
pub open spec fn head_lines(
    method: Method,
    target: Seq<char>,
    host: Seq<char>,
    headers: Seq<(Seq<char>, Seq<char>)>,
) -> Seq<Seq<char>> {
    seq![method.token() + " "@ + target + " HTTP/1.1"@, "Host: "@ + host] + headers.map_values(
        |e: (Seq<char>, Seq<char>)| e.0 + ": "@ + e.1,
    )
}

/// Lines, each with its line end.
pub open spec fn lines_text(lines: Seq<Seq<char>>) -> Seq<char>
    decreases lines.len(),
{
    if lines.len() == 0 {
        seq![]
    } else {
        lines_text(lines.drop_last()) + lines.last() + "\r\n"@
    }
}

proof fn lemma_lines_text_concat(a: Seq<Seq<char>>, b: Seq<Seq<char>>)
    ensures
        lines_text(a + b) == lines_text(a) + lines_text(b),
    decreases b.len(),
{
    if b.len() == 0 {
        assert(a + b =~= a);
    } else {
        assert((a + b).drop_last() =~= a + b.drop_last());
        lemma_lines_text_concat(a, b.drop_last());
        assert(lines_text(a + b) =~= lines_text(a) + lines_text(b));
    }
}

proof fn lemma_fields_are_lines(headers: Seq<(Seq<char>, Seq<char>)>)
    ensures
        fields_text(headers) == lines_text(
            headers.map_values(|e: (Seq<char>, Seq<char>)| e.0 + ": "@ + e.1),
        ),
    decreases headers.len(),
{
    let f = |e: (Seq<char>, Seq<char>)| e.0 + ": "@ + e.1;
    let lines = headers.map_values(f);
    if headers.len() > 0 {
        lemma_fields_are_lines(headers.drop_last());
        assert(lines.drop_last() =~= headers.drop_last().map_values(f));
        assert(fields_text(headers) =~= lines_text(lines));
    }
}

/// A request head is its lines, each with its line end, and a blank line.
proof fn lemma_head_is_lines(
    method: Method,
    target: Seq<char>,
    host: Seq<char>,
    headers: Seq<(Seq<char>, Seq<char>)>,
)
    ensures
        head_text(method, target, host, headers) == lines_text(
            head_lines(method, target, host, headers),
        ) + "\r\n"@,
{
    let first = method.token() + " "@ + target + " HTTP/1.1"@;
    let second = "Host: "@ + host;
    let front = seq![first, second];
    let fields = headers.map_values(|e: (Seq<char>, Seq<char>)| e.0 + ": "@ + e.1);
    lemma_lines_text_concat(front, fields);
    lemma_fields_are_lines(headers);
    assert(front.drop_last() =~= seq![first]);
    assert(seq![first].drop_last() =~= Seq::<Seq<char>>::empty());
    assert(lines_text(Seq::<Seq<char>>::empty()) =~= Seq::<char>::empty());
    assert(lines_text(seq![first]) =~= first + "\r\n"@);
    assert(lines_text(front) =~= first + "\r\n"@ + second + "\r\n"@);
    reveal_strlit(" HTTP/1.1\r\n");
    reveal_strlit(" HTTP/1.1");
    reveal_strlit("\r\n");
    assert(" HTTP/1.1\r\n"@ =~= " HTTP/1.1"@ + "\r\n"@);
    assert(head_text(method, target, host, headers) =~= lines_text(front) + lines_text(fields)
        + "\r\n"@);
}

proof fn lemma_split_first(a: Seq<char>, b: Seq<char>, sep: char)
    requires
        forall|i: int| 0 <= i < a.len() ==> a[i] != sep,
    ensures
        text::split(a + seq![sep] + b, sep) == seq![a] + text::split(b, sep),
{
    let s = a + seq![sep] + b;
    assert forall|i: int| 0 <= i < a.len() implies s[i] != sep by {
        assert(s[i] == a[i]);
    }
    assert(s[a.len() as int] == sep);
    text::lemma_position_unique(s, sep, a.len() as int);
    assert(s.take(a.len() as int) =~= a);
    assert(s.skip(a.len() + 1int) =~= b);
}

proof fn lemma_split_lines(lines: Seq<Seq<char>>, tail: Seq<char>)
    requires
        forall|i: int| 0 <= i < lines.len() ==> header::valid_value(#[trigger] lines[i]),
    ensures
        text::split(lines_text(lines) + tail, '\n') == lines.map_values(
            |line: Seq<char>| line.push('\r'),
        ) + text::split(tail, '\n'),
    decreases lines.len(),
{
    let f = |line: Seq<char>| line.push('\r');
    if lines.len() == 0 {
        assert(lines_text(lines) + tail =~= tail);
        assert(lines.map_values(f) + text::split(tail, '\n') =~= text::split(tail, '\n'));
    } else {
        reveal_strlit("\r\n");
        let front = lines.drop_last();
        let last = lines.last();
        assert(header::valid_value(lines[lines.len() - 1]));
        assert forall|i: int| 0 <= i < front.len() implies header::valid_value(
            #[trigger] front[i],
        ) by {
            assert(front[i] == lines[i]);
        }
        let later = last.push('\r') + seq!['\n'] + tail;
        assert(lines_text(lines) + tail =~= lines_text(front) + later);
        lemma_split_lines(front, later);
        lemma_split_first(last.push('\r'), tail, '\n');
        assert(lines.map_values(f) =~= front.map_values(f).push(last.push('\r')));
        assert(lines.map_values(f) + text::split(tail, '\n') =~= front.map_values(f) + (seq![
            last.push('\r'),
        ] + text::split(tail, '\n')));
    }
}

/// A request head has exactly the lines that it should have: no header name
/// or value can add one, nor can a target or a host without CR and LF.
pub proof fn law_head_has_its_lines_and_no_others(
    method: Method,
    target: Seq<char>,
    host: Seq<char>,
    headers: Seq<(Seq<char>, Seq<char>)>,
)
    requires
        header::valid_entries(headers),
        header::valid_value(target),
        header::valid_value(host),
    ensures
        text::split(head_text(method, target, host, headers), '\n') == head_lines(
            method,
            target,
            host,
            headers,
        ).map_values(|line: Seq<char>| line.push('\r')).push("\r"@).push(""@),
{
    let lines = head_lines(method, target, host, headers);
    lemma_head_is_lines(method, target, host, headers);
    reveal_strlit("GET");
    reveal_strlit("POST");
    reveal_strlit("PUT");
    reveal_strlit("PATCH");
    reveal_strlit("DELETE");
    reveal_strlit("HEAD");
    reveal_strlit("OPTIONS");
    reveal_strlit("CONNECT");
    reveal_strlit(" ");
    reveal_strlit(" HTTP/1.1");
    reveal_strlit("Host: ");
    reveal_strlit(": ");
    reveal_strlit("\r\n");
    reveal_strlit("\r");
    reveal_strlit("");
    header::lemma_valid_concat(method.token(), " "@);
    header::lemma_valid_concat(method.token() + " "@, target);
    header::lemma_valid_concat(method.token() + " "@ + target, " HTTP/1.1"@);
    header::lemma_valid_concat("Host: "@, host);
    assert forall|i: int| 0 <= i < lines.len() implies header::valid_value(#[trigger] lines[i]) by {
        if i >= 2 {
            let (name, value) = headers[i - 2];
            assert(lines[i] == name + ": "@ + value);
            lemma_name_is_value(name);
            header::lemma_valid_concat(name, ": "@);
            header::lemma_valid_concat(name + ": "@, value);
        }
    }
    lemma_split_lines(lines, "\r\n"@);
    let f = |line: Seq<char>| line.push('\r');
    assert(seq!['\r'] + seq!['\n'] + Seq::<char>::empty() =~= "\r\n"@);
    lemma_split_first(seq!['\r'], seq![], '\n');
    assert(text::split(Seq::<char>::empty(), '\n') =~= seq![Seq::<char>::empty()]);
    assert(""@ =~= Seq::<char>::empty());
    assert("\r"@ =~= seq!['\r']);
    assert(lines.map_values(f) + text::split("\r\n"@, '\n') =~= lines.map_values(f).push(
        "\r"@,
    ).push(""@));
}

proof fn lemma_name_is_value(name: Seq<char>)
    requires
        header::valid_name(name),
    ensures
        header::valid_value(name),
{
    assert forall|i: int| 0 <= i < name.len() implies #[trigger] name[i] != '\r' && name[i]
        != '\n' by {
        assert('!' <= name[i]);
    }
}

/// The hexadecimal digits of a number are those of its sixteenth, and then its
/// last.
pub proof fn law_hexadecimal_digits_of_a_number(n: nat, d: nat)
    requires
        d < 16,
    ensures
        n == 0 ==> hex(d) == seq!["0123456789abcdef"@[d as int]],
        n > 0 ==> hex(n * 16 + d) == hex(n).push("0123456789abcdef"@[d as int]),
{
    reveal_strlit("0123456789abcdef");
    assert(crate::json::hex_digit(d) == "0123456789abcdef"@[d as int]);
    assert((n * 16 + d) / 16 == n);
    assert((n * 16 + d) % 16 == d);
}

/// What goes out for a piece of a body of unknown length is a line with the
/// piece's length in hexadecimal, the piece, and a line end; after the last one
/// come a line with a zero and a blank line. Of a body whose length was
/// announced, the pieces go out as they are, with nothing after them.
pub proof fn law_pieces_on_the_wire(piece: Seq<u8>)
    ensures
        piece_bytes(false, piece) == line_bytes(hex(piece.len())) + piece + line_bytes(seq![]),
        ending_bytes(false) == line_bytes(seq!['0']) + line_bytes(seq![]),
        piece_bytes(true, piece) == piece,
        ending_bytes(true) == Seq::<u8>::empty(),
{
    assert(vstd::utf8::encode_utf8(Seq::<char>::empty()) =~= Seq::<u8>::empty());
    assert(line_bytes(seq![]) =~= seq![13u8, 10u8]);
    vstd::utf8::is_ascii_chars_encode_utf8(seq!['0']);
    assert(vstd::utf8::encode_utf8(seq!['0']) =~= seq![48u8]);
    assert(ending_bytes(false) =~= line_bytes(seq!['0']) + line_bytes(seq![]));
    assert(piece_bytes(false, piece) =~= line_bytes(hex(piece.len())) + piece + line_bytes(
        seq![],
    ));
}

/// A line feed alone ends a line as well, and the last byte of a line may be
/// anything but a carriage return then.
pub proof fn law_bare_line_feed_ends_a_line(line: Seq<char>, rest: Seq<u8>)
    requires
        fits_a_line(line),
        vstd::utf8::encode_utf8(line).len() > 0 ==> vstd::utf8::encode_utf8(line).last() != 13,
    ensures
        http1::first_line(vstd::utf8::encode_utf8(line) + seq![10u8] + rest) == Line::Text(
            line,
            rest,
        ),
{
    let bytes = vstd::utf8::encode_utf8(line);
    let t = bytes + seq![10u8] + rest;
    lemma_no_line_feeds(line);
    let p = bytes.len() as int;
    assert forall|i: int| 0 <= i < p implies t[i] != 10u8 by {
        assert(t[i] == bytes[i]);
    }
    assert(t[p] == 10u8);
    text::lemma_position_unique(t, 10u8, p);
    assert(t.take(p) =~= bytes);
    assert(t.skip(p + 1) =~= rest);
    vstd::utf8::encode_utf8_valid_utf8(line);
    vstd::utf8::encode_utf8_decode_utf8(line);
}

} // verus!

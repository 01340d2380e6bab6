//! Messages on the wire of the language server protocol: a `Content-Length`
//! header, an empty line, and as many bytes of body as the header says.

use vstd::prelude::*;
use vstd::string::*;
use vstd::utf8::*;

use crate::text::{self, copy_of, parse_usize, print_usize, strip_prefix, text_from, trim};

verus! {

/// Why no message can be read.
#[derive(Debug, Clone, Copy, PartialEq, Eq, Structural)]
pub enum FrameError {
    /// The stream ended before the empty line that ends the headers.
    EndInHeaders,
    /// A header line is not UTF-8.
    HeaderNotText,
    /// A `Content-Length` is no number.
    InvalidLength,
    /// No header gave a `Content-Length`.
    MissingLength,
    /// The stream ended inside the body.
    EndInBody,
    /// The body is not UTF-8.
    BodyNotText,
}

impl FrameError {
    /// The error in words.
    pub fn message(&self) -> (text: &'static str)
        ensures
            text@ == match *self {
                FrameError::EndInHeaders => "EOF while reading LSP headers"@,
                FrameError::HeaderNotText => "stream did not contain valid UTF-8"@,
                FrameError::InvalidLength => "invalid Content-Length"@,
                FrameError::MissingLength => "missing Content-Length header"@,
                FrameError::EndInBody => "failed to fill whole buffer"@,
                FrameError::BodyNotText => "invalid UTF-8 in LSP message body"@,
            },
    {
        match self {
            FrameError::EndInHeaders => "EOF while reading LSP headers",
            FrameError::HeaderNotText => "stream did not contain valid UTF-8",
            FrameError::InvalidLength => "invalid Content-Length",
            FrameError::MissingLength => "missing Content-Length header",
            FrameError::EndInBody => "failed to fill whole buffer",
            FrameError::BodyNotText => "invalid UTF-8 in LSP message body",
        }
    }
}

/// What the bytes received so far amount to.
#[derive(Debug)]
pub enum Reading {
    /// The message is not complete yet.
    More,
    /// A message, and how many bytes it took.
    Message { body: String, taken: usize },
    /// The bytes are no message.
    Failed(FrameError),
}

/// The same, over mathematical values.
pub ghost enum Frame {
    More,
    Message(Seq<char>, nat),
    Failed(FrameError),
}

impl View for Reading {
    type V = Frame;

    open spec fn view(&self) -> Frame {
        match self {
            Reading::More => Frame::More,
            Reading::Message { body, taken } => Frame::Message(body@, *taken as nat),
            Reading::Failed(error) => Frame::Failed(*error),
        }
    }
}

/// How long the first line is, with its newline.
pub open spec fn line_len(b: Seq<u8>) -> nat
    decreases b.len(),
{
    if b.len() == 0 {
        0
    } else if b[0] == 10 {
        1
    } else {
        1 + line_len(b.skip(1))
    }
}

pub proof fn line_len_bound(b: Seq<u8>)
    ensures
        line_len(b) <= b.len(),
        b.len() > 0 ==> line_len(b) > 0,
        forall|i: int| 0 <= i < line_len(b) - 1 ==> b[i] != 10,
        line_len(b) < b.len() ==> b[line_len(b) - 1] == 10,
    decreases b.len(),
{
    if b.len() > 0 && b[0] != 10 {
        line_len_bound(b.skip(1));
        assert forall|i: int| 0 <= i < line_len(b) - 1 implies b[i] != 10 by {
            if i > 0 {
                assert(b[i] == b.skip(1)[i - 1]);
            }
        }
        if line_len(b) < b.len() {
            assert(b[line_len(b) - 1] == b.skip(1)[line_len(b.skip(1)) - 1]);
        }
    }
}

/// The number that a header gives, where it fits a length.
pub open spec fn length_of(value: Seq<char>) -> Option<nat> {
    match text::parsed_number(text::trimmed(value)) {
        Some(n) => if n <= usize::MAX {
            Some(n)
        } else {
            None
        },
        None => None,
    }
}

/// What `b` amounts to as the rest of a message, from a header line on, after
/// headers that took `at` bytes and gave `length`. `ended` says that no more
/// bytes will come.
pub open spec fn read_headers(b: Seq<u8>, ended: bool, length: Option<nat>, at: nat) -> Frame
    decreases b.len(),
{
    proof {
        line_len_bound(b);
    }
    let n = line_len(b) as int;
    if b.len() == 0 {
        if ended {
            Frame::Failed(FrameError::EndInHeaders)
        } else {
            Frame::More
        }
    } else if !ended && b[n - 1] != 10 {
        Frame::More
    } else if !valid_utf8(b.take(n)) {
        Frame::Failed(FrameError::HeaderNotText)
    } else {
        let line = text::trimmed(decode_utf8(b.take(n)));
        if line.len() == 0 {
            read_body(b.skip(n), ended, length, (at + n) as nat)
        } else {
            match text::after_prefix(line, "Content-Length:"@) {
                None => read_headers(b.skip(n), ended, length, (at + n) as nat),
                Some(value) => match length_of(value) {
                    None => Frame::Failed(FrameError::InvalidLength),
                    Some(k) => read_headers(b.skip(n), ended, Some(k), (at + n) as nat),
                },
            }
        }
    }
}

/// The same, from the body on.
pub open spec fn read_body(b: Seq<u8>, ended: bool, length: Option<nat>, at: nat) -> Frame {
    match length {
        None => Frame::Failed(FrameError::MissingLength),
        Some(n) => if b.len() < n {
            if ended {
                Frame::Failed(FrameError::EndInBody)
            } else {
                Frame::More
            }
        } else if valid_utf8(b.take(n as int)) {
            Frame::Message(decode_utf8(b.take(n as int)), at + n)
        } else {
            Frame::Failed(FrameError::BodyNotText)
        },
    }
}

/// What `b` amounts to from its first byte on.
pub open spec fn reading_of(b: Seq<u8>, ended: bool) -> Frame {
    read_headers(b, ended, None, 0)
}

/// The bytes `bytes[from..to]`.
fn part_of(bytes: &[u8], from: usize, to: usize) -> (out: Vec<u8>)
    requires
        from <= to <= bytes@.len(),
    ensures
        out@ == bytes@.subrange(from as int, to as int),
{
    let mut out: Vec<u8> = Vec::new();
    let mut i = from;
    while i < to
        invariant
            from <= i <= to <= bytes@.len(),
            out@ == bytes@.subrange(from as int, i as int),
        decreases to - i,
    {
        out.push(bytes[i]);
        assert(bytes@.subrange(from as int, i as int).push(bytes@[i as int])
            =~= bytes@.subrange(from as int, i + 1));
        i += 1;
    }
    out
}

/// Where the line that starts at `from` ends.
fn line_end(bytes: &[u8], from: usize) -> (to: usize)
    requires
        from < bytes@.len(),
    ensures
        from < to <= bytes@.len(),
        to == from + line_len(bytes@.skip(from as int)),
{
    let ghost rest = bytes@.skip(from as int);
    let last = bytes.len() - 1;
    let mut to = from;
    assert(rest.skip(0) =~= rest);
    while to < last && bytes[to] != 10
        invariant
            from <= to <= last == bytes@.len() - 1,
            rest == bytes@.skip(from as int),
            line_len(rest) == to - from + line_len(rest.skip(to - from)),
        decreases last - to,
    {
        assert(rest.skip(to - from)[0] == bytes@[to as int]);
        assert(rest.skip(to - from).skip(1) =~= rest.skip(to + 1 - from));
        to += 1;
    }
    assert(rest.skip(to - from)[0] == bytes@[to as int]);
    assert(to == last ==> rest.skip(to - from).skip(1) =~= Seq::<u8>::empty());
    assert(line_len(Seq::<u8>::empty()) == 0);
    to + 1
}

/// Reads a message from the bytes received so far. `ended` says that no more
/// bytes will come; without it an incomplete message asks for more.
///
/// A length that no memory could hold is waited for like any other.
pub fn read_lsp_message(bytes: &[u8], ended: bool) -> (reading: Reading)
    ensures
        reading@ == reading_of(bytes@, ended),
{
    let mut at: usize = 0;
    let mut length: Option<usize> = None;
    assert(bytes@.skip(0) =~= bytes@);
    while at < bytes.len()
        invariant
            at <= bytes@.len(),
            reading_of(bytes@, ended) == read_headers(
                bytes@.skip(at as int),
                ended,
                match length {
                    Some(n) => Some(n as nat),
                    None => None,
                },
                at as nat,
            ),
        decreases bytes@.len() - at,
    {
        let ghost rest = bytes@.skip(at as int);
        let to = line_end(bytes, at);
        assert(rest[to - at - 1] == bytes@[to - 1]);
        assert(rest.take(to - at) =~= bytes@.subrange(at as int, to as int));
        assert(rest.skip(to - at) =~= bytes@.skip(to as int));
        if !ended && bytes[to - 1] != 10 {
            return Reading::More;
        }
        let line = match text_from(part_of(bytes, at, to)) {
            Some(line) => trim(line.as_str()),
            None => {
                return Reading::Failed(FrameError::HeaderNotText);
            },
        };
        at = to;
        if line.as_str().is_empty() {
            return read_rest(bytes, at, ended, length);
        }
        if let Some(value) = strip_prefix(line.as_str(), "Content-Length:") {
            match parse_usize(trim(value.as_str()).as_str()) {
                Some(n) => {
                    length = Some(n);
                },
                None => {
                    return Reading::Failed(FrameError::InvalidLength);
                },
            }
        }
    }
    if ended {
        Reading::Failed(FrameError::EndInHeaders)
    } else {
        Reading::More
    }
}

/// Reads the body that starts at `at`.
fn read_rest(bytes: &[u8], at: usize, ended: bool, length: Option<usize>) -> (reading: Reading)
    requires
        at <= bytes@.len(),
    ensures
        reading@ == read_body(
            bytes@.skip(at as int),
            ended,
            match length {
                Some(n) => Some(n as nat),
                None => None,
            },
            at as nat,
        ),
{
    let n = match length {
        Some(n) => n,
        None => {
            return Reading::Failed(FrameError::MissingLength);
        },
    };
    if bytes.len() - at < n {
        return if ended {
            Reading::Failed(FrameError::EndInBody)
        } else {
            Reading::More
        };
    }
    assert(bytes@.skip(at as int).take(n as int) =~= bytes@.subrange(at as int, at + n));
    match text_from(part_of(bytes, at, at + n)) {
        Some(body) => Reading::Message { body, taken: at + n },
        None => Reading::Failed(FrameError::BodyNotText),
    }
}

/// The header of a message with `n` bytes of body.
pub open spec fn header_of(n: nat) -> Seq<char> {
    "Content-Length: "@ + text::digits_of(n) + "\r\n\r\n"@
}

/// A message as it is written.
pub open spec fn framed(body: Seq<char>) -> Seq<char> {
    header_of(encode_utf8(body).len()) + body
}

/// Writes a message: its header, and the body as it is.
pub fn write_lsp_message(body: &str) -> (out: String)
    ensures
        out@ == framed(body@),
{
    let mut out = copy_of("Content-Length: ");
    out.append(print_usize(body.as_bytes().len()).as_str());
    out.append("\r\n\r\n");
    out.append(body);
    out
}

/// A line ends with its first newline.
proof fn first_newline_ends_line(b: Seq<u8>, n: int)
    requires
        0 < n <= b.len(),
        b[n - 1] == 10,
        forall|i: int| 0 <= i < n - 1 ==> b[i] != 10,
    ensures
        line_len(b) == n,
{
    line_len_bound(b);
    let m = line_len(b) as int;
    if m < n {
        assert(b[m - 1] == 10);
    } else if m > n {
        assert(b[n - 1] != 10);
    }
}

/// The line that gives the length, as it is written.
spec fn length_line(n: nat) -> Seq<char> {
    "Content-Length: "@ + text::digits_of(n) + "\r\n"@
}

/// What is read from the line that gives the length.
proof fn length_line_is_read(n: nat)
    requires
        n <= usize::MAX,
    ensures
        ({
            let line = text::trimmed(length_line(n));
            &&& line.len() > 0
            &&& text::after_prefix(line, "Content-Length:"@) is Some
            &&& length_of(text::after_prefix(line, "Content-Length:"@)->Some_0) == Some(n)
        }),
{
    reveal_strlit("Content-Length: ");
    reveal_strlit("Content-Length:");
    reveal_strlit("\r\n");
    let digits = text::digits_of(n);
    text::law_numbers_come_back(n);
    let whole = length_line(n);
    let line = "Content-Length: "@ + digits;
    assert(text::trimmed_start(whole) == whole);
    assert(whole.drop_last().drop_last() =~= line);
    assert(whole.last() == '\n' && whole.drop_last().last() == '\r');
    assert(line.last() == digits.last());
    assert(text::digit(digits[digits.len() - 1]));
    assert(!text::white(line.last()));
    reveal_with_fuel(text::trimmed_end, 3);
    assert(text::trimmed(whole) == line);
    assert("Content-Length:"@ =~= line.subrange(0, 15));
    let value = line.skip(15);
    assert(value =~= seq![' '] + digits);
    assert(value.skip(1) =~= digits);
    assert(text::digit(digits[0]));
    reveal_with_fuel(text::trimmed_start, 2);
    assert(text::trimmed_start(value) == digits);
    assert(text::trimmed_end(digits) == digits);
}

/// A message that was written is read back, byte for byte, whatever follows it
/// on the wire.
pub proof fn law_messages_come_back(body: Seq<char>, rest: Seq<u8>, ended: bool)
    requires
        encode_utf8(body).len() <= usize::MAX,
    ensures
        reading_of(encode_utf8(framed(body)) + rest, ended) == Frame::Message(
            body,
            encode_utf8(framed(body)).len(),
        ),
{
    broadcast use {encode_utf8_decode_utf8, encode_utf8_valid_utf8};

    let n = encode_utf8(body).len();
    let first = length_line(n);
    let blank = "\r\n"@;
    reveal_strlit("Content-Length: ");
    reveal_strlit("\r\n");
    reveal_strlit("\r\n\r\n");
    assert(framed(body) =~= first + (blank + body));
    text::encoding_of_parts(first, blank + body);
    text::encoding_of_parts(blank, body);
    let b1 = encode_utf8(first);
    let b2 = encode_utf8(blank);
    let b3 = encode_utf8(body);
    let whole = encode_utf8(framed(body)) + rest;
    text::law_numbers_come_back(n);
    assert(is_ascii_chars(first)) by {
        assert forall|i: int| 0 <= i < first.len() implies '\0' <= #[trigger] first[i]
            <= '\u{7f}' by {
            if 16 <= i < first.len() - 2 {
                assert(text::digit(text::digits_of(n)[i - 16]));
            }
        }
    }
    is_ascii_chars_encode_utf8(first);
    is_ascii_chars_encode_utf8(blank);
    assert forall|i: int| 0 <= i < first.len() - 1 implies whole[i] != 10 by {
        assert(whole[i] == b1[i]);
        assert(b1[i] == first[i] as u8);
        if 16 <= i < first.len() - 2 {
            assert(text::digit(text::digits_of(n)[i - 16]));
        }
    }
    let k = first.len() as int;
    assert(first[k - 1] == '\n');
    assert(whole[k - 1] == b1[k - 1]);
    first_newline_ends_line(whole, k);
    assert(whole.take(k) =~= b1);
    length_line_is_read(n);
    let after = whole.skip(k);
    assert(after =~= b2 + (b3 + rest));
    assert(blank[0] == '\r' && blank[1] == '\n');
    assert(after[0] == b2[0] && after[1] == b2[1]);
    first_newline_ends_line(after, 2);
    assert(after.take(2) =~= b2);
    assert(blank.drop_last().drop_last() =~= Seq::<char>::empty());
    reveal_with_fuel(text::trimmed_start, 3);
    assert(blank.skip(1).skip(1) =~= Seq::<char>::empty());
    assert(text::trimmed(blank) =~= Seq::<char>::empty());
    let tail = after.skip(2);
    assert(tail =~= b3 + rest);
    assert(tail.take(n as int) =~= b3);
    assert(reading_of(whole, ended) == read_headers(after, ended, Some(n), k as nat));
    assert(read_headers(after, ended, Some(n), k as nat) == read_body(
        tail,
        ended,
        Some(n),
        (k + 2) as nat,
    ));
}

proof fn later_bytes_in_headers(
    b: Seq<u8>,
    more: Seq<u8>,
    ended: bool,
    length: Option<nat>,
    at: nat,
)
    requires
        !(read_headers(b, false, length, at) is More),
    ensures
        read_headers(b + more, ended, length, at) == read_headers(b, false, length, at),
    decreases b.len(),
{
    line_len_bound(b);
    let n = line_len(b) as int;
    let whole = b + more;
    first_newline_ends_line(whole, n);
    assert(whole.take(n) =~= b.take(n));
    assert(whole.skip(n) =~= b.skip(n) + more);
    if valid_utf8(b.take(n)) {
        let line = text::trimmed(decode_utf8(b.take(n)));
        if line.len() == 0 {
            if let Some(k) = length {
                assert(whole.skip(n).take(k as int) =~= b.skip(n).take(k as int));
            }
        } else {
            match text::after_prefix(line, "Content-Length:"@) {
                None => {
                    later_bytes_in_headers(b.skip(n), more, ended, length, (at + n) as nat);
                },
                Some(value) => {
                    if let Some(k) = length_of(value) {
                        later_bytes_in_headers(b.skip(n), more, ended, Some(k), (at + n) as nat);
                    }
                },
            }
        }
    }
}

/// Once the bytes received amount to a message or a failure, bytes that come
/// later do not change it.
pub proof fn law_later_bytes_change_nothing(b: Seq<u8>, more: Seq<u8>, ended: bool)
    requires
        !(reading_of(b, false) is More),
    ensures
        reading_of(b + more, ended) == reading_of(b, false),
{
    later_bytes_in_headers(b, more, ended, None, 0);
}

proof fn headers_are_bounded(b: Seq<u8>, ended: bool, length: Option<nat>, at: nat)
    ensures
        ended ==> !(read_headers(b, ended, length, at) is More),
        match read_headers(b, ended, length, at) {
            Frame::Message(body, taken) => at < taken <= at + b.len(),
            _ => true,
        },
    decreases b.len(),
{
    line_len_bound(b);
    let n = line_len(b) as int;
    if b.len() > 0 && valid_utf8(b.take(n)) && !(!ended && b[n - 1] != 10) {
        let line = text::trimmed(decode_utf8(b.take(n)));
        if line.len() > 0 {
            match text::after_prefix(line, "Content-Length:"@) {
                None => {
                    headers_are_bounded(b.skip(n), ended, length, (at + n) as nat);
                },
                Some(value) => {
                    if let Some(k) = length_of(value) {
                        headers_are_bounded(b.skip(n), ended, Some(k), (at + n) as nat);
                    }
                },
            }
        }
    }
}

/// A message takes at least one byte and no more than there are, and once the
/// stream has ended no reading asks for more.
pub proof fn law_readings_are_bounded(b: Seq<u8>, ended: bool)
    ensures
        ended ==> !(reading_of(b, ended) is More),
        match reading_of(b, ended) {
            Frame::Message(body, taken) => 0 < taken <= b.len(),
            _ => true,
        },
{
    headers_are_bounded(b, ended, None, 0);
}

/// The messages that a finished stream holds, up to the first failure.
pub open spec fn messages_in(b: Seq<u8>) -> Seq<Seq<char>>
    decreases b.len(),
{
    proof {
        law_readings_are_bounded(b, true);
    }
    match reading_of(b, true) {
        Frame::Message(body, taken) => seq![body] + messages_in(b.skip(taken as int)),
        _ => Seq::empty(),
    }
}

/// Messages written one after the other.
pub open spec fn framed_all(bodies: Seq<Seq<char>>) -> Seq<char>
    decreases bodies.len(),
{
    if bodies.len() == 0 {
        Seq::empty()
    } else {
        framed(bodies[0]) + framed_all(bodies.skip(1))
    }
}

/// Messages come out of a stream in the order in which they were written to it,
/// none lost and none added.
pub proof fn law_messages_keep_their_order(bodies: Seq<Seq<char>>)
    requires
        forall|i: int|
            0 <= i < bodies.len() ==> encode_utf8(#[trigger] bodies[i]).len() <= usize::MAX,
    ensures
        messages_in(encode_utf8(framed_all(bodies))) == bodies,
    decreases bodies.len(),
{
    if bodies.len() == 0 {
        assert(encode_utf8(framed_all(bodies)) =~= Seq::<u8>::empty());
        assert(messages_in(Seq::<u8>::empty()) =~= bodies);
    } else {
        let rest = framed_all(bodies.skip(1));
        let b = encode_utf8(framed_all(bodies));
        let first = encode_utf8(framed(bodies[0]));
        text::encoding_of_parts(framed(bodies[0]), rest);
        law_messages_come_back(bodies[0], encode_utf8(rest), true);
        assert(b.skip(first.len() as int) =~= encode_utf8(rest));
        assert forall|i: int| 0 <= i < bodies.skip(1).len() implies encode_utf8(
            #[trigger] bodies.skip(1)[i],
        ).len() <= usize::MAX by {
            assert(bodies.skip(1)[i] == bodies[i + 1]);
        }
        law_messages_keep_their_order(bodies.skip(1));
        law_readings_are_bounded(b, true);
        assert(seq![bodies[0]] + bodies.skip(1) =~= bodies);
    }
}

/// The same reading of a message that stands `n` bytes further on.
pub open spec fn shifted(frame: Frame, n: nat) -> Frame {
    match frame {
        Frame::Message(body, taken) => Frame::Message(body, taken + n),
        other => other,
    }
}

proof fn readings_shift(b: Seq<u8>, ended: bool, length: Option<nat>, at: nat, n: nat)
    ensures
        read_headers(b, ended, length, at + n) == shifted(read_headers(b, ended, length, at), n),
    decreases b.len(),
{
    line_len_bound(b);
    let k = line_len(b) as int;
    if b.len() > 0 && valid_utf8(b.take(k)) && !(!ended && b[k - 1] != 10) {
        let line = text::trimmed(decode_utf8(b.take(k)));
        if line.len() > 0 {
            match text::after_prefix(line, "Content-Length:"@) {
                None => {
                    readings_shift(b.skip(k), ended, length, (at + k) as nat, n);
                },
                Some(value) => {
                    if let Some(m) = length_of(value) {
                        readings_shift(b.skip(k), ended, Some(m), (at + k) as nat, n);
                    }
                },
            }
        }
    }
}

proof fn text_lacks_newlines(line: Seq<char>)
    requires
        forall|i: int| 0 <= i < line.len() ==> #[trigger] line[i] != '\n',
    ensures
        forall|i: int| 0 <= i < encode_utf8(line).len() ==> encode_utf8(line)[i] != 10,
    decreases line.len(),
{
    let all = encode_utf8(line);
    if line.len() > 0 {
        let first = seq![line[0]];
        let rest = line.drop_first();
        assert(first + rest =~= line);
        assert forall|i: int| 0 <= i < rest.len() implies #[trigger] rest[i] != '\n' by {
            assert(line[i + 1] == rest[i]);
        }
        text_lacks_newlines(rest);
        text::encoding_of_parts(first, rest);
        text::other_characters_lack_byte(line[0], 10);
        assert forall|i: int| 0 <= i < all.len() implies all[i] != 10 by {
            if i < encode_utf8(first).len() {
                assert(all[i] == encode_utf8(first)[i]);
            } else {
                assert(all[i] == encode_utf8(rest)[i - encode_utf8(first).len()]);
            }
        }
    } else {
        assert(all =~= Seq::<u8>::empty());
    }
}

/// A line of text is read up to its line end, and without it.
proof fn lines_are_read(core: Seq<char>, b: Seq<u8>)
    requires
        forall|i: int| 0 <= i < core.len() ==> #[trigger] core[i] != '\n',
        core.len() > 0 ==> !text::white(core[0]) && !text::white(core.last()),
    ensures
        ({
            let line = encode_utf8(core + "\r\n"@);
            let whole = line + b;
            &&& line.len() > 0
            &&& line_len(whole) == line.len()
            &&& whole.take(line.len() as int) == line
            &&& whole.skip(line.len() as int) == b
            &&& whole[line.len() - 1] == 10
            &&& valid_utf8(line)
            &&& text::trimmed(decode_utf8(line)) == core
        }),
{
    broadcast use {encode_utf8_decode_utf8, encode_utf8_valid_utf8};

    reveal_strlit("\r\n");
    let end = "\r\n"@;
    let line = encode_utf8(core + end);
    let whole = line + b;
    let start = core + seq!['\r'];
    assert(core + end =~= start + seq!['\n']);
    assert forall|i: int| 0 <= i < start.len() implies #[trigger] start[i] != '\n' by {
        if i < core.len() {
            assert(start[i] == core[i]);
        }
    }
    text_lacks_newlines(start);
    text::encoding_of_parts(start, seq!['\n']);
    assert(is_ascii_chars(seq!['\n']));
    is_ascii_chars_encode_utf8(seq!['\n']);
    assert(seq!['\n'][0] as u8 == encode_utf8(seq!['\n'])[0]);
    let n = line.len() as int;
    assert(line[n - 1] == 10);
    assert forall|i: int| 0 <= i < n - 1 implies whole[i] != 10 by {
        assert(whole[i] == encode_utf8(start)[i]);
    }
    first_newline_ends_line(whole, n);
    assert(whole.take(n) =~= line);
    assert(whole.skip(n) =~= b);
    let none = Seq::<char>::empty();
    assert(end[0] == '\r' && end[1] == '\n');
    if core.len() > 0 {
        text::law_trimming_takes_the_white_space_around(none, core, end, '!');
        assert(none + core + end =~= core + end);
    } else {
        let word = seq!['x'];
        text::law_trimming_takes_the_white_space_around(end, word, none, '!');
        assert(core + end =~= end);
        assert(core =~= none);
    }
}

/// The length counts the bytes of the body. As many bytes as it says are the
/// body, where they are UTF-8; bytes behind them are left alone. With fewer bytes
/// the message is not complete, which is a failure once no more can come.
pub proof fn law_lengths_count_bytes(n: nat, b: Seq<u8>, ended: bool)
    requires
        n <= usize::MAX,
    ensures
        ({
            let header = encode_utf8("Content-Length: "@ + text::digits_of(n) + "\r\n\r\n"@);
            reading_of(header + b, ended) == if b.len() >= n {
                if valid_utf8(b.take(n as int)) {
                    Frame::Message(decode_utf8(b.take(n as int)), header.len() + n)
                } else {
                    Frame::Failed(FrameError::BodyNotText)
                }
            } else if ended {
                Frame::Failed(FrameError::EndInBody)
            } else {
                Frame::More
            }
        }),
{
    reveal_strlit("\r\n");
    reveal_strlit("\r\n\r\n");
    let first = "Content-Length: "@ + text::digits_of(n) + "\r\n"@;
    let none = Seq::<char>::empty();
    let blank = encode_utf8(none + "\r\n"@);
    assert("Content-Length: "@ + text::digits_of(n) + "\r\n\r\n"@ =~= first + (none + "\r\n"@));
    text::encoding_of_parts(first, none + "\r\n"@);
    let one = encode_utf8(first);
    let header = one + blank;
    assert(header + b =~= one + (blank + b));
    length_header_is_taken(n, blank + b, ended, None, 0);
    lines_are_read(none, b);
}

proof fn length_header_is_taken(
    n: nat,
    b: Seq<u8>,
    ended: bool,
    length: Option<nat>,
    at: nat,
)
    requires
        n <= usize::MAX,
    ensures
        ({
            let line = encode_utf8("Content-Length: "@ + text::digits_of(n) + "\r\n"@);
            read_headers(line + b, ended, length, at) == read_headers(
                b,
                ended,
                Some(n),
                at + line.len(),
            )
        }),
{
    reveal_strlit("Content-Length: ");
    reveal_strlit("Content-Length:");
    let digits = text::digits_of(n);
    text::law_numbers_come_back(n);
    let core = "Content-Length: "@ + digits;
    assert forall|i: int| 0 <= i < core.len() implies #[trigger] core[i] != '\n' by {
        if i >= 16 {
            assert(text::digit(digits[i - 16]));
            assert(core[i] == digits[i - 16]);
        }
    }
    assert(text::digit(digits[digits.len() - 1]));
    assert(core.last() == digits[digits.len() - 1]);
    lines_are_read(core, b);
    length_line_is_read(n);
    let value = seq![' '] + digits;
    assert(core =~= "Content-Length:"@ + value);
    text::law_prefixes_come_off("Content-Length:"@, value, core);
    text::law_trimming_takes_the_white_space_around(seq![' '], digits, Seq::empty(), '!');
    assert(seq![' '] + digits + Seq::<char>::empty() =~= value);
}

/// Where a message gives its length more than once, the last one counts.
pub proof fn law_last_length_counts(first: nat, last: nat, b: Seq<u8>, ended: bool)
    requires
        first <= usize::MAX,
        last <= usize::MAX,
    ensures
        ({
            let early = encode_utf8("Content-Length: "@ + text::digits_of(first) + "\r\n"@);
            let late = encode_utf8("Content-Length: "@ + text::digits_of(last) + "\r\n"@);
            reading_of(early + (late + b), ended) == shifted(
                reading_of(late + b, ended),
                early.len(),
            )
        }),
{
    let early = encode_utf8("Content-Length: "@ + text::digits_of(first) + "\r\n"@);
    let late = encode_utf8("Content-Length: "@ + text::digits_of(last) + "\r\n"@);
    length_header_is_taken(first, late + b, ended, None, 0);
    length_header_is_taken(last, b, ended, Some(first), early.len());
    length_header_is_taken(last, b, ended, None, 0);
    readings_shift(b, ended, Some(last), late.len(), early.len());
}

/// A header of another name counts for nothing: what follows it is read as it
/// would be without it.
pub proof fn law_other_headers_are_skipped(header: Seq<char>, b: Seq<u8>, ended: bool)
    requires
        header.len() > 0,
        forall|i: int| 0 <= i < header.len() ==> #[trigger] header[i] != '\n',
        !text::white(header[0]),
        !text::white(header.last()),
        !"Content-Length:"@.is_prefix_of(header),
    ensures
        reading_of(encode_utf8(header + "\r\n"@) + b, ended) == shifted(
            reading_of(b, ended),
            encode_utf8(header + "\r\n"@).len(),
        ),
{
    lines_are_read(header, b);
    readings_shift(b, ended, None, 0, encode_utf8(header + "\r\n"@).len());
}

/// A length that is no number, or too large for one, is a failure, and so are
/// headers that end without a length.
pub proof fn law_missing_and_bad_lengths_fail(value: Seq<char>, b: Seq<u8>, ended: bool)
    requires
        forall|i: int| 0 <= i < value.len() ==> #[trigger] value[i] != '\n',
        value.len() > 0 ==> !text::white(value.last()),
        match text::parsed_number(text::trimmed(value)) {
            Some(n) => n > usize::MAX,
            None => true,
        },
    ensures
        reading_of(encode_utf8("Content-Length:"@ + value + "\r\n"@) + b, ended) == Frame::Failed(
            FrameError::InvalidLength,
        ),
        reading_of(encode_utf8("\r\n"@) + b, ended) == Frame::Failed(FrameError::MissingLength),
{
    reveal_strlit("Content-Length:");
    let core = "Content-Length:"@ + value;
    assert forall|i: int| 0 <= i < core.len() implies #[trigger] core[i] != '\n' by {
        if i >= 15 {
            assert(core[i] == value[i - 15]);
        }
    }
    assert(core.last() == if value.len() > 0 {
        value.last()
    } else {
        ':'
    });
    lines_are_read(core, b);
    text::law_prefixes_come_off("Content-Length:"@, value, core);
    let none = Seq::<char>::empty();
    lines_are_read(none, b);
    assert(none + "\r\n"@ =~= "\r\n"@);
    let blank = encode_utf8("\r\n"@);
    assert(read_headers(blank + b, ended, None, 0) == read_body(b, ended, None, blank.len()));
}

/// A header line that is no UTF-8 is a failure. A stream that ends before the
/// headers do is one too; while more can come, an unfinished line is waited for.
pub proof fn law_unfinished_headers_are_waited_for(line: Seq<u8>, b: Seq<u8>, ended: bool)
    requires
        forall|i: int| 0 <= i < line.len() ==> #[trigger] line[i] != 10,
    ensures
        !valid_utf8(line.push(10)) ==> reading_of(line.push(10) + b, ended) == Frame::Failed(
            FrameError::HeaderNotText,
        ),
        reading_of(line, false) == Frame::More,
        reading_of(Seq::empty(), true) == Frame::Failed(FrameError::EndInHeaders),
{
    line_len_bound(line);
    let whole = line.push(10) + b;
    let n = line.len() as int + 1;
    assert forall|i: int| 0 <= i < n - 1 implies whole[i] != 10 by {
        assert(whole[i] == line[i]);
    }
    assert(whole[n - 1] == 10);
    first_newline_ends_line(whole, n);
    assert(whole.take(n) =~= line.push(10));
    if line.len() > 0 {
        assert(line[line_len(line) - 1] != 10);
    }
}

/// A message is written as its length in bytes, in a header of its own, an empty
/// line, and the body as it is.
pub proof fn law_messages_are_written_behind_their_length(body: Seq<char>)
    ensures
        framed(body) == "Content-Length: "@ + text::digits_of(encode_utf8(body).len())
            + "\r\n\r\n"@ + body,
{
}

} // verus!

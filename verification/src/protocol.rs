//! Framed JSON messages.
//!
//! Each message is `Content-Length: N`, an empty line, and `N` bytes of JSON. This is the
//! transport: it knows nothing of hooks or compression.
use serde_json::Value;
use vstd::prelude::*;
use vstd::slice::slice_subrange;
use vstd::utf8::{decode_utf8, encode_utf8, valid_utf8};
use crate::chars;
use crate::json;
use crate::json::Json;

verus! {

/// The longest body that is read.
pub const MAX_FRAME_BYTES: usize = 0x400_0000;

// ---- reading ----

/// The length of the first line of the bytes, with the line feed that ends it.
pub open spec fn line_len(data: Seq<u8>) -> nat
    decreases data.len(),
{
    if data.len() == 0 {
        0
    } else if data[0] == 10 {
        1
    } else {
        1 + line_len(data.skip(1))
    }
}

/// `line` without the carriage returns and line feeds at its end.
pub open spec fn without_ending(line: Seq<char>) -> Seq<char>
    decreases line.len(),
{
    if line.len() > 0 && (line.last() == '\r' || line.last() == '\n') {
        without_ending(line.drop_last())
    } else {
        line
    }
}

/// The small letter for a capital letter of ASCII; any other character as it is.
pub open spec fn small(c: char) -> char {
    if 'A' <= c <= 'Z' {
        (c as u32 + 32) as char
    } else {
        c
    }
}

/// The texts are the same but for the case of ASCII letters.
pub open spec fn same_letters(a: Seq<char>, b: Seq<char>) -> bool {
    a.len() == b.len() && forall|j: int| 0 <= j < a.len() ==> small(#[trigger] a[j]) == small(b[j])
}

/// The length that a header declares: decimal digits, which a plus sign may precede, for a
/// number that fits.
pub open spec fn declared(text: Seq<char>) -> Option<nat> {
    let digits = if text.len() > 0 && text[0] == '+' {
        text.skip(1)
    } else {
        text
    };
    if digits.len() > 0 && chars::all_digits(digits) && chars::number(digits) <= usize::MAX {
        Some(chars::number(digits))
    } else {
        None
    }
}

/// The length that is known after a header line, if any, where `length` was known before
/// it; `None` where the line ends the headers. The last `Content-Length` counts.
pub open spec fn after_header(length: Option<nat>, line: Seq<char>) -> Option<Option<nat>> {
    let text = without_ending(line);
    let k = chars::find_char(text, ':') as int;
    if text.len() == 0 {
        None
    } else if k < text.len() && same_letters(chars::trim(text.take(k)), "content-length"@) {
        Some(declared(chars::trim(text.skip(k + 1))))
    } else {
        Some(length)
    }
}

/// What reading one frame comes to.
pub enum Frame {
    /// The bytes ended before a frame.
    End,
    /// The body of the frame.
    Body(Seq<u8>),
    /// A header line is no text.
    NotText,
    /// No header declares a length.
    MissingLength,
    /// The declared length is over [`MAX_FRAME_BYTES`].
    TooLong,
    /// The bytes ended within the headers or the body.
    Truncated,
}

/// What follows the headers, and the bytes behind it.
pub open spec fn read_body(data: Seq<u8>, length: Option<nat>) -> (Frame, Seq<u8>) {
    match length {
        None => (Frame::MissingLength, data),
        Some(n) => if n > MAX_FRAME_BYTES {
            (Frame::TooLong, data)
        } else if n > data.len() {
            (Frame::Truncated, seq![])
        } else {
            (Frame::Body(data.take(n as int)), data.skip(n as int))
        },
    }
}

/// What reading the headers that follow comes to, and then the body, and the bytes behind
/// it, where `length` was declared already.
pub open spec fn read_headers(data: Seq<u8>, length: Option<nat>) -> (Frame, Seq<u8>)
    decreases data.len(),
{
    let k = line_len(data) as int;
    if data.len() == 0 {
        (Frame::Truncated, data)
    } else if !valid_utf8(data.take(k)) {
        (Frame::NotText, data.skip(k))
    } else {
        proof {
            lemma_line_len(data);
        }
        match after_header(length, decode_utf8(data.take(k))) {
            Some(known) => read_headers(data.skip(k), known),
            None => read_body(data.skip(k), length),
        }
    }
}

/// What reading one frame comes to, and the bytes behind it.
pub open spec fn read_frame(data: Seq<u8>) -> (Frame, Seq<u8>) {
    if data.len() == 0 {
        (Frame::End, data)
    } else {
        read_headers(data, None)
    }
}

/// What [`line_len`] finds.
pub proof fn lemma_line_len(data: Seq<u8>)
    ensures
        line_len(data) <= data.len(),
        data.len() > 0 ==> line_len(data) > 0,
        forall|j: int| 0 <= j < line_len(data) - 1 ==> data[j] != 10,
        data.len() > 0 && line_len(data) < data.len() ==> data[line_len(data) - 1] == 10,
    decreases data.len(),
{
    if data.len() > 0 && data[0] != 10 {
        let rest = data.skip(1);
        lemma_line_len(rest);
        assert forall|j: int| 0 <= j < line_len(data) - 1 implies data[j] != 10 by {
            if j > 0 {
                assert(data[j] == rest[j - 1]);
            }
        }
        if line_len(data) < data.len() {
            assert(data[line_len(data) - 1] == rest[line_len(rest) - 1]);
        }
    }
}

/// Only one length can be what [`line_len`] finds.
pub proof fn lemma_line_len_is(data: Seq<u8>, k: int)
    requires
        0 < k <= data.len(),
        forall|j: int| 0 <= j < k - 1 ==> data[j] != 10,
        data[k - 1] == 10 || k == data.len(),
    ensures
        line_len(data) == k,
    decreases k,
{
    lemma_line_len(data);
    let f = line_len(data) as int;
    if f < k {
        assert(data[f - 1] != 10);
    } else if k < f {
        assert(data[k - 1] != 10);
    }
}

/// Why a frame cannot be read.
#[derive(Debug)]
pub enum FrameError {
    /// A header line is no text.
    NotText,
    /// No header declares a length.
    MissingLength,
    /// The declared length is over [`MAX_FRAME_BYTES`].
    TooLong,
    /// The bytes ended within the headers or the body.
    Truncated,
    /// The body is no JSON.
    Malformed(serde_json::Error),
}

impl FrameError {
    /// What went wrong, for people.
    pub fn message(&self) -> (r: &'static str)
        ensures
            r@ == match *self {
                FrameError::NotText => "header is not valid UTF-8"@,
                FrameError::MissingLength => "missing Content-Length"@,
                FrameError::TooLong => "Content-Length over the limit"@,
                FrameError::Truncated => "unexpected end of frame"@,
                FrameError::Malformed(_) => "malformed JSON"@,
            },
    {
        match self {
            FrameError::NotText => "header is not valid UTF-8",
            FrameError::MissingLength => "missing Content-Length",
            FrameError::TooLong => "Content-Length over the limit",
            FrameError::Truncated => "unexpected end of frame",
            FrameError::Malformed(_) => "malformed JSON",
        }
    }
}

/// The bytes as a text, where they are one: `std::str::from_utf8`.
#[verifier::external_body]
fn as_text<'a>(bytes: &'a [u8]) -> (r: Option<&'a str>)
    ensures
        match r {
            Some(text) => valid_utf8(bytes@) && text@ == decode_utf8(bytes@),
            None => !valid_utf8(bytes@),
        },
{
    std::str::from_utf8(bytes).ok()
}

/// The line without the carriage returns and line feeds at its end.
fn strip_ending<'a>(line: &'a [char]) -> (r: &'a [char])
    ensures
        r@ == without_ending(line@),
{
    let mut k: usize = line.len();
    proof {
        assert(line@.take(k as int) =~= line@);
    }
    while k > 0 && (line[k - 1] == '\r' || line[k - 1] == '\n')
        invariant
            k <= line@.len(),
            without_ending(line@) == without_ending(line@.take(k as int)),
        decreases k,
    {
        proof {
            assert(line@.take(k as int).drop_last() =~= line@.take(k - 1));
            assert(line@.take(k as int).last() == line@[k - 1]);
        }
        k = k - 1;
    }
    proof {
        if k > 0 {
            assert(line@.take(k as int).last() == line@[k - 1]);
        }
    }
    slice_subrange(line, 0, k)
}

/// The small letter for a capital letter of ASCII.
fn to_small(c: char) -> (r: char)
    ensures
        r == small(c),
{
    if 'A' <= c && c <= 'Z' {
        (c as u8 + 32) as char
    } else {
        c
    }
}

/// Whether the texts are the same but for the case of ASCII letters.
fn is_same_letters(a: &[char], b: &[char]) -> (r: bool)
    ensures
        r == same_letters(a@, b@),
{
    if a.len() != b.len() {
        return false;
    }
    let mut i: usize = 0;
    while i < a.len()
        invariant
            a@.len() == b@.len(),
            i <= a@.len(),
            forall|j: int| 0 <= j < i ==> small(#[trigger] a@[j]) == small(b@[j]),
        decreases a@.len() - i,
    {
        if to_small(a[i]) != to_small(b[i]) {
            proof {
                assert(small(a@[i as int]) != small(b@[i as int]));
            }
            return false;
        }
        i = i + 1;
    }
    true
}

/// The number of a prefix of digits is no greater than that of all of them.
proof fn lemma_number_grows(s: Seq<char>, k: int)
    requires
        chars::all_digits(s),
        0 <= k <= s.len(),
    ensures
        chars::number(s.take(k)) <= chars::number(s),
    decreases s.len(),
{
    if k < s.len() {
        let init = s.drop_last();
        assert forall|j: int| 0 <= j < init.len() implies chars::is_digit(#[trigger] init[j]) by {
            assert(init[j] == s[j]);
        }
        lemma_number_grows(init, k);
        assert(init.take(k) =~= s.take(k));
        assert(chars::is_digit(s[s.len() - 1]));
    } else {
        assert(s.take(k) =~= s);
    }
}

/// The length that a header declares.
fn parse_length(text: &[char]) -> (r: Option<usize>)
    ensures
        match r {
            Some(n) => declared(text@) == Some(n as nat),
            None => declared(text@) is None,
        },
{
    let start: usize = if text.len() > 0 && text[0] == '+' {
        1
    } else {
        0
    };
    let digits = slice_subrange(text, start, text.len());
    proof {
        if start == 1 {
            assert(digits@ =~= text@.skip(1));
        } else {
            assert(digits@ =~= text@);
        }
    }
    if digits.len() == 0 {
        return None;
    }
    let mut n: usize = 0;
    let mut i: usize = 0;
    proof {
        assert(digits@.take(0) =~= seq![]);
    }
    while i < digits.len()
        invariant
            i <= digits@.len(),
            declared(text@) == if digits@.len() > 0 && chars::all_digits(digits@)
                && chars::number(digits@) <= usize::MAX {
                Some(chars::number(digits@))
            } else {
                None
            },
            forall|j: int| 0 <= j < i ==> chars::is_digit(#[trigger] digits@[j]),
            n == chars::number(digits@.take(i as int)),
        decreases digits@.len() - i,
    {
        let c = digits[i];
        if !('0' <= c && c <= '9') {
            proof {
                assert(!chars::is_digit(digits@[i as int]));
            }
            return None;
        }
        let d: usize = c as usize - 48;
        proof {
            let upto = digits@.take(i as int + 1);
            assert(upto.drop_last() =~= digits@.take(i as int));
            assert(upto.last() == c);
            assert(chars::number(upto) == 10 * n + d);
            if chars::all_digits(digits@) {
                lemma_number_grows(digits@, i as int + 1);
            }
        }
        match n.checked_mul(10) {
            None => {
                return None;
            },
            Some(tens) => match tens.checked_add(d) {
                None => {
                    return None;
                },
                Some(sum) => {
                    n = sum;
                },
            },
        }
        i = i + 1;
    }
    proof {
        assert(digits@.take(i as int) =~= digits@);
    }
    Some(n)
}

/// The headers of a frame, as far as they have been read.
pub struct FrameHeader {
    length: Option<usize>,
    started: bool,
}

impl FrameHeader {
    /// The declared length, if any.
    pub closed spec fn known(self) -> Option<nat> {
        match self.length {
            Some(n) => Some(n as nat),
            None => None,
        }
    }

    /// Some line has been taken.
    pub closed spec fn begun(self) -> bool {
        self.started
    }

    /// No header has been read.
    pub fn new() -> (r: Self)
        ensures
            r.known() is None,
            !r.begun(),
    {
        FrameHeader { length: None, started: false }
    }

    /// What the end of the input means: a clean end before the first line, and a frame
    /// that is cut off behind it.
    pub fn at_end(&self) -> (r: Result<(), FrameError>)
        ensures
            if self.begun() {
                r matches Err(e) && e is Truncated
            } else {
                r is Ok
            },
    {
        if self.started {
            Err(FrameError::Truncated)
        } else {
            Ok(())
        }
    }

    /// Takes one line, and tells whether it ends the headers.
    pub fn accept(&mut self, line: &[u8]) -> (r: Result<bool, FrameError>)
        ensures
            final(self).begun(),
            match r {
                Ok(ended) => {
                    &&& valid_utf8(line@)
                    &&& match after_header(old(self).known(), decode_utf8(line@)) {
                        Some(known) => !ended && final(self).known() == known,
                        None => ended && final(self).known() == old(self).known(),
                    }
                },
                Err(e) => e is NotText && !valid_utf8(line@) && final(self).known() == old(
                    self,
                ).known(),
            },
    {
        self.started = true;
        let text = match as_text(line) {
            Some(text) => chars::to_chars(text),
            None => {
                return Err(FrameError::NotText);
            },
        };
        let header = strip_ending(text.as_slice());
        if header.len() == 0 {
            return Ok(true);
        }
        let k = chars::index_of(header, ':');
        if k < header.len() {
            let name = chars::trimmed(slice_subrange(header, 0, k));
            proof {
                assert(header@.subrange(0, k as int) =~= header@.take(k as int));
            }
            if is_same_letters(name, chars::to_chars("content-length").as_slice()) {
                let value = chars::trimmed(slice_subrange(header, k + 1, header.len()));
                proof {
                    assert(header@.subrange(k + 1, header@.len() as int) =~= header@.skip(k + 1));
                }
                self.length = parse_length(value);
            }
        }
        Ok(false)
    }

    /// The length of the body, once the headers have ended.
    pub fn body_length(&self) -> (r: Result<usize, FrameError>)
        ensures
            match self.known() {
                Some(n) => if n <= MAX_FRAME_BYTES {
                    r matches Ok(len) && len == n
                } else {
                    r matches Err(e) && e is TooLong
                },
                None => r matches Err(e) && e is MissingLength,
            },
    {
        match self.length {
            None => Err(FrameError::MissingLength),
            Some(n) => if n > MAX_FRAME_BYTES {
                Err(FrameError::TooLong)
            } else {
                Ok(n)
            },
        }
    }
}

/// The message that a body holds.
pub fn decode_body(bytes: &[u8]) -> (r: Result<Value, FrameError>)
    ensures
        match json::parsed_bytes(bytes@) {
            Some(message) => r matches Ok(value) && json::contents(value) == message,
            None => r matches Err(e) && e is Malformed,
        },
{
    match json::parse_bytes(bytes) {
        Ok(value) => Ok(value),
        Err(e) => Err(FrameError::Malformed(e)),
    }
}

/// Bytes that are read frame by frame.
pub struct FrameReader {
    data: Vec<u8>,
    pos: usize,
}

impl FrameReader {
    /// The bytes that have not been read.
    pub closed spec fn rest(self) -> Seq<u8> {
        if self.pos <= self.data@.len() {
            self.data@.skip(self.pos as int)
        } else {
            seq![]
        }
    }

    /// All the bytes are to be read.
    pub fn new(data: Vec<u8>) -> (r: Self)
        ensures
            r.rest() == data@,
    {
        let r = FrameReader { data, pos: 0 };
        proof {
            assert(r.data@.skip(0) =~= r.data@);
        }
        r
    }

    /// Reads a line, with the line feed that ends it; nothing at the end of the bytes.
    fn next_line(&mut self) -> (r: Vec<u8>)
        ensures
            r@ == old(self).rest().take(line_len(old(self).rest()) as int),
            final(self).rest() == old(self).rest().skip(line_len(old(self).rest()) as int),
            r@.len() == line_len(old(self).rest()),
            r@.len() == 0 <==> old(self).rest().len() == 0,
    {
        let ghost before = self.rest();
        let mut line: Vec<u8> = Vec::new();
        let n: usize = self.data.len();
        let start: usize = if self.pos <= n {
            self.pos
        } else {
            n
        };
        proof {
            lemma_line_len(before);
            assert(before =~= self.data@.skip(start as int));
        }
        let mut i: usize = start;
        let mut found: bool = false;
        while i < n && !found
            invariant
                start <= i <= n == self.data@.len(),
                before == self.data@.skip(start as int),
                line@ == before.take(i - start),
                forall|j: int| 0 <= j < i - start - 1 ==> before[j] != 10,
                found ==> i > start && before[i - start - 1] == 10,
                !found && i > start ==> before[i - start - 1] != 10,
            decreases n - i,
        {
            let b = self.data[i];
            line.push(b);
            proof {
                assert(before[i - start] == b);
                assert(before.take(i - start + 1) =~= before.take(i - start).push(b));
            }
            i = i + 1;
            if b == 10 {
                found = true;
            }
        }
        self.pos = i;
        proof {
            if i > start {
                lemma_line_len_is(before, i - start);
            } else {
                assert(before.len() == 0);
            }
            assert(self.rest() =~= before.skip(i - start));
        }
        line
    }

    /// Reads that many bytes; `None` where there are fewer, and then none is left.
    fn next_bytes(&mut self, count: usize) -> (r: Option<Vec<u8>>)
        ensures
            match r {
                Some(bytes) => {
                    &&& count <= old(self).rest().len()
                    &&& bytes@ == old(self).rest().take(count as int)
                    &&& final(self).rest() == old(self).rest().skip(count as int)
                },
                None => count > old(self).rest().len() && final(self).rest().len() == 0,
            },
    {
        let ghost before = self.rest();
        let n: usize = self.data.len();
        let start: usize = if self.pos <= n {
            self.pos
        } else {
            n
        };
        proof {
            assert(before =~= self.data@.skip(start as int));
        }
        if count > n - start {
            self.pos = n;
            return None;
        }
        let mut bytes: Vec<u8> = Vec::new();
        bytes.extend_from_slice(slice_subrange(self.data.as_slice(), start, start + count));
        self.pos = start + count;
        proof {
            assert(bytes@ =~= before.take(count as int));
            assert(self.rest() =~= before.skip(count as int));
        }
        Some(bytes)
    }
}

/// What the result of reading a message is, for what reading the frame comes to.
pub open spec fn reads_as(frame: Frame, r: Result<Option<Value>, FrameError>) -> bool {
    match frame {
        Frame::End => r matches Ok(None),
        Frame::Body(bytes) => match json::parsed_bytes(bytes) {
            Some(message) => r matches Ok(Some(value)) && json::contents(value) == message,
            None => r matches Err(e) && e is Malformed,
        },
        Frame::NotText => r matches Err(e) && e is NotText,
        Frame::MissingLength => r matches Err(e) && e is MissingLength,
        Frame::TooLong => r matches Err(e) && e is TooLong,
        Frame::Truncated => r matches Err(e) && e is Truncated,
    }
}

/// Reads one framed message. `Ok(None)` at the end of the bytes, and only there; an error
/// where the frame cannot be read, after which reading can go on behind it.
pub fn read_message(reader: &mut FrameReader) -> (r: Result<Option<Value>, FrameError>)
    ensures
        r matches Ok(None) <==> old(reader).rest().len() == 0,
        reads_as(read_frame(old(reader).rest()).0, r),
        final(reader).rest() == read_frame(old(reader).rest()).1,
{
    let ghost whole = read_frame(reader.rest());
    let ghost given = reader.rest();
    proof {
        lemma_end_is_clean(given);
    }
    let mut header = FrameHeader::new();
    let mut ended: bool = false;
    while !ended
        invariant
            !ended && header.begun() ==> whole == read_headers(reader.rest(), header.known()),
            !header.begun() ==> !ended && header.known() is None && reader.rest() == given,
            ended ==> whole == read_body(reader.rest(), header.known()),
            given == old(reader).rest(),
            whole == read_frame(given),
            whole.0 is End <==> given.len() == 0,
            header.begun() ==> given.len() > 0,
        decreases reader.rest().len(),
    {
        let ghost before = reader.rest();
        let line = reader.next_line();
        proof {
            lemma_line_len(before);
        }
        if line.len() == 0 {
            proof {
                assert(reader.rest() =~= before);
            }
            return match header.at_end() {
                Ok(()) => Ok(None),
                Err(e) => Err(e),
            };
        }
        match header.accept(line.as_slice()) {
            Ok(done) => {
                ended = done;
            },
            Err(e) => {
                return Err(e);
            },
        }
    }
    let len = match header.body_length() {
        Ok(len) => len,
        Err(e) => {
            return Err(e);
        },
    };
    match reader.next_bytes(len) {
        Some(bytes) => match decode_body(bytes.as_slice()) {
            Ok(value) => Ok(Some(value)),
            Err(e) => Err(e),
        },
        None => {
            proof {
                assert(reader.rest() =~= seq![]);
            }
            Err(FrameError::Truncated)
        },
    }
}

// ---- writing ----

/// What stands before a body of `n` bytes.
pub open spec fn frame_header(n: nat) -> Seq<char> {
    "Content-Length: "@ + chars::decimal(n) + "\r\n\r\n"@
}

/// A body as a frame.
pub open spec fn framed(body: Seq<u8>) -> Seq<u8> {
    encode_utf8(frame_header(body.len())) + body
}

/// The message that answers a request.
pub open spec fn response(id: Json, result: Json) -> Json {
    Json::Object(
        seq![("jsonrpc"@, Json::Text("2.0"@)), ("id"@, id), ("result"@, result)],
    )
}

/// The message that notifies.
pub open spec fn notification(method: Seq<char>, params: Json) -> Json {
    Json::Object(
        seq![
            ("jsonrpc"@, Json::Text("2.0"@)),
            ("method"@, Json::Text(method)),
            ("params"@, params),
        ],
    )
}

/// Appends a body as a frame.
pub fn frame(writer: &mut Vec<u8>, body: &[u8])
    ensures
        final(writer)@ == old(writer)@ + framed(body@),
{
    let mut header = chars::to_chars("Content-Length: ");
    chars::append_decimal(&mut header, body.len() as u64);
    chars::append_str(&mut header, "\r\n\r\n");
    let text = chars::to_text(header.as_slice());
    let ghost start = writer@;
    writer.extend_from_slice(text.as_str().as_bytes());
    writer.extend_from_slice(body);
    proof {
        assert(text@ == frame_header(body@.len()));
        assert(writer@ =~= start + framed(body@));
    }
}

/// Appends a message as a frame.
fn write_frame(writer: &mut Vec<u8>, payload: &Value) -> (r: Result<(), FrameError>)
    ensures
        r is Ok,
        final(writer)@ == old(writer)@ + framed(json::written_bytes(json::contents(*payload))),
        json::settled(json::contents(*payload), json::MAX_DEPTH as nat) ==> json::parsed_bytes(
            json::written_bytes(json::contents(*payload)),
        ) == Some(json::contents(*payload)),
{
    match json::write_bytes(payload) {
        Ok(body) => {
            frame(writer, body.as_slice());
            Ok(())
        },
        Err(e) => Err(FrameError::Malformed(e)),
    }
}

/// Appends the answer to a request, as a frame.
pub fn write_response(writer: &mut Vec<u8>, id: &Value, result: Value) -> (r: Result<
    (),
    FrameError,
>)
    ensures
        r is Ok,
        final(writer)@ == old(writer)@ + framed(
            json::written_bytes(response(json::contents(*id), json::contents(result))),
        ),
        json::settled(json::contents(*id), (json::MAX_DEPTH - 1) as nat) && json::settled(
            json::contents(result),
            (json::MAX_DEPTH - 1) as nat,
        ) ==> json::parsed_bytes(
            json::written_bytes(response(json::contents(*id), json::contents(result))),
        ) == Some(response(json::contents(*id), json::contents(result))),
{
    proof {
        reveal_strlit("jsonrpc");
        reveal_strlit("id");
        reveal_strlit("result");
        assert("jsonrpc"@.len() == 7 && "id"@.len() == 2 && "result"@.len() == 6);
        reveal_with_fuel(json::settled, 2);
    }
    let payload = json::object_of_three(
        ("jsonrpc", json::text("2.0")),
        ("id", json::copy(id)),
        ("result", result),
    );
    write_frame(writer, &payload)
}

/// Appends a notification, as a frame.
pub fn write_notification(writer: &mut Vec<u8>, method: &str, params: Value) -> (r: Result<
    (),
    FrameError,
>)
    ensures
        r is Ok,
        final(writer)@ == old(writer)@ + framed(
            json::written_bytes(notification(method@, json::contents(params))),
        ),
        json::settled(json::contents(params), (json::MAX_DEPTH - 1) as nat) ==> json::parsed_bytes(
            json::written_bytes(notification(method@, json::contents(params))),
        ) == Some(notification(method@, json::contents(params))),
{
    proof {
        reveal_strlit("jsonrpc");
        reveal_strlit("method");
        reveal_strlit("params");
        assert("jsonrpc"@[0] == 'j' && "method"@[0] == 'm' && "params"@[0] == 'p');
        reveal_with_fuel(json::settled, 2);
    }
    let payload = json::object_of_three(
        ("jsonrpc", json::text("2.0")),
        ("method", json::text(method)),
        ("params", params),
    );
    write_frame(writer, &payload)
}

// ---- laws ----

/// The line that declares the length of a body.
pub open spec fn length_line(n: nat) -> Seq<char> {
    "Content-Length: "@ + chars::decimal(n) + "\r\n"@
}

/// The characters of the line that declares a length.
proof fn lemma_length_line(n: nat)
    ensures
        ({
            let line = length_line(n);
            let text = "Content-Length: "@ + chars::decimal(n);
            &&& "Content-Length: "@.len() == 16
            &&& vstd::utf8::is_ascii_chars(line)
            &&& line.last() == '\n'
            &&& forall|j: int| 0 <= j < line.len() - 1 ==> #[trigger] line[j] != '\n'
            &&& without_ending(line) == text
            &&& chars::find_char(text, ':') == 14
        }),
{
    reveal_strlit("Content-Length: ");
    reveal_strlit("\r\n");
    chars::lemma_decimal(n);
    let d = chars::decimal(n);
    let head = "Content-Length: "@;
    let text = head + d;
    let line = length_line(n);
    assert forall|j: int| 0 <= j < line.len() implies '\0' <= #[trigger] line[j] <= '\u{7f}' && (j
        < line.len() - 1 ==> line[j] != '\n') by {
        if j < 16 {
            assert(line[j] == head[j]);
        } else if j < 16 + d.len() {
            assert(line[j] == d[j - 16]);
            assert(chars::is_digit(d[j - 16]));
        } else {
            assert(line[j] == "\r\n"@[j - 16 - d.len()]);
        }
    }
    assert(line.last() == '\n');
    assert(line.drop_last().last() == '\r');
    assert(line.drop_last().drop_last() =~= text);
    assert(chars::is_digit(d[d.len() - 1]));
    assert(text.last() == d[d.len() - 1]);
    reveal_with_fuel(without_ending, 3);
    assert forall|j: int| 0 <= j < 14 implies text[j] != ':' by {
        assert(text[j] == head[j]);
    }
    assert(text[14] == head[14]);
    chars::lemma_find_char_is(text, ':', 14);
}

/// The line that declares a length declares that length.
proof fn lemma_length_is_declared(n: nat, length: Option<nat>)
    requires
        n <= usize::MAX,
    ensures
        after_header(length, length_line(n)) == Some(Some(n)),
{
    lemma_length_line(n);
    chars::lemma_decimal(n);
    reveal_strlit("Content-Length: ");
    reveal_strlit("content-length");
    let d = chars::decimal(n);
    let head = "Content-Length: "@;
    let text = head + d;
    let name = text.take(14);
    let value = text.skip(15);
    assert(name[0] == 'C' && name[13] == 'h');
    chars::lemma_trim_start_is(name, 0);
    assert(name.skip(0) =~= name);
    chars::lemma_trim_end_is(name, 14);
    assert(name.take(14) =~= name);
    let expect = "content-length"@;
    assert forall|j: int| 0 <= j < 14 implies small(#[trigger] name[j]) == small(expect[j]) by {
        assert(name[j] == head[j]);
    }
    assert(value[0] == ' ');
    assert forall|j: int| 1 <= j < value.len() implies value[j] == d[j - 1] by {}
    assert(chars::is_digit(d[0]));
    assert(chars::is_digit(d[d.len() - 1]));
    chars::lemma_trim_start_is(value, 1);
    assert(value.skip(1) =~= d);
    chars::lemma_trim_end_is(d, d.len() as int);
    assert(d.take(d.len() as int) =~= d);
}

/// A frame is read back: reading what [`frame`] wrote gives the body, and goes on right
/// behind it, so that frames can follow one another.
pub proof fn lemma_frame_reads_back(body: Seq<u8>, rest: Seq<u8>)
    requires
        body.len() <= MAX_FRAME_BYTES,
    ensures
        read_frame(framed(body) + rest) == (Frame::Body(body), rest),
{
    broadcast use vstd::utf8::encode_utf8_valid_utf8;
    broadcast use vstd::utf8::encode_utf8_decode_utf8;

    let n = body.len();
    let line = length_line(n);
    let blank = "\r\n"@;
    reveal_strlit("\r\n");
    reveal_strlit("\r\n\r\n");
    assert(frame_header(n) =~= line + blank);
    chars::lemma_encode_add(line, blank);
    let a = encode_utf8(line);
    let b = encode_utf8(blank);
    let data = framed(body) + rest;
    assert(data =~= a + (b + (body + rest)));
    lemma_length_line(n);
    vstd::utf8::is_ascii_chars_encode_utf8(line);
    assert(vstd::utf8::is_ascii_chars(blank));
    vstd::utf8::is_ascii_chars_encode_utf8(blank);
    assert(a[a.len() - 1] == line[line.len() - 1] as u8);
    assert forall|j: int| 0 <= j < a.len() - 1 implies data[j] != 10 by {
        assert(data[j] == a[j]);
        assert(a[j] == line[j] as u8);
        assert(line[j] != '\n');
    }
    lemma_line_len_is(data, a.len() as int);
    assert(data.take(a.len() as int) =~= a);
    let next = data.skip(a.len() as int);
    assert(next =~= b + (body + rest));
    lemma_length_is_declared(n, None);
    assert(b[0] == blank[0] as u8 && b[1] == blank[1] as u8);
    assert(next[0] == 13 && next[1] == 10);
    lemma_line_len_is(next, 2);
    assert(next.take(2) =~= b);
    assert(next.skip(2) =~= body + rest);
    assert(without_ending(blank).len() == 0) by {
        reveal_with_fuel(without_ending, 3);
        assert(blank.last() == '\n');
        assert(blank.drop_last().last() == '\r');
        assert(blank.drop_last().drop_last() =~= seq![]);
    }
    assert((body + rest).take(n as int) =~= body);
    assert((body + rest).skip(n as int) =~= rest);
    reveal_with_fuel(read_headers, 3);
}

/// The frames of the bodies, one after the other.
pub open spec fn framed_all(bodies: Seq<Seq<u8>>) -> Seq<u8>
    decreases bodies.len(),
{
    if bodies.len() == 0 {
        seq![]
    } else {
        framed(bodies[0]) + framed_all(bodies.skip(1))
    }
}

/// Reading the data frame by frame gives these bodies, and leaves the rest.
pub open spec fn reads_frames(data: Seq<u8>, bodies: Seq<Seq<u8>>, rest: Seq<u8>) -> bool
    decreases bodies.len(),
{
    if bodies.len() == 0 {
        data == rest
    } else {
        let (frame, left) = read_frame(data);
        frame == Frame::Body(bodies[0]) && reads_frames(left, bodies.skip(1), rest)
    }
}

/// Frames that follow each other are read one after the other: a reader takes no byte of
/// the next one.
pub proof fn lemma_frames_read_back(bodies: Seq<Seq<u8>>, rest: Seq<u8>)
    requires
        forall|i: int|
            0 <= i < bodies.len() ==> (#[trigger] bodies[i]).len() <= MAX_FRAME_BYTES,
    ensures
        reads_frames(framed_all(bodies) + rest, bodies, rest),
    decreases bodies.len(),
{
    let data = framed_all(bodies) + rest;
    if bodies.len() == 0 {
        assert(data =~= rest);
    } else {
        let more = bodies.skip(1);
        assert(bodies[0].len() <= MAX_FRAME_BYTES);
        assert forall|i: int| 0 <= i < more.len() implies (#[trigger] more[i]).len()
            <= MAX_FRAME_BYTES by {
            assert(more[i] == bodies[i + 1]);
        }
        lemma_frame_reads_back(bodies[0], framed_all(more) + rest);
        assert(data =~= framed(bodies[0]) + (framed_all(more) + rest));
        lemma_frames_read_back(more, rest);
    }
}

/// No body that is over the limit is ever read, whatever the headers say.
pub proof fn lemma_body_is_bounded(data: Seq<u8>)
    ensures
        match read_frame(data).0 {
            Frame::Body(body) => body.len() <= MAX_FRAME_BYTES,
            _ => true,
        },
        read_frame(data).1.len() <= data.len(),
{
    lemma_headers_are_bounded(data, None);
}

proof fn lemma_headers_are_bounded(data: Seq<u8>, length: Option<nat>)
    ensures
        match read_headers(data, length).0 {
            Frame::Body(body) => body.len() <= MAX_FRAME_BYTES,
            _ => true,
        },
        read_headers(data, length).1.len() <= data.len(),
    decreases data.len(),
{
    lemma_line_len(data);
    let k = line_len(data) as int;
    if data.len() > 0 && valid_utf8(data.take(k)) {
        match after_header(length, decode_utf8(data.take(k))) {
            Some(known) => {
                lemma_headers_are_bounded(data.skip(k), known);
            },
            None => {},
        }
    }
}

/// Reading ends cleanly exactly where there is no byte of a frame.
pub proof fn lemma_end_is_clean(data: Seq<u8>)
    ensures
        read_frame(data).0 is End <==> data.len() == 0,
{
    lemma_headers_do_not_end(data, None);
}

proof fn lemma_headers_do_not_end(data: Seq<u8>, length: Option<nat>)
    ensures
        !(read_headers(data, length).0 is End),
    decreases data.len(),
{
    lemma_line_len(data);
    let k = line_len(data) as int;
    if data.len() > 0 && valid_utf8(data.take(k)) {
        match after_header(length, decode_utf8(data.take(k))) {
            Some(known) => {
                lemma_headers_do_not_end(data.skip(k), known);
            },
            None => {},
        }
    }
}

} // verus!

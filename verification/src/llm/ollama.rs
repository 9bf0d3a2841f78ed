//! The wire format spoken with a local Ollama daemon: request texts, HTTP
//! response headers, chunked transfer decoding, and the streaming NDJSON
//! replies of an inference.

use vstd::prelude::*;
use crate::llm::tokenizer::{split_words, words};
use crate::text::{
    chars_of, find, find_chars, lower_chars_of, parse_usize, parsed_usize, push_char, push_decimal,
    string_of, sub_chars, trim_range, trimmed, ascii_lower, dec_str,
};

verus! {

/// Address of the local Ollama daemon.
pub const OLLAMA_HOST: &'static str = "127.0.0.1:11434";

/// One locally installed model, as listed by the daemon.
#[derive(Debug, Clone)]
pub struct OllamaModel {
    pub name: String,
    pub size_bytes: u64,
    pub family: String,
    pub parameter_size: String,
}

/// Event stream of an inference.
#[derive(Debug, Clone, PartialEq, Eq)]
pub enum OllamaEvent {
    /// One decoded token string from the model.
    Token(String),
    /// Inference finished successfully.
    Done,
    /// Fatal error; inference cannot continue.
    Error(String),
}

/// The status code of an HTTP status line: its second word read as a u16,
/// or 0.
pub open spec fn status_of(line: Seq<char>) -> u16 {
    let ws = words(line);
    if ws.len() >= 2 {
        match parsed_usize(ws[1]) {
            Some(v) => if v <= u16::MAX { v as u16 } else { 0 },
            None => 0,
        }
    } else {
        0
    }
}

/// The status code of an HTTP status line (0 when it has none).
pub fn status_of_line(line: &str) -> (r: u16)
    ensures
        r == status_of(line@),
{
    let cs = chars_of(line);
    let ws = split_words(&cs);
    if ws.len() < 2 {
        return 0;
    }
    proof {
        assert(ws@[1]@.subrange(0, ws@[1]@.len() as int) =~= ws@[1]@);
    }
    match parse_usize(&ws[1], 0, ws[1].len()) {
        Some(v) => if v <= 65535 { v as u16 } else { 0 },
        None => 0,
    }
}

/// Whether a header line announces chunked transfer encoding.
pub open spec fn is_chunked_header(line: Seq<char>) -> bool {
    find(ascii_lower(line), "transfer-encoding: chunked"@) is Some
}

/// Whether a header line is the blank line that ends the headers.
pub open spec fn is_blank_line(line: Seq<char>) -> bool {
    trimmed(line).len() == 0
}

/// Whether a header line is the blank line that ends the headers.
pub fn is_header_end(line: &str) -> (r: bool)
    ensures
        r == is_blank_line(line@),
{
    let cs = chars_of(line);
    let t = trim_range(&cs, 0, cs.len());
    proof {
        assert(cs@.subrange(0, cs@.len() as int) =~= cs@);
    }
    t.len() == 0
}

/// Status code and chunked flag of a response, from its status line and
/// the header lines that follow it (up to the blank line).
pub fn parse_headers(status_line: &str, headers: &[String]) -> (r: (u16, bool))
    ensures
        r.0 == status_of(status_line@),
        r.1 == exists|i: int| 0 <= i < headers@.len() && #[trigger] is_chunked_header(headers@[i]@),
{
    let status = status_of_line(status_line);
    let pat = chars_of("transfer-encoding: chunked");
    let mut chunked = false;
    let mut i: usize = 0;
    while i < headers.len()
        invariant
            i <= headers@.len(),
            pat@ == "transfer-encoding: chunked"@,
            chunked == exists|k: int| 0 <= k < i && #[trigger] is_chunked_header(headers@[k]@),
        decreases headers@.len() - i,
    {
        let lower = lower_chars_of(headers[i].as_str());
        let hit = find_chars(&lower, &pat, 0).is_some();
        proof {
            assert(hit == is_chunked_header(headers@[i as int]@));
            if chunked && !hit {
                let k = choose|k: int| 0 <= k < i && #[trigger] is_chunked_header(headers@[k]@);
                assert(is_chunked_header(headers@[k]@));
            }
        }
        if hit {
            chunked = true;
        }
        i = i + 1;
    }
    (status, chunked)
}

/// Value of a hexadecimal digit.
pub open spec fn hex_val(c: char) -> Option<nat> {
    if '0' <= c <= '9' {
        Some((c as u32 - 48) as nat)
    } else if 'a' <= c <= 'f' {
        Some((c as u32 - 87) as nat)
    } else if 'A' <= c <= 'F' {
        Some((c as u32 - 55) as nat)
    } else {
        None
    }
}

/// Value of a run of hexadecimal digits.
pub open spec fn hex_value(s: Seq<char>) -> nat
    decreases s.len(),
{
    if s.len() == 0 {
        0
    } else {
        hex_value(s.drop_last()) * 16 + match hex_val(s.last()) {
            Some(v) => v,
            None => 0,
        }
    }
}

/// What `usize::from_str_radix(s, 16)` accepts: an optional `+`, then one
/// or more hexadecimal digits whose value fits in `usize`.
pub open spec fn parsed_hex(s: Seq<char>) -> Option<nat> {
    let d = crate::text::unsigned_digits(s);
    if d.len() > 0 && (forall|i: int| 0 <= i < d.len() ==> #[trigger] hex_val(d[i]) is Some) && hex_value(d)
        <= usize::MAX {
        Some(hex_value(d))
    } else {
        None
    }
}

/// The text before the first `;`.
pub open spec fn before_semicolon(s: Seq<char>) -> Seq<char> {
    match find(s, seq![';']) {
        Some(i) => s.take(i),
        None => s,
    }
}

/// Size of the next chunk announced by a chunk-size line (0 when it cannot
/// be read, which ends the body).
pub open spec fn chunk_size_of(line: Seq<char>) -> nat {
    match parsed_hex(before_semicolon(trimmed(line))) {
        Some(v) => v,
        None => 0,
    }
}

proof fn lemma_hex_value_grows(s: Seq<char>, k: int)
    requires
        0 <= k <= s.len(),
        forall|i: int| 0 <= i < s.len() ==> #[trigger] hex_val(s[i]) is Some,
    ensures
        hex_value(s.take(k)) <= hex_value(s),
    decreases s.len(),
{
    if k < s.len() {
        assert(s.drop_last().take(k) =~= s.take(k));
        assert forall|i: int| 0 <= i < s.drop_last().len() implies #[trigger] hex_val(s.drop_last()[i]) is Some by {
            assert(s.drop_last()[i] == s[i]);
        }
        lemma_hex_value_grows(s.drop_last(), k);
    } else {
        assert(s.take(k) =~= s);
    }
}

fn hex_digit(c: char) -> (r: Option<usize>)
    ensures
        match hex_val(c) {
            Some(v) => r == Some(v as usize),
            None => r is None,
        },
{
    if '0' <= c && c <= '9' {
        Some((c as u32 - 48) as usize)
    } else if 'a' <= c && c <= 'f' {
        Some((c as u32 - 87) as usize)
    } else if 'A' <= c && c <= 'F' {
        Some((c as u32 - 55) as usize)
    } else {
        None
    }
}

/// Parse `s` as `usize::from_str_radix(s, 16)` does.
fn parse_hex(s: &Vec<char>) -> (r: Option<usize>)
    ensures
        match parsed_hex(s@) {
            Some(v) => r == Some(v as usize),
            None => r is None,
        },
{
    let mut a: usize = 0;
    if s.len() > 0 && s[0] == '+' {
        a = 1;
    }
    let ghost d = crate::text::unsigned_digits(s@);
    proof {
        assert(d =~= s@.subrange(a as int, s@.len() as int));
    }
    if a == s.len() {
        return None;
    }
    let mut v: usize = 0;
    let mut i = a;
    while i < s.len()
        invariant
            a <= i <= s@.len(),
            d == s@.subrange(a as int, s@.len() as int),
            d == crate::text::unsigned_digits(s@),
            forall|m: int| 0 <= m < i - a ==> #[trigger] hex_val(d[m]) is Some,
            v == hex_value(d.take(i - a)),
        decreases s@.len() - i,
    {
        let dv = match hex_digit(s[i]) {
            Some(x) => x,
            None => {
                proof {
                    assert(hex_val(d[i - a]) is None);
                }
                return None;
            },
        };
        proof {
            assert(d.take(i - a + 1).drop_last() =~= d.take(i - a));
            assert(d.take(i - a + 1).last() == s@[i as int]);
        }
        if v > (usize::MAX - dv) / 16 {
            proof {
                assert(hex_value(d.take(i - a + 1)) > usize::MAX);
                if forall|m: int| 0 <= m < d.len() ==> #[trigger] hex_val(d[m]) is Some {
                    lemma_hex_value_grows(d, i - a + 1);
                }
            }
            return None;
        }
        v = v * 16 + dv;
        i = i + 1;
    }
    proof {
        assert(d.take(d.len() as int) =~= d);
    }
    Some(v)
}

/// Size of the next chunk announced by a chunk-size line.
pub fn chunk_size(line: &str) -> (r: usize)
    ensures
        r == chunk_size_of(line@),
{
    let cs = chars_of(line);
    let t = trim_range(&cs, 0, cs.len());
    proof {
        assert(cs@.subrange(0, cs@.len() as int) =~= cs@);
    }
    let semi: Vec<char> = {
        let mut v: Vec<char> = Vec::new();
        v.push(';');
        v
    };
    proof {
        assert(semi@ =~= seq![';']);
    }
    let head = match find_chars(&t, &semi, 0) {
        Some(k) => sub_chars(&t, 0, k),
        None => t,
    };
    proof {
        assert(head@ == before_semicolon(trimmed(line@)));
    }
    match parse_hex(&head) {
        Some(v) => v,
        None => 0,
    }
}

/// End of the line starting at `p`: just past its `\n`, or the end of the
/// bytes.
pub open spec fn line_end(b: Seq<u8>, p: nat) -> nat
    decreases b.len() - p,
{
    if p >= b.len() {
        b.len()
    } else if b[p as int] == 10 {
        p + 1
    } else {
        line_end(b, p + 1)
    }
}

proof fn lemma_line_end(b: Seq<u8>, p: nat)
    ensures
        p <= b.len() ==> p <= line_end(b, p) <= b.len(),
        p < b.len() ==> p < line_end(b, p),
        p > b.len() ==> line_end(b, p) == b.len(),
    decreases b.len() - p,
{
    if p < b.len() && b[p as int] != 10 {
        lemma_line_end(b, p + 1);
    }
}

/// The body bytes of a chunked-encoded response read from `p`: size lines
/// (hex, up to a `;`) each followed by that many bytes and a line break; a
/// size of 0 (or an unreadable one, or the end of input) ends the body. A
/// size line that is not UTF-8, or a chunk cut short, is an error.
pub open spec fn dechunk_from(b: Seq<u8>, p: nat) -> Option<Seq<u8>>
    decreases b.len() - p,
{
    if p >= b.len() {
        Some(Seq::empty())
    } else {
        let e = line_end(b, p);
        let line = b.subrange(p as int, e as int);
        if e <= p || !vstd::utf8::valid_utf8(line) {
            None
        } else {
            let size = chunk_size_of(vstd::utf8::decode_utf8(line));
            if size == 0 {
                Some(Seq::empty())
            } else if b.len() < e || b.len() - e < size {
                None
            } else {
                let q = e + size;
                let q2: nat = if b.len() - q < 2 { b.len() } else { q + 2 };
                match dechunk_from(b, q2) {
                    None => None,
                    Some(rest) => Some(b.subrange(e as int, q as int) + rest),
                }
            }
        }
    }
}

/// Why reading a response failed.
#[derive(Debug, Clone, Copy, PartialEq, Eq, Structural)]
pub enum WireError {
    /// A header or size line is not UTF-8.
    InvalidText,
    /// The body ended inside a chunk.
    Truncated,
}

fn dechunk_bytes(b: &[u8], p: usize) -> (r: Result<Vec<u8>, WireError>)
    requires
        p <= b@.len(),
    ensures
        match dechunk_from(b@, p as nat) {
            Some(v) => r matches Ok(x) && x@ == v,
            None => r is Err,
        },
    decreases b@.len() - p,
{
    if p >= b.len() {
        return Ok(Vec::new());
    }
    let mut e = p;
    while e < b.len() && b[e] != 10u8
        invariant
            p <= e <= b@.len(),
            line_end(b@, p as nat) == line_end(b@, e as nat),
        decreases b@.len() - e,
    {
        e = e + 1;
    }
    if e < b.len() {
        e = e + 1;
    }
    proof {
        lemma_line_end(b@, p as nat);
    }
    let text = match crate::text::utf8_text(&b[p..e]) {
        Some(t) => t,
        None => return Err(WireError::InvalidText),
    };
    let size = chunk_size(text);
    if size == 0 {
        return Ok(Vec::new());
    }
    if b.len() - e < size {
        return Err(WireError::Truncated);
    }
    let q = e + size;
    let q2 = if b.len() - q < 2 { b.len() } else { q + 2 };
    let rest = dechunk_bytes(b, q2)?;
    let mut out: Vec<u8> = Vec::new();
    let mut i = e;
    while i < q
        invariant
            e <= i <= q,
            q <= b@.len(),
            out@ == b@.subrange(e as int, i as int),
        decreases q - i,
    {
        out.push(b[i]);
        proof {
            assert(b@.subrange(e as int, i + 1) =~= b@.subrange(e as int, i as int).push(b@[i as int]));
        }
        i = i + 1;
    }
    let ghost front = out@;
    let mut j: usize = 0;
    while j < rest.len()
        invariant
            j <= rest@.len(),
            out@ == front + rest@.take(j as int),
        decreases rest@.len() - j,
    {
        out.push(rest[j]);
        proof {
            assert(front + rest@.take(j + 1) =~= (front + rest@.take(j as int)).push(rest@[j as int]));
        }
        j = j + 1;
    }
    proof {
        assert(rest@.take(rest@.len() as int) =~= rest@);
    }
    Ok(out)
}

/// The text of a chunked-encoded response body (decoded lossily from UTF-8).
pub fn read_chunked(body: &[u8]) -> (r: Result<String, WireError>)
    ensures
        match dechunk_from(body@, 0) {
            Some(v) => r matches Ok(s) && s@ == crate::text::utf8_lossy(v),
            None => r is Err,
        },
{
    let bytes = dechunk_bytes(body, 0)?;
    Ok(crate::text::lossy_text(bytes.as_slice()))
}

/// Whether any header line announces a chunked body.
pub open spec fn chunked_in(headers: Seq<String>) -> bool {
    exists|i: int| 0 <= i < headers.len() && #[trigger] is_chunked_header(headers[i]@)
}

/// The first 300 characters of a text (all of it when shorter).
pub open spec fn excerpt(s: Seq<char>) -> Seq<char> {
    if s.len() <= 300 {
        s
    } else {
        s.take(300)
    }
}

/// Why a daemon response could not be read.
#[derive(Debug, Clone, PartialEq, Eq)]
pub enum ResponseError {
    /// The daemon answered with another status than 200; carries the status
    /// and the first 300 characters of the body.
    Status(u16, String),
    /// The body could not be decoded.
    Wire(WireError),
}

impl ResponseError {
    /// Human-readable description of the failure.
    pub fn message(&self) -> (r: String)
        ensures
            r@ == match self {
                ResponseError::Status(code, text) => "Ollama HTTP "@ + dec_str(*code as nat) + ": "@ + text@,
                ResponseError::Wire(WireError::InvalidText) => "stream did not contain valid UTF-8"@,
                ResponseError::Wire(WireError::Truncated) => "failed to fill whole buffer"@,
            },
    {
        match self {
            ResponseError::Status(code, text) => {
                let mut s = String::from_str("Ollama HTTP ");
                push_decimal(&mut s, *code as u64);
                s.append(": ");
                s.append(text.as_str());
                s
            },
            ResponseError::Wire(WireError::InvalidText) => String::from_str("stream did not contain valid UTF-8"),
            ResponseError::Wire(WireError::Truncated) => String::from_str("failed to fill whole buffer"),
        }
    }
}

/// The decoded body of a response, from its status line, its header lines
/// and the bytes after the blank line. A status other than 200 is an error
/// carrying the start of the body; a chunked body is decoded; any other body
/// must be UTF-8.
pub fn drain_response(status_line: &str, headers: &[String], body: &[u8]) -> (r: Result<String, ResponseError>)
    ensures
        status_of(status_line@) != 200 ==> match r {
            Err(ResponseError::Status(code, text)) => code == status_of(status_line@) && vstd::utf8::valid_utf8(
                body@,
            ) && text@ == excerpt(vstd::utf8::decode_utf8(body@)),
            Err(ResponseError::Wire(WireError::InvalidText)) => !vstd::utf8::valid_utf8(body@),
            _ => false,
        },
        status_of(status_line@) == 200 && chunked_in(headers@) ==> match dechunk_from(body@, 0) {
            Some(v) => r matches Ok(s) && s@ == crate::text::utf8_lossy(v),
            None => r matches Err(ResponseError::Wire(_)),
        },
        status_of(status_line@) == 200 && !chunked_in(headers@) ==> if vstd::utf8::valid_utf8(body@) {
            r matches Ok(s) && s@ == vstd::utf8::decode_utf8(body@)
        } else {
            r == Err::<String, ResponseError>(ResponseError::Wire(WireError::InvalidText))
        },
{
    let (status, chunked) = parse_headers(status_line, headers);
    if status != 200 {
        let text = match crate::text::utf8_text(body) {
            Some(t) => t,
            None => return Err(ResponseError::Wire(WireError::InvalidText)),
        };
        let cs = chars_of(text);
        let n = if cs.len() <= 300 { cs.len() } else { 300 };
        let head = sub_chars(&cs, 0, n);
        proof {
            assert(cs@.subrange(0, n as int) =~= excerpt(cs@));
        }
        return Err(ResponseError::Status(status, string_of(&head)));
    }
    if chunked {
        match read_chunked(body) {
            Ok(s) => Ok(s),
            Err(e) => Err(ResponseError::Wire(e)),
        }
    } else {
        match crate::text::utf8_text(body) {
            Some(t) => Ok(String::from_str(t)),
            None => Err(ResponseError::Wire(WireError::InvalidText)),
        }
    }
}

/// Lines completed so far and the line in progress, splitting at `\n`.
pub open spec fn split_nl(s: Seq<char>) -> (Seq<Seq<char>>, Seq<char>)
    decreases s.len(),
{
    if s.len() == 0 {
        (Seq::empty(), Seq::empty())
    } else {
        let (done, cur) = split_nl(s.drop_last());
        if s.last() == '\n' {
            (done.push(cur), Seq::empty())
        } else {
            (done, cur.push(s.last()))
        }
    }
}

/// Whether the last non-white-space character is `}`.
pub open spec fn ends_with_brace(s: Seq<char>) -> bool {
    let t = trimmed(s);
    t.len() > 0 && t.last() == '}'
}

/// Splitting the carried fragment plus a new chunk into NDJSON lines: every
/// complete line is handed out trimmed; the last piece is handed out too
/// when it already ends with `}`, else it is carried into the next chunk.
pub open spec fn chunk_lines(carry: Seq<char>, text: Seq<char>) -> (Seq<Seq<char>>, Seq<char>) {
    let (done, last) = split_nl(carry + text);
    let out = done.map_values(|p: Seq<char>| trimmed(p));
    if !ends_with_brace(last) {
        (out, last)
    } else {
        (out.push(trimmed(last)), Seq::empty())
    }
}

/// Split `carry` + `text` into the lines to dispatch and the new carry.
pub fn split_chunk(carry: &str, text: &str) -> (r: (Vec<String>, String))
    ensures
        r.0@.map_values(|s: String| s@) == chunk_lines(carry@, text@).0,
        r.1@ == chunk_lines(carry@, text@).1,
{
    let mut all = chars_of(carry);
    let tc = chars_of(text);
    let mut k: usize = 0;
    while k < tc.len()
        invariant
            k <= tc@.len(),
            all@ == carry@ + tc@.take(k as int),
        decreases tc@.len() - k,
    {
        all.push(tc[k]);
        proof {
            assert(carry@ + tc@.take(k + 1) =~= (carry@ + tc@.take(k as int)).push(tc@[k as int]));
        }
        k = k + 1;
    }
    proof {
        assert(tc@.take(tc@.len() as int) =~= tc@);
    }
    let ghost s = all@;
    let mut out: Vec<String> = Vec::new();
    let mut cur: Vec<char> = Vec::new();
    let mut i: usize = 0;
    while i < all.len()
        invariant
            i <= all@.len(),
            s == all@,
            split_nl(s.take(i as int)).1 == cur@,
            out@.map_values(|x: String| x@) == split_nl(s.take(i as int)).0.map_values(|p: Seq<char>| trimmed(p)),
        decreases all@.len() - i,
    {
        let c = all[i];
        proof {
            assert(s.take(i + 1).drop_last() =~= s.take(i as int));
        }
        if c == '\n' {
            let t = trim_range(&cur, 0, cur.len());
            proof {
                assert(cur@.subrange(0, cur@.len() as int) =~= cur@);
            }
            let ghost before = out@;
            out.push(string_of(&t));
            proof {
                assert(out@.map_values(|x: String| x@) =~= before.map_values(|x: String| x@).push(trimmed(cur@)));
                assert(split_nl(s.take(i + 1)).0.map_values(|p: Seq<char>| trimmed(p)) =~= split_nl(s.take(i as int)).0.map_values(|p: Seq<char>| trimmed(p)).push(trimmed(cur@)));
            }
            cur = Vec::new();
        } else {
            cur.push(c);
        }
        i = i + 1;
    }
    proof {
        assert(s.take(s.len() as int) =~= s);
    }
    let t = trim_range(&cur, 0, cur.len());
    proof {
        assert(cur@.subrange(0, cur@.len() as int) =~= cur@);
    }
    if t.len() > 0 && t[t.len() - 1] == '}' {
        let ghost before = out@;
        out.push(string_of(&t));
        proof {
            assert(out@.map_values(|x: String| x@) =~= before.map_values(|x: String| x@).push(trimmed(cur@)));
        }
        (out, String::new())
    } else {
        (out, string_of(&cur))
    }
}

/// What the daemon's streaming reply line says: `None` when the line is not
/// JSON, else its `response` member when that is a string and its `done`
/// member when that is a boolean.
pub uninterp spec fn reply_fields(line: Seq<char>) -> Option<(Option<Seq<char>>, Option<bool>)>;

pub open spec fn reply_view(r: Option<(Option<String>, Option<bool>)>) -> Option<(Option<Seq<char>>, Option<bool>)> {
    match r {
        Some((Some(s), d)) => Some((Some(s@), d)),
        Some((None, d)) => Some((None, d)),
        None => None,
    }
}

/// `serde_json::from_str::<Value>` of a reply line, reading its `response`
/// member as a string and its `done` member as a boolean.
#[verifier::external_body]
fn parse_reply(line: &str) -> (r: Option<(Option<String>, Option<bool>)>)
    ensures
        reply_view(r) == reply_fields(line@),
{
    match serde_json::from_str::<serde_json::Value>(line) {
        Ok(obj) => Some((obj["response"].as_str().map(|s| s.to_owned()), obj["done"].as_bool())),
        Err(_) => None,
    }
}

/// Plain-value form of an event.
pub enum EventView {
    Token(Seq<char>),
    Done,
    Error(Seq<char>),
}

pub open spec fn event_view(e: OllamaEvent) -> EventView {
    match e {
        OllamaEvent::Token(s) => EventView::Token(s@),
        OllamaEvent::Done => EventView::Done,
        OllamaEvent::Error(s) => EventView::Error(s@),
    }
}

/// The events one reply line produces: a token for a non-empty `response`,
/// then `Done` when `done` is true. Empty and non-JSON lines produce none.
pub open spec fn line_events(line: Seq<char>) -> Seq<EventView> {
    if line.len() == 0 {
        Seq::empty()
    } else {
        match reply_fields(line) {
            None => Seq::empty(),
            Some((resp, done)) => {
                let toks = match resp {
                    Some(t) => if t.len() > 0 { seq![EventView::Token(t)] } else { Seq::empty() },
                    None => Seq::empty(),
                };
                if done == Some(true) { toks.push(EventView::Done) } else { toks }
            },
        }
    }
}

/// The events of one reply line of a streaming inference.
pub fn dispatch_ndjson(line: &str) -> (r: Vec<OllamaEvent>)
    ensures
        r@.map_values(|e: OllamaEvent| event_view(e)) == line_events(line@),
{
    let mut out: Vec<OllamaEvent> = Vec::new();
    let cs = chars_of(line);
    if cs.len() == 0 {
        proof {
            assert(out@.map_values(|e: OllamaEvent| event_view(e)) =~= Seq::<EventView>::empty());
        }
        return out;
    }
    match parse_reply(line) {
        None => {
            proof {
                assert(out@.map_values(|e: OllamaEvent| event_view(e)) =~= Seq::<EventView>::empty());
            }
        },
        Some((resp, done)) => {
            match resp {
                Some(t) => {
                    let tc = chars_of(t.as_str());
                    if tc.len() > 0 {
                        out.push(OllamaEvent::Token(t));
                    }
                },
                None => {},
            }
            if let Some(true) = done {
                out.push(OllamaEvent::Done);
            }
            proof {
                assert(out@.map_values(|e: OllamaEvent| event_view(e)) =~= line_events(line@));
            }
        },
    }
    out
}

/// One entry of the daemon's model listing: name, size, family and
/// parameter size, each when present with the expected JSON type.
pub type TagFields = (Option<String>, Option<u64>, Option<String>, Option<String>);

/// The events of a sequence of reply lines, in order.
pub open spec fn events_of_lines(lines: Seq<Seq<char>>) -> Seq<EventView>
    decreases lines.len(),
{
    if lines.len() == 0 {
        Seq::empty()
    } else {
        events_of_lines(lines.drop_last()) + line_events(lines.last())
    }
}

fn append_events(out: &mut Vec<OllamaEvent>, more: Vec<OllamaEvent>)
    ensures
        final(out)@.map_values(|e: OllamaEvent| event_view(e)) == old(out)@.map_values(|e: OllamaEvent| event_view(e))
            + more@.map_values(|e: OllamaEvent| event_view(e)),
{
    let ghost start = out@;
    let mut more = more;
    let ghost extra = more@;
    out.append(&mut more);
    proof {
        assert(out@.map_values(|e: OllamaEvent| event_view(e)) =~= start.map_values(|e: OllamaEvent| event_view(e))
            + extra.map_values(|e: OllamaEvent| event_view(e)));
    }
}

/// The events of the lines of a plain (not chunked) streaming reply; each
/// line is trimmed before it is read.
pub fn stream_plain_ndjson(lines: &[String]) -> (r: Vec<OllamaEvent>)
    ensures
        r@.map_values(|e: OllamaEvent| event_view(e)) == events_of_lines(
            lines@.map_values(|l: String| trimmed(l@)),
        ),
{
    let ghost ls = lines@.map_values(|l: String| trimmed(l@));
    let mut out: Vec<OllamaEvent> = Vec::new();
    let mut i: usize = 0;
    while i < lines.len()
        invariant
            i <= lines@.len(),
            ls == lines@.map_values(|l: String| trimmed(l@)),
            out@.map_values(|e: OllamaEvent| event_view(e)) == events_of_lines(ls.take(i as int)),
        decreases lines@.len() - i,
    {
        let cs = chars_of(lines[i].as_str());
        let t = trim_range(&cs, 0, cs.len());
        proof {
            assert(cs@.subrange(0, cs@.len() as int) =~= cs@);
            assert(ls.take(i + 1).drop_last() =~= ls.take(i as int));
        }
        let line = string_of(&t);
        let evs = dispatch_ndjson(line.as_str());
        append_events(&mut out, evs);
        i = i + 1;
    }
    proof {
        assert(ls.take(ls.len() as int) =~= ls);
    }
    out
}

/// One chunk of a chunked streaming reply: the events of the lines it
/// completes (after the fragment carried from earlier chunks) and the new
/// carried fragment. The chunk's bytes are decoded lossily from UTF-8.
pub fn stream_chunk(carry: &str, chunk: &[u8]) -> (r: (Vec<OllamaEvent>, String))
    ensures
        ({
            let (lines, rest) = chunk_lines(carry@, crate::text::utf8_lossy(chunk@));
            &&& r.0@.map_values(|e: OllamaEvent| event_view(e)) == events_of_lines(lines)
            &&& r.1@ == rest
        }),
{
    let text = crate::text::lossy_text(chunk);
    let (lines, rest) = split_chunk(carry, text.as_str());
    let ghost ls = lines@.map_values(|s: String| s@);
    let mut out: Vec<OllamaEvent> = Vec::new();
    let mut i: usize = 0;
    while i < lines.len()
        invariant
            i <= lines@.len(),
            ls == lines@.map_values(|s: String| s@),
            out@.map_values(|e: OllamaEvent| event_view(e)) == events_of_lines(ls.take(i as int)),
        decreases lines@.len() - i,
    {
        proof {
            assert(ls.take(i + 1).drop_last() =~= ls.take(i as int));
        }
        let evs = dispatch_ndjson(lines[i].as_str());
        append_events(&mut out, evs);
        i = i + 1;
    }
    proof {
        assert(ls.take(ls.len() as int) =~= ls);
    }
    (out, rest)
}

/// The events of the fragment left over when a chunked reply ends.
pub fn stream_end(carry: &str) -> (r: Vec<OllamaEvent>)
    ensures
        r@.map_values(|e: OllamaEvent| event_view(e)) == line_events(trimmed(carry@)),
{
    let cs = chars_of(carry);
    let t = trim_range(&cs, 0, cs.len());
    proof {
        assert(cs@.subrange(0, cs@.len() as int) =~= cs@);
    }
    dispatch_ndjson(string_of(&t).as_str())
}

/// Events and carried fragment after the first chunks of a chunked reply.
pub open spec fn fold_chunks(chunks: Seq<Seq<u8>>) -> (Seq<EventView>, Seq<char>)
    decreases chunks.len(),
{
    if chunks.len() == 0 {
        (Seq::empty(), Seq::empty())
    } else {
        let (events, carry) = fold_chunks(chunks.drop_last());
        let (lines, rest) = chunk_lines(carry, crate::text::utf8_lossy(chunks.last()));
        (events + events_of_lines(lines), rest)
    }
}

/// All events of a chunked streaming reply, given its chunks in order.
pub fn stream_chunked_ndjson(chunks: &[Vec<u8>]) -> (r: Vec<OllamaEvent>)
    ensures
        r@.map_values(|e: OllamaEvent| event_view(e)) == fold_chunks(chunks@.map_values(|c: Vec<u8>| c@)).0
            + line_events(trimmed(fold_chunks(chunks@.map_values(|c: Vec<u8>| c@)).1)),
{
    let ghost cv = chunks@.map_values(|c: Vec<u8>| c@);
    let mut out: Vec<OllamaEvent> = Vec::new();
    let mut carry = String::new();
    let mut i: usize = 0;
    while i < chunks.len()
        invariant
            i <= chunks@.len(),
            cv == chunks@.map_values(|c: Vec<u8>| c@),
            out@.map_values(|e: OllamaEvent| event_view(e)) == fold_chunks(cv.take(i as int)).0,
            carry@ == fold_chunks(cv.take(i as int)).1,
        decreases chunks@.len() - i,
    {
        proof {
            assert(cv.take(i + 1).drop_last() =~= cv.take(i as int));
        }
        let (evs, rest) = stream_chunk(carry.as_str(), chunks[i].as_slice());
        append_events(&mut out, evs);
        carry = rest;
        i = i + 1;
    }
    proof {
        assert(cv.take(cv.len() as int) =~= cv);
    }
    let tail = stream_end(carry.as_str());
    append_events(&mut out, tail);
    out
}

pub open spec fn opt_str(o: Option<String>) -> Option<Seq<char>> {
    match o {
        Some(s) => Some(s@),
        None => None,
    }
}

pub open spec fn tag_view(t: TagFields) -> (Option<Seq<char>>, Option<u64>, Option<Seq<char>>, Option<Seq<char>>) {
    (opt_str(t.0), t.1, opt_str(t.2), opt_str(t.3))
}

/// What the `/api/tags` reply body holds: `None` when it is not JSON,
/// `Some(None)` when it has no `models` array, else one entry per model
/// with its `name`, `size`, `details.family` and `details.parameter_size`.
pub uninterp spec fn tags_listing(body: Seq<char>) -> Option<Option<Seq<(Option<Seq<char>>, Option<u64>, Option<Seq<char>>, Option<Seq<char>>)>>>;

/// `serde_json::from_str::<Value>` of a `/api/tags` reply, read as its
/// list of model entries.
#[verifier::external_body]
fn parse_tags(body: &str) -> (r: Option<Option<Vec<TagFields>>>)
    ensures
        match r {
            None => tags_listing(body@) is None,
            Some(None) => tags_listing(body@) == Some(None::<Seq<(Option<Seq<char>>, Option<u64>, Option<Seq<char>>, Option<Seq<char>>)>>),
            Some(Some(v)) => tags_listing(body@) == Some(Some(v@.map_values(|t: TagFields| tag_view(t)))),
        },
{
    let json: serde_json::Value = match serde_json::from_str(body) {
        Ok(v) => v,
        Err(_) => return None,
    };
    let arr = match json["models"].as_array() {
        Some(a) => a,
        None => return Some(None),
    };
    Some(Some(arr.iter().map(|m| (
        m["name"].as_str().map(|s| s.to_owned()),
        m["size"].as_u64(),
        m["details"]["family"].as_str().map(|s| s.to_owned()),
        m["details"]["parameter_size"].as_str().map(|s| s.to_owned()),
    )).collect()))
}

/// Why a daemon reply could not be used.
#[derive(Debug, Clone, Copy, PartialEq, Eq, Structural)]
pub enum ReplyError {
    /// The body is not JSON.
    InvalidJson,
    /// The listing has no `models` array.
    NoModels,
    /// The model's sizes overflow when deriving its feed-forward width.
    SizeOverflow,
}

pub open spec fn or_text(o: Option<Seq<char>>, d: Seq<char>) -> Seq<char> {
    match o {
        Some(s) => s,
        None => d,
    }
}

/// The plain-value form of a parsed `/api/tags` listing.
pub open spec fn listing_of_tags(l: Option<Option<Vec<TagFields>>>) -> Option<Option<Seq<(Option<Seq<char>>, Option<u64>, Option<Seq<char>>, Option<Seq<char>>)>>> {
    match l {
        None => None,
        Some(None) => Some(None),
        Some(Some(v)) => Some(Some(v@.map_values(|t: TagFields| tag_view(t)))),
    }
}

/// The installed models of a parsed `/api/tags` listing; missing fields
/// read as "?" (name, parameter size), 0 (size) and "" (family).
pub fn models_from_listing(listing: Option<Option<Vec<TagFields>>>) -> (r: Result<Vec<OllamaModel>, ReplyError>)
    ensures
        match listing_of_tags(listing) {
            None => r == Err::<Vec<OllamaModel>, ReplyError>(ReplyError::InvalidJson),
            Some(None) => r == Err::<Vec<OllamaModel>, ReplyError>(ReplyError::NoModels),
            Some(Some(entries)) => r matches Ok(ms) && ms@.len() == entries.len() && forall|i: int|
                0 <= i < entries.len() ==> {
                    let m = #[trigger] ms@[i];
                    &&& m.name@ == or_text(entries[i].0, "?"@)
                    &&& m.size_bytes == match entries[i].1 {
                        Some(n) => n,
                        None => 0,
                    }
                    &&& m.family@ == or_text(entries[i].2, ""@)
                    &&& m.parameter_size@ == or_text(entries[i].3, "?"@)
                },
        },
{
    let entries = match listing {
        None => return Err(ReplyError::InvalidJson),
        Some(None) => return Err(ReplyError::NoModels),
        Some(Some(v)) => v,
    };
    let ghost ev = entries@.map_values(|t: TagFields| tag_view(t));
    let mut out: Vec<OllamaModel> = Vec::new();
    let mut i: usize = 0;
    while i < entries.len()
        invariant
            i <= entries@.len(),
            ev == entries@.map_values(|t: TagFields| tag_view(t)),
            out@.len() == i,
            forall|k: int| 0 <= k < i ==> {
                let m = #[trigger] out@[k];
                &&& m.name@ == or_text(ev[k].0, "?"@)
                &&& m.size_bytes == match ev[k].1 {
                    Some(n) => n,
                    None => 0,
                }
                &&& m.family@ == or_text(ev[k].2, ""@)
                &&& m.parameter_size@ == or_text(ev[k].3, "?"@)
            },
        decreases entries@.len() - i,
    {
        let e = &entries[i];
        let name = match &e.0 {
            Some(s) => s.clone(),
            None => String::from_str("?"),
        };
        let size_bytes = match e.1 {
            Some(n) => n,
            None => 0,
        };
        let family = match &e.2 {
            Some(s) => s.clone(),
            None => String::from_str(""),
        };
        let parameter_size = match &e.3 {
            Some(s) => s.clone(),
            None => String::from_str("?"),
        };
        out.push(OllamaModel { name, size_bytes, family, parameter_size });
        i = i + 1;
    }
    Ok(out)
}

/// The installed models listed in a `/api/tags` reply (see
/// `models_from_listing`).
pub fn models_from_tags(body: &str) -> (r: Result<Vec<OllamaModel>, ReplyError>)
    ensures
        match tags_listing(body@) {
            None => r == Err::<Vec<OllamaModel>, ReplyError>(ReplyError::InvalidJson),
            Some(None) => r == Err::<Vec<OllamaModel>, ReplyError>(ReplyError::NoModels),
            Some(Some(entries)) => r matches Ok(ms) && ms@.len() == entries.len() && forall|i: int|
                0 <= i < entries.len() ==> {
                    let m = #[trigger] ms@[i];
                    &&& m.name@ == or_text(entries[i].0, "?"@)
                    &&& m.size_bytes == match entries[i].1 {
                        Some(n) => n,
                        None => 0,
                    }
                    &&& m.family@ == or_text(entries[i].2, ""@)
                    &&& m.parameter_size@ == or_text(entries[i].3, "?"@)
                },
        },
{
    models_from_listing(parse_tags(body))
}

/// What the `/api/show` reply body holds: `None` when it is not JSON, else
/// `model_info.general.architecture` and `details.family` (when strings)
/// and, when `model_info` is an object, each of its members in the map's
/// order with its value when that is a non-negative integer.
pub uninterp spec fn show_listing(body: Seq<char>) -> Option<(Option<Seq<char>>, Option<Seq<char>>, Option<Seq<(Seq<char>, Option<u64>)>>)>;

pub open spec fn members_view(m: Seq<(String, Option<u64>)>) -> Seq<(Seq<char>, Option<u64>)> {
    m.map_values(|p: (String, Option<u64>)| (p.0@, p.1))
}

pub open spec fn opt_members(m: Option<Vec<(String, Option<u64>)>>) -> Option<Seq<(Seq<char>, Option<u64>)>> {
    match m {
        Some(v) => Some(members_view(v@)),
        None => None,
    }
}

/// `serde_json::from_str::<Value>` of a `/api/show` reply, read as its
/// architecture fields and the members of `model_info`.
#[verifier::external_body]
fn parse_show(body: &str) -> (r: Option<(Option<String>, Option<String>, Option<Vec<(String, Option<u64>)>>)>)
    ensures
        match r {
            None => show_listing(body@) is None,
            Some((a, f, m)) => show_listing(body@) == Some((opt_str(a), opt_str(f), opt_members(m))),
        },
{
    let json: serde_json::Value = match serde_json::from_str(body) {
        Ok(v) => v,
        Err(_) => return None,
    };
    let arch = json["model_info"]["general.architecture"].as_str().map(|s| s.to_owned());
    let family = json["details"]["family"].as_str().map(|s| s.to_owned());
    let members = json["model_info"].as_object().map(|obj| obj.iter().map(|(k, v)| (k.clone(), v.as_u64())).collect());
    Some((arch, family, members))
}

/// The members holding a number, in order; none when there are no members.
pub open spec fn numeric_members(m: Option<Seq<(Seq<char>, Option<u64>)>>) -> Seq<(Seq<char>, u64)> {
    match m {
        None => Seq::empty(),
        Some(s) => numeric_of(s),
    }
}

pub open spec fn numeric_of(s: Seq<(Seq<char>, Option<u64>)>) -> Seq<(Seq<char>, u64)>
    decreases s.len(),
{
    if s.len() == 0 {
        Seq::empty()
    } else {
        let prev = numeric_of(s.drop_last());
        match s.last().1 {
            Some(n) => prev.push((s.last().0, n)),
            None => prev,
        }
    }
}

/// The members of `model_info` that hold a number.
pub fn numeric_metadata(members: Option<Vec<(String, Option<u64>)>>) -> (r: Vec<(String, u64)>)
    ensures
        crate::llm::arch::meta_view(r@) == numeric_members(opt_members(members)),
{
    let mut out: Vec<(String, u64)> = Vec::new();
    match members {
        None => {
            proof {
                assert(crate::llm::arch::meta_view(out@) =~= Seq::<(Seq<char>, u64)>::empty());
            }
        },
        Some(v) => {
            let ghost mv = members_view(v@);
            let mut i: usize = 0;
            proof {
                assert(mv.take(0) =~= Seq::<(Seq<char>, Option<u64>)>::empty());
                assert(crate::llm::arch::meta_view(out@) =~= Seq::<(Seq<char>, u64)>::empty());
            }
            while i < v.len()
                invariant
                    i <= v@.len(),
                    mv == members_view(v@),
                    crate::llm::arch::meta_view(out@) == numeric_of(mv.take(i as int)),
                decreases v@.len() - i,
            {
                proof {
                    assert(mv.take(i + 1).drop_last() =~= mv.take(i as int));
                    assert(mv.take(i + 1).last() == mv[i as int]);
                }
                match v[i].1 {
                    Some(n) => {
                        let ghost before = out@;
                        out.push((v[i].0.clone(), n));
                        proof {
                            assert(crate::llm::arch::meta_view(out@) =~= crate::llm::arch::meta_view(before).push(
                                (v@[i as int].0@, n),
                            ));
                        }
                    },
                    None => {},
                }
                i = i + 1;
            }
            proof {
                assert(mv.take(v@.len() as int) =~= mv);
            }
        },
    }
    out
}

/// The architecture string a `/api/show` reply names: the model-info
/// architecture, else the details family, else "llama".
pub open spec fn show_arch(arch: Option<Seq<char>>, family: Option<Seq<char>>) -> Seq<char> {
    match arch {
        Some(a) => a,
        None => or_text(family, "llama"@),
    }
}

/// The plain-value form of a parsed `/api/show` reply.
pub open spec fn listing_of_show(l: Option<(Option<String>, Option<String>, Option<Vec<(String, Option<u64>)>>)>) -> Option<(Option<Seq<char>>, Option<Seq<char>>, Option<Seq<(Seq<char>, Option<u64>)>>)> {
    match l {
        None => None,
        Some((a, f, m)) => Some((opt_str(a), opt_str(f), opt_members(m))),
    }
}

/// The architecture of a model from its parsed `/api/show` reply: its
/// family detected from the architecture string and the model name, and its
/// sizes from the numeric metadata (or the family defaults when there is
/// none).
pub fn spec_from_listing(
    model_name: &str,
    listing: Option<(Option<String>, Option<String>, Option<Vec<(String, Option<u64>)>>)>,
) -> (r: Result<crate::llm::arch::ArchSpec, ReplyError>)
    ensures
        match listing_of_show(listing) {
            None => r == Err::<crate::llm::arch::ArchSpec, ReplyError>(ReplyError::InvalidJson),
            Some((a, f, members)) => {
                let meta = numeric_members(members);
                let arch = show_arch(a, f);
                let family = crate::llm::arch::detect_family(arch, model_name@);
                let get = |s: Seq<char>| crate::llm::arch::meta_get(meta, crate::llm::arch::meta_key(arch, s)) as usize;
                let hidden = if get("embedding_length"@) < 64 { 64 } else { get("embedding_length"@) };
                if meta.len() == 0 {
                    r == Ok::<crate::llm::arch::ArchSpec, ReplyError>(crate::llm::arch::spec_default(family))
                } else if get("feed_forward_length"@) == 0 && hidden * crate::llm::arch::ffn_ratio(family) > usize::MAX {
                    r == Err::<crate::llm::arch::ArchSpec, ReplyError>(ReplyError::SizeOverflow)
                } else {
                    r == Ok::<crate::llm::arch::ArchSpec, ReplyError>(crate::llm::arch::spec_from_metadata(family, arch, meta))
                }
            },
        },
{
    let (a, f, members) = match listing {
        None => return Err(ReplyError::InvalidJson),
        Some(x) => x,
    };
    let meta = numeric_metadata(members);
    let arch = match a {
        Some(s) => s,
        None => match f {
            Some(s) => s,
            None => String::from_str("llama"),
        },
    };
    let family = crate::llm::arch::ArchFamily::detect(arch.as_str(), model_name);
    if meta.len() == 0 {
        return Ok(crate::llm::arch::ArchSpec::default_for(family));
    }
    if !crate::llm::arch::ffn_fits(family, arch.as_str(), &meta) {
        return Err(ReplyError::SizeOverflow);
    }
    Ok(crate::llm::arch::ArchSpec::from_metadata(family, arch.as_str(), &meta))
}

/// The architecture of a model described by a `/api/show` reply (see
/// `spec_from_listing`).
pub fn spec_from_show(model_name: &str, body: &str) -> (r: Result<crate::llm::arch::ArchSpec, ReplyError>)
    ensures
        match show_listing(body@) {
            None => r == Err::<crate::llm::arch::ArchSpec, ReplyError>(ReplyError::InvalidJson),
            Some((a, f, members)) => {
                let meta = numeric_members(members);
                let arch = show_arch(a, f);
                let family = crate::llm::arch::detect_family(arch, model_name@);
                let get = |s: Seq<char>| crate::llm::arch::meta_get(meta, crate::llm::arch::meta_key(arch, s)) as usize;
                let hidden = if get("embedding_length"@) < 64 { 64 } else { get("embedding_length"@) };
                if meta.len() == 0 {
                    r == Ok::<crate::llm::arch::ArchSpec, ReplyError>(crate::llm::arch::spec_default(family))
                } else if get("feed_forward_length"@) == 0 && hidden * crate::llm::arch::ffn_ratio(family) > usize::MAX {
                    r == Err::<crate::llm::arch::ArchSpec, ReplyError>(ReplyError::SizeOverflow)
                } else {
                    r == Ok::<crate::llm::arch::ArchSpec, ReplyError>(crate::llm::arch::spec_from_metadata(family, arch, meta))
                }
            },
        },
{
    spec_from_listing(model_name, parse_show(body))
}

/// Name of the graph of a model served by the daemon.
pub fn graph_name(model_name: &str) -> (r: String)
    ensures
        r@ == model_name@ + " (Ollama)"@,
{
    let mut s = String::from_str(model_name);
    s.append(" (Ollama)");
    s
}

/// The text of a GET request for `path`.
pub fn http_get_request(path: &str) -> (r: String)
    ensures
        r@ == "GET "@ + path@ + " HTTP/1.1\r\nHost: "@ + OLLAMA_HOST@ + "\r\nConnection: close\r\n\r\n"@,
{
    let mut s = String::from_str("GET ");
    s.append(path);
    s.append(" HTTP/1.1\r\nHost: ");
    s.append(OLLAMA_HOST);
    s.append("\r\nConnection: close\r\n\r\n");
    s
}

/// The text of a POST request for `path` carrying a JSON `body`; the
/// content length counts the UTF-8 bytes of the body.
pub fn http_post_request(path: &str, body: &str) -> (r: String)
    ensures
        r@ == "POST "@ + path@ + " HTTP/1.1\r\nHost: "@ + OLLAMA_HOST@
            + "\r\nContent-Type: application/json\r\nContent-Length: "@ + dec_str(body.len() as nat)
            + "\r\nConnection: close\r\n\r\n"@ + body@,
{
    let mut s = String::from_str("POST ");
    s.append(path);
    s.append(" HTTP/1.1\r\nHost: ");
    s.append(OLLAMA_HOST);
    s.append("\r\nContent-Type: application/json\r\nContent-Length: ");
    push_decimal(&mut s, body.len() as u64);
    s.append("\r\nConnection: close\r\n\r\n");
    s.append(body);
    s
}

/// A hexadecimal digit, lower case.
pub open spec fn lower_hex_char(d: u32) -> char {
    if d < 10 {
        (('0' as u32) + d) as char
    } else {
        (('a' as u32) + d - 10) as char
    }
}

/// How a character is written inside a JSON string literal, as
/// `serde_json` writes it: `"` and `\` escaped with a backslash, backspace,
/// tab, line feed, form feed and carriage return as `\b \t \n \f \r`,
/// other control characters below U+0020 as `\u00XX` (lower-case hex), and
/// every other character as it is.
pub open spec fn json_escape(c: char) -> Seq<char> {
    let u = c as u32;
    if c == '"' {
        seq!['\\', '"']
    } else if c == '\\' {
        seq!['\\', '\\']
    } else if u == 0x08 {
        seq!['\\', 'b']
    } else if u == 0x09 {
        seq!['\\', 't']
    } else if u == 0x0a {
        seq!['\\', 'n']
    } else if u == 0x0c {
        seq!['\\', 'f']
    } else if u == 0x0d {
        seq!['\\', 'r']
    } else if u < 0x20 {
        seq!['\\', 'u', '0', '0', lower_hex_char(u / 16), lower_hex_char(u % 16)]
    } else {
        seq![c]
    }
}

/// The characters of `s`, each written as in a JSON string literal.
pub open spec fn json_escaped(s: Seq<char>) -> Seq<char>
    decreases s.len(),
{
    if s.len() == 0 {
        Seq::empty()
    } else {
        json_escaped(s.drop_last()) + json_escape(s.last())
    }
}

/// The JSON string literal of `s`, as `serde_json::to_string` writes it.
pub open spec fn json_quoted(s: Seq<char>) -> Seq<char> {
    seq!['"'] + json_escaped(s) + seq!['"']
}

fn hex_char(d: u32) -> (r: char)
    requires
        d < 16,
    ensures
        r == lower_hex_char(d),
{
    if d < 10 {
        ((48u8 + d as u8) as char)
    } else {
        ((97u8 + (d - 10) as u8) as char)
    }
}

fn push_escaped(out: &mut String, c: char)
    ensures
        final(out)@ == old(out)@ + json_escape(c),
{
    let u = c as u32;
    if c == '"' || c == '\\' {
        push_char(out, '\\');
        push_char(out, c);
    } else if u == 0x08 || u == 0x09 || u == 0x0a || u == 0x0c || u == 0x0d {
        push_char(out, '\\');
        push_char(out, if u == 0x08 { 'b' } else if u == 0x09 { 't' } else if u == 0x0a { 'n' } else if u == 0x0c { 'f' } else { 'r' });
    } else if u < 0x20 {
        push_char(out, '\\');
        push_char(out, 'u');
        push_char(out, '0');
        push_char(out, '0');
        push_char(out, hex_char(u / 16));
        push_char(out, hex_char(u % 16));
    } else {
        push_char(out, c);
    }
    proof {
        assert(out@ =~= old(out)@ + json_escape(c));
    }
}

/// The JSON string literal of `s`.
fn quote_json(s: &str) -> (r: String)
    ensures
        r@ == json_quoted(s@),
{
    let cs = chars_of(s);
    let mut out = String::new();
    push_char(&mut out, '"');
    let mut i: usize = 0;
    proof {
        assert(cs@.take(0) =~= Seq::<char>::empty());
        assert(out@ =~= seq!['"'] + json_escaped(cs@.take(0)));
    }
    while i < cs.len()
        invariant
            i <= cs@.len(),
            out@ == seq!['"'] + json_escaped(cs@.take(i as int)),
        decreases cs@.len() - i,
    {
        proof {
            assert(cs@.take(i + 1).drop_last() =~= cs@.take(i as int));
            assert(cs@.take(i + 1).last() == cs@[i as int]);
        }
        push_escaped(&mut out, cs[i]);
        proof {
            assert(out@ =~= seq!['"'] + json_escaped(cs@.take(i + 1)));
        }
        i = i + 1;
    }
    push_char(&mut out, '"');
    proof {
        assert(cs@.take(i as int) =~= cs@);
    }
    out
}

/// The `/api/show` request body naming a model.
pub fn show_payload(model_name: &str) -> (r: String)
    ensures
        r@ == "{\"name\":"@ + json_quoted(model_name@) + "}"@,
{
    let mut s = String::from_str("{\"name\":");
    let q = quote_json(model_name);
    s.append(q.as_str());
    s.append("}");
    s
}

/// The `/api/generate` request body of a streaming inference.
pub fn generate_payload(model: &str, prompt: &str) -> (r: String)
    ensures
        r@ == "{\"model\":"@ + json_quoted(model@) + ",\"prompt\":"@ + json_quoted(prompt@) + ",\"stream\":true}"@,
{
    let mut s = String::from_str("{\"model\":");
    let m = quote_json(model);
    s.append(m.as_str());
    s.append(",\"prompt\":");
    let p = quote_json(prompt);
    s.append(p.as_str());
    s.append(",\"stream\":true}");
    s
}

} // verus!

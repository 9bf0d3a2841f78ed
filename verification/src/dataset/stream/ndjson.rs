//! Line framing for newline-delimited JSON streams: bytes arrive in
//! arbitrary pieces, complete lines come out one at a time.

use vstd::prelude::*;

verus! {

/// `u8::is_ascii_whitespace`: tab, line feed, form feed, carriage return or space.
pub open spec fn is_ascii_ws(b: u8) -> bool {
    b == 9 || b == 10 || b == 12 || b == 13 || b == 32
}

/// A line holding nothing but ASCII white space (or nothing at all).
pub open spec fn is_blank(s: Seq<u8>) -> bool {
    forall|i: int| 0 <= i < s.len() ==> is_ascii_ws(#[trigger] s[i])
}

/// Position of the first `\n`, or the length when there is none.
pub open spec fn nl_pos(s: Seq<u8>) -> nat
    decreases s.len(),
{
    if s.len() == 0 {
        0
    } else if s[0] == 10 {
        0
    } else {
        1 + nl_pos(s.drop_first())
    }
}

/// A line without one trailing `\r`.
pub open spec fn strip_cr(line: Seq<u8>) -> Seq<u8> {
    if line.len() > 0 && line.last() == 13 {
        line.drop_last()
    } else {
        line
    }
}

/// What the framer hands out next.
#[derive(Debug)]
pub enum Frame {
    /// A complete, non-blank line (without its line terminator).
    Line(Vec<u8>),
    /// No complete line is buffered: more bytes are needed.
    NeedMore,
    /// End of stream: nothing left to hand out.
    End,
}

/// The next frame for a buffer and end-of-stream flag, as
/// `(kind, line, buffer after)`, kind 0 a line, 1 more input needed, 2 the
/// end. Blank lines are skipped; at the end of the stream a trailing
/// unterminated line is handed out as it is, unless it is blank.
pub open spec fn next_frame_spec(buf: Seq<u8>, eof: bool) -> (u8, Seq<u8>, Seq<u8>)
    decreases buf.len(),
{
    let p = nl_pos(buf);
    if p < buf.len() {
        let line = strip_cr(buf.take(p as int));
        let rest = buf.skip(p as int + 1);
        if !is_blank(line) {
            (0, line, rest)
        } else {
            next_frame_spec(rest, eof)
        }
    } else if !eof {
        (1, Seq::empty(), buf)
    } else if buf.len() > 0 && !is_blank(buf) {
        (0, buf, Seq::empty())
    } else {
        (2, Seq::empty(), Seq::empty())
    }
}

proof fn lemma_nl_pos(s: Seq<u8>, k: int)
    requires
        0 <= k <= s.len(),
        forall|i: int| 0 <= i < k ==> s[i] != 10,
        k == s.len() || s[k] == 10,
    ensures
        nl_pos(s) == k,
    decreases k,
{
    if k > 0 {
        lemma_nl_pos(s.drop_first(), k - 1);
    }
}

/// Line framer of an NDJSON stream: the bytes received but not yet handed
/// out, and whether the transport reported the end of the stream.
#[derive(Debug)]
pub struct NdjsonDecoder {
    pub buf: Vec<u8>,
    pub eof: bool,
}

pub(crate) fn blank_bytes(s: &[u8]) -> (r: bool)
    ensures
        r == is_blank(s@),
{
    let mut i: usize = 0;
    while i < s.len()
        invariant
            i <= s@.len(),
            forall|j: int| 0 <= j < i ==> is_ascii_ws(#[trigger] s@[j]),
        decreases s@.len() - i,
    {
        let b = s[i];
        if !(b == 9 || b == 10 || b == 12 || b == 13 || b == 32) {
            proof {
                assert(!is_ascii_ws(s@[i as int]));
            }
            return false;
        }
        i = i + 1;
    }
    true
}

impl NdjsonDecoder {
    pub fn new() -> (r: Self)
        ensures
            r.buf@.len() == 0,
            !r.eof,
    {
        NdjsonDecoder { buf: Vec::new(), eof: false }
    }

    /// Append bytes read from the transport.
    pub fn push_bytes(&mut self, bytes: &[u8])
        ensures
            final(self).buf@ == old(self).buf@ + bytes@,
            final(self).eof == old(self).eof,
    {
        let mut i: usize = 0;
        while i < bytes.len()
            invariant
                i <= bytes@.len(),
                self.buf@ == old(self).buf@ + bytes@.take(i as int),
                self.eof == old(self).eof,
            decreases bytes@.len() - i,
        {
            self.buf.push(bytes[i]);
            proof {
                assert(old(self).buf@ + bytes@.take(i + 1) =~= (old(self).buf@ + bytes@.take(i as int)).push(bytes@[i as int]));
            }
            i = i + 1;
        }
        proof {
            assert(bytes@.take(bytes@.len() as int) =~= bytes@);
        }
    }

    /// Record that the transport reported the end of the stream.
    pub fn mark_eof(&mut self)
        ensures
            final(self).buf@ == old(self).buf@,
            final(self).eof,
    {
        self.eof = true;
    }

    /// Pop the next complete line (without `\n` and one trailing `\r`).
    pub fn take_line(&mut self) -> (r: Option<Vec<u8>>)
        ensures
            final(self).eof == old(self).eof,
            nl_pos(old(self).buf@) < old(self).buf@.len() ==> (r matches Some(line) && line@ == strip_cr(
                old(self).buf@.take(nl_pos(old(self).buf@) as int),
            )) && final(self).buf@ == old(self).buf@.skip(nl_pos(old(self).buf@) as int + 1),
            nl_pos(old(self).buf@) >= old(self).buf@.len() ==> r is None && final(self).buf@ == old(self).buf@,
    {
        let mut p: usize = 0;
        while p < self.buf.len() && self.buf[p] != 10u8
            invariant
                p <= self.buf@.len(),
                forall|i: int| 0 <= i < p ==> self.buf@[i] != 10,
            decreases self.buf@.len() - p,
        {
            p = p + 1;
        }
        proof {
            lemma_nl_pos(self.buf@, p as int);
        }
        if p == self.buf.len() {
            return None;
        }
        let mut line: Vec<u8> = Vec::new();
        let mut i: usize = 0;
        while i < p
            invariant
                i <= p < self.buf@.len(),
                line@ == self.buf@.take(i as int),
            decreases p - i,
        {
            line.push(self.buf[i]);
            proof {
                assert(self.buf@.take(i + 1) =~= self.buf@.take(i as int).push(self.buf@[i as int]));
            }
            i = i + 1;
        }
        if line.len() > 0 && line[line.len() - 1] == 13u8 {
            line.pop();
        }
        let mut rest: Vec<u8> = Vec::new();
        let mut k: usize = p + 1;
        while k < self.buf.len()
            invariant
                p + 1 <= k <= self.buf@.len(),
                rest@ == self.buf@.subrange(p + 1, k as int),
            decreases self.buf@.len() - k,
        {
            rest.push(self.buf[k]);
            proof {
                assert(self.buf@.subrange(p + 1, k + 1) =~= self.buf@.subrange(p + 1, k as int).push(self.buf@[k as int]));
            }
            k = k + 1;
        }
        proof {
            assert(rest@ =~= self.buf@.skip(p + 1));
        }
        self.buf = rest;
        Some(line)
    }

    /// The next frame: the first non-blank complete line, else (at the end
    /// of the stream) the non-blank unterminated rest, else whether more
    /// input is needed or the stream is over.
    pub fn next_frame(&mut self) -> (r: Frame)
        ensures
            final(self).eof == old(self).eof,
            ({
                let (kind, line, rest) = next_frame_spec(old(self).buf@, old(self).eof);
                &&& final(self).buf@ == rest
                &&& (kind == 0 ==> (r matches Frame::Line(l) && l@ == line))
                &&& (kind == 1 ==> r is NeedMore)
                &&& (kind == 2 ==> r is End)
            }),
        decreases old(self).buf@.len(),
    {
        let ghost b0 = self.buf@;
        match self.take_line() {
            Some(line) => {
                if !blank_bytes(&line) {
                    return Frame::Line(line);
                }
                let r = self.next_frame();
                r
            },
            None => {
                if !self.eof {
                    return Frame::NeedMore;
                }
                if self.buf.len() > 0 && !blank_bytes(&self.buf) {
                    let mut rest: Vec<u8> = Vec::new();
                    std::mem::swap(&mut rest, &mut self.buf);
                    return Frame::Line(rest);
                }
                self.buf = Vec::new();
                Frame::End
            },
        }
    }
}

} // verus!

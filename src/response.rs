//! HTTP responses: the status line, headers and body, read from a stream
//! and written as bytes.

use crate::body::{after_line_arrived, after_line_complete, body_text, lemma_read_body_len, read_body, read_body_of, write_body};
use crate::error::{Error, ErrorKind};
use crate::header::{headers_text, lemma_read_headers_len, read_headers, HeaderSet};
use crate::request::http11;
use crate::stream::{lemma_line_end, line_end, Reader};
use crate::text::{
    copy_all, copy_range, decimal, lossy_text, next_word, nth_word, nth_word_from, parse_number,
    parse_unsigned, push_all, push_decimal, starts_with, trim, trim_bytes, utf8_lossy,
};
use vstd::prelude::*;

verus! {

/// A HTTP response.
#[derive(Debug)]
pub struct Response {
    pub code: u32,
    pub headers: HeaderSet,
    pub body: Vec<u8>,
}

/// What a [`Response`] holds.
pub struct ResponseView {
    pub code: u32,
    pub headers: Seq<(Seq<u8>, Seq<u8>)>,
    pub body: Seq<u8>,
}

impl View for Response {
    type V = ResponseView;

    open spec fn view(&self) -> ResponseView {
        ResponseView { code: self.code, headers: self.headers@, body: self.body@ }
    }
}

/// The status code of a status line, or the kind of error it gives: once
/// trimmed the line must start with `HTTP/1.1`, and its second word must be
/// a number that fits in 32 bits. The reason phrase is not read.
pub open spec fn status_line_of(line: Seq<u8>) -> Result<u32, ErrorKind> {
    let t = trim(line);
    if t.len() < 8 || t.subrange(0, 8) != http11() {
        Err(ErrorKind::Version)
    } else {
        match nth_word(line, 1) {
            None => Err(ErrorKind::Status),
            Some(w) => match parse_unsigned(w, 10, u32::MAX as int) {
                None => Err(ErrorKind::Status),
                Some(c) => Ok(c as u32),
            },
        }
    }
}

/// The response at the front of `s`, with the number of bytes it takes, or
/// the kind of error that reading it gives.
pub open spec fn read_response(s: Seq<u8>) -> Result<(ResponseView, int), ErrorKind> {
    let n = line_end(s) as int;
    match status_line_of(s.subrange(0, n)) {
        Err(e) => Err(e),
        Ok(code) => {
            let s1 = s.subrange(n, s.len() as int);
            match read_headers(s1) {
                Err(e) => Err(e),
                Ok((hs, m)) => {
                    let s2 = s1.subrange(m, s1.len() as int);
                    match read_body_of(hs, s2) {
                        Err(e) => Err(e),
                        Ok((b, k)) => Ok((ResponseView { code, headers: hs, body: b }, n + m + k)),
                    }
                },
            }
        },
    }
}

/// How a response is written: `HTTP/1.1 <code>`, its headers, then the body
/// framed by its length, even when empty.
pub open spec fn response_text(r: ResponseView) -> Seq<u8> {
    http11() + seq![32u8] + decimal(r.code as nat) + seq![13u8, 10] + headers_text(r.headers)
        + body_text(r.body)
}

impl Response {
    /// A response with status `code`, no headers and the body `content`.
    pub fn new(code: u32, content: &[u8]) -> (r: Response)
        ensures
            r.code == code,
            r.headers@ == Seq::<(Seq<u8>, Seq<u8>)>::empty(),
            r.body@ == content@,
    {
        Response { code, headers: HeaderSet::new(), body: copy_all(content) }
    }

    /// Reads a response from `reader`: the status line, the headers, then
    /// the body they announce.
    pub fn read(reader: &mut Reader) -> (r: Result<Response, Error>)
        ensures
            match r {
                Ok(resp) => match read_response(old(reader)@) {
                    Ok((v, n)) => resp@ == v && final(reader)@ == old(reader)@.subrange(
                        n,
                        old(reader)@.len() as int,
                    ),
                    Err(_) => false,
                },
                Err(e) => read_response(old(reader)@) == Err::<(ResponseView, int), ErrorKind>(
                    e.kind(),
                ),
            },
    {
        let ghost s = reader@;
        proof {
            lemma_line_end(s);
        }
        let mut response = Response::read_stanza(reader)?;
        let ghost s1 = reader@;
        let headers = HeaderSet::read(reader)?;
        let ghost s2 = reader@;
        let body = read_body(&headers, reader)?;
        response.headers = headers;
        response.body = body;
        proof {
            let n = line_end(s) as int;
            lemma_read_headers_len(s1);
            if let Ok((hs, m)) = read_headers(s1) {
                lemma_read_body_len(hs, s2);
                if let Ok((b, k)) = read_body_of(hs, s2) {
                    assert(reader@ =~= s.subrange(n + m + k, s.len() as int));
                    assert(response@ == read_response(s).unwrap().0);
                }
            }
        }
        Ok(response)
    }

    /// Reads and checks a status line from `reader`.
    pub fn read_stanza(reader: &mut Reader) -> (r: Result<Response, Error>)
        ensures
            final(reader)@ == old(reader)@.subrange(
                line_end(old(reader)@) as int,
                old(reader)@.len() as int,
            ),
            match r {
                Ok(resp) => status_line_of(old(reader)@.subrange(0, line_end(old(reader)@) as int))
                    == Ok::<u32, ErrorKind>(resp.code) && resp.headers@ == Seq::<
                    (Seq<u8>, Seq<u8>),
                >::empty() && resp.body@ == Seq::<u8>::empty(),
                Err(e) => status_line_of(old(reader)@.subrange(0, line_end(old(reader)@) as int))
                    == Err::<u32, ErrorKind>(e.kind()),
            },
    {
        let line = reader.read_line();
        let s = line.as_slice();
        let n = s.len();
        let t = trim_bytes(s);
        let expected = vec![72u8, 84, 84, 80, 47, 49, 46, 49];
        assert(expected@ =~= http11());
        if !starts_with(t.as_slice(), expected.as_slice()) {
            return Err(Error::Version);
        }
        let (a0, b0) = next_word(s, 0);
        assert(nth_word(s@, 1) == if a0 >= n {
            None
        } else {
            nth_word_from(s@, b0 as int, 0)
        });
        if a0 >= n {
            return Err(Error::Status);
        }
        let (a1, b1) = next_word(s, b0);
        if a1 >= n {
            return Err(Error::Status);
        }
        let word = copy_range(s, a1, b1);
        match parse_number(word.as_slice(), 10, 4294967295) {
            Some(c) => {
                let r = Response::new(c as u32, &[]);
                Ok(r)
            },
            None => Err(Error::Status),
        }
    }

    /// Writes the response at the end of `out`: `HTTP/1.1 <code>`, the
    /// headers, then the body framed by its length.
    pub fn write(&self, out: &mut Vec<u8>)
        ensures
            final(out)@ == old(out)@ + response_text(self@),
    {
        let version = vec![72u8, 84, 84, 80, 47, 49, 46, 49];
        assert(version@ =~= http11());
        push_all(out, version.as_slice());
        out.push(32u8);
        push_decimal(out, self.code as u64);
        out.push(13u8);
        out.push(10u8);
        self.headers.write(out);
        write_body(self.body.as_slice(), out);
        assert(final(out)@ =~= old(out)@ + response_text(self@));
    }

    /// The body as text, each invalid UTF-8 sequence replaced by U+FFFD.
    pub fn body_string(&self) -> (r: String)
        ensures
            r@ == lossy_text(self.body@),
    {
        utf8_lossy(self.body.as_slice())
    }
}

/// Whether a whole response has arrived at the front of `s`, or one that is
/// known to be malformed: the first line, ended by a line feed, then the
/// headers up to a blank line, then the body they announce. Until then a
/// reader of the stream waits for more bytes, or for its end.
pub open spec fn response_arrived(s: Seq<u8>) -> bool {
    let n = line_end(s) as int;
    if n == 0 || n > s.len() || s[n - 1] != 10 {
        false
    } else {
        match status_line_of(s.subrange(0, n)) {
            Err(_) => true,
            Ok(_) => after_line_arrived(s.subrange(n, s.len() as int)),
        }
    }
}

/// Whether a whole response has arrived at the front of `data`, or one that
/// is known to be malformed.
pub fn response_complete(data: &[u8]) -> (r: bool)
    ensures
        r == response_arrived(data@),
{
    let mut reader = Reader::new(copy_all(data));
    proof {
        lemma_line_end(data@);
    }
    let head = Response::read_stanza(&mut reader);
    let n = data.len() - reader.remaining();
    if n == 0 || data[n - 1] != 10 {
        return false;
    }
    match head {
        Err(_) => true,
        Ok(_) => {
            let rest = reader.unread();
            after_line_complete(rest.as_slice())
        },
    }
}

} // verus!

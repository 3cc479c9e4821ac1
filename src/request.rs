//! HTTP requests: the request line, headers and body, read from a stream
//! and written as bytes.

use crate::body::{after_line_arrived, after_line_complete, body_text, lemma_read_body_len, read_body, read_body_of, write_body};
use crate::error::{Error, ErrorKind};
use crate::header::{headers_text, lemma_read_headers_len, read_headers, HeaderSet};
use crate::stream::{lemma_line_end, line_end, Reader};
use crate::text::{copy_all, copy_range, lossy_text, next_word, nth_word, nth_word_from, push_all, same_bytes, utf8_lossy};
use crate::uri::{loopback, query_text, target_args, target_path, Protocol, UrlView, URL};
use crate::verb::{verb_of, verb_token, Verb};
use vstd::prelude::*;

verus! {

/// The protocol version `HTTP/1.1`.
pub open spec fn http11() -> Seq<u8> {
    seq![72u8, 84, 84, 80, 47, 49, 46, 49]
}

/// A HTTP request.
#[derive(Debug)]
pub struct Request {
    pub verb: Verb,
    pub url: URL,
    pub headers: HeaderSet,
    pub body: Vec<u8>,
}

/// What a [`Request`] holds.
pub struct RequestView {
    pub verb: Verb,
    pub url: UrlView,
    pub headers: Seq<(Seq<u8>, Seq<u8>)>,
    pub body: Seq<u8>,
}

impl View for Request {
    type V = RequestView;

    open spec fn view(&self) -> RequestView {
        RequestView { verb: self.verb, url: self.url@, headers: self.headers@, body: self.body@ }
    }
}

/// The method and request target of a request line, or the kind of error it
/// gives: its words are the method, the target and the version, which must
/// be `HTTP/1.1`.
pub open spec fn request_line_of(line: Seq<u8>) -> Result<(Verb, Seq<u8>), ErrorKind> {
    match nth_word(line, 0) {
        None => Err(ErrorKind::Verb),
        Some(v) => match nth_word(line, 1) {
            None => Err(ErrorKind::Query),
            Some(target) => match nth_word(line, 2) {
                None => Err(ErrorKind::Version),
                Some(version) => if version != http11() {
                    Err(ErrorKind::Version)
                } else {
                    match verb_of(v) {
                        None => Err(ErrorKind::Verb),
                        Some(verb) => Ok((verb, target)),
                    }
                },
            },
        },
    }
}

/// A request whose first line has a method and a target but no version, or
/// a version other than `HTTP/1.1`, fails with a version error.
pub proof fn lemma_request_version(s: Seq<u8>)
    requires
        nth_word(s.subrange(0, line_end(s) as int), 0).is_some(),
        nth_word(s.subrange(0, line_end(s) as int), 1).is_some(),
        nth_word(s.subrange(0, line_end(s) as int), 2) != Some(http11()),
    ensures
        read_request(s) == Err::<(RequestView, int), ErrorKind>(ErrorKind::Version),
{
}

/// The request whose line is `verb` and `target`, with no headers and no
/// body yet.
pub open spec fn request_of_line(verb: Verb, target: Seq<u8>) -> RequestView {
    RequestView {
        verb,
        url: UrlView {
            host: loopback(),
            port: 80,
            path: target_path(target),
            args: target_args(target),
            protocol: Protocol::Http,
        },
        headers: seq![],
        body: seq![],
    }
}

/// The request at the front of `s`, with the number of bytes it takes, or
/// the kind of error that reading it gives.
pub open spec fn read_request(s: Seq<u8>) -> Result<(RequestView, int), ErrorKind> {
    let n = line_end(s) as int;
    match request_line_of(s.subrange(0, n)) {
        Err(e) => Err(e),
        Ok((verb, target)) => {
            let s1 = s.subrange(n, s.len() as int);
            match read_headers(s1) {
                Err(e) => Err(e),
                Ok((hs, m)) => {
                    let s2 = s1.subrange(m, s1.len() as int);
                    match read_body_of(hs, s2) {
                        Err(e) => Err(e),
                        Ok((b, k)) => Ok(
                            (
                                RequestView { headers: hs, body: b, ..request_of_line(verb, target) },
                                n + m + k,
                            ),
                        ),
                    }
                },
            }
        },
    }
}

/// How a request is written: its line, its headers, then a blank line when
/// the body is empty, or the body framed by its length.
pub open spec fn request_text(r: RequestView) -> Seq<u8> {
    verb_token(r.verb) + seq![32u8] + query_text(r.url) + seq![32u8] + http11() + seq![13u8, 10]
        + headers_text(r.headers) + if r.body.len() == 0 {
        seq![13u8, 10]
    } else {
        body_text(r.body)
    }
}

impl Request {
    /// A request for `url` with no headers and an empty body.
    pub fn new(verb: Verb, url: URL) -> (r: Request)
        ensures
            r.verb == verb,
            r.url@ == url@,
            r.headers@ == Seq::<(Seq<u8>, Seq<u8>)>::empty(),
            r.body@ == Seq::<u8>::empty(),
    {
        Request { verb, url, headers: HeaderSet::new(), body: Vec::new() }
    }

    /// Reads a request from `reader`: the request line, the headers, then
    /// the body they announce.
    pub fn read(reader: &mut Reader) -> (r: Result<Request, Error>)
        ensures
            match r {
                Ok(req) => match read_request(old(reader)@) {
                    Ok((v, n)) => req@ == v && final(reader)@ == old(reader)@.subrange(
                        n,
                        old(reader)@.len() as int,
                    ),
                    Err(_) => false,
                },
                Err(e) => read_request(old(reader)@) == Err::<(RequestView, int), ErrorKind>(
                    e.kind(),
                ),
            },
    {
        let ghost s = reader@;
        proof {
            lemma_line_end(s);
        }
        let mut request = Request::read_stanza(reader)?;
        let ghost s1 = reader@;
        let headers = HeaderSet::read(reader)?;
        let ghost s2 = reader@;
        let body = read_body(&headers, reader)?;
        request.headers = headers;
        request.body = body;
        proof {
            let n = line_end(s) as int;
            lemma_read_headers_len(s1);
            if let Ok((hs, m)) = read_headers(s1) {
                lemma_read_body_len(hs, s2);
                assert(s2 == s1.subrange(m, s1.len() as int));
                if let Ok((b, k)) = read_body_of(hs, s2) {
                    assert(reader@ =~= s.subrange(n + m + k, s.len() as int));
                    assert(request@ == read_request(s).unwrap().0);
                }
            }
        }
        Ok(request)
    }

    /// Reads and checks a request line from `reader`.
    pub fn read_stanza(reader: &mut Reader) -> (r: Result<Request, Error>)
        ensures
            final(reader)@ == old(reader)@.subrange(
                line_end(old(reader)@) as int,
                old(reader)@.len() as int,
            ),
            match r {
                Ok(req) => match request_line_of(old(reader)@.subrange(0, line_end(old(reader)@) as int)) {
                    Ok((verb, target)) => req@ == request_of_line(verb, target),
                    Err(_) => false,
                },
                Err(e) => request_line_of(old(reader)@.subrange(0, line_end(old(reader)@) as int))
                    == Err::<(Verb, Seq<u8>), ErrorKind>(e.kind()),
            },
    {
        let line = reader.read_line();
        let s = line.as_slice();
        let n = s.len();
        let (a0, b0) = next_word(s, 0);
        if a0 >= n {
            return Err(Error::Verb);
        }
        assert(nth_word(s@, 1) == nth_word_from(s@, b0 as int, 0));
        assert(nth_word(s@, 2) == nth_word_from(s@, b0 as int, 1));
        let (a1, b1) = next_word(s, b0);
        if a1 >= n {
            return Err(Error::Query);
        }
        assert(nth_word_from(s@, b0 as int, 1) == nth_word_from(s@, b1 as int, 0));
        let (a2, b2) = next_word(s, b1);
        if a2 >= n {
            return Err(Error::Version);
        }
        let version = copy_range(s, a2, b2);
        let expected = vec![72u8, 84, 84, 80, 47, 49, 46, 49];
        assert(expected@ =~= http11());
        assert(nth_word(s@, 2) == Some(version@));
        if !same_bytes(version.as_slice(), expected.as_slice()) {
            return Err(Error::Version);
        }
        let verb_text = copy_range(s, a0, b0);
        let verb = Verb::from_bytes(verb_text.as_slice())?;
        let target = copy_range(s, a1, b1);
        let url = URL::from_target(target.as_slice());
        let r = Request::new(verb, url);
        assert(r@ =~= request_of_line(verb, target@));
        Ok(r)
    }

    /// Writes the request at the end of `out`: `VERB target HTTP/1.1`, the
    /// headers, then a blank line for an empty body or the body framed by
    /// its length.
    pub fn write(&self, out: &mut Vec<u8>)
        ensures
            final(out)@ == old(out)@ + request_text(self@),
    {
        self.verb.write_token(out);
        out.push(32u8);
        let q = self.url.to_query();
        push_all(out, q.as_slice());
        out.push(32u8);
        let version = vec![72u8, 84, 84, 80, 47, 49, 46, 49];
        assert(version@ =~= http11());
        push_all(out, version.as_slice());
        out.push(13u8);
        out.push(10u8);
        self.headers.write(out);
        if self.body.len() != 0 {
            write_body(self.body.as_slice(), out);
        } else {
            out.push(13u8);
            out.push(10u8);
        }
        assert(final(out)@ =~= old(out)@ + request_text(self@));
    }

    /// The body as text, each invalid UTF-8 sequence replaced by U+FFFD.
    pub fn body_string(&self) -> (r: String)
        ensures
            r@ == lossy_text(self.body@),
    {
        utf8_lossy(self.body.as_slice())
    }
}

/// Whether a whole request has arrived at the front of `s`, or one that is
/// known to be malformed: the first line, ended by a line feed, then the
/// headers up to a blank line, then the body they announce. Until then a
/// reader of the stream waits for more bytes, or for its end.
pub open spec fn request_arrived(s: Seq<u8>) -> bool {
    let n = line_end(s) as int;
    if n == 0 || n > s.len() || s[n - 1] != 10 {
        false
    } else {
        match request_line_of(s.subrange(0, n)) {
            Err(_) => true,
            Ok(_) => after_line_arrived(s.subrange(n, s.len() as int)),
        }
    }
}

/// Whether a whole request has arrived at the front of `data`, or one that
/// is known to be malformed.
pub fn request_complete(data: &[u8]) -> (r: bool)
    ensures
        r == request_arrived(data@),
{
    let mut reader = Reader::new(copy_all(data));
    proof {
        lemma_line_end(data@);
    }
    let head = Request::read_stanza(&mut reader);
    let n = data.len() - reader.remaining();
    if n == 0 || data[n - 1] != 10 {
        return false;
    }
    match head {
        Err(_) => true,
        Ok(_) => {
            let rest = reader.unread();
            after_line_complete(rest.as_slice())
        },
    }
}

} // verus!

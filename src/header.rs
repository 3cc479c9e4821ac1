//! Header sets: ordered (key, value) entries, read line by line from a
//! stream and written as `key: value` lines.

use crate::error::{Error, ErrorKind};
use crate::stream::{lemma_line_end, lemma_line_end_prefix, line_end, strip_eol, Reader};
use crate::text::{
    copy_all, find_from, lemma_find_from_first, lemma_find_from_none, lookup, occurs_at, push_all,
    same_bytes, split2, split_once,
};
use vstd::prelude::*;
use vstd::string::StringSliceAdditionalSpecFns;

verus! {

/// One header of a request or a response.
#[derive(Debug)]
pub struct Header {
    pub key: Vec<u8>,
    pub value: Vec<u8>,
}

/// The headers of a request or a response, in the order they were added.
/// Keys may repeat.
#[derive(Debug)]
pub struct HeaderSet {
    headers: Vec<Header>,
}

pub open spec fn headers_view(v: Seq<Header>) -> Seq<(Seq<u8>, Seq<u8>)> {
    v.map_values(|h: Header| (h.key@, h.value@))
}

impl View for HeaderSet {
    type V = Seq<(Seq<u8>, Seq<u8>)>;

    closed spec fn view(&self) -> Seq<(Seq<u8>, Seq<u8>)> {
        headers_view(self.headers@)
    }
}

/// The separator between a key and its value: `: `.
pub open spec fn key_separator() -> Seq<u8> {
    seq![58u8, 32]
}

/// How one header is written: `key: value` and CR LF.
pub open spec fn header_line(h: (Seq<u8>, Seq<u8>)) -> Seq<u8> {
    h.0 + key_separator() + h.1 + seq![13u8, 10]
}

/// How a sequence of headers is written: their lines, one after the other.
pub open spec fn headers_text(hs: Seq<(Seq<u8>, Seq<u8>)>) -> Seq<u8>
    decreases hs.len(),
{
    if hs.len() == 0 {
        seq![]
    } else {
        headers_text(hs.drop_last()) + header_line(hs.last())
    }
}

/// The headers at the front of `s`, up to and including the blank line that
/// ends them, with the number of bytes they take; or the kind of error that
/// reading them gives. A stream that ends before the blank line fails as
/// the stream does.
pub open spec fn read_headers(s: Seq<u8>) -> Result<(Seq<(Seq<u8>, Seq<u8>)>, int), ErrorKind>
    decreases s.len(),
{
    // The second test never holds (see `lemma_line_end`); it bounds the recursion.
    if s.len() == 0 || line_end(s) > s.len() {
        Err(ErrorKind::Io)
    } else {
        let n = line_end(s);
        let line = strip_eol(s.subrange(0, n as int));
        if line.len() == 0 {
            Ok((seq![], n as int))
        } else {
            let (key, value) = split2(line, key_separator());
            match value {
                None => Err(ErrorKind::Header),
                Some(value) => match read_headers(s.subrange(n as int, s.len() as int)) {
                    Ok((hs, m)) => Ok((seq![(key, value)] + hs, n + m)),
                    Err(e) => Err(e),
                },
            }
        }
    }
}

/// Reading headers never takes more than the stream holds.
pub proof fn lemma_read_headers_len(s: Seq<u8>)
    ensures
        read_headers(s) matches Ok((_, m)) ==> 0 <= m <= s.len(),
    decreases s.len(),
{
    lemma_line_end(s);
    if s.len() > 0 {
        lemma_read_headers_len(s.subrange(line_end(s) as int, s.len() as int));
    }
}

/// A header that reads back as written: no line feed in its key or value,
/// and no `: ` in its key.
pub open spec fn writable_header(h: (Seq<u8>, Seq<u8>)) -> bool {
    !h.0.contains(10) && !h.1.contains(10) && find_from(h.0, key_separator(), 0).is_none()
}

/// The lines of a sequence of headers, taken from the front.
proof fn lemma_headers_text_front(h: (Seq<u8>, Seq<u8>), hs: Seq<(Seq<u8>, Seq<u8>)>)
    ensures
        headers_text(seq![h] + hs) == header_line(h) + headers_text(hs),
    decreases hs.len(),
{
    let whole = seq![h] + hs;
    if hs.len() == 0 {
        assert(whole.drop_last() =~= Seq::<(Seq<u8>, Seq<u8>)>::empty());
        assert(whole.last() == h);
        assert(headers_text(Seq::<(Seq<u8>, Seq<u8>)>::empty()) == Seq::<u8>::empty());
        assert(headers_text(whole) == Seq::<u8>::empty() + header_line(h));
        assert(Seq::<u8>::empty() + header_line(h) =~= header_line(h));
        assert(header_line(h) + headers_text(hs) =~= header_line(h));
    } else {
        assert(whole.drop_last() =~= seq![h] + hs.drop_last());
        assert(whole.last() == hs.last());
        lemma_headers_text_front(h, hs.drop_last());
        assert(headers_text(whole) == headers_text(whole.drop_last()) + header_line(whole.last()));
        assert(header_line(h) + headers_text(hs.drop_last()) + header_line(hs.last())
            =~= header_line(h) + headers_text(hs));
    }
}

/// One written header line reads back as its key and value.
proof fn lemma_header_line(h: (Seq<u8>, Seq<u8>), rest: Seq<u8>)
    requires
        writable_header(h),
    ensures
        line_end(header_line(h) + rest) == header_line(h).len(),
        strip_eol(header_line(h)) == h.0 + key_separator() + h.1,
        split2(h.0 + key_separator() + h.1, key_separator()) == (h.0, Some(h.1)),
{
    let l = header_line(h);
    let k = h.0;
    let body = h.0 + key_separator() + h.1;
    assert forall|i: int| 0 <= i < l.len() - 1 implies l[i] != 10 by {
        if i < k.len() {
            assert(l[i] == k[i]);
            if l[i] == 10 {
                assert(k.contains(10));
            }
        } else if i >= k.len() + 2 && i < k.len() + 2 + h.1.len() {
            assert(l[i] == h.1[i - k.len() - 2]);
            if l[i] == 10 {
                assert(h.1.contains(10));
            }
        }
    }
    lemma_line_end_prefix(l, rest);
    assert(l.drop_last() =~= body + seq![13u8]);
    assert((body + seq![13u8]).drop_last() =~= body);
    let sep = key_separator();
    assert forall|j: int| 0 <= j < k.len() implies !occurs_at(body, sep, j) by {
        if j + 2 <= k.len() {
            lemma_find_from_none(k, sep, 0, j);
            assert(body.subrange(j, j + 2) =~= k.subrange(j, j + 2));
        } else {
            assert(body.subrange(j, j + 2)[1] == body[k.len() as int]);
            assert(body[k.len() as int] == 58);
        }
    }
    assert(body.subrange(k.len() as int, k.len() + 2int) =~= sep);
    lemma_find_from_first(body, sep, 0, k.len() as int);
    assert(body.subrange(0, k.len() as int) =~= k);
    assert(body.subrange(k.len() + 2int, body.len() as int) =~= h.1);
}

/// Written headers, followed by the blank line that ends them, read back as
/// the same keys and values in the same order, whatever follows.
pub proof fn lemma_headers_round_trip(hs: Seq<(Seq<u8>, Seq<u8>)>, rest: Seq<u8>)
    requires
        forall|i: int| 0 <= i < hs.len() ==> writable_header(#[trigger] hs[i]),
    ensures
        read_headers(headers_text(hs) + seq![13u8, 10] + rest) == Ok::<
            (Seq<(Seq<u8>, Seq<u8>)>, int),
            ErrorKind,
        >((hs, headers_text(hs).len() + 2int)),
    decreases hs.len(),
{
    let s = headers_text(hs) + seq![13u8, 10] + rest;
    if hs.len() == 0 {
        assert(s =~= seq![13u8, 10] + rest);
        lemma_line_end_prefix(seq![13u8, 10], rest);
        assert(s.subrange(0, 2) =~= seq![13u8, 10]);
        assert(strip_eol(seq![13u8, 10]) =~= Seq::<u8>::empty());
        assert(hs =~= Seq::<(Seq<u8>, Seq<u8>)>::empty());
        assert(headers_text(hs).len() == 0);
    } else {
        let h = hs[0];
        let tail = hs.drop_first();
        assert(hs =~= seq![h] + tail);
        lemma_headers_text_front(h, tail);
        let after = headers_text(tail) + seq![13u8, 10] + rest;
        assert(s =~= header_line(h) + after);
        assert(writable_header(hs[0]));
        lemma_header_line(h, after);
        let n = header_line(h).len();
        assert(s.subrange(0, n as int) =~= header_line(h));
        assert(s.subrange(n as int, s.len() as int) =~= after);
        assert forall|i: int| 0 <= i < tail.len() implies writable_header(#[trigger] tail[i]) by {
            assert(tail[i] == hs[i + 1]);
        }
        lemma_headers_round_trip(tail, rest);
        assert(seq![h] + tail =~= hs);
        assert(strip_eol(header_line(h)).len() > 0);
        assert(line_end(s) == n);
        let line = strip_eol(s.subrange(0, n as int));
        assert(split2(line, key_separator()) == (h.0, Some(h.1)));
        assert((h.0, h.1) == h);
        assert(read_headers(after) == Ok::<(Seq<(Seq<u8>, Seq<u8>)>, int), ErrorKind>(
            (tail, headers_text(tail).len() + 2int),
        ));
        assert(headers_text(hs).len() == n + headers_text(tail).len());
        assert(read_headers(s) == Ok::<(Seq<(Seq<u8>, Seq<u8>)>, int), ErrorKind>(
            (seq![(h.0, h.1)] + tail, n + headers_text(tail).len() + 2int),
        ));
    }
}

/// A read that has already taken the headers `acc` out of the first `used`
/// bytes, then went on as `r`.
pub open spec fn continued(
    acc: Seq<(Seq<u8>, Seq<u8>)>,
    used: int,
    r: Result<(Seq<(Seq<u8>, Seq<u8>)>, int), ErrorKind>,
) -> Result<(Seq<(Seq<u8>, Seq<u8>)>, int), ErrorKind> {
    match r {
        Ok((hs, m)) => Ok((acc + hs, used + m)),
        Err(e) => Err(e),
    }
}

impl HeaderSet {
    /// An empty set.
    pub fn new() -> (r: HeaderSet)
        ensures
            r@ == Seq::<(Seq<u8>, Seq<u8>)>::empty(),
    {
        let r = HeaderSet { headers: Vec::new() };
        assert(r@ =~= Seq::<(Seq<u8>, Seq<u8>)>::empty());
        r
    }

    /// Adds a header after the others, whether or not its key is present.
    pub fn add(&mut self, name: &str, value: &str)
        ensures
            final(self)@ == old(self)@.push((name.spec_bytes(), value.spec_bytes())),
    {
        self.add_bytes(name.as_bytes(), value.as_bytes());
    }

    /// Adds a header after the others, whether or not its key is present.
    pub fn add_bytes(&mut self, name: &[u8], value: &[u8])
        ensures
            final(self)@ == old(self)@.push((name@, value@)),
    {
        let ghost before = self.headers@;
        self.headers.push(Header { key: copy_all(name), value: copy_all(value) });
        assert(headers_view(self.headers@) =~= headers_view(before).push((name@, value@)));
    }

    /// Adds a header unless one with its key is present.
    pub fn add_default(&mut self, name: &str, value: &str)
        ensures
            final(self)@ == if lookup(old(self)@, name.spec_bytes()).is_none() {
                old(self)@.push((name.spec_bytes(), value.spec_bytes()))
            } else {
                old(self)@
            },
    {
        self.add_default_bytes(name.as_bytes(), value.as_bytes());
    }

    /// Adds a header unless one with its key is present.
    pub fn add_default_bytes(&mut self, name: &[u8], value: &[u8])
        ensures
            final(self)@ == if lookup(old(self)@, name@).is_none() {
                old(self)@.push((name@, value@))
            } else {
                old(self)@
            },
    {
        if self.get_bytes(name).is_none() {
            self.add_bytes(name, value);
        }
    }

    /// The value of the first header whose key is `name`.
    pub fn get(&self, name: &str) -> (r: Option<Vec<u8>>)
        ensures
            match r {
                Some(v) => lookup(self@, name.spec_bytes()) == Some(v@),
                None => lookup(self@, name.spec_bytes()).is_none(),
            },
    {
        self.get_bytes(name.as_bytes())
    }

    /// The value of the first header whose key is `name`.
    pub fn get_bytes(&self, name: &[u8]) -> (r: Option<Vec<u8>>)
        ensures
            match r {
                Some(v) => lookup(self@, name@) == Some(v@),
                None => lookup(self@, name@).is_none(),
            },
    {
        let n = self.headers.len();
        let ghost hs = self@;
        let mut i: usize = 0;
        assert(hs.subrange(0, n as int) =~= hs);
        while i < n
            invariant
                n == self.headers@.len(),
                hs == self@,
                i <= n,
                lookup(hs, name@) == lookup(hs.subrange(i as int, n as int), name@),
            decreases n - i,
        {
            assert(hs.subrange(i as int, n as int).drop_first() =~= hs.subrange(i + 1, n as int));
            if same_bytes(self.headers[i].key.as_slice(), name) {
                return Some(copy_all(self.headers[i].value.as_slice()));
            }
            i = i + 1;
        }
        None
    }

    /// Reads headers from `reader` up to and including the blank line that
    /// ends them. Lines are read as bytes and need not be UTF-8. A line
    /// without `: ` fails with `Error::Header`; a stream
    /// that ends first fails with `Error::Io`.
    pub fn read(reader: &mut Reader) -> (r: Result<HeaderSet, Error>)
        ensures
            match r {
                Ok(h) => match read_headers(old(reader)@) {
                    Ok((hs, n)) => hs == h@ && final(reader)@ == old(reader)@.subrange(
                        n,
                        old(reader)@.len() as int,
                    ),
                    Err(_) => false,
                },
                Err(e) => read_headers(old(reader)@) == Err::<
                    (Seq<(Seq<u8>, Seq<u8>)>, int),
                    ErrorKind,
                >(e.kind()),
            },
    {
        let ghost orig = reader@;
        let mut set = HeaderSet::new();
        let sep = vec![58u8, 32];
        assert(sep@ =~= key_separator());
        let ghost mut used: int = 0;
        loop
            invariant
                sep@ == key_separator(),
                orig == old(reader)@,
                0 <= used <= orig.len(),
                reader@ == orig.subrange(used, orig.len() as int),
                read_headers(orig) == continued(set@, used, read_headers(reader@)),
            decreases reader@.len(),
        {
            let ghost cur = reader@;
            if reader.remaining() == 0 {
                return Err(Error::io("stream ended before the end of the headers"));
            }
            let raw = reader.read_line();
            let line = strip_line(raw.as_slice());
            let ghost n = line_end(cur);
            proof {
                lemma_line_end(cur);
            }
            assert(reader@ =~= orig.subrange(used + n, orig.len() as int));
            if line.len() == 0 {
                assert(set@ + seq![] =~= set@);
                return Ok(set);
            }
            let (key, value) = split_once(line.as_slice(), sep.as_slice());
            match value {
                None => {
                    return Err(Error::header("Missing header value"));
                },
                Some(value) => {
                    let ghost before = set@;
                    set.add_bytes(key.as_slice(), value.as_slice());
                    proof {
                        let rest = read_headers(reader@);
                        match rest {
                            Ok((hs, m)) => {
                                assert(before + (seq![(key@, value@)] + hs) =~= set@ + hs);
                            },
                            Err(e) => {},
                        }
                        used = used + n;
                    }
                },
            }
        }
    }

    /// Writes every header as `key: value` and CR LF at the end of `out`;
    /// no blank line follows.
    pub fn write(&self, out: &mut Vec<u8>)
        ensures
            final(out)@ == old(out)@ + headers_text(self@),
    {
        let n = self.headers.len();
        let ghost hs = self@;
        let mut i: usize = 0;
        while i < n
            invariant
                n == self.headers@.len(),
                hs == self@,
                i <= n,
                out@ == old(out)@ + headers_text(hs.subrange(0, i as int)),
            decreases n - i,
        {
            let h = &self.headers[i];
            push_all(out, h.key.as_slice());
            out.push(58u8);
            out.push(32u8);
            push_all(out, h.value.as_slice());
            out.push(13u8);
            out.push(10u8);
            assert(hs.subrange(0, i + 1).drop_last() =~= hs.subrange(0, i as int));
            assert(out@ =~= old(out)@ + headers_text(hs.subrange(0, i + 1)));
            i = i + 1;
        }
        assert(hs.subrange(0, n as int) =~= hs);
    }
}

/// A line without its ending: one line feed, then one carriage return.
pub fn strip_line(l: &[u8]) -> (r: Vec<u8>)
    ensures
        r@ == strip_eol(l@),
{
    let mut end = l.len();
    if end > 0 && l[end - 1] == 10 {
        end = end - 1;
    }
    if end > 0 && l[end - 1] == 13 {
        end = end - 1;
    }
    let r = crate::text::copy_range(l, 0, end);
    assert(r@ =~= strip_eol(l@));
    r
}

/// Whether the headers at the front of `s` have fully arrived: every line up
/// to a blank one is there, each ended by a line feed.
pub open spec fn headers_arrived(s: Seq<u8>) -> bool
    decreases s.len(),
{
    let n = line_end(s);
    // The second test never holds (see `lemma_line_end`); it bounds the recursion.
    if n == 0 || n > s.len() || s[n - 1] != 10 {
        false
    } else if strip_eol(s.subrange(0, n as int)).len() == 0 {
        true
    } else {
        headers_arrived(s.subrange(n as int, s.len() as int))
    }
}

/// Whether the headers at the front of `s` have fully arrived.
pub fn headers_complete(s: &[u8]) -> (r: bool)
    ensures
        r == headers_arrived(s@),
{
    let mut reader = Reader::new(copy_all(s));
    loop
        invariant
            headers_arrived(s@) == headers_arrived(reader@),
        decreases reader@.len(),
    {
        let ghost cur = reader@;
        proof {
            lemma_line_end(cur);
        }
        let raw = reader.read_line();
        let n = raw.len();
        if n == 0 || raw[n - 1] != 10 {
            return false;
        }
        if strip_line(raw.as_slice()).len() == 0 {
            return true;
        }
    }
}

} // verus!

//! Body framing: a body is read by its declared length or in chunks, and
//! always written with its length.

use crate::error::{Error, ErrorKind};
use crate::header::{headers_arrived, headers_complete, read_headers, HeaderSet};
use crate::stream::{lemma_line_end, line_end, take_len, Reader};
use crate::text::{lookup, parse_number, parse_unsigned, push_all, push_decimal, same_bytes, trim, trim_bytes, decimal};
use vstd::prelude::*;

verus! {

/// The key `Content-Length`.
pub open spec fn content_length_key() -> Seq<u8> {
    seq![67u8, 111, 110, 116, 101, 110, 116, 45, 76, 101, 110, 103, 116, 104]
}

/// The key `Transfer-Encoding`.
pub open spec fn transfer_encoding_key() -> Seq<u8> {
    seq![84u8, 114, 97, 110, 115, 102, 101, 114, 45, 69, 110, 99, 111, 100, 105, 110, 103]
}

/// The one transfer coding read: `chunked`.
pub open spec fn chunked() -> Seq<u8> {
    seq![99u8, 104, 117, 110, 107, 101, 100]
}

/// A body of the declared length `value`, read from the front of `s`, with
/// the number of bytes it takes; fewer when `s` ends first. A length that
/// is not a number fails as a header error.
pub open spec fn read_length_of(value: Seq<u8>, s: Seq<u8>) -> Result<(Seq<u8>, int), ErrorKind> {
    match parse_unsigned(value, 10, usize::MAX as int) {
        None => Err(ErrorKind::Header),
        Some(n) => Ok((s.subrange(0, take_len(s, n)), take_len(s, n))),
    }
}

/// A chunked body read from the front of `s`, with the number of bytes it
/// takes. Each line gives a chunk's length in hexadecimal, and that many
/// bytes follow it at once; the first line that is blank once trimmed (or
/// the end of `s`) ends the body.
pub open spec fn read_chunks(s: Seq<u8>) -> Result<(Seq<u8>, int), ErrorKind>
    decreases s.len(),
{
    let n = line_end(s);
    let line = trim(s.subrange(0, n as int));
    // The second test never holds (see `lemma_line_end`); it bounds the recursion.
    if n == 0 || n > s.len() || line.len() == 0 {
        Ok((seq![], n as int))
    } else {
        match parse_unsigned(line, 16, usize::MAX as int) {
            None => Err(ErrorKind::Header),
            Some(c) => {
                let rest = s.subrange(n as int, s.len() as int);
                let k = take_len(rest, c);
                match read_chunks(rest.subrange(k, rest.len() as int)) {
                    Ok((b, m)) => Ok((rest.subrange(0, k) + b, n + k + m)),
                    Err(e) => Err(e),
                }
            },
        }
    }
}

/// Reading chunks never takes more than the stream holds.
pub proof fn lemma_read_chunks_len(s: Seq<u8>)
    ensures
        read_chunks(s) matches Ok((_, m)) ==> 0 <= m <= s.len(),
    decreases s.len(),
{
    lemma_line_end(s);
    let n = line_end(s);
    if n > 0 && n <= s.len() {
        let rest = s.subrange(n as int, s.len() as int);
        let line = trim(s.subrange(0, n as int));
        if let Some(c) = parse_unsigned(line, 16, usize::MAX as int) {
            let k = take_len(rest, c);
            lemma_read_chunks_len(rest.subrange(k, rest.len() as int));
        }
    }
}

/// Reading a body never takes more than the stream holds.
pub proof fn lemma_read_body_len(hs: Seq<(Seq<u8>, Seq<u8>)>, s: Seq<u8>)
    ensures
        read_body_of(hs, s) matches Ok((_, m)) ==> 0 <= m <= s.len(),
{
    lemma_read_chunks_len(s);
}

/// A body in the transfer coding `value`: only `chunked` is read.
pub open spec fn read_transfer_of(value: Seq<u8>, s: Seq<u8>) -> Result<(Seq<u8>, int), ErrorKind> {
    if value != chunked() {
        Err(ErrorKind::Header)
    } else {
        read_chunks(s)
    }
}

/// The body that the headers `hs` announce, read from the front of `s`:
/// by `Content-Length` when present, else by `Transfer-Encoding` when
/// present, else empty.
pub open spec fn read_body_of(hs: Seq<(Seq<u8>, Seq<u8>)>, s: Seq<u8>) -> Result<(Seq<u8>, int), ErrorKind> {
    match lookup(hs, content_length_key()) {
        Some(v) => read_length_of(v, s),
        None => match lookup(hs, transfer_encoding_key()) {
            Some(v) => read_transfer_of(v, s),
            None => Ok((seq![], 0)),
        },
    }
}

/// How a body is written: `Content-Length: `, its length, CR LF twice, then
/// the body.
pub open spec fn body_text(body: Seq<u8>) -> Seq<u8> {
    seq![67u8, 111, 110, 116, 101, 110, 116, 45, 76, 101, 110, 103, 116, 104, 58, 32] + decimal(body.len()) + seq![13u8, 10, 13, 10] + body
}

/// What a read of `f` took from `s` when it returned `r`: the result and
/// what is left unread.
pub open spec fn read_as(
    f: Result<(Seq<u8>, int), ErrorKind>,
    r: Result<Vec<u8>, Error>,
    s: Seq<u8>,
    left: Seq<u8>,
) -> bool {
    match r {
        Ok(b) => match f {
            Ok((body, n)) => b@ == body && left == s.subrange(n, s.len() as int),
            Err(_) => false,
        },
        Err(e) => f == Err::<(Seq<u8>, int), ErrorKind>(e.kind()),
    }
}

/// Reads the body that `headers` announce from `reader`.
pub fn read_body(headers: &HeaderSet, reader: &mut Reader) -> (r: Result<Vec<u8>, Error>)
    ensures
        read_as(read_body_of(headers@, old(reader)@), r, old(reader)@, final(reader)@),
{
    let cl = vec![67u8, 111, 110, 116, 101, 110, 116, 45, 76, 101, 110, 103, 116, 104];
    let te = vec![84u8, 114, 97, 110, 115, 102, 101, 114, 45, 69, 110, 99, 111, 100, 105, 110, 103];
    assert(cl@ =~= content_length_key());
    assert(te@ =~= transfer_encoding_key());
    match headers.get_bytes(cl.as_slice()) {
        Some(v) => read_length(v.as_slice(), reader),
        None => match headers.get_bytes(te.as_slice()) {
            Some(v) => read_transfer(v.as_slice(), reader),
            None => {
                assert(old(reader)@.subrange(0, old(reader)@.len() as int) =~= old(reader)@);
                Ok(Vec::new())
            },
        },
    }
}

/// Reads a body of the declared length `length` (a decimal number) from
/// `reader`; a stream that ends first gives fewer bytes.
pub fn read_length(length: &[u8], reader: &mut Reader) -> (r: Result<Vec<u8>, Error>)
    ensures
        read_as(read_length_of(length@, old(reader)@), r, old(reader)@, final(reader)@),
        parse_unsigned(length@, 10, usize::MAX as int).is_none() ==> final(reader)@ == old(reader)@,
{
    match parse_number(length, 10, usize::MAX as u64) {
        None => Err(Error::header("Invalid Content-Length")),
        Some(n) => Ok(reader.take(n as usize)),
    }
}

/// Reads a body in the transfer coding `transfer` from `reader`; only
/// `chunked` is read, any other coding fails with `Error::Header`.
pub fn read_transfer(transfer: &[u8], reader: &mut Reader) -> (r: Result<Vec<u8>, Error>)
    ensures
        read_as(read_transfer_of(transfer@, old(reader)@), r, old(reader)@, final(reader)@),
        transfer@ != chunked() ==> final(reader)@ == old(reader)@,
{
    let ch = vec![99u8, 104, 117, 110, 107, 101, 100];
    assert(ch@ =~= chunked());
    if !same_bytes(transfer, ch.as_slice()) {
        return Err(Error::header("Unsupported Transfer-Encoding"));
    }
    let ghost orig = reader@;
    let mut body: Vec<u8> = Vec::new();
    let ghost mut used: int = 0;
    loop
        invariant
            orig == old(reader)@,
            transfer@ == chunked(),
            0 <= used <= orig.len(),
            reader@ == orig.subrange(used, orig.len() as int),
            read_chunks(orig) == match read_chunks(reader@) {
                Ok((b, m)) => Ok((body@ + b, used + m)),
                Err(e) => Err(e),
            },
        decreases reader@.len(),
    {
        let ghost cur = reader@;
        proof {
            lemma_line_end(cur);
        }
        let raw = reader.read_line();
        let line = trim_bytes(raw.as_slice());
        let ghost n = line_end(cur);
        assert(reader@ =~= orig.subrange(used + n, orig.len() as int));
        if raw.len() == 0 || line.len() == 0 {
            assert(body@ + seq![] =~= body@);
            proof {
                assert(read_chunks(cur) == Ok::<(Seq<u8>, int), ErrorKind>((seq![], n as int)));
            }
            return Ok(body);
        }
        let c = match parse_number(line.as_slice(), 16, usize::MAX as u64) {
            Some(c) => c as usize,
            None => return Err(Error::header("Invalid Transfer-Encoding")),
        };
        let ghost rest = reader@;
        let chunk = reader.take(c);
        let ghost k = take_len(rest, c as int);
        let ghost before = body@;
        push_all(&mut body, chunk.as_slice());
        proof {
            assert(reader@ =~= orig.subrange(used + n + k, orig.len() as int));
            match read_chunks(reader@) {
                Ok((b, m)) => {
                    assert(before + (rest.subrange(0, k) + b) =~= body@ + b);
                },
                Err(e) => {},
            }
            used = used + n + k;
        }
    }
}

/// Writes `body` at the end of `out`, framed by its length:
/// `Content-Length: <len>`, a blank line, then the bytes.
pub fn write_body(body: &[u8], out: &mut Vec<u8>)
    ensures
        final(out)@ == old(out)@ + body_text(body@),
{
    let prefix = vec![67u8, 111, 110, 116, 101, 110, 116, 45, 76, 101, 110, 103, 116, 104, 58, 32];
    push_all(out, prefix.as_slice());
    push_decimal(out, body.len() as u64);
    out.push(13u8);
    out.push(10u8);
    out.push(13u8);
    out.push(10u8);
    push_all(out, body);
    assert(final(out)@ =~= old(out)@ + body_text(body@));
}

/// Whether a chunked body has fully arrived at the front of `s`: every line
/// it reads is ended by a line feed, every chunk's bytes are there, and a
/// blank line (or a chunk length that is not a number) ends it.
pub open spec fn chunks_arrived(s: Seq<u8>) -> bool
    decreases s.len(),
{
    let n = line_end(s);
    // The second test never holds (see `lemma_line_end`); it bounds the recursion.
    if n == 0 || n > s.len() || s[n - 1] != 10 {
        false
    } else {
        let line = trim(s.subrange(0, n as int));
        if line.len() == 0 {
            true
        } else {
            match parse_unsigned(line, 16, usize::MAX as int) {
                None => true,
                Some(c) => {
                    let rest = s.subrange(n as int, s.len() as int);
                    if c > rest.len() {
                        false
                    } else {
                        chunks_arrived(rest.subrange(take_len(rest, c), rest.len() as int))
                    }
                },
            }
        }
    }
}

/// Whether the body that the headers `hs` announce has fully arrived at the
/// front of `s`, or is known to be malformed: all the declared length is
/// there, or the chunks and the blank line after them are. A message with
/// neither header has no body to wait for.
pub open spec fn body_arrived(hs: Seq<(Seq<u8>, Seq<u8>)>, s: Seq<u8>) -> bool {
    match lookup(hs, content_length_key()) {
        Some(v) => match parse_unsigned(v, 10, usize::MAX as int) {
            None => true,
            Some(n) => n <= s.len(),
        },
        None => match lookup(hs, transfer_encoding_key()) {
            Some(v) => v != chunked() || chunks_arrived(s),
            None => true,
        },
    }
}

/// Whether a chunked body has fully arrived at the front of `s`.
pub fn chunks_complete(s: &[u8]) -> (r: bool)
    ensures
        r == chunks_arrived(s@),
{
    let mut reader = Reader::new(crate::text::copy_all(s));
    loop
        invariant
            chunks_arrived(s@) == chunks_arrived(reader@),
        decreases reader@.len(),
    {
        let ghost cur = reader@;
        proof {
            lemma_line_end(cur);
        }
        let raw = reader.read_line();
        let n = raw.len();
        if n == 0 || raw[n - 1] != 10 {
            return false;
        }
        assert(raw@ == cur.subrange(0, line_end(cur) as int));
        let line = trim_bytes(raw.as_slice());
        if line.len() == 0 {
            return true;
        }
        let c = match parse_number(line.as_slice(), 16, usize::MAX as u64) {
            Some(c) => c as usize,
            None => return true,
        };
        if c > reader.remaining() {
            return false;
        }
        let ghost rest = reader@;
        let _ = reader.take(c);
        assert(reader@ =~= rest.subrange(c as int, rest.len() as int));
    }
}

/// Whether the body that `headers` announce has fully arrived at the front
/// of `s`, or is known to be malformed.
pub fn body_complete(headers: &HeaderSet, s: &[u8]) -> (r: bool)
    ensures
        r == body_arrived(headers@, s@),
{
    let cl = vec![67u8, 111, 110, 116, 101, 110, 116, 45, 76, 101, 110, 103, 116, 104];
    let te = vec![84u8, 114, 97, 110, 115, 102, 101, 114, 45, 69, 110, 99, 111, 100, 105, 110, 103];
    let ch = vec![99u8, 104, 117, 110, 107, 101, 100];
    assert(cl@ =~= content_length_key());
    assert(te@ =~= transfer_encoding_key());
    assert(ch@ =~= chunked());
    match headers.get_bytes(cl.as_slice()) {
        Some(v) => match parse_number(v.as_slice(), 10, usize::MAX as u64) {
            None => true,
            Some(n) => (n as usize) <= s.len(),
        },
        None => match headers.get_bytes(te.as_slice()) {
            Some(v) => !same_bytes(v.as_slice(), ch.as_slice()) || chunks_complete(s),
            None => true,
        },
    }
}

/// Whether what follows the first line of a message has fully arrived at
/// the front of `s`, or is known to be malformed: the headers up to a blank
/// line, then the body they announce.
pub open spec fn after_line_arrived(s: Seq<u8>) -> bool {
    headers_arrived(s) && match read_headers(s) {
        Err(_) => true,
        Ok((hs, m)) => body_arrived(hs, s.subrange(m, s.len() as int)),
    }
}

/// Whether what follows the first line of a message has fully arrived at
/// the front of `s`.
pub fn after_line_complete(s: &[u8]) -> (r: bool)
    ensures
        r == after_line_arrived(s@),
{
    if !headers_complete(s) {
        return false;
    }
    let mut reader = Reader::new(crate::text::copy_all(s));
    match HeaderSet::read(&mut reader) {
        Err(_) => true,
        Ok(headers) => {
            let rest = reader.unread();
            body_complete(&headers, rest.as_slice())
        },
    }
}

} // verus!

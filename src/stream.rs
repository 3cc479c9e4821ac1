//! The incoming side of a byte stream: the bytes received so far, read from
//! the front, one line or a counted run at a time.

use vstd::prelude::*;

verus! {

/// The length of the first line of `s`, its line feed included; the whole
/// of `s` when no line feed ends it.
pub open spec fn line_end(s: Seq<u8>) -> nat
    decreases s.len(),
{
    if s.len() == 0 {
        0
    } else if s[0] == 10 {
        1
    } else {
        1 + line_end(s.drop_first())
    }
}

/// A line lies within the stream, and is not empty unless the stream is.
pub proof fn lemma_line_end(s: Seq<u8>)
    ensures
        line_end(s) <= s.len(),
        s.len() > 0 ==> line_end(s) >= 1,
    decreases s.len(),
{
    if s.len() > 0 && s[0] != 10 {
        lemma_line_end(s.drop_first());
    }
}

/// A line that ends with its only line feed is the first line of anything
/// that follows it.
pub proof fn lemma_line_end_prefix(a: Seq<u8>, b: Seq<u8>)
    requires
        a.len() > 0,
        a.last() == 10,
        forall|i: int| 0 <= i < a.len() - 1 ==> a[i] != 10,
    ensures
        line_end(a + b) == a.len(),
    decreases a.len(),
{
    if a.len() > 1 {
        assert((a + b).drop_first() =~= a.drop_first() + b);
        lemma_line_end_prefix(a.drop_first(), b);
    }
}

/// A line without its ending: one line feed, then one carriage return.
pub open spec fn strip_eol(l: Seq<u8>) -> Seq<u8> {
    let a = if l.len() > 0 && l.last() == 10 {
        l.drop_last()
    } else {
        l
    };
    if a.len() > 0 && a.last() == 13 {
        a.drop_last()
    } else {
        a
    }
}

/// `n` bytes, or all of `s` when it holds fewer.
pub open spec fn take_len(s: Seq<u8>, n: int) -> int {
    if n < 0 {
        0
    } else if n < s.len() {
        n
    } else {
        s.len() as int
    }
}

/// The unread bytes of a stream. Messages are read from it as bytes; no
/// line needs to be UTF-8.
pub struct Reader {
    data: Vec<u8>,
    pos: usize,
}

impl View for Reader {
    type V = Seq<u8>;

    closed spec fn view(&self) -> Seq<u8> {
        self.data@.subrange(self.pos as int, self.data@.len() as int)
    }
}

impl Reader {
    #[verifier::type_invariant]
    spec fn inv(&self) -> bool {
        self.pos <= self.data@.len()
    }

    /// A stream whose unread bytes are `data`.
    pub fn new(data: Vec<u8>) -> (r: Reader)
        ensures
            r@ == data@,
    {
        let r = Reader { data, pos: 0 };
        assert(r.data@.subrange(0, r.data@.len() as int) =~= r.data@);
        r
    }

    /// The number of unread bytes.
    pub fn remaining(&self) -> (r: usize)
        ensures
            r == self@.len(),
    {
        proof {
            use_type_invariant(self);
        }
        self.data.len() - self.pos
    }

    /// A copy of the unread bytes; nothing is consumed.
    pub fn unread(&self) -> (r: Vec<u8>)
        ensures
            r@ == self@,
    {
        proof {
            use_type_invariant(self);
        }
        let mut r: Vec<u8> = Vec::new();
        let n = self.data.len();
        let mut i = self.pos;
        while i < n
            invariant
                n == self.data@.len(),
                self.pos <= i <= n,
                r@ == self.data@.subrange(self.pos as int, i as int),
            decreases n - i,
        {
            r.push(self.data[i]);
            i = i + 1;
            assert(r@ =~= self.data@.subrange(self.pos as int, i as int));
        }
        r
    }

    /// Consumes and returns the first line, its line feed included (the
    /// rest of the stream when no line feed comes; nothing at its end).
    pub fn read_line(&mut self) -> (r: Vec<u8>)
        ensures
            r@ == old(self)@.subrange(0, line_end(old(self)@) as int),
            final(self)@ == old(self)@.subrange(line_end(old(self)@) as int, old(self)@.len() as int),
    {
        proof {
            use_type_invariant(&*self);
        }
        let ghost s = self@;
        let n = self.data.len();
        let start = self.pos;
        let mut r: Vec<u8> = Vec::new();
        let mut i = start;
        let mut done = false;
        while i < n && !done
            invariant
                n == self.data@.len(),
                start == self.pos,
                start <= i <= n,
                s == self.data@.subrange(start as int, n as int),
                r@ == self.data@.subrange(start as int, i as int),
                !done ==> line_end(s) == (i - start) + line_end(
                    self.data@.subrange(i as int, n as int),
                ),
                done ==> line_end(s) == i - start,
            decreases n - i,
        {
            let b = self.data[i];
            r.push(b);
            assert(self.data@.subrange(i as int, n as int).drop_first() =~= self.data@.subrange(
                i + 1,
                n as int,
            ));
            i = i + 1;
            assert(r@ =~= self.data@.subrange(start as int, i as int));
            if b == 10 {
                done = true;
            }
        }
        proof {
            if !done {
                assert(self.data@.subrange(i as int, n as int).len() == 0);
            }
            assert(r@ =~= s.subrange(0, line_end(s) as int));
        }
        self.pos = i;
        assert(self@ =~= s.subrange(line_end(s) as int, s.len() as int));
        r
    }

    /// Consumes and returns the next `n` bytes, or all that are left when
    /// fewer are.
    pub fn take(&mut self, n: usize) -> (r: Vec<u8>)
        ensures
            r@ == old(self)@.subrange(0, take_len(old(self)@, n as int)),
            final(self)@ == old(self)@.subrange(take_len(old(self)@, n as int), old(self)@.len() as int),
    {
        proof {
            use_type_invariant(&*self);
        }
        let ghost s = self@;
        let len = self.data.len();
        let start = self.pos;
        let end = if n < len - start {
            start + n
        } else {
            len
        };
        let mut r: Vec<u8> = Vec::new();
        let mut i = start;
        while i < end
            invariant
                len == self.data@.len(),
                start == self.pos,
                start <= i <= end <= len,
                r@ == self.data@.subrange(start as int, i as int),
            decreases end - i,
        {
            r.push(self.data[i]);
            i = i + 1;
            assert(r@ =~= self.data@.subrange(start as int, i as int));
        }
        assert(r@ =~= s.subrange(0, take_len(s, n as int)));
        self.pos = end;
        assert(self@ =~= s.subrange(take_len(s, n as int), s.len() as int));
        r
    }
}

} // verus!

//! HTTP request methods and their tokens.

use crate::error::Error;
use crate::text::{push_all, same_bytes};
use vstd::prelude::*;
use vstd::string::StringSliceAdditionalSpecFns;

verus! {

/// A HTTP request method.
#[derive(Debug, Clone, Copy, PartialEq, Eq, Structural)]
pub enum Verb {
    Connect,
    Delete,
    Get,
    Head,
    Options,
    Patch,
    Post,
    Put,
    Trace,
}

/// The canonical upper-case token of a method, in ASCII codes.
pub open spec fn verb_token(v: Verb) -> Seq<u8> {
    match v {
        Verb::Connect => seq![67u8, 79, 78, 78, 69, 67, 84],
        Verb::Delete => seq![68u8, 69, 76, 69, 84, 69],
        Verb::Get => seq![71u8, 69, 84],
        Verb::Head => seq![72u8, 69, 65, 68],
        Verb::Options => seq![79u8, 80, 84, 73, 79, 78, 83],
        Verb::Patch => seq![80u8, 65, 84, 67, 72],
        Verb::Post => seq![80u8, 79, 83, 84],
        Verb::Put => seq![80u8, 85, 84],
        Verb::Trace => seq![84u8, 82, 65, 67, 69],
    }
}

/// The method whose token is `t`, if any.
pub open spec fn verb_of(t: Seq<u8>) -> Option<Verb> {
    if exists|v: Verb| verb_token(v) == t {
        Some(choose|v: Verb| verb_token(v) == t)
    } else {
        None
    }
}

/// Two methods with one token are one method.
pub proof fn lemma_verb_token_injective(a: Verb, b: Verb)
    ensures
        verb_token(a) == verb_token(b) ==> a == b,
{
    if verb_token(a) == verb_token(b) {
        assert(verb_token(a).len() == verb_token(b).len());
        assert(verb_token(a)[0] == verb_token(b)[0]);
        assert(verb_token(a)[1] == verb_token(b)[1]);
    }
}

impl Verb {
    /// The method whose token is `text`; an unknown token fails with
    /// `Error::Verb`.
    pub fn parse(text: &str) -> (r: Result<Verb, Error>)
        ensures
            match r {
                Ok(v) => verb_of(text.spec_bytes()) == Some(v),
                Err(e) => verb_of(text.spec_bytes()).is_none() && e.kind()
                    == crate::error::ErrorKind::Verb,
            },
    {
        Verb::from_bytes(text.as_bytes())
    }

    /// The method whose token is `text`; an unknown token fails with
    /// `Error::Verb`.
    pub fn from_bytes(text: &[u8]) -> (r: Result<Verb, Error>)
        ensures
            match r {
                Ok(v) => verb_of(text@) == Some(v),
                Err(e) => verb_of(text@).is_none() && e.kind() == crate::error::ErrorKind::Verb,
            },
    {
        let all = [
            Verb::Connect,
            Verb::Delete,
            Verb::Get,
            Verb::Head,
            Verb::Options,
            Verb::Patch,
            Verb::Post,
            Verb::Put,
            Verb::Trace,
        ];
        let mut i: usize = 0;
        while i < 9
            invariant
                i <= 9,
                all@ == seq![
                    Verb::Connect,
                    Verb::Delete,
                    Verb::Get,
                    Verb::Head,
                    Verb::Options,
                    Verb::Patch,
                    Verb::Post,
                    Verb::Put,
                    Verb::Trace,
                ],
                forall|k: int| 0 <= k < i ==> verb_token(#[trigger] all@[k]) != text@,
            decreases 9 - i,
        {
            let v = all[i];
            let token = v.format();
            if same_bytes(token.as_slice(), text) {
                proof {
                    assert forall|w: Verb| verb_token(w) == text@ implies w == v by {
                        lemma_verb_token_injective(w, v);
                    }
                }
                return Ok(v);
            }
            i = i + 1;
        }
        proof {
            assert forall|w: Verb| verb_token(w) != text@ by {
                match w {
                    Verb::Connect => assert(all@[0] == w),
                    Verb::Delete => assert(all@[1] == w),
                    Verb::Get => assert(all@[2] == w),
                    Verb::Head => assert(all@[3] == w),
                    Verb::Options => assert(all@[4] == w),
                    Verb::Patch => assert(all@[5] == w),
                    Verb::Post => assert(all@[6] == w),
                    Verb::Put => assert(all@[7] == w),
                    Verb::Trace => assert(all@[8] == w),
                }
            }
        }
        Err(Error::Verb)
    }

    /// The canonical upper-case token of this method.
    pub fn format(&self) -> (r: Vec<u8>)
        ensures
            r@ == verb_token(*self),
    {
        let r = match self {
            Verb::Connect => vec![67u8, 79, 78, 78, 69, 67, 84],
            Verb::Delete => vec![68u8, 69, 76, 69, 84, 69],
            Verb::Get => vec![71u8, 69, 84],
            Verb::Head => vec![72u8, 69, 65, 68],
            Verb::Options => vec![79u8, 80, 84, 73, 79, 78, 83],
            Verb::Patch => vec![80u8, 65, 84, 67, 72],
            Verb::Post => vec![80u8, 79, 83, 84],
            Verb::Put => vec![80u8, 85, 84],
            Verb::Trace => vec![84u8, 82, 65, 67, 69],
        };
        assert(r@ =~= verb_token(*self));
        r
    }

    /// Writes this method's token at the end of `out`.
    pub fn write_token(&self, out: &mut Vec<u8>)
        ensures
            final(out)@ == old(out)@ + verb_token(*self),
    {
        let token = self.format();
        push_all(out, token.as_slice());
    }
}

} // verus!

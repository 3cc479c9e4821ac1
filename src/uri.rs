//! URLs: scheme, host, port, path and the ordered query arguments, as
//! bytes, with no percent-encoding or decoding.

use crate::error::{Error, ErrorKind};
use crate::text::{
    copy_all, copy_range, decimal, find, find_from, lemma_find_from, lookup, parse_number, parse_unsigned,
    push_all, push_decimal, same_bytes, split2, split_once,
};
use vstd::prelude::*;
use vstd::string::StringSliceAdditionalSpecFns;

verus! {

/// The transport a URL asks for.
#[derive(Debug, Clone, Copy, PartialEq, Eq, Structural)]
pub enum Protocol {
    Http,
    Https,
}

pub open spec fn default_port(p: Protocol) -> u32 {
    match p {
        Protocol::Http => 80,
        Protocol::Https => 443,
    }
}

impl Protocol {
    /// The port used when a URL names none: 80 for HTTP, 443 for HTTPS.
    pub fn default_port(&self) -> (r: u32)
        ensures
            r == default_port(*self),
    {
        match self {
            Protocol::Http => 80,
            Protocol::Https => 443,
        }
    }
}

/// A URL for a request or a response. Query arguments keep their order,
/// duplicates included.
#[derive(Debug)]
pub struct URL {
    pub host: Vec<u8>,
    pub port: u32,
    pub path: Vec<u8>,
    pub args: Vec<(Vec<u8>, Vec<u8>)>,
    pub protocol: Protocol,
}

/// What a [`URL`] holds, as sequences of bytes.
pub struct UrlView {
    pub host: Seq<u8>,
    pub port: u32,
    pub path: Seq<u8>,
    pub args: Seq<(Seq<u8>, Seq<u8>)>,
    pub protocol: Protocol,
}

pub open spec fn pairs_view(v: Seq<(Vec<u8>, Vec<u8>)>) -> Seq<(Seq<u8>, Seq<u8>)> {
    v.map_values(|a: (Vec<u8>, Vec<u8>)| (a.0@, a.1@))
}

impl View for URL {
    type V = UrlView;

    open spec fn view(&self) -> UrlView {
        UrlView {
            host: self.host@,
            port: self.port,
            path: self.path@,
            args: pairs_view(self.args@),
            protocol: self.protocol,
        }
    }
}

/// The argument that one `&`-separated piece of a query gives: the name
/// before the first `=`, the value after it; none when the name is empty.
pub open spec fn arg_of(piece: Seq<u8>) -> Seq<(Seq<u8>, Seq<u8>)> {
    let (name, value) = split2(piece, seq![61u8]);
    if name.len() == 0 {
        seq![]
    } else {
        seq![(name, value.unwrap_or(seq![]))]
    }
}

/// The arguments of the `&`-separated pieces of `q` from index `start` on.
pub open spec fn args_from(q: Seq<u8>, start: int) -> Seq<(Seq<u8>, Seq<u8>)>
    decreases q.len() + 1 - start,
{
    if start < 0 || start > q.len() {
        seq![]
    } else {
        match find_from(q, seq![38u8], start) {
            Some(i) => if start <= i < q.len() {
                arg_of(q.subrange(start, i)) + args_from(q, i + 1)
            } else {
                seq![]
            },
            None => arg_of(q.subrange(start, q.len() as int)),
        }
    }
}

/// The path of a request target: what comes before the first `?`, or `/`
/// for an empty target.
pub open spec fn target_path(text: Seq<u8>) -> Seq<u8> {
    if text.len() == 0 {
        seq![47u8]
    } else {
        split2(text, seq![63u8]).0
    }
}

/// The query arguments of a request target: those of what follows the
/// first `?`, if anything does.
pub open spec fn target_args(text: Seq<u8>) -> Seq<(Seq<u8>, Seq<u8>)> {
    match split2(text, seq![63u8]).1 {
        Some(q) => args_from(q, 0),
        None => seq![],
    }
}

/// The bytes `127.0.0.1`.
pub open spec fn loopback() -> Seq<u8> {
    seq![49u8, 50, 55, 46, 48, 46, 48, 46, 49]
}

/// The URL that a textual URL stands for, or the kind of error it gives.
pub open spec fn parse_url(s: Seq<u8>) -> Result<UrlView, ErrorKind> {
    let (scheme, rest) = split2(s, seq![58u8, 47, 47]);
    if scheme != seq![104u8, 116, 116, 112] && scheme != seq![104u8, 116, 116, 112, 115] {
        Err(ErrorKind::Protocol)
    } else {
        let protocol = if scheme == seq![104u8, 116, 116, 112] {
            Protocol::Http
        } else {
            Protocol::Https
        };
        match rest {
            None => Err(ErrorKind::URL),
            Some(r) => {
                let (location, tail) = split2(r, seq![47u8]);
                let (host, port_text) = split2(location, seq![58u8]);
                let port = match port_text {
                    None => Some(default_port(protocol) as int),
                    Some(t) => parse_unsigned(t, 10, u32::MAX as int),
                };
                match port {
                    None => Err(ErrorKind::URL),
                    Some(n) => {
                        let q = seq![47u8] + tail.unwrap_or(seq![]);
                        Ok(
                            UrlView {
                                host,
                                port: n as u32,
                                path: target_path(q),
                                args: target_args(q),
                                protocol,
                            },
                        )
                    },
                }
            },
        }
    }
}

/// A URL whose scheme is neither `http` nor `https` fails with an
/// unsupported-protocol error, whatever follows it.
pub proof fn lemma_unsupported_scheme(s: Seq<u8>)
    requires
        split2(s, seq![58u8, 47, 47]).0 != seq![104u8, 116, 116, 112],
        split2(s, seq![58u8, 47, 47]).0 != seq![104u8, 116, 116, 112, 115],
    ensures
        parse_url(s) == Err::<UrlView, ErrorKind>(ErrorKind::Protocol),
{
}

/// How one argument is written in a query: `name`, or `name=value` when the
/// value is not empty.
pub open spec fn arg_text(a: (Seq<u8>, Seq<u8>)) -> Seq<u8> {
    if a.1.len() == 0 {
        a.0
    } else {
        a.0 + seq![61u8] + a.1
    }
}

/// The arguments written one after the other, separated by `&`.
pub open spec fn args_text(args: Seq<(Seq<u8>, Seq<u8>)>) -> Seq<u8>
    decreases args.len(),
{
    if args.len() == 0 {
        seq![]
    } else if args.len() == 1 {
        arg_text(args[0])
    } else {
        args_text(args.drop_last()) + seq![38u8] + arg_text(args.last())
    }
}

/// The request target of a URL: its path, then `?` and its arguments if it
/// has any.
pub open spec fn query_text(u: UrlView) -> Seq<u8> {
    if u.args.len() == 0 {
        u.path
    } else {
        u.path + seq![63u8] + args_text(u.args)
    }
}

impl URL {
    /// The URL of a request target (path and query) read from a request
    /// line. Host and port are stand-ins: `127.0.0.1`, port 80, over HTTP.
    pub fn from_request(text: &str) -> (r: URL)
        ensures
            r@.host == loopback(),
            r@.port == 80,
            r@.protocol == Protocol::Http,
            r@.path == target_path(text.spec_bytes()),
            r@.args == target_args(text.spec_bytes()),
    {
        URL::from_target(text.as_bytes())
    }

    /// The URL of a request target given as bytes; see [`URL::from_request`].
    pub fn from_target(text: &[u8]) -> (r: URL)
        ensures
            r@.host == loopback(),
            r@.port == 80,
            r@.protocol == Protocol::Http,
            r@.path == target_path(text@),
            r@.args == target_args(text@),
    {
        let (path, args) = URL::parse_query(text);
        let host = vec![49u8, 50, 55, 46, 48, 46, 48, 46, 49];
        assert(host@ =~= loopback());
        URL { host, port: 80, path, args, protocol: Protocol::Http }
    }

    /// Reads a textual URL such as `http://example.com:8080/a?b=c`.
    ///
    /// The scheme must be `http` or `https` (else `Error::Protocol`); the
    /// port, when given, must be a number that fits in 32 bits (else
    /// `Error::URL`); without `://` the URL has no host (`Error::URL`).
    pub fn parse(url: &str) -> (r: Result<URL, Error>)
        ensures
            match r {
                Ok(u) => parse_url(url.spec_bytes()) == Ok::<UrlView, ErrorKind>(u@),
                Err(e) => parse_url(url.spec_bytes()) == Err::<UrlView, ErrorKind>(e.kind()),
            },
    {
        URL::parse_bytes(url.as_bytes())
    }

    /// Reads a textual URL given as bytes; see [`URL::parse`].
    pub fn parse_bytes(s: &[u8]) -> (r: Result<URL, Error>)
        ensures
            match r {
                Ok(u) => parse_url(s@) == Ok::<UrlView, ErrorKind>(u@),
                Err(e) => parse_url(s@) == Err::<UrlView, ErrorKind>(e.kind()),
            },
    {
        let sep = vec![58u8, 47, 47];
        let http = vec![104u8, 116, 116, 112];
        let https = vec![104u8, 116, 116, 112, 115];
        let (scheme, rest) = split_once(s, sep.as_slice());
        let protocol = if same_bytes(scheme.as_slice(), http.as_slice()) {
            Protocol::Http
        } else if same_bytes(scheme.as_slice(), https.as_slice()) {
            Protocol::Https
        } else {
            assert(http@ =~= seq![104u8, 116, 116, 112]);
            assert(https@ =~= seq![104u8, 116, 116, 112, 115]);
            return Err(Error::Protocol);
        };
        assert(http@ =~= seq![104u8, 116, 116, 112]);
        assert(sep@ =~= seq![58u8, 47, 47]);
        let rest = match rest {
            Some(r) => r,
            None => return Err(Error::url("No host")),
        };
        let slash = vec![47u8];
        let colon = vec![58u8];
        assert(slash@ =~= seq![47u8]);
        assert(colon@ =~= seq![58u8]);
        let (location, tail) = split_once(rest.as_slice(), slash.as_slice());
        let (host, port_text) = split_once(location.as_slice(), colon.as_slice());
        let port: u32 = match port_text {
            None => protocol.default_port(),
            Some(t) => match parse_number(t.as_slice(), 10, 4294967295) {
                Some(n) => n as u32,
                None => return Err(Error::url("Invalid port")),
            },
        };
        let mut q = vec![47u8];
        match tail {
            Some(t) => push_all(&mut q, t.as_slice()),
            None => {},
        }
        assert(q@ =~= seq![47u8] + split2(rest@, seq![47u8]).1.unwrap_or(seq![]));
        let (path, args) = URL::parse_query(q.as_slice());
        Ok(URL { host, port, path, args, protocol })
    }

    /// Splits a request target into its path and its query arguments.
    pub fn parse_query(text: &[u8]) -> (r: (Vec<u8>, Vec<(Vec<u8>, Vec<u8>)>))
        ensures
            r.0@ == target_path(text@),
            pairs_view(r.1@) == target_args(text@),
    {
        let question = vec![63u8];
        assert(question@ =~= seq![63u8]);
        let (before, after) = split_once(text, question.as_slice());
        let path = if text.len() == 0 {
            let p = vec![47u8];
            assert(p@ =~= seq![47u8]);
            p
        } else {
            before
        };
        let mut args: Vec<(Vec<u8>, Vec<u8>)> = Vec::new();
        match after {
            Some(q) => {
                URL::parse_args(q.as_slice(), &mut args);
            },
            None => {},
        }
        assert(pairs_view(args@) =~= target_args(text@));
        (path, args)
    }

    /// Appends to `args` the arguments of the `&`-separated pieces of `q`.
    fn parse_args(q: &[u8], args: &mut Vec<(Vec<u8>, Vec<u8>)>)
        ensures
            pairs_view(final(args)@) == pairs_view(old(args)@) + args_from(q@, 0),
    {
        let n = q.len();
        let amp = vec![38u8];
        let eq = vec![61u8];
        assert(amp@ =~= seq![38u8]);
        assert(eq@ =~= seq![61u8]);
        let mut start: usize = 0;
        loop
            invariant
                n == q@.len(),
                start <= n,
                amp@ == seq![38u8],
                eq@ == seq![61u8],
                pairs_view(old(args)@) + args_from(q@, 0) == pairs_view(args@) + args_from(
                    q@,
                    start as int,
                ),
            decreases n - start,
        {
            let found = find(q, amp.as_slice(), start);
            proof {
                lemma_find_from(q@, amp@, start as int);
            }
            let end = match found {
                Some(i) => i,
                None => n,
            };
            let piece = copy_range(q, start, end);
            let (name, value) = split_once(piece.as_slice(), eq.as_slice());
            let ghost before = args@;
            if name.len() > 0 {
                let v = match value {
                    Some(v) => v,
                    None => Vec::new(),
                };
                assert(v@ =~= split2(piece@, seq![61u8]).1.unwrap_or(seq![]));
                args.push((name, v));
                assert(pairs_view(args@) =~= pairs_view(before) + arg_of(piece@));
            } else {
                assert(pairs_view(args@) =~= pairs_view(before) + arg_of(piece@));
            }
            match found {
                Some(i) => {
                    assert(pairs_view(old(args)@) + args_from(q@, 0) =~= pairs_view(args@)
                        + args_from(q@, start as int + (i - start) + 1));
                    start = i + 1;
                },
                None => {
                    assert(pairs_view(old(args)@) + args_from(q@, 0) =~= pairs_view(args@));
                    return;
                },
            }
        }
    }

    /// The `host:port` text used to open a transport connection.
    pub fn connection(&self) -> (r: Vec<u8>)
        ensures
            r@ == self@.host + seq![58u8] + decimal(self.port as nat),
    {
        let mut r = copy_range(self.host.as_slice(), 0, self.host.len());
        r.push(58u8);
        push_decimal(&mut r, self.port as u64);
        r
    }

    /// Appends the query argument `name=value`.
    pub fn add_arg(&mut self, name: &str, value: &str)
        ensures
            final(self)@ == (UrlView {
                args: old(self)@.args.push((name.spec_bytes(), value.spec_bytes())),
                ..old(self)@
            }),
    {
        let n = copy_all(name.as_bytes());
        let v = copy_all(value.as_bytes());
        let ghost before = self.args@;
        self.args.push((n, v));
        assert(pairs_view(self.args@) =~= pairs_view(before).push(
            (name.spec_bytes(), value.spec_bytes()),
        ));
    }

    /// The request target: the path, then `?` and the arguments separated by
    /// `&`, each as `name` or `name=value`.
    pub fn to_query(&self) -> (r: Vec<u8>)
        ensures
            r@ == query_text(self@),
    {
        let mut query = copy_range(self.path.as_slice(), 0, self.path.len());
        let n = self.args.len();
        if n == 0 {
            return query;
        }
        query.push(63u8);
        URL::push_arg(&mut query, &self.args[0]);
        let ghost args = pairs_view(self.args@);
        assert(args.subrange(0, 1).len() == 1);
        assert(args_text(args.subrange(0, 1)) == arg_text(args[0]));
        let mut i: usize = 1;
        while i < n
            invariant
                n == self.args@.len(),
                args == pairs_view(self.args@),
                1 <= i <= n,
                query@ == self.path@ + seq![63u8] + args_text(args.subrange(0, i as int)),
            decreases n - i,
        {
            query.push(38u8);
            URL::push_arg(&mut query, &self.args[i]);
            assert(args.subrange(0, i + 1).drop_last() =~= args.subrange(0, i as int));
            assert(query@ =~= self.path@ + seq![63u8] + args_text(args.subrange(0, i + 1)));
            i = i + 1;
        }
        assert(args.subrange(0, n as int) =~= args);
        query
    }

    /// Appends one argument as written in a query.
    fn push_arg(result: &mut Vec<u8>, arg: &(Vec<u8>, Vec<u8>))
        ensures
            final(result)@ == old(result)@ + arg_text((arg.0@, arg.1@)),
    {
        push_all(result, arg.0.as_slice());
        if arg.1.len() != 0 {
            result.push(61u8);
            push_all(result, arg.1.as_slice());
        }
        assert(final(result)@ =~= old(result)@ + arg_text((arg.0@, arg.1@)));
    }

    /// The value of the first argument named `key`, if any.
    pub fn get_arg(&self, key: &str) -> (r: Option<&[u8]>)
        ensures
            match r {
                Some(v) => lookup(self@.args, key.spec_bytes()) == Some(v@),
                None => lookup(self@.args, key.spec_bytes()).is_none(),
            },
    {
        let k = key.as_bytes();
        let n = self.args.len();
        let ghost args = pairs_view(self.args@);
        let mut i: usize = 0;
        assert(args.subrange(0, n as int) =~= args);
        while i < n
            invariant
                n == self.args@.len(),
                args == pairs_view(self.args@),
                i <= n,
                k@ == key.spec_bytes(),
                lookup(args, k@) == lookup(args.subrange(i as int, n as int), k@),
            decreases n - i,
        {
            assert(args.subrange(i as int, n as int).drop_first() =~= args.subrange(
                i + 1,
                n as int,
            ));
            if same_bytes(self.args[i].0.as_slice(), k) {
                return Some(self.args[i].1.as_slice());
            }
            i = i + 1;
        }
        None
    }
}

} // verus!

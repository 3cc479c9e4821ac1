//! The failures of the HTTP engine: transport causes, described, and one
//! variant for each protocol-parsing failure.

use vstd::prelude::*;
use vstd::string::StringExecFns;

verus! {

/// Everything that can go wrong while reading, writing or sending a message.
#[derive(Debug)]
pub enum Error {
    /// A failure of the byte stream, such as one that ends too early.
    Io(String),
    /// A failure of the TLS layer.
    Tls(String),
    /// A failed TLS handshake.
    Handshake(String),
    /// An unknown request method.
    Verb,
    /// A request line without a request target.
    Query,
    /// A protocol version other than HTTP/1.1, or none.
    Version,
    /// A status line without a numeric status code.
    Status,
    /// A URL scheme other than `http` or `https`.
    Protocol,
    /// A malformed header, with what was wrong.
    Header(String),
    /// A malformed URL, with what was wrong.
    URL(String),
}

/// The kind of an [`Error`], without its context.
#[derive(Debug, Clone, Copy, PartialEq, Eq, Structural)]
pub enum ErrorKind {
    Io,
    Tls,
    Handshake,
    Verb,
    Query,
    Version,
    Status,
    Protocol,
    Header,
    URL,
}

impl Error {
    pub open spec fn kind(&self) -> ErrorKind {
        match self {
            Error::Io(_) => ErrorKind::Io,
            Error::Tls(_) => ErrorKind::Tls,
            Error::Handshake(_) => ErrorKind::Handshake,
            Error::Verb => ErrorKind::Verb,
            Error::Query => ErrorKind::Query,
            Error::Version => ErrorKind::Version,
            Error::Status => ErrorKind::Status,
            Error::Protocol => ErrorKind::Protocol,
            Error::Header(_) => ErrorKind::Header,
            Error::URL(_) => ErrorKind::URL,
        }
    }

    /// A header error that says `message`.
    pub fn header(message: &str) -> (r: Error)
        ensures
            r.kind() == ErrorKind::Header,
            r matches Error::Header(m) && m@ == message@,
    {
        Error::Header(message.to_owned())
    }

    /// A URL error that says `message`.
    pub fn url(message: &str) -> (r: Error)
        ensures
            r.kind() == ErrorKind::URL,
            r matches Error::URL(m) && m@ == message@,
    {
        Error::URL(message.to_owned())
    }

    /// A stream error that says `message`.
    pub fn io(message: &str) -> (r: Error)
        ensures
            r.kind() == ErrorKind::Io,
            r matches Error::Io(m) && m@ == message@,
    {
        Error::Io(message.to_owned())
    }

    /// A one-line description of this error.
    pub fn message(&self) -> (r: String)
        ensures
            r@ == error_text(self),
    {
        match self {
            Error::Io(m) => {
                let mut r = "IO Error: ".to_owned();
                r.append(m.as_str());
                r
            },
            Error::Tls(m) => {
                let mut r = "TLS Error: ".to_owned();
                r.append(m.as_str());
                r
            },
            Error::Handshake(m) => {
                let mut r = "TLS Handshake Error: ".to_owned();
                r.append(m.as_str());
                r
            },
            Error::Verb => "HTTP error: invalid request method".to_owned(),
            Error::Query => "HTTP error: invalid request URI".to_owned(),
            Error::Version => "HTTP error: only HTTP/1.1 is supported".to_owned(),
            Error::Status => "HTTP error: invalid status code".to_owned(),
            Error::Protocol => "HTTP error: unsupported protocol".to_owned(),
            Error::Header(m) => {
                let mut r = "HTTP error: invalid header: ".to_owned();
                r.append(m.as_str());
                r
            },
            Error::URL(m) => {
                let mut r = "HTTP error: invalid URL: ".to_owned();
                r.append(m.as_str());
                r
            },
        }
    }

    /// The kind of this error.
    pub fn error_kind(&self) -> (r: ErrorKind)
        ensures
            r == self.kind(),
    {
        match self {
            Error::Io(_) => ErrorKind::Io,
            Error::Tls(_) => ErrorKind::Tls,
            Error::Handshake(_) => ErrorKind::Handshake,
            Error::Verb => ErrorKind::Verb,
            Error::Query => ErrorKind::Query,
            Error::Version => ErrorKind::Version,
            Error::Status => ErrorKind::Status,
            Error::Protocol => ErrorKind::Protocol,
            Error::Header(_) => ErrorKind::Header,
            Error::URL(_) => ErrorKind::URL,
        }
    }
}

/// The one-line description of an error: a fixed text for its kind, then
/// its context where it has one.
pub open spec fn error_text(e: &Error) -> Seq<char> {
    match e {
        Error::Io(m) => "IO Error: "@ + m@,
        Error::Tls(m) => "TLS Error: "@ + m@,
        Error::Handshake(m) => "TLS Handshake Error: "@ + m@,
        Error::Verb => "HTTP error: invalid request method"@,
        Error::Query => "HTTP error: invalid request URI"@,
        Error::Version => "HTTP error: only HTTP/1.1 is supported"@,
        Error::Status => "HTTP error: invalid status code"@,
        Error::Protocol => "HTTP error: unsupported protocol"@,
        Error::Header(m) => "HTTP error: invalid header: "@ + m@,
        Error::URL(m) => "HTTP error: invalid URL: "@ + m@,
    }
}

} // verus!

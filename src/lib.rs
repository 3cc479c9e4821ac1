//! A small HTTP/1.1 engine: URLs, header sets, body framing and the
//! request and response messages, read from and written to byte buffers.

pub mod body;
pub mod client;
pub mod error;
pub mod header;
pub mod request;
pub mod response;
pub mod stream;
pub mod text;
pub mod uri;
pub mod verb;

pub use body::{read_body, read_length, read_transfer, write_body};
pub use error::{Error, ErrorKind};
pub use header::{Header, HeaderSet};
pub use request::{request_complete, Request};
pub use response::{response_complete, Response};
pub use stream::Reader;
pub use uri::{Protocol, URL};
pub use verb::Verb;

//! The client side of a round trip: the default headers a request gets
//! before it goes out, and the bytes that carry it. The transport opens the
//! connection to `url.connection()`, over TLS for HTTPS, sends these bytes
//! and hands what comes back to `Response::read`.

use crate::request::{request_text, Request, RequestView};
use crate::text::lookup;
use vstd::prelude::*;

verus! {

/// The key `Host`.
pub open spec fn host_key() -> Seq<u8> {
    seq![72u8, 111, 115, 116]
}

/// The key `User-Agent`.
pub open spec fn user_agent_key() -> Seq<u8> {
    seq![85u8, 115, 101, 114, 45, 65, 103, 101, 110, 116]
}

/// The product token sent as `User-Agent`: `rtcsms`.
pub open spec fn user_agent() -> Seq<u8> {
    seq![114u8, 116, 99, 115, 109, 115]
}

/// The key `Accept`.
pub open spec fn accept_key() -> Seq<u8> {
    seq![65u8, 99, 99, 101, 112, 116]
}

/// The media range sent as `Accept`: `*/*`.
pub open spec fn accept_any() -> Seq<u8> {
    seq![42u8, 47, 42]
}

/// `hs` with the header `(k, v)` added unless `k` is present.
pub open spec fn with_default(hs: Seq<(Seq<u8>, Seq<u8>)>, k: Seq<u8>, v: Seq<u8>) -> Seq<(Seq<u8>, Seq<u8>)> {
    if lookup(hs, k).is_none() {
        hs.push((k, v))
    } else {
        hs
    }
}

/// The headers of `r` once the defaults are in: `Host` (the URL's host),
/// `User-Agent` and `Accept`, each only where absent.
pub open spec fn with_client_defaults(r: RequestView) -> Seq<(Seq<u8>, Seq<u8>)> {
    with_default(
        with_default(with_default(r.headers, host_key(), r.url.host), user_agent_key(), user_agent()),
        accept_key(),
        accept_any(),
    )
}

/// Fills in the default headers of `request` and returns the bytes that
/// send it.
pub fn send(request: &mut Request) -> (r: Vec<u8>)
    ensures
        final(request)@ == (RequestView { headers: with_client_defaults(old(request)@), ..old(request)@ }),
        r@ == request_text(final(request)@),
{
    let host_k = vec![72u8, 111, 115, 116];
    let agent_k = vec![85u8, 115, 101, 114, 45, 65, 103, 101, 110, 116];
    let agent = vec![114u8, 116, 99, 115, 109, 115];
    let accept_k = vec![65u8, 99, 99, 101, 112, 116];
    let accept = vec![42u8, 47, 42];
    assert(host_k@ =~= host_key());
    assert(agent_k@ =~= user_agent_key());
    assert(agent@ =~= user_agent());
    assert(accept_k@ =~= accept_key());
    assert(accept@ =~= accept_any());
    request.headers.add_default_bytes(host_k.as_slice(), request.url.host.as_slice());
    request.headers.add_default_bytes(agent_k.as_slice(), agent.as_slice());
    request.headers.add_default_bytes(accept_k.as_slice(), accept.as_slice());
    let mut out: Vec<u8> = Vec::new();
    request.write(&mut out);
    assert(out@ =~= request_text(request@));
    out
}

} // verus!

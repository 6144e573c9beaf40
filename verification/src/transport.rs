//! Session-setup text: the HTTP-basic authorization header for the local
//! service's ephemeral credentials, and the endpoint addresses built from the
//! discovered port.

use vstd::prelude::*;
use vstd::string::StringSliceAdditionalSpecFns;
use crate::text::dec_str;
use crate::text::u64_to_dec;

verus! {

/// The base64 rendering (standard alphabet, padded) of a byte sequence, as
/// the outside encoder produces it.
pub uninterp spec fn b64_of(bytes: Seq<u8>) -> Seq<char>;

/// Relies on base64's `Engine::encode` with the `STANDARD` engine: the
/// result is a function of the input bytes alone, and padded standard
/// base64 of `n` bytes has exactly `4 * ceil(n / 3)` characters.
#[verifier::external_body]
fn base64_encode(bytes: &Vec<u8>) -> (r: String)
    requires
        bytes@.len() <= usize::MAX / 2,
    ensures
        r@ == b64_of(bytes@),
        r@.len() == 4 * ((bytes@.len() + 2) / 3),
{
    base64::engine::Engine::encode(&base64::engine::general_purpose::STANDARD, bytes.as_slice())
}

/// The credential bytes handed to the encoder: the fixed user, a colon, and
/// the token, in UTF-8.
pub open spec fn basic_creds(token: Seq<char>) -> Seq<u8> {
    "riot:".spec_bytes() + vstd::utf8::encode_utf8(token)
}

/// The authorization header value for the discovered token. `None` only when
/// the credential bytes would be too long to encode at all.
pub fn auth_header(token: &str) -> (r: Option<String>)
    ensures
        r is Some <==> basic_creds(token@).len() <= usize::MAX / 2,
        r is Some ==> r->0@ == "Basic "@ + b64_of(basic_creds(token@)),
{
    let mut creds = "riot:".as_bytes_vec();
    let mut tok = token.as_bytes_vec();
    creds.append(&mut tok);
    proof {
        assert(creds@ =~= basic_creds(token@));
    }
    if creds.len() > usize::MAX / 2 {
        return None;
    }
    let encoded = base64_encode(&creds);
    let mut s = "Basic ".to_owned();
    s.append(encoded.as_str());
    Some(s)
}

/// The request-channel URL for a path on the local service.
pub open spec fn service_url(port: u16, path: Seq<char>) -> Seq<char> {
    "https://127.0.0.1:"@ + dec_str(port as nat) + path
}

/// Build the request-channel URL for a path on the local service.
pub fn make_service_url(port: u16, path: &str) -> (r: String)
    ensures
        r@ == service_url(port, path@),
{
    let mut s = "https://127.0.0.1:".to_owned();
    let p = u64_to_dec(port as u64);
    s.append(p.as_str());
    s.append(path);
    s
}

/// The socket address of the streaming endpoint.
pub open spec fn stream_addr(port: u16) -> Seq<char> {
    "127.0.0.1:"@ + dec_str(port as nat)
}

/// Build the socket address of the streaming endpoint.
pub fn make_stream_addr(port: u16) -> (r: String)
    ensures
        r@ == stream_addr(port),
{
    let mut s = "127.0.0.1:".to_owned();
    let p = u64_to_dec(port as u64);
    s.append(p.as_str());
    s
}

} // verus!

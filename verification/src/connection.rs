//! What a connection to the League client holds and sends: its port, its
//! basic authorization, and the URLs of its requests.

use vstd::prelude::*;
use vstd::string::*;
use vstd::utf8::encode_utf8;

verus! {

/// The standard base64 encoding, with padding, of `data`.
pub uninterp spec fn base64_standard(data: Seq<u8>) -> Seq<char>;

/// The standard padded base64 encoding of `n` bytes has a length that fits
/// in a `usize`.
pub open spec fn base64_fits(n: nat) -> bool {
    (n / 3) * 4 + (if n % 3 == 0 { 0nat } else { 4nat }) <= usize::MAX
}

/// `base64::engine::general_purpose::STANDARD.encode` (base64 0.22): the
/// contract claims that the result is the standard padded base64 encoding
/// of `data`, named `base64_standard`; the function panics when the length
/// of the encoding does not fit in a `usize`, which `requires` leaves out.
#[verifier::external_body]
fn encode_base64(data: &[u8]) -> (r: String)
    requires
        base64_fits(data@.len()),
    ensures
        r@ == base64_standard(data@),
{
    base64::Engine::encode(&base64::engine::general_purpose::STANDARD, data)
}

/// A connection to the League client: the port it listens on and the
/// basic authorization its requests carry.
pub struct LcuConnection {
    port: String,
    auth: String,
}

/// The plain values of a connection.
pub struct ConnectionView {
    pub port: Seq<char>,
    pub auth: Seq<char>,
}

impl View for LcuConnection {
    type V = ConnectionView;

    closed spec fn view(&self) -> ConnectionView {
        ConnectionView { port: self.port@, auth: self.auth@ }
    }
}

/// The bytes of the basic credentials of `token`: `riot:` and the token,
/// in UTF-8.
pub open spec fn credential_bytes(token: Seq<char>) -> Seq<u8> {
    encode_utf8("riot:"@ + token)
}

/// The URL of the request `path` to the client on `port`.
pub open spec fn request_url(port: Seq<char>, path: Seq<char>) -> Seq<char> {
    "https://127.0.0.1:"@ + port + path
}

impl LcuConnection {
    /// The connection to the client on `port` with remoting token `token`:
    /// its authorization is the base64 encoding of `riot:` and the token.
    pub fn from_credentials(port: String, token: &str) -> (r: LcuConnection)
        requires
            base64_fits(credential_bytes(token@).len()),
        ensures
            r@.port == port@,
            r@.auth == base64_standard(credential_bytes(token@)),
    {
        let mut raw = String::from_str("riot:");
        raw.append(token);
        let auth = encode_base64(raw.as_str().as_bytes());
        LcuConnection { port, auth }
    }

    /// The port of the client.
    pub fn port(&self) -> (r: &str)
        ensures
            r@ == self@.port,
    {
        self.port.as_str()
    }

    /// The base64 encoded credentials.
    pub fn auth(&self) -> (r: &str)
        ensures
            r@ == self@.auth,
    {
        self.auth.as_str()
    }

    /// The URL of the request `path`: `https://127.0.0.1:{port}{path}`.
    pub fn api_url(&self, path: &str) -> (r: String)
        ensures
            r@ == request_url(self@.port, path@),
    {
        let mut url = String::from_str("https://127.0.0.1:");
        url.append(self.port.as_str());
        url.append(path);
        url
    }

    /// The value of the `Authorization` header: `Basic {auth}`.
    pub fn authorization(&self) -> (r: String)
        ensures
            r@ == "Basic "@ + self@.auth,
    {
        let mut header = String::from_str("Basic ");
        header.append(self.auth.as_str());
        header
    }
}

/// `a - b`, or 0 when `b` is larger.
pub open spec fn saturating_diff(a: int, b: int) -> int {
    if a >= b {
        a - b
    } else {
        0
    }
}

/// The `i32` that the `u32` value `v` is cast to: `v`, less 2^32 when it
/// exceeds `i32::MAX`.
pub open spec fn u32_as_i32(v: int) -> int {
    if v <= i32::MAX {
        v
    } else {
        v - 0x1_0000_0000
    }
}

fn cast_u32_to_i32(v: u32) -> (r: i32)
    ensures
        r == u32_as_i32(v as int),
{
    if v <= 0x7fff_ffff {
        v as i32
    } else {
        ((v as i64) - 0x1_0000_0000i64) as i32
    }
}

/// The position of a window of size `window_width` x `window_height` in the
/// bottom right corner of a screen of size `screen_width` x `screen_height`,
/// 16 pixels from the right edge and 48 from the bottom edge; 0 where the
/// window is wider or higher than that room.
pub fn bottom_right_position(screen_width: u32, screen_height: u32, window_width: u32, window_height: u32) -> (r: (
    i32,
    i32,
))
    ensures
        r.0 == u32_as_i32(saturating_diff(saturating_diff(screen_width as int, window_width as int), 16)),
        r.1 == u32_as_i32(saturating_diff(saturating_diff(screen_height as int, window_height as int), 48)),
{
    let x = screen_width.saturating_sub(window_width).saturating_sub(16);
    let y = screen_height.saturating_sub(window_height).saturating_sub(48);
    (cast_u32_to_i32(x), cast_u32_to_i32(y))
}

} // verus!

//! The opening handshake (RFC 6455, 4): keys, the checks on request and
//! response, and close status codes.
use vstd::prelude::*;
use vstd::string::StringSliceAdditionalSpecFns;
use crate::errors::WsError;
use crate::strings::{
    lower_s, lower_chars, chars_of, chars_eq, string_push, push_decimal, decimal, join_with, join_strings,
    views,
};

verus! {

/// helper struct for using close code
pub struct StatusCode;

impl StatusCode {
    /// 1000 indicates a normal closure, meaning that the purpose for
    /// which the connection was established has been fulfilled.
    pub fn normal() -> (r: u16)
        ensures
            r == 1000,
    {
        1000
    }

    /// 1001 indicates that an endpoint is "going away", such as a server
    /// going down or a browser having navigated away from a page.
    pub fn going_away() -> (r: u16)
        ensures
            r == 1001,
    {
        1001
    }

    /// 1002 indicates that an endpoint is terminating the connection due
    /// to a protocol error.
    pub fn protocol_error() -> (r: u16)
        ensures
            r == 1002,
    {
        1002
    }

    /// 1003 indicates that an endpoint is terminating the connection
    /// because it has received a type of data it cannot accept.
    pub fn terminate() -> (r: u16)
        ensures
            r == 1003,
    {
        1003
    }

    /// Reserved.  The specific meaning might be defined in the future.
    pub fn reserved() -> (r: u16)
        ensures
            r == 1004,
    {
        1004
    }

    /// 1005 is a reserved value and MUST NOT be set as a status code in a
    /// Close control frame by an endpoint.
    pub fn app_reserved() -> (r: u16)
        ensures
            r == 1005,
    {
        1005
    }

    /// 1006 is a reserved value and MUST NOT be set as a status code in a
    /// Close control frame by an endpoint.
    pub fn abnormal_reserved() -> (r: u16)
        ensures
            r == 1006,
    {
        1006
    }

    /// 1007 indicates that an endpoint is terminating the connection
    /// because it has received data within a message that was not
    /// consistent with the type of the message.
    pub fn non_consistent() -> (r: u16)
        ensures
            r == 1007,
    {
        1007
    }

    /// 1008 indicates that an endpoint is terminating the connection
    /// because it has received a message that violates its policy.
    pub fn violate_policy() -> (r: u16)
        ensures
            r == 1008,
    {
        1008
    }

    /// 1009 indicates that an endpoint is terminating the connection
    /// because it has received a message that is too big for it to
    /// process.
    pub fn too_big() -> (r: u16)
        ensures
            r == 1009,
    {
        1009
    }

    /// 1010 indicates that an endpoint (client) is terminating the
    /// connection because it has expected the server to negotiate one or
    /// more extension.
    pub fn require_ext() -> (r: u16)
        ensures
            r == 1010,
    {
        1010
    }

    /// 1011 indicates that a server is terminating the connection because
    /// it encountered an unexpected condition.
    pub fn unexpected_condition() -> (r: u16)
        ensures
            r == 1011,
    {
        1011
    }

    /// 1015 is a reserved value: the connection was closed due to a
    /// failure to perform a TLS handshake.
    pub fn platform_fail() -> (r: u16)
        ensures
            r == 1015,
    {
        1015
    }
}

/// websocket connection mode
#[derive(Debug, Clone, Copy, PartialEq, Eq, Structural)]
pub enum Mode {
    /// plain mode `ws://great.nice`
    WS,
    /// tls mode `wss://secret.wow`
    WSS,
}

impl Mode {
    /// return corresponding port of websocket mode
    pub fn default_port(&self) -> (r: u16)
        ensures
            r == (match *self {
                Mode::WS => 80u16,
                Mode::WSS => 443u16,
            }),
    {
        match self {
            Mode::WS => 80,
            Mode::WSS => 443,
        }
    }
}

// ---------------------------------------------------------------------------
// Keys.
// ---------------------------------------------------------------------------

/// The text `base64::encode` gives of some bytes (standard alphabet, padded).
pub uninterp spec fn base64_text(data: Seq<u8>) -> Seq<char>;

/// The digest `sha1::Sha1` gives of some bytes.
pub uninterp spec fn sha1_of(data: Seq<u8>) -> Seq<u8>;

/// a char of the standard base64 alphabet, or the padding `=`
pub open spec fn base64_char(c: char) -> bool {
    ('A' <= c <= 'Z') || ('a' <= c <= 'z') || ('0' <= c <= '9') || c == '+' || c == '/' || c == '='
}

/// `base64::encode` (standard alphabet, padded): the text is named by
/// `base64_text`; it is made of the alphabet and padding, four chars for
/// every started group of three bytes. The encoder panics when that length
/// overflows `usize`, which `requires` leaves out.
#[verifier::external_body]
fn base64_encode(data: &[u8]) -> (r: String)
    requires
        data@.len() / 3 * 4 + 4 <= usize::MAX,
    ensures
        r@ == base64_text(data@),
        r@.len() == (data@.len() + 2) / 3 * 4,
        forall|i: int| 0 <= i < r@.len() ==> base64_char(#[trigger] r@[i]),
{
    base64::encode(data)
}

/// `sha1::Sha1` fed `data` in one update and finalized: the digest is
/// named by `sha1_of`.
#[verifier::external_body]
fn sha1_digest(data: &[u8]) -> (r: [u8; 20])
    ensures
        r@ == sha1_of(data@),
{
    let mut hasher = <sha1::Sha1 as sha1::Digest>::new();
    sha1::Digest::update(&mut hasher, data);
    sha1::Digest::finalize(hasher).into()
}

/// `rand::random` for sixteen bytes; nothing is claimed of them.
#[verifier::external_body]
fn random_bytes() -> (r: [u8; 16]) {
    rand::random()
}

/// the GUID that the accept key is computed with (RFC 6455, 1.3)
pub open spec fn guid() -> Seq<u8> {
    "258EAFA5-E914-47DA-95CA-C5AB0DC85B11".spec_bytes()
}

/// the `Sec-WebSocket-Accept` value for a key: base64 of the SHA-1 of the
/// key followed by the GUID
pub open spec fn accept_key_of(key: Seq<u8>) -> Seq<char> {
    base64_text(sha1_of(key + guid()))
}

/// generate random key: base64 of sixteen random bytes
pub fn gen_key() -> (r: String)
    ensures
        exists|b: Seq<u8>| b.len() == 16 && r@ == #[trigger] base64_text(b),
        r@.len() == 24,
{
    let r: [u8; 16] = random_bytes();
    let s = base64_encode(&r);
    assert(r@.len() == 16 && s@ == base64_text(r@));
    s
}

/// cal accept key
pub fn cal_accept_key(source: &[u8]) -> (r: String)
    ensures
        r@ == accept_key_of(source@),
        r@.len() == 28,
        forall|i: int| 0 <= i < r@.len() ==> base64_char(#[trigger] r@[i]),
{
    let mut data: Vec<u8> = Vec::new();
    data.extend_from_slice(source);
    data.extend_from_slice("258EAFA5-E914-47DA-95CA-C5AB0DC85B11".as_bytes());
    assert(data@ =~= source@ + guid());
    let digest = sha1_digest(data.as_slice());
    base64_encode(&digest)
}

// ---------------------------------------------------------------------------
// Requests and responses of the handshake.
// ---------------------------------------------------------------------------

/// an HTTP response head: status code, HTTP/1.x minor version, and the
/// headers in order (name, value bytes)
pub struct HttpResponse {
    /// status code
    pub status: u16,
    /// minor version: 0 for HTTP/1.0, 1 for HTTP/1.1
    pub version: u8,
    /// headers in order
    pub headers: Vec<(String, Vec<u8>)>,
}

/// an HTTP request head: method, request target, HTTP/1.x minor version,
/// and the headers in order (name, value bytes)
pub struct HttpRequest {
    /// method
    pub method: String,
    /// request target
    pub path: String,
    /// minor version: 0 for HTTP/1.0, 1 for HTTP/1.1
    pub version: u8,
    /// headers in order
    pub headers: Vec<(String, Vec<u8>)>,
}

/// the value of the first header whose name, lowercased, is `name`
pub open spec fn find_header(headers: Seq<(String, Vec<u8>)>, name: Seq<char>) -> Option<Seq<u8>>
    decreases headers.len(),
{
    if headers.len() == 0 {
        None
    } else if lower_s(headers[0].0@) == name {
        Some(headers[0].1@)
    } else {
        find_header(headers.drop_first(), name)
    }
}

/// the value of the first header whose name, lowercased, is `name`
fn header_value<'a>(headers: &'a Vec<(String, Vec<u8>)>, name: &str) -> (r: Option<&'a Vec<u8>>)
    ensures
        match find_header(headers@, name@) {
            Some(v) => r matches Some(x) && x@ == v,
            None => r is None,
        },
{
    let key = chars_of(name);
    let mut i: usize = 0;
    assert(headers@.skip(0) =~= headers@);
    while i < headers.len()
        invariant
            i <= headers@.len(),
            key@ == name@,
            find_header(headers@, name@) == find_header(headers@.skip(i as int), name@),
        decreases headers@.len() - i,
    {
        assert(headers@.skip(i as int)[0] == headers@[i as int]);
        assert(headers@.skip(i as int).drop_first() =~= headers@.skip(i + 1));
        let n = chars_of(headers[i].0.as_str());
        let l = lower_chars(n.as_slice());
        if chars_eq(l.as_slice(), key.as_slice()) {
            return Some(&headers[i].1);
        }
        i += 1;
    }
    None
}

/// visible ASCII, or a tab (what `HeaderValue::to_str` accepts)
pub open spec fn visible_ascii(b: u8) -> bool {
    (32 <= b && b < 127) || b == 9
}

/// a header value as text: its bytes as chars when all are visible ASCII,
/// else the empty text (as `to_str().unwrap_or_default()`)
pub open spec fn value_text(v: Seq<u8>) -> Seq<char> {
    if forall|i: int| 0 <= i < v.len() ==> visible_ascii(#[trigger] v[i]) {
        v.map_values(|b: u8| b as char)
    } else {
        Seq::empty()
    }
}

fn value_to_text(v: &[u8]) -> (r: Vec<char>)
    ensures
        r@ == value_text(v@),
{
    let mut out: Vec<char> = Vec::new();
    let mut i: usize = 0;
    while i < v.len()
        invariant
            i <= v@.len(),
            forall|j: int| 0 <= j < i ==> visible_ascii(#[trigger] v@[j]),
            out@ == v@.take(i as int).map_values(|b: u8| b as char),
        decreases v@.len() - i,
    {
        let b = v[i];
        if !((32 <= b && b < 127) || b == 9) {
            assert(!visible_ascii(v@[i as int]));
            return Vec::new();
        }
        out.push(b as char);
        i += 1;
        assert(out@ =~= v@.take(i as int).map_values(|b: u8| b as char));
    }
    assert(v@.take(i as int) =~= v@);
    out
}

/// a lowercase hex digit
pub open spec fn hex_digit(d: int) -> char {
    if d < 10 {
        (d + 48) as char
    } else {
        (d + 87) as char
    }
}

/// a byte in lowercase hex, without leading zero
pub open spec fn hex_text(b: u8) -> Seq<char> {
    if b < 16 {
        seq![hex_digit(b as int)]
    } else {
        seq![hex_digit((b / 16) as int), hex_digit((b % 16) as int)]
    }
}

/// how a header value prints when debugged: quoted, with `"` escaped and
/// every byte that is not visible ASCII as `\x` and its hex
pub open spec fn value_debug_body(v: Seq<u8>) -> Seq<char>
    decreases v.len(),
{
    if v.len() == 0 {
        Seq::empty()
    } else {
        let b = v[0];
        let head = if b == 34 {
            seq!['\\', '"']
        } else if visible_ascii(b) {
            seq![b as char]
        } else {
            seq!['\\', 'x'] + hex_text(b)
        };
        head + value_debug_body(v.drop_first())
    }
}

/// the debug form of a header value
pub open spec fn value_debug(v: Seq<u8>) -> Seq<char> {
    seq!['"'] + value_debug_body(v) + seq!['"']
}

fn push_hex(s: &mut String, b: u8)
    ensures
        final(s)@ == old(s)@ + hex_text(b),
{
    let hi = b / 16;
    let lo = b % 16;
    if b >= 16 {
        string_push(s, if hi < 10 {
            (hi + 48) as char
        } else {
            (hi + 87) as char
        });
    }
    string_push(s, if lo < 10 {
        (lo + 48) as char
    } else {
        (lo + 87) as char
    });
    assert(s@ =~= old(s)@ + hex_text(b));
}

fn push_value_debug(s: &mut String, v: &[u8])
    ensures
        final(s)@ == old(s)@ + value_debug(v@),
{
    string_push(s, '"');
    let ghost s0 = s@;
    let mut i: usize = 0;
    assert(v@.skip(0) =~= v@);
    while i < v.len()
        invariant
            i <= v@.len(),
            s@ + value_debug_body(v@.skip(i as int)) == s0 + value_debug_body(v@),
        decreases v@.len() - i,
    {
        let ghost before = s@;
        let b = v[i];
        if b == 34 {
            string_push(s, '\\');
            string_push(s, '"');
        } else if (32 <= b && b < 127) || b == 9 {
            string_push(s, b as char);
        } else {
            string_push(s, '\\');
            string_push(s, 'x');
            push_hex(s, b);
        }
        assert(v@.skip(i as int)[0] == b);
        assert(v@.skip(i as int).drop_first() =~= v@.skip(i + 1));
        assert(before + value_debug_body(v@.skip(i as int)) =~= s@ + value_debug_body(v@.skip(i + 1)));
        i += 1;
    }
    assert(v@.skip(i as int) =~= Seq::<u8>::empty());
    string_push(s, '"');
    assert(s@ =~= old(s)@ + value_debug(v@));
}

/// The text `http::StatusCode` displays for a status code it accepts: the
/// code and its canonical reason.
pub uninterp spec fn status_display(code: u16) -> Seq<char>;

/// `http::StatusCode::from_u16`, then its `Display`: it accepts exactly the
/// codes from 100 to 999; the text is named by `status_display`.
#[verifier::external_body]
fn status_text(code: u16) -> (r: Option<String>)
    ensures
        r is Some == (100 <= code <= 999),
        r matches Some(t) ==> t@ == status_display(code),
{
    match http::StatusCode::from_u16(code) {
        Ok(status) => Some(status.to_string()),
        Err(_) => None,
    }
}

/// how a status code is shown: as `http::StatusCode` displays it when it is
/// a valid code, else as its decimal number
pub open spec fn status_shown(code: u16) -> Seq<char> {
    if 100 <= code <= 999 {
        status_display(code)
    } else {
        decimal(code as int)
    }
}

/// the text shown for a status code
pub fn status_string(code: u16) -> (r: String)
    ensures
        r@ == status_shown(code),
{
    match status_text(code) {
        Some(t) => t,
        None => {
            let mut s = String::new();
            push_decimal(&mut s, code as u64);
            assert(s@ =~= decimal(code as int));
            s
        },
    }
}

/// the message `standard_handshake_resp_check` fails with, if it does
pub open spec fn resp_check_error(key: Seq<u8>, status: u16, headers: Seq<(String, Vec<u8>)>) -> Option<Seq<char>> {
    if status != 101 {
        Some("expect 101 response, got "@ + status_shown(status))
    } else {
        match find_header(headers, "sec-websocket-accept"@) {
            None => Some("missing `sec-websocket-accept` header"@),
            Some(v) => if value_text(v) != accept_key_of(key) {
                Some("mismatch key"@)
            } else {
                None
            },
        }
    }
}

/// the message `standard_handshake_req_check` fails with, if it does
pub open spec fn req_check_error(headers: Seq<(String, Vec<u8>)>) -> Option<Seq<char>> {
    match find_header(headers, "upgrade"@) {
        None => Some("missing `upgrade` header"@),
        Some(v) => if v != "websocket".spec_bytes() {
            Some("expect `websocket`, got "@ + value_debug(v))
        } else {
            match find_header(headers, "sec-websocket-key"@) {
                None => Some("missing `sec-websocket-key` header"@),
                Some(k) => if k.len() == 0 {
                    Some("empty sec-websocket-key"@)
                } else {
                    None
                },
            }
        }
    }
}

/// a handshake failure with the given message, when there is one
pub open spec fn handshake_result(msg: Option<Seq<char>>, r: Result<(), WsError>) -> bool {
    match msg {
        None => r is Ok,
        Some(m) => r matches Err(WsError::HandShakeFailed(e)) && e@ == m,
    }
}

fn bytes_eq(a: &[u8], b: &[u8]) -> (r: bool)
    ensures
        r == (a@ == b@),
{
    if a.len() != b.len() {
        return false;
    }
    let mut i: usize = 0;
    while i < a.len()
        invariant
            a@.len() == b@.len(),
            i <= a@.len(),
            forall|j: int| 0 <= j < i ==> a@[j] == b@[j],
        decreases a@.len() - i,
    {
        if a[i] != b[i] {
            return false;
        }
        i += 1;
    }
    assert(a@ =~= b@);
    true
}

/// perform standard protocol handshake response check
///
/// 1. check status code
/// 2. check `sec-websocket-accept` header & value
pub fn standard_handshake_resp_check(key: &[u8], resp: &HttpResponse) -> (r: Result<(), WsError>)
    ensures
        handshake_result(resp_check_error(key@, resp.status, resp.headers@), r),
        accept_key_of(key@).len() == 28,
{
    let expect_key = cal_accept_key(key);
    if resp.status != 101 {
        let mut m = String::from_str("expect 101 response, got ");
        let t = status_string(resp.status);
        m.append(t.as_str());
        return Err(WsError::HandShakeFailed(m));
    }
    match header_value(&resp.headers, "sec-websocket-accept") {
        Some(v) => {
            let text = value_to_text(v.as_slice());
            let expect = chars_of(expect_key.as_str());
            if !chars_eq(text.as_slice(), expect.as_slice()) {
                return Err(WsError::HandShakeFailed(String::from_str("mismatch key")));
            }
        },
        None => {
            return Err(WsError::HandShakeFailed(String::from_str("missing `sec-websocket-accept` header")));
        },
    }
    Ok(())
}

/// perform rfc standard check
pub fn standard_handshake_req_check(req: &HttpRequest) -> (r: Result<(), WsError>)
    ensures
        handshake_result(req_check_error(req.headers@), r),
{
    match header_value(&req.headers, "upgrade") {
        Some(v) => {
            if !bytes_eq(v.as_slice(), "websocket".as_bytes()) {
                let mut m = String::from_str("expect `websocket`, got ");
                push_value_debug(&mut m, v.as_slice());
                return Err(WsError::HandShakeFailed(m));
            }
        },
        None => {
            return Err(WsError::HandShakeFailed(String::from_str("missing `upgrade` header")));
        },
    }
    match header_value(&req.headers, "sec-websocket-key") {
        Some(v) => {
            if v.len() == 0 {
                return Err(WsError::HandShakeFailed(String::from_str("empty sec-websocket-key")));
            }
        },
        None => {
            return Err(WsError::HandShakeFailed(String::from_str("missing `sec-websocket-key` header")));
        },
    }
    Ok(())
}

// ---------------------------------------------------------------------------
// Building the request, parsing heads, answering a request.
// ---------------------------------------------------------------------------

/// the header lines of a handshake request
pub open spec fn handshake_lines(
    key: Seq<char>,
    host: Seq<char>,
    port: Option<u16>,
    version: u8,
    protocols: Seq<Seq<char>>,
    extensions: Seq<Seq<char>>,
    extra: Seq<(Seq<char>, Seq<char>)>,
) -> Seq<Seq<char>> {
    seq![
        "Host: "@ + host + match port {
            Some(p) => ":"@ + decimal(p as int),
            None => Seq::empty(),
        },
        "Upgrade: websocket"@,
        "Connection: Upgrade"@,
        "Sec-Websocket-Key: "@ + key,
        "Sec-WebSocket-Version: "@ + decimal(version as int),
    ] + protocols.map_values(|p: Seq<char>| "Sec-WebSocket-Protocol: "@ + p) + extensions.map_values(
        |e: Seq<char>| "Sec-WebSocket-Extensions: "@ + e,
    ) + extra.map_values(|kv: (Seq<char>, Seq<char>)| kv.0 + ": "@ + kv.1)
}

/// The handshake request's header lines: host, upgrade, connection, key
/// and version first, then one `Sec-WebSocket-Protocol` line per offered
/// protocol in order (the k-th carrying the k-th protocol), then one
/// `Sec-WebSocket-Extensions` line per extension in order, then the extra
/// headers in order; nothing else.
pub proof fn lemma_handshake_lines(
    key: Seq<char>,
    host: Seq<char>,
    port: Option<u16>,
    version: u8,
    protocols: Seq<Seq<char>>,
    extensions: Seq<Seq<char>>,
    extra: Seq<(Seq<char>, Seq<char>)>,
)
    ensures
        ({
            let lines = handshake_lines(key, host, port, version, protocols, extensions, extra);
            let np = protocols.len() as int;
            let ne = extensions.len() as int;
            &&& lines.len() == 5 + np + ne + extra.len()
            &&& lines[3] == "Sec-Websocket-Key: "@ + key
            &&& lines[4] == "Sec-WebSocket-Version: "@ + decimal(version as int)
            &&& forall|k: int| 0 <= k < np ==> lines[5 + k] == "Sec-WebSocket-Protocol: "@ + #[trigger] protocols[k]
            &&& forall|k: int| 0 <= k < ne ==> lines[5 + np + k] == "Sec-WebSocket-Extensions: "@
                + #[trigger] extensions[k]
            &&& forall|k: int| 0 <= k < extra.len() ==> lines[5 + np + ne + k] == (#[trigger] extra[k]).0 + ": "@
                + extra[k].1
        }),
{
    let lines = handshake_lines(key, host, port, version, protocols, extensions, extra);
    let np = protocols.len() as int;
    let ne = extensions.len() as int;
    assert forall|k: int| 0 <= k < np implies lines[5 + k] == "Sec-WebSocket-Protocol: "@ + #[trigger] protocols[k] by {
    }
    assert forall|k: int| 0 <= k < ne implies lines[5 + np + k] == "Sec-WebSocket-Extensions: "@
        + #[trigger] extensions[k] by {
    }
    assert forall|k: int| 0 <= k < extra.len() implies lines[5 + np + ne + k] == (#[trigger] extra[k]).0 + ": "@
        + extra[k].1 by {
    }
}

/// the text of a handshake request for `path` with these header lines
pub open spec fn request_text(path: Seq<char>, lines: Seq<Seq<char>>) -> Seq<char> {
    "GET "@ + path + " HTTP/1.1\r\n"@ + join_with(lines, "\r\n"@) + "\r\n\r\n"@
}

/// the views of name/value pairs
pub open spec fn pair_views(v: Seq<(String, String)>) -> Seq<(Seq<char>, Seq<char>)> {
    v.map_values(|p: (String, String)| (p.0@, p.1@))
}

fn prefixed(prefix: &str, s: &str) -> (r: String)
    ensures
        r@ == prefix@ + s@,
{
    let mut r = String::from_str(prefix);
    r.append(s);
    r
}

/// build protocol http request for `host`, `port` (when the uri names one)
/// and `path` (path and query): a fresh random key and the request text
///
/// return (key, request_str)
pub fn prepare_handshake(
    protocols: &[String],
    extensions: &[String],
    extra_headers: &[(String, String)],
    host: &str,
    port: Option<u16>,
    path: &str,
    version: u8,
) -> (r: (String, String))
    ensures
        exists|b: Seq<u8>| b.len() == 16 && r.0@ == #[trigger] base64_text(b),
        r.1@ == request_text(
            path@,
            handshake_lines(
                r.0@,
                host@,
                port,
                version,
                views(protocols@),
                views(extensions@),
                pair_views(extra_headers@),
            ),
        ),
{
    let key = gen_key();
    let ghost expected = handshake_lines(
        key@,
        host@,
        port,
        version,
        views(protocols@),
        views(extensions@),
        pair_views(extra_headers@),
    );
    let mut lines: Vec<String> = Vec::new();
    let mut h = prefixed("Host: ", host);
    if let Some(p) = port {
        h.append(":");
        push_decimal(&mut h, p as u64);
    }
    lines.push(h);
    lines.push(String::from_str("Upgrade: websocket"));
    lines.push(String::from_str("Connection: Upgrade"));
    lines.push(prefixed("Sec-Websocket-Key: ", key.as_str()));
    let mut v = String::from_str("Sec-WebSocket-Version: ");
    push_decimal(&mut v, version as u64);
    lines.push(v);
    let np = protocols.len();
    let ne = extensions.len();
    let nx = extra_headers.len();
    assert(expected.len() == 5 + np + ne + nx);
    let mut i: usize = 0;
    while i < np
        invariant
            i <= np == protocols@.len(),
            expected.len() == 5 + np + ne + nx,
            expected == handshake_lines(
                key@,
                host@,
                port,
                version,
                views(protocols@),
                views(extensions@),
                pair_views(extra_headers@),
            ),
            lines@.len() == 5 + i,
            forall|k: int| 0 <= k < lines@.len() ==> #[trigger] lines@[k]@ == expected[k],
        decreases np - i,
    {
        lines.push(prefixed("Sec-WebSocket-Protocol: ", protocols[i].as_str()));
        i += 1;
    }
    let mut j: usize = 0;
    while j < ne
        invariant
            j <= ne == extensions@.len(),
            np == protocols@.len(),
            expected.len() == 5 + np + ne + nx,
            expected == handshake_lines(
                key@,
                host@,
                port,
                version,
                views(protocols@),
                views(extensions@),
                pair_views(extra_headers@),
            ),
            lines@.len() == 5 + np + j,
            forall|k: int| 0 <= k < lines@.len() ==> #[trigger] lines@[k]@ == expected[k],
        decreases ne - j,
    {
        lines.push(prefixed("Sec-WebSocket-Extensions: ", extensions[j].as_str()));
        j += 1;
    }
    let mut k: usize = 0;
    while k < nx
        invariant
            k <= nx == extra_headers@.len(),
            np == protocols@.len(),
            ne == extensions@.len(),
            expected.len() == 5 + np + ne + nx,
            expected == handshake_lines(
                key@,
                host@,
                port,
                version,
                views(protocols@),
                views(extensions@),
                pair_views(extra_headers@),
            ),
            lines@.len() == 5 + np + ne + k,
            forall|m: int| 0 <= m < lines@.len() ==> #[trigger] lines@[m]@ == expected[m],
        decreases nx - k,
    {
        let mut line = extra_headers[k].0.clone();
        line.append(": ");
        line.append(extra_headers[k].1.as_str());
        lines.push(line);
        k += 1;
    }
    assert(views(lines@) =~= expected);
    let mut req = String::from_str("GET ");
    req.append(path);
    req.append(" HTTP/1.1\r\n");
    let joined = join_strings(&lines, "\r\n");
    req.append(joined.as_str());
    req.append("\r\n\r\n");
    (key, req)
}

/// the views of headers
pub open spec fn header_views(v: Seq<(String, Vec<u8>)>) -> Seq<(Seq<char>, Seq<u8>)> {
    v.map_values(|h: (String, Vec<u8>)| (h.0@, h.1@))
}

/// What `httparse::Response::parse` fills in from some bytes when it does
/// not fail: status code, minor version and the headers as they stand.
pub uninterp spec fn parsed_response_head(bytes: Seq<u8>) -> Option<(Option<u16>, Option<u8>, Seq<(Seq<char>, Seq<u8>)>)>;

/// What `httparse::Request::parse` fills in from some bytes when it does
/// not fail: method, path, minor version and the headers as they stand.
pub uninterp spec fn parsed_request_head(bytes: Seq<u8>) -> Option<
    (Option<Seq<char>>, Option<Seq<char>>, Option<u8>, Seq<(Seq<char>, Seq<u8>)>),
>;

/// `httparse::Response::parse` with room for 64 headers: `None` when it
/// fails, else the fields it filled in; both named by `parsed_response_head`.
#[verifier::external_body]
fn parse_response_head(bytes: &[u8]) -> (r: Option<(Option<u16>, Option<u8>, Vec<(String, Vec<u8>)>)>)
    ensures
        match r {
            None => parsed_response_head(bytes@) is None,
            Some((c, v, hs)) => parsed_response_head(bytes@) == Some((c, v, header_views(hs@))),
        },
{
    let mut headers = [httparse::EMPTY_HEADER; 64];
    let mut resp = httparse::Response::new(&mut headers);
    match resp.parse(bytes) {
        Ok(_) => {
            let hs = resp.headers.iter().map(|h| (h.name.to_string(), h.value.to_vec())).collect();
            Some((resp.code, resp.version, hs))
        },
        Err(_) => None,
    }
}

/// `httparse::Request::parse` with room for 64 headers: `None` when it
/// fails, else the fields it filled in; both named by `parsed_request_head`.
#[verifier::external_body]
fn parse_request_head(bytes: &[u8]) -> (r: Option<(Option<String>, Option<String>, Option<u8>, Vec<(String, Vec<u8>)>)>)
    ensures
        match r {
            None => parsed_request_head(bytes@) is None,
            Some((m, p, v, hs)) => parsed_request_head(bytes@) == Some(
                (
                    match m {
                        Some(x) => Some(x@),
                        None => None,
                    },
                    match p {
                        Some(x) => Some(x@),
                        None => None,
                    },
                    v,
                    header_views(hs@),
                ),
            ),
        },
{
    let mut headers = [httparse::EMPTY_HEADER; 64];
    let mut req = httparse::Request::new(&mut headers);
    match req.parse(bytes) {
        Ok(_) => {
            let hs = req.headers.iter().map(|h| (h.name.to_string(), h.value.to_vec())).collect();
            Some((req.method.map(|m| m.to_string()), req.path.map(|p| p.to_string()), req.version, hs))
        },
        Err(_) => None,
    }
}

/// the minor version kept for a parsed version: HTTP/1.0 stays, anything
/// else (or nothing) is taken as HTTP/1.1
pub open spec fn http_minor(v: Option<u8>) -> u8 {
    match v {
        Some(x) => if x == 0 {
            0u8
        } else {
            1u8
        },
        None => 1u8,
    }
}

/// parse protocol response
pub fn perform_parse_req(read_bytes: &[u8], key: String) -> (r: Result<(String, HttpResponse), WsError>)
    ensures
        match parsed_response_head(read_bytes@) {
            None => r matches Err(WsError::HandShakeFailed(m)) && m@ == "invalid response"@,
            Some((c, v, hs)) => r matches Ok((k, resp)) && k@ == key@ && resp.status == (match c {
                Some(x) => x,
                None => 0u16,
            }) && resp.version == http_minor(v) && header_views(resp.headers@) == hs,
        },
{
    match parse_response_head(read_bytes) {
        None => Err(WsError::HandShakeFailed(String::from_str("invalid response"))),
        Some((c, v, hs)) => {
            let status = match c {
                Some(x) => x,
                None => 0,
            };
            let version: u8 = match v {
                Some(x) => if x == 0 {
                    0
                } else {
                    1
                },
                None => 1,
            };
            Ok((key, HttpResponse { status, version, headers: hs }))
        },
    }
}

/// The error text `http::Request::builder` gives for a request head with
/// this method, path and headers, or `None` when it accepts them.
pub uninterp spec fn request_build_error(
    method: Seq<char>,
    path: Seq<char>,
    headers: Seq<(Seq<char>, Seq<u8>)>,
) -> Option<Seq<char>>;

/// `http::Request::builder` given the method, the path as uri and each
/// header, then `body(())`: the `Display` text of its error, if it fails;
/// named by `request_build_error`.
#[verifier::external_body]
fn build_request_error(method: &str, path: &str, headers: &Vec<(String, Vec<u8>)>) -> (r: Option<String>)
    ensures
        match r {
            None => request_build_error(method@, path@, header_views(headers@)) is None,
            Some(e) => request_build_error(method@, path@, header_views(headers@)) == Some(e@),
        },
{
    let mut builder = http::Request::builder().method(method).uri(path);
    for (name, value) in headers.iter() {
        builder = builder.header(name.as_str(), value.as_slice());
    }
    builder.body(()).err().map(|e| e.to_string())
}

/// parse http request, used by server building: a head that httparse
/// reads but the `http` request builder refuses (such as an empty method
/// or path) is a handshake failure with the builder's message
pub fn handle_parse_handshake(req_bytes: &[u8]) -> (r: Result<HttpRequest, WsError>)
    ensures
        match parsed_request_head(req_bytes@) {
            None => r matches Err(WsError::HandShakeFailed(m)) && m@ == "invalid request"@,
            Some((m, p, v, hs)) => {
                let method = match m {
                    Some(x) => x,
                    None => Seq::empty(),
                };
                let path = match p {
                    Some(x) => x,
                    None => Seq::empty(),
                };
                match request_build_error(method, path, hs) {
                    Some(e) => r matches Err(WsError::HandShakeFailed(x)) && x@ == e,
                    None => r matches Ok(req) && req.method@ == method && req.path@ == path && req.version
                        == http_minor(v) && header_views(req.headers@) == hs,
                }
            },
        },
{
    match parse_request_head(req_bytes) {
        None => Err(WsError::HandShakeFailed(String::from_str("invalid request"))),
        Some((m, p, v, hs)) => {
            let method = match m {
                Some(x) => x,
                None => String::new(),
            };
            let path = match p {
                Some(x) => x,
                None => String::new(),
            };
            if let Some(e) = build_request_error(method.as_str(), path.as_str(), &hs) {
                return Err(WsError::HandShakeFailed(e));
            }
            let version: u8 = match v {
                Some(x) => if x == 0 {
                    0
                } else {
                    1
                },
                None => 1,
            };
            Ok(HttpRequest { method, path, version, headers: hs })
        },
    }
}

/// the response a server writes to finish (or refuse) the handshake:
/// HTTP/1.1, a status code, headers (lowercase names) and a body
pub struct HandshakeResponse {
    /// status code
    pub status: u16,
    /// headers in order
    pub headers: Vec<(String, String)>,
    /// body
    pub body: String,
}

/// the headers that accept a handshake with the given accept key
pub open spec fn accept_headers(accept: Seq<char>) -> Seq<(Seq<char>, Seq<char>)> {
    seq![("upgrade"@, "WebSocket"@), ("connection"@, "Upgrade"@), ("sec-websocket-accept"@, accept)]
}

/// the status `default_handshake_handler` answers a request with headers
/// `hs` with: 101 when the request passes the checks, else 400
pub open spec fn default_status(hs: Seq<(String, Vec<u8>)>) -> u16 {
    if req_check_error(hs) is None {
        101
    } else {
        400
    }
}

/// the headers `default_handshake_handler` answers with: upgrade,
/// connection and the accept key of the request's key, or the content type
/// of the failure text
pub open spec fn default_headers(hs: Seq<(String, Vec<u8>)>) -> Seq<(Seq<char>, Seq<char>)> {
    match req_check_error(hs) {
        None => match find_header(hs, "sec-websocket-key"@) {
            Some(k) => accept_headers(accept_key_of(k)),
            None => Seq::empty(),
        },
        Some(_) => seq![("content-type"@, "text/html"@)],
    }
}

/// the body `default_handshake_handler` answers with: empty, or the
/// failure text
pub open spec fn default_body(hs: Seq<(String, Vec<u8>)>) -> Seq<char> {
    match req_check_error(hs) {
        None => Seq::empty(),
        Some(m) => m,
    }
}

/// do standard handshake check and return response
pub fn default_handshake_handler(req: HttpRequest) -> (r: Result<(HttpRequest, HandshakeResponse), WsError>)
    ensures
        r matches Ok((req2, resp)) && req2 == req && resp.status == default_status(req.headers@)
            && pair_views(resp.headers@) == default_headers(req.headers@) && resp.body@ == default_body(
            req.headers@,
        ),
{
    match standard_handshake_req_check(&req) {
        Ok(_) => {
            let accept = match header_value(&req.headers, "sec-websocket-key") {
                Some(key) => cal_accept_key(key.as_slice()),
                None => String::new(),
            };
            let mut headers: Vec<(String, String)> = Vec::new();
            headers.push((String::from_str("upgrade"), String::from_str("WebSocket")));
            headers.push((String::from_str("connection"), String::from_str("Upgrade")));
            headers.push((String::from_str("sec-websocket-accept"), accept));
            assert(pair_views(headers@) =~= accept_headers(accept@));
            Ok((req, HandshakeResponse { status: 101, headers, body: String::new() }))
        },
        Err(e) => {
            let body = match e {
                WsError::HandShakeFailed(m) => m,
                _ => String::new(),
            };
            let mut headers: Vec<(String, String)> = Vec::new();
            headers.push((String::from_str("content-type"), String::from_str("text/html")));
            assert(pair_views(headers@) =~= seq![("content-type"@, "text/html"@)]);
            Ok((req, HandshakeResponse { status: 400, headers, body }))
        },
    }
}

/// the text a server writes for a handshake response: status line,
/// header lines, then an empty line
pub open spec fn response_text_of(status: u16, headers: Seq<(Seq<char>, Seq<char>)>) -> Seq<char> {
    join_with(
        seq!["HTTP/1.1 "@ + status_shown(status)] + headers.map_values(
            |kv: (Seq<char>, Seq<char>)| kv.0 + ": "@ + kv.1,
        ) + seq!["\r\n"@],
        "\r\n"@,
    )
}

/// the text to write for a handshake response
pub fn response_text(resp: &HandshakeResponse) -> (r: String)
    ensures
        r@ == response_text_of(resp.status, pair_views(resp.headers@)),
{
    let ghost expected = seq!["HTTP/1.1 "@ + status_shown(resp.status)] + pair_views(resp.headers@).map_values(
        |kv: (Seq<char>, Seq<char>)| kv.0 + ": "@ + kv.1,
    ) + seq!["\r\n"@];
    let mut lines: Vec<String> = Vec::new();
    let st = status_string(resp.status);
    lines.push(prefixed("HTTP/1.1 ", st.as_str()));
    let n = resp.headers.len();
    let mut i: usize = 0;
    while i < n
        invariant
            i <= n == resp.headers@.len(),
            expected == seq!["HTTP/1.1 "@ + status_shown(resp.status)] + pair_views(resp.headers@).map_values(
                |kv: (Seq<char>, Seq<char>)| kv.0 + ": "@ + kv.1,
            ) + seq!["\r\n"@],
            lines@.len() == 1 + i,
            forall|k: int| 0 <= k < lines@.len() ==> #[trigger] lines@[k]@ == expected[k],
        decreases n - i,
    {
        let mut line = resp.headers[i].0.clone();
        line.append(": ");
        line.append(resp.headers[i].1.as_str());
        lines.push(line);
        i += 1;
    }
    lines.push(String::from_str("\r\n"));
    assert(views(lines@) =~= expected);
    join_strings(&lines, "\r\n")
}

/// what a server gets after writing a handshake response: a refusal is a
/// handshake failure with the body as message
pub fn response_outcome(resp: &HandshakeResponse) -> (r: Result<(), WsError>)
    ensures
        resp.status == 101 ==> r is Ok,
        resp.status != 101 ==> (r matches Err(WsError::HandShakeFailed(m)) && m@ == resp.body@),
{
    if resp.status != 101 {
        return Err(WsError::HandShakeFailed(resp.body.clone()));
    }
    Ok(())
}

/// text as bytes, one byte per char
pub open spec fn text_bytes(s: Seq<char>) -> Seq<u8> {
    s.map_values(|c: char| c as u8)
}

/// name/value pairs with the values as bytes
pub open spec fn pairs_as_bytes(v: Seq<(Seq<char>, Seq<char>)>) -> Seq<(Seq<char>, Seq<u8>)> {
    v.map_values(|p: (Seq<char>, Seq<char>)| (p.0, text_bytes(p.1)))
}

proof fn lemma_lower_of_lowercase_ascii(s: Seq<char>)
    requires
        forall|i: int| 0 <= i < s.len() ==> (s[i] as u32) < 128 && !('A' <= #[trigger] s[i] <= 'Z'),
    ensures
        lower_s(s) == s,
{
    assert(crate::strings::all_ascii(s));
    assert(s.map_values(|c: char| crate::strings::ascii_lower_char(c)) =~= s);
}

/// A request that passes the server's checks is answered with an accept
/// key that the client's check of the response takes, for the key the
/// request carried: a 101 response whose headers are the answer's headers,
/// their values as bytes, passes `standard_handshake_resp_check`. (The
/// accept key is base64 text, as `cal_accept_key` states.)
pub proof fn lemma_handshake_accepted(hs: Seq<(String, Vec<u8>)>, resp_headers: Seq<(String, Vec<u8>)>)
    requires
        req_check_error(hs) is None,
        forall|i: int|
            0 <= i < accept_key_of(find_header(hs, "sec-websocket-key"@)->0).len() ==> base64_char(
                #[trigger] accept_key_of(find_header(hs, "sec-websocket-key"@)->0)[i],
            ),
        header_views(resp_headers) == pairs_as_bytes(default_headers(hs)),
    ensures
        resp_check_error(find_header(hs, "sec-websocket-key"@)->0, 101, resp_headers) is None,
{
    let k = find_header(hs, "sec-websocket-key"@)->0;
    let a = accept_key_of(k);
    reveal_strlit("upgrade");
    reveal_strlit("connection");
    reveal_strlit("sec-websocket-accept");
    lemma_lower_of_lowercase_ascii("upgrade"@);
    lemma_lower_of_lowercase_ascii("connection"@);
    lemma_lower_of_lowercase_ascii("sec-websocket-accept"@);
    let hv = header_views(resp_headers);
    assert(find_header(hs, "sec-websocket-key"@) is Some);
    assert(default_headers(hs) == accept_headers(a));
    let pb = pairs_as_bytes(accept_headers(a));
    assert(pb.len() == 3);
    assert(pb[0].0 == "upgrade"@ && pb[1].0 == "connection"@ && pb[2].0 == "sec-websocket-accept"@);
    assert(pb[2].1 == text_bytes(a));
    assert(hv.len() == 3);
    assert(hv[0] == (resp_headers[0].0@, resp_headers[0].1@));
    assert(hv[1] == (resp_headers[1].0@, resp_headers[1].1@));
    assert(hv[2] == (resp_headers[2].0@, resp_headers[2].1@));
    assert(resp_headers[0].0@ == "upgrade"@ && resp_headers[1].0@ == "connection"@);
    assert(resp_headers[2].0@ == "sec-websocket-accept"@);
    assert("upgrade"@ != "sec-websocket-accept"@);
    assert("connection"@ != "sec-websocket-accept"@);
    let r1 = resp_headers.drop_first();
    let r2 = r1.drop_first();
    assert(r1[0] == resp_headers[1] && r2[0] == resp_headers[2]);
    assert(find_header(resp_headers, "sec-websocket-accept"@) == find_header(r1, "sec-websocket-accept"@));
    assert(find_header(r1, "sec-websocket-accept"@) == find_header(r2, "sec-websocket-accept"@));
    let v = resp_headers[2].1@;
    assert(v == text_bytes(a));
    assert(find_header(r2, "sec-websocket-accept"@) == Some(v));
    assert forall|i: int| 0 <= i < v.len() implies visible_ascii(#[trigger] v[i]) by {
        assert(base64_char(a[i]));
    }
    assert(value_text(v) =~= a) by {
        assert forall|i: int| 0 <= i < v.len() implies (v[i] as char) == a[i] by {
            assert(base64_char(a[i]));
        }
    }
}

} // verus!

//! Proxies a connection can go through.
use vstd::prelude::*;
use crate::errors::WsError;
use crate::strings::{lower_s, chars_of, lower_chars, chars_eq, string_of};

verus! {

/// the kinds of proxy
#[derive(Debug, Clone, Copy, PartialEq, Eq, Structural)]
pub enum ProxySchema {
    /// SOCKS5
    Socks5,
    /// HTTP CONNECT
    Http,
}

/// the proxy kind a uri scheme names, compared case-insensitively; any
/// other scheme is refused with its lowercase form
pub fn parse_proxy_schema(scheme: &str) -> (r: Result<ProxySchema, WsError>)
    ensures
        lower_s(scheme@) == "socks5"@ ==> r == Ok::<ProxySchema, WsError>(ProxySchema::Socks5),
        lower_s(scheme@) == "http"@ ==> r == Ok::<ProxySchema, WsError>(ProxySchema::Http),
        lower_s(scheme@) != "socks5"@ && lower_s(scheme@) != "http"@ ==> (r matches Err(
            WsError::UnsupportedProxy(s),
        ) && s@ == lower_s(scheme@)),
{
    proof {
        reveal_strlit("socks5");
        reveal_strlit("http");
        assert("socks5"@.len() != "http"@.len());
    }
    let chars = chars_of(scheme);
    let lower = lower_chars(chars.as_slice());
    let socks = chars_of("socks5");
    let http = chars_of("http");
    if chars_eq(lower.as_slice(), socks.as_slice()) {
        Ok(ProxySchema::Socks5)
    } else if chars_eq(lower.as_slice(), http.as_slice()) {
        Ok(ProxySchema::Http)
    } else {
        Err(WsError::UnsupportedProxy(string_of(lower.as_slice())))
    }
}

} // verus!

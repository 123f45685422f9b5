//! What a connection is made to: the mode a uri scheme names and its host.
use vstd::prelude::*;
use crate::errors::WsError;
use crate::protocol::Mode;
use crate::strings::{lower_s, chars_of, lower_chars, chars_eq, string_of};

verus! {

/// get websocket scheme: `ws` (also for a uri without scheme) or `wss`,
/// compared case-insensitively
pub fn get_scheme(scheme: Option<&str>) -> (r: Result<Mode, WsError>)
    ensures
        ({
            let s = lower_s(
                match scheme {
                    Some(x) => x@,
                    None => "ws"@,
                },
            );
            &&& s == "ws"@ ==> r == Ok::<Mode, WsError>(Mode::WS)
            &&& s == "wss"@ ==> r == Ok::<Mode, WsError>(Mode::WSS)
            &&& s != "ws"@ && s != "wss"@ ==> (r matches Err(WsError::InvalidUri(m)) && m@ == "unknown scheme "@
                + s)
        }),
{
    proof {
        reveal_strlit("ws");
        reveal_strlit("wss");
        assert("ws"@.len() != "wss"@.len());
    }
    let chars = match scheme {
        Some(x) => chars_of(x),
        None => chars_of("ws"),
    };
    let lower = lower_chars(chars.as_slice());
    let ws = chars_of("ws");
    let wss = chars_of("wss");
    if chars_eq(lower.as_slice(), ws.as_slice()) {
        Ok(Mode::WS)
    } else if chars_eq(lower.as_slice(), wss.as_slice()) {
        Ok(Mode::WSS)
    } else {
        let mut m = String::from_str("unknown scheme ");
        let s = string_of(lower.as_slice());
        m.append(s.as_str());
        Err(WsError::InvalidUri(m))
    }
}

/// get host from uri: the host, or an error naming the uri
pub fn get_host<'a>(host: Option<&'a str>, uri: &str) -> (r: Result<&'a str, WsError>)
    ensures
        match host {
            Some(h) => r == Ok::<&'a str, WsError>(h),
            None => r matches Err(WsError::InvalidUri(m)) && m@ == "can not find host "@ + uri@,
        },
{
    match host {
        Some(h) => Ok(h),
        None => {
            let mut m = String::from_str("can not find host ");
            m.append(uri);
            Err(WsError::InvalidUri(m))
        },
    }
}

} // verus!

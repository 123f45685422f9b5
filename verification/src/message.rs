//! Messages handed to and from the codecs: a payload with its opcode and,
//! for close frames, a status code.
use vstd::prelude::*;
use crate::frame::OpCode;
use crate::errors::{ProtocolError, WsError};

verus! {

/// generic message receive/send from websocket stream
#[derive(Debug)]
pub struct Message<T> {
    /// opcode of message
    pub code: OpCode,
    /// payload of message
    pub data: T,
    /// available in close frame only
    pub close_code: Option<u16>,
}

impl<T> Message<T> {
    /// consume message and return payload
    pub fn into(self) -> (r: T)
        ensures
            r == self.data,
    {
        self.data
    }
}

/// a text message borrowing its text
impl<'a> From<&'a str> for Message<&'a str> {
    fn from(data: &'a str) -> (r: Self) {
        Message { code: OpCode::Text, data: data, close_code: None }
    }
}

impl<'a> vstd::std_specs::convert::FromSpecImpl<&'a str> for Message<&'a str> {
    open spec fn obeys_from_spec() -> bool {
        true
    }

    open spec fn from_spec(data: &'a str) -> Message<&'a str> {
        Message { code: OpCode::Text, data: data, close_code: None }
    }
}

/// a binary message borrowing its bytes
impl<'a> From<&'a [u8]> for Message<&'a [u8]> {
    fn from(data: &'a [u8]) -> (r: Self) {
        Message { code: OpCode::Binary, data: data, close_code: None }
    }
}

impl<'a> vstd::std_specs::convert::FromSpecImpl<&'a [u8]> for Message<&'a [u8]> {
    open spec fn obeys_from_spec() -> bool {
        true
    }

    open spec fn from_spec(data: &'a [u8]) -> Message<&'a [u8]> {
        Message { code: OpCode::Binary, data: data, close_code: None }
    }
}

/// a close message with a status code and a borrowed reason
impl<'a> From<(u16, &'a str)> for Message<&'a str> {
    fn from(v: (u16, &'a str)) -> (r: Self) {
        Message { code: OpCode::Close, data: v.1, close_code: Some(v.0) }
    }
}

impl<'a> vstd::std_specs::convert::FromSpecImpl<(u16, &'a str)> for Message<&'a str> {
    open spec fn obeys_from_spec() -> bool {
        true
    }

    open spec fn from_spec(v: (u16, &'a str)) -> Message<&'a str> {
        Message { code: OpCode::Close, data: v.1, close_code: Some(v.0) }
    }
}

/// a close message with a status code and borrowed bytes
impl<'a> From<(u16, &'a [u8])> for Message<&'a [u8]> {
    fn from(v: (u16, &'a [u8])) -> (r: Self) {
        Message { code: OpCode::Close, data: v.1, close_code: Some(v.0) }
    }
}

impl<'a> vstd::std_specs::convert::FromSpecImpl<(u16, &'a [u8])> for Message<&'a [u8]> {
    open spec fn obeys_from_spec() -> bool {
        true
    }

    open spec fn from_spec(v: (u16, &'a [u8])) -> Message<&'a [u8]> {
        Message { code: OpCode::Close, data: v.1, close_code: Some(v.0) }
    }
}

/// a message with the given opcode borrowing its text
impl<'a> From<(OpCode, &'a str)> for Message<&'a str> {
    fn from(v: (OpCode, &'a str)) -> (r: Self) {
        Message { code: v.0, data: v.1, close_code: None }
    }
}

impl<'a> vstd::std_specs::convert::FromSpecImpl<(OpCode, &'a str)> for Message<&'a str> {
    open spec fn obeys_from_spec() -> bool {
        true
    }

    open spec fn from_spec(v: (OpCode, &'a str)) -> Message<&'a str> {
        Message { code: v.0, data: v.1, close_code: None }
    }
}

/// a message with the given opcode borrowing its bytes
impl<'a> From<(OpCode, &'a [u8])> for Message<&'a [u8]> {
    fn from(v: (OpCode, &'a [u8])) -> (r: Self) {
        Message { code: v.0, data: v.1, close_code: None }
    }
}

impl<'a> vstd::std_specs::convert::FromSpecImpl<(OpCode, &'a [u8])> for Message<&'a [u8]> {
    open spec fn obeys_from_spec() -> bool {
        true
    }

    open spec fn from_spec(v: (OpCode, &'a [u8])) -> Message<&'a [u8]> {
        Message { code: v.0, data: v.1, close_code: None }
    }
}

/// a text message
#[derive(Debug, Clone)]
pub struct StrMessage {
    /// the text
    pub data: String,
    /// opcode of the message
    pub code: OpCode,
    /// available in close frame only
    pub close_code: Option<u16>,
}

impl From<(OpCode, String)> for StrMessage {
    fn from(data: (OpCode, String)) -> (r: Self) {
        let close_code = if data.0 == OpCode::Close {
            Some(1000u16)
        } else {
            None
        };
        Self { data: data.1, code: data.0, close_code }
    }
}

impl vstd::std_specs::convert::FromSpecImpl<(OpCode, String)> for StrMessage {
    open spec fn obeys_from_spec() -> bool {
        true
    }

    open spec fn from_spec(data: (OpCode, String)) -> StrMessage {
        StrMessage {
            data: data.1,
            code: data.0,
            close_code: if data.0 == OpCode::Close {
                Some(1000u16)
            } else {
                None
            },
        }
    }
}

impl From<(u16, String)> for StrMessage {
    fn from(data: (u16, String)) -> (r: Self) {
        Self { code: OpCode::Close, close_code: Some(data.0), data: data.1 }
    }
}

impl vstd::std_specs::convert::FromSpecImpl<(u16, String)> for StrMessage {
    open spec fn obeys_from_spec() -> bool {
        true
    }

    open spec fn from_spec(data: (u16, String)) -> StrMessage {
        StrMessage { code: OpCode::Close, close_code: Some(data.0), data: data.1 }
    }
}

impl From<String> for StrMessage {
    fn from(data: String) -> (r: Self) {
        Self { data, code: OpCode::Text, close_code: None }
    }
}

impl vstd::std_specs::convert::FromSpecImpl<String> for StrMessage {
    open spec fn obeys_from_spec() -> bool {
        true
    }

    open spec fn from_spec(data: String) -> StrMessage {
        StrMessage { data, code: OpCode::Text, close_code: None }
    }
}

/// The text `String::from_utf8_lossy` gives of some bytes.
pub uninterp spec fn lossy_text(data: Seq<u8>) -> Seq<char>;

/// `String::from_utf8`: the text of valid UTF-8, nothing otherwise.
#[verifier::external_body]
fn utf8_string(data: &[u8]) -> (r: Option<String>)
    ensures
        r is Some == vstd::utf8::valid_utf8(data@),
        r is Some ==> r->0@ == vstd::utf8::decode_utf8(data@),
{
    String::from_utf8(data.to_vec()).ok()
}

/// `String::from_utf8_lossy`, made owned: the text is named by
/// `lossy_text`; valid UTF-8 is taken as it is.
#[verifier::external_body]
fn lossy_string(data: &[u8]) -> (r: String)
    ensures
        r@ == lossy_text(data@),
        vstd::utf8::valid_utf8(data@) ==> r@ == vstd::utf8::decode_utf8(data@),
{
    String::from_utf8_lossy(data).to_string()
}

/// the status code a close payload starts with, and the rest of it
pub open spec fn split_close(code: OpCode, data: Seq<u8>) -> (Option<u16>, Seq<u8>) {
    if code == OpCode::Close && data.len() >= 2 {
        (Some(((data[0] as u16) * 256 + data[1] as u16) as u16), data.skip(2))
    } else {
        (None, data)
    }
}

fn close_code_of(data: &[u8]) -> (r: u16)
    requires
        data@.len() >= 2,
    ensures
        r == (data@[0] as u16) * 256 + data@[1] as u16,
{
    (data[0] as u16) * 256 + (data[1] as u16)
}

/// a received payload as a text message: a close payload of two bytes or
/// more gives its status code first; the rest of a text payload is checked
/// as UTF-8 when asked (failing with close code 1001), any other payload is
/// read with replacement chars
pub fn text_message(code: OpCode, data: &[u8], validate_utf8: bool) -> (r: Result<Message<String>, WsError>)
    ensures
        ({
            let (close_code, rest) = split_close(code, data@);
            if validate_utf8 && code == OpCode::Text {
                if vstd::utf8::valid_utf8(rest) {
                    r matches Ok(m) && m.code == code && m.close_code == close_code && m.data@
                        == vstd::utf8::decode_utf8(rest)
                } else {
                    r == Err::<Message<String>, WsError>(
                        WsError::ProtocolError { close_code: 1001, error: ProtocolError::InvalidUtf8 },
                    )
                }
            } else {
                r matches Ok(m) && m.code == code && m.close_code == close_code && m.data@ == lossy_text(rest)
            }
        }),
{
    let (close_code, rest) = if code == OpCode::Close && data.len() >= 2 {
        let (_, tail) = data.split_at(2);
        (Some(close_code_of(data)), tail)
    } else {
        (None, data)
    };
    assert(rest@ == split_close(code, data@).1);
    if validate_utf8 && code == OpCode::Text {
        match utf8_string(rest) {
            Some(text) => Ok(Message { data: text, close_code, code }),
            None => Err(WsError::ProtocolError { close_code: 1001, error: ProtocolError::InvalidUtf8 }),
        }
    } else {
        Ok(Message { data: lossy_string(rest), close_code, code })
    }
}

/// a received payload as a binary message: a close payload gives its
/// status code first
pub fn binary_message(code: OpCode, data: &[u8]) -> (r: Message<Vec<u8>>)
    requires
        code == OpCode::Close ==> data@.len() >= 2,
    ensures
        r.code == code,
        r.close_code == split_close(code, data@).0,
        r.data@ == split_close(code, data@).1,
{
    let mut out: Vec<u8> = Vec::new();
    if code == OpCode::Close {
        let (_, tail) = data.split_at(2);
        out.extend_from_slice(tail);
        Message { code, data: out, close_code: Some(close_code_of(data)) }
    } else {
        out.extend_from_slice(data);
        Message { code, data: out, close_code: None }
    }
}

/// the payload a message is sent with: a close message with a status code
/// carries the code (big endian) before its data
pub fn message_payload(code: OpCode, close_code: Option<u16>, data: &[u8]) -> (r: Vec<u8>)
    ensures
        r@ == match close_code {
            Some(c) => if code == OpCode::Close {
                seq![(c / 256) as u8, (c % 256) as u8] + data@
            } else {
                data@
            },
            None => data@,
        },
{
    let mut out: Vec<u8> = Vec::new();
    if let Some(c) = close_code {
        if code == OpCode::Close {
            out.push((c / 256) as u8);
            out.push((c % 256) as u8);
        }
    }
    out.extend_from_slice(data);
    out
}

/// A close message sent with a status code is read back with that status
/// code and the same data.
pub proof fn lemma_close_payload_roundtrip(c: u16, data: Seq<u8>)
    ensures
        split_close(OpCode::Close, seq![(c / 256) as u8, (c % 256) as u8] + data) == (Some(c), data),
{
    let p = seq![(c / 256) as u8, (c % 256) as u8] + data;
    assert(p.skip(2) =~= data);
    assert(((c / 256) as u8) as u16 * 256 + ((c % 256) as u8) as u16 == c);
}

} // verus!

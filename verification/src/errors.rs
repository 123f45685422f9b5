//! Errors raised during handshake and while reading or writing frames.
use vstd::prelude::*;
use crate::frame::OpCode;
use crate::strings::{decimal, push_decimal, string_push};

verus! {

/// errors during handshake, read/write frame
#[derive(Debug, Clone, PartialEq, Eq)]
pub enum WsError {
    /// invalid websocket connection url
    InvalidUri(String),
    /// invalid cert file path
    CertFileNotFound(String),
    /// broken certs
    LoadCertFailed(String),
    /// failed to connect websocket server
    ConnectionFailed(String),
    /// tls session DNS is broken
    TlsDnsFailed(String),
    /// raised by underlying stream, with its message
    IOError(String),
    /// invalid protocol handshake
    HandShakeFailed(String),
    /// websocket protocol violation
    ProtocolError {
        /// peer close code
        close_code: u16,
        /// detail error
        error: ProtocolError,
    },
    /// peer send a frame with unknown opcode
    UnsupportedFrame(OpCode),
    /// compression failed, with the zlib status
    CompressFailed(String),
    /// decompression failed, with the zlib status
    DeCompressFailed(String),
    /// unsupported proxy scheme
    UnsupportedProxy(String),
    /// proxy address could not be used
    InvalidProxy(String),
    /// proxy connection failed
    ProxyError(String),
}

/// errors during decode frame from bytes
#[derive(Debug, Clone, Copy, PartialEq, Eq, Structural)]
pub enum ProtocolError {
    /// need more data to construct valid frame
    InsufficientLen(usize),
    /// need more data to construct valid frame header
    InvalidLeadingBits(u8),
    /// invalid frame opcode
    InvalidOpcode(u8),
    /// invalid bit of fin, rsv1, rsv2, rsv3
    InvalidLeadingLen(u8),
    /// mismatch payload len in frame header and actual payload
    MisMatchDataLen(usize, usize),
    /// missing first frame in fragmented frame
    MissInitialFragmentedFrame,
    /// invalid data frame after first fragmented frame
    NotContinueFrameAfterFragmented,
    /// control framed should not be fragmented
    FragmentedControlFrame,
    /// control frame is too big
    ControlFrameTooBig(usize),
    /// invalid payload content(need to be valid utf8) of a close frame
    InvalidCloseFramePayload,
    /// invalid utf8 payload of a text frame
    InvalidUtf8,
    /// invalid close code
    InvalidCloseCode(u16),
    /// payload exceed payload len limit
    PayloadTooLarge(usize),
    /// control frames must not be compressed
    CompressedControlFrame,
}

/// the binary digits of a number, without leading zeros
pub open spec fn binary(n: int) -> Seq<char>
    decreases n,
{
    if n < 2 || n <= 0 {
        seq![(n + 48) as char]
    } else {
        binary(n / 2).push((n % 2 + 48) as char)
    }
}

fn push_binary(s: &mut String, n: u8)
    ensures
        final(s)@ == old(s)@ + binary(n as int),
    decreases n,
{
    if n >= 2 {
        push_binary(s, n / 2);
    }
    let d = n % 2;
    string_push(s, (d + 48) as char);
    assert(s@ =~= old(s)@ + binary(n as int));
}

/// the text a protocol error displays
pub open spec fn protocol_error_text(e: ProtocolError) -> Seq<char> {
    match e {
        ProtocolError::InsufficientLen(n) => "insufficient data len "@ + decimal(n as int),
        ProtocolError::InvalidLeadingBits(b) => "invalid leading bits "@ + binary(b as int),
        ProtocolError::InvalidOpcode(b) => "invalid opcode "@ + decimal(b as int),
        ProtocolError::InvalidLeadingLen(b) => "invalid leading payload len "@ + decimal(b as int),
        ProtocolError::MisMatchDataLen(a, b) => "mismatch data len, expect "@ + decimal(a as int) + ", got "@
            + decimal(b as int),
        ProtocolError::MissInitialFragmentedFrame => "missing init fragmented frame"@,
        ProtocolError::NotContinueFrameAfterFragmented => "not continue frame after init fragmented frame"@,
        ProtocolError::FragmentedControlFrame => "fragmented control frame "@,
        ProtocolError::ControlFrameTooBig(n) => "control frame is too big "@ + decimal(n as int),
        ProtocolError::InvalidCloseFramePayload => "invalid close frame payload len, expect 0, >= 2"@,
        ProtocolError::InvalidUtf8 => "invalid utf-8 text"@,
        ProtocolError::InvalidCloseCode(c) => "invalid close code "@ + decimal(c as int),
        ProtocolError::PayloadTooLarge(n) => "payload too large, max payload size "@ + decimal(n as int),
        ProtocolError::CompressedControlFrame => "compressed control frame"@,
    }
}

impl ProtocolError {
    /// the text the error displays
    pub fn message(&self) -> (r: String)
        ensures
            r@ == protocol_error_text(*self),
    {
        match self {
            ProtocolError::InsufficientLen(n) => {
                let mut s = String::from_str("insufficient data len ");
                push_decimal(&mut s, *n as u64);
                s
            },
            ProtocolError::InvalidLeadingBits(b) => {
                let mut s = String::from_str("invalid leading bits ");
                push_binary(&mut s, *b);
                s
            },
            ProtocolError::InvalidOpcode(b) => {
                let mut s = String::from_str("invalid opcode ");
                push_decimal(&mut s, *b as u64);
                s
            },
            ProtocolError::InvalidLeadingLen(b) => {
                let mut s = String::from_str("invalid leading payload len ");
                push_decimal(&mut s, *b as u64);
                s
            },
            ProtocolError::MisMatchDataLen(a, b) => {
                let mut s = String::from_str("mismatch data len, expect ");
                push_decimal(&mut s, *a as u64);
                s.append(", got ");
                push_decimal(&mut s, *b as u64);
                s
            },
            ProtocolError::MissInitialFragmentedFrame => String::from_str("missing init fragmented frame"),
            ProtocolError::NotContinueFrameAfterFragmented => String::from_str(
                "not continue frame after init fragmented frame",
            ),
            ProtocolError::FragmentedControlFrame => String::from_str("fragmented control frame "),
            ProtocolError::ControlFrameTooBig(n) => {
                let mut s = String::from_str("control frame is too big ");
                push_decimal(&mut s, *n as u64);
                s
            },
            ProtocolError::InvalidCloseFramePayload => String::from_str(
                "invalid close frame payload len, expect 0, >= 2",
            ),
            ProtocolError::InvalidUtf8 => String::from_str("invalid utf-8 text"),
            ProtocolError::InvalidCloseCode(c) => {
                let mut s = String::from_str("invalid close code ");
                push_decimal(&mut s, *c as u64);
                s
            },
            ProtocolError::PayloadTooLarge(n) => {
                let mut s = String::from_str("payload too large, max payload size ");
                push_decimal(&mut s, *n as u64);
                s
            },
            ProtocolError::CompressedControlFrame => String::from_str("compressed control frame"),
        }
    }
}

} // verus!

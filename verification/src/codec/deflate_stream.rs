//! Reading and writing permessage-deflate messages. The compressor and the
//! decompressor run outside: reading asks for a payload to be decompressed
//! and takes the result back; writing frames what the compressor gave.
use vstd::prelude::*;
use crate::codec::masked;
use crate::codec::deflate::{PMDConfig, WindowBit, low_level_config, gen_low_level_config};
use crate::codec::frame::{
    FrameConfig, FrameReadState, FrameWriteState, ValidateUtf8Policy, frame_bytes, push_frame, random_key,
    simd_utf8_ok, mask_range, chunks_of, sub_slice, join_payloads, text_passes,
};
use crate::frame::ctor_header;
use crate::errors::{ProtocolError, WsError};
use crate::frame::{OpCode, SimplifiedHeader, frame_header, opt_key};

verus! {

/// whether the (de)compressor is reset after each message: the side's own
/// no_context_takeover parameter
pub open spec fn resets_context(is_server: bool, pmd: Option<PMDConfig>) -> bool {
    match pmd {
        Some(c) => (is_server && c.server_no_context_takeover) || (!is_server && c.client_no_context_takeover),
        None => false,
    }
}

/// the window bits the (de)compressor of a side uses: the peer's maximum
pub open spec fn stream_window(is_server: bool, pmd: Option<PMDConfig>) -> Option<WindowBit> {
    match pmd {
        Some(c) => Some(if is_server {
            c.client_max_window_bits
        } else {
            c.server_max_window_bits
        }),
        None => None,
    }
}

/// the protocol error for a payload that is not UTF-8
pub open spec fn invalid_utf8() -> WsError {
    WsError::ProtocolError { close_code: 1007, error: ProtocolError::InvalidUtf8 }
}

/// the merging state of a deflate reader: (fragmented, merged payload, the
/// opcode in the merged frame's header, the fragmented message's type)
pub type MergeState = (bool, Seq<u8>, OpCode, OpCode);

/// what merging one decompressed frame gives: the message it completes (or
/// `None` while fragments are coming), or the error; and the state after
pub open spec fn deflate_merge(
    config: FrameConfig,
    st: MergeState,
    h: SimplifiedHeader,
    p: Seq<u8>,
) -> (Result<Option<(SimplifiedHeader, Seq<u8>)>, WsError>, MergeState) {
    let (fragmented, data, data_code, ftype) = st;
    if !config.merge_frame {
        (Ok(Some((h, p))), st)
    } else {
        match h.code {
            OpCode::Continue => if !fragmented {
                (
                    Err(WsError::ProtocolError { close_code: 1002, error: ProtocolError::MissInitialFragmentedFrame }),
                    st,
                )
            } else if h.fin {
                if data_code == OpCode::Text && config.validate_utf8 != ValidateUtf8Policy::Off
                    && !vstd::utf8::valid_utf8(data + p) {
                    (Err(invalid_utf8()), (false, Seq::empty(), OpCode::Binary, ftype))
                } else {
                    (
                        Ok(Some((SimplifiedHeader { fin: true, rsv1: false, rsv2: false, rsv3: false, code: data_code }, data + p))),
                        (false, Seq::empty(), OpCode::Binary, ftype),
                    )
                }
            } else {
                (Ok(None), (true, data + p, data_code, ftype))
            },
            OpCode::Text | OpCode::Binary => if fragmented {
                (
                    Err(
                        WsError::ProtocolError {
                            close_code: 1002,
                            error: ProtocolError::NotContinueFrameAfterFragmented,
                        },
                    ),
                    st,
                )
            } else if !h.fin {
                if h.code == OpCode::Text && config.validate_utf8 == ValidateUtf8Policy::FastFail
                    && !vstd::utf8::valid_utf8(p) {
                    (Err(invalid_utf8()), (true, data, data_code, h.code))
                } else {
                    (Ok(None), (true, data + p, h.code, h.code))
                }
            } else if h.code == OpCode::Text && config.validate_utf8 != ValidateUtf8Policy::Off
                && !vstd::utf8::valid_utf8(p) {
                (Err(invalid_utf8()), st)
            } else {
                (Ok(Some((h, p))), st)
            },
            OpCode::Close | OpCode::Ping | OpCode::Pong => (Ok(Some((h, p))), st),
            _ => (Err(WsError::UnsupportedFrame(h.code)), st),
        }
    }
}

/// A side resets its (de)compression context after each message exactly
/// when its own no_context_takeover parameter was negotiated: the server
/// follows server_no_context_takeover, the client
/// client_no_context_takeover, and the other side's parameter plays no part;
/// without the extension nothing is reset.
pub proof fn lemma_reset_follows_own_flag(c: PMDConfig, flag: bool)
    ensures
        resets_context(true, Some(c)) == c.server_no_context_takeover,
        resets_context(false, Some(c)) == c.client_no_context_takeover,
        resets_context(true, Some(PMDConfig { client_no_context_takeover: flag, ..c })) == resets_context(
            true,
            Some(c),
        ),
        resets_context(false, Some(PMDConfig { server_no_context_takeover: flag, ..c })) == resets_context(
            false,
            Some(c),
        ),
        !resets_context(true, None),
        !resets_context(false, None),
{
}

/// the state after continuation frames without fin carrying `ps`, each
/// taken in without a message or an error; `None` if one of them gives
/// something else
pub open spec fn take_continuations(config: FrameConfig, st: MergeState, ps: Seq<Seq<u8>>) -> Option<MergeState>
    decreases ps.len(),
{
    if ps.len() == 0 {
        Some(st)
    } else {
        let h = SimplifiedHeader { fin: false, rsv1: false, rsv2: false, rsv3: false, code: OpCode::Continue };
        let (r, st1) = deflate_merge(config, st, h, ps[0]);
        if r == Ok::<Option<(SimplifiedHeader, Seq<u8>)>, WsError>(None) {
            take_continuations(config, st1, ps.drop_first())
        } else {
            None
        }
    }
}

proof fn lemma_take_continuations(config: FrameConfig, data: Seq<u8>, code: OpCode, ftype: OpCode, ps: Seq<Seq<u8>>)
    requires
        config.merge_frame,
    ensures
        take_continuations(config, (true, data, code, ftype), ps) == Some::<MergeState>(
            (true, data + join_payloads(ps), code, ftype),
        ),
    decreases ps.len(),
{
    if ps.len() == 0 {
        assert(data + join_payloads(ps) =~= data);
    } else {
        lemma_take_continuations(config, data + ps[0], code, ftype, ps.drop_first());
        assert(data + ps[0] + join_payloads(ps.drop_first()) =~= data + join_payloads(ps));
    }
}

/// A fragmented message read on a deflate connection comes out whole: from
/// a state outside a fragmented message, a text or binary frame without
/// fin starts it and hands out nothing, continuation frames without fin
/// hand out nothing, and the continuation frame with fin hands out one
/// message, with fin, no rsv bit and the first frame's opcode, whose payload
/// is every fragment's payload joined in order (after any data the state
/// held, which a reader outside a fragmented message holds none of, see
/// `lemma_merge_state_clean`); the reader is then outside a fragmented
/// message again. A text message must pass the UTF-8 policy.
pub proof fn lemma_deflate_fragments_merge(
    config: FrameConfig,
    st0: MergeState,
    first: SimplifiedHeader,
    first_payload: Seq<u8>,
    middle: Seq<Seq<u8>>,
    last: SimplifiedHeader,
    last_payload: Seq<u8>,
)
    requires
        config.merge_frame,
        !st0.0,
        first.code == OpCode::Text || first.code == OpCode::Binary,
        !first.fin,
        last.code == OpCode::Continue,
        last.fin,
        first.code == OpCode::Text ==> text_passes(
            config.validate_utf8,
            st0.1 + first_payload + join_payloads(middle) + last_payload,
            first_payload,
        ),
    ensures
        ({
            let (r1, st1) = deflate_merge(config, st0, first, first_payload);
            let whole = st0.1 + first_payload + join_payloads(middle) + last_payload;
            &&& r1 == Ok::<Option<(SimplifiedHeader, Seq<u8>)>, WsError>(None)
            &&& take_continuations(config, st1, middle) matches Some(st2) && {
                let (r3, st3) = deflate_merge(config, st2, last, last_payload);
                &&& r3 == Ok::<Option<(SimplifiedHeader, Seq<u8>)>, WsError>(
                    Some(
                        (
                            SimplifiedHeader { fin: true, rsv1: false, rsv2: false, rsv3: false, code: first.code },
                            whole,
                        ),
                    ),
                )
                &&& !st3.0
                &&& st3.1 == Seq::<u8>::empty()
            }
        }),
{
    let (r1, st1) = deflate_merge(config, st0, first, first_payload);
    if first.code == OpCode::Text && config.validate_utf8 == ValidateUtf8Policy::FastFail {
        assert(vstd::utf8::valid_utf8(first_payload));
    }
    assert(st1 == (true, st0.1 + first_payload, first.code, first.code));
    lemma_take_continuations(config, st0.1 + first_payload, first.code, first.code, middle);
    assert(st0.1 + first_payload + join_payloads(middle) + last_payload == st0.1 + first_payload + join_payloads(
        middle,
    ) + last_payload);
}

/// A reader outside a fragmented message holds no merged data, and merging
/// a frame keeps it so.
pub proof fn lemma_merge_state_clean(config: FrameConfig, st: MergeState, h: SimplifiedHeader, p: Seq<u8>)
    requires
        !st.0 ==> st.1 == Seq::<u8>::empty(),
    ensures
        ({
            let st1 = deflate_merge(config, st, h, p).1;
            !st1.0 ==> st1.1 == Seq::<u8>::empty()
        }),
{
}

/// what the deflate reader asks of the caller or hands out
#[derive(Debug)]
pub enum DeflateStep {
    /// no complete header yet: read once, into room of this many bytes
    Poll(usize),
    /// the header is complete: read exactly this many more bytes
    Fill(usize),
    /// decompress these bytes (the payload and the flush tail) and hand the
    /// result to `accept_decompressed` with this header
    Decompress(SimplifiedHeader, Vec<u8>),
    /// a fragment was taken in; more are to come
    Fragment,
    /// a message: its header and payload
    Message(SimplifiedHeader, Vec<u8>),
}

/// the flush tail that is put back after a compressed payload
pub open spec fn flush_tail() -> Seq<u8> {
    seq![0u8, 0u8, 255u8, 255u8]
}

/// deflate frame read state
pub struct DeflateReadState {
    read_state: FrameReadState,
    pmd: Option<PMDConfig>,
    config: FrameConfig,
    fragmented: bool,
    fragmented_data: Vec<u8>,
    data_code: OpCode,
    fragmented_type: OpCode,
    is_server: bool,
}

impl DeflateReadState {
    /// the frame layer below
    pub closed spec fn spec_read_state(self) -> FrameReadState {
        self.read_state
    }

    /// the negotiated parameters, if the extension is on
    pub closed spec fn spec_pmd(self) -> Option<PMDConfig> {
        self.pmd
    }

    /// the config the messages are merged and checked with
    pub closed spec fn spec_config(self) -> FrameConfig {
        self.config
    }

    /// the merging state
    pub closed spec fn spec_merge(self) -> MergeState {
        (self.fragmented, self.fragmented_data@, self.data_code, self.fragmented_type)
    }

    /// whether this is the server side
    pub closed spec fn spec_is_server(self) -> bool {
        self.is_server
    }

    /// construct with config
    pub fn with_config(frame_config: FrameConfig, pmd_config: Option<PMDConfig>, is_server: bool) -> (r: Self)
        ensures
            r.spec_read_state().wf(),
            r.spec_read_state().spec_config() == low_level_config(frame_config),
            r.spec_read_state().spec_available() == Seq::<u8>::empty(),
            !r.spec_read_state().spec_fragmented(),
            r.spec_pmd() == pmd_config,
            r.spec_config() == frame_config,
            r.spec_merge() == (false, Seq::<u8>::empty(), OpCode::Binary, OpCode::Binary),
            r.spec_is_server() == is_server,
    {
        let low = gen_low_level_config(&frame_config);
        let read_state = FrameReadState::with_config(low);
        Self {
            read_state,
            pmd: pmd_config,
            config: frame_config,
            fragmented: false,
            fragmented_data: Vec::new(),
            data_code: OpCode::Binary,
            fragmented_type: OpCode::Binary,
            is_server,
        }
    }

    /// the window bits the decompressor is to be made with, if the
    /// extension is on
    pub fn decompressor_window(&self) -> (r: Option<WindowBit>)
        ensures
            r == stream_window(self.spec_is_server(), self.spec_pmd()),
    {
        match self.pmd {
            Some(c) => Some(if self.is_server {
                c.client_max_window_bits
            } else {
                c.server_max_window_bits
            }),
            None => None,
        }
    }

    /// whether the decompressor is reset after each message
    pub fn resets_decompressor(&self) -> (r: bool)
        ensures
            r == resets_context(self.spec_is_server(), self.spec_pmd()),
    {
        match self.pmd {
            Some(c) => (self.is_server && c.server_no_context_takeover) || (!self.is_server
                && c.client_no_context_takeover),
            None => false,
        }
    }

    /// the frame layer, to read into
    pub fn read_state_mut(&mut self) -> (r: &mut FrameReadState)
        ensures
            *r == old(self).spec_read_state(),
            final(self).spec_read_state() == *final(r),
            final(self).spec_pmd() == old(self).spec_pmd(),
            final(self).spec_config() == old(self).spec_config(),
            final(self).spec_merge() == old(self).spec_merge(),
            final(self).spec_is_server() == old(self).spec_is_server(),
    {
        &mut self.read_state
    }

    fn merge(&mut self, h: SimplifiedHeader, p: Vec<u8>) -> (r: Result<DeflateStep, WsError>)
        ensures
            ({
                let (res, st) = deflate_merge(old(self).spec_config(), old(self).spec_merge(), h, p@);
                &&& final(self).spec_merge() == st
                &&& match res {
                    Err(e) => r == Err::<DeflateStep, WsError>(e),
                    Ok(None) => r matches Ok(DeflateStep::Fragment),
                    Ok(Some((h2, p2))) => r matches Ok(DeflateStep::Message(h3, v)) && h3 == h2 && v@ == p2,
                }
            }),
            final(self).spec_read_state() == old(self).spec_read_state(),
            final(self).spec_pmd() == old(self).spec_pmd(),
            final(self).spec_config() == old(self).spec_config(),
            final(self).spec_is_server() == old(self).spec_is_server(),
    {
        if !self.config.merge_frame {
            return Ok(DeflateStep::Message(h, p));
        }
        match h.code {
            OpCode::Continue => {
                if !self.fragmented {
                    return Err(WsError::ProtocolError {
                        close_code: 1002,
                        error: ProtocolError::MissInitialFragmentedFrame,
                    });
                }
                let ghost merged = old(self).spec_merge().1 + p@;
                self.fragmented_data.extend_from_slice(p.as_slice());
                assert(self.fragmented_data@ =~= merged);
                if h.fin {
                    let mut data: Vec<u8> = Vec::new();
                    std::mem::swap(&mut data, &mut self.fragmented_data);
                    assert(data@ == merged);
                    assert(self.fragmented_data@ =~= Seq::<u8>::empty());
                    let code = self.data_code;
                    self.data_code = OpCode::Binary;
                    self.fragmented = false;
                    if code == OpCode::Text && self.config.validate_utf8.should_check() && !simd_utf8_ok(
                        data.as_slice(),
                    ) {
                        return Err(WsError::ProtocolError { close_code: 1007, error: ProtocolError::InvalidUtf8 });
                    }
                    Ok(DeflateStep::Message(
                        SimplifiedHeader { fin: true, rsv1: false, rsv2: false, rsv3: false, code },
                        data,
                    ))
                } else {
                    Ok(DeflateStep::Fragment)
                }
            },
            OpCode::Text | OpCode::Binary => {
                if self.fragmented {
                    return Err(WsError::ProtocolError {
                        close_code: 1002,
                        error: ProtocolError::NotContinueFrameAfterFragmented,
                    });
                }
                if !h.fin {
                    self.fragmented = true;
                    self.fragmented_type = h.code;
                    if h.code == OpCode::Text && self.config.validate_utf8.is_fast_fail() && !simd_utf8_ok(
                        p.as_slice(),
                    ) {
                        return Err(WsError::ProtocolError { close_code: 1007, error: ProtocolError::InvalidUtf8 });
                    }
                    self.data_code = h.code;
                    self.fragmented_data.extend_from_slice(p.as_slice());
                    Ok(DeflateStep::Fragment)
                } else {
                    if h.code == OpCode::Text && self.config.validate_utf8.should_check() && !simd_utf8_ok(
                        p.as_slice(),
                    ) {
                        return Err(WsError::ProtocolError { close_code: 1007, error: ProtocolError::InvalidUtf8 });
                    }
                    Ok(DeflateStep::Message(h, p))
                }
            },
            OpCode::Close | OpCode::Ping | OpCode::Pong => Ok(DeflateStep::Message(h, p)),
            _ => Err(WsError::UnsupportedFrame(h.code)),
        }
    }

    /// what to do with a frame the frame layer handed out: refuse a
    /// compressed control frame, pass control frames on, ask for data
    /// frames to be decompressed when the extension is on, refuse a
    /// compressed frame when it is off, and merge the rest
    pub fn take_frame(&mut self, h: SimplifiedHeader, p: Vec<u8>) -> (r: Result<DeflateStep, WsError>)
        ensures
            final(self).spec_read_state() == old(self).spec_read_state(),
            final(self).spec_pmd() == old(self).spec_pmd(),
            final(self).spec_config() == old(self).spec_config(),
            final(self).spec_is_server() == old(self).spec_is_server(),
            ({
                let data = h.code == OpCode::Text || h.code == OpCode::Binary || h.code == OpCode::Continue;
                if h.rsv1 && !data {
                    &&& r == Err::<DeflateStep, WsError>(
                        WsError::ProtocolError { close_code: 1002, error: ProtocolError::CompressedControlFrame },
                    )
                    &&& final(self).spec_merge() == old(self).spec_merge()
                } else if data && old(self).spec_pmd() is Some {
                    &&& r matches Ok(DeflateStep::Decompress(h2, v)) && h2 == h && v@ == p@ + flush_tail()
                    &&& final(self).spec_merge() == old(self).spec_merge()
                } else if data && h.rsv1 {
                    &&& r matches Err(WsError::DeCompressFailed(m)) && m@
                        == "extension not enabled but got compressed frame"@
                    &&& final(self).spec_merge() == old(self).spec_merge()
                } else {
                    let (res, st) = deflate_merge(old(self).spec_config(), old(self).spec_merge(), h, p@);
                    &&& final(self).spec_merge() == st
                    &&& match res {
                        Err(e) => r == Err::<DeflateStep, WsError>(e),
                        Ok(None) => r matches Ok(DeflateStep::Fragment),
                        Ok(Some((h2, p2))) => r matches Ok(DeflateStep::Message(h3, v)) && h3 == h2 && v@ == p2,
                    }
                }
            }),
    {
        let data = h.code.is_data();
        if h.rsv1 && !data {
            return Err(WsError::ProtocolError { close_code: 1002, error: ProtocolError::CompressedControlFrame });
        }
        if !data {
            return self.merge(h, p);
        }
        if self.pmd.is_some() {
            let mut v = p;
            v.push(0);
            v.push(0);
            v.push(255);
            v.push(255);
            assert(v@ =~= p@ + flush_tail());
            return Ok(DeflateStep::Decompress(h, v));
        }
        if h.rsv1 {
            return Err(WsError::DeCompressFailed(String::from_str("extension not enabled but got compressed frame")));
        }
        self.merge(h, p)
    }

    /// take back what the decompressor made of a payload that
    /// `receive_step` asked for: its failure, or the decompressed payload,
    /// merged as a frame with fin set, no rsv bit and the opcode of `h`
    pub fn accept_decompressed(&mut self, h: SimplifiedHeader, result: Result<Vec<u8>, String>) -> (r: Result<
        DeflateStep,
        WsError,
    >)
        ensures
            final(self).spec_read_state() == old(self).spec_read_state(),
            final(self).spec_pmd() == old(self).spec_pmd(),
            final(self).spec_config() == old(self).spec_config(),
            final(self).spec_is_server() == old(self).spec_is_server(),
            match result {
                Err(m) => r matches Err(WsError::DeCompressFailed(m2)) && m2@ == m@ && final(self).spec_merge()
                    == old(self).spec_merge(),
                Ok(d) => {
                    let h1 = SimplifiedHeader { fin: true, rsv1: false, rsv2: false, rsv3: false, code: h.code };
                    let (res, st) = deflate_merge(old(self).spec_config(), old(self).spec_merge(), h1, d@);
                    &&& final(self).spec_merge() == st
                    &&& match res {
                        Err(e) => r == Err::<DeflateStep, WsError>(e),
                        Ok(None) => r matches Ok(DeflateStep::Fragment),
                        Ok(Some((h2, p2))) => r matches Ok(DeflateStep::Message(h3, v)) && h3 == h2 && v@ == p2,
                    }
                },
            },
    {
        match result {
            Err(m) => Err(WsError::DeCompressFailed(m)),
            Ok(d) => {
                let h1 = SimplifiedHeader { fin: true, rsv1: false, rsv2: false, rsv3: false, code: h.code };
                self.merge(h1, d)
            },
        }
    }
}

/// the opcode of frame `idx` of a message: the message opcode on the first
/// frame, continuation after it
pub open spec fn fragment_code(idx: int, code: OpCode) -> OpCode {
    if idx == 0 {
        code
    } else {
        OpCode::Continue
    }
}

/// whether frame `idx` is the first of its message (and carries rsv1 when
/// compressed)
pub open spec fn first_frame(idx: int) -> bool {
    idx == 0
}

/// one frame of compressed data: header with rsv1 as given (set on the
/// first frame of a compressed message only), then the payload masked with
/// the key when there is one
pub open spec fn compressed_frame_bytes(
    fin: bool,
    rsv1: bool,
    opcode: OpCode,
    key: Option<[u8; 4]>,
    data: Seq<u8>,
) -> Seq<u8> {
    frame_header(fin, rsv1, false, false, opt_key(key), opcode, data.len() as u64) + match key {
        Some(k) => masked(data, k),
        None => data,
    }
}

/// the frame for compressor output: the output without its four-byte
/// flush tail, framed with the given rsv1 bit
pub fn compressed_frame_with(fin: bool, rsv1: bool, code: OpCode, mask: Option<[u8; 4]>, output: &[u8]) -> (r: Vec<u8>)
    requires
        output@.len() >= 4,
    ensures
        r@ == compressed_frame_bytes(fin, rsv1, code, mask, output@.take(output@.len() - 4)),
{
    let n = output.len() - 4;
    let mut out: Vec<u8> = Vec::new();
    ctor_header(&mut out, fin, rsv1, false, false, mask, code, n as u64);
    let ghost o1 = out@;
    let mut data: Vec<u8> = Vec::new();
    let mut i: usize = 0;
    while i < n
        invariant
            i <= n == output@.len() - 4,
            data@ == output@.take(i as int),
        decreases n - i,
    {
        data.push(output[i]);
        i += 1;
        assert(data@ =~= output@.take(i as int));
    }
    if let Some(k) = mask {
        mask_range(&mut data, 0, n, k);
        assert(data@ =~= masked(output@.take(n as int), k));
    }
    out.extend_from_slice(data.as_slice());
    assert(out@ =~= compressed_frame_bytes(fin, rsv1, code, mask, output@.take(output@.len() - 4)));
    out
}

/// deflate frame write state
pub struct DeflateWriteState {
    write_state: FrameWriteState,
    pmd: Option<PMDConfig>,
    config: FrameConfig,
    is_server: bool,
}

impl DeflateWriteState {
    /// the frame layer below
    pub closed spec fn spec_write_state(self) -> FrameWriteState {
        self.write_state
    }

    /// the negotiated parameters, if the extension is on
    pub closed spec fn spec_pmd(self) -> Option<PMDConfig> {
        self.pmd
    }

    /// the config messages are sent with
    pub closed spec fn spec_config(self) -> FrameConfig {
        self.config
    }

    /// whether this is the server side
    pub closed spec fn spec_is_server(self) -> bool {
        self.is_server
    }

    /// construct with config
    pub fn with_config(frame_config: FrameConfig, pmd_config: Option<PMDConfig>, is_server: bool) -> (r: Self)
        ensures
            r.spec_write_state().spec_config() == low_level_config(frame_config),
            r.spec_pmd() == pmd_config,
            r.spec_config() == frame_config,
            r.spec_is_server() == is_server,
    {
        let low = gen_low_level_config(&frame_config);
        Self { write_state: FrameWriteState::with_config(low), pmd: pmd_config, config: frame_config, is_server }
    }

    /// the window bits the compressor is to be made with, if the extension
    /// is on
    pub fn compressor_window(&self) -> (r: Option<WindowBit>)
        ensures
            r == stream_window(self.spec_is_server(), self.spec_pmd()),
    {
        match self.pmd {
            Some(c) => Some(if self.is_server {
                c.client_max_window_bits
            } else {
                c.server_max_window_bits
            }),
            None => None,
        }
    }

    /// whether the compressor is reset after each frame
    pub fn resets_compressor(&self) -> (r: bool)
        ensures
            r == resets_context(self.spec_is_server(), self.spec_pmd()),
    {
        match self.pmd {
            Some(c) => (self.is_server && c.server_no_context_takeover) || (!self.is_server
                && c.client_no_context_takeover),
            None => false,
        }
    }

    /// the size payloads are cut at before compression: `auto_fragment_size`
    /// when set, else the whole payload
    pub fn chunk_size(&self, len: usize) -> (r: usize)
        ensures
            r == (if self.spec_config().auto_fragment_size > 0 {
                self.spec_config().auto_fragment_size
            } else {
                len
            }),
    {
        if self.config.auto_fragment_size > 0 {
            self.config.auto_fragment_size
        } else {
            len
        }
    }

    /// the payload cut into the chunks that are compressed and sent one
    /// frame each: pieces of `auto_fragment_size` bytes when it is set (the
    /// last may be shorter), else the whole payload
    pub fn send_chunks<'b>(&self, payload: &'b [u8]) -> (r: Vec<&'b [u8]>)
        ensures
            r@.map_values(|c: &'b [u8]| c@) == chunks_of(
                payload@,
                if self.spec_config().auto_fragment_size > 0 {
                    self.spec_config().auto_fragment_size as int
                } else {
                    payload@.len() as int
                },
            ),
    {
        let len = payload.len();
        let size = self.chunk_size(len);
        let ghost sz = size as int;
        let mut out: Vec<&'b [u8]> = Vec::new();
        let mut pos: usize = 0;
        proof {
            assert(payload@.skip(0) =~= payload@);
            assert(out@.map_values(|c: &'b [u8]| c@) + chunks_of(payload@, sz) =~= chunks_of(payload@, sz));
        }
        while len - pos > size && size > 0
            invariant
                pos <= len == payload@.len(),
                sz == size as int,
                out@.map_values(|c: &'b [u8]| c@) + chunks_of(payload@.skip(pos as int), sz) == chunks_of(
                    payload@,
                    sz,
                ),
            decreases len - pos,
        {
            let ghost rest = payload@.skip(pos as int);
            let ghost o0 = out@.map_values(|c: &'b [u8]| c@);
            let chunk = sub_slice(payload, pos, pos + size);
            out.push(chunk);
            assert(out@.map_values(|c: &'b [u8]| c@) =~= o0.push(chunk@));
            assert(chunk@ =~= rest.take(sz));
            assert(rest.skip(sz) =~= payload@.skip(pos + size));
            assert(chunks_of(rest, sz) == seq![rest.take(sz)] + chunks_of(rest.skip(sz), sz));
            assert(o0.push(chunk@) + chunks_of(payload@.skip(pos + size), sz) =~= o0 + chunks_of(rest, sz));
            pos = pos + size;
        }
        let ghost o0 = out@.map_values(|c: &'b [u8]| c@);
        let last = sub_slice(payload, pos, len);
        out.push(last);
        proof {
            assert(last@ =~= payload@.skip(pos as int));
            assert(out@.map_values(|c: &'b [u8]| c@) =~= o0.push(last@));
            assert(chunks_of(payload@.skip(pos as int), sz) == seq![last@]);
            assert(o0.push(last@) =~= o0 + seq![last@]);
        }
        out
    }

    /// the frame for compressor output of chunk `idx` of `total`, with a
    /// fresh random key when frames are masked: the first frame carries the
    /// message opcode and rsv1, the others are continuation frames without
    /// rsv1, and the last carries fin
    pub fn compressed_frame(&self, idx: usize, total: usize, code: OpCode, output: &[u8]) -> (r: Vec<u8>)
        requires
            output@.len() >= 4,
            idx < total,
        ensures
            ({
                let fin = idx + 1 == total;
                let c = fragment_code(idx as int, code);
                let data = output@.take(output@.len() - 4);
                &&& self.spec_config().mask_send_frame ==> exists|k: [u8; 4]|
                    r@ == #[trigger] compressed_frame_bytes(fin, first_frame(idx as int), c, Some(k), data)
                &&& !self.spec_config().mask_send_frame ==> r@ == compressed_frame_bytes(fin, first_frame(idx as int), c, None, data)
            }),
    {
        let mask = if self.config.mask_send_frame {
            Some(random_key())
        } else {
            None
        };
        let c = if idx == 0 {
            code
        } else {
            OpCode::Continue
        };
        let r = compressed_frame_with(idx + 1 == total, idx == 0, c, mask, output);
        assert(r@ == compressed_frame_bytes(
            idx + 1 == total,
            first_frame(idx as int),
            c,
            mask,
            output@.take(output@.len() - 4),
        ));
        r
    }

    /// the frame for chunk `idx` of `total` sent without compression, with a
    /// fresh random key when frames are masked: the first frame carries the
    /// message opcode, the others are continuation frames, and the last
    /// carries fin
    pub fn plain_frame(&self, idx: usize, total: usize, code: OpCode, chunk: &[u8]) -> (r: Vec<u8>)
        requires
            idx < total,
        ensures
            ({
                let fin = idx + 1 == total;
                let c = fragment_code(idx as int, code);
                &&& self.spec_config().mask_send_frame ==> exists|k: [u8; 4]|
                    r@ == #[trigger] frame_bytes(fin, c, Some(k), chunk@)
                &&& !self.spec_config().mask_send_frame ==> r@ == frame_bytes(fin, c, None, chunk@)
            }),
    {
        let mask = if self.config.mask_send_frame {
            Some(random_key())
        } else {
            None
        };
        let c = if idx == 0 {
            code
        } else {
            OpCode::Continue
        };
        let mut out: Vec<u8> = Vec::new();
        push_frame(&mut out, idx + 1 == total, c, mask, chunk);
        assert(out@ =~= frame_bytes(idx + 1 == total, c, mask, chunk@));
        out
    }

    /// the frame layer below, to send frames as they are
    pub fn write_state_mut(&mut self) -> (r: &mut FrameWriteState)
        ensures
            *r == old(self).spec_write_state(),
            final(self).spec_write_state() == *final(r),
            final(self).spec_pmd() == old(self).spec_pmd(),
            final(self).spec_config() == old(self).spec_config(),
            final(self).spec_is_server() == old(self).spec_is_server(),
    {
        &mut self.write_state
    }
}

} // verus!

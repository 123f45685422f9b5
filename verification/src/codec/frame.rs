//! Reading and writing frames: the read buffer, header parsing, protocol
//! checks, fragment merging and frame encoding for sending.
use vstd::prelude::*;
use std::ops::Range;
use bytes::BytesMut;
use crate::buffer::{bytes_of, bm_extend};
use crate::codec::{apply_mask, masked};
use crate::errors::{ProtocolError, WsError};
use crate::frame::{
    OpCode, SimplifiedHeader, simplified_header_of, simplified_of, masking_key_of, h_wf, h_header_len,
    h_payload_len, h_len7, h_masked, h_mask_key, h_len_occupied, opt_key, be16, be64, get_bit,
    flag, frame_header, ctor_header, OwnedFrame, frame_wire_bytes,
    spec_header_len, lemma_frame_header_roundtrip, opcode_value, first_byte, frame_sep_of, h_opcode,
};

verus! {

/// `simdutf8::basic::from_utf8`: succeeds exactly on valid UTF-8.
#[verifier::external_body]
pub(crate) fn simd_utf8_ok(data: &[u8]) -> (r: bool)
    ensures
        r == vstd::utf8::valid_utf8(data@),
{
    simdutf8::basic::from_utf8(data).is_ok()
}

/// `String::from_utf8`: succeeds exactly on valid UTF-8.
#[verifier::external_body]
fn std_utf8_ok(data: &[u8]) -> (r: bool)
    ensures
        r == vstd::utf8::valid_utf8(data@),
{
    String::from_utf8(data.to_vec()).is_ok()
}

/// text frame utf-8 checking policy
#[derive(Debug, Clone, Copy, PartialEq, Eq, Structural)]
pub enum ValidateUtf8Policy {
    /// no not validate utf
    Off,
    /// fail if fragment frame payload is not valid utf8
    FastFail,
    /// check utf8 after merged
    On,
}

impl ValidateUtf8Policy {
    /// whether text payloads are checked at all
    pub fn should_check(&self) -> (r: bool)
        ensures
            r == (*self != ValidateUtf8Policy::Off),
    {
        !matches!(self, ValidateUtf8Policy::Off)
    }

    /// whether the first fragment of a text message is checked on its own
    pub fn is_fast_fail(&self) -> (r: bool)
        ensures
            r == (*self == ValidateUtf8Policy::FastFail),
    {
        matches!(self, ValidateUtf8Policy::FastFail)
    }
}

/// frame send/recv config
#[derive(Debug, Clone, Copy)]
pub struct FrameConfig {
    /// check rsv1 bits
    pub check_rsv: bool,
    /// auto mask send frame payload, for client, it must be true
    pub mask_send_frame: bool,
    /// allocate new buf for every frame
    pub renew_buf_on_write: bool,
    /// auto unmask a masked frame payload
    pub auto_unmask: bool,
    /// limit max payload size
    pub max_frame_payload_size: usize,
    /// auto split size, if set 0, do not split frame
    pub auto_fragment_size: usize,
    /// auto merge fragmented frames into one frame
    pub merge_frame: bool,
    /// utf8 check policy
    pub validate_utf8: ValidateUtf8Policy,
    /// resize size of read buf, default 4K
    pub resize_size: usize,
    /// if available len < resize, resize read buf, default 1K
    pub resize_thresh: usize,
}

/// the default frame config
pub open spec fn default_frame_config() -> FrameConfig {
    FrameConfig {
        check_rsv: true,
        mask_send_frame: true,
        renew_buf_on_write: false,
        auto_unmask: true,
        max_frame_payload_size: 0,
        auto_fragment_size: 0,
        merge_frame: true,
        validate_utf8: ValidateUtf8Policy::FastFail,
        resize_size: 4096,
        resize_thresh: 1024,
    }
}

impl Default for FrameConfig {
    fn default() -> (r: Self)
        ensures
            r == default_frame_config(),
    {
        Self {
            check_rsv: true,
            mask_send_frame: true,
            renew_buf_on_write: false,
            auto_unmask: true,
            max_frame_payload_size: 0,
            auto_fragment_size: 0,
            merge_frame: true,
            validate_utf8: ValidateUtf8Policy::FastFail,
            resize_size: 4096,
            resize_thresh: 1024,
        }
    }
}

/// the byte buffer after `FrameBuffer::prepare` made room for `size` bytes
/// after the unconsumed data: (bytes, consume index, produce index)
pub open spec fn prepared(buf: Seq<u8>, c: int, p: int, size: int) -> (Seq<u8>, int, int) {
    if buf.len() - p >= size {
        (buf, c, p)
    } else if (p - c) * 2 > buf.len() {
        (buf + Seq::new((p + size - buf.len()) as nat, |_i: int| 0u8), c, p)
    } else {
        let n = p - c;
        let b1 = if size + n > buf.len() {
            buf + Seq::new((size + n - buf.len()) as nat, |_i: int| 0u8)
        } else {
            buf
        };
        (buf.subrange(c, p) + b1.skip(n), 0, n)
    }
}

/// After `prepare`, the available bytes keep their place relative to the
/// indices, and the room lent out lies right after them.
proof fn lemma_prepared(b: Seq<u8>, c: int, p: int, size: int)
    requires
        0 <= c <= p <= b.len(),
        size >= 0,
    ensures
        ({
            let (mid, c2, p2) = prepared(b, c, p, size);
            &&& 0 <= c2 <= p2
            &&& p2 - c2 == p - c
            &&& p2 + size <= mid.len()
            &&& forall|rr: Seq<u8>| rr.len() == size ==> {
                let fb = #[trigger] (mid.take(p2) + rr + mid.skip(p2 + size));
                &&& fb.len() == mid.len()
                &&& fb.subrange(c2, p2) == b.subrange(c, p)
                &&& fb.subrange(p2, p2 + size) == rr
            }
        }),
{
    let (mid, c2, p2) = prepared(b, c, p, size);
    if b.len() - p < size {
        assert(mid.subrange(c2, p2) =~= b.subrange(c, p));
    }
    assert forall|rr: Seq<u8>| rr.len() == size implies {
        let fb = #[trigger] (mid.take(p2) + rr + mid.skip(p2 + size));
        &&& fb.len() == mid.len()
        &&& fb.subrange(c2, p2) == b.subrange(c, p)
        &&& fb.subrange(p2, p2 + size) == rr
    } by {
        let fb = mid.take(p2) + rr + mid.skip(p2 + size);
        assert(fb.subrange(c2, p2) =~= mid.subrange(c2, p2));
        assert(fb.subrange(p2, p2 + size) =~= rr);
    }
}

/// read buffer: bytes before `consume_idx` are consumed, bytes between the
/// two indices are available, the rest is room for reading
struct FrameBuffer {
    buf: Vec<u8>,
    produce_idx: usize,
    consume_idx: usize,
}

impl FrameBuffer {
    spec fn wf(self) -> bool {
        self.consume_idx <= self.produce_idx <= self.buf@.len()
    }

    spec fn ava(self) -> Seq<u8> {
        self.buf@.subrange(self.consume_idx as int, self.produce_idx as int)
    }

    fn new() -> (r: Self)
        ensures
            r.wf(),
            r.ava() == Seq::<u8>::empty(),
            r.buf@.len() == 4096,
            r.consume_idx == 0,
            r.produce_idx == 0,
    {
        Self { buf: vec![0; 4096], produce_idx: 0, consume_idx: 0 }
    }

    /// make room for `payload_size` bytes after the available data and
    /// return that room
    fn prepare(&mut self, payload_size: usize) -> (r: &mut [u8])
        requires
            old(self).wf(),
            payload_size + old(self).produce_idx <= usize::MAX,
        ensures
            ({
                let (mid, c2, p2) = prepared(
                    old(self).buf@,
                    old(self).consume_idx as int,
                    old(self).produce_idx as int,
                    payload_size as int,
                );
                &&& final(self).consume_idx == c2
                &&& final(self).produce_idx == p2
                &&& p2 + payload_size <= mid.len()
                &&& r@ == mid.subrange(p2, p2 + payload_size)
                &&& final(self).buf@ == mid.take(p2) + final(r)@ + mid.skip(p2 + payload_size)
            }),
    {
        let remain = self.buf.len() - self.produce_idx;
        if remain < payload_size && (self.produce_idx - self.consume_idx) > self.buf.len() / 2 {
            let ghost b0 = self.buf@;
            self.buf.resize(self.produce_idx + payload_size, 0);
            assert(self.buf@ =~= b0 + Seq::new((self.produce_idx + payload_size - b0.len()) as nat, |_i: int| 0u8));
        } else if remain < payload_size {
            let n = self.produce_idx - self.consume_idx;
            let mut not_consumed_data: Vec<u8> = Vec::new();
            let mut i = self.consume_idx;
            while i < self.produce_idx
                invariant
                    self.consume_idx <= i <= self.produce_idx <= self.buf@.len(),
                    not_consumed_data@ == self.buf@.subrange(self.consume_idx as int, i as int),
                decreases self.produce_idx - i,
            {
                not_consumed_data.push(self.buf[i]);
                i += 1;
            }
            let ghost b0 = self.buf@;
            if payload_size + n > self.buf.len() {
                self.buf.resize(payload_size + n, 0);
            }
            let ghost b1 = self.buf@;
            assert(b1 =~= (if payload_size + n > b0.len() {
                b0 + Seq::new((payload_size + n - b0.len()) as nat, |_i: int| 0u8)
            } else {
                b0
            }));
            let mut j: usize = 0;
            while j < n
                invariant
                    j <= n,
                    n == not_consumed_data@.len(),
                    n <= b1.len(),
                    self.buf@.len() == b1.len(),
                    self.buf@ == not_consumed_data@.take(j as int) + b1.skip(j as int),
                decreases n - j,
            {
                self.buf.set(j, not_consumed_data[j]);
                j += 1;
                assert(self.buf@ =~= not_consumed_data@.take(j as int) + b1.skip(j as int));
            }
            assert(not_consumed_data@.take(n as int) =~= not_consumed_data@);
            self.consume_idx = 0;
            self.produce_idx = n;
        }
        let p = self.produce_idx;
        let ghost mid = self.buf@;
        let s = self.buf.as_mut_slice();
        let (_head, tail) = s.split_at_mut(p);
        let (region, _rest) = tail.split_at_mut(payload_size);
        assert(region@ =~= mid.subrange(p as int, p + payload_size));
        region
    }

    fn ava_data(&self) -> (r: &[u8])
        requires
            self.wf(),
        ensures
            r@ == self.ava(),
    {
        let s = self.buf.as_slice();
        let (head, _) = s.split_at(self.produce_idx);
        let (_, ava) = head.split_at(self.consume_idx);
        assert(ava@ =~= self.ava());
        ava
    }

    fn produce(&mut self, num: usize)
        requires
            old(self).wf(),
            old(self).produce_idx + num <= old(self).buf@.len(),
        ensures
            final(self).wf(),
            final(self).buf@ == old(self).buf@,
            final(self).consume_idx == old(self).consume_idx,
            final(self).produce_idx == old(self).produce_idx + num,
    {
        let _n = self.buf.len();
        self.produce_idx += num;
    }

    fn consume(&mut self, num: usize)
        requires
            old(self).wf(),
            old(self).consume_idx + num <= old(self).produce_idx,
        ensures
            final(self).wf(),
            final(self).buf@ == old(self).buf@,
            final(self).consume_idx == old(self).consume_idx + num,
            final(self).produce_idx == old(self).produce_idx,
    {
        self.consume_idx += num;
    }
}

/// a protocol violation, with the close code to send to the peer
pub open spec fn protocol_err(close_code: u16, error: ProtocolError) -> WsError {
    WsError::ProtocolError { close_code, error }
}

/// the status codes a close frame may carry (RFC 6455, 7.4)
pub open spec fn close_code_valid(code: u16) -> bool {
    !(code < 1000 || (1004 <= code && code <= 1006) || (1015 <= code && code <= 2999) || code >= 5000)
}

/// (bytes of the length fields, payload length) that the header at the
/// start of `a` announces, or the error for a header that is cut short
pub open spec fn spec_parse_payload_len(a: Seq<u8>) -> Result<(int, int), WsError> {
    let l7 = h_len7(a);
    if l7 <= 125 {
        Ok((1, l7 as int))
    } else if l7 == 126 {
        if a.len() < 4 {
            Err(protocol_err(1008, ProtocolError::InsufficientLen(a.len() as usize)))
        } else {
            Ok((3, be16(a[2], a[3]) as int))
        }
    } else {
        if a.len() < 10 {
            Err(protocol_err(1008, ProtocolError::InsufficientLen(a.len() as usize)))
        } else {
            Ok((9, (be64(a, 2) as usize) as int))
        }
    }
}

/// (header length, payload length, frame length) of the frame at the start of
/// `a`, or the error `FrameReadState::parse_frame_header` reports
pub open spec fn spec_parse_header(config: FrameConfig, a: Seq<u8>) -> Result<(int, int, int), WsError> {
    let lb = a[0] >> 4u8;
    if config.check_rsv && !(lb == 8 || lb == 0) {
        Err(protocol_err(1008, ProtocolError::InvalidLeadingBits(lb)))
    } else {
        match spec_parse_payload_len(a) {
            Err(e) => Err(e),
            Ok((occ, pl)) => {
                if config.max_frame_payload_size > 0 && pl > config.max_frame_payload_size {
                    Err(protocol_err(1008, ProtocolError::PayloadTooLarge(config.max_frame_payload_size)))
                } else {
                    let hl = 1 + occ + if h_masked(a) {
                        4int
                    } else {
                        0int
                    };
                    Ok((hl, pl, hl + pl))
                }
            },
        }
    }
}

/// (result, fragmented flag after) of `FrameReadState::check_frame`
pub open spec fn spec_check_frame(
    fragmented: bool,
    config: FrameConfig,
    h: SimplifiedHeader,
    payload: Seq<u8>,
) -> (Result<(), WsError>, bool) {
    match h.code {
        OpCode::Continue => {
            if !fragmented {
                (Err(protocol_err(1002, ProtocolError::MissInitialFragmentedFrame)), fragmented)
            } else {
                (Ok(()), if h.fin { false } else { fragmented })
            }
        },
        OpCode::Binary => {
            if fragmented {
                (Err(protocol_err(1002, ProtocolError::NotContinueFrameAfterFragmented)), fragmented)
            } else {
                (Ok(()), !h.fin)
            }
        },
        OpCode::Text => {
            if fragmented {
                (Err(protocol_err(1002, ProtocolError::NotContinueFrameAfterFragmented)), fragmented)
            } else if !h.fin {
                if config.validate_utf8 == ValidateUtf8Policy::FastFail && !vstd::utf8::valid_utf8(payload) {
                    (Err(protocol_err(1007, ProtocolError::InvalidUtf8)), true)
                } else {
                    (Ok(()), true)
                }
            } else {
                if config.validate_utf8 != ValidateUtf8Policy::Off && !vstd::utf8::valid_utf8(payload) {
                    (Err(protocol_err(1007, ProtocolError::InvalidUtf8)), fragmented)
                } else {
                    (Ok(()), fragmented)
                }
            }
        },
        OpCode::Close | OpCode::Ping | OpCode::Pong => {
            (spec_check_control(h, payload), fragmented)
        },
        _ => (Err(WsError::UnsupportedFrame(h.code)), fragmented),
    }
}

/// the checks on a control frame: not fragmented, at most 125 bytes, and for
/// a close frame no single byte, a valid status code and a UTF-8 reason
pub open spec fn spec_check_control(h: SimplifiedHeader, payload: Seq<u8>) -> Result<(), WsError> {
    if !h.fin {
        Err(protocol_err(1002, ProtocolError::FragmentedControlFrame))
    } else if payload.len() > 125 {
        Err(protocol_err(1002, ProtocolError::ControlFrameTooBig(payload.len() as usize)))
    } else if h.code == OpCode::Close && payload.len() == 1 {
        Err(protocol_err(1002, ProtocolError::InvalidCloseFramePayload))
    } else if h.code == OpCode::Close && payload.len() >= 2 && !close_code_valid(be16(payload[0], payload[1]) as u16) {
        Err(protocol_err(1002, ProtocolError::InvalidCloseCode(be16(payload[0], payload[1]) as u16)))
    } else if h.code == OpCode::Close && payload.len() >= 2 && !vstd::utf8::valid_utf8(payload.skip(2)) {
        Err(protocol_err(1007, ProtocolError::InvalidUtf8))
    } else {
        Ok(())
    }
}

/// what `FrameReadState::merge_frame` returns: `Some(true)` for a completed
/// fragmented message, `Some(false)` for a frame complete on its own, `None`
/// while fragments are still coming
pub open spec fn spec_merge_result(h: SimplifiedHeader) -> Option<bool> {
    match h.code {
        OpCode::Continue => if h.fin { Some(true) } else { None },
        OpCode::Text | OpCode::Binary => if !h.fin { None } else { Some(false) },
        _ => Some(false),
    }
}

/// fragment data after `FrameReadState::merge_frame`
pub open spec fn spec_merge_data(data: Seq<u8>, h: SimplifiedHeader, payload: Seq<u8>) -> Seq<u8> {
    match h.code {
        OpCode::Continue => data + payload,
        OpCode::Text | OpCode::Binary => if !h.fin { payload } else { data },
        _ => data,
    }
}

/// websocket reading state: read buffer, fragmentation state and the data
/// of a fragmented message merged so far
pub struct FrameReadState {
    fragmented: bool,
    config: FrameConfig,
    fragmented_data: Vec<u8>,
    fragmented_type: OpCode,
    buf: FrameBuffer,
}

impl FrameReadState {
    /// the buffer indices are in order
    pub closed spec fn wf(self) -> bool {
        self.buf.wf()
    }

    /// whether a fragmented message is in progress
    pub closed spec fn spec_fragmented(self) -> bool {
        self.fragmented
    }

    /// the config
    pub closed spec fn spec_config(self) -> FrameConfig {
        self.config
    }

    /// the data of the fragmented message so far
    pub closed spec fn spec_fragmented_data(self) -> Seq<u8> {
        self.fragmented_data@
    }

    /// the opcode of the fragmented message
    pub closed spec fn spec_fragmented_type(self) -> OpCode {
        self.fragmented_type
    }

    /// the read buffer
    pub closed spec fn spec_buf(self) -> Seq<u8> {
        self.buf.buf@
    }

    /// index of the first unconsumed byte
    pub closed spec fn spec_consume_idx(self) -> usize {
        self.buf.consume_idx
    }

    /// the bytes read and not yet consumed
    pub closed spec fn spec_available(self) -> Seq<u8> {
        self.buf.ava()
    }

    /// The available bytes are the part of the buffer that starts at the
    /// consume index, and they fit in the buffer.
    pub proof fn lemma_available_in_buf(self)
        requires
            self.wf(),
        ensures
            self.spec_consume_idx() + self.spec_available().len() <= self.spec_buf().len(),
            self.spec_available() == self.spec_buf().subrange(
                self.spec_consume_idx() as int,
                self.spec_consume_idx() + self.spec_available().len(),
            ),
    {
    }

    /// construct with config
    pub fn with_config(config: FrameConfig) -> (r: Self)
        ensures
            r.wf(),
            r.spec_config() == config,
            !r.spec_fragmented(),
            r.spec_fragmented_data() == Seq::<u8>::empty(),
            r.spec_fragmented_type() == OpCode::Text,
            r.spec_available() == Seq::<u8>::empty(),
            r.spec_consume_idx() == 0,
            r.spec_buf().len() == 4096,
    {
        Self {
            fragmented: false,
            config,
            fragmented_data: Vec::new(),
            fragmented_type: OpCode::Text,
            buf: FrameBuffer::new(),
        }
    }

    /// check if data in buffer is enough to parse frame header
    pub fn is_header_ok(&self) -> (r: bool)
        requires
            self.wf(),
        ensures
            r == h_wf(self.spec_available()),
    {
        let ava_data = self.buf.ava_data();
        if ava_data.len() < 2 {
            false
        } else {
            let b1 = ava_data[1];
            let len = b1 & 0b01111111u8;
            let mask = get_bit(ava_data, 1, 0);
            proof {
                assert(0x80u8 >> 0u8 == 0x80u8) by (bit_vector);
                assert(len <= 127) by (bit_vector) requires len == b1 & 0b01111111u8;
            }
            let mut min_len: usize = if len <= 125 {
                2
            } else if len == 126 {
                4
            } else {
                10
            };
            if mask {
                min_len += 4;
            }
            ava_data.len() >= min_len
        }
    }

    /// return current frame header bits of buffer
    pub fn get_leading_bits(&self) -> (r: u8)
        requires
            self.wf(),
            self.spec_available().len() >= 1,
        ensures
            r == self.spec_available()[0] >> 4u8,
    {
        self.buf.ava_data()[0] >> 4u8
    }

    /// try to parse frame header in buffer, return (header_len, payload_len, header_len + payload_len)
    pub fn parse_frame_header(&mut self) -> (r: Result<(usize, usize, usize), WsError>)
        requires
            old(self).wf(),
            old(self).spec_available().len() >= 2,
            spec_parse_header(old(self).spec_config(), old(self).spec_available()) matches Ok((hl, pl, t))
                ==> t <= usize::MAX,
        ensures
            *final(self) == *old(self),
            match r {
                Ok((hl, pl, t)) => spec_parse_header(old(self).spec_config(), old(self).spec_available())
                    == Ok::<(int, int, int), WsError>((hl as int, pl as int, t as int)),
                Err(e) => spec_parse_header(old(self).spec_config(), old(self).spec_available())
                    == Err::<(int, int, int), WsError>(e),
            },
    {
        let leading_bits = self.get_leading_bits();
        if self.config.check_rsv && !(leading_bits == 0b00001000u8 || leading_bits == 0b00000000u8) {
            return Err(WsError::ProtocolError {
                close_code: 1008,
                error: ProtocolError::InvalidLeadingBits(leading_bits),
            });
        }
        let ava_data = self.buf.ava_data();
        let (len_occ_bytes, payload_len) = match parse_payload_len(ava_data) {
            Ok(v) => v,
            Err(e) => {
                return Err(WsError::ProtocolError { close_code: 1008, error: e });
            },
        };
        let max_payload_size = self.config.max_frame_payload_size;
        if max_payload_size > 0 && payload_len > max_payload_size {
            return Err(WsError::ProtocolError {
                close_code: 1008,
                error: ProtocolError::PayloadTooLarge(max_payload_size),
            });
        }
        let mask = get_bit(ava_data, 1, 0);
        proof {
            assert(0x80u8 >> 0u8 == 0x80u8) by (bit_vector);
        }
        let header_len = 1 + len_occ_bytes + if mask {
            4
        } else {
            0
        };
        Ok((header_len, payload_len, header_len + payload_len))
    }
}

/// (bytes of the length fields, payload length) of the header at the start of `source`
fn parse_payload_len(source: &[u8]) -> (r: Result<(usize, usize), ProtocolError>)
    requires
        source@.len() >= 2,
    ensures
        match r {
            Ok((occ, pl)) => spec_parse_payload_len(source@) == Ok::<(int, int), WsError>((occ as int, pl as int)),
            Err(e) => spec_parse_payload_len(source@) == Err::<(int, int), WsError>(protocol_err(1008, e)),
        },
{
    let b1 = source[1];
    let l7 = b1 & 127u8;
    assert(l7 <= 127) by (bit_vector) requires l7 == b1 & 127u8;
    if l7 <= 125 {
        Ok((1, l7 as usize))
    } else if l7 == 126 {
        if source.len() < 4 {
            return Err(ProtocolError::InsufficientLen(source.len()));
        }
        let v: u16 = ((source[2] as u16) << 8u16) | (source[3] as u16);
        Ok((1 + 2, v as usize))
    } else {
        if source.len() < 10 {
            return Err(ProtocolError::InsufficientLen(source.len()));
        }
        let v: u64 = ((source[2] as u64) << 56u64) | ((source[3] as u64) << 48u64) | ((source[4] as u64) << 40u64)
            | ((source[5] as u64) << 32u64) | ((source[6] as u64) << 24u64) | ((source[7] as u64) << 16u64) | ((
        source[8] as u64) << 8u64) | (source[9] as u64);
        Ok((1 + 8, v as usize))
    }
}

/// `v` with the bytes in `[start, start + len)` masked with `key`
pub open spec fn mask_region(v: Seq<u8>, start: int, len: int, key: [u8; 4]) -> Seq<u8> {
    v.take(start) + masked(v.subrange(start, start + len), key) + v.skip(start + len)
}

pub(crate) fn mask_range(v: &mut Vec<u8>, start: usize, len: usize, key: [u8; 4])
    requires
        start + len <= old(v)@.len(),
    ensures
        final(v)@ == mask_region(old(v)@, start as int, len as int, key),
{
    let ghost v0 = v@;
    let s = v.as_mut_slice();
    let (_head, tail) = s.split_at_mut(start);
    let (region, _rest) = tail.split_at_mut(len);
    apply_mask(region, key);
    assert(v@ =~= mask_region(v0, start as int, len as int, key));
}

/// the bytes of `s` in `[start, end)`
pub(crate) fn sub_slice(s: &[u8], start: usize, end: usize) -> (r: &[u8])
    requires
        start <= end <= s@.len(),
    ensures
        r@ == s@.subrange(start as int, end as int),
{
    let (head, _) = s.split_at(end);
    let (_, mid) = head.split_at(start);
    assert(mid@ =~= s@.subrange(start as int, end as int));
    mid
}

/// a message handed out by `FrameReadState::accept_frame`: the header of the
/// frame that completed it and its payload
pub type ReceivedMessage = (SimplifiedHeader, Vec<u8>);

impl FrameReadState {
    /// whether `prepare_read` can make room for `size` bytes: the end of
    /// the room must be addressable
    pub fn can_prepare(&self, size: usize) -> (r: bool)
        requires
            self.wf(),
        ensures
            r == (size + self.spec_consume_idx() + self.spec_available().len() <= usize::MAX),
    {
        size <= usize::MAX - self.buf.produce_idx
    }

    /// make room for `size` bytes after the available data and lend it for
    /// reading into; `produce` then marks how many bytes were read
    pub fn prepare_read(&mut self, size: usize) -> (r: &mut [u8])
        requires
            old(self).wf(),
            size + old(self).spec_consume_idx() + old(self).spec_available().len() <= usize::MAX,
        ensures
            r@.len() == size,
            final(self).wf(),
            ({
                let c = old(self).spec_consume_idx() as int;
                let (mid, c2, p2) = prepared(
                    old(self).spec_buf(),
                    c,
                    c + old(self).spec_available().len(),
                    size as int,
                );
                &&& final(self).spec_consume_idx() == c2
                &&& p2 + size <= mid.len()
                &&& r@ == mid.subrange(p2, p2 + size)
                &&& final(self).spec_buf() == mid.take(p2) + final(r)@ + mid.skip(p2 + size)
            }),
            final(r)@.len() == size ==> {
                let c2 = final(self).spec_consume_idx() as int;
                let p2 = c2 + final(self).spec_available().len();
                &&& final(self).spec_available() == old(self).spec_available()
                &&& p2 + size <= final(self).spec_buf().len()
                &&& final(self).spec_buf().subrange(p2, p2 + size) == final(r)@
            },
            final(self).spec_config() == old(self).spec_config(),
            final(self).spec_fragmented() == old(self).spec_fragmented(),
            final(self).spec_fragmented_data() == old(self).spec_fragmented_data(),
            final(self).spec_fragmented_type() == old(self).spec_fragmented_type(),
    {
        proof {
            lemma_prepared(self.buf.buf@, self.buf.consume_idx as int, self.buf.produce_idx as int, size as int);
        }
        self.buf.prepare(size)
    }

    /// mark `num` bytes of the prepared room as read
    pub fn produce(&mut self, num: usize)
        requires
            old(self).wf(),
            old(self).spec_consume_idx() + old(self).spec_available().len() + num <= old(self).spec_buf().len(),
        ensures
            final(self).wf(),
            final(self).spec_available() == old(self).spec_buf().subrange(
                old(self).spec_consume_idx() as int,
                old(self).spec_consume_idx() + old(self).spec_available().len() + num,
            ),
            final(self).spec_available() == old(self).spec_available() + old(self).spec_buf().subrange(
                old(self).spec_consume_idx() + old(self).spec_available().len(),
                old(self).spec_consume_idx() + old(self).spec_available().len() + num,
            ),
            final(self).spec_buf() == old(self).spec_buf(),
            final(self).spec_consume_idx() == old(self).spec_consume_idx(),
            final(self).spec_config() == old(self).spec_config(),
            final(self).spec_fragmented() == old(self).spec_fragmented(),
            final(self).spec_fragmented_data() == old(self).spec_fragmented_data(),
            final(self).spec_fragmented_type() == old(self).spec_fragmented_type(),
    {
        self.buf.produce(num);
    }

    /// number of bytes read and not yet consumed
    pub fn available_len(&self) -> (r: usize)
        requires
            self.wf(),
        ensures
            r == self.spec_available().len(),
    {
        self.buf.produce_idx - self.buf.consume_idx
    }

    /// take the frame at the start of the available data out of the buffer:
    /// unmask its payload in place if configured, and return its header
    /// fields and the range of its payload in the buffer
    pub fn consume_frame(&mut self, header_len: usize, payload_len: usize, total_len: usize) -> (r: (
        SimplifiedHeader,
        Range<usize>,
    ))
        requires
            old(self).wf(),
            h_wf(old(self).spec_available()),
            header_len == h_header_len(old(self).spec_available()),
            total_len == header_len + payload_len,
            total_len <= old(self).spec_available().len(),
        ensures
            final(self).wf(),
            ({
                let a = old(self).spec_available();
                let c = old(self).spec_consume_idx() as int;
                let start = c + header_len;
                &&& r.0 == simplified_of(a)
                &&& r.1.start == start
                &&& r.1.end == start + payload_len
                &&& final(self).spec_buf() == match h_mask_key(a) {
                    Some(k) if old(self).spec_config().auto_unmask => mask_region(
                        old(self).spec_buf(), start, payload_len as int, [k[0], k[1], k[2], k[3]]),
                    _ => old(self).spec_buf(),
                }
                &&& final(self).spec_consume_idx() == c + total_len
                &&& final(self).spec_available() == final(self).spec_buf().subrange(
                    c + total_len, c + a.len())
            }),
            final(self).spec_config() == old(self).spec_config(),
            final(self).spec_fragmented() == old(self).spec_fragmented(),
            final(self).spec_fragmented_data() == old(self).spec_fragmented_data(),
            final(self).spec_fragmented_type() == old(self).spec_fragmented_type(),
    {
        let ghost a = self.buf.ava();
        let ava_data = self.buf.ava_data();
        let header = simplified_header_of(ava_data);
        let key = if self.config.auto_unmask {
            masking_key_of(ava_data)
        } else {
            None
        };
        let s_idx = self.buf.consume_idx + header_len;
        let e_idx = s_idx + payload_len;
        if let Some(mask) = key {
            proof {
                assert(mask@ =~= seq![mask[0], mask[1], mask[2], mask[3]]);
                assert([mask[0], mask[1], mask[2], mask[3]] =~= mask);
            }
            mask_range(&mut self.buf.buf, s_idx, payload_len, mask);
        }
        self.buf.consume(total_len);
        (header, Range { start: s_idx, end: e_idx })
    }

    /// protocol checks on a frame just consumed: fragmentation order, control
    /// frame limits, close codes and, by policy, UTF-8 of text
    pub fn check_frame(&mut self, header: SimplifiedHeader, range: Range<usize>) -> (r: Result<(), WsError>)
        requires
            range.start <= range.end <= old(self).spec_buf().len(),
        ensures
            ({
                let (res, frag) = spec_check_frame(
                    old(self).spec_fragmented(),
                    old(self).spec_config(),
                    header,
                    old(self).spec_buf().subrange(range.start as int, range.end as int),
                );
                &&& r == res
                &&& final(self).spec_fragmented() == frag
            }),
            final(self).wf() == old(self).wf(),
            final(self).spec_buf() == old(self).spec_buf(),
            final(self).spec_consume_idx() == old(self).spec_consume_idx(),
            final(self).spec_available() == old(self).spec_available(),
            final(self).spec_config() == old(self).spec_config(),
            final(self).spec_fragmented_data() == old(self).spec_fragmented_data(),
            final(self).spec_fragmented_type() == old(self).spec_fragmented_type(),
    {
        match header.code {
            OpCode::Continue => {
                if !self.fragmented {
                    return Err(WsError::ProtocolError {
                        close_code: 1002,
                        error: ProtocolError::MissInitialFragmentedFrame,
                    });
                }
                if header.fin {
                    self.fragmented = false;
                }
                Ok(())
            },
            OpCode::Binary => {
                if self.fragmented {
                    return Err(WsError::ProtocolError {
                        close_code: 1002,
                        error: ProtocolError::NotContinueFrameAfterFragmented,
                    });
                }
                self.fragmented = !header.fin;
                Ok(())
            },
            OpCode::Text => {
                if self.fragmented {
                    return Err(WsError::ProtocolError {
                        close_code: 1002,
                        error: ProtocolError::NotContinueFrameAfterFragmented,
                    });
                }
                let payload = sub_slice(self.buf.buf.as_slice(), range.start, range.end);
                if !header.fin {
                    self.fragmented = true;
                    if self.config.validate_utf8.is_fast_fail() && !simd_utf8_ok(payload) {
                        return Err(WsError::ProtocolError {
                            close_code: 1007,
                            error: ProtocolError::InvalidUtf8,
                        });
                    }
                    Ok(())
                } else {
                    if self.config.validate_utf8.should_check() && !simd_utf8_ok(payload) {
                        return Err(WsError::ProtocolError {
                            close_code: 1007,
                            error: ProtocolError::InvalidUtf8,
                        });
                    }
                    Ok(())
                }
            },
            OpCode::Close | OpCode::Ping | OpCode::Pong => {
                if !header.fin {
                    return Err(WsError::ProtocolError {
                        close_code: 1002,
                        error: ProtocolError::FragmentedControlFrame,
                    });
                }
                let payload = sub_slice(self.buf.buf.as_slice(), range.start, range.end);
                let payload_len = payload.len();
                if payload.len() > 125 {
                    let error = ProtocolError::ControlFrameTooBig(payload_len);
                    return Err(WsError::ProtocolError { close_code: 1002, error });
                }
                if header.code == OpCode::Close {
                    if payload_len == 1 {
                        let error = ProtocolError::InvalidCloseFramePayload;
                        return Err(WsError::ProtocolError { close_code: 1002, error });
                    }
                    if payload_len >= 2 {
                        let code: u16 = ((payload[0] as u16) << 8u16) | (payload[1] as u16);
                        if code < 1000 || (1004 <= code && code <= 1006) || (1015 <= code && code
                            <= 2999) || code >= 5000 {
                            let error = ProtocolError::InvalidCloseCode(code);
                            return Err(WsError::ProtocolError { close_code: 1002, error });
                        }
                        let (_, reason) = payload.split_at(2);
                        if !std_utf8_ok(reason) {
                            let error = ProtocolError::InvalidUtf8;
                            return Err(WsError::ProtocolError { close_code: 1007, error });
                        }
                    }
                }
                Ok(())
            },
            _ => Err(WsError::UnsupportedFrame(header.code)),
        }
    }

    /// merge a checked frame into the fragmented message; returns
    /// `Some(true)` when it completes a fragmented message, `Some(false)` for
    /// a frame complete on its own, `None` while fragments are still coming
    pub fn merge_frame(&mut self, header: SimplifiedHeader, range: Range<usize>) -> (r: Result<Option<bool>, WsError>)
        requires
            range.start <= range.end <= old(self).spec_buf().len(),
            header.code != OpCode::ReservedControl,
            header.code != OpCode::ReservedNonControl,
        ensures
            r == Ok::<Option<bool>, WsError>(spec_merge_result(header)),
            final(self).spec_fragmented_data() == spec_merge_data(
                old(self).spec_fragmented_data(),
                header,
                old(self).spec_buf().subrange(range.start as int, range.end as int),
            ),
            final(self).spec_fragmented() == (match header.code {
                OpCode::Continue => if header.fin { false } else { old(self).spec_fragmented() },
                OpCode::Text | OpCode::Binary => if !header.fin { true } else { old(self).spec_fragmented() },
                _ => old(self).spec_fragmented(),
            }),
            final(self).spec_fragmented_type() == (match header.code {
                OpCode::Text | OpCode::Binary => if !header.fin { header.code } else { old(self).spec_fragmented_type() },
                _ => old(self).spec_fragmented_type(),
            }),
            final(self).wf() == old(self).wf(),
            final(self).spec_buf() == old(self).spec_buf(),
            final(self).spec_consume_idx() == old(self).spec_consume_idx(),
            final(self).spec_available() == old(self).spec_available(),
            final(self).spec_config() == old(self).spec_config(),
    {
        match header.code {
            OpCode::Continue => {
                let payload = sub_slice(self.buf.buf.as_slice(), range.start, range.end);
                self.fragmented_data.extend_from_slice(payload);
                if header.fin {
                    self.fragmented = false;
                    Ok(Some(true))
                } else {
                    Ok(None)
                }
            },
            OpCode::Text | OpCode::Binary => {
                if !header.fin {
                    self.fragmented = true;
                    self.fragmented_type = header.code;
                    self.fragmented_data.clear();
                    let payload = sub_slice(self.buf.buf.as_slice(), range.start, range.end);
                    self.fragmented_data.extend_from_slice(payload);
                    Ok(None)
                } else {
                    Ok(Some(false))
                }
            },
            _ => Ok(Some(false)),
        }
    }
}

/// the payload of the frame at the start of `a` whose header takes `hl`
/// bytes, unmasked when it is masked and `auto_unmask` is set
pub open spec fn frame_payload(config: FrameConfig, a: Seq<u8>, hl: int, pl: int) -> Seq<u8> {
    let p = a.subrange(hl, hl + pl);
    match h_mask_key(a) {
        Some(k) => if config.auto_unmask {
            masked(p, [k[0], k[1], k[2], k[3]])
        } else {
            p
        },
        None => p,
    }
}

/// the message handed out for a frame that passed the checks, with the
/// fragment data and type after merging; `None` while fragments are coming
pub open spec fn spec_message(
    merge: bool,
    h: SimplifiedHeader,
    payload: Seq<u8>,
    data: Seq<u8>,
    ftype: OpCode,
) -> Option<(SimplifiedHeader, Seq<u8>)> {
    if !merge {
        Some((h, payload))
    } else {
        match spec_merge_result(h) {
            Some(true) => Some((SimplifiedHeader { code: ftype, ..h }, data)),
            Some(false) => Some((h, payload)),
            None => None,
        }
    }
}

/// what the reader hands out for a checked frame: the message of
/// `spec_message`, unless it completes a fragmented text message whose merged
/// data is not UTF-8 while the policy checks text, which is an error; `None`
/// while fragments are still coming
pub open spec fn spec_step_result(
    config: FrameConfig,
    h: SimplifiedHeader,
    payload: Seq<u8>,
    data: Seq<u8>,
    ftype: OpCode,
) -> Result<Option<(SimplifiedHeader, Seq<u8>)>, WsError> {
    match spec_message(config.merge_frame, h, payload, data, ftype) {
        Some((h2, p2)) => if config.merge_frame && spec_merge_result(h) == Some(true) && config.validate_utf8
            != ValidateUtf8Policy::Off && h2.code == OpCode::Text && !vstd::utf8::valid_utf8(p2) {
            Err(protocol_err(1007, ProtocolError::InvalidUtf8))
        } else {
            Ok(Some((h2, p2)))
        },
        None => Ok(None),
    }
}

/// A control frame (ping, pong or close) that passed the checks is handed
/// out at once as a message of its own, header and payload as they came,
/// whether or not fragments are being merged: merging neither swallows it
/// nor touches the fragment data or type around it.
pub proof fn lemma_control_frame_handed_out(
    config: FrameConfig,
    h: SimplifiedHeader,
    payload: Seq<u8>,
    data: Seq<u8>,
    ftype: OpCode,
)
    requires
        h.code == OpCode::Ping || h.code == OpCode::Pong || h.code == OpCode::Close,
    ensures
        spec_merge_data(data, h, payload) == data,
        spec_step_result(config, h, payload, data, ftype) == Ok::<Option<(SimplifiedHeader, Seq<u8>)>, WsError>(
            Some((h, payload)),
        ),
{
}

/// Reading a ping or pong frame, alone or between the fragments of a
/// message, hands it out as a message with its header and payload.
pub proof fn lemma_ping_read(
    read: FrameConfig,
    fragmented: bool,
    data: Seq<u8>,
    ftype: OpCode,
    code: OpCode,
    payload: Seq<u8>,
)
    requires
        code == OpCode::Ping || code == OpCode::Pong,
        payload.len() <= 125,
        read.auto_unmask,
        read.merge_frame,
        read.max_frame_payload_size == 0 || payload.len() <= read.max_frame_payload_size,
    ensures
        read_frames(read, fragmented, data, ftype, frame_bytes(true, code, None, payload)) == Ok::<
            Seq<(SimplifiedHeader, Seq<u8>)>,
            WsError,
        >(seq![(SimplifiedHeader { fin: true, rsv1: false, rsv2: false, rsv3: false, code }, payload)]),
{
    let h = SimplifiedHeader { fin: true, rsv1: false, rsv2: false, rsv3: false, code };
    assert(frame_bytes(true, code, None, payload) =~= frame_bytes(true, code, None, payload) + Seq::<u8>::empty());
    lemma_read_step(read, fragmented, data, ftype, true, code, None, payload, Seq::empty());
    lemma_read_nothing(read, fragmented, data, ftype);
    assert(seq![(h, payload)] + Seq::<(SimplifiedHeader, Seq<u8>)>::empty() =~= seq![(h, payload)]);
}

/// the announced frame length (header and payload) fits in a `usize`
pub open spec fn frame_len_fits(config: FrameConfig, a: Seq<u8>) -> bool {
    a.len() >= 2 ==> (spec_parse_header(config, a) matches Ok((hl, pl, t)) ==> t <= usize::MAX)
}

/// what `FrameReadState::receive_step` asks of the caller or hands out
#[derive(Debug)]
pub enum ReadStep {
    /// no complete header yet: read once, into room of this many bytes
    Poll(usize),
    /// the header is complete: read exactly this many more bytes
    Fill(usize),
    /// a fragment was taken in; more are to come
    Fragment,
    /// a message: the header of its last frame, carrying the message's
    /// opcode, and the payload (unmasked, merged)
    Message(SimplifiedHeader, Vec<u8>),
}

impl Default for FrameReadState {
    fn default() -> (r: Self)
        ensures
            r.wf(),
            r.spec_config() == default_frame_config(),
            !r.spec_fragmented(),
            r.spec_fragmented_data() == Seq::<u8>::empty(),
            r.spec_fragmented_type() == OpCode::Text,
            r.spec_available() == Seq::<u8>::empty(),
            r.spec_consume_idx() == 0,
            r.spec_buf().len() == 4096,
    {
        Self::with_config(FrameConfig::default())
    }
}

impl FrameReadState {
    /// whether the frame announced at the start of the available data has a
    /// length (header and payload) that fits in a `usize`
    pub fn frame_len_ok(&self) -> (r: bool)
        requires
            self.wf(),
        ensures
            r == frame_len_fits(self.spec_config(), self.spec_available()),
    {
        let a = self.buf.ava_data();
        if a.len() < 2 {
            return true;
        }
        let lb = a[0] >> 4u8;
        if self.config.check_rsv && !(lb == 8u8 || lb == 0u8) {
            return true;
        }
        match parse_payload_len(a) {
            Err(_) => true,
            Ok((occ, pl)) => {
                let max = self.config.max_frame_payload_size;
                if max > 0 && pl > max {
                    true
                } else {
                    let mask = get_bit(a, 1, 0);
                    proof {
                        assert(0x80u8 >> 0u8 == 0x80u8) by (bit_vector);
                    }
                    let hl: usize = 1 + occ + if mask {
                        4
                    } else {
                        0
                    };
                    pl <= usize::MAX - hl
                }
            },
        }
    }
}

impl FrameReadState {
    /// take in what the available data holds: the next message, a fragment,
    /// or how much still has to be read
    #[verifier::rlimit(100)]
    pub fn receive_step(&mut self) -> (r: Result<ReadStep, WsError>)
        requires
            old(self).wf(),
            frame_len_fits(old(self).spec_config(), old(self).spec_available()),
        ensures
            final(self).wf(),
            final(self).spec_config() == old(self).spec_config(),
            ({
                let cfg = old(self).spec_config();
                let a = old(self).spec_available();
                if !h_wf(a) {
                    &&& r matches Ok(ReadStep::Poll(n)) && n == cfg.resize_size
                    &&& *final(self) == *old(self)
                } else {
                    match spec_parse_header(cfg, a) {
                        Err(e) => r == Err::<ReadStep, WsError>(e) && *final(self) == *old(self),
                        Ok((hl, pl, t)) => if a.len() < t {
                            &&& r matches Ok(ReadStep::Fill(n)) && n == t - a.len()
                            &&& *final(self) == *old(self)
                        } else {
                            let h = simplified_of(a);
                            let payload = frame_payload(cfg, a, hl, pl);
                            let (chk, frag) = spec_check_frame(old(self).spec_fragmented(), cfg, h, payload);
                            &&& final(self).spec_available() == a.skip(t)
                            &&& final(self).spec_fragmented() == frag
                            &&& match chk {
                                Err(e) => {
                                    &&& r == Err::<ReadStep, WsError>(e)
                                    &&& final(self).spec_fragmented_data() == old(self).spec_fragmented_data()
                                    &&& final(self).spec_fragmented_type() == old(self).spec_fragmented_type()
                                },
                                Ok(_) => {
                                    let data = if cfg.merge_frame {
                                        spec_merge_data(old(self).spec_fragmented_data(), h, payload)
                                    } else {
                                        old(self).spec_fragmented_data()
                                    };
                                    let ftype = if cfg.merge_frame && (h.code == OpCode::Text || h.code
                                        == OpCode::Binary) && !h.fin {
                                        h.code
                                    } else {
                                        old(self).spec_fragmented_type()
                                    };
                                    &&& final(self).spec_fragmented_data() == data
                                    &&& final(self).spec_fragmented_type() == ftype
                                    &&& match spec_step_result(cfg, h, payload, data, ftype) {
                                        Ok(Some((h2, p2))) => r matches Ok(ReadStep::Message(h3, v)) && h3
                                            == h2 && v@ == p2,
                                        Ok(None) => r matches Ok(ReadStep::Fragment),
                                        Err(e) => r == Err::<ReadStep, WsError>(e),
                                    }
                                },
                            }
                        },
                    }
                }
            }),
    {
        if !self.is_header_ok() {
            return Ok(ReadStep::Poll(self.config.resize_size));
        }
        let (header_len, payload_len, total_len) = match self.parse_frame_header() {
            Ok(v) => v,
            Err(e) => {
                return Err(e);
            },
        };
        let ava = self.available_len();
        if ava < total_len {
            return Ok(ReadStep::Fill(total_len - ava));
        }
        let ghost a = self.spec_available();
        let ghost b0 = self.spec_buf();
        let ghost c0 = self.spec_consume_idx() as int;
        let (header, range) = self.consume_frame(header_len, payload_len, total_len);
        proof {
            let start = c0 + header_len;
            let pl = payload_len as int;
            assert(a.subrange(header_len as int, header_len + pl) =~= b0.subrange(start, start + pl));
            assert(self.spec_buf().subrange(start, start + pl) =~= frame_payload(
                self.config,
                a,
                header_len as int,
                pl,
            ));
            assert(self.spec_available() =~= a.skip(total_len as int));
        }
        let s = range.start;
        let e = range.end;
        if self.config.merge_frame {
            match self.check_frame(header, Range { start: s, end: e }) {
                Ok(_) => {},
                Err(e) => {
                    return Err(e);
                },
            }
            let merged = match self.merge_frame(header, Range { start: s, end: e }) {
                Ok(m) => m,
                Err(e) => {
                    return Err(e);
                },
            };
            match merged {
                Some(true) => {
                    let h = SimplifiedHeader { code: self.fragmented_type, ..header };
                    if self.config.validate_utf8.should_check() && h.code == OpCode::Text && !simd_utf8_ok(
                        self.fragmented_data.as_slice(),
                    ) {
                        return Err(WsError::ProtocolError { close_code: 1007, error: ProtocolError::InvalidUtf8 });
                    }
                    let mut data: Vec<u8> = Vec::new();
                    data.extend_from_slice(self.fragmented_data.as_slice());
                    Ok(ReadStep::Message(h, data))
                },
                Some(false) => {
                    let mut data: Vec<u8> = Vec::new();
                    data.extend_from_slice(sub_slice(self.buf.buf.as_slice(), s, e));
                    Ok(ReadStep::Message(header, data))
                },
                None => Ok(ReadStep::Fragment),
            }
        } else {
            match self.check_frame(header, Range { start: s, end: e }) {
                Ok(_) => {},
                Err(e) => {
                    return Err(e);
                },
            }
            let mut data: Vec<u8> = Vec::new();
            data.extend_from_slice(sub_slice(self.buf.buf.as_slice(), s, e));
            Ok(ReadStep::Message(header, data))
        }
    }
}

// ---------------------------------------------------------------------------
// Writing frames.
// ---------------------------------------------------------------------------

/// one frame: header (no rsv bits) then the payload, masked with the key
/// when there is one
pub open spec fn frame_bytes(fin: bool, opcode: OpCode, key: Option<[u8; 4]>, data: Seq<u8>) -> Seq<u8> {
    frame_header(fin, false, false, false, opt_key(key), opcode, data.len() as u64) + match key {
        Some(k) => masked(data, k),
        None => data,
    }
}

/// the first key of `keys`, if keys are used
pub open spec fn first_key(keys: Option<Seq<[u8; 4]>>) -> Option<[u8; 4]> {
    match keys {
        Some(ks) => Some(ks[0]),
        None => None,
    }
}

/// the keys after the first, if keys are used
pub open spec fn rest_keys(keys: Option<Seq<[u8; 4]>>) -> Option<Seq<[u8; 4]>> {
    match keys {
        Some(ks) => Some(ks.skip(1)),
        None => None,
    }
}

/// `rest` cut into frames of `size` bytes (the last one may be shorter and
/// carries the fin bit), each with the next key of `keys`; the first frame
/// carries `opcode`, the ones after it are continuation frames
pub open spec fn encode_chunks(rest: Seq<u8>, size: int, opcode: OpCode, keys: Option<Seq<[u8; 4]>>) -> Seq<u8>
    decreases rest.len(),
{
    if rest.len() <= size || size <= 0 {
        frame_bytes(true, opcode, first_key(keys), rest)
    } else {
        frame_bytes(false, opcode, first_key(keys), rest.take(size)) + encode_chunks(
            rest.skip(size),
            size,
            OpCode::Continue,
            rest_keys(keys),
        )
    }
}

/// number of frames `encode_chunks` writes
pub open spec fn chunk_count(len: int, size: int) -> int
    decreases len,
{
    if len <= size || size <= 0 {
        1
    } else {
        1 + chunk_count(len - size, size)
    }
}

/// the size payloads are cut at when sent: `auto_fragment_size` when it is
/// set and smaller than the payload, else the whole payload
pub open spec fn send_chunk_size(config: FrameConfig, len: int) -> int {
    if config.auto_fragment_size > 0 && config.auto_fragment_size < len {
        config.auto_fragment_size as int
    } else {
        len
    }
}

/// number of frames sending a payload of `len` bytes takes
pub open spec fn send_frame_count(config: FrameConfig, len: int) -> int {
    chunk_count(len, send_chunk_size(config, len))
}

/// the bytes sending `payload` writes, masking frame `i` with `keys[i]`
/// when `mask_send_frame` is set
pub open spec fn spec_send_bytes(config: FrameConfig, opcode: OpCode, payload: Seq<u8>, keys: Seq<[u8; 4]>) -> Seq<u8> {
    encode_chunks(
        payload,
        send_chunk_size(config, payload.len() as int),
        opcode,
        if config.mask_send_frame {
            Some(keys)
        } else {
            None
        },
    )
}

proof fn lemma_chunk_count_pos(len: int, size: int)
    ensures
        chunk_count(len, size) >= 1,
    decreases len,
{
    if !(len <= size || size <= 0) {
        lemma_chunk_count_pos(len - size, size);
    }
}

/// `rest` cut into pieces of `size` bytes; the last may be shorter
pub open spec fn chunks_of(rest: Seq<u8>, size: int) -> Seq<Seq<u8>>
    decreases rest.len(),
{
    if rest.len() <= size || size <= 0 {
        seq![rest]
    } else {
        seq![rest.take(size)] + chunks_of(rest.skip(size), size)
    }
}

/// the frames of the given chunks, in order: the last with fin set, each
/// with the next key of `keys`, the first with `opcode` and the others as
/// continuation frames
pub open spec fn frames_of(chunks: Seq<Seq<u8>>, opcode: OpCode, keys: Option<Seq<[u8; 4]>>) -> Seq<u8>
    decreases chunks.len(),
{
    if chunks.len() == 0 {
        Seq::empty()
    } else {
        frame_bytes(chunks.len() == 1, opcode, first_key(keys), chunks[0]) + frames_of(
            chunks.drop_first(),
            OpCode::Continue,
            rest_keys(keys),
        )
    }
}

/// the chunks joined back together
pub open spec fn join_chunks(chunks: Seq<Seq<u8>>) -> Seq<u8>
    decreases chunks.len(),
{
    if chunks.len() == 0 {
        Seq::empty()
    } else {
        chunks[0] + join_chunks(chunks.drop_first())
    }
}

/// What sending writes is one frame per chunk of the payload: the payload
/// is cut into `chunk_count` pieces of at most the chunk size (the whole
/// payload when the size is not positive), joined they give the payload
/// back, only the last frame carries the fin bit, and only the first
/// carries the message opcode: the others are continuation frames.
pub proof fn lemma_send_frames(rest: Seq<u8>, size: int, opcode: OpCode, keys: Option<Seq<[u8; 4]>>)
    ensures
        encode_chunks(rest, size, opcode, keys) == frames_of(chunks_of(rest, size), opcode, keys),
        join_chunks(chunks_of(rest, size)) == rest,
        chunks_of(rest, size).len() == chunk_count(rest.len() as int, size),
        size > 0 ==> forall|i: int| 0 <= i < chunks_of(rest, size).len() ==> #[trigger] chunks_of(rest, size)[i].len() <= size,
    decreases rest.len(),
{
    if rest.len() <= size || size <= 0 {
        assert(chunks_of(rest, size) =~= seq![rest]);
        assert(seq![rest].drop_first() =~= Seq::<Seq<u8>>::empty());
        assert(frames_of(Seq::<Seq<u8>>::empty(), OpCode::Continue, rest_keys(keys)) == Seq::<u8>::empty());
        assert(join_chunks(Seq::<Seq<u8>>::empty()) == Seq::<u8>::empty());
        assert(frames_of(seq![rest], opcode, keys) =~= frame_bytes(true, opcode, first_key(keys), rest));
        assert(join_chunks(seq![rest]) =~= rest);
    } else {
        let tail = rest.skip(size);
        lemma_send_frames(tail, size, OpCode::Continue, rest_keys(keys));
        let cs = chunks_of(rest, size);
        let ct = chunks_of(tail, size);
        lemma_chunks_nonempty(tail, size);
        assert(cs =~= seq![rest.take(size)] + ct);
        assert(cs.drop_first() =~= ct);
        assert(cs.len() >= 2);
        assert(join_chunks(cs) =~= rest.take(size) + join_chunks(ct));
        assert(rest.take(size) + tail =~= rest);
        assert forall|i: int| 0 <= i < cs.len() implies #[trigger] cs[i].len() <= size by {
            if i > 0 {
                assert(cs[i] == ct[i - 1]);
            }
        }
    }
}

proof fn lemma_chunks_nonempty(rest: Seq<u8>, size: int)
    ensures
        chunks_of(rest, size).len() >= 1,
    decreases rest.len(),
{
    if !(rest.len() <= size || size <= 0) {
        lemma_chunks_nonempty(rest.skip(size), size);
    }
}

/// `rand::random` for a masking key; nothing is claimed of the key.
#[verifier::external_body]
pub(crate) fn random_key() -> (r: [u8; 4]) {
    rand::random()
}

/// append one frame of `data` to `out`
pub(crate) fn push_frame(out: &mut Vec<u8>, fin: bool, opcode: OpCode, key: Option<[u8; 4]>, data: &[u8])
    ensures
        final(out)@ == old(out)@ + frame_bytes(fin, opcode, key, data@),
{
    ctor_header(out, fin, false, false, false, key, opcode, data.len() as u64);
    let ghost o1 = out@;
    match key {
        Some(k) => {
            let mut tmp: Vec<u8> = Vec::new();
            tmp.extend_from_slice(data);
            let n = tmp.len();
            mask_range(&mut tmp, 0, n, k);
            assert(tmp@ =~= masked(data@, k));
            out.extend_from_slice(tmp.as_slice());
        },
        None => {
            out.extend_from_slice(data);
        },
    }
    assert(out@ =~= old(out)@ + frame_bytes(fin, opcode, key, data@));
}

/// the frames that sending `payload` writes, frame `i` masked with
/// `keys[i]` when `mask_send_frame` is set
pub fn encode_send(config: &FrameConfig, opcode: OpCode, payload: &[u8], keys: &[[u8; 4]]) -> (r: Vec<u8>)
    requires
        config.mask_send_frame ==> keys@.len() >= send_frame_count(*config, payload@.len() as int),
    ensures
        r@ == spec_send_bytes(*config, opcode, payload@, keys@),
{
    let len = payload.len();
    let size = if config.auto_fragment_size > 0 && config.auto_fragment_size < len {
        config.auto_fragment_size
    } else {
        len
    };
    let mask = config.mask_send_frame;
    let ghost all_keys: Option<Seq<[u8; 4]>> = if mask {
        Some(keys@)
    } else {
        None
    };
    let mut out: Vec<u8> = Vec::new();
    let mut pos: usize = 0;
    let mut k: usize = 0;
    let mut code = opcode;
    proof {
        assert(payload@.skip(0) =~= payload@);
        assert(keys@.skip(0) =~= keys@);
        assert(out@ + spec_send_bytes(*config, opcode, payload@, keys@) =~= spec_send_bytes(
            *config,
            opcode,
            payload@,
            keys@,
        ));
        lemma_chunk_count_pos(len as int, size as int);
    }
    while len - pos > size
        invariant
            pos <= len == payload@.len(),
            size == send_chunk_size(*config, len as int),
            mask == config.mask_send_frame,
            all_keys == (if mask {
                Some(keys@)
            } else {
                None
            }),
            mask ==> k + chunk_count(len - pos, size as int) <= keys@.len(),
            out@ + encode_chunks(
                payload@.skip(pos as int),
                size as int,
                code,
                if mask {
                    Some(keys@.skip(k as int))
                } else {
                    None
                },
            ) == spec_send_bytes(*config, opcode, payload@, keys@),
        decreases len - pos,
    {
        let ghost rest = payload@.skip(pos as int);
        proof {
            lemma_chunk_count_pos(len - pos, size as int);
            lemma_chunk_count_pos(len - pos - size, size as int);
        }
        let key = if mask {
            Some(keys[k])
        } else {
            None
        };
        let chunk = sub_slice(payload, pos, pos + size);
        let ghost o0 = out@;
        push_frame(&mut out, false, code, key, chunk);
        proof {
            assert(chunk@ =~= rest.take(size as int));
            assert(rest.skip(size as int) =~= payload@.skip(pos + size));
            if mask {
                assert(keys@.skip(k as int).skip(1) =~= keys@.skip(k + 1));
            }
            assert(o0 + encode_chunks(rest, size as int, code, if mask {
                Some(keys@.skip(k as int))
            } else {
                None
            }) == out@ + encode_chunks(payload@.skip(pos + size), size as int, OpCode::Continue, if mask {
                Some(keys@.skip(k + 1))
            } else {
                None
            }));
        }
        pos = pos + size;
        code = OpCode::Continue;
        if mask {
            k = k + 1;
        }
    }
    proof {
        lemma_chunk_count_pos(len - pos, size as int);
    }
    let key = if mask {
        Some(keys[k])
    } else {
        None
    };
    let last = sub_slice(payload, pos, len);
    push_frame(&mut out, true, code, key, last);
    proof {
        assert(last@ =~= payload@.skip(pos as int));
    }
    out
}

/// websocket writing state
pub struct FrameWriteState {
    config: FrameConfig,
}

impl FrameWriteState {
    /// the config
    pub closed spec fn spec_config(self) -> FrameConfig {
        self.config
    }

    /// construct with config
    pub fn with_config(config: FrameConfig) -> (r: Self)
        ensures
            r.spec_config() == config,
    {
        Self { config }
    }

    /// the bytes that send `payload` with `opcode`: one frame, or frames of
    /// `auto_fragment_size` bytes when it is set and smaller than the
    /// payload (the first with `opcode`, the others continuation frames, the
    /// last with fin); with `mask_send_frame` each frame gets a fresh random
    /// key and its payload is masked with it
    pub fn send(&mut self, opcode: OpCode, payload: &[u8]) -> (r: Vec<u8>)
        ensures
            final(self).spec_config() == old(self).spec_config(),
            exists|keys: Seq<[u8; 4]>|
                keys.len() == send_frame_count(old(self).spec_config(), payload@.len() as int)
                    && r@ == #[trigger] spec_send_bytes(old(self).spec_config(), opcode, payload@, keys),
    {
        let len = payload.len();
        let size = if self.config.auto_fragment_size > 0 && self.config.auto_fragment_size < len {
            self.config.auto_fragment_size
        } else {
            len
        };
        let mut keys: Vec<[u8; 4]> = Vec::new();
        let mut rest = len;
        let ghost count = send_frame_count(self.config, len as int);
        loop
            invariant_except_break
                size == send_chunk_size(self.config, len as int),
                rest <= len,
                keys@.len() + chunk_count(rest as int, size as int) == count,
            ensures
                keys@.len() == count,
            decreases rest,
        {
            keys.push(random_key());
            if rest <= size || size == 0 {
                break;
            }
            rest = rest - size;
        }
        let r = encode_send(&self.config, opcode, payload, keys.as_slice());
        assert(r@ == spec_send_bytes(self.config, opcode, payload@, keys@));
        r
    }

    /// the bytes of a frame as it is: header, then payload
    pub fn send_owned_frame(&mut self, frame: &OwnedFrame) -> (r: Vec<u8>)
        ensures
            final(self).spec_config() == old(self).spec_config(),
            r@ == frame.spec_header() + frame.spec_payload(),
    {
        frame_wire_bytes(frame)
    }
}

impl Default for FrameWriteState {
    fn default() -> (r: Self)
        ensures
            r.spec_config() == default_frame_config(),
    {
        Self::with_config(FrameConfig::default())
    }
}

/// The header of a frame determines what the reader sees, whatever follows it.
proof fn lemma_header_prefix(h: Seq<u8>, rest: Seq<u8>)
    requires
        h_wf(h),
        h.len() == h_header_len(h),
    ensures
        ({
            let b = h + rest;
            &&& h_wf(b)
            &&& h_header_len(b) == h_header_len(h)
            &&& h_len7(b) == h_len7(h)
            &&& h_masked(b) == h_masked(h)
            &&& h_payload_len(b) == h_payload_len(h)
            &&& h_mask_key(b) == h_mask_key(h)
            &&& simplified_of(b) == simplified_of(h)
            &&& spec_parse_payload_len(b) == spec_parse_payload_len(h)
            &&& b[0] == h[0]
            &&& b.skip(h.len() as int) == rest
        }),
{
    let b = h + rest;
    assert(b[0] == h[0] && b[1] == h[1]);
    if h_len7(h) == 126 {
        assert(b[2] == h[2] && b[3] == h[3]);
    }
    if h_len7(h) == 127 {
        assert(b[2] == h[2] && b[3] == h[3] && b[4] == h[4] && b[5] == h[5]);
        assert(b[6] == h[6] && b[7] == h[7] && b[8] == h[8] && b[9] == h[9]);
    }
    if h_masked(h) {
        let o = h_len_occupied(h);
        assert(b.subrange(1 + o, 5 + o) =~= h.subrange(1 + o, 5 + o));
    }
    assert(b.skip(h.len() as int) =~= rest);
}

/// The messages a reader hands out for `bytes`, in order, when
/// `FrameReadState::receive_step` is called on them until it asks for more
/// data, starting from the fragmentation state `fragmented`, `data`,
/// `ftype`; or the first error. Each frame goes through the steps that
/// `receive_step` states: header, payload, checks, merging, message.
pub open spec fn read_frames(
    config: FrameConfig,
    fragmented: bool,
    data: Seq<u8>,
    ftype: OpCode,
    bytes: Seq<u8>,
) -> Result<Seq<(SimplifiedHeader, Seq<u8>)>, WsError>
    decreases bytes.len(),
{
    if !h_wf(bytes) {
        Ok(Seq::empty())
    } else {
        match spec_parse_header(config, bytes) {
            Err(e) => Err(e),
            Ok((hl, pl, t)) => if bytes.len() < t || t <= 0 {
                Ok(Seq::empty())
            } else {
                let h = simplified_of(bytes);
                let payload = frame_payload(config, bytes, hl, pl);
                let (chk, frag) = spec_check_frame(fragmented, config, h, payload);
                match chk {
                    Err(e) => Err(e),
                    Ok(_) => {
                        let data2 = if config.merge_frame {
                            spec_merge_data(data, h, payload)
                        } else {
                            data
                        };
                        let ftype2 = if config.merge_frame && (h.code == OpCode::Text || h.code == OpCode::Binary)
                            && !h.fin {
                            h.code
                        } else {
                            ftype
                        };
                        match spec_step_result(config, h, payload, data2, ftype2) {
                            Err(e) => Err(e),
                            Ok(m) => match read_frames(config, frag, data2, ftype2, bytes.skip(t)) {
                                Err(e) => Err(e),
                                Ok(ms) => Ok(
                                    match m {
                                        Some(x) => seq![x] + ms,
                                        None => ms,
                                    },
                                ),
                            },
                        }
                    },
                }
            },
        }
    }
}

/// What the reader sees of one frame written by `push_frame`, whatever
/// follows it: the header fields, the payload length and, unmasked, the
/// payload.
#[verifier::rlimit(40)]
proof fn lemma_frame_read(
    read: FrameConfig,
    fin: bool,
    code: OpCode,
    key: Option<[u8; 4]>,
    chunk: Seq<u8>,
    rest: Seq<u8>,
)
    requires
        chunk.len() <= usize::MAX,
        read.auto_unmask,
        read.max_frame_payload_size == 0 || chunk.len() <= read.max_frame_payload_size,
    ensures
        ({
            let bytes = frame_bytes(fin, code, key, chunk) + rest;
            let hl = spec_header_len(key is Some, chunk.len() as u64);
            &&& h_wf(bytes)
            &&& spec_parse_header(read, bytes) == Ok::<(int, int, int), WsError>(
                (hl, chunk.len() as int, hl + chunk.len()),
            )
            &&& hl + chunk.len() <= bytes.len()
            &&& hl > 0
            &&& simplified_of(bytes) == SimplifiedHeader { fin, rsv1: false, rsv2: false, rsv3: false, code }
            &&& frame_payload(read, bytes, hl, chunk.len() as int) == chunk
            &&& bytes.skip(hl + chunk.len()) == rest
        }),
{
    let len = chunk.len() as u64;
    let k = opt_key(key);
    let body = match key {
        Some(kk) => masked(chunk, kk),
        None => chunk,
    };
    let hdr = frame_header(fin, false, false, false, k, code, len);
    lemma_frame_header_roundtrip(fin, false, false, false, k, code, len);
    let bytes = frame_bytes(fin, code, key, chunk) + rest;
    assert(bytes =~= hdr + (body + rest));
    lemma_header_prefix(hdr, body + rest);
    let v = opcode_value(code);
    assert(v < 16);
    assert((0x80u8 | 0u8 | 0u8 | 0u8 | v) >> 4u8 == 8u8) by (bit_vector)
        requires
            v < 16,
    ;
    assert((0u8 | 0u8 | 0u8 | 0u8 | v) >> 4u8 == 0u8) by (bit_vector)
        requires
            v < 16,
    ;
    assert(first_byte(fin, false, false, false, code) >> 4u8 == if fin { 8u8 } else { 0u8 });
    let hl = spec_header_len(key is Some, len);
    assert(bytes.subrange(hl, hl + chunk.len()) =~= body);
    assert(bytes.skip(hl + chunk.len()) =~= rest);
    if let Some(kk) = key {
        assert(h_mask_key(bytes) == Some(kk@));
        assert(kk@ =~= seq![kk[0], kk[1], kk[2], kk[3]]);
        assert([kk[0], kk[1], kk[2], kk[3]] =~= kk);
        crate::codec::lemma_mask_involution(chunk, kk);
    }
}

/// One frame written by `push_frame`, followed by `tail`, read: the
/// definition of `read_frames` taken one step with the frame's fields.
#[verifier::rlimit(40)]
proof fn lemma_read_step(
    read: FrameConfig,
    fragmented: bool,
    data: Seq<u8>,
    ftype: OpCode,
    fin: bool,
    code: OpCode,
    key: Option<[u8; 4]>,
    chunk: Seq<u8>,
    tail: Seq<u8>,
)
    requires
        chunk.len() <= usize::MAX,
        read.auto_unmask,
        read.merge_frame,
        read.max_frame_payload_size == 0 || chunk.len() <= read.max_frame_payload_size,
    ensures
        ({
            let h = SimplifiedHeader { fin, rsv1: false, rsv2: false, rsv3: false, code };
            let (chk, frag) = spec_check_frame(fragmented, read, h, chunk);
            let data2 = spec_merge_data(data, h, chunk);
            let ftype2 = if (code == OpCode::Text || code == OpCode::Binary) && !fin {
                code
            } else {
                ftype
            };
            read_frames(read, fragmented, data, ftype, frame_bytes(fin, code, key, chunk) + tail) == match chk {
                Err(e) => Err(e),
                Ok(_) => match spec_step_result(read, h, chunk, data2, ftype2) {
                    Err(e) => Err(e),
                    Ok(m) => match read_frames(read, frag, data2, ftype2, tail) {
                        Err(e) => Err(e),
                        Ok(ms) => Ok(
                            match m {
                                Some(x) => seq![x] + ms,
                                None => ms,
                            },
                        ),
                    },
                },
            }
        }),
{
    lemma_frame_read(read, fin, code, key, chunk, tail);
}

/// Nothing is read from no bytes.
proof fn lemma_read_nothing(read: FrameConfig, fragmented: bool, data: Seq<u8>, ftype: OpCode)
    ensures
        read_frames(read, fragmented, data, ftype, Seq::empty()) == Ok::<Seq<(SimplifiedHeader, Seq<u8>)>, WsError>(
            Seq::empty(),
        ),
{
}

/// the UTF-8 checks a text message passes under a policy: the merged
/// message (or the single frame) when the policy checks at all, and with
/// `FastFail` also the first fragment of a fragmented message
pub open spec fn text_passes(policy: ValidateUtf8Policy, message: Seq<u8>, first: Seq<u8>) -> bool {
    &&& policy != ValidateUtf8Policy::Off ==> vstd::utf8::valid_utf8(message)
    &&& policy == ValidateUtf8Policy::FastFail ==> vstd::utf8::valid_utf8(first)
}

/// The last frame `encode_chunks` writes completes the message.
#[verifier::rlimit(40)]
proof fn lemma_read_last_chunk(
    read: FrameConfig,
    rest: Seq<u8>,
    size: int,
    code: OpCode,
    keys: Option<Seq<[u8; 4]>>,
    data: Seq<u8>,
    ftype: OpCode,
)
    requires
        rest.len() <= usize::MAX,
        0 < size,
        rest.len() <= size,
        read.auto_unmask,
        read.merge_frame,
        read.max_frame_payload_size == 0 || size <= read.max_frame_payload_size,
        code == OpCode::Continue ==> (ftype == OpCode::Text || ftype == OpCode::Binary),
        code == OpCode::Text || code == OpCode::Binary || code == OpCode::Continue,
        keys matches Some(ks) ==> ks.len() >= chunk_count(rest.len() as int, size),
        ({
            let kind = if code == OpCode::Continue { ftype } else { code };
            let message = if code == OpCode::Continue { data + rest } else { rest };
            kind == OpCode::Text && code != OpCode::Continue && rest.len() > size ==> text_passes(
                read.validate_utf8,
                message,
                rest.take(size),
            )
        }),
        ({
            let kind = if code == OpCode::Continue { ftype } else { code };
            let message = if code == OpCode::Continue { data + rest } else { rest };
            kind == OpCode::Text && (code == OpCode::Continue || rest.len() <= size) ==> text_passes(
                read.validate_utf8,
                message,
                message,
            )
        }),
    ensures
        read_frames(read, code == OpCode::Continue, data, ftype, encode_chunks(rest, size, code, keys)) == Ok::<
            Seq<(SimplifiedHeader, Seq<u8>)>,
            WsError,
        >(
            seq![
                (
                    SimplifiedHeader {
                        fin: true,
                        rsv1: false,
                        rsv2: false,
                        rsv3: false,
                        code: if code == OpCode::Continue { ftype } else { code },
                    },
                    if code == OpCode::Continue { data + rest } else { rest },
                ),
            ],
        ),
{
    let fragmented = code == OpCode::Continue;
    let key = first_key(keys);
    let bytes = encode_chunks(rest, size, code, keys);
    assert(bytes =~= frame_bytes(true, code, key, rest) + Seq::<u8>::empty());
    lemma_read_step(read, fragmented, data, ftype, true, code, key, rest, Seq::empty());
    let h = SimplifiedHeader { fin: true, rsv1: false, rsv2: false, rsv3: false, code };
    let (chk, frag) = spec_check_frame(fragmented, read, h, rest);
    assert(chk is Ok);
    let data2 = spec_merge_data(data, h, rest);
    lemma_read_nothing(read, frag, data2, ftype);
    let msg = (
        SimplifiedHeader {
            fin: true,
            rsv1: false,
            rsv2: false,
            rsv3: false,
            code: if fragmented { ftype } else { code },
        },
        if fragmented { data + rest } else { rest },
    );
    assert(spec_step_result(read, h, rest, data2, ftype) == Ok::<
        Option<(SimplifiedHeader, Seq<u8>)>,
        WsError,
    >(Some(msg)));
    assert(seq![msg] + Seq::<(SimplifiedHeader, Seq<u8>)>::empty() =~= seq![msg]);
}

/// Reading the frames `encode_chunks` wrote, continuing a message whose
/// merged data so far is `data` (`code` is `Continue`) or starting one
/// (`code` is the message opcode), gives exactly one message.
#[verifier::rlimit(80)]
proof fn lemma_read_chunks(
    read: FrameConfig,
    rest: Seq<u8>,
    size: int,
    code: OpCode,
    keys: Option<Seq<[u8; 4]>>,
    data: Seq<u8>,
    ftype: OpCode,
)
    requires
        rest.len() <= usize::MAX,
        size > 0,
        read.auto_unmask,
        read.merge_frame,
        read.max_frame_payload_size == 0 || size <= read.max_frame_payload_size,
        code == OpCode::Continue ==> (ftype == OpCode::Text || ftype == OpCode::Binary),
        code == OpCode::Text || code == OpCode::Binary || code == OpCode::Continue,
        keys matches Some(ks) ==> ks.len() >= chunk_count(rest.len() as int, size),
        ({
            let kind = if code == OpCode::Continue { ftype } else { code };
            let message = if code == OpCode::Continue { data + rest } else { rest };
            kind == OpCode::Text && code != OpCode::Continue && rest.len() > size ==> text_passes(
                read.validate_utf8,
                message,
                rest.take(size),
            )
        }),
        ({
            let kind = if code == OpCode::Continue { ftype } else { code };
            let message = if code == OpCode::Continue { data + rest } else { rest };
            kind == OpCode::Text && (code == OpCode::Continue || rest.len() <= size) ==> text_passes(
                read.validate_utf8,
                message,
                message,
            )
        }),
    ensures
        read_frames(read, code == OpCode::Continue, data, ftype, encode_chunks(rest, size, code, keys)) == Ok::<
            Seq<(SimplifiedHeader, Seq<u8>)>,
            WsError,
        >(
            seq![
                (
                    SimplifiedHeader {
                        fin: true,
                        rsv1: false,
                        rsv2: false,
                        rsv3: false,
                        code: if code == OpCode::Continue { ftype } else { code },
                    },
                    if code == OpCode::Continue { data + rest } else { rest },
                ),
            ],
        ),
    decreases rest.len(),
{
    let fragmented = code == OpCode::Continue;
    let key = first_key(keys);
    if rest.len() <= size {
        lemma_read_last_chunk(read, rest, size, code, keys, data, ftype);
    } else {
        let head = rest.take(size);
        let tail = rest.skip(size);
        let tbytes = encode_chunks(tail, size, OpCode::Continue, rest_keys(keys));
        lemma_read_step(read, fragmented, data, ftype, false, code, key, head, tbytes);
        let h = SimplifiedHeader { fin: false, rsv1: false, rsv2: false, rsv3: false, code };
        let (chk, frag) = spec_check_frame(fragmented, read, h, head);
        assert(chk is Ok && frag);
        let data2 = if fragmented { data + head } else { head };
        let ftype2 = if fragmented { ftype } else { code };
        assert(spec_merge_data(data, h, head) == data2);
        assert(spec_step_result(read, h, head, data2, ftype2) == Ok::<
            Option<(SimplifiedHeader, Seq<u8>)>,
            WsError,
        >(None));
        lemma_chunk_count_pos(rest.len() as int, size);
        if let Some(ks) = keys {
            assert(ks.skip(1).len() == ks.len() - 1);
        }
        assert(data2 + tail =~= if fragmented { data + rest } else { rest }) by {
            assert(head + tail =~= rest);
        }
        lemma_read_chunks(read, tail, size, OpCode::Continue, rest_keys(keys), data2, ftype2);
    }
}

/// Reading what `FrameWriteState::send` wrote gives the message back: a
/// fresh reader that merges fragments hands out exactly one message, with
/// fin set, no rsv bit, the opcode sent and the payload sent, whether the
/// payload went out as one frame or as fragments (a text message passing
/// the reader's UTF-8 policy).
pub proof fn lemma_send_read_roundtrip(
    write: FrameConfig,
    read: FrameConfig,
    opcode: OpCode,
    payload: Seq<u8>,
    keys: Seq<[u8; 4]>,
    data: Seq<u8>,
    ftype: OpCode,
)
    requires
        payload.len() <= usize::MAX,
        opcode == OpCode::Text || opcode == OpCode::Binary,
        write.mask_send_frame ==> keys.len() >= send_frame_count(write, payload.len() as int),
        read.auto_unmask,
        read.merge_frame,
        read.max_frame_payload_size == 0 || send_chunk_size(write, payload.len() as int)
            <= read.max_frame_payload_size,
        opcode == OpCode::Text ==> text_passes(
            read.validate_utf8,
            payload,
            payload.take(send_chunk_size(write, payload.len() as int)),
        ),
    ensures
        read_frames(read, false, data, ftype, spec_send_bytes(write, opcode, payload, keys)) == Ok::<
            Seq<(SimplifiedHeader, Seq<u8>)>,
            WsError,
        >(seq![(SimplifiedHeader { fin: true, rsv1: false, rsv2: false, rsv3: false, code: opcode }, payload)]),
{
    let size = send_chunk_size(write, payload.len() as int);
    let ks = if write.mask_send_frame {
        Some(keys)
    } else {
        None
    };
    if size > 0 {
        lemma_read_chunks(read, payload, size, opcode, ks, data, ftype);
    } else {
        // an empty payload: one frame
        assert(payload.len() == 0);
        assert(payload.take(0) =~= payload);
        lemma_read_chunks(read, payload, 1, opcode, ks, data, ftype);
        assert(encode_chunks(payload, 1, opcode, ks) == encode_chunks(payload, size, opcode, ks));
    }
}

// ---------------------------------------------------------------------------
// Reading one frame at a time, its payload handed to a writer.
// ---------------------------------------------------------------------------

/// the message of the error raised when the stream ends inside a frame
pub open spec fn eof_message() -> Seq<char> {
    "failed to fill whole buffer"@
}

/// the message of the error raised when an unmasked payload is cut short
pub open spec fn short_copy_message() -> Seq<char> {
    "writer cap is not enough"@
}

/// number of header bytes of the frame that `h` starts, for `h` holding at
/// least the first two
fn header_len_of(h: &[u8]) -> (r: usize)
    requires
        h@.len() >= 2,
    ensures
        r == h_header_len(h@),
{
    let b1 = h[1];
    let l7 = b1 & 127u8;
    assert(l7 <= 127) by (bit_vector)
        requires
            l7 == b1 & 127u8,
    ;
    let mask = get_bit(h, 1, 0);
    proof {
        assert(0x80u8 >> 0u8 == 0x80u8) by (bit_vector);
    }
    let occ: usize = if l7 <= 125 {
        1
    } else if l7 == 126 {
        3
    } else {
        9
    };
    1 + occ + if mask {
        4
    } else {
        0
    }
}

/// reading state that reads one frame at a time and hands its payload,
/// unmasked, to a writer
pub struct FrameNewReadState {
    config: FrameConfig,
}

impl FrameNewReadState {
    /// the config
    pub closed spec fn spec_config(self) -> FrameConfig {
        self.config
    }

    /// construct with config
    pub fn with_config(config: FrameConfig) -> (r: Self)
        ensures
            r.spec_config() == config,
    {
        Self { config }
    }

    /// how many bytes from the start of a frame have to be read to go on,
    /// given the `prefix` read so far: the first two, then the whole
    /// header, then header and payload (at most `usize::MAX`)
    pub fn bytes_needed(prefix: &[u8]) -> (r: usize)
        ensures
            r == (if prefix@.len() < 2 {
                2
            } else if prefix@.len() < h_header_len(prefix@) {
                h_header_len(prefix@)
            } else if h_header_len(prefix@) + h_payload_len(prefix@) <= usize::MAX {
                h_header_len(prefix@) + h_payload_len(prefix@)
            } else {
                usize::MAX as int
            }),
    {
        if prefix.len() < 2 {
            return 2;
        }
        let hl = header_len_of(prefix);
        if prefix.len() < hl {
            return hl;
        }
        let pl = frame_sep_of(prefix).1;
        if pl <= (usize::MAX - hl) as u64 {
            hl + pl as usize
        } else {
            usize::MAX
        }
    }

    /// read the frame at the start of `stream`: append its payload,
    /// unmasked, to `buf` and return its payload length and opcode. A
    /// stream that ends before the frame does is an I/O error; an unmasked
    /// payload cut short is first copied as far as it goes.
    pub fn receive(&mut self, stream: &[u8], buf: &mut Vec<u8>) -> (r: Result<(usize, OpCode), WsError>)
        ensures
            final(self).spec_config() == old(self).spec_config(),
            ({
                let s = stream@;
                let hl = h_header_len(s);
                let pl = h_payload_len(s) as int;
                if !h_wf(s) || (h_masked(s) && s.len() - hl < pl) {
                    &&& r matches Err(WsError::IOError(m)) && m@ == eof_message()
                    &&& final(buf)@ == old(buf)@
                } else if s.len() - hl < pl {
                    &&& r matches Err(WsError::IOError(m)) && m@ == short_copy_message()
                    &&& final(buf)@ == old(buf)@ + s.skip(hl)
                } else {
                    &&& r == Ok::<(usize, OpCode), WsError>((h_payload_len(s) as usize, h_opcode(s)))
                    &&& match h_mask_key(s) {
                        Some(k) => final(buf)@ == old(buf)@ + masked(
                            s.subrange(hl, hl + pl),
                            [k[0], k[1], k[2], k[3]],
                        ),
                        None => final(buf)@ == old(buf)@ + s.subrange(hl, hl + pl),
                    }
                }
            }),
    {
        if stream.len() < 2 {
            return Err(WsError::IOError(String::from_str("failed to fill whole buffer")));
        }
        let hl = header_len_of(stream);
        if stream.len() < hl {
            return Err(WsError::IOError(String::from_str("failed to fill whole buffer")));
        }
        let pl = frame_sep_of(stream).1;
        let code = simplified_header_of(stream).code;
        let key = masking_key_of(stream);
        let rest = stream.len() - hl;
        match key {
            Some(k) => {
                if (rest as u64) < pl {
                    return Err(WsError::IOError(String::from_str("failed to fill whole buffer")));
                }
                let n = pl as usize;
                let mut data: Vec<u8> = Vec::new();
                data.extend_from_slice(sub_slice(stream, hl, hl + n));
                mask_range(&mut data, 0, n, k);
                buf.extend_from_slice(data.as_slice());
                proof {
                    assert(k@ =~= seq![k[0], k[1], k[2], k[3]]);
                    assert([k[0], k[1], k[2], k[3]] =~= k);
                    assert(data@ =~= masked(stream@.subrange(hl as int, hl + n), k));
                }
                Ok((n, code))
            },
            None => {
                if (rest as u64) < pl {
                    buf.extend_from_slice(sub_slice(stream, hl, stream.len()));
                    proof {
                        assert(stream@.subrange(hl as int, stream@.len() as int) =~= stream@.skip(hl as int));
                    }
                    return Err(WsError::IOError(String::from_str("writer cap is not enough")));
                }
                let n = pl as usize;
                buf.extend_from_slice(sub_slice(stream, hl, hl + n));
                Ok((n, code))
            },
        }
    }
}

impl Default for FrameNewReadState {
    fn default() -> (r: Self)
        ensures
            r.spec_config() == default_frame_config(),
    {
        Self::with_config(FrameConfig::default())
    }
}

/// default websocket frame encoder
#[derive(Debug, Clone)]
pub struct FrameEncoder {}

impl Default for FrameEncoder {
    fn default() -> (r: Self) {
        Self {  }
    }
}

impl FrameEncoder {
    /// append a frame as it is held (header, then payload) to `dst`
    pub fn encode(&mut self, item: &OwnedFrame, dst: &mut BytesMut) -> (r: Result<(), WsError>)
        ensures
            r is Ok,
            bytes_of(*final(dst)) == bytes_of(*old(dst)) + item.spec_header() + item.spec_payload(),
    {
        let bytes = frame_wire_bytes(item);
        bm_extend(dst, bytes.as_slice());
        Ok(())
    }
}

/// the fragment data after continuation frames without fin, one per payload
pub open spec fn merge_continuations(data: Seq<u8>, payloads: Seq<Seq<u8>>) -> Seq<u8>
    decreases payloads.len(),
{
    if payloads.len() == 0 {
        data
    } else {
        merge_continuations(
            spec_merge_data(
                data,
                SimplifiedHeader { fin: false, rsv1: false, rsv2: false, rsv3: false, code: OpCode::Continue },
                payloads[0],
            ),
            payloads.drop_first(),
        )
    }
}

/// the payloads joined in order
pub open spec fn join_payloads(payloads: Seq<Seq<u8>>) -> Seq<u8>
    decreases payloads.len(),
{
    if payloads.len() == 0 {
        Seq::empty()
    } else {
        payloads[0] + join_payloads(payloads.drop_first())
    }
}

proof fn lemma_merge_continuations(data: Seq<u8>, payloads: Seq<Seq<u8>>)
    ensures
        merge_continuations(data, payloads) == data + join_payloads(payloads),
    decreases payloads.len(),
{
    if payloads.len() == 0 {
        assert(data + Seq::<u8>::empty() =~= data);
    } else {
        let h = SimplifiedHeader { fin: false, rsv1: false, rsv2: false, rsv3: false, code: OpCode::Continue };
        lemma_merge_continuations(spec_merge_data(data, h, payloads[0]), payloads.drop_first());
        assert(data + payloads[0] + join_payloads(payloads.drop_first()) =~= data + join_payloads(payloads));
    }
}

/// A fragmented message comes out whole: a text or binary frame without
/// fin starts it (whatever fragment data there was), continuation frames
/// without fin hand out nothing, and the continuation frame with fin hands
/// out one message with the first frame's opcode and all the payloads
/// joined in order.
pub proof fn lemma_fragments_merge(
    old_data: Seq<u8>,
    first: SimplifiedHeader,
    first_payload: Seq<u8>,
    middle: Seq<Seq<u8>>,
    last: SimplifiedHeader,
    last_payload: Seq<u8>,
)
    requires
        first.code == OpCode::Text || first.code == OpCode::Binary,
        !first.fin,
        last.code == OpCode::Continue,
        last.fin,
    ensures
        spec_merge_result(first) is None,
        spec_merge_result(
            SimplifiedHeader { fin: false, rsv1: false, rsv2: false, rsv3: false, code: OpCode::Continue },
        ) is None,
        ({
            let d = spec_merge_data(
                merge_continuations(spec_merge_data(old_data, first, first_payload), middle),
                last,
                last_payload,
            );
            &&& d == first_payload + join_payloads(middle) + last_payload
            &&& spec_message(true, last, last_payload, d, first.code) == Some(
                (SimplifiedHeader { code: first.code, ..last }, d),
            )
        }),
{
    lemma_merge_continuations(first_payload, middle);
}

} // verus!
